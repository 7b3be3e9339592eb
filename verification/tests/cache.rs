use my_tasks::cache::Cache;
use my_tasks::calendar::{Calendar, SupportedComponents};
use my_tasks::item::{Item, ItemId, Task};
use my_tasks::timestamp::Timestamp;
use my_tasks::traits::{CalDavSource, SyncSlave};

fn calendar(name: &str, url: &str) -> Calendar {
    Calendar::new(name.to_string(), url.to_string(), SupportedComponents::todo())
}

fn task(value: u64, name: &str) -> Item {
    Item::Task(Task::new(ItemId::new(value), name.to_string(), Timestamp::from_millis(1)))
}

#[test]
fn a_new_cache_is_empty_and_has_no_checkpoint() {
    let cache = Cache::new();
    assert!(cache.get_calendars().unwrap().is_empty());
    assert_eq!(cache.get_last_sync(), None);
    assert!(cache.get_calendar(&"http://todo.list/cal".to_string()).is_none());
    assert!(cache.validate());
}

#[test]
fn a_cache_holds_one_calendar_under_each_url() {
    let mut cache = Cache::new();
    assert!(cache.add_calendar(calendar("first", "http://todo.list/a")));
    assert!(cache.add_calendar(calendar("second", "http://todo.list/b")));
    assert!(!cache.add_calendar(calendar("impostor", "http://todo.list/a")));
    let listed: Vec<String> = cache.get_calendars().unwrap().iter().map(|c| c.name()).collect();
    assert_eq!(listed, vec!["first".to_string(), "second".to_string()]);
    assert_eq!(cache.get_calendar(&"http://todo.list/a".to_string()).unwrap().name(), "first");
    assert_eq!(cache.get_calendar(&"http://todo.list/b".to_string()).unwrap().name(), "second");
    assert!(cache.get_calendar(&"http://todo.list/c".to_string()).is_none());
    assert!(cache.validate());
}

#[test]
fn a_calendar_of_the_cache_can_be_changed_in_place() {
    let mut cache = Cache::new();
    cache.add_calendar(calendar("first", "http://todo.list/a"));
    cache.add_calendar(calendar("second", "http://todo.list/b"));
    let url = "http://todo.list/b".to_string();
    cache.get_calendar_mut(&url).unwrap().add_item(task(1, "task A")).unwrap();
    assert!(cache.get_calendar_mut(&"http://todo.list/c".to_string()).is_none());
    assert_eq!(cache.get_calendar(&url).unwrap().tasks().len(), 1);
    assert_eq!(cache.get_calendar(&"http://todo.list/a".to_string()).unwrap().tasks().len(), 0);
}

#[test]
fn the_calendars_of_the_cache_can_be_changed_through_the_list() {
    let mut cache = Cache::new();
    cache.add_calendar(calendar("first", "http://todo.list/a"));
    cache.add_calendar(calendar("second", "http://todo.list/b"));
    for cal in cache.get_calendars_mut().unwrap().iter_mut() {
        cal.add_item(task(1, "task A")).unwrap();
    }
    assert_eq!(cache.get_calendar(&"http://todo.list/a".to_string()).unwrap().tasks().len(), 1);
    assert_eq!(cache.get_calendar(&"http://todo.list/b".to_string()).unwrap().tasks().len(), 1);
    assert!(cache.validate());
    // A list with two calendars under one URL is not what a source may hold.
    cache.get_calendars_mut().unwrap().push(calendar("impostor", "http://todo.list/a"));
    assert!(!cache.validate());
}

#[test]
fn the_checkpoint_is_what_was_set_last() {
    let mut cache = Cache::new();
    cache.add_calendar(calendar("first", "http://todo.list/a"));
    cache.update_last_sync(Timestamp::from_millis(77));
    assert_eq!(cache.get_last_sync(), Some(Timestamp::from_millis(77)));
    cache.update_last_sync(Timestamp::from_millis(78));
    assert_eq!(cache.get_last_sync(), Some(Timestamp::from_millis(78)));
    assert_eq!(cache.get_calendars().unwrap().len(), 1);
}

#[test]
fn an_offline_cache_fails_to_list_with_its_message() {
    let mut cache = Cache::offline("no route to host".to_string());
    assert_eq!(cache.get_calendars().unwrap_err().message, "no route to host");
    assert_eq!(cache.get_calendars_mut().unwrap_err().message, "no route to host");
    assert!(cache.get_calendar(&"http://todo.list/a".to_string()).is_none());
    assert_eq!(cache.get_last_sync(), None);
    assert!(cache.validate());
}
