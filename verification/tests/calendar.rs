use my_tasks::calendar::{Calendar, SupportedComponents};
use my_tasks::item::{Item, ItemId, Task};
use my_tasks::timestamp::Timestamp;

fn at(millis: i64) -> Timestamp {
    Timestamp::from_millis(millis)
}

fn id(value: u64) -> ItemId {
    ItemId::new(value)
}

fn task(value: u64, name: &str, modified: i64) -> Item {
    Item::Task(Task::new(id(value), name.to_string(), at(modified)))
}

fn calendar() -> Calendar {
    Calendar::new("a list".to_string(), "http://todo.list/cal".to_string(), SupportedComponents::todo())
}

fn names(cal: &Calendar) -> Vec<(u64, String)> {
    let mut out: Vec<(u64, String)> =
        cal.tasks().iter().map(|t| (t.id().value(), t.name().to_string())).collect();
    out.sort();
    out
}

fn sorted(mut ids: Vec<ItemId>) -> Vec<ItemId> {
    ids.sort();
    ids
}

#[test]
fn a_new_calendar_is_empty_and_keeps_its_attributes() {
    let cal = calendar();
    assert_eq!(cal.name(), "a list");
    assert_eq!(cal.url(), "http://todo.list/cal");
    assert_eq!(cal.supported_components(), SupportedComponents { event: false, todo: true });
    assert_eq!(SupportedComponents::event(), SupportedComponents { event: true, todo: false });
    assert!(cal.tasks().is_empty());
    assert!(cal.get_tasks_modified_since(None).is_empty());
    assert!(cal.get_items_deleted_since(at(i64::MIN)).is_empty());
    assert!(cal.validate());
}

#[test]
fn add_item_refuses_a_second_item_with_the_same_identity() {
    let mut cal = calendar();
    assert!(cal.add_item(task(1, "task A", 10)).is_ok());
    let err = cal.add_item(task(1, "another", 20)).unwrap_err();
    assert_eq!(err.id, id(1));
    assert_eq!(names(&cal), vec![(1, "task A".to_string())]);
    assert_eq!(cal.get_item_by_id(&id(1)).unwrap().last_modified(), at(10));
    assert!(cal.validate());
}

#[test]
fn get_item_by_id_finds_what_was_added_and_nothing_else() {
    let mut cal = calendar();
    cal.add_item(task(1, "task A", 10)).unwrap();
    cal.add_item(task(2, "task B", 20)).unwrap();
    assert_eq!(cal.get_item_by_id(&id(2)).unwrap().name(), "task B");
    assert_eq!(cal.get_item_by_id(&id(1)).unwrap().name(), "task A");
    assert!(cal.get_item_by_id(&id(3)).is_none());
    assert!(cal.get_item_by_id_mut(&id(3)).is_none());
}

#[test]
fn get_item_by_id_mut_changes_the_item_in_place() {
    let mut cal = calendar();
    cal.add_item(task(1, "task A", 10)).unwrap();
    cal.add_item(task(2, "task B", 20)).unwrap();
    cal.get_item_by_id_mut(&id(1)).unwrap().unwrap_task_mut().set_name("renamed".to_string(), at(30));
    assert_eq!(names(&cal), vec![(1, "renamed".to_string()), (2, "task B".to_string())]);
    assert_eq!(cal.get_item_by_id(&id(1)).unwrap().last_modified(), at(30));
    assert!(cal.validate());
}

#[test]
fn deleting_is_idempotent_and_says_whether_it_removed() {
    let mut cal = calendar();
    cal.add_item(task(1, "task A", 10)).unwrap();
    assert!(!cal.delete_item(&id(2), at(15)));
    assert!(cal.delete_item(&id(1), at(20)));
    assert!(!cal.delete_item(&id(1), at(30)));
    assert!(cal.get_item_by_id(&id(1)).is_none());
    assert!(cal.tasks().is_empty());
    // The second attempt left the first deletion's time alone.
    assert_eq!(cal.deletion_time(&id(1)), Some(at(20)));
    assert_eq!(cal.deletion_time(&id(2)), None);
    assert!(cal.validate());
}

#[test]
fn deleted_since_is_strict_about_its_bound() {
    let mut cal = calendar();
    cal.add_item(task(1, "task A", 10)).unwrap();
    cal.add_item(task(2, "task B", 10)).unwrap();
    cal.add_item(task(3, "task C", 10)).unwrap();
    cal.delete_item(&id(1), at(20));
    cal.delete_item(&id(3), at(40));
    assert_eq!(sorted(cal.get_items_deleted_since(at(19))), vec![id(1), id(3)]);
    assert_eq!(cal.get_items_deleted_since(at(20)), vec![id(3)]);
    assert_eq!(cal.get_items_deleted_since(at(39)), vec![id(3)]);
    assert!(cal.get_items_deleted_since(at(40)).is_empty());
}

#[test]
fn modified_since_is_strict_about_its_bound() {
    let mut cal = calendar();
    cal.add_item(task(1, "task A", 10)).unwrap();
    cal.add_item(task(2, "task B", 20)).unwrap();
    cal.add_item(task(3, "task C", 30)).unwrap();
    let since = |cal: &Calendar, bound: Option<Timestamp>| -> Vec<u64> {
        let mut out: Vec<u64> =
            cal.get_tasks_modified_since(bound).iter().map(|i| i.id().value()).collect();
        out.sort();
        out
    };
    assert_eq!(since(&cal, None), vec![1, 2, 3]);
    assert_eq!(since(&cal, Some(at(9))), vec![1, 2, 3]);
    assert_eq!(since(&cal, Some(at(10))), vec![2, 3]);
    assert_eq!(since(&cal, Some(at(20))), vec![3]);
    assert_eq!(since(&cal, Some(at(30))), Vec::<u64>::new());
    cal.delete_item(&id(3), at(50));
    assert_eq!(since(&cal, Some(at(10))), vec![2]);
}

#[test]
fn adding_an_item_again_drops_the_mark_of_its_deletion() {
    let mut cal = calendar();
    cal.add_item(task(1, "task A", 10)).unwrap();
    cal.delete_item(&id(1), at(20));
    assert_eq!(cal.get_items_deleted_since(at(0)), vec![id(1)]);
    cal.add_item(task(1, "task A is back", 30)).unwrap();
    assert!(cal.get_items_deleted_since(at(0)).is_empty());
    assert_eq!(cal.deletion_time(&id(1)), None);
    assert_eq!(names(&cal), vec![(1, "task A is back".to_string())]);
    assert!(cal.validate());
}

#[test]
fn take_item_hands_the_item_out_and_remembers_nothing() {
    let mut cal = calendar();
    cal.add_item(task(1, "task A", 10)).unwrap();
    cal.add_item(task(2, "task B", 20)).unwrap();
    let taken = cal.take_item(&id(1)).unwrap();
    assert_eq!(taken.name(), "task A");
    assert_eq!(*taken.id(), id(1));
    assert!(cal.take_item(&id(1)).is_none());
    assert_eq!(names(&cal), vec![(2, "task B".to_string())]);
    assert!(cal.get_items_deleted_since(at(i64::MIN)).is_empty());
}

#[test]
fn forget_deleted_drops_every_mark_and_no_item() {
    let mut cal = calendar();
    cal.add_item(task(1, "task A", 10)).unwrap();
    cal.add_item(task(2, "task B", 20)).unwrap();
    cal.add_item(task(3, "task C", 30)).unwrap();
    cal.delete_item(&id(1), at(40));
    cal.delete_item(&id(2), at(50));
    cal.forget_deleted();
    assert!(cal.get_items_deleted_since(at(i64::MIN)).is_empty());
    assert_eq!(names(&cal), vec![(3, "task C".to_string())]);
    // A forgotten identity is free again.
    cal.add_item(task(1, "new A", 60)).unwrap();
    assert_eq!(names(&cal), vec![(1, "new A".to_string()), (3, "task C".to_string())]);
}

#[test]
fn tasks_lists_every_item_once() {
    let mut cal = calendar();
    for i in 0..20u64 {
        cal.add_item(task(i, "t", i as i64)).unwrap();
    }
    cal.delete_item(&id(7), at(100));
    let mut ids: Vec<u64> = cal.tasks().iter().map(|t| t.id().value()).collect();
    ids.sort();
    let expected: Vec<u64> = (0..20u64).filter(|i| *i != 7).collect();
    assert_eq!(ids, expected);
}

#[test]
fn a_clone_holds_the_same_items_and_marks() {
    let mut cal = calendar();
    cal.add_item(task(1, "task A", 10)).unwrap();
    cal.add_item(task(2, "task B", 20)).unwrap();
    cal.delete_item(&id(2), at(30));
    let mut copy = cal.clone();
    assert_eq!(copy.name(), "a list");
    assert_eq!(copy.url(), "http://todo.list/cal");
    assert_eq!(names(&copy), names(&cal));
    assert_eq!(copy.get_items_deleted_since(at(0)), vec![id(2)]);
    // The copy is its own calendar.
    copy.add_item(task(3, "task C", 40)).unwrap();
    assert_eq!(cal.tasks().len(), 1);
    assert_eq!(copy.tasks().len(), 2);
}

#[test]
fn validate_finds_an_identity_that_was_overwritten() {
    let mut cal = calendar();
    cal.add_item(task(1, "task A", 10)).unwrap();
    cal.add_item(task(2, "task B", 20)).unwrap();
    assert!(cal.validate());
    // Replacing an item by one of another identity is the one way to break a calendar.
    *cal.get_item_by_id_mut(&id(2)).unwrap() = task(1, "an impostor", 30);
    assert!(!cal.validate());
}

#[test]
fn validate_finds_an_identity_that_is_both_present_and_deleted() {
    let mut cal = calendar();
    cal.add_item(task(1, "task A", 10)).unwrap();
    cal.add_item(task(2, "task B", 20)).unwrap();
    cal.delete_item(&id(1), at(30));
    assert!(cal.validate());
    *cal.get_item_by_id_mut(&id(2)).unwrap() = task(1, "an impostor", 40);
    assert!(!cal.validate());
}
