use my_tasks::item::{Item, ItemId, Task};
use my_tasks::timestamp::Timestamp;

fn at(millis: i64) -> Timestamp {
    Timestamp::from_millis(millis)
}

#[test]
fn a_new_task_is_not_completed() {
    let t = Task::new(ItemId::new(3), "buy milk".to_string(), at(100));
    assert_eq!(*t.id(), ItemId::new(3));
    assert_eq!(t.id().value(), 3);
    assert_eq!(t.name(), "buy milk");
    assert!(!t.completed());
    assert_eq!(t.last_modified(), at(100));
    assert_eq!(t.last_modified().millis(), 100);
}

#[test]
fn renaming_a_task_stamps_it() {
    let mut t = Task::new(ItemId::new(3), "buy milk".to_string(), at(100));
    t.set_name("buy oat milk".to_string(), at(150));
    assert_eq!(t.name(), "buy oat milk");
    assert_eq!(t.last_modified(), at(150));
    assert_eq!(*t.id(), ItemId::new(3));
    assert!(!t.completed());
}

#[test]
fn completing_a_task_stamps_it() {
    let mut t = Task::new(ItemId::new(3), "buy milk".to_string(), at(100));
    t.set_completed(true, at(101));
    assert!(t.completed());
    assert_eq!(t.last_modified(), at(101));
    assert_eq!(t.name(), "buy milk");
    t.set_completed(false, at(102));
    assert!(!t.completed());
    assert_eq!(t.last_modified(), at(102));
}

#[test]
fn the_last_modified_time_never_goes_back() {
    let mut t = Task::new(ItemId::new(3), "buy milk".to_string(), at(100));
    t.set_name("renamed by a slow clock".to_string(), at(40));
    assert_eq!(t.name(), "renamed by a slow clock");
    assert_eq!(t.last_modified(), at(100));
    t.set_completed(true, at(99));
    assert!(t.completed());
    assert_eq!(t.last_modified(), at(100));
    t.set_completed(false, at(100));
    assert_eq!(t.last_modified(), at(100));
}

#[test]
fn tasks_are_the_same_when_every_attribute_is() {
    let a = Task::new(ItemId::new(1), "x".to_string(), at(10));
    assert!(a.same_as(&a.clone()));
    assert!(!a.same_as(&Task::new(ItemId::new(2), "x".to_string(), at(10))));
    assert!(!a.same_as(&Task::new(ItemId::new(1), "y".to_string(), at(10))));
    assert!(!a.same_as(&Task::new(ItemId::new(1), "x".to_string(), at(11))));
    let mut done = a.clone();
    done.set_completed(true, at(10));
    assert!(!a.same_as(&done));
}

#[test]
fn an_item_shows_the_task_inside() {
    let mut item = Item::Task(Task::new(ItemId::new(9), "call home".to_string(), at(7)));
    assert_eq!(*item.id(), ItemId::new(9));
    assert_eq!(item.name(), "call home");
    assert_eq!(item.last_modified(), at(7));
    assert!(!item.unwrap_task().completed());
    item.unwrap_task_mut().set_completed(true, at(8));
    assert!(item.unwrap_task().completed());
    assert_eq!(item.last_modified(), at(8));
    let copy = item.clone();
    assert!(copy.same_as(&item));
    item.unwrap_task_mut().set_name("call work".to_string(), at(9));
    assert!(!copy.same_as(&item));
    assert_eq!(copy.name(), "call home");
}

#[test]
fn timestamps_order_by_their_milliseconds() {
    assert!(at(2).is_after(&at(1)));
    assert!(!at(1).is_after(&at(1)));
    assert!(!at(1).is_after(&at(2)));
    assert!(at(-5).is_after(&at(-6)));
    assert!(at(1) < at(2));
    assert_eq!(at(1).later_of(at(2)), at(2));
    assert_eq!(at(2).later_of(at(1)), at(2));
    assert_eq!(at(2).later_of(at(2)), at(2));
}

#[test]
fn a_bound_is_strict_and_no_bound_admits_everything() {
    assert!(at(11).is_since(Some(at(10))));
    assert!(!at(10).is_since(Some(at(10))));
    assert!(!at(9).is_since(Some(at(10))));
    assert!(at(i64::MIN).is_since(None));
}

#[test]
fn advancing_a_mark_never_goes_back() {
    assert_eq!(at(50).advance(None), at(50));
    assert_eq!(at(50).advance(Some(at(40))), at(50));
    assert_eq!(at(50).advance(Some(at(50))), at(50));
    assert_eq!(at(50).advance(Some(at(60))), at(60));
}
