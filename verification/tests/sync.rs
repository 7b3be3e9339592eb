use chrono::{TimeZone, Utc};

use my_tasks::cache::Cache;
use my_tasks::calendar::{Calendar, SupportedComponents};
use my_tasks::item::{Item, ItemId, Task};
use my_tasks::provider::{Provider, SyncError};
use my_tasks::report::{Action, AppliedChange, Replica, Resolution};
use my_tasks::timestamp::Timestamp;
use my_tasks::traits::{CalDavSource, SyncSlave};

const URL: &str = "http://todo.list/cal";

fn day(d: u32) -> Timestamp {
    Timestamp::from_millis(Utc.with_ymd_and_hms(2000, 1, d, 0, 0, 0).unwrap().timestamp_millis())
}

fn id(letter: char) -> ItemId {
    ItemId::new(letter as u64)
}

fn task(letter: char, created: Timestamp) -> Item {
    Item::Task(Task::new(id(letter), format!("task {}", letter), created))
}

fn rename(cal: &mut Calendar, letter: char, name: &str, at: Timestamp) {
    cal.get_item_by_id_mut(&id(letter)).unwrap().unwrap_task_mut().set_name(name.to_string(), at);
}

fn complete(cal: &mut Calendar, letter: char, at: Timestamp) {
    cal.get_item_by_id_mut(&id(letter)).unwrap().unwrap_task_mut().set_completed(true, at);
}

/// Both sources had A..M at the last sync. Since then:
///   server: A,    C, D,  E', F',  G✓, H,  I',      K, L, M, N
///   cache:  A, B,    D', E,  F'', G,  H✓, I✓, J✓, K, L, M,    O
fn populate_test_provider() -> (Provider<Cache, Cache>, Timestamp) {
    let mut calendar = Calendar::new("a list".to_string(), URL.to_string(), SupportedComponents::todo());
    let letters = ['A', 'B', 'C', 'D', 'E', 'F', 'G', 'H', 'I', 'J', 'K', 'L', 'M'];
    for (i, letter) in letters.iter().enumerate() {
        let created = if *letter == 'M' { day(12) } else { day(i as u32 + 1) };
        calendar.add_item(task(*letter, created)).unwrap();
    }
    let last_sync = day(12);
    let later = day(20);

    let mut cal_server = calendar.clone();
    assert!(cal_server.delete_item(&id('B'), later));
    rename(&mut cal_server, 'E', "E has been remotely renamed", later);
    rename(&mut cal_server, 'F', "F renamed in the server", later);
    complete(&mut cal_server, 'G', later);
    rename(&mut cal_server, 'I', "I renamed in the server", later);
    assert!(cal_server.delete_item(&id('J'), later));
    cal_server.add_item(Item::Task(Task::new(id('N'), "task N (new from server)".to_string(), later))).unwrap();

    let mut cal_local = calendar.clone();
    assert!(cal_local.delete_item(&id('C'), day(21)));
    rename(&mut cal_local, 'D', "D has been locally renamed", day(21));
    rename(&mut cal_local, 'F', "F renamed locally as well!", day(22));
    complete(&mut cal_local, 'H', day(21));
    complete(&mut cal_local, 'I', day(21));
    complete(&mut cal_local, 'J', day(21));
    cal_local.add_item(Item::Task(Task::new(id('O'), "task O (new from local)".to_string(), day(21)))).unwrap();

    let mut server = Cache::new();
    assert!(server.add_calendar(cal_server));
    let mut local = Cache::new();
    assert!(local.add_calendar(cal_local));
    local.update_last_sync(last_sync);
    (Provider::new(server, local), last_sync)
}

/// The content of a calendar: identity, name, completion, sorted by identity.
fn content(cal: &Calendar) -> Vec<(u64, String, bool)> {
    let mut out: Vec<(u64, String, bool)> =
        cal.tasks().iter().map(|t| (t.id().value(), t.name().to_string(), t.completed())).collect();
    out.sort();
    out
}

fn expected_content() -> Vec<(u64, String, bool)> {
    let mut out = vec![
        ('A' as u64, "task A".to_string(), false),
        ('D' as u64, "D has been locally renamed".to_string(), false),
        ('E' as u64, "E has been remotely renamed".to_string(), false),
        ('F' as u64, "F renamed in the server".to_string(), false),
        ('G' as u64, "task G".to_string(), true),
        ('H' as u64, "task H".to_string(), true),
        ('I' as u64, "I renamed in the server".to_string(), false),
        ('K' as u64, "task K".to_string(), false),
        ('L' as u64, "task L".to_string(), false),
        ('M' as u64, "task M".to_string(), false),
        ('N' as u64, "task N (new from server)".to_string(), false),
        ('O' as u64, "task O (new from local)".to_string(), false),
    ];
    out.sort();
    out
}

#[test]
fn test_sync() {
    let (mut provider, _) = populate_test_provider();
    let report = provider.sync_at(day(25)).unwrap();

    let url = URL.to_string();
    let cal_server = provider.server().get_calendar(&url).unwrap();
    let cal_local = provider.local().get_calendar(&url).unwrap();
    assert_eq!(content(cal_server), expected_content());
    assert_eq!(content(cal_local), expected_content());

    // B, C and J are gone from both sides.
    for letter in ['B', 'C', 'J'] {
        assert!(cal_server.get_item_by_id(&id(letter)).is_none());
        assert!(cal_local.get_item_by_id(&id(letter)).is_none());
    }
    // Both sides have forgotten the deletions.
    assert!(cal_server.get_items_deleted_since(day(1)).is_empty());
    assert!(cal_local.get_items_deleted_since(day(1)).is_empty());

    assert!(report.not_paired.is_empty());
    assert_eq!(report.calendars.len(), 1);
    let pair = &report.calendars[0];
    assert_eq!(pair.url, URL);
    assert!(pair.duplicates.is_empty());

    let mut changes: Vec<(u64, Action)> = pair.changes.iter().map(|c| (c.id.value(), c.action)).collect();
    changes.sort_by_key(|c| c.0);
    assert_eq!(
        changes,
        vec![
            ('B' as u64, Action::DeletedLocally),
            ('C' as u64, Action::DeletedRemotely),
            ('D' as u64, Action::Pushed),
            ('E' as u64, Action::Pulled),
            ('F' as u64, Action::Pulled),
            ('G' as u64, Action::Pulled),
            ('H' as u64, Action::Pushed),
            ('I' as u64, Action::Pulled),
            ('J' as u64, Action::DeletedLocally),
            ('N' as u64, Action::Pulled),
            ('O' as u64, Action::Pushed),
        ]
    );

    let mut conflicts: Vec<(u64, Option<String>, Option<String>, Resolution)> = pair
        .conflicts
        .iter()
        .map(|c| {
            (
                c.id.value(),
                c.local.as_ref().map(|i| i.name().to_string()),
                c.remote.as_ref().map(|i| i.name().to_string()),
                c.resolution,
            )
        })
        .collect();
    conflicts.sort_by_key(|c| c.0);
    assert_eq!(
        conflicts,
        vec![
            (
                'F' as u64,
                Some("F renamed locally as well!".to_string()),
                Some("F renamed in the server".to_string()),
                Resolution::ServerVersionKept
            ),
            (
                'I' as u64,
                Some("task I".to_string()),
                Some("I renamed in the server".to_string()),
                Resolution::ServerVersionKept
            ),
            ('J' as u64, Some("task J".to_string()), None, Resolution::ServerDeletionKept),
        ]
    );
}

#[test]
fn the_server_wins_even_when_the_local_edit_is_newer() {
    // F was renamed on the server on day 20 and locally on day 22.
    let (mut provider, _) = populate_test_provider();
    provider.sync_at(day(25)).unwrap();
    let url = URL.to_string();
    for cal in [provider.server().get_calendar(&url).unwrap(), provider.local().get_calendar(&url).unwrap()] {
        let f = cal.get_item_by_id(&id('F')).unwrap();
        assert_eq!(f.name(), "F renamed in the server");
        assert_eq!(f.last_modified(), day(20));
    }
}

#[test]
fn a_second_sync_changes_nothing_and_reports_nothing() {
    let (mut provider, _) = populate_test_provider();
    provider.sync_at(day(25)).unwrap();
    let url = URL.to_string();
    let server_once = content(provider.server().get_calendar(&url).unwrap());
    let local_once = content(provider.local().get_calendar(&url).unwrap());

    let report = provider.sync_at(day(26)).unwrap();
    assert_eq!(content(provider.server().get_calendar(&url).unwrap()), server_once);
    assert_eq!(content(provider.local().get_calendar(&url).unwrap()), local_once);
    assert_eq!(report.calendars.len(), 1);
    assert!(report.calendars[0].changes.is_empty());
    assert!(report.calendars[0].conflicts.is_empty());
    assert!(report.not_paired.is_empty());
}

#[test]
fn a_second_sync_settles_items_stamped_after_the_checkpoint() {
    // The pass starts on day 15, before the edits were stamped: after it the
    // edited items still count as modified, but both sides hold the same
    // versions, so nothing is done again.
    let (mut provider, _) = populate_test_provider();
    provider.sync_at(day(15)).unwrap();
    assert_eq!(provider.last_sync_timestamp(), Some(day(15)));
    let report = provider.sync_at(day(16)).unwrap();
    let url = URL.to_string();
    assert_eq!(content(provider.server().get_calendar(&url).unwrap()), expected_content());
    assert_eq!(content(provider.local().get_calendar(&url).unwrap()), expected_content());
    assert!(report.calendars[0].changes.is_empty());
    assert!(report.calendars[0].conflicts.is_empty());
}

#[test]
fn the_checkpoint_moves_to_the_start_of_the_pass() {
    let (mut provider, last_sync) = populate_test_provider();
    assert_eq!(provider.last_sync_timestamp(), Some(last_sync));
    provider.sync_at(day(25)).unwrap();
    assert_eq!(provider.last_sync_timestamp(), Some(day(25)));
    assert_eq!(provider.local().get_last_sync(), Some(day(25)));
}

#[test]
fn the_checkpoint_never_goes_back() {
    let (mut provider, last_sync) = populate_test_provider();
    provider.sync_at(day(3)).unwrap();
    assert_eq!(provider.last_sync_timestamp(), Some(last_sync));
}

#[test]
fn a_first_sync_merges_both_sides_and_sets_the_checkpoint() {
    let mut cal_server = Calendar::new("a list".to_string(), URL.to_string(), SupportedComponents::todo());
    cal_server.add_item(task('A', day(1))).unwrap();
    cal_server.add_item(Item::Task(Task::new(id('B'), "B on the server".to_string(), day(2)))).unwrap();
    let mut cal_local = Calendar::new("a list".to_string(), URL.to_string(), SupportedComponents::todo());
    cal_local.add_item(Item::Task(Task::new(id('B'), "B locally".to_string(), day(3)))).unwrap();
    cal_local.add_item(task('C', day(1))).unwrap();
    // Without a checkpoint a remembered deletion counts for nothing.
    assert!(cal_local.delete_item(&id('C'), day(2)));
    cal_local.add_item(task('D', day(1))).unwrap();

    let mut server = Cache::new();
    server.add_calendar(cal_server);
    let mut local = Cache::new();
    local.add_calendar(cal_local);
    let mut provider = Provider::new(server, local);
    assert_eq!(provider.last_sync_timestamp(), None);

    let report = provider.sync_at(day(10)).unwrap();
    assert_eq!(provider.last_sync_timestamp(), Some(day(10)));
    let url = URL.to_string();
    let expected = vec![
        ('A' as u64, "task A".to_string(), false),
        ('B' as u64, "B on the server".to_string(), false),
        ('D' as u64, "task D".to_string(), false),
    ];
    assert_eq!(content(provider.server().get_calendar(&url).unwrap()), expected);
    assert_eq!(content(provider.local().get_calendar(&url).unwrap()), expected);
    let mut changes: Vec<(u64, Action)> =
        report.calendars[0].changes.iter().map(|c| (c.id.value(), c.action)).collect();
    changes.sort_by_key(|c| c.0);
    assert_eq!(
        changes,
        vec![('A' as u64, Action::Pulled), ('B' as u64, Action::Pulled), ('D' as u64, Action::Pushed)]
    );
    assert_eq!(report.calendars[0].conflicts.len(), 1);
    assert_eq!(report.calendars[0].conflicts[0].id, id('B'));
}

#[test]
fn calendars_without_a_counterpart_are_reported_and_left_alone() {
    let mut only_server = Calendar::new("remote".to_string(), "http://todo.list/remote".to_string(), SupportedComponents::todo());
    only_server.add_item(task('A', day(1))).unwrap();
    let mut only_local = Calendar::new("mine".to_string(), "http://todo.list/mine".to_string(), SupportedComponents::todo());
    only_local.add_item(task('B', day(1))).unwrap();
    let (paired, _) = populate_test_provider();

    let mut server = Cache::new();
    server.add_calendar(only_server);
    server.add_calendar(paired.server().get_calendar(&URL.to_string()).unwrap().clone());
    let mut local = Cache::new();
    local.add_calendar(paired.local().get_calendar(&URL.to_string()).unwrap().clone());
    local.add_calendar(only_local);
    local.update_last_sync(day(12));
    let mut provider = Provider::new(server, local);

    let report = provider.sync_at(day(25)).unwrap();
    let mut not_paired: Vec<(String, Replica)> =
        report.not_paired.iter().map(|e| (e.url.clone(), e.missing_on)).collect();
    not_paired.sort_by(|a, b| a.0.cmp(&b.0));
    assert_eq!(
        not_paired,
        vec![
            ("http://todo.list/mine".to_string(), Replica::Server),
            ("http://todo.list/remote".to_string(), Replica::Local),
        ]
    );
    assert_eq!(report.calendars.len(), 1);
    assert_eq!(report.calendars[0].url, URL);
    // The unpaired calendars are as they were, and no counterpart was made.
    let remote = provider.server().get_calendar(&"http://todo.list/remote".to_string()).unwrap();
    assert_eq!(content(remote), vec![('A' as u64, "task A".to_string(), false)]);
    assert!(provider.local().get_calendar(&"http://todo.list/remote".to_string()).is_none());
    let mine = provider.local().get_calendar(&"http://todo.list/mine".to_string()).unwrap();
    assert_eq!(content(mine), vec![('B' as u64, "task B".to_string(), false)]);
    assert!(provider.server().get_calendar(&"http://todo.list/mine".to_string()).is_none());
    // The pair was reconciled and the checkpoint advanced all the same.
    assert_eq!(content(provider.server().get_calendar(&URL.to_string()).unwrap()), expected_content());
    assert_eq!(provider.last_sync_timestamp(), Some(day(25)));
}

#[test]
fn an_unreachable_server_fails_the_pass_and_nothing_changes() {
    let (paired, last_sync) = populate_test_provider();
    let mut local = Cache::new();
    local.add_calendar(paired.local().get_calendar(&URL.to_string()).unwrap().clone());
    local.update_last_sync(last_sync);
    let before = content(local.get_calendar(&URL.to_string()).unwrap());

    let mut provider = Provider::new(Cache::offline("connection refused".to_string()), local);
    match provider.sync_at(day(25)) {
        Err(SyncError::SourceUnreachable { replica, cause }) => {
            assert_eq!(replica, Replica::Server);
            assert_eq!(cause.message, "connection refused");
        },
        Ok(_) => panic!("the pass must fail"),
    }
    assert_eq!(provider.last_sync_timestamp(), Some(last_sync));
    assert_eq!(content(provider.local().get_calendar(&URL.to_string()).unwrap()), before);
    // The deletion that the local side remembers is still there for the next pass.
    assert_eq!(
        provider.local().get_calendar(&URL.to_string()).unwrap().get_items_deleted_since(last_sync),
        vec![id('C')]
    );
}

#[test]
fn an_unreachable_cache_fails_the_pass_and_nothing_changes() {
    let (paired, _) = populate_test_provider();
    let mut server = Cache::new();
    server.add_calendar(paired.server().get_calendar(&URL.to_string()).unwrap().clone());
    let before = content(server.get_calendar(&URL.to_string()).unwrap());

    let mut offline = Cache::offline("disk gone".to_string());
    offline.update_last_sync(day(12));
    let mut provider = Provider::new(server, offline);
    match provider.sync_at(day(25)) {
        Err(SyncError::SourceUnreachable { replica, cause }) => {
            assert_eq!(replica, Replica::Local);
            assert_eq!(cause.message, "disk gone");
        },
        Ok(_) => panic!("the pass must fail"),
    }
    assert_eq!(provider.last_sync_timestamp(), Some(day(12)));
    assert_eq!(content(provider.server().get_calendar(&URL.to_string()).unwrap()), before);
}

#[test]
fn sync_stamps_the_checkpoint_with_the_clock() {
    let (mut provider, _) = populate_test_provider();
    let before = Utc::now().timestamp_millis();
    provider.sync().unwrap();
    let after = Utc::now().timestamp_millis();
    let checkpoint = provider.last_sync_timestamp().unwrap().millis();
    assert!(before <= checkpoint && checkpoint <= after);
    let url = URL.to_string();
    assert_eq!(content(provider.server().get_calendar(&url).unwrap()), expected_content());
    assert_eq!(content(provider.local().get_calendar(&url).unwrap()), expected_content());
}

#[test]
fn applied_changes_compare_by_value() {
    let a = AppliedChange { id: id('A'), action: Action::Pulled };
    assert_eq!(a, AppliedChange { id: id('A'), action: Action::Pulled });
    assert_ne!(a, AppliedChange { id: id('A'), action: Action::Pushed });
}
