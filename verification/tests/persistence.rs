use wwida::date::Date;
use wwida::error::{PersistenceError, TrackerError};
use wwida::outcome::Outcome;
use wwida::short_string::ShortString;
use wwida::status::Status;
use wwida::store::Tasks;
use wwida::task::Task;

fn epoch() -> Date {
    Date::from_ymd(2022, 1, 5).expect("valid date")
}

fn varied_store() -> Tasks {
    let mut store = Tasks::new();
    let mut first = Task::from_strings(
        "water the plants",
        Some("maintenance"),
        Some("every pot on the balcony, and the fern inside"),
        Some("tomorrow"),
        Some("high"),
        vec!["home", "garden"],
        epoch(),
    )
    .expect("task builds");
    first.start(epoch()).expect("fresh task starts");
    let mut second = Task::from_strings(
        "write trip report — includes ✓ marks",
        None,
        None,
        None,
        Some("very-low"),
        vec![],
        epoch(),
    )
    .expect("task builds");
    second.set_status(Status::completed(Outcome::Failure, epoch()));
    let mut third =
        Task::from_strings("call the bank", Some("message"), None, None, None, vec![], epoch())
            .expect("task builds");
    third.set_status(Status::blocked_by_other(
        ShortString::from_str("waiting for a reply").unwrap(),
        epoch(),
    ));
    store.add_task(first);
    store.add_task(second);
    store.add_task(third);
    store
}

fn statuses_alike(a: &Status, b: &Status) -> bool {
    match (a, b) {
        (Status::NotStarted, Status::NotStarted) => true,
        (Status::InProgress { date: d1 }, Status::InProgress { date: d2 }) => d1 == d2,
        (
            Status::BlockedByTask { date: d1, id: i1 },
            Status::BlockedByTask { date: d2, id: i2 },
        ) => d1 == d2 && i1 == i2,
        (
            Status::BlockedByOther { date: d1, reason: r1 },
            Status::BlockedByOther { date: d2, reason: r2 },
        ) => d1 == d2 && r1.text == r2.text,
        (
            Status::Completed { date: d1, outcome: o1 },
            Status::Completed { date: d2, outcome: o2 },
        ) => d1 == d2 && o1 == o2,
        (
            Status::Discarded { date: d1, reason: r1 },
            Status::Discarded { date: d2, reason: r2 },
        ) => d1 == d2 && r1.text == r2.text,
        _ => false,
    }
}

fn tasks_alike(a: &Task, b: &Task) -> bool {
    a.short.text == b.short.text
        && a.long == b.long
        && a.statuses.len() == b.statuses.len()
        && a.statuses.iter().zip(b.statuses.iter()).all(|(x, y)| statuses_alike(x, y))
        && a.category == b.category
        && a.deadline == b.deadline
        && a.priority == b.priority
        && a.tags.len() == b.tags.len()
        && a.tags.iter().zip(b.tags.iter()).all(|(x, y)| x.text == y.text)
}

#[test]
fn saving_and_loading_reproduces_every_task() {
    let store = varied_store();
    let bytes = store.to_bytes();
    let loaded = Tasks::from_bytes(&bytes).expect("an encoding decodes");
    assert_eq!(loaded.num_tasks(), store.num_tasks());
    for i in 0..store.num_tasks() {
        assert!(tasks_alike(store.get_task(i), loaded.get_task(i)));
    }
}

#[test]
fn empty_store_round_trips() {
    let store = Tasks::new();
    let bytes = store.to_bytes();
    let loaded = Tasks::from_bytes(&bytes).expect("an encoding decodes");
    assert_eq!(loaded.num_tasks(), 0);
}

#[test]
fn corrupt_bytes_are_refused() {
    let garbage = vec![7u8, 1, 2, 3];
    assert!(matches!(
        Tasks::from_bytes(&garbage),
        Err(TrackerError::Persistence(PersistenceError::CorruptState))
    ));
    let empty: Vec<u8> = Vec::new();
    assert!(matches!(
        Tasks::from_bytes(&empty),
        Err(TrackerError::Persistence(PersistenceError::CorruptState))
    ));
    let mut truncated = varied_store().to_bytes();
    truncated.pop();
    assert!(matches!(
        Tasks::from_bytes(&truncated),
        Err(TrackerError::Persistence(PersistenceError::CorruptState))
    ));
    let mut padded = varied_store().to_bytes();
    padded.push(0);
    assert!(matches!(
        Tasks::from_bytes(&padded),
        Err(TrackerError::Persistence(PersistenceError::CorruptState))
    ));
}
