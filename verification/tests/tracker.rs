use wwida::category::Category;
use wwida::command::{Command, CommandOutput, StatusUpdate, Update};
use wwida::date::Date;
use wwida::date_specifier::DateSpecifier;
use wwida::error::{ReferenceError, StateError, TrackerError, ValidationError};
use wwida::interval::TimeInterval;
use wwida::outcome::Outcome;
use wwida::present::TaskListFormatter;
use wwida::priority::Priority;
use wwida::query::{run_query, SortBy, Summary};
use wwida::short_string::ShortString;
use wwida::store::Tasks;
use wwida::task::Task;

fn day() -> Date {
    Date::from_ymd(2022, 1, 5).expect("valid date")
}

fn plain_task(short: &str) -> Task {
    Task::from_strings(short, None, None, None, None, vec![], day()).expect("task builds")
}

fn tagged_task(short: &str, tags: Vec<&str>) -> Task {
    Task::from_strings(short, None, None, None, None, tags, day()).expect("task builds")
}

#[test]
fn short_text_construction_bounds() {
    assert!(matches!(
        ShortString::from_str(""),
        Err(TrackerError::Validation(ValidationError::EmptyShortText))
    ));
    assert!(ShortString::from_str("a").is_ok());
    let fifty = "x".repeat(50);
    assert!(ShortString::from_str(&fifty).is_ok());
    let fifty_one = "x".repeat(51);
    assert!(matches!(
        ShortString::from_str(&fifty_one),
        Err(TrackerError::Validation(ValidationError::OverlongShortText))
    ));
    let umlauts = "ü".repeat(50);
    assert!(ShortString::from_str(&umlauts).is_ok());
}

#[test]
fn start_succeeds_exactly_once() {
    let mut task = plain_task("prepare dinner");
    assert!(task.start(day()).is_ok());
    assert!(matches!(
        task.start(day()),
        Err(TrackerError::State(StateError::AlreadyStarted))
    ));
    assert!(matches!(
        task.start(day()),
        Err(TrackerError::State(StateError::AlreadyStarted))
    ));
}

#[test]
fn window_containment_edges() {
    let today = day();
    let yesterday = Date::from_ymd(2022, 1, 4).unwrap();
    let future = Date::from_ymd(2023, 6, 1).unwrap();
    assert!(TimeInterval::Days(0).contains(today, today));
    assert!(!TimeInterval::Days(0).contains(today, yesterday));
    assert!(TimeInterval::Days(0).contains(today, future));
    assert!(TimeInterval::Days(7).contains(today, future));
    let ten_back = Date::from_ymd(2021, 12, 26).unwrap();
    assert!(TimeInterval::Weeks(1).contains(today, ten_back));
    assert!(!TimeInterval::Weeks(1).contains(today, Date::from_ymd(2021, 12, 21).unwrap()));
    let month_back = Date::from_ymd(2021, 12, 5).unwrap();
    assert!(!TimeInterval::Months(1).contains(today, month_back));
    assert!(TimeInterval::Months(2).contains(today, month_back));
}

#[test]
fn interval_parse_forms() {
    assert_eq!(TimeInterval::from_str("days/5"), Ok(TimeInterval::Days(5)));
    assert_eq!(TimeInterval::from_str("weeks/2"), Ok(TimeInterval::Weeks(2)));
    assert_eq!(TimeInterval::from_str("months/1"), Ok(TimeInterval::Months(1)));
    assert_eq!(TimeInterval::from_str("days/+5"), Ok(TimeInterval::Days(5)));
    assert!(matches!(
        TimeInterval::from_str("days/x"),
        Err(TrackerError::Validation(ValidationError::BadIntervalText))
    ));
    assert!(matches!(
        TimeInterval::from_str("fortnights/1"),
        Err(TrackerError::Validation(ValidationError::BadIntervalText))
    ));
}

#[test]
fn priority_sort_puts_highest_first() {
    let mut store = Tasks::new();
    let mut low = plain_task("low one");
    low.set_priority(Priority::Low);
    let mut very_high = plain_task("very high one");
    very_high.set_priority(Priority::VeryHigh);
    let mut normal = plain_task("normal one");
    normal.set_priority(Priority::Normal);
    store.add_task(low);
    store.add_task(very_high);
    store.add_task(normal);
    let ids = run_query(&store, &Summary::Pending, &None, SortBy::Priority, day());
    assert_eq!(ids, vec![1usize, 2, 0]);
}

#[test]
fn deadline_sort_puts_absent_first() {
    let mut store = Tasks::new();
    let mut later = plain_task("later");
    later.set_deadline(Date::from_ymd(2022, 3, 1).unwrap());
    let mut sooner = plain_task("sooner");
    sooner.set_deadline(Date::from_ymd(2022, 2, 1).unwrap());
    let none = plain_task("undated");
    store.add_task(later);
    store.add_task(sooner);
    store.add_task(none);
    let ids = run_query(&store, &Summary::Pending, &None, SortBy::Deadline, day());
    assert_eq!(ids, vec![2usize, 1, 0]);
}

#[test]
fn tag_filter_requires_a_shared_tag() {
    let mut store = Tasks::new();
    store.add_task(tagged_task("with x and y", vec!["x", "y"]));
    store.add_task(tagged_task("untagged", vec![]));
    let overlapping = Some(
        wwida::tag::tags_from_comma_separated_string("y,z".to_string()).expect("tags parse"),
    );
    let ids = run_query(&store, &Summary::Pending, &overlapping, SortBy::Id, day());
    assert_eq!(ids, vec![0usize]);
    let disjoint = Some(
        wwida::tag::tags_from_comma_separated_string("z".to_string()).expect("tags parse"),
    );
    let ids = run_query(&store, &Summary::Pending, &disjoint, SortBy::Id, day());
    assert!(ids.is_empty());
    let no_filter: Option<Vec<wwida::tag::Tag>> = None;
    let ids = run_query(&store, &Summary::Pending, &no_filter, SortBy::Id, day());
    assert_eq!(ids, vec![0usize, 1]);
}

#[test]
fn create_complete_and_summarise() {
    let mut store = Tasks::new();
    let create = Command::Add {
        short: ShortString::from_str("buy milk").unwrap(),
        long: None,
        category: Default::default(),
        deadline: None,
        priority: Priority::Normal,
        tags: String::new(),
    };
    let out = create.run(&mut store, day()).expect("create succeeds");
    assert!(matches!(out, CommandOutput::Added(0)));
    let pending = Command::Print {
        format: TaskListFormatter::Short,
        filter: None,
        summary: Summary::Pending,
        sort: SortBy::Id,
    };
    match pending.run(&mut store, day()).expect("summary succeeds") {
        CommandOutput::Report(text) => assert!(text.contains("buy milk")),
        _ => panic!("expected a report"),
    }
    let complete = Command::Update {
        id: 0,
        update: Update::Status {
            status: StatusUpdate::Completed {
                outcome: Outcome::Success,
                date: DateSpecifier::Today,
            },
        },
    };
    complete.run(&mut store, day()).expect("completion succeeds");
    let pending = Command::Print {
        format: TaskListFormatter::Short,
        filter: None,
        summary: Summary::Pending,
        sort: SortBy::Id,
    };
    match pending.run(&mut store, day()).expect("summary succeeds") {
        CommandOutput::Report(text) => assert!(!text.contains("buy milk")),
        _ => panic!("expected a report"),
    }
    let completed = Command::Print {
        format: TaskListFormatter::Short,
        filter: None,
        summary: Summary::Completed { interval: TimeInterval::Days(0), outcome: None },
        sort: SortBy::Id,
    };
    match completed.run(&mut store, day()).expect("summary succeeds") {
        CommandOutput::Report(text) => assert!(text.contains("buy milk")),
        _ => panic!("expected a report"),
    }
    assert_eq!(store.get_task(0).outcome(), Ok(Outcome::Success));
}

#[test]
fn blocking_on_unknown_task_changes_nothing() {
    let mut store = Tasks::new();
    store.add_task(plain_task("one"));
    store.add_task(plain_task("two"));
    store.add_task(plain_task("three"));
    let block = Command::Update {
        id: 0,
        update: Update::Status { status: StatusUpdate::BlockedByTask { id: 5 } },
    };
    let err = block.run(&mut store, day()).expect_err("unknown blocking id");
    assert_eq!(
        err,
        TrackerError::Reference(ReferenceError::UnknownTaskId(5))
    );
    assert_eq!(store.num_tasks(), 3);
    for id in 0..3 {
        assert!(matches!(
            store.get_task(id).last_status(),
            wwida::status::Status::NotStarted
        ));
    }
}

#[test]
fn clear_reports_the_count_and_empties_the_store() {
    let mut store = Tasks::new();
    for name in ["a", "b", "c", "d"] {
        store.add_task(plain_task(name));
    }
    let out = Command::Clear.run(&mut store, day()).expect("clear succeeds");
    assert!(matches!(out, CommandOutput::Cleared(4)));
    assert_eq!(store.num_tasks(), 0);
    for id in 0..4 {
        assert!(!store.has_id(id));
        let start = Command::Start { id };
        let err = start.run(&mut store, day()).expect_err("identifier is dead");
        assert_eq!(
            err,
            TrackerError::Reference(ReferenceError::UnknownTaskId(id))
        );
    }
}

#[test]
fn tag_listing_collects_distinct_tags_sorted() {
    let mut store = Tasks::new();
    store.add_task(tagged_task("one", vec!["beta", "delta"]));
    store.add_task(tagged_task("two", vec!["alpha", "beta"]));
    match Command::Tags.run(&mut store, day()).expect("listing succeeds") {
        CommandOutput::Report(text) => assert_eq!(text, "alpha, beta, delta"),
        _ => panic!("expected a report"),
    }
}

#[test]
fn tags_validate_their_characters() {
    assert!(wwida::tag::Tag::from_str("work-item2").is_ok());
    assert!(wwida::tag::Tag::from_str("münchen").is_ok());
    assert!(matches!(
        wwida::tag::Tag::from_str("no spaces"),
        Err(TrackerError::Validation(ValidationError::BadTagText))
    ));
    let parsed = wwida::tag::tags_from_comma_separated_string("a,b".to_string()).unwrap();
    assert_eq!(parsed.len(), 2);
    assert_eq!(parsed[0].as_str(), "a");
    let empty = wwida::tag::tags_from_comma_separated_string(String::new()).unwrap();
    assert_eq!(empty.len(), 1);
    assert_eq!(empty[0].as_str(), "");
    assert!(wwida::tag::tags_from_comma_separated_string("a,b c".to_string()).is_err());
}

#[test]
fn update_field_operations() {
    let mut store = Tasks::new();
    store.add_task(plain_task("rename me"));
    let rename = Command::Update {
        id: 0,
        update: Update::Short { short: ShortString::from_str("renamed").unwrap() },
    };
    rename.run(&mut store, day()).expect("rename succeeds");
    assert_eq!(store.get_task(0).short.text, "renamed");
    let add = Command::Update { id: 0, update: Update::AddTags { tags: "a,b,a".to_string() } };
    add.run(&mut store, day()).expect("tags add");
    assert_eq!(store.get_task(0).tags.len(), 2);
    let remove = Command::Update { id: 0, update: Update::RemoveTags { tags: "a".to_string() } };
    remove.run(&mut store, day()).expect("tags remove");
    assert_eq!(store.get_task(0).tags.len(), 1);
    assert_eq!(store.get_task(0).tags[0].as_str(), "b");
    let missing = Command::Update {
        id: 9,
        update: Update::Priority { priority: Priority::High },
    };
    assert!(matches!(
        missing.run(&mut store, day()),
        Err(TrackerError::Reference(ReferenceError::UnknownTaskId(9)))
    ));
}

#[test]
fn parser_enumerations() {
    assert_eq!(Category::from_str("bug"), Ok(Category::Bug));
    assert!(matches!(
        Category::from_str("nonsense"),
        Err(TrackerError::Validation(ValidationError::BadCategoryText))
    ));
    assert_eq!(Priority::from_str("very-high"), Ok(Priority::VeryHigh));
    assert_eq!(Priority::from_str("2"), Ok(Priority::Low));
    assert!(matches!(
        Priority::from_str("6"),
        Err(TrackerError::Validation(ValidationError::BadPriorityText))
    ));
    assert_eq!(SortBy::from_str("deadline"), Ok(SortBy::Deadline));
    assert!(matches!(
        SortBy::from_str("colour"),
        Err(TrackerError::Validation(ValidationError::BadSortText))
    ));
    assert_eq!(Priority::VeryLow.as_symbol(), "★");
    assert_eq!(Priority::VeryHigh.as_symbol(), "★★★★★");
    assert_eq!(Category::Maintenance.label(), "MAINTENANCE");
    assert_eq!(Outcome::Success.as_symbol(), "✓");
    assert_eq!(Outcome::Failure.as_symbol(), "x");
}

#[test]
fn outcome_needs_a_completed_task() {
    let task = plain_task("not done yet");
    assert!(matches!(
        task.outcome(),
        Err(TrackerError::State(StateError::NotCompleted))
    ));
}

#[test]
fn completed_summary_respects_the_outcome_filter() {
    let mut store = Tasks::new();
    store.add_task(plain_task("went well"));
    store.add_task(plain_task("went badly"));
    let finish = |store: &mut Tasks, id: usize, outcome: Outcome| {
        let done = Command::Update {
            id,
            update: Update::Status {
                status: StatusUpdate::Completed { outcome, date: DateSpecifier::Today },
            },
        };
        done.run(store, day()).expect("completion succeeds");
    };
    finish(&mut store, 0, Outcome::Success);
    finish(&mut store, 1, Outcome::Failure);
    let successes = run_query(
        &store,
        &Summary::Completed { interval: TimeInterval::Days(0), outcome: Some(Outcome::Success) },
        &None,
        SortBy::Id,
        day(),
    );
    assert_eq!(successes, vec![0usize]);
    let failures = run_query(
        &store,
        &Summary::Completed { interval: TimeInterval::Days(0), outcome: Some(Outcome::Failure) },
        &None,
        SortBy::Id,
        day(),
    );
    assert_eq!(failures, vec![1usize]);
    let either = run_query(
        &store,
        &Summary::Completed { interval: TimeInterval::Days(0), outcome: None },
        &None,
        SortBy::Id,
        day(),
    );
    assert_eq!(either, vec![0usize, 1]);
}

#[test]
fn category_sort_follows_declaration_order() {
    let mut store = Tasks::new();
    store.add_task(
        Task::from_strings("written words", Some("documentation"), None, None, None, vec![], day())
            .expect("task builds"),
    );
    store.add_task(
        Task::from_strings("broken thing", Some("bug"), None, None, None, vec![], day())
            .expect("task builds"),
    );
    store.add_task(
        Task::from_strings("plain work", Some("task"), None, None, None, vec![], day())
            .expect("task builds"),
    );
    let ids = run_query(&store, &Summary::Pending, &None, SortBy::Category, day());
    assert_eq!(ids, vec![2usize, 1, 0]);
}
