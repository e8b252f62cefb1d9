use wwida::date::Date;
use wwida::present::TaskListFormatter;
use wwida::status::Status;
use wwida::store::Tasks;
use wwida::task::Task;

fn sample_day() -> Date {
    Date::from_ymd(2022, 1, 5).expect("valid date")
}

fn sample_list() -> Tasks {
    let day = sample_day();
    let task_vec = vec![
        Task::from_strings("peel potatoes", Some("documentation"), None, Some("today"), None, vec![], day)
            .expect("could not create task"),
        Task::from_strings("chop carrots", Some("task"), None, Some("today"), None, vec![], day)
            .expect("could not create task"),
        Task::from_strings(
            "turn on the hob",
            Some("other"),
            Some("really running out of ideas here"),
            Some("tomorrow"),
            None,
            vec![],
            day,
        )
        .expect("could not create task"),
        Task::from_strings("eat", Some("message"), None, None, None, vec![], day)
            .expect("could not create task"),
    ];
    Tasks { tasks: task_vec }
}

fn all_ids(list: &Tasks) -> Vec<usize> {
    (0..list.num_tasks()).collect()
}

#[test]
fn display() {
    let list = sample_list();
    let ids = all_ids(&list);
    println!("{}", TaskListFormatter::Short.render(&list, &ids));
    println!();
    println!("{}", TaskListFormatter::Long.render(&list, &ids));
}

#[test]
fn short_form_lines_and_markers() {
    let list = sample_list();
    let ids = all_ids(&list);
    let text = TaskListFormatter::Short.render(&list, &ids);
    let lines: Vec<&str> = text.lines().collect();
    assert_eq!(lines.len(), 4);
    assert!(lines[0].contains("peel potatoes"));
    assert!(lines[0].contains("DUE Wed, 05-Jan-2022"));
    assert!(lines[0].contains('─'));
    assert!(lines[1].contains('╌'));
    assert!(lines[3].contains("NO DEADLINE"));
    assert!(lines[3].contains("NOT STARTED"));
}

#[test]
fn long_form_blocks_show_fields() {
    let list = sample_list();
    let ids = all_ids(&list);
    let text = TaskListFormatter::Long.render(&list, &ids);
    assert!(text.contains(" ID 0\n"));
    assert!(text.contains("│ SHORT    :: peel potatoes\n"));
    assert!(text.contains("│ CATEGORY :: DOCUMENTATION\n"));
    assert!(text.contains("│ DEADLINE :: Wed, 05-Jan-2022\n"));
    assert!(text.contains("│ LONG     :: really running out of ideas here \n"));
    assert!(text.contains("│ PRIORITY :: ★★★\n"));
}

#[test]
fn status_lines_render_their_fixed_forms() {
    let day = sample_day();
    assert_eq!(Status::NotStarted.render(), "NOT STARTED");
    assert_eq!(
        Status::InProgress { date: day }.render(),
        "Wed, 05-Jan-2022 :: IN PROGRESS"
    );
    assert_eq!(
        Status::BlockedByTask { date: day, id: 7 }.render(),
        "Wed, 05-Jan-2022 :: BLOCKED ID=7"
    );
    assert_eq!(
        Status::Completed { date: day, outcome: wwida::outcome::Outcome::Success }.render(),
        "Wed, 05-Jan-2022 :: COMPLETED ✓"
    );
}

#[test]
fn wrapping_keeps_words_whole() {
    let day = sample_day();
    let long_text = "one two three four five six seven eight nine ten eleven twelve thirteen \
                     fourteen fifteen sixteen seventeen eighteen nineteen twenty";
    let task = Task::from_strings("wrap me", None, Some(long_text), None, None, vec![], day)
        .expect("could not create task");
    let mut list = Tasks::new();
    list.add_task(task);
    let text = TaskListFormatter::Long.render(&list, &vec![0usize]);
    for line in text.lines().filter(|l| l.contains("LONG") || l.starts_with('│')) {
        for word in [
            "one", "twenty", "thirteen", "seventeen",
        ] {
            if line.contains(word) {
                assert!(line.contains(&format!("{} ", word)) || line.ends_with(word));
            }
        }
    }
    assert!(text.contains("│ LONG     :: one two"));
}

#[test]
fn an_overlong_word_exceeds_the_budget_on_its_own_line() {
    let day = sample_day();
    let giant = "y".repeat(60);
    let text_with_giant = format!("before {} after", giant);
    let task = Task::from_strings("wrap edge", None, Some(&text_with_giant), None, None, vec![], day)
        .expect("could not create task");
    let mut list = Tasks::new();
    list.add_task(task);
    let rendered = TaskListFormatter::Long.render(&list, &vec![0usize]);
    assert!(rendered.contains(&giant));
    let giant_line = rendered
        .lines()
        .find(|l| l.contains("yyy"))
        .expect("the overlong word is rendered");
    assert!(giant_line.contains(&giant));
}

#[test]
fn reasoned_statuses_render_their_text() {
    let day = sample_day();
    let reason = wwida::short_string::ShortString::from_str("waiting on a part").unwrap();
    assert_eq!(
        Status::BlockedByOther { date: day, reason }.render(),
        "Wed, 05-Jan-2022 :: BLOCKED waiting on a part"
    );
    let reason = wwida::short_string::ShortString::from_str("no longer needed").unwrap();
    assert_eq!(
        Status::Discarded { date: day, reason }.render(),
        "Wed, 05-Jan-2022 :: DISCARDED no longer needed"
    );
    assert_eq!(
        Status::Completed { date: day, outcome: wwida::outcome::Outcome::Failure }.render(),
        "Wed, 05-Jan-2022 :: COMPLETED x"
    );
}
