use timetracker::agent::phases;
use timetracker::completions::{issue_names, project_names, typed_project};
use timetracker::marks::Mark;
use timetracker::tracker::{TimeData, TimeEntry};

fn entry(project: Option<&str>, tags: &[&str]) -> TimeEntry {
    TimeEntry {
        id: 0,
        description: String::new(),
        project: project.map(String::from),
        tags: tags.iter().map(|t| t.to_string()).collect(),
        start_time: 0,
        end_time: None,
        idle: Vec::new(),
        data: None,
    }
}

fn mark(project: &str, issue: Option<&str>) -> Mark {
    Mark { project: project.to_string(), issue: issue.map(String::from), phase: "impl".to_string(), agent: None, start: 0 }
}

fn data(entries: Vec<TimeEntry>) -> TimeData {
    TimeData { entries, next_id: 1, schema_version: 1 }
}

fn argv(words: &[&str]) -> Vec<String> {
    words.iter().map(|w| w.to_string()).collect()
}

#[test]
fn typed_project_reads_the_agent_positional() {
    let a = argv(&["/bin/tt", "--", "tt", "agent", "begin", "proj", ""]);
    assert_eq!(typed_project(&a), Some("proj".to_string()));
}

#[test]
fn typed_project_is_none_on_odd_shapes() {
    assert_eq!(typed_project(&argv(&["/bin/tt"])), None);
    assert_eq!(typed_project(&argv(&["/bin/tt", "tt", "agent", "begin", "proj"])), None);
    assert_eq!(typed_project(&argv(&["/bin/tt", "--", "tt", "agent", "begin"])), None);
    assert_eq!(typed_project(&argv(&["/bin/tt", "--", "tt", "agent", "begin", ""])), None);
    assert_eq!(typed_project(&argv(&["/bin/tt", "--", "tt", "start", "--project", ""])), None);
}

#[test]
fn projects_union_store_and_marks_deduplicated_and_sorted() {
    let d = data(vec![entry(Some("zeta"), &[]), entry(Some("alpha"), &[]), entry(None, &[]), entry(Some(""), &[])]);
    let names = project_names(&d, &vec![mark("alpha", None), mark("mid", None)]);
    assert_eq!(names, ["alpha", "mid", "zeta"]);
}

#[test]
fn issues_scoped_to_project_with_sentinel() {
    let d = data(vec![entry(Some("a"), &["a/10", "impl"]), entry(Some("b"), &["b/20"]), entry(Some("a"), &["a/"])]);
    let marks = vec![mark("a", Some("11")), mark("b", Some("21")), mark("a", None)];
    assert_eq!(issue_names(&d, &marks, Some("a")), ["-", "10", "11"]);
}

#[test]
fn issues_unfiltered_without_project() {
    let d = data(vec![entry(Some("a"), &["a/10"]), entry(Some("b"), &["b/20"])]);
    assert_eq!(issue_names(&d, &vec![mark("b", Some("21"))], None), ["-", "10", "20", "21"]);
}

#[test]
fn phases_are_the_canonical_list() {
    assert_eq!(phases(), ["plan", "impl", "qa", "review", "docs", "spike", "explore", "ops"]);
}
