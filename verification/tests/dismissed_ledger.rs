use timetracker::dismissed::{body, dismissal_key, parse_dismissal, read_all, resolve_dismissed_dir, Dismissal};

fn dismissal() -> Dismissal {
    Dismissal {
        project: "my proj".to_string(),
        session_id: "sess-1".to_string(),
        start: 1_000_000,
        end: 1_003_600,
        reason: Some("a break".to_string()),
    }
}

#[test]
fn the_filename_joins_the_project_key_the_session_and_the_span() {
    assert_eq!(dismissal_key(&dismissal()), "my_proj.sess-1.1000000-1003600");
}

#[test]
fn the_default_directory_is_dismissed_inside_the_app_cache_dir() {
    assert_eq!(resolve_dismissed_dir(None, Some("cache".to_string())), Some("cache/dismissed".to_string()));
    assert_eq!(resolve_dismissed_dir(None, None), None, "no cache, no default");
    assert_eq!(resolve_dismissed_dir(Some("/x".to_string()), None), Some("/x".to_string()));
    assert_eq!(resolve_dismissed_dir(Some(String::new()), Some("c".to_string())), Some("c/dismissed".to_string()));
}

#[test]
fn a_dismissal_reads_back_every_field_it_was_written_with() {
    let text = body(&dismissal());
    assert_eq!(text, "project=my proj\nsession=sess-1\nstart=1000000\nend=1003600\nreason=a break\n");
    let back = parse_dismissal(&text).expect("a whole record");
    assert_eq!(back.project, "my proj");
    assert_eq!(back.session_id, "sess-1");
    assert_eq!(back.start, 1_000_000);
    assert_eq!(back.end, 1_003_600);
    assert_eq!(back.reason.as_deref(), Some("a break"));
}

#[test]
fn a_dismissal_with_no_reason_reads_back_without_one() {
    let text = body(&Dismissal { reason: None, ..dismissal() });
    assert_eq!(parse_dismissal(&text).expect("a whole record").reason, None);
}

#[test]
fn a_file_missing_a_required_field_is_not_a_dismissal() {
    assert!(parse_dismissal("project=tt\nstart=1\n").is_none());
    let all = read_all(&vec!["project=tt\nstart=1\n".to_string(), body(&dismissal())]);
    assert_eq!(all.len(), 1);
    assert_eq!(all[0].session_id, "sess-1");
}

#[test]
fn a_later_line_for_a_field_wins_and_a_bad_number_clears_it() {
    let text = "project=a\nproject=b\nsession=s\nstart=5\nend=x\nend=9\nnoise\nother=1\n";
    let d = parse_dismissal(text).expect("a whole record");
    assert_eq!((d.project.as_str(), d.start, d.end), ("b", 5, 9));
    assert!(parse_dismissal("project=a\nsession=s\nstart=5\nend=9\nend=x\n").is_none());
}

#[test]
fn writing_the_same_dismissal_twice_leaves_one_record() {
    // The file name is the record's identity: a second write of the same stretch
    // names the same file, which the writer creates only once.
    let repeat = Dismissal { reason: Some("something else".to_string()), ..dismissal() };
    assert_eq!(dismissal_key(&repeat), dismissal_key(&dismissal()));
    let other_session = Dismissal { session_id: "sess-2".to_string(), ..dismissal() };
    assert_ne!(dismissal_key(&other_session), dismissal_key(&dismissal()));
}

#[test]
fn a_missing_directory_reads_as_no_dismissals() {
    assert!(read_all(&Vec::new()).is_empty());
}

#[test]
fn a_record_with_an_equals_sign_or_a_negative_span_reads_back() {
    let d = Dismissal { project: "a=b".to_string(), start: -5, end: -1, reason: Some(String::new()), ..dismissal() };
    let back = parse_dismissal(&body(&d)).expect("a whole record");
    assert_eq!((back.project.as_str(), back.start, back.end, back.reason.as_deref()), ("a=b", -5, -1, Some("")));
}
