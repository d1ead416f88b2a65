use timetracker::agent::{
    article, description, logged_minutes, phase_name, plan_close, remainder_minutes, round_to, run, strip_stray_tags,
    whole_minutes, Close, Step,
};
use timetracker::cli::AgentCommands;
use timetracker::marks::{MarkRef, Phase, Thresholds};
use timetracker::tracker::IdleInterval;

const HOUSE: Thresholds = Thresholds { gap: 45, unvouched: 120 };

#[test]
fn the_article_follows_how_the_number_is_spoken() {
    for minutes in [8, 80, 85, 800] {
        assert_eq!(article(minutes), "an", "{minutes}");
    }
    assert_eq!(article(11), "an");
    assert_eq!(article(18), "an");
    for minutes in [7, 45, 70, 110, 118, 180, 1, 0] {
        assert_eq!(article(minutes), "a", "{minutes}");
    }
}

#[test]
fn rounding_always_rounds_up_to_the_next_step() {
    assert_eq!(round_to(36, 5), 40);
    assert_eq!(round_to(37, 5), 40);
    assert_eq!(round_to(40, 5), 40, "already on a five-minute mark");
    assert_eq!(round_to(41, 5), 45);
    assert_eq!(round_to(45, 5), 45);
    assert_eq!(round_to(31, 15), 45);
    assert_eq!(round_to(45, 15), 45);
}

#[test]
fn rounding_never_goes_below_one_step() {
    assert_eq!(round_to(0, 5), 5);
    assert_eq!(round_to(1, 5), 5);
    assert_eq!(round_to(4, 5), 5);
    assert_eq!(round_to(1, 15), 15);
}

#[test]
fn a_step_of_zero_leaves_the_actual_minutes_alone() {
    assert_eq!(round_to(0, 0), 0);
    assert_eq!(round_to(1, 0), 1);
    assert_eq!(round_to(47, 0), 47);
    assert_eq!(round_to(47, -5), 47, "a negative step rounds nothing");
}

#[test]
fn a_word_starting_with_a_hash_keeps_the_word_and_loses_the_hash() {
    assert_eq!(strip_stray_tags("closed #12 at last"), "closed 12 at last");
    assert_eq!(strip_stray_tags("#12 closed"), "12 closed");
    assert_eq!(strip_stray_tags("closed ##12"), "closed 12");
    assert_eq!(strip_stray_tags("a\t#12"), "a\t12");
}

#[test]
fn a_mid_word_hash_survives() {
    assert_eq!(strip_stray_tags("ported the C# bridge"), "ported the C# bridge");
    assert_eq!(strip_stray_tags("F#"), "F#");
}

#[test]
fn the_description_carries_the_item_phase_and_agent_tags() {
    assert_eq!(
        description("loremind", "77", "impl", "store/links boundary"),
        "store/links boundary #loremind/77 #impl #agent"
    );
}

#[test]
fn the_sentinel_issue_drops_the_item_tag_and_no_bare_project_tag_is_emitted() {
    let built = description("loremind", "-", "plan", "sketched the shape");
    assert_eq!(built, "sketched the shape #plan #agent");
    assert!(!built.contains("#loremind"), "a bare project tag was emitted: {built:?}");
}

#[test]
fn a_phase_is_named_with_its_sentinel_and_its_label() {
    let plain = MarkRef { project: "tt", issue: "-", phase: "plan", agent: None };
    assert_eq!(phase_name(plain), "tt/- plan");
    let labelled = MarkRef { project: "tt", issue: "8", phase: "review", agent: Some("style") };
    assert_eq!(phase_name(labelled), "tt/8 review:style");
}

#[test]
fn minutes_are_a_bare_run_of_digits() {
    assert_eq!(whole_minutes("45"), Some(45));
    assert_eq!(whole_minutes("007"), Some(7));
    assert_eq!(whole_minutes(""), None);
    assert_eq!(whole_minutes("+5"), None);
    assert_eq!(whole_minutes("-5"), None);
    assert_eq!(whole_minutes(" 5"), None);
    assert_eq!(whole_minutes("99999999999999999999"), None);
}

fn phase(started: i64, beats: &[i64]) -> Phase {
    Phase { started, beats: beats.to_vec() }
}

#[test]
fn a_quiet_phase_logs_what_it_measured_to_its_last_bare_beat() {
    let start = 1_000_000;
    let close = plan_close(Some(phase(start, &[start + 20 * 60, start + 50 * 60])), None, false, false, start + 90 * 60, HOUSE);
    match close {
        Close::Log { minutes, idle, split, anchor, remainder } => {
            assert_eq!(minutes, 50);
            assert!(idle.is_empty());
            assert!(!split);
            assert_eq!(anchor, Some(start + 50 * 60));
            assert!(remainder.is_empty());
        },
        other => panic!("expected a log, got {other:?}"),
    }
}

#[test]
fn a_flagged_silence_with_nothing_said_refuses_the_close() {
    let start = 1_000_000;
    let beats = [start + 10 * 60, start + 70 * 60, start + 80 * 60, start + 140 * 60];
    let close = plan_close(Some(phase(start, &beats)), None, false, false, start + 200 * 60, HOUSE);
    match close {
        Close::Refuse { worst, measured, trimmed } => {
            assert_eq!(worst, (60, start + 10 * 60, start + 70 * 60), "the first of two equal holes");
            assert_eq!(measured, 140);
            assert_eq!(trimmed, 20);
        },
        other => panic!("expected a refusal, got {other:?}"),
    }
}

#[test]
fn trim_logs_the_measured_span_and_cuts_every_hole() {
    let start = 1_000_000;
    let beats = [start + 60 * 60, start + 70 * 60];
    let close = plan_close(Some(phase(start, &beats)), None, false, true, start + 80 * 60, HOUSE);
    match close {
        Close::Log { minutes, idle, split, anchor, remainder } => {
            assert_eq!(minutes, 70);
            assert_eq!(idle, vec![(start, start + 60 * 60)]);
            assert!(split);
            assert_eq!(anchor, Some(start + 70 * 60));
            assert_eq!(remainder, vec![(start, start + 60 * 60)]);
        },
        other => panic!("expected a log, got {other:?}"),
    }
}

#[test]
fn full_logs_the_measured_span_and_leaves_nothing_behind() {
    let start = 1_000_000;
    let close = plan_close(Some(phase(start, &[])), None, true, false, start + 150 * 60, HOUSE);
    match close {
        Close::Log { minutes, idle, split, remainder, .. } => {
            assert_eq!(minutes, 150);
            assert_eq!(idle, vec![(start, start + 150 * 60)]);
            assert!(!split);
            assert!(remainder.is_empty());
        },
        other => panic!("expected a log, got {other:?}"),
    }
}

#[test]
fn explicit_minutes_win_and_leave_the_marks_head_uncovered() {
    let start = 1_000_000;
    let now = start + 100 * 60;
    let close = plan_close(Some(phase(start, &[start + 5 * 60])), Some(30), false, true, now, HOUSE);
    match close {
        Close::Log { minutes, idle, split, anchor, remainder } => {
            assert_eq!(minutes, 30);
            assert!(idle.is_empty());
            assert!(!split);
            assert_eq!(anchor, None);
            assert_eq!(remainder, vec![(start, now - 30 * 60)]);
            assert_eq!(remainder_minutes(&remainder), 70);
        },
        other => panic!("expected a log, got {other:?}"),
    }
}

#[test]
fn no_mark_and_no_minutes_is_nothing_to_measure() {
    assert!(matches!(plan_close(None, None, false, false, 1_000_000, HOUSE), Close::NoMark));
}

#[test]
fn an_item_without_a_summary_is_a_usage_error() {
    let command = AgentCommands::Item {
        project: "tt".to_string(),
        issue: "8".to_string(),
        phase: "impl".to_string(),
        summary: None,
        minutes: Some("5".to_string()),
        data: None,
    };
    match run(&command) {
        Step::Refuse { message, code } => {
            assert_eq!(message, "tt: usage: tt agent item <project> <issue|-> <phase> <summary> <minutes>");
            assert_eq!(code, 64);
        },
        other => panic!("expected a refusal, got {other:?}"),
    }
}

#[test]
fn an_item_with_signed_minutes_is_refused_by_name() {
    let command = AgentCommands::Item {
        project: "tt".to_string(),
        issue: "8".to_string(),
        phase: "impl".to_string(),
        summary: Some("did it".to_string()),
        minutes: Some("+5".to_string()),
        data: None,
    };
    match run(&command) {
        Step::Refuse { message, code } => {
            assert_eq!(message, "tt: minutes must be a whole number, got '+5'");
            assert_eq!(code, 64);
        },
        other => panic!("expected a refusal, got {other:?}"),
    }
}

#[test]
fn a_dismissal_that_does_not_end_after_it_starts_is_refused() {
    let command = AgentCommands::Dismiss {
        session: "s 1".to_string(),
        project: "tt".to_string(),
        span: IdleInterval::new(200, 100),
        reason: None,
    };
    match run(&command) {
        Step::Refuse { message, code } => {
            assert_eq!(message, "tt: a dismissal needs a span that ends after it starts, got 200-100");
            assert_eq!(code, 64);
        },
        other => panic!("expected a refusal, got {other:?}"),
    }
}

#[test]
fn a_session_is_addressed_by_its_sanitised_key() {
    let command = AgentCommands::Resolve {
        session: "sess.1 a".to_string(),
        start: 42,
        issue: "8".to_string(),
        phase: "impl".to_string(),
        summary: "x".to_string(),
    };
    match run(&command) {
        Step::Resolve { session, start, .. } => {
            assert_eq!(session, "sess-1_a");
            assert_eq!(start, 42);
        },
        other => panic!("expected a resolve, got {other:?}"),
    }
}

#[test]
fn an_agent_entry_rounds_to_the_quarter_hour_unless_configured() {
    assert_eq!(logged_minutes(1, None), Some(15));
    assert_eq!(logged_minutes(16, None), Some(30));
    assert_eq!(logged_minutes(30, None), Some(30));
    assert_eq!(logged_minutes(7, Some(0)), Some(7));
    assert_eq!(logged_minutes(7, Some(5)), Some(10));
    assert_eq!(logged_minutes(i64::MAX, None), None);
}

#[test]
fn explicit_minutes_up_to_what_a_duration_holds_are_logged_as_given() {
    let start = 1_000_000;
    let close = plan_close(Some(phase(start, &[])), Some(i64::MAX / 60), false, false, start + 600, HOUSE);
    match close {
        Close::Log { minutes, remainder, .. } => {
            assert_eq!(minutes, i64::MAX / 60);
            assert!(remainder.is_empty());
        },
        _ => panic!("explicit minutes were refused"),
    }
}
