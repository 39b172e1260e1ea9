use ferium::column_width;
use ferium::pad_width;
use ferium::pipeline::fold_outcomes;
use ferium::pipeline::DownloadRecord;
use ferium::pipeline::Orchestrator;
use ferium::pipeline::PipelineResult;
use ferium::pipeline::ResolveOutcome;

fn rec(name: &str, file: &str) -> DownloadRecord {
    DownloadRecord {
        name: name.to_string(),
        filename: file.to_string(),
        url: format!("https://example.invalid/{file}"),
        output: String::new(),
    }
}

fn ok(name: &str, file: &str) -> ResolveOutcome {
    ResolveOutcome::Resolved(rec(name, file))
}

fn fail(msg: &str) -> ResolveOutcome {
    ResolveOutcome::Failed {
        rate_limited: false,
        message: msg.to_string(),
    }
}

fn rate_limited(msg: &str) -> ResolveOutcome {
    ResolveOutcome::Failed {
        rate_limited: true,
        message: msg.to_string(),
    }
}

#[test]
fn ten_mods_three_ordinary_failures_aggregate() {
    let mut outcomes = Vec::new();
    for i in 0..10 {
        if i % 3 == 1 && i < 9 {
            outcomes.push(fail(&format!("no compatible version for mod {i}")));
        } else {
            outcomes.push(ok(&format!("mod {i}"), &format!("mod-{i}.jar")));
        }
    }
    match fold_outcomes(outcomes) {
        PipelineResult::Outcome {
            records,
            any_failed,
            ticks,
        } => {
            assert_eq!(records.len(), 7);
            assert!(any_failed);
            assert_eq!(ticks, 10);
            assert_eq!(records[0].filename, "mod-0.jar");
            assert_eq!(records[6].filename, "mod-9.jar");
        }
        PipelineResult::Escalated { .. } => panic!("ordinary failures must not escalate"),
    }
}

#[test]
fn rate_limit_escalates_despite_successes() {
    let mut outcomes = Vec::new();
    for i in 0..5 {
        outcomes.push(ok(&format!("mod {i}"), &format!("mod-{i}.jar")));
    }
    outcomes.push(rate_limited("rate limit hit"));
    outcomes.push(ok("late", "late.jar"));
    match fold_outcomes(outcomes) {
        PipelineResult::Escalated { message, ticks } => {
            assert_eq!(message, "rate limit hit");
            assert_eq!(ticks, 6);
        }
        PipelineResult::Outcome { .. } => panic!("a rate limit must escalate"),
    }
}

#[test]
fn all_successes_flag_clear() {
    let outcomes = vec![ok("a", "a.jar"), ok("b", "b.jar")];
    match fold_outcomes(outcomes) {
        PipelineResult::Outcome {
            records,
            any_failed,
            ticks,
        } => {
            assert_eq!(records.len(), 2);
            assert!(!any_failed);
            assert_eq!(ticks, 2);
        }
        PipelineResult::Escalated { .. } => panic!("nothing escalated"),
    }
}

#[test]
fn empty_submission_empty_outcome() {
    match fold_outcomes(Vec::new()) {
        PipelineResult::Outcome {
            records,
            any_failed,
            ticks,
        } => {
            assert!(records.is_empty());
            assert!(!any_failed);
            assert_eq!(ticks, 0);
        }
        PipelineResult::Escalated { .. } => panic!("nothing escalated"),
    }
}

#[test]
fn orchestrator_steps_and_halt() {
    let mut orch = Orchestrator::new(3);
    assert!(!orch.on_event(ok("a", "a.jar")));
    assert!(!orch.on_event(fail("not found")));
    assert!(orch.on_event(rate_limited("slow down")));
    match orch.into_result() {
        PipelineResult::Escalated { message, ticks } => {
            assert_eq!(message, "slow down");
            assert_eq!(ticks, 3);
        }
        PipelineResult::Outcome { .. } => panic!("escalation expected"),
    }
}

#[test]
fn pad_width_clamps() {
    assert_eq!(pad_width(0), 20);
    assert_eq!(pad_width(20), 20);
    assert_eq!(pad_width(35), 35);
    assert_eq!(pad_width(50), 50);
    assert_eq!(pad_width(51), 50);
}

#[test]
fn column_width_over_names() {
    let empty: Vec<String> = Vec::new();
    assert_eq!(column_width(&empty), 20);
    let short = vec!["tiny".to_string(), "names".to_string()];
    assert_eq!(column_width(&short), 20);
    let medium = vec!["a".repeat(33), "b".repeat(7)];
    assert_eq!(column_width(&medium), 33);
    let long = vec!["x".repeat(80)];
    assert_eq!(column_width(&long), 50);
}
