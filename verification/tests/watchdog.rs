use pane_watch::command::{command_report, command_request, CommandOutcome, LogLevel};
use pane_watch::config::{PaneRuleConfig, PaneRuleFields, WatchdogConfig};
use pane_watch::ledger::Ledger;
use pane_watch::pane_rules::{compile, CompiledRule};
use pane_watch::pane_watchdog::{
    capture_lines, match_pane, scan_interval_secs, scan_panes, startup, Pane, PaneMatch, PaneProbe,
    Startup,
};
use std::time::Duration;

const SECOND: u128 = 1_000_000_000;

fn rule(name: &str, pattern: &str) -> PaneRuleConfig {
    PaneRuleConfig::from_fields(PaneRuleFields {
        name: name.into(),
        kind: Some("cap".into()),
        pattern: pattern.into(),
        negative: None,
        tail_lines: None,
        scope: None,
        strip_decoration: None,
        priority: None,
        enabled: None,
        command: Some("notify.sh".into()),
        cooldown_secs: Some(60),
    })
}

fn config(rules: Vec<PaneRuleConfig>) -> WatchdogConfig {
    WatchdogConfig {
        disabled: false,
        interval_secs: None,
        rules,
    }
}

fn pane(id: &str, probe: PaneProbe) -> Pane {
    Pane {
        session_id: id.into(),
        title: format!("title of {id}"),
        profile: "work".into(),
        probe,
    }
}

fn hit(session: &str, rule: &CompiledRule) -> PaneMatch {
    PaneMatch {
        session_id: session.into(),
        title: "t".into(),
        profile: "p".into(),
        rule_name: rule.name.clone(),
        kind: rule.kind.clone(),
        command: rule.command.clone(),
        cooldown: rule.cooldown,
    }
}

fn sessions(matches: &[PaneMatch]) -> Vec<&str> {
    matches.iter().map(|m| m.session_id.as_str()).collect()
}

#[test]
fn interval_has_a_default_and_a_minimum() {
    assert_eq!(scan_interval_secs(None), 180);
    assert_eq!(scan_interval_secs(Some(0)), 10);
    assert_eq!(scan_interval_secs(Some(9)), 10);
    assert_eq!(scan_interval_secs(Some(10)), 10);
    assert_eq!(scan_interval_secs(Some(3600)), 3600);
}

#[test]
fn read_only_daemon_never_watches() {
    assert!(matches!(
        startup(true, &config(vec![rule("a", "x")])),
        Startup::Off
    ));
}

#[test]
fn disabled_watchdog_stays_off() {
    let mut cfg = config(vec![rule("a", "x")]);
    cfg.disabled = true;
    assert!(matches!(startup(false, &cfg), Startup::Off));
}

#[test]
fn nothing_to_watch_without_rules() {
    match startup(false, &config(vec![rule("bad", "(")])) {
        Startup::NoRules { dropped } => assert_eq!(dropped.len(), 1),
        other => panic!("{other:?}"),
    }
    assert!(matches!(
        startup(false, &config(vec![])),
        Startup::NoRules { .. }
    ));
}

#[test]
fn watch_carries_rules_and_interval() {
    let mut cfg = config(vec![rule("bad", "("), rule("a", "x")]);
    cfg.interval_secs = Some(5);
    match startup(false, &cfg) {
        Startup::Watch {
            rules,
            dropped,
            interval_secs,
        } => {
            assert_eq!(rules.len(), 1);
            assert_eq!(rules[0].name, "a");
            assert_eq!(dropped[0].index, 0);
            assert_eq!(interval_secs, 10);
        }
        other => panic!("{other:?}"),
    }
}

#[test]
fn capture_is_twice_the_widest_window() {
    assert_eq!(capture_lines(&[]), 50);
    let mut narrow = rule("a", "x");
    narrow.tail_lines = 25;
    assert_eq!(capture_lines(&compile(&[narrow])), 50);
    let mut wide = rule("b", "x");
    wide.tail_lines = 100;
    assert_eq!(capture_lines(&compile(&[wide])), 200);
    let mut huge = rule("c", "x");
    huge.tail_lines = usize::MAX - 1;
    assert_eq!(capture_lines(&compile(&[huge])), usize::MAX);
}

#[test]
fn match_carries_session_and_rule() {
    let rules = compile(&[rule("cap", "(?i)^usage limit")]);
    let m = match_pane(
        &pane("s1", PaneProbe::Captured("\u{1b}[1mUsage limit\n".into())),
        &rules,
    )
    .unwrap();
    assert_eq!(m.session_id, "s1");
    assert_eq!(m.title, "title of s1");
    assert_eq!(m.profile, "work");
    assert_eq!(m.rule_name, "cap");
    assert_eq!(m.kind, "cap");
    assert_eq!(m.command.as_deref(), Some("notify.sh"));
    assert_eq!(m.cooldown, Duration::from_secs(60));
}

#[test]
fn panes_that_were_not_captured_are_skipped() {
    let rules = compile(&[rule("cap", "^x")]);
    let panes = vec![
        pane("structured", PaneProbe::Structured),
        pane("one", PaneProbe::Captured("x\n".into())),
        pane("none", PaneProbe::NoSession),
        pane("gone", PaneProbe::Gone),
        pane("healthy", PaneProbe::Captured("y\n".into())),
        pane("broken", PaneProbe::Unreadable),
        pane("two", PaneProbe::Captured("x\n".into())),
    ];
    assert_eq!(sessions(&scan_panes(&panes, &rules)), vec!["one", "two"]);
}

#[test]
fn first_match_fires_and_repeats_wait() {
    let rules = compile(&[rule("cap", "x")]);
    let mut ledger = Ledger::new();
    let scan = |ids: &[&str]| Some(ids.iter().map(|id| hit(id, &rules[0])).collect());
    assert_eq!(sessions(&ledger.tick(&rules, scan(&["a"]), 0)), vec!["a"]);
    assert!(ledger.tick(&rules, scan(&["a"]), 59 * SECOND).is_empty());
    assert!(ledger
        .tick(&rules, scan(&["a"]), 60 * SECOND - 1)
        .is_empty());
    assert_eq!(
        sessions(&ledger.tick(&rules, scan(&["a"]), 60 * SECOND)),
        vec!["a"]
    );
    assert!(ledger.tick(&rules, scan(&["a"]), 61 * SECOND).is_empty());
}

#[test]
fn first_match_of_a_run_fires_whenever_it_comes() {
    let rules = compile(&[rule("cap", "x"), rule("auth", "y")]);
    let mut ledger = Ledger::new();
    ledger.tick(&rules, Some(vec![hit("a", &rules[0])]), 0);
    ledger.tick(&rules, Some(vec![]), 10 * SECOND);
    ledger.tick(&rules, Some(vec![hit("a", &rules[0])]), 20 * SECOND);
    let scan = vec![
        hit("a", &rules[0]),
        hit("a", &rules[1]),
        hit("b", &rules[0]),
    ];
    let fired = ledger.tick(&rules, Some(scan), 30 * SECOND);
    assert_eq!(sessions(&fired), vec!["a", "b"]);
    assert_eq!(fired[0].rule_name, "auth");
}

#[test]
fn sessions_and_rules_cool_down_apart() {
    let rules = compile(&[rule("cap", "x"), rule("auth", "y")]);
    let mut ledger = Ledger::new();
    let first = vec![hit("a", &rules[0])];
    assert_eq!(ledger.tick(&rules, Some(first), 0).len(), 1);
    let second = vec![
        hit("a", &rules[0]),
        hit("b", &rules[0]),
        hit("a", &rules[1]),
    ];
    let fired = ledger.tick(&rules, Some(second), SECOND);
    assert_eq!(sessions(&fired), vec!["b", "a"]);
    assert_eq!(fired[1].rule_name, "auth");
}

#[test]
fn one_scan_fires_once_per_session_and_rule() {
    let rules = compile(&[rule("cap", "x")]);
    let mut ledger = Ledger::new();
    let twice = vec![hit("a", &rules[0]), hit("a", &rules[0])];
    assert_eq!(ledger.tick(&rules, Some(twice), 5).len(), 1);
}

#[test]
fn no_cooldown_fires_every_time() {
    let mut r = rule("cap", "x");
    r.cooldown_secs = 0;
    let rules = compile(&[r]);
    let mut ledger = Ledger::new();
    let twice = vec![hit("a", &rules[0]), hit("a", &rules[0])];
    assert_eq!(ledger.tick(&rules, Some(twice), 5).len(), 2);
    assert_eq!(
        ledger.tick(&rules, Some(vec![hit("a", &rules[0])]), 5).len(),
        1
    );
}

#[test]
fn failed_scan_changes_nothing() {
    let rules = compile(&[rule("cap", "x")]);
    let mut ledger = Ledger::new();
    ledger.tick(&rules, Some(vec![hit("a", &rules[0])]), 0);
    assert!(ledger.tick(&rules, None, SECOND).is_empty());
    assert!(!ledger.is_due(&hit("a", &rules[0]), 2 * SECOND));
}

#[test]
fn clock_going_back_counts_as_no_time() {
    let rules = compile(&[rule("cap", "x")]);
    let mut ledger = Ledger::new();
    ledger.record(&hit("a", &rules[0]), 10 * SECOND);
    assert!(!ledger.is_due(&hit("a", &rules[0]), 0));
}

#[test]
fn pruning_forgets_spent_and_unknown_firings() {
    let rules = compile(&[rule("cap", "x")]);
    let other = compile(&[rule("other", "x")]);
    let mut ledger = Ledger::new();
    ledger.record(&hit("a", &rules[0]), 0);
    ledger.record(&hit("b", &rules[0]), 30 * SECOND);
    ledger.record(&hit("c", &other[0]), 30 * SECOND);
    ledger.prune(&rules, 60 * SECOND);
    // Spent: due whatever the cooldown asked for.
    let mut long = hit("a", &rules[0]);
    long.cooldown = Duration::from_secs(1000);
    assert!(ledger.is_due(&long, 61 * SECOND));
    // Of no known rule.
    assert!(ledger.is_due(&hit("c", &other[0]), 61 * SECOND));
    // Still holding back.
    assert!(!ledger.is_due(&hit("b", &rules[0]), 61 * SECOND));
}

#[test]
fn command_runs_in_a_shell_with_the_match() {
    let rules = compile(&[rule("cap", "x")]);
    let request = command_request(&hit("s", &rules[0])).unwrap();
    assert_eq!(request.program, "sh");
    assert_eq!(request.args, vec!["-c", "notify.sh"]);
    assert_eq!(request.timeout_secs, 60);
    let env: Vec<(&str, &str)> = request
        .env
        .iter()
        .map(|(k, v)| (k.as_str(), v.as_str()))
        .collect();
    assert_eq!(
        env,
        vec![
            ("AOE_RULE_NAME", "cap"),
            ("AOE_RULE_KIND", "cap"),
            ("AOE_SESSION_ID", "s"),
            ("AOE_SESSION_TITLE", "t"),
            ("AOE_SESSION_PROFILE", "p"),
        ]
    );
}

#[test]
fn rule_without_command_runs_nothing() {
    let rules = compile(&[rule("cap", "x")]);
    let mut m = hit("s", &rules[0]);
    m.command = None;
    assert!(command_request(&m).is_none());
}

#[test]
fn outcomes_are_reported() {
    let r = command_report(CommandOutcome::TimedOut);
    assert_eq!(r.level, LogLevel::Warn);
    assert_eq!(r.message, "rule command timed out; killed");
    assert!(!r.with_output);
    let r = command_report(CommandOutcome::FailedToRun);
    assert_eq!(r.level, LogLevel::Warn);
    assert_eq!(r.message, "rule command failed to run");
    let r = command_report(CommandOutcome::Exited { success: false });
    assert_eq!(r.level, LogLevel::Warn);
    assert_eq!(r.message, "rule command exited non-zero");
    assert!(r.with_output);
    let r = command_report(CommandOutcome::Exited { success: true });
    assert_eq!(r.level, LogLevel::Debug);
    assert_eq!(r.message, "rule command completed");
    assert!(!r.with_output);
}
