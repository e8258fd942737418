use pane_watch::config::{
    default_cooldown_secs, default_tail_lines, default_true, PaneRuleConfig, PaneRuleFields,
    RuleScope, WatchdogConfig, WatchdogFields,
};
use pane_watch::pane_rules::{
    arrange, classify, compile, compile_rule, compile_with_report, decide, is_any_unguarded,
    is_name_taken, max_tail_lines, CompiledRule, DropReason, TextHit,
};
use std::time::Duration;

fn rule(name: &str, pattern: &str) -> PaneRuleConfig {
    PaneRuleConfig {
        name: name.into(),
        kind: String::new(),
        pattern: pattern.into(),
        negative: Vec::new(),
        tail_lines: default_tail_lines(),
        scope: RuleScope::Line,
        strip_decoration: true,
        priority: 0,
        enabled: true,
        command: None,
        cooldown_secs: default_cooldown_secs(),
    }
}

fn text(table: &toml::Table, key: &str) -> Option<String> {
    table.get(key).and_then(|v| v.as_str()).map(String::from)
}

fn texts(table: &toml::Table, key: &str) -> Option<Vec<String>> {
    let list = table.get(key)?.as_array()?;
    Some(
        list.iter()
            .map(|v| v.as_str().unwrap().to_string())
            .collect(),
    )
}

fn number(table: &toml::Table, key: &str) -> Option<i64> {
    table.get(key).and_then(|v| v.as_integer())
}

fn truth(table: &toml::Table, key: &str) -> Option<bool> {
    table.get(key).and_then(|v| v.as_bool())
}

fn rule_fields(table: &toml::Table) -> PaneRuleFields {
    PaneRuleFields {
        name: text(table, "name").unwrap(),
        kind: text(table, "kind"),
        pattern: text(table, "pattern").unwrap(),
        negative: texts(table, "negative"),
        tail_lines: number(table, "tail_lines").map(|n| n as usize),
        scope: text(table, "scope").map(|s| match s.as_str() {
            "line" => RuleScope::Line,
            "window" => RuleScope::Window,
            other => panic!("unknown scope {other}"),
        }),
        strip_decoration: truth(table, "strip_decoration"),
        priority: number(table, "priority").map(|n| n as u32),
        enabled: truth(table, "enabled"),
        command: text(table, "command"),
        cooldown_secs: number(table, "cooldown_secs").map(|n| n as u64),
    }
}

fn watchdog_config(source: &str) -> WatchdogConfig {
    let table: toml::Table = toml::from_str(source).unwrap();
    WatchdogConfig::from_fields(WatchdogFields {
        disabled: truth(&table, "disabled"),
        interval_secs: number(&table, "interval_secs").map(|n| n as u64),
        rules: table.get("rules").map(|list| {
            list.as_array()
                .unwrap()
                .iter()
                .map(|r| rule_fields(r.as_table().unwrap()))
                .collect()
        }),
    })
}

#[test]
fn toml_rule_parses_with_defaults() {
    let cfg = watchdog_config(
        r#"
            [[rules]]
            name = "my-banner"
            kind = "cap"
            pattern = '(?i)^some banner'
            command = "notify.sh"
            "#,
    );
    let r = &cfg.rules[0];
    assert_eq!(r.name, "my-banner");
    assert_eq!(r.kind, "cap");
    assert_eq!(r.tail_lines, 15);
    assert_eq!(r.scope, RuleScope::Line);
    assert!(r.strip_decoration);
    assert!(r.enabled);
    assert!(r.negative.is_empty());
    assert_eq!(r.command.as_deref(), Some("notify.sh"));
    assert_eq!(r.cooldown_secs, 30 * 60);
    assert!(!cfg.disabled);
    assert_eq!(cfg.interval_secs, None);
}

#[test]
fn compile_drops_invalid_regex_keeps_valid() {
    let rules = vec![rule("bad", "(unclosed"), rule("good", "^fine$")];
    let compiled = compile(&rules);
    assert_eq!(compiled.len(), 1);
    assert_eq!(compiled[0].name, "good");
}

#[test]
fn compile_drops_invalid_negative_guard() {
    let mut r = rule("guarded", "^fine$");
    r.negative = vec!["(unclosed".into()];
    assert!(compile(&[r]).is_empty());
}

#[test]
fn compile_drops_disabled_and_sorts_by_priority() {
    let mut a = rule("second", "a");
    a.priority = 5;
    let mut b = rule("first", "b");
    b.priority = 1;
    let mut c = rule("off", "c");
    c.enabled = false;
    let compiled = compile(&[a, b, c]);
    assert_eq!(compiled.len(), 2);
    assert_eq!(compiled[0].name, "first");
    assert_eq!(compiled[1].name, "second");
}

#[test]
fn compile_drops_duplicate_names_keeps_first() {
    let mut a = rule("dup", "^first$");
    a.cooldown_secs = 60;
    let mut b = rule("dup", "^second$");
    b.cooldown_secs = 999;
    let compiled = compile(&[a, b, rule("other", "^ok$")]);
    assert_eq!(compiled.len(), 2);
    assert_eq!(compiled[0].name, "dup");
    assert_eq!(compiled[0].cooldown, std::time::Duration::from_secs(60));
    assert_eq!(compiled[1].name, "other");
}

#[test]
fn line_rule_matches_anchored_banner() {
    let compiled = compile(&[rule("cap", r"(?i)^usage limit reached")]);
    let pane = "some earlier output\nUsage limit reached, resets 3pm\n";
    assert_eq!(
        classify(pane, &compiled).map(|m| m.name.as_str()),
        Some("cap")
    );
    // Mid-sentence prose must not fire an anchored pattern.
    assert!(classify("we saw usage limit reached earlier\n", &compiled).is_none());
}

#[test]
fn window_rule_fires_across_lines() {
    let mut r = rule("multi", r"(?is)first half[\s\S]*second half");
    r.scope = RuleScope::Window;
    r.tail_lines = 5;
    let compiled = compile(&[r]);
    let pane = "first half of the prompt\nsome middle text\nsecond half here\n";
    assert_eq!(
        classify(pane, &compiled).map(|m| m.name.as_str()),
        Some("multi")
    );
}

#[test]
fn negative_guard_suppresses_match() {
    let mut r = rule("guarded", r"(?i)^usage limit reached");
    r.negative = vec![r"(?i)not your usage limit".into()];
    let compiled = compile(&[r]);
    assert!(classify("Usage limit reached, resets 3pm\n", &compiled).is_some());
    assert!(classify("usage limit reached (not your usage limit)\n", &compiled).is_none());
}

#[test]
fn strip_decoration_handles_selector_and_enumerator() {
    let compiled = compile(&[rule("opt", r"(?i)^stop and wait")]);
    assert!(classify(" > 1. Stop and wait for limit reset\n", &compiled).is_some());
    // Leading digits without a dot or paren are not an enumerator and
    // must survive normalization.
    let compiled = compile(&[rule("hour", r"(?i)^5-hour limit")]);
    assert!(classify("5-hour limit reached\n", &compiled).is_some());
}

#[test]
fn strip_decoration_off_keeps_raw_line() {
    let mut r = rule("gate", r"^ACTION REQUIRED");
    r.strip_decoration = false;
    let compiled = compile(&[r]);
    assert!(classify("ACTION REQUIRED: approve the send\n", &compiled).is_some());
    assert!(classify("  * ACTION REQUIRED: approve the send\n", &compiled).is_none());
}

#[test]
fn tail_lines_bounds_the_window() {
    let mut r = rule("edge", r"(?i)^stale banner");
    r.tail_lines = 3;
    let compiled = compile(&[r]);
    let mut pane = String::from("stale banner\n");
    for i in 0..10 {
        pane.push_str(&format!("later line {i}\n"));
    }
    assert!(classify(&pane, &compiled).is_none());
}

#[test]
fn ansi_escapes_are_stripped_before_matching() {
    let compiled = compile(&[rule("cap", r"(?i)^usage limit reached")]);
    let pane = "\x1b[31mUsage limit reached\x1b[0m\n";
    assert!(classify(pane, &compiled).is_some());
}

#[test]
fn priority_picks_first_match() {
    let mut cap = rule("cap", r"(?i)^usage limit reached");
    cap.priority = 0;
    let mut gate = rule("gate", r"^ACTION REQUIRED");
    gate.priority = 1;
    let compiled = compile(&[gate, cap]);
    let pane = "ACTION REQUIRED: something\nUsage limit reached\n";
    assert_eq!(
        classify(pane, &compiled).map(|m| m.name.as_str()),
        Some("cap")
    );
}

#[test]
fn defaults_are_the_documented_ones() {
    assert_eq!(default_tail_lines(), 15);
    assert!(default_true());
    assert_eq!(default_cooldown_secs(), 1800);
    assert_eq!(RuleScope::default(), RuleScope::Line);
    let cfg = WatchdogConfig::default();
    assert!(!cfg.disabled);
    assert_eq!(cfg.interval_secs, None);
    assert!(cfg.rules.is_empty());
}

#[test]
fn every_field_of_a_rule_is_read() {
    let cfg = watchdog_config(
        r#"
            disabled = true
            interval_secs = 30
            [[rules]]
            name = "device-code"
            kind = "auth"
            pattern = '(?is)devicelogin.*code'
            negative = ['(?i)example']
            tail_lines = 8
            scope = "window"
            strip_decoration = false
            priority = 1
            enabled = false
            command = "notify.sh"
            cooldown_secs = 600
            "#,
    );
    assert!(cfg.disabled);
    assert_eq!(cfg.interval_secs, Some(30));
    let r = &cfg.rules[0];
    assert_eq!(r.negative, vec!["(?i)example".to_string()]);
    assert_eq!(r.tail_lines, 8);
    assert_eq!(r.scope, RuleScope::Window);
    assert!(!r.strip_decoration);
    assert_eq!(r.priority, 1);
    assert!(!r.enabled);
    assert_eq!(r.cooldown_secs, 600);
}

#[test]
fn written_fields_read_back_the_same() {
    let mut a = rule("a", "x");
    a.negative = vec!["y".into(), "z".into()];
    a.command = Some("run.sh".into());
    a.scope = RuleScope::Window;
    let b = rule("b", "w");
    let cfg = WatchdogConfig {
        disabled: true,
        interval_secs: Some(20),
        rules: vec![a, b],
    };
    let fields = cfg.to_fields();
    let written = fields.rules.clone().unwrap();
    assert_eq!(written[0].negative.as_ref().unwrap().len(), 2);
    assert!(written[1].negative.is_none());
    assert!(written[1].command.is_none());
    assert_eq!(written[1].tail_lines, Some(15));
    let back = WatchdogConfig::from_fields(fields);
    assert_eq!(format!("{:?}", back), format!("{:?}", cfg));
    assert!(WatchdogConfig::default().to_fields().rules.is_none());
}

#[test]
fn report_names_each_cause() {
    let mut off = rule("off", "(unclosed");
    off.enabled = false;
    let mut guard = rule("guard", "ok");
    guard.negative = vec!["fine".into(), "[".into()];
    let rules = vec![
        rule("a", "x"),
        off,
        rule("a", "y"),
        rule("bad", "(unclosed"),
        guard,
    ];
    let outcome = compile_with_report(&rules);
    assert_eq!(outcome.rules.len(), 1);
    let seen: Vec<usize> = outcome.dropped.iter().map(|d| d.index).collect();
    assert_eq!(seen, vec![2, 3, 4]);
    assert!(matches!(outcome.dropped[0].reason, DropReason::DuplicateName));
    assert!(matches!(
        outcome.dropped[1].reason,
        DropReason::InvalidPattern(_)
    ));
    assert!(matches!(
        outcome.dropped[2].reason,
        DropReason::InvalidGuard(_)
    ));
}

#[test]
fn drop_reason_carries_the_error_of_what_failed() {
    let mut guard = rule("guard", "ok");
    guard.negative = vec!["fine".into(), "[".into(), "(".into()];
    let error_of = |pattern: &str| regex::Regex::new(pattern).unwrap_err();
    let outcome = compile_with_report(&[rule("bad", "(unclosed"), guard]);
    match &outcome.dropped[0].reason {
        DropReason::InvalidPattern(e) => assert_eq!(*e, error_of("(unclosed")),
        other => panic!("{other:?}"),
    }
    match &outcome.dropped[1].reason {
        DropReason::InvalidGuard(e) => {
            assert_eq!(*e, error_of("["));
            assert_ne!(*e, error_of("("));
        }
        other => panic!("{other:?}"),
    }
}

#[test]
fn default_values_are_written_out() {
    let cfg = WatchdogConfig {
        disabled: false,
        interval_secs: None,
        rules: vec![rule("plain", "x")],
    };
    let fields = cfg.to_fields();
    assert_eq!(fields.disabled, Some(false));
    assert_eq!(fields.interval_secs, None);
    let f = &fields.rules.unwrap()[0];
    assert_eq!(f.kind.as_deref(), Some(""));
    assert_eq!(f.tail_lines, Some(15));
    assert_eq!(f.scope, Some(RuleScope::Line));
    assert_eq!(f.strip_decoration, Some(true));
    assert_eq!(f.priority, Some(0));
    assert_eq!(f.enabled, Some(true));
    assert_eq!(f.cooldown_secs, Some(1800));
}

#[test]
fn invalid_rule_still_takes_its_name() {
    let rules = vec![rule("a", "(unclosed"), rule("a", "fine")];
    assert!(compile(&rules).is_empty());
    assert!(!is_name_taken(&rules, 0));
    assert!(is_name_taken(&rules, 1));
}

#[test]
fn disabled_rule_does_not_take_its_name() {
    let mut off = rule("a", "x");
    off.enabled = false;
    let compiled = compile(&[off, rule("a", "y")]);
    assert_eq!(compiled.len(), 1);
    assert_eq!(compiled[0].pattern.as_str(), "y");
}

#[test]
fn dropping_a_rule_beforehand_changes_nothing() {
    let mut off = rule("off", "x");
    off.enabled = false;
    let with = vec![rule("a", "1"), off, rule("bad", "("), rule("b", "2")];
    let without = vec![rule("a", "1"), rule("b", "2")];
    let names = |rules: &[PaneRuleConfig]| -> Vec<String> {
        compile(rules).into_iter().map(|r| r.name).collect()
    };
    assert_eq!(names(&with), names(&without));
}

#[test]
fn equal_priorities_keep_config_order() {
    let mut rules = Vec::new();
    for (name, priority) in [("a", 2), ("b", 1), ("c", 2), ("d", 0), ("e", 1)] {
        let mut r = rule(name, "x");
        r.priority = priority;
        rules.push(r);
    }
    let names: Vec<String> = compile(&rules).into_iter().map(|r| r.name).collect();
    assert_eq!(names, vec!["d", "b", "e", "a", "c"]);
}

#[test]
fn arrange_skips_what_is_missing() {
    let mut late = rule("late", "x");
    late.priority = 9;
    let attempts = vec![
        compile_rule(&late).ok(),
        None,
        compile_rule(&rule("early", "y")).ok(),
    ];
    let names: Vec<String> = arrange(attempts).into_iter().map(|r| r.name).collect();
    assert_eq!(names, vec!["early", "late"]);
}

#[test]
fn compiled_rule_carries_its_config() {
    let mut r = rule("n", "p+");
    r.kind = "k".into();
    r.negative = vec!["g".into()];
    r.tail_lines = 0;
    r.command = Some("c".into());
    r.cooldown_secs = 7;
    r.priority = 3;
    let c = compile_rule(&r).unwrap();
    assert_eq!(c.name, "n");
    assert_eq!(c.kind, "k");
    assert_eq!(c.pattern.as_str(), "p+");
    assert_eq!(c.negative[0].as_str(), "g");
    assert_eq!(c.tail_lines, 1);
    assert_eq!(c.command.as_deref(), Some("c"));
    assert_eq!(c.cooldown, Duration::from_secs(7));
    assert_eq!(c.priority, 3);
}

#[test]
fn given_expressions_are_used() {
    let c = CompiledRule::with_regexes(
        &rule("n", "ignored"),
        regex::Regex::new("used").unwrap(),
        Vec::new(),
    );
    let rules = vec![c];
    assert!(classify("it is used here\n", &rules).is_some());
    assert!(classify("it is ignored here\n", &rules).is_none());
}

#[test]
fn widest_window_is_found() {
    assert_eq!(max_tail_lines(&[]), 0);
    let mut a = rule("a", "x");
    a.tail_lines = 3;
    let mut b = rule("b", "x");
    b.tail_lines = 40;
    assert_eq!(max_tail_lines(&compile(&[a, b])), 40);
}

#[test]
fn zero_window_looks_at_one_line() {
    let mut r = rule("a", "^here");
    r.tail_lines = 0;
    let compiled = compile(&[r]);
    assert!(classify("here\n", &compiled).is_some());
    assert!(classify("here\nthere\n", &compiled).is_none());
}

#[test]
fn blank_lines_do_not_count() {
    let mut r = rule("a", "^here");
    r.tail_lines = 1;
    let compiled = compile(&[r]);
    assert!(classify("here\n\n   \n\r\n", &compiled).is_some());
}

#[test]
fn carriage_returns_are_trimmed() {
    let mut r = rule("a", "^here$");
    r.strip_decoration = false;
    let compiled = compile(&[r]);
    assert!(classify("here  \r\nthere\r\n", &compiled).is_some());
}

#[test]
fn empty_window_is_matched_as_empty_text() {
    let mut r = rule("empty", "^$");
    r.scope = RuleScope::Window;
    let window = compile(&[r]);
    assert!(classify("", &window).is_some());
    let line = compile(&[rule("empty", "^$")]);
    assert!(classify("", &line).is_none());
}

#[test]
fn window_text_is_joined_with_newlines() {
    let mut r = rule("w", r"^a\nb$");
    r.scope = RuleScope::Window;
    r.tail_lines = 2;
    let compiled = compile(&[r]);
    assert!(classify("x\na\n\nb\n", &compiled).is_some());
    assert!(classify("x\na\nb\nc\n", &compiled).is_none());
}

#[test]
fn window_scope_keeps_decoration() {
    let mut r = rule("w", "^Stop");
    r.scope = RuleScope::Window;
    let compiled = compile(&[r]);
    assert!(classify("> Stop\n", &compiled).is_none());
}

#[test]
fn guards_see_the_raw_line() {
    let mut r = rule("g", "^Stop");
    r.negative = vec!["^> ".into()];
    let compiled = compile(&[r]);
    assert!(classify("* Stop\n", &compiled).is_some());
    assert!(classify("> Stop\n", &compiled).is_none());
    // A guarded line does not hide an unguarded one.
    assert!(classify("> Stop\n* Stop\n", &compiled).is_some());
}

#[test]
fn older_scrollback_changes_nothing() {
    let mut r = rule("a", "^here");
    r.tail_lines = 2;
    let compiled = compile(&[r]);
    for recent in ["here\nb\n", "a\nb\n"] {
        let older = format!("here\nold\n{recent}");
        assert_eq!(
            classify(recent, &compiled).is_some(),
            classify(&older, &compiled).is_some()
        );
    }
}

#[test]
fn decision_takes_the_first_that_fires() {
    let hit = TextHit {
        guarded: false,
        matched: true,
    };
    let guarded = TextHit {
        guarded: true,
        matched: true,
    };
    let miss = TextHit {
        guarded: false,
        matched: false,
    };
    assert!(is_any_unguarded(&vec![miss, guarded, hit]));
    assert!(!is_any_unguarded(&vec![miss, guarded]));
    assert_eq!(
        decide(&vec![vec![guarded], vec![miss, hit], vec![hit]]),
        Some(1)
    );
    assert_eq!(decide(&vec![vec![], vec![miss]]), None);
    assert_eq!(decide(&vec![]), None);
}
