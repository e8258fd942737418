//! Pane watchdog: what the daemon's background loop decides. It starts or
//! stays off, turns captured panes into matches, holds matches to each
//! rule's cooldown, and says which commands to run and how.
//!
//! The watchdog only observes panes and runs user commands. Everything is
//! fail-open: a pane that cannot be captured is skipped, and a failed scan
//! leaves the state as it was.

use crate::config::{configs, copy_if_any, text_if_any, value_or, WatchdogConfig};
use crate::pane_rules::{
    causes, classified, classify, compile_with_report, compiles_to, decided, drops,
    duration_nanos, max_tail_lines, pane_observations, rule_views, widest_window, CompiledRule,
    DroppedRule, RuleView,
};
use crate::regexes::regex_compiles;
use crate::rule_laws::{
    decision_is_determined, no_rule_survives, something_survives_if_sound,
    survivors_are_counted, widest_window_covers_all,
};
use std::time::Duration;
use vstd::prelude::*;

verus! {

/// Seconds between scans unless the config says otherwise.
pub const DEFAULT_INTERVAL_SECS: u64 = 180;

/// The fewest seconds between scans.
pub const MIN_INTERVAL_SECS: u64 = 10;

/// Seconds after which a rule command is killed.
pub const COMMAND_TIMEOUT_SECS: u64 = 60;

/// The fewest lines to capture of a pane.
pub const MIN_CAPTURE_LINES: usize = 50;

/// Seconds between scans: as configured, or the default, but never below
/// the minimum.
pub open spec fn scan_interval(configured: Option<u64>) -> u64 {
    let wanted = value_or(configured, DEFAULT_INTERVAL_SECS);
    if wanted < MIN_INTERVAL_SECS {
        MIN_INTERVAL_SECS
    } else {
        wanted
    }
}

/// An interval of ten seconds or more is taken as it is configured, a shorter
/// one is ten seconds, and a missing one is three minutes.
pub proof fn interval_is_as_configured(secs: u64)
    ensures
        secs >= 10 ==> scan_interval(Some(secs)) == secs,
        secs < 10 ==> scan_interval(Some(secs)) == 10,
        scan_interval(None) == 180,
{
}

/// Computes [`scan_interval`].
pub fn scan_interval_secs(configured: Option<u64>) -> (r: u64)
    ensures
        r == scan_interval(configured),
        r >= MIN_INTERVAL_SECS,
{
    let wanted: u64 = configured.unwrap_or(DEFAULT_INTERVAL_SECS);
    if wanted < MIN_INTERVAL_SECS {
        MIN_INTERVAL_SECS
    } else {
        wanted
    }
}

/// What the daemon does about the watchdog when it starts.
#[derive(Debug)]
pub enum Startup {
    /// Nothing: the daemon is read-only, or the watchdog is disabled.
    Off,
    /// Nothing: no rule is kept.
    NoRules { dropped: Vec<DroppedRule> },
    /// Scan every `interval_secs` seconds with these rules.
    Watch { rules: Vec<CompiledRule>, dropped: Vec<DroppedRule>, interval_secs: u64 },
}

/// Decide whether and how to run the watchdog. A read-only daemon never
/// does, since rules run commands.
pub fn startup(read_only: bool, config: &WatchdogConfig) -> (r: Startup)
    ensures
        match r {
            Startup::Off => read_only || config.disabled,
            Startup::NoRules { dropped } => {
                &&& !read_only && !config.disabled
                &&& no_rule_survives(configs(config.rules@))
                &&& causes(dropped@) == drops(configs(config.rules@), config.rules@.len())
            },
            Startup::Watch { rules, dropped, interval_secs } => {
                &&& !read_only && !config.disabled
                &&& !no_rule_survives(configs(config.rules@))
                &&& compiles_to(configs(config.rules@), rule_views(rules@))
                &&& causes(dropped@) == drops(configs(config.rules@), config.rules@.len())
                &&& interval_secs == scan_interval(config.interval_secs)
            },
        },
        r is Off <==> read_only || config.disabled,
        r is Watch <==> !read_only && !config.disabled && exists|i: int|
            {
                &&& 0 <= i < config.rules@.len()
                &&& (#[trigger] config.rules@[i]).enabled
                &&& forall|j: int|
                    0 <= j < i ==> !((#[trigger] config.rules@[j]).enabled
                        && config.rules@[j].name@ == config.rules@[i].name@)
                &&& regex_compiles(config.rules@[i].pattern@)
                &&& forall|g: int|
                    0 <= g < config.rules@[i].negative@.len() ==> regex_compiles(
                        (#[trigger] config.rules@[i].negative@[g])@,
                    )
            },
        r matches Startup::Watch { interval_secs, .. } ==> match config.interval_secs {
            Some(secs) => interval_secs == (if secs < 10 {
                10
            } else {
                secs
            }),
            None => interval_secs == 180,
        },
{
    if read_only || config.disabled {
        return Startup::Off;
    }
    let outcome = compile_with_report(config.rules.as_slice());
    proof {
        survivors_are_counted(configs(config.rules@), rule_views(outcome.rules@));
        something_survives_if_sound(config.rules@);
    }
    if outcome.rules.len() == 0 {
        return Startup::NoRules { dropped: outcome.dropped };
    }
    Startup::Watch {
        rules: outcome.rules,
        dropped: outcome.dropped,
        interval_secs: scan_interval_secs(config.interval_secs),
    }
}

/// How many lines to capture for a widest window of `widest` lines: twice
/// as many, and [`MIN_CAPTURE_LINES`] at least.
pub open spec fn capture_size(widest: nat) -> nat {
    let doubled = if 2 * widest > usize::MAX {
        usize::MAX as nat
    } else {
        2 * widest
    };
    if doubled < MIN_CAPTURE_LINES {
        MIN_CAPTURE_LINES as nat
    } else {
        doubled
    }
}

/// How many lines to capture of each pane. Rule windows count non-empty
/// lines, so this is more than the widest window, to leave room for blanks
/// and padding.
pub fn capture_lines(rules: &[CompiledRule]) -> (r: usize)
    ensures
        r == capture_size(widest_window(rule_views(rules@))),
{
    let widest: usize = max_tail_lines(rules);
    let doubled: usize = if widest > usize::MAX / 2 {
        usize::MAX
    } else {
        widest * 2
    };
    if doubled < MIN_CAPTURE_LINES {
        MIN_CAPTURE_LINES
    } else {
        doubled
    }
}

/// A capture has room for every rule's window.
pub proof fn capture_covers_windows(rules: Seq<RuleView>, k: int)
    requires
        0 <= k < rules.len(),
        widest_window(rules) <= usize::MAX,
    ensures
        rules[k].tail_lines <= capture_size(widest_window(rules)),
        widest_window(rules) <= usize::MAX / 2 ==> 2 * rules[k].tail_lines <= capture_size(
            widest_window(rules),
        ),
{
    widest_window_covers_all(rules, k);
}

/// A capture is twice the widest window, but never less than fifty lines; a
/// window too wide to be doubled is captured as far as a count can go.
pub proof fn capture_is_twice_the_widest_window(widest: nat)
    ensures
        widest < 25 ==> capture_size(widest) == 50,
        25 <= widest && 2 * widest <= usize::MAX ==> capture_size(widest) == 2 * widest,
        2 * widest > usize::MAX ==> capture_size(widest) == usize::MAX,
{
}

/// What came of looking at a session's pane.
#[derive(Debug, Clone)]
pub enum PaneProbe {
    /// The session runs in the structured view; its pane text means nothing.
    Structured,
    /// There is no tmux session to ask for.
    NoSession,
    /// The tmux session does not exist any more.
    Gone,
    /// The pane could not be captured.
    Unreadable,
    /// The captured tail.
    Captured(String),
}

/// A registered session and its pane.
#[derive(Debug, Clone)]
pub struct Pane {
    pub session_id: String,
    pub title: String,
    pub profile: String,
    pub probe: PaneProbe,
}

/// A pane that a rule matched.
#[derive(Debug)]
pub struct PaneMatch {
    pub session_id: String,
    pub title: String,
    pub profile: String,
    pub rule_name: String,
    pub kind: String,
    pub command: Option<String>,
    pub cooldown: Duration,
}

/// A session and what was captured of its pane, as plain values.
pub struct PaneView {
    pub session_id: Seq<char>,
    pub title: Seq<char>,
    pub profile: Seq<char>,
    pub captured: Option<Seq<char>>,
}

impl View for Pane {
    type V = PaneView;

    open spec fn view(&self) -> PaneView {
        PaneView {
            session_id: self.session_id@,
            title: self.title@,
            profile: self.profile@,
            captured: match self.probe {
                PaneProbe::Captured(content) => Some(content@),
                _ => None,
            },
        }
    }
}

/// A match, as plain values.
pub struct MatchView {
    pub session_id: Seq<char>,
    pub title: Seq<char>,
    pub profile: Seq<char>,
    pub rule_name: Seq<char>,
    pub kind: Seq<char>,
    pub command: Option<Seq<char>>,
    pub cooldown_nanos: nat,
}

impl View for PaneMatch {
    type V = MatchView;

    open spec fn view(&self) -> MatchView {
        MatchView {
            session_id: self.session_id@,
            title: self.title@,
            profile: self.profile@,
            rule_name: self.rule_name@,
            kind: self.kind@,
            command: text_if_any(self.command),
            cooldown_nanos: duration_nanos(self.cooldown),
        }
    }
}

/// The contents of a list of panes.
pub open spec fn pane_views(panes: Seq<Pane>) -> Seq<PaneView> {
    Seq::new(panes.len(), |i: int| panes[i]@)
}

/// The contents of a list of matches.
pub open spec fn match_views(matches: Seq<PaneMatch>) -> Seq<MatchView> {
    Seq::new(matches.len(), |i: int| matches[i]@)
}

/// The match of a pane by a rule.
pub open spec fn match_by(pane: PaneView, rule: RuleView) -> MatchView {
    MatchView {
        session_id: pane.session_id,
        title: pane.title,
        profile: pane.profile,
        rule_name: rule.name,
        kind: rule.kind,
        command: rule.command,
        cooldown_nanos: rule.cooldown_nanos,
    }
}

/// The match of a pane, if it was captured and a rule fires on it.
pub open spec fn pane_match(pane: PaneView, rules: Seq<RuleView>) -> Option<MatchView> {
    match pane.captured {
        Some(content) => match classified(rules, content) {
            Some(rule) => Some(match_by(pane, rule)),
            None => None,
        },
        None => None,
    }
}

/// The matches of a list of panes, in order.
pub open spec fn scanned(panes: Seq<PaneView>, rules: Seq<RuleView>) -> Seq<MatchView>
    decreases panes.len(),
{
    if panes.len() == 0 {
        Seq::empty()
    } else {
        let before = scanned(panes.drop_last(), rules);
        match pane_match(panes.last(), rules) {
            Some(m) => before.push(m),
            None => before,
        }
    }
}

/// The view of a match tells each field as it stands.
pub proof fn match_view_tells_each_field(m: PaneMatch)
    ensures
        m@.session_id == m.session_id@,
        m@.title == m.title@,
        m@.profile == m.profile@,
        m@.rule_name == m.rule_name@,
        m@.kind == m.kind@,
        m@.command is Some <==> m.command is Some,
        m.command matches Some(command) ==> m@.command == Some(command@),
        m@.cooldown_nanos == duration_nanos(m.cooldown),
{
}

/// A match tells the session that was looked at, and the name, kind, command
/// and cooldown of the rule that its captured text is classified by.
pub proof fn match_tells_session_and_rule(pane: Pane, rules: Seq<CompiledRule>, m: PaneMatch)
    requires
        pane_match(pane@, rule_views(rules)) == Some(m@),
    ensures
        m.session_id@ == pane.session_id@,
        m.title@ == pane.title@,
        m.profile@ == pane.profile@,
        pane.probe matches PaneProbe::Captured(content) && exists|k: int|
            {
                &&& 0 <= k < rules.len()
                &&& classified(rule_views(rules), content@) == Some((#[trigger] rules[k])@)
                &&& m.rule_name@ == rules[k].name@
                &&& m.kind@ == rules[k].kind@
                &&& m.command is Some <==> rules[k].command is Some
                &&& m.command is Some ==> m.command->0@ == rules[k].command->0@
                &&& duration_nanos(m.cooldown) == duration_nanos(rules[k].cooldown)
            },
{
    let content = pane@.captured->0;
    let views = rule_views(rules);
    let seen = pane_observations(views, content);
    decision_is_determined(seen);
    let winner = choose|winner: Option<int>| decided(seen, winner);
    assert(decided(seen, Some(winner->0)));
    let k = choose|k: int| decided(seen, Some(k));
    assert(views[k] == rules[k]@);
    let rule = rules[k];
    assert(m@ == match_by(pane@, rule@));
    assert(m.kind@ == rule.kind@);
}

/// A pane matches exactly when it was captured and its text is classified.
pub proof fn captured_pane_matches_when_classified(pane: Pane, rules: Seq<RuleView>)
    ensures
        pane_match(pane@, rules) is Some <==> (pane.probe matches PaneProbe::Captured(content)
            && classified(rules, content@) is Some),
{
}

/// A scan of one pane gives its match, if it has one, and nothing else.
pub proof fn one_pane_gives_its_match(pane: PaneView, rules: Seq<RuleView>)
    ensures
        pane_match(pane, rules) matches Some(m) ==> scanned(seq![pane], rules) == seq![m],
        pane_match(pane, rules) is None ==> scanned(seq![pane], rules).len() == 0,
        scanned(Seq::empty(), rules).len() == 0,
{
    assert(seq![pane].drop_last() == Seq::<PaneView>::empty());
    assert(seq![pane].last() == pane);
    assert(scanned(Seq::<PaneView>::empty(), rules) == Seq::<MatchView>::empty());
    if let Some(m) = pane_match(pane, rules) {
        assert(Seq::<MatchView>::empty().push(m) == seq![m]);
    }
}

/// Lists of panes and of matches are viewed item by item.
pub proof fn lists_are_viewed_item_by_item(panes: Seq<Pane>, matches: Seq<PaneMatch>)
    ensures
        pane_views(panes).len() == panes.len(),
        forall|i: int| 0 <= i < panes.len() ==> #[trigger] pane_views(panes)[i] == panes[i]@,
        match_views(matches).len() == matches.len(),
        forall|i: int|
            0 <= i < matches.len() ==> #[trigger] match_views(matches)[i] == matches[i]@,
{
}

/// Classify one pane.
pub fn match_pane(pane: &Pane, rules: &[CompiledRule]) -> (r: Option<PaneMatch>)
    ensures
        pane_match(pane@, rule_views(rules@)) == match r {
            Some(m) => Some(m@),
            None => None,
        },
{
    match &pane.probe {
        PaneProbe::Captured(content) => match classify(content.as_str(), rules) {
            Some(rule) => Some(
                PaneMatch {
                    session_id: pane.session_id.clone(),
                    title: pane.title.clone(),
                    profile: pane.profile.clone(),
                    rule_name: rule.name.clone(),
                    kind: rule.kind.clone(),
                    command: copy_if_any(&rule.command),
                    cooldown: rule.cooldown,
                },
            ),
            None => None,
        },
        _ => None,
    }
}

/// Classify every session's pane tail.
pub fn scan_panes(panes: &[Pane], rules: &[CompiledRule]) -> (r: Vec<PaneMatch>)
    ensures
        match_views(r@) == scanned(pane_views(panes@), rule_views(rules@)),
{
    let ghost views = pane_views(panes@);
    let mut matches: Vec<PaneMatch> = Vec::new();
    let mut i: usize = 0;
    while i < panes.len()
        invariant
            i <= panes@.len(),
            views == pane_views(panes@),
            match_views(matches@) == scanned(views.take(i as int), rule_views(rules@)),
        decreases panes@.len() - i,
    {
        let ghost so_far = matches@;
        assert(views.take(i + 1).drop_last() == views.take(i as int));
        assert(views.take(i + 1).last() == panes@[i as int]@);
        match match_pane(&panes[i], rules) {
            Some(m) => {
                matches.push(m);
                assert(match_views(matches@) == match_views(so_far).push(m@));
            },
            None => {},
        }
        i = i + 1;
    }
    assert(views.take(views.len() as int) == views);
    matches
}

/// Each session is looked at by itself: the matches of two lists of panes
/// are those of the one followed by those of the other.
pub proof fn panes_are_scanned_apart(
    front: Seq<PaneView>,
    back: Seq<PaneView>,
    rules: Seq<RuleView>,
)
    ensures
        scanned(front + back, rules) == scanned(front, rules) + scanned(back, rules),
    decreases back.len(),
{
    if back.len() == 0 {
        assert(front + back == front);
        assert(scanned(front, rules) + scanned(back, rules) == scanned(front, rules));
    } else {
        let all = front + back;
        assert(all.drop_last() == front + back.drop_last());
        assert(all.last() == back.last());
        panes_are_scanned_apart(front, back.drop_last(), rules);
        assert(scanned(all, rules) == scanned(front, rules) + scanned(back, rules));
    }
}

/// A pane that was not captured is skipped, and the others are not affected.
pub proof fn uncaptured_pane_is_skipped(
    front: Seq<PaneView>,
    pane: PaneView,
    back: Seq<PaneView>,
    rules: Seq<RuleView>,
)
    requires
        pane.captured is None,
    ensures
        scanned(front + seq![pane] + back, rules) == scanned(front + back, rules),
{
    panes_are_scanned_apart(front + seq![pane], back, rules);
    panes_are_scanned_apart(front, back, rules);
    assert((front + seq![pane]).drop_last() == front);
    assert((front + seq![pane]).last() == pane);
}

/// Every match comes from a captured pane, by a rule of the set.
pub proof fn matches_come_from_rules(panes: Seq<PaneView>, rules: Seq<RuleView>, i: int)
    requires
        0 <= i < scanned(panes, rules).len(),
    ensures
        exists|p: int, k: int| #[trigger]
            match_by(panes[p], rules[k]) == scanned(panes, rules)[i] && 0 <= p < panes.len() && 0
                <= k < rules.len(),
    decreases panes.len(),
{
    let fewer = panes.drop_last();
    let before = scanned(fewer, rules);
    if i < before.len() {
        matches_come_from_rules(fewer, rules, i);
        let (p, k) = choose|p: int, k: int| #[trigger]
            match_by(fewer[p], rules[k]) == before[i] && 0 <= p < fewer.len() && 0 <= k
                < rules.len();
        assert(fewer[p] == panes[p]);
        assert(match_by(panes[p], rules[k]) == scanned(panes, rules)[i]);
    } else {
        let pane = panes.last();
        let seen = pane_observations(rules, pane.captured->0);
        decision_is_determined(seen);
        let winner = choose|winner: Option<int>| decided(seen, winner);
        assert(decided(seen, Some(winner->0)));
        let k = choose|k: int| decided(seen, Some(k));
        assert(match_by(panes[panes.len() - 1], rules[k]) == scanned(panes, rules)[i]);
    }
}

} // verus!
