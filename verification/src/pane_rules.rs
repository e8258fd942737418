//! Configurable pane-text rules: regex patterns that classify a captured
//! tmux pane tail into named events.
//!
//! Everything is fail-open: a rule with an invalid pattern is dropped when
//! the rules are compiled, and the rest keep working.

use crate::ansi::{strip_ansi, without_escapes};
use crate::config::{
    configs, copy_if_any, text_if_any, PaneRuleConfig, RuleConfigView, RuleScope,
};
use crate::normalize::{normalize_line, normalized};
use crate::regexes::{regex_compiles, regex_error, regex_finds, regex_pattern};
use crate::rule_laws::compiled_rule_is_its_config;
use crate::text::{join_lines, joined, pane_lines, texts, visible_lines};
use regex::Regex;
use std::time::Duration;
use vstd::prelude::*;

verus! {

/// The length of a duration in nanoseconds: the answer of
/// [`Duration::as_nanos`].
pub uninterp spec fn duration_nanos(d: Duration) -> nat;

/// [`Duration::from_secs`] makes the duration of that many whole seconds.
pub assume_specification[ Duration::from_secs ](secs: u64) -> (r: Duration)
    ensures
        duration_nanos(r) == secs * 1_000_000_000,
;

/// [`Duration::as_nanos`] gives the whole length in nanoseconds.
pub assume_specification[ Duration::as_nanos ](d: &Duration) -> (r: u128)
    ensures
        r == duration_nanos(*d),
;

/// A rule with its regexes compiled, ready to run against pane text.
#[derive(Debug)]
pub struct CompiledRule {
    pub name: String,
    pub kind: String,
    pub pattern: Regex,
    pub negative: Vec<Regex>,
    pub tail_lines: usize,
    pub scope: RuleScope,
    pub strip_decoration: bool,
    pub priority: u32,
    pub command: Option<String>,
    pub cooldown: Duration,
}

/// What a compiled rule does, as plain values.
pub struct RuleView {
    pub name: Seq<char>,
    pub kind: Seq<char>,
    pub pattern: Seq<char>,
    pub negative: Seq<Seq<char>>,
    pub tail_lines: nat,
    pub scope: RuleScope,
    pub strip_decoration: bool,
    pub priority: u32,
    pub command: Option<Seq<char>>,
    pub cooldown_nanos: nat,
}

/// The patterns of a list of compiled expressions.
pub open spec fn patterns(regexes: Seq<Regex>) -> Seq<Seq<char>> {
    Seq::new(regexes.len(), |i: int| regex_pattern(regexes[i]))
}

impl View for CompiledRule {
    type V = RuleView;

    open spec fn view(&self) -> RuleView {
        RuleView {
            name: self.name@,
            kind: self.kind@,
            pattern: regex_pattern(self.pattern),
            negative: patterns(self.negative@),
            tail_lines: self.tail_lines as nat,
            scope: self.scope,
            strip_decoration: self.strip_decoration,
            priority: self.priority,
            command: text_if_any(self.command),
            cooldown_nanos: duration_nanos(self.cooldown),
        }
    }
}

/// What a list of compiled rules does.
pub open spec fn rule_views(rules: Seq<CompiledRule>) -> Seq<RuleView> {
    Seq::new(rules.len(), |i: int| rules[i]@)
}

/// The compiled form of a rule that compiles. A window of no lines is
/// widened to one.
pub open spec fn compiled(rule: RuleConfigView) -> RuleView {
    RuleView {
        name: rule.name,
        kind: rule.kind,
        pattern: rule.pattern,
        negative: rule.negative,
        tail_lines: if rule.tail_lines == 0 {
            1
        } else {
            rule.tail_lines as nat
        },
        scope: rule.scope,
        strip_decoration: rule.strip_decoration,
        priority: rule.priority,
        command: rule.command,
        cooldown_nanos: rule.cooldown_secs as nat * 1_000_000_000,
    }
}

/// Whether all guards compile.
pub open spec fn guards_compile(rule: RuleConfigView) -> bool {
    forall|g: int| 0 <= g < rule.negative.len() ==> regex_compiles(#[trigger] rule.negative[g])
}

/// Whether the guard at `g` is the first that does not compile.
pub open spec fn is_first_bad_guard(rule: RuleConfigView, g: int) -> bool {
    &&& 0 <= g < rule.negative.len()
    &&& !regex_compiles(rule.negative[g])
    &&& forall|h: int| 0 <= h < g ==> regex_compiles(#[trigger] rule.negative[h])
}

/// The error of the first guard that does not compile.
pub open spec fn guard_error(rule: RuleConfigView) -> regex::Error {
    regex_error(rule.negative[choose|g: int| is_first_bad_guard(rule, g)])
}

/// Whether an enabled rule before the one at `i` bears its name, whatever
/// becomes of that rule.
pub open spec fn name_taken(rules: Seq<RuleConfigView>, i: int) -> bool {
    exists|j: int|
        0 <= j < i && (#[trigger] rules[j]).enabled && rules[j].name == rules[i].name
}

/// Why an enabled rule is dropped.
#[derive(Debug)]
pub enum DropReason {
    /// An earlier rule has the same name.
    DuplicateName,
    /// The pattern does not compile.
    InvalidPattern(regex::Error),
    /// The pattern compiles, but a negative guard does not: the error is that
    /// of the first such guard.
    InvalidGuard(regex::Error),
}

/// Why the rule at `i` is dropped, if it is enabled and dropped.
pub open spec fn drop_cause(rules: Seq<RuleConfigView>, i: int) -> Option<DropReason> {
    if !rules[i].enabled {
        None
    } else if name_taken(rules, i) {
        Some(DropReason::DuplicateName)
    } else if !regex_compiles(rules[i].pattern) {
        Some(DropReason::InvalidPattern(regex_error(rules[i].pattern)))
    } else if !guards_compile(rules[i]) {
        Some(DropReason::InvalidGuard(guard_error(rules[i])))
    } else {
        None
    }
}

/// Whether the rule at `i` is kept.
pub open spec fn survives(rules: Seq<RuleConfigView>, i: int) -> bool {
    &&& 0 <= i < rules.len()
    &&& rules[i].enabled
    &&& drop_cause(rules, i) is None
}

/// The dropped ones among the first `n` rules, in order.
pub open spec fn drops(rules: Seq<RuleConfigView>, n: nat) -> Seq<(usize, DropReason)>
    decreases n,
{
    if n == 0 {
        Seq::empty()
    } else {
        let before = drops(rules, (n - 1) as nat);
        match drop_cause(rules, n - 1) {
            Some(cause) => before.push(((n - 1) as usize, cause)),
            None => before,
        }
    }
}

/// The priorities of the kept rules, each at its rule's place.
pub open spec fn rule_slots(rules: Seq<RuleConfigView>) -> Seq<Option<u32>> {
    Seq::new(
        rules.len(),
        |i: int|
            if survives(rules, i) {
                Some(rules[i].priority)
            } else {
                None
            },
    )
}

/// Whether the rule at `i` is tried before the rule at `j`: by priority, and
/// among equals by place.
pub open spec fn before(slots: Seq<Option<u32>>, i: int, j: int) -> bool {
    let p = slots[i]->0;
    let q = slots[j]->0;
    p < q || (p == q && i < j)
}

/// Whether `order` lists the places of the kept rules, each once, in the
/// order in which they are tried.
pub open spec fn evaluation_order(slots: Seq<Option<u32>>, order: Seq<int>) -> bool {
    &&& forall|k: int|
        0 <= k < order.len() ==> 0 <= #[trigger] order[k] < slots.len() && slots[order[k]] is Some
    &&& forall|i: int|
        0 <= i < slots.len() && (#[trigger] slots[i]) is Some ==> order.contains(i)
    &&& forall|j: int, k: int|
        0 <= j < k < order.len() ==> before(slots, #[trigger] order[j], #[trigger] order[k])
}

/// What compiling a list of rules gives: the kept ones, in the order in
/// which they are tried.
pub open spec fn compiles_to(rules: Seq<RuleConfigView>, out: Seq<RuleView>) -> bool {
    exists|order: Seq<int>| #[trigger]
        evaluation_order(rule_slots(rules), order) && out == Seq::new(
            order.len(),
            |k: int| compiled(rules[order[k]]),
        )
}

impl CompiledRule {
    /// A rule with the expressions that its patterns were compiled to.
    pub fn with_regexes(rule: &PaneRuleConfig, pattern: Regex, negative: Vec<Regex>) -> (r: Self)
        ensures
            r@ == (RuleView {
                pattern: regex_pattern(pattern),
                negative: patterns(negative@),
                ..compiled(rule@)
            }),
    {
        CompiledRule {
            name: rule.name.clone(),
            kind: rule.kind.clone(),
            pattern,
            negative,
            tail_lines: if rule.tail_lines == 0 {
                1
            } else {
                rule.tail_lines
            },
            scope: rule.scope,
            strip_decoration: rule.strip_decoration,
            priority: rule.priority,
            command: copy_if_any(&rule.command),
            cooldown: Duration::from_secs(rule.cooldown_secs),
        }
    }
}

/// Compiles one rule.
pub fn compile_rule(rule: &PaneRuleConfig) -> (r: Result<CompiledRule, DropReason>)
    ensures
        match r {
            Ok(c) => regex_compiles(rule@.pattern) && guards_compile(rule@) && c@ == compiled(
                rule@,
            ),
            Err(DropReason::InvalidPattern(e)) => !regex_compiles(rule@.pattern) && e
                == regex_error(rule@.pattern),
            Err(DropReason::InvalidGuard(e)) => {
                &&& regex_compiles(rule@.pattern)
                &&& !guards_compile(rule@)
                &&& e == guard_error(rule@)
                &&& exists|g: int| #[trigger]
                    is_first_bad_guard(rule@, g) && e == regex_error(rule@.negative[g])
            },
            Err(DropReason::DuplicateName) => false,
        },
        r matches Ok(c) ==> {
            &&& c.name@ == rule.name@
            &&& c.kind@ == rule.kind@
            &&& regex_pattern(c.pattern) == rule.pattern@
            &&& c.negative@.len() == rule.negative@.len()
            &&& forall|g: int|
                0 <= g < rule.negative@.len() ==> regex_pattern(#[trigger] c.negative@[g])
                    == rule.negative@[g]@
            &&& c.tail_lines == (if rule.tail_lines == 0 {
                1
            } else {
                rule.tail_lines
            })
            &&& c.scope == rule.scope
            &&& c.strip_decoration == rule.strip_decoration
            &&& c.priority == rule.priority
            &&& c.command is Some <==> rule.command is Some
            &&& c.command is Some ==> c.command->0@ == rule.command->0@
            &&& duration_nanos(c.cooldown) == rule.cooldown_secs * 1_000_000_000
        },
{
    let pattern = match Regex::new(rule.pattern.as_str()) {
        Ok(p) => p,
        Err(e) => {
            return Err(DropReason::InvalidPattern(e));
        },
    };
    let mut negative: Vec<Regex> = Vec::new();
    let ghost guards = rule@.negative;
    let mut g: usize = 0;
    while g < rule.negative.len()
        invariant
            g <= rule.negative@.len(),
            negative@.len() == g,
            regex_compiles(rule@.pattern),
            forall|j: int| 0 <= j < g ==> regex_pattern(#[trigger] negative@[j]) == guards[j],
            forall|j: int| 0 <= j < g ==> regex_compiles(#[trigger] guards[j]),
            guards == rule@.negative,
        decreases rule.negative@.len() - g,
    {
        assert(guards[g as int] == rule.negative@[g as int]@);
        match Regex::new(rule.negative[g].as_str()) {
            Ok(guard) => {
                negative.push(guard);
            },
            Err(e) => {
                proof {
                    assert(is_first_bad_guard(rule@, g as int));
                    let first = choose|h: int| is_first_bad_guard(rule@, h);
                    assert(first == g) by {
                        assert(first < g ==> regex_compiles(guards[first]));
                        assert(g < first ==> regex_compiles(rule@.negative[g as int]));
                    }
                }
                return Err(DropReason::InvalidGuard(e));
            },
        }
        g = g + 1;
    }
    assert(patterns(negative@) == guards);
    let compiled_rule = CompiledRule::with_regexes(rule, pattern, negative);
    proof {
        compiled_rule_is_its_config(*rule, compiled_rule);
    }
    Ok(compiled_rule)
}

/// Decides [`name_taken`].
pub fn is_name_taken(rules: &[PaneRuleConfig], i: usize) -> (r: bool)
    requires
        i < rules@.len(),
    ensures
        r == name_taken(configs(rules@), i as int),
{
    let ghost views = configs(rules@);
    let mut j: usize = 0;
    while j < i
        invariant
            i < rules@.len(),
            j <= i,
            views == configs(rules@),
            forall|k: int|
                0 <= k < j ==> !((#[trigger] views[k]).enabled && views[k].name
                    == views[i as int].name),
        decreases i - j,
    {
        if rules[j].enabled && rules[j].name == rules[i].name {
            assert(views[j as int].enabled);
            return true;
        }
        j = j + 1;
    }
    false
}

/// The priorities of the rules that are there.
pub open spec fn attempt_slots(attempts: Seq<Option<CompiledRule>>) -> Seq<Option<u32>> {
    Seq::new(
        attempts.len(),
        |i: int|
            match attempts[i] {
                Some(rule) => Some(rule.priority),
                None => None,
            },
    )
}

/// Whether `out` holds the rules that are there, in the order in which they
/// are tried.
pub open spec fn arranged(attempts: Seq<Option<CompiledRule>>, out: Seq<CompiledRule>) -> bool {
    exists|order: Seq<int>| #[trigger]
        evaluation_order(attempt_slots(attempts), order) && arranged_by(attempts, out, order)
}

/// Whether `out` holds the rules that are there in the order given.
pub open spec fn arranged_by(
    attempts: Seq<Option<CompiledRule>>,
    out: Seq<CompiledRule>,
    order: Seq<int>,
) -> bool {
    &&& out.len() == order.len()
    &&& forall|k: int| 0 <= k < order.len() ==> attempts[order[k]] == Some(#[trigger] out[k])
}

proof fn lemma_insert_keeps_order(
    slots: Seq<Option<u32>>,
    order: Seq<int>,
    next: u32,
    at: int,
)
    requires
        evaluation_order(slots, order),
        0 <= at <= order.len(),
        forall|k: int| 0 <= k < at ==> slots[#[trigger] order[k]]->0 <= next,
        forall|k: int| at <= k < order.len() ==> slots[#[trigger] order[k]]->0 > next,
    ensures
        evaluation_order(slots.push(Some(next)), order.insert(at, slots.len() as int)),
{
    let n = slots.len() as int;
    let more = slots.push(Some(next));
    let longer = order.insert(at, n);
    assert forall|k: int| 0 <= k < longer.len() implies 0 <= #[trigger] longer[k] < more.len()
        && more[longer[k]] is Some by {
        if k < at {
            assert(longer[k] == order[k]);
        } else if k > at {
            assert(longer[k] == order[k - 1]);
        }
    }
    assert forall|i: int| 0 <= i < more.len() && (#[trigger] more[i]) is Some implies
        longer.contains(i) by {
        if i < n {
            assert(slots[i] is Some);
            let k = order.index_of(i);
            if k < at {
                assert(longer[k] == i);
            } else {
                assert(longer[k + 1] == i);
            }
        } else {
            assert(longer[at] == i);
        }
    }
    assert forall|j: int, k: int| 0 <= j < k < longer.len() implies before(
        more,
        #[trigger] longer[j],
        #[trigger] longer[k],
    ) by {
        let a = if j < at { j } else { j - 1 };
        let b = if k < at { k } else { k - 1 };
        if j != at {
            assert(longer[j] == order[a]);
        }
        if k != at {
            assert(longer[k] == order[b]);
        }
        if j != at && k != at {
            assert(before(slots, order[a], order[b]));
        }
    }
}

/// Puts the rules that are there in the order in which they are tried.
pub fn arrange(attempts: Vec<Option<CompiledRule>>) -> (r: Vec<CompiledRule>)
    ensures
        arranged(attempts@, r@),
{
    let mut out: Vec<CompiledRule> = Vec::new();
    let ghost all = attempts@;
    let ghost mut order = Seq::<int>::empty();
    let ghost mut slots = Seq::<Option<u32>>::empty();
    for attempt in it: attempts
        invariant
            it.seq() == all,
            slots == attempt_slots(all.take(it.index())),
            evaluation_order(slots, order),
            arranged_by(all, out@, order),
    {
        let ghost n = it.index();
        match attempt {
            Some(rule) => {
                let mut at: usize = out.len();
                while at > 0 && out[at - 1].priority > rule.priority
                    invariant
                        at <= out@.len(),
                        forall|k: int| at <= k < out@.len() ==> out@[k].priority > rule.priority,
                    decreases at,
                {
                    at = at - 1;
                }
                proof {
                    assert forall|k: int| 0 <= k < out@.len() implies slots[#[trigger] order[k]]
                        == Some(out@[k].priority) by {
                        assert(all[order[k]] == Some(out@[k]));
                    }
                    assert forall|k: int| 0 <= k < at implies slots[#[trigger] order[k]]->0
                        <= rule.priority by {
                        if k < at - 1 {
                            assert(before(slots, order[k], order[at - 1]));
                        }
                    }
                    lemma_insert_keeps_order(slots, order, rule.priority, at as int);
                    assert(slots.push(Some(rule.priority)) == attempt_slots(all.take(n + 1)));
                    slots = slots.push(Some(rule.priority));
                    order = order.insert(at as int, n);
                }
                out.insert(at, rule);
            },
            None => {
                proof {
                    let more = slots.push(None);
                    assert(more == attempt_slots(all.take(n + 1)));
                    assert forall|i: int|
                        0 <= i < more.len() && (#[trigger] more[i]) is Some implies order.contains(
                        i,
                    ) by {
                        assert(slots[i] is Some);
                    }
                    assert forall|j: int, k: int| 0 <= j < k < order.len() implies before(
                        more,
                        #[trigger] order[j],
                        #[trigger] order[k],
                    ) by {
                        assert(before(slots, order[j], order[k]));
                    }
                    slots = more;
                }
            },
        }
    }
    assert(all.take(all.len() as int) == all);
    out
}

/// A dropped rule: its place in the config, and why it was dropped.
#[derive(Debug)]
pub struct DroppedRule {
    pub index: usize,
    pub reason: DropReason,
}

/// The outcome of compiling a rule list.
#[derive(Debug)]
pub struct Compilation {
    /// The kept rules, in the order in which they are tried.
    pub rules: Vec<CompiledRule>,
    /// The enabled rules that were dropped, in config order.
    pub dropped: Vec<DroppedRule>,
}

/// The places of dropped rules, and why they were dropped.
pub open spec fn causes(dropped: Seq<DroppedRule>) -> Seq<(usize, DropReason)> {
    Seq::new(dropped.len(), |i: int| (dropped[i].index, dropped[i].reason))
}

/// Compile a rule list and tell what was dropped.
pub fn compile_with_report(rules: &[PaneRuleConfig]) -> (r: Compilation)
    ensures
        compiles_to(configs(rules@), rule_views(r.rules@)),
        causes(r.dropped@) == drops(configs(rules@), rules@.len()),
{
    let ghost views = configs(rules@);
    let mut attempts: Vec<Option<CompiledRule>> = Vec::new();
    let mut dropped: Vec<DroppedRule> = Vec::new();
    let mut i: usize = 0;
    while i < rules.len()
        invariant
            i <= rules@.len(),
            views == configs(rules@),
            attempts@.len() == i,
            forall|j: int|
                0 <= j < i ==> match #[trigger] attempts@[j] {
                    Some(rule) => survives(views, j) && rule@ == compiled(views[j]),
                    None => !survives(views, j),
                },
            causes(dropped@) == drops(views, i as nat),
        decreases rules@.len() - i,
    {
        let ghost so_far = dropped@;
        assert(views[i as int] == rules@[i as int]@);
        if !rules[i].enabled {
            attempts.push(None);
        } else if is_name_taken(rules, i) {
            dropped.push(DroppedRule { index: i, reason: DropReason::DuplicateName });
            attempts.push(None);
        } else {
            match compile_rule(&rules[i]) {
                Ok(rule) => {
                    attempts.push(Some(rule));
                },
                Err(reason) => {
                    dropped.push(DroppedRule { index: i, reason });
                    attempts.push(None);
                },
            }
        }
        proof {
            match drop_cause(views, i as int) {
                Some(cause) => {
                    assert(causes(dropped@) == causes(so_far).push((i, cause)));
                },
                None => {},
            }
        }
        i = i + 1;
    }
    let ghost tried = attempts@;
    let kept = arrange(attempts);
    proof {
        let order = choose|order: Seq<int>| #[trigger]
            evaluation_order(attempt_slots(tried), order) && arranged_by(tried, kept@, order);
        assert(attempt_slots(tried) == rule_slots(views));
        assert forall|k: int| 0 <= k < order.len() implies #[trigger] kept@[k]@ == compiled(
            views[order[k]],
        ) by {
            assert(tried[order[k]] == Some(kept@[k]));
        }
        assert(rule_views(kept@) == Seq::new(order.len(), |k: int| compiled(views[order[k]])));
    }
    Compilation { rules: kept, dropped }
}

/// Compile a rule list, dropping disabled entries and any rule whose pattern
/// or guards fail to parse, plus later duplicates of a `name` already seen:
/// cooldowns are kept by rule name, so duplicates would share (and corrupt)
/// each other's cooldown state. The result is sorted by `priority` (stable,
/// so config order breaks ties).
pub fn compile(rules: &[PaneRuleConfig]) -> (r: Vec<CompiledRule>)
    ensures
        compiles_to(configs(rules@), rule_views(r@)),
{
    compile_with_report(rules).rules
}

/// The widest window of a rule set, 0 for an empty one.
pub open spec fn widest_window(rules: Seq<RuleView>) -> nat
    decreases rules.len(),
{
    if rules.len() == 0 {
        0
    } else {
        let before = widest_window(rules.drop_last());
        let last = rules.last().tail_lines;
        if last > before {
            last
        } else {
            before
        }
    }
}

/// Largest tail window across a rule set, used to size the pane capture.
pub fn max_tail_lines(rules: &[CompiledRule]) -> (r: usize)
    ensures
        r == widest_window(rule_views(rules@)),
{
    let ghost views = rule_views(rules@);
    let mut widest: usize = 0;
    let mut i: usize = 0;
    while i < rules.len()
        invariant
            i <= rules@.len(),
            views == rule_views(rules@),
            widest == widest_window(views.take(i as int)),
        decreases rules@.len() - i,
    {
        assert(views.take(i + 1).drop_last() == views.take(i as int));
        assert(views.take(i + 1).last() == rules@[i as int]@);
        if rules[i].tail_lines > widest {
            widest = rules[i].tail_lines;
        }
        i = i + 1;
    }
    assert(views.take(views.len() as int) == views);
    widest
}

/// The last `n` lines, or all if there are fewer.
pub open spec fn window(lines: Seq<Seq<char>>, n: nat) -> Seq<Seq<char>> {
    if n >= lines.len() {
        lines
    } else {
        lines.skip(lines.len() - n)
    }
}

/// What was found of one text: a line, or a whole window.
#[derive(Debug, Clone, Copy)]
pub struct TextHit {
    /// A negative guard matches the raw text.
    pub guarded: bool,
    /// The pattern matches the text that it is tried against.
    pub matched: bool,
}

/// Whether any guard of a rule matches a text.
pub open spec fn guarded(rule: RuleView, text: Seq<char>) -> bool {
    exists|g: int| 0 <= g < rule.negative.len() && regex_finds(#[trigger] rule.negative[g], text)
}

/// What a rule's pattern is tried against, of a line.
pub open spec fn candidate(rule: RuleView, line: Seq<char>) -> Seq<char> {
    if rule.strip_decoration {
        normalized(line)
    } else {
        line
    }
}

/// What a rule finds of a text: guards see it as it stands, the pattern sees
/// `tried`.
pub open spec fn found(rule: RuleView, raw: Seq<char>, tried: Seq<char>) -> TextHit {
    TextHit { guarded: guarded(rule, raw), matched: regex_finds(rule.pattern, tried) }
}

/// What a rule finds in its window of the lines.
pub open spec fn observed(rule: RuleView, lines: Seq<Seq<char>>) -> Seq<TextHit> {
    let tail = window(lines, rule.tail_lines);
    match rule.scope {
        RuleScope::Window => seq![found(rule, joined(tail), joined(tail))],
        RuleScope::Line => Seq::new(
            tail.len(),
            |i: int| found(rule, tail[i], candidate(rule, tail[i])),
        ),
    }
}

/// What each rule finds.
pub open spec fn observations(rules: Seq<RuleView>, lines: Seq<Seq<char>>) -> Seq<
    Seq<TextHit>,
> {
    Seq::new(rules.len(), |i: int| observed(rules[i], lines))
}

/// Whether a rule fires: some text matches and is not guarded.
pub open spec fn any_unguarded(hits: Seq<TextHit>) -> bool {
    exists|i: int| 0 <= i < hits.len() && (#[trigger] hits[i]).matched && !hits[i].guarded
}

/// Whether `winner` is the first rule that fires, or none does.
pub open spec fn decided(seen: Seq<Seq<TextHit>>, winner: Option<int>) -> bool {
    match winner {
        Some(k) => {
            &&& 0 <= k < seen.len()
            &&& any_unguarded(seen[k])
            &&& forall|j: int| 0 <= j < k ==> !any_unguarded(#[trigger] seen[j])
        },
        None => forall|j: int| 0 <= j < seen.len() ==> !any_unguarded(#[trigger] seen[j]),
    }
}

/// Decides [`any_unguarded`].
pub fn is_any_unguarded(hits: &Vec<TextHit>) -> (r: bool)
    ensures
        r == any_unguarded(hits@),
{
    let mut i: usize = 0;
    while i < hits.len()
        invariant
            i <= hits@.len(),
            forall|j: int| 0 <= j < i ==> !((#[trigger] hits@[j]).matched && !hits@[j].guarded),
        decreases hits@.len() - i,
    {
        if hits[i].matched && !hits[i].guarded {
            return true;
        }
        i = i + 1;
    }
    false
}

/// What was found, rule by rule.
pub open spec fn hit_lists(seen: Seq<Vec<TextHit>>) -> Seq<Seq<TextHit>> {
    Seq::new(seen.len(), |i: int| seen[i]@)
}

/// Picks the first rule that fires.
pub fn decide(seen: &Vec<Vec<TextHit>>) -> (r: Option<usize>)
    ensures
        decided(
            hit_lists(seen@),
            match r {
                Some(k) => Some(k as int),
                None => None,
            },
        ),
{
    let ghost lists = hit_lists(seen@);
    let mut k: usize = 0;
    while k < seen.len()
        invariant
            k <= seen@.len(),
            lists == hit_lists(seen@),
            forall|j: int| 0 <= j < k ==> !any_unguarded(#[trigger] lists[j]),
        decreases seen@.len() - k,
    {
        assert(lists[k as int] == seen@[k as int]@);
        if is_any_unguarded(&seen[k]) {
            return Some(k);
        }
        k = k + 1;
    }
    None
}

impl CompiledRule {
    /// Decides [`guarded`].
    fn is_guarded(&self, text: &str) -> (r: bool)
        ensures
            r == guarded(self@, text@),
    {
        let ghost guards = self@.negative;
        let mut g: usize = 0;
        while g < self.negative.len()
            invariant
                g <= self.negative@.len(),
                guards == self@.negative,
                forall|j: int| 0 <= j < g ==> !regex_finds(#[trigger] guards[j], text@),
            decreases self.negative@.len() - g,
        {
            assert(guards[g as int] == regex_pattern(self.negative@[g as int]));
            if self.negative[g].is_match(text) {
                return true;
            }
            g = g + 1;
        }
        false
    }

    /// Runs the rule's guards and pattern over its window of the lines.
    pub fn observe(&self, lines: &Vec<String>) -> (r: Vec<TextHit>)
        ensures
            r@ == observed(self@, texts(lines@)),
    {
        let len: usize = lines.len();
        let first: usize = if self.tail_lines >= len {
            0
        } else {
            len - self.tail_lines
        };
        let ghost all = texts(lines@);
        let ghost tail = window(all, self@.tail_lines);
        assert(tail == all.skip(first as int));
        let mut hits: Vec<TextHit> = Vec::new();
        match self.scope {
            RuleScope::Window => {
                let text = join_lines(lines, first);
                let guarded = self.is_guarded(text.as_str());
                let matched = self.pattern.is_match(text.as_str());
                hits.push(TextHit { guarded, matched });
            },
            RuleScope::Line => {
                let mut i: usize = first;
                while i < len
                    invariant
                        len == lines@.len(),
                        first <= i <= len,
                        all == texts(lines@),
                        tail == all.skip(first as int),
                        hits@.len() == i - first,
                        forall|j: int|
                            0 <= j < i - first ==> #[trigger] hits@[j] == found(
                                self@,
                                tail[j],
                                candidate(self@, tail[j]),
                            ),
                    decreases len - i,
                {
                    let line = lines[i].as_str();
                    assert(tail[i - first] == line@);
                    let guarded = self.is_guarded(line);
                    let matched = if self.strip_decoration {
                        self.pattern.is_match(normalize_line(line))
                    } else {
                        self.pattern.is_match(line)
                    };
                    hits.push(TextHit { guarded, matched });
                    i = i + 1;
                }
            },
        }
        assert(hits@ == observed(self@, all));
        hits
    }
}

/// What each rule finds in a raw pane capture.
pub open spec fn pane_observations(rules: Seq<RuleView>, raw: Seq<char>) -> Seq<Seq<TextHit>> {
    observations(rules, visible_lines(without_escapes(raw)))
}

/// The rule that a raw pane capture is classified by, if any.
pub open spec fn classified(rules: Seq<RuleView>, raw: Seq<char>) -> Option<RuleView> {
    let seen = pane_observations(rules, raw);
    if decided(seen, None) {
        None
    } else {
        Some(rules[choose|k: int| decided(seen, Some(k))])
    }
}

/// Run the compiled rules against a raw `capture-pane` tail. Returns the
/// first matching rule in priority order, or None for a healthy pane.
pub fn classify<'a>(raw: &str, rules: &'a [CompiledRule]) -> (r: Option<&'a CompiledRule>)
    ensures
        match r {
            Some(rule) => exists|k: int| #[trigger]
                decided(pane_observations(rule_views(rules@), raw@), Some(k)) && *rule
                    == rules@[k],
            None => decided(pane_observations(rule_views(rules@), raw@), None),
        },
        classified(rule_views(rules@), raw@) == match r {
            Some(rule) => Some(rule@),
            None => None,
        },
{
    let stripped = strip_ansi(raw);
    let lines = pane_lines(stripped.as_str());
    let mut seen: Vec<Vec<TextHit>> = Vec::new();
    let mut i: usize = 0;
    while i < rules.len()
        invariant
            i <= rules@.len(),
            seen@.len() == i,
            forall|j: int|
                0 <= j < i ==> (#[trigger] seen@[j])@ == observed(rules@[j]@, texts(lines@)),
        decreases rules@.len() - i,
    {
        seen.push(rules[i].observe(&lines));
        i = i + 1;
    }
    assert(hit_lists(seen@) == observations(rule_views(rules@), texts(lines@)));
    match decide(&seen) {
        Some(k) => {
            proof {
                let found = pane_observations(rule_views(rules@), raw@);
                let first = choose|j: int| decided(found, Some(j));
                assert(decided(found, Some(k as int)));
                assert(first == k) by {
                    assert(first < k ==> !any_unguarded(found[first]));
                    assert(k < first ==> !any_unguarded(found[k as int]));
                }
            }
            Some(&rules[k])
        },
        None => None,
    }
}

} // verus!
