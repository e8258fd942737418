//! What holds of rule sets as a whole.

use crate::ansi::{
    complete_text_is_stripped_apart, escape_vanishes, is_complete, is_escape, without_escapes,
};
use crate::config::{configs, PaneRuleConfig, RuleConfigView, RuleScope};
use crate::normalize::{decoration_is_ignored, normalized};
use crate::pane_rules::{
    any_unguarded, before, candidate, causes, classified, compiled, compiles_to, decided,
    drop_cause, drops, duration_nanos, evaluation_order, found, guard_error, guarded,
    guards_compile, is_first_bad_guard, name_taken, observations, observed, pane_observations,
    patterns, rule_slots, rule_views, survives, widest_window, window, CompiledRule, DropReason,
    DroppedRule, RuleView, TextHit,
};
use crate::regexes::{regex_compiles, regex_error, regex_finds, regex_pattern};
use crate::text::{alphanumeric, joined, lines_are_cut_apart, texts, visible_lines};
use vstd::prelude::*;

verus! {

/// There is only one order in which to try a set of rules.
pub proof fn evaluation_order_is_unique(
    slots: Seq<Option<u32>>,
    a: Seq<int>,
    b: Seq<int>,
)
    requires
        evaluation_order(slots, a),
        evaluation_order(slots, b),
    ensures
        a == b,
{
    assert forall|i: int| a.contains(i) implies b.contains(i) by {
        let k = a.index_of(i);
        assert(a[k] == i && slots[a[k]] is Some);
    }
    assert forall|i: int| b.contains(i) implies a.contains(i) by {
        let k = b.index_of(i);
        assert(b[k] == i && slots[b[k]] is Some);
    }
    lemma_sorted_lists_agree(slots, a, b);
}

spec fn strictly_sorted(slots: Seq<Option<u32>>, a: Seq<int>) -> bool {
    forall|j: int, k: int|
        0 <= j < k < a.len() ==> before(slots, #[trigger] a[j], #[trigger] a[k])
}

proof fn lemma_sorted_lists_agree(slots: Seq<Option<u32>>, a: Seq<int>, b: Seq<int>)
    requires
        strictly_sorted(slots, a),
        strictly_sorted(slots, b),
        forall|i: int| a.contains(i) <==> b.contains(i),
    ensures
        a == b,
    decreases a.len(),
{
    if a.len() == 0 {
        if b.len() > 0 {
            assert(b.contains(b[0]));
        }
    } else {
        let x = a.last();
        assert(a[a.len() - 1] == x);
        assert(b.contains(x));
        let y = b.last();
        assert(b[b.len() - 1] == y);
        assert(a.contains(y));
        let i = a.index_of(y);
        let j = b.index_of(x);
        assert(i < a.len() - 1 ==> before(slots, a[i], a[a.len() - 1]));
        assert(j < b.len() - 1 ==> before(slots, b[j], b[b.len() - 1]));
        assert(x == y);
        let c = a.drop_last();
        let d = b.drop_last();
        assert forall|m: int| c.contains(m) implies d.contains(m) by {
            let k = c.index_of(m);
            assert(a[k] == m);
            assert(before(slots, a[k], a[a.len() - 1]));
            assert(b.contains(m));
            let l = b.index_of(m);
            assert(d[l] == m);
        }
        assert forall|m: int| d.contains(m) implies c.contains(m) by {
            let k = d.index_of(m);
            assert(b[k] == m);
            assert(before(slots, b[k], b[b.len() - 1]));
            assert(a.contains(m));
            let l = a.index_of(m);
            assert(c[l] == m);
        }
        lemma_sorted_lists_agree(slots, c, d);
        assert(a == c.push(x));
        assert(b == d.push(y));
    }
}

/// A rule list compiles to one result only.
pub proof fn compiling_is_determined(
    rules: Seq<RuleConfigView>,
    a: Seq<RuleView>,
    b: Seq<RuleView>,
)
    requires
        compiles_to(rules, a),
        compiles_to(rules, b),
    ensures
        a == b,
{
    let p = lemma_order_of(rules, a);
    let q = lemma_order_of(rules, b);
    evaluation_order_is_unique(rule_slots(rules), p, q);
}

proof fn lemma_order_of(rules: Seq<RuleConfigView>, out: Seq<RuleView>) -> (order: Seq<int>)
    requires
        compiles_to(rules, out),
    ensures
        evaluation_order(rule_slots(rules), order),
        out == Seq::new(order.len(), |k: int| compiled(rules[order[k]])),
        forall|k: int| 0 <= k < order.len() ==> survives(rules, #[trigger] order[k]),
{
    let order = choose|order: Seq<int>| #[trigger]
        evaluation_order(rule_slots(rules), order) && out == Seq::new(
            order.len(),
            |k: int| compiled(rules[order[k]]),
        );
    assert forall|k: int| 0 <= k < order.len() implies survives(rules, #[trigger] order[k]) by {
        assert(rule_slots(rules)[order[k]] is Some);
    }
    order
}

/// Whether a compiled rule is the surviving one at `i`.
pub open spec fn kept_from(rules: Seq<RuleConfigView>, rule: RuleView, i: int) -> bool {
    survives(rules, i) && rule == compiled(rules[i])
}

/// Whether a compiled rule is one of the surviving ones.
pub open spec fn kept(rules: Seq<RuleConfigView>, rule: RuleView) -> bool {
    exists|i: int| kept_from(rules, rule, i)
}

/// What is kept is what survives, compiled: nothing else, and none of it
/// left out.
pub proof fn survivors_are_kept(rules: Seq<RuleConfigView>, out: Seq<RuleView>)
    requires
        compiles_to(rules, out),
    ensures
        forall|i: int| #[trigger] survives(rules, i) ==> out.contains(compiled(rules[i])),
        forall|k: int| 0 <= k < out.len() ==> kept(rules, #[trigger] out[k]),
{
    let order = lemma_order_of(rules, out);
    assert forall|i: int| #[trigger] survives(rules, i) implies out.contains(
        compiled(rules[i]),
    ) by {
        assert(rule_slots(rules)[i] is Some);
        let k = order.index_of(i);
        assert(out[k] == compiled(rules[i]));
    }
    assert forall|k: int| 0 <= k < out.len() implies kept(rules, #[trigger] out[k]) by {
        assert(kept_from(rules, out[k], order[k]));
    }
}

/// Where the guards of a rule do not all compile, one of them is the first
/// that does not, and its error is the one that is reported.
pub proof fn first_bad_guard_is_reported(rule: RuleConfigView)
    requires
        !guards_compile(rule),
    ensures
        exists|g: int| is_first_bad_guard(rule, g),
        forall|g: int| #[trigger]
            is_first_bad_guard(rule, g) ==> guard_error(rule) == regex_error(rule.negative[g]),
{
    lemma_first_bad_guard_exists(rule, 0);
    assert forall|g: int| #[trigger] is_first_bad_guard(rule, g) implies guard_error(rule)
        == regex_error(rule.negative[g]) by {
        let first = choose|h: int| is_first_bad_guard(rule, h);
        assert(first < g ==> regex_compiles(rule.negative[first]));
        assert(g < first ==> regex_compiles(rule.negative[g]));
    }
}

proof fn lemma_first_bad_guard_exists(rule: RuleConfigView, from: int)
    requires
        !guards_compile(rule),
        0 <= from <= rule.negative.len(),
        forall|h: int| 0 <= h < from ==> regex_compiles(#[trigger] rule.negative[h]),
    ensures
        exists|g: int| is_first_bad_guard(rule, g),
    decreases rule.negative.len() - from,
{
    if from < rule.negative.len() {
        if regex_compiles(rule.negative[from]) {
            lemma_first_bad_guard_exists(rule, from + 1);
        } else {
            assert(is_first_bad_guard(rule, from));
        }
    }
}

/// Whether nothing is kept of a rule list.
pub open spec fn no_rule_survives(rules: Seq<RuleConfigView>) -> bool {
    forall|i: int| !#[trigger] survives(rules, i)
}

/// Compiling leaves nothing exactly when no rule survives.
pub proof fn survivors_are_counted(rules: Seq<RuleConfigView>, out: Seq<RuleView>)
    requires
        compiles_to(rules, out),
    ensures
        out.len() == 0 <==> no_rule_survives(rules),
{
    let order = lemma_order_of(rules, out);
    if out.len() > 0 {
        assert(survives(rules, order[0]));
    }
    assert forall|i: int| #[trigger] survives(rules, i) implies out.len() > 0 by {
        assert(rule_slots(rules)[i] is Some);
        assert(order.contains(i));
    }
}

/// No two kept rules have the same name.
pub proof fn kept_names_differ(rules: Seq<RuleConfigView>, out: Seq<RuleView>)
    requires
        compiles_to(rules, out),
    ensures
        forall|j: int, k: int|
            0 <= j < k < out.len() ==> (#[trigger] out[j]).name != (#[trigger] out[k]).name,
{
    let order = lemma_order_of(rules, out);
    assert forall|j: int, k: int| 0 <= j < k < out.len() implies (#[trigger] out[j]).name != (
    #[trigger] out[k]).name by {
        let a = order[j];
        let b = order[k];
        assert(survives(rules, a));
        assert(survives(rules, b));
        assert(before(rule_slots(rules), order[j], order[k]));
        assert(a != b);
        assert(out[j] == compiled(rules[a]));
        assert(out[k] == compiled(rules[b]));
        if a < b {
            assert(rules[a].enabled);
            assert(rules[a].name != rules[b].name);
        } else {
            assert(rules[b].enabled);
            assert(rules[a].name != rules[b].name);
        }
    }
}

/// The kept rules stand in order of priority.
pub proof fn kept_rules_are_sorted(rules: Seq<RuleConfigView>, out: Seq<RuleView>)
    requires
        compiles_to(rules, out),
    ensures
        forall|j: int, k: int|
            0 <= j < k < out.len() ==> (#[trigger] out[j]).priority <= (
            #[trigger] out[k]).priority,
{
    let order = lemma_order_of(rules, out);
    assert forall|j: int, k: int| 0 <= j < k < out.len() implies (#[trigger] out[j]).priority <= (
    #[trigger] out[k]).priority by {
        assert(before(rule_slots(rules), order[j], order[k]));
        assert(survives(rules, order[j]));
        assert(survives(rules, order[k]));
    }
}

/// Every kept rule looks at one line at least.
pub proof fn kept_windows_are_not_empty(rules: Seq<RuleConfigView>, out: Seq<RuleView>)
    requires
        compiles_to(rules, out),
    ensures
        forall|k: int| 0 <= k < out.len() ==> (#[trigger] out[k]).tail_lines >= 1,
{
    let order = lemma_order_of(rules, out);
    assert forall|k: int| 0 <= k < out.len() implies (#[trigger] out[k]).tail_lines >= 1 by {
        assert(out[k] == compiled(rules[order[k]]));
    }
}

/// A dropped rule does no harm: the list without it compiles to the same
/// rules. The one exception is a rule that does not compile but keeps its
/// name taken, so that a later rule of that name, which would be kept
/// without it, is dropped too.
pub proof fn dropped_rule_is_inert(rules: Seq<RuleConfigView>, i: int, out: Seq<RuleView>)
    requires
        compiles_to(rules, out),
        0 <= i < rules.len(),
        !survives(rules, i),
        rules[i].enabled && !name_taken(rules, i) ==> forall|m: int| #[trigger]
            survives(rules.remove(i), m) ==> rules.remove(i)[m].name != rules[i].name,
    ensures
        compiles_to(rules.remove(i), out),
{
    let fewer = rules.remove(i);
    let order = lemma_order_of(rules, out);
    let slots = rule_slots(rules);
    let new_slots = rule_slots(fewer);
    let shift = |j: int|
        if j < i {
            j
        } else {
            j - 1
        };
    assert forall|j: int| 0 <= j < rules.len() && j != i implies #[trigger] survives(rules, j)
        == survives(fewer, shift(j)) by {
        lemma_survival_without(rules, i, j);
    }
    let moved = Seq::new(order.len(), |k: int| shift(order[k]));
    assert forall|k: int| 0 <= k < moved.len() implies 0 <= #[trigger] moved[k] < new_slots.len()
        && new_slots[moved[k]] == slots[order[k]] && new_slots[moved[k]] is Some && fewer[moved[k]]
        == rules[order[k]] by {
        assert(survives(rules, order[k]));
    }
    assert forall|m: int| 0 <= m < new_slots.len() && (#[trigger] new_slots[m]) is Some implies
        moved.contains(m) by {
        let j = if m < i {
            m
        } else {
            m + 1
        };
        assert(shift(j) == m);
        assert(survives(fewer, shift(j)));
        assert(survives(rules, j));
        assert(slots[j] is Some);
        let k = order.index_of(j);
        assert(moved[k] == m);
    }
    assert forall|j: int, k: int| 0 <= j < k < moved.len() implies before(
        new_slots,
        #[trigger] moved[j],
        #[trigger] moved[k],
    ) by {
        assert(before(slots, order[j], order[k]));
        assert(survives(rules, order[j]));
        assert(survives(rules, order[k]));
    }
    assert(evaluation_order(new_slots, moved));
    assert(out == Seq::new(moved.len(), |k: int| compiled(fewer[moved[k]])));
}

proof fn lemma_survival_without(rules: Seq<RuleConfigView>, i: int, j: int)
    requires
        0 <= i < rules.len(),
        0 <= j < rules.len(),
        j != i,
        rules[i].enabled && !name_taken(rules, i) ==> forall|m: int| #[trigger]
            survives(rules.remove(i), m) ==> rules.remove(i)[m].name != rules[i].name,
    ensures
        survives(rules, j) == survives(
            rules.remove(i),
            if j < i {
                j
            } else {
                j - 1
            },
        ),
{
    let fewer = rules.remove(i);
    let n = if j < i {
        j
    } else {
        j - 1
    };
    assert(fewer[n] == rules[j]);
    if name_taken(rules, j) && survives(fewer, n) {
        let m = choose|m: int|
            0 <= m < j && (#[trigger] rules[m]).enabled && rules[m].name == rules[j].name;
        let w = if m != i {
            m
        } else {
            assert(name_taken(rules, i));
            choose|w: int|
                0 <= w < i && (#[trigger] rules[w]).enabled && rules[w].name == rules[i].name
        };
        assert(w != i && w < j && rules[w].enabled && rules[w].name == rules[j].name);
        let v = if w < i {
            w
        } else {
            w - 1
        };
        assert(fewer[v] == rules[w]);
        assert(name_taken(fewer, n));
    }
    if name_taken(fewer, n) {
        let v = choose|v: int|
            0 <= v < n && (#[trigger] fewer[v]).enabled && fewer[v].name == fewer[n].name;
        let w = if v < i {
            v
        } else {
            v + 1
        };
        assert(fewer[v] == rules[w]);
        assert(name_taken(rules, j));
    }
}

/// A set of rules has one winner at most, and has one as soon as any rule
/// fires.
pub proof fn decision_is_determined(seen: Seq<Seq<TextHit>>)
    ensures
        exists|winner: Option<int>| decided(seen, winner),
        forall|a: Option<int>, b: Option<int>| #[trigger]
            decided(seen, a) && #[trigger] decided(seen, b) ==> a == b,
        forall|k: int|
            0 <= k < seen.len() && any_unguarded(#[trigger] seen[k]) ==> !decided(seen, None),
{
    lemma_decision_exists(seen, 0);
    assert forall|a: Option<int>, b: Option<int>| #[trigger]
        decided(seen, a) && #[trigger] decided(seen, b) implies a == b by {
        if a is Some && b is Some {
            assert(a->0 < b->0 ==> !any_unguarded(seen[a->0]));
            assert(b->0 < a->0 ==> !any_unguarded(seen[b->0]));
        }
        if a is Some && b is None {
            assert(!any_unguarded(seen[a->0]));
        }
        if a is None && b is Some {
            assert(!any_unguarded(seen[b->0]));
        }
    }
}

proof fn lemma_decision_exists(seen: Seq<Seq<TextHit>>, from: int)
    requires
        0 <= from <= seen.len(),
        forall|j: int| 0 <= j < from ==> !any_unguarded(#[trigger] seen[j]),
    ensures
        exists|winner: Option<int>| decided(seen, winner),
    decreases seen.len() - from,
{
    if from == seen.len() {
        assert(decided(seen, None));
    } else if any_unguarded(seen[from]) {
        assert(decided(seen, Some(from)));
    } else {
        lemma_decision_exists(seen, from + 1);
    }
}

/// When several rules fire, the pane is classified by the one with the
/// lowest priority number, and among equals by the one written first.
pub proof fn lowest_priority_wins(
    rules: Seq<RuleConfigView>,
    out: Seq<RuleView>,
    lines: Seq<Seq<char>>,
    winner: Option<int>,
    i: int,
)
    requires
        compiles_to(rules, out),
        decided(observations(out, lines), winner),
        survives(rules, i),
        any_unguarded(observed(compiled(rules[i]), lines)),
    ensures
        winner matches Some(k) && exists|w: int| #[trigger]
            kept_from(rules, out[k], w) && (rules[w].priority < rules[i].priority || (
            rules[w].priority == rules[i].priority && w <= i)),
{
    let order = lemma_order_of(rules, out);
    assert(rule_slots(rules)[i] is Some);
    let at = order.index_of(i);
    assert(observations(out, lines)[at] == observed(compiled(rules[i]), lines));
    let k = winner->0;
    assert(k <= at);
    if k < at {
        assert(before(rule_slots(rules), order[k], order[at]));
    }
    assert(kept_from(rules, out[k], order[k]));
}

/// A pane that no surviving rule fires on is healthy.
pub proof fn silent_rules_leave_a_healthy_pane(
    rules: Seq<RuleConfigView>,
    out: Seq<RuleView>,
    lines: Seq<Seq<char>>,
    winner: Option<int>,
)
    requires
        compiles_to(rules, out),
        decided(observations(out, lines), winner),
        forall|i: int| #[trigger]
            survives(rules, i) ==> !any_unguarded(observed(compiled(rules[i]), lines)),
    ensures
        winner is None,
{
    let order = lemma_order_of(rules, out);
    if winner is Some {
        let k = winner->0;
        assert(survives(rules, order[k]));
        assert(observations(out, lines)[k] == observed(compiled(rules[order[k]]), lines));
    }
}

/// The widest window is as wide as any.
pub proof fn widest_window_covers_all(rules: Seq<RuleView>, k: int)
    requires
        0 <= k < rules.len(),
    ensures
        rules[k].tail_lines <= widest_window(rules),
    decreases rules.len(),
{
    if k < rules.len() - 1 {
        assert(rules.drop_last()[k] == rules[k]);
        widest_window_covers_all(rules.drop_last(), k);
    }
}

/// Only the tail of a pane matters: two captures that agree in as many
/// visible lines from the end as the widest window has are classified alike.
/// Stale scrollback above that never fires a rule.
pub proof fn only_the_tail_matters(rules: Seq<RuleView>, a: Seq<char>, b: Seq<char>)
    requires
        window(visible_lines(without_escapes(a)), widest_window(rules)) == window(
            visible_lines(without_escapes(b)),
            widest_window(rules),
        ),
    ensures
        pane_observations(rules, a) == pane_observations(rules, b),
        classified(rules, a) == classified(rules, b),
{
    let widest = widest_window(rules);
    let p = visible_lines(without_escapes(a));
    let q = visible_lines(without_escapes(b));
    assert forall|k: int| 0 <= k < rules.len() implies #[trigger] observed(rules[k], p)
        == observed(rules[k], q) by {
        widest_window_covers_all(rules, k);
        let n = rules[k].tail_lines;
        assert(window(p, n) == window(window(p, widest), n));
        assert(window(q, n) == window(window(q, widest), n));
        assert(observed(rules[k], p) == observed(rules[k], q));
    }
    assert(pane_observations(rules, a) == pane_observations(rules, b));
}

/// Text above a line break is scrollback: with enough visible lines below,
/// what any rule finds does not depend on it.
pub proof fn scrollback_is_ignored(rules: Seq<RuleView>, older: Seq<char>, recent: Seq<char>)
    requires
        widest_window(rules) <= visible_lines(recent).len(),
    ensures
        observations(rules, visible_lines(older + seq!['\n'] + recent)) == observations(
            rules,
            visible_lines(recent),
        ),
{
    lines_are_cut_apart(older, recent);
    let few = visible_lines(recent);
    let all = visible_lines(older) + few;
    assert forall|k: int| 0 <= k < rules.len() implies #[trigger] observed(rules[k], all)
        == observed(rules[k], few) by {
        widest_window_covers_all(rules, k);
        assert(window(all, rules[k].tail_lines) == window(few, rules[k].tail_lines));
        assert(observed(rules[k], all) == observed(rules[k], few));
    }
    assert(observations(rules, all) == observations(rules, few));
}

/// Colour and other terminal control make no difference: a pane is
/// classified as if an escape sequence in it were not there. (After a stray
/// escape character, taking a sequence out may let the next characters
/// complete the stray one.)
pub proof fn escapes_are_ignored(
    rules: Seq<RuleView>,
    front: Seq<char>,
    escape: Seq<char>,
    rest: Seq<char>,
)
    requires
        is_complete(front),
        is_escape(escape),
    ensures
        classified(rules, front + escape + rest) == classified(rules, front + rest),
{
    assert(front + escape + rest == front + (escape + rest));
    complete_text_is_stripped_apart(front, escape + rest);
    complete_text_is_stripped_apart(front, rest);
    escape_vanishes(escape, rest);
}

/// Text that a negative guard matches never fires the rule: not a line, in
/// line scope, and not the window, in window scope.
pub proof fn guarded_text_never_fires(rule: RuleView, lines: Seq<Seq<char>>)
    requires
        rule.scope == RuleScope::Line ==> forall|i: int|
            0 <= i < window(lines, rule.tail_lines).len() ==> guarded(
                rule,
                #[trigger] window(lines, rule.tail_lines)[i],
            ),
        rule.scope == RuleScope::Window ==> guarded(rule, joined(window(lines, rule.tail_lines))),
    ensures
        !any_unguarded(observed(rule, lines)),
{
    let hits = observed(rule, lines);
    assert forall|i: int| 0 <= i < hits.len() implies (#[trigger] hits[i]).guarded by {
        if rule.scope == RuleScope::Line {
            assert(guarded(rule, window(lines, rule.tail_lines)[i]));
        }
    }
}

/// Decoration before a line does not hide it from a rule that strips
/// decoration.
pub proof fn decorated_line_is_tried_alike(
    rule: RuleView,
    ornament: Seq<char>,
    line: Seq<char>,
)
    requires
        rule.strip_decoration,
        forall|i: int| 0 <= i < ornament.len() ==> !alphanumeric(#[trigger] ornament[i]),
    ensures
        candidate(rule, ornament + line) == candidate(rule, line),
{
    decoration_is_ignored(ornament, line);
}

/// The view of a compiled rule tells each field as it stands.
pub proof fn compiled_view_tells_each_field(rule: CompiledRule)
    ensures
        rule@.name == rule.name@,
        rule@.kind == rule.kind@,
        rule@.pattern == regex_pattern(rule.pattern),
        rule@.negative.len() == rule.negative@.len(),
        forall|g: int|
            0 <= g < rule.negative@.len() ==> #[trigger] rule@.negative[g] == regex_pattern(
                rule.negative@[g],
            ),
        rule@.tail_lines == rule.tail_lines,
        rule@.scope == rule.scope,
        rule@.strip_decoration == rule.strip_decoration,
        rule@.priority == rule.priority,
        rule@.command is Some <==> rule.command is Some,
        rule.command matches Some(command) ==> rule@.command == Some(command@),
        rule@.cooldown_nanos == duration_nanos(rule.cooldown),
{
}

/// A compiled rule is its config and nothing else: each field is carried
/// over, the guards one for one and in order. Only a window of no lines is
/// widened to one line.
pub proof fn compiled_rule_is_its_config(config: PaneRuleConfig, rule: CompiledRule)
    requires
        rule@ == compiled(config@),
    ensures
        rule.name@ == config.name@,
        rule.kind@ == config.kind@,
        regex_pattern(rule.pattern) == config.pattern@,
        rule.negative@.len() == config.negative@.len(),
        forall|g: int|
            0 <= g < config.negative@.len() ==> regex_pattern(#[trigger] rule.negative@[g])
                == config.negative@[g]@,
        config.tail_lines > 0 ==> rule.tail_lines == config.tail_lines,
        config.tail_lines == 0 ==> rule.tail_lines == 1,
        rule.scope == config.scope,
        rule.strip_decoration == config.strip_decoration,
        rule.priority == config.priority,
        rule.command is Some <==> config.command is Some,
        rule.command is Some ==> rule.command->0@ == config.command->0@,
        duration_nanos(rule.cooldown) == config.cooldown_secs * 1_000_000_000,
{
    assert(patterns(rule.negative@) == texts(config.negative@));
    assert(patterns(rule.negative@).len() == rule.negative@.len());
    assert(texts(config.negative@).len() == config.negative@.len());
    assert forall|g: int| 0 <= g < config.negative@.len() implies regex_pattern(
        #[trigger] rule.negative@[g],
    ) == config.negative@[g]@ by {
        assert(patterns(rule.negative@)[g] == texts(config.negative@)[g]);
    }
}

/// A rule is kept exactly if it is enabled, no enabled rule before it bears
/// its name, and its pattern and every one of its guards compile.
pub proof fn sound_rules_survive(rules: Seq<PaneRuleConfig>, i: int)
    requires
        0 <= i < rules.len(),
    ensures
        survives(configs(rules), i) <==> {
            &&& rules[i].enabled
            &&& forall|j: int|
                0 <= j < i ==> !((#[trigger] rules[j]).enabled && rules[j].name@
                    == rules[i].name@)
            &&& regex_compiles(rules[i].pattern@)
            &&& forall|g: int|
                0 <= g < rules[i].negative@.len() ==> regex_compiles(
                    (#[trigger] rules[i].negative@[g])@,
                )
        },
{
    let views = configs(rules);
    assert(views[i] == rules[i]@);
    assert forall|j: int| 0 <= j < rules.len() implies #[trigger] views[j] == rules[j]@ by {}
    assert forall|g: int| 0 <= g < rules[i].negative@.len() implies #[trigger] rules[i]@.negative[g]
        == rules[i].negative@[g]@ by {}
    assert(rules[i]@.negative.len() == rules[i].negative@.len());
    let free = forall|j: int|
        0 <= j < i ==> !((#[trigger] rules[j]).enabled && rules[j].name@ == rules[i].name@);
    assert(free == !name_taken(views, i)) by {
        if !free {
            let j = choose|j: int|
                0 <= j < i && (#[trigger] rules[j]).enabled && rules[j].name@ == rules[i].name@;
            assert(views[j].enabled && views[j].name == views[i].name);
        }
        if name_taken(views, i) {
            let j = choose|j: int|
                0 <= j < i && (#[trigger] views[j]).enabled && views[j].name == views[i].name;
            assert(rules[j].enabled);
        }
    }
    let sound = forall|g: int|
        0 <= g < rules[i].negative@.len() ==> regex_compiles((#[trigger] rules[i].negative@[g])@);
    assert(sound == guards_compile(views[i])) by {
        if sound {
            assert forall|g: int| 0 <= g < views[i].negative.len() implies regex_compiles(
                #[trigger] views[i].negative[g],
            ) by {
                assert(regex_compiles(rules[i].negative@[g]@));
            }
        }
        if guards_compile(views[i]) {
            assert forall|g: int| 0 <= g < rules[i].negative@.len() implies regex_compiles(
                (#[trigger] rules[i].negative@[g])@,
            ) by {
                assert(regex_compiles(views[i].negative[g]));
            }
        }
    }
}

/// Something is kept of a config exactly if it holds an enabled rule whose
/// name no enabled rule before it bears, and whose pattern and guards all
/// compile.
pub proof fn something_survives_if_sound(rules: Seq<PaneRuleConfig>)
    ensures
        !no_rule_survives(configs(rules)) <==> exists|i: int|
            {
                &&& 0 <= i < rules.len()
                &&& (#[trigger] rules[i]).enabled
                &&& forall|j: int|
                    0 <= j < i ==> !((#[trigger] rules[j]).enabled && rules[j].name@
                        == rules[i].name@)
                &&& regex_compiles(rules[i].pattern@)
                &&& forall|g: int|
                    0 <= g < rules[i].negative@.len() ==> regex_compiles(
                        (#[trigger] rules[i].negative@[g])@,
                    )
            },
{
    if !no_rule_survives(configs(rules)) {
        let i = choose|i: int| survives(configs(rules), i);
        sound_rules_survive(rules, i);
        assert(rules[i].enabled);
    } else {
        assert forall|i: int| 0 <= i < rules.len() implies !{
            &&& (#[trigger] rules[i]).enabled
            &&& forall|j: int|
                0 <= j < i ==> !((#[trigger] rules[j]).enabled && rules[j].name@
                    == rules[i].name@)
            &&& regex_compiles(rules[i].pattern@)
            &&& forall|g: int|
                0 <= g < rules[i].negative@.len() ==> regex_compiles(
                    (#[trigger] rules[i].negative@[g])@,
                )
        } by {
            sound_rules_survive(rules, i);
            assert(!survives(configs(rules), i));
        }
    }
}

/// Compiling keeps the rules that survive, each once and as configured, by
/// priority and, among equals, in the order in which they are written. The
/// places of the kept rules in the config are returned.
pub proof fn kept_rules_have_their_places(rules: Seq<PaneRuleConfig>, out: Seq<CompiledRule>) -> (
    places: Seq<int>)
    requires
        compiles_to(configs(rules), rule_views(out)),
    ensures
        places.len() == out.len(),
        forall|k: int|
            0 <= k < out.len() ==> 0 <= #[trigger] places[k] < rules.len() && survives(
                configs(rules),
                places[k],
            ) && out[k]@ == compiled(rules[places[k]]@),
        forall|i: int| #[trigger] survives(configs(rules), i) ==> places.contains(i),
        forall|j: int, k: int|
            0 <= j < k < out.len() ==> {
                ||| rules[#[trigger] places[j]].priority < rules[#[trigger] places[k]].priority
                ||| rules[places[j]].priority == rules[places[k]].priority && places[j]
                    < places[k]
            },
{
    let views = configs(rules);
    let order = lemma_order_of(views, rule_views(out));
    assert(rule_views(out).len() == out.len());
    assert forall|k: int| 0 <= k < out.len() implies 0 <= #[trigger] order[k] < rules.len()
        && survives(views, order[k]) && out[k]@ == compiled(rules[order[k]]@) by {
        assert(rule_views(out)[k] == out[k]@);
        assert(survives(views, order[k]));
        assert(views[order[k]] == rules[order[k]]@);
    }
    assert forall|i: int| #[trigger] survives(views, i) implies order.contains(i) by {
        assert(rule_slots(views)[i] is Some);
    }
    assert forall|j: int, k: int| 0 <= j < k < out.len() implies {
        ||| rules[#[trigger] order[j]].priority < rules[#[trigger] order[k]].priority
        ||| rules[order[j]].priority == rules[order[k]].priority && order[j] < order[k]
    } by {
        assert(before(rule_slots(views), order[j], order[k]));
        assert(survives(views, order[j]));
        assert(survives(views, order[k]));
    }
    order
}

/// What is told of the first `n` rules, place by place.
proof fn lemma_drops(rules: Seq<RuleConfigView>, n: nat)
    requires
        n <= rules.len() <= usize::MAX,
    ensures
        forall|k: int|
            0 <= k < drops(rules, n).len() ==> (#[trigger] drops(rules, n)[k]).0 < n && drop_cause(
                rules,
                drops(rules, n)[k].0 as int,
            ) == Some(drops(rules, n)[k].1),
        forall|j: int, k: int|
            0 <= j < k < drops(rules, n).len() ==> (#[trigger] drops(rules, n)[j]).0 < (
            #[trigger] drops(rules, n)[k]).0,
        forall|i: int|
            0 <= i < n && (#[trigger] drop_cause(rules, i)) is Some ==> exists|k: int|
                0 <= k < drops(rules, n).len() && (#[trigger] drops(rules, n)[k]).0 == i,
    decreases n,
{
    if n > 0 {
        let m = (n - 1) as nat;
        lemma_drops(rules, m);
        let fewer = drops(rules, m);
        let all = drops(rules, n);
        assert forall|i: int|
            0 <= i < n && (#[trigger] drop_cause(rules, i)) is Some implies exists|k: int|
            0 <= k < all.len() && (#[trigger] all[k]).0 == i by {
            if i < m {
                let k = choose|k: int| 0 <= k < fewer.len() && (#[trigger] fewer[k]).0 == i;
                assert(all[k] == fewer[k]);
            } else {
                assert(all[all.len() - 1].0 == i);
            }
        }
    }
}

/// Every enabled rule that is not kept is told of, once and in order, and no
/// other rule is. A name that was taken comes before a pattern that does not
/// compile, and that before the first guard that does not; the error is the
/// one of the text that failed.
pub proof fn dropped_rules_are_told(rules: Seq<PaneRuleConfig>, dropped: Seq<DroppedRule>)
    requires
        rules.len() <= usize::MAX,
        causes(dropped) == drops(configs(rules), rules.len()),
    ensures
        forall|i: int|
            0 <= i < rules.len() && (#[trigger] rules[i]).enabled && !survives(configs(rules), i)
                ==> exists|k: int|
                0 <= k < dropped.len() && (#[trigger] dropped[k]).index == i,
        forall|j: int, k: int|
            0 <= j < k < dropped.len() ==> (#[trigger] dropped[j]).index < (
            #[trigger] dropped[k]).index,
        forall|k: int|
            0 <= k < dropped.len() ==> (#[trigger] dropped[k]).index < rules.len()
                && rules[dropped[k].index as int].enabled && !survives(
                configs(rules),
                dropped[k].index as int,
            ),
        forall|k: int|
            0 <= k < dropped.len() ==> match (#[trigger] dropped[k]).reason {
                DropReason::DuplicateName => exists|j: int|
                    0 <= j < dropped[k].index && (#[trigger] rules[j]).enabled && rules[j].name@
                        == rules[dropped[k].index as int].name@,
                DropReason::InvalidPattern(e) => !regex_compiles(
                    rules[dropped[k].index as int].pattern@,
                ) && e == regex_error(rules[dropped[k].index as int].pattern@),
                DropReason::InvalidGuard(e) => regex_compiles(
                    rules[dropped[k].index as int].pattern@,
                ) && exists|g: int|
                    {
                        &&& 0 <= g < rules[dropped[k].index as int].negative@.len()
                        &&& !regex_compiles(
                            (#[trigger] rules[dropped[k].index as int].negative@[g])@,
                        )
                        &&& forall|h: int|
                            0 <= h < g ==> regex_compiles(
                                (#[trigger] rules[dropped[k].index as int].negative@[h])@,
                            )
                        &&& e == regex_error(rules[dropped[k].index as int].negative@[g]@)
                    },
            },
        forall|k: int, j: int|
            0 <= k < dropped.len() && !((#[trigger] dropped[k]).reason is DuplicateName) && 0 <= j
                < dropped[k].index ==> !((#[trigger] rules[j]).enabled && rules[j].name@
                == rules[dropped[k].index as int].name@),
{
    let views = configs(rules);
    let all = drops(views, rules.len());
    lemma_drops(views, rules.len());
    assert(causes(dropped).len() == dropped.len());
    assert forall|k: int| 0 <= k < dropped.len() implies (#[trigger] dropped[k]).index == all[k].0
        && dropped[k].reason == all[k].1 by {
        assert(causes(dropped)[k] == (dropped[k].index, dropped[k].reason));
    }
    assert forall|j: int| 0 <= j < rules.len() implies #[trigger] views[j] == rules[j]@ by {}
    assert forall|i: int|
        0 <= i < rules.len() && (#[trigger] rules[i]).enabled && !survives(views, i) implies
        exists|k: int| 0 <= k < dropped.len() && (#[trigger] dropped[k]).index == i by {
        assert(views[i].enabled);
        assert(drop_cause(views, i) is Some);
        let k = choose|k: int| 0 <= k < all.len() && (#[trigger] all[k]).0 == i;
        assert(dropped[k].index == i);
    }
    assert forall|k: int| 0 <= k < dropped.len() implies (#[trigger] dropped[k]).index < rules.len()
        && drop_cause(views, dropped[k].index as int) == Some(dropped[k].reason) by {
        assert(all[k].0 < rules.len());
    }
    assert forall|k: int| 0 <= k < dropped.len() implies match (#[trigger] dropped[k]).reason {
        DropReason::DuplicateName => exists|j: int|
            0 <= j < dropped[k].index && (#[trigger] rules[j]).enabled && rules[j].name@
                == rules[dropped[k].index as int].name@,
        DropReason::InvalidPattern(e) => !regex_compiles(rules[dropped[k].index as int].pattern@)
            && e == regex_error(rules[dropped[k].index as int].pattern@),
        DropReason::InvalidGuard(e) => regex_compiles(rules[dropped[k].index as int].pattern@)
            && exists|g: int|
            {
                &&& 0 <= g < rules[dropped[k].index as int].negative@.len()
                &&& !regex_compiles((#[trigger] rules[dropped[k].index as int].negative@[g])@)
                &&& forall|h: int|
                    0 <= h < g ==> regex_compiles(
                        (#[trigger] rules[dropped[k].index as int].negative@[h])@,
                    )
                &&& e == regex_error(rules[dropped[k].index as int].negative@[g]@)
            },
    } by {
        let i = dropped[k].index as int;
        assert(views[i] == rules[i]@);
        match dropped[k].reason {
            DropReason::DuplicateName => {
                let j = choose|j: int|
                    0 <= j < i && (#[trigger] views[j]).enabled && views[j].name == views[i].name;
                assert(rules[j].enabled && rules[j].name@ == rules[i].name@);
            },
            DropReason::InvalidPattern(e) => {},
            DropReason::InvalidGuard(e) => {
                first_bad_guard_is_reported(views[i]);
                let g = choose|g: int| is_first_bad_guard(views[i], g);
                assert(views[i].negative[g] == rules[i].negative@[g]@);
                assert forall|h: int| 0 <= h < g implies regex_compiles(
                    (#[trigger] rules[i].negative@[h])@,
                ) by {
                    assert(regex_compiles(views[i].negative[h]));
                }
                assert(!regex_compiles(rules[i].negative@[g]@));
            },
        }
    }
    assert forall|k: int, j: int|
        0 <= k < dropped.len() && !((#[trigger] dropped[k]).reason is DuplicateName) && 0 <= j
            < dropped[k].index implies !((#[trigger] rules[j]).enabled && rules[j].name@
        == rules[dropped[k].index as int].name@) by {
        let i = dropped[k].index as int;
        assert(!name_taken(views, i));
        assert(views[j] == rules[j]@ && views[i] == rules[i]@);
    }
}

/// A line-scope rule looks at its last `tail_lines` lines, or at all where
/// there are fewer, each by itself. Of each, the guards see the raw line, and
/// the pattern sees it without decoration where the rule says so.
pub proof fn line_rule_looks_at_its_last_lines(rule: RuleView, lines: Seq<Seq<char>>, n: int)
    requires
        rule.scope == RuleScope::Line,
        n == if rule.tail_lines < lines.len() {
            rule.tail_lines as int
        } else {
            lines.len() as int
        },
    ensures
        observed(rule, lines).len() == n,
        forall|i: int|
            0 <= i < n ==> {
                &&& (#[trigger] observed(rule, lines)[i]).matched == regex_finds(
                    rule.pattern,
                    if rule.strip_decoration {
                        normalized(lines[lines.len() - n + i])
                    } else {
                        lines[lines.len() - n + i]
                    },
                )
                &&& observed(rule, lines)[i].guarded <==> exists|g: int|
                    0 <= g < rule.negative.len() && regex_finds(
                        #[trigger] rule.negative[g],
                        lines[lines.len() - n + i],
                    )
            },
{
    let tail = window(lines, rule.tail_lines);
    assert forall|i: int| 0 <= i < n implies #[trigger] tail[i] == lines[lines.len() - n + i] by {}
    assert forall|i: int| 0 <= i < n implies #[trigger] observed(rule, lines)[i] == found(
        rule,
        lines[lines.len() - n + i],
        candidate(rule, lines[lines.len() - n + i]),
    ) by {
        assert(tail[i] == lines[lines.len() - n + i]);
    }
}

/// A window-scope rule looks at one text: its last `tail_lines` lines, or all
/// where there are fewer, joined as they stand. Guards and pattern see the
/// same text.
pub proof fn window_rule_looks_at_its_last_lines(rule: RuleView, lines: Seq<Seq<char>>, n: int)
    requires
        rule.scope == RuleScope::Window,
        n == if rule.tail_lines < lines.len() {
            rule.tail_lines as int
        } else {
            lines.len() as int
        },
    ensures
        observed(rule, lines).len() == 1,
        observed(rule, lines)[0].matched == regex_finds(
            rule.pattern,
            joined(lines.subrange(lines.len() - n, lines.len() as int)),
        ),
        observed(rule, lines)[0].guarded <==> exists|g: int|
            0 <= g < rule.negative.len() && regex_finds(
                #[trigger] rule.negative[g],
                joined(lines.subrange(lines.len() - n, lines.len() as int)),
            ),
{
    assert(window(lines, rule.tail_lines) == lines.subrange(lines.len() - n, lines.len() as int));
}

/// Whether a line-scope rule has the line at `i` in reach, its pattern finds
/// it, and none of its guards does.
pub open spec fn fires_on_line(rule: RuleView, lines: Seq<Seq<char>>, i: int) -> bool {
    &&& rule.scope == RuleScope::Line
    &&& 0 <= i < lines.len() <= i + rule.tail_lines
    &&& regex_finds(
        rule.pattern,
        if rule.strip_decoration {
            normalized(lines[i])
        } else {
            lines[i]
        },
    )
    &&& forall|g: int|
        0 <= g < rule.negative.len() ==> !regex_finds(#[trigger] rule.negative[g], lines[i])
}

/// Whether the pattern of a window-scope rule finds its last `n` lines, joined,
/// and none of its guards does. `n` is the rule's window, or the number of
/// lines where there are fewer.
pub open spec fn fires_on_window(rule: RuleView, lines: Seq<Seq<char>>, n: int) -> bool {
    let text = joined(lines.subrange(lines.len() - n, lines.len() as int));
    &&& rule.scope == RuleScope::Window
    &&& 0 <= n <= lines.len()
    &&& n <= rule.tail_lines
    &&& n == rule.tail_lines || n == lines.len()
    &&& regex_finds(rule.pattern, text)
    &&& forall|g: int|
        0 <= g < rule.negative.len() ==> !regex_finds(#[trigger] rule.negative[g], text)
}

proof fn lemma_fires_where_found(rule: RuleView, lines: Seq<Seq<char>>)
    ensures
        any_unguarded(observed(rule, lines)) <==> {
            ||| exists|i: int| fires_on_line(rule, lines, i)
            ||| exists|n: int| fires_on_window(rule, lines, n)
        },
{
    let n = if rule.tail_lines < lines.len() {
        rule.tail_lines as int
    } else {
        lines.len() as int
    };
    let start = lines.len() - n;
    let hits = observed(rule, lines);
    if rule.scope == RuleScope::Line {
        line_rule_looks_at_its_last_lines(rule, lines, n);
        if any_unguarded(hits) {
            let h = choose|h: int|
                0 <= h < hits.len() && (#[trigger] hits[h]).matched && !hits[h].guarded;
            assert(fires_on_line(rule, lines, start + h));
        }
        assert forall|i: int| #[trigger] fires_on_line(rule, lines, i) implies any_unguarded(
            hits,
        ) by {
            assert(start + (i - start) == i);
            assert(hits[i - start].matched && !hits[i - start].guarded);
        }
    } else {
        window_rule_looks_at_its_last_lines(rule, lines, n);
        if any_unguarded(hits) {
            assert(hits[0].matched && !hits[0].guarded);
            assert(fires_on_window(rule, lines, n));
        }
        assert forall|m: int| #[trigger] fires_on_window(rule, lines, m) implies any_unguarded(
            hits,
        ) by {
            assert(m == n);
            assert(hits[0].matched && !hits[0].guarded);
        }
    }
}

proof fn lemma_classified(rules: Seq<RuleView>, raw: Seq<char>) -> (winner: Option<int>)
    ensures
        decided(pane_observations(rules, raw), winner),
        winner is None ==> classified(rules, raw) is None,
        winner matches Some(k) ==> 0 <= k < rules.len() && classified(rules, raw) == Some(
            rules[k],
        ),
{
    let seen = pane_observations(rules, raw);
    decision_is_determined(seen);
    let winner = choose|winner: Option<int>| decided(seen, winner);
    if winner is Some {
        let k = winner->0;
        assert(decided(seen, Some(k)));
        assert(!decided(seen, None));
        let first = choose|j: int| decided(seen, Some(j));
        assert(Some(first) == Some(k));
    }
    winner
}

/// A line in reach fires its rule: where one of the last `tail_lines` visible
/// lines is found by the pattern of a line-scope rule, without its decoration
/// if the rule strips it, and by none of its guards, the pane is classified by
/// that rule or by one before it.
pub proof fn line_in_reach_fires(rules: Seq<RuleView>, raw: Seq<char>, k: int, i: int)
    requires
        0 <= k < rules.len(),
        rules[k].scope == RuleScope::Line,
        0 <= i < visible_lines(without_escapes(raw)).len(),
        visible_lines(without_escapes(raw)).len() - rules[k].tail_lines <= i,
        regex_finds(
            rules[k].pattern,
            if rules[k].strip_decoration {
                normalized(visible_lines(without_escapes(raw))[i])
            } else {
                visible_lines(without_escapes(raw))[i]
            },
        ),
        forall|g: int|
            0 <= g < rules[k].negative.len() ==> !regex_finds(
                #[trigger] rules[k].negative[g],
                visible_lines(without_escapes(raw))[i],
            ),
    ensures
        exists|w: int|
            0 <= w <= k && classified(rules, raw) == Some(#[trigger] rules[w]),
{
    let lines = visible_lines(without_escapes(raw));
    assert(fires_on_line(rules[k], lines, i));
    lemma_fires_where_found(rules[k], lines);
    assert(pane_observations(rules, raw)[k] == observed(rules[k], lines));
    let winner = lemma_classified(rules, raw);
    assert(winner is Some && winner->0 <= k);
    assert(classified(rules, raw) == Some(rules[winner->0]));
}

/// A window in reach fires its rule: where the last `tail_lines` visible
/// lines, or all where there are fewer, joined, are found by the pattern of a
/// window-scope rule and by none of its guards, the pane is classified by
/// that rule or by one before it.
pub proof fn window_in_reach_fires(rules: Seq<RuleView>, raw: Seq<char>, k: int, n: int)
    requires
        0 <= k < rules.len(),
        rules[k].scope == RuleScope::Window,
        0 <= n <= visible_lines(without_escapes(raw)).len(),
        n == rules[k].tail_lines || (n < rules[k].tail_lines && n == visible_lines(
            without_escapes(raw),
        ).len()),
        regex_finds(
            rules[k].pattern,
            joined(
                visible_lines(without_escapes(raw)).skip(
                    visible_lines(without_escapes(raw)).len() - n,
                ),
            ),
        ),
        forall|g: int|
            0 <= g < rules[k].negative.len() ==> !regex_finds(
                #[trigger] rules[k].negative[g],
                joined(
                    visible_lines(without_escapes(raw)).skip(
                        visible_lines(without_escapes(raw)).len() - n,
                    ),
                ),
            ),
    ensures
        exists|w: int|
            0 <= w <= k && classified(rules, raw) == Some(#[trigger] rules[w]),
{
    let lines = visible_lines(without_escapes(raw));
    assert(lines.skip(lines.len() - n) == lines.subrange(lines.len() - n, lines.len() as int));
    assert(fires_on_window(rules[k], lines, n));
    lemma_fires_where_found(rules[k], lines);
    assert(pane_observations(rules, raw)[k] == observed(rules[k], lines));
    let winner = lemma_classified(rules, raw);
    assert(winner is Some && winner->0 <= k);
    assert(classified(rules, raw) == Some(rules[winner->0]));
}

/// A pane is classified for a reason: the rule that it is classified by fires
/// on a visible line in its reach, or on its window, and no rule before it
/// fires at all. The place of that rule is returned.
pub proof fn classification_has_a_reason(rules: Seq<RuleView>, raw: Seq<char>) -> (w: int)
    requires
        classified(rules, raw) is Some,
    ensures
        0 <= w < rules.len(),
        classified(rules, raw) == Some(rules[w]),
        ({
            ||| exists|i: int| fires_on_line(rules[w], visible_lines(without_escapes(raw)), i)
            ||| exists|n: int| fires_on_window(rules[w], visible_lines(without_escapes(raw)), n)
        }),
        forall|j: int, i: int|
            0 <= j < w ==> !#[trigger] fires_on_line(
                rules[j],
                visible_lines(without_escapes(raw)),
                i,
            ),
        forall|j: int, n: int|
            0 <= j < w ==> !#[trigger] fires_on_window(
                rules[j],
                visible_lines(without_escapes(raw)),
                n,
            ),
{
    let lines = visible_lines(without_escapes(raw));
    let seen = pane_observations(rules, raw);
    let winner = lemma_classified(rules, raw);
    let w = winner->0;
    assert(seen[w] == observed(rules[w], lines));
    lemma_fires_where_found(rules[w], lines);
    assert forall|j: int, i: int| 0 <= j < w implies !#[trigger] fires_on_line(
        rules[j],
        lines,
        i,
    ) by {
        assert(seen[j] == observed(rules[j], lines));
        lemma_fires_where_found(rules[j], lines);
    }
    assert forall|j: int, n: int| 0 <= j < w implies !#[trigger] fires_on_window(
        rules[j],
        lines,
        n,
    ) by {
        assert(seen[j] == observed(rules[j], lines));
        lemma_fires_where_found(rules[j], lines);
    }
    w
}

/// From config to match: a line that the pattern of a kept line-scope rule
/// finds, and none of its guards as they are written in the config, fires
/// the pane, if it is among as many visible lines from the end as the config
/// says.
pub proof fn configured_line_fires(
    rules: Seq<PaneRuleConfig>,
    out: Seq<CompiledRule>,
    raw: Seq<char>,
    c: int,
    i: int,
)
    requires
        compiles_to(configs(rules), rule_views(out)),
        0 <= c < rules.len(),
        survives(configs(rules), c),
        rules[c].scope == RuleScope::Line,
        0 <= i < visible_lines(without_escapes(raw)).len(),
        visible_lines(without_escapes(raw)).len() - i <= rules[c].tail_lines || i
            == visible_lines(without_escapes(raw)).len() - 1,
        regex_finds(
            rules[c].pattern@,
            if rules[c].strip_decoration {
                normalized(visible_lines(without_escapes(raw))[i])
            } else {
                visible_lines(without_escapes(raw))[i]
            },
        ),
        forall|g: int|
            0 <= g < rules[c].negative@.len() ==> !regex_finds(
                (#[trigger] rules[c].negative@[g])@,
                visible_lines(without_escapes(raw))[i],
            ),
    ensures
        classified(rule_views(out), raw) is Some,
{
    let places = kept_rules_have_their_places(rules, out);
    let k = places.index_of(c);
    assert(places[k] == c);
    let views = rule_views(out);
    assert(views[k] == out[k]@);
    compiled_rule_is_its_config(rules[c], out[k]);
    compiled_view_tells_each_field(out[k]);
    assert forall|g: int| 0 <= g < views[k].negative.len() implies !regex_finds(
        #[trigger] views[k].negative[g],
        visible_lines(without_escapes(raw))[i],
    ) by {
        assert(regex_pattern(out[k].negative@[g]) == rules[c].negative@[g]@);
    }
    line_in_reach_fires(views, raw, k, i);
}

/// From match to config: the line-scope rule that a pane is classified by is
/// a kept one of the config, and one of as many visible lines from the end as
/// the config says is found by its pattern and by none of the guards as they
/// are written, first or last. The places of the rule and of the line are
/// returned.
pub proof fn matched_rule_has_its_config(
    rules: Seq<PaneRuleConfig>,
    out: Seq<CompiledRule>,
    raw: Seq<char>,
    w: int,
) -> (at: (int, int))
    requires
        compiles_to(configs(rules), rule_views(out)),
        0 <= w < out.len(),
        classified(rule_views(out), raw) == Some(out[w]@),
        out[w].scope == RuleScope::Line,
    ensures
        0 <= at.0 < rules.len(),
        survives(configs(rules), at.0),
        out[w].name@ == rules[at.0].name@,
        rules[at.0].scope == RuleScope::Line,
        0 <= at.1 < visible_lines(without_escapes(raw)).len(),
        visible_lines(without_escapes(raw)).len() - at.1 <= rules[at.0].tail_lines || at.1
            == visible_lines(without_escapes(raw)).len() - 1,
        regex_finds(
            rules[at.0].pattern@,
            if rules[at.0].strip_decoration {
                normalized(visible_lines(without_escapes(raw))[at.1])
            } else {
                visible_lines(without_escapes(raw))[at.1]
            },
        ),
        forall|g: int|
            0 <= g < rules[at.0].negative@.len() ==> !regex_finds(
                (#[trigger] rules[at.0].negative@[g])@,
                visible_lines(without_escapes(raw))[at.1],
            ),
{
    let lines = visible_lines(without_escapes(raw));
    let views = rule_views(out);
    let places = kept_rules_have_their_places(rules, out);
    let c = places[w];
    compiled_rule_is_its_config(rules[c], out[w]);
    compiled_view_tells_each_field(out[w]);
    let v = classification_has_a_reason(views, raw);
    let i = choose|i: int| fires_on_line(out[w]@, lines, i);
    assert(fires_on_line(out[w]@, lines, i));
    assert forall|g: int| 0 <= g < rules[c].negative@.len() implies !regex_finds(
        (#[trigger] rules[c].negative@[g])@,
        lines[i],
    ) by {
        assert(out[w]@.negative[g] == rules[c].negative@[g]@);
    }
    (c, i)
}

/// The widest window is the window of some rule; without rules it is empty.
pub proof fn widest_window_is_one_of_them(rules: Seq<RuleView>)
    ensures
        rules.len() == 0 ==> widest_window(rules) == 0,
        rules.len() > 0 ==> exists|k: int|
            0 <= k < rules.len() && (#[trigger] rules[k]).tail_lines == widest_window(rules),
    decreases rules.len(),
{
    if rules.len() > 0 {
        let fewer = rules.drop_last();
        widest_window_is_one_of_them(fewer);
        let last = rules.len() - 1;
        if rules[last].tail_lines < widest_window(rules) {
            let k = choose|k: int|
                0 <= k < fewer.len() && (#[trigger] fewer[k]).tail_lines == widest_window(fewer);
            assert(rules[k] == fewer[k]);
        } else {
            widest_window_covers_all(rules, last);
            assert(rules[last].tail_lines == widest_window(rules));
        }
    }
}

/// Lists of rules are viewed rule by rule.
pub proof fn rules_are_viewed_one_by_one(rules: Seq<PaneRuleConfig>, out: Seq<CompiledRule>)
    ensures
        configs(rules).len() == rules.len(),
        forall|i: int| 0 <= i < rules.len() ==> #[trigger] configs(rules)[i] == rules[i]@,
        rule_views(out).len() == out.len(),
        forall|k: int| 0 <= k < out.len() ==> #[trigger] rule_views(out)[k] == out[k]@,
{
}

} // verus!
