//! What holds of cooldowns over many scans.

use crate::ledger::{due, elapsed, holds_back, key_of, pruned, settled, ticked, Key};
use crate::pane_rules::RuleView;
use crate::pane_watchdog::{match_by, matches_come_from_rules, scanned, MatchView, PaneView};
use vstd::prelude::*;

verus! {

/// Whether a match has the name and cooldown of a rule of the set.
pub open spec fn from_rules(m: MatchView, rules: Seq<RuleView>) -> bool {
    exists|r: int|
        0 <= r < rules.len() && (#[trigger] rules[r]).name == m.rule_name
            && rules[r].cooldown_nanos == m.cooldown_nanos
}

/// Every match of a scan has the name and cooldown of a rule of the set.
pub proof fn scanned_matches_come_from_rules(
    panes: Seq<PaneView>,
    rules: Seq<RuleView>,
    i: int,
)
    requires
        0 <= i < scanned(panes, rules).len(),
    ensures
        from_rules(scanned(panes, rules)[i], rules),
{
    matches_come_from_rules(panes, rules, i);
    let (p, k) = choose|p: int, k: int| #[trigger]
        match_by(panes[p], rules[k]) == scanned(panes, rules)[i] && 0 <= p < panes.len() && 0
            <= k < rules.len();
    assert(rules[k].name == scanned(panes, rules)[i].rule_name);
}

/// Only what was matched fires.
pub proof fn only_matches_fire(
    fired: Map<Key, nat>,
    matches: Seq<MatchView>,
    now: nat,
    b: int,
)
    requires
        0 <= b < settled(fired, matches, now).fired.len(),
    ensures
        matches.contains(settled(fired, matches, now).fired[b]),
    decreases matches.len(),
{
    let fewer = matches.drop_last();
    let before = settled(fired, fewer, now);
    if b < before.fired.len() {
        only_matches_fire(fired, fewer, now, b);
        let i = fewer.index_of(before.fired[b]);
        assert(matches[i] == before.fired[b]);
    } else {
        assert(matches[matches.len() - 1] == settled(fired, matches, now).fired[b]);
    }
}

/// The first match of a rule for a session fires at once.
pub proof fn first_match_fires(fired: Map<Key, nat>, matches: Seq<MatchView>, now: nat, i: int)
    requires
        0 <= i < matches.len(),
        !fired.contains_key(key_of(matches[i])),
        forall|j: int| 0 <= j < i ==> key_of(#[trigger] matches[j]) != key_of(matches[i]),
    ensures
        settled(fired, matches, now).fired.contains(matches[i]),
    decreases matches.len(),
{
    let fewer = matches.drop_last();
    let before = settled(fired, fewer, now);
    let end = settled(fired, matches, now);
    if i < matches.len() - 1 {
        assert forall|j: int| 0 <= j < i implies key_of(#[trigger] fewer[j]) != key_of(
            fewer[i],
        ) by {
            assert(fewer[j] == matches[j]);
        }
        first_match_fires(fired, fewer, now, i);
        let k = before.fired.index_of(matches[i]);
        assert(end.fired[k] == matches[i]);
    } else {
        lemma_other_keys_stay(fired, fewer, now, key_of(matches[i]));
        assert(end.fired[end.fired.len() - 1] == matches[i]);
    }
}

proof fn lemma_other_keys_stay(
    fired: Map<Key, nat>,
    matches: Seq<MatchView>,
    now: nat,
    k: Key,
)
    requires
        forall|j: int| 0 <= j < matches.len() ==> key_of(#[trigger] matches[j]) != k,
    ensures
        settled(fired, matches, now).ledger.contains_key(k) == fired.contains_key(k),
        fired.contains_key(k) ==> settled(fired, matches, now).ledger[k] == fired[k],
    decreases matches.len(),
{
    if matches.len() > 0 {
        let fewer = matches.drop_last();
        assert forall|j: int| 0 <= j < fewer.len() implies key_of(#[trigger] fewer[j]) != k by {
            assert(fewer[j] == matches[j]);
        }
        lemma_other_keys_stay(fired, fewer, now, k);
        assert(key_of(matches[matches.len() - 1]) != k);
    }
}

/// Sessions and rules cool down apart: that one fires makes no difference to
/// whether another is due.
pub proof fn cooldowns_are_independent(
    fired: Map<Key, nat>,
    a: MatchView,
    b: MatchView,
    at: nat,
    now: nat,
)
    requires
        key_of(a) != key_of(b),
    ensures
        due(fired.insert(key_of(a), at), b, now) == due(fired, b, now),
{
}

proof fn lemma_fired_is_noted(
    fired: Map<Key, nat>,
    matches: Seq<MatchView>,
    now: nat,
    a: int,
)
    requires
        0 <= a < settled(fired, matches, now).fired.len(),
    ensures
        settled(fired, matches, now).ledger.contains_key(
            key_of(settled(fired, matches, now).fired[a]),
        ),
        settled(fired, matches, now).ledger[key_of(settled(fired, matches, now).fired[a])] == now,
    decreases matches.len(),
{
    let before = settled(fired, matches.drop_last(), now);
    if a < before.fired.len() {
        lemma_fired_is_noted(fired, matches.drop_last(), now, a);
    }
}

/// Within one scan, a rule with a cooldown fires once at most for a session.
pub proof fn fires_once_per_scan(
    fired: Map<Key, nat>,
    matches: Seq<MatchView>,
    now: nat,
    a: int,
    b: int,
)
    requires
        0 <= a < b < settled(fired, matches, now).fired.len(),
        settled(fired, matches, now).fired[b].cooldown_nanos > 0,
    ensures
        key_of(settled(fired, matches, now).fired[a]) != key_of(
            settled(fired, matches, now).fired[b],
        ),
    decreases matches.len(),
{
    let fewer = matches.drop_last();
    let before = settled(fired, fewer, now);
    if b < before.fired.len() {
        fires_once_per_scan(fired, fewer, now, a, b);
    } else {
        lemma_fired_is_noted(fired, fewer, now, a);
    }
}

/// A firing that is forgotten could not have held its rule back any more.
pub proof fn forgotten_firing_holds_nothing_back(
    fired: Map<Key, nat>,
    rules: Seq<RuleView>,
    now: nat,
    m: MatchView,
    later: nat,
)
    requires
        from_rules(m, rules),
        now <= later,
    ensures
        due(pruned(fired, rules, now), m, later) == due(fired, m, later),
{
    let k = key_of(m);
    if fired.contains_key(k) && !pruned(fired, rules, now).contains_key(k) {
        assert(!holds_back(rules, k.1, fired[k], now));
        let r = choose|r: int|
            0 <= r < rules.len() && (#[trigger] rules[r]).name == m.rule_name
                && rules[r].cooldown_nanos == m.cooldown_nanos;
        assert(elapsed(fired[k], now) >= rules[r].cooldown_nanos);
    }
}

spec fn forgets_only_the_spent(
    a: Map<Key, nat>,
    b: Map<Key, nat>,
    rules: Seq<RuleView>,
    now: nat,
) -> bool {
    &&& forall|k: Key| #[trigger] a.contains_key(k) ==> b.contains_key(k) && a[k] == b[k]
    &&& forall|k: Key| #[trigger]
        b.contains_key(k) && !a.contains_key(k) ==> !holds_back(rules, k.1, b[k], now)
}

/// Forgetting spent firings makes no difference to what fires.
pub proof fn forgetting_is_harmless(
    fired: Map<Key, nat>,
    rules: Seq<RuleView>,
    matches: Seq<MatchView>,
    now: nat,
)
    requires
        forall|i: int| 0 <= i < matches.len() ==> from_rules(#[trigger] matches[i], rules),
    ensures
        ticked(fired, rules, matches, now).fired == settled(fired, matches, now).fired,
{
    lemma_forgetting(fired, rules, matches, now);
}

proof fn lemma_forgetting(
    fired: Map<Key, nat>,
    rules: Seq<RuleView>,
    matches: Seq<MatchView>,
    now: nat,
)
    requires
        forall|i: int| 0 <= i < matches.len() ==> from_rules(#[trigger] matches[i], rules),
    ensures
        ticked(fired, rules, matches, now).fired == settled(fired, matches, now).fired,
        forgets_only_the_spent(
            ticked(fired, rules, matches, now).ledger,
            settled(fired, matches, now).ledger,
            rules,
            now,
        ),
    decreases matches.len(),
{
    if matches.len() > 0 {
        let fewer = matches.drop_last();
        assert forall|i: int| 0 <= i < fewer.len() implies from_rules(
            #[trigger] fewer[i],
            rules,
        ) by {
            assert(fewer[i] == matches[i]);
        }
        lemma_forgetting(fired, rules, fewer, now);
        let a = ticked(fired, rules, fewer, now);
        let b = settled(fired, fewer, now);
        let m = matches[matches.len() - 1];
        assert(m == matches.last());
        let k = key_of(m);
        assert(due(a.ledger, m, now) == due(b.ledger, m, now)) by {
            if b.ledger.contains_key(k) && !a.ledger.contains_key(k) {
                let r = choose|r: int|
                    0 <= r < rules.len() && (#[trigger] rules[r]).name == m.rule_name
                        && rules[r].cooldown_nanos == m.cooldown_nanos;
                assert(elapsed(b.ledger[k], now) >= rules[r].cooldown_nanos);
            }
        }
    }
}

/// The ledger stays bounded: after a scan it holds only firings of that
/// scan and firings that still hold their rule back.
pub proof fn ledger_holds_what_matters(
    fired: Map<Key, nat>,
    rules: Seq<RuleView>,
    matches: Seq<MatchView>,
    now: nat,
    k: Key,
)
    requires
        ticked(fired, rules, matches, now).ledger.contains_key(k),
    ensures
        ({
            let at = ticked(fired, rules, matches, now).ledger[k];
            at == now || holds_back(rules, k.1, at, now)
        }),
    decreases matches.len(),
{
    if matches.len() > 0 {
        let before = ticked(fired, rules, matches.drop_last(), now);
        if before.ledger.contains_key(k) {
            ledger_holds_what_matters(fired, rules, matches.drop_last(), now, k);
        }
    }
}

/// A scan: when it was, and what it matched.
pub struct Scan {
    pub now: nat,
    pub matches: Seq<MatchView>,
}

/// The ledger after a run of scans.
pub open spec fn ledger_after(
    start: Map<Key, nat>,
    rules: Seq<RuleView>,
    scans: Seq<Scan>,
) -> Map<Key, nat>
    decreases scans.len(),
{
    if scans.len() == 0 {
        start
    } else {
        let before = ledger_after(start, rules, scans.drop_last());
        ticked(before, rules, scans.last().matches, scans.last().now).ledger
    }
}

/// What fires in the scan at `i`.
pub open spec fn fired_in(
    start: Map<Key, nat>,
    rules: Seq<RuleView>,
    scans: Seq<Scan>,
    i: int,
) -> Seq<MatchView> {
    let before = ledger_after(start, rules, scans.take(i));
    ticked(before, rules, scans[i].matches, scans[i].now).fired
}

/// Whether none of the first `n` scans matched a session and rule.
pub open spec fn not_matched_before(scans: Seq<Scan>, n: int, k: Key) -> bool {
    forall|i: int, j: int|
        0 <= i < n && 0 <= j < scans[i].matches.len() ==> key_of(
            #[trigger] scans[i].matches[j],
        ) != k
}

/// A watchdog that starts with an empty ledger has no entry for a session
/// and rule that no scan has matched yet.
pub proof fn unmatched_has_no_entry(rules: Seq<RuleView>, scans: Seq<Scan>, n: int, k: Key)
    requires
        0 <= n <= scans.len(),
        not_matched_before(scans, n, k),
    ensures
        !ledger_after(Map::empty(), rules, scans.take(n)).contains_key(k),
    decreases n,
{
    if n > 0 {
        unmatched_has_no_entry(rules, scans, n - 1, k);
        let taken = scans.take(n);
        assert(taken.drop_last() == scans.take(n - 1));
        assert(taken.last() == scans[n - 1]);
        let before = ledger_after(Map::empty(), rules, scans.take(n - 1));
        lemma_other_keys_stay(
            pruned(before, rules, scans[n - 1].now),
            scans[n - 1].matches,
            scans[n - 1].now,
            k,
        );
    }
}

/// In a run of scans from an empty ledger, the first match of a rule for a
/// session fires in the scan that it comes up in.
pub proof fn first_match_of_a_run_fires(
    rules: Seq<RuleView>,
    scans: Seq<Scan>,
    i: int,
    j: int,
)
    requires
        0 <= i < scans.len(),
        0 <= j < scans[i].matches.len(),
        not_matched_before(scans, i, key_of(scans[i].matches[j])),
        forall|h: int|
            0 <= h < j ==> key_of(#[trigger] scans[i].matches[h]) != key_of(scans[i].matches[j]),
    ensures
        fired_in(Map::empty(), rules, scans, i).contains(scans[i].matches[j]),
{
    unmatched_has_no_entry(rules, scans, i, key_of(scans[i].matches[j]));
    let before = ledger_after(Map::empty(), rules, scans.take(i));
    first_match_fires(pruned(before, rules, scans[i].now), scans[i].matches, scans[i].now, j);
}

/// Whether later scans have later times.
pub open spec fn clock_advances(scans: Seq<Scan>) -> bool {
    forall|i: int, j: int|
        0 <= i <= j < scans.len() ==> (#[trigger] scans[i]).now <= (#[trigger] scans[j]).now
}

/// Either the ledger shows a firing not before `since`, or the cooldown
/// counted from then is over.
spec fn covered(ledger: Map<Key, nat>, k: Key, since: nat, cooldown: nat, now: nat) -> bool {
    ||| ledger.contains_key(k) && ledger[k] >= since
    ||| now >= since + cooldown
}

proof fn lemma_settling_keeps_later(
    fired: Map<Key, nat>,
    matches: Seq<MatchView>,
    now: nat,
    k: Key,
    since: nat,
)
    requires
        fired.contains_key(k),
        fired[k] >= since,
        now >= since,
    ensures
        settled(fired, matches, now).ledger.contains_key(k),
        settled(fired, matches, now).ledger[k] >= since,
    decreases matches.len(),
{
    if matches.len() > 0 {
        lemma_settling_keeps_later(fired, matches.drop_last(), now, k, since);
    }
}

proof fn lemma_scan_keeps_covered(
    ledger: Map<Key, nat>,
    rules: Seq<RuleView>,
    scan: Scan,
    r: int,
    k: Key,
    since: nat,
    now: nat,
)
    requires
        0 <= r < rules.len(),
        rules[r].name == k.1,
        since <= now <= scan.now,
        covered(ledger, k, since, rules[r].cooldown_nanos, now),
    ensures
        covered(
            ticked(ledger, rules, scan.matches, scan.now).ledger,
            k,
            since,
            rules[r].cooldown_nanos,
            scan.now,
        ),
{
    let left = pruned(ledger, rules, scan.now);
    if scan.now < since + rules[r].cooldown_nanos {
        assert(elapsed(ledger[k], scan.now) < rules[r].cooldown_nanos);
        assert(holds_back(rules, k.1, ledger[k], scan.now));
        assert(left.contains_key(k));
        lemma_settling_keeps_later(left, scan.matches, scan.now, k, since);
    }
}

proof fn lemma_covered_after(
    start: Map<Key, nat>,
    rules: Seq<RuleView>,
    scans: Seq<Scan>,
    i: int,
    a: int,
    n: int,
    r: int,
)
    requires
        clock_advances(scans),
        0 <= i < n <= scans.len(),
        0 <= a < fired_in(start, rules, scans, i).len(),
        0 <= r < rules.len(),
        rules[r].name == fired_in(start, rules, scans, i)[a].rule_name,
    ensures
        covered(
            ledger_after(start, rules, scans.take(n)),
            key_of(fired_in(start, rules, scans, i)[a]),
            scans[i].now,
            rules[r].cooldown_nanos,
            scans[n - 1].now,
        ),
    decreases n,
{
    let k = key_of(fired_in(start, rules, scans, i)[a]);
    let taken = scans.take(n);
    assert(taken.drop_last() == scans.take(n - 1));
    assert(taken.last() == scans[n - 1]);
    let before = ledger_after(start, rules, scans.take(n - 1));
    if n == i + 1 {
        lemma_fired_is_noted(
            pruned(before, rules, scans[i].now),
            scans[i].matches,
            scans[i].now,
            a,
        );
    } else {
        lemma_covered_after(start, rules, scans, i, a, n - 1, r);
        assert(scans[i].now <= scans[n - 2].now <= scans[n - 1].now);
        lemma_scan_keeps_covered(before, rules, scans[n - 1], r, k, scans[i].now, scans[n - 2].now);
    }
}

proof fn lemma_firing_waits(
    fired: Map<Key, nat>,
    matches: Seq<MatchView>,
    now: nat,
    b: int,
    since: nat,
)
    requires
        0 <= b < settled(fired, matches, now).fired.len(),
        fired.contains_key(key_of(settled(fired, matches, now).fired[b])),
        fired[key_of(settled(fired, matches, now).fired[b])] >= since,
        now >= since,
    ensures
        now - since >= settled(fired, matches, now).fired[b].cooldown_nanos,
    decreases matches.len(),
{
    let fewer = matches.drop_last();
    let before = settled(fired, fewer, now);
    if b < before.fired.len() {
        lemma_firing_waits(fired, fewer, now, b, since);
    } else {
        lemma_settling_keeps_later(fired, fewer, now, key_of(matches.last()), since);
    }
}

/// The cooldown is a floor: between two firings of a rule for one session,
/// in any run of scans, at least the rule's cooldown passes.
pub proof fn cooldown_is_a_floor(
    start: Map<Key, nat>,
    rules: Seq<RuleView>,
    scans: Seq<Scan>,
    i: int,
    a: int,
    j: int,
    b: int,
)
    requires
        clock_advances(scans),
        0 <= i < j < scans.len(),
        0 <= a < fired_in(start, rules, scans, i).len(),
        0 <= b < fired_in(start, rules, scans, j).len(),
        key_of(fired_in(start, rules, scans, i)[a]) == key_of(
            fired_in(start, rules, scans, j)[b],
        ),
        from_rules(fired_in(start, rules, scans, j)[b], rules),
    ensures
        scans[j].now - scans[i].now >= fired_in(start, rules, scans, j)[b].cooldown_nanos,
{
    let m = fired_in(start, rules, scans, j)[b];
    let k = key_of(m);
    let r = choose|r: int|
        0 <= r < rules.len() && (#[trigger] rules[r]).name == m.rule_name
            && rules[r].cooldown_nanos == m.cooldown_nanos;
    lemma_covered_after(start, rules, scans, i, a, j, r);
    assert(scans[i].now <= scans[j - 1].now <= scans[j].now);
    let ledger = ledger_after(start, rules, scans.take(j));
    let left = pruned(ledger, rules, scans[j].now);
    if scans[j - 1].now < scans[i].now + m.cooldown_nanos {
        if left.contains_key(k) {
            lemma_firing_waits(left, scans[j].matches, scans[j].now, b, scans[i].now);
        } else {
            assert(!holds_back(rules, k.1, ledger[k], scans[j].now));
            assert(elapsed(ledger[k], scans[j].now) >= rules[r].cooldown_nanos);
        }
    }
}

/// A match that is due when its scan begins fires, unless the same rule was
/// matched for the same session before it in the scan.
proof fn lemma_due_match_fires(
    fired: Map<Key, nat>,
    matches: Seq<MatchView>,
    now: nat,
    i: int,
)
    requires
        0 <= i < matches.len(),
        due(fired, matches[i], now),
        forall|j: int| 0 <= j < i ==> key_of(#[trigger] matches[j]) != key_of(matches[i]),
    ensures
        settled(fired, matches, now).fired.contains(matches[i]),
    decreases matches.len(),
{
    let fewer = matches.drop_last();
    let before = settled(fired, fewer, now);
    let end = settled(fired, matches, now);
    if i < matches.len() - 1 {
        assert forall|j: int| 0 <= j < i implies key_of(#[trigger] fewer[j]) != key_of(
            fewer[i],
        ) by {
            assert(fewer[j] == matches[j]);
        }
        lemma_due_match_fires(fired, fewer, now, i);
        let k = before.fired.index_of(matches[i]);
        assert(end.fired[k] == matches[i]);
    } else {
        lemma_other_keys_stay(fired, fewer, now, key_of(matches[i]));
        assert(end.fired[end.fired.len() - 1] == matches[i]);
    }
}

proof fn lemma_entry_has_an_origin(
    fired: Map<Key, nat>,
    matches: Seq<MatchView>,
    now: nat,
    k: Key,
)
    requires
        settled(fired, matches, now).ledger.contains_key(k),
    ensures
        ({
            let end = settled(fired, matches, now);
            ||| fired.contains_key(k) && end.ledger[k] == fired[k]
            ||| end.ledger[k] == now && exists|a: int|
                0 <= a < end.fired.len() && key_of(#[trigger] end.fired[a]) == k
        }),
    decreases matches.len(),
{
    if matches.len() > 0 {
        let fewer = matches.drop_last();
        let before = settled(fired, fewer, now);
        let end = settled(fired, matches, now);
        let m = matches.last();
        if due(before.ledger, m, now) && key_of(m) == k {
            assert(key_of(end.fired[end.fired.len() - 1]) == k);
        } else {
            lemma_entry_has_an_origin(fired, fewer, now, k);
            if !(fired.contains_key(k) && end.ledger[k] == fired[k]) {
                let a = choose|a: int|
                    0 <= a < before.fired.len() && key_of(#[trigger] before.fired[a]) == k;
                assert(end.fired[a] == before.fired[a]);
            }
        }
    }
}

proof fn lemma_entry_was_fired(rules: Seq<RuleView>, scans: Seq<Scan>, n: int, k: Key) -> (at: (
    int,
    int,
))
    requires
        0 <= n <= scans.len(),
        ledger_after(Map::empty(), rules, scans.take(n)).contains_key(k),
    ensures
        0 <= at.0 < n,
        0 <= at.1 < fired_in(Map::empty(), rules, scans, at.0).len(),
        key_of(fired_in(Map::empty(), rules, scans, at.0)[at.1]) == k,
        ledger_after(Map::empty(), rules, scans.take(n))[k] == scans[at.0].now,
    decreases n,
{
    if n == 0 {
        assert(scans.take(0).len() == 0);
        (0, 0)
    } else {
        let taken = scans.take(n);
        assert(taken.drop_last() == scans.take(n - 1));
        assert(taken.last() == scans[n - 1]);
        let scan = scans[n - 1];
        let before = ledger_after(Map::empty(), rules, scans.take(n - 1));
        let left = pruned(before, rules, scan.now);
        lemma_entry_has_an_origin(left, scan.matches, scan.now, k);
        let end = settled(left, scan.matches, scan.now);
        if left.contains_key(k) && end.ledger[k] == left[k] {
            assert(before.contains_key(k) && before[k] == left[k]);
            lemma_entry_was_fired(rules, scans, n - 1, k)
        } else {
            let a = choose|a: int|
                0 <= a < end.fired.len() && key_of(#[trigger] end.fired[a]) == k;
            (n - 1, a)
        }
    }
}

/// A rule fires again once its cooldown is over: in a run of scans from an
/// empty ledger, a match fires if at least its cooldown, however long, lies
/// between its scan and each earlier scan in which the same rule fired for
/// the same session, and it is the first of them in its own scan. Where they
/// never fired before, it fires at once. What other sessions and other rules
/// did makes no difference.
pub proof fn fires_again_once_the_cooldown_is_over(
    rules: Seq<RuleView>,
    scans: Seq<Scan>,
    j: int,
    h: int,
)
    requires
        0 <= j < scans.len(),
        0 <= h < scans[j].matches.len(),
        forall|g: int|
            0 <= g < h ==> {
                ||| (#[trigger] scans[j].matches[g]).session_id != scans[j].matches[h].session_id
                ||| scans[j].matches[g].rule_name != scans[j].matches[h].rule_name
            },
        forall|i: int, a: int|
            #![trigger fired_in(Map::empty(), rules, scans, i)[a]]
            0 <= i < j && 0 <= a < fired_in(Map::empty(), rules, scans, i).len() && fired_in(
                Map::empty(),
                rules,
                scans,
                i,
            )[a].session_id == scans[j].matches[h].session_id && fired_in(
                Map::empty(),
                rules,
                scans,
                i,
            )[a].rule_name == scans[j].matches[h].rule_name ==> scans[j].now - scans[i].now
                >= scans[j].matches[h].cooldown_nanos,
    ensures
        fired_in(Map::empty(), rules, scans, j).contains(scans[j].matches[h]),
{
    let m = scans[j].matches[h];
    let k = key_of(m);
    let now = scans[j].now;
    let before = ledger_after(Map::empty(), rules, scans.take(j));
    let left = pruned(before, rules, now);
    assert(due(left, m, now)) by {
        if left.contains_key(k) {
            let (i, a) = lemma_entry_was_fired(rules, scans, j, k);
            let old_firing = fired_in(Map::empty(), rules, scans, i)[a];
            assert(old_firing.session_id == m.session_id && old_firing.rule_name == m.rule_name);
            assert(left[k] == scans[i].now);
        }
    }
    assert forall|g: int| 0 <= g < h implies key_of(#[trigger] scans[j].matches[g]) != k by {
        let other = scans[j].matches[g];
        assert(other.session_id != m.session_id || other.rule_name != m.rule_name);
    }
    lemma_due_match_fires(left, scans[j].matches, now, h);
}

/// A repeat within the cooldown is skipped: in any run of scans, a match does
/// not fire if the same rule fired for the same session in an earlier scan
/// less than its cooldown ago, whatever the session is called by then.
pub proof fn repeat_within_the_cooldown_is_skipped(
    start: Map<Key, nat>,
    rules: Seq<RuleView>,
    scans: Seq<Scan>,
    i: int,
    a: int,
    j: int,
    m: MatchView,
)
    requires
        clock_advances(scans),
        0 <= i < j < scans.len(),
        0 <= a < fired_in(start, rules, scans, i).len(),
        fired_in(start, rules, scans, i)[a].session_id == m.session_id,
        fired_in(start, rules, scans, i)[a].rule_name == m.rule_name,
        scans[j].now - scans[i].now < m.cooldown_nanos,
        exists|r: int|
            0 <= r < rules.len() && (#[trigger] rules[r]).name == m.rule_name
                && rules[r].cooldown_nanos == m.cooldown_nanos,
    ensures
        !fired_in(start, rules, scans, j).contains(m),
{
    let late = fired_in(start, rules, scans, j);
    if late.contains(m) {
        let b = late.index_of(m);
        assert(late[b] == m);
        assert(key_of(fired_in(start, rules, scans, i)[a]) == key_of(late[b]));
        assert(from_rules(late[b], rules));
        cooldown_is_a_floor(start, rules, scans, i, a, j, b);
    }
}

/// Within one scan too: of two matches of the same rule for the same session,
/// not both fire, unless the later has no cooldown.
pub proof fn session_and_rule_fire_once_per_scan(
    fired: Map<Key, nat>,
    rules: Seq<RuleView>,
    matches: Seq<MatchView>,
    now: nat,
    a: int,
    b: int,
)
    requires
        0 <= a < b < ticked(fired, rules, matches, now).fired.len(),
        ticked(fired, rules, matches, now).fired[b].cooldown_nanos > 0,
    ensures
        ticked(fired, rules, matches, now).fired[a].session_id != ticked(
            fired,
            rules,
            matches,
            now,
        ).fired[b].session_id || ticked(fired, rules, matches, now).fired[a].rule_name != ticked(
            fired,
            rules,
            matches,
            now,
        ).fired[b].rule_name,
{
    fires_once_per_scan(pruned(fired, rules, now), matches, now, a, b);
}

/// What fires in a scan is some of its matches, in their order and none of
/// them twice. The places of those that fire are returned.
pub proof fn firings_keep_the_order_of_the_scan(
    fired: Map<Key, nat>,
    matches: Seq<MatchView>,
    now: nat,
) -> (places: Seq<int>)
    ensures
        places.len() == settled(fired, matches, now).fired.len(),
        forall|b: int|
            0 <= b < places.len() ==> 0 <= #[trigger] places[b] < matches.len() && settled(
                fired,
                matches,
                now,
            ).fired[b] == matches[places[b]],
        forall|a: int, b: int|
            0 <= a < b < places.len() ==> #[trigger] places[a] < #[trigger] places[b],
    decreases matches.len(),
{
    if matches.len() == 0 {
        Seq::empty()
    } else {
        let fewer = matches.drop_last();
        let before = settled(fired, fewer, now);
        let places = firings_keep_the_order_of_the_scan(fired, fewer, now);
        assert forall|b: int| 0 <= b < places.len() implies 0 <= #[trigger] places[b]
            < matches.len() && before.fired[b] == matches[places[b]] by {
            assert(fewer[places[b]] == matches[places[b]]);
        }
        if due(before.ledger, matches.last(), now) {
            places.push(matches.len() - 1)
        } else {
            places
        }
    }
}

/// Without a cooldown every match of a scan fires.
pub proof fn without_cooldown_all_fire(
    fired: Map<Key, nat>,
    rules: Seq<RuleView>,
    matches: Seq<MatchView>,
    now: nat,
)
    requires
        forall|i: int|
            0 <= i < matches.len() ==> (#[trigger] matches[i]).cooldown_nanos == 0,
    ensures
        ticked(fired, rules, matches, now).fired == matches,
    decreases matches.len(),
{
    if matches.len() == 0 {
        assert(ticked(fired, rules, matches, now).fired == matches);
    } else {
        let fewer = matches.drop_last();
        assert forall|i: int| 0 <= i < fewer.len() implies (#[trigger] fewer[i]).cooldown_nanos
            == 0 by {
            assert(fewer[i] == matches[i]);
        }
        without_cooldown_all_fire(fired, rules, fewer, now);
        assert(matches[matches.len() - 1].cooldown_nanos == 0);
        assert(fewer.push(matches.last()) == matches);
    }
}

/// After a scan every entry of the ledger is a firing of that scan, or one
/// that a rule of its name is still cooling down from: less than the rule's
/// cooldown has passed since.
pub proof fn ledger_holds_only_unspent_firings(
    fired: Map<Key, nat>,
    rules: Seq<RuleView>,
    matches: Seq<MatchView>,
    now: nat,
    k: Key,
)
    requires
        ticked(fired, rules, matches, now).ledger.contains_key(k),
    ensures
        ticked(fired, rules, matches, now).ledger[k] == now || exists|r: int|
            0 <= r < rules.len() && (#[trigger] rules[r]).name == k.1 && now - ticked(
                fired,
                rules,
                matches,
                now,
            ).ledger[k] < rules[r].cooldown_nanos,
{
    ledger_holds_what_matters(fired, rules, matches, now, k);
    let at = ticked(fired, rules, matches, now).ledger[k];
    if at != now {
        let r = choose|r: int|
            0 <= r < rules.len() && (#[trigger] rules[r]).name == k.1 && elapsed(at, now)
                < rules[r].cooldown_nanos;
        assert(now - at < rules[r].cooldown_nanos);
    }
}

/// Whether a match is due rests on one entry alone: that of its session and
/// rule. Without one it is due; with one it is due from the moment at which
/// its cooldown has passed, and always if it has none.
pub proof fn due_rests_on_the_last_firing(fired: Map<Key, nat>, m: MatchView, now: nat)
    ensures
        !fired.contains_key((m.session_id, m.rule_name)) ==> due(fired, m, now),
        fired.contains_key((m.session_id, m.rule_name)) && m.cooldown_nanos > 0 ==> (due(
            fired,
            m,
            now,
        ) <==> now - fired[(m.session_id, m.rule_name)] >= m.cooldown_nanos),
        m.cooldown_nanos == 0 ==> due(fired, m, now),
{
}

/// Pruning keeps the firings that a rule of their name is still cooling down
/// from, with their times, and forgets all others.
pub proof fn pruning_keeps_the_unspent(
    fired: Map<Key, nat>,
    rules: Seq<RuleView>,
    now: nat,
    k: Key,
)
    requires
        fired.contains_key(k),
        fired[k] <= now,
    ensures
        pruned(fired, rules, now).contains_key(k) <==> exists|r: int|
            0 <= r < rules.len() && (#[trigger] rules[r]).name == k.1 && now - fired[k]
                < rules[r].cooldown_nanos,
        pruned(fired, rules, now).contains_key(k) ==> pruned(fired, rules, now)[k] == fired[k],
{
    if pruned(fired, rules, now).contains_key(k) {
        assert(holds_back(rules, k.1, fired[k], now));
    }
    if exists|r: int|
        0 <= r < rules.len() && (#[trigger] rules[r]).name == k.1 && now - fired[k]
            < rules[r].cooldown_nanos {
        assert(holds_back(rules, k.1, fired[k], now));
    }
}

} // verus!
