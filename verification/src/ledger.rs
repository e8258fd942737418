//! Cooldowns: when each rule last fired for each session, and which matches
//! fire now.
//!
//! Times are nanoseconds since some fixed moment, such as the watchdog's
//! start. One clock reading serves a whole tick.

use crate::pane_rules::{rule_views, CompiledRule, RuleView};
use crate::pane_watchdog::{match_views, MatchView, PaneMatch};
use vstd::prelude::*;

verus! {

/// When a rule last fired for a session.
#[derive(Debug)]
struct Firing {
    session_id: String,
    rule_name: String,
    at: u128,
}

/// The last firings, by session and rule.
#[derive(Debug)]
pub struct Ledger {
    entries: Vec<Firing>,
}

/// A session id and a rule name.
pub type Key = (Seq<char>, Seq<char>);

/// The session and rule of a match.
pub open spec fn key_of(m: MatchView) -> Key {
    (m.session_id, m.rule_name)
}

/// The time from `at` to `now`; none if the clock went back.
pub open spec fn elapsed(at: nat, now: nat) -> nat {
    if now >= at {
        (now - at) as nat
    } else {
        0
    }
}

/// Whether a match may fire: its rule has not fired for its session, or not
/// within the cooldown.
pub open spec fn due(fired: Map<Key, nat>, m: MatchView, now: nat) -> bool {
    fired.contains_key(key_of(m)) ==> elapsed(fired[key_of(m)], now) >= m.cooldown_nanos
}

/// Whether a firing at `at` still holds back the rule of that name.
pub open spec fn holds_back(rules: Seq<RuleView>, name: Seq<char>, at: nat, now: nat) -> bool {
    exists|r: int|
        0 <= r < rules.len() && (#[trigger] rules[r]).name == name && elapsed(at, now)
            < rules[r].cooldown_nanos
}

/// The firings that still hold a rule back.
pub open spec fn pruned(fired: Map<Key, nat>, rules: Seq<RuleView>, now: nat) -> Map<Key, nat> {
    fired.restrict(
        Set::new(|k: Key| fired.contains_key(k) && holds_back(rules, k.1, fired[k], now)),
    )
}

/// Where a run of matches leaves the ledger, and which of them fire.
pub struct Settlement {
    pub ledger: Map<Key, nat>,
    pub fired: Seq<MatchView>,
}

/// Takes matches one by one: one that is due fires, and its time is noted;
/// the others are passed over.
pub open spec fn settled(fired: Map<Key, nat>, matches: Seq<MatchView>, now: nat) -> Settlement
    decreases matches.len(),
{
    if matches.len() == 0 {
        Settlement { ledger: fired, fired: Seq::empty() }
    } else {
        let before = settled(fired, matches.drop_last(), now);
        let m = matches.last();
        if due(before.ledger, m, now) {
            Settlement {
                ledger: before.ledger.insert(key_of(m), now),
                fired: before.fired.push(m),
            }
        } else {
            before
        }
    }
}

/// What a scan does: firings that hold nothing back are forgotten, and then
/// the matches are taken one by one.
pub open spec fn ticked(
    fired: Map<Key, nat>,
    rules: Seq<RuleView>,
    matches: Seq<MatchView>,
    now: nat,
) -> Settlement {
    settled(pruned(fired, rules, now), matches, now)
}

spec fn firing_key(f: Firing) -> Key {
    (f.session_id@, f.rule_name@)
}

spec fn distinct(entries: Seq<Firing>) -> bool {
    forall|i: int, j: int|
        0 <= i < j < entries.len() ==> firing_key(#[trigger] entries[i]) != firing_key(
            #[trigger] entries[j],
        )
}

spec fn entry_for(entries: Seq<Firing>, k: Key, i: int) -> bool {
    0 <= i < entries.len() && firing_key(entries[i]) == k
}

spec fn as_map(entries: Seq<Firing>) -> Map<Key, nat> {
    Map::new(
        |k: Key| exists|i: int| entry_for(entries, k, i),
        |k: Key| entries[choose|i: int| entry_for(entries, k, i)].at as nat,
    )
}

proof fn lemma_entry(entries: Seq<Firing>, i: int)
    requires
        distinct(entries),
        0 <= i < entries.len(),
    ensures
        as_map(entries).contains_key(firing_key(entries[i])),
        as_map(entries)[firing_key(entries[i])] == entries[i].at,
{
    let k = firing_key(entries[i]);
    assert(entry_for(entries, k, i));
    let j = choose|j: int| entry_for(entries, k, j);
    assert(entry_for(entries, k, j));
    assert(firing_key(entries[i]) == firing_key(entries[j]));
}

proof fn lemma_map_is(entries: Seq<Firing>, m: Map<Key, nat>)
    requires
        distinct(entries),
        forall|i: int|
            0 <= i < entries.len() ==> m.contains_key(firing_key(#[trigger] entries[i])) && m[
                firing_key(entries[i])
            ] == entries[i].at,
        forall|k: Key| #[trigger] m.contains_key(k) ==> exists|i: int| entry_for(entries, k, i),
    ensures
        as_map(entries) == m,
{
    let got = as_map(entries);
    assert forall|k: Key| #[trigger] got.contains_key(k) implies m.contains_key(k) && got[k]
        == m[k] by {
        let i = choose|i: int| entry_for(entries, k, i);
        lemma_entry(entries, i);
    }
    assert(got.dom() =~= m.dom());
    assert(got =~= m);
}

spec fn still_holds(f: Firing, rules: Seq<RuleView>, now: nat) -> bool {
    holds_back(rules, f.rule_name@, f.at as nat, now)
}

impl View for Ledger {
    type V = Map<Key, nat>;

    closed spec fn view(&self) -> Map<Key, nat> {
        as_map(self.entries@)
    }
}

impl Ledger {
    /// Every session and rule is entered once at most.
    pub closed spec fn wf(&self) -> bool {
        distinct(self.entries@)
    }

    /// A ledger without firings.
    pub fn new() -> (r: Self)
        ensures
            r.wf(),
            r@ == Map::<Key, nat>::empty(),
    {
        let r = Ledger { entries: Vec::new() };
        assert(r@ == Map::<Key, nat>::empty());
        r
    }

    /// The place of the entry of a session and rule.
    fn find(&self, session_id: &String, rule_name: &String) -> (r: Option<usize>)
        requires
            self.wf(),
        ensures
            match r {
                Some(i) => i < self.entries@.len() && firing_key(self.entries@[i as int]) == (
                    session_id@,
                    rule_name@,
                ) && self@.contains_key((session_id@, rule_name@)) && self@[(
                    session_id@,
                    rule_name@,
                )] == self.entries@[i as int].at,
                None => !self@.contains_key((session_id@, rule_name@)),
            },
    {
        let mut i: usize = 0;
        while i < self.entries.len()
            invariant
                self.wf(),
                i <= self.entries@.len(),
                forall|j: int|
                    0 <= j < i ==> firing_key(#[trigger] self.entries@[j]) != (
                        session_id@,
                        rule_name@,
                    ),
            decreases self.entries@.len() - i,
        {
            if self.entries[i].session_id == *session_id && self.entries[i].rule_name
                == *rule_name {
                proof {
                    lemma_entry(self.entries@, i as int);
                }
                return Some(i);
            }
            i = i + 1;
        }
        None
    }

    /// Decides [`due`].
    pub fn is_due(&self, m: &PaneMatch, now: u128) -> (r: bool)
        requires
            self.wf(),
        ensures
            r == due(self@, m@, now as nat),
    {
        match self.find(&m.session_id, &m.rule_name) {
            Some(i) => {
                let at: u128 = self.entries[i].at;
                let since: u128 = if now >= at {
                    now - at
                } else {
                    0
                };
                since >= m.cooldown.as_nanos()
            },
            None => true,
        }
    }

    /// Notes that a match fires now.
    pub fn record(&mut self, m: &PaneMatch, now: u128)
        requires
            old(self).wf(),
        ensures
            final(self).wf(),
            final(self)@ == old(self)@.insert(key_of(m@), now as nat),
    {
        let ghost before = self.entries@;
        let ghost k = key_of(m@);
        let ghost mut place: int = 0;
        let entry = Firing {
            session_id: m.session_id.clone(),
            rule_name: m.rule_name.clone(),
            at: now,
        };
        match self.find(&m.session_id, &m.rule_name) {
            Some(i) => {
                self.entries.set(i, entry);
                proof {
                    place = i as int;
                }
            },
            None => {
                assert forall|i: int| 0 <= i < before.len() implies firing_key(
                    #[trigger] before[i],
                ) != k by {
                    lemma_entry(before, i);
                }
                self.entries.push(entry);
                proof {
                    place = before.len() as int;
                }
            },
        }
        proof {
            let after = self.entries@;
            assert(distinct(after));
            let want = as_map(before).insert(k, now as nat);
            assert forall|i: int| 0 <= i < after.len() implies want.contains_key(
                firing_key(#[trigger] after[i]),
            ) && want[firing_key(after[i])] == after[i].at by {
                if i != place {
                    assert(after[i] == before[i]);
                    lemma_entry(before, i);
                    assert(firing_key(after[i]) != k);
                }
            }
            assert forall|j: Key| #[trigger] want.contains_key(j) implies exists|i: int|
                entry_for(after, j, i) by {
                if j == k {
                    assert(entry_for(after, j, place));
                } else {
                    let i = choose|i: int| entry_for(before, j, i);
                    assert(entry_for(after, j, i));
                }
            }
            lemma_map_is(after, want);
        }
    }

    /// Whether an entry still holds its rule back.
    fn is_live(entry: &Firing, rules: &[CompiledRule], now: u128) -> (r: bool)
        ensures
            r == holds_back(rule_views(rules@), entry.rule_name@, entry.at as nat, now as nat),
    {
        let since: u128 = if now >= entry.at {
            now - entry.at
        } else {
            0
        };
        let ghost views = rule_views(rules@);
        let mut i: usize = 0;
        while i < rules.len()
            invariant
                i <= rules@.len(),
                views == rule_views(rules@),
                since == elapsed(entry.at as nat, now as nat),
                forall|j: int|
                    0 <= j < i ==> !((#[trigger] views[j]).name == entry.rule_name@ && since
                        < views[j].cooldown_nanos),
            decreases rules@.len() - i,
        {
            assert(views[i as int] == rules@[i as int]@);
            if rules[i].name == entry.rule_name && since < rules[i].cooldown.as_nanos() {
                return true;
            }
            i = i + 1;
        }
        false
    }

    /// Forgets the firings that hold nothing back any more, so the ledger
    /// stays bounded across session churn.
    pub fn prune(&mut self, rules: &[CompiledRule], now: u128)
        requires
            old(self).wf(),
        ensures
            final(self).wf(),
            final(self)@ == pruned(old(self)@, rule_views(rules@), now as nat),
    {
        let ghost before = self.entries@;
        let ghost views = rule_views(rules@);
        let mut kept: Vec<Firing> = Vec::new();
        let mut left: usize = self.entries.len();
        while left > 0
            invariant
                left == self.entries@.len(),
                left <= before.len(),
                self.entries@ == before.take(left as int),
                distinct(before),
                distinct(kept@),
                views == rule_views(rules@),
                forall|j: int|
                    0 <= j < kept@.len() ==> still_holds(#[trigger] kept@[j], views, now as nat)
                        && before.skip(left as int).contains(kept@[j]),
                forall|i: int|
                    left <= i < before.len() && still_holds(
                        #[trigger] before[i],
                        views,
                        now as nat,
                    ) ==> kept@.contains(before[i]),
            decreases left,
        {
            let ghost kept_before = kept@;
            let ghost tail = before.skip(left as int);
            let ghost wider = before.skip(left - 1);
            let entry = self.entries.pop().unwrap();
            assert(entry == before[left - 1]);
            assert forall|f: Firing| tail.contains(f) implies wider.contains(f) by {
                let i = tail.index_of(f);
                assert(wider[i + 1] == f);
            }
            assert(wider[0] == entry);
            if Self::is_live(&entry, rules, now) {
                kept.push(entry);
                proof {
                    assert forall|j: int| 0 <= j < kept_before.len() implies firing_key(
                        #[trigger] kept_before[j],
                    ) != firing_key(entry) by {
                        let i = tail.index_of(kept_before[j]);
                        assert(before[left + i] == kept_before[j]);
                    }
                    assert forall|f: Firing| kept_before.contains(f) implies kept@.contains(f) by {
                        let i = kept_before.index_of(f);
                        assert(kept@[i] == f);
                    }
                    assert(kept@[kept_before.len() as int] == entry);
                }
            }
            assert forall|j: int| 0 <= j < kept@.len() implies still_holds(
                #[trigger] kept@[j],
                views,
                now as nat,
            ) && wider.contains(kept@[j]) by {
                if j < kept_before.len() {
                    assert(kept@[j] == kept_before[j]);
                } else {
                    assert(wider.contains(entry));
                }
            }
            left = left - 1;
        }
        self.entries = kept;
        proof {
            let after = self.entries@;
            let want = pruned(as_map(before), views, now as nat);
            assert(before.skip(0) == before);
            assert forall|i: int| 0 <= i < after.len() implies want.contains_key(
                firing_key(#[trigger] after[i]),
            ) && want[firing_key(after[i])] == after[i].at by {
                assert(still_holds(after[i], views, now as nat));
                lemma_entry(before, before.index_of(after[i]));
            }
            assert forall|j: Key| #[trigger] want.contains_key(j) implies exists|i: int|
                entry_for(after, j, i) by {
                let b = choose|i: int| entry_for(before, j, i);
                lemma_entry(before, b);
                assert(still_holds(before[b], views, now as nat));
                assert(entry_for(after, j, after.index_of(before[b])));
            }
            lemma_map_is(after, want);
        }
    }

    /// What a scan leads to. `scan` holds its matches, or nothing if the
    /// scan itself failed; then nothing changes. Returns the matches that
    /// fire, in order.
    pub fn tick(
        &mut self,
        rules: &[CompiledRule],
        scan: Option<Vec<PaneMatch>>,
        now: u128,
    ) -> (r: Vec<PaneMatch>)
        requires
            old(self).wf(),
        ensures
            final(self).wf(),
            match scan {
                Some(matches) => {
                    let end = ticked(
                        old(self)@,
                        rule_views(rules@),
                        match_views(matches@),
                        now as nat,
                    );
                    final(self)@ == end.ledger && match_views(r@) == end.fired
                },
                None => final(self)@ == old(self)@ && r@.len() == 0,
            },
    {
        let mut fired: Vec<PaneMatch> = Vec::new();
        let matches = match scan {
            Some(matches) => matches,
            None => {
                return fired;
            },
        };
        self.prune(rules, now);
        let ghost start = self@;
        let ghost views = match_views(matches@);
        let ghost all = matches@;
        for m in it: matches
            invariant
                it.seq() == all,
                views == match_views(all),
                self.wf(),
                self@ == settled(start, views.take(it.index()), now as nat).ledger,
                match_views(fired@) == settled(start, views.take(it.index()), now as nat).fired,
        {
            let ghost n = it.index();
            let ghost so_far = fired@;
            assert(views.take(n + 1).drop_last() == views.take(n));
            assert(views.take(n + 1).last() == m@);
            if self.is_due(&m, now) {
                self.record(&m, now);
                fired.push(m);
                assert(match_views(fired@) == match_views(so_far).push(m@));
            }
        }
        assert(views.take(views.len() as int) == views);
        fired
    }
}

} // verus!
