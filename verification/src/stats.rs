use vstd::prelude::*;

use crate::types::PLAYER_COUNT;

verus! {

/// Counters over simulated games.
#[derive(Clone, Debug)]
pub struct Stats {
    pub games: u64,
    pub turns: u64,
    pub wins: [u64; PLAYER_COUNT],
    pub illegal_actions: u64,
}

impl Default for Stats {
    fn default() -> (stats: Self)
        ensures
            stats.games == 0,
            stats.turns == 0,
            forall|p: int| 0 <= p < PLAYER_COUNT ==> #[trigger] stats.wins@[p] == 0,
            stats.illegal_actions == 0,
    {
        Stats { games: 0, turns: 0, wins: [0; PLAYER_COUNT], illegal_actions: 0 }
    }
}

/// The counter `c` of a stats value: 0 games, 1 turns, 2 illegal actions, 3 to 6 the wins by seat.
pub open spec fn counter(s: Stats, c: int) -> int {
    if c == 0 {
        s.games as int
    } else if c == 1 {
        s.turns as int
    } else if c == 2 {
        s.illegal_actions as int
    } else {
        s.wins@[c - 3] as int
    }
}

/// The number of counters in a stats value.
pub const COUNTERS: usize = 7;

impl Stats {
    /// Adding `other` keeps every counter within range.
    pub open spec fn can_merge(&self, other: &Stats) -> bool {
        forall|c: int| 0 <= c < COUNTERS ==> #[trigger] counter(*self, c) + counter(*other, c) <= u64::MAX
    }

    pub fn merge(&mut self, other: &Stats)
        requires
            old(self).can_merge(other),
        ensures
            forall|c: int| 0 <= c < COUNTERS ==> #[trigger] counter(*final(self), c) == counter(*old(self), c) + counter(*other, c),
    {
        proof {
            assert(counter(*self, 0) + counter(*other, 0) <= u64::MAX);
            assert(counter(*self, 1) + counter(*other, 1) <= u64::MAX);
            assert(counter(*self, 2) + counter(*other, 2) <= u64::MAX);
            assert(counter(*self, 3) + counter(*other, 3) <= u64::MAX);
            assert(counter(*self, 4) + counter(*other, 4) <= u64::MAX);
            assert(counter(*self, 5) + counter(*other, 5) <= u64::MAX);
            assert(counter(*self, 6) + counter(*other, 6) <= u64::MAX);
        }
        self.games = self.games + other.games;
        self.turns = self.turns + other.turns;
        self.illegal_actions = self.illegal_actions + other.illegal_actions;
        let mut i: usize = 0;
        while i < PLAYER_COUNT
            invariant
                i <= PLAYER_COUNT,
                self.games == old(self).games + other.games,
                self.turns == old(self).turns + other.turns,
                self.illegal_actions == old(self).illegal_actions + other.illegal_actions,
                forall|p: int| 0 <= p < PLAYER_COUNT ==> old(self).wins@[p] + other.wins@[p] <= u64::MAX,
                forall|p: int| 0 <= p < PLAYER_COUNT ==> #[trigger] self.wins@[p] == old(self).wins@[p] + if p < i {
                    other.wins@[p] as int
                } else {
                    0
                },
            decreases PLAYER_COUNT - i,
        {
            proof {
                assert(counter(*old(self), 3 + i) + counter(*other, 3 + i) <= u64::MAX);
            }
            self.wins[i] = self.wins[i] + other.wins[i];
            i = i + 1;
        }
        proof {
            assert forall|c: int| 0 <= c < COUNTERS implies #[trigger] counter(*self, c) == counter(*old(self), c) + counter(*other, c) by {
                if c >= 3 {
                    assert(self.wins@[c - 3] == old(self).wins@[c - 3] + other.wins@[c - 3]);
                }
            }
        }
    }
}

/// The sum of counter `c` over a list of workers' stats.
pub open spec fn total(workers: Seq<(u64, Stats)>, c: int) -> int
    decreases workers.len(),
{
    if workers.len() == 0 {
        0
    } else {
        total(workers.drop_last(), c) + counter(workers.last().1, c)
    }
}

proof fn lemma_total_nonneg(workers: Seq<(u64, Stats)>, c: int)
    requires
        0 <= c < COUNTERS,
    ensures
        total(workers, c) >= 0,
    decreases workers.len(),
{
    if workers.len() > 0 {
        lemma_total_nonneg(workers.drop_last(), c);
    }
}

proof fn lemma_total_add(a: Seq<(u64, Stats)>, b: Seq<(u64, Stats)>, c: int)
    ensures
        total(a + b, c) == total(a, c) + total(b, c),
    decreases b.len(),
{
    if b.len() == 0 {
        assert(a + b =~= a);
    } else {
        assert((a + b).drop_last() =~= a + b.drop_last());
        lemma_total_add(a, b.drop_last(), c);
    }
}

proof fn lemma_total_insert(s: Seq<(u64, Stats)>, i: int, x: (u64, Stats), c: int)
    requires
        0 <= i <= s.len(),
    ensures
        total(s.insert(i, x), c) == total(s, c) + counter(x.1, c),
{
    let pre = s.subrange(0, i);
    let post = s.subrange(i, s.len() as int);
    assert(s =~= pre + post);
    assert(s.insert(i, x) =~= pre.push(x) + post);
    lemma_total_add(pre, post, c);
    lemma_total_add(pre.push(x), post, c);
    assert(pre.push(x).drop_last() =~= pre);
}

proof fn lemma_total_prefix(s: Seq<(u64, Stats)>, n: int, c: int)
    requires
        0 <= n <= s.len(),
        0 <= c < COUNTERS,
    ensures
        total(s.subrange(0, n), c) <= total(s, c),
{
    lemma_total_add(s.subrange(0, n), s.subrange(n, s.len() as int), c);
    assert(s.subrange(0, n) + s.subrange(n, s.len() as int) =~= s);
    lemma_total_nonneg(s.subrange(n, s.len() as int), c);
}

/// Entries appear in order of their worker id.
pub open spec fn sorted_by_worker(s: Seq<(u64, Stats)>) -> bool {
    forall|i: int, j: int| 0 <= i < j < s.len() ==> s[i].0 <= s[j].0
}

/// Merges the workers' stats in order of worker id. Every counter of the result is the sum over the workers.
pub fn merge_worker_stats(workers: Vec<(u64, Stats)>) -> (merged: Stats)
    requires
        forall|c: int| 0 <= c < COUNTERS ==> #[trigger] total(workers@, c) <= u64::MAX,
    ensures
        forall|c: int| 0 <= c < COUNTERS ==> #[trigger] counter(merged, c) == total(workers@, c),
{
    let mut rest = workers;
    let ghost given = rest@;
    let mut sorted: Vec<(u64, Stats)> = Vec::new();
    while rest.len() > 0
        invariant
            sorted_by_worker(sorted@),
            forall|c: int| 0 <= c < COUNTERS ==> #[trigger] total(sorted@, c) + total(rest@, c) == total(given, c),
        decreases rest.len(),
    {
        let ghost before_rest = rest@;
        let ghost before_sorted = sorted@;
        let item = rest.remove(0);
        proof {
            assert(before_rest =~= seq![item] + rest@);
        }
        let key = item.0;
        let mut pos: usize = 0;
        while pos < sorted.len() && sorted[pos].0 <= key
            invariant
                pos <= sorted@.len(),
                forall|k: int| 0 <= k < pos ==> #[trigger] sorted@[k].0 <= key,
            decreases sorted@.len() - pos,
        {
            pos = pos + 1;
        }
        sorted.insert(pos, item);
        proof {
            assert forall|c: int| 0 <= c < COUNTERS implies #[trigger] total(sorted@, c) + total(rest@, c) == total(given, c) by {
                lemma_total_insert(before_sorted, pos as int, item, c);
                lemma_total_add(seq![item], rest@, c);
                assert(seq![item].drop_last() =~= Seq::<(u64, Stats)>::empty());
                assert(seq![item].last() == item);
                assert(total(Seq::<(u64, Stats)>::empty(), c) == 0);
                assert(total(seq![item], c) == counter(item.1, c));
                assert(total(before_rest, c) == total(seq![item], c) + total(rest@, c));
                assert(sorted@ == before_sorted.insert(pos as int, item));
            }
            assert forall|i: int, j: int| 0 <= i < j < sorted@.len() implies sorted@[i].0 <= sorted@[j].0 by {
                if j == pos {
                    assert(before_sorted[i].0 <= key);
                } else if i == pos {
                    if pos < before_sorted.len() {
                        assert(!(before_sorted[pos as int].0 <= key));
                    }
                }
            }
        }
    }
    proof {
        assert(rest@ =~= Seq::<(u64, Stats)>::empty());
    }
    let mut merged = Stats::default();
    let mut i: usize = 0;
    while i < sorted.len()
        invariant
            i <= sorted@.len(),
            forall|c: int| 0 <= c < COUNTERS ==> #[trigger] total(sorted@, c) == total(given, c),
            forall|c: int| 0 <= c < COUNTERS ==> #[trigger] total(given, c) <= u64::MAX,
            forall|c: int| 0 <= c < COUNTERS ==> #[trigger] counter(merged, c) == total(sorted@.subrange(0, i as int), c),
        decreases sorted@.len() - i,
    {
        proof {
            assert(sorted@.subrange(0, i + 1).drop_last() =~= sorted@.subrange(0, i as int));
            assert forall|c: int| 0 <= c < COUNTERS implies #[trigger] counter(merged, c) + counter(sorted@[i as int].1, c) <= u64::MAX by {
                lemma_total_prefix(sorted@, i + 1, c);
            }
        }
        merged.merge(&sorted[i].1);
        i = i + 1;
    }
    proof {
        assert(sorted@.subrange(0, sorted@.len() as int) =~= sorted@);
    }
    merged
}

/// Merging does not depend on the order the workers arrive in: the same entries in any order give the same
/// sum for every counter, and so the same merged stats.
pub proof fn lemma_merge_order_independent(a: Seq<(u64, Stats)>, b: Seq<(u64, Stats)>, c: int)
    requires
        a.to_multiset() == b.to_multiset(),
    ensures
        total(a, c) == total(b, c),
    decreases a.len(),
{
    broadcast use vstd::seq_lib::to_multiset_len, vstd::seq_lib::to_multiset_contains;

    if a.len() == 0 {
        assert(b.to_multiset().len() == 0);
        assert(b.len() == 0);
    } else {
        let x = a.last();
        let rest = a.drop_last();
        assert(a.contains(x)) by {
            assert(a[a.len() - 1] == x);
        }
        assert(b.to_multiset().count(x) > 0);
        assert(b.contains(x));
        let i = choose|i: int| 0 <= i < b.len() && b[i] == x;
        assert(a.remove(a.len() - 1) =~= rest);
        vstd::seq_lib::to_multiset_remove(a, a.len() - 1);
        vstd::seq_lib::to_multiset_remove(b, i);
        lemma_merge_order_independent(rest, b.remove(i), c);
        assert(b.remove(i).insert(i, x) =~= b);
        lemma_total_insert(b.remove(i), i, x, c);
    }
}

} // verus!
