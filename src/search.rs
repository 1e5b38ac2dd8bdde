//! The decisions of the search: its settings, one worker's step, and the
//! table of progress counts. Threads, the channel and the console belong to
//! the caller.

use vstd::prelude::*;
use crate::digits::{is_sorted_copy, sorted_digits};
use crate::enumerator::{advanced, all_allowed, best_next, is_allowed};
use crate::persistence::{capped, steps_within};

verus! {

/// The number of slots of the progress table, one per decimal digit.
pub const SLOTS: usize = 10;

/// The settings of a search.
pub struct SearchConfig {
    /// One worker for each of these starting digits.
    pub seeds: Vec<u8>,
    /// The length of the first candidate of every worker.
    pub min_len: usize,
    /// The persistence to beat.
    pub record: u64,
}

impl SearchConfig {
    /// Workers start at 3, 4, 6, 7, 8 and 9, with 20 000 digits, and look
    /// for a persistence above 11.
    pub fn standard() -> (r: SearchConfig)
        ensures
            r.seeds@ == seq![3u8, 4, 6, 7, 8, 9],
            r.min_len == 20_000,
            r.record == 11,
    {
        SearchConfig { seeds: vec![3u8, 4, 6, 7, 8, 9], min_len: 20_000, record: 11 }
    }
}

/// One worker: its starting digit, its current candidate and how many
/// candidates it has moved past.
pub struct Worker {
    pub id: u8,
    pub num: Vec<u8>,
    pub count: u128,
}

/// What a worker does after the persistence of its candidate is known.
pub enum Action {
    /// The candidate beats the record; the worker stops. Its digits come in
    /// ascending order, as they are shown.
    Found { digits: Vec<u8>, steps: u64 },
    /// The worker moved on to the next candidate; `count` is its new total.
    Progress { id: u8, count: u128 },
}

impl Worker {
    /// A worker whose first candidate is `len` copies of `seed`.
    pub fn new(seed: u8, len: usize) -> (r: Worker)
        ensures
            r.id == seed,
            r.num@ == Seq::new(len as nat, |k: int| seed),
            r.count == 0,
            is_allowed(seed) && len >= 1 ==> r.valid(),
    {
        let mut num: Vec<u8> = Vec::new();
        let mut k: usize = 0;
        while k < len
            invariant
                k <= len,
                num@ == Seq::new(k as nat, |m: int| seed),
            decreases len - k,
        {
            num.push(seed);
            k = k + 1;
            assert(num@ =~= Seq::new(k as nat, |m: int| seed));
        }
        let r = Worker { id: seed, num, count: 0 };
        assert(is_allowed(seed) && len >= 1 ==> all_allowed(r.num@));
        r
    }

    /// The candidate is not empty and made of allowed digits.
    pub open spec fn valid(&self) -> bool {
        &&& self.num@.len() >= 1
        &&& all_allowed(self.num@)
    }

    /// Decides on the current candidate, whose persistence is `steps`: when
    /// it beats `record` the candidate's digits are reported, sorted, and the
    /// candidate is kept; otherwise the
    /// worker moves to the next candidate and reports its new count.
    pub fn decide(&mut self, steps: u64, record: u64) -> (r: Action)
        requires
            old(self).valid(),
            old(self).count < u128::MAX,
        ensures
            final(self).valid(),
            final(self).id == old(self).id,
            steps > record ==> (r matches Action::Found { digits, steps: s } && is_sorted_copy(
                digits@,
                old(self).num@,
            ) && s == steps) && final(self).num@ == old(self).num@ && final(self).count == old(
                self,
            ).count,
            steps <= record ==> (r matches Action::Progress { id, count } && id == old(self).id
                && count == old(self).count + 1) && advanced(old(self).num@, 0, final(self).num@)
                && final(self).count == old(self).count + 1,
    {
        if steps > record {
            assert forall|k: int| 0 <= k < self.num@.len() implies self.num@[k] <= 9 by {
                assert(is_allowed(self.num@[k]));
            }
            return Action::Found { digits: sorted_digits(&self.num), steps };
        }
        best_next(&mut self.num, 0);
        self.count = self.count + 1;
        Action::Progress { id: self.id, count: self.count }
    }

    /// One round of the worker: the persistence of its candidate, counted up
    /// to `u64::MAX`, and then the decision of `decide`.
    pub fn step(&mut self, record: u64) -> (r: Action)
        requires
            old(self).valid(),
            old(self).count < u128::MAX,
        ensures
            final(self).valid(),
            final(self).id == old(self).id,
            capped(old(self).num@, u64::MAX) > record ==> (r matches Action::Found {
                digits,
                steps,
            } && is_sorted_copy(digits@, old(self).num@) && steps == capped(old(self).num@, u64::MAX))
                && final(self).num@ == old(self).num@ && final(self).count == old(self).count,
            capped(old(self).num@, u64::MAX) <= record ==> (r matches Action::Progress { id, count }
                && id == old(self).id && count == old(self).count + 1) && advanced(
                old(self).num@,
                0,
                final(self).num@,
            ) && final(self).count == old(self).count + 1,
    {
        assert forall|k: int| 0 <= k < self.num@.len() implies self.num@[k] <= 9 by {
            assert(is_allowed(self.num@[k]));
        }
        let steps = steps_within(&self.num, u64::MAX);
        self.decide(steps, record)
    }
}

/// The latest count of each worker, by starting digit.
pub struct ProgressTable {
    pub counts: Vec<u128>,
}

/// The table after the progress messages `msgs`, in the order received,
/// starting from all zeros.
pub open spec fn table_after(msgs: Seq<(u8, u128)>) -> Seq<u128>
    decreases msgs.len(),
{
    if msgs.len() == 0 {
        Seq::new(SLOTS as nat, |k: int| 0u128)
    } else {
        let m = msgs.last();
        let t = table_after(msgs.drop_last());
        if (m.0 as int) < t.len() {
            t.update(m.0 as int, m.1)
        } else {
            t
        }
    }
}

/// After any run of messages a slot that no message named is zero, and a
/// named slot holds the count of the last message that named it.
pub proof fn lemma_table_after(msgs: Seq<(u8, u128)>, slot: int)
    requires
        0 <= slot < SLOTS,
    ensures
        table_after(msgs).len() == SLOTS,
        (forall|k: int| 0 <= k < msgs.len() ==> msgs[k].0 as int != slot) ==> table_after(msgs)[slot]
            == 0,
        forall|k: int|
            0 <= k < msgs.len() && msgs[k].0 as int == slot && (forall|m: int|
                k < m < msgs.len() ==> msgs[m].0 as int != slot) ==> table_after(msgs)[slot]
                == msgs[k].1,
    decreases msgs.len(),
{
    if msgs.len() > 0 {
        let init = msgs.drop_last();
        lemma_table_after(init, slot);
        assert forall|k: int|
            0 <= k < msgs.len() && msgs[k].0 as int == slot && (forall|m: int|
                k < m < msgs.len() ==> msgs[m].0 as int != slot) implies table_after(msgs)[slot]
            == msgs[k].1 by {
            if k < msgs.len() - 1 {
                assert(msgs[msgs.len() - 1].0 as int != slot);
                assert(init[k] == msgs[k]);
                assert forall|m: int| k < m < init.len() implies init[m].0 as int != slot by {
                    assert(init[m] == msgs[m]);
                }
            }
        }
        if forall|k: int| 0 <= k < msgs.len() ==> msgs[k].0 as int != slot {
            assert forall|k: int| 0 <= k < init.len() implies init[k].0 as int != slot by {
                assert(init[k] == msgs[k]);
            }
        }
    }
}

/// Each worker's counts rise along its own stream of messages, however
/// the streams are interleaved.
pub open spec fn counts_rise(msgs: Seq<(u8, u128)>) -> bool {
    forall|a: int, b: int|
        0 <= a < b < msgs.len() && msgs[a].0 == msgs[b].0 ==> msgs[a].1 < msgs[b].1
}

proof fn lemma_table_len(msgs: Seq<(u8, u128)>)
    ensures
        table_after(msgs).len() == SLOTS,
    decreases msgs.len(),
{
    if msgs.len() > 0 {
        lemma_table_len(msgs.drop_last());
    }
}

proof fn lemma_table_holds_a_sent_count(msgs: Seq<(u8, u128)>, slot: int)
    requires
        0 <= slot < SLOTS,
        counts_rise(msgs),
    ensures
        table_after(msgs).len() == SLOTS,
        forall|k: int| 0 <= k < msgs.len() && msgs[k].0 as int == slot ==> msgs[k].1 <= table_after(msgs)[slot],
        table_after(msgs)[slot] == 0 || exists|k: int|
            0 <= k < msgs.len() && msgs[k].0 as int == slot && msgs[k].1 == table_after(msgs)[slot],
    decreases msgs.len(),
{
    lemma_table_len(msgs);
    if msgs.len() > 0 {
        let init = msgs.drop_last();
        let n = msgs.len() - 1;
        lemma_table_len(init);
        assert(counts_rise(init)) by {
            assert forall|a: int, b: int|
                0 <= a < b < init.len() && init[a].0 == init[b].0 implies init[a].1 < init[b].1 by {
                assert(init[a] == msgs[a] && init[b] == msgs[b]);
            }
        }
        lemma_table_holds_a_sent_count(init, slot);
        if msgs[n].0 as int == slot {
            assert(table_after(msgs)[slot] == msgs[n].1);
            assert forall|k: int| 0 <= k < msgs.len() && msgs[k].0 as int == slot implies msgs[k].1
                <= table_after(msgs)[slot] by {
                if k < n {
                    assert(msgs[k].1 < msgs[n].1);
                }
            }
        } else {
            assert(table_after(msgs)[slot] == table_after(init)[slot]);
            assert forall|k: int| 0 <= k < msgs.len() && msgs[k].0 as int == slot implies msgs[k].1
                <= table_after(msgs)[slot] by {
                if k < n {
                    assert(init[k] == msgs[k]);
                }
            }
            if table_after(init)[slot] != 0 {
                let k = choose|k: int|
                    0 <= k < init.len() && init[k].0 as int == slot && init[k].1 == table_after(
                        init,
                    )[slot];
                assert(msgs[k] == init[k]);
            }
        }
    }
}

/// While messages come in, each worker's counts rising in its own stream,
/// no slot of the table ever goes down.
pub proof fn lemma_table_never_decreases(msgs: Seq<(u8, u128)>, slot: int)
    requires
        0 <= slot < SLOTS,
        counts_rise(msgs),
    ensures
        forall|n: int| 0 <= n <= msgs.len() ==> table_after(#[trigger] msgs.take(n))[slot] <= table_after(
            msgs,
        )[slot],
    decreases msgs.len(),
{
    if msgs.len() > 0 {
        let init = msgs.drop_last();
        let last = msgs.len() - 1;
        assert forall|a: int, b: int|
            0 <= a < b < init.len() && init[a].0 == init[b].0 implies init[a].1 < init[b].1 by {
            assert(init[a] == msgs[a] && init[b] == msgs[b]);
        }
        lemma_table_never_decreases(init, slot);
        lemma_table_holds_a_sent_count(init, slot);
        lemma_table_len(init);
        // the last message leaves the slot at least where it was
        assert(table_after(init)[slot] <= table_after(msgs)[slot]) by {
            if msgs[last].0 as int == slot && table_after(init)[slot] != 0 {
                let k = choose|k: int|
                    0 <= k < init.len() && init[k].0 as int == slot && init[k].1 == table_after(
                        init,
                    )[slot];
                assert(msgs[k] == init[k]);
            }
        }
        assert forall|n: int| 0 <= n <= msgs.len() implies table_after(#[trigger] msgs.take(n))[slot]
            <= table_after(msgs)[slot] by {
            if n < msgs.len() {
                assert(msgs.take(n) =~= init.take(n));
            } else {
                assert(msgs.take(n) =~= msgs);
            }
        }
    }
}

impl ProgressTable {
    /// A table with a zero in every slot.
    pub fn new() -> (r: ProgressTable)
        ensures
            r.counts@ == table_after(Seq::empty()),
    {
        let mut counts: Vec<u128> = Vec::new();
        let mut k: usize = 0;
        while k < SLOTS
            invariant
                k <= SLOTS,
                counts@ == Seq::new(k as nat, |m: int| 0u128),
            decreases SLOTS - k,
        {
            counts.push(0);
            k = k + 1;
            assert(counts@ =~= Seq::new(k as nat, |m: int| 0u128));
        }
        assert(counts@ =~= table_after(Seq::empty()));
        ProgressTable { counts }
    }

    /// Takes in one progress message: the slot of worker `id` now holds
    /// `count`; an `id` without a slot changes nothing.
    pub fn record(&mut self, id: u8, count: u128)
        ensures
            final(self).counts@ == if (id as int) < old(self).counts@.len() {
                old(self).counts@.update(id as int, count)
            } else {
                old(self).counts@
            },
            forall|msgs: Seq<(u8, u128)>|
                old(self).counts@ == table_after(msgs) ==> final(self).counts@ == table_after(
                    #[trigger] msgs.push((id, count)),
                ),
    {
        if (id as usize) < self.counts.len() {
            self.counts.set(id as usize, count);
        }
        assert forall|msgs: Seq<(u8, u128)>|
            old(self).counts@ == table_after(msgs) implies final(self).counts@ == table_after(
                #[trigger] msgs.push((id, count)),
            ) by {
            assert(msgs.push((id, count)).drop_last() =~= msgs);
        }
    }
}

} // verus!
