//! Bookkeeping of one pass of price lookups run by a bounded pool of
//! workers. The caller runs the lookups; the batch decides which holding is
//! looked up next, never lets more than the pool size be in flight, and files
//! each outcome under the holding it belongs to, whatever the order in which
//! outcomes arrive.
use vstd::prelude::*;

use crate::consolidate::Holding;
use crate::error::FetchError;

verus! {

pub type Outcome = Result<u64, FetchError>;

/// How many entries of `s` are filled.
pub open spec fn filled(s: Seq<Option<Outcome>>) -> int
    decreases s.len(),
{
    if s.len() == 0 {
        0
    } else {
        filled(s.drop_last()) + if s.last() is Some { 1int } else { 0int }
    }
}

proof fn lemma_filled_update(s: Seq<Option<Outcome>>, i: int, o: Outcome)
    requires
        0 <= i < s.len(),
        s[i] is None,
    ensures
        filled(s.update(i, Some(o))) == filled(s) + 1,
    decreases s.len(),
{
    if i < s.len() - 1 {
        assert(s.update(i, Some(o)).drop_last() =~= s.drop_last().update(i, Some(o)));
        lemma_filled_update(s.drop_last(), i, o);
    } else {
        assert(s.update(i, Some(o)).drop_last() =~= s.drop_last());
    }
}

proof fn lemma_filled_bounds(s: Seq<Option<Outcome>>)
    ensures
        0 <= filled(s) <= s.len(),
        filled(s) == s.len() ==> forall|i: int| 0 <= i < s.len() ==> #[trigger] s[i] is Some,
    decreases s.len(),
{
    if s.len() > 0 {
        lemma_filled_bounds(s.drop_last());
        if filled(s) == s.len() {
            assert forall|i: int| 0 <= i < s.len() implies #[trigger] s[i] is Some by {
                if i < s.len() - 1 {
                    assert(s.drop_last()[i] == s[i]);
                }
            }
        }
    }
}

proof fn lemma_filled_prefix(s: Seq<Option<Outcome>>, k: int)
    requires
        0 <= k <= s.len(),
        forall|i: int| k <= i < s.len() ==> #[trigger] s[i] is None,
    ensures
        filled(s) == filled(s.take(k)),
    decreases s.len(),
{
    if s.len() > k {
        assert(s.drop_last().take(k) =~= s.take(k));
        lemma_filled_prefix(s.drop_last(), k);
    } else {
        assert(s.take(k) =~= s);
    }
}

/// One pass of lookups over `n` holdings with at most `pool_size` in flight.
pub struct Batch {
    pool_size: usize,
    next: usize,
    completed: usize,
    outcomes: Vec<Option<Outcome>>,
}

impl Batch {
    /// The outcome filed for each holding so far.
    pub closed spec fn outcomes(self) -> Seq<Option<Outcome>> {
        self.outcomes@
    }

    /// How many holdings have been handed out for lookup.
    pub closed spec fn dispatched(self) -> int {
        self.next as int
    }

    /// How many lookups have been handed out and not yet answered.
    pub closed spec fn in_flight(self) -> int {
        self.next - self.completed
    }

    pub closed spec fn pool(self) -> int {
        self.pool_size as int
    }

    pub closed spec fn wf(self) -> bool {
        &&& self.pool_size > 0
        &&& self.next <= self.outcomes@.len()
        &&& self.completed <= self.next
        &&& self.next - self.completed <= self.pool_size
        &&& self.completed == filled(self.outcomes@)
        &&& forall|i: int| self.next <= i < self.outcomes@.len() ==> #[trigger] self.outcomes@[i] is None
    }

    /// A batch over `n` holdings, none of them handed out yet.
    pub fn new(n: usize, pool_size: usize) -> (b: Batch)
        requires
            pool_size > 0,
        ensures
            b.wf(),
            b.pool() == pool_size,
            b.outcomes().len() == n,
            forall|i: int| 0 <= i < n ==> #[trigger] b.outcomes()[i] is None,
            b.dispatched() == 0,
            b.in_flight() == 0,
    {
        let mut outcomes: Vec<Option<Outcome>> = Vec::new();
        let mut i: usize = 0;
        while i < n
            invariant
                i <= n,
                outcomes@.len() == i,
                forall|k: int| 0 <= k < i ==> #[trigger] outcomes@[k] is None,
                filled(outcomes@) == 0,
            decreases n - i,
        {
            let ghost before = outcomes@;
            outcomes.push(None);
            assert(outcomes@.drop_last() =~= before);
            i += 1;
        }
        Batch { pool_size, next: 0, completed: 0, outcomes }
    }

    /// Hands out the next holding for lookup, if one is left and the pool has
    /// a free slot.
    pub fn next_task(&mut self) -> (r: Option<usize>)
        requires
            old(self).wf(),
        ensures
            final(self).wf(),
            final(self).outcomes() == old(self).outcomes(),
            final(self).pool() == old(self).pool(),
            (old(self).dispatched() < old(self).outcomes().len() && old(self).in_flight() < old(
                self,
            ).pool()) ==> r == Some(old(self).dispatched() as usize) && final(self).dispatched()
                == old(self).dispatched() + 1 && final(self).in_flight() == old(self).in_flight()
                + 1,
            !(old(self).dispatched() < old(self).outcomes().len() && old(self).in_flight() < old(
                self,
            ).pool()) ==> r is None && final(self).dispatched() == old(self).dispatched()
                && final(self).in_flight() == old(self).in_flight(),
    {
        if self.next < self.outcomes.len() && self.next - self.completed < self.pool_size {
            let i = self.next;
            self.next = self.next + 1;
            Some(i)
        } else {
            None
        }
    }

    /// Files the outcome of the lookup of holding `index`. It is taken only
    /// where that holding was handed out and has no outcome yet; the result
    /// says whether it was.
    pub fn complete(&mut self, index: usize, outcome: Outcome) -> (accepted: bool)
        requires
            old(self).wf(),
        ensures
            final(self).wf(),
            final(self).pool() == old(self).pool(),
            final(self).dispatched() == old(self).dispatched(),
            accepted == (index < old(self).dispatched() && old(self).outcomes()[index as int] is None),
            accepted ==> final(self).outcomes() == old(self).outcomes().update(index as int, Some(outcome))
                && final(self).in_flight() == old(self).in_flight() - 1,
            !accepted ==> final(self).outcomes() == old(self).outcomes() && final(self).in_flight()
                == old(self).in_flight(),
    {
        if index >= self.next || self.outcomes[index].is_some() {
            return false;
        }
        proof {
            lemma_filled_update(self.outcomes@, index as int, outcome);
            lemma_filled_prefix(self.outcomes@, self.next as int);
            lemma_filled_bounds(self.outcomes@.take(self.next as int));
            assert(self.outcomes@.take(self.next as int)[index as int] is None);
        }
        self.outcomes.set(index, Some(outcome));
        self.completed = self.completed + 1;
        true
    }

    /// Whether every holding has been handed out and answered.
    pub fn is_done(&self) -> (r: bool)
        requires
            self.wf(),
        ensures
            r == (self.dispatched() == self.outcomes().len() && self.in_flight() == 0),
    {
        self.next == self.outcomes.len() && self.next == self.completed
    }

    /// Pairs each holding with its outcome, in the order of `holdings`, once
    /// every outcome is filed; `None` before that, or where `holdings` is not
    /// as long as the batch.
    pub fn finish(self, holdings: Vec<Holding>) -> (r: Option<Vec<(Holding, Outcome)>>)
        requires
            self.wf(),
        ensures
            (holdings@.len() == self.outcomes().len() && self.dispatched() == self.outcomes().len()
                && self.in_flight() == 0) == r is Some,
            r matches Some(v) ==> v@.len() == holdings@.len() && forall|i: int|
                0 <= i < v@.len() ==> (#[trigger] v@[i]).0 == holdings@[i] && Some(v@[i].1)
                    == self.outcomes()[i],
    {
        if holdings.len() != self.outcomes.len() || self.next != self.outcomes.len() || self.next
            != self.completed {
            return None;
        }
        proof {
            lemma_filled_bounds(self.outcomes@);
        }
        let ghost hs = holdings@;
        let ghost os = self.outcomes@;
        let mut hold = holdings;
        let mut outs = self.outcomes;
        let mut paired: Vec<(Holding, Outcome)> = Vec::new();
        while hold.len() > 0
            invariant
                hold@.len() == outs@.len(),
                hold@ == hs.take(hold@.len() as int),
                outs@ == os.take(outs@.len() as int),
                hs.len() == os.len(),
                hold@.len() <= hs.len(),
                forall|i: int| 0 <= i < os.len() ==> #[trigger] os[i] is Some,
                paired@.len() == hs.len() - hold@.len(),
                forall|k: int|
                    0 <= k < paired@.len() ==> (#[trigger] paired@[k]).0 == hs[hs.len() - 1 - k]
                        && Some(paired@[k].1) == os[hs.len() - 1 - k],
            decreases hold@.len(),
        {
            let ghost n = hold@.len();
            let h = hold.pop();
            let o = outs.pop();
            match (h, o) {
                (Some(h), Some(Some(o))) => {
                    assert(hold@ =~= hs.take(n - 1));
                    assert(outs@ =~= os.take(n - 1));
                    paired.push((h, o));
                },
                _ => {
                    assert(os[n - 1] is Some);
                    return None;
                },
            }
        }
        let mut result: Vec<(Holding, Outcome)> = Vec::new();
        while paired.len() > 0
            invariant
                paired@.len() + result@.len() == hs.len(),
                hs.len() == os.len(),
                forall|k: int|
                    0 <= k < paired@.len() ==> (#[trigger] paired@[k]).0 == hs[hs.len() - 1 - k]
                        && Some(paired@[k].1) == os[hs.len() - 1 - k],
                forall|i: int|
                    0 <= i < result@.len() ==> (#[trigger] result@[i]).0 == hs[i] && Some(
                        result@[i].1,
                    ) == os[i],
            decreases paired@.len(),
        {
            let ghost k = paired@.len() - 1;
            let ghost entry = paired@[k];
            match paired.pop() {
                Some(e) => {
                    assert(e == entry);
                    result.push(e);
                },
                None => {},
            }
        }
        Some(result)
    }
}

/// Once every holding has been handed out and answered, each has an outcome,
/// whatever the pool size.
pub proof fn lemma_done_means_all_filed(b: Batch)
    requires
        b.wf(),
        b.dispatched() == b.outcomes().len(),
        b.in_flight() == 0,
    ensures
        forall|i: int| 0 <= i < b.outcomes().len() ==> #[trigger] b.outcomes()[i] is Some,
{
    lemma_filled_bounds(b.outcomes@);
}

} // verus!
