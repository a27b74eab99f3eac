//! The capability bridge's per-call bookkeeping.  Each native call a script
//! issues gets one slot with a fresh identifier and walks the state machine
//! `Issued -> Running -> {Resolved | Failed}`; a terminal state is reached by
//! exactly one resolution, carries the call's outcome, and never changes
//! again.  Completions may land in any order: settling one call touches no
//! other slot, so each continuation receives exactly the outcome of the call
//! it issued.
use crate::ops::NativeError;
use crate::ops::OpKind;
use vstd::prelude::*;

verus! {

/// Where one native call stands.
#[derive(Debug, Copy, Clone, PartialEq, Eq, Structural)]
pub enum CallState {
    Issued,
    Running,
    Resolved,
    Failed,
}

pub open spec fn is_terminal(s: CallState) -> bool {
    s == CallState::Resolved || s == CallState::Failed
}

/// What a settled call delivered back to the script.
#[derive(Debug, Clone, PartialEq, Eq)]
pub enum Outcome {
    /// The operation succeeded and carries nothing.
    Unit,
    /// The operation succeeded with text.
    Text(String),
    /// The operation failed, script-visibly.
    Failure(NativeError),
}

/// One native call in flight: its identifier, its operation, where it
/// stands, and — once terminal — its outcome.
#[derive(Debug, Clone, PartialEq, Eq)]
pub struct PendingCall {
    pub id: u64,
    pub op: OpKind,
    pub state: CallState,
    pub outcome: Option<Outcome>,
}

/// A slot carries an outcome exactly when it is terminal, and a failure
/// outcome exactly in the `Failed` state.
pub open spec fn call_wf(c: PendingCall) -> bool {
    match c.state {
        CallState::Issued => c.outcome is None,
        CallState::Running => c.outcome is None,
        CallState::Resolved => c.outcome matches Some(o) && !(o is Failure),
        CallState::Failed => c.outcome matches Some(o) && o is Failure,
    }
}

/// The slot `c` settled with `outcome`.
pub open spec fn resolved_call(c: PendingCall, outcome: Outcome) -> PendingCall {
    PendingCall {
        id: c.id,
        op: c.op,
        state: if outcome is Failure {
            CallState::Failed
        } else {
            CallState::Resolved
        },
        outcome: Some(outcome),
    }
}

/// Settling the call at slot `i`: that slot changes, no other does.
pub open spec fn spec_resolve(calls: Seq<PendingCall>, i: int, outcome: Outcome) -> Seq<
    PendingCall,
> {
    calls.update(i, resolved_call(calls[i], outcome))
}

/// The bridge: every call still being tracked, and the next fresh identifier.
pub struct Bridge {
    pub calls: Vec<PendingCall>,
    pub next_id: u64,
}

impl Bridge {
    /// Every slot is well formed, identifiers are below the next fresh one,
    /// and no two slots share an identifier.
    pub open spec fn wf(&self) -> bool {
        &&& forall|i: int| 0 <= i < self.calls@.len() ==> call_wf(#[trigger] self.calls@[i])
        &&& forall|i: int|
            0 <= i < self.calls@.len() ==> (#[trigger] self.calls@[i]).id < self.next_id
        &&& forall|i: int, j: int|
            0 <= i < j < self.calls@.len() ==> (#[trigger] self.calls@[i]).id != (
            #[trigger] self.calls@[j]).id
    }

    pub open spec fn spec_has_call(&self, id: u64) -> bool {
        exists|i: int| 0 <= i < self.calls@.len() && (#[trigger] self.calls@[i]).id == id
    }

    pub open spec fn spec_index_of(&self, id: u64) -> int {
        choose|i: int| 0 <= i < self.calls@.len() && (#[trigger] self.calls@[i]).id == id
    }

    pub open spec fn spec_call(&self, id: u64) -> PendingCall {
        self.calls@[self.spec_index_of(id)]
    }

    pub fn new() -> (b: Bridge)
        ensures
            b.wf(),
            b.calls@.len() == 0,
            b.next_id == 0,
    {
        Bridge { calls: Vec::new(), next_id: 0 }
    }

    /// Admit one call in state `Issued` under a fresh identifier.
    pub fn issue(&mut self, op: OpKind) -> (id: u64)
        requires
            old(self).wf(),
            old(self).next_id < u64::MAX,
        ensures
            final(self).wf(),
            id == old(self).next_id,
            final(self).next_id == old(self).next_id + 1,
            final(self).calls@ == old(self).calls@.push(
                PendingCall { id, op, state: CallState::Issued, outcome: None },
            ),
            final(self).spec_has_call(id),
    {
        let id = self.next_id;
        self.calls.push(PendingCall { id, op, state: CallState::Issued, outcome: None });
        self.next_id = id + 1;
        proof {
            let s = self.calls@;
            assert(s[s.len() - 1].id == id);
        }
        id
    }

    fn index_of(&self, id: u64) -> (r: Option<usize>)
        requires
            self.wf(),
        ensures
            match r {
                Some(i) => i < self.calls@.len() && self.calls@[i as int].id == id
                    && self.spec_has_call(id) && self.spec_index_of(id) == i,
                None => !self.spec_has_call(id),
            },
    {
        let n = self.calls.len();
        let mut i: usize = 0;
        while i < n
            invariant
                i <= n,
                n == self.calls@.len(),
                self.wf(),
                forall|j: int| 0 <= j < i ==> (#[trigger] self.calls@[j]).id != id,
            decreases n - i,
        {
            if self.calls[i].id == id {
                proof {
                    let k = self.spec_index_of(id);
                    assert(0 <= k < self.calls@.len() && self.calls@[k].id == id);
                    if k < i as int {
                        assert(self.calls@[k].id != self.calls@[i as int].id);
                    } else if (i as int) < k {
                        assert(self.calls@[i as int].id != self.calls@[k].id);
                    }
                }
                return Some(i);
            }
            i = i + 1;
        }
        proof {
            assert forall|j: int| !(0 <= j < self.calls@.len() && (#[trigger] self.calls@[j]).id
                == id) by {}
        }
        None
    }

    /// Move an issued call to `Running`.  `true` exactly when the identifier
    /// names a call still in `Issued`; nothing else changes either way.
    pub fn start(&mut self, id: u64) -> (ok: bool)
        requires
            old(self).wf(),
        ensures
            final(self).wf(),
            final(self).next_id == old(self).next_id,
            ok == (old(self).spec_has_call(id) && old(self).spec_call(id).state
                == CallState::Issued),
            ok ==> final(self).calls@ == old(self).calls@.update(
                old(self).spec_index_of(id),
                PendingCall {
                    id,
                    op: old(self).spec_call(id).op,
                    state: CallState::Running,
                    outcome: None,
                },
            ),
            !ok ==> final(self).calls@ == old(self).calls@,
    {
        let i = match self.index_of(id) {
            Some(i) => i,
            None => {
                return false;
            },
        };
        let is_issued = match self.calls[i].state {
            CallState::Issued => true,
            _ => false,
        };
        if !is_issued {
            return false;
        }
        let mut c = self.calls.remove(i);
        c.state = CallState::Running;
        self.calls.insert(i, c);
        proof {
            assert(self.calls@ =~= old(self).calls@.update(
                i as int,
                PendingCall {
                    id,
                    op: old(self).spec_call(id).op,
                    state: CallState::Running,
                    outcome: None,
                },
            ));
        }
        true
    }

    /// Settle a running call with its outcome.  `true` exactly when the
    /// identifier names a call in `Running`; a call already terminal is left
    /// exactly as it is, so no call is ever resolved twice.
    pub fn try_resolve(&mut self, id: u64, outcome: Outcome) -> (delivered: bool)
        requires
            old(self).wf(),
        ensures
            final(self).wf(),
            final(self).next_id == old(self).next_id,
            delivered == (old(self).spec_has_call(id) && old(self).spec_call(id).state
                == CallState::Running),
            delivered ==> final(self).calls@ == spec_resolve(
                old(self).calls@,
                old(self).spec_index_of(id),
                outcome,
            ),
            !delivered ==> final(self).calls@ == old(self).calls@,
    {
        let i = match self.index_of(id) {
            Some(i) => i,
            None => {
                return false;
            },
        };
        let is_running = match self.calls[i].state {
            CallState::Running => true,
            _ => false,
        };
        if !is_running {
            return false;
        }
        let mut c = self.calls.remove(i);
        let failed = match &outcome {
            Outcome::Failure(_) => true,
            _ => false,
        };
        c.state = if failed {
            CallState::Failed
        } else {
            CallState::Resolved
        };
        c.outcome = Some(outcome);
        self.calls.insert(i, c);
        proof {
            assert(self.calls@ =~= spec_resolve(old(self).calls@, i as int, outcome));
        }
        true
    }

    /// Settle a running call.  The bridge never resolves a call twice: a
    /// second resolution attempt is ruled out here, not silently ignored.
    pub fn resolve(&mut self, id: u64, outcome: Outcome)
        requires
            old(self).wf(),
            old(self).spec_has_call(id),
            old(self).spec_call(id).state == CallState::Running,
        ensures
            final(self).wf(),
            final(self).next_id == old(self).next_id,
            final(self).calls@ == spec_resolve(
                old(self).calls@,
                old(self).spec_index_of(id),
                outcome,
            ),
    {
        let delivered = self.try_resolve(id, outcome);
        assert(delivered);
    }

    /// Hand a terminal call's outcome to the script continuation and drop the
    /// slot: a delivered call is gone, so it is delivered exactly once.
    pub fn deliver(&mut self, id: u64) -> (r: Option<Outcome>)
        requires
            old(self).wf(),
        ensures
            final(self).wf(),
            final(self).next_id == old(self).next_id,
            match r {
                Some(o) => old(self).spec_has_call(id) && is_terminal(
                    old(self).spec_call(id).state,
                ) && old(self).spec_call(id).outcome == Some(o) && final(self).calls@ == old(
                    self,
                ).calls@.remove(old(self).spec_index_of(id)),
                None => !(old(self).spec_has_call(id) && is_terminal(old(self).spec_call(id).state))
                    && final(self).calls@ == old(self).calls@,
            },
    {
        let i = match self.index_of(id) {
            Some(i) => i,
            None => {
                return None;
            },
        };
        let terminal = match self.calls[i].state {
            CallState::Resolved => true,
            CallState::Failed => true,
            _ => false,
        };
        if !terminal {
            return None;
        }
        let c = self.calls.remove(i);
        c.outcome
    }
}

/// Completions may land in any order: settling two distinct calls gives the
/// same bridge either way round, and each slot ends with exactly its own
/// call's outcome.
pub proof fn lemma_completion_order_irrelevant(
    calls: Seq<PendingCall>,
    i: int,
    j: int,
    oi: Outcome,
    oj: Outcome,
)
    requires
        0 <= i < calls.len(),
        0 <= j < calls.len(),
        i != j,
    ensures
        spec_resolve(spec_resolve(calls, i, oi), j, oj) == spec_resolve(
            spec_resolve(calls, j, oj),
            i,
            oi,
        ),
        spec_resolve(spec_resolve(calls, i, oi), j, oj)[i] == resolved_call(calls[i], oi),
        spec_resolve(spec_resolve(calls, i, oi), j, oj)[j] == resolved_call(calls[j], oj),
{
    assert(spec_resolve(spec_resolve(calls, i, oi), j, oj) =~= spec_resolve(
        spec_resolve(calls, j, oj),
        i,
        oi,
    ));
}

/// One completion per slot, no slot twice: the shape of a batch of
/// concurrently outstanding calls finishing in some order.
pub open spec fn completions_wf(calls: Seq<PendingCall>, ps: Seq<(int, Outcome)>) -> bool {
    &&& forall|m: int| 0 <= m < ps.len() ==> 0 <= (#[trigger] ps[m]).0 < calls.len()
    &&& forall|m: int, n: int|
        0 <= m < n < ps.len() ==> (#[trigger] ps[m]).0 != (#[trigger] ps[n]).0
}

/// Settle a batch of calls, one completion at a time, in the order given.
pub open spec fn spec_resolve_all(calls: Seq<PendingCall>, ps: Seq<(int, Outcome)>) -> Seq<
    PendingCall,
>
    decreases ps.len(),
{
    if ps.len() == 0 {
        calls
    } else {
        spec_resolve_all(spec_resolve(calls, ps.first().0, ps.first().1), ps.drop_first())
    }
}

proof fn lemma_completions_wf_rest(calls: Seq<PendingCall>, ps: Seq<(int, Outcome)>)
    requires
        completions_wf(calls, ps),
        ps.len() > 0,
    ensures
        completions_wf(spec_resolve(calls, ps.first().0, ps.first().1), ps.drop_first()),
{
    assert(forall|m: int|
        0 <= m < ps.drop_first().len() ==> #[trigger] ps.drop_first()[m] == ps[m + 1]);
}

/// A slot no completion in the batch names is left exactly as it was.
pub proof fn lemma_untouched_slot(calls: Seq<PendingCall>, ps: Seq<(int, Outcome)>, k: int)
    requires
        completions_wf(calls, ps),
        0 <= k < calls.len(),
        forall|m: int| 0 <= m < ps.len() ==> (#[trigger] ps[m]).0 != k,
    ensures
        spec_resolve_all(calls, ps).len() == calls.len(),
        spec_resolve_all(calls, ps)[k] == calls[k],
    decreases ps.len(),
{
    if ps.len() > 0 {
        assert(forall|m: int|
            0 <= m < ps.drop_first().len() ==> #[trigger] ps.drop_first()[m] == ps[m + 1]);
        lemma_completions_wf_rest(calls, ps);
        assert(ps[0].0 != k);
        lemma_untouched_slot(spec_resolve(calls, ps.first().0, ps.first().1), ps.drop_first(), k);
    }
}

/// A batch of concurrently outstanding calls may finish in any order: every
/// call named by a completion ends settled with exactly its own outcome,
/// whatever position its completion took in the batch.
pub proof fn lemma_every_completion_correlates(
    calls: Seq<PendingCall>,
    ps: Seq<(int, Outcome)>,
    m: int,
)
    requires
        completions_wf(calls, ps),
        0 <= m < ps.len(),
    ensures
        spec_resolve_all(calls, ps).len() == calls.len(),
        spec_resolve_all(calls, ps)[ps[m].0] == resolved_call(calls[ps[m].0], ps[m].1),
    decreases ps.len(),
{
    let i0 = ps.first().0;
    let o0 = ps.first().1;
    let settled = spec_resolve(calls, i0, o0);
    assert(forall|n: int|
        0 <= n < ps.drop_first().len() ==> #[trigger] ps.drop_first()[n] == ps[n + 1]);
    lemma_completions_wf_rest(calls, ps);
    if m == 0 {
        assert(settled[i0] == resolved_call(calls[i0], o0));
        assert(forall|n: int| 0 <= n < ps.drop_first().len() ==> (#[trigger] ps.drop_first()[n]).0
            != i0);
        lemma_untouched_slot(settled, ps.drop_first(), i0);
    } else {
        assert(ps[m].0 != i0);
        assert(settled[ps[m].0] == calls[ps[m].0]);
        lemma_every_completion_correlates(settled, ps.drop_first(), m - 1);
        assert(ps.drop_first()[m - 1] == ps[m]);
    }
}

} // verus!
