//! Sync dispatcher decisions: what to do with each surviving operation of a
//! reduced log.
//!
//! The dispatcher replays each log sequentially, under a bounded admission
//! gate shared by all logs.  For each operation it first rewrites the
//! endpoint through the identity resolver; an operation whose local
//! references are all bound becomes one remote call, and one with an
//! unbound reference moves to the pending queue instead of failing the run.
//! A call's outcome — success or failure — is only ever appended to the
//! run's report log: it never changes what is planned for the operations
//! after it, in this log or any other.  The caller owns the clock, the
//! network and the threads; this module owns every decision.

use vstd::prelude::*;
use vstd::seq_lib::group_seq_lib_default;
use crate::identity::{is_local_token, rewrite_model, split_path_model, unresolved_model};
use crate::identity::IdentityMap;
use crate::record::{Method, Op, OpModel};

verus! {

/// The admission gate: at most `limit` logs are actively dispatching at any
/// instant.
pub struct Gate {
    active: usize,
    limit: usize,
}

impl Gate {
    /// Every reachable gate state stays within its limit.
    pub closed spec fn wf(&self) -> bool {
        self.active <= self.limit
    }

    pub closed spec fn spec_active(&self) -> usize {
        self.active
    }

    pub closed spec fn spec_limit(&self) -> usize {
        self.limit
    }

    /// A gate admitting up to `limit` concurrent workers.
    pub fn new(limit: usize) -> (r: Gate)
        requires
            limit >= 1,
        ensures
            r.wf(),
            r.spec_limit() == limit,
            r.spec_active() == 0,
    {
        Gate { active: 0, limit }
    }

    /// How many workers hold a slot now.
    pub fn active(&self) -> (r: usize)
        ensures
            r == self.spec_active(),
    {
        self.active
    }

    /// The configured bound.
    pub fn limit(&self) -> (r: usize)
        ensures
            r == self.spec_limit(),
    {
        self.limit
    }

    /// Admits one more worker when a slot is free.  The count never passes
    /// the limit.
    pub fn try_acquire(&mut self) -> (r: bool)
        requires
            old(self).wf(),
        ensures
            final(self).wf(),
            final(self).spec_limit() == old(self).spec_limit(),
            r ==> old(self).spec_active() < old(self).spec_limit() && final(self).spec_active()
                == old(self).spec_active() + 1,
            !r ==> old(self).spec_active() == old(self).spec_limit() && final(self).spec_active()
                == old(self).spec_active(),
    {
        if self.active < self.limit {
            self.active = self.active + 1;
            true
        } else {
            false
        }
    }

    /// Releases a held slot.
    pub fn release(&mut self)
        requires
            old(self).wf(),
            old(self).spec_active() >= 1,
        ensures
            final(self).wf(),
            final(self).spec_limit() == old(self).spec_limit(),
            final(self).spec_active() == old(self).spec_active() - 1,
    {
        self.active = self.active - 1;
    }
}

/// Why an operation cannot be dispatched at all.
#[derive(Debug)]
pub enum DispatchError {
    /// Only creates, updates and deletes are replayed; a GET mutates
    /// nothing and has no business in a reduced log.
    UnsupportedMethod,
}

/// One remote call, ready to hand to the transport: method, rewritten
/// endpoint, payload (empty when the record carried none).
pub struct PlannedRequest {
    pub method: Method,
    pub endpoint: String,
    pub payload: String,
}

/// Turns one resolvable operation into the call to make.
pub fn plan_call(op: &Op) -> (r: Result<PlannedRequest, DispatchError>)
    ensures
        match r {
            Ok(req) => {
                &&& op@.method != Method::Get
                &&& req.method == op@.method
                &&& req.endpoint@ == op@.endpoint
                &&& match op@.payload {
                    Some(p) => req.payload@ == p,
                    None => req.payload@ == Seq::<char>::empty(),
                }
            },
            Err(DispatchError::UnsupportedMethod) => op@.method == Method::Get,
        },
{
    match op.method {
        Method::Get => Err(DispatchError::UnsupportedMethod),
        _ => {
            let payload = match &op.payload {
                Some(p) => p.clone(),
                None => String::new(),
            };
            Ok(PlannedRequest { method: op.method, endpoint: op.endpoint.clone(), payload })
        },
    }
}

/// A remote response counts as success exactly when its status is in the
/// 2xx range.
pub fn is_success_status(status: u16) -> (r: bool)
    ensures
        r == (200 <= status < 300),
{
    200 <= status && status < 300
}

/// The decision for one operation against the current identity map.
pub enum Prepared {
    /// All local references are bound: dispatch this rewritten operation.
    Ready { op: Op },
    /// Some local reference is unbound: hold the original operation until
    /// its dependency resolves.
    Blocked { op: Op, unresolved: Vec<String> },
}

/// An operation whose endpoint references no unbound local identifier.
pub open spec fn resolvable(m: Map<Seq<char>, Seq<char>>, op: OpModel) -> bool {
    unresolved_model(m, op.endpoint).len() == 0
}

/// The operation as it will be dispatched: endpoint rewritten, everything
/// else kept.
pub open spec fn rewritten_op(m: Map<Seq<char>, Seq<char>>, op: OpModel) -> OpModel {
    OpModel { method: op.method, endpoint: rewrite_model(m, op.endpoint), payload: op.payload }
}

/// Decides one operation: rewrite its endpoint through the map, and
/// dispatch exactly when nothing is left unresolved — never before.
pub fn prepare(map: &IdentityMap, op: &Op) -> (r: Prepared)
    requires
        map.wf(),
    ensures
        match r {
            Prepared::Ready { op: ready } => {
                &&& resolvable(map@, op@)
                &&& ready@ == rewritten_op(map@, op@)
            },
            Prepared::Blocked { op: held, unresolved } => {
                &&& !resolvable(map@, op@)
                &&& held@ == op@
                &&& unresolved@.map_values(|p: String| p@) == unresolved_model(map@, op@.endpoint)
            },
        },
{
    let (endpoint, unresolved) = map.rewrite(op.endpoint.as_str());
    if unresolved.len() == 0 {
        let ready = Op { method: op.method, endpoint, payload: op.payload.clone() };
        proof {
            assert(unresolved_model(map@, op@.endpoint).len() == 0);
            assert(ready@ =~= rewritten_op(map@, op@));
        }
        Prepared::Ready { op: ready }
    } else {
        proof {
            assert(unresolved_model(map@, op@.endpoint).len() > 0);
        }
        Prepared::Blocked { op: op.clone(), unresolved }
    }
}

/// Dependency gating: an endpoint is free of unresolved references exactly
/// when every local token among its segments is bound in the map.
pub proof fn lemma_dependency_gating(m: Map<Seq<char>, Seq<char>>, s: Seq<char>)
    ensures
        unresolved_model(m, s).len() == 0 <==> (forall|i: int|
            0 <= i < split_path_model(s).len() && is_local_token(#[trigger] split_path_model(s)[i])
                ==> m.contains_key(split_path_model(s)[i])),
{
    broadcast use group_seq_lib_default;

    let parts = split_path_model(s);
    let miss = |seg: Seq<char>| is_local_token(seg) && !m.contains_key(seg);
    if unresolved_model(m, s).len() == 0 {
        assert forall|i: int|
            0 <= i < parts.len() && is_local_token(#[trigger] parts[i]) implies m.contains_key(
            parts[i],
        ) by {
            if !m.contains_key(parts[i]) {
                Seq::lemma_filter_contains(parts, miss, i);
            }
        }
    } else {
        assert(parts.filter(miss).len() > 0);
        Seq::lemma_filter_pred(parts, miss, 0);
        Seq::lemma_filter_contains_rev(parts, miss, parts.filter(miss)[0]);
        let w = choose|i: int| 0 <= i < parts.len() && parts[i] == parts.filter(miss)[0];
        assert(miss(parts[w]));
    }
}

/// One dispatched call's outcome, kept for the caller's report.
pub struct CallReport {
    pub endpoint: String,
    pub ok: bool,
}

/// What the dispatcher asks of the caller for one operation.
pub enum StepAction {
    /// Perform this call, then hand the outcome to `note_outcome`.
    Call { request: PlannedRequest },
    /// The operation moved to the pending queue; go on with the next one.
    Deferred,
    /// Nothing to send for this operation; go on with the next one.
    Skipped,
    /// The log is exhausted.
    Done,
}

/// One resource-type log's replay state: the reduced operations, how far
/// the replay has come, the operations held back for unresolved
/// dependencies, and the outcome log.
pub struct LogRun {
    pub ops: Vec<Op>,
    pub pos: usize,
    pub pending: Vec<Op>,
    pub reports: Vec<CallReport>,
}

impl LogRun {
    pub open spec fn wf(&self) -> bool {
        self.pos <= self.ops@.len()
    }

    /// Starts the replay of one reduced log.
    pub fn new(ops: Vec<Op>) -> (r: LogRun)
        ensures
            r.wf(),
            r.ops@ == ops@,
            r.pos == 0,
            r.pending@.len() == 0,
            r.reports@.len() == 0,
    {
        LogRun { ops, pos: 0, pending: Vec::new(), reports: Vec::new() }
    }

    /// Decides the next operation of this log.  The decision depends only
    /// on that operation and the identity map: the outcome log has no part
    /// in it, so earlier failures change nothing here.
    pub fn next(&mut self, map: &IdentityMap) -> (a: StepAction)
        requires
            old(self).wf(),
            map.wf(),
        ensures
            final(self).wf(),
            final(self).ops@ == old(self).ops@,
            final(self).reports@ == old(self).reports@,
            match a {
                StepAction::Done => {
                    &&& old(self).pos == old(self).ops@.len()
                    &&& *final(self) == *old(self)
                },
                StepAction::Deferred => {
                    let op = old(self).ops@[old(self).pos as int]@;
                    &&& old(self).pos < old(self).ops@.len()
                    &&& !resolvable(map@, op)
                    &&& final(self).pos == old(self).pos + 1
                    &&& crate::reduce::ops_model(final(self).pending@) == crate::reduce::ops_model(
                        old(self).pending@,
                    ).push(op)
                },
                StepAction::Skipped => {
                    let op = old(self).ops@[old(self).pos as int]@;
                    &&& old(self).pos < old(self).ops@.len()
                    &&& resolvable(map@, op)
                    &&& op.method == Method::Get
                    &&& final(self).pos == old(self).pos + 1
                    &&& final(self).pending@ == old(self).pending@
                },
                StepAction::Call { request } => {
                    let op = old(self).ops@[old(self).pos as int]@;
                    &&& old(self).pos < old(self).ops@.len()
                    &&& resolvable(map@, op)
                    &&& op.method != Method::Get
                    &&& request.method == op.method
                    &&& request.endpoint@ == rewrite_model(map@, op.endpoint)
                    &&& (match op.payload {
                        Some(p) => request.payload@ == p,
                        None => request.payload@ == Seq::<char>::empty(),
                    })
                    &&& final(self).pos == old(self).pos + 1
                    &&& final(self).pending@ == old(self).pending@
                },
            },
    {
        if self.pos == self.ops.len() {
            return StepAction::Done;
        }
        let op = self.ops[self.pos].clone();
        self.pos = self.pos + 1;
        match prepare(map, &op) {
            Prepared::Ready { op: ready } => {
                match plan_call(&ready) {
                    Ok(request) => StepAction::Call { request },
                    Err(_) => StepAction::Skipped,
                }
            },
            Prepared::Blocked { op: held, unresolved: _ } => {
                let ghost before = crate::reduce::ops_model(self.pending@);
                self.pending.push(held);
                proof {
                    assert(crate::reduce::ops_model(self.pending@) =~= before.push(
                        old(self).ops@[old(self).pos as int]@,
                    ));
                }
                StepAction::Deferred
            },
        }
    }

    /// Notes one dispatched call's outcome.  Only the report log changes:
    /// a failed call never touches the replay position or the pending
    /// queue, so every operation after it is still attempted.
    pub fn note_outcome(&mut self, endpoint: String, ok: bool)
        ensures
            final(self).ops@ == old(self).ops@,
            final(self).pos == old(self).pos,
            final(self).pending@ == old(self).pending@,
            final(self).reports@ == old(self).reports@.push(CallReport { endpoint, ok }),
    {
        self.reports.push(CallReport { endpoint, ok });
    }
}

/// The pending operations that a pass would now dispatch, rewritten.
pub open spec fn ready_part(m: Map<Seq<char>, Seq<char>>, ops: Seq<OpModel>) -> Seq<OpModel> {
    ops.filter(|op: OpModel| resolvable(m, op)).map_values(|op: OpModel| rewritten_op(m, op))
}

/// The pending operations a pass would still hold back, unchanged.
pub open spec fn blocked_part(m: Map<Seq<char>, Seq<char>>, ops: Seq<OpModel>) -> Seq<OpModel> {
    ops.filter(|op: OpModel| !resolvable(m, op))
}

/// One resolution pass over the pending queue: splits it into the
/// operations whose dependencies have since resolved — rewritten and in
/// order, ready to dispatch — and those still waiting, kept as they were.
pub fn retry_pending(map: &IdentityMap, pending: &Vec<Op>) -> (r: (Vec<Op>, Vec<Op>))
    requires
        map.wf(),
    ensures
        crate::reduce::ops_model(r.0@) == ready_part(map@, crate::reduce::ops_model(pending@)),
        crate::reduce::ops_model(r.1@) == blocked_part(map@, crate::reduce::ops_model(pending@)),
{
    let ghost pm = crate::reduce::ops_model(pending@);
    let ghost res = |op: OpModel| resolvable(map@, op);
    let ghost blk = |op: OpModel| !resolvable(map@, op);
    let mut ready: Vec<Op> = Vec::new();
    let mut still: Vec<Op> = Vec::new();
    let mut k: usize = 0;
    proof {
        reveal_with_fuel(Seq::filter, 2);
        assert(pm.take(0) =~= Seq::<OpModel>::empty());
        assert(pm.take(0).filter(res).map_values(|op: OpModel| rewritten_op(map@, op))
            =~= Seq::<OpModel>::empty());
        assert(pm.take(0).filter(blk) =~= Seq::<OpModel>::empty());
    }
    while k < pending.len()
        invariant
            map.wf(),
            k <= pending@.len(),
            pm == crate::reduce::ops_model(pending@),
            res == (|op: OpModel| resolvable(map@, op)),
            blk == (|op: OpModel| !resolvable(map@, op)),
            crate::reduce::ops_model(ready@) == pm.take(k as int).filter(res).map_values(
                |op: OpModel| rewritten_op(map@, op),
            ),
            crate::reduce::ops_model(still@) == pm.take(k as int).filter(blk),
        decreases pending@.len() - k,
    {
        let op = &pending[k];
        let ghost ro = crate::reduce::ops_model(ready@);
        let ghost so = crate::reduce::ops_model(still@);
        proof {
            assert(pm[k as int] == op@);
        }
        match prepare(map, op) {
            Prepared::Ready { op: rw } => {
                ready.push(rw);
                proof {
                    assert(crate::reduce::ops_model(ready@) =~= ro.push(
                        rewritten_op(map@, pm[k as int]),
                    ));
                }
            },
            Prepared::Blocked { op: held, unresolved: _ } => {
                still.push(held);
                proof {
                    assert(crate::reduce::ops_model(still@) =~= so.push(pm[k as int]));
                }
            },
        }
        proof {
            reveal_with_fuel(Seq::filter, 2);
            let f = |op: OpModel| rewritten_op(map@, op);
            let pre = pm.take(k as int);
            let now = pm.take(k as int + 1);
            assert(pre + seq![pm[k as int]] =~= now);
            Seq::filter_distributes_over_add(pre, seq![pm[k as int]], res);
            Seq::filter_distributes_over_add(pre, seq![pm[k as int]], blk);
            if res(pm[k as int]) {
                assert(seq![pm[k as int]].filter(res) =~= seq![pm[k as int]]);
                assert(seq![pm[k as int]].filter(blk) =~= Seq::<OpModel>::empty());
                assert(now.filter(res) =~= pre.filter(res).push(pm[k as int]));
                assert(now.filter(blk) =~= pre.filter(blk));
                assert(now.filter(res).map_values(f) =~= pre.filter(res).map_values(f).push(
                    f(pm[k as int]),
                ));
            } else {
                assert(seq![pm[k as int]].filter(res) =~= Seq::<OpModel>::empty());
                assert(seq![pm[k as int]].filter(blk) =~= seq![pm[k as int]]);
                assert(now.filter(res) =~= pre.filter(res));
                assert(now.filter(blk) =~= pre.filter(blk).push(pm[k as int]));
            }
            assert(crate::reduce::ops_model(ready@) =~= now.filter(res).map_values(f));
            assert(crate::reduce::ops_model(still@) =~= now.filter(blk));
        }
        k += 1;
    }
    proof {
        assert(pm.take(pm.len() as int) =~= pm);
    }
    (ready, still)
}

/// A pass that frees no operation leaves the pending queue exactly as it
/// was: once no entry makes progress, repeating the pass changes nothing,
/// so the run can stop and report what is left.
pub proof fn lemma_retry_fixed_point(m: Map<Seq<char>, Seq<char>>, ops: Seq<OpModel>)
    ensures
        ready_part(m, ops).len() == 0 ==> blocked_part(m, ops) == ops,
    decreases ops.len(),
{
    reveal_with_fuel(Seq::filter, 1);
    if ready_part(m, ops).len() == 0 && ops.len() > 0 {
        let res = |op: OpModel| resolvable(m, op);
        let blk = |op: OpModel| !resolvable(m, op);
        assert(ops.filter(res).len() == 0);
        if res(ops.last()) {
            assert(ops.filter(res) == ops.drop_last().filter(res).push(ops.last()));
            assert(false);
        }
        assert(ops.drop_last().filter(res).len() == 0);
        lemma_retry_fixed_point(m, ops.drop_last());
        assert(blocked_part(m, ops.drop_last()) == ops.drop_last());
        assert(ops.filter(blk) == ops.drop_last().filter(blk).push(ops.last()));
        assert(blocked_part(m, ops) =~= ops);
    }
}

} // verus!
