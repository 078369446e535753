//! Reconciliation reducer: collapses a session log's operations, per
//! resource key, into the minimal sequence that reproduces the resource's
//! final intended state.
//!
//! Operations sharing an endpoint form one resource stack, folded in log
//! order by a deterministic merge table: GETs are dropped, repeated creates
//! and updates keep the latest record, a create followed by its update
//! collapses to the update's record, a create followed by a delete cancels,
//! a delete erases all earlier history for its key, an update after a delete
//! collapses to a synthesized delete, and a create after an unresolved
//! update is a conflict that aborts the whole reduction.

use vstd::prelude::*;
use crate::record::{Method, Op, OpModel};
use crate::record::{method_model, parse_line_model, render_model};
use crate::record::{parse_line, parse_method, render};
use crate::record::{lemma_parse_line_fields, lemma_parse_render, no_space};

verus! {

/// Why a reduction was abandoned.  Either way the caller keeps the log file
/// exactly as it was.
#[derive(Debug)]
pub enum ReduceError {
    /// The line at this index has fewer than two fields, or an unknown
    /// method.
    MalformedRecord { line: usize },
    /// A create arrived for this endpoint while an update was the latest
    /// surviving operation: impossible for well-formed client usage, so the
    /// whole log is rejected.
    ConflictingSequence { endpoint: String },
}

/// Mathematical picture of one resource key's surviving operations, oldest
/// first.
#[verifier::ext_equal]
pub ghost struct GroupModel {
    pub key: Seq<char>,
    pub stack: Seq<OpModel>,
}

/// One resource key's surviving operations, oldest first.
pub struct ResourceStack {
    pub key: String,
    pub ops: Vec<Op>,
}

impl View for ResourceStack {
    type V = GroupModel;

    open spec fn view(&self) -> GroupModel {
        GroupModel { key: self.key@, stack: self.ops@.map_values(|o: Op| o@) }
    }
}

pub open spec fn ops_model(s: Seq<Op>) -> Seq<OpModel> {
    s.map_values(|o: Op| o@)
}

pub open spec fn groups_model(s: Seq<ResourceStack>) -> Seq<GroupModel> {
    s.map_values(|g: ResourceStack| g@)
}

/// The record a delete-after-update collapse synthesizes: `DELETE <endpoint>`.
pub open spec fn synth_delete(endpoint: Seq<char>) -> OpModel {
    OpModel { method: Method::Delete, endpoint, payload: None }
}

/// Some surviving record of the stack is a delete.
pub open spec fn has_delete(stack: Seq<OpModel>) -> bool {
    exists|i: int| 0 <= i < stack.len() && stack[i].method == Method::Delete
}

/// The merge table: what one incoming operation does to its resource key's
/// stack.  `None` is the create-after-update conflict.  A delete arriving
/// on top of an unacknowledged create cancels the pair entirely; any other
/// delete erases the key's history and survives alone.
pub open spec fn step_model(stack: Seq<OpModel>, op: OpModel) -> Option<Seq<OpModel>> {
    match op.method {
        Method::Get => Some(stack),
        Method::Delete => {
            if stack.len() > 0 && stack.last().method == Method::Post && !has_delete(
                stack.drop_last(),
            ) {
                Some(stack.drop_last())
            } else {
                Some(seq![op])
            }
        },
        Method::Post => {
            if stack.len() == 0 {
                Some(seq![op])
            } else {
                match stack.last().method {
                    Method::Post => Some(stack.drop_last().push(op)),
                    Method::Delete => Some(stack.push(op)),
                    Method::Put => None,
                    Method::Get => Some(stack.push(op)),
                }
            }
        },
        Method::Put => {
            if stack.len() == 0 {
                Some(seq![op])
            } else {
                match stack.last().method {
                    Method::Post => Some(stack.drop_last().push(op)),
                    Method::Put => Some(stack.drop_last().push(op)),
                    Method::Delete => Some(stack.drop_last().push(synth_delete(op.endpoint))),
                    Method::Get => Some(stack.push(op)),
                }
            }
        },
    }
}

pub open spec fn has_key(gs: Seq<GroupModel>, key: Seq<char>) -> bool {
    exists|i: int| 0 <= i < gs.len() && gs[i].key == key
}

pub open spec fn key_index(gs: Seq<GroupModel>, key: Seq<char>) -> int {
    choose|i: int| 0 <= i < gs.len() && gs[i].key == key
}

/// Feeds one operation into the partitioned log: GETs vanish, a new key
/// opens a group at the end, and otherwise the key's own stack takes the
/// step.
pub open spec fn apply_model(gs: Seq<GroupModel>, op: OpModel) -> Option<Seq<GroupModel>> {
    if op.method == Method::Get {
        Some(gs)
    } else if !has_key(gs, op.endpoint) {
        Some(gs.push(GroupModel { key: op.endpoint, stack: seq![op] }))
    } else {
        let i = key_index(gs, op.endpoint);
        match step_model(gs[i].stack, op) {
            None => None,
            Some(st) => {
                if st.len() == 0 {
                    Some(gs.remove(i))
                } else {
                    Some(gs.update(i, GroupModel { key: op.endpoint, stack: st }))
                }
            },
        }
    }
}

pub open spec fn reduce_from(gs: Seq<GroupModel>, ops: Seq<OpModel>) -> Option<Seq<GroupModel>>
    decreases ops.len(),
{
    if ops.len() == 0 {
        Some(gs)
    } else {
        match apply_model(gs, ops[0]) {
            None => None,
            Some(g2) => reduce_from(g2, ops.drop_first()),
        }
    }
}

/// The whole reduction of a log, as a mathematical function: the groups in
/// order of first appearance of their keys, or `None` on conflict.
pub open spec fn reduce_model(ops: Seq<OpModel>) -> Option<Seq<GroupModel>> {
    reduce_from(Seq::empty(), ops)
}

/// The endpoint of the first conflicting operation, when reduction fails.
pub open spec fn conflict_from(gs: Seq<GroupModel>, ops: Seq<OpModel>) -> Seq<char>
    decreases ops.len(),
{
    if ops.len() == 0 {
        Seq::empty()
    } else {
        match apply_model(gs, ops[0]) {
            None => ops[0].endpoint,
            Some(g2) => conflict_from(g2, ops.drop_first()),
        }
    }
}

pub open spec fn conflict_endpoint(ops: Seq<OpModel>) -> Seq<char> {
    conflict_from(Seq::empty(), ops)
}

/// Shape of every reachable resource stack: one or two surviving records,
/// all for this key, none a GET, and a two-record stack is exactly a delete
/// followed by the create (or its update) that came after it.
pub open spec fn wf_stack(key: Seq<char>, stack: Seq<OpModel>) -> bool {
    &&& 1 <= stack.len() <= 2
    &&& (forall|i: int|
        0 <= i < stack.len() ==> stack[i].method != Method::Get && stack[i].endpoint == key)
    &&& (stack.len() == 2 ==> stack[0].method == Method::Delete && (stack[1].method
        == Method::Post || stack[1].method == Method::Put))
}

/// Shape of every reachable partitioned log: distinct keys, each group a
/// well-formed stack.
pub open spec fn wf_groups(gs: Seq<GroupModel>) -> bool {
    &&& (forall|i: int, j: int| 0 <= i < j < gs.len() ==> gs[i].key != gs[j].key)
    &&& (forall|i: int| 0 <= i < gs.len() ==> wf_stack(gs[i].key, gs[i].stack))
}

pub proof fn lemma_apply_wf(gs: Seq<GroupModel>, op: OpModel)
    requires
        wf_groups(gs),
    ensures
        apply_model(gs, op) matches Some(g2) ==> wf_groups(g2),
{
    if op.method != Method::Get && has_key(gs, op.endpoint) {
        let i = key_index(gs, op.endpoint);
        assert(0 <= i < gs.len() && gs[i].key == op.endpoint);
        match step_model(gs[i].stack, op) {
            None => {},
            Some(st) => {
                if st.len() == 0 {
                    let g2 = gs.remove(i);
                    assert forall|a: int, b: int|
                        0 <= a < b < g2.len() implies g2[a].key != g2[b].key by {
                        if b < i {
                            assert(g2[a] == gs[a] && g2[b] == gs[b]);
                        } else if a < i {
                            assert(g2[a] == gs[a] && g2[b] == gs[b + 1]);
                        } else {
                            assert(g2[a] == gs[a + 1] && g2[b] == gs[b + 1]);
                        }
                    }
                    assert forall|a: int|
                        0 <= a < g2.len() implies wf_stack(g2[a].key, g2[a].stack) by {
                        if a < i {
                            assert(g2[a] == gs[a]);
                        } else {
                            assert(g2[a] == gs[a + 1]);
                        }
                    }
                } else {
                    assert(wf_stack(op.endpoint, st));
                }
            },
        }
    }
}

pub proof fn lemma_reduce_from_wf(gs: Seq<GroupModel>, ops: Seq<OpModel>)
    requires
        wf_groups(gs),
    ensures
        reduce_from(gs, ops) matches Some(g2) ==> wf_groups(g2),
    decreases ops.len(),
{
    if ops.len() > 0 {
        lemma_apply_wf(gs, ops[0]);
        match apply_model(gs, ops[0]) {
            None => {},
            Some(g2) => {
                lemma_reduce_from_wf(g2, ops.drop_first());
            },
        }
    }
}

/// GET elimination: no reduced log holds a GET record.  GETs read state and
/// are never persisted as mutations.
pub proof fn lemma_get_elimination(ops: Seq<OpModel>)
    ensures
        reduce_model(ops) matches Some(gs) ==> forall|i: int, k: int|
            0 <= i < gs.len() && 0 <= k < gs[i].stack.len() ==> gs[i].stack[k].method
                != Method::Get,
{
    lemma_reduce_from_wf(Seq::empty(), ops);
}

/// Single-delete invariant: a reduced resource stack holds at most one
/// DELETE, and when one is present it is the oldest surviving record; only
/// a create made after it (or that create's update) may follow.
pub proof fn lemma_single_delete(ops: Seq<OpModel>)
    ensures
        reduce_model(ops) matches Some(gs) ==> forall|i: int, k: int|
            0 <= i < gs.len() && 1 <= k < gs[i].stack.len() ==> gs[i].stack[k].method
                != Method::Delete,
        reduce_model(ops) matches Some(gs) ==> forall|i: int|
            0 <= i < gs.len() ==> #[trigger] gs[i].stack.len() <= 2,
{
    lemma_reduce_from_wf(Seq::empty(), ops);
}

/// Reducing a concatenation processes the first part, then the second.
proof fn lemma_reduce_from_append(gs: Seq<GroupModel>, a: Seq<OpModel>, b: Seq<OpModel>)
    ensures
        reduce_from(gs, a + b) == (match reduce_from(gs, a) {
            None => None,
            Some(g) => reduce_from(g, b),
        }),
    decreases a.len(),
{
    if a.len() == 0 {
        assert(a + b =~= b);
    } else {
        assert((a + b)[0] == a[0]);
        assert((a + b).len() > 0);
        match apply_model(gs, a[0]) {
            None => {},
            Some(g2) => {
                assert((a + b).drop_first() =~= a.drop_first() + b);
                lemma_reduce_from_append(g2, a.drop_first(), b);
            },
        }
    }
}

/// Replaying one well-formed stack whose key is new opens exactly that
/// group again — provided the stack is not a delete followed by an update,
/// which would collapse further.
proof fn lemma_replay_group(acc: Seq<GroupModel>, g: GroupModel)
    requires
        wf_groups(acc),
        wf_stack(g.key, g.stack),
        !has_key(acc, g.key),
        !(g.stack.len() == 2 && g.stack[1].method == Method::Put),
    ensures
        reduce_from(acc, g.stack) == Some(acc.push(g)),
{
    let st = g.stack;
    let op0 = st[0];
    assert(op0.method != Method::Get && op0.endpoint == g.key);
    let g1 = GroupModel { key: op0.endpoint, stack: seq![op0] };
    let acc1 = acc.push(g1);
    assert(apply_model(acc, op0) == Some(acc1));
    if st.len() == 1 {
        assert(seq![op0] =~= st);
        assert(g1 =~= g);
        assert(st.drop_first() =~= Seq::<OpModel>::empty());
        assert(reduce_from(acc1, st.drop_first()) == Some(acc1));
    } else {
        let op1 = st[1];
        assert(st[0].method == Method::Delete);
        assert(op1.method == Method::Post);
        assert(op1.endpoint == g.key);
        assert(acc1[acc.len() as int].key == g.key);
        assert(has_key(acc1, g.key));
        let i = key_index(acc1, g.key);
        assert(0 <= i < acc1.len() && acc1[i].key == g.key);
        if i < acc.len() {
            assert(acc1[i] == acc[i]);
            assert(false);
        }
        assert(i == acc.len());
        assert(g1.stack.last() == op0);
        assert(step_model(g1.stack, op1) == Some(g1.stack.push(op1)));
        assert(g1.stack.push(op1) =~= st);
        let g2 = GroupModel { key: op1.endpoint, stack: g1.stack.push(op1) };
        assert(g2 =~= g);
        let acc2 = acc1.update(i, g2);
        assert(apply_model(acc1, op1) == Some(acc2));
        assert(acc2 =~= acc.push(g));
        assert(st.drop_first() =~= seq![op1]);
        assert(seq![op1].drop_first() =~= Seq::<OpModel>::empty());
        assert(reduce_from(acc2, seq![op1].drop_first()) == Some(acc2));
        assert(reduce_from(acc1, st.drop_first()) == Some(acc2));
    }
}

/// Replaying the flattened form of the first `n` groups rebuilds exactly
/// those groups.
proof fn lemma_replay_groups(gs: Seq<GroupModel>, n: int)
    requires
        wf_groups(gs),
        0 <= n <= gs.len(),
        forall|i: int|
            0 <= i < gs.len() ==> !((#[trigger] gs[i].stack).len() == 2 && gs[i].stack[1].method
                == Method::Put),
    ensures
        reduce_from(Seq::empty(), flatten_to(gs, n)) == Some(gs.take(n)),
    decreases n,
{
    if n == 0 {
        assert(flatten_to(gs, 0) =~= Seq::<OpModel>::empty());
        assert(gs.take(0) =~= Seq::<GroupModel>::empty());
    } else {
        lemma_replay_groups(gs, n - 1);
        lemma_reduce_from_append(Seq::empty(), flatten_to(gs, n - 1), gs[n - 1].stack);
        let pre = gs.take(n - 1);
        assert(wf_groups(pre)) by {
            assert(forall|i: int, j: int| 0 <= i < j < pre.len() ==> pre[i].key != pre[j].key);
            assert forall|i: int| 0 <= i < pre.len() implies wf_stack(pre[i].key, pre[i].stack) by {
                assert(pre[i] == gs[i]);
            }
        }
        assert(!has_key(pre, gs[n - 1].key)) by {
            if has_key(pre, gs[n - 1].key) {
                let i = key_index(pre, gs[n - 1].key);
                assert(0 <= i < pre.len() && pre[i].key == gs[n - 1].key);
                assert(gs[i].key != gs[n - 1].key);
            }
        }
        lemma_replay_group(pre, gs[n - 1]);
        assert(pre.push(gs[n - 1]) =~= gs.take(n));
    }
}

/// Idempotence of reduction: reducing an already-reduced log gives the same
/// log back, for every reduced log in which no resource stack is a delete
/// followed by an update.  (A delete, create, update history leaves such a
/// stack, and replaying it collapses the pair into one synthesized delete.)
pub proof fn lemma_reduction_idempotent(ops: Seq<OpModel>, gs: Seq<GroupModel>)
    requires
        reduce_model(ops) == Some(gs),
        forall|i: int|
            0 <= i < gs.len() ==> !((#[trigger] gs[i].stack).len() == 2 && gs[i].stack[1].method
                == Method::Put),
    ensures
        reduce_model(flatten_groups(gs)) == Some(gs),
{
    lemma_reduce_from_wf(Seq::empty(), ops);
    lemma_replay_groups(gs, gs.len() as int);
    assert(gs.take(gs.len() as int) =~= gs);
}

/// Index of the group owning `key`, if one exists.
fn find_group(groups: &Vec<ResourceStack>, key: &String) -> (r: Option<usize>)
    ensures
        match r {
            Some(j) => j < groups@.len() && groups@[j as int]@.key == key@,
            None => !has_key(groups_model(groups@), key@),
        },
{
    let mut j: usize = 0;
    while j < groups.len()
        invariant
            j <= groups@.len(),
            forall|t: int| 0 <= t < j ==> groups@[t]@.key != key@,
        decreases groups@.len() - j,
    {
        if groups[j].key == *key {
            return Some(j);
        }
        j += 1;
    }
    None
}

/// Folds a log's operations, in order, into per-resource-key stacks.  The
/// groups come out in order of first appearance of their keys; within a key
/// the order of the surviving records is kept.  Fails exactly on the
/// create-after-update conflict, naming the offending endpoint, and then
/// yields nothing.
pub fn reduce_log(ops: &Vec<Op>) -> (r: Result<Vec<ResourceStack>, ReduceError>)
    ensures
        match r {
            Ok(gs) => {
                &&& reduce_model(ops_model(ops@)) == Some(groups_model(gs@))
                &&& wf_groups(groups_model(gs@))
            },
            Err(e) => {
                &&& e matches ReduceError::ConflictingSequence { endpoint }
                &&& reduce_model(ops_model(ops@)) is None
                &&& endpoint@ == conflict_endpoint(ops_model(ops@))
            },
        },
{
    let ghost om = ops_model(ops@);
    let mut groups: Vec<ResourceStack> = Vec::new();
    let mut idx: usize = 0;
    proof {
        assert(om.skip(0) =~= om);
        assert(groups_model(groups@) =~= Seq::<GroupModel>::empty());
    }
    while idx < ops.len()
        invariant
            idx <= ops.len(),
            om == ops_model(ops@),
            wf_groups(groups_model(groups@)),
            reduce_from(Seq::empty(), om) == reduce_from(groups_model(groups@), om.skip(idx as int)),
            conflict_from(Seq::empty(), om) == conflict_from(groups_model(groups@), om.skip(idx as int)),
        decreases ops.len() - idx,
    {
        let ghost gm = groups_model(groups@);
        let ghost rest = om.skip(idx as int);
        let op = &ops[idx];
        proof {
            assert(rest[0] == om[idx as int]);
            assert(rest.drop_first() =~= om.skip(idx as int + 1));
        }
        match op.method {
            Method::Get => {
                proof {
                    assert(apply_model(gm, op@) == Some(gm));
                }
            },
            _ => {
                match find_group(&groups, &op.endpoint) {
                    None => {
                        let mut st: Vec<Op> = Vec::new();
                        st.push(op.clone());
                        groups.push(ResourceStack { key: op.endpoint.clone(), ops: st });
                        proof {
                            let g2 = GroupModel { key: op@.endpoint, stack: seq![op@] };
                            assert(groups@.last()@.stack =~= g2.stack);
                            assert(groups@.last()@ =~= g2);
                            assert(apply_model(gm, op@) == Some(gm.push(g2)));
                            assert(groups_model(groups@) =~= gm.push(g2));
                            lemma_apply_wf(gm, op@);
                        }
                    },
                    Some(j) => {
                        proof {
                            assert(gm[j as int].key == op@.endpoint);
                            assert(has_key(gm, op@.endpoint));
                            let i = key_index(gm, op@.endpoint);
                            assert(0 <= i < gm.len() && gm[i].key == op@.endpoint);
                            if i < j {
                                assert(gm[i].key != gm[j as int].key);
                            }
                            if j < i {
                                assert(gm[j as int].key != gm[i].key);
                            }
                            assert(i == j);
                        }
                        let mut g = groups.remove(j);
                        let ghost st0 = g@.stack;
                        let last_m = g.ops[g.ops.len() - 1].method;
                        proof {
                            assert(g@.stack.last() == g.ops@.last()@);
                            assert(last_m == st0.last().method);
                        }
                        let mut cancel = false;
                        let conflict = match (op.method, last_m) {
                            (Method::Post, Method::Post) => {
                                g.ops.pop();
                                g.ops.push(op.clone());
                                false
                            },
                            (Method::Post, Method::Delete) => {
                                g.ops.push(op.clone());
                                false
                            },
                            (Method::Post, Method::Put) => true,
                            (Method::Post, Method::Get) => {
                                g.ops.push(op.clone());
                                false
                            },
                            (Method::Put, Method::Post) | (Method::Put, Method::Put) => {
                                g.ops.pop();
                                g.ops.push(op.clone());
                                false
                            },
                            (Method::Put, Method::Delete) => {
                                g.ops.pop();
                                g.ops.push(
                                    Op {
                                        method: Method::Delete,
                                        endpoint: op.endpoint.clone(),
                                        payload: None,
                                    },
                                );
                                false
                            },
                            (Method::Put, Method::Get) => {
                                g.ops.push(op.clone());
                                false
                            },
                            (Method::Delete, Method::Post) => {
                                if g.ops.len() == 1 {
                                    cancel = true;
                                } else {
                                    g.ops.clear();
                                    g.ops.push(op.clone());
                                }
                                false
                            },
                            (Method::Delete, _) => {
                                g.ops.clear();
                                g.ops.push(op.clone());
                                false
                            },
                            (Method::Get, _) => false,
                        };
                        if conflict {
                            proof {
                                assert(step_model(st0, op@) is None);
                                assert(apply_model(gm, op@) is None);
                                assert(reduce_from(gm, rest) is None);
                                assert(conflict_from(gm, rest) == op@.endpoint);
                            }
                            return Err(ReduceError::ConflictingSequence { endpoint: op.endpoint.clone() });
                        }
                        if cancel {
                            proof {
                                assert(st0.len() == 1 && st0.last().method == Method::Post);
                                assert(st0.drop_last() =~= Seq::<OpModel>::empty());
                                assert(!has_delete(st0.drop_last()));
                                assert(step_model(st0, op@) == Some(st0.drop_last()));
                                assert(apply_model(gm, op@) == Some(gm.remove(j as int)));
                                assert(groups_model(groups@) =~= gm.remove(j as int));
                                lemma_apply_wf(gm, op@);
                            }
                        } else {
                            proof {
                                if op@.method == Method::Delete && last_m == Method::Post {
                                    assert(st0.len() == 2);
                                    assert(st0.drop_last()[0].method == Method::Delete);
                                    assert(has_delete(st0.drop_last()));
                                }
                                assert(step_model(st0, op@) == Some(g@.stack));
                                assert(g@.stack.len() > 0);
                            }
                            groups.insert(j, g);
                            proof {
                                let g2 = GroupModel {
                                    key: op@.endpoint,
                                    stack: step_model(st0, op@)->0,
                                };
                                assert(groups@[j as int]@ =~= g2);
                                assert(apply_model(gm, op@) == Some(gm.update(j as int, g2)));
                                assert(groups_model(groups@) =~= gm.update(j as int, g2));
                                lemma_apply_wf(gm, op@);
                            }
                        }
                    },
                }
            },
        }
        idx += 1;
    }
    proof {
        assert(om.skip(idx as int) =~= Seq::<OpModel>::empty());
    }
    Ok(groups)
}

/// What one log line stands for: its parsed fields with the method
/// classified.  `None` when the line has fewer than two fields or an
/// unknown method.
pub open spec fn record_model(s: Seq<char>) -> Option<OpModel> {
    match parse_line_model(s) {
        None => None,
        Some(t) => match method_model(t.0) {
            None => None,
            Some(m) => Some(OpModel { method: m, endpoint: t.1, payload: t.2 }),
        },
    }
}

pub open spec fn lines_model(lines: Seq<String>) -> Seq<Seq<char>> {
    lines.map_values(|l: String| l@)
}

pub open spec fn records_ok(ls: Seq<Seq<char>>) -> bool {
    forall|i: int| 0 <= i < ls.len() ==> record_model(ls[i]) is Some
}

pub open spec fn records_of(ls: Seq<Seq<char>>) -> Seq<OpModel> {
    ls.map_values(|l: Seq<char>| record_model(l)->0)
}

/// The surviving operations of the first `n` groups, in output order.
pub open spec fn flatten_to(gs: Seq<GroupModel>, n: int) -> Seq<OpModel>
    decreases n,
{
    if n <= 0 {
        Seq::empty()
    } else {
        flatten_to(gs, n - 1) + gs[n - 1].stack
    }
}

/// The reduced log laid back out as one sequence of operations: each key's
/// stack bottom-to-top, keys in order of first appearance.
pub open spec fn flatten_groups(gs: Seq<GroupModel>) -> Seq<OpModel> {
    flatten_to(gs, gs.len() as int)
}

pub open spec fn rendered(ops: Seq<OpModel>) -> Seq<Seq<char>> {
    ops.map_values(|o: OpModel| render_model(o))
}

/// Parses every line of a log.  Fails on the first malformed line, naming
/// its index.
fn parse_log(lines: &Vec<String>) -> (r: Result<Vec<Op>, ReduceError>)
    ensures
        match r {
            Ok(ops) => {
                &&& records_ok(lines_model(lines@))
                &&& ops_model(ops@) == records_of(lines_model(lines@))
            },
            Err(e) => {
                &&& e matches ReduceError::MalformedRecord { line }
                &&& line < lines@.len()
                &&& record_model(lines@[line as int]@) is None
                &&& forall|j: int| 0 <= j < line ==> record_model(lines@[j]@) is Some
            },
        },
{
    let ghost lm = lines_model(lines@);
    proof {
        assert forall|j: int| 0 <= j < lines@.len() implies lm[j] == lines@[j]@ by {}
    }
    let mut ops: Vec<Op> = Vec::new();
    let mut idx: usize = 0;
    while idx < lines.len()
        invariant
            idx <= lines.len(),
            lm == lines_model(lines@),
            ops@.len() == idx,
            forall|j: int| 0 <= j < idx ==> #[trigger] record_model(lm[j]) is Some,
            forall|j: int| 0 <= j < idx ==> #[trigger] ops@[j]@ == record_model(lm[j])->0,
        decreases lines.len() - idx,
    {
        proof {
            assert(lm[idx as int] == lines@[idx as int]@);
        }
        let line = &lines[idx];
        match parse_line(line.as_str()) {
            None => {
                proof {
                    assert forall|j: int| 0 <= j < idx implies record_model(lines@[j]@) is Some by {
                        assert(record_model(lm[j]) is Some);
                        assert(lm[j] == lines@[j]@);
                    }
                }
                return Err(ReduceError::MalformedRecord { line: idx });
            },
            Some((m, endpoint, payload)) => {
                match parse_method(m.as_str()) {
                    None => {
                        proof {
                            assert forall|j: int|
                                0 <= j < idx implies record_model(lines@[j]@) is Some by {
                                assert(lm[j] == lines@[j]@);
                            }
                        }
                        return Err(ReduceError::MalformedRecord { line: idx });
                    },
                    Some(method) => {
                        let op = Op { method, endpoint, payload };
                        proof {
                            assert(record_model(lm[idx as int]) is Some);
                            assert(op@ =~= record_model(lm[idx as int])->0);
                        }
                        ops.push(op);
                        proof {
                            assert(ops@[idx as int]@ == record_model(lm[idx as int])->0);
                        }
                    },
                }
            },
        }
        idx += 1;
    }
    proof {
        assert(ops_model(ops@) =~= records_of(lm));
    }
    Ok(ops)
}

/// Renders the reduced groups back into log lines.
fn render_groups(groups: &Vec<ResourceStack>) -> (out: Vec<String>)
    ensures
        lines_model(out@) == rendered(flatten_groups(groups_model(groups@))),
{
    let ghost gm = groups_model(groups@);
    let mut out: Vec<String> = Vec::new();
    let mut gi: usize = 0;
    proof {
        assert(lines_model(out@) =~= rendered(flatten_to(gm, 0)));
    }
    while gi < groups.len()
        invariant
            gi <= groups.len(),
            gm == groups_model(groups@),
            lines_model(out@) == rendered(flatten_to(gm, gi as int)),
        decreases groups.len() - gi,
    {
        let g = &groups[gi];
        let mut oi: usize = 0;
        proof {
            assert(flatten_to(gm, gi as int) + gm[gi as int].stack.take(0) =~= flatten_to(
                gm,
                gi as int,
            ));
        }
        while oi < g.ops.len()
            invariant
                oi <= g.ops.len(),
                gi < groups.len(),
                g == groups@[gi as int],
                gm == groups_model(groups@),
                lines_model(out@) == rendered(
                    flatten_to(gm, gi as int) + gm[gi as int].stack.take(oi as int),
                ),
            decreases g.ops.len() - oi,
        {
            let line = render(&g.ops[oi]);
            out.push(line);
            proof {
                let prev = flatten_to(gm, gi as int) + gm[gi as int].stack.take(oi as int);
                let next = flatten_to(gm, gi as int) + gm[gi as int].stack.take(oi as int + 1);
                assert(next =~= prev.push(g.ops@[oi as int]@));
                assert(rendered(next) =~= rendered(prev).push(render_model(g.ops@[oi as int]@)));
                assert(lines_model(out@) =~= rendered(next));
            }
            oi += 1;
        }
        proof {
            assert(gm[gi as int].stack.take(gm[gi as int].stack.len() as int) =~= gm[
                gi as int
            ].stack);
            assert(flatten_to(gm, gi as int) + gm[gi as int].stack =~= flatten_to(
                gm,
                gi as int + 1,
            ));
        }
        gi += 1;
    }
    out
}

/// Reduces a whole session log, given as its lines.  On success the result
/// is the cleaned log's lines: each resource key's surviving records in
/// order, keys in order of first appearance.  On failure — a malformed line
/// or a create-after-update conflict — nothing is produced, so the caller
/// leaves the stored log untouched.
pub fn clean_session_calls(lines: &Vec<String>) -> (r: Result<Vec<String>, ReduceError>)
    ensures
        match r {
            Ok(out) => {
                &&& records_ok(lines_model(lines@))
                &&& reduce_model(records_of(lines_model(lines@))) is Some
                &&& lines_model(out@) == rendered(
                    flatten_groups(reduce_model(records_of(lines_model(lines@)))->0),
                )
            },
            Err(ReduceError::MalformedRecord { line }) => {
                &&& line < lines@.len()
                &&& record_model(lines@[line as int]@) is None
                &&& forall|j: int| 0 <= j < line ==> record_model(lines@[j]@) is Some
            },
            Err(ReduceError::ConflictingSequence { endpoint }) => {
                &&& records_ok(lines_model(lines@))
                &&& reduce_model(records_of(lines_model(lines@))) is None
                &&& endpoint@ == conflict_endpoint(records_of(lines_model(lines@)))
            },
        },
{
    let ops = match parse_log(lines) {
        Ok(ops) => ops,
        Err(e) => {
            return Err(e);
        },
    };
    let groups = match reduce_log(&ops) {
        Ok(groups) => groups,
        Err(e) => {
            return Err(e);
        },
    };
    Ok(render_groups(&groups))
}

proof fn lemma_apply_keys_no_space(gs: Seq<GroupModel>, op: OpModel)
    requires
        forall|i: int| 0 <= i < gs.len() ==> no_space(#[trigger] gs[i].key),
        no_space(op.endpoint),
    ensures
        apply_model(gs, op) matches Some(g2) ==> forall|i: int|
            0 <= i < g2.len() ==> no_space(#[trigger] g2[i].key),
{
    if op.method != Method::Get && has_key(gs, op.endpoint) {
        let i = key_index(gs, op.endpoint);
        match step_model(gs[i].stack, op) {
            None => {},
            Some(st) => {
                if st.len() == 0 {
                    let g2 = gs.remove(i);
                    assert forall|a: int| 0 <= a < g2.len() implies no_space(#[trigger] g2[a].key) by {
                        if a < i {
                            assert(g2[a] == gs[a]);
                        } else {
                            assert(g2[a] == gs[a + 1]);
                        }
                    }
                }
            },
        }
    }
}

/// Every key of a reduced log is an endpoint of some input record, so it
/// holds no space.
proof fn lemma_reduce_keys_no_space(gs: Seq<GroupModel>, ops: Seq<OpModel>)
    requires
        forall|i: int| 0 <= i < gs.len() ==> no_space(#[trigger] gs[i].key),
        forall|i: int| 0 <= i < ops.len() ==> no_space(#[trigger] ops[i].endpoint),
    ensures
        reduce_from(gs, ops) matches Some(g2) ==> forall|i: int|
            0 <= i < g2.len() ==> no_space(#[trigger] g2[i].key),
    decreases ops.len(),
{
    if ops.len() > 0 {
        lemma_apply_keys_no_space(gs, ops[0]);
        match apply_model(gs, ops[0]) {
            None => {},
            Some(g2) => {
                assert(forall|i: int|
                    0 <= i < ops.drop_first().len() ==> no_space(
                        #[trigger] ops.drop_first()[i].endpoint,
                    ));
                lemma_reduce_keys_no_space(g2, ops.drop_first());
            },
        }
    }
}

/// Every operation a reduced log lays back out is a mutation on its
/// group's key.
proof fn lemma_flatten_elems(gs: Seq<GroupModel>, n: int)
    requires
        wf_groups(gs),
        forall|i: int| 0 <= i < gs.len() ==> no_space(#[trigger] gs[i].key),
        0 <= n <= gs.len(),
    ensures
        forall|t: int|
            0 <= t < flatten_to(gs, n).len() ==> (#[trigger] flatten_to(gs, n)[t]).method
                != Method::Get && no_space(flatten_to(gs, n)[t].endpoint),
    decreases n,
{
    if n > 0 {
        lemma_flatten_elems(gs, n - 1);
        assert forall|t: int|
            0 <= t < flatten_to(gs, n).len() implies (#[trigger] flatten_to(gs, n)[t]).method
            != Method::Get && no_space(flatten_to(gs, n)[t].endpoint) by {
            let pre = flatten_to(gs, n - 1);
            if t < pre.len() {
                assert(flatten_to(gs, n)[t] == pre[t]);
            } else {
                let e = flatten_to(gs, n)[t];
                assert(e == gs[n - 1].stack[t - pre.len()]);
                assert(e.endpoint == gs[n - 1].key);
            }
        }
    }
}

/// The lines a successful cleaning writes parse back, record for record,
/// to the reduced operations they stand for — and none of those records is
/// a GET.
pub proof fn lemma_clean_output_parses(lines: Seq<Seq<char>>, gs: Seq<GroupModel>)
    requires
        records_ok(lines),
        reduce_model(records_of(lines)) == Some(gs),
    ensures
        records_ok(rendered(flatten_groups(gs))),
        records_of(rendered(flatten_groups(gs))) == flatten_groups(gs),
        forall|t: int|
            0 <= t < flatten_groups(gs).len() ==> (#[trigger] flatten_groups(gs)[t]).method
                != Method::Get,
{
    let ops = records_of(lines);
    let flat = flatten_groups(gs);
    let out = rendered(flat);
    assert forall|i: int| 0 <= i < ops.len() implies no_space(#[trigger] ops[i].endpoint) by {
        assert(record_model(lines[i]) is Some);
        lemma_parse_line_fields(lines[i]);
    }
    lemma_reduce_from_wf(Seq::empty(), ops);
    lemma_reduce_keys_no_space(Seq::empty(), ops);
    lemma_flatten_elems(gs, gs.len() as int);
    assert forall|t: int| 0 <= t < out.len() implies record_model(#[trigger] out[t]) == Some(
        flat[t],
    ) by {
        assert(out[t] == render_model(flat[t]));
        lemma_parse_render(flat[t]);
        crate::record::lemma_method_chars_roundtrip(flat[t].method);
        assert(record_model(out[t])->0 =~= flat[t]);
    }
    assert(records_of(out) =~= flat);
}

/// Idempotence of reduction, stated on the log's lines: cleaning the lines
/// a successful cleaning produced gives those lines back unchanged — for
/// every reduced log in which no resource stack is a delete followed by an
/// update (a delete, create, update history leaves such a stack, and
/// cleaning it again collapses the pair into one synthesized delete).
pub proof fn lemma_clean_idempotent(lines: Seq<Seq<char>>, gs: Seq<GroupModel>)
    requires
        records_ok(lines),
        reduce_model(records_of(lines)) == Some(gs),
        forall|i: int|
            0 <= i < gs.len() ==> !((#[trigger] gs[i].stack).len() == 2 && gs[i].stack[1].method
                == Method::Put),
    ensures
        ({
            let out = rendered(flatten_groups(gs));
            &&& records_ok(out)
            &&& records_of(out) == flatten_groups(gs)
            &&& reduce_model(records_of(out)) == Some(gs)
            &&& rendered(flatten_groups(gs)) == out
        }),
{
    lemma_clean_output_parses(lines, gs);
    lemma_reduction_idempotent(records_of(lines), gs);
}

/// A line holding nothing but spaces.
pub open spec fn blank(s: Seq<char>) -> bool {
    forall|i: int| 0 <= i < s.len() ==> s[i] == ' '
}

/// The operations a log's lines stand for, blank lines skipped; `None` when
/// a non-blank line is malformed.
pub open spec fn collected(ls: Seq<Seq<char>>) -> Option<Seq<OpModel>>
    decreases ls.len(),
{
    if ls.len() == 0 {
        Some(Seq::empty())
    } else {
        match collected(ls.drop_last()) {
            None => None,
            Some(ops) => {
                if blank(ls.last()) {
                    Some(ops)
                } else {
                    match record_model(ls.last()) {
                        None => None,
                        Some(op) => Some(ops.push(op)),
                    }
                }
            },
        }
    }
}

fn is_blank(s: &str) -> (r: bool)
    ensures
        r == blank(s@),
{
    let n = s.unicode_len();
    let mut i: usize = 0;
    while i < n
        invariant
            i <= n,
            n == s@.len(),
            forall|j: int| 0 <= j < i ==> s@[j] == ' ',
        decreases n - i,
    {
        if s.get_char(i) != ' ' {
            return false;
        }
        i += 1;
    }
    true
}

/// Loads the calls of one session log from its lines: skips blank lines,
/// parses every other line into an operation, and fails on the first line
/// that is not a well-formed record, naming its index.
pub fn collect_session_calls(lines: &Vec<String>) -> (r: Result<Vec<Op>, ReduceError>)
    ensures
        match r {
            Ok(ops) => collected(lines_model(lines@)) == Some(ops_model(ops@)),
            Err(e) => {
                &&& e matches ReduceError::MalformedRecord { line }
                &&& line < lines@.len()
                &&& !blank(lines@[line as int]@)
                &&& record_model(lines@[line as int]@) is None
                &&& forall|j: int|
                    0 <= j < line ==> blank(#[trigger] lines@[j]@) || record_model(lines@[j]@)
                        is Some
                &&& collected(lines_model(lines@)) is None
            },
        },
{
    let ghost lm = lines_model(lines@);
    let mut ops: Vec<Op> = Vec::new();
    let mut idx: usize = 0;
    proof {
        assert(lm.take(0) =~= Seq::<Seq<char>>::empty());
        assert(ops_model(ops@) =~= Seq::<OpModel>::empty());
    }
    while idx < lines.len()
        invariant
            idx <= lines.len(),
            lm == lines_model(lines@),
            collected(lm.take(idx as int)) == Some(ops_model(ops@)),
            forall|j: int|
                0 <= j < idx ==> blank(#[trigger] lm[j]) || record_model(lm[j]) is Some,
        decreases lines.len() - idx,
    {
        proof {
            assert(lm[idx as int] == lines@[idx as int]@);
            assert(lm.take(idx as int + 1).drop_last() =~= lm.take(idx as int));
            assert(lm.take(idx as int + 1).last() == lm[idx as int]);
        }
        let line = &lines[idx];
        if !is_blank(line.as_str()) {
            match parse_line(line.as_str()) {
                None => {
                    proof {
                        lemma_collected_extends_none(lm, idx as int);
                        assert forall|j: int|
                            0 <= j < idx implies blank(#[trigger] lines@[j]@) || record_model(
                            lines@[j]@,
                        ) is Some by {
                            assert(lm[j] == lines@[j]@);
                        }
                    }
                    return Err(ReduceError::MalformedRecord { line: idx });
                },
                Some((m, endpoint, payload)) => {
                    match parse_method(m.as_str()) {
                        None => {
                            proof {
                                lemma_collected_extends_none(lm, idx as int);
                                assert forall|j: int|
                                    0 <= j < idx implies blank(#[trigger] lines@[j]@)
                                    || record_model(lines@[j]@) is Some by {
                                    assert(lm[j] == lines@[j]@);
                                }
                            }
                            return Err(ReduceError::MalformedRecord { line: idx });
                        },
                        Some(method) => {
                            let op = Op { method, endpoint, payload };
                            proof {
                                assert(record_model(lm[idx as int]) is Some);
                                assert(op@ =~= record_model(lm[idx as int])->0);
                            }
                            ops.push(op);
                            proof {
                                assert(ops_model(ops@) =~= ops_model(ops@.drop_last()).push(
                                    op@,
                                ));
                            }
                        },
                    }
                },
            }
        }
        idx += 1;
    }
    proof {
        assert(lm.take(idx as int) =~= lm);
    }
    Ok(ops)
}

/// Once some prefix's collection fails, the whole log's collection fails.
proof fn lemma_collected_extends_none(ls: Seq<Seq<char>>, n: int)
    requires
        0 <= n < ls.len(),
        !blank(ls[n]),
        record_model(ls[n]) is None,
    ensures
        collected(ls) is None,
    decreases ls.len(),
{
    if ls.len() > 0 {
        if n == ls.len() - 1 {
            assert(ls.last() == ls[n]);
            match collected(ls.drop_last()) {
                None => {},
                Some(_) => {},
            }
        } else {
            assert(ls.drop_last()[n] == ls[n]);
            lemma_collected_extends_none(ls.drop_last(), n);
        }
    }
}

} // verus!
