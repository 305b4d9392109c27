//! Render graph scheduling: passes with dependencies and attachment reads
//! and writes, ordered topologically, validated, and annotated with the
//! resource-state transitions and barriers between passes.
use std::collections::VecDeque;
use vstd::prelude::*;
use vstd::seq_lib::*;
use vstd::set_lib::*;

pub mod pass_ids;
pub mod attachment_ids;
pub mod aliasing;

use crate::decimal::push_u64;
use crate::decimal::spec_decimal;
use crate::assoc::{assoc_map, keys_distinct, lemma_assoc_absent, lemma_assoc_dom, lemma_assoc_index, lemma_assoc_push, lemma_assoc_set};

verus! {

broadcast use vstd::seq_lib::group_seq_properties;

/// Unique identifier for a render pass.
#[derive(Debug, Clone, Copy, PartialEq, Eq, Hash, Structural)]
pub struct PassId(pub u64);

/// Identifier for an attachment.
#[derive(Debug, Clone, Copy, PartialEq, Eq, Hash, Structural)]
pub struct AttachmentId(pub u64);

/// Errors that can occur during render graph compilation/validation.
#[derive(Debug)]
pub enum RenderGraphError {
    /// The graph contains a dependency cycle involving these passes.
    CycleDetected(Vec<PassId>),
    /// A pass reads from an attachment that no earlier pass writes.
    MissingWriter { reader: PassId, attachment: AttachmentId },
    /// A pass reads an attachment written by another pass without an explicit
    /// dependency (direct or transitive).
    MissingDependency { reader: PassId, writer: PassId, attachment: AttachmentId },
}

/// Debug text of a pass identifier: `PassId(n)`.
pub open spec fn pass_text(p: PassId) -> Seq<char> {
    "PassId("@ + spec_decimal(p.0 as nat) + ")"@
}

/// Debug text of an attachment identifier: `AttachmentId(n)`.
pub open spec fn attachment_text(a: AttachmentId) -> Seq<char> {
    "AttachmentId("@ + spec_decimal(a.0 as nat) + ")"@
}

/// The first `k` pass identifiers, separated by `, `.
pub open spec fn pass_list_items(ids: Seq<PassId>, k: nat) -> Seq<char>
    decreases k,
{
    if k == 0 {
        Seq::empty()
    } else if k == 1 {
        pass_text(ids[0])
    } else {
        pass_list_items(ids, (k - 1) as nat) + ", "@ + pass_text(ids[k - 1])
    }
}

/// Debug text of a list of pass identifiers: `[PassId(a), PassId(b)]`.
pub open spec fn pass_list_text(ids: Seq<PassId>) -> Seq<char> {
    "["@ + pass_list_items(ids, ids.len()) + "]"@
}

/// The message of an error.
pub open spec fn error_text(e: RenderGraphError) -> Seq<char> {
    match e {
        RenderGraphError::CycleDetected(ids) => "render graph cycle involving passes: "@ + pass_list_text(ids@),
        RenderGraphError::MissingWriter { reader, attachment } => "pass "@ + pass_text(reader) + " reads attachment "@
            + attachment_text(attachment) + " but no pass writes it"@,
        RenderGraphError::MissingDependency { reader, writer, attachment } => "pass "@ + pass_text(reader)
            + " reads attachment "@ + attachment_text(attachment) + " written by "@ + pass_text(writer)
            + " but has no dependency on it"@,
    }
}

fn push_pass(s: &mut String, p: PassId)
    ensures
        final(s)@ == old(s)@ + pass_text(p),
{
    s.append("PassId(");
    push_u64(s, p.0);
    s.append(")");
    assert(final(s)@ =~= old(s)@ + pass_text(p));
}

fn push_attachment(s: &mut String, a: AttachmentId)
    ensures
        final(s)@ == old(s)@ + attachment_text(a),
{
    s.append("AttachmentId(");
    push_u64(s, a.0);
    s.append(")");
    assert(final(s)@ =~= old(s)@ + attachment_text(a));
}

impl RenderGraphError {
    /// The error's message, naming passes and attachments by their debug
    /// text.
    pub fn message(&self) -> (s: String)
        ensures
            s@ == error_text(*self),
    {
        let mut s = String::new();
        match self {
            RenderGraphError::CycleDetected(ids) => {
                s.append("render graph cycle involving passes: ");
                let ghost head = s@;
                s.append("[");
                let n = ids.len();
                let mut i: usize = 0;
                while i < n
                    invariant
                        n == ids@.len(),
                        i <= n,
                        s@ == head + "["@ + pass_list_items(ids@, i as nat),
                    decreases n - i,
                {
                    if i > 0 {
                        s.append(", ");
                    }
                    push_pass(&mut s, ids[i]);
                    proof {
                        if i == 0 {
                            assert(s@ =~= head + "["@ + pass_list_items(ids@, 1));
                        } else {
                            assert(s@ =~= head + "["@ + pass_list_items(ids@, (i + 1) as nat));
                        }
                    }
                    i = i + 1;
                }
                s.append("]");
                assert(s@ =~= error_text(*self));
            },
            RenderGraphError::MissingWriter { reader, attachment } => {
                s.append("pass ");
                push_pass(&mut s, *reader);
                s.append(" reads attachment ");
                push_attachment(&mut s, *attachment);
                s.append(" but no pass writes it");
                assert(s@ =~= error_text(*self));
            },
            RenderGraphError::MissingDependency { reader, writer, attachment } => {
                s.append("pass ");
                push_pass(&mut s, *reader);
                s.append(" reads attachment ");
                push_attachment(&mut s, *attachment);
                s.append(" written by ");
                push_pass(&mut s, *writer);
                s.append(" but has no dependency on it");
                assert(s@ =~= error_text(*self));
            },
        }
        s
    }
}

/// The scheduling data of a pass: what it depends on, reads and writes.
pub struct PassNode {
    /// Passes that must complete before this pass runs.
    pub dependencies: Vec<PassId>,
    /// Input attachments this pass reads from.
    pub inputs: Vec<AttachmentId>,
    /// Output attachments this pass writes to.
    pub outputs: Vec<AttachmentId>,
}

/// Abstract content of a pass node.
pub struct NodeView {
    pub deps: Seq<PassId>,
    pub inputs: Seq<AttachmentId>,
    pub outputs: Seq<AttachmentId>,
}

impl PassNode {
    pub open spec fn view(&self) -> NodeView {
        NodeView { deps: self.dependencies@, inputs: self.inputs@, outputs: self.outputs@ }
    }
}

/// The render graph: pass nodes and their declaration order.
pub struct RenderGraph {
    nodes: Vec<(PassId, PassNode)>,
    pass_order: Vec<PassId>,
}

/// Dependencies of pass `p` (none for an unknown pass).
pub open spec fn deps_of(nodes: Map<PassId, NodeView>, p: PassId) -> Seq<PassId> {
    if nodes.dom().contains(p) {
        nodes[p].deps
    } else {
        Seq::empty()
    }
}

/// Every dependency of each pass of `order` occurs earlier in `order`.
pub open spec fn respects_deps(order: Seq<PassId>, nodes: Map<PassId, NodeView>) -> bool {
    forall|i: int, k: int|
        #![trigger deps_of(nodes, order[i])[k]]
        0 <= i < order.len() && 0 <= k < deps_of(nodes, order[i]).len() ==> exists|j: int|
            0 <= j < i && order[j] == deps_of(nodes, order[i])[k]
}

/// `order` lists exactly the passes of `passes` and respects dependencies.
pub open spec fn is_topo_order(order: Seq<PassId>, passes: Seq<PassId>, nodes: Map<PassId, NodeView>) -> bool {
    &&& order.len() == passes.len()
    &&& forall|p: PassId| #[trigger] passes.contains(p) ==> order.contains(p)
    &&& forall|p: PassId| #[trigger] order.contains(p) ==> passes.contains(p)
    &&& respects_deps(order, nodes)
}

/// Each of `members` is held back by a dependency that is itself a member
/// or that is not a pass of the graph at all.
pub open spec fn all_blocked(members: Seq<PassId>, passes: Seq<PassId>, nodes: Map<PassId, NodeView>) -> bool {
    forall|m: PassId| #[trigger] members.contains(m) ==> exists|k: int|
        0 <= k < deps_of(nodes, m).len() && (!passes.contains(deps_of(nodes, m)[k]) || members.contains(
            deps_of(nodes, m)[k],
        ))
}

/// Number of entries of `d` that are not in `done`.
pub open spec fn missing(d: Seq<PassId>, done: Seq<PassId>) -> nat
    decreases d.len(),
{
    if d.len() == 0 {
        0
    } else {
        missing(d.drop_last(), done) + if done.contains(d.last()) { 0nat } else { 1nat }
    }
}

/// Number of occurrences of `x` in `d`.
pub open spec fn occ(d: Seq<PassId>, x: PassId) -> nat
    decreases d.len(),
{
    if d.len() == 0 {
        0
    } else {
        occ(d.drop_last(), x) + if d.last() == x { 1nat } else { 0nat }
    }
}

proof fn lemma_missing_empty(d: Seq<PassId>)
    ensures
        missing(d, Seq::empty()) == d.len(),
    decreases d.len(),
{
    if d.len() > 0 {
        lemma_missing_empty(d.drop_last());
    }
}

proof fn lemma_missing_push(d: Seq<PassId>, done: Seq<PassId>, x: PassId)
    requires
        !done.contains(x),
    ensures
        missing(d, done.push(x)) + occ(d, x) == missing(d, done),
    decreases d.len(),
{
    if d.len() > 0 {
        lemma_missing_push(d.drop_last(), done, x);
        let l = d.last();
        if l == x {
            assert(done.push(x).contains(x)) by {
                assert(done.push(x)[done.len() as int] == x);
            }
        } else {
            assert(done.push(x).contains(l) == done.contains(l)) by {
                if done.push(x).contains(l) {
                    let j = choose|j: int| 0 <= j < done.len() + 1 && done.push(x)[j] == l;
                    assert(j < done.len());
                    assert(done[j] == l);
                }
                if done.contains(l) {
                    let j = choose|j: int| 0 <= j < done.len() && done[j] == l;
                    assert(done.push(x)[j] == l);
                }
            }
        }
    }
}

proof fn lemma_missing_zero(d: Seq<PassId>, done: Seq<PassId>)
    ensures
        (missing(d, done) == 0) <==> (forall|k: int| 0 <= k < d.len() ==> done.contains(#[trigger] d[k])),
    decreases d.len(),
{
    if d.len() > 0 {
        lemma_missing_zero(d.drop_last(), done);
        if missing(d, done) == 0 {
            assert forall|k: int| 0 <= k < d.len() implies done.contains(#[trigger] d[k]) by {
                if k < d.len() - 1 {
                    assert(d.drop_last()[k] == d[k]);
                }
            }
        }
        if forall|k: int| 0 <= k < d.len() ==> done.contains(#[trigger] d[k]) {
            assert forall|k: int| 0 <= k < d.drop_last().len() implies done.contains(#[trigger] d.drop_last()[k]) by {
                assert(d.drop_last()[k] == d[k]);
            }
            assert(done.contains(d[d.len() - 1]));
        }
    }
}

proof fn lemma_occ_prefix(d: Seq<PassId>, x: PassId, k: int)
    requires
        0 <= k < d.len(),
    ensures
        occ(d.subrange(0, k + 1), x) == occ(d.subrange(0, k), x) + if d[k] == x { 1nat } else { 0nat },
{
    assert(d.subrange(0, k + 1).drop_last() =~= d.subrange(0, k));
}

proof fn lemma_missing_mono(d: Seq<PassId>, done: Seq<PassId>, x: PassId)
    ensures
        missing(d, done.push(x)) <= missing(d, done),
    decreases d.len(),
{
    if d.len() > 0 {
        lemma_missing_mono(d.drop_last(), done, x);
        let l = d.last();
        if done.contains(l) {
            let j = choose|j: int| 0 <= j < done.len() && done[j] == l;
            assert(done.push(x)[j] == l);
        }
    }
}

/// Passes among the first `j` declared ones that become ready while `id`
/// is placed after `done`: `id` was their last missing dependency.  They
/// are listed in declaration order.
pub open spec fn ready_after(
    passes: Seq<PassId>,
    nodes: Map<PassId, NodeView>,
    done: Seq<PassId>,
    id: PassId,
    j: int,
) -> Seq<PassId>
    decreases j,
{
    if j <= 0 {
        Seq::empty()
    } else {
        let prev = ready_after(passes, nodes, done, id, j - 1);
        let d = deps_of(nodes, passes[j - 1]);
        if missing(d, done) >= 1 && missing(d, done.push(id)) == 0 {
            prev.push(passes[j - 1])
        } else {
            prev
        }
    }
}

/// Passes among the first `j` declared ones without dependencies, in
/// declaration order: the ready queue Kahn's algorithm starts with.
pub open spec fn initially_ready(passes: Seq<PassId>, nodes: Map<PassId, NodeView>, j: int) -> Seq<PassId>
    decreases j,
{
    if j <= 0 {
        Seq::empty()
    } else {
        let prev = initially_ready(passes, nodes, j - 1);
        if deps_of(nodes, passes[j - 1]).len() == 0 {
            prev.push(passes[j - 1])
        } else {
            prev
        }
    }
}

/// Placed passes and ready queue after `t` steps of Kahn's algorithm: each
/// step places the front of the queue and appends, in declaration order,
/// the passes that this made ready; once the queue is empty nothing
/// changes.
pub open spec fn kahn_steps(passes: Seq<PassId>, nodes: Map<PassId, NodeView>, t: nat) -> (Seq<PassId>, Seq<PassId>)
    decreases t,
{
    if t == 0 {
        (Seq::empty(), initially_ready(passes, nodes, passes.len() as int))
    } else {
        let (s, q) = kahn_steps(passes, nodes, (t - 1) as nat);
        if q.len() == 0 {
            (s, q)
        } else {
            (s.push(q[0]), q.drop_first() + ready_after(passes, nodes, s, q[0], passes.len() as int))
        }
    }
}

/// The passes Kahn's algorithm places, in the order it places them, with
/// ready passes taken first-in first-out and queued in declaration order.
pub open spec fn kahn_order(passes: Seq<PassId>, nodes: Map<PassId, NodeView>) -> Seq<PassId> {
    kahn_steps(passes, nodes, passes.len()).0
}

/// The first `a` declared passes that are not in `placed`, in declaration
/// order.
pub open spec fn unplaced(passes: Seq<PassId>, placed: Seq<PassId>, a: int) -> Seq<PassId>
    decreases a,
{
    if a <= 0 {
        Seq::empty()
    } else if placed.contains(passes[a - 1]) {
        unplaced(passes, placed, a - 1)
    } else {
        unplaced(passes, placed, a - 1).push(passes[a - 1])
    }
}

fn contains_pass(v: &Vec<PassId>, x: PassId) -> (r: bool)
    ensures
        r == v@.contains(x),
{
    let mut i: usize = 0;
    while i < v.len()
        invariant
            i <= v@.len(),
            forall|k: int| 0 <= k < i ==> v@[k] != x,
        decreases v@.len() - i,
    {
        if v[i] == x {
            assert(v@[i as int] == x);
            return true;
        }
        i = i + 1;
    }
    false
}

/// Once Kahn's queue runs empty, later steps change nothing.
proof fn lemma_kahn_settled(passes: Seq<PassId>, nodes: Map<PassId, NodeView>, t: nat, u: nat)
    requires
        t <= u,
        kahn_steps(passes, nodes, t).1.len() == 0,
    ensures
        kahn_steps(passes, nodes, u) == kahn_steps(passes, nodes, t),
    decreases u,
{
    if u > t {
        lemma_kahn_settled(passes, nodes, t, (u - 1) as nat);
    }
}

proof fn lemma_ready_after(passes: Seq<PassId>, nodes: Map<PassId, NodeView>, s0: Seq<PassId>, id: PassId, j: int)
    requires
        passes.no_duplicates(),
        0 <= j <= passes.len(),
    ensures
        ready_after(passes, nodes, s0, id, j).no_duplicates(),
        forall|x: PassId| #[trigger] ready_after(passes, nodes, s0, id, j).contains(x) ==> {
            &&& exists|a: int| 0 <= a < j && passes[a] == x
            &&& missing(deps_of(nodes, x), s0) >= 1
            &&& missing(deps_of(nodes, x), s0.push(id)) == 0
        },
        forall|a: int|
            0 <= a < j && missing(deps_of(nodes, passes[a]), s0) >= 1 && missing(deps_of(nodes, passes[a]), s0.push(id))
                == 0 ==> ready_after(passes, nodes, s0, id, j).contains(#[trigger] passes[a]),
    decreases j,
{
    if j > 0 {
        lemma_ready_after(passes, nodes, s0, id, j - 1);
        let prev = ready_after(passes, nodes, s0, id, j - 1);
        let cur = ready_after(passes, nodes, s0, id, j);
        let x = passes[j - 1];
        assert forall|y: PassId| #[trigger] cur.contains(y) implies {
            &&& exists|a: int| 0 <= a < j && passes[a] == y
            &&& missing(deps_of(nodes, y), s0) >= 1
            &&& missing(deps_of(nodes, y), s0.push(id)) == 0
        } by {
            let c = choose|c: int| 0 <= c < cur.len() && cur[c] == y;
            if c < prev.len() {
                assert(prev.contains(y));
            } else {
                assert(y == x);
            }
        }
        if missing(deps_of(nodes, x), s0) >= 1 && missing(deps_of(nodes, x), s0.push(id)) == 0 {
            assert(!prev.contains(x)) by {
                if prev.contains(x) {
                    let a = choose|a: int| 0 <= a < j - 1 && passes[a] == x;
                    assert(passes[a] != passes[j - 1]);
                }
            }
        }
        assert forall|a: int|
            0 <= a < j && missing(deps_of(nodes, passes[a]), s0) >= 1 && missing(deps_of(nodes, passes[a]), s0.push(id)) == 0
                implies cur.contains(#[trigger] passes[a]) by {
            if a < j - 1 {
                assert(prev.contains(passes[a]));
                let c = choose|c: int| 0 <= c < prev.len() && prev[c] == passes[a];
                assert(cur[c] == passes[a]);
            } else {
                assert(cur[cur.len() - 1] == passes[a]);
            }
        }
    }
}

proof fn lemma_occ_contains(d: Seq<PassId>, x: PassId)
    ensures
        (occ(d, x) >= 1) == d.contains(x),
    decreases d.len(),
{
    if d.len() > 0 {
        lemma_occ_contains(d.drop_last(), x);
        if d.drop_last().contains(x) {
            let k = choose|k: int| 0 <= k < d.drop_last().len() && d.drop_last()[k] == x;
            assert(d[k] == x);
        }
        if d.contains(x) {
            let k = choose|k: int| 0 <= k < d.len() && d[k] == x;
            if k < d.len() - 1 {
                assert(d.drop_last()[k] == x);
            }
        }
    }
}

/// A nonempty set of passes that all wait on members or on missing passes
/// admits no topological order.
pub proof fn lemma_blocked_has_no_order(
    members: Seq<PassId>,
    passes: Seq<PassId>,
    nodes: Map<PassId, NodeView>,
    order: Seq<PassId>,
)
    requires
        members.len() > 0,
        forall|m: PassId| #[trigger] members.contains(m) ==> passes.contains(m),
        all_blocked(members, passes, nodes),
    ensures
        !is_topo_order(order, passes, nodes),
{
    if is_topo_order(order, passes, nodes) {
        assert(members.contains(members[0]));
        assert(order.contains(members[0]));
        let i = lemma_first_member(members, order, order.len() as int);
        let m = order[i];
        let k = choose|k: int|
            0 <= k < deps_of(nodes, m).len() && (!passes.contains(deps_of(nodes, m)[k]) || members.contains(
                deps_of(nodes, m)[k],
            ));
        let d = deps_of(nodes, m)[k];
        let j = choose|j: int| 0 <= j < i && order[j] == deps_of(nodes, order[i])[k];
        assert(order.contains(d));
        assert(passes.contains(d));
        assert(members.contains(order[j]));
    }
}

proof fn lemma_initially_ready_all(passes: Seq<PassId>, nodes: Map<PassId, NodeView>, j: int)
    requires
        0 <= j <= passes.len(),
        forall|i: int| 0 <= i < passes.len() ==> #[trigger] deps_of(nodes, passes[i]).len() == 0,
    ensures
        initially_ready(passes, nodes, j) == passes.take(j),
    decreases j,
{
    if j > 0 {
        lemma_initially_ready_all(passes, nodes, j - 1);
        assert(deps_of(nodes, passes[j - 1]).len() == 0);
        assert(passes.take(j - 1).push(passes[j - 1]) =~= passes.take(j));
    }
}

proof fn lemma_ready_after_none(
    passes: Seq<PassId>,
    nodes: Map<PassId, NodeView>,
    done: Seq<PassId>,
    id: PassId,
    j: int,
)
    requires
        j <= passes.len(),
        forall|i: int| 0 <= i < passes.len() ==> #[trigger] deps_of(nodes, passes[i]).len() == 0,
    ensures
        ready_after(passes, nodes, done, id, j) == Seq::<PassId>::empty(),
    decreases j,
{
    if j > 0 {
        lemma_ready_after_none(passes, nodes, done, id, j - 1);
        assert(deps_of(nodes, passes[j - 1]).len() == 0);
    }
}

/// With no dependency on any declared pass, Kahn's order is the
/// declaration order, so sorting succeeds and keeps the passes as added.
pub proof fn lemma_no_dependencies_keep_declaration_order(passes: Seq<PassId>, nodes: Map<PassId, NodeView>)
    requires
        forall|i: int| 0 <= i < passes.len() ==> #[trigger] deps_of(nodes, passes[i]).len() == 0,
    ensures
        kahn_order(passes, nodes) == passes,
{
    lemma_kahn_steps_no_deps(passes, nodes, passes.len());
    assert(passes.take(passes.len() as int) =~= passes);
}

proof fn lemma_kahn_steps_no_deps(passes: Seq<PassId>, nodes: Map<PassId, NodeView>, t: nat)
    requires
        t <= passes.len(),
        forall|i: int| 0 <= i < passes.len() ==> #[trigger] deps_of(nodes, passes[i]).len() == 0,
    ensures
        kahn_steps(passes, nodes, t) == (passes.take(t as int), passes.skip(t as int)),
    decreases t,
{
    if t == 0 {
        lemma_initially_ready_all(passes, nodes, passes.len() as int);
        assert(passes.take(passes.len() as int) =~= passes.skip(0));
        assert(passes.take(0) =~= Seq::<PassId>::empty());
    } else {
        lemma_kahn_steps_no_deps(passes, nodes, (t - 1) as nat);
        let (s, q) = kahn_steps(passes, nodes, (t - 1) as nat);
        assert(q.len() > 0);
        lemma_ready_after_none(passes, nodes, s, q[0], passes.len() as int);
        assert(s.push(q[0]) =~= passes.take(t as int));
        assert(q.drop_first() + Seq::<PassId>::empty() =~= passes.skip(t as int));
    }
}

/// The first position of `order` (before `n`) holding a member, given one.
proof fn lemma_first_member(members: Seq<PassId>, order: Seq<PassId>, n: int) -> (i: int)
    requires
        0 <= n <= order.len(),
        exists|j: int| 0 <= j < n && members.contains(order[j]),
    ensures
        0 <= i < n,
        members.contains(order[i]),
        forall|j: int| 0 <= j < i ==> !members.contains(#[trigger] order[j]),
    decreases n,
{
    if exists|j: int| 0 <= j < n - 1 && members.contains(order[j]) {
        lemma_first_member(members, order, n - 1)
    } else {
        n - 1
    }
}

impl RenderGraph {
    /// Pass nodes by id.
    pub closed spec fn nodes_view(&self) -> Map<PassId, NodeView> {
        assoc_map(self.nodes@.map_values(|e: (PassId, PassNode)| (e.0, e.1.view())))
    }

    /// Declaration order of the passes (the fallback execution order).
    pub closed spec fn passes(&self) -> Seq<PassId> {
        self.pass_order@
    }

    spec fn node_seq(&self) -> Seq<(PassId, NodeView)> {
        self.nodes@.map_values(|e: (PassId, PassNode)| (e.0, e.1.view()))
    }

    /// Consistency: one node per id, and every node's id is a declared pass.
    pub closed spec fn wf(&self) -> bool {
        &&& keys_distinct(self.node_seq())
        &&& forall|i: int| 0 <= i < self.nodes@.len() ==> self.pass_order@.contains(#[trigger] self.nodes@[i].0)
    }

    proof fn lemma_node(&self, i: int)
        requires
            self.wf(),
            0 <= i < self.nodes@.len(),
        ensures
            self.nodes_view().dom().contains(self.nodes@[i].0),
            self.nodes_view()[self.nodes@[i].0] == self.nodes@[i].1.view(),
            deps_of(self.nodes_view(), self.nodes@[i].0) == self.nodes@[i].1.dependencies@,
    {
        lemma_assoc_index(self.node_seq(), i);
    }

    pub fn new() -> (g: Self)
        ensures
            g.wf(),
            g.passes() == Seq::<PassId>::empty(),
            g.nodes_view() == Map::<PassId, NodeView>::empty(),
    {
        let g = RenderGraph { nodes: Vec::new(), pass_order: Vec::new() };
        proof {
            assert(g.nodes_view() =~= Map::<PassId, NodeView>::empty());
        }
        g
    }

    /// Number of pass nodes.
    pub fn pass_count(&self) -> (n: usize)
        requires
            self.wf(),
        ensures
            n == self.nodes_view().dom().len(),
    {
        proof {
            self.lemma_dom_len();
        }
        self.nodes.len()
    }

    /// Declared passes in declaration order (an id added twice is listed
    /// twice).
    pub fn pass_order(&self) -> (o: &Vec<PassId>)
        ensures
            o@ == self.passes(),
    {
        &self.pass_order
    }

    proof fn lemma_dom_len(&self)
        requires
            self.wf(),
        ensures
            self.nodes_view().dom().len() == self.nodes@.len(),
            self.nodes_view().dom().finite(),
    {
        let keys = self.node_seq().map_values(|e: (PassId, NodeView)| e.0);
        assert(keys.no_duplicates()) by {
            assert forall|a: int, b: int| 0 <= a < keys.len() && 0 <= b < keys.len() && a != b implies keys[a] != keys[b] by {
                if a < b {
                    assert(self.node_seq()[a].0 != self.node_seq()[b].0);
                } else {
                    assert(self.node_seq()[b].0 != self.node_seq()[a].0);
                }
            }
        }
        keys.unique_seq_to_set();
        assert(self.nodes_view().dom() =~= keys.to_set()) by {
            assert forall|p: PassId| #[trigger] self.nodes_view().dom().contains(p) == keys.to_set().contains(p) by {
                if self.nodes_view().dom().contains(p) {
                    let a = lemma_assoc_dom(self.node_seq(), p);
                    assert(keys[a] == p);
                }
                if keys.to_set().contains(p) {
                    assert(keys.contains(p));
                    let a = choose|a: int| 0 <= a < keys.len() && keys[a] == p;
                    lemma_assoc_index(self.node_seq(), a);
                }
            }
        }
    }

    fn find_node(&self, id: PassId) -> (r: Option<usize>)
        requires
            self.wf(),
        ensures
            match r {
                Some(i) => i < self.nodes@.len() && self.nodes@[i as int].0 == id,
                None => !self.nodes_view().dom().contains(id),
            },
    {
        let n = self.nodes.len();
        let mut i: usize = 0;
        while i < n
            invariant
                n == self.nodes@.len(),
                i <= n,
                forall|j: int| 0 <= j < i ==> self.nodes@[j].0 != id,
            decreases n - i,
        {
            if self.nodes[i].0 == id {
                return Some(i);
            }
            i = i + 1;
        }
        proof {
            assert forall|j: int| 0 <= j < self.node_seq().len() implies self.node_seq()[j].0 != id by {
                assert(self.nodes@[j].0 != id);
            }
            lemma_assoc_absent(self.node_seq(), id);
        }
        None
    }

    /// Add a pass to the graph, replacing any node with the same id; the id
    /// is appended to the declaration order.
    pub fn add_pass(&mut self, id: PassId)
        requires
            old(self).wf(),
        ensures
            final(self).wf(),
            final(self).passes() == old(self).passes().push(id),
            final(self).nodes_view() == old(self).nodes_view().insert(
                id,
                NodeView { deps: Seq::empty(), inputs: Seq::empty(), outputs: Seq::empty() },
            ),
    {
        let node = PassNode { dependencies: Vec::new(), inputs: Vec::new(), outputs: Vec::new() };
        let ghost nv = node.view();
        let ghost old_seq = self.node_seq();
        match self.find_node(id) {
            Some(i) => {
                self.nodes.set(i, (id, node));
                proof {
                    lemma_assoc_set(old_seq, i as int, nv);
                    assert(self.node_seq() =~= old_seq.update(i as int, (old_seq[i as int].0, nv)));
                }
            },
            None => {
                self.nodes.push((id, node));
                proof {
                    lemma_assoc_push(old_seq, id, nv);
                    assert(self.node_seq() =~= old_seq.push((id, nv)));
                }
            },
        }
        self.pass_order.push(id);
        proof {
            assert(nv =~= NodeView { deps: Seq::empty(), inputs: Seq::empty(), outputs: Seq::empty() });
            assert forall|i: int| 0 <= i < self.nodes@.len() implies self.pass_order@.contains(#[trigger] self.nodes@[i].0) by {
                if self.nodes@[i].0 != id {
                    assert(old_seq[i].0 == self.nodes@[i].0);
                    assert(old(self).pass_order@.contains(old(self).nodes@[i].0));
                    let j = choose|j: int| 0 <= j < old(self).pass_order@.len() && old(self).pass_order@[j] == self.nodes@[i].0;
                    assert(self.pass_order@[j] == self.nodes@[i].0);
                } else {
                    assert(self.pass_order@[self.pass_order@.len() - 1] == id);
                }
            }
        }
    }

    /// Apply `f` to the node of `pass`, if there is one.
    fn update_node(&mut self, pass: PassId, which: u8, value: u64)
        requires
            old(self).wf(),
            which < 3,
        ensures
            final(self).wf(),
            final(self).passes() == old(self).passes(),
            final(self).nodes_view() == if old(self).nodes_view().dom().contains(pass) {
                let n = old(self).nodes_view()[pass];
                old(self).nodes_view().insert(
                    pass,
                    if which == 0 {
                        NodeView { deps: n.deps.push(PassId(value)), inputs: n.inputs, outputs: n.outputs }
                    } else if which == 1 {
                        NodeView { deps: n.deps, inputs: n.inputs, outputs: n.outputs.push(AttachmentId(value)) }
                    } else {
                        NodeView { deps: n.deps, inputs: n.inputs.push(AttachmentId(value)), outputs: n.outputs }
                    },
                )
            } else {
                old(self).nodes_view()
            },
    {
        match self.find_node(pass) {
            Some(i) => {
                let ghost old_seq = self.node_seq();
                proof {
                    self.lemma_node(i as int);
                }
                let mut entry = self.nodes.remove(i);
                if which == 0 {
                    entry.1.dependencies.push(PassId(value));
                } else if which == 1 {
                    entry.1.outputs.push(AttachmentId(value));
                } else {
                    entry.1.inputs.push(AttachmentId(value));
                }
                let ghost nv = entry.1.view();
                self.nodes.insert(i, entry);
                proof {
                    assert(self.node_seq() =~= old_seq.update(i as int, (old_seq[i as int].0, nv)));
                    lemma_assoc_set(old_seq, i as int, nv);
                    assert forall|j: int| 0 <= j < self.nodes@.len() implies self.pass_order@.contains(#[trigger] self.nodes@[j].0) by {
                        assert(self.nodes@[j].0 == old(self).nodes@[j].0);
                    }
                    let n = old(self).nodes_view()[pass];
                    if which == 0 {
                        assert(nv =~= NodeView { deps: n.deps.push(PassId(value)), inputs: n.inputs, outputs: n.outputs });
                    } else if which == 1 {
                        assert(nv =~= NodeView { deps: n.deps, inputs: n.inputs, outputs: n.outputs.push(AttachmentId(value)) });
                    } else {
                        assert(nv =~= NodeView { deps: n.deps, inputs: n.inputs.push(AttachmentId(value)), outputs: n.outputs });
                    }
                }
            },
            None => {},
        }
    }

    /// Add a dependency between passes (ignored for an unknown pass).
    pub fn add_dependency(&mut self, pass: PassId, depends_on: PassId)
        requires
            old(self).wf(),
        ensures
            final(self).wf(),
            final(self).passes() == old(self).passes(),
            final(self).nodes_view() == if old(self).nodes_view().dom().contains(pass) {
                let n = old(self).nodes_view()[pass];
                old(self).nodes_view().insert(pass, NodeView { deps: n.deps.push(depends_on), inputs: n.inputs, outputs: n.outputs })
            } else {
                old(self).nodes_view()
            },
    {
        self.update_node(pass, 0, depends_on.0);
    }

    /// Add an output attachment to a pass (ignored for an unknown pass).
    pub fn add_output(&mut self, pass: PassId, attachment: AttachmentId)
        requires
            old(self).wf(),
        ensures
            final(self).wf(),
            final(self).passes() == old(self).passes(),
            final(self).nodes_view() == if old(self).nodes_view().dom().contains(pass) {
                let n = old(self).nodes_view()[pass];
                old(self).nodes_view().insert(pass, NodeView { deps: n.deps, inputs: n.inputs, outputs: n.outputs.push(attachment) })
            } else {
                old(self).nodes_view()
            },
    {
        self.update_node(pass, 1, attachment.0);
    }

    /// Add an input attachment to a pass (ignored for an unknown pass).
    pub fn add_input(&mut self, pass: PassId, attachment: AttachmentId)
        requires
            old(self).wf(),
        ensures
            final(self).wf(),
            final(self).passes() == old(self).passes(),
            final(self).nodes_view() == if old(self).nodes_view().dom().contains(pass) {
                let n = old(self).nodes_view()[pass];
                old(self).nodes_view().insert(pass, NodeView { deps: n.deps, inputs: n.inputs.push(attachment), outputs: n.outputs })
            } else {
                old(self).nodes_view()
            },
    {
        self.update_node(pass, 2, attachment.0);
    }
}


/// A duplicate-free `a` whose entries all occur in `b` is no longer than `b`.
proof fn lemma_subset_len(a: Seq<PassId>, b: Seq<PassId>)
    requires
        a.no_duplicates(),
        forall|x: PassId| #[trigger] a.contains(x) ==> b.contains(x),
    ensures
        a.len() <= b.len(),
{
    a.unique_seq_to_set();
    b.lemma_cardinality_of_set();
    assert(a.to_set().subset_of(b.to_set()));
    lemma_len_subset(a.to_set(), b.to_set());
}

/// If `a` (duplicate-free, inside `b`) is at least as long as the
/// duplicate-free `b`, every entry of `b` occurs in `a`.
proof fn lemma_subset_full(a: Seq<PassId>, b: Seq<PassId>)
    requires
        a.no_duplicates(),
        b.no_duplicates(),
        forall|x: PassId| #[trigger] a.contains(x) ==> b.contains(x),
        a.len() >= b.len(),
    ensures
        forall|x: PassId| #[trigger] b.contains(x) ==> a.contains(x),
{
    a.unique_seq_to_set();
    b.unique_seq_to_set();
    assert(a.to_set().subset_of(b.to_set()));
    lemma_len_subset(a.to_set(), b.to_set());
    lemma_subset_equality(a.to_set(), b.to_set());
    assert forall|x: PassId| #[trigger] b.contains(x) implies a.contains(x) by {
        assert(b.to_set().contains(x));
        assert(a.to_set().contains(x));
    }
}

/// Passes placed in a dependency-respecting order never belong to a blocked
/// set: every blocked set of passes lies outside `placed`.
proof fn lemma_blocked_unplaced(
    blocked: Seq<PassId>,
    passes: Seq<PassId>,
    nodes: Map<PassId, NodeView>,
    placed: Seq<PassId>,
    b: PassId,
)
    requires
        blocked.contains(b),
        forall|m: PassId| #[trigger] blocked.contains(m) ==> passes.contains(m),
        all_blocked(blocked, passes, nodes),
        respects_deps(placed, nodes),
        forall|x: PassId| #[trigger] placed.contains(x) ==> passes.contains(x),
    ensures
        !placed.contains(b),
{
    if placed.contains(b) {
        let i = lemma_first_member(blocked, placed, placed.len() as int);
        let m = placed[i];
        let k = choose|k: int|
            0 <= k < deps_of(nodes, m).len() && (!passes.contains(deps_of(nodes, m)[k]) || blocked.contains(
                deps_of(nodes, m)[k],
            ));
        let j = choose|j: int| 0 <= j < i && placed[j] == deps_of(nodes, placed[i])[k];
        assert(placed.contains(placed[j]));
        assert(blocked.contains(placed[j]));
    }
}

proof fn lemma_occ_prefix_le(d: Seq<PassId>, x: PassId, k: int)
    requires
        0 <= k <= d.len(),
    ensures
        occ(d.subrange(0, k), x) <= occ(d, x),
    decreases d.len() - k,
{
    if k < d.len() {
        lemma_occ_prefix(d, x, k);
        lemma_occ_prefix_le(d, x, k + 1);
    } else {
        assert(d.subrange(0, k) =~= d);
    }
}

impl RenderGraph {
    /// Order the passes so that every dependency runs first (Kahn's
    /// algorithm, ready passes taken in declaration order).  Fails with
    /// `CycleDetected` listing the passes that can never run, in declaration
    /// order, when no such order exists.
    pub fn topological_sort(&self) -> (r: Result<Vec<PassId>, RenderGraphError>)
        requires
            self.wf(),
            self.passes().no_duplicates(),
        ensures
            match r {
                Ok(order) => {
                    &&& order@ == kahn_order(self.passes(), self.nodes_view())
                    &&& is_topo_order(order@, self.passes(), self.nodes_view())
                },
                Err(RenderGraphError::CycleDetected(ms)) => {
                    &&& kahn_order(self.passes(), self.nodes_view()).len() < self.passes().len()
                    &&& ms@ == unplaced(self.passes(), kahn_order(self.passes(), self.nodes_view()), self.passes().len() as int)
                    &&& ms@.len() > 0
                    &&& ms@.no_duplicates()
                    &&& forall|m: PassId| #[trigger] ms@.contains(m) ==> self.passes().contains(m)
                    &&& all_blocked(ms@, self.passes(), self.nodes_view())
                    &&& forall|b: Seq<PassId>, x: PassId|
                        (forall|m: PassId| #[trigger] b.contains(m) ==> self.passes().contains(m))
                            && all_blocked(b, self.passes(), self.nodes_view()) && #[trigger] b.contains(x)
                            ==> ms@.contains(x)
                    &&& forall|o: Seq<PassId>| !is_topo_order(o, self.passes(), self.nodes_view())
                },
                Err(_) => false,
            },
    {
        let ghost m = self.nodes_view();
        let ghost ns = self.node_seq();
        let ghost pp = self.pass_order@;
        let n = self.nodes.len();
        // In-degree of each node: its number of dependency edges.
        let mut degs: Vec<usize> = Vec::with_capacity(n);
        let mut i: usize = 0;
        while i < n
            invariant
                n == self.nodes@.len(),
                ns == self.node_seq(),
                i <= n,
                degs@.len() == i,
                forall|j: int| 0 <= j < i ==> #[trigger] degs@[j] == missing(ns[j].1.deps, Seq::empty()),
            decreases n - i,
        {
            proof {
                lemma_missing_empty(ns[i as int].1.deps);
            }
            degs.push(self.nodes[i].1.dependencies.len());
            i = i + 1;
        }
        // Ready passes: those without dependencies, in declaration order.
        let mut queue: VecDeque<PassId> = VecDeque::new();
        let np = self.pass_order.len();
        let mut j: usize = 0;
        while j < np
            invariant
                self.wf(),
                m == self.nodes_view(),
                ns == self.node_seq(),
                pp == self.pass_order@,
                pp.no_duplicates(),
                np == pp.len(),
                n == self.nodes@.len(),
                degs@.len() == n,
                forall|a: int| 0 <= a < n ==> #[trigger] degs@[a] == missing(ns[a].1.deps, Seq::empty()),
                j <= np,
                queue@ == initially_ready(pp, m, j as int),
                queue@.no_duplicates(),
                forall|x: PassId| #[trigger] queue@.contains(x) ==> exists|a: int| 0 <= a < j && pp[a] == x,
                forall|x: PassId| #[trigger] queue@.contains(x) ==> missing(deps_of(m, x), Seq::empty()) == 0,
                forall|a: int| 0 <= a < j && missing(deps_of(m, pp[a]), Seq::empty()) == 0 ==> queue@.contains(
                    #[trigger] pp[a],
                ),
            decreases np - j,
        {
            let p = self.pass_order[j];
            let deg = match self.find_node(p) {
                Some(k) => {
                    proof {
                        self.lemma_node(k as int);
                    }
                    degs[k]
                },
                None => 0,
            };
            proof {
                lemma_missing_empty(deps_of(m, p));
            }
            let ghost q0 = queue@;
            if deg == 0 {
                proof {
                    if q0.contains(p) {
                        let a = choose|a: int| 0 <= a < j && pp[a] == p;
                        assert(pp[a] == pp[j as int]);
                    }
                }
                queue.push_back(p);
                proof {
                    assert forall|x: PassId| #[trigger] queue@.contains(x) implies exists|a: int| 0 <= a < j + 1 && pp[a] == x by {
                        let b = choose|b: int| 0 <= b < queue@.len() && queue@[b] == x;
                        if b < q0.len() {
                            assert(q0.contains(x));
                        } else {
                            assert(pp[j as int] == x);
                        }
                    }
                    assert forall|x: PassId| #[trigger] queue@.contains(x) implies missing(deps_of(m, x), Seq::empty()) == 0 by {
                        let b = choose|b: int| 0 <= b < queue@.len() && queue@[b] == x;
                        if b < q0.len() {
                            assert(q0.contains(x));
                        }
                    }
                    assert forall|a: int| 0 <= a < j + 1 && missing(deps_of(m, pp[a]), Seq::empty()) == 0 implies queue@.contains(
                        #[trigger] pp[a],
                    ) by {
                        if a < j {
                            assert(q0.contains(pp[a]));
                            let b = choose|b: int| 0 <= b < q0.len() && q0[b] == pp[a];
                            assert(queue@[b] == pp[a]);
                        } else {
                            assert(queue@[q0.len() as int] == pp[a]);
                        }
                    }
                }
            }
            proof {
                assert(queue@ =~= initially_ready(pp, m, j as int + 1));
            }
            j = j + 1;
        }
        let mut sorted: Vec<PassId> = Vec::with_capacity(np);
        proof {
            assert(sorted@ + queue@ =~= queue@);
            assert forall|a: int| 0 <= a < n implies #[trigger] degs@[a] == missing(ns[a].1.deps, sorted@) by {
                assert(sorted@ =~= Seq::<PassId>::empty());
            }
            lemma_subset_len(queue@, pp);
        }
        while queue.len() > 0
            invariant
                self.wf(),
                m == self.nodes_view(),
                ns == self.node_seq(),
                pp == self.pass_order@,
                pp.no_duplicates(),
                np == pp.len(),
                n == self.nodes@.len(),
                degs@.len() == n,
                (sorted@ + queue@).no_duplicates(),
                sorted@.len() + queue@.len() <= np,
                forall|x: PassId| #[trigger] (sorted@ + queue@).contains(x) ==> pp.contains(x),
                respects_deps(sorted@, m),
                forall|x: PassId| #[trigger] queue@.contains(x) ==> missing(deps_of(m, x), sorted@) == 0,
                forall|p: PassId| #[trigger] pp.contains(p) && missing(deps_of(m, p), sorted@) == 0 ==> (sorted@
                    + queue@).contains(p),
                forall|a: int| 0 <= a < n ==> #[trigger] degs@[a] == missing(ns[a].1.deps, sorted@),
                (sorted@, queue@) == kahn_steps(pp, m, sorted@.len()),
            decreases np - sorted@.len(),
        {
            let ghost s0 = sorted@;
            let ghost q_all = queue@;
            let popped = queue.pop_front();
            let id = match popped {
                Some(x) => x,
                None => {
                    proof {
                        assert(false);
                    }
                    PassId(0)
                },
            };
            let ghost q0 = queue@;
            proof {
                assert(q_all[0] == id);
                assert(q0 =~= q_all.drop_first());
                assert(q_all.contains(id));
                assert((s0 + q_all).contains(id)) by {
                    assert((s0 + q_all)[s0.len() as int] == id);
                }
                assert(!s0.contains(id)) by {
                    if s0.contains(id) {
                        let a = choose|a: int| 0 <= a < s0.len() && s0[a] == id;
                        assert((s0 + q_all)[a] == (s0 + q_all)[s0.len() as int]);
                    }
                }
            }
            sorted.push(id);
            let ghost s1 = sorted@;
            let mut i: usize = 0;
            while i < n
                invariant
                    self.wf(),
                    m == self.nodes_view(),
                    ns == self.node_seq(),
                    n == self.nodes@.len(),
                    degs@.len() == n,
                    !s0.contains(id),
                    s1 == s0.push(id),
                    sorted@ == s1,
                    i <= n,
                    forall|a: int| 0 <= a < i ==> #[trigger] degs@[a] == missing(ns[a].1.deps, s1),
                    forall|a: int| i <= a < n ==> #[trigger] degs@[a] == missing(ns[a].1.deps, s0),
                    queue@ == q0,
                decreases n - i,
            {
                let ghost d = ns[i as int].1.deps;
                proof {
                    lemma_missing_push(d, s0, id);
                }
                let nd = self.nodes[i].1.dependencies.len();
                let mut k: usize = 0;
                while k < nd
                    invariant
                        ns == self.node_seq(),
                        n == self.nodes@.len(),
                        i < n,
                        d == ns[i as int].1.deps,
                        nd == d.len(),
                        degs@.len() == n,
                        k <= nd,
                        missing(d, s1) + occ(d, id) == missing(d, s0),
                        degs@[i as int] + occ(d.subrange(0, k as int), id) == missing(d, s0),
                        forall|a: int| 0 <= a < n && a != i ==> #[trigger] degs@[a] == old_degs_at(a, i as int, s0, s1, ns),
                    decreases nd - k,
                {
                    proof {
                        lemma_occ_prefix(d, id, k as int);
                        lemma_occ_prefix_le(d, id, k as int + 1);
                    }
                    if self.nodes[i].1.dependencies[k] == id {
                        let v = degs[i] - 1;
                        degs.set(i, v);
                    }
                    k = k + 1;
                }
                proof {
                    assert(d.subrange(0, nd as int) =~= d);
                }
                i = i + 1;
            }
            // Passes made ready by `id`, queued in declaration order.
            let mut j2: usize = 0;
            while j2 < np
                invariant
                    self.wf(),
                    m == self.nodes_view(),
                    ns == self.node_seq(),
                    pp == self.pass_order@,
                    np == pp.len(),
                    n == self.nodes@.len(),
                    degs@.len() == n,
                    s1 == s0.push(id),
                    !s0.contains(id),
                    forall|a: int| 0 <= a < n ==> #[trigger] degs@[a] == missing(ns[a].1.deps, s1),
                    j2 <= np,
                    queue@ == q0 + ready_after(pp, m, s0, id, j2 as int),
                decreases np - j2,
            {
                let p = self.pass_order[j2];
                let ghost dp = deps_of(m, p);
                proof {
                    lemma_missing_push(dp, s0, id);
                    lemma_occ_contains(dp, id);
                }
                match self.find_node(p) {
                    Some(k) => {
                        proof {
                            self.lemma_node(k as int);
                        }
                        if degs[k] == 0 && contains_pass(&self.nodes[k].1.dependencies, id) {
                            queue.push_back(p);
                        }
                    },
                    None => {
                        proof {
                            assert(dp =~= Seq::<PassId>::empty());
                        }
                    },
                }
                proof {
                    assert(queue@ =~= q0 + ready_after(pp, m, s0, id, j2 as int + 1));
                }
                j2 = j2 + 1;
            }
            proof {
                self.lemma_pop_step(s0, q_all, q0, id);
                assert(kahn_steps(pp, m, s0.len()) == (s0, q_all));
                assert(sorted@.len() == s0.len() + 1);
                assert(kahn_steps(pp, m, sorted@.len()) == (s1, q0 + ready_after(pp, m, s0, id, np as int)));
            }
        }
        proof {
            assert(queue@.len() == 0);
            assert(sorted@ + queue@ =~= sorted@);
            lemma_kahn_settled(pp, m, sorted@.len(), np as nat);
            assert(sorted@ == kahn_order(pp, m));
        }
        if sorted.len() < self.pass_order.len() {
            // Cycle: the passes that never became ready, in declaration order.
            let mut members: Vec<PassId> = Vec::new();
            let mut a: usize = 0;
            while a < np
                invariant
                    pp == self.pass_order@,
                    np == pp.len(),
                    pp.no_duplicates(),
                    a <= np,
                    members@.no_duplicates(),
                    members@ == unplaced(pp, sorted@, a as int),
                    forall|x: PassId| #[trigger] members@.contains(x) <==> (exists|b: int| 0 <= b < a && pp[b] == x)
                        && !sorted@.contains(x),
                decreases np - a,
            {
                let p = self.pass_order[a];
                let mut found = false;
                let ns2 = sorted.len();
                let mut b: usize = 0;
                while b < ns2
                    invariant
                        ns2 == sorted@.len(),
                        b <= ns2,
                        found == exists|c: int| 0 <= c < b && sorted@[c] == p,
                    decreases ns2 - b,
                {
                    if sorted[b] == p {
                        found = true;
                    }
                    b = b + 1;
                }
                let ghost m0 = members@;
                if !found {
                    members.push(p);
                }
                proof {
                    if found {
                        let c = choose|c: int| 0 <= c < ns2 && sorted@[c] == p;
                        assert(sorted@.contains(p));
                    } else {
                        assert(!sorted@.contains(p));
                    }
                    assert(members@ =~= unplaced(pp, sorted@, a as int + 1));
                    assert forall|x: PassId| #[trigger] members@.contains(x) <==> (exists|c: int| 0 <= c < a + 1 && pp[c] == x)
                        && !sorted@.contains(x) by {
                        if members@.contains(x) {
                            let c = choose|c: int| 0 <= c < members@.len() && members@[c] == x;
                            if c < m0.len() {
                                assert(m0.contains(x));
                            } else {
                                assert(pp[a as int] == x);
                            }
                        }
                        if (exists|c: int| 0 <= c < a + 1 && pp[c] == x) && !sorted@.contains(x) {
                            let c = choose|c: int| 0 <= c < a + 1 && pp[c] == x;
                            if c < a {
                                assert(m0.contains(x));
                                let e = choose|e: int| 0 <= e < m0.len() && m0[e] == x;
                                assert(members@[e] == x);
                            } else {
                                assert(members@[m0.len() as int] == x);
                            }
                        }
                    }
                    if !found {
                        assert forall|e: int, f: int| 0 <= e < members@.len() && 0 <= f < members@.len() && e != f implies members@[e] != members@[f] by {
                            if e < m0.len() && f < m0.len() {
                            } else if e < m0.len() {
                                assert(m0.contains(members@[e]));
                                let c = choose|c: int| 0 <= c < a && pp[c] == members@[e];
                                assert(pp[c] != pp[a as int]);
                            } else if f < m0.len() {
                                assert(m0.contains(members@[f]));
                                let c = choose|c: int| 0 <= c < a && pp[c] == members@[f];
                                assert(pp[c] != pp[a as int]);
                            }
                        }
                    }
                }
                a = a + 1;
            }
            proof {
                self.lemma_cycle_members(sorted@, members@);
            }
            return Err(RenderGraphError::CycleDetected(members));
        }
        proof {
            lemma_subset_full(sorted@, pp);
        }
        Ok(sorted)
    }

    proof fn lemma_cycle_members(&self, placed: Seq<PassId>, ms: Seq<PassId>)
        requires
            self.wf(),
            self.pass_order@.no_duplicates(),
            placed.no_duplicates(),
            placed.len() < self.pass_order@.len(),
            forall|x: PassId| #[trigger] placed.contains(x) ==> self.pass_order@.contains(x),
            respects_deps(placed, self.nodes_view()),
            forall|p: PassId| #[trigger] self.pass_order@.contains(p) && missing(deps_of(self.nodes_view(), p), placed) == 0
                ==> placed.contains(p),
            forall|x: PassId| #[trigger] ms.contains(x) <==> (exists|b: int| 0 <= b < self.pass_order@.len() && self.pass_order@[b] == x)
                && !placed.contains(x),
        ensures
            ms.len() > 0,
            forall|x: PassId| #[trigger] ms.contains(x) ==> self.passes().contains(x),
            all_blocked(ms, self.passes(), self.nodes_view()),
            forall|b: Seq<PassId>, x: PassId|
                (forall|mm: PassId| #[trigger] b.contains(mm) ==> self.passes().contains(mm))
                    && all_blocked(b, self.passes(), self.nodes_view()) && #[trigger] b.contains(x)
                    ==> ms.contains(x),
            forall|o: Seq<PassId>| !is_topo_order(o, self.passes(), self.nodes_view()),
    {
        let pp = self.pass_order@;
        let m = self.nodes_view();
        assert forall|x: PassId| #[trigger] ms.contains(x) implies pp.contains(x) by {
            let b = choose|b: int| 0 <= b < pp.len() && pp[b] == x;
        }
        if ms.len() == 0 {
            assert forall|x: PassId| #[trigger] pp.contains(x) implies placed.contains(x) by {
                let b = choose|b: int| 0 <= b < pp.len() && pp[b] == x;
                if !placed.contains(x) {
                    assert(ms.contains(x));
                }
            }
            lemma_subset_len(pp, placed);
        }
        assert forall|mm: PassId| #[trigger] ms.contains(mm) implies exists|k: int|
            0 <= k < deps_of(m, mm).len() && (!pp.contains(deps_of(m, mm)[k]) || ms.contains(deps_of(m, mm)[k])) by {
            let d = deps_of(m, mm);
            lemma_missing_zero(d, placed);
            assert(missing(d, placed) != 0);
            let k = choose|k: int| 0 <= k < d.len() && !placed.contains(#[trigger] d[k]);
            if pp.contains(d[k]) {
                let b = choose|b: int| 0 <= b < pp.len() && pp[b] == d[k];
                assert(ms.contains(d[k]));
            }
        }
        assert forall|b: Seq<PassId>, x: PassId|
            (forall|mm: PassId| #[trigger] b.contains(mm) ==> pp.contains(mm)) && all_blocked(b, pp, m)
                && #[trigger] b.contains(x) implies ms.contains(x) by {
            lemma_blocked_unplaced(b, pp, m, placed, x);
            let c = choose|c: int| 0 <= c < pp.len() && pp[c] == x;
        }
        assert forall|o: Seq<PassId>| !is_topo_order(o, pp, m) by {
            lemma_blocked_has_no_order(ms, pp, m, o);
        }
    }

    proof fn lemma_pop_step(&self, s0: Seq<PassId>, q_all: Seq<PassId>, q0: Seq<PassId>, id: PassId)
        requires
            self.wf(),
            self.pass_order@.no_duplicates(),
            q_all.len() > 0,
            q_all[0] == id,
            q0 == q_all.drop_first(),
            (s0 + q_all).no_duplicates(),
            forall|x: PassId| #[trigger] (s0 + q_all).contains(x) ==> self.pass_order@.contains(x),
            respects_deps(s0, self.nodes_view()),
            forall|x: PassId| #[trigger] q_all.contains(x) ==> missing(deps_of(self.nodes_view(), x), s0) == 0,
            forall|p: PassId| #[trigger] self.pass_order@.contains(p) && missing(deps_of(self.nodes_view(), p), s0) == 0
                ==> (s0 + q_all).contains(p),
            !s0.contains(id),
        ensures
            ({
                let s1 = s0.push(id);
                let q1 = q0 + ready_after(self.pass_order@, self.nodes_view(), s0, id, self.pass_order@.len() as int);
                &&& (s1 + q1).no_duplicates()
                &&& s1.len() + q1.len() <= self.pass_order@.len()
                &&& forall|x: PassId| #[trigger] (s1 + q1).contains(x) ==> self.pass_order@.contains(x)
                &&& respects_deps(s1, self.nodes_view())
                &&& forall|x: PassId| #[trigger] q1.contains(x) ==> missing(deps_of(self.nodes_view(), x), s1) == 0
                &&& forall|p: PassId| #[trigger] self.pass_order@.contains(p) && missing(deps_of(self.nodes_view(), p), s1)
                    == 0 ==> (s1 + q1).contains(p)
            }),
    {
        let m = self.nodes_view();
        let ns = self.node_seq();
        let n = self.nodes@.len() as int;
        let pp = self.pass_order@;
        let s1 = s0.push(id);
        let nr = ready_after(pp, m, s0, id, pp.len() as int);
        let q1 = q0 + nr;
        // Facts about the newly ready passes.
        lemma_ready_after(pp, m, s0, id, pp.len() as int);
        // Every placed or queued pass has all dependencies placed.
        assert forall|x: PassId| #[trigger] (s0 + q_all).contains(x) implies missing(deps_of(m, x), s0) == 0 by {
            let a = choose|a: int| 0 <= a < (s0 + q_all).len() && (s0 + q_all)[a] == x;
            if a < s0.len() {
                let d = deps_of(m, x);
                lemma_missing_zero(d, s0);
                assert forall|k: int| 0 <= k < d.len() implies s0.contains(#[trigger] d[k]) by {
                    assert(s0[a] == x);
                    let jj = choose|jj: int| 0 <= jj < a && s0[jj] == deps_of(m, s0[a])[k];
                }
            } else {
                assert(q_all[a - s0.len()] == x);
                assert(q_all.contains(x));
            }
        }
        assert forall|x: PassId| #[trigger] s1.contains(x) == (s0.contains(x) || x == id) by {
            if s1.contains(x) {
                let a = choose|a: int| 0 <= a < s1.len() && s1[a] == x;
                if a < s0.len() {
                    assert(s0[a] == x);
                }
            }
            if s0.contains(x) {
                let a = choose|a: int| 0 <= a < s0.len() && s0[a] == x;
                assert(s1[a] == x);
            }
            if x == id {
                assert(s1[s0.len() as int] == x);
            }
        }
        assert forall|x: PassId| #[trigger] (s1 + q1).contains(x) == ((s0 + q_all).contains(x) || nr.contains(x)) by {
            if (s1 + q1).contains(x) {
                let a = choose|a: int| 0 <= a < (s1 + q1).len() && (s1 + q1)[a] == x;
                if a < s0.len() {
                    assert((s0 + q_all)[a] == x);
                } else if a == s0.len() {
                    assert((s0 + q_all)[a] == x);
                } else if a < s1.len() + q0.len() {
                    assert((s0 + q_all)[a] == x);
                } else {
                    assert(nr[a - s1.len() - q0.len()] == x);
                }
            }
            if (s0 + q_all).contains(x) {
                let a = choose|a: int| 0 <= a < (s0 + q_all).len() && (s0 + q_all)[a] == x;
                assert((s1 + q1)[a] == x);
            }
            if nr.contains(x) {
                let a = choose|a: int| 0 <= a < nr.len() && nr[a] == x;
                assert((s1 + q1)[s1.len() + q0.len() + a] == x);
            }
        }
        // No duplicates.
        assert forall|a: int, b: int| 0 <= a < (s1 + q1).len() && 0 <= b < (s1 + q1).len() && a != b implies (s1 + q1)[a] != (s1
            + q1)[b] by {
            let base = s1.len() + q0.len();
            if a < base && b < base {
                assert((s1 + q1)[a] == (s0 + q_all)[a]);
                assert((s1 + q1)[b] == (s0 + q_all)[b]);
            } else if a >= base && b >= base {
                assert((s1 + q1)[a] == nr[a - base]);
                assert((s1 + q1)[b] == nr[b - base]);
            } else {
                let (o, w) = if a < base { (a, b) } else { (b, a) };
                let x = (s1 + q1)[w];
                assert(x == nr[w - base]);
                assert(nr.contains(x));
                assert((s1 + q1)[o] == (s0 + q_all)[o]);
                assert((s0 + q_all).contains((s0 + q_all)[o]));
                if (s1 + q1)[o] == x {
                    assert((s0 + q_all).contains(x));
                    assert(missing(deps_of(m, x), s0) == 0);
                }
            }
        }
        assert forall|x: PassId| #[trigger] (s1 + q1).contains(x) implies pp.contains(x) by {
            if nr.contains(x) {
            }
        }
        lemma_subset_len(s1 + q1, pp);
        // Dependencies of the popped pass are all placed before it.
        assert forall|i: int, k: int|
            #![trigger deps_of(m, s1[i])[k]]
            0 <= i < s1.len() && 0 <= k < deps_of(m, s1[i]).len() implies exists|j: int| 0 <= j < i && s1[j] == deps_of(m, s1[i])[k] by {
            if i < s0.len() {
                assert(s1[i] == s0[i]);
                let j = choose|j: int| 0 <= j < i && s0[j] == deps_of(m, s0[i])[k];
                assert(s1[j] == s0[j]);
            } else {
                let d = deps_of(m, id);
                lemma_missing_zero(d, s0);
                assert(q_all.contains(id));
                assert(s0.contains(d[k]));
                let j = choose|j: int| 0 <= j < s0.len() && s0[j] == d[k];
                assert(s1[j] == s0[j]);
            }
        }
        assert forall|x: PassId| #[trigger] q1.contains(x) implies missing(deps_of(m, x), s1) == 0 by {
            let a = choose|a: int| 0 <= a < q1.len() && q1[a] == x;
            if a < q0.len() {
                assert(q_all[a + 1] == x);
                assert(q_all.contains(x));
                lemma_missing_mono(deps_of(m, x), s0, id);
            } else {
                assert(nr[a - q0.len()] == x);
                assert(nr.contains(x));
            }
        }
        assert forall|p: PassId| #[trigger] pp.contains(p) && missing(deps_of(m, p), s1) == 0 implies (s1 + q1).contains(p) by {
            if missing(deps_of(m, p), s0) == 0 {
                assert((s0 + q_all).contains(p));
            } else {
                // `id` was the last missing dependency of `p`.
                let a = choose|a: int| 0 <= a < pp.len() && pp[a] == p;
                assert(nr.contains(pp[a]));
            }
        }
    }
}

/// Degree that node `a` has at the current point of the inner loop: nodes
/// before `i` already account for the popped pass, later ones do not.
spec fn old_degs_at(a: int, i: int, s0: Seq<PassId>, s1: Seq<PassId>, ns: Seq<(PassId, NodeView)>) -> nat {
    if a < i {
        missing(ns[a].1.deps, s1)
    } else {
        missing(ns[a].1.deps, s0)
    }
}

/// `path` follows dependency edges: each entry depends on the next.
pub open spec fn dep_path(nodes: Map<PassId, NodeView>, path: Seq<PassId>) -> bool {
    &&& path.len() >= 2
    &&& forall|i: int| 0 <= i < path.len() - 1 ==> deps_of(nodes, path[i]).contains(#[trigger] path[i + 1])
}

/// Pass `a` depends on `b`, directly or transitively.
pub open spec fn depends_on(nodes: Map<PassId, NodeView>, a: PassId, b: PassId) -> bool {
    exists|path: Seq<PassId>| #[trigger] dep_path(nodes, path) && path[0] == a && path.last() == b
}

proof fn lemma_depends_direct(nodes: Map<PassId, NodeView>, a: PassId, d: PassId)
    requires
        deps_of(nodes, a).contains(d),
    ensures
        depends_on(nodes, a, d),
{
    let path = seq![a, d];
    assert(dep_path(nodes, path));
}

proof fn lemma_depends_extend(nodes: Map<PassId, NodeView>, a: PassId, v: PassId, d: PassId)
    requires
        depends_on(nodes, a, v),
        deps_of(nodes, v).contains(d),
    ensures
        depends_on(nodes, a, d),
{
    let path = choose|path: Seq<PassId>| #[trigger] dep_path(nodes, path) && path[0] == a && path.last() == v;
    let p2 = path.push(d);
    assert forall|i: int| 0 <= i < p2.len() - 1 implies deps_of(nodes, p2[i]).contains(#[trigger] p2[i + 1]) by {
        if i < path.len() - 1 {
            assert(p2[i] == path[i] && p2[i + 1] == path[i + 1]);
        } else {
            assert(p2[i] == v);
        }
    }
    assert(dep_path(nodes, p2));
}

/// Sum of the dependency counts of the nodes (among the first `i`) whose
/// id is not in `seen`.
spec fn unexpanded(ns: Seq<(PassId, NodeView)>, seen: Seq<PassId>, i: int) -> nat
    decreases i,
{
    if i <= 0 {
        0
    } else {
        unexpanded(ns, seen, i - 1) + if seen.contains(ns[i - 1].0) { 0nat } else { ns[i - 1].1.deps.len() }
    }
}

proof fn lemma_unexpanded_push(ns: Seq<(PassId, NodeView)>, seen: Seq<PassId>, v: PassId, i: int)
    requires
        keys_distinct(ns),
        !seen.contains(v),
        0 <= i <= ns.len(),
    ensures
        unexpanded(ns, seen.push(v), i) + (if exists|j: int| 0 <= j < i && ns[j].0 == v {
            ns[choose|j: int| 0 <= j < i && ns[j].0 == v].1.deps.len()
        } else {
            0nat
        }) == unexpanded(ns, seen, i),
    decreases i,
{
    if i > 0 {
        lemma_unexpanded_push(ns, seen, v, i - 1);
        let x = ns[i - 1].0;
        assert(seen.push(v).contains(x) == (seen.contains(x) || x == v)) by {
            if seen.push(v).contains(x) {
                let a = choose|a: int| 0 <= a < seen.len() + 1 && seen.push(v)[a] == x;
                if a < seen.len() {
                    assert(seen[a] == x);
                }
            }
            if seen.contains(x) {
                let a = choose|a: int| 0 <= a < seen.len() && seen[a] == x;
                assert(seen.push(v)[a] == x);
            }
            if x == v {
                assert(seen.push(v)[seen.len() as int] == x);
            }
        }
        if x == v {
            assert(!exists|j: int| 0 <= j < i - 1 && ns[j].0 == v) by {
                if exists|j: int| 0 <= j < i - 1 && ns[j].0 == v {
                    let j = choose|j: int| 0 <= j < i - 1 && ns[j].0 == v;
                    assert(ns[j].0 != ns[i - 1].0);
                }
            }
            let c = choose|j: int| 0 <= j < i && ns[j].0 == v;
            if c != i - 1 {
                assert(ns[c].0 != ns[i - 1].0);
            }
        } else {
            if exists|j: int| 0 <= j < i && ns[j].0 == v {
                let c = choose|j: int| 0 <= j < i && ns[j].0 == v;
                assert(c != i - 1);
                assert(exists|j: int| 0 <= j < i - 1 && ns[j].0 == v);
                let c2 = choose|j: int| 0 <= j < i - 1 && ns[j].0 == v;
                if c != c2 {
                    if c < c2 {
                        assert(ns[c].0 != ns[c2].0);
                    } else {
                        assert(ns[c2].0 != ns[c].0);
                    }
                }
            }
        }
    }
}

impl RenderGraph {
    /// All passes that `id` depends on, directly or transitively.
    fn transitive_deps(&self, id: PassId) -> (v: Vec<PassId>)
        requires
            self.wf(),
        ensures
            v@.no_duplicates(),
            forall|x: PassId| #[trigger] v@.contains(x) <==> depends_on(self.nodes_view(), id, x),
    {
        let ghost m = self.nodes_view();
        let ghost ns = self.node_seq();
        let nn = self.nodes.len();
        let mut visited: Vec<PassId> = Vec::new();
        let mut stack: Vec<PassId> = Vec::new();
        match self.find_node(id) {
            Some(i) => {
                proof {
                    self.lemma_node(i as int);
                }
                let nd = self.nodes[i].1.dependencies.len();
                let mut k: usize = 0;
                while k < nd
                    invariant
                        i < self.nodes@.len(),
                        nd == self.nodes@[i as int].1.dependencies@.len(),
                        k <= nd,
                        stack@ == self.nodes@[i as int].1.dependencies@.subrange(0, k as int),
                    decreases nd - k,
                {
                    stack.push(self.nodes[i].1.dependencies[k]);
                    k = k + 1;
                }
                proof {
                    assert(stack@ =~= deps_of(m, id));
                }
            },
            None => {
                proof {
                    assert(stack@ =~= deps_of(m, id));
                }
            },
        }
        proof {
            assert forall|x: PassId| #[trigger] (visited@ + stack@).contains(x) implies depends_on(m, id, x) by {
                assert(visited@ + stack@ =~= stack@);
                lemma_depends_direct(m, id, x);
            }
            assert forall|x: PassId| #[trigger] deps_of(m, id).contains(x) implies (visited@ + stack@).contains(x) by {
                assert(visited@ + stack@ =~= stack@);
            }
        }
        while stack.len() > 0
            invariant
                self.wf(),
                m == self.nodes_view(),
                ns == self.node_seq(),
                nn == self.nodes@.len(),
                visited@.no_duplicates(),
                forall|x: PassId| #[trigger] (visited@ + stack@).contains(x) ==> depends_on(m, id, x),
                forall|x: PassId| #[trigger] deps_of(m, id).contains(x) ==> (visited@ + stack@).contains(x),
                forall|v: PassId, x: PassId| #[trigger] visited@.contains(v) && #[trigger] deps_of(m, v).contains(x)
                    ==> (visited@ + stack@).contains(x),
            decreases stack@.len() + unexpanded(ns, visited@, nn as int),
        {
            let ghost st0 = stack@;
            let ghost vis0 = visited@;
            let dep = match stack.pop() {
                Some(d) => d,
                None => {
                    proof {
                        assert(false);
                    }
                    PassId(0)
                },
            };
            let ghost st1 = stack@;
            proof {
                assert(st0 =~= st1.push(dep));
                assert((vis0 + st0).contains(dep)) by {
                    assert((vis0 + st0)[(vis0.len() + st1.len()) as int] == dep);
                }
            }
            let mut seen = false;
            let nv = visited.len();
            let mut a: usize = 0;
            while a < nv
                invariant
                    nv == visited@.len(),
                    a <= nv,
                    seen == exists|b: int| 0 <= b < a && visited@[b] == dep,
                decreases nv - a,
            {
                if visited[a] == dep {
                    seen = true;
                }
                a = a + 1;
            }
            if !seen {
                visited.push(dep);
                proof {
                    lemma_unexpanded_push(ns, vis0, dep, nn as int);
                }
                match self.find_node(dep) {
                    Some(i) => {
                        proof {
                            self.lemma_node(i as int);
                            lemma_assoc_index(ns, i as int);
                        }
                        let nd = self.nodes[i].1.dependencies.len();
                        let mut k: usize = 0;
                        while k < nd
                            invariant
                                i < self.nodes@.len(),
                                nd == self.nodes@[i as int].1.dependencies@.len(),
                                k <= nd,
                                stack@ == st1 + self.nodes@[i as int].1.dependencies@.subrange(0, k as int),
                            decreases nd - k,
                        {
                            stack.push(self.nodes[i].1.dependencies[k]);
                            k = k + 1;
                            assert(stack@ =~= st1 + self.nodes@[i as int].1.dependencies@.subrange(0, k as int));
                        }
                        proof {
                            assert(stack@ =~= st1 + deps_of(m, dep));
                            assert(ns[i as int].0 == dep);
                            let c = choose|j: int| 0 <= j < nn && ns[j].0 == dep;
                            if c != i {
                                if c < i {
                                    assert(ns[c].0 != ns[i as int].0);
                                } else {
                                    assert(ns[i as int].0 != ns[c].0);
                                }
                            }
                        }
                    },
                    None => {
                        proof {
                            assert(stack@ =~= st1 + deps_of(m, dep));
                            if exists|j: int| 0 <= j < nn && ns[j].0 == dep {
                                let c = choose|j: int| 0 <= j < nn && ns[j].0 == dep;
                                lemma_assoc_index(ns, c);
                            }
                        }
                    },
                }
                proof {
                    let vis1 = visited@;
                    assert(vis1 == vis0.push(dep));
                    assert forall|x: PassId| #[trigger] (vis1 + stack@).contains(x) == ((vis0 + st0).contains(x) || deps_of(m, dep).contains(x)) by {
                        let d = deps_of(m, dep);
                        if (vis1 + stack@).contains(x) {
                            let b = choose|b: int| 0 <= b < (vis1 + stack@).len() && (vis1 + stack@)[b] == x;
                            if b < vis0.len() {
                                assert((vis0 + st0)[b] == x);
                            } else if b == vis0.len() {
                                assert(x == dep);
                            } else if b < vis1.len() + st1.len() {
                                assert((vis0 + st0)[b - 1] == x);
                            } else {
                                assert(d[b - vis1.len() - st1.len()] == x);
                            }
                        }
                        if (vis0 + st0).contains(x) {
                            let b = choose|b: int| 0 <= b < (vis0 + st0).len() && (vis0 + st0)[b] == x;
                            if b < vis0.len() {
                                assert((vis1 + stack@)[b] == x);
                            } else if b < vis0.len() + st1.len() {
                                assert((vis1 + stack@)[b + 1] == x);
                            } else {
                                assert((vis1 + stack@)[vis0.len() as int] == x);
                            }
                        }
                        if d.contains(x) {
                            let b = choose|b: int| 0 <= b < d.len() && d[b] == x;
                            assert((vis1 + stack@)[vis1.len() + st1.len() + b] == x);
                        }
                    }
                    assert forall|x: PassId| #[trigger] (vis1 + stack@).contains(x) implies depends_on(m, id, x) by {
                        if deps_of(m, dep).contains(x) && !(vis0 + st0).contains(x) {
                            lemma_depends_extend(m, id, dep, x);
                        }
                    }
                    assert forall|v: PassId, x: PassId| #[trigger] vis1.contains(v) && #[trigger] deps_of(m, v).contains(x)
                        implies (vis1 + stack@).contains(x) by {
                        if v != dep {
                            let b = choose|b: int| 0 <= b < vis1.len() && vis1[b] == v;
                            assert(vis0[b] == v);
                            assert(vis0.contains(v));
                        }
                    }
                    assert forall|b1: int, b2: int| 0 <= b1 < vis1.len() && 0 <= b2 < vis1.len() && b1 != b2 implies vis1[b1] != vis1[b2] by {
                        if b1 == vis0.len() as int {
                            assert(vis0[b2] != dep);
                        } else if b2 == vis0.len() as int {
                            assert(vis0[b1] != dep);
                        }
                    }
                }
            } else {
                proof {
                    let b = choose|b: int| 0 <= b < nv && visited@[b] == dep;
                    assert forall|x: PassId| #[trigger] (visited@ + stack@).contains(x) == (vis0 + st0).contains(x) by {
                        if (visited@ + stack@).contains(x) {
                            let c = choose|c: int| 0 <= c < (visited@ + stack@).len() && (visited@ + stack@)[c] == x;
                            assert((vis0 + st0)[c] == x);
                        }
                        if (vis0 + st0).contains(x) {
                            let c = choose|c: int| 0 <= c < (vis0 + st0).len() && (vis0 + st0)[c] == x;
                            if c < vis0.len() + st1.len() {
                                assert((visited@ + stack@)[c] == x);
                            } else {
                                assert(x == dep);
                                assert((visited@ + stack@)[b] == x);
                            }
                        }
                    }
                }
            }
        }
        proof {
            assert(visited@ + stack@ =~= visited@);
            assert forall|x: PassId| depends_on(m, id, x) implies #[trigger] visited@.contains(x) by {
                let path = choose|path: Seq<PassId>| #[trigger] dep_path(m, path) && path[0] == id && path.last() == x;
                lemma_path_visited(m, id, visited@, path, path.len() - 1);
            }
        }
        visited
    }
}

proof fn lemma_path_visited(m: Map<PassId, NodeView>, id: PassId, vis: Seq<PassId>, path: Seq<PassId>, i: int)
    requires
        dep_path(m, path),
        path[0] == id,
        1 <= i < path.len(),
        forall|x: PassId| #[trigger] deps_of(m, id).contains(x) ==> vis.contains(x),
        forall|v: PassId, x: PassId| #[trigger] vis.contains(v) && #[trigger] deps_of(m, v).contains(x) ==> vis.contains(x),
    ensures
        vis.contains(path[i]),
    decreases i,
{
    let k = i - 1;
    assert(deps_of(m, path[k]).contains(path[k + 1]));
    assert(path[k + 1] == path[i]);
    if i > 1 {
        lemma_path_visited(m, id, vis, path, i - 1);
    }
}

/// Pass `p` writes attachment `a`.
pub open spec fn writes(nodes: Map<PassId, NodeView>, p: PassId, a: AttachmentId) -> bool {
    nodes.dom().contains(p) && nodes[p].outputs.contains(a)
}

/// Position of the last pass before position `i` of `order` that writes `a`.
pub open spec fn latest_writer(order: Seq<PassId>, nodes: Map<PassId, NodeView>, a: AttachmentId, i: int) -> Option<int>
    decreases i,
{
    if i <= 0 {
        None
    } else if writes(nodes, order[i - 1], a) {
        Some(i - 1)
    } else {
        latest_writer(order, nodes, a, i - 1)
    }
}

/// The reader at position `ri` of `order` may read `a`: some earlier pass
/// writes it, and the reader depends on the latest such writer.
pub open spec fn read_ok(order: Seq<PassId>, nodes: Map<PassId, NodeView>, ri: int, a: AttachmentId) -> bool {
    match latest_writer(order, nodes, a, ri) {
        None => false,
        Some(j) => depends_on(nodes, order[ri], order[j]),
    }
}

/// Every input of every scheduled pass is read validly.
pub open spec fn schedule_valid(order: Seq<PassId>, nodes: Map<PassId, NodeView>) -> bool {
    forall|ri: int, k: int|
        #![trigger nodes[order[ri]].inputs[k]]
        0 <= ri < order.len() && nodes.dom().contains(order[ri]) && 0 <= k < nodes[order[ri]].inputs.len()
            ==> read_ok(order, nodes, ri, nodes[order[ri]].inputs[k])
}

/// `e` reports an invalid read of the schedule `order`.
pub open spec fn is_read_error(order: Seq<PassId>, nodes: Map<PassId, NodeView>, e: RenderGraphError) -> bool {
    match e {
        RenderGraphError::MissingWriter { reader, attachment } => exists|ri: int|
            0 <= ri < order.len() && order[ri] == reader && nodes.dom().contains(reader) && nodes[reader].inputs.contains(
                attachment,
            ) && #[trigger] latest_writer(order, nodes, attachment, ri) is None,
        RenderGraphError::MissingDependency { reader, writer, attachment } => exists|ri: int|
            {
                &&& 0 <= ri < order.len()
                &&& order[ri] == reader
                &&& nodes.dom().contains(reader)
                &&& nodes[reader].inputs.contains(attachment)
                &&& #[trigger] latest_writer(order, nodes, attachment, ri) matches Some(j)
                &&& order[j] == writer
                &&& !depends_on(nodes, reader, writer)
            },
        RenderGraphError::CycleDetected(_) => false,
    }
}

proof fn lemma_latest_writer_bound(order: Seq<PassId>, nodes: Map<PassId, NodeView>, a: AttachmentId, i: int)
    ensures
        latest_writer(order, nodes, a, i) matches Some(j) ==> 0 <= j < i && writes(nodes, order[j], a),
    decreases i,
{
    if i > 0 {
        lemma_latest_writer_bound(order, nodes, a, i - 1);
    }
}

/// A topological order of duplicate-free passes is itself duplicate-free.
proof fn lemma_topo_order_nodup(order: Seq<PassId>, passes: Seq<PassId>, nodes: Map<PassId, NodeView>)
    requires
        passes.no_duplicates(),
        is_topo_order(order, passes, nodes),
    ensures
        order.no_duplicates(),
{
    assert(order.to_set() =~= passes.to_set()) by {
        assert forall|x: PassId| #[trigger] order.to_set().contains(x) == passes.to_set().contains(x) by {
            if order.contains(x) {
                assert(passes.contains(x));
            }
            if passes.contains(x) {
                assert(order.contains(x));
            }
        }
    }
    passes.unique_seq_to_set();
    order.lemma_no_dup_set_cardinality();
}

impl RenderGraph {
    fn writes_attachment(&self, p: PassId, a: AttachmentId) -> (w: bool)
        requires
            self.wf(),
        ensures
            w == writes(self.nodes_view(), p, a),
    {
        match self.find_node(p) {
            Some(i) => {
                proof {
                    self.lemma_node(i as int);
                }
                let outs = &self.nodes[i].1.outputs;
                let n = outs.len();
                let mut k: usize = 0;
                while k < n
                    invariant
                        n == outs@.len(),
                        k <= n,
                        self.nodes_view().dom().contains(p),
                        outs@ == self.nodes_view()[p].outputs,
                        forall|c: int| 0 <= c < k ==> outs@[c] != a,
                    decreases n - k,
                {
                    if outs[k] == a {
                        proof {
                            assert(outs@.contains(a));
                        }
                        return true;
                    }
                    k = k + 1;
                }
                false
            },
            None => false,
        }
    }

    /// Check that every input attachment has a writer earlier in `order`,
    /// and that the reader depends (directly or transitively) on the latest
    /// such writer.
    fn validate_resources(&self, order: &Vec<PassId>) -> (r: Result<(), RenderGraphError>)
        requires
            self.wf(),
            order@.no_duplicates(),
        ensures
            r is Ok <==> schedule_valid(order@, self.nodes_view()),
            r matches Err(e) ==> is_read_error(order@, self.nodes_view(), e),
    {
        let ghost m = self.nodes_view();
        let ghost ns = self.node_seq();
        let ghost o = order@;
        let nn = self.nodes.len();
        let no = order.len();
        let mut i: usize = 0;
        while i < nn
            invariant
                self.wf(),
                m == self.nodes_view(),
                ns == self.node_seq(),
                o == order@,
                o.no_duplicates(),
                nn == self.nodes@.len(),
                no == o.len(),
                i <= nn,
                forall|a: int, ri: int, k: int|
                    #![trigger ns[a], o[ri], m[o[ri]].inputs[k]]
                    0 <= a < i && 0 <= ri < no && o[ri] == ns[a].0 && 0 <= k < m[o[ri]].inputs.len()
                        ==> read_ok(o, m, ri, m[o[ri]].inputs[k]),
            decreases nn - i,
        {
            let rid = self.nodes[i].0;
            proof {
                self.lemma_node(i as int);
                lemma_assoc_index(ns, i as int);
            }
            // Position of the reader in the order.
            let mut ri: usize = 0;
            let mut found = false;
            while ri < no && !found
                invariant
                    no == o.len(),
                    o == order@,
                    ri <= no,
                    found ==> ri < no && o[ri as int] == rid,
                    !found ==> forall|c: int| 0 <= c < ri ==> o[c] != rid,
                decreases no - ri + (if found { 0int } else { 1int }),
            {
                if order[ri] == rid {
                    found = true;
                } else {
                    ri = ri + 1;
                }
            }
            if found {
                let deps = self.transitive_deps(rid);
                let inputs = &self.nodes[i].1.inputs;
                let ni = inputs.len();
                let mut k: usize = 0;
                while k < ni
                    invariant
                        self.wf(),
                        m == self.nodes_view(),
                        ns == self.node_seq(),
                        o == order@,
                        i < nn,
                        nn == self.nodes@.len(),
                        no == o.len(),
                        ri < no,
                        o[ri as int] == rid,
                        rid == ns[i as int].0,
                        m.dom().contains(rid),
                        inputs@ == m[rid].inputs,
                        ni == inputs@.len(),
                        k <= ni,
                        forall|x: PassId| #[trigger] deps@.contains(x) <==> depends_on(m, rid, x),
                        forall|c: int| 0 <= c < k ==> read_ok(o, m, ri as int, #[trigger] inputs@[c]),
                    decreases ni - k,
                {
                    let att = inputs[k];
                    let mut j: usize = ri;
                    let mut w = false;
                    while j > 0 && !w
                        invariant
                            self.wf(),
                            m == self.nodes_view(),
                            o == order@,
                            ri < no,
                            no == o.len(),
                            j <= ri,
                            w ==> j >= 1 && latest_writer(o, m, att, ri as int) == Some(j - 1),
                            !w ==> latest_writer(o, m, att, ri as int) == latest_writer(o, m, att, j as int),
                        decreases j + (if w { 0int } else { 1int }),
                    {
                        if self.writes_attachment(order[j - 1], att) {
                            w = true;
                        } else {
                            j = j - 1;
                        }
                    }
                    proof {
                        lemma_latest_writer_bound(o, m, att, ri as int);
                        assert(m[rid].inputs[k as int] == att);
                        assert(m[rid].inputs.contains(att));
                    }
                    if !w {
                        return Err(RenderGraphError::MissingWriter { reader: rid, attachment: att });
                    }
                    let writer = order[j - 1];
                    let mut has_dep = false;
                    let nd = deps.len();
                    let mut c: usize = 0;
                    while c < nd
                        invariant
                            nd == deps@.len(),
                            c <= nd,
                            has_dep == exists|e: int| 0 <= e < c && deps@[e] == writer,
                        decreases nd - c,
                    {
                        if deps[c] == writer {
                            has_dep = true;
                        }
                        c = c + 1;
                    }
                    if !has_dep {
                        proof {
                            assert(!deps@.contains(writer));
                        }
                        return Err(RenderGraphError::MissingDependency { reader: rid, writer, attachment: att });
                    }
                    proof {
                        let e = choose|e: int| 0 <= e < nd && deps@[e] == writer;
                        assert(deps@.contains(writer));
                    }
                    k = k + 1;
                }
                proof {
                    assert forall|a: int, ri2: int, k2: int|
                        #![trigger ns[a], o[ri2], m[o[ri2]].inputs[k2]]
                        0 <= a < i + 1 && 0 <= ri2 < no && o[ri2] == ns[a].0 && 0 <= k2 < m[o[ri2]].inputs.len()
                            implies read_ok(o, m, ri2, m[o[ri2]].inputs[k2]) by {
                        if a == i {
                            if ri2 != ri {
                                assert(o[ri2] == o[ri as int]);
                            }
                            assert(inputs@[k2] == m[o[ri2]].inputs[k2]);
                        }
                    }
                }
            } else {
                proof {
                    assert forall|a: int, ri2: int, k2: int|
                        #![trigger ns[a], o[ri2], m[o[ri2]].inputs[k2]]
                        0 <= a < i + 1 && 0 <= ri2 < no && o[ri2] == ns[a].0 && 0 <= k2 < m[o[ri2]].inputs.len()
                            implies read_ok(o, m, ri2, m[o[ri2]].inputs[k2]) by {
                        if a == i {
                            assert(o[ri2] != rid);
                        }
                    }
                }
            }
            i = i + 1;
        }
        proof {
            assert forall|ri: int, k: int|
                #![trigger m[o[ri]].inputs[k]]
                0 <= ri < o.len() && m.dom().contains(o[ri]) && 0 <= k < m[o[ri]].inputs.len()
                    implies read_ok(o, m, ri, m[o[ri]].inputs[k]) by {
                let a = lemma_assoc_dom(ns, o[ri]);
                assert(ns[a].0 == o[ri]);
            }
        }
        Ok(())
    }

    /// Compile the graph: topological sort, then validation of attachment
    /// reads against that order.  Returns the order or the first error.
    pub fn compile(&self) -> (r: Result<Vec<PassId>, RenderGraphError>)
        requires
            self.wf(),
            self.passes().no_duplicates(),
        ensures
            match r {
                Ok(order) => {
                    &&& order@ == kahn_order(self.passes(), self.nodes_view())
                    &&& is_topo_order(order@, self.passes(), self.nodes_view())
                    &&& schedule_valid(order@, self.nodes_view())
                },
                Err(RenderGraphError::CycleDetected(ms)) => {
                    &&& kahn_order(self.passes(), self.nodes_view()).len() < self.passes().len()
                    &&& ms@ == unplaced(self.passes(), kahn_order(self.passes(), self.nodes_view()), self.passes().len() as int)
                    &&& ms@.len() > 0
                    &&& ms@.no_duplicates()
                    &&& forall|m: PassId| #[trigger] ms@.contains(m) ==> self.passes().contains(m)
                    &&& all_blocked(ms@, self.passes(), self.nodes_view())
                    &&& forall|b: Seq<PassId>, x: PassId|
                        (forall|m: PassId| #[trigger] b.contains(m) ==> self.passes().contains(m))
                            && all_blocked(b, self.passes(), self.nodes_view()) && #[trigger] b.contains(x)
                            ==> ms@.contains(x)
                    &&& forall|o: Seq<PassId>| !is_topo_order(o, self.passes(), self.nodes_view())
                },
                Err(e) => {
                    &&& kahn_order(self.passes(), self.nodes_view()).len() == self.passes().len()
                    &&& is_topo_order(kahn_order(self.passes(), self.nodes_view()), self.passes(), self.nodes_view())
                    &&& is_read_error(kahn_order(self.passes(), self.nodes_view()), self.nodes_view(), e)
                },
            },
    {
        let sorted = self.topological_sort()?;
        proof {
            lemma_topo_order_nodup(sorted@, self.passes(), self.nodes_view());
        }
        match self.validate_resources(&sorted) {
            Ok(()) => Ok(sorted),
            Err(e) => Err(e),
        }
    }
}

// ── Resource state tracking and barrier insertion ────────────────────

/// The usage state of an attachment between passes.
#[derive(Debug, Clone, Copy, PartialEq, Eq, Hash, Structural)]
pub enum ResourceState {
    /// Not yet used this frame.
    Undefined,
    /// Written as a render target (color or depth attachment).
    RenderTarget,
    /// Read as a sampled texture in a shader.
    ShaderRead,
    /// Read/written as a storage texture or buffer.
    Storage,
    /// Ready for presentation to the surface.
    Present,
}

/// A resource state transition between two passes.
#[derive(Debug, Clone, Copy)]
pub struct ResourceTransition {
    pub attachment: AttachmentId,
    pub from: ResourceState,
    pub to: ResourceState,
    /// The pass that requires this transition *before* it runs.
    pub before_pass: PassId,
}

/// Which GPU queue a pass should be submitted to.
#[derive(Debug, Clone, Copy, PartialEq, Eq, Hash, Structural)]
pub enum PassQueue {
    /// Main graphics queue (vertex/fragment/compute).
    Graphics,
    /// Async compute queue (compute-only, runs in parallel with graphics).
    AsyncCompute,
    /// Transfer/copy queue (DMA operations).
    Transfer,
}

/// A barrier inserted between passes to synchronize resource state.
#[derive(Debug, Clone, Copy)]
pub struct TextureBarrier {
    pub attachment: AttachmentId,
    pub src_state: ResourceState,
    pub dst_state: ResourceState,
    /// Insert this barrier before this pass.
    pub before_pass: PassId,
    /// If true, this barrier also synchronizes across queue families.
    pub cross_queue: bool,
}

/// Current state of `a` (`Undefined` before first use).
pub open spec fn state_of(st: Map<AttachmentId, ResourceState>, a: AttachmentId) -> ResourceState {
    if st.dom().contains(a) {
        st[a]
    } else {
        ResourceState::Undefined
    }
}

/// Transitions of `atts` to `to` before `pass`, one per attachment not
/// already in that state.
pub open spec fn transition_atts(
    st: Map<AttachmentId, ResourceState>,
    acc: Seq<ResourceTransition>,
    atts: Seq<AttachmentId>,
    to: ResourceState,
    pass: PassId,
) -> (Map<AttachmentId, ResourceState>, Seq<ResourceTransition>)
    decreases atts.len(),
{
    if atts.len() == 0 {
        (st, acc)
    } else {
        let (st1, acc1) = transition_atts(st, acc, atts.drop_last(), to, pass);
        let a = atts.last();
        let prev = state_of(st1, a);
        if prev != to {
            (st1.insert(a, to), acc1.push(ResourceTransition { attachment: a, from: prev, to, before_pass: pass }))
        } else {
            (st1, acc1)
        }
    }
}

/// Moving `atts` to a defined state `to` before `pass`: every one of them
/// is then in state `to` and the others keep theirs; the transitions
/// already planned stay first; each new one is before `pass`, for one of
/// `atts` that was in another state, and goes from that state to `to`;
/// each such attachment gets exactly one.
pub proof fn lemma_transition_atts(
    st: Map<AttachmentId, ResourceState>,
    acc: Seq<ResourceTransition>,
    atts: Seq<AttachmentId>,
    to: ResourceState,
    pass: PassId,
)
    requires
        to != ResourceState::Undefined,
    ensures
        forall|a: AttachmentId| #[trigger] atts.contains(a) ==> state_of(transition_atts(st, acc, atts, to, pass).0, a) == to,
        forall|a: AttachmentId| !atts.contains(a) ==> #[trigger] state_of(transition_atts(st, acc, atts, to, pass).0, a)
            == state_of(st, a),
        transition_atts(st, acc, atts, to, pass).1.len() >= acc.len(),
        forall|k: int| 0 <= k < acc.len() ==> #[trigger] transition_atts(st, acc, atts, to, pass).1[k] == acc[k],
        forall|k: int|
            acc.len() <= k < transition_atts(st, acc, atts, to, pass).1.len() ==> {
                let t = #[trigger] transition_atts(st, acc, atts, to, pass).1[k];
                &&& atts.contains(t.attachment)
                &&& t.before_pass == pass
                &&& t.to == to
                &&& t.from == state_of(st, t.attachment)
                &&& t.from != to
            },
        forall|a: AttachmentId|
            #[trigger] atts.contains(a) && state_of(st, a) != to ==> exists|k: int|
                acc.len() <= k < transition_atts(st, acc, atts, to, pass).1.len() && transition_atts(st, acc, atts, to, pass).1[k].attachment
                    == a,
        forall|j: int, k: int|
            acc.len() <= j < k < transition_atts(st, acc, atts, to, pass).1.len() ==> (#[trigger] transition_atts(
                st,
                acc,
                atts,
                to,
                pass,
            ).1[j]).attachment != (#[trigger] transition_atts(st, acc, atts, to, pass).1[k]).attachment,
    decreases atts.len(),
{
    if atts.len() > 0 {
        let atts1 = atts.drop_last();
        lemma_transition_atts(st, acc, atts1, to, pass);
        let (st1, acc1) = transition_atts(st, acc, atts1, to, pass);
        let a = atts.last();
        let (st2, acc2) = transition_atts(st, acc, atts, to, pass);
        assert forall|x: AttachmentId| atts.contains(x) <==> (atts1.contains(x) || x == a) by {
            if atts.contains(x) {
                let i = choose|i: int| 0 <= i < atts.len() && atts[i] == x;
                if i < atts.len() - 1 {
                    assert(atts1[i] == x);
                }
            }
            if atts1.contains(x) {
                let i = choose|i: int| 0 <= i < atts1.len() && atts1[i] == x;
                assert(atts[i] == x);
            }
            if x == a {
                assert(atts[atts.len() - 1] == x);
            }
        }
        if !atts1.contains(a) {
            assert(state_of(st1, a) == state_of(st, a));
        }
        if state_of(st1, a) != to {
            assert(!atts1.contains(a));
            assert(acc2 == acc1.push(acc2[acc1.len() as int]));
            assert(st2 == st1.insert(a, to));
            assert forall|x: AttachmentId| !atts.contains(x) implies #[trigger] state_of(st2, x) == state_of(st, x) by {
                assert(!atts1.contains(x));
                assert(x != a);
                assert(state_of(st1, x) == state_of(st, x));
            }
            assert forall|x: AttachmentId| #[trigger] atts.contains(x) && state_of(st, x) != to implies exists|k: int|
                acc.len() <= k < acc2.len() && acc2[k].attachment == x by {
                if x == a {
                    assert(acc2[acc1.len() as int].attachment == x);
                } else {
                    assert(atts1.contains(x));
                    let k = choose|k: int| acc.len() <= k < acc1.len() && acc1[k].attachment == x;
                    assert(acc2[k] == acc1[k]);
                }
            }
            assert forall|j: int, k: int| acc.len() <= j < k < acc2.len() implies (#[trigger] acc2[j]).attachment != (
            #[trigger] acc2[k]).attachment by {
                if k == acc1.len() {
                    assert(acc2[j] == acc1[j]);
                    assert(atts1.contains(acc1[j].attachment));
                } else {
                    assert(acc2[j] == acc1[j] && acc2[k] == acc1[k]);
                }
            }
            assert forall|k: int| acc.len() <= k < acc2.len() implies {
                let t = #[trigger] acc2[k];
                &&& atts.contains(t.attachment)
                &&& t.before_pass == pass
                &&& t.to == to
                &&& t.from == state_of(st, t.attachment)
                &&& t.from != to
            } by {
                if k < acc1.len() {
                    assert(acc2[k] == acc1[k]);
                    assert(atts1.contains(acc1[k].attachment));
                }
            }
        } else {
            assert(st2 == st1 && acc2 == acc1);
            assert forall|x: AttachmentId| #[trigger] atts.contains(x) && state_of(st, x) != to implies exists|k: int|
                acc.len() <= k < acc2.len() && acc2[k].attachment == x by {
                assert(atts1.contains(x));
            }
        }
    }
}

/// State map and transitions after running `order`: inputs move to
/// `ShaderRead`, then outputs to `RenderTarget`, pass by pass.
pub open spec fn transitions_outcome(nodes: Map<PassId, NodeView>, order: Seq<PassId>) -> (
    Map<AttachmentId, ResourceState>,
    Seq<ResourceTransition>,
)
    decreases order.len(),
{
    if order.len() == 0 {
        (Map::empty(), Seq::empty())
    } else {
        let (st, acc) = transitions_outcome(nodes, order.drop_last());
        let p = order.last();
        if nodes.dom().contains(p) {
            let (st1, acc1) = transition_atts(st, acc, nodes[p].inputs, ResourceState::ShaderRead, p);
            transition_atts(st1, acc1, nodes[p].outputs, ResourceState::RenderTarget, p)
        } else {
            (st, acc)
        }
    }
}

/// Every attachment of `atts` set to `to`.
pub open spec fn set_all(st: Map<AttachmentId, ResourceState>, atts: Seq<AttachmentId>, to: ResourceState) -> Map<
    AttachmentId,
    ResourceState,
>
    decreases atts.len(),
{
    if atts.len() == 0 {
        st
    } else {
        set_all(st, atts.drop_last(), to).insert(atts.last(), to)
    }
}

/// State of every attachment after running `order`.
pub open spec fn final_states_spec(nodes: Map<PassId, NodeView>, order: Seq<PassId>) -> Map<AttachmentId, ResourceState>
    decreases order.len(),
{
    if order.len() == 0 {
        Map::empty()
    } else {
        let st = final_states_spec(nodes, order.drop_last());
        let p = order.last();
        if nodes.dom().contains(p) {
            set_all(set_all(st, nodes[p].inputs, ResourceState::ShaderRead), nodes[p].outputs, ResourceState::RenderTarget)
        } else {
            st
        }
    }
}

/// Queue of pass `p` in `qm` (its first entry), `Graphics` by default.
pub open spec fn queue_of(qm: Seq<(PassId, PassQueue)>, p: PassId) -> PassQueue
    decreases qm.len(),
{
    if qm.len() == 0 {
        PassQueue::Graphics
    } else if qm[0].0 == p {
        qm[0].1
    } else {
        queue_of(qm.drop_first(), p)
    }
}

/// Barriers for moving `atts` to `to` before `pass` on queue `q`: one for
/// each attachment whose state differs or that was last used on another
/// queue.
pub open spec fn barrier_atts(
    st: Map<AttachmentId, (ResourceState, PassQueue)>,
    acc: Seq<TextureBarrier>,
    atts: Seq<AttachmentId>,
    to: ResourceState,
    pass: PassId,
    q: PassQueue,
) -> (Map<AttachmentId, (ResourceState, PassQueue)>, Seq<TextureBarrier>)
    decreases atts.len(),
{
    if atts.len() == 0 {
        (st, acc)
    } else {
        let (st1, acc1) = barrier_atts(st, acc, atts.drop_last(), to, pass, q);
        let a = atts.last();
        let (prev, prev_q) = if st1.dom().contains(a) {
            st1[a]
        } else {
            (ResourceState::Undefined, PassQueue::Graphics)
        };
        let cross = prev_q != q;
        if prev != to || cross {
            (
                st1.insert(a, (to, q)),
                acc1.push(TextureBarrier { attachment: a, src_state: prev, dst_state: to, before_pass: pass, cross_queue: cross }),
            )
        } else {
            (st1, acc1)
        }
    }
}

/// Barrier plan for `order` with the queue assignment `qm`.
pub open spec fn barrier_outcome(nodes: Map<PassId, NodeView>, order: Seq<PassId>, qm: Seq<(PassId, PassQueue)>) -> (
    Map<AttachmentId, (ResourceState, PassQueue)>,
    Seq<TextureBarrier>,
)
    decreases order.len(),
{
    if order.len() == 0 {
        (Map::empty(), Seq::empty())
    } else {
        let (st, acc) = barrier_outcome(nodes, order.drop_last(), qm);
        let p = order.last();
        if nodes.dom().contains(p) {
            let q = queue_of(qm, p);
            let (st1, acc1) = barrier_atts(st, acc, nodes[p].inputs, ResourceState::ShaderRead, p, q);
            barrier_atts(st1, acc1, nodes[p].outputs, ResourceState::RenderTarget, p, q)
        } else {
            (st, acc)
        }
    }
}

/// The state and queue an attachment is tracked with: one never used is
/// undefined and on the graphics queue.
pub open spec fn tracked_of(st: Map<AttachmentId, (ResourceState, PassQueue)>, a: AttachmentId) -> (ResourceState, PassQueue) {
    if st.dom().contains(a) {
        st[a]
    } else {
        (ResourceState::Undefined, PassQueue::Graphics)
    }
}

/// Moving `atts` to a defined state `to` before `pass` on queue `q`: every
/// one of them is then tracked as `(to, q)` and the others keep their
/// tracking; the barriers already planned stay first; each new barrier is
/// before `pass`, for one of `atts` whose tracking differed from `(to, q)`,
/// goes from its tracked state to `to`, and crosses queues exactly when it
/// was tracked on another queue than `q`; each such attachment gets
/// exactly one.
pub proof fn lemma_barrier_atts(
    st: Map<AttachmentId, (ResourceState, PassQueue)>,
    acc: Seq<TextureBarrier>,
    atts: Seq<AttachmentId>,
    to: ResourceState,
    pass: PassId,
    q: PassQueue,
)
    requires
        to != ResourceState::Undefined,
    ensures
        forall|a: AttachmentId| #[trigger] atts.contains(a) ==> barrier_atts(st, acc, atts, to, pass, q).0.dom().contains(a)
            && barrier_atts(st, acc, atts, to, pass, q).0[a] == (to, q),
        forall|a: AttachmentId| !atts.contains(a) ==> #[trigger] tracked_of(barrier_atts(st, acc, atts, to, pass, q).0, a)
            == tracked_of(st, a),
        barrier_atts(st, acc, atts, to, pass, q).1.len() >= acc.len(),
        forall|k: int| 0 <= k < acc.len() ==> #[trigger] barrier_atts(st, acc, atts, to, pass, q).1[k] == acc[k],
        forall|k: int|
            acc.len() <= k < barrier_atts(st, acc, atts, to, pass, q).1.len() ==> {
                let b = #[trigger] barrier_atts(st, acc, atts, to, pass, q).1[k];
                &&& atts.contains(b.attachment)
                &&& b.before_pass == pass
                &&& b.dst_state == to
                &&& b.src_state == tracked_of(st, b.attachment).0
                &&& b.cross_queue == (tracked_of(st, b.attachment).1 != q)
                &&& tracked_of(st, b.attachment) != (to, q)
            },
        forall|a: AttachmentId|
            #[trigger] atts.contains(a) && tracked_of(st, a) != (to, q) ==> exists|k: int|
                acc.len() <= k < barrier_atts(st, acc, atts, to, pass, q).1.len() && barrier_atts(
                    st,
                    acc,
                    atts,
                    to,
                    pass,
                    q,
                ).1[k].attachment == a,
        forall|j: int, k: int|
            acc.len() <= j < k < barrier_atts(st, acc, atts, to, pass, q).1.len() ==> (#[trigger] barrier_atts(
                st,
                acc,
                atts,
                to,
                pass,
                q,
            ).1[j]).attachment != (#[trigger] barrier_atts(st, acc, atts, to, pass, q).1[k]).attachment,
    decreases atts.len(),
{
    if atts.len() > 0 {
        let atts1 = atts.drop_last();
        lemma_barrier_atts(st, acc, atts1, to, pass, q);
        let (st1, acc1) = barrier_atts(st, acc, atts1, to, pass, q);
        let a = atts.last();
        let (st2, acc2) = barrier_atts(st, acc, atts, to, pass, q);
        assert forall|x: AttachmentId| atts.contains(x) <==> (atts1.contains(x) || x == a) by {
            if atts.contains(x) {
                let i = choose|i: int| 0 <= i < atts.len() && atts[i] == x;
                if i < atts.len() - 1 {
                    assert(atts1[i] == x);
                }
            }
            if atts1.contains(x) {
                let i = choose|i: int| 0 <= i < atts1.len() && atts1[i] == x;
                assert(atts[i] == x);
            }
            if x == a {
                assert(atts[atts.len() - 1] == x);
            }
        }
        if atts1.contains(a) {
            assert(tracked_of(st1, a) == (to, q));
        } else {
            assert(tracked_of(st1, a) == tracked_of(st, a));
        }
        assert(tracked_of(st1, a) == if st1.dom().contains(a) { st1[a] } else { (ResourceState::Undefined, PassQueue::Graphics) });
        if tracked_of(st1, a).0 != to || tracked_of(st1, a).1 != q {
            assert(!atts1.contains(a));
            assert(acc2 == acc1.push(acc2[acc1.len() as int]));
            assert forall|x: AttachmentId| !atts.contains(x) implies #[trigger] tracked_of(st2, x) == tracked_of(st, x) by {
                assert(!atts1.contains(x));
                assert(tracked_of(st1, x) == tracked_of(st, x));
            }
            assert forall|x: AttachmentId| #[trigger] atts.contains(x) && tracked_of(st, x) != (to, q) implies exists|k: int|
                acc.len() <= k < acc2.len() && acc2[k].attachment == x by {
                if x == a {
                    assert(acc2[acc1.len() as int].attachment == x);
                } else {
                    assert(atts1.contains(x));
                    let k = choose|k: int| acc.len() <= k < acc1.len() && acc1[k].attachment == x;
                    assert(acc2[k] == acc1[k]);
                }
            }
            assert forall|j: int, k: int| acc.len() <= j < k < acc2.len() implies (#[trigger] acc2[j]).attachment != (
            #[trigger] acc2[k]).attachment by {
                if k == acc1.len() {
                    assert(acc2[j] == acc1[j]);
                    assert(atts1.contains(acc1[j].attachment));
                } else {
                    assert(acc2[j] == acc1[j] && acc2[k] == acc1[k]);
                }
            }
            assert forall|k: int| acc.len() <= k < acc2.len() implies {
                let b = #[trigger] acc2[k];
                &&& atts.contains(b.attachment)
                &&& b.before_pass == pass
                &&& b.dst_state == to
                &&& b.src_state == tracked_of(st, b.attachment).0
                &&& b.cross_queue == (tracked_of(st, b.attachment).1 != q)
                &&& tracked_of(st, b.attachment) != (to, q)
            } by {
                if k < acc1.len() {
                    assert(acc2[k] == acc1[k]);
                    assert(atts1.contains(acc1[k].attachment));
                }
            }
        } else {
            assert(st2 == st1 && acc2 == acc1);
            assert forall|x: AttachmentId| #[trigger] atts.contains(x) && tracked_of(st, x) != (to, q) implies exists|k: int|
                acc.len() <= k < acc2.len() && acc2[k].attachment == x by {
                if x == a {
                    if !atts1.contains(a) {
                        assert(tracked_of(st, a) == (to, q));
                    }
                }
                assert(atts1.contains(x));
            }
            assert forall|x: AttachmentId| #[trigger] atts.contains(x) implies st2.dom().contains(x) && st2[x] == (to, q) by {
                if x == a && !atts1.contains(a) {
                    if !st1.dom().contains(a) {
                        assert(tracked_of(st1, a).0 == ResourceState::Undefined);
                    }
                }
            }
        }
    }
}

/// After planning the barriers of `order`, every attachment that its last
/// pass reads or writes is tracked on that pass's queue (as written if the
/// pass writes it, else as read).
pub proof fn lemma_barrier_outcome_tracks_last_pass(
    nodes: Map<PassId, NodeView>,
    order: Seq<PassId>,
    qm: Seq<(PassId, PassQueue)>,
    a: AttachmentId,
)
    requires
        order.len() > 0,
        nodes.dom().contains(order.last()),
        nodes[order.last()].inputs.contains(a) || nodes[order.last()].outputs.contains(a),
    ensures
        barrier_outcome(nodes, order, qm).0.dom().contains(a),
        barrier_outcome(nodes, order, qm).0[a] == (if nodes[order.last()].outputs.contains(a) {
            ResourceState::RenderTarget
        } else {
            ResourceState::ShaderRead
        }, queue_of(qm, order.last())),
{
    let p = order.last();
    let (st, acc) = barrier_outcome(nodes, order.drop_last(), qm);
    let q = queue_of(qm, p);
    lemma_barrier_atts(st, acc, nodes[p].inputs, ResourceState::ShaderRead, p, q);
    let (st1, acc1) = barrier_atts(st, acc, nodes[p].inputs, ResourceState::ShaderRead, p, q);
    lemma_barrier_atts(st1, acc1, nodes[p].outputs, ResourceState::RenderTarget, p, q);
    let st2 = barrier_atts(st1, acc1, nodes[p].outputs, ResourceState::RenderTarget, p, q).0;
    assert(barrier_outcome(nodes, order, qm).0 == st2);
    if !nodes[p].outputs.contains(a) {
        assert(tracked_of(st1, a) == (ResourceState::ShaderRead, q));
        assert(tracked_of(st2, a) == (ResourceState::ShaderRead, q));
        assert(st2.dom().contains(a));
    }
}

/// When the last pass of `order` reads or writes an attachment that was
/// last taken on another queue (the graphics queue if never), a barrier
/// for it before that pass crosses queues.  In particular, for two
/// consecutive passes on different queues using the same attachment, the
/// second one gets a cross-queue barrier.
pub proof fn lemma_queue_change_crosses(
    nodes: Map<PassId, NodeView>,
    order: Seq<PassId>,
    qm: Seq<(PassId, PassQueue)>,
    a: AttachmentId,
)
    requires
        order.len() > 0,
        nodes.dom().contains(order.last()),
        nodes[order.last()].inputs.contains(a) || nodes[order.last()].outputs.contains(a),
        tracked_of(barrier_outcome(nodes, order.drop_last(), qm).0, a).1 != queue_of(qm, order.last()),
    ensures
        exists|k: int|
            0 <= k < barrier_outcome(nodes, order, qm).1.len() && {
                let b = #[trigger] barrier_outcome(nodes, order, qm).1[k];
                &&& b.attachment == a
                &&& b.before_pass == order.last()
                &&& b.cross_queue
            },
{
    let p = order.last();
    let (st, acc) = barrier_outcome(nodes, order.drop_last(), qm);
    let q = queue_of(qm, p);
    lemma_barrier_atts(st, acc, nodes[p].inputs, ResourceState::ShaderRead, p, q);
    let (st1, acc1) = barrier_atts(st, acc, nodes[p].inputs, ResourceState::ShaderRead, p, q);
    lemma_barrier_atts(st1, acc1, nodes[p].outputs, ResourceState::RenderTarget, p, q);
    let (st2, acc2) = barrier_atts(st1, acc1, nodes[p].outputs, ResourceState::RenderTarget, p, q);
    assert(barrier_outcome(nodes, order, qm).1 == acc2);
    if nodes[p].inputs.contains(a) {
        let k = choose|k: int| acc.len() <= k < acc1.len() && acc1[k].attachment == a;
        assert(acc2[k] == acc1[k]);
        assert(acc2[k].cross_queue);
    } else {
        assert(tracked_of(st1, a) == tracked_of(st, a));
        let k = choose|k: int| acc1.len() <= k < acc2.len() && acc2[k].attachment == a;
        assert(acc2[k].cross_queue);
    }
}

/// Two consecutive passes on different queues that use the same
/// attachment: the barrier plan has a cross-queue barrier for it before the
/// second pass.
pub proof fn lemma_consecutive_queues_cross(
    nodes: Map<PassId, NodeView>,
    order: Seq<PassId>,
    qm: Seq<(PassId, PassQueue)>,
    a: AttachmentId,
)
    requires
        order.len() >= 2,
        nodes.dom().contains(order[order.len() - 2]),
        nodes.dom().contains(order.last()),
        nodes[order[order.len() - 2]].inputs.contains(a) || nodes[order[order.len() - 2]].outputs.contains(a),
        nodes[order.last()].inputs.contains(a) || nodes[order.last()].outputs.contains(a),
        queue_of(qm, order[order.len() - 2]) != queue_of(qm, order.last()),
    ensures
        exists|k: int|
            0 <= k < barrier_outcome(nodes, order, qm).1.len() && {
                let b = #[trigger] barrier_outcome(nodes, order, qm).1[k];
                &&& b.attachment == a
                &&& b.before_pass == order.last()
                &&& b.cross_queue
            },
{
    let prev = order.drop_last();
    assert(prev.last() == order[order.len() - 2]);
    lemma_barrier_outcome_tracks_last_pass(nodes, prev, qm, a);
    lemma_queue_change_crosses(nodes, order, qm, a);
}

/// Consecutive passes of `order` grouped by queue.
pub open spec fn split_outcome(order: Seq<PassId>, qm: Seq<(PassId, PassQueue)>) -> Seq<(PassQueue, Seq<PassId>)>
    decreases order.len(),
{
    if order.len() == 0 {
        Seq::empty()
    } else {
        let g = split_outcome(order.drop_last(), qm);
        let p = order.last();
        let q = queue_of(qm, p);
        if g.len() > 0 && g.last().0 == q {
            g.update(g.len() - 1, (q, g.last().1.push(p)))
        } else {
            g.push((q, seq![p]))
        }
    }
}

/// Concatenation of the pass lists of `groups`.
pub open spec fn flatten_groups(groups: Seq<(PassQueue, Seq<PassId>)>) -> Seq<PassId>
    decreases groups.len(),
{
    if groups.len() == 0 {
        Seq::empty()
    } else {
        flatten_groups(groups.drop_last()) + groups.last().1
    }
}

fn assoc_get<V: Copy>(s: &Vec<(AttachmentId, V)>, a: AttachmentId) -> (r: Option<V>)
    requires
        keys_distinct(s@),
    ensures
        r == if assoc_map(s@).dom().contains(a) {
            Some(assoc_map(s@)[a])
        } else {
            None::<V>
        },
{
    let n = s.len();
    let mut i: usize = 0;
    while i < n
        invariant
            n == s@.len(),
            keys_distinct(s@),
            i <= n,
            forall|j: int| 0 <= j < i ==> s@[j].0 != a,
        decreases n - i,
    {
        if s[i].0 == a {
            proof {
                lemma_assoc_index(s@, i as int);
            }
            return Some(s[i].1);
        }
        i = i + 1;
    }
    None
}

fn assoc_set<V>(s: &mut Vec<(AttachmentId, V)>, a: AttachmentId, v: V)
    requires
        keys_distinct(old(s)@),
    ensures
        keys_distinct(final(s)@),
        assoc_map(final(s)@) == assoc_map(old(s)@).insert(a, v),
{
    let n = s.len();
    let mut i: usize = 0;
    while i < n
        invariant
            n == s@.len(),
            *s == *old(s),
            keys_distinct(s@),
            i <= n,
            forall|j: int| 0 <= j < i ==> s@[j].0 != a,
        decreases n - i,
    {
        if s[i].0 == a {
            let ghost s0 = s@;
            proof {
                lemma_assoc_set(s0, i as int, v);
            }
            s.set(i, (a, v));
            proof {
                assert(s@ =~= s0.update(i as int, (s0[i as int].0, v)));
            }
            return;
        }
        i = i + 1;
    }
    let ghost s0 = s@;
    proof {
        lemma_assoc_push(s0, a, v);
    }
    s.push((a, v));
}

fn queue_lookup(qm: &[(PassId, PassQueue)], p: PassId) -> (q: PassQueue)
    ensures
        q == queue_of(qm@, p),
{
    let n = qm.len();
    let mut i: usize = 0;
    proof {
        assert(qm@.subrange(0, n as int) =~= qm@);
    }
    while i < n
        invariant
            n == qm@.len(),
            i <= n,
            queue_of(qm@, p) == queue_of(qm@.subrange(i as int, n as int), p),
        decreases n - i,
    {
        proof {
            assert(qm@.subrange(i as int, n as int).drop_first() =~= qm@.subrange(i as int + 1, n as int));
        }
        if qm[i].0 == p {
            return qm[i].1;
        }
        i = i + 1;
    }
    PassQueue::Graphics
}

impl RenderGraph {
    /// The pass node of `id`, if any.
    pub fn get_pass(&self, id: PassId) -> (r: Option<&PassNode>)
        requires
            self.wf(),
        ensures
            match r {
                Some(node) => self.nodes_view().dom().contains(id) && node.view() == self.nodes_view()[id],
                None => !self.nodes_view().dom().contains(id),
            },
    {
        match self.find_node(id) {
            Some(i) => {
                proof {
                    self.lemma_node(i as int);
                }
                Some(&self.nodes[i].1)
            },
            None => None,
        }
    }

    fn node_atts(&self, p: PassId, outputs: bool) -> (atts: Vec<AttachmentId>)
        requires
            self.wf(),
        ensures
            self.nodes_view().dom().contains(p) ==> atts@ == if outputs {
                self.nodes_view()[p].outputs
            } else {
                self.nodes_view()[p].inputs
            },
            !self.nodes_view().dom().contains(p) ==> atts@.len() == 0,
    {
        match self.find_node(p) {
            Some(i) => {
                proof {
                    self.lemma_node(i as int);
                }
                if outputs {
                    self.nodes[i].1.outputs.clone()
                } else {
                    self.nodes[i].1.inputs.clone()
                }
            },
            None => Vec::new(),
        }
    }

    /// Resource transitions needed between passes run in `order`: each
    /// input is moved to `ShaderRead` and each output to `RenderTarget`
    /// unless it is already in that state.
    pub fn compute_transitions(&self, order: &[PassId]) -> (t: Vec<ResourceTransition>)
        requires
            self.wf(),
        ensures
            t@ == transitions_outcome(self.nodes_view(), order@).1,
    {
        let ghost m = self.nodes_view();
        let mut current: Vec<(AttachmentId, ResourceState)> = Vec::new();
        let mut transitions: Vec<ResourceTransition> = Vec::new();
        let n = order.len();
        let mut i: usize = 0;
        proof {
            assert(assoc_map(current@) =~= Map::<AttachmentId, ResourceState>::empty());
        }
        while i < n
            invariant
                self.wf(),
                m == self.nodes_view(),
                n == order@.len(),
                i <= n,
                keys_distinct(current@),
                (assoc_map(current@), transitions@) == transitions_outcome(m, order@.subrange(0, i as int)),
            decreases n - i,
        {
            let p = order[i];
            proof {
                assert(order@.subrange(0, i as int + 1).drop_last() =~= order@.subrange(0, i as int));
            }
            if self.find_node(p).is_some() {
                let ins = self.node_atts(p, false);
                self.transition_list(&mut current, &mut transitions, &ins, ResourceState::ShaderRead, p);
                let outs = self.node_atts(p, true);
                self.transition_list(&mut current, &mut transitions, &outs, ResourceState::RenderTarget, p);
            }
            i = i + 1;
        }
        proof {
            assert(order@.subrange(0, n as int) =~= order@);
        }
        transitions
    }

    fn transition_list(
        &self,
        current: &mut Vec<(AttachmentId, ResourceState)>,
        transitions: &mut Vec<ResourceTransition>,
        atts: &Vec<AttachmentId>,
        to: ResourceState,
        pass: PassId,
    )
        requires
            keys_distinct(old(current)@),
        ensures
            keys_distinct(final(current)@),
            (assoc_map(final(current)@), final(transitions)@) == transition_atts(
                assoc_map(old(current)@),
                old(transitions)@,
                atts@,
                to,
                pass,
            ),
    {
        let n = atts.len();
        let mut k: usize = 0;
        while k < n
            invariant
                n == atts@.len(),
                k <= n,
                keys_distinct(current@),
                (assoc_map(current@), transitions@) == transition_atts(
                    assoc_map(old(current)@),
                    old(transitions)@,
                    atts@.subrange(0, k as int),
                    to,
                    pass,
                ),
            decreases n - k,
        {
            let a = atts[k];
            proof {
                assert(atts@.subrange(0, k as int + 1).drop_last() =~= atts@.subrange(0, k as int));
            }
            let prev = match assoc_get(current, a) {
                Some(st) => st,
                None => ResourceState::Undefined,
            };
            if prev != to {
                transitions.push(ResourceTransition { attachment: a, from: prev, to, before_pass: pass });
                assoc_set(current, a, to);
            }
            k = k + 1;
        }
        proof {
            assert(atts@.subrange(0, n as int) =~= atts@);
        }
    }

    /// Final state of every attachment used by `order`: the state that its
    /// last use left it in.
    pub fn final_states(&self, order: &[PassId]) -> (st: Vec<(AttachmentId, ResourceState)>)
        requires
            self.wf(),
        ensures
            keys_distinct(st@),
            assoc_map(st@) == final_states_spec(self.nodes_view(), order@),
    {
        let ghost m = self.nodes_view();
        let mut state: Vec<(AttachmentId, ResourceState)> = Vec::new();
        let n = order.len();
        let mut i: usize = 0;
        proof {
            assert(assoc_map(state@) =~= Map::<AttachmentId, ResourceState>::empty());
        }
        while i < n
            invariant
                self.wf(),
                m == self.nodes_view(),
                n == order@.len(),
                i <= n,
                keys_distinct(state@),
                assoc_map(state@) == final_states_spec(m, order@.subrange(0, i as int)),
            decreases n - i,
        {
            let p = order[i];
            proof {
                assert(order@.subrange(0, i as int + 1).drop_last() =~= order@.subrange(0, i as int));
            }
            if self.find_node(p).is_some() {
                let ins = self.node_atts(p, false);
                set_list(&mut state, &ins, ResourceState::ShaderRead);
                let outs = self.node_atts(p, true);
                set_list(&mut state, &outs, ResourceState::RenderTarget);
            }
            i = i + 1;
        }
        proof {
            assert(order@.subrange(0, n as int) =~= order@);
        }
        state
    }

    /// Barriers to insert before each pass of `order`, with queue affinity
    /// from `queue_map` (passes not listed run on the graphics queue): an
    /// attachment gets a barrier when its state changes or when it was last
    /// used on another queue (then flagged cross-queue).
    pub fn build_barrier_plan(&self, order: &[PassId], queue_map: &[(PassId, PassQueue)]) -> (b: Vec<TextureBarrier>)
        requires
            self.wf(),
        ensures
            b@ == barrier_outcome(self.nodes_view(), order@, queue_map@).1,
    {
        let ghost m = self.nodes_view();
        let mut current: Vec<(AttachmentId, (ResourceState, PassQueue))> = Vec::new();
        let mut barriers: Vec<TextureBarrier> = Vec::new();
        let n = order.len();
        let mut i: usize = 0;
        proof {
            assert(assoc_map(current@) =~= Map::<AttachmentId, (ResourceState, PassQueue)>::empty());
        }
        while i < n
            invariant
                self.wf(),
                m == self.nodes_view(),
                n == order@.len(),
                i <= n,
                keys_distinct(current@),
                (assoc_map(current@), barriers@) == barrier_outcome(m, order@.subrange(0, i as int), queue_map@),
            decreases n - i,
        {
            let p = order[i];
            proof {
                assert(order@.subrange(0, i as int + 1).drop_last() =~= order@.subrange(0, i as int));
            }
            if self.find_node(p).is_some() {
                let q = queue_lookup(queue_map, p);
                let ins = self.node_atts(p, false);
                barrier_list(&mut current, &mut barriers, &ins, ResourceState::ShaderRead, p, q);
                let outs = self.node_atts(p, true);
                barrier_list(&mut current, &mut barriers, &outs, ResourceState::RenderTarget, p, q);
            }
            i = i + 1;
        }
        proof {
            assert(order@.subrange(0, n as int) =~= order@);
        }
        barriers
    }

    /// Split `order` into consecutive runs of passes on the same queue.
    pub fn split_by_queue(&self, order: &[PassId], queue_map: &[(PassId, PassQueue)]) -> (g: Vec<(PassQueue, Vec<PassId>)>)
        ensures
            g@.map_values(|e: (PassQueue, Vec<PassId>)| (e.0, e.1@)) == split_outcome(order@, queue_map@),
    {
        let mut groups: Vec<(PassQueue, Vec<PassId>)> = Vec::new();
        let n = order.len();
        let mut i: usize = 0;
        while i < n
            invariant
                n == order@.len(),
                i <= n,
                groups@.map_values(|e: (PassQueue, Vec<PassId>)| (e.0, e.1@)) == split_outcome(
                    order@.subrange(0, i as int),
                    queue_map@,
                ),
            decreases n - i,
        {
            let p = order[i];
            let q = queue_lookup(queue_map, p);
            proof {
                assert(order@.subrange(0, i as int + 1).drop_last() =~= order@.subrange(0, i as int));
            }
            let ghost g0 = groups@.map_values(|e: (PassQueue, Vec<PassId>)| (e.0, e.1@));
            let ng = groups.len();
            if ng > 0 && groups[ng - 1].0 == q {
                let last = groups.pop();
                match last {
                    Some((lq, mut list)) => {
                        list.push(p);
                        groups.push((lq, list));
                        proof {
                            assert(groups@.map_values(|e: (PassQueue, Vec<PassId>)| (e.0, e.1@)) =~= g0.update(
                                g0.len() - 1,
                                (q, g0.last().1.push(p)),
                            ));
                        }
                    },
                    None => {},
                }
            } else {
                let mut list: Vec<PassId> = Vec::new();
                list.push(p);
                groups.push((q, list));
                proof {
                    assert(groups@.map_values(|e: (PassQueue, Vec<PassId>)| (e.0, e.1@)) =~= g0.push((q, seq![p])));
                }
            }
            i = i + 1;
        }
        proof {
            assert(order@.subrange(0, n as int) =~= order@);
        }
        groups
    }
}

fn set_list(state: &mut Vec<(AttachmentId, ResourceState)>, atts: &Vec<AttachmentId>, to: ResourceState)
    requires
        keys_distinct(old(state)@),
    ensures
        keys_distinct(final(state)@),
        assoc_map(final(state)@) == set_all(assoc_map(old(state)@), atts@, to),
{
    let n = atts.len();
    let mut k: usize = 0;
    while k < n
        invariant
            n == atts@.len(),
            k <= n,
            keys_distinct(state@),
            assoc_map(state@) == set_all(assoc_map(old(state)@), atts@.subrange(0, k as int), to),
        decreases n - k,
    {
        proof {
            assert(atts@.subrange(0, k as int + 1).drop_last() =~= atts@.subrange(0, k as int));
        }
        assoc_set(state, atts[k], to);
        k = k + 1;
    }
    proof {
        assert(atts@.subrange(0, n as int) =~= atts@);
    }
}

fn barrier_list(
    current: &mut Vec<(AttachmentId, (ResourceState, PassQueue))>,
    barriers: &mut Vec<TextureBarrier>,
    atts: &Vec<AttachmentId>,
    to: ResourceState,
    pass: PassId,
    q: PassQueue,
)
    requires
        keys_distinct(old(current)@),
    ensures
        keys_distinct(final(current)@),
        (assoc_map(final(current)@), final(barriers)@) == barrier_atts(
            assoc_map(old(current)@),
            old(barriers)@,
            atts@,
            to,
            pass,
            q,
        ),
{
    let n = atts.len();
    let mut k: usize = 0;
    while k < n
        invariant
            n == atts@.len(),
            k <= n,
            keys_distinct(current@),
            (assoc_map(current@), barriers@) == barrier_atts(
                assoc_map(old(current)@),
                old(barriers)@,
                atts@.subrange(0, k as int),
                to,
                pass,
                q,
            ),
        decreases n - k,
    {
        let a = atts[k];
        proof {
            assert(atts@.subrange(0, k as int + 1).drop_last() =~= atts@.subrange(0, k as int));
        }
        let (prev, prev_q) = match assoc_get(current, a) {
            Some(e) => e,
            None => (ResourceState::Undefined, PassQueue::Graphics),
        };
        let cross = prev_q != q;
        if prev != to || cross {
            barriers.push(TextureBarrier { attachment: a, src_state: prev, dst_state: to, before_pass: pass, cross_queue: cross });
            assoc_set(current, a, (to, q));
        }
        k = k + 1;
    }
    proof {
        assert(atts@.subrange(0, n as int) =~= atts@);
    }
}

/// `s` without the entries that occur in `excl`, order kept.
pub open spec fn without(s: Seq<PassId>, excl: Seq<PassId>) -> Seq<PassId>
    decreases s.len(),
{
    if s.len() == 0 {
        Seq::empty()
    } else {
        let w = without(s.drop_last(), excl);
        if excl.contains(s.last()) {
            w
        } else {
            w.push(s.last())
        }
    }
}

proof fn lemma_without_contains(s: Seq<PassId>, excl: Seq<PassId>, x: PassId)
    ensures
        without(s, excl).contains(x) <==> (s.contains(x) && !excl.contains(x)),
    decreases s.len(),
{
    if s.len() > 0 {
        lemma_without_contains(s.drop_last(), excl, x);
        let w = without(s.drop_last(), excl);
        assert(s.contains(x) <==> (s.drop_last().contains(x) || s.last() == x)) by {
            if s.contains(x) {
                let i = choose|i: int| 0 <= i < s.len() && s[i] == x;
                if i < s.len() - 1 {
                    assert(s.drop_last()[i] == x);
                }
            }
            if s.drop_last().contains(x) {
                let i = choose|i: int| 0 <= i < s.len() - 1 && s.drop_last()[i] == x;
                assert(s[i] == x);
            }
        }
        if !excl.contains(s.last()) {
            assert(w.push(s.last()).contains(x) <==> (w.contains(x) || s.last() == x)) by {
                if w.push(s.last()).contains(x) {
                    let i = choose|i: int| 0 <= i < w.len() + 1 && w.push(s.last())[i] == x;
                    if i < w.len() {
                        assert(w[i] == x);
                    }
                }
                if w.contains(x) {
                    let i = choose|i: int| 0 <= i < w.len() && w[i] == x;
                    assert(w.push(s.last())[i] == x);
                }
                if s.last() == x {
                    assert(w.push(s.last())[w.len() as int] == x);
                }
            }
        }
    }
}

/// The last pass of `passes` (declaration order) other than `p` that
/// writes `a`.
pub open spec fn latest_declared_writer(
    passes: Seq<PassId>,
    nodes: Map<PassId, NodeView>,
    a: AttachmentId,
    p: PassId,
) -> Option<PassId>
    decreases passes.len(),
{
    if passes.len() == 0 {
        None
    } else if passes.last() != p && writes(nodes, passes.last(), a) {
        Some(passes.last())
    } else {
        latest_declared_writer(passes.drop_last(), nodes, a, p)
    }
}

/// Dependencies of `p` after inference: for each input in turn, its latest
/// declared writer is appended unless already present.
pub open spec fn inferred_deps(
    deps: Seq<PassId>,
    inputs: Seq<AttachmentId>,
    passes: Seq<PassId>,
    nodes: Map<PassId, NodeView>,
    p: PassId,
) -> Seq<PassId>
    decreases inputs.len(),
{
    if inputs.len() == 0 {
        deps
    } else {
        let d = inferred_deps(deps, inputs.drop_last(), passes, nodes, p);
        match latest_declared_writer(passes, nodes, inputs.last(), p) {
            Some(w) => if d.contains(w) {
                d
            } else {
                d.push(w)
            },
            None => d,
        }
    }
}

/// The writer found for `a` on behalf of `p` is never `p` itself: it is a
/// declared pass other than `p` that writes `a`, and no pass declared after
/// it does, except `p`; none is found exactly when no pass but `p` writes
/// `a`.
pub proof fn lemma_latest_declared_writer(passes: Seq<PassId>, nodes: Map<PassId, NodeView>, a: AttachmentId, p: PassId)
    ensures
        match latest_declared_writer(passes, nodes, a, p) {
            Some(w) => {
                &&& w != p
                &&& writes(nodes, w, a)
                &&& exists|i: int|
                    0 <= i < passes.len() && passes[i] == w && forall|j: int|
                        i < j < passes.len() ==> #[trigger] passes[j] == p || !writes(nodes, passes[j], a)
            },
            None => forall|i: int| 0 <= i < passes.len() ==> #[trigger] passes[i] == p || !writes(nodes, passes[i], a),
        },
    decreases passes.len(),
{
    if passes.len() > 0 {
        let ps = passes.drop_last();
        lemma_latest_declared_writer(ps, nodes, a, p);
        let l = passes.last();
        if l != p && writes(nodes, l, a) {
            let i = passes.len() - 1;
            assert(passes[i] == l);
        } else {
            match latest_declared_writer(ps, nodes, a, p) {
                Some(w) => {
                    let i = choose|i: int|
                        0 <= i < ps.len() && ps[i] == w && forall|j: int|
                            i < j < ps.len() ==> #[trigger] ps[j] == p || !writes(nodes, ps[j], a);
                    assert(passes[i] == w);
                    assert forall|j: int| i < j < passes.len() implies #[trigger] passes[j] == p || !writes(nodes, passes[j], a) by {
                        if j < passes.len() - 1 {
                            assert(passes[j] == ps[j]);
                        }
                    }
                },
                None => {
                    assert forall|i: int| 0 <= i < passes.len() implies #[trigger] passes[i] == p || !writes(nodes, passes[i], a) by {
                        if i < passes.len() - 1 {
                            assert(passes[i] == ps[i]);
                        }
                    }
                },
            }
        }
    }
}

/// Inference keeps the dependencies a pass had, in order, and adds exactly
/// the latest declared writers (other than the pass) of its inputs, each
/// once; so it never makes a pass depend on itself.
pub proof fn lemma_inferred_deps(
    deps: Seq<PassId>,
    inputs: Seq<AttachmentId>,
    passes: Seq<PassId>,
    nodes: Map<PassId, NodeView>,
    p: PassId,
)
    ensures
        inferred_deps(deps, inputs, passes, nodes, p).len() >= deps.len(),
        forall|k: int| 0 <= k < deps.len() ==> #[trigger] inferred_deps(deps, inputs, passes, nodes, p)[k] == deps[k],
        forall|x: PassId|
            #[trigger] inferred_deps(deps, inputs, passes, nodes, p).contains(x) <==> (deps.contains(x) || exists|k: int|
                0 <= k < inputs.len() && latest_declared_writer(passes, nodes, #[trigger] inputs[k], p) == Some(x)),
        inferred_deps(deps, inputs, passes, nodes, p).contains(p) ==> deps.contains(p),
        deps.no_duplicates() ==> inferred_deps(deps, inputs, passes, nodes, p).no_duplicates(),
    decreases inputs.len(),
{
    if inputs.len() > 0 {
        let ins = inputs.drop_last();
        lemma_inferred_deps(deps, ins, passes, nodes, p);
        let d = inferred_deps(deps, ins, passes, nodes, p);
        let r = inferred_deps(deps, inputs, passes, nodes, p);
        let lw = latest_declared_writer(passes, nodes, inputs.last(), p);
        lemma_latest_declared_writer(passes, nodes, inputs.last(), p);
        assert forall|x: PassId|
            (exists|k: int| 0 <= k < inputs.len() && latest_declared_writer(passes, nodes, #[trigger] inputs[k], p) == Some(x))
                <==> ((exists|k: int| 0 <= k < ins.len() && latest_declared_writer(passes, nodes, #[trigger] ins[k], p) == Some(x))
                || lw == Some(x)) by {
            if exists|k: int| 0 <= k < inputs.len() && latest_declared_writer(passes, nodes, #[trigger] inputs[k], p) == Some(x) {
                let k = choose|k: int| 0 <= k < inputs.len() && latest_declared_writer(passes, nodes, #[trigger] inputs[k], p) == Some(x);
                if k < ins.len() {
                    assert(ins[k] == inputs[k]);
                }
            }
            if exists|k: int| 0 <= k < ins.len() && latest_declared_writer(passes, nodes, #[trigger] ins[k], p) == Some(x) {
                let k = choose|k: int| 0 <= k < ins.len() && latest_declared_writer(passes, nodes, #[trigger] ins[k], p) == Some(x);
                assert(inputs[k] == ins[k]);
            }
            if lw == Some(x) {
                assert(inputs[inputs.len() - 1] == inputs.last());
            }
        }
        match lw {
            Some(w) => {
                if !d.contains(w) {
                    assert forall|x: PassId| #[trigger] r.contains(x) <==> (d.contains(x) || x == w) by {
                        if r.contains(x) {
                            let i = choose|i: int| 0 <= i < r.len() && r[i] == x;
                            if i < d.len() {
                                assert(d[i] == x);
                            }
                        }
                        if d.contains(x) {
                            let i = choose|i: int| 0 <= i < d.len() && d[i] == x;
                            assert(r[i] == x);
                        }
                        if x == w {
                            assert(r[d.len() as int] == w);
                        }
                    }
                    assert forall|k: int| 0 <= k < deps.len() implies #[trigger] r[k] == deps[k] by {
                        assert(r[k] == d[k]);
                    }
                    if d.no_duplicates() {
                        assert forall|i: int, j: int| 0 <= i < r.len() && 0 <= j < r.len() && i != j implies r[i] != r[j] by {
                            if i < d.len() && j < d.len() {
                                assert(r[i] == d[i] && r[j] == d[j]);
                            } else if i < d.len() {
                                assert(r[i] == d[i]);
                                assert(d.contains(d[i]));
                            } else if j < d.len() {
                                assert(r[j] == d[j]);
                                assert(d.contains(d[j]));
                            }
                        }
                    }
                }
            },
            None => {},
        }
    }
}

impl RenderGraph {
    /// Reorder the declaration list: `new_order` first, then the passes it
    /// does not mention, in their previous order.
    pub fn set_pass_order(&mut self, new_order: Vec<PassId>)
        requires
            old(self).wf(),
        ensures
            final(self).wf(),
            final(self).nodes_view() == old(self).nodes_view(),
            final(self).passes() == new_order@ + without(old(self).passes(), new_order@),
    {
        let mut remaining: Vec<PassId> = Vec::new();
        let n = self.pass_order.len();
        let mut i: usize = 0;
        while i < n
            invariant
                n == self.pass_order@.len(),
                *self == *old(self),
                i <= n,
                remaining@ == without(self.pass_order@.subrange(0, i as int), new_order@),
            decreases n - i,
        {
            let p = self.pass_order[i];
            proof {
                assert(self.pass_order@.subrange(0, i as int + 1).drop_last() =~= self.pass_order@.subrange(0, i as int));
            }
            let mut found = false;
            let m = new_order.len();
            let mut k: usize = 0;
            while k < m
                invariant
                    m == new_order@.len(),
                    k <= m,
                    found == exists|c: int| 0 <= c < k && new_order@[c] == p,
                decreases m - k,
            {
                if new_order[k] == p {
                    found = true;
                }
                k = k + 1;
            }
            if !found {
                remaining.push(p);
            }
            i = i + 1;
        }
        proof {
            assert(self.pass_order@.subrange(0, n as int) =~= self.pass_order@);
        }
        let mut order = new_order;
        let ghost no = order@;
        order.append(&mut remaining);
        self.pass_order = order;
        proof {
            let old_p = old(self).pass_order@;
            assert forall|i: int| 0 <= i < self.nodes@.len() implies self.pass_order@.contains(#[trigger] self.nodes@[i].0) by {
                let x = self.nodes@[i].0;
                assert(old_p.contains(x));
                if no.contains(x) {
                    let c = choose|c: int| 0 <= c < no.len() && no[c] == x;
                    assert(self.pass_order@[c] == x);
                } else {
                    lemma_without_contains(old_p, no, x);
                    let w = without(old_p, no);
                    let c = choose|c: int| 0 <= c < w.len() && w[c] == x;
                    assert(self.pass_order@[no.len() + c] == x);
                }
            }
        }
    }

    fn latest_writer_decl(&self, a: AttachmentId, p: PassId) -> (w: Option<PassId>)
        requires
            self.wf(),
        ensures
            w == latest_declared_writer(self.passes(), self.nodes_view(), a, p),
    {
        let mut j: usize = self.pass_order.len();
        proof {
            assert(self.passes().subrange(0, j as int) =~= self.passes());
        }
        while j > 0
            invariant
                self.wf(),
                j <= self.pass_order@.len(),
                latest_declared_writer(self.passes(), self.nodes_view(), a, p) == latest_declared_writer(
                    self.passes().subrange(0, j as int),
                    self.nodes_view(),
                    a,
                    p,
                ),
            decreases j,
        {
            let x = self.pass_order[j - 1];
            proof {
                assert(self.passes().subrange(0, j as int).drop_last() =~= self.passes().subrange(0, j as int - 1));
            }
            if x != p && self.writes_attachment(x, a) {
                return Some(x);
            }
            j = j - 1;
        }
        None
    }

    /// Infer dependencies from attachment reads: for every pass P reading
    /// attachment A, the latest declared pass W other than P writing A
    /// becomes a dependency of P (if it is not one already).
    pub fn infer_dependencies(&mut self)
        requires
            old(self).wf(),
        ensures
            final(self).wf(),
            final(self).passes() == old(self).passes(),
            final(self).nodes_view().dom() == old(self).nodes_view().dom(),
            forall|p: PassId| #[trigger] old(self).nodes_view().dom().contains(p) ==> {
                let n = old(self).nodes_view()[p];
                final(self).nodes_view()[p] == NodeView {
                    deps: inferred_deps(n.deps, n.inputs, old(self).passes(), old(self).nodes_view(), p),
                    inputs: n.inputs,
                    outputs: n.outputs,
                }
            },
    {
        let ghost m0 = self.nodes_view();
        let ghost ns0 = self.node_seq();
        let nn = self.nodes.len();
        let mut i: usize = 0;
        proof {
            assert(ns0 == self.node_seq());
            assert(ns0.len() == nn);
        }
        while i < nn
            invariant
                self.wf(),
                nn == self.nodes@.len(),
                ns0.len() == nn,
                keys_distinct(ns0),
                self.passes() == old(self).passes(),
                ns0 == old(self).node_seq(),
                m0 == old(self).nodes_view(),
                i <= nn,
                forall|a: int| 0 <= a < nn ==> #[trigger] self.node_seq()[a].0 == ns0[a].0,
                forall|a: int| 0 <= a < nn ==> #[trigger] self.node_seq()[a].1.inputs == ns0[a].1.inputs
                    && self.node_seq()[a].1.outputs == ns0[a].1.outputs,
                forall|a: int| i <= a < nn ==> #[trigger] self.node_seq()[a].1.deps == ns0[a].1.deps,
                forall|a: int| 0 <= a < i ==> #[trigger] self.node_seq()[a].1.deps == inferred_deps(
                    ns0[a].1.deps,
                    ns0[a].1.inputs,
                    old(self).passes(),
                    m0,
                    ns0[a].0,
                ),
                self.nodes_view().dom() == m0.dom(),
                forall|p: PassId, a: AttachmentId| writes(self.nodes_view(), p, a) == writes(m0, p, a),
            decreases nn - i,
        {
            let pid = self.nodes[i].0;
            let mut deps = self.nodes[i].1.dependencies.clone();
            let inputs = self.nodes[i].1.inputs.clone();
            let ni = inputs.len();
            let mut k: usize = 0;
            proof {
                assert(self.node_seq()[i as int].1.deps == ns0[i as int].1.deps);
                assert(self.node_seq()[i as int].1.inputs == ns0[i as int].1.inputs);
                assert(self.node_seq()[i as int].0 == ns0[i as int].0);
                assert(deps@ == ns0[i as int].1.deps);
                assert(inputs@ == ns0[i as int].1.inputs);
            }
            while k < ni
                invariant
                    self.wf(),
                    self.passes() == old(self).passes(),
                    m0 == old(self).nodes_view(),
                    forall|p: PassId, a: AttachmentId| writes(self.nodes_view(), p, a) == writes(m0, p, a),
                    ni == inputs@.len(),
                    i < nn,
                    ns0.len() == nn,
                    pid == ns0[i as int].0,
                    k <= ni,
                    deps@ == inferred_deps(ns0[i as int].1.deps, inputs@.subrange(0, k as int), old(self).passes(), m0, pid),
                decreases ni - k,
            {
                proof {
                    assert(inputs@.subrange(0, k as int + 1).drop_last() =~= inputs@.subrange(0, k as int));
                    lemma_latest_declared_same(self.passes(), self.nodes_view(), m0, inputs@[k as int], pid);
                }
                let w = self.latest_writer_decl(inputs[k], pid);
                match w {
                    Some(wid) => {
                        let mut present = false;
                        let nd = deps.len();
                        let mut c: usize = 0;
                        while c < nd
                            invariant
                                nd == deps@.len(),
                                c <= nd,
                                present == exists|e: int| 0 <= e < c && deps@[e] == wid,
                            decreases nd - c,
                        {
                            if deps[c] == wid {
                                present = true;
                            }
                            c = c + 1;
                        }
                        if !present {
                            deps.push(wid);
                        }
                    },
                    None => {},
                }
                k = k + 1;
            }
            proof {
                assert(inputs@.subrange(0, ni as int) =~= inputs@);
            }
            let ghost before = self.node_seq();
            let mut entry = self.nodes.remove(i);
            entry.1.dependencies = deps;
            self.nodes.insert(i, entry);
            proof {
                let after = self.node_seq();
                assert(after =~= before.update(i as int, (before[i as int].0, NodeView {
                    deps: after[i as int].1.deps,
                    inputs: before[i as int].1.inputs,
                    outputs: before[i as int].1.outputs,
                })));
                lemma_assoc_set(before, i as int, after[i as int].1);
                assert forall|a: int| 0 <= a < self.nodes@.len() implies self.pass_order@.contains(#[trigger] self.nodes@[a].0) by {
                    assert(self.nodes@[a].0 == before[a].0);
                    assert(self.nodes@[a].0 == old(self).nodes@[a].0);
                }
                assert(self.nodes_view().dom() =~= m0.dom());
                assert forall|p: PassId, a: AttachmentId| writes(self.nodes_view(), p, a) == writes(m0, p, a) by {
                    if self.nodes_view().dom().contains(p) {
                        let b = lemma_assoc_dom(after, p);
                        lemma_assoc_index(after, b);
                        lemma_assoc_index(ns0, b);
                        assert(ns0[b].0 == p);
                    }
                }
            }
            i = i + 1;
        }
        proof {
            assert forall|p: PassId| #[trigger] m0.dom().contains(p) implies {
                let n = m0[p];
                self.nodes_view()[p] == NodeView {
                    deps: inferred_deps(n.deps, n.inputs, old(self).passes(), m0, p),
                    inputs: n.inputs,
                    outputs: n.outputs,
                }
            } by {
                let b = lemma_assoc_dom(ns0, p);
                lemma_assoc_index(ns0, b);
                assert(self.node_seq()[b].0 == ns0[b].0);
                lemma_assoc_index(self.node_seq(), b);
                assert(self.node_seq()[b].1.deps == inferred_deps(ns0[b].1.deps, ns0[b].1.inputs, old(self).passes(), m0, ns0[b].0));
                assert(self.node_seq()[b].1.inputs == ns0[b].1.inputs);
            }
        }
    }
}

proof fn lemma_latest_declared_same(
    passes: Seq<PassId>,
    m1: Map<PassId, NodeView>,
    m0: Map<PassId, NodeView>,
    a: AttachmentId,
    p: PassId,
)
    requires
        forall|q: PassId, b: AttachmentId| writes(m1, q, b) == writes(m0, q, b),
    ensures
        latest_declared_writer(passes, m1, a, p) == latest_declared_writer(passes, m0, a, p),
    decreases passes.len(),
{
    if passes.len() > 0 {
        lemma_latest_declared_same(passes.drop_last(), m1, m0, a, p);
    }
}

proof fn lemma_transition_atts_states(
    st: Map<AttachmentId, ResourceState>,
    acc: Seq<ResourceTransition>,
    atts: Seq<AttachmentId>,
    to: ResourceState,
    pass: PassId,
)
    requires
        to != ResourceState::Undefined,
    ensures
        transition_atts(st, acc, atts, to, pass).0 == set_all(st, atts, to),
    decreases atts.len(),
{
    if atts.len() > 0 {
        lemma_transition_atts_states(st, acc, atts.drop_last(), to, pass);
        let st1 = set_all(st, atts.drop_last(), to);
        let a = atts.last();
        if state_of(st1, a) == to {
            assert(st1.insert(a, to) =~= st1);
        }
    }
}

/// The final attachment states are exactly the states that the computed
/// transitions leave the attachments in.
pub proof fn lemma_final_states_match_transitions(nodes: Map<PassId, NodeView>, order: Seq<PassId>)
    ensures
        final_states_spec(nodes, order) == transitions_outcome(nodes, order).0,
    decreases order.len(),
{
    if order.len() > 0 {
        lemma_final_states_match_transitions(nodes, order.drop_last());
        let p = order.last();
        if nodes.dom().contains(p) {
            let (st, acc) = transitions_outcome(nodes, order.drop_last());
            lemma_transition_atts_states(st, acc, nodes[p].inputs, ResourceState::ShaderRead, p);
            let (st1, acc1) = transition_atts(st, acc, nodes[p].inputs, ResourceState::ShaderRead, p);
            lemma_transition_atts_states(st1, acc1, nodes[p].outputs, ResourceState::RenderTarget, p);
        }
    }
}

/// Splitting by queue keeps every pass, in order: the groups concatenate
/// back to `order`, no group is empty, every pass of a group runs on that
/// group's queue, and neighbouring groups use different queues.
pub proof fn lemma_split_by_queue_partitions(order: Seq<PassId>, qm: Seq<(PassId, PassQueue)>)
    ensures
        flatten_groups(split_outcome(order, qm)) == order,
        order.len() == 0 ==> split_outcome(order, qm).len() == 0,
        forall|g: int| 0 <= g < split_outcome(order, qm).len() ==> #[trigger] split_outcome(order, qm)[g].1.len() > 0,
        forall|g: int| 0 <= g < split_outcome(order, qm).len() - 1 ==> #[trigger] split_outcome(order, qm)[g].0
            != split_outcome(order, qm)[g + 1].0,
        forall|g: int, k: int|
            0 <= g < split_outcome(order, qm).len() && 0 <= k < split_outcome(order, qm)[g].1.len() ==> queue_of(
                qm,
                #[trigger] split_outcome(order, qm)[g].1[k],
            ) == split_outcome(order, qm)[g].0,
    decreases order.len(),
{
    if order.len() > 0 {
        lemma_split_by_queue_partitions(order.drop_last(), qm);
        let g = split_outcome(order.drop_last(), qm);
        let p = order.last();
        let q = queue_of(qm, p);
        let r = split_outcome(order, qm);
        if g.len() > 0 && g.last().0 == q {
            assert(r.drop_last() =~= g.drop_last());
            assert(flatten_groups(r) == flatten_groups(g.drop_last()) + g.last().1.push(p));
            assert(flatten_groups(g) == flatten_groups(g.drop_last()) + g.last().1);
            assert(flatten_groups(r) =~= flatten_groups(g).push(p));
            assert(order.drop_last().push(p) =~= order);
            assert forall|k: int| 0 <= k < r.len() - 1 implies #[trigger] r[k].0 != r[k + 1].0 by {
                assert(g[k].0 != g[k + 1].0);
            }
            assert forall|a: int, k: int| 0 <= a < r.len() && 0 <= k < r[a].1.len() implies queue_of(qm, #[trigger] r[a].1[k])
                == r[a].0 by {
                if a < r.len() - 1 {
                    assert(r[a] == g[a]);
                } else if k < g.last().1.len() {
                    assert(r[a].1[k] == g[g.len() - 1].1[k]);
                }
            }
        } else {
            assert(r.drop_last() =~= g);
            assert(flatten_groups(r) =~= flatten_groups(g).push(p));
            assert(order.drop_last().push(p) =~= order);
            assert forall|k: int| 0 <= k < r.len() - 1 implies #[trigger] r[k].0 != r[k + 1].0 by {
                if k < g.len() - 1 {
                    assert(g[k].0 != g[k + 1].0);
                }
            }
            assert forall|a: int, k: int| 0 <= a < r.len() && 0 <= k < r[a].1.len() implies queue_of(qm, #[trigger] r[a].1[k])
                == r[a].0 by {
                if a < g.len() {
                    assert(r[a] == g[a]);
                }
            }
        }
    }
}

/// Barrier of a transition when everything runs on one queue.
pub open spec fn same_queue_barrier(t: ResourceTransition) -> TextureBarrier {
    TextureBarrier { attachment: t.attachment, src_state: t.from, dst_state: t.to, before_pass: t.before_pass, cross_queue: false }
}

/// Graphics-queue view of a state map.
pub open spec fn on_graphics(st: Map<AttachmentId, ResourceState>) -> Map<AttachmentId, (ResourceState, PassQueue)> {
    Map::new(|a: AttachmentId| st.dom().contains(a), |a: AttachmentId| (st[a], PassQueue::Graphics))
}

proof fn lemma_barrier_atts_single(
    st: Map<AttachmentId, ResourceState>,
    acc: Seq<ResourceTransition>,
    bacc: Seq<TextureBarrier>,
    atts: Seq<AttachmentId>,
    to: ResourceState,
    pass: PassId,
)
    requires
        to != ResourceState::Undefined,
        bacc == acc.map_values(|t: ResourceTransition| same_queue_barrier(t)),
    ensures
        barrier_atts(on_graphics(st), bacc, atts, to, pass, PassQueue::Graphics).0 == on_graphics(
            transition_atts(st, acc, atts, to, pass).0,
        ),
        barrier_atts(on_graphics(st), bacc, atts, to, pass, PassQueue::Graphics).1 == transition_atts(
            st,
            acc,
            atts,
            to,
            pass,
        ).1.map_values(|t: ResourceTransition| same_queue_barrier(t)),
    decreases atts.len(),
{
    if atts.len() > 0 {
        lemma_barrier_atts_single(st, acc, bacc, atts.drop_last(), to, pass);
        let (st1, acc1) = transition_atts(st, acc, atts.drop_last(), to, pass);
        let a = atts.last();
        let prev = state_of(st1, a);
        if prev != to {
            let t = ResourceTransition { attachment: a, from: prev, to, before_pass: pass };
            assert(acc1.push(t).map_values(|t: ResourceTransition| same_queue_barrier(t)) =~= acc1.map_values(
                |t: ResourceTransition| same_queue_barrier(t),
            ).push(same_queue_barrier(t)));
            assert(on_graphics(st1.insert(a, to)) =~= on_graphics(st1).insert(a, (to, PassQueue::Graphics)));
        }
    }
}

/// With every pass on the graphics queue, the barrier plan is the list of
/// resource transitions, none of them cross-queue.
pub proof fn lemma_single_queue_barriers_are_transitions(
    nodes: Map<PassId, NodeView>,
    order: Seq<PassId>,
    qm: Seq<(PassId, PassQueue)>,
)
    requires
        forall|p: PassId| #[trigger] queue_of(qm, p) == PassQueue::Graphics,
    ensures
        barrier_outcome(nodes, order, qm).1 == transitions_outcome(nodes, order).1.map_values(
            |t: ResourceTransition| same_queue_barrier(t),
        ),
        barrier_outcome(nodes, order, qm).0 == on_graphics(transitions_outcome(nodes, order).0),
    decreases order.len(),
{
    if order.len() == 0 {
        assert(on_graphics(Map::<AttachmentId, ResourceState>::empty()) =~= Map::<AttachmentId, (ResourceState, PassQueue)>::empty());
        assert(Seq::<ResourceTransition>::empty().map_values(|t: ResourceTransition| same_queue_barrier(t)) =~= Seq::<TextureBarrier>::empty());
    } else {
        lemma_single_queue_barriers_are_transitions(nodes, order.drop_last(), qm);
        let p = order.last();
        if nodes.dom().contains(p) {
            assert(queue_of(qm, p) == PassQueue::Graphics);
            let (st, acc) = transitions_outcome(nodes, order.drop_last());
            let bacc = acc.map_values(|t: ResourceTransition| same_queue_barrier(t));
            lemma_barrier_atts_single(st, acc, bacc, nodes[p].inputs, ResourceState::ShaderRead, p);
            let (st1, acc1) = transition_atts(st, acc, nodes[p].inputs, ResourceState::ShaderRead, p);
            let bacc1 = acc1.map_values(|t: ResourceTransition| same_queue_barrier(t));
            lemma_barrier_atts_single(st1, acc1, bacc1, nodes[p].outputs, ResourceState::RenderTarget, p);
        }
    }
}

proof fn lemma_inferred_keeps(
    deps: Seq<PassId>,
    inputs: Seq<AttachmentId>,
    passes: Seq<PassId>,
    nodes: Map<PassId, NodeView>,
    p: PassId,
    x: PassId,
)
    requires
        deps.contains(x),
    ensures
        inferred_deps(deps, inputs, passes, nodes, p).contains(x),
    decreases inputs.len(),
{
    if inputs.len() > 0 {
        lemma_inferred_keeps(deps, inputs.drop_last(), passes, nodes, p, x);
        let d = inferred_deps(deps, inputs.drop_last(), passes, nodes, p);
        if let Some(w) = latest_declared_writer(passes, nodes, inputs.last(), p) {
            if !d.contains(w) {
                let i = choose|i: int| 0 <= i < d.len() && d[i] == x;
                assert(d.push(w)[i] == x);
            }
        }
    }
}

/// After inference, a pass depends directly on the latest declared writer
/// (other than itself) of each attachment it reads, and keeps its earlier
/// dependencies.
pub proof fn lemma_inferred_covers_reads(
    deps: Seq<PassId>,
    inputs: Seq<AttachmentId>,
    passes: Seq<PassId>,
    nodes: Map<PassId, NodeView>,
    p: PassId,
    k: int,
)
    requires
        0 <= k < inputs.len(),
    ensures
        latest_declared_writer(passes, nodes, inputs[k], p) matches Some(w) ==> inferred_deps(
            deps,
            inputs,
            passes,
            nodes,
            p,
        ).contains(w),
        forall|x: PassId| #[trigger] deps.contains(x) ==> inferred_deps(deps, inputs, passes, nodes, p).contains(x),
    decreases inputs.len(),
{
    assert forall|x: PassId| #[trigger] deps.contains(x) implies inferred_deps(deps, inputs, passes, nodes, p).contains(x) by {
        lemma_inferred_keeps(deps, inputs, passes, nodes, p, x);
    }
    let d = inferred_deps(deps, inputs.drop_last(), passes, nodes, p);
    if k < inputs.len() - 1 {
        lemma_inferred_covers_reads(deps, inputs.drop_last(), passes, nodes, p, k);
        assert(inputs.drop_last()[k] == inputs[k]);
        if let Some(w) = latest_declared_writer(passes, nodes, inputs[k], p) {
            assert(d.contains(w));
            if let Some(w2) = latest_declared_writer(passes, nodes, inputs.last(), p) {
                if !d.contains(w2) {
                    let i = choose|i: int| 0 <= i < d.len() && d[i] == w;
                    assert(d.push(w2)[i] == w);
                }
            }
        }
    } else {
        if let Some(w) = latest_declared_writer(passes, nodes, inputs[k], p) {
            if !d.contains(w) {
                assert(d.push(w)[d.len() as int] == w);
            }
        }
    }
}
/// The last position of `p` in `order`.
pub open spec fn last_position(order: Seq<PassId>, p: PassId) -> Option<int>
    decreases order.len(),
{
    if order.len() == 0 {
        None
    } else if order.last() == p {
        Some(order.len() - 1)
    } else {
        last_position(order.drop_last(), p)
    }
}

/// Record that attachment `a` is used at position `i`: widen its
/// `(first, last)` range, or start one.
pub open spec fn touch_lifetime(m: Map<AttachmentId, (usize, usize)>, a: AttachmentId, i: usize) -> Map<
    AttachmentId,
    (usize, usize),
> {
    if m.dom().contains(a) {
        let (f, l) = m[a];
        m.insert(a, (if i < f { i } else { f }, if i > l { i } else { l }))
    } else {
        m.insert(a, (i, i))
    }
}

/// Record the first `k` attachments of `atts` as used at position `i`.
pub open spec fn touch_all(m: Map<AttachmentId, (usize, usize)>, atts: Seq<AttachmentId>, i: usize, k: nat) -> Map<
    AttachmentId,
    (usize, usize),
>
    decreases k,
{
    if k == 0 {
        m
    } else {
        touch_lifetime(touch_all(m, atts, i, (k - 1) as nat), atts[k - 1], i)
    }
}

/// First and last positions in `order` at which the attachments of the
/// first `k` nodes are written or read (nodes missing from `order` do not
/// count).
pub open spec fn lifetime_fold(nodes: Seq<(PassId, NodeView)>, order: Seq<PassId>, k: nat) -> Map<
    AttachmentId,
    (usize, usize),
>
    decreases k,
{
    if k == 0 {
        Map::empty()
    } else {
        let m = lifetime_fold(nodes, order, (k - 1) as nat);
        let (p, n) = nodes[k - 1];
        match last_position(order, p) {
            Some(i) => {
                let m1 = touch_all(m, n.outputs, i as usize, n.outputs.len());
                touch_all(m1, n.inputs, i as usize, n.inputs.len())
            },
            None => m,
        }
    }
}

/// Every range is ordered and lies within the order.
pub open spec fn ranges_ok(m: Map<AttachmentId, (usize, usize)>, n: int) -> bool {
    forall|a: AttachmentId| #[trigger] m.dom().contains(a) ==> m[a].0 <= m[a].1 < n
}

proof fn lemma_touch_all_ok(m: Map<AttachmentId, (usize, usize)>, atts: Seq<AttachmentId>, i: usize, k: nat, n: int)
    requires
        ranges_ok(m, n),
        i < n,
        k <= atts.len(),
    ensures
        ranges_ok(touch_all(m, atts, i, k), n),
    decreases k,
{
    if k > 0 {
        lemma_touch_all_ok(m, atts, i, (k - 1) as nat, n);
    }
}

proof fn lemma_last_position(order: Seq<PassId>, p: PassId)
    ensures
        match last_position(order, p) {
            Some(i) => 0 <= i < order.len() && order[i] == p,
            None => !order.contains(p),
        },
    decreases order.len(),
{
    if order.len() > 0 {
        lemma_last_position(order.drop_last(), p);
        if last_position(order, p) is None && order.contains(p) {
            let j = choose|j: int| 0 <= j < order.len() && order[j] == p;
            assert(order.drop_last()[j] == p);
        }
    }
}

proof fn lemma_lifetime_fold_ok(nodes: Seq<(PassId, NodeView)>, order: Seq<PassId>, k: nat)
    requires
        k <= nodes.len(),
    ensures
        ranges_ok(lifetime_fold(nodes, order, k), order.len() as int),
    decreases k,
{
    if k > 0 {
        lemma_lifetime_fold_ok(nodes, order, (k - 1) as nat);
        let (p, n) = nodes[k - 1];
        lemma_last_position(order, p);
        match last_position(order, p) {
            Some(i) => {
                let m = lifetime_fold(nodes, order, (k - 1) as nat);
                lemma_touch_all_ok(m, n.outputs, i as usize, n.outputs.len(), order.len() as int);
                lemma_touch_all_ok(
                    touch_all(m, n.outputs, i as usize, n.outputs.len()),
                    n.inputs,
                    i as usize,
                    n.inputs.len(),
                    order.len() as int,
                );
            },
            None => {},
        }
    }
}

fn last_index_of(order: &[PassId], p: PassId) -> (r: Option<usize>)
    ensures
        match r {
            Some(i) => last_position(order@, p) == Some(i as int),
            None => last_position(order@, p) == None::<int>,
        },
{
    let mut i: usize = order.len();
    while i > 0
        invariant
            i <= order@.len(),
            last_position(order@, p) == last_position(order@.take(i as int), p),
        decreases i,
    {
        assert(order@.take(i as int).drop_last() =~= order@.take(i - 1));
        if order[i - 1] == p {
            return Some(i - 1);
        }
        i = i - 1;
    }
    None
}

fn touch_entry(lt: &mut Vec<(AttachmentId, (usize, usize))>, a: AttachmentId, i: usize)
    requires
        keys_distinct(old(lt)@),
    ensures
        keys_distinct(final(lt)@),
        assoc_map(final(lt)@) == touch_lifetime(assoc_map(old(lt)@), a, i),
{
    let n = lt.len();
    let mut k: usize = 0;
    while k < n
        invariant
            n == lt@.len(),
            lt@ == old(lt)@,
            keys_distinct(lt@),
            k <= n,
            forall|q: int| 0 <= q < k ==> lt@[q].0 != a,
        decreases n - k,
    {
        if lt[k].0 == a {
            let (f, l) = lt[k].1;
            let nf = if i < f { i } else { f };
            let nl = if i > l { i } else { l };
            proof {
                lemma_assoc_index(lt@, k as int);
                lemma_assoc_set(lt@, k as int, (nf, nl));
            }
            lt.set(k, (a, (nf, nl)));
            return;
        }
        k = k + 1;
    }
    proof {
        lemma_assoc_absent(lt@, a);
        lemma_assoc_push(lt@, a, (i, i));
    }
    lt.push((a, (i, i)));
}

impl RenderGraph {
    /// First and last positions of each attachment's use (see
    /// `lifetime_fold`).
    pub closed spec fn lifetimes(&self, order: Seq<PassId>) -> Map<AttachmentId, (usize, usize)> {
        lifetime_fold(self.node_seq(), order, self.node_seq().len())
    }

    /// Every attachment range is ordered and lies within the order.
    pub proof fn lemma_lifetimes_ok(&self, order: Seq<PassId>)
        ensures
            ranges_ok(self.lifetimes(order), order.len() as int),
    {
        lemma_lifetime_fold_ok(self.node_seq(), order, self.node_seq().len());
    }

    /// For each attachment a pass in `order` writes or reads, the first and
    /// last position in `order` of such a pass (a pass listed twice counts
    /// at its last position).
    pub fn attachment_lifetimes(&self, order: &[PassId]) -> (lt: Vec<(AttachmentId, (usize, usize))>)
        requires
            self.wf(),
        ensures
            keys_distinct(lt@),
            assoc_map(lt@) == self.lifetimes(order@),
    {
        let mut lt: Vec<(AttachmentId, (usize, usize))> = Vec::new();
        proof {
            assert(assoc_map(lt@) =~= Map::<AttachmentId, (usize, usize)>::empty());
        }
        let n = self.nodes.len();
        let mut k: usize = 0;
        while k < n
            invariant
                n == self.nodes@.len(),
                k <= n,
                keys_distinct(lt@),
                assoc_map(lt@) == lifetime_fold(self.node_seq(), order@, k as nat),
            decreases n - k,
        {
            let p = self.nodes[k].0;
            match last_index_of(order, p) {
                Some(i) => {
                    let ghost m0 = assoc_map(lt@);
                    let outs = &self.nodes[k].1.outputs;
                    let mut j: usize = 0;
                    while j < outs.len()
                        invariant
                            j <= outs@.len(),
                            keys_distinct(lt@),
                            assoc_map(lt@) == touch_all(m0, outs@, i, j as nat),
                        decreases outs@.len() - j,
                    {
                        touch_entry(&mut lt, outs[j], i);
                        j = j + 1;
                    }
                    let ghost m1 = assoc_map(lt@);
                    let ins = &self.nodes[k].1.inputs;
                    let mut j: usize = 0;
                    while j < ins.len()
                        invariant
                            j <= ins@.len(),
                            keys_distinct(lt@),
                            assoc_map(lt@) == touch_all(m1, ins@, i, j as nat),
                        decreases ins@.len() - j,
                    {
                        touch_entry(&mut lt, ins[j], i);
                        j = j + 1;
                    }
                },
                None => {},
            }
            k = k + 1;
        }
        lt
    }
}

} // verus!
