//! The node order of the shader-graph compiler: Kahn's algorithm with a
//! stack of ready nodes, as a specification, with the invariant it keeps.
use vstd::prelude::*;
use crate::shader_graph::ShaderConnection;
use crate::shader_graph::ShaderNode;

verus! {

/// Identifiers of the nodes, in node order.
pub open spec fn node_ids(nodes: Seq<ShaderNode>) -> Seq<u32> {
    Seq::new(nodes.len(), |i: int| nodes[i].id)
}

/// Identifiers that get an in-degree entry: node identifiers and
/// connection targets.
pub open spec fn key_set(ids: Seq<u32>, conns: Seq<ShaderConnection>) -> Set<u32> {
    Set::new(|x: u32| ids.contains(x) || exists|k: int| 0 <= k < conns.len() && conns[k].to_node == x)
}

/// Number of connections into `x`.
pub open spec fn count_into(conns: Seq<ShaderConnection>, x: u32) -> nat
    decreases conns.len(),
{
    if conns.len() == 0 {
        0
    } else {
        count_into(conns.drop_last(), x) + (if conns.last().to_node == x { 1nat } else { 0nat })
    }
}

/// Number of connections into `x` whose source is in `p`.
pub open spec fn count_from_into(conns: Seq<ShaderConnection>, p: Seq<u32>, x: u32) -> nat
    decreases conns.len(),
{
    if conns.len() == 0 {
        0
    } else {
        count_from_into(conns.drop_last(), p, x) + (if conns.last().to_node == x && p.contains(
            conns.last().from_node,
        ) {
            1nat
        } else {
            0nat
        })
    }
}

/// Number of connections from `v` into `x`.
pub open spec fn count_edge(conns: Seq<ShaderConnection>, v: u32, x: u32) -> nat
    decreases conns.len(),
{
    if conns.len() == 0 {
        0
    } else {
        count_edge(conns.drop_last(), v, x) + (if conns.last().to_node == x && conns.last().from_node == v {
            1nat
        } else {
            0nat
        })
    }
}

/// In-degrees before any node is taken: every key counts the connections
/// into it.
pub open spec fn start_degrees(ids: Seq<u32>, conns: Seq<ShaderConnection>) -> Map<u32, int> {
    Map::new(|x: u32| key_set(ids, conns).contains(x), |x: u32| count_into(conns, x) as int)
}

/// Ready nodes among the first `k` identifiers, in order.
pub open spec fn ready_prefix(ids: Seq<u32>, deg: Map<u32, int>, k: nat) -> Seq<u32>
    decreases k,
{
    if k == 0 {
        Seq::empty()
    } else {
        let prev = ready_prefix(ids, deg, (k - 1) as nat);
        if deg[ids[k - 1]] == 0 {
            prev.push(ids[k - 1])
        } else {
            prev
        }
    }
}

/// Degrees and stack after taking node `v` and visiting the first `k`
/// connections: each connection out of `v` lowers its target's degree,
/// and a target that reaches zero is pushed.
pub open spec fn relax(
    conns: Seq<ShaderConnection>,
    k: nat,
    v: u32,
    deg: Map<u32, int>,
    stack: Seq<u32>,
) -> (Map<u32, int>, Seq<u32>)
    decreases k,
{
    if k == 0 {
        (deg, stack)
    } else {
        let (d, s) = relax(conns, (k - 1) as nat, v, deg, stack);
        let c = conns[k - 1];
        if c.from_node == v && d.contains_key(c.to_node) {
            let nd = d[c.to_node] - 1;
            (d.insert(c.to_node, nd), if nd == 0 { s.push(c.to_node) } else { s })
        } else {
            (d, s)
        }
    }
}

/// The order produced from a state: take the last ready node, relax its
/// connections, repeat until no node is ready (or the step budget is
/// spent).
pub open spec fn kahn_run(
    conns: Seq<ShaderConnection>,
    order: Seq<u32>,
    stack: Seq<u32>,
    deg: Map<u32, int>,
    fuel: nat,
) -> Seq<u32>
    decreases fuel,
{
    if fuel == 0 || stack.len() == 0 {
        order
    } else {
        let v = stack.last();
        let (d, s) = relax(conns, conns.len(), v, deg, stack.drop_last());
        kahn_run(conns, order.push(v), s, d, (fuel - 1) as nat)
    }
}

/// Step budget: more than the number of keys, so it is never spent.
pub open spec fn kahn_budget(nodes: Seq<ShaderNode>, conns: Seq<ShaderConnection>) -> nat {
    nodes.len() + conns.len() + 1
}

/// The order Kahn's algorithm yields: start from the nodes of in-degree
/// zero in node order.
pub open spec fn kahn_order(nodes: Seq<ShaderNode>, conns: Seq<ShaderConnection>) -> Seq<u32> {
    let ids = node_ids(nodes);
    let d = start_degrees(ids, conns);
    kahn_run(conns, Seq::empty(), ready_prefix(ids, d, ids.len()), d, kahn_budget(nodes, conns))
}

/// The compiler's node order: `None` (a cycle) when it does not hold as
/// many entries as there are nodes.
pub open spec fn topo_result(nodes: Seq<ShaderNode>, conns: Seq<ShaderConnection>) -> Option<Seq<u32>> {
    let o = kahn_order(nodes, conns);
    if o.len() == nodes.len() {
        Some(o)
    } else {
        None
    }
}

/// Every connection into the node at position `i` of `order` comes from a
/// node at an earlier position.
pub open spec fn sources_before(order: Seq<u32>, conns: Seq<ShaderConnection>) -> bool {
    forall|i: int, k: int|
        0 <= i < order.len() && 0 <= k < conns.len() && #[trigger] conns[k].to_node == #[trigger] order[i]
            ==> exists|j: int| 0 <= j < i && order[j] == conns[k].from_node
}

/// Every entry of `s` is a key of in-degree zero.
pub open spec fn zero_keys(s: Seq<u32>, keys: Set<u32>, deg: Map<u32, int>) -> bool {
    forall|i: int| 0 <= i < s.len() ==> #[trigger] keys.contains(s[i]) && deg[s[i]] == 0
}

/// No entry of `a` occurs in `b`.
pub open spec fn disjoint(a: Seq<u32>, b: Seq<u32>) -> bool {
    forall|i: int, j: int| 0 <= i < a.len() && 0 <= j < b.len() ==> #[trigger] a[i] != #[trigger] b[j]
}

/// State invariant of the algorithm.
pub open spec fn kahn_inv(
    ids: Seq<u32>,
    conns: Seq<ShaderConnection>,
    order: Seq<u32>,
    stack: Seq<u32>,
    deg: Map<u32, int>,
) -> bool {
    let keys = key_set(ids, conns);
    &&& deg.dom() == keys
    &&& forall|x: u32| #[trigger] keys.contains(x) ==> deg[x] == count_into(conns, x) - count_from_into(conns, order, x)
    &&& order.no_duplicates()
    &&& stack.no_duplicates()
    &&& disjoint(order, stack)
    &&& zero_keys(order, keys, deg)
    &&& zero_keys(stack, keys, deg)
    &&& forall|x: u32| #[trigger] keys.contains(x) && deg[x] == 0 && !order.contains(x) ==> stack.contains(x)
    &&& sources_before(order, conns)
}

pub proof fn lemma_count_from_le(conns: Seq<ShaderConnection>, p: Seq<u32>, x: u32)
    ensures
        count_from_into(conns, p, x) <= count_into(conns, x),
        count_from_into(conns, p, x) == count_into(conns, x) ==> forall|k: int|
            0 <= k < conns.len() && conns[k].to_node == x ==> p.contains(#[trigger] conns[k].from_node),
    decreases conns.len(),
{
    if conns.len() > 0 {
        lemma_count_from_le(conns.drop_last(), p, x);
        if count_from_into(conns, p, x) == count_into(conns, x) {
            assert forall|k: int| 0 <= k < conns.len() && conns[k].to_node == x implies p.contains(
                #[trigger] conns[k].from_node,
            ) by {
                if k < conns.len() - 1 {
                    assert(conns.drop_last()[k] == conns[k]);
                }
            }
        }
    }
}

pub proof fn lemma_count_push(conns: Seq<ShaderConnection>, p: Seq<u32>, v: u32, x: u32)
    requires
        !p.contains(v),
    ensures
        count_from_into(conns, p.push(v), x) == count_from_into(conns, p, x) + count_edge(conns, v, x),
    decreases conns.len(),
{
    if conns.len() > 0 {
        lemma_count_push(conns.drop_last(), p, v, x);
        let c = conns.last();
        if p.push(v).contains(c.from_node) && c.from_node != v {
            let j = choose|j: int| 0 <= j < p.push(v).len() && p.push(v)[j] == c.from_node;
            assert(p[j] == c.from_node);
        }
        if p.contains(c.from_node) {
            let j = choose|j: int| 0 <= j < p.len() && p[j] == c.from_node;
            assert(p.push(v)[j] == c.from_node);
        }
        assert(p.push(v)[p.len() as int] == v);
    }
}

pub proof fn lemma_count_edge_prefix(conns: Seq<ShaderConnection>, j: int, v: u32, x: u32)
    requires
        0 <= j <= conns.len(),
    ensures
        count_edge(conns.take(j), v, x) <= count_edge(conns, v, x),
    decreases conns.len() - j,
{
    if j < conns.len() {
        lemma_count_edge_prefix(conns, j + 1, v, x);
        assert(conns.take(j + 1).drop_last() =~= conns.take(j));
    } else {
        assert(conns.take(j) =~= conns);
    }
}

pub proof fn lemma_count_into_pos(conns: Seq<ShaderConnection>, k: int)
    requires
        0 <= k < conns.len(),
    ensures
        count_into(conns, conns[k].to_node) >= 1,
    decreases conns.len(),
{
    if k < conns.len() - 1 {
        lemma_count_into_pos(conns.drop_last(), k);
        assert(conns.drop_last()[k] == conns[k]);
    }
}

/// Invariant inside `relax`, after visiting the first `j` connections out
/// of `v` (already appended to `order`).
pub open spec fn relax_inv(
    ids: Seq<u32>,
    conns: Seq<ShaderConnection>,
    order: Seq<u32>,
    v: u32,
    j: int,
    stack: Seq<u32>,
    deg: Map<u32, int>,
) -> bool {
    let keys = key_set(ids, conns);
    let full = order.push(v);
    &&& deg.dom() == keys
    &&& forall|x: u32| #[trigger] keys.contains(x) ==> deg[x] == count_into(conns, x) - count_from_into(conns, order, x)
        - count_edge(conns.take(j), v, x)
    &&& full.no_duplicates()
    &&& stack.no_duplicates()
    &&& disjoint(full, stack)
    &&& zero_keys(full, keys, deg)
    &&& zero_keys(stack, keys, deg)
    &&& forall|x: u32| #[trigger] keys.contains(x) && deg[x] == 0 && !full.contains(x) ==> stack.contains(x)
    &&& sources_before(full, conns)
    &&& !order.contains(v)
}

/// Taking the last ready node keeps the invariant, at the start of `relax`.
pub proof fn lemma_pop_inv(
    ids: Seq<u32>,
    conns: Seq<ShaderConnection>,
    order: Seq<u32>,
    stack: Seq<u32>,
    deg: Map<u32, int>,
)
    requires
        kahn_inv(ids, conns, order, stack, deg),
        stack.len() > 0,
    ensures
        relax_inv(ids, conns, order, stack.last(), 0, stack.drop_last(), deg),
{
    let v = stack.last();
    let keys = key_set(ids, conns);
    let full = order.push(v);
    let rest = stack.drop_last();
    let n = order.len() as int;
    let top = stack.len() - 1;
    assert(conns.take(0) =~= Seq::<ShaderConnection>::empty());
    assert(stack[top] == v);
    assert(!order.contains(v)) by {
        if order.contains(v) {
            let i = choose|i: int| 0 <= i < order.len() && order[i] == v;
            assert(order[i] != stack[top]);
        }
    }
    assert forall|p: int, q: int| 0 <= p < full.len() && 0 <= q < full.len() && p != q implies full[p] != full[q] by {
        if p < n && q < n {
        } else if p < n {
            assert(order[p] != stack[top]);
        } else if q < n {
            assert(order[q] != stack[top]);
        }
    }
    assert forall|p: int, q: int| 0 <= p < full.len() && 0 <= q < rest.len() implies #[trigger] full[p] != #[trigger] rest[q] by {
        assert(rest[q] == stack[q]);
        if p < n {
            assert(order[p] != stack[q]);
        } else {
            assert(stack[top] != stack[q]);
        }
    }
    assert forall|i: int| 0 <= i < full.len() implies #[trigger] keys.contains(full[i]) && deg[full[i]] == 0 by {
        if i < n {
            assert(keys.contains(order[i]));
        } else {
            assert(keys.contains(stack[top]));
        }
    }
    assert forall|i: int| 0 <= i < rest.len() implies #[trigger] keys.contains(rest[i]) && deg[rest[i]] == 0 by {
        assert(rest[i] == stack[i]);
        assert(keys.contains(stack[i]));
    }
    assert forall|x: u32| #[trigger] keys.contains(x) && deg[x] == 0 && !full.contains(x) implies rest.contains(x) by {
        assert(!order.contains(x)) by {
            if order.contains(x) {
                let i = choose|i: int| 0 <= i < order.len() && order[i] == x;
                assert(full[i] == x);
            }
        }
        assert(stack.contains(x));
        let i = choose|i: int| 0 <= i < stack.len() && stack[i] == x;
        if i == top {
            assert(full[n] == x);
        } else {
            assert(rest[i] == x);
        }
    }
    // every connection into v comes from a node already in the order
    assert(keys.contains(stack[top]));
    lemma_count_from_le(conns, order, v);
    assert forall|i: int, k: int|
        0 <= i < full.len() && 0 <= k < conns.len() && #[trigger] conns[k].to_node == #[trigger] full[i] implies exists|j: int|
        0 <= j < i && full[j] == conns[k].from_node by {
        if i < n {
            assert(full[i] == order[i]);
            let j = choose|j: int| 0 <= j < i && order[j] == conns[k].from_node;
            assert(full[j] == order[j]);
        } else {
            assert(order.contains(conns[k].from_node));
            let j = choose|j: int| 0 <= j < order.len() && order[j] == conns[k].from_node;
            assert(full[j] == order[j]);
        }
    }
}

/// Visiting one more connection keeps the `relax` invariant; a decrement
/// never goes below zero.
pub proof fn lemma_relax_step(
    ids: Seq<u32>,
    conns: Seq<ShaderConnection>,
    order: Seq<u32>,
    v: u32,
    j: int,
    stack: Seq<u32>,
    deg: Map<u32, int>,
)
    requires
        relax_inv(ids, conns, order, v, j, stack, deg),
        0 <= j < conns.len(),
    ensures
        ({
            let c = conns[j];
            &&& (c.from_node == v && deg.contains_key(c.to_node)) ==> deg[c.to_node] >= 1
            &&& relax_inv(
                ids,
                conns,
                order,
                v,
                j + 1,
                if c.from_node == v && deg.contains_key(c.to_node) {
                    if deg[c.to_node] - 1 == 0 {
                        stack.push(c.to_node)
                    } else {
                        stack
                    }
                } else {
                    stack
                },
                if c.from_node == v && deg.contains_key(c.to_node) {
                    deg.insert(c.to_node, deg[c.to_node] - 1)
                } else {
                    deg
                },
            )
        }),
{
    let c = conns[j];
    let keys = key_set(ids, conns);
    let full = order.push(v);
    assert(conns.take(j + 1).drop_last() =~= conns.take(j));
    assert forall|x: u32| #[trigger] keys.contains(x) implies count_edge(conns.take(j + 1), v, x) == count_edge(
        conns.take(j),
        v,
        x,
    ) + (if c.to_node == x && c.from_node == v { 1nat } else { 0nat }) by {}
    if c.from_node == v && deg.contains_key(c.to_node) {
        let t = c.to_node;
        lemma_count_push(conns, order, v, t);
        lemma_count_from_le(conns, order.push(v), t);
        lemma_count_edge_prefix(conns, j + 1, v, t);
        assert(deg[t] >= 1);
        let nd = deg[t] - 1;
        let d2 = deg.insert(t, nd);
        let s2 = if nd == 0 { stack.push(t) } else { stack };
        assert(d2.dom() =~= keys);
        // t was not yet among the taken or ready nodes: their degrees are zero
        assert(!full.contains(t)) by {
            if full.contains(t) {
                let i = choose|i: int| 0 <= i < full.len() && full[i] == t;
                assert(keys.contains(full[i]));
            }
        }
        assert(!stack.contains(t)) by {
            if stack.contains(t) {
                let i = choose|i: int| 0 <= i < stack.len() && stack[i] == t;
                assert(keys.contains(stack[i]));
            }
        }
        assert forall|i: int| 0 <= i < full.len() implies #[trigger] keys.contains(full[i]) && d2[full[i]] == 0 by {
            assert(keys.contains(full[i]));
            assert(full[i] != t);
        }
        if nd == 0 {
            assert forall|p: int, q: int| 0 <= p < s2.len() && 0 <= q < s2.len() && p != q implies s2[p] != s2[q] by {
                if p < stack.len() && q < stack.len() {
                } else if p < stack.len() {
                    assert(stack[p] != t);
                } else if q < stack.len() {
                    assert(stack[q] != t);
                }
            }
            assert forall|p: int, q: int| 0 <= p < full.len() && 0 <= q < s2.len() implies #[trigger] full[p] != #[trigger] s2[q] by {
                if q < stack.len() {
                    assert(s2[q] == stack[q]);
                } else {
                    assert(full[p] != t);
                }
            }
            assert forall|i: int| 0 <= i < s2.len() implies #[trigger] keys.contains(s2[i]) && d2[s2[i]] == 0 by {
                if i < stack.len() {
                    assert(s2[i] == stack[i]);
                    assert(keys.contains(stack[i]));
                }
            }
            assert forall|x: u32| #[trigger] keys.contains(x) && d2[x] == 0 && !full.contains(x) implies s2.contains(x) by {
                if x == t {
                    assert(s2[stack.len() as int] == t);
                } else {
                    assert(stack.contains(x));
                    let i = choose|i: int| 0 <= i < stack.len() && stack[i] == x;
                    assert(s2[i] == x);
                }
            }
        } else {
            assert forall|i: int| 0 <= i < stack.len() implies #[trigger] keys.contains(stack[i]) && d2[stack[i]] == 0 by {
                assert(keys.contains(stack[i]));
                assert(stack[i] != t);
            }
        }
    }
}

/// After all connections out of `v` are visited, the main invariant holds
/// with `v` appended to the order.
pub proof fn lemma_relax_done(
    ids: Seq<u32>,
    conns: Seq<ShaderConnection>,
    order: Seq<u32>,
    v: u32,
    stack: Seq<u32>,
    deg: Map<u32, int>,
)
    requires
        relax_inv(ids, conns, order, v, conns.len() as int, stack, deg),
    ensures
        kahn_inv(ids, conns, order.push(v), stack, deg),
{
    let keys = key_set(ids, conns);
    assert(conns.take(conns.len() as int) =~= conns);
    assert forall|x: u32| #[trigger] keys.contains(x) implies deg[x] == count_into(conns, x) - count_from_into(
        conns,
        order.push(v),
        x,
    ) by {
        lemma_count_push(conns, order, v, x);
    }
}

/// The starting state satisfies the invariant when node identifiers are
/// distinct.
pub proof fn lemma_start_inv(nodes: Seq<ShaderNode>, conns: Seq<ShaderConnection>)
    requires
        node_ids(nodes).no_duplicates(),
    ensures
        kahn_inv(
            node_ids(nodes),
            conns,
            Seq::empty(),
            ready_prefix(node_ids(nodes), start_degrees(node_ids(nodes), conns), nodes.len()),
            start_degrees(node_ids(nodes), conns),
        ),
{
    let ids = node_ids(nodes);
    let d = start_degrees(ids, conns);
    let keys = key_set(ids, conns);
    let st = ready_prefix(ids, d, nodes.len());
    assert(d.dom() =~= keys);
    lemma_ready_prefix(ids, d, nodes.len());
    assert forall|x: u32| #[trigger] keys.contains(x) implies d[x] == count_into(conns, x) - count_from_into(
        conns,
        Seq::empty(),
        x,
    ) by {
        lemma_count_from_empty(conns, x);
    }
    assert forall|x: u32| #[trigger] keys.contains(x) && d[x] == 0 && !Seq::<u32>::empty().contains(x) implies st.contains(
        x,
    ) by {
        if !ids.contains(x) {
            let k = choose|k: int| 0 <= k < conns.len() && conns[k].to_node == x;
            lemma_count_into_pos(conns, k);
        } else {
            let i = choose|i: int| 0 <= i < ids.len() && ids[i] == x;
            assert(d[ids[i]] == 0);
        }
    }
    assert(sources_before(Seq::empty(), conns));
}

proof fn lemma_count_from_empty(conns: Seq<ShaderConnection>, x: u32)
    ensures
        count_from_into(conns, Seq::empty(), x) == 0,
    decreases conns.len(),
{
    if conns.len() > 0 {
        lemma_count_from_empty(conns.drop_last(), x);
    }
}

proof fn lemma_ready_prefix(ids: Seq<u32>, d: Map<u32, int>, k: nat)
    requires
        ids.no_duplicates(),
        k <= ids.len(),
    ensures
        ready_prefix(ids, d, k).no_duplicates(),
        forall|i: int| 0 <= i < ready_prefix(ids, d, k).len() ==> ids.subrange(0, k as int).contains(
            #[trigger] ready_prefix(ids, d, k)[i],
        ),
        forall|i: int| 0 <= i < ready_prefix(ids, d, k).len() ==> d[#[trigger] ready_prefix(ids, d, k)[i]] == 0,
        forall|i: int| 0 <= i < k && d[ids[i]] == 0 ==> ready_prefix(ids, d, k).contains(#[trigger] ids[i]),
    decreases k,
{
    if k > 0 {
        lemma_ready_prefix(ids, d, (k - 1) as nat);
        let prev = ready_prefix(ids, d, (k - 1) as nat);
        let cur = ready_prefix(ids, d, k);
        let x = ids[k - 1];
        assert forall|i: int| 0 <= i < prev.len() implies ids.subrange(0, k as int).contains(#[trigger] prev[i]) by {
            let j = choose|j: int| 0 <= j < k - 1 && #[trigger] ids.subrange(0, k - 1)[j] == prev[i];
            assert(ids.subrange(0, k as int)[j] == prev[i]);
        }
        if d[x] == 0 {
            assert(!prev.contains(x)) by {
                if prev.contains(x) {
                    let i = choose|i: int| 0 <= i < prev.len() && prev[i] == x;
                    let j = choose|j: int| 0 <= j < k - 1 && #[trigger] ids.subrange(0, k - 1)[j] == prev[i];
                    assert(ids[j] == ids[k - 1]);
                }
            }
            assert(ids.subrange(0, k as int)[k - 1] == x);
            assert forall|i: int| 0 <= i < k && d[ids[i]] == 0 implies cur.contains(#[trigger] ids[i]) by {
                if i < k - 1 {
                    let j = choose|j: int| 0 <= j < prev.len() && prev[j] == ids[i];
                    assert(cur[j] == ids[i]);
                } else {
                    assert(cur[prev.len() as int] == ids[i]);
                }
            }
        }
    } else {
        assert(ready_prefix(ids, d, k) =~= Seq::<u32>::empty());
    }
}

/// Every key appears at most once among the taken and ready nodes, so
/// their number is bounded by the number of keys.
pub proof fn lemma_state_bound(
    ids: Seq<u32>,
    conns: Seq<ShaderConnection>,
    order: Seq<u32>,
    stack: Seq<u32>,
    deg: Map<u32, int>,
)
    requires
        kahn_inv(ids, conns, order, stack, deg),
    ensures
        order.len() + stack.len() <= ids.len() + conns.len(),
{
    let all = order + stack;
    let src = ids + Seq::new(conns.len(), |k: int| conns[k].to_node);
    let n = order.len() as int;
    assert forall|p: int, q: int| 0 <= p < all.len() && 0 <= q < all.len() && p != q implies all[p] != all[q] by {
        if p < n && q < n {
        } else if p < n {
            assert(order[p] != stack[q - n]);
        } else if q < n {
            assert(order[q] != stack[p - n]);
        } else {
        }
    }
    assert(all.to_set().subset_of(src.to_set())) by {
        assert forall|x: u32| all.to_set().contains(x) implies src.to_set().contains(x) by {
            let i = choose|i: int| 0 <= i < all.len() && all[i] == x;
            if i < n {
                assert(key_set(ids, conns).contains(order[i]));
            } else {
                assert(key_set(ids, conns).contains(stack[i - n]));
            }
            if ids.contains(x) {
                let j = choose|j: int| 0 <= j < ids.len() && ids[j] == x;
                assert(src[j] == x);
            } else {
                let k = choose|k: int| 0 <= k < conns.len() && conns[k].to_node == x;
                assert(src[ids.len() + k] == x);
            }
        }
    }
    all.unique_seq_to_set();
    src.lemma_cardinality_of_set();
    vstd::set_lib::lemma_len_subset(all.to_set(), src.to_set());
}

/// When no node is ready, every key not taken still waits on a
/// connection whose source was not taken.
pub proof fn lemma_stuck(
    ids: Seq<u32>,
    conns: Seq<ShaderConnection>,
    order: Seq<u32>,
    deg: Map<u32, int>,
    x: u32,
)
    requires
        kahn_inv(ids, conns, order, Seq::empty(), deg),
        key_set(ids, conns).contains(x),
        !order.contains(x),
    ensures
        exists|k: int| 0 <= k < conns.len() && conns[k].to_node == x && !order.contains(#[trigger] conns[k].from_node),
{
    lemma_count_from_le(conns, order, x);
    if deg[x] == 0 {
        assert(Seq::<u32>::empty().contains(x));
    }
    lemma_count_from_lt(conns, order, x);
}

proof fn lemma_count_from_lt(conns: Seq<ShaderConnection>, p: Seq<u32>, x: u32)
    requires
        count_from_into(conns, p, x) < count_into(conns, x),
    ensures
        exists|k: int| 0 <= k < conns.len() && conns[k].to_node == x && !p.contains(#[trigger] conns[k].from_node),
    decreases conns.len(),
{
    let c = conns.last();
    if c.to_node == x && !p.contains(c.from_node) {
        assert(conns[conns.len() - 1] == c);
    } else {
        lemma_count_from_lt(conns.drop_last(), p, x);
        let k = choose|k: int|
            0 <= k < conns.drop_last().len() && conns.drop_last()[k].to_node == x && !p.contains(
                #[trigger] conns.drop_last()[k].from_node,
            );
        assert(conns[k] == conns.drop_last()[k]);
    }
}

/// Running to the end from an invariant state keeps the invariant and ends
/// with no ready node.
pub proof fn lemma_run_inv(
    ids: Seq<u32>,
    conns: Seq<ShaderConnection>,
    order: Seq<u32>,
    stack: Seq<u32>,
    deg: Map<u32, int>,
    fuel: nat,
) -> (r: (Seq<u32>, Map<u32, int>))
    requires
        kahn_inv(ids, conns, order, stack, deg),
        order.len() + fuel > ids.len() + conns.len(),
    ensures
        r.0 == kahn_run(conns, order, stack, deg, fuel),
        kahn_inv(ids, conns, r.0, Seq::empty(), r.1),
    decreases fuel,
{
    lemma_state_bound(ids, conns, order, stack, deg);
    if stack.len() == 0 {
        (order, deg)
    } else {
        let v = stack.last();
        lemma_pop_inv(ids, conns, order, stack, deg);
        let (d, s) = lemma_relax_all(ids, conns, order, v, conns.len(), stack.drop_last(), deg);
        lemma_relax_done(ids, conns, order, v, s, d);
        lemma_run_inv(ids, conns, order.push(v), s, d, (fuel - 1) as nat)
    }
}

/// `relax` over the first `k` connections keeps the `relax` invariant.
pub proof fn lemma_relax_all(
    ids: Seq<u32>,
    conns: Seq<ShaderConnection>,
    order: Seq<u32>,
    v: u32,
    k: nat,
    stack: Seq<u32>,
    deg: Map<u32, int>,
) -> (r: (Map<u32, int>, Seq<u32>))
    requires
        relax_inv(ids, conns, order, v, 0, stack, deg),
        k <= conns.len(),
    ensures
        r == relax(conns, k, v, deg, stack),
        relax_inv(ids, conns, order, v, k as int, r.1, r.0),
    decreases k,
{
    if k == 0 {
        (deg, stack)
    } else {
        let (d, s) = lemma_relax_all(ids, conns, order, v, (k - 1) as nat, stack, deg);
        lemma_relax_step(ids, conns, order, v, k - 1, s, d);
        relax(conns, k, v, deg, stack)
    }
}

/// The compiler's order, when it succeeds, has no repeated entry, and every
/// connection into a node of the order comes from a node earlier in it.
pub proof fn lemma_topo_sources_first(nodes: Seq<ShaderNode>, conns: Seq<ShaderConnection>)
    requires
        node_ids(nodes).no_duplicates(),
        topo_result(nodes, conns) is Some,
    ensures
        topo_result(nodes, conns)->0.no_duplicates(),
        sources_before(topo_result(nodes, conns)->0, conns),
{
    let ids = node_ids(nodes);
    let d = start_degrees(ids, conns);
    lemma_start_inv(nodes, conns);
    let (o, dd) = lemma_run_inv(ids, conns, Seq::empty(), ready_prefix(ids, d, ids.len()), d, kahn_budget(nodes, conns));
}

/// When every connection joins two nodes of the graph, a successful order
/// lists each node exactly once, and a failed one means that no order of
/// the nodes puts every connection's source before its target.
pub proof fn lemma_topo_complete(nodes: Seq<ShaderNode>, conns: Seq<ShaderConnection>, other: Seq<u32>)
    requires
        node_ids(nodes).no_duplicates(),
        forall|k: int|
            0 <= k < conns.len() ==> node_ids(nodes).contains(#[trigger] conns[k].from_node) && node_ids(
                nodes,
            ).contains(conns[k].to_node),
    ensures
        topo_result(nodes, conns) is Some ==> topo_result(nodes, conns)->0.to_set() == node_ids(nodes).to_set(),
        topo_result(nodes, conns) is None ==> !(other.to_set() == node_ids(nodes).to_set() && sources_before(
            other,
            conns,
        )),
{
    let ids = node_ids(nodes);
    let d = start_degrees(ids, conns);
    let keys = key_set(ids, conns);
    lemma_start_inv(nodes, conns);
    let (o, dd) = lemma_run_inv(ids, conns, Seq::empty(), ready_prefix(ids, d, ids.len()), d, kahn_budget(nodes, conns));
    assert(keys =~= ids.to_set()) by {
        assert forall|x: u32| keys.contains(x) implies ids.to_set().contains(x) by {
            if !ids.contains(x) {
                let k = choose|k: int| 0 <= k < conns.len() && conns[k].to_node == x;
                assert(ids.contains(conns[k].from_node));
            }
        }
    }
    assert(o.to_set().subset_of(ids.to_set())) by {
        assert forall|x: u32| o.to_set().contains(x) implies ids.to_set().contains(x) by {
            let i = choose|i: int| 0 <= i < o.len() && o[i] == x;
            assert(keys.contains(o[i]));
        }
    }
    o.unique_seq_to_set();
    ids.unique_seq_to_set();
    if o.len() == ids.len() {
        vstd::set_lib::lemma_subset_equality(o.to_set(), ids.to_set());
    } else {
        // some node was never taken
        if forall|x: u32| ids.to_set().contains(x) ==> o.to_set().contains(x) {
            assert(o.to_set() =~= ids.to_set());
            assert(false);
        }
        let missing = choose|x: u32| ids.to_set().contains(x) && !o.to_set().contains(x);
        if other.to_set() == ids.to_set() && sources_before(other, conns) {
            assert(other.to_set().contains(missing));
            let jm = choose|j: int| 0 <= j < other.len() && other[j] == missing;
            assert(ids.contains(other[jm]) && !o.contains(other[jm]));
            let i = lemma_first_blocked(other, o, ids, other.len() as int);
            let x = other[i];
            assert(keys.contains(x));
            lemma_stuck(ids, conns, o, dd, x);
            let k = choose|k: int| 0 <= k < conns.len() && conns[k].to_node == x && !o.contains(
                #[trigger] conns[k].from_node,
            );
            let j = choose|j: int| 0 <= j < i && other[j] == conns[k].from_node;
            assert(ids.contains(conns[k].from_node));
        }
    }
}

/// The first position of `s` (before `n`) holding a node not in `o`.
proof fn lemma_first_blocked(s: Seq<u32>, o: Seq<u32>, ids: Seq<u32>, n: int) -> (i: int)
    requires
        0 <= n <= s.len(),
        exists|j: int| 0 <= j < n && ids.contains(s[j]) && !o.contains(s[j]),
    ensures
        0 <= i < n,
        ids.contains(s[i]) && !o.contains(s[i]),
        forall|j: int| 0 <= j < i ==> !(ids.contains(#[trigger] s[j]) && !o.contains(s[j])),
    decreases n,
{
    if exists|j: int| 0 <= j < n - 1 && ids.contains(s[j]) && !o.contains(s[j]) {
        lemma_first_blocked(s, o, ids, n - 1)
    } else {
        n - 1
    }
}

} // verus!
