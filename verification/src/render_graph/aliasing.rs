//! Texture aliasing for render-graph attachments: attachments of the same
//! format and size whose lifetimes do not overlap share one texture.
//! Attachments are placed in order of first use; each takes the first pool
//! texture of its kind that is free before its first use, or a new one.
use vstd::prelude::*;
use crate::assoc::assoc_map;
use crate::assoc::keys_distinct;
use crate::assoc::lemma_assoc_absent;
use crate::assoc::lemma_assoc_index;
use crate::render_graph::AttachmentId;

verus! {

/// An attachment to place: its identifier, its format class (attachments
/// alias only within a class) and its size.
#[derive(Debug, Clone, Copy, PartialEq, Eq, Structural)]
pub struct AttachmentDesc {
    pub id: AttachmentId,
    pub format_class: u32,
    pub width: u32,
    pub height: u32,
}

/// Where an attachment's texture comes from.
#[derive(Debug, Clone, Copy, PartialEq, Eq, Structural)]
pub enum Placement {
    /// Not used by any pass: a texture of its own.
    Standalone,
    /// Pool texture `slot`; `reused` when an earlier attachment had it.
    Pooled { slot: usize, reused: bool },
}

/// The placement of one attachment.
#[derive(Debug, Clone, Copy, PartialEq, Eq, Structural)]
pub struct AliasAssignment {
    pub attachment: AttachmentId,
    pub placement: Placement,
}

/// A pool texture: the kind it was made for and the last position at
/// which one of its attachments is used.
#[derive(Debug, Clone, Copy, PartialEq, Eq, Structural)]
pub struct PoolTexture {
    pub format_class: u32,
    pub width: u32,
    pub height: u32,
    pub last_used: usize,
}

/// Sort key of an attachment: its first use, or `usize::MAX` when unused.
pub open spec fn first_use(lt: Map<AttachmentId, (usize, usize)>, d: AttachmentDesc) -> int {
    if lt.dom().contains(d.id) {
        lt[d.id].0 as int
    } else {
        usize::MAX as int
    }
}

/// Insert `d` after the last entry whose key is at most its key.
pub open spec fn insert_sorted(lt: Map<AttachmentId, (usize, usize)>, s: Seq<AttachmentDesc>, d: AttachmentDesc) -> Seq<
    AttachmentDesc,
>
    decreases s.len(),
{
    if s.len() == 0 || first_use(lt, s.last()) <= first_use(lt, d) {
        s.push(d)
    } else {
        insert_sorted(lt, s.drop_last(), d).push(s.last())
    }
}

/// The first `k` attachments, stably sorted by first use.
pub open spec fn sorted_by_first_use(lt: Map<AttachmentId, (usize, usize)>, s: Seq<AttachmentDesc>, k: nat) -> Seq<
    AttachmentDesc,
>
    decreases k,
{
    if k == 0 {
        Seq::empty()
    } else {
        insert_sorted(lt, sorted_by_first_use(lt, s, (k - 1) as nat), s[k - 1])
    }
}

/// A pool texture of the attachment's kind, free before `first`.
pub open spec fn fits(p: PoolTexture, d: AttachmentDesc, first: usize) -> bool {
    p.format_class == d.format_class && p.width == d.width && p.height == d.height && p.last_used < first
}

/// The first pool texture that fits.
pub open spec fn first_fitting(pools: Seq<PoolTexture>, d: AttachmentDesc, first: usize) -> Option<int>
    decreases pools.len(),
{
    if pools.len() == 0 {
        None
    } else {
        match first_fitting(pools.drop_last(), d, first) {
            Some(i) => Some(i),
            None => if fits(pools.last(), d, first) {
                Some(pools.len() - 1)
            } else {
                None
            },
        }
    }
}

/// Placements and pool after placing the first `k` sorted attachments.
pub open spec fn place_all(lt: Map<AttachmentId, (usize, usize)>, s: Seq<AttachmentDesc>, k: nat) -> (
    Seq<AliasAssignment>,
    Seq<PoolTexture>,
)
    decreases k,
{
    if k == 0 {
        (Seq::empty(), Seq::empty())
    } else {
        let (plan, pools) = place_all(lt, s, (k - 1) as nat);
        let d = s[k - 1];
        if !lt.dom().contains(d.id) {
            (plan.push(AliasAssignment { attachment: d.id, placement: Placement::Standalone }), pools)
        } else {
            let (f, l) = lt[d.id];
            match first_fitting(pools, d, f) {
                Some(j) => (
                    plan.push(AliasAssignment { attachment: d.id, placement: Placement::Pooled { slot: j as usize, reused: true } }),
                    pools.update(j, PoolTexture { format_class: d.format_class, width: d.width, height: d.height, last_used: l }),
                ),
                None => (
                    plan.push(AliasAssignment { attachment: d.id, placement: Placement::Pooled { slot: pools.len() as usize, reused: false } }),
                    pools.push(PoolTexture { format_class: d.format_class, width: d.width, height: d.height, last_used: l }),
                ),
            }
        }
    }
}

/// The aliasing plan of a list of attachments.
pub open spec fn alias_plan(lt: Map<AttachmentId, (usize, usize)>, descs: Seq<AttachmentDesc>) -> Seq<AliasAssignment> {
    let s = sorted_by_first_use(lt, descs, descs.len());
    place_all(lt, s, s.len()).0
}

fn lookup(lt: &Vec<(AttachmentId, (usize, usize))>, id: AttachmentId) -> (r: Option<(usize, usize)>)
    requires
        keys_distinct(lt@),
    ensures
        match r {
            Some(v) => assoc_map(lt@).dom().contains(id) && assoc_map(lt@)[id] == v,
            None => !assoc_map(lt@).dom().contains(id),
        },
{
    let n = lt.len();
    let mut i: usize = 0;
    while i < n
        invariant
            n == lt@.len(),
            i <= n,
            keys_distinct(lt@),
            forall|k: int| 0 <= k < i ==> lt@[k].0 != id,
        decreases n - i,
    {
        if lt[i].0 == id {
            proof {
                lemma_assoc_index(lt@, i as int);
            }
            return Some(lt[i].1);
        }
        i = i + 1;
    }
    proof {
        lemma_assoc_absent(lt@, id);
    }
    None
}

fn first_use_of(lt: &Vec<(AttachmentId, (usize, usize))>, d: AttachmentDesc) -> (k: usize)
    requires
        keys_distinct(lt@),
    ensures
        k as int == first_use(assoc_map(lt@), d),
{
    match lookup(lt, d.id) {
        Some(v) => v.0,
        None => usize::MAX,
    }
}

proof fn lemma_insert_at(lt: Map<AttachmentId, (usize, usize)>, s: Seq<AttachmentDesc>, d: AttachmentDesc, p: int)
    requires
        0 <= p <= s.len(),
        forall|q: int| p <= q < s.len() ==> first_use(lt, #[trigger] s[q]) > first_use(lt, d),
        p == 0 || first_use(lt, s[p - 1]) <= first_use(lt, d),
    ensures
        insert_sorted(lt, s, d) == s.insert(p, d),
    decreases s.len(),
{
    if s.len() == p {
        assert(s.insert(p, d) =~= s.push(d));
    } else {
        assert(first_use(lt, s[s.len() - 1]) > first_use(lt, d));
        lemma_insert_at(lt, s.drop_last(), d, p);
        assert(s.drop_last().insert(p, d).push(s.last()) =~= s.insert(p, d));
    }
}

fn place_sorted(lt: &Vec<(AttachmentId, (usize, usize))>, descs: &[AttachmentDesc]) -> (s: Vec<AttachmentDesc>)
    requires
        keys_distinct(lt@),
    ensures
        s@ == sorted_by_first_use(assoc_map(lt@), descs@, descs@.len()),
{
    let ghost m = assoc_map(lt@);
    let mut out: Vec<AttachmentDesc> = Vec::new();
    let n = descs.len();
    let mut i: usize = 0;
    while i < n
        invariant
            n == descs@.len(),
            i <= n,
            keys_distinct(lt@),
            m == assoc_map(lt@),
            out@ == sorted_by_first_use(m, descs@, i as nat),
        decreases n - i,
    {
        let d = descs[i];
        let kd = first_use_of(lt, d);
        let mut p = out.len();
        while p > 0 && first_use_of(lt, out[p - 1]) > kd
            invariant
                p <= out@.len(),
                keys_distinct(lt@),
                m == assoc_map(lt@),
                kd as int == first_use(m, d),
                forall|q: int| p <= q < out@.len() ==> first_use(m, #[trigger] out@[q]) > first_use(m, d),
            decreases p,
        {
            p = p - 1;
        }
        proof {
            if p > 0 {
                assert(first_use(m, out@[p - 1]) <= first_use(m, d));
            }
            lemma_insert_at(m, out@, d, p as int);
        }
        out.insert(p, d);
        i = i + 1;
    }
    out
}

fn find_fitting(pools: &Vec<PoolTexture>, d: AttachmentDesc, first: usize) -> (r: Option<usize>)
    ensures
        match r {
            Some(j) => j < pools@.len() && first_fitting(pools@, d, first) == Some(j as int),
            None => first_fitting(pools@, d, first) == None::<int>,
        },
{
    let n = pools.len();
    let mut j: usize = 0;
    while j < n
        invariant
            n == pools@.len(),
            j <= n,
            first_fitting(pools@.take(j as int), d, first) == None::<int>,
        decreases n - j,
    {
        let p = pools[j];
        proof {
            assert(pools@.take(j + 1).drop_last() =~= pools@.take(j as int));
        }
        if p.format_class == d.format_class && p.width == d.width && p.height == d.height && p.last_used < first {
            proof {
                lemma_first_fitting_prefix(pools@, j as int, d, first);
            }
            return Some(j);
        }
        j = j + 1;
    }
    proof {
        assert(pools@.take(n as int) =~= pools@);
    }
    None
}

proof fn lemma_first_fitting_prefix(pools: Seq<PoolTexture>, j: int, d: AttachmentDesc, first: usize)
    requires
        0 <= j < pools.len(),
        first_fitting(pools.take(j), d, first) == None::<int>,
        fits(pools[j], d, first),
    ensures
        first_fitting(pools, d, first) == Some(j),
    decreases pools.len(),
{
    if pools.len() - 1 > j {
        assert(pools.drop_last().take(j) =~= pools.take(j));
        lemma_first_fitting_prefix(pools.drop_last(), j, d, first);
    } else {
        assert(pools.drop_last() =~= pools.take(j));
    }
}

/// Plan the textures of the attachments: sort them stably by first use
/// (unused ones last), then give each used attachment the first pool
/// texture of its format class and size that is free before its first use
/// (which it then holds until its last use), or a new pool texture; unused
/// attachments get a texture of their own.
pub fn plan_aliasing(descs: &[AttachmentDesc], lifetimes: &Vec<(AttachmentId, (usize, usize))>) -> (plan: Vec<
    AliasAssignment,
>)
    requires
        keys_distinct(lifetimes@),
    ensures
        plan@ == alias_plan(assoc_map(lifetimes@), descs@),
{
    let ghost m = assoc_map(lifetimes@);
    let sorted = place_sorted(lifetimes, descs);
    let mut plan: Vec<AliasAssignment> = Vec::new();
    let mut pools: Vec<PoolTexture> = Vec::new();
    let n = sorted.len();
    let mut k: usize = 0;
    while k < n
        invariant
            n == sorted@.len(),
            k <= n,
            keys_distinct(lifetimes@),
            m == assoc_map(lifetimes@),
            (plan@, pools@) == place_all(m, sorted@, k as nat),
        decreases n - k,
    {
        let d = sorted[k];
        match lookup(lifetimes, d.id) {
            None => {
                plan.push(AliasAssignment { attachment: d.id, placement: Placement::Standalone });
            },
            Some((f, l)) => match find_fitting(&pools, d, f) {
                Some(j) => {
                    plan.push(AliasAssignment { attachment: d.id, placement: Placement::Pooled { slot: j, reused: true } });
                    pools.set(j, PoolTexture { format_class: d.format_class, width: d.width, height: d.height, last_used: l });
                },
                None => {
                    let slot = pools.len();
                    plan.push(AliasAssignment { attachment: d.id, placement: Placement::Pooled { slot, reused: false } });
                    pools.push(PoolTexture { format_class: d.format_class, width: d.width, height: d.height, last_used: l });
                },
            },
        }
        k = k + 1;
    }
    plan
}

/// Placement facts after `k` attachments: every pooled placement points at
/// an existing pool texture of the attachment's kind whose last use is no
/// earlier than the attachment's last use.
pub open spec fn place_inv(lt: Map<AttachmentId, (usize, usize)>, s: Seq<AttachmentDesc>, k: nat) -> bool {
    let (plan, pools) = place_all(lt, s, k);
    &&& plan.len() == k
    &&& pools.len() <= k
    &&& forall|i: int| #![trigger plan[i]] 0 <= i < k ==> plan[i].attachment == s[i].id
    &&& forall|i: int| #![trigger plan[i]]
        0 <= i < k ==> (plan[i].placement is Standalone <==> !lt.dom().contains(s[i].id))
    &&& forall|i: int| #![trigger plan[i]]
        0 <= i < k && plan[i].placement is Pooled ==> {
            &&& plan[i].placement->slot < pools.len()
            &&& pools[plan[i].placement->slot as int].format_class == s[i].format_class
            &&& pools[plan[i].placement->slot as int].width == s[i].width
            &&& pools[plan[i].placement->slot as int].height == s[i].height
            &&& lt[s[i].id].1 <= pools[plan[i].placement->slot as int].last_used
        }
    &&& forall|i: int, j: int|
        #![trigger plan[i], plan[j]]
        0 <= i < j < k && plan[i].placement is Pooled && plan[j].placement is Pooled && plan[i].placement->slot == plan[j].placement->slot ==> lt[s[i].id].1 < lt[s[j].id].0
}

proof fn lemma_first_fitting(pools: Seq<PoolTexture>, d: AttachmentDesc, first: usize)
    ensures
        match first_fitting(pools, d, first) {
            Some(j) => 0 <= j < pools.len() && fits(pools[j], d, first),
            None => true,
        },
    decreases pools.len(),
{
    if pools.len() > 0 {
        lemma_first_fitting(pools.drop_last(), d, first);
    }
}

proof fn lemma_place_inv(lt: Map<AttachmentId, (usize, usize)>, s: Seq<AttachmentDesc>, k: nat)
    requires
        k <= s.len(),
        s.len() <= usize::MAX,
        forall|a: AttachmentId| #[trigger] lt.dom().contains(a) ==> lt[a].0 <= lt[a].1,
    ensures
        place_inv(lt, s, k),
    decreases k,
{
    if k > 0 {
        lemma_place_inv(lt, s, (k - 1) as nat);
        let (plan0, pools0) = place_all(lt, s, (k - 1) as nat);
        let (plan, pools) = place_all(lt, s, k);
        let d = s[k - 1];
        if lt.dom().contains(d.id) {
            let (f, l) = lt[d.id];
            lemma_first_fitting(pools0, d, f);
            match first_fitting(pools0, d, f) {
                Some(jj) => {
                    assert forall|i: int, j: int|
                        #![trigger plan[i], plan[j]]
                        0 <= i < j < k && plan[i].placement is Pooled && plan[j].placement is Pooled && plan[i].placement->slot == plan[j].placement->slot implies lt[s[i].id].1 < lt[s[j].id].0 by {
                        assert(plan[i] == plan0[i]);
                        if j < k - 1 {
                            assert(plan[j] == plan0[j]);
                        } else {
                            let sl = plan0[i].placement->slot;
                            assert(sl == jj);
                            assert(lt[s[i].id].1 <= pools0[sl as int].last_used);
                            assert(pools0[jj].last_used < f);
                            assert(s[j] == d);
                        }
                    }
                    assert forall|i: int| #![trigger plan[i]]
                        0 <= i < k && plan[i].placement is Pooled implies {
                            &&& plan[i].placement->slot < pools.len()
                            &&& pools[plan[i].placement->slot as int].format_class == s[i].format_class
                            &&& pools[plan[i].placement->slot as int].width == s[i].width
                            &&& pools[plan[i].placement->slot as int].height == s[i].height
                            &&& lt[s[i].id].1 <= pools[plan[i].placement->slot as int].last_used
                        } by {
                        if i < k - 1 {
                            assert(plan[i] == plan0[i]);
                            let sl = plan0[i].placement->slot;
                            assert(sl < pools0.len());
                            assert(lt[s[i].id].1 <= pools0[sl as int].last_used);
                            if sl == jj {
                                assert(pools0[jj].last_used < f);
                                assert(f <= l);
                            } else {
                                assert(pools[sl as int] == pools0[sl as int]);
                            }
                        } else {
                            assert(s[i] == d);
                            assert(f <= l);
                        }
                    }
                },
                None => {
                    assert forall|i: int, j: int|
                        #![trigger plan[i], plan[j]]
                        0 <= i < j < k && plan[i].placement is Pooled && plan[j].placement is Pooled && plan[i].placement->slot == plan[j].placement->slot implies lt[s[i].id].1 < lt[s[j].id].0 by {
                        assert(plan[i] == plan0[i]);
                        if j < k - 1 {
                            assert(plan[j] == plan0[j]);
                        } else {
                            assert(plan0[i].placement->slot < pools0.len());
                        }
                    }
                    assert forall|i: int| #![trigger plan[i]]
                        0 <= i < k && plan[i].placement is Pooled implies {
                            &&& plan[i].placement->slot < pools.len()
                            &&& pools[plan[i].placement->slot as int].format_class == s[i].format_class
                            &&& pools[plan[i].placement->slot as int].width == s[i].width
                            &&& pools[plan[i].placement->slot as int].height == s[i].height
                            &&& lt[s[i].id].1 <= pools[plan[i].placement->slot as int].last_used
                        } by {
                        if i < k - 1 {
                            assert(plan[i] == plan0[i]);
                            let sl = plan0[i].placement->slot;
                            assert(sl < pools0.len());
                            assert(pools[sl as int] == pools0[sl as int]);
                        } else {
                            assert(s[i] == d);
                            assert(f <= l);
                        }
                    }
                },
            }
        } else {
            assert forall|i: int, j: int|
                #![trigger plan[i], plan[j]]
                0 <= i < j < k && plan[i].placement is Pooled && plan[j].placement is Pooled && plan[i].placement->slot == plan[j].placement->slot implies lt[s[i].id].1 < lt[s[j].id].0 by {
                assert(plan[i] == plan0[i]);
                assert(plan[j] == plan0[j]);
            }
            assert forall|i: int| #![trigger plan[i]]
                0 <= i < k && plan[i].placement is Pooled implies {
                    &&& plan[i].placement->slot < pools.len()
                    &&& pools[plan[i].placement->slot as int].format_class == s[i].format_class
                    &&& pools[plan[i].placement->slot as int].width == s[i].width
                    &&& pools[plan[i].placement->slot as int].height == s[i].height
                    &&& lt[s[i].id].1 <= pools[plan[i].placement->slot as int].last_used
                } by {
                assert(plan[i] == plan0[i]);
            }
        }
    }
}

proof fn lemma_insert_sorted_len(lt: Map<AttachmentId, (usize, usize)>, s: Seq<AttachmentDesc>, d: AttachmentDesc)
    ensures
        insert_sorted(lt, s, d).len() == s.len() + 1,
    decreases s.len(),
{
    if s.len() > 0 && first_use(lt, s.last()) > first_use(lt, d) {
        lemma_insert_sorted_len(lt, s.drop_last(), d);
    }
}

proof fn lemma_sorted_len(lt: Map<AttachmentId, (usize, usize)>, s: Seq<AttachmentDesc>, k: nat)
    requires
        k <= s.len(),
    ensures
        sorted_by_first_use(lt, s, k).len() == k,
    decreases k,
{
    if k > 0 {
        lemma_sorted_len(lt, s, (k - 1) as nat);
        lemma_insert_sorted_len(lt, sorted_by_first_use(lt, s, (k - 1) as nat), s[k - 1]);
    }
}

/// Two attachments that share a pool texture have the same format class
/// and size, and the one placed first is last used before the other is
/// first used: aliased textures are never in use at the same time.
pub proof fn lemma_aliased_lifetimes_disjoint(
    lt: Map<AttachmentId, (usize, usize)>,
    descs: Seq<AttachmentDesc>,
    i: int,
    j: int,
)
    requires
        forall|a: AttachmentId| #[trigger] lt.dom().contains(a) ==> lt[a].0 <= lt[a].1,
        descs.len() <= usize::MAX,
        0 <= i < j < alias_plan(lt, descs).len(),
        alias_plan(lt, descs)[i].placement is Pooled,
        alias_plan(lt, descs)[j].placement is Pooled,
        alias_plan(lt, descs)[i].placement->slot == alias_plan(lt, descs)[j].placement->slot,
    ensures
        lt[alias_plan(lt, descs)[i].attachment].1 < lt[alias_plan(lt, descs)[j].attachment].0,
        ({
            let s = sorted_by_first_use(lt, descs, descs.len());
            &&& s[i].id == alias_plan(lt, descs)[i].attachment
            &&& s[j].id == alias_plan(lt, descs)[j].attachment
            &&& s[i].format_class == s[j].format_class
            &&& s[i].width == s[j].width
            &&& s[i].height == s[j].height
        }),
{
    let s = sorted_by_first_use(lt, descs, descs.len());
    lemma_sorted_len(lt, descs, descs.len());
    lemma_place_inv(lt, s, s.len());
    let plan = alias_plan(lt, descs);
    assert(plan[i] == place_all(lt, s, s.len()).0[i]);
    assert(plan[j] == place_all(lt, s, s.len()).0[j]);
}

} // verus!
