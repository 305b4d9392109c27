//! Grouping of draw calls into instanced batches: objects that share a
//! (mesh, material, texture) key are drawn together.
use vstd::prelude::*;

verus! {

/// First position below `n` of `k` in `ks`, or -1.
pub open spec fn key_pos(ks: Seq<(u64, u64, u64)>, k: (u64, u64, u64), n: int) -> int
    decreases n,
{
    if n <= 0 {
        -1
    } else if key_pos(ks, k, n - 1) >= 0 {
        key_pos(ks, k, n - 1)
    } else if ks[n - 1] == k {
        n - 1
    } else {
        -1
    }
}

/// Batches of the first `n` objects: the keys in order of first
/// appearance, and for each key the indices of its objects in increasing
/// order.
pub open spec fn batches(keys: Seq<(u64, u64, u64)>, n: nat) -> (Seq<(u64, u64, u64)>, Seq<Seq<usize>>)
    decreases n,
{
    if n == 0 {
        (Seq::empty(), Seq::empty())
    } else {
        let (ks, ms) = batches(keys, (n - 1) as nat);
        let k = keys[n - 1];
        let p = key_pos(ks, k, ks.len() as int);
        if p >= 0 {
            (ks, ms.update(p, ms[p].push((n - 1) as usize)))
        } else {
            (ks.push(k), ms.push(seq![(n - 1) as usize]))
        }
    }
}

proof fn lemma_batches_len(keys: Seq<(u64, u64, u64)>, n: nat)
    ensures
        batches(keys, n).0.len() == batches(keys, n).1.len(),
    decreases n,
{
    if n > 0 {
        lemma_batches_len(keys, (n - 1) as nat);
        let ks = batches(keys, (n - 1) as nat).0;
        lemma_key_pos(ks, keys[n - 1], ks.len() as int);
    }
}

proof fn lemma_key_pos(ks: Seq<(u64, u64, u64)>, k: (u64, u64, u64), n: int)
    requires
        0 <= n <= ks.len(),
    ensures
        key_pos(ks, k, n) >= 0 ==> key_pos(ks, k, n) < n && ks[key_pos(ks, k, n)] == k,
        key_pos(ks, k, n) < 0 ==> forall|i: int| 0 <= i < n ==> ks[i] != k,
        key_pos(ks, k, n) >= -1,
    decreases n,
{
    if n > 0 {
        lemma_key_pos(ks, k, n - 1);
    }
}

fn find_key(ks: &Vec<(u64, u64, u64)>, k: (u64, u64, u64)) -> (r: Option<usize>)
    ensures
        match r {
            Some(p) => p as int == key_pos(ks@, k, ks@.len() as int),
            None => key_pos(ks@, k, ks@.len() as int) < 0,
        },
{
    let mut i: usize = 0;
    while i < ks.len()
        invariant
            i <= ks@.len(),
            key_pos(ks@, k, i as int) < 0,
        decreases ks@.len() - i,
    {
        let c = ks[i];
        if c.0 == k.0 && c.1 == k.1 && c.2 == k.2 {
            assert(key_pos(ks@, k, i as int + 1) == i);
            proof {
                lemma_key_pos_from(ks@, k, i as int + 1, ks@.len() as int);
            }
            return Some(i);
        }
        i = i + 1;
    }
    None
}

proof fn lemma_key_pos_from(ks: Seq<(u64, u64, u64)>, k: (u64, u64, u64), m: int, n: int)
    requires
        0 <= m <= n,
        key_pos(ks, k, m) >= 0,
    ensures
        key_pos(ks, k, n) == key_pos(ks, k, m),
    decreases n - m,
{
    if n > m {
        lemma_key_pos_from(ks, k, m, n - 1);
    }
}

fn copy_push(v: &Vec<usize>, x: usize) -> (c: Vec<usize>)
    ensures
        c@ == v@.push(x),
{
    let mut c: Vec<usize> = Vec::new();
    let mut i: usize = 0;
    while i < v.len()
        invariant
            i <= v@.len(),
            c@ == v@.subrange(0, i as int),
        decreases v@.len() - i,
    {
        c.push(v[i]);
        i = i + 1;
    }
    c.push(x);
    c
}

/// Group objects by their (mesh, material, texture) key: the distinct
/// keys in order of first appearance, and for each key the indices of the
/// objects that carry it, in increasing order.
pub fn batch_by_key(keys: &[(u64, u64, u64)]) -> (r: (Vec<(u64, u64, u64)>, Vec<Vec<usize>>))
    ensures
        r.0@ == batches(keys@, keys@.len()).0,
        r.1@.map_values(|m: Vec<usize>| m@) == batches(keys@, keys@.len()).1,
{
    let mut ks: Vec<(u64, u64, u64)> = Vec::new();
    let mut ms: Vec<Vec<usize>> = Vec::new();
    let mut i: usize = 0;
    while i < keys.len()
        invariant
            i <= keys@.len(),
            ks@ == batches(keys@, i as nat).0,
            ms@.map_values(|m: Vec<usize>| m@) == batches(keys@, i as nat).1,
        decreases keys@.len() - i,
    {
        proof {
            lemma_batches_len(keys@, i as nat);
        }
        let k = keys[i];
        match find_key(&ks, k) {
            Some(p) => {
                proof {
                    lemma_key_pos(ks@, k, ks@.len() as int);
                    assert(ms@.map_values(|m: Vec<usize>| m@)[p as int] == ms@[p as int]@);
                }
                let grown = copy_push(&ms[p], i);
                ms.set(p, grown);
            },
            None => {
                ks.push(k);
                let mut one: Vec<usize> = Vec::new();
                one.push(i);
                ms.push(one);
            },
        }
        proof {
            assert(ms@.map_values(|m: Vec<usize>| m@) =~= batches(keys@, i as nat + 1).1);
        }
        i = i + 1;
    }
    (ks, ms)
}

proof fn lemma_key_pos_push(ks: Seq<(u64, u64, u64)>, k: (u64, u64, u64), x: (u64, u64, u64))
    requires
        key_pos(ks, k, ks.len() as int) >= 0,
    ensures
        key_pos(ks.push(x), k, ks.len() + 1int) == key_pos(ks, k, ks.len() as int),
{
    lemma_key_pos_prefix(ks, x, k, ks.len() as int);
}

proof fn lemma_key_pos_prefix(ks: Seq<(u64, u64, u64)>, x: (u64, u64, u64), k: (u64, u64, u64), n: int)
    requires
        0 <= n <= ks.len(),
    ensures
        key_pos(ks.push(x), k, n) == key_pos(ks, k, n),
    decreases n,
{
    if n > 0 {
        lemma_key_pos_prefix(ks, x, k, n - 1);
    }
}

/// Batching places every object in the batch of its own key, and no key
/// gets two batches.
pub proof fn lemma_batches_cover(keys: Seq<(u64, u64, u64)>, n: nat)
    requires
        n <= keys.len(),
        n <= usize::MAX + 1,
    ensures
        ({
            let (ks, ms) = batches(keys, n);
            &&& ks.len() == ms.len()
            &&& forall|a: int, b: int| 0 <= a < b < ks.len() ==> ks[a] != ks[b]
            &&& forall|i: int| 0 <= i < n ==> {
                let p = key_pos(ks, #[trigger] keys[i], ks.len() as int);
                &&& 0 <= p < ks.len()
                &&& ms[p].contains(i as usize)
            }
        }),
    decreases n,
{
    lemma_batches_len(keys, n);
    if n > 0 {
        lemma_batches_cover(keys, (n - 1) as nat);
        let (ks, ms) = batches(keys, (n - 1) as nat);
        let k = keys[n - 1];
        let p = key_pos(ks, k, ks.len() as int);
        lemma_key_pos(ks, k, ks.len() as int);
        let (ks1, ms1) = batches(keys, n);
        if p >= 0 {
            assert forall|i: int| 0 <= i < n implies {
                let q = key_pos(ks1, #[trigger] keys[i], ks1.len() as int);
                &&& 0 <= q < ks1.len()
                &&& ms1[q].contains(i as usize)
            } by {
                if i < n - 1 {
                    let q = key_pos(ks, keys[i], ks.len() as int);
                    let j = choose|j: int| 0 <= j < ms[q].len() && ms[q][j] == i as usize;
                    if q == p {
                        assert(ms1[q][j] == i as usize);
                    } else {
                        assert(ms1[q] == ms[q]);
                    }
                } else {
                    assert(ms1[p][ms[p].len() as int] == i as usize);
                }
            }
        } else {
            assert forall|a: int, b: int| 0 <= a < b < ks1.len() implies ks1[a] != ks1[b] by {
                if b == ks.len() {
                    assert(ks[a] != k);
                }
            }
            assert forall|i: int| 0 <= i < n implies {
                let q = key_pos(ks1, #[trigger] keys[i], ks1.len() as int);
                &&& 0 <= q < ks1.len()
                &&& ms1[q].contains(i as usize)
            } by {
                if i < n - 1 {
                    let q = key_pos(ks, keys[i], ks.len() as int);
                    lemma_key_pos_push(ks, keys[i], k);
                    let j = choose|j: int| 0 <= j < ms[q].len() && ms[q][j] == i as usize;
                    assert(ms1[q] == ms[q]);
                    assert(ms1[q][j] == i as usize);
                } else {
                    lemma_key_pos_prefix(ks, k, k, ks.len() as int);
                    assert(key_pos(ks1, k, ks1.len() as int) == ks.len());
                    assert(ms1[ks.len() as int][0] == i as usize);
                }
            }
        }
    }
}

} // verus!
