//! The permutation table of the Perlin noise generator, shuffled from a
//! seed with a linear congruential generator.
use vstd::prelude::*;
use crate::meshlet::append_u8;

verus! {

/// One step of the generator's linear congruential sequence.
pub open spec fn lcg_next(state: u64) -> u64 {
    vstd::wrapping::u64_specs::wrapping_add(vstd::wrapping::u64_specs::wrapping_mul(state, 1103515245), 12345)
}

/// The table `0, 1, ..., 255`.
pub open spec fn identity_table() -> Seq<u8> {
    Seq::new(256, |i: int| i as u8)
}

/// Swap the entries at `i` and `j`.
pub open spec fn swap_entries(p: Seq<u8>, i: int, j: int) -> Seq<u8> {
    p.update(i, p[j]).update(j, p[i])
}

/// Table and generator state after the first `k` steps of the shuffle,
/// which visits positions 255, 254, ..., 1 and swaps position `i` with
/// position `state % (i + 1)` of the advanced state.
pub open spec fn shuffle_steps(seed: u64, k: nat) -> (Seq<u8>, u64)
    decreases k,
{
    if k == 0 {
        (identity_table(), seed)
    } else {
        let (p, st) = shuffle_steps(seed, (k - 1) as nat);
        let i = 255 - (k - 1);
        let next = lcg_next(st);
        (swap_entries(p, i, (next % (i + 1) as u64) as int), next)
    }
}

/// The shuffled table of a seed.
pub open spec fn shuffled_table(seed: u64) -> Seq<u8> {
    shuffle_steps(seed, 255).0
}

/// Perlin noise generator: a shuffled table of the bytes 0 to 255, stored
/// twice in a row so that a lookup may run past the first copy.
pub struct PerlinNoise {
    perm: Vec<u8>,
}

impl PerlinNoise {
    /// The doubled permutation table.
    pub closed spec fn table(&self) -> Seq<u8> {
        self.perm@
    }

    /// Generator for `seed`: the table is shuffled from the seed, then
    /// stored twice.
    pub fn new(seed: u64) -> (g: Self)
        ensures
            g.table() == shuffled_table(seed) + shuffled_table(seed),
            g.table().len() == 512,
    {
        proof {
            lemma_shuffle_distinct(seed, 255);
        }
        let mut p: Vec<u8> = Vec::new();
        let mut i: usize = 0;
        while i < 256
            invariant
                i <= 256,
                p@ == Seq::new(i as nat, |k: int| k as u8),
            decreases 256 - i,
        {
            p.push(i as u8);
            i = i + 1;
            assert(p@ =~= Seq::new(i as nat, |k: int| k as u8));
        }
        assert(p@ =~= identity_table());
        let mut state: u64 = seed;
        let mut i: usize = 255;
        while i >= 1
            invariant
                0 <= i <= 255,
                p@.len() == 256,
                (p@, state) == shuffle_steps(seed, (255 - i) as nat),
            decreases i,
        {
            state = state.wrapping_mul(1103515245).wrapping_add(12345);
            let j = (state % (i as u64 + 1)) as usize;
            let pi = p[i];
            let pj = p[j];
            p.set(i, pj);
            p.set(j, pi);
            proof {
                let k = (255 - i + 1) as nat;
                assert(255 - (k - 1) == i);
                assert(p@ =~= shuffle_steps(seed, k).0);
            }
            i = i - 1;
        }
        let mut perm: Vec<u8> = Vec::new();
        append_u8(&mut perm, &p);
        append_u8(&mut perm, &p);
        assert(perm@ =~= p@ + p@);
        PerlinNoise { perm }
    }

    /// Hash of a lattice corner: `table[table[x] + y]`, the lookup the noise
    /// function makes for each corner of a unit cell.
    pub fn corner_hash(&self, x: usize, y: usize) -> (h: u8)
        requires
            self.table().len() == 512,
            x < 512,
            y <= 256,
        ensures
            h == self.table()[self.table()[x as int] + y],
    {
        let a = self.perm[x] as usize;
        self.perm[a + y]
    }
}

/// One draw of the erosion droplets' random source: the generator steps
/// once and bits 16 to 30 of its new state (a value from 0 to 32767) are
/// drawn.
pub fn droplet_random_bits(state: u64) -> (r: (u64, u32))
    ensures
        r.0 == lcg_next(state),
        r.1 == (r.0 >> 16u64) & 0x7FFFu64,
        r.1 <= 0x7FFF,
{
    let next = state.wrapping_mul(1103515245).wrapping_add(12345);
    let bits = (next >> 16u64) & 0x7FFFu64;
    assert(bits <= 0x7FFF) by (bit_vector)
        requires
            bits == (next >> 16u64) & 0x7FFFu64,
    ;
    (next, bits as u32)
}

proof fn lemma_swap_keeps_distinct(p: Seq<u8>, i: int, j: int)
    requires
        p.no_duplicates(),
        0 <= i < p.len(),
        0 <= j < p.len(),
    ensures
        swap_entries(p, i, j).no_duplicates(),
        swap_entries(p, i, j).len() == p.len(),
{
    let q = swap_entries(p, i, j);
    let src = |k: int| if k == i { j } else if k == j { i } else { k };
    assert forall|k: int| 0 <= k < q.len() implies q[k] == p[src(k)] by {}
    assert forall|a: int, b: int| 0 <= a < q.len() && 0 <= b < q.len() && a != b implies q[a] != q[b] by {
        assert(q[a] == p[src(a)]);
        assert(q[b] == p[src(b)]);
    }
}

proof fn lemma_shuffle_distinct(seed: u64, k: nat)
    requires
        k <= 255,
    ensures
        shuffle_steps(seed, k).0.len() == 256,
        shuffle_steps(seed, k).0.no_duplicates(),
    decreases k,
{
    if k == 0 {
        assert forall|a: int, b: int| 0 <= a < 256 && 0 <= b < 256 && a != b implies identity_table()[a]
            != identity_table()[b] by {}
    } else {
        lemma_shuffle_distinct(seed, (k - 1) as nat);
        let (p, st) = shuffle_steps(seed, (k - 1) as nat);
        let i = 255 - (k - 1);
        let next = lcg_next(st);
        lemma_swap_keeps_distinct(p, i, (next % (i + 1) as u64) as int);
    }
}

/// The shuffled table of every seed is a permutation of the bytes 0 to
/// 255: 256 entries, no two alike, so each byte appears exactly once.
pub proof fn lemma_table_is_permutation(seed: u64)
    ensures
        shuffled_table(seed).len() == 256,
        shuffled_table(seed).no_duplicates(),
        forall|v: u8| #[trigger] shuffled_table(seed).contains(v),
{
    lemma_shuffle_distinct(seed, 255);
    let t = shuffled_table(seed);
    assert forall|v: u8| #[trigger] t.contains(v) by {
        lemma_distinct_bytes_cover(t, v);
    }
}

/// The table a generator stores (see `PerlinNoise::new`) repeats itself
/// after 256 entries, and each half lists every byte exactly once.
pub proof fn lemma_doubled_table(seed: u64)
    ensures
        (shuffled_table(seed) + shuffled_table(seed)).len() == 512,
        forall|i: int| 0 <= i < 256 ==> #[trigger] (shuffled_table(seed) + shuffled_table(seed))[i + 256] == (
        shuffled_table(seed) + shuffled_table(seed))[i],
        (shuffled_table(seed) + shuffled_table(seed)).subrange(0, 256).no_duplicates(),
        forall|v: u8| #[trigger] (shuffled_table(seed) + shuffled_table(seed)).subrange(0, 256).contains(v),
{
    lemma_table_is_permutation(seed);
    let h = shuffled_table(seed);
    assert((h + h).subrange(0, 256) =~= h);
}

/// 256 distinct bytes include every byte.
proof fn lemma_distinct_bytes_cover(t: Seq<u8>, v: u8)
    requires
        t.len() == 256,
        t.no_duplicates(),
    ensures
        t.contains(v),
{
    let s = t.to_set();
    t.unique_seq_to_set();
    let full = Set::new(|b: u8| true);
    assert(s.subset_of(full));
    lemma_all_bytes_len();
    if !s.contains(v) {
        assert(s.subset_of(full.remove(v)));
        vstd::set_lib::lemma_len_subset(s, full.remove(v));
    }
}

proof fn lemma_all_bytes_len()
    ensures
        Set::new(|b: u8| true).finite(),
        Set::new(|b: u8| true).len() == 256,
{
    let full = Set::new(|b: u8| true);
    let r = vstd::set_lib::set_int_range(0, 256).map(|x: int| x as u8);
    assert(full =~= r) by {
        assert forall|b: u8| full.contains(b) implies r.contains(b) by {
            assert(vstd::set_lib::set_int_range(0, 256).contains(b as int));
        }
    }
    vstd::set_lib::lemma_int_range(0, 256);
    assert forall|x: int, y: int| vstd::set_lib::set_int_range(0, 256).contains(x) && vstd::set_lib::set_int_range(0, 256).contains(y) && x as u8 == y as u8 implies x == y by {}
    vstd::set_lib::lemma_map_size(vstd::set_lib::set_int_range(0, 256), r, |x: int| x as u8);
}

} // verus!
