//! Index arithmetic of the radiance-cache probe grid: probes are stored
//! flat, `index = z * (res_x * res_y) + y * res_x + x`.
use vstd::prelude::*;

verus! {

/// Number of probes of a grid.
pub open spec fn grid_count(res: [u32; 3]) -> int {
    res[0] * res[1] * res[2]
}

/// Flat index of grid coordinate `(gx, gy, gz)`.
pub open spec fn flat_index(res: [u32; 3], gx: u32, gy: u32, gz: u32) -> int {
    gz * (res[0] * res[1]) + gy * res[0] + gx
}

/// Number of probes of a grid of the given resolution.
pub fn probe_count_of(res: [u32; 3]) -> (n: usize)
    requires
        res[0] * res[1] <= u32::MAX,
        grid_count(res) <= u32::MAX,
    ensures
        n == grid_count(res),
{
    (res[0] * res[1] * res[2]) as usize
}

/// Flat index of a grid coordinate.
pub fn grid_to_flat(res: [u32; 3], gx: u32, gy: u32, gz: u32) -> (i: usize)
    requires
        gz * res[0] <= u32::MAX,
        gz * res[0] * res[1] <= u32::MAX,
        gy * res[0] <= u32::MAX,
        flat_index(res, gx, gy, gz) <= u32::MAX,
    ensures
        i == flat_index(res, gx, gy, gz),
{
    proof {
        assert(gz * res[0] * res[1] == gz * (res[0] * res[1])) by (nonlinear_arith);
    }
    (gz * res[0] * res[1] + gy * res[0] + gx) as usize
}

/// `min(a + d, hi)`.
fn clamped_step(a: u32, d: u32, hi: u32) -> (r: u32)
    requires
        a + d <= u32::MAX,
    ensures
        r == if a + d <= hi { a + d } else { hi as int },
{
    if a + d <= hi {
        a + d
    } else {
        hi
    }
}

/// The eight probes around a cell corner `(ix, iy, iz)` that trilinear
/// sampling blends, in the order `dz`, `dy`, `dx` (each 0 then 1), each
/// coordinate clamped to the last probe of its axis.
pub open spec fn corner_index(res: [u32; 3], ix: u32, iy: u32, iz: u32, k: int) -> int {
    let dx = k % 2;
    let dy = (k / 2) % 2;
    let dz = k / 4;
    let gx = if ix + dx <= res[0] - 1 { ix + dx } else { res[0] - 1 };
    let gy = if iy + dy <= res[1] - 1 { iy + dy } else { res[1] - 1 };
    let gz = if iz + dz <= res[2] - 1 { iz + dz } else { res[2] - 1 };
    gz * (res[0] * res[1]) + gy * res[0] + gx
}

/// Flat indices of the eight probes blended when sampling from the cell
/// whose lower corner is `(ix, iy, iz)`.
pub fn trilinear_probes(res: [u32; 3], ix: u32, iy: u32, iz: u32) -> (r: Vec<usize>)
    requires
        res[0] >= 1,
        res[1] >= 1,
        res[2] >= 1,
        grid_count(res) <= u32::MAX,
        ix < res[0],
        iy < res[1],
        iz < res[2],
    ensures
        r@.len() == 8,
        forall|k: int| 0 <= k < 8 ==> #[trigger] r@[k] == corner_index(res, ix, iy, iz, k),
        forall|k: int| 0 <= k < 8 ==> #[trigger] r@[k] < grid_count(res),
{
    let mut r: Vec<usize> = Vec::new();
    let mut k: u32 = 0;
    while k < 8
        invariant
            res[0] >= 1,
            res[1] >= 1,
            res[2] >= 1,
            grid_count(res) <= u32::MAX,
            ix < res[0],
            iy < res[1],
            iz < res[2],
            k <= 8,
            r@.len() == k,
            forall|j: int| 0 <= j < k ==> #[trigger] r@[j] == corner_index(res, ix, iy, iz, j),
            forall|j: int| 0 <= j < k ==> #[trigger] r@[j] < grid_count(res),
        decreases 8 - k,
    {
        let gx = clamped_step(ix, k % 2, res[0] - 1);
        let gy = clamped_step(iy, (k / 2) % 2, res[1] - 1);
        let gz = clamped_step(iz, k / 4, res[2] - 1);
        proof {
            lemma_flat_index_in_grid(res, gx, gy, gz);
        }
        let i = grid_to_flat(res, gx, gy, gz);
        r.push(i);
        k = k + 1;
    }
    r
}

proof fn lemma_flat_index_in_grid(res: [u32; 3], gx: u32, gy: u32, gz: u32)
    requires
        gx < res[0],
        gy < res[1],
        gz < res[2],
        grid_count(res) <= u32::MAX,
    ensures
        flat_index(res, gx, gy, gz) < grid_count(res),
        gz * res[0] <= u32::MAX,
        gz * res[0] * res[1] <= u32::MAX,
        gy * res[0] <= u32::MAX,
{
    let a = res[0] as int;
    let b = res[1] as int;
    let c = res[2] as int;
    let x = gx as int;
    let y = gy as int;
    let z = gz as int;
    assert(z * (a * b) + y * a + x < a * b * c) by (nonlinear_arith)
        requires
            0 <= x < a,
            0 <= y < b,
            0 <= z < c,
    ;
    assert(z * a <= a * b * c) by (nonlinear_arith)
        requires
            0 <= x < a,
            0 <= y < b,
            0 <= z < c,
    ;
    assert(z * a * b <= a * b * c) by (nonlinear_arith)
        requires
            0 <= x < a,
            0 <= y < b,
            0 <= z < c,
    ;
    assert(y * a <= a * b * c) by (nonlinear_arith)
        requires
            0 <= x < a,
            0 <= y < b,
            0 <= z < c,
    ;
}

/// Every coordinate inside the grid has a flat index below the probe
/// count, and two different coordinates never share one: the flat layout
/// is a one-to-one numbering of the probes.
pub proof fn lemma_flat_layout_one_to_one(res: [u32; 3], a: (u32, u32, u32), b: (u32, u32, u32))
    requires
        a.0 < res[0] && a.1 < res[1] && a.2 < res[2],
        b.0 < res[0] && b.1 < res[1] && b.2 < res[2],
    ensures
        0 <= flat_index(res, a.0, a.1, a.2) < grid_count(res),
        flat_index(res, a.0, a.1, a.2) == flat_index(res, b.0, b.1, b.2) ==> a == b,
{
    let rx = res[0] as int;
    let ry = res[1] as int;
    let rz = res[2] as int;
    let (x1, y1, z1) = (a.0 as int, a.1 as int, a.2 as int);
    let (x2, y2, z2) = (b.0 as int, b.1 as int, b.2 as int);
    assert(0 <= z1 * (rx * ry) + y1 * rx + x1 < rx * ry * rz) by (nonlinear_arith)
        requires
            0 <= x1 < rx,
            0 <= y1 < ry,
            0 <= z1 < rz,
    ;
    if z1 * (rx * ry) + y1 * rx + x1 == z2 * (rx * ry) + y2 * rx + x2 {
        assert(z1 == z2 && y1 == y2 && x1 == x2) by (nonlinear_arith)
            requires
                0 <= x1 < rx,
                0 <= y1 < ry,
                0 <= z1 < rz,
                0 <= x2 < rx,
                0 <= y2 < ry,
                0 <= z2 < rz,
                z1 * (rx * ry) + y1 * rx + x1 == z2 * (rx * ry) + y2 * rx + x2,
        ;
    }
}

} // verus!
