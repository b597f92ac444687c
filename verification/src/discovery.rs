use vstd::prelude::*;
use crate::bits::{bits_from_elem, bits_get, bits_of, bits_set};
use crate::chunk_manager::ChunkManager;

verus! {

/// Absolute value of an integer.
pub open spec fn iabs(a: int) -> int {
    if a < 0 {
        -a
    } else {
        a
    }
}

/// The cell lies within per-axis (Chebyshev) distance `d` of the centre.
pub open spec fn in_box2(x: i32, z: i32, d: i32, a: i32, b: i32) -> bool {
    iabs(a - x) <= d && iabs(b - z) <= d
}

/// The taxicab distance of a cell from the centre: the number of
/// four-neighbour steps the breadth-first expansion needs to reach it.
pub open spec fn md2(x: i32, z: i32, a: i32, b: i32) -> int {
    iabs(a - x) + iabs(b - z)
}

/// Position of a cell inside the flat visited bitmap of the search box.
pub open spec fn cell_index2(x: i32, z: i32, d: i32, a: i32, b: i32) -> int {
    (2 * d + 1) * (a - x + d) + (b - z + d)
}

/// `c` is one of the four lateral neighbours of `p`.
pub open spec fn neighbor4(p: (i32, i32), c: (i32, i32)) -> bool {
    ||| (c.0 == p.0 + 1 && c.1 == p.1)
    ||| (c.0 == p.0 - 1 && c.1 == p.1)
    ||| (c.0 == p.0 && c.1 == p.1 + 1)
    ||| (c.0 == p.0 && c.1 == p.1 - 1)
}

pub proof fn lemma_cell_index2_bounds(x: i32, z: i32, d: i32, a: i32, b: i32)
    requires
        0 <= d <= 1024,
        in_box2(x, z, d, a, b),
    ensures
        0 <= cell_index2(x, z, d, a, b) < (2 * d + 1) * (2 * d + 1),
        (2 * d + 1) * (2 * d + 1) <= 0x40_1701,
{
    let w = 2 * (d as int) + 1;
    let row = a - x + d;
    let col = b - z + d;
    assert(0 <= row < w && 0 <= col < w);
    assert(0 <= w * row + col < w * w && w * w <= 0x40_1701) by (nonlinear_arith)
        requires
            0 < w <= 2049,
            0 <= row < w,
            0 <= col < w,
    ;
}

pub proof fn lemma_cell_index2_injective(
    x: i32,
    z: i32,
    d: i32,
    a1: i32,
    b1: i32,
    a2: i32,
    b2: i32,
)
    requires
        d >= 0,
        in_box2(x, z, d, a1, b1),
        in_box2(x, z, d, a2, b2),
        cell_index2(x, z, d, a1, b1) == cell_index2(x, z, d, a2, b2),
    ensures
        a1 == a2 && b1 == b2,
{
    let w = 2 * (d as int) + 1;
    let r1 = a1 - x + d;
    let c1 = b1 - z + d;
    let r2 = a2 - x + d;
    let c2 = b2 - z + d;
    assert(r1 == r2 && c1 == c2) by (nonlinear_arith)
        requires
            w > 0,
            0 <= c1 < w,
            0 <= c2 < w,
            w * r1 + c1 == w * r2 + c2,
    ;
}

/// Every cell of the box except the centre has a lateral neighbour in
/// the box that lies one step closer to the centre: the breadth-first
/// frontier of round `n` reaches exactly the cells at taxicab distance
/// `n`.
pub proof fn lemma_md2_step_down(x: i32, z: i32, d: i32, a: i32, b: i32)
    requires
        -3_000_000 <= x <= 3_000_000,
        -3_000_000 <= z <= 3_000_000,
        0 <= d <= 1024,
        in_box2(x, z, d, a, b),
        md2(x, z, a, b) >= 1,
    ensures
        exists|p: (i32, i32)|
            #![trigger neighbor4(p, (a, b))]
            in_box2(x, z, d, p.0, p.1) && md2(x, z, p.0, p.1) == md2(x, z, a, b) - 1 && neighbor4(
                p,
                (a, b),
            ),
{
    if a > x {
        let p = ((a - 1) as i32, b);
        assert(in_box2(x, z, d, p.0, p.1) && md2(x, z, p.0, p.1) == md2(x, z, a, b) - 1
            && neighbor4(p, (a, b)));
    } else if a < x {
        let p = ((a + 1) as i32, b);
        assert(in_box2(x, z, d, p.0, p.1) && md2(x, z, p.0, p.1) == md2(x, z, a, b) - 1
            && neighbor4(p, (a, b)));
    } else if b > z {
        let p = (a, (b - 1) as i32);
        assert(in_box2(x, z, d, p.0, p.1) && md2(x, z, p.0, p.1) == md2(x, z, a, b) - 1
            && neighbor4(p, (a, b)));
    } else {
        let p = (a, (b + 1) as i32);
        assert(in_box2(x, z, d, p.0, p.1) && md2(x, z, p.0, p.1) == md2(x, z, a, b) - 1
            && neighbor4(p, (a, b)));
    }
}

/// If the box holds a cell at taxicab distance above `t`, it holds one
/// at exactly `t`: distances are filled downward within the box.
pub proof fn lemma_md2_exists_at(x: i32, z: i32, d: i32, a: i32, b: i32, t: int)
    requires
        -3_000_000 <= x <= 3_000_000,
        -3_000_000 <= z <= 3_000_000,
        0 <= d <= 1024,
        in_box2(x, z, d, a, b),
        0 <= t <= md2(x, z, a, b),
    ensures
        exists|p: (i32, i32)|
            #![trigger in_box2(x, z, d, p.0, p.1)]
            in_box2(x, z, d, p.0, p.1) && md2(x, z, p.0, p.1) == t,
    decreases md2(x, z, a, b) - t,
{
    if md2(x, z, a, b) == t {
        let p = (a, b);
        assert(in_box2(x, z, d, p.0, p.1) && md2(x, z, p.0, p.1) == t);
    } else {
        lemma_md2_step_down(x, z, d, a, b);
        let p = choose|p: (i32, i32)|
            #![trigger neighbor4(p, (a, b))]
            in_box2(x, z, d, p.0, p.1) && md2(x, z, p.0, p.1) == md2(x, z, a, b) - 1 && neighbor4(
                p,
                (a, b),
            );
        lemma_md2_exists_at(x, z, d, p.0, p.1, t);
    }
}

/// The two column conditions that ring discovery searches for.
#[derive(Clone, Copy, PartialEq, Eq, Structural, Debug)]
pub enum ColumnQuery {
    /// The column is absent from the world map.
    Unloaded,
    /// The column is loaded but has no foliage yet.
    Unfoliated,
}

pub open spec fn spec_col_pred(m: ChunkManager, q: ColumnQuery, a: i32, b: i32) -> bool {
    match q {
        ColumnQuery::Unloaded => !m.spec_has_column(a, b),
        ColumnQuery::Unfoliated => m.spec_has_column(a, b) && !m.spec_column_at(a, b).has_foliage,
    }
}

fn col_pred(m: &ChunkManager, q: ColumnQuery, a: i32, b: i32) -> (r: bool)
    ensures
        r == spec_col_pred(*m, q, a, b),
{
    match q {
        ColumnQuery::Unloaded => match m.get_column(a, b) {
            Some(_) => false,
            None => true,
        },
        ColumnQuery::Unfoliated => match m.get_column(a, b) {
            Some(c) => !c.has_foliage,
            None => false,
        },
    }
}

fn cell_index2_exec(x: i32, z: i32, d: i32, a: i32, b: i32) -> (i: usize)
    requires
        -3_000_000 <= x <= 3_000_000,
        -3_000_000 <= z <= 3_000_000,
        0 <= d <= 1024,
        in_box2(x, z, d, a, b),
    ensures
        i == cell_index2(x, z, d, a, b),
        i < (2 * d + 1) * (2 * d + 1),
{
    proof {
        lemma_cell_index2_bounds(x, z, d, a, b);
    }
    let w = 2 * d + 1;
    let row = a - x + d;
    let col = b - z + d;
    proof {
        assert(w * row == cell_index2(x, z, d, a, b) - col);
    }
    (w * row + col) as usize
}

fn copy_cells(v: &Vec<(i32, i32)>) -> (r: Vec<(i32, i32)>)
    ensures
        r@ == v@,
{
    let mut r: Vec<(i32, i32)> = Vec::new();
    let mut i: usize = 0;
    while i < v.len()
        invariant
            i <= v@.len(),
            r@.len() == i,
            forall|j: int| 0 <= j < i ==> r@[j] == v@[j],
        decreases v@.len() - i,
    {
        r.push(v[i]);
        i = i + 1;
    }
    proof {
        assert(r@ =~= v@);
    }
    r
}

/// The invariant that ties the visited bitmap and the current ring to
/// taxicab distances during one expansion round: every cell up to the
/// last finished round is marked visited, nothing beyond the round
/// being built is, and the ring holds exactly the marked cells beyond
/// the last checked distance `lo`.
pub open spec fn spec_expand_inv(
    x: i32,
    z: i32,
    d: i32,
    lo: int,
    k: int,
    bits: Seq<bool>,
    ring: Seq<(i32, i32)>,
) -> bool {
    &&& bits.len() == (2 * d + 1) * (2 * d + 1)
    &&& forall|a: i32, b: i32|
        #![trigger in_box2(x, z, d, a, b)]
        in_box2(x, z, d, a, b) && md2(x, z, a, b) <= k ==> bits[cell_index2(x, z, d, a, b)]
    &&& forall|a: i32, b: i32|
        #![trigger in_box2(x, z, d, a, b)]
        in_box2(x, z, d, a, b) && bits[cell_index2(x, z, d, a, b)] ==> md2(x, z, a, b) <= k + 1
    &&& forall|i: int|
        0 <= i < ring.len() ==> in_box2(x, z, d, (#[trigger] ring[i]).0, ring[i].1) && lo < md2(
            x,
            z,
            ring[i].0,
            ring[i].1,
        ) <= k + 1
    &&& forall|a: i32, b: i32|
        #![trigger in_box2(x, z, d, a, b)]
        in_box2(x, z, d, a, b) && lo < md2(x, z, a, b) <= k ==> ring.contains((a, b))
    &&& forall|a: i32, b: i32|
        #![trigger in_box2(x, z, d, a, b)]
        in_box2(x, z, d, a, b) && bits[cell_index2(x, z, d, a, b)] && md2(x, z, a, b) == k + 1
            ==> ring.contains((a, b))
    &&& forall|i: int|
        0 <= i < ring.len() ==> bits[cell_index2(x, z, d, (#[trigger] ring[i]).0, ring[i].1)]
    &&& forall|i: int, j: int| 0 <= i < j < ring.len() ==> ring[i] != ring[j]
}

/// Mark one prospective cell of the next frontier: if it lies in the
/// box and was not visited yet, it is marked and joins the ring.
fn expand_cell(
    visited: &mut bit_vec::BitVec<u32>,
    ring: &mut Vec<(i32, i32)>,
    x: i32,
    z: i32,
    d: i32,
    Ghost(lo): Ghost<int>,
    Ghost(k): Ghost<int>,
    pa: i32,
    pb: i32,
    na: i32,
    nb: i32,
)
    requires
        -2_000_000 <= x <= 2_000_000,
        -2_000_000 <= z <= 2_000_000,
        0 <= d <= 1024,
        in_box2(x, z, d, pa, pb),
        neighbor4((pa, pb), (na, nb)),
        md2(x, z, pa, pb) <= k,
        -1 <= lo <= k,
        spec_expand_inv(x, z, d, lo, k, bits_of(*old(visited)), old(ring)@),
    ensures
        spec_expand_inv(x, z, d, lo, k, bits_of(*final(visited)), final(ring)@),
        forall|i: int| 0 <= i < old(ring)@.len() ==> final(ring)@[i] == old(ring)@[i],
        final(ring)@.len() >= old(ring)@.len(),
        forall|j: int|
            0 <= j < bits_of(*old(visited)).len() ==> (bits_of(*old(visited))[j]
                ==> bits_of(*final(visited))[j]),
        bits_of(*final(visited)).len() == bits_of(*old(visited)).len(),
        in_box2(x, z, d, na, nb) ==> bits_of(*final(visited))[cell_index2(x, z, d, na, nb)],
    {
        let in_box = na >= x - d && na <= x + d && nb >= z - d && nb <= z + d;
        if !in_box {
            return ;
        }
        let ci = cell_index2_exec(x, z, d, na, nb);
        proof {
            lemma_cell_index2_bounds(x, z, d, na, nb);
        }
        if !bits_get(visited, ci) {
            bits_set(visited, ci, true);
            ring.push((na, nb));
            proof {
                assert(in_box2(x, z, d, na, nb));
                assert(md2(x, z, na, nb) <= md2(x, z, pa, pb) + 1);
                assert(md2(x, z, na, nb) == k + 1);
                assert(in_box2(x, z, d, na, nb) && lo < md2(x, z, na, nb) <= k + 1);
                assert forall|a: i32, b: i32|
                    in_box2(x, z, d, a, b) && md2(x, z, a, b) <= k implies bits_of(
                    *visited,
                )[#[trigger] cell_index2(x, z, d, a, b)] by {
                    lemma_cell_index2_bounds(x, z, d, a, b);
                }
                assert forall|a: i32, b: i32|
                    in_box2(x, z, d, a, b) && bits_of(*visited)[#[trigger] cell_index2(
                        x,
                        z,
                        d,
                        a,
                        b,
                    )] implies md2(x, z, a, b) <= k + 1 by {
                    if cell_index2(x, z, d, a, b) == ci {
                        lemma_cell_index2_injective(x, z, d, a, b, na, nb);
                    } else {
                        lemma_cell_index2_bounds(x, z, d, a, b);
                    }
                }
                assert forall|a: i32, b: i32|
                    in_box2(x, z, d, a, b) && bits_of(*visited)[#[trigger] cell_index2(
                        x,
                        z,
                        d,
                        a,
                        b,
                    )] && md2(x, z, a, b) == k + 1 implies ring@.contains((a, b)) by {
                    lemma_cell_index2_bounds(x, z, d, a, b);
                    if cell_index2(x, z, d, a, b) == ci {
                        lemma_cell_index2_injective(x, z, d, a, b, na, nb);
                        assert(ring@[ring@.len() - 1] == (a, b));
                    } else {
                        assert(old(ring)@.contains((a, b)));
                        let i = choose|i: int| 0 <= i < old(ring)@.len() && old(ring)@[i] == (a, b);
                        assert(ring@[i] == (a, b));
                    }
                }
                assert forall|a: i32, b: i32|
                    in_box2(x, z, d, a, b) && lo < md2(x, z, a, b) <= k implies ring@.contains(
                    (a, b),
                ) by {
                    lemma_cell_index2_bounds(x, z, d, a, b);
                    assert(old(ring)@.contains((a, b)));
                    let i = choose|i: int| 0 <= i < old(ring)@.len() && old(ring)@[i] == (a, b);
                    assert(ring@[i] == (a, b));
                }
                assert forall|i: int|
                    0 <= i < ring@.len() implies bits_of(*visited)[cell_index2(
                    x,
                    z,
                    d,
                    (#[trigger] ring@[i]).0,
                    ring@[i].1,
                )] by {
                    lemma_cell_index2_bounds(x, z, d, ring@[i].0, ring@[i].1);
                    if i < ring@.len() - 1 {
                        assert(bits_of(*old(visited))[cell_index2(
                            x,
                            z,
                            d,
                            (ring@[i]).0,
                            ring@[i].1,
                        )]);
                    }
                }
                assert forall|i: int, j: int|
                    0 <= i < j < ring@.len() implies ring@[i] != ring@[j] by {
                    if j == ring@.len() - 1 {
                        // the new cell was unvisited; every older ring cell is marked
                        lemma_cell_index2_bounds(x, z, d, ring@[i].0, ring@[i].1);
                        assert(bits_of(*old(visited))[cell_index2(
                            x,
                            z,
                            d,
                            (ring@[i]).0,
                            ring@[i].1,
                        )]);
                    }
                }
            }
        }
    }


pub proof fn lemma_push_preserves_contains<T>(s: Seq<T>, v: T, x: T)
    requires
        s.contains(x),
    ensures
        s.push(v).contains(x),
{
    let i = choose|i: int| 0 <= i < s.len() && s[i] == x;
    assert(s.push(v)[i] == x);
}

fn collect_matches(m: &ChunkManager, q: ColumnQuery, ring: &Vec<(i32, i32)>) -> (r: Vec<
    (i32, i32),
>)
    requires
        forall|i: int, j: int| 0 <= i < j < ring@.len() ==> ring@[i] != ring@[j],
    ensures
        forall|i: int|
            0 <= i < r@.len() ==> ring@.contains(#[trigger] r@[i]) && spec_col_pred(
                *m,
                q,
                r@[i].0,
                r@[i].1,
            ),
        forall|i: int|
            0 <= i < ring@.len() && spec_col_pred(*m, q, (#[trigger] ring@[i]).0, ring@[i].1)
                ==> r@.contains(ring@[i]),
        forall|i: int, j: int| 0 <= i < j < r@.len() ==> r@[i] != r@[j],
{
    let mut r: Vec<(i32, i32)> = Vec::new();
    let mut i: usize = 0;
    while i < ring.len()
        invariant
            forall|k1: int, k2: int| 0 <= k1 < k2 < ring@.len() ==> ring@[k1] != ring@[k2],
            i <= ring@.len(),
            forall|j: int|
                0 <= j < r@.len() ==> ring@.contains(#[trigger] r@[j]) && spec_col_pred(
                    *m,
                    q,
                    r@[j].0,
                    r@[j].1,
                ),
            forall|j: int|
                0 <= j < i && spec_col_pred(*m, q, (#[trigger] ring@[j]).0, ring@[j].1)
                    ==> r@.contains(ring@[j]),
            forall|k: int|
                0 <= k < r@.len() ==> exists|j: int| 0 <= j < i && ring@[j] == #[trigger] r@[k],
            forall|k1: int, k2: int| 0 <= k1 < k2 < r@.len() ==> r@[k1] != r@[k2],
        decreases ring@.len() - i,
    {
        let (a, b) = ring[i];
        if col_pred(m, q, a, b) {
            let ghost r_old = r@;
            r.push((a, b));
            proof {
                assert(ring@[i as int] == (a, b));
                assert(r@[r@.len() - 1] == (a, b));
                assert forall|j: int|
                    0 <= j < i + 1 && spec_col_pred(*m, q, (#[trigger] ring@[j]).0, ring@[j].1)
                        implies r@.contains(ring@[j]) by {
                    if j < i {
                        assert(r_old.contains(ring@[j]));
                        lemma_push_preserves_contains(r_old, (a, b), ring@[j]);
                    } else {
                        assert(r@[r@.len() - 1] == ring@[j]);
                    }
                }
                assert forall|k: int|
                    0 <= k < r@.len() implies exists|j: int|
                    0 <= j < i + 1 && ring@[j] == #[trigger] r@[k] by {
                    if k < r@.len() - 1 {
                        let j0 = choose|j0: int| 0 <= j0 < i && ring@[j0] == r_old[k];
                        assert(ring@[j0] == r@[k]);
                    } else {
                        assert(ring@[i as int] == r@[k]);
                    }
                }
                assert forall|k1: int, k2: int|
                    0 <= k1 < k2 < r@.len() implies r@[k1] != r@[k2] by {
                    if k2 == r@.len() - 1 {
                        let j0 = choose|j0: int| 0 <= j0 < i && ring@[j0] == r_old[k1];
                        assert(ring@[j0] != ring@[i as int]);
                    }
                }
            }
        }
        i = i + 1;
    }
    r
}

/// Bounded ring discovery over columns.  Starting from the centre, the
/// search expands one breadth-first frontier per round within the
/// Chebyshev box of radius `distance`, a visited bitmap preventing
/// revisits, and returns the entire accumulated ring the first time it
/// is checked (no earlier than round `min_rounds`) and found to hold a
/// qualifying column; it returns empty exactly when no column of the
/// box qualifies.
pub fn ring_search_columns(
    m: &ChunkManager,
    q: ColumnQuery,
    x: i32,
    z: i32,
    distance: i32,
    min_rounds: i32,
) -> (r: Vec<(i32, i32)>)
    requires
        m.wf(),
        0 <= distance <= 1024,
        1 <= min_rounds <= 2,
        -2_000_000 <= x <= 2_000_000,
        -2_000_000 <= z <= 2_000_000,
    ensures
        forall|i: int|
            0 <= i < r@.len() ==> in_box2(x, z, distance, (#[trigger] r@[i]).0, r@[i].1)
                && spec_col_pred(*m, q, r@[i].0, r@[i].1),
        (exists|a: i32, b: i32|
            #![trigger spec_col_pred(*m, q, a, b)]
            in_box2(x, z, distance, a, b) && md2(x, z, a, b) <= min_rounds as int && spec_col_pred(
                *m,
                q,
                a,
                b,
            )) ==> ((forall|a: i32, b: i32|
            #![trigger spec_col_pred(*m, q, a, b)]
            in_box2(x, z, distance, a, b) && md2(x, z, a, b) <= min_rounds as int && spec_col_pred(
                *m,
                q,
                a,
                b,
            ) ==> r@.contains((a, b))) && (forall|i: int|
            0 <= i < r@.len() ==> md2(x, z, (#[trigger] r@[i]).0, r@[i].1) <= min_rounds as int)),
        (exists|a: i32, b: i32|
            #![trigger spec_col_pred(*m, q, a, b)]
            in_box2(x, z, distance, a, b) && spec_col_pred(*m, q, a, b)) ==> r@.len() > 0,
        forall|i: int, j: int| 0 <= i < j < r@.len() ==> r@[i] != r@[j],
{
    let w = 2 * distance + 1;
    proof {
        lemma_cell_index2_bounds(x, z, distance, x, z);
        assert((w as int) * (w as int) == (2 * distance + 1) * (2 * distance + 1));
    }
    let nbits = (w * w) as usize;
    let mut visited = bits_from_elem(nbits, false);
    let mut frontier: Vec<(i32, i32)> = Vec::new();
    let mut ring: Vec<(i32, i32)> = Vec::new();
    frontier.push((x, z));
    ring.push((x, z));
    let c0 = cell_index2_exec(x, z, distance, x, z);
    bits_set(&mut visited, c0, true);
    let mut round: i32 = 0;
    let ghost mut lo: int = -1;
    proof {
        assert(ring@[0] == (x, z));
        assert(frontier@[0] == (x, z));
        assert forall|a: i32, b: i32|
            #![trigger in_box2(x, z, distance, a, b)]
            in_box2(x, z, distance, a, b) && md2(x, z, a, b) <= 0 implies ring@.contains((a, b))
            && frontier@.contains((a, b)) by {
            assert(a == x && b == z);
            assert(ring@[0] == (a, b));
            assert(frontier@[0] == (a, b));
        }
        assert forall|a: i32, b: i32|
            in_box2(x, z, distance, a, b) && md2(x, z, a, b) <= 0 implies bits_of(
            visited,
        )[#[trigger] cell_index2(x, z, distance, a, b)] by {
            lemma_cell_index2_bounds(x, z, distance, a, b);
            assert(a == x && b == z);
        }
        assert forall|a: i32, b: i32|
            in_box2(x, z, distance, a, b) && bits_of(visited)[#[trigger] cell_index2(
                x,
                z,
                distance,
                a,
                b,
            )] implies md2(x, z, a, b) <= 0 by {
            lemma_cell_index2_bounds(x, z, distance, a, b);
            if !(a == x && b == z) {
                lemma_cell_index2_injective(x, z, distance, a, b, x, z);
            }
        }
    }
    loop
        invariant
            m.wf(),
            0 <= distance <= 1024,
            1 <= min_rounds <= 2,
            -2_000_000 <= x <= 2_000_000,
            -2_000_000 <= z <= 2_000_000,
            0 <= round <= 2 * distance + 3,
            -1 <= lo <= round,
            lo == -1 || lo >= min_rounds,
            round < min_rounds ==> lo == -1,
            lo >= min_rounds ==> lo == round,
            lo == -1 ==> round < min_rounds,
            lo == -1 ==> frontier@.contains((x, z)),
            bits_of(visited).len() == (2 * distance + 1) * (2 * distance + 1),
            forall|a: i32, b: i32|
                #![trigger in_box2(x, z, distance, a, b)]
                in_box2(x, z, distance, a, b) ==> (bits_of(visited)[cell_index2(
                    x,
                    z,
                    distance,
                    a,
                    b,
                )] == (md2(x, z, a, b) <= round)),
            forall|i: int|
                0 <= i < ring@.len() ==> in_box2(x, z, distance, (#[trigger] ring@[i]).0, ring@[i].1)
                    && lo < md2(x, z, ring@[i].0, ring@[i].1) <= round,
            forall|a: i32, b: i32|
                #![trigger in_box2(x, z, distance, a, b)]
                in_box2(x, z, distance, a, b) && lo < md2(x, z, a, b) <= round ==> ring@.contains(
                    (a, b),
                ),
            forall|i: int, j: int| 0 <= i < j < ring@.len() ==> ring@[i] != ring@[j],
            forall|i: int|
                0 <= i < frontier@.len() ==> in_box2(
                    x,
                    z,
                    distance,
                    (#[trigger] frontier@[i]).0,
                    frontier@[i].1,
                ) && md2(x, z, frontier@[i].0, frontier@[i].1) <= round,
            forall|a: i32, b: i32|
                #![trigger in_box2(x, z, distance, a, b)]
                in_box2(x, z, distance, a, b) && md2(x, z, a, b) == round ==> frontier@.contains(
                    (a, b),
                ),
            round > min_rounds ==> forall|i: int|
                0 <= i < frontier@.len() ==> md2(
                    x,
                    z,
                    (#[trigger] frontier@[i]).0,
                    frontier@[i].1,
                ) == round,
            forall|a: i32, b: i32|
                #![trigger spec_col_pred(*m, q, a, b)]
                in_box2(x, z, distance, a, b) && md2(x, z, a, b) <= lo ==> !spec_col_pred(
                    *m,
                    q,
                    a,
                    b,
                ),
        decreases 2 * distance + 4 - round,
    {
        if frontier.len() == 0 {
            proof {
                assert forall|a: i32, b: i32|
                    #![trigger spec_col_pred(*m, q, a, b)]
                    in_box2(x, z, distance, a, b) && spec_col_pred(*m, q, a, b) implies false by {
                    lemma_cell_index2_bounds(x, z, distance, a, b);
                    if md2(x, z, a, b) > lo {
                        if lo == -1 {
                            // an unchecked frontier always still holds the centre
                            assert(frontier@.contains((x, z)));
                            assert(false);
                        }
                        assert(lo == round);
                        lemma_md2_exists_at(x, z, distance, a, b, round as int);
                        let p = choose|p: (i32, i32)|
                            #![trigger in_box2(x, z, distance, p.0, p.1)]
                            in_box2(x, z, distance, p.0, p.1) && md2(x, z, p.0, p.1)
                                == round as int;
                        lemma_cell_index2_bounds(x, z, distance, p.0, p.1);
                        assert(frontier@.contains(p));
                    }
                }
            }
            return Vec::new();
        }
        proof {
            if lo != -1 && round > min_rounds {
                assert(md2(x, z, frontier@[0].0, frontier@[0].1) == round as int);
                assert(in_box2(x, z, distance, frontier@[0].0, frontier@[0].1));
            }
            assert(round <= 2 * distance + 2);
        }
        let ghost k = round as int;
        proof {
            assert forall|a: i32, b: i32|
                in_box2(x, z, distance, a, b) && bits_of(visited)[#[trigger] cell_index2(
                    x,
                    z,
                    distance,
                    a,
                    b,
                )] implies md2(x, z, a, b) <= k + 1 by {}
            assert forall|a: i32, b: i32|
                in_box2(x, z, distance, a, b) && bits_of(visited)[#[trigger] cell_index2(
                    x,
                    z,
                    distance,
                    a,
                    b,
                )] && md2(x, z, a, b) == k + 1 implies ring@.contains((a, b)) by {}
            assert(bits_of(visited).len() == (2 * distance + 1) * (2 * distance + 1));
            assert(forall|a: i32, b: i32|
                #![trigger in_box2(x, z, distance, a, b)]
                in_box2(x, z, distance, a, b) && md2(x, z, a, b) <= k ==> bits_of(
                    visited,
                )[cell_index2(x, z, distance, a, b)]);
            assert forall|i: int|
                0 <= i < ring@.len() implies bits_of(visited)[cell_index2(
                x,
                z,
                distance,
                (#[trigger] ring@[i]).0,
                ring@[i].1,
            )] by {
                assert(in_box2(x, z, distance, ring@[i].0, ring@[i].1));
            }
            assert(forall|i: int|
                0 <= i < ring@.len() ==> in_box2(x, z, distance, (#[trigger] ring@[i]).0, ring@[i].1)
                    && lo < md2(x, z, ring@[i].0, ring@[i].1) <= k + 1);
            assert(forall|a: i32, b: i32|
                #![trigger in_box2(x, z, distance, a, b)]
                in_box2(x, z, distance, a, b) && lo < md2(x, z, a, b) <= k ==> ring@.contains(
                    (a, b),
                ));
            assert(spec_expand_inv(x, z, distance, lo, k, bits_of(visited), ring@));
        }
        let mut fi: usize = 0;
        while fi < frontier.len()
            invariant
                m.wf(),
                0 <= distance <= 1024,
                -2_000_000 <= x <= 2_000_000,
                -2_000_000 <= z <= 2_000_000,
                0 <= k <= 2 * distance + 3,
                -1 <= lo <= k,
                fi <= frontier@.len(),
                spec_expand_inv(x, z, distance, lo, k, bits_of(visited), ring@),
                forall|i: int|
                    0 <= i < frontier@.len() ==> in_box2(
                        x,
                        z,
                        distance,
                        (#[trigger] frontier@[i]).0,
                        frontier@[i].1,
                    ) && md2(x, z, frontier@[i].0, frontier@[i].1) <= k,
                forall|a: i32, b: i32|
                    #![trigger in_box2(x, z, distance, a, b)]
                    in_box2(x, z, distance, a, b) && md2(x, z, a, b) <= k ==> bits_of(
                        visited,
                    )[cell_index2(x, z, distance, a, b)],
                forall|a: i32, b: i32|
                    #![trigger in_box2(x, z, distance, a, b)]
                    in_box2(x, z, distance, a, b) && md2(x, z, a, b) == k + 1 && (exists|j: int|
                        0 <= j < fi && neighbor4(#[trigger] frontier@[j], (a, b))) ==> bits_of(
                        visited,
                    )[cell_index2(x, z, distance, a, b)],
            decreases frontier@.len() - fi,
        {
            let (pa, pb) = frontier[fi];
            let ghost bits0 = bits_of(visited);
            expand_cell(
                &mut visited,
                &mut ring,
                x,
                z,
                distance,
                Ghost(lo),
                Ghost(k),
                pa,
                pb,
                pa + 1,
                pb,
            );
            let ghost bits1 = bits_of(visited);
            expand_cell(
                &mut visited,
                &mut ring,
                x,
                z,
                distance,
                Ghost(lo),
                Ghost(k),
                pa,
                pb,
                pa - 1,
                pb,
            );
            let ghost bits2 = bits_of(visited);
            expand_cell(
                &mut visited,
                &mut ring,
                x,
                z,
                distance,
                Ghost(lo),
                Ghost(k),
                pa,
                pb,
                pa,
                pb + 1,
            );
            let ghost bits3 = bits_of(visited);
            expand_cell(
                &mut visited,
                &mut ring,
                x,
                z,
                distance,
                Ghost(lo),
                Ghost(k),
                pa,
                pb,
                pa,
                pb - 1,
            );
            proof {
                assert forall|a: i32, b: i32|
                    in_box2(x, z, distance, a, b) && md2(x, z, a, b) == k + 1 && (exists|j: int|
                        0 <= j < fi + 1 && neighbor4(#[trigger] frontier@[j], (a, b))) implies
                    bits_of(visited)[#[trigger] cell_index2(x, z, distance, a, b)] by {
                    lemma_cell_index2_bounds(x, z, distance, a, b);
                    let j = choose|j: int| 0 <= j < fi + 1 && neighbor4(#[trigger] frontier@[j], (a, b));
                    if j < fi {
                        assert(bits0[cell_index2(x, z, distance, a, b)]);
                    } else {
                        assert(frontier@[j] == (pa, pb));
                        if a == pa + 1 && b == pb {
                            assert(bits1[cell_index2(x, z, distance, a, b)]);
                        } else if a == pa - 1 && b == pb {
                            assert(bits2[cell_index2(x, z, distance, a, b)]);
                        } else if a == pa && b == pb + 1 {
                            assert(bits3[cell_index2(x, z, distance, a, b)]);
                        } else {
                            assert(a == pa && b == pb - 1);
                        }
                    }
                }
            }
            fi = fi + 1;
        }
        proof {
            assert forall|a: i32, b: i32|
                in_box2(x, z, distance, a, b) && md2(x, z, a, b) == k + 1 implies bits_of(
                visited,
            )[#[trigger] cell_index2(x, z, distance, a, b)] by {
                lemma_cell_index2_bounds(x, z, distance, a, b);
                lemma_md2_step_down(x, z, distance, a, b);
                let p = choose|p: (i32, i32)|
                    #![trigger neighbor4(p, (a, b))]
                    in_box2(x, z, distance, p.0, p.1) && md2(x, z, p.0, p.1) == k && neighbor4(
                        p,
                        (a, b),
                    );
                lemma_cell_index2_bounds(x, z, distance, p.0, p.1);
                assert(frontier@.contains(p));
                let j = choose|j: int| 0 <= j < frontier@.len() && frontier@[j] == p;
                assert(neighbor4(frontier@[j], (a, b)));
            }
            assert forall|a: i32, b: i32|
                in_box2(x, z, distance, a, b) implies (bits_of(visited)[#[trigger] cell_index2(
                x,
                z,
                distance,
                a,
                b,
            )] == (md2(x, z, a, b) <= k + 1)) by {
                lemma_cell_index2_bounds(x, z, distance, a, b);
            }
        }
        round = round + 1;
        if round < min_rounds {
            frontier = copy_cells(&ring);
            proof {
                assert forall|a: i32, b: i32|
                    #![trigger in_box2(x, z, distance, a, b)]
                    in_box2(x, z, distance, a, b) && lo < md2(x, z, a, b) <= round implies ring@
                    .contains((a, b)) by {
                    lemma_cell_index2_bounds(x, z, distance, a, b);
                    if md2(x, z, a, b) == k + 1 {
                        assert(bits_of(visited)[cell_index2(x, z, distance, a, b)]);
                    }
                }
                lemma_cell_index2_bounds(x, z, distance, x, z);
                assert(ring@.contains((x, z)));
                assert(frontier@.contains((x, z)));
                assert forall|a: i32, b: i32|
                    #![trigger in_box2(x, z, distance, a, b)]
                    in_box2(x, z, distance, a, b) && md2(x, z, a, b) == round implies frontier@
                    .contains((a, b)) by {
                    lemma_cell_index2_bounds(x, z, distance, a, b);
                    assert(ring@.contains((a, b)));
                }
            }
        } else {
            let matches = collect_matches(m, q, &ring);
            if matches.len() > 0 {
                proof {
                    if lo >= min_rounds {
                        // an earlier check already ruled the near region out
                        assert forall|a: i32, b: i32|
                            #![trigger spec_col_pred(*m, q, a, b)]
                            in_box2(x, z, distance, a, b) && md2(x, z, a, b) <= min_rounds as int
                                && spec_col_pred(*m, q, a, b) implies false by {
                            assert(md2(x, z, a, b) <= lo);
                        }
                    } else {
                        // first check: the ring is the whole region up to this round
                        assert(lo == -1 && round == min_rounds);
                        assert forall|a: i32, b: i32|
                            #![trigger spec_col_pred(*m, q, a, b)]
                            in_box2(x, z, distance, a, b) && md2(x, z, a, b) <= min_rounds as int
                                && spec_col_pred(*m, q, a, b) implies matches@.contains(
                            (a, b),
                        ) by {
                            lemma_cell_index2_bounds(x, z, distance, a, b);
                            assert(ring@.contains((a, b)));
                            let i = choose|i: int| 0 <= i < ring@.len() && ring@[i] == (a, b);
                            assert(spec_col_pred(*m, q, (ring@[i]).0, ring@[i].1));
                            assert(matches@.contains(ring@[i]));
                        }
                        assert forall|i: int|
                            0 <= i < matches@.len() implies md2(
                            x,
                            z,
                            (#[trigger] matches@[i]).0,
                            matches@[i].1,
                        ) <= min_rounds as int by {
                            let c = matches@[i];
                            assert(ring@.contains(c));
                            let j = choose|j: int| 0 <= j < ring@.len() && ring@[j] == c;
                        }
                    }
                    assert forall|i: int|
                        0 <= i < matches@.len() implies in_box2(
                        x,
                        z,
                        distance,
                        (#[trigger] matches@[i]).0,
                        matches@[i].1,
                    ) by {
                        let c = matches@[i];
                        assert(ring@.contains(c));
                        let j = choose|j: int| 0 <= j < ring@.len() && ring@[j] == c;
                    }
                }
                return matches;
            }
            let ghost lo_prev = lo;
            proof {
                // this ring held nothing: the checked region grows
                assert forall|a: i32, b: i32|
                    #![trigger spec_col_pred(*m, q, a, b)]
                    in_box2(x, z, distance, a, b) && md2(x, z, a, b) <= round as int implies
                    !spec_col_pred(*m, q, a, b) by {
                    lemma_cell_index2_bounds(x, z, distance, a, b);
                    if md2(x, z, a, b) > lo {
                        assert(ring@.contains((a, b)));
                        let i = choose|i: int| 0 <= i < ring@.len() && ring@[i] == (a, b);
                        if spec_col_pred(*m, q, a, b) {
                            assert(matches@.contains(ring@[i]));
                            assert(false);
                        }
                    }
                }
                lo = round as int;
            }
            let ghost ring_pre = ring@;
            frontier = copy_cells(&ring);
            ring.clear();
            proof {
                assert(frontier@ == ring_pre);
                assert forall|a: i32, b: i32|
                    #![trigger in_box2(x, z, distance, a, b)]
                    in_box2(x, z, distance, a, b) && md2(x, z, a, b) == round implies frontier@
                    .contains((a, b)) by {
                    lemma_cell_index2_bounds(x, z, distance, a, b);
                    assert(ring_pre.contains((a, b)));
                }
                if round > min_rounds {
                    assert(lo_prev == k);
                    assert forall|i: int| 0 <= i < frontier@.len() implies md2(
                        x,
                        z,
                        (#[trigger] frontier@[i]).0,
                        frontier@[i].1,
                    ) == round as int by {
                        assert(frontier@[i] == ring_pre[i]);
                        assert(lo_prev < md2(x, z, ring_pre[i].0, ring_pre[i].1) <= k + 1);
                    }
                }
            }
        }
    }
}



/// The cell lies within per-axis distance `d` of the centre, in three
/// dimensions.
pub open spec fn in_box3(x: i32, y: i32, z: i32, d: i32, a: i32, b: i32, c: i32) -> bool {
    iabs(a - x) <= d && iabs(b - y) <= d && iabs(c - z) <= d
}

/// Taxicab distance in three dimensions.
pub open spec fn md3(x: i32, y: i32, z: i32, a: i32, b: i32, c: i32) -> int {
    iabs(a - x) + iabs(b - y) + iabs(c - z)
}

/// Position of a cell inside the flat visited bitmap of the cubic
/// search box.
pub open spec fn cell_index3(x: i32, y: i32, z: i32, d: i32, a: i32, b: i32, c: i32) -> int {
    (2 * d + 1) * (2 * d + 1) * (a - x + d) + (2 * d + 1) * (b - y + d) + (c - z + d)
}

/// `n` is one of the six lateral neighbours of `p`.
pub open spec fn neighbor6(p: (i32, i32, i32), n: (i32, i32, i32)) -> bool {
    ||| (n.0 == p.0 + 1 && n.1 == p.1 && n.2 == p.2)
    ||| (n.0 == p.0 - 1 && n.1 == p.1 && n.2 == p.2)
    ||| (n.0 == p.0 && n.1 == p.1 + 1 && n.2 == p.2)
    ||| (n.0 == p.0 && n.1 == p.1 - 1 && n.2 == p.2)
    ||| (n.0 == p.0 && n.1 == p.1 && n.2 == p.2 + 1)
    ||| (n.0 == p.0 && n.1 == p.1 && n.2 == p.2 - 1)
}

pub proof fn lemma_cell_index3_bounds(x: i32, y: i32, z: i32, d: i32, a: i32, b: i32, c: i32)
    requires
        0 <= d <= 64,
        in_box3(x, y, z, d, a, b, c),
    ensures
        0 <= cell_index3(x, y, z, d, a, b, c) < (2 * d + 1) * (2 * d + 1) * (2 * d + 1),
        (2 * d + 1) * (2 * d + 1) * (2 * d + 1) <= 2146689,
{
    let w = 2 * (d as int) + 1;
    let row = a - x + d;
    let col = b - y + d;
    let dep = c - z + d;
    assert(0 <= row < w && 0 <= col < w && 0 <= dep < w);
    let m = w * col + dep;
    let ww = w * w;
    assert(0 <= m < ww && ww <= 16641) by (nonlinear_arith)
        requires
            0 < w <= 129,
            0 <= col < w,
            0 <= dep < w,
            m == w * col + dep,
            ww == w * w,
    ;
    assert(0 <= ww * row + m < ww * w && ww * w <= 2146689) by (nonlinear_arith)
        requires
            0 < w <= 129,
            0 <= row < w,
            0 <= m < ww,
            ww == w * w,
            ww <= 16641,
    ;
    assert(cell_index3(x, y, z, d, a, b, c) == ww * row + m);
}

pub proof fn lemma_cell_index3_injective(
    x: i32,
    y: i32,
    z: i32,
    d: i32,
    a1: i32,
    b1: i32,
    c1: i32,
    a2: i32,
    b2: i32,
    c2: i32,
)
    requires
        0 <= d <= 64,
        in_box3(x, y, z, d, a1, b1, c1),
        in_box3(x, y, z, d, a2, b2, c2),
        cell_index3(x, y, z, d, a1, b1, c1) == cell_index3(x, y, z, d, a2, b2, c2),
    ensures
        a1 == a2 && b1 == b2 && c1 == c2,
{
    let w = 2 * (d as int) + 1;
    let r1 = a1 - x + d;
    let s1 = b1 - y + d;
    let e1 = c1 - z + d;
    let r2 = a2 - x + d;
    let s2 = b2 - y + d;
    let e2 = c2 - z + d;
    assert(r1 == r2 && s1 == s2 && e1 == e2) by (nonlinear_arith)
        requires
            0 < w,
            0 <= s1 < w,
            0 <= s2 < w,
            0 <= e1 < w,
            0 <= e2 < w,
            w * w * r1 + w * s1 + e1 == w * w * r2 + w * s2 + e2,
    ;
}

/// Every cell of the cubic box except the centre has a lateral
/// neighbour in the box one step closer to the centre.
pub proof fn lemma_md3_step_down(x: i32, y: i32, z: i32, d: i32, a: i32, b: i32, c: i32)
    requires
        -3_000_000 <= x <= 3_000_000,
        -3_000_000 <= y <= 3_000_000,
        -3_000_000 <= z <= 3_000_000,
        0 <= d <= 64,
        in_box3(x, y, z, d, a, b, c),
        md3(x, y, z, a, b, c) >= 1,
    ensures
        exists|p: (i32, i32, i32)|
            #![trigger neighbor6(p, (a, b, c))]
            in_box3(x, y, z, d, p.0, p.1, p.2) && md3(x, y, z, p.0, p.1, p.2) == md3(
                x,
                y,
                z,
                a,
                b,
                c,
            ) - 1 && neighbor6(p, (a, b, c)),
{
    if a > x {
        let p = ((a - 1) as i32, b, c);
        assert(in_box3(x, y, z, d, p.0, p.1, p.2) && md3(x, y, z, p.0, p.1, p.2) == md3(
            x,
            y,
            z,
            a,
            b,
            c,
        ) - 1 && neighbor6(p, (a, b, c)));
    } else if a < x {
        let p = ((a + 1) as i32, b, c);
        assert(in_box3(x, y, z, d, p.0, p.1, p.2) && md3(x, y, z, p.0, p.1, p.2) == md3(
            x,
            y,
            z,
            a,
            b,
            c,
        ) - 1 && neighbor6(p, (a, b, c)));
    } else if b > y {
        let p = (a, (b - 1) as i32, c);
        assert(in_box3(x, y, z, d, p.0, p.1, p.2) && md3(x, y, z, p.0, p.1, p.2) == md3(
            x,
            y,
            z,
            a,
            b,
            c,
        ) - 1 && neighbor6(p, (a, b, c)));
    } else if b < y {
        let p = (a, (b + 1) as i32, c);
        assert(in_box3(x, y, z, d, p.0, p.1, p.2) && md3(x, y, z, p.0, p.1, p.2) == md3(
            x,
            y,
            z,
            a,
            b,
            c,
        ) - 1 && neighbor6(p, (a, b, c)));
    } else if c > z {
        let p = (a, b, (c - 1) as i32);
        assert(in_box3(x, y, z, d, p.0, p.1, p.2) && md3(x, y, z, p.0, p.1, p.2) == md3(
            x,
            y,
            z,
            a,
            b,
            c,
        ) - 1 && neighbor6(p, (a, b, c)));
    } else {
        let p = (a, b, (c + 1) as i32);
        assert(in_box3(x, y, z, d, p.0, p.1, p.2) && md3(x, y, z, p.0, p.1, p.2) == md3(
            x,
            y,
            z,
            a,
            b,
            c,
        ) - 1 && neighbor6(p, (a, b, c)));
    }
}

/// If the cubic box holds a cell at taxicab distance above `t`, it
/// holds one at exactly `t`.
pub proof fn lemma_md3_exists_at(x: i32, y: i32, z: i32, d: i32, a: i32, b: i32, c: i32, t: int)
    requires
        -3_000_000 <= x <= 3_000_000,
        -3_000_000 <= y <= 3_000_000,
        -3_000_000 <= z <= 3_000_000,
        0 <= d <= 64,
        in_box3(x, y, z, d, a, b, c),
        0 <= t <= md3(x, y, z, a, b, c),
    ensures
        exists|p: (i32, i32, i32)|
            #![trigger in_box3(x, y, z, d, p.0, p.1, p.2)]
            in_box3(x, y, z, d, p.0, p.1, p.2) && md3(x, y, z, p.0, p.1, p.2) == t,
    decreases md3(x, y, z, a, b, c) - t,
{
    if md3(x, y, z, a, b, c) == t {
        let p = (a, b, c);
        assert(in_box3(x, y, z, d, p.0, p.1, p.2) && md3(x, y, z, p.0, p.1, p.2) == t);
    } else {
        lemma_md3_step_down(x, y, z, d, a, b, c);
        let p = choose|p: (i32, i32, i32)|
            #![trigger neighbor6(p, (a, b, c))]
            in_box3(x, y, z, d, p.0, p.1, p.2) && md3(x, y, z, p.0, p.1, p.2) == md3(
                x,
                y,
                z,
                a,
                b,
                c,
            ) - 1 && neighbor6(p, (a, b, c));
        lemma_md3_exists_at(x, y, z, d, p.0, p.1, p.2, t);
    }
}

/// The chunk at these chunk coordinates is loaded but its mesh has not
/// been generated yet: the condition that chunk-readiness discovery
/// collects.
pub open spec fn spec_chunk_ungenerated(m: ChunkManager, a: i32, b: i32, c: i32) -> bool {
    match m.spec_chunk_at(a, b, c) {
        Some(ch) => !ch.is_generated,
        None => false,
    }
}

fn chunk_ungenerated(m: &ChunkManager, a: i32, b: i32, c: i32) -> (r: bool)
    requires
        m.wf(),
    ensures
        r == spec_chunk_ungenerated(*m, a, b, c),
{
    match m.get_chunk(a, b, c) {
        Some(ch) => !ch.is_generated,
        None => false,
    }
}

fn cell_index3_exec(x: i32, y: i32, z: i32, d: i32, a: i32, b: i32, c: i32) -> (i: usize)
    requires
        -3_000_000 <= x <= 3_000_000,
        -3_000_000 <= y <= 3_000_000,
        -3_000_000 <= z <= 3_000_000,
        0 <= d <= 64,
        in_box3(x, y, z, d, a, b, c),
    ensures
        i == cell_index3(x, y, z, d, a, b, c),
        i < (2 * d + 1) * (2 * d + 1) * (2 * d + 1),
{
    proof {
        lemma_cell_index3_bounds(x, y, z, d, a, b, c);
    }
    let w = 2 * d + 1;
    let row = a - x + d;
    let col = b - y + d;
    let dep = c - z + d;
    proof {
        assert(0 <= (w as int) * (w as int) <= 16641) by (nonlinear_arith)
            requires
                0 < w <= 129,
        ;
        assert(0 <= (w as int) * (w as int) * (row as int) <= 2146689) by (nonlinear_arith)
            requires
                0 < w <= 129,
                0 <= row < w,
                0 <= (w as int) * (w as int) <= 16641,
        ;
        assert(0 <= (w as int) * (col as int) < 16641) by (nonlinear_arith)
            requires
                0 < w <= 129,
                0 <= col < w,
        ;
        assert((w as int) * (w as int) * (row as int) + (w as int) * (col as int) + (dep as int)
            == cell_index3(x, y, z, d, a, b, c));
    }
    let ww = w * w;
    (ww * row + w * col + dep) as usize
}

fn copy_cells3(v: &Vec<(i32, i32, i32)>) -> (r: Vec<(i32, i32, i32)>)
    ensures
        r@ == v@,
{
    let mut r: Vec<(i32, i32, i32)> = Vec::new();
    let mut i: usize = 0;
    while i < v.len()
        invariant
            i <= v@.len(),
            r@.len() == i,
            forall|j: int| 0 <= j < i ==> r@[j] == v@[j],
        decreases v@.len() - i,
    {
        r.push(v[i]);
        i = i + 1;
    }
    proof {
        assert(r@ =~= v@);
    }
    r
}

/// The three-dimensional analogue of [`spec_expand_inv`].
pub open spec fn spec_expand_inv3(
    x: i32,
    y: i32,
    z: i32,
    d: i32,
    lo: int,
    k: int,
    bits: Seq<bool>,
    ring: Seq<(i32, i32, i32)>,
) -> bool {
    &&& bits.len() == (2 * d + 1) * (2 * d + 1) * (2 * d + 1)
    &&& forall|a: i32, b: i32, c: i32|
        #![trigger in_box3(x, y, z, d, a, b, c)]
        in_box3(x, y, z, d, a, b, c) && md3(x, y, z, a, b, c) <= k ==> bits[cell_index3(
            x,
            y,
            z,
            d,
            a,
            b,
            c,
        )]
    &&& forall|a: i32, b: i32, c: i32|
        #![trigger in_box3(x, y, z, d, a, b, c)]
        in_box3(x, y, z, d, a, b, c) && bits[cell_index3(x, y, z, d, a, b, c)] ==> md3(
            x,
            y,
            z,
            a,
            b,
            c,
        ) <= k + 1
    &&& forall|i: int|
        0 <= i < ring.len() ==> in_box3(
            x,
            y,
            z,
            d,
            (#[trigger] ring[i]).0,
            ring[i].1,
            ring[i].2,
        ) && lo < md3(x, y, z, ring[i].0, ring[i].1, ring[i].2) <= k + 1
    &&& forall|a: i32, b: i32, c: i32|
        #![trigger in_box3(x, y, z, d, a, b, c)]
        in_box3(x, y, z, d, a, b, c) && lo < md3(x, y, z, a, b, c) <= k ==> ring.contains(
            (a, b, c),
        )
    &&& forall|a: i32, b: i32, c: i32|
        #![trigger in_box3(x, y, z, d, a, b, c)]
        in_box3(x, y, z, d, a, b, c) && bits[cell_index3(x, y, z, d, a, b, c)] && md3(
            x,
            y,
            z,
            a,
            b,
            c,
        ) == k + 1 ==> ring.contains((a, b, c))
    &&& forall|i: int|
        0 <= i < ring.len() ==> bits[cell_index3(
            x,
            y,
            z,
            d,
            (#[trigger] ring[i]).0,
            ring[i].1,
            ring[i].2,
        )]
    &&& forall|i: int, j: int| 0 <= i < j < ring.len() ==> ring[i] != ring[j]
}

/// Mark one prospective cell of the next three-dimensional frontier.
fn expand_cell3(
    visited: &mut bit_vec::BitVec<u32>,
    ring: &mut Vec<(i32, i32, i32)>,
    x: i32,
    y: i32,
    z: i32,
    d: i32,
    Ghost(lo): Ghost<int>,
    Ghost(k): Ghost<int>,
    pa: i32,
    pb: i32,
    pc: i32,
    na: i32,
    nb: i32,
    nc: i32,
)
    requires
        -2_000_000 <= x <= 2_000_000,
        -2_000_000 <= y <= 2_000_000,
        -2_000_000 <= z <= 2_000_000,
        0 <= d <= 64,
        in_box3(x, y, z, d, pa, pb, pc),
        neighbor6((pa, pb, pc), (na, nb, nc)),
        md3(x, y, z, pa, pb, pc) <= k,
        -1 <= lo <= k,
        spec_expand_inv3(x, y, z, d, lo, k, bits_of(*old(visited)), old(ring)@),
    ensures
        spec_expand_inv3(x, y, z, d, lo, k, bits_of(*final(visited)), final(ring)@),
        forall|i: int| 0 <= i < old(ring)@.len() ==> final(ring)@[i] == old(ring)@[i],
        final(ring)@.len() >= old(ring)@.len(),
        forall|j: int|
            0 <= j < bits_of(*old(visited)).len() ==> (bits_of(*old(visited))[j]
                ==> bits_of(*final(visited))[j]),
        bits_of(*final(visited)).len() == bits_of(*old(visited)).len(),
        in_box3(x, y, z, d, na, nb, nc) ==> bits_of(*final(visited))[cell_index3(
            x,
            y,
            z,
            d,
            na,
            nb,
            nc,
        )],
    {
        let in_box = na >= x - d && na <= x + d && nb >= y - d && nb <= y + d && nc >= z - d && nc
            <= z + d;
        if !in_box {
            return ;
        }
        let ci = cell_index3_exec(x, y, z, d, na, nb, nc);
        proof {
            lemma_cell_index3_bounds(x, y, z, d, na, nb, nc);
        }
        if !bits_get(visited, ci) {
            bits_set(visited, ci, true);
            ring.push((na, nb, nc));
            proof {
                assert(in_box3(x, y, z, d, na, nb, nc));
                assert(md3(x, y, z, na, nb, nc) <= md3(x, y, z, pa, pb, pc) + 1);
                assert(md3(x, y, z, na, nb, nc) == k + 1);
                assert(in_box3(x, y, z, d, na, nb, nc) && lo < md3(x, y, z, na, nb, nc) <= k + 1);
                assert forall|a: i32, b: i32, c: i32|
                    in_box3(x, y, z, d, a, b, c) && md3(x, y, z, a, b, c) <= k implies bits_of(
                    *visited,
                )[cell_index3(x, y, z, d, a, b, c)] by {
                    lemma_cell_index3_bounds(x, y, z, d, a, b, c);
                }
                assert forall|a: i32, b: i32, c: i32|
                    in_box3(x, y, z, d, a, b, c) && bits_of(*visited)[cell_index3(
                        x,
                        y,
                        z,
                        d,
                        a,
                        b,
                        c,
                    )] implies md3(x, y, z, a, b, c) <= k + 1 by {
                    if cell_index3(x, y, z, d, a, b, c) == ci {
                        lemma_cell_index3_injective(x, y, z, d, a, b, c, na, nb, nc);
                    } else {
                        lemma_cell_index3_bounds(x, y, z, d, a, b, c);
                    }
                }
                assert forall|a: i32, b: i32, c: i32|
                    in_box3(x, y, z, d, a, b, c) && bits_of(*visited)[cell_index3(
                        x,
                        y,
                        z,
                        d,
                        a,
                        b,
                        c,
                    )] && md3(x, y, z, a, b, c) == k + 1 implies ring@.contains((a, b, c)) by {
                    lemma_cell_index3_bounds(x, y, z, d, a, b, c);
                    if cell_index3(x, y, z, d, a, b, c) == ci {
                        lemma_cell_index3_injective(x, y, z, d, a, b, c, na, nb, nc);
                        assert(ring@[ring@.len() - 1] == (a, b, c));
                    } else {
                        assert(old(ring)@.contains((a, b, c)));
                        let i = choose|i: int|
                            0 <= i < old(ring)@.len() && old(ring)@[i] == (a, b, c);
                        assert(ring@[i] == (a, b, c));
                    }
                }
                assert forall|a: i32, b: i32, c: i32|
                    in_box3(x, y, z, d, a, b, c) && lo < md3(x, y, z, a, b, c) <= k implies ring@
                    .contains((a, b, c)) by {
                    assert(old(ring)@.contains((a, b, c)));
                    let i = choose|i: int| 0 <= i < old(ring)@.len() && old(ring)@[i] == (a, b, c);
                    assert(ring@[i] == (a, b, c));
                }
                assert forall|i: int|
                    0 <= i < ring@.len() implies bits_of(*visited)[cell_index3(
                    x,
                    y,
                    z,
                    d,
                    (#[trigger] ring@[i]).0,
                    ring@[i].1,
                    ring@[i].2,
                )] by {
                    lemma_cell_index3_bounds(x, y, z, d, ring@[i].0, ring@[i].1, ring@[i].2);
                    if i < ring@.len() - 1 {
                        assert(bits_of(*old(visited))[cell_index3(
                            x,
                            y,
                            z,
                            d,
                            (ring@[i]).0,
                            ring@[i].1,
                            ring@[i].2,
                        )]);
                    }
                }
                assert forall|i: int, j: int|
                    0 <= i < j < ring@.len() implies ring@[i] != ring@[j] by {
                    if j == ring@.len() - 1 {
                        lemma_cell_index3_bounds(x, y, z, d, ring@[i].0, ring@[i].1, ring@[i].2);
                        assert(bits_of(*old(visited))[cell_index3(
                            x,
                            y,
                            z,
                            d,
                            (ring@[i]).0,
                            ring@[i].1,
                            ring@[i].2,
                        )]);
                    }
                }
            }
        }
    }



fn collect_matches3(m: &ChunkManager, ring: &Vec<(i32, i32, i32)>) -> (r: Vec<(i32, i32, i32)>)
    requires
        m.wf(),
        forall|i: int, j: int| 0 <= i < j < ring@.len() ==> ring@[i] != ring@[j],
    ensures
        forall|i: int|
            0 <= i < r@.len() ==> ring@.contains(#[trigger] r@[i]) && spec_chunk_ungenerated(
                *m,
                r@[i].0,
                r@[i].1,
                r@[i].2,
            ),
        forall|i: int|
            0 <= i < ring@.len() && spec_chunk_ungenerated(
                *m,
                (#[trigger] ring@[i]).0,
                ring@[i].1,
                ring@[i].2,
            ) ==> r@.contains(ring@[i]),
        forall|i: int, j: int| 0 <= i < j < r@.len() ==> r@[i] != r@[j],
{
    let mut r: Vec<(i32, i32, i32)> = Vec::new();
    let mut i: usize = 0;
    while i < ring.len()
        invariant
            m.wf(),
            forall|k1: int, k2: int| 0 <= k1 < k2 < ring@.len() ==> ring@[k1] != ring@[k2],
            i <= ring@.len(),
            forall|j: int|
                0 <= j < r@.len() ==> ring@.contains(#[trigger] r@[j]) && spec_chunk_ungenerated(
                    *m,
                    r@[j].0,
                    r@[j].1,
                    r@[j].2,
                ),
            forall|j: int|
                0 <= j < i && spec_chunk_ungenerated(
                    *m,
                    (#[trigger] ring@[j]).0,
                    ring@[j].1,
                    ring@[j].2,
                ) ==> r@.contains(ring@[j]),
            forall|k: int|
                0 <= k < r@.len() ==> exists|j: int| 0 <= j < i && ring@[j] == #[trigger] r@[k],
            forall|k1: int, k2: int| 0 <= k1 < k2 < r@.len() ==> r@[k1] != r@[k2],
        decreases ring@.len() - i,
    {
        let (a, b, c) = ring[i];
        if chunk_ungenerated(m, a, b, c) {
            let ghost r_old = r@;
            r.push((a, b, c));
            proof {
                assert(ring@[i as int] == (a, b, c));
                assert(r@[r@.len() - 1] == (a, b, c));
                assert forall|j: int|
                    0 <= j < i + 1 && spec_chunk_ungenerated(
                        *m,
                        (#[trigger] ring@[j]).0,
                        ring@[j].1,
                        ring@[j].2,
                    ) implies r@.contains(ring@[j]) by {
                    if j < i {
                        assert(r_old.contains(ring@[j]));
                        lemma_push_preserves_contains(r_old, (a, b, c), ring@[j]);
                    } else {
                        assert(r@[r@.len() - 1] == ring@[j]);
                    }
                }
                assert forall|k: int|
                    0 <= k < r@.len() implies exists|j: int|
                    0 <= j < i + 1 && ring@[j] == #[trigger] r@[k] by {
                    if k < r@.len() - 1 {
                        let j0 = choose|j0: int| 0 <= j0 < i && ring@[j0] == r_old[k];
                        assert(ring@[j0] == r@[k]);
                    } else {
                        assert(ring@[i as int] == r@[k]);
                    }
                }
                assert forall|k1: int, k2: int|
                    0 <= k1 < k2 < r@.len() implies r@[k1] != r@[k2] by {
                    if k2 == r@.len() - 1 {
                        let j0 = choose|j0: int| 0 <= j0 < i && ring@[j0] == r_old[k1];
                        assert(ring@[j0] != ring@[i as int]);
                    }
                }
            }
        }
        i = i + 1;
    }
    r
}

/// Bounded ring discovery over chunks, in three dimensions: the first
/// ring (checked together with the centre) that holds a loaded,
/// not-yet-generated chunk is returned whole; empty exactly when no
/// chunk of the box qualifies.
pub fn ring_search_chunks(m: &ChunkManager, x: i32, y: i32, z: i32, distance: i32) -> (r: Vec<
    (i32, i32, i32),
>)
    requires
        m.wf(),
        0 <= distance <= 64,
        -2_000_000 <= x <= 2_000_000,
        -2_000_000 <= y <= 2_000_000,
        -2_000_000 <= z <= 2_000_000,
    ensures
        forall|i: int|
            0 <= i < r@.len() ==> in_box3(
                x,
                y,
                z,
                distance,
                (#[trigger] r@[i]).0,
                r@[i].1,
                r@[i].2,
            ) && spec_chunk_ungenerated(*m, r@[i].0, r@[i].1, r@[i].2),
        (exists|a: i32, b: i32, c: i32|
            #![trigger spec_chunk_ungenerated(*m, a, b, c)]
            in_box3(x, y, z, distance, a, b, c) && md3(x, y, z, a, b, c) <= 1
                && spec_chunk_ungenerated(*m, a, b, c)) ==> ((forall|a: i32, b: i32, c: i32|
            #![trigger spec_chunk_ungenerated(*m, a, b, c)]
            in_box3(x, y, z, distance, a, b, c) && md3(x, y, z, a, b, c) <= 1
                && spec_chunk_ungenerated(*m, a, b, c) ==> r@.contains((a, b, c))) && (forall|
            i: int,
        |
            0 <= i < r@.len() ==> md3(x, y, z, (#[trigger] r@[i]).0, r@[i].1, r@[i].2) <= 1)),
        (exists|a: i32, b: i32, c: i32|
            #![trigger spec_chunk_ungenerated(*m, a, b, c)]
            in_box3(x, y, z, distance, a, b, c) && spec_chunk_ungenerated(*m, a, b, c))
            ==> r@.len() > 0,
        forall|i: int, j: int| 0 <= i < j < r@.len() ==> r@[i] != r@[j],
{
    let w = 2 * distance + 1;
    proof {
        lemma_cell_index3_bounds(x, y, z, distance, x, y, z);
        assert((w as int) * (w as int) * (w as int) == (2 * distance + 1) * (2 * distance + 1) * (
        2 * distance + 1));
        assert(0 <= (w as int) * (w as int) <= 16641) by (nonlinear_arith)
            requires
                0 < w <= 129,
        ;
    }
    let ww = w * w;
    let nbits = (ww * w) as usize;
    let mut visited = bits_from_elem(nbits, false);
    let mut frontier: Vec<(i32, i32, i32)> = Vec::new();
    let mut ring: Vec<(i32, i32, i32)> = Vec::new();
    frontier.push((x, y, z));
    ring.push((x, y, z));
    let c0 = cell_index3_exec(x, y, z, distance, x, y, z);
    bits_set(&mut visited, c0, true);
    let mut round: i32 = 0;
    let ghost mut lo: int = -1;
    proof {
        assert(ring@[0] == (x, y, z));
        assert(frontier@[0] == (x, y, z));
        assert forall|a: i32, b: i32, c: i32|
            #![trigger in_box3(x, y, z, distance, a, b, c)]
            in_box3(x, y, z, distance, a, b, c) && md3(x, y, z, a, b, c) <= 0 implies ring@
            .contains((a, b, c)) && frontier@.contains((a, b, c)) by {
            assert(a == x && b == y && c == z);
            assert(ring@[0] == (a, b, c));
            assert(frontier@[0] == (a, b, c));
        }
        assert forall|a: i32, b: i32, c: i32|
            in_box3(x, y, z, distance, a, b, c) && md3(x, y, z, a, b, c) <= 0 implies bits_of(
            visited,
        )[cell_index3(x, y, z, distance, a, b, c)] by {
            lemma_cell_index3_bounds(x, y, z, distance, a, b, c);
            assert(a == x && b == y && c == z);
        }
        assert forall|a: i32, b: i32, c: i32|
            in_box3(x, y, z, distance, a, b, c) && bits_of(visited)[cell_index3(
                x,
                y,
                z,
                distance,
                a,
                b,
                c,
            )] implies md3(x, y, z, a, b, c) <= 0 by {
            lemma_cell_index3_bounds(x, y, z, distance, a, b, c);
            if !(a == x && b == y && c == z) {
                lemma_cell_index3_injective(x, y, z, distance, a, b, c, x, y, z);
            }
        }
    }
    loop
        invariant
            m.wf(),
            0 <= distance <= 64,
            -2_000_000 <= x <= 2_000_000,
            -2_000_000 <= y <= 2_000_000,
            -2_000_000 <= z <= 2_000_000,
            0 <= round <= 3 * distance + 2,
            -1 <= lo <= round,
            lo == -1 ==> round == 0,
            lo == -1 || lo >= 1,
            lo >= 0 ==> lo == round,
            lo == -1 ==> frontier@.contains((x, y, z)),
            bits_of(visited).len() == (2 * distance + 1) * (2 * distance + 1) * (2 * distance + 1),
            forall|a: i32, b: i32, c: i32|
                #![trigger in_box3(x, y, z, distance, a, b, c)]
                in_box3(x, y, z, distance, a, b, c) ==> (bits_of(visited)[cell_index3(
                    x,
                    y,
                    z,
                    distance,
                    a,
                    b,
                    c,
                )] == (md3(x, y, z, a, b, c) <= round)),
            forall|i: int|
                0 <= i < ring@.len() ==> in_box3(
                    x,
                    y,
                    z,
                    distance,
                    (#[trigger] ring@[i]).0,
                    ring@[i].1,
                    ring@[i].2,
                ) && lo < md3(x, y, z, ring@[i].0, ring@[i].1, ring@[i].2) <= round,
            forall|a: i32, b: i32, c: i32|
                #![trigger in_box3(x, y, z, distance, a, b, c)]
                in_box3(x, y, z, distance, a, b, c) && lo < md3(x, y, z, a, b, c) <= round
                    ==> ring@.contains((a, b, c)),
            forall|i: int, j: int| 0 <= i < j < ring@.len() ==> ring@[i] != ring@[j],
            forall|i: int|
                0 <= i < frontier@.len() ==> in_box3(
                    x,
                    y,
                    z,
                    distance,
                    (#[trigger] frontier@[i]).0,
                    frontier@[i].1,
                    frontier@[i].2,
                ) && md3(x, y, z, frontier@[i].0, frontier@[i].1, frontier@[i].2) <= round,
            forall|a: i32, b: i32, c: i32|
                #![trigger in_box3(x, y, z, distance, a, b, c)]
                in_box3(x, y, z, distance, a, b, c) && md3(x, y, z, a, b, c) == round
                    ==> frontier@.contains((a, b, c)),
            round > 1 ==> forall|i: int|
                0 <= i < frontier@.len() ==> md3(
                    x,
                    y,
                    z,
                    (#[trigger] frontier@[i]).0,
                    frontier@[i].1,
                    frontier@[i].2,
                ) == round,
            forall|a: i32, b: i32, c: i32|
                #![trigger spec_chunk_ungenerated(*m, a, b, c)]
                in_box3(x, y, z, distance, a, b, c) && md3(x, y, z, a, b, c) <= lo
                    ==> !spec_chunk_ungenerated(*m, a, b, c),
        decreases 3 * distance + 3 - round,
    {
        if frontier.len() == 0 {
            proof {
                assert forall|a: i32, b: i32, c: i32|
                    #![trigger spec_chunk_ungenerated(*m, a, b, c)]
                    in_box3(x, y, z, distance, a, b, c) && spec_chunk_ungenerated(
                        *m,
                        a,
                        b,
                        c,
                    ) implies false by {
                    if md3(x, y, z, a, b, c) > lo {
                        if lo == -1 {
                            assert(frontier@.contains((x, y, z)));
                            assert(false);
                        }
                        assert(lo == round);
                        lemma_md3_exists_at(x, y, z, distance, a, b, c, round as int);
                        let p = choose|p: (i32, i32, i32)|
                            #![trigger in_box3(x, y, z, distance, p.0, p.1, p.2)]
                            in_box3(x, y, z, distance, p.0, p.1, p.2) && md3(
                                x,
                                y,
                                z,
                                p.0,
                                p.1,
                                p.2,
                            ) == round as int;
                        assert(frontier@.contains(p));
                    }
                }
            }
            return Vec::new();
        }
        proof {
            if lo != -1 && round > 1 {
                assert(md3(x, y, z, frontier@[0].0, frontier@[0].1, frontier@[0].2)
                    == round as int);
                assert(in_box3(
                    x,
                    y,
                    z,
                    distance,
                    frontier@[0].0,
                    frontier@[0].1,
                    frontier@[0].2,
                ));
            }
            assert(round <= 3 * distance + 1);
        }
        let ghost k = round as int;
        proof {
            assert forall|a: i32, b: i32, c: i32|
                in_box3(x, y, z, distance, a, b, c) && bits_of(visited)[cell_index3(
                    x,
                    y,
                    z,
                    distance,
                    a,
                    b,
                    c,
                )] implies md3(x, y, z, a, b, c) <= k + 1 by {}
            assert forall|i: int|
                0 <= i < ring@.len() implies bits_of(visited)[cell_index3(
                x,
                y,
                z,
                distance,
                (#[trigger] ring@[i]).0,
                ring@[i].1,
                ring@[i].2,
            )] by {
                assert(in_box3(x, y, z, distance, ring@[i].0, ring@[i].1, ring@[i].2));
            }
            assert(spec_expand_inv3(x, y, z, distance, lo, k, bits_of(visited), ring@));
        }
        let mut fi: usize = 0;
        while fi < frontier.len()
            invariant
                m.wf(),
                0 <= distance <= 64,
                -2_000_000 <= x <= 2_000_000,
                -2_000_000 <= y <= 2_000_000,
                -2_000_000 <= z <= 2_000_000,
                0 <= k <= 3 * distance + 2,
                -1 <= lo <= k,
                fi <= frontier@.len(),
                spec_expand_inv3(x, y, z, distance, lo, k, bits_of(visited), ring@),
                forall|i: int|
                    0 <= i < frontier@.len() ==> in_box3(
                        x,
                        y,
                        z,
                        distance,
                        (#[trigger] frontier@[i]).0,
                        frontier@[i].1,
                        frontier@[i].2,
                    ) && md3(x, y, z, frontier@[i].0, frontier@[i].1, frontier@[i].2) <= k,
                forall|a: i32, b: i32, c: i32|
                    #![trigger in_box3(x, y, z, distance, a, b, c)]
                    in_box3(x, y, z, distance, a, b, c) && md3(x, y, z, a, b, c) == k + 1 && (
                    exists|j: int|
                        0 <= j < fi && neighbor6(#[trigger] frontier@[j], (a, b, c))) ==> bits_of(
                        visited,
                    )[cell_index3(x, y, z, distance, a, b, c)],
            decreases frontier@.len() - fi,
        {
            let (pa, pb, pc) = frontier[fi];
            let ghost bits0 = bits_of(visited);
            expand_cell3(
                &mut visited,
                &mut ring,
                x,
                y,
                z,
                distance,
                Ghost(lo),
                Ghost(k),
                pa,
                pb,
                pc,
                pa + 1,
                pb,
                pc,
            );
            let ghost bits1 = bits_of(visited);
            expand_cell3(
                &mut visited,
                &mut ring,
                x,
                y,
                z,
                distance,
                Ghost(lo),
                Ghost(k),
                pa,
                pb,
                pc,
                pa - 1,
                pb,
                pc,
            );
            let ghost bits2 = bits_of(visited);
            expand_cell3(
                &mut visited,
                &mut ring,
                x,
                y,
                z,
                distance,
                Ghost(lo),
                Ghost(k),
                pa,
                pb,
                pc,
                pa,
                pb + 1,
                pc,
            );
            let ghost bits3 = bits_of(visited);
            expand_cell3(
                &mut visited,
                &mut ring,
                x,
                y,
                z,
                distance,
                Ghost(lo),
                Ghost(k),
                pa,
                pb,
                pc,
                pa,
                pb - 1,
                pc,
            );
            let ghost bits4 = bits_of(visited);
            expand_cell3(
                &mut visited,
                &mut ring,
                x,
                y,
                z,
                distance,
                Ghost(lo),
                Ghost(k),
                pa,
                pb,
                pc,
                pa,
                pb,
                pc + 1,
            );
            let ghost bits5 = bits_of(visited);
            expand_cell3(
                &mut visited,
                &mut ring,
                x,
                y,
                z,
                distance,
                Ghost(lo),
                Ghost(k),
                pa,
                pb,
                pc,
                pa,
                pb,
                pc - 1,
            );
            proof {
                assert forall|a: i32, b: i32, c: i32|
                    in_box3(x, y, z, distance, a, b, c) && md3(x, y, z, a, b, c) == k + 1 && (
                exists|j: int|
                    0 <= j < fi + 1 && neighbor6(#[trigger] frontier@[j], (a, b, c))) implies
                    bits_of(visited)[cell_index3(x, y, z, distance, a, b, c)] by {
                    lemma_cell_index3_bounds(x, y, z, distance, a, b, c);
                    let j = choose|j: int|
                        0 <= j < fi + 1 && neighbor6(#[trigger] frontier@[j], (a, b, c));
                    if j < fi {
                        assert(bits0[cell_index3(x, y, z, distance, a, b, c)]);
                    } else {
                        assert(frontier@[j] == (pa, pb, pc));
                        if a == pa + 1 && b == pb && c == pc {
                            assert(bits1[cell_index3(x, y, z, distance, a, b, c)]);
                        } else if a == pa - 1 && b == pb && c == pc {
                            assert(bits2[cell_index3(x, y, z, distance, a, b, c)]);
                        } else if a == pa && b == pb + 1 && c == pc {
                            assert(bits3[cell_index3(x, y, z, distance, a, b, c)]);
                        } else if a == pa && b == pb - 1 && c == pc {
                            assert(bits4[cell_index3(x, y, z, distance, a, b, c)]);
                        } else if a == pa && b == pb && c == pc + 1 {
                            assert(bits5[cell_index3(x, y, z, distance, a, b, c)]);
                        } else {
                            assert(a == pa && b == pb && c == pc - 1);
                        }
                    }
                }
            }
            fi = fi + 1;
        }
        proof {
            assert forall|a: i32, b: i32, c: i32|
                in_box3(x, y, z, distance, a, b, c) && md3(x, y, z, a, b, c) == k + 1 implies
                bits_of(visited)[cell_index3(x, y, z, distance, a, b, c)] by {
                lemma_cell_index3_bounds(x, y, z, distance, a, b, c);
                lemma_md3_step_down(x, y, z, distance, a, b, c);
                let p = choose|p: (i32, i32, i32)|
                    #![trigger neighbor6(p, (a, b, c))]
                    in_box3(x, y, z, distance, p.0, p.1, p.2) && md3(x, y, z, p.0, p.1, p.2) == k
                        && neighbor6(p, (a, b, c));
                assert(frontier@.contains(p));
                let j = choose|j: int| 0 <= j < frontier@.len() && frontier@[j] == p;
                assert(neighbor6(frontier@[j], (a, b, c)));
            }
            assert forall|a: i32, b: i32, c: i32|
                in_box3(x, y, z, distance, a, b, c) implies (bits_of(visited)[cell_index3(
                x,
                y,
                z,
                distance,
                a,
                b,
                c,
            )] == (md3(x, y, z, a, b, c) <= k + 1)) by {
                lemma_cell_index3_bounds(x, y, z, distance, a, b, c);
            }
        }
        round = round + 1;
        let matches = collect_matches3(m, &ring);
        if matches.len() > 0 {
            proof {
                if lo >= 0 {
                    assert forall|a: i32, b: i32, c: i32|
                        #![trigger spec_chunk_ungenerated(*m, a, b, c)]
                        in_box3(x, y, z, distance, a, b, c) && md3(x, y, z, a, b, c) <= 1
                            && spec_chunk_ungenerated(*m, a, b, c) implies false by {
                        assert(md3(x, y, z, a, b, c) <= lo);
                    }
                } else {
                    assert(lo == -1 && round == 1);
                    assert forall|a: i32, b: i32, c: i32|
                        #![trigger spec_chunk_ungenerated(*m, a, b, c)]
                        in_box3(x, y, z, distance, a, b, c) && md3(x, y, z, a, b, c) <= 1
                            && spec_chunk_ungenerated(*m, a, b, c) implies matches@.contains(
                        (a, b, c),
                    ) by {
                        assert(ring@.contains((a, b, c)));
                        let i = choose|i: int| 0 <= i < ring@.len() && ring@[i] == (a, b, c);
                        assert(spec_chunk_ungenerated(
                            *m,
                            (ring@[i]).0,
                            ring@[i].1,
                            ring@[i].2,
                        ));
                        assert(matches@.contains(ring@[i]));
                    }
                    assert forall|i: int|
                        0 <= i < matches@.len() implies md3(
                        x,
                        y,
                        z,
                        (#[trigger] matches@[i]).0,
                        matches@[i].1,
                        matches@[i].2,
                    ) <= 1 by {
                        let c = matches@[i];
                        assert(ring@.contains(c));
                        let j = choose|j: int| 0 <= j < ring@.len() && ring@[j] == c;
                    }
                }
                assert forall|i: int|
                    0 <= i < matches@.len() implies in_box3(
                    x,
                    y,
                    z,
                    distance,
                    (#[trigger] matches@[i]).0,
                    matches@[i].1,
                    matches@[i].2,
                ) by {
                    let c = matches@[i];
                    assert(ring@.contains(c));
                    let j = choose|j: int| 0 <= j < ring@.len() && ring@[j] == c;
                }
            }
            return matches;
        }
        proof {
            assert forall|a: i32, b: i32, c: i32|
                #![trigger spec_chunk_ungenerated(*m, a, b, c)]
                in_box3(x, y, z, distance, a, b, c) && md3(x, y, z, a, b, c) <= round as int
                    implies !spec_chunk_ungenerated(*m, a, b, c) by {
                if md3(x, y, z, a, b, c) > lo {
                    assert(ring@.contains((a, b, c)));
                    let i = choose|i: int| 0 <= i < ring@.len() && ring@[i] == (a, b, c);
                    if spec_chunk_ungenerated(*m, a, b, c) {
                        assert(matches@.contains(ring@[i]));
                        assert(false);
                    }
                }
            }
        }
        let ghost lo_prev = lo;
        proof {
            lo = round as int;
        }
        let ghost ring_pre = ring@;
        frontier = copy_cells3(&ring);
        ring.clear();
        proof {
            assert(frontier@ == ring_pre);
            assert forall|a: i32, b: i32, c: i32|
                #![trigger in_box3(x, y, z, distance, a, b, c)]
                in_box3(x, y, z, distance, a, b, c) && md3(x, y, z, a, b, c) == round implies
                frontier@.contains((a, b, c)) by {
                lemma_cell_index3_bounds(x, y, z, distance, a, b, c);
                assert(ring_pre.contains((a, b, c)));
            }
            if round > 1 {
                assert(lo_prev == k);
                assert forall|i: int| 0 <= i < frontier@.len() implies md3(
                    x,
                    y,
                    z,
                    (#[trigger] frontier@[i]).0,
                    frontier@[i].1,
                    frontier@[i].2,
                ) == round as int by {
                    assert(frontier@[i] == ring_pre[i]);
                    assert(lo_prev < md3(x, y, z, ring_pre[i].0, ring_pre[i].1, ring_pre[i].2)
                        <= k + 1);
                }
            }
        }
    }
}



/// Find the first ring of columns missing from the map, expanding at
/// least two rounds so that the viewer's immediate neighbourhood is
/// always included alongside whatever ring first qualifies.
pub fn flood_fill_unloaded_columns(chunk_manager: &ChunkManager, x: i32, z: i32, distance: i32)
    -> (r: Vec<(i32, i32)>)
    requires
        chunk_manager.wf(),
        2 <= distance <= 1024,
        -2_000_000 <= x <= 2_000_000,
        -2_000_000 <= z <= 2_000_000,
    ensures
        forall|i: int|
            0 <= i < r@.len() ==> in_box2(x, z, distance, (#[trigger] r@[i]).0, r@[i].1)
                && !chunk_manager.spec_has_column(r@[i].0, r@[i].1),
        (exists|a: i32, b: i32|
            #![trigger spec_col_pred(*chunk_manager, ColumnQuery::Unloaded, a, b)]
            in_box2(x, z, distance, a, b) && md2(x, z, a, b) <= 2 && spec_col_pred(
                *chunk_manager,
                ColumnQuery::Unloaded,
                a,
                b,
            )) ==> ((forall|a: i32, b: i32|
            #![trigger spec_col_pred(*chunk_manager, ColumnQuery::Unloaded, a, b)]
            in_box2(x, z, distance, a, b) && md2(x, z, a, b) <= 2 && spec_col_pred(
                *chunk_manager,
                ColumnQuery::Unloaded,
                a,
                b,
            ) ==> r@.contains((a, b))) && (forall|i: int|
            0 <= i < r@.len() ==> md2(x, z, (#[trigger] r@[i]).0, r@[i].1) <= 2)),
        (exists|a: i32, b: i32|
            #![trigger spec_col_pred(*chunk_manager, ColumnQuery::Unloaded, a, b)]
            in_box2(x, z, distance, a, b) && spec_col_pred(
                *chunk_manager,
                ColumnQuery::Unloaded,
                a,
                b,
            )) ==> r@.len() > 0,
        forall|i: int, j: int| 0 <= i < j < r@.len() ==> r@[i] != r@[j],
{
    ring_search_columns(chunk_manager, ColumnQuery::Unloaded, x, z, distance, 2)
}

/// Find columns still waiting for foliage: the centre alone if it is
/// itself unfoliated, otherwise the first ring that holds a loaded,
/// unfoliated column.
pub fn flood_fill_unfoliated_columns(chunk_manager: &ChunkManager, x: i32, z: i32, distance: i32)
    -> (r: Vec<(i32, i32)>)
    requires
        chunk_manager.wf(),
        0 <= distance <= 1024,
        -2_000_000 <= x <= 2_000_000,
        -2_000_000 <= z <= 2_000_000,
    ensures
        forall|i: int|
            0 <= i < r@.len() ==> in_box2(x, z, distance, (#[trigger] r@[i]).0, r@[i].1)
                && spec_col_pred(*chunk_manager, ColumnQuery::Unfoliated, r@[i].0, r@[i].1),
        spec_col_pred(*chunk_manager, ColumnQuery::Unfoliated, x, z) ==> r@ == seq![(x, z)],
        (exists|a: i32, b: i32|
            #![trigger spec_col_pred(*chunk_manager, ColumnQuery::Unfoliated, a, b)]
            in_box2(x, z, distance, a, b) && spec_col_pred(
                *chunk_manager,
                ColumnQuery::Unfoliated,
                a,
                b,
            )) ==> r@.len() > 0,
        forall|i: int, j: int| 0 <= i < j < r@.len() ==> r@[i] != r@[j],
{
    match chunk_manager.get_column(x, z) {
        Some(column) => {
            if !column.has_foliage {
                let mut r: Vec<(i32, i32)> = Vec::new();
                r.push((x, z));
                proof {
                    assert(r@ =~= seq![(x, z)]);
                    assert(in_box2(x, z, distance, x, z));
                }
                return r;
            }
        },
        None => {},
    }
    ring_search_columns(chunk_manager, ColumnQuery::Unfoliated, x, z, distance, 1)
}

/// Find chunks whose mesh work is outstanding: the centre chunk alone
/// if it is loaded and not yet generated or not yet uploaded, otherwise
/// the first ring that holds a loaded, not-yet-generated chunk.
pub fn flood_fill_chunks(chunk_manager: &ChunkManager, x: i32, y: i32, z: i32, distance: i32)
    -> (r: Vec<(i32, i32, i32)>)
    requires
        chunk_manager.wf(),
        0 <= distance <= 64,
        -2_000_000 <= x <= 2_000_000,
        -2_000_000 <= y <= 2_000_000,
        -2_000_000 <= z <= 2_000_000,
    ensures
        forall|i: int|
            0 <= i < r@.len() ==> in_box3(
                x,
                y,
                z,
                distance,
                (#[trigger] r@[i]).0,
                r@[i].1,
                r@[i].2,
            ),
        (match chunk_manager.spec_chunk_at(x, y, z) {
            Some(ch) => !ch.is_generated || !ch.is_uploaded_to_gpu,
            None => false,
        }) ==> r@ == seq![(x, y, z)],
        !(match chunk_manager.spec_chunk_at(x, y, z) {
            Some(ch) => !ch.is_generated || !ch.is_uploaded_to_gpu,
            None => false,
        }) ==> forall|i: int|
            0 <= i < r@.len() ==> spec_chunk_ungenerated(
                *chunk_manager,
                (#[trigger] r@[i]).0,
                r@[i].1,
                r@[i].2,
            ),
        (exists|a: i32, b: i32, c: i32|
            #![trigger spec_chunk_ungenerated(*chunk_manager, a, b, c)]
            in_box3(x, y, z, distance, a, b, c) && spec_chunk_ungenerated(
                *chunk_manager,
                a,
                b,
                c,
            )) ==> r@.len() > 0,
        forall|i: int, j: int| 0 <= i < j < r@.len() ==> r@[i] != r@[j],
{
    match chunk_manager.get_chunk(x, y, z) {
        Some(chunk) => {
            if !chunk.is_generated || !chunk.is_uploaded_to_gpu {
                let mut r: Vec<(i32, i32, i32)> = Vec::new();
                r.push((x, y, z));
                proof {
                    assert(r@ =~= seq![(x, y, z)]);
                    assert(in_box3(x, y, z, distance, x, y, z));
                }
                return r;
            }
        },
        None => {},
    }
    ring_search_chunks(chunk_manager, x, y, z, distance)
}


} // verus!
