//! Dynamic-programming cost matrix over an energy buffer, and recovery of the
//! minimum-cost seam from it.
//!
//! A buffer of `width * height` cells is scanned line by line along a
//! traversal axis chosen by [`Direction`]. The cost matrix is seeded on the
//! far boundary (last line) and filled walking toward the near boundary
//! (first line); the seam is then read off starting at the near boundary.

use vstd::prelude::*;
use vstd::arithmetic::div_mod::lemma_fundamental_div_mod_converse;
use vstd::arithmetic::mul::lemma_mul_inequality;

verus! {

/// Which image axis the scan walks line by line. `Row` removes one cell per
/// row (a vertical seam, shrinking the width); `Column` removes one cell per
/// column (a horizontal seam, shrinking the height).
#[derive(Clone, Copy, Debug)]
pub enum Direction {
    Row,
    Column,
}

/// Number of lines along the traversal axis.
pub open spec fn outer_of(width: int, height: int, dir: Direction) -> int {
    match dir {
        Direction::Row => height,
        Direction::Column => width,
    }
}

/// Number of cells on each traversal line (the secondary dimension).
pub open spec fn inner_of(width: int, height: int, dir: Direction) -> int {
    match dir {
        Direction::Row => width,
        Direction::Column => height,
    }
}

/// Flat, row-major buffer index of the cell on traversal line `l` at
/// secondary position `s`.
pub open spec fn cell_at(width: int, dir: Direction, l: int, s: int) -> int {
    match dir {
        Direction::Row => l * width + s,
        Direction::Column => s * width + l,
    }
}

/// Traversal line of the cell at flat index `idx`.
pub open spec fn line_of(width: int, dir: Direction, idx: int) -> int {
    match dir {
        Direction::Row => idx / width,
        Direction::Column => idx % width,
    }
}

/// Secondary position of the cell at flat index `idx`.
pub open spec fn sec_of(width: int, dir: Direction, idx: int) -> int {
    match dir {
        Direction::Row => idx % width,
        Direction::Column => idx / width,
    }
}

/// A cell's flat index lies in the buffer, and `line_of`/`sec_of` recover its
/// coordinates; hence `cell_at` is injective on in-range coordinates.
pub proof fn lemma_cell_at(width: int, height: int, dir: Direction, l: int, s: int)
    requires
        1 <= width,
        1 <= height,
        0 <= l < outer_of(width, height, dir),
        0 <= s < inner_of(width, height, dir),
    ensures
        0 <= cell_at(width, dir, l, s) < width * height,
        line_of(width, dir, cell_at(width, dir, l, s)) == l,
        sec_of(width, dir, cell_at(width, dir, l, s)) == s,
{
    match dir {
        Direction::Row => {
            lemma_fundamental_div_mod_converse(l * width + s, width, l, s);
            lemma_mul_inequality(l + 1, height, width);
            assert((l + 1) * width == l * width + width) by (nonlinear_arith);
        },
        Direction::Column => {
            lemma_fundamental_div_mod_converse(s * width + l, width, s, l);
            lemma_mul_inequality(s + 1, height, width);
            assert((s + 1) * width == s * width + width) by (nonlinear_arith);
            assert(height * width == width * height) by (nonlinear_arith);
        },
    }
}

/// Distinct in-range coordinates have distinct flat indices.
pub proof fn lemma_cell_at_ne(
    width: int,
    height: int,
    dir: Direction,
    l1: int,
    s1: int,
    l2: int,
    s2: int,
)
    requires
        1 <= width,
        1 <= height,
        0 <= l1 < outer_of(width, height, dir),
        0 <= s1 < inner_of(width, height, dir),
        0 <= l2 < outer_of(width, height, dir),
        0 <= s2 < inner_of(width, height, dir),
        l1 != l2 || s1 != s2,
    ensures
        cell_at(width, dir, l1, s1) != cell_at(width, dir, l2, s2),
{
    lemma_cell_at(width, height, dir, l1, s1);
    lemma_cell_at(width, height, dir, l2, s2);
}

/// Layout of one scan: how many lines there are (`outer`), how many cells
/// each line holds (`inner`), and how the flat index moves one line ahead
/// (`stride`) or one cell along a line (`offset`).
pub(crate) struct MapState {
    pub outer: usize,
    pub inner: usize,
    pub stride: usize,
    pub offset: usize,
}

impl MapState {
    pub(crate) fn from_dir(width: usize, height: usize, dir: Direction) -> (r: Self)
        ensures
            r.outer == outer_of(width as int, height as int, dir),
            r.inner == inner_of(width as int, height as int, dir),
            r.stride == (match dir {
                Direction::Row => width,
                Direction::Column => 1usize,
            }),
            r.offset == (match dir {
                Direction::Row => 1usize,
                Direction::Column => width,
            }),
    {
        let (outer, inner, offset, stride): (usize, usize, usize, usize) = match dir {
            Direction::Column => (width, height, width, 1),
            Direction::Row => (height, width, 1, width),
        };
        Self { outer, inner, stride, offset }
    }
}

/// Flat index of the cell on line `l` at secondary position `s`.
pub(crate) fn cell_index(width: usize, height: usize, dir: Direction, l: usize, s: usize) -> (idx:
    usize)
    requires
        1 <= width,
        1 <= height,
        width * height <= usize::MAX,
        l < outer_of(width as int, height as int, dir),
        s < inner_of(width as int, height as int, dir),
    ensures
        idx == cell_at(width as int, dir, l as int, s as int),
        idx < width * height,
        line_of(width as int, dir, idx as int) == l,
        sec_of(width as int, dir, idx as int) == s,
{
    proof {
        lemma_cell_at(width as int, height as int, dir, l as int, s as int);
    }
    match dir {
        Direction::Row => l * width + s,
        Direction::Column => s * width + l,
    }
}

/// The smaller of two values.
pub open spec fn min2_s(a: int, b: int) -> int {
    if a < b {
        a
    } else {
        b
    }
}

/// The smallest of three values.
pub open spec fn min3_s(a: int, b: int, c: int) -> int {
    min2_s(a, min2_s(b, c))
}

#[inline]
fn min2(v1: u64, v2: u64) -> (r: u64)
    ensures
        r == min2_s(v1 as int, v2 as int),
{
    if v1 < v2 {
        v1
    } else {
        v2
    }
}

#[inline]
fn min3(v1: u64, v2: u64, v3: u64) -> (r: u64)
    ensures
        r == min3_s(v1 as int, v2 as int, v3 as int),
{
    min2(v1, min2(v2, v3))
}

/// The smallest already-computed cost among the up-to-three candidates for
/// the cell at secondary position `s` on line `l`: same position, one to the
/// left, one to the right, restricted to positions that exist on the line.
pub open spec fn nbr_min(cost: Seq<u64>, width: int, dir: Direction, inner: int, l: int, s: int) -> int {
    let mid = cost[cell_at(width, dir, l, s)] as int;
    let lo = if s > 0 {
        cost[cell_at(width, dir, l, s - 1)] as int
    } else {
        mid
    };
    let hi = if s + 1 < inner {
        cost[cell_at(width, dir, l, s + 1)] as int
    } else {
        mid
    };
    min3_s(lo, mid, hi)
}

/// The cost cell on line `l` at secondary position `s` is correct: on the far
/// boundary (the last line) it equals the energy verbatim; elsewhere it is
/// the cell's energy plus the smallest cost among its up-to-three neighbors
/// on the adjacent line closer to the far boundary. The final conjunct bounds
/// how fast costs can grow, which rules out overflow.
pub open spec fn cost_cell_ok(
    energy: Seq<u32>,
    cost: Seq<u64>,
    width: int,
    height: int,
    dir: Direction,
    l: int,
    s: int,
) -> bool {
    let outer = outer_of(width, height, dir);
    let inner = inner_of(width, height, dir);
    let c = cost[cell_at(width, dir, l, s)] as int;
    &&& (l == outer - 1 ==> c == energy[cell_at(width, dir, l, s)] as int)
    &&& (l < outer - 1 ==> c == energy[cell_at(width, dir, l, s)] as int + nbr_min(
        cost,
        width,
        dir,
        inner,
        l + 1,
        s,
    ))
    &&& c <= (outer - l) * 0xFFFF_FFFF
}

/// Every cost cell on lines `lo..outer` is correct.
pub open spec fn cost_lines_ok(
    energy: Seq<u32>,
    cost: Seq<u64>,
    width: int,
    height: int,
    dir: Direction,
    lo: int,
) -> bool {
    forall|l: int, s: int|
        #![trigger cost_cell_ok(energy, cost, width, height, dir, l, s)]
        lo <= l < outer_of(width, height, dir) && 0 <= s < inner_of(width, height, dir)
            ==> cost_cell_ok(energy, cost, width, height, dir, l, s)
}

/// The first `send` cost cells of line `l` are correct.
pub open spec fn cost_line_prefix_ok(
    energy: Seq<u32>,
    cost: Seq<u64>,
    width: int,
    height: int,
    dir: Direction,
    l: int,
    send: int,
) -> bool {
    forall|s: int|
        #![trigger cost_cell_ok(energy, cost, width, height, dir, l, s)]
        0 <= s < send ==> cost_cell_ok(energy, cost, width, height, dir, l, s)
}

/// Updating a cell on a line other than `l` leaves the neighbor minimum of
/// line `l` unchanged.
proof fn lemma_nbr_min_unchanged(
    a: Seq<u64>,
    b: Seq<u64>,
    width: int,
    height: int,
    dir: Direction,
    l: int,
    s: int,
    wl: int,
    ws: int,
    v: u64,
)
    requires
        1 <= width,
        1 <= height,
        a.len() == width * height,
        0 <= l < outer_of(width, height, dir),
        0 <= s < inner_of(width, height, dir),
        0 <= wl < outer_of(width, height, dir),
        0 <= ws < inner_of(width, height, dir),
        wl != l,
        b == a.update(cell_at(width, dir, wl, ws), v),
    ensures
        nbr_min(b, width, dir, inner_of(width, height, dir), l, s) == nbr_min(
            a,
            width,
            dir,
            inner_of(width, height, dir),
            l,
            s,
        ),
{
    lemma_cell_at(width, height, dir, wl, ws);
    lemma_cell_at(width, height, dir, l, s);
    lemma_cell_at_ne(width, height, dir, l, s, wl, ws);
    if s > 0 {
        lemma_cell_at(width, height, dir, l, s - 1);
        lemma_cell_at_ne(width, height, dir, l, s - 1, wl, ws);
    }
    if s + 1 < inner_of(width, height, dir) {
        lemma_cell_at(width, height, dir, l, s + 1);
        lemma_cell_at_ne(width, height, dir, l, s + 1, wl, ws);
    }
}

/// Updating a cell on a line before `lo` preserves correctness of lines
/// `lo..outer`.
proof fn lemma_update_preserves_lines(
    energy: Seq<u32>,
    a: Seq<u64>,
    b: Seq<u64>,
    width: int,
    height: int,
    dir: Direction,
    lo: int,
    wl: int,
    ws: int,
    v: u64,
)
    requires
        1 <= width,
        1 <= height,
        a.len() == width * height,
        0 <= wl < outer_of(width, height, dir),
        0 <= ws < inner_of(width, height, dir),
        wl < lo <= outer_of(width, height, dir),
        b == a.update(cell_at(width, dir, wl, ws), v),
        cost_lines_ok(energy, a, width, height, dir, lo),
    ensures
        cost_lines_ok(energy, b, width, height, dir, lo),
{
    let outer = outer_of(width, height, dir);
    let inner = inner_of(width, height, dir);
    lemma_cell_at(width, height, dir, wl, ws);
    assert forall|l2: int, s2: int|
        lo <= l2 < outer && 0 <= s2 < inner implies #[trigger] cost_cell_ok(
        energy,
        b,
        width,
        height,
        dir,
        l2,
        s2,
    ) by {
        assert(cost_cell_ok(energy, a, width, height, dir, l2, s2));
        lemma_cell_at(width, height, dir, l2, s2);
        lemma_cell_at_ne(width, height, dir, l2, s2, wl, ws);
        if l2 < outer - 1 {
            lemma_nbr_min_unchanged(a, b, width, height, dir, l2 + 1, s2, wl, ws, v);
        }
    }
}

/// Builds the dynamic-programming cost matrix for one scan of the energy
/// buffer: the far-boundary line (the last traversal line) is copied from the
/// energy verbatim, and every other cell holds its own energy plus the
/// smallest cost among its up-to-three neighbors on the adjacent line closer
/// to the far boundary.
#[verifier::loop_isolation(false)]
pub fn build_cost_matrix(energy: &Vec<u32>, width: usize, height: usize, dir: Direction) -> (res:
    Vec<u64>)
    requires
        1 <= width <= 0xFFFF_FFFF,
        1 <= height <= 0xFFFF_FFFF,
        energy.len() == width * height,
        2 <= inner_of(width as int, height as int, dir),
    ensures
        res.len() == energy.len(),
        cost_lines_ok(energy@, res@, width as int, height as int, dir, 0),
{
    let ghost gw: int = width as int;
    let ghost gh: int = height as int;
    let ghost outer: int = outer_of(gw, gh, dir);
    let ghost inner: int = inner_of(gw, gh, dir);
    let state = MapState::from_dir(width, height, dir);
    let n = energy.len();
    let mut res: Vec<u64> = vec![0u64; n];
    let last: usize = state.outer - 1;

    // Far boundary: cost equals energy verbatim.
    let mut s: usize = 0;
    while s < state.inner
        invariant
            s <= state.inner,
            res.len() == n,
            cost_line_prefix_ok(energy@, res@, gw, gh, dir, outer - 1, s as int),
        decreases state.inner - s,
    {
        let idx = cell_index(width, height, dir, last, s);
        let ghost res0 = res@;
        let e: u32 = energy[idx];
        res[idx] = e as u64;
        proof {
            assert forall|s2: int| 0 <= s2 < s as int + 1 implies #[trigger] cost_cell_ok(
                energy@,
                res@,
                gw,
                gh,
                dir,
                outer - 1,
                s2,
            ) by {
                lemma_cell_at(gw, gh, dir, outer - 1, s2);
                if s2 < s as int {
                    assert(cost_cell_ok(energy@, res0, gw, gh, dir, outer - 1, s2));
                    lemma_cell_at_ne(gw, gh, dir, outer - 1, s2, outer - 1, s as int);
                }
            }
        }
        s = s + 1;
    }

    let mut t: usize = 0;
    while t < state.outer - 1
        invariant
            t <= outer - 1,
            res.len() == n,
            cost_lines_ok(energy@, res@, gw, gh, dir, outer - 1 - t),
        decreases state.outer - 1 - t,
    {
        let l: usize = state.outer - 2 - t;
        let mut s: usize = 0;
        while s < state.inner
            invariant
                s <= state.inner,
                res.len() == n,
                cost_lines_ok(energy@, res@, gw, gh, dir, l as int + 1),
                cost_line_prefix_ok(energy@, res@, gw, gh, dir, l as int, s as int),
            decreases state.inner - s,
        {
            let m: u64 = if s == 0 {
                min2(
                    res[cell_index(width, height, dir, l + 1, 0)],
                    res[cell_index(width, height, dir, l + 1, 1)],
                )
            } else if s + 1 == state.inner {
                min2(
                    res[cell_index(width, height, dir, l + 1, s - 1)],
                    res[cell_index(width, height, dir, l + 1, s)],
                )
            } else {
                min3(
                    res[cell_index(width, height, dir, l + 1, s - 1)],
                    res[cell_index(width, height, dir, l + 1, s)],
                    res[cell_index(width, height, dir, l + 1, s + 1)],
                )
            };
            proof {
                assert(cost_cell_ok(energy@, res@, gw, gh, dir, l as int + 1, s as int));
                if s > 0 {
                    assert(cost_cell_ok(energy@, res@, gw, gh, dir, l as int + 1, s as int - 1));
                }
                if s as int + 1 < inner {
                    assert(cost_cell_ok(energy@, res@, gw, gh, dir, l as int + 1, s as int + 1));
                }
                assert(m as int == nbr_min(res@, gw, dir, inner, l as int + 1, s as int));
                lemma_mul_inequality(outer - l, 0xFFFF_FFFF, 0xFFFF_FFFF);
            }
            let idx = cell_index(width, height, dir, l, s);
            let ghost res0 = res@;
            let e: u32 = energy[idx];
            let c: u64 = e as u64 + m;
            res[idx] = c;
            proof {
                lemma_update_preserves_lines(
                    energy@,
                    res0,
                    res@,
                    gw,
                    gh,
                    dir,
                    l as int + 1,
                    l as int,
                    s as int,
                    c,
                );
                assert forall|s2: int| 0 <= s2 < s as int + 1 implies #[trigger] cost_cell_ok(
                    energy@,
                    res@,
                    gw,
                    gh,
                    dir,
                    l as int,
                    s2,
                ) by {
                    lemma_cell_at(gw, gh, dir, l as int, s2);
                    if s2 < s as int {
                        assert(cost_cell_ok(energy@, res0, gw, gh, dir, l as int, s2));
                        lemma_cell_at_ne(gw, gh, dir, l as int, s2, l as int, s as int);
                        lemma_nbr_min_unchanged(
                            res0,
                            res@,
                            gw,
                            gh,
                            dir,
                            l as int + 1,
                            s2,
                            l as int,
                            s as int,
                            c,
                        );
                    } else {
                        lemma_nbr_min_unchanged(
                            res0,
                            res@,
                            gw,
                            gh,
                            dir,
                            l as int + 1,
                            s2,
                            l as int,
                            s as int,
                            c,
                        );
                    }
                }
            }
            s = s + 1;
        }
        proof {
            assert forall|l2: int, s2: int|
                l as int <= l2 < outer && 0 <= s2 < inner implies #[trigger] cost_cell_ok(
                energy@,
                res@,
                gw,
                gh,
                dir,
                l2,
                s2,
            ) by {
                if l2 > l as int {
                    assert(cost_lines_ok(energy@, res@, gw, gh, dir, l as int + 1));
                }
            }
        }
        t = t + 1;
    }
    res
}

/// A well-formed seam: one flat cell index per traversal line, the index on
/// line `i` lying on line `i`, and consecutive secondary positions at most
/// one apart (1-connectivity).
pub open spec fn seam_wf(res: Seq<usize>, width: int, height: int, dir: Direction) -> bool {
    &&& res.len() == outer_of(width, height, dir)
    &&& forall|i: int|
        #![trigger res[i]]
        0 <= i < res.len() ==> {
            &&& res[i] < width * height
            &&& line_of(width, dir, res[i] as int) == i
            &&& 0 <= sec_of(width, dir, res[i] as int) < inner_of(width, height, dir)
        }
    &&& forall|i: int|
        #![trigger res[i]]
        1 <= i < res.len() ==> -1 <= sec_of(width, dir, res[i] as int) - sec_of(
            width,
            dir,
            res[i - 1] as int,
        ) <= 1
}

/// The secondary position chosen when stepping onto line `l` from position
/// `s` on the previous line: of the candidates at the same position, one to
/// the left, and one to the right (enumerated in that order, restricted to
/// positions that exist), the first with the strictly smallest cost wins.
pub open spec fn step_sec(cost: Seq<u64>, width: int, dir: Direction, inner: int, l: int, s: int) -> int {
    let mid = cost[cell_at(width, dir, l, s)];
    let bs = if s > 0 && cost[cell_at(width, dir, l, s - 1)] < mid {
        s - 1
    } else {
        s
    };
    let bv = if s > 0 && cost[cell_at(width, dir, l, s - 1)] < mid {
        cost[cell_at(width, dir, l, s - 1)]
    } else {
        mid
    };
    if s + 1 < inner && cost[cell_at(width, dir, l, s + 1)] < bv {
        s + 1
    } else {
        bs
    }
}

/// The seam `res` is exactly the one the extractor picks from `cost`: on the
/// near-boundary line the lowest secondary position attaining the minimum
/// cost, then line by line the first-minimum connected candidate.
pub open spec fn seam_choice_ok(
    cost: Seq<u64>,
    res: Seq<usize>,
    width: int,
    height: int,
    dir: Direction,
) -> bool {
    &&& ({
        let s0 = sec_of(width, dir, res[0] as int);
        &&& forall|s: int|
            #![trigger cell_at(width, dir, 0, s)]
            0 <= s < s0 ==> cost[cell_at(width, dir, 0, s)] > cost[cell_at(width, dir, 0, s0)]
        &&& forall|s: int|
            #![trigger cell_at(width, dir, 0, s)]
            0 <= s < inner_of(width, height, dir) ==> cost[cell_at(width, dir, 0, s0)] <= cost[
                cell_at(width, dir, 0, s)
            ]
    })
    &&& forall|i: int|
        #![trigger res[i]]
        1 <= i < res.len() ==> sec_of(width, dir, res[i] as int) == step_sec(
            cost,
            width,
            dir,
            inner_of(width, height, dir),
            i,
            sec_of(width, dir, res[i - 1] as int),
        )
}

/// Recovers the minimum-cost seam from a fully built cost matrix. On the
/// near-boundary line (the first traversal line) the lowest secondary
/// position attaining the minimum cost wins; each following line picks among
/// the up-to-three connected candidates under the same first-minimum rule.
#[verifier::loop_isolation(false)]
#[verifier::rlimit(60)]
pub fn find_shortest_path(cost: &Vec<u64>, width: usize, height: usize, dir: Direction) -> (res:
    Vec<usize>)
    requires
        1 <= width <= 0xFFFF_FFFF,
        1 <= height <= 0xFFFF_FFFF,
        cost.len() == width * height,
    ensures
        seam_wf(res@, width as int, height as int, dir),
        seam_choice_ok(cost@, res@, width as int, height as int, dir),
{
    let ghost gw: int = width as int;
    let ghost gh: int = height as int;
    let ghost outer: int = outer_of(gw, gh, dir);
    let ghost inner: int = inner_of(gw, gh, dir);
    let state = MapState::from_dir(width, height, dir);
    let mut res: Vec<usize> = Vec::new();

    // Scan the near-boundary line for its first minimum.
    let mut min_s: usize = 0;
    let mut cur: u64 = cost[cell_index(width, height, dir, 0, 0)];
    let mut s: usize = 1;
    while s < state.inner
        invariant
            1 <= s <= state.inner,
            min_s < s,
            cur == cost@[cell_at(gw, dir, 0, min_s as int)],
            forall|s2: int|
                #![trigger cell_at(gw, dir, 0, s2)]
                0 <= s2 < min_s ==> cost@[cell_at(gw, dir, 0, s2)] > cur,
            forall|s2: int|
                #![trigger cell_at(gw, dir, 0, s2)]
                0 <= s2 < s ==> cur <= cost@[cell_at(gw, dir, 0, s2)],
        decreases state.inner - s,
    {
        let idx = cell_index(width, height, dir, 0, s);
        let v = cost[idx];
        if cur > v {
            min_s = s;
            cur = v;
        }
        s = s + 1;
    }
    res.push(cell_index(width, height, dir, 0, min_s));

    // Walk toward the far boundary, one line at a time.
    let mut prev_s: usize = min_s;
    let mut i: usize = 1;
    while i < state.outer
        invariant
            1 <= i <= state.outer,
            res.len() == i,
            prev_s < state.inner,
            prev_s as int == sec_of(gw, dir, res@[i - 1] as int),
            sec_of(gw, dir, res@[0] as int) == min_s,
            forall|j: int|
                #![trigger res@[j]]
                0 <= j < i ==> res@[j] < gw * gh && line_of(gw, dir, res@[j] as int) == j && 0
                    <= sec_of(gw, dir, res@[j] as int) < inner,
            forall|j: int|
                #![trigger res@[j]]
                1 <= j < i ==> -1 <= sec_of(gw, dir, res@[j] as int) - sec_of(
                    gw,
                    dir,
                    res@[j - 1] as int,
                ) <= 1,
            forall|j: int|
                #![trigger res@[j]]
                1 <= j < i ==> sec_of(gw, dir, res@[j] as int) == step_sec(
                    cost@,
                    gw,
                    dir,
                    inner,
                    j,
                    sec_of(gw, dir, res@[j - 1] as int),
                ),
        decreases state.outer - i,
    {
        let mut bs: usize = prev_s;
        let mut bv: u64 = cost[cell_index(width, height, dir, i, prev_s)];
        if prev_s > 0 {
            let v = cost[cell_index(width, height, dir, i, prev_s - 1)];
            if v < bv {
                bs = prev_s - 1;
                bv = v;
            }
        }
        if prev_s + 1 < state.inner {
            let v = cost[cell_index(width, height, dir, i, prev_s + 1)];
            if v < bv {
                bs = prev_s + 1;
            }
        }
        proof {
            assert(bs as int == step_sec(cost@, gw, dir, inner, i as int, prev_s as int));
        }
        res.push(cell_index(width, height, dir, i, bs));
        prev_s = bs;
        i = i + 1;
    }
    res
}


} // verus!
