//! Seam removal from flat buffers, and the carving orchestrator.
//!
//! A seam is given as one flat cell index per traversal line (coordinates in
//! cells, not raw sample offsets); removing it deletes the
//! `channels`-wide group of samples at each seam cell and compacts the buffer
//! in place, shrinking it by `seam length * channels` samples while keeping
//! every other sample's relative order.

use vstd::prelude::*;
use vstd::arithmetic::div_mod::lemma_fundamental_div_mod_converse;
use vstd::arithmetic::mul::lemma_mul_inequality;
use crate::cost::Direction;
use crate::cost::build_cost_matrix;
use crate::cost::find_shortest_path;
use crate::cost::seam_wf;
use crate::cost::seam_choice_ok;
use crate::cost::cost_lines_ok;
use crate::cost::inner_of;
use crate::sobel::Kernel;
use crate::sobel::Sobel;
use crate::sobel::energy_post;

verus! {

/// Seam cell indices ascend strictly from line to line.
pub open spec fn seam_ascending(path: Seq<usize>) -> bool {
    forall|i: int| 0 <= i < path.len() - 1 ==> #[trigger] path[i] < path[i + 1]
}

/// Start (inclusive) of the `k`-th run of kept samples: the samples after
/// the `k`-th removed cell (for `k == 0`, the start of the buffer).
pub open spec fn keep_lo(path: Seq<usize>, nc: int, k: int) -> int {
    if k == 0 {
        0
    } else {
        (path[k - 1] + 1) * nc
    }
}

/// End (exclusive) of the `k`-th run of kept samples: the next removed cell,
/// or the end of the buffer.
pub open spec fn keep_hi(path: Seq<usize>, nc: int, k: int, len: int) -> int {
    if k < path.len() {
        path[k] * nc
    } else {
        len
    }
}

/// The `k`-th run of kept samples has moved left by `k` cells: each sample
/// keeps its value and its relative order.
pub open spec fn kept_run_ok<I>(
    pre: Seq<I>,
    post: Seq<I>,
    path: Seq<usize>,
    nc: int,
    k: int,
) -> bool {
    forall|p: int|
        #![trigger pre[p]]
        keep_lo(path, nc, k) <= p < keep_hi(path, nc, k, pre.len() as int) ==> post[p - k * nc]
            == pre[p]
}

/// In a strictly ascending seam, indices grow at least as fast as their
/// position: `path[j] >= path[i] + (j - i)`.
proof fn lemma_sorted_gap(path: Seq<usize>, i: int, j: int)
    requires
        seam_ascending(path),
        0 <= i <= j < path.len(),
    ensures
        path[j] >= path[i] + (j - i),
    decreases j - i,
{
    if i < j {
        lemma_sorted_gap(path, i, j - 1);
    }
}

/// The left-shifted target runs of kept samples are in order and
/// non-overlapping: run `k2` ends no later than run `k` begins.
proof fn lemma_run_targets(path: Seq<usize>, nc: int, k2: int, k: int, len: int)
    requires
        seam_ascending(path),
        1 <= nc,
        0 <= k2 < k <= path.len(),
    ensures
        keep_hi(path, nc, k2, len) - k2 * nc <= keep_lo(path, nc, k) - k * nc,
{
    lemma_sorted_gap(path, k2, k - 1);
    assert((path[k2] + (k - 1 - k2)) * nc == path[k2] * nc + (k - 1 - k2) * nc)
        by (nonlinear_arith);
    lemma_mul_inequality(path[k2] + (k - 1 - k2), path[k - 1] as int, nc);
    assert((path[k - 1] + 1) * nc == path[k - 1] * nc + nc) by (nonlinear_arith);
    assert((k - 1 - k2) * nc == (k - 1) * nc - k2 * nc) by (nonlinear_arith);
    assert(k * nc == (k - 1) * nc + nc) by (nonlinear_arith);
}

/// Every left-shifted target position is non-negative.
proof fn lemma_run_lo_nonneg(path: Seq<usize>, nc: int, k: int)
    requires
        seam_ascending(path),
        1 <= nc,
        0 <= k <= path.len(),
    ensures
        keep_lo(path, nc, k) - k * nc >= 0,
{
    if k > 0 {
        lemma_sorted_gap(path, 0, k - 1);
        lemma_mul_inequality(k, path[k - 1] + 1, nc);
    }
}

/// A write at or past the target area of run `k` preserves the runs already
/// moved (they all end before it).
proof fn lemma_row_write_preserves<I>(
    pre: Seq<I>,
    a: Seq<I>,
    b: Seq<I>,
    path: Seq<usize>,
    nc: int,
    k: int,
    wq: int,
    v: I,
)
    requires
        seam_ascending(path),
        1 <= nc,
        1 <= k <= path.len(),
        a.len() == pre.len(),
        keep_lo(path, nc, k) - k * nc <= wq < a.len(),
        b == a.update(wq, v),
        forall|k2: int|
            #![trigger keep_lo(path, nc, k2)]
            0 <= k2 < k ==> kept_run_ok(pre, a, path, nc, k2),
    ensures
        forall|k2: int|
            #![trigger keep_lo(path, nc, k2)]
            0 <= k2 < k ==> kept_run_ok(pre, b, path, nc, k2),
{
    assert forall|k2: int| 0 <= k2 < k implies #[trigger] kept_run_ok(pre, b, path, nc, k2) by {
        assert(kept_run_ok(pre, a, path, nc, k2));
        lemma_run_targets(path, nc, k2, k, pre.len() as int);
        lemma_run_lo_nonneg(path, nc, k2);
        assert forall|q2: int|
            #![trigger pre[q2]]
            keep_lo(path, nc, k2) <= q2 < keep_hi(path, nc, k2, pre.len() as int) implies b[q2
            - k2 * nc] == pre[q2] by {
            assert(a[q2 - k2 * nc] == pre[q2]);
            assert(q2 - k2 * nc < keep_lo(path, nc, k) - k * nc);
            assert(q2 - k2 * nc != wq);
        }
    }
}

/// Removes one cell per traversal line from a row-major buffer when the seam
/// runs across the rows (a vertical seam): a single left-compaction pass over
/// the whole buffer, copying every kept sample forward by an offset that
/// grows by `no_channels` at each removed cell.
#[verifier::loop_isolation(false)]
#[verifier::rlimit(100)]
pub fn remove_path_from_image_dir_row<I: Copy>(
    img: &mut Vec<I>,
    path: &Vec<usize>,
    no_channels: usize,
)
    requires
        1 <= no_channels,
        1 <= path.len(),
        seam_ascending(path@),
        (path[path.len() - 1] + 1) * no_channels <= old(img).len(),
    ensures
        final(img).len() == old(img).len() - path.len() * no_channels,
        forall|k: int|
            #![trigger keep_lo(path@, no_channels as int, k)]
            0 <= k <= path.len() ==> kept_run_ok(
                old(img)@,
                final(img)@,
                path@,
                no_channels as int,
                k,
            ),
{
    let ghost pre = img@;
    let old_len = img.len();
    let np = path.len();
    let nc = no_channels;
    proof {
        lemma_sorted_gap(path@, 0, np - 1);
        lemma_mul_inequality(np as int, path[np - 1] + 1, nc as int);
        assert((path[np - 1] + 1) * nc <= old_len);
        assert(kept_run_ok(pre, img@, path@, nc as int, 0));
    }
    let mut km: usize = 0;
    while km < np
        invariant
            0 <= km <= np,
            img.len() == old_len,
            forall|k2: int|
                #![trigger keep_lo(path@, nc as int, k2)]
                0 <= k2 <= km ==> kept_run_ok(pre, img@, path@, nc as int, k2),
            forall|q: int|
                #![trigger pre[q]]
                keep_hi(path@, nc as int, km as int, old_len as int) - km * nc <= q < old_len
                    ==> img@[q] == pre[q],
        decreases np - km,
    {
        let k: usize = km + 1;
        proof {
            lemma_sorted_gap(path@, km as int, np - 1);
            lemma_mul_inequality(path[km as int] + 1, path[np - 1] + 1, nc as int);
            assert((path[km as int] + 1) * nc <= old_len);
            lemma_mul_inequality(1, nc as int, path[km as int] + 1);
            if k < np {
                lemma_sorted_gap(path@, k as int, np - 1);
                lemma_mul_inequality(path[k as int] as int, path[np - 1] + 1, nc as int);
                assert(path[km as int] < path[k as int]);
                lemma_mul_inequality(path[km as int] + 1, path[k as int] as int, nc as int);
            }
            lemma_run_lo_nonneg(path@, nc as int, k as int);
            assert((path[km as int] + 1) * nc == path[km as int] * nc + nc) by (nonlinear_arith);
            assert(k * nc == km * nc + nc) by (nonlinear_arith)
                requires k == km + 1;
        }
        let lo: usize = (path[km] + 1) * nc;
        let hi: usize = if k < np {
            path[k] * nc
        } else {
            old_len
        };
        let shift: usize = k * nc;
        let mut p: usize = lo;
        proof {
            assert(lo == keep_lo(path@, nc as int, k as int));
            assert(hi == keep_hi(path@, nc as int, k as int, old_len as int));
            assert(shift <= lo);
        }
        while p < hi
            invariant
                lo <= p <= hi,
                img.len() == old_len,
                forall|k2: int|
                    #![trigger keep_lo(path@, nc as int, k2)]
                    0 <= k2 < k ==> kept_run_ok(pre, img@, path@, nc as int, k2),
                forall|q: int| #![trigger pre[q]] lo <= q < p ==> img@[q - shift] == pre[q],
                forall|q: int| #![trigger pre[q]] p - shift <= q < old_len ==> img@[q] == pre[q],
            decreases hi - p,
        {
            let v = img[p];
            let ghost img0 = img@;
            img[p - shift] = v;
            proof {
                lemma_row_write_preserves(
                    pre,
                    img0,
                    img@,
                    path@,
                    nc as int,
                    k as int,
                    p - shift,
                    v,
                );
            }
            p = p + 1;
        }
        proof {
            assert forall|k2: int|
                0 <= k2 <= k implies kept_run_ok(pre, img@, path@, nc as int, k2) by {
                if k2 == k as int {
                    assert forall|q: int|
                        #![trigger pre[q]]
                        keep_lo(path@, nc as int, k2) <= q < keep_hi(
                            path@,
                            nc as int,
                            k2,
                            old_len as int,
                        ) implies img@[q - k2 * nc] == pre[q] by {
                        assert(lo <= q < hi);
                    }
                }
            }
        }
        km = k;
    }
    proof {
        lemma_mul_inequality(np as int, path[np - 1] + 1, nc as int);
    }
    img.truncate(old_len - np * nc);
    proof {
        assert forall|k2: int|
            0 <= k2 <= np implies #[trigger] kept_run_ok(pre, img@, path@, nc as int, k2) by {
            lemma_run_lo_nonneg(path@, nc as int, k2);
            if k2 < np as int {
                lemma_run_targets(path@, nc as int, k2, np as int, old_len as int);
            }
            assert forall|q: int|
                #![trigger pre[q]]
                keep_lo(path@, nc as int, k2) <= q < keep_hi(
                    path@,
                    nc as int,
                    k2,
                    old_len as int,
                ) implies img@[q - k2 * nc] == pre[q] by {
                assert(q - k2 * nc < old_len - np * nc);
            }
        }
    }
}

/// Flat sample position of channel `ch` of the cell in row `y`, column `x`
/// of a row-major buffer with `width` cells per row and `nc` samples per
/// cell.
pub open spec fn pos_of(y: int, x: int, ch: int, width: int, nc: int) -> int {
    y * (width * nc) + x * nc + ch
}

/// Row of the sample at flat position `p`.
pub open spec fn row_of_pos(p: int, width: int, nc: int) -> int {
    p / (width * nc)
}

/// Column of the sample at flat position `p`.
pub open spec fn col_of_pos(p: int, width: int, nc: int) -> int {
    (p % (width * nc)) / nc
}

/// Channel of the sample at flat position `p`.
pub open spec fn chan_of_pos(p: int, width: int, nc: int) -> int {
    (p % (width * nc)) % nc
}

/// A sample position is inside a buffer of `hh` rows, and row, column and
/// channel are recovered from it.
proof fn lemma_pos_of(width: int, nc: int, hh: int, y: int, x: int, ch: int)
    requires
        1 <= width,
        1 <= nc,
        0 <= y < hh,
        0 <= x < width,
        0 <= ch < nc,
    ensures
        0 <= pos_of(y, x, ch, width, nc),
        pos_of(y, x, ch, width, nc) < hh * (width * nc),
        row_of_pos(pos_of(y, x, ch, width, nc), width, nc) == y,
        col_of_pos(pos_of(y, x, ch, width, nc), width, nc) == x,
        chan_of_pos(pos_of(y, x, ch, width, nc), width, nc) == ch,
{
    let m = width * nc;
    assert(nc <= m) by (nonlinear_arith)
        requires 1 <= width, 1 <= nc, m == width * nc;
    assert(x * nc + ch < m) by (nonlinear_arith)
        requires 0 <= ch < nc, 0 <= x < width, m == width * nc;
    lemma_fundamental_div_mod_converse(pos_of(y, x, ch, width, nc), m, y, x * nc + ch);
    lemma_fundamental_div_mod_converse(x * nc + ch, nc, x, ch);
    lemma_mul_inequality(y + 1, hh, m);
    assert((y + 1) * m == y * m + m) by (nonlinear_arith);
}

/// A sample position equals the position built back from its row, column and
/// channel.
proof fn lemma_pos_decomp(p: int, width: int, nc: int)
    requires
        1 <= width,
        1 <= nc,
        0 <= p,
    ensures
        p == pos_of(
            row_of_pos(p, width, nc),
            col_of_pos(p, width, nc),
            chan_of_pos(p, width, nc),
            width,
            nc,
        ),
        0 <= chan_of_pos(p, width, nc) < nc,
        0 <= col_of_pos(p, width, nc) < width,
        0 <= row_of_pos(p, width, nc),
{
    let m = width * nc;
    assert(1 <= m) by (nonlinear_arith)
        requires 1 <= width, 1 <= nc, m == width * nc;
    vstd::arithmetic::div_mod::lemma_fundamental_div_mod(p, m);
    vstd::arithmetic::div_mod::lemma_fundamental_div_mod(p % m, nc);
    let r = p / m;
    let rem = p % m;
    let c = rem / nc;
    let cc = rem % nc;
    assert(0 <= rem < m);
    assert(0 <= cc < nc);
    assert(p == r * m + c * nc + cc) by (nonlinear_arith)
        requires p == m * r + rem, rem == nc * c + cc;
    assert(c < width) by (nonlinear_arith)
        requires rem == nc * c + cc, 0 <= rem < m, m == width * nc, 1 <= nc, 0 <= cc;
    assert(0 <= c) by (nonlinear_arith)
        requires rem == nc * c + cc, 0 <= rem, 0 <= cc < nc, 1 <= nc;
    assert(pos_of(r, c, cc, width, nc) == r * m + c * nc + cc);
}

/// During column-seam removal: whether the sample at `p` has already been
/// overwritten with the value one row below it. Columns before `x` are fully
/// shifted from their seam row on; in column `x` the shift has reached row
/// `y`, channel `ch`. The last row is never written.
spec fn col_shifted(
    p: int,
    width: int,
    nc: int,
    path: Seq<usize>,
    hh: int,
    x: int,
    y: int,
    ch: int,
) -> bool {
    let c = col_of_pos(p, width, nc);
    let r = row_of_pos(p, width, nc);
    let cch = chan_of_pos(p, width, nc);
    &&& (path[c] as int) / width <= r < hh - 1
    &&& (c < x || (c == x && (r < y || (r == y && cch < ch))))
}

/// All of `cur` in terms of `pre` during column-seam removal: every sample
/// already overwritten holds the value one row below it, every other sample
/// is untouched.
spec fn col_inv<I>(
    pre: Seq<I>,
    cur: Seq<I>,
    path: Seq<usize>,
    gw: int,
    gnc: int,
    hh: int,
    x: int,
    y: int,
    ch: int,
) -> bool {
    forall|p: int|
        #![trigger pre[p]]
        #![trigger cur[p]]
        0 <= p < pre.len() ==> cur[p] == (if col_shifted(p, gw, gnc, path, hh, x, y, ch) {
            pre[p + gw * gnc]
        } else {
            pre[p]
        })
}

/// One sample of a buffer described by `col_inv`.
proof fn lemma_col_inv_at<I>(
    pre: Seq<I>,
    cur: Seq<I>,
    path: Seq<usize>,
    gw: int,
    gnc: int,
    hh: int,
    x: int,
    y: int,
    ch: int,
    q: int,
)
    requires
        col_inv(pre, cur, path, gw, gnc, hh, x, y, ch),
        0 <= q < pre.len(),
    ensures
        cur[q] == (if col_shifted(q, gw, gnc, path, hh, x, y, ch) {
            pre[q + gw * gnc]
        } else {
            pre[q]
        }),
{
}

/// Nothing is shifted yet at the start of a column's sweep.
proof fn lemma_col_start<I>(
    pre: Seq<I>,
    cur: Seq<I>,
    path: Seq<usize>,
    gw: int,
    gnc: int,
    hh: int,
    x: int,
)
    requires
        1 <= gw,
        1 <= gnc,
        col_inv(pre, cur, path, gw, gnc, hh, x, 0, 0),
    ensures
        col_inv(pre, cur, path, gw, gnc, hh, x, path[x] as int / gw, 0),
{
    let gy = path[x] as int / gw;
    assert forall|p: int|
        #![trigger pre[p]]
        0 <= p < pre.len() implies cur[p] == (if col_shifted(p, gw, gnc, path, hh, x, gy, 0) {
        pre[p + gw * gnc]
    } else {
        pre[p]
    }) by {
        lemma_pos_decomp(p, gw, gnc);
        lemma_col_inv_at(pre, cur, path, gw, gnc, hh, x, 0, 0, p);
    }
}

/// Finishing the channels of one cell is the same as starting the next row.
proof fn lemma_col_chan_wrap<I>(
    pre: Seq<I>,
    cur: Seq<I>,
    path: Seq<usize>,
    gw: int,
    gnc: int,
    hh: int,
    x: int,
    y: int,
)
    requires
        1 <= gw,
        1 <= gnc,
        col_inv(pre, cur, path, gw, gnc, hh, x, y, gnc),
    ensures
        col_inv(pre, cur, path, gw, gnc, hh, x, y + 1, 0),
{
    assert forall|p: int|
        #![trigger pre[p]]
        0 <= p < pre.len() implies cur[p] == (if col_shifted(p, gw, gnc, path, hh, x, y + 1, 0) {
        pre[p + gw * gnc]
    } else {
        pre[p]
    }) by {
        lemma_pos_decomp(p, gw, gnc);
        lemma_col_inv_at(pre, cur, path, gw, gnc, hh, x, y, gnc, p);
    }
}

/// A column swept to the last row is a finished column.
proof fn lemma_col_finish<I>(
    pre: Seq<I>,
    cur: Seq<I>,
    path: Seq<usize>,
    gw: int,
    gnc: int,
    hh: int,
    x: int,
)
    requires
        1 <= gw,
        1 <= gnc,
        col_inv(pre, cur, path, gw, gnc, hh, x, hh - 1, 0),
    ensures
        col_inv(pre, cur, path, gw, gnc, hh, x + 1, 0, 0),
{
    assert forall|p: int|
        #![trigger pre[p]]
        0 <= p < pre.len() implies cur[p] == (if col_shifted(p, gw, gnc, path, hh, x + 1, 0, 0) {
        pre[p + gw * gnc]
    } else {
        pre[p]
    }) by {
        lemma_pos_decomp(p, gw, gnc);
        lemma_col_inv_at(pre, cur, path, gw, gnc, hh, x, hh - 1, 0, p);
    }
}

/// Writing the value from one row below into the sample at row `y`, column
/// `x`, channel `ch` advances the sweep by one channel.
proof fn lemma_col_write<I>(
    pre: Seq<I>,
    a: Seq<I>,
    b: Seq<I>,
    path: Seq<usize>,
    gw: int,
    gnc: int,
    hh: int,
    x: int,
    y: int,
    ch: int,
    v: I,
)
    requires
        1 <= gw,
        1 <= gnc,
        pre.len() == hh * (gw * gnc),
        a.len() == pre.len(),
        0 <= x < gw,
        0 <= ch < gnc,
        (path[x] as int) / gw <= y < hh - 1,
        col_inv(pre, a, path, gw, gnc, hh, x, y, ch),
        b == a.update(pos_of(y, x, ch, gw, gnc), v),
        v == pre[pos_of(y + 1, x, ch, gw, gnc)],
    ensures
        col_inv(pre, b, path, gw, gnc, hh, x, y, ch + 1),
{
    let wp = pos_of(y, x, ch, gw, gnc);
    lemma_pos_of(gw, gnc, hh, y, x, ch);
    lemma_pos_of(gw, gnc, hh, y + 1, x, ch);
    assert((y + 1) * (gw * gnc) == y * (gw * gnc) + gw * gnc) by (nonlinear_arith);
    assert(pos_of(y + 1, x, ch, gw, gnc) == wp + gw * gnc);
    assert forall|p: int|
        #![trigger pre[p]]
        0 <= p < pre.len() implies b[p] == (if col_shifted(p, gw, gnc, path, hh, x, y, ch + 1) {
        pre[p + gw * gnc]
    } else {
        pre[p]
    }) by {
        lemma_pos_decomp(p, gw, gnc);
        lemma_col_inv_at(pre, a, path, gw, gnc, hh, x, y, ch, p);
        if p == wp {
            assert(b[p] == v);
            assert(col_shifted(p, gw, gnc, path, hh, x, y, ch + 1));
        } else {
            assert(b[p] == a[p]);
            if col_of_pos(p, gw, gnc) == x && row_of_pos(p, gw, gnc) == y && chan_of_pos(
                p,
                gw,
                gnc,
            ) == ch {
                assert(p == wp);
            }
        }
    }
}

/// Removes one cell per traversal line when the seam runs along the rows (a
/// horizontal seam): for each seam cell, every later sample in its column
/// moves one row up, each seam point sweeping its own column independently;
/// the freed last row is cut off.
#[verifier::loop_isolation(false)]
#[verifier::rlimit(100)]
pub fn remove_path_from_image_dir_col<I: Copy>(
    img: &mut Vec<I>,
    path: &Vec<usize>,
    no_channels: usize,
    width: usize,
)
    requires
        1 <= no_channels,
        1 <= width,
        path.len() == width,
        width * no_channels <= old(img).len(),
        old(img).len() as int % (width as int * no_channels as int) == 0,
        forall|i: int|
            #![trigger path[i]]
            0 <= i < width ==> (path[i] as int) % (width as int) == i && (path[i] as int) / (
            width as int) < old(img).len() as int / (width as int * no_channels as int),
    ensures
        final(img).len() == old(img).len() - width * no_channels,
        forall|y: int, x: int, ch: int|
            #![trigger pos_of(y, x, ch, width as int, no_channels as int)]
            0 <= y < old(img).len() as int / (width as int * no_channels as int) - 1 && 0 <= x
                < width && 0 <= ch < no_channels ==> final(img)@[pos_of(
                y,
                x,
                ch,
                width as int,
                no_channels as int,
            )] == (if y < (path[x] as int) / (width as int) {
                old(img)@[pos_of(y, x, ch, width as int, no_channels as int)]
            } else {
                old(img)@[pos_of(y + 1, x, ch, width as int, no_channels as int)]
            }),
{
    let ghost pre = img@;
    let old_len = img.len();
    let nc = no_channels;
    let wnc: usize = width * nc;
    let ghost gw: int = width as int;
    let ghost gnc: int = nc as int;
    let ghost m: int = gw * gnc;
    let ghost hh: int = old_len as int / m;
    proof {
        assert(1 <= m) by (nonlinear_arith)
            requires 1 <= gw, 1 <= gnc, m == gw * gnc;
        vstd::arithmetic::div_mod::lemma_fundamental_div_mod(old_len as int, m);
        assert(old_len == hh * m);
        assert(hh >= 1) by (nonlinear_arith)
            requires old_len == hh * m, m <= old_len, 1 <= m;
        assert forall|p: int|
            #![trigger pre[p]]
            0 <= p < pre.len() implies img@[p] == (if col_shifted(
            p,
            gw,
            gnc,
            path@,
            hh,
            0,
            0,
            0,
        ) {
            pre[p + gw * gnc]
        } else {
            pre[p]
        }) by {
            lemma_pos_decomp(p, gw, gnc);
        }
        assert(col_inv(pre, img@, path@, gw, gnc, hh, 0, 0, 0));
    }
    let mut x: usize = 0;
    while x < width
        invariant
            x <= width,
            img.len() == old_len,
            col_inv(pre, img@, path@, gw, gnc, hh, x as int, 0, 0),
        decreases width - x,
    {
        let ghost gy: int = path[x as int] as int / gw;
        let ghost mut ycur: int = gy;
        proof {
            vstd::arithmetic::div_mod::lemma_fundamental_div_mod(path[x as int] as int, gw);
            assert(path[x as int] == gy * gw + x);
            lemma_pos_of(gw, gnc, hh, gy, x as int, 0);
            assert((gy * gw + x) * gnc == gy * (gw * gnc) + x * gnc) by (nonlinear_arith);
            lemma_col_start(pre, img@, path@, gw, gnc, hh, x as int);
        }
        let mut idx: usize = path[x] * nc;
        while idx < old_len - wnc
            invariant
                img.len() == old_len,
                gy <= ycur <= hh - 1,
                idx == pos_of(ycur, x as int, 0, gw, gnc),
                col_inv(pre, img@, path@, gw, gnc, hh, x as int, ycur, 0),
            decreases old_len - idx,
        {
            proof {
                assert(ycur < hh - 1) by {
                    if ycur == hh - 1 {
                        assert((hh - 1) * m <= pos_of(ycur, x as int, 0, gw, gnc))
                            by (nonlinear_arith)
                            requires ycur == hh - 1, m == gw * gnc, 0 <= x as int * gnc;
                        assert((hh - 1) * m == hh * m - m) by (nonlinear_arith);
                    }
                }
            }
            let mut ch: usize = 0;
            while ch < nc
                invariant
                    ch <= nc,
                    img.len() == old_len,
                    idx == pos_of(ycur, x as int, 0, gw, gnc),
                    gy <= ycur < hh - 1,
                    col_inv(pre, img@, path@, gw, gnc, hh, x as int, ycur, ch as int),
                decreases nc - ch,
            {
                proof {
                    lemma_pos_of(gw, gnc, hh, ycur, x as int, ch as int);
                    lemma_pos_of(gw, gnc, hh, ycur + 1, x as int, ch as int);
                    assert((ycur + 1) * m == ycur * m + m) by (nonlinear_arith);
                    assert(pos_of(ycur + 1, x as int, ch as int, gw, gnc) < hh * m);
                    lemma_pos_decomp(idx + wnc + ch, gw, gnc);
                    lemma_col_inv_at(
                        pre,
                        img@,
                        path@,
                        gw,
                        gnc,
                        hh,
                        x as int,
                        ycur,
                        ch as int,
                        idx + wnc + ch,
                    );
                }
                let src = idx + wnc;
                let v = img[src + ch];
                let ghost img0 = img@;
                img[idx + ch] = v;
                proof {
                    assert(v == pre[pos_of(ycur + 1, x as int, ch as int, gw, gnc)]);
                    lemma_col_write(
                        pre,
                        img0,
                        img@,
                        path@,
                        gw,
                        gnc,
                        hh,
                        x as int,
                        ycur,
                        ch as int,
                        v,
                    );
                }
                ch = ch + 1;
            }
            proof {
                lemma_col_chan_wrap(pre, img@, path@, gw, gnc, hh, x as int, ycur);
                ycur = ycur + 1;
                lemma_pos_of(gw, gnc, hh, ycur, x as int, 0);
                assert(ycur * m == (ycur - 1) * m + m) by (nonlinear_arith);
            }
            idx = idx + wnc;
        }
        proof {
            assert(ycur == hh - 1) by {
                if ycur < hh - 1 {
                    lemma_pos_of(gw, gnc, hh - 1, ycur, x as int, 0);
                    assert((hh - 1) * m == hh * m - m) by (nonlinear_arith);
                }
            }
            lemma_col_finish(pre, img@, path@, gw, gnc, hh, x as int);
        }
        x = x + 1;
    }
    proof {
        assert((hh - 1) * m == hh * m - m) by (nonlinear_arith);
    }
    let ghost mid = img@;
    img.truncate(old_len - wnc);
    proof {
        assert(img@ == mid.subrange(0, old_len - wnc as int));
        assert(col_inv(pre, mid, path@, gw, gnc, hh, gw, 0, 0));
        assert forall|y: int, x2: int, ch: int|
            0 <= y < hh - 1 && 0 <= x2 < gw && 0 <= ch < gnc implies #[trigger] pos_of(
            y,
            x2,
            ch,
            gw,
            gnc,
        ) >= 0 && img@[pos_of(y, x2, ch, gw, gnc)] == (if y < (path[x2] as int) / gw {
            pre[pos_of(y, x2, ch, gw, gnc)]
        } else {
            pre[pos_of(y + 1, x2, ch, gw, gnc)]
        }) by {
            lemma_pos_of(gw, gnc, hh - 1, y, x2, ch);
            lemma_pos_of(gw, gnc, hh, y, x2, ch);
            lemma_pos_of(gw, gnc, hh, y + 1, x2, ch);
            let p = pos_of(y, x2, ch, gw, gnc);
            assert((y + 1) * m == y * m + m) by (nonlinear_arith);
            assert(pos_of(y + 1, x2, ch, gw, gnc) == p + m);
            lemma_col_inv_at(pre, mid, path@, gw, gnc, hh, gw, 0, 0, p);
            assert(img@[p] == mid[p]);
            if y < path[x2] as int / gw {
                assert(!col_shifted(p, gw, gnc, path@, hh, gw, 0, 0));
            } else {
                assert(col_shifted(p, gw, gnc, path@, hh, gw, 0, 0));
            }
        }
    }
}

/// The seam `path` has been removed from `pre`, giving `post`: the buffer
/// shrank by `channels` samples per traversal line, and every kept sample
/// moved exactly as the removal shape for `dir` prescribes.
pub open spec fn removed_ok<I>(
    pre: Seq<I>,
    post: Seq<I>,
    path: Seq<usize>,
    nc: int,
    width: int,
    dir: Direction,
) -> bool {
    &&& post.len() == pre.len() - path.len() * nc
    &&& match dir {
        Direction::Row => forall|k: int|
            #![trigger keep_lo(path, nc, k)]
            0 <= k <= path.len() ==> kept_run_ok(pre, post, path, nc, k),
        Direction::Column => forall|y: int, x: int, ch: int|
            #![trigger pos_of(y, x, ch, width, nc)]
            0 <= y < pre.len() as int / (width * nc) - 1 && 0 <= x < width && 0 <= ch < nc ==> post[
                pos_of(y, x, ch, width, nc)
            ] == (if y < (path[x] as int) / width {
                pre[pos_of(y, x, ch, width, nc)]
            } else {
                pre[pos_of(y + 1, x, ch, width, nc)]
            }),
    }
}

/// Removes the seam from a flat buffer, dispatching on the removal axis:
/// `Row` compacts one cell out of every traversal line in a single sweep,
/// `Column` shifts every column up across its seam cell.
pub fn remove_path_from_image<I: Copy>(
    img: &mut Vec<I>,
    path: &Vec<usize>,
    no_channels: usize,
    dir: Direction,
    width: usize,
)
    requires
        1 <= no_channels,
        match dir {
            Direction::Row => {
                &&& 1 <= path.len()
                &&& seam_ascending(path@)
                &&& (path[path.len() - 1] + 1) * no_channels <= old(img).len()
            },
            Direction::Column => {
                &&& 1 <= width
                &&& path.len() == width
                &&& width * no_channels <= old(img).len()
                &&& old(img).len() as int % (width as int * no_channels as int) == 0
                &&& forall|i: int|
                    #![trigger path[i]]
                    0 <= i < width ==> (path[i] as int) % (width as int) == i && (path[i] as int)
                        / (width as int) < old(img).len() as int / (width as int
                        * no_channels as int)
            },
        },
    ensures
        removed_ok(old(img)@, final(img)@, path@, no_channels as int, width as int, dir),
{
    match dir {
        Direction::Row => remove_path_from_image_dir_row(img, path, no_channels),
        Direction::Column => remove_path_from_image_dir_col(img, path, no_channels, width),
    }
}

/// A seam extracted with `Direction::Row` has strictly ascending flat cell
/// indices, one per row, all below `width * height`.
proof fn lemma_row_seam(path: Seq<usize>, width: int, height: int)
    requires
        1 <= width,
        1 <= height,
        seam_wf(path, width, height, Direction::Row),
    ensures
        path.len() == height,
        seam_ascending(path),
        forall|i: int| 0 <= i < path.len() ==> path[i] < width * height,
{
    assert forall|i: int| 0 <= i < path.len() - 1 implies #[trigger] path[i] < path[i + 1] by {
        assert(crate::cost::line_of(width, Direction::Row, path[i] as int) == i);
        assert(crate::cost::line_of(width, Direction::Row, path[i + 1] as int) == i + 1);
        vstd::arithmetic::div_mod::lemma_fundamental_div_mod(path[i] as int, width);
        vstd::arithmetic::div_mod::lemma_fundamental_div_mod(path[i + 1] as int, width);
        assert(0 <= (path[i] as int) % width < width);
        assert(0 <= (path[i + 1] as int) % width < width);
        assert(path[i] as int == width * i + (path[i] as int) % width);
        assert(path[i + 1] as int == width * (i + 1) + (path[i + 1] as int) % width);
        assert(width * (i + 1) == width * i + width) by (nonlinear_arith);
    }
}

/// A seam extracted with `Direction::Column` has one cell per column, in
/// column order, with its row below `height`.
proof fn lemma_col_seam(path: Seq<usize>, width: int, height: int)
    requires
        1 <= width,
        1 <= height,
        seam_wf(path, width, height, Direction::Column),
    ensures
        path.len() == width,
        forall|i: int|
            #![trigger path[i]]
            0 <= i < width ==> (path[i] as int) % width == i && (path[i] as int) / width < height,
{
}

/// A width/height pair.
#[derive(Clone, Copy, Debug)]
pub struct Dims {
    pub width: usize,
    pub height: usize,
}

impl Dims {
    pub fn new(width: usize, height: usize) -> (d: Self)
        ensures
            d.width == width,
            d.height == height,
    {
        Self { width, height }
    }
}

/// The failures the carver can report: a target size larger than the source,
/// or a pixel buffer that is neither single-channel nor 3-channel.
#[derive(Clone, Copy, Debug, PartialEq, Eq)]
pub enum CarveError {
    InvalidTargetSize,
    UnsupportedChannelLayout,
}

/// Integer luminance of one RGB pixel (Rec. 709 weights in fixed point).
pub open spec fn luma_of(r: u8, g: u8, b: u8) -> int {
    (2126 * r + 7152 * g + 722 * b) / 10000
}

/// `gray` is the single-channel intensity image of `buf`: a copy when `buf`
/// is single-channel, the per-pixel luminance when it is RGB.
pub open spec fn gray_post(buf: Seq<u8>, w: int, h: int, channels: int, gray: Seq<u8>) -> bool {
    &&& gray.len() == w * h
    &&& channels == 1 ==> forall|i: int| 0 <= i < w * h ==> #[trigger] gray[i] == buf[i]
    &&& channels == 3 ==> forall|i: int|
        0 <= i < w * h ==> #[trigger] gray[i] as int == luma_of(buf[3 * i], buf[3 * i + 1], buf[3 * i + 2])
}

/// Converts a pixel buffer to a single-channel intensity buffer by
/// fixed-point luminance weighting (single-channel input is copied).
#[verifier::loop_isolation(false)]
pub fn to_grayscale(buf: &Vec<u8>, width: usize, height: usize, channels: usize) -> (gray: Vec<u8>)
    requires
        channels == 1 || channels == 3,
        buf.len() == width * height * channels,
    ensures
        gray_post(buf@, width as int, height as int, channels as int, gray@),
{
    proof {
        lemma_mul_inequality(1, channels as int, width as int * height as int);
        assert(width as int * height as int * channels as int == (width as int * height as int)
            * channels as int);
    }
    let n: usize = width * height;
    let mut gray: Vec<u8> = Vec::new();
    if channels == 1 {
        let mut i: usize = 0;
        while i < n
            invariant
                i <= n,
                gray.len() == i,
                forall|j: int| 0 <= j < i ==> #[trigger] gray@[j] == buf@[j],
            decreases n - i,
        {
            let v = buf[i];
            gray.push(v);
            i = i + 1;
        }
    } else {
        let mut i: usize = 0;
        while i < n
            invariant
                i <= n,
                gray.len() == i,
                forall|j: int|
                    0 <= j < i ==> #[trigger] gray@[j] as int == luma_of(
                        buf@[3 * j],
                        buf@[3 * j + 1],
                        buf@[3 * j + 2],
                    ),
            decreases n - i,
        {
            proof {
                assert(3 * i + 2 < buf.len()) by (nonlinear_arith)
                    requires
                        i < n,
                        n == width * height,
                        buf.len() == width * height * 3;
            }
            let idx: usize = 3 * i;
            let r = buf[idx] as u32;
            let g = buf[idx + 1] as u32;
            let b = buf[idx + 2] as u32;
            let lum: u32 = (2126 * r + 7152 * g + 722 * b) / 10000;
            proof {
                vstd::arithmetic::div_mod::lemma_div_is_ordered(
                    2126 * r + 7152 * g + 722 * b,
                    2550000,
                    10000,
                );
            }
            gray.push(lum as u8);
            i = i + 1;
        }
    }
    gray
}

/// One full removal step of the carver: `cost` is a correctly built cost
/// matrix over the cached energy buffer at the old dimensions, `path` is
/// exactly the seam the extractor picks from it, and that same seam has been
/// removed from the grayscale cache, the energy cache and the pixel buffer,
/// keeping the three buffers in lock-step.
pub open spec fn carve_step_ok(
    pre: SeamCarver,
    post: SeamCarver,
    path: Seq<usize>,
    cost: Seq<u64>,
    dir: Direction,
) -> bool {
    let w = pre.cur.width as int;
    let h = pre.cur.height as int;
    &&& cost.len() == w * h
    &&& cost_lines_ok(pre.energy_buf@, cost, w, h, dir, 0)
    &&& seam_wf(path, w, h, dir)
    &&& seam_choice_ok(cost, path, w, h, dir)
    &&& removed_ok(pre.gray_buf@, post.gray_buf@, path, 1, w, dir)
    &&& removed_ok(pre.energy_buf@, post.energy_buf@, path, 1, w, dir)
    &&& removed_ok(pre.buf@, post.buf@, path, pre.channels as int, w, dir)
}

/// The content-aware resizing orchestrator. It owns the working pixel
/// buffer, a grayscale intensity cache, and an energy cache, all kept in
/// lock-step through every seam removal. The energy buffer is computed once
/// at construction and only ever shrunk, never recomputed.
#[derive(Debug)]
pub struct SeamCarver {
    /// Dimensions of the source image.
    pub orig: Dims,
    /// Target dimensions (reached when `apply` returns).
    pub desired: Dims,
    /// Current dimensions of the three buffers.
    pub cur: Dims,
    /// Samples per pixel: 1 (grayscale) or 3 (RGB).
    pub channels: usize,
    /// The working pixel buffer, row-major.
    pub buf: Vec<u8>,
    /// Grayscale cache, one sample per pixel.
    pub gray_buf: Vec<u8>,
    /// Energy cache, one value per pixel.
    pub energy_buf: Vec<u32>,
}

impl SeamCarver {
    /// The lock-step invariant: the three buffers all have the current
    /// dimensions, the channel layout is supported, and the target is
    /// reachable by shrinking.
    pub open spec fn wf(self) -> bool {
        &&& (self.channels == 1 || self.channels == 3)
        &&& 1 <= self.desired.width <= self.cur.width <= self.orig.width
        &&& 1 <= self.desired.height <= self.cur.height <= self.orig.height
        &&& self.cur.width <= 0xFFFF_FFFF
        &&& self.cur.height <= 0xFFFF_FFFF
        &&& self.gray_buf.len() == self.cur.width * self.cur.height
        &&& self.energy_buf.len() == self.cur.width * self.cur.height
        &&& self.buf.len() == self.cur.width * self.cur.height * self.channels
    }

    /// Builds a carver from an already-decoded pixel buffer. Rejects target
    /// dimensions that exceed the source (enlargement is not supported) and
    /// unsupported channel layouts; otherwise computes the grayscale cache
    /// and, from it, the energy buffer, both exactly once.
    pub fn new(
        buf: Vec<u8>,
        width: usize,
        height: usize,
        channels: usize,
        new_width: usize,
        new_height: usize,
    ) -> (r: Result<SeamCarver, CarveError>)
        requires
            buf.len() == width * height * channels,
            1 <= new_width,
            1 <= new_height,
            width <= 0xFFFF_FFFF,
            height <= 0xFFFF_FFFF,
        ensures
            r is Err <==> (new_width > width || new_height > height || !(channels == 1 || channels
                == 3)),
            match r {
                Ok(c) => {
                    &&& c.wf()
                    &&& c.orig.width == width
                    &&& c.orig.height == height
                    &&& c.cur.width == width
                    &&& c.cur.height == height
                    &&& c.desired.width == new_width
                    &&& c.desired.height == new_height
                    &&& c.channels == channels
                    &&& c.buf == buf
                    &&& gray_post(buf@, width as int, height as int, channels as int, c.gray_buf@)
                    &&& energy_post(
                        Kernel::X3,
                        c.gray_buf@,
                        width as int,
                        height as int,
                        c.energy_buf@,
                    )
                },
                Err(e) => {
                    &&& (e == CarveError::InvalidTargetSize <==> (new_width > width || new_height
                        > height))
                    &&& (e == CarveError::UnsupportedChannelLayout <==> (new_width <= width
                        && new_height <= height && !(channels == 1 || channels == 3)))
                },
            },
    {
        if new_width > width || new_height > height {
            return Err(CarveError::InvalidTargetSize);
        }
        if !(channels == 1 || channels == 3) {
            return Err(CarveError::UnsupportedChannelLayout);
        }
        let gray_buf = to_grayscale(&buf, width, height, channels);
        let sobel = Sobel::new().kernel(Kernel::X3);
        let energy_buf = sobel.apply(&gray_buf, width, height);
        Ok(
            SeamCarver {
                orig: Dims::new(width, height),
                desired: Dims::new(new_width, new_height),
                cur: Dims::new(width, height),
                channels,
                buf,
                gray_buf,
                energy_buf,
            },
        )
    }

    /// Shrinks the image to the target size, removing one minimum-cost seam
    /// at a time: horizontal seams until the target height is reached, then
    /// vertical seams until the target width is reached. Returns the final
    /// pixel buffer with its width, height and channel count.
    pub fn apply(self) -> (r: (Vec<u8>, usize, usize, usize))
        requires
            self.wf(),
        ensures
            r.0.len() == self.desired.width * self.desired.height * self.channels,
            r.1 == self.desired.width,
            r.2 == self.desired.height,
            r.3 == self.channels,
    {
        let ghost s0 = self;
        let mut this = self;
        while this.cur.height > this.desired.height
            invariant
                this.wf(),
                this.desired == s0.desired,
                this.channels == s0.channels,
            decreases this.cur.height,
        {
            this.remove_seam(Direction::Column);
        }
        while this.cur.width > this.desired.width
            invariant
                this.wf(),
                this.desired == s0.desired,
                this.channels == s0.channels,
                this.cur.height == s0.desired.height,
            decreases this.cur.width,
        {
            this.remove_seam(Direction::Row);
        }
        (this.buf, this.cur.width, this.cur.height, this.channels)
    }

    /// Removes one seam along `dir`: builds the cost matrix from the cached
    /// (not recomputed) energy buffer at the current dimensions, extracts
    /// the minimum-cost seam, removes it from the grayscale cache, the
    /// energy cache and the pixel buffer in that order, then updates the
    /// stored dimensions.
    #[verifier::loop_isolation(false)]
    #[verifier::rlimit(60)]
    fn remove_seam(&mut self, dir: Direction)
        requires
            old(self).wf(),
            dir is Row ==> old(self).cur.width > old(self).desired.width,
            dir is Column ==> old(self).cur.height > old(self).desired.height,
        ensures
            final(self).wf(),
            final(self).desired == old(self).desired,
            final(self).orig == old(self).orig,
            final(self).channels == old(self).channels,
            match dir {
                Direction::Row => {
                    &&& final(self).cur.width == old(self).cur.width - 1
                    &&& final(self).cur.height == old(self).cur.height
                },
                Direction::Column => {
                    &&& final(self).cur.height == old(self).cur.height - 1
                    &&& final(self).cur.width == old(self).cur.width
                },
            },
            exists|path: Seq<usize>, cost: Seq<u64>|
                carve_step_ok(*old(self), *final(self), path, cost, dir),
    {
        let width = self.cur.width;
        let height = self.cur.height;
        let nc = self.channels;
        let ghost gw: int = width as int;
        let ghost gh: int = height as int;
        proof {
            assert(gw * gh * nc as int == (gw * gh) * nc as int);
            match dir {
                Direction::Row => {
                    assert(inner_of(gw, gh, dir) == gw >= 2);
                },
                Direction::Column => {
                    assert(inner_of(gw, gh, dir) == gh >= 2);
                },
            }
        }
        let cost = build_cost_matrix(&self.energy_buf, width, height, dir);
        let path = find_shortest_path(&cost, width, height, dir);
        proof {
            match dir {
                Direction::Row => {
                    lemma_row_seam(path@, gw, gh);
                    assert(path@[path@.len() - 1] < gw * gh);
                    lemma_mul_inequality(path@[path@.len() - 1] + 1, gw * gh, nc as int);
                    lemma_mul_inequality(path@[path@.len() - 1] + 1, gw * gh, 1);
                },
                Direction::Column => {
                    lemma_col_seam(path@, gw, gh);
                    lemma_fundamental_div_mod_converse(gw * gh, gw, gh, 0);
                    assert(gw * gh == gh * gw) by (nonlinear_arith);
                    assert((gw * gh) * nc as int == gh * (gw * nc as int)) by (nonlinear_arith);
                    lemma_fundamental_div_mod_converse(
                        (gw * gh) * nc as int,
                        gw * nc as int,
                        gh,
                        0,
                    );
                    lemma_mul_inequality(1, gh, gw);
                    lemma_mul_inequality(1, gh, gw * nc as int);
                },
            }
        }
        remove_path_from_image(&mut self.gray_buf, &path, 1, dir, width);
        remove_path_from_image(&mut self.energy_buf, &path, 1, dir, width);
        remove_path_from_image(&mut self.buf, &path, nc, dir, width);
        match dir {
            Direction::Row => {
                proof {
                    assert(gw * gh - gh == (gw - 1) * gh) by (nonlinear_arith);
                    assert((gw * gh) * nc as int - gh * nc as int == ((gw - 1) * gh) * nc as int)
                        by (nonlinear_arith);
                    assert(((gw - 1) * gh) * nc as int == (gw - 1) * gh * nc as int);
                }
                self.cur = Dims::new(width - 1, height);
            },
            Direction::Column => {
                proof {
                    assert(gw * gh - gw == gw * (gh - 1)) by (nonlinear_arith);
                    assert((gw * gh) * nc as int - gw * nc as int == (gw * (gh - 1)) * nc as int)
                        by (nonlinear_arith);
                    assert((gw * (gh - 1)) * nc as int == gw * (gh - 1) * nc as int);
                }
                self.cur = Dims::new(width, height - 1);
            },
        }
        proof {
            assert(carve_step_ok(*old(self), *self, path@, cost@, dir));
        }
    }
}

} // verus!
