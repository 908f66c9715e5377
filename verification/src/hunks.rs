//! The hunk assembler: regroup a flat operation stream into context-bounded
//! blocks for unified-diff output.
//!
//! Each hunk is a contiguous window of the stream around a maximal cluster of
//! changes: up to `context` `Equal` operations of leading and trailing
//! context, clipped at the stream ends. Two change clusters separated by more
//! than `2 * context` `Equal` operations land in separate hunks; a smaller
//! separation merges them into one.

use vstd::prelude::*;

use crate::data::DiffOp;
use crate::data::Hunk;
use crate::data::SpecHunk;
use crate::data::clone_op;
use crate::data::is_change;
use crate::data::lemma_script_a_push;
use crate::data::lemma_script_b_push;
use crate::data::script_a;
use crate::data::script_b;

verus! {

/// The smaller of two integers.
pub open spec fn min_int(a: int, b: int) -> int {
    if a < b {
        a
    } else {
        b
    }
}

/// The larger of two integers.
pub open spec fn max_int(a: int, b: int) -> int {
    if a > b {
        a
    } else {
        b
    }
}

/// No operation in `[lo, hi)` changes anything.
pub open spec fn all_equal_between(ops: Seq<DiffOp>, lo: int, hi: int) -> bool {
    forall|i: int| lo <= i < hi && 0 <= i < ops.len() ==> !is_change(#[trigger] ops[i])
}

/// A sub-range of an all-`Equal` range is all `Equal`.
proof fn lemma_all_equal_mono(ops: Seq<DiffOp>, lo: int, hi: int, lo2: int, hi2: int)
    requires
        all_equal_between(ops, lo, hi),
        lo <= lo2,
        hi2 <= hi,
    ensures
        all_equal_between(ops, lo2, hi2),
{
}

/// The window `w` wraps a maximal change cluster whose first and last changes
/// sit at `fs` and `ls`: up to `c` equal operations of context on each side
/// (clipped at the stream ends), and no internal run of more than `2 * c`
/// equal operations between consecutive changes.
#[verifier::opaque]
pub open spec fn window_around(
    ops: Seq<DiffOp>,
    c: int,
    w: (int, int),
    fs: int,
    ls: int,
) -> bool {
    &&& 0 <= fs <= ls < ops.len()
    &&& is_change(ops[fs])
    &&& is_change(ops[ls])
    &&& all_equal_between(ops, w.0, fs)
    &&& all_equal_between(ops, ls + 1, w.1)
    &&& w.0 == max_int(fs - c, 0)
    &&& w.1 == min_int(ls + c + 1, ops.len() as int)
    &&& forall|i: int, j: int|
        fs <= i < j <= ls && is_change(#[trigger] ops[i]) && is_change(#[trigger] ops[j])
            && all_equal_between(ops, i + 1, j) ==> j - i - 1 <= 2 * c
}

/// The window is well formed for some cluster bounds.
#[verifier::opaque]
pub open spec fn window_wf(ops: Seq<DiffOp>, c: int, w: (int, int)) -> bool {
    exists|fs: int, ls: int| window_around(ops, c, w, fs, ls)
}

/// The windows are ordered and disjoint, and everything outside them is an
/// `Equal` operation - so every change of the stream lies in exactly one
/// window.
pub open spec fn windows_cover(ops: Seq<DiffOp>, ws: Seq<(int, int)>) -> bool {
    &&& forall|k: int|
        0 <= k < ws.len() - 1 ==> (#[trigger] ws[k]).1 < ws[k + 1].0 && all_equal_between(
            ops,
            ws[k].1,
            ws[k + 1].0,
        )
    &&& ws.len() > 0 ==> all_equal_between(ops, 0, ws[0].0) && all_equal_between(
        ops,
        ws[ws.len() - 1].1,
        ops.len() as int,
    )
    &&& ws.len() == 0 ==> all_equal_between(ops, 0, ops.len() as int)
}

/// The hunk that the window `w` induces: the operations of the window, the
/// 1-based positions of its first operation on both sides, and the number of
/// operations it consumes from each side.
#[verifier::opaque]
pub open spec fn hunk_from_window(ops: Seq<DiffOp>, w: (int, int)) -> SpecHunk {
    SpecHunk {
        ops: ops.subrange(w.0, w.1),
        start_a: script_a(ops.subrange(0, w.0)).len() as int + 1,
        start_b: script_b(ops.subrange(0, w.0)).len() as int + 1,
        len_a: script_a(ops.subrange(w.0, w.1)).len() as int,
        len_b: script_b(ops.subrange(w.0, w.1)).len() as int,
    }
}

/// The models of a vector of hunks.
pub open spec fn hunk_views(hs: Seq<Hunk>) -> Seq<SpecHunk> {
    hs.map_values(|h: Hunk| h@)
}

/// The hunks are exactly the hunks of a well-formed, covering window
/// sequence.
pub open spec fn hunks_match_windows(
    ops: Seq<DiffOp>,
    c: int,
    hs: Seq<SpecHunk>,
    ws: Seq<(int, int)>,
) -> bool {
    &&& hs.len() == ws.len()
    &&& forall|k: int| 0 <= k < ws.len() ==> hs[k] == hunk_from_window(ops, #[trigger] ws[k])
    &&& forall|k: int| 0 <= k < ws.len() ==> window_wf(ops, c, #[trigger] ws[k])
    &&& windows_cover(ops, ws)
}

/// Copies of the operations in `[s, e)`.
fn copy_ops_range(diffs: &[DiffOp], s: usize, e: usize) -> (r: Vec<DiffOp>)
    requires
        s <= e <= diffs@.len(),
    ensures
        r@ == diffs@.subrange(s as int, e as int),
{
    let mut r: Vec<DiffOp> = Vec::new();
    let mut i: usize = s;
    while i < e
        invariant
            s <= i <= e <= diffs@.len(),
            r@ == diffs@.subrange(s as int, i as int),
        decreases e - i,
    {
        proof {
            assert(diffs@.subrange(s as int, i + 1) =~= diffs@.subrange(s as int, i as int).push(
                diffs@[i as int],
            ));
        }
        r.push(clone_op(&diffs[i]));
        i = i + 1;
    }
    r
}

/// How many operations in `[s, e)` consume a token of side A (`Equal` and
/// `Delete` operations).
fn count_a_side(diffs: &[DiffOp], s: usize, e: usize) -> (r: usize)
    requires
        s <= e <= diffs@.len(),
    ensures
        r == script_a(diffs@.subrange(s as int, e as int)).len(),
        r <= e - s,
{
    let mut cnt: usize = 0;
    let mut i: usize = s;
    while i < e
        invariant
            s <= i <= e <= diffs@.len(),
            cnt == script_a(diffs@.subrange(s as int, i as int)).len(),
            cnt <= i - s,
        decreases e - i,
    {
        proof {
            assert(diffs@.subrange(s as int, i + 1) =~= diffs@.subrange(s as int, i as int).push(
                diffs@[i as int],
            ));
            lemma_script_a_push(diffs@.subrange(s as int, i as int), diffs@[i as int]);
        }
        match &diffs[i] {
            DiffOp::Insert(_) => {},
            _ => {
                cnt = cnt + 1;
            },
        }
        i = i + 1;
    }
    cnt
}

/// How many operations in `[s, e)` produce a token of side B (`Equal` and
/// `Insert` operations).
fn count_b_side(diffs: &[DiffOp], s: usize, e: usize) -> (r: usize)
    requires
        s <= e <= diffs@.len(),
    ensures
        r == script_b(diffs@.subrange(s as int, e as int)).len(),
        r <= e - s,
{
    let mut cnt: usize = 0;
    let mut i: usize = s;
    while i < e
        invariant
            s <= i <= e <= diffs@.len(),
            cnt == script_b(diffs@.subrange(s as int, i as int)).len(),
            cnt <= i - s,
        decreases e - i,
    {
        proof {
            assert(diffs@.subrange(s as int, i + 1) =~= diffs@.subrange(s as int, i as int).push(
                diffs@[i as int],
            ));
            lemma_script_b_push(diffs@.subrange(s as int, i as int), diffs@[i as int]);
        }
        match &diffs[i] {
            DiffOp::Delete(_) => {},
            _ => {
                cnt = cnt + 1;
            },
        }
        i = i + 1;
    }
    cnt
}

/// Build the hunk for the stream window `[s, e)`.
fn build_hunk(diffs: &[DiffOp], s: usize, e: usize) -> (h: Hunk)
    requires
        s < e <= diffs@.len(),
        diffs@.len() < usize::MAX,
    ensures
        h@ == hunk_from_window(diffs@, (s as int, e as int)),
{
    proof {
        reveal(hunk_from_window);
    }
    let ops = copy_ops_range(diffs, s, e);
    let start_a = count_a_side(diffs, 0, s) + 1;
    let start_b = count_b_side(diffs, 0, s) + 1;
    let len_a = count_a_side(diffs, s, e);
    let len_b = count_b_side(diffs, s, e);
    Hunk { ops, start_a, start_b, len_a, len_b }
}

/// Group a flat operation stream into hunks with `context` equal operations
/// of context.
///
/// The result is pinned by a window decomposition of the stream: ordered,
/// disjoint windows such that everything outside the windows is `Equal`, each
/// window wraps a maximal change cluster with up to `context` equal
/// operations of context on each side, consecutive changes inside one window
/// are separated by at most `2 * context` equal operations, and consecutive
/// windows by more. An all-`Equal` stream yields no hunks at all.
#[verifier::loop_isolation(false)]
#[verifier::rlimit(100)]
pub fn group_into_hunks(diffs: &[DiffOp], context: usize) -> (r: Vec<Hunk>)
    requires
        diffs@.len() < usize::MAX,
    ensures
        exists|ws: Seq<(int, int)>|
            #[trigger] hunks_match_windows(diffs@, context as int, hunk_views(r@), ws),
{
    let ghost ops = diffs@;
    let ghost c = context as int;
    let n = diffs.len();

    // First pass: the positions of the change operations, in order, with
    // nothing but Equal operations between, before and after them.
    let mut cs: Vec<usize> = Vec::new();
    let mut i: usize = 0;
    while i < n
        invariant
            i <= n,
            forall|t: int| #![trigger cs@[t]]
                0 <= t < cs@.len() ==> (cs@[t] as int) < i && is_change(ops[cs@[t] as int]),
            forall|t1: int, t2: int| 0 <= t1 < t2 < cs@.len() ==> cs@[t1] < cs@[t2],
            forall|t: int| #![trigger cs@[t]]
                0 <= t < cs@.len() - 1 ==> all_equal_between(ops, cs@[t] + 1, cs@[t + 1] as int),
            cs@.len() > 0 ==> all_equal_between(ops, 0, cs@[0] as int) && all_equal_between(
                ops,
                cs@[cs@.len() - 1] + 1,
                i as int,
            ),
            cs@.len() == 0 ==> all_equal_between(ops, 0, i as int),
        decreases n - i,
    {
        let is_eq = match &diffs[i] {
            DiffOp::Equal(_) => true,
            _ => false,
        };
        if !is_eq {
            cs.push(i);
        }
        i = i + 1;
    }

    if cs.len() == 0 {
        let hunks: Vec<Hunk> = Vec::new();
        proof {
            let ws = Seq::<(int, int)>::empty();
            assert(hunks_match_windows(ops, c, hunk_views(hunks@), ws));
        }
        return hunks;
    }
    cluster_hunks(diffs, context, &cs)
}

/// Second pass of the assembler: walk the change positions, merging
/// consecutive changes whose separation is at most `2 * context` into one
/// cluster, and emit a context-padded window per cluster.
#[verifier::rlimit(100)]
#[verifier::spinoff_prover]
fn cluster_hunks(diffs: &[DiffOp], context: usize, cs: &Vec<usize>) -> (r: Vec<Hunk>)
    requires
        diffs@.len() < usize::MAX,
        cs@.len() >= 1,
        forall|t: int| #![trigger cs@[t]]
            0 <= t < cs@.len() ==> (cs@[t] as int) < diffs@.len() && is_change(
                diffs@[cs@[t] as int],
            ),
        forall|t1: int, t2: int| 0 <= t1 < t2 < cs@.len() ==> cs@[t1] < cs@[t2],
        forall|t: int| #![trigger cs@[t]]
            0 <= t < cs@.len() - 1 ==> all_equal_between(diffs@, cs@[t] + 1, cs@[t + 1] as int),
        all_equal_between(diffs@, 0, cs@[0] as int),
        all_equal_between(diffs@, cs@[cs@.len() - 1] + 1, diffs@.len() as int),
    ensures
        exists|ws: Seq<(int, int)>|
            #[trigger] hunks_match_windows(diffs@, context as int, hunk_views(r@), ws),
{
    let ghost ops = diffs@;
    let ghost c = context as int;
    let ghost csv = cs@;
    let n = diffs.len();

    let mut hunks: Vec<Hunk> = Vec::new();
    let ghost mut ws: Seq<(int, int)> = Seq::empty();
    let mut fs = cs[0];
    let mut ls = cs[0];
    let ghost mut qs: int = 0;
    let mut q: usize = 1;
    while q < cs.len()
        invariant
            ops == diffs@,
            c == context as int,
            csv == cs@,
            n == diffs@.len(),
            n < usize::MAX,
            csv.len() >= 1,
            forall|t: int| #![trigger csv[t]]
                0 <= t < csv.len() ==> (csv[t] as int) < n && is_change(ops[csv[t] as int]),
            forall|t1: int, t2: int| 0 <= t1 < t2 < csv.len() ==> csv[t1] < csv[t2],
            forall|t: int| #![trigger csv[t]]
                0 <= t < csv.len() - 1 ==> all_equal_between(ops, csv[t] + 1, csv[t + 1] as int),
            all_equal_between(ops, 0, csv[0] as int),
            all_equal_between(ops, csv[csv.len() - 1] + 1, n as int),
            1 <= q <= csv.len(),
            0 <= qs <= q - 1,
            fs == csv[qs],
            ls == csv[q - 1],
            fs <= ls < n,
            hunk_views(hunks@).len() == ws.len(),
            forall|k: int|
                0 <= k < ws.len() ==> hunk_views(hunks@)[k] == hunk_from_window(
                    ops,
                    #[trigger] ws[k],
                ),
            forall|k: int| 0 <= k < ws.len() ==> window_wf(ops, c, #[trigger] ws[k]),
            forall|k: int|
                0 <= k < ws.len() - 1 ==> (#[trigger] ws[k]).1 < ws[k + 1].0 && all_equal_between(
                    ops,
                    ws[k].1,
                    ws[k + 1].0,
                ),
            ws.len() > 0 ==> all_equal_between(ops, 0, ws[0].0),
            ws.len() > 0 ==> ws[ws.len() - 1].1 < max_int(fs - c, 0) && all_equal_between(
                ops,
                ws[ws.len() - 1].1,
                max_int(fs - c, 0),
            ),
            qs > 0 ==> all_equal_between(ops, csv[qs - 1] + 1, fs as int) && fs - csv[qs - 1] - 1
                > 2 * c,
            qs == 0 ==> ws.len() == 0 && all_equal_between(ops, 0, fs as int),
            qs > 0 ==> ws.len() > 0,
            forall|i2: int, j2: int|
                fs <= i2 < j2 <= ls && is_change(#[trigger] ops[i2]) && is_change(
                    #[trigger] ops[j2],
                ) && all_equal_between(ops, i2 + 1, j2) ==> j2 - i2 - 1 <= 2 * c,
        decreases csv.len() - q,
    {
        let nxt = cs[q];
        let gap = nxt - ls - 1;
        let split = if gap >= context {
            gap - context > context
        } else {
            false
        };
        proof {
            assert(split == (nxt - ls - 1 > 2 * c));
        }
        if split {
            proof {
                if qs == 0 {
                    lemma_all_equal_mono(ops, 0, fs as int, max_int(fs - c, 0), fs as int);
                    lemma_all_equal_mono(ops, 0, fs as int, 0, max_int(fs - c, 0));
                } else {
                    lemma_all_equal_mono(
                        ops,
                        csv[qs - 1] + 1,
                        fs as int,
                        max_int(fs - c, 0),
                        fs as int,
                    );
                }
            }
            let out = emit_split(diffs, context, fs, ls, nxt, hunks, Ghost(ws));
            hunks = out.0;
            proof {
                ws = out.1@;
            }
            fs = nxt;
            ls = nxt;
            proof {
                qs = q as int;
            }
        } else {
            proof {
                lemma_cluster_extend(ops, c, fs as int, ls as int, nxt as int);
            }
            ls = nxt;
        }
        q = q + 1;
    }

    // Emit the final cluster's window.
    proof {
        if qs == 0 {
            lemma_all_equal_mono(ops, 0, fs as int, max_int(fs - c, 0), fs as int);
            lemma_all_equal_mono(ops, 0, fs as int, 0, max_int(fs - c, 0));
        } else {
            lemma_all_equal_mono(
                ops,
                csv[qs - 1] + 1,
                fs as int,
                max_int(fs - c, 0),
                fs as int,
            );
        }
        assert(ls == csv[csv.len() - 1]);
    }
    emit_final(diffs, context, fs, ls, hunks, Ghost(ws))
}

/// Emit the window of one closed change cluster `[fs, ls]` when the next
/// change `nxt` is too far away to merge, and re-establish the assembler's
/// bookkeeping for the cluster that starts at `nxt`.
#[verifier::rlimit(100)]
fn emit_split(
    diffs: &[DiffOp],
    context: usize,
    fs: usize,
    ls: usize,
    nxt: usize,
    hunks: Vec<Hunk>,
    Ghost(ws): Ghost<Seq<(int, int)>>,
) -> (r: (Vec<Hunk>, Ghost<Seq<(int, int)>>))
    requires
        diffs@.len() < usize::MAX,
        fs <= ls < nxt < diffs@.len(),
        is_change(diffs@[fs as int]),
        is_change(diffs@[ls as int]),
        all_equal_between(diffs@, max_int(fs as int - context as int, 0), fs as int),
        all_equal_between(diffs@, ls + 1, nxt as int),
        nxt - ls - 1 > 2 * (context as int),
        forall|i2: int, j2: int|
            fs <= i2 < j2 <= ls && is_change(#[trigger] diffs@[i2]) && is_change(
                #[trigger] diffs@[j2],
            ) && all_equal_between(diffs@, i2 + 1, j2) ==> j2 - i2 - 1 <= 2 * (context as int),
        hunk_views(hunks@).len() == ws.len(),
        forall|k: int|
            0 <= k < ws.len() ==> hunk_views(hunks@)[k] == hunk_from_window(
                diffs@,
                #[trigger] ws[k],
            ),
        forall|k: int| 0 <= k < ws.len() ==> window_wf(diffs@, context as int, #[trigger] ws[k]),
        forall|k: int|
            0 <= k < ws.len() - 1 ==> (#[trigger] ws[k]).1 < ws[k + 1].0 && all_equal_between(
                diffs@,
                ws[k].1,
                ws[k + 1].0,
            ),
        ws.len() > 0 ==> all_equal_between(diffs@, 0, ws[0].0),
        ws.len() > 0 ==> ws[ws.len() - 1].1 < max_int(fs as int - context as int, 0)
            && all_equal_between(
            diffs@,
            ws[ws.len() - 1].1,
            max_int(fs as int - context as int, 0),
        ),
        ws.len() == 0 ==> all_equal_between(diffs@, 0, max_int(fs as int - context as int, 0)),
    ensures
        hunk_views(r.0@).len() == r.1@.len(),
        forall|k: int|
            0 <= k < r.1@.len() ==> hunk_views(r.0@)[k] == hunk_from_window(
                diffs@,
                #[trigger] r.1@[k],
            ),
        forall|k: int|
            0 <= k < r.1@.len() ==> window_wf(diffs@, context as int, #[trigger] r.1@[k]),
        forall|k: int|
            0 <= k < r.1@.len() - 1 ==> (#[trigger] r.1@[k]).1 < r.1@[k + 1].0
                && all_equal_between(diffs@, r.1@[k].1, r.1@[k + 1].0),
        r.1@.len() > 0 ==> all_equal_between(diffs@, 0, r.1@[0].0),
        r.1@.len() > 0,
        r.1@[r.1@.len() - 1].1 < max_int(nxt as int - context as int, 0) && all_equal_between(
            diffs@,
            r.1@[r.1@.len() - 1].1,
            max_int(nxt as int - context as int, 0),
        ),
{
    let ghost ops = diffs@;
    let ghost c = context as int;
    let n = diffs.len();
    let mut hunks = hunks;
    let bounds = window_bounds(n, context, fs, ls);
    let s = bounds.0;
    let e = bounds.1;
    proof {
        reveal(window_around);
        lemma_all_equal_mono(ops, ls + 1, nxt as int, ls + 1, e as int);
        assert(window_around(ops, c, (s as int, e as int), fs as int, ls as int));
    }
    let h = build_hunk(diffs, s, e);
    let ghost old_hs = hunk_views(hunks@);
    let ghost nw = (s as int, e as int);
    hunks.push(h);
    proof {
        assert(hunk_views(hunks@) =~= old_hs.push(h@));
        lemma_step_windows(ops, c, old_hs, ws, h@, nw, fs as int, ls as int);
        // the next cluster starts far enough away for this window's
        // trailing context not to reach it
        assert(nxt - c > e as int);
        assert(max_int(nxt - c, 0) == nxt - c);
        lemma_all_equal_mono(ops, ls + 1, nxt as int, e as int, nxt - c);
    }
    (hunks, Ghost(ws.push(nw)))
}

/// Pushing one well-formed window past the end of the previous ones keeps
/// the decomposition's bookkeeping intact.
#[verifier::rlimit(100)]
proof fn lemma_step_windows(
    ops: Seq<DiffOp>,
    c: int,
    hs: Seq<SpecHunk>,
    ws: Seq<(int, int)>,
    h: SpecHunk,
    w: (int, int),
    fs: int,
    ls: int,
)
    requires
        hs.len() == ws.len(),
        forall|k: int| 0 <= k < ws.len() ==> hs[k] == hunk_from_window(ops, #[trigger] ws[k]),
        forall|k: int| 0 <= k < ws.len() ==> window_wf(ops, c, #[trigger] ws[k]),
        forall|k: int|
            0 <= k < ws.len() - 1 ==> (#[trigger] ws[k]).1 < ws[k + 1].0 && all_equal_between(
                ops,
                ws[k].1,
                ws[k + 1].0,
            ),
        ws.len() > 0 ==> all_equal_between(ops, 0, ws[0].0),
        ws.len() > 0 ==> ws[ws.len() - 1].1 < w.0 && all_equal_between(
            ops,
            ws[ws.len() - 1].1,
            w.0,
        ),
        ws.len() == 0 ==> all_equal_between(ops, 0, w.0),
        window_around(ops, c, w, fs, ls),
        h == hunk_from_window(ops, w),
    ensures
        hs.push(h).len() == ws.push(w).len(),
        forall|k: int|
            0 <= k < ws.push(w).len() ==> hs.push(h)[k] == hunk_from_window(
                ops,
                #[trigger] ws.push(w)[k],
            ),
        forall|k: int| 0 <= k < ws.push(w).len() ==> window_wf(ops, c, #[trigger] ws.push(w)[k]),
        forall|k: int|
            0 <= k < ws.push(w).len() - 1 ==> (#[trigger] ws.push(w)[k]).1 < ws.push(w)[k + 1].0
                && all_equal_between(ops, ws.push(w)[k].1, ws.push(w)[k + 1].0),
        all_equal_between(ops, 0, ws.push(w)[0].0),
        ws.push(w)[ws.push(w).len() - 1] == w,
{
    reveal(window_around);
    reveal(window_wf);
    let hs2 = hs.push(h);
    let ws2 = ws.push(w);
    assert(window_around(ops, c, w, fs, ls));
    assert(window_wf(ops, c, w));
    assert forall|k: int| 0 <= k < ws2.len() implies hs2[k] == hunk_from_window(
        ops,
        #[trigger] ws2[k],
    ) && window_wf(ops, c, ws2[k]) by {
        if k < ws.len() {
            assert(ws2[k] == ws[k]);
            assert(hs2[k] == hs[k]);
        } else {
            assert(ws2[k] == w);
            assert(hs2[k] == h);
        }
    }
    assert forall|k: int| 0 <= k < ws2.len() - 1 implies (#[trigger] ws2[k]).1 < ws2[k + 1].0
        && all_equal_between(ops, ws2[k].1, ws2[k + 1].0) by {
        if k < ws.len() - 1 {
            assert(ws2[k] == ws[k]);
            assert(ws2[k + 1] == ws[k + 1]);
        } else {
            assert(ws2[k] == ws[ws.len() - 1]);
            assert(ws2[k + 1] == w);
        }
    }
    assert(ws2[0] == (if ws.len() > 0 {
        ws[0]
    } else {
        w
    }));
    assert(all_equal_between(ops, 0, ws2[0].0));
    assert(ws2[ws2.len() - 1] == w);
}

/// Emit the window of the last change cluster and close the decomposition.
#[verifier::loop_isolation(false)]
#[verifier::rlimit(100)]
fn emit_final(
    diffs: &[DiffOp],
    context: usize,
    fs: usize,
    ls: usize,
    hunks: Vec<Hunk>,
    Ghost(ws): Ghost<Seq<(int, int)>>,
) -> (r: Vec<Hunk>)
    requires
        diffs@.len() < usize::MAX,
        fs <= ls < diffs@.len(),
        is_change(diffs@[fs as int]),
        is_change(diffs@[ls as int]),
        all_equal_between(diffs@, max_int(fs as int - context as int, 0), fs as int),
        all_equal_between(diffs@, ls + 1, diffs@.len() as int),
        forall|i2: int, j2: int|
            fs <= i2 < j2 <= ls && is_change(#[trigger] diffs@[i2]) && is_change(
                #[trigger] diffs@[j2],
            ) && all_equal_between(diffs@, i2 + 1, j2) ==> j2 - i2 - 1 <= 2 * (context as int),
        hunk_views(hunks@).len() == ws.len(),
        forall|k: int|
            0 <= k < ws.len() ==> hunk_views(hunks@)[k] == hunk_from_window(
                diffs@,
                #[trigger] ws[k],
            ),
        forall|k: int| 0 <= k < ws.len() ==> window_wf(diffs@, context as int, #[trigger] ws[k]),
        forall|k: int|
            0 <= k < ws.len() - 1 ==> (#[trigger] ws[k]).1 < ws[k + 1].0 && all_equal_between(
                diffs@,
                ws[k].1,
                ws[k + 1].0,
            ),
        ws.len() > 0 ==> all_equal_between(diffs@, 0, ws[0].0),
        ws.len() > 0 ==> ws[ws.len() - 1].1 < max_int(fs as int - context as int, 0)
            && all_equal_between(
            diffs@,
            ws[ws.len() - 1].1,
            max_int(fs as int - context as int, 0),
        ),
        ws.len() == 0 ==> all_equal_between(diffs@, 0, max_int(fs as int - context as int, 0)),
    ensures
        exists|ws2: Seq<(int, int)>|
            #[trigger] hunks_match_windows(diffs@, context as int, hunk_views(r@), ws2),
{
    let ghost ops = diffs@;
    let ghost c = context as int;
    let n = diffs.len();
    let mut hunks = hunks;
    let bounds = window_bounds(n, context, fs, ls);
    let s = bounds.0;
    let e = bounds.1;
    proof {
        reveal(window_around);
        lemma_all_equal_mono(ops, ls + 1, n as int, ls + 1, e as int);
        assert(window_around(ops, c, (s as int, e as int), fs as int, ls as int));
    }
    let h = build_hunk(diffs, s, e);
    let ghost old_hs = hunk_views(hunks@);
    hunks.push(h);
    proof {
        assert(hunk_views(hunks@) =~= old_hs.push(h@));
        lemma_all_equal_mono(ops, ls + 1, n as int, e as int, n as int);
        lemma_finish_windows(
            ops,
            c,
            old_hs,
            ws,
            h@,
            (s as int, e as int),
            fs as int,
            ls as int,
        );
        assert(hunks_match_windows(ops, c, hunk_views(hunks@), ws.push((s as int, e as int))));
    }
    hunks
}

/// Pushing one last well-formed window whose trailing side is all `Equal`
/// closes the decomposition.
#[verifier::rlimit(100)]
proof fn lemma_finish_windows(
    ops: Seq<DiffOp>,
    c: int,
    hs: Seq<SpecHunk>,
    ws: Seq<(int, int)>,
    h: SpecHunk,
    w: (int, int),
    fs: int,
    ls: int,
)
    requires
        hs.len() == ws.len(),
        forall|k: int| 0 <= k < ws.len() ==> hs[k] == hunk_from_window(ops, #[trigger] ws[k]),
        forall|k: int| 0 <= k < ws.len() ==> window_wf(ops, c, #[trigger] ws[k]),
        forall|k: int|
            0 <= k < ws.len() - 1 ==> (#[trigger] ws[k]).1 < ws[k + 1].0 && all_equal_between(
                ops,
                ws[k].1,
                ws[k + 1].0,
            ),
        ws.len() > 0 ==> all_equal_between(ops, 0, ws[0].0),
        ws.len() > 0 ==> ws[ws.len() - 1].1 < w.0 && all_equal_between(
            ops,
            ws[ws.len() - 1].1,
            w.0,
        ),
        ws.len() == 0 ==> all_equal_between(ops, 0, w.0),
        window_around(ops, c, w, fs, ls),
        h == hunk_from_window(ops, w),
        all_equal_between(ops, w.1, ops.len() as int),
    ensures
        hunks_match_windows(ops, c, hs.push(h), ws.push(w)),
{
    reveal(window_around);
    reveal(window_wf);
    let hs2 = hs.push(h);
    let ws2 = ws.push(w);
    assert(window_around(ops, c, w, fs, ls));
    assert(window_wf(ops, c, w));
    assert forall|k: int| 0 <= k < ws2.len() implies hs2[k] == hunk_from_window(
        ops,
        #[trigger] ws2[k],
    ) && window_wf(ops, c, ws2[k]) by {
        if k < ws.len() {
            assert(ws2[k] == ws[k]);
            assert(hs2[k] == hs[k]);
        } else {
            assert(ws2[k] == w);
            assert(hs2[k] == h);
        }
    }
    assert forall|k: int| 0 <= k < ws2.len() - 1 implies (#[trigger] ws2[k]).1 < ws2[k + 1].0
        && all_equal_between(ops, ws2[k].1, ws2[k + 1].0) by {
        if k < ws.len() - 1 {
            assert(ws2[k] == ws[k]);
            assert(ws2[k + 1] == ws[k + 1]);
        } else {
            assert(ws2[k] == ws[ws.len() - 1]);
            assert(ws2[k + 1] == w);
        }
    }
    assert(ws2[0] == (if ws.len() > 0 {
        ws[0]
    } else {
        w
    }));
    assert(all_equal_between(ops, 0, ws2[0].0));
    assert(ws2[ws2.len() - 1] == w);
}

/// The context-padded bounds of a cluster `[fs, ls]` in a stream of length
/// `n`.
fn window_bounds(n: usize, context: usize, fs: usize, ls: usize) -> (r: (usize, usize))
    requires
        fs <= ls < n,
    ensures
        r.0 as int == max_int(fs as int - context as int, 0),
        r.1 as int == min_int(ls as int + context as int + 1, n as int),
        r.0 <= fs,
        ls < r.1 <= n,
{
    let s = if fs >= context {
        fs - context
    } else {
        0
    };
    let e = if context >= n - 1 - ls {
        n
    } else {
        ls + context + 1
    };
    (s, e)
}

/// Extending a cluster by the next change keeps every internal run of equal
/// operations at `2 * c` or shorter.
proof fn lemma_cluster_extend(ops: Seq<DiffOp>, c: int, fs: int, ls: int, nxt: int)
    requires
        0 <= fs <= ls < nxt < ops.len(),
        is_change(ops[ls]),
        is_change(ops[nxt]),
        all_equal_between(ops, ls + 1, nxt),
        nxt - ls - 1 <= 2 * c,
        forall|i2: int, j2: int|
            fs <= i2 < j2 <= ls && is_change(#[trigger] ops[i2]) && is_change(#[trigger] ops[j2])
                && all_equal_between(ops, i2 + 1, j2) ==> j2 - i2 - 1 <= 2 * c,
    ensures
        forall|i2: int, j2: int|
            fs <= i2 < j2 <= nxt && is_change(#[trigger] ops[i2]) && is_change(#[trigger] ops[j2])
                && all_equal_between(ops, i2 + 1, j2) ==> j2 - i2 - 1 <= 2 * c,
{
    assert forall|i2: int, j2: int|
        fs <= i2 < j2 <= nxt && is_change(#[trigger] ops[i2]) && is_change(#[trigger] ops[j2])
            && all_equal_between(ops, i2 + 1, j2) implies j2 - i2 - 1 <= 2 * c by {
        if j2 <= ls {
        } else {
            // j2 lies past the old cluster end; the only change with an
            // all-equal run up to it is ls itself
            assert(j2 == nxt);
            if i2 < ls {
                assert(is_change(ops[ls]));
                assert(!all_equal_between(ops, i2 + 1, j2));
            } else {
                assert(i2 == ls);
            }
        }
    }
}

} // verus!
