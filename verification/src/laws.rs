//! Laws of the library: consequences of the engine's and the assembler's
//! contracts that hold for every input, stated and proved once.

use vstd::prelude::*;

use crate::data::DiffOp;
use crate::data::is_change;
use crate::data::op_token;
use crate::data::script_a;
use crate::data::script_b;
use crate::data::SpecHunk;
use crate::hunks::all_equal_between;
use crate::hunks::hunk_from_window;
use crate::hunks::hunks_match_windows;
use crate::hunks::max_int;
use crate::hunks::min_int;
use crate::hunks::window_around;
use crate::hunks::window_wf;
use crate::hunks::windows_cover;

verus! {

/// A script that consumes nothing of side A is all `Insert`, and spells out
/// side B token by token, in order. With the engine's contract this pins the
/// diff of an empty A against any B: all-Insert of B in order.
pub proof fn lemma_empty_a_all_insert(ops: Seq<DiffOp>)
    requires
        script_a(ops).len() == 0,
    ensures
        ops.len() == script_b(ops).len(),
        forall|i: int|
            0 <= i < ops.len() ==> (#[trigger] ops[i]) is Insert && op_token(ops[i]) == script_b(
                ops,
            )[i],
    decreases ops.len(),
{
    if ops.len() > 0 {
        if !(ops[0] is Insert) {
            assert(script_a(ops).len() > 0);
        }
        lemma_empty_a_all_insert(ops.drop_first());
        assert(script_b(ops) == seq![op_token(ops[0])] + script_b(ops.drop_first()));
        assert forall|i: int| 0 <= i < ops.len() implies (#[trigger] ops[i]) is Insert
            && op_token(ops[i]) == script_b(ops)[i] by {
            if i > 0 {
                assert(ops.drop_first()[i - 1] == ops[i]);
                assert(script_b(ops)[i] == script_b(ops.drop_first())[i - 1]);
            }
        }
    }
}

/// A script that produces nothing of side B is all `Delete`, and spells out
/// side A token by token, in order. With the engine's contract this pins the
/// diff of any A against an empty B: all-Delete of A in order.
pub proof fn lemma_empty_b_all_delete(ops: Seq<DiffOp>)
    requires
        script_b(ops).len() == 0,
    ensures
        ops.len() == script_a(ops).len(),
        forall|i: int|
            0 <= i < ops.len() ==> (#[trigger] ops[i]) is Delete && op_token(ops[i]) == script_a(
                ops,
            )[i],
    decreases ops.len(),
{
    if ops.len() > 0 {
        if !(ops[0] is Delete) {
            assert(script_b(ops).len() > 0);
        }
        lemma_empty_b_all_delete(ops.drop_first());
        assert(script_a(ops) == seq![op_token(ops[0])] + script_a(ops.drop_first()));
        assert forall|i: int| 0 <= i < ops.len() implies (#[trigger] ops[i]) is Delete
            && op_token(ops[i]) == script_a(ops)[i] by {
            if i > 0 {
                assert(ops.drop_first()[i - 1] == ops[i]);
                assert(script_a(ops)[i] == script_a(ops.drop_first())[i - 1]);
            }
        }
    }
}

/// Every change of the stream lies inside one of the assembler's windows.
pub proof fn lemma_change_located(ops: Seq<DiffOp>, ws: Seq<(int, int)>, i: int)
    requires
        windows_cover(ops, ws),
        0 <= i < ops.len(),
        is_change(ops[i]),
    ensures
        exists|k: int| 0 <= k < ws.len() && (#[trigger] ws[k]).0 <= i < ws[k].1,
{
    if ws.len() == 0 {
        assert(!is_change(ops[i]));
    } else {
        if i < ws[0].0 {
            assert(!is_change(ops[i]));
        } else {
            lemma_change_located_rec(ops, ws, i, 0);
        }
    }
}

proof fn lemma_change_located_rec(ops: Seq<DiffOp>, ws: Seq<(int, int)>, i: int, k: int)
    requires
        windows_cover(ops, ws),
        0 <= i < ops.len(),
        is_change(ops[i]),
        0 <= k < ws.len(),
        ws[k].0 <= i,
    ensures
        exists|t: int| 0 <= t < ws.len() && (#[trigger] ws[t]).0 <= i < ws[t].1,
    decreases ws.len() - k,
{
    if i < ws[k].1 {
        assert(ws[k].0 <= i < ws[k].1);
    } else if k == ws.len() - 1 {
        assert(all_equal_between(ops, ws[ws.len() - 1].1, ops.len() as int));
        assert(!is_change(ops[i]));
    } else {
        if i < ws[k + 1].0 {
            assert(all_equal_between(ops, ws[k].1, ws[k + 1].0));
            assert(!is_change(ops[i]));
        } else {
            lemma_change_located_rec(ops, ws, i, k + 1);
        }
    }
}

/// A window's changes sit between its cluster bounds.
proof fn lemma_window_change_bounds(ops: Seq<DiffOp>, c: int, w: (int, int), i: int)
    requires
        window_wf(ops, c, w),
        w.0 <= i < w.1,
        0 <= i < ops.len(),
        is_change(ops[i]),
    ensures
        exists|fs: int, ls: int|
            #[trigger] window_around(ops, c, w, fs, ls) && fs <= i <= ls,
{
    reveal(window_wf);
    reveal(window_around);
    let (fs, ls) = choose|fs: int, ls: int| window_around(ops, c, w, fs, ls);
    assert(all_equal_between(ops, w.0, fs));
    assert(all_equal_between(ops, ls + 1, w.1));
    if i < fs {
        assert(!is_change(ops[i]));
    }
    if i > ls {
        assert(!is_change(ops[i]));
    }
    assert(window_around(ops, c, w, fs, ls) && fs <= i <= ls);
}

/// The named facts of a well-formed window, extracted once.
proof fn lemma_window_facts(ops: Seq<DiffOp>, c: int, w: (int, int), fs: int, ls: int)
    requires
        window_around(ops, c, w, fs, ls),
    ensures
        0 <= fs <= ls < ops.len(),
        is_change(ops[fs]),
        is_change(ops[ls]),
        all_equal_between(ops, w.0, fs),
        all_equal_between(ops, ls + 1, w.1),
        w.0 == max_int(fs - c, 0),
        w.1 == min_int(ls + c + 1, ops.len() as int),
{
    reveal(window_around);
}

/// Inside one window, consecutive changes are at most `2 * c` apart.
proof fn lemma_window_internal_gap(
    ops: Seq<DiffOp>,
    c: int,
    w: (int, int),
    fs: int,
    ls: int,
    i: int,
    j: int,
)
    requires
        window_around(ops, c, w, fs, ls),
        fs <= i < j <= ls,
        is_change(ops[i]),
        is_change(ops[j]),
        all_equal_between(ops, i + 1, j),
    ensures
        j - i - 1 <= 2 * c,
{
    reveal(window_around);
}

/// Merging law: two changes separated by a run of at most `2 * c` equal
/// operations always land in the same hunk window.
#[verifier::rlimit(100)]
pub proof fn lemma_close_changes_share_window(
    ops: Seq<DiffOp>,
    c: int,
    hs: Seq<SpecHunk>,
    ws: Seq<(int, int)>,
    i: int,
    j: int,
)
    requires
        hunks_match_windows(ops, c, hs, ws),
        0 <= i < j < ops.len(),
        is_change(ops[i]),
        is_change(ops[j]),
        all_equal_between(ops, i + 1, j),
        j - i - 1 <= 2 * c,
        c >= 0,
    ensures
        exists|k: int| 0 <= k < ws.len() && (#[trigger] ws[k]).0 <= i && j < ws[k].1,
{
    lemma_change_located(ops, ws, i);
    lemma_change_located(ops, ws, j);
    let k1 = choose|k1: int| 0 <= k1 < ws.len() && (#[trigger] ws[k1]).0 <= i < ws[k1].1;
    let k2 = choose|k2: int| 0 <= k2 < ws.len() && (#[trigger] ws[k2]).0 <= j < ws[k2].1;
    if k1 == k2 {
        assert(ws[k1].0 <= i && j < ws[k1].1);
    } else if k1 < k2 {
        lemma_distinct_windows_gap(ops, c, ws, k1, k2, i, j);
        assert(false);
    } else {
        lemma_windows_ordered(ops, c, ws, k2, k1);
        assert(j < ws[k2].1);
        assert(ws[k2].1 <= ws[k1].0);
        assert(ws[k1].0 <= i);
        assert(false);
    }
}

/// Changes that sit in two different windows, with nothing but equal
/// operations between them, are more than `2 * c` apart.
#[verifier::rlimit(100)]
proof fn lemma_distinct_windows_gap(
    ops: Seq<DiffOp>,
    c: int,
    ws: Seq<(int, int)>,
    k1: int,
    k2: int,
    i: int,
    j: int,
)
    requires
        windows_cover(ops, ws),
        forall|k: int| 0 <= k < ws.len() ==> window_wf(ops, c, #[trigger] ws[k]),
        0 <= k1 < k2 < ws.len(),
        ws[k1].0 <= i < ws[k1].1,
        ws[k2].0 <= j < ws[k2].1,
        0 <= i < j < ops.len(),
        is_change(ops[i]),
        is_change(ops[j]),
        all_equal_between(ops, i + 1, j),
        c >= 0,
    ensures
        j - i - 1 > 2 * c,
{
    lemma_windows_ordered(ops, c, ws, k1, k2);
    lemma_window_change_bounds(ops, c, ws[k1], i);
    lemma_window_change_bounds(ops, c, ws[k2], j);
    let (fs1, ls1) = choose|fs1: int, ls1: int|
        #[trigger] window_around(ops, c, ws[k1], fs1, ls1) && fs1 <= i <= ls1;
    let (fs2, ls2) = choose|fs2: int, ls2: int|
        #[trigger] window_around(ops, c, ws[k2], fs2, ls2) && fs2 <= j <= ls2;
    lemma_window_facts(ops, c, ws[k1], fs1, ls1);
    lemma_window_facts(ops, c, ws[k2], fs2, ls2);
    // the last change of the first cluster and the first change of the
    // second both lie in the all-equal run between i and j, so they are
    // its endpoints
    assert(ls1 < ws[k1].1);
    assert(ws[k2].0 <= fs2);
    assert(i <= ls1 < fs2 <= j);
    if ls1 > i {
        assert(!is_change(ops[ls1]));
    }
    if fs2 < j {
        assert(!is_change(ops[fs2]));
    }
    assert(ls1 == i && fs2 == j);
    // but consecutive windows keep their clusters more than 2c apart
    if ls1 + c + 1 <= ops.len() {
        assert(ws[k1].1 == ls1 + c + 1);
        if fs2 - c >= 0 {
            assert(ls1 + c + 1 <= fs2 - c);
        } else {
            assert(ws[k2].0 == 0);
            assert(ls1 + c + 1 <= 0);
        }
    } else {
        assert(ws[k1].1 == ops.len() as int);
        assert(ws[k2].0 >= ops.len() as int);
        assert(fs2 < ops.len());
    }
}

proof fn lemma_windows_ordered(ops: Seq<DiffOp>, c: int, ws: Seq<(int, int)>, k1: int, k2: int)
    requires
        windows_cover(ops, ws),
        forall|k: int| 0 <= k < ws.len() ==> window_wf(ops, c, #[trigger] ws[k]),
        c >= 0,
        0 <= k1 < k2 < ws.len(),
    ensures
        ws[k1].1 < ws[k2].0,
    decreases k2 - k1,
{
    if k1 + 1 == k2 {
        assert(ws[k1].1 < ws[k1 + 1].0);
    } else {
        lemma_windows_ordered(ops, c, ws, k1, k2 - 1);
        assert(ws[k2 - 1].1 < ws[k2 - 1 + 1].0);
        lemma_window_nonempty(ops, c, ws[k2 - 1]);
    }
}

/// A well-formed window is a nonempty range.
proof fn lemma_window_nonempty(ops: Seq<DiffOp>, c: int, w: (int, int))
    requires
        window_wf(ops, c, w),
        c >= 0,
    ensures
        w.0 <= w.1,
{
    reveal(window_wf);
    reveal(window_around);
    let (fs, ls) = choose|fs: int, ls: int| window_around(ops, c, w, fs, ls);
    assert(w.0 == max_int(fs - c, 0));
    assert(w.1 == min_int(ls + c + 1, ops.len() as int));
}

/// Splitting law: two changes separated by a run of more than `2 * c` equal
/// operations never share a hunk window.
pub proof fn lemma_far_changes_split(
    ops: Seq<DiffOp>,
    c: int,
    hs: Seq<SpecHunk>,
    ws: Seq<(int, int)>,
    i: int,
    j: int,
)
    requires
        hunks_match_windows(ops, c, hs, ws),
        0 <= i < j < ops.len(),
        is_change(ops[i]),
        is_change(ops[j]),
        all_equal_between(ops, i + 1, j),
        j - i - 1 > 2 * c,
        c >= 0,
    ensures
        forall|k: int| 0 <= k < ws.len() ==> !((#[trigger] ws[k]).0 <= i && j < ws[k].1),
{
    assert forall|k: int| 0 <= k < ws.len() implies !((#[trigger] ws[k]).0 <= i && j
        < (ws[k]).1) by {
        if ws[k].0 <= i && j < ws[k].1 {
            lemma_window_change_bounds(ops, c, ws[k], i);
            let (fs, ls) = choose|fs: int, ls: int|
                #[trigger] window_around(ops, c, ws[k], fs, ls) && fs <= i <= ls;
            reveal(window_around);
            assert(all_equal_between(ops, ls + 1, ws[k].1));
            if j > ls {
                assert(!is_change(ops[j]));
            }
            assert(fs <= i < j <= ls);
            assert(j - i - 1 <= 2 * c);
        }
    }
}

/// The changed operations of a stream, in order.
pub open spec fn changes_of(ops: Seq<DiffOp>) -> Seq<DiffOp>
    decreases ops.len(),
{
    if ops.len() == 0 {
        Seq::empty()
    } else {
        (if is_change(ops[0]) {
            seq![ops[0]]
        } else {
            Seq::<DiffOp>::empty()
        }) + changes_of(ops.drop_first())
    }
}

/// `changes_of` distributes over concatenation.
pub proof fn lemma_changes_concat(x: Seq<DiffOp>, y: Seq<DiffOp>)
    ensures
        changes_of(x + y) == changes_of(x) + changes_of(y),
    decreases x.len(),
{
    if x.len() == 0 {
        assert(x + y =~= y);
        assert(changes_of(x) + changes_of(y) =~= changes_of(y));
    } else {
        assert((x + y)[0] == x[0]);
        assert((x + y).drop_first() =~= x.drop_first() + y);
        lemma_changes_concat(x.drop_first(), y);
        assert(changes_of(x + y) =~= changes_of(x) + changes_of(y));
    }
}

/// A stream without changed operations has no changes.
pub proof fn lemma_changes_none(s: Seq<DiffOp>)
    requires
        forall|i: int| 0 <= i < s.len() ==> !is_change(#[trigger] s[i]),
    ensures
        changes_of(s) == Seq::<DiffOp>::empty(),
    decreases s.len(),
{
    if s.len() > 0 {
        assert(forall|i: int|
            0 <= i < s.drop_first().len() ==> #[trigger] s.drop_first()[i] == s[i + 1]);
        lemma_changes_none(s.drop_first());
        assert(changes_of(s) =~= Seq::<DiffOp>::empty());
    }
}

/// The changed operations of a sequence of hunks, concatenated in order.
pub open spec fn hunks_changes(hs: Seq<SpecHunk>) -> Seq<DiffOp>
    decreases hs.len(),
{
    if hs.len() == 0 {
        Seq::empty()
    } else {
        changes_of(hs[0].ops) + hunks_changes(hs.drop_first())
    }
}

/// A hunk's operations are the window's slice of the stream.
proof fn lemma_hunk_ops(ops: Seq<DiffOp>, w: (int, int))
    ensures
        hunk_from_window(ops, w).ops == ops.subrange(w.0, w.1),
{
    reveal(hunk_from_window);
}

/// Coverage law: the changed operations of all hunks, concatenated in order,
/// are exactly the changed operations of the stream - every change lands in
/// one hunk, none in two, and their order is kept.
pub proof fn lemma_hunk_coverage(
    ops: Seq<DiffOp>,
    c: int,
    hs: Seq<SpecHunk>,
    ws: Seq<(int, int)>,
)
    requires
        hunks_match_windows(ops, c, hs, ws),
        c >= 0,
    ensures
        hunks_changes(hs) == changes_of(ops),
{
    if ws.len() == 0 {
        lemma_changes_none(ops);
        assert(hs.len() == 0);
    } else {
        lemma_hunk_coverage_rec(ops, c, hs, ws, 0);
        assert(hunks_changes(hs.skip(0)) == changes_of(
            ops.subrange(ws[0].0, ops.len() as int),
        ));
        assert(hs.skip(0) =~= hs);
        lemma_window_in_bounds(ops, c, ws, 0);
        assert(ops.subrange(0, ops.len() as int) =~= ops.subrange(0, ws[0].0) + ops.subrange(
            ws[0].0,
            ops.len() as int,
        ));
        lemma_changes_concat(ops.subrange(0, ws[0].0), ops.subrange(ws[0].0, ops.len() as int));
        assert(forall|i: int|
            0 <= i < ops.subrange(0, ws[0].0).len() ==> !is_change(
                #[trigger] ops.subrange(0, ws[0].0)[i],
            ));
        lemma_changes_none(ops.subrange(0, ws[0].0));
        assert(ops.subrange(0, ops.len() as int) =~= ops);
        assert(changes_of(ops) =~= changes_of(ops.subrange(ws[0].0, ops.len() as int)));
    }
}

/// A covering window stays within the stream.
proof fn lemma_window_in_bounds(ops: Seq<DiffOp>, c: int, ws: Seq<(int, int)>, k: int)
    requires
        forall|t: int| 0 <= t < ws.len() ==> window_wf(ops, c, #[trigger] ws[t]),
        0 <= k < ws.len(),
        c >= 0,
    ensures
        0 <= ws[k].0 <= ws[k].1 <= ops.len(),
{
    reveal(window_wf);
    reveal(window_around);
    let (fs, ls) = choose|fs: int, ls: int| window_around(ops, c, ws[k], fs, ls);
}

/// From window `k` on, the hunks' changes are the stream's changes.
#[verifier::rlimit(100)]
proof fn lemma_hunk_coverage_rec(
    ops: Seq<DiffOp>,
    c: int,
    hs: Seq<SpecHunk>,
    ws: Seq<(int, int)>,
    k: int,
)
    requires
        hunks_match_windows(ops, c, hs, ws),
        c >= 0,
        0 <= k < ws.len(),
    ensures
        hunks_changes(hs.skip(k)) == changes_of(ops.subrange(ws[k].0, ops.len() as int)),
    decreases ws.len() - k,
{
    lemma_window_in_bounds(ops, c, ws, k);
    assert(hs.skip(k)[0] == hs[k]);
    assert(hs.skip(k).drop_first() =~= hs.skip(k + 1));
    assert(hs[k] == hunk_from_window(ops, ws[k]));
    lemma_hunk_ops(ops, ws[k]);
    if k == ws.len() - 1 {
        // last window: everything after it is equal
        assert(hs.skip(k + 1) =~= Seq::<SpecHunk>::empty());
        assert(hunks_changes(hs.skip(k)) =~= changes_of(hs[k].ops)
            + hunks_changes(Seq::<SpecHunk>::empty()));
        assert(ops.subrange(ws[k].0, ops.len() as int) =~= ops.subrange(ws[k].0, ws[k].1)
            + ops.subrange(ws[k].1, ops.len() as int));
        lemma_changes_concat(
            ops.subrange(ws[k].0, ws[k].1),
            ops.subrange(ws[k].1, ops.len() as int),
        );
        assert(all_equal_between(ops, ws[ws.len() - 1].1, ops.len() as int));
        assert(forall|i: int|
            0 <= i < ops.subrange(ws[k].1, ops.len() as int).len() ==> !is_change(
                #[trigger] ops.subrange(ws[k].1, ops.len() as int)[i],
            ));
        lemma_changes_none(ops.subrange(ws[k].1, ops.len() as int));
        assert(hunks_changes(hs.skip(k)) =~= changes_of(
            ops.subrange(ws[k].0, ops.len() as int),
        ));
    } else {
        lemma_hunk_coverage_rec(ops, c, hs, ws, k + 1);
        lemma_window_in_bounds(ops, c, ws, k + 1);
        assert(ws[k].1 < ws[k + 1].0);
        assert(ops.subrange(ws[k].0, ops.len() as int) =~= ops.subrange(ws[k].0, ws[k].1)
            + ops.subrange(ws[k].1, ws[k + 1].0) + ops.subrange(ws[k + 1].0, ops.len() as int));
        lemma_changes_concat(
            ops.subrange(ws[k].0, ws[k].1) + ops.subrange(ws[k].1, ws[k + 1].0),
            ops.subrange(ws[k + 1].0, ops.len() as int),
        );
        lemma_changes_concat(
            ops.subrange(ws[k].0, ws[k].1),
            ops.subrange(ws[k].1, ws[k + 1].0),
        );
        assert(all_equal_between(ops, ws[k].1, ws[k + 1].0));
        assert(forall|i: int|
            0 <= i < ops.subrange(ws[k].1, ws[k + 1].0).len() ==> !is_change(
                #[trigger] ops.subrange(ws[k].1, ws[k + 1].0)[i],
            ));
        lemma_changes_none(ops.subrange(ws[k].1, ws[k + 1].0));
        assert(hunks_changes(hs.skip(k)) =~= changes_of(
            ops.subrange(ws[k].0, ops.len() as int),
        ));
    }
}

/// A change sits in only one window.
proof fn lemma_same_window(
    ops: Seq<DiffOp>,
    c: int,
    ws: Seq<(int, int)>,
    i: int,
    k1: int,
    k2: int,
)
    requires
        windows_cover(ops, ws),
        forall|k: int| 0 <= k < ws.len() ==> window_wf(ops, c, #[trigger] ws[k]),
        c >= 0,
        0 <= k1 < ws.len(),
        0 <= k2 < ws.len(),
        ws[k1].0 <= i < ws[k1].1,
        ws[k2].0 <= i < ws[k2].1,
    ensures
        k1 == k2,
{
    if k1 < k2 {
        lemma_windows_ordered(ops, c, ws, k1, k2);
    } else if k2 < k1 {
        lemma_windows_ordered(ops, c, ws, k2, k1);
    }
}

/// A maximal run of consecutive changes stays inside one window.
proof fn lemma_run_window(
    ops: Seq<DiffOp>,
    c: int,
    hs: Seq<SpecHunk>,
    ws: Seq<(int, int)>,
    x: int,
    y: int,
    k: int,
)
    requires
        hunks_match_windows(ops, c, hs, ws),
        c >= 0,
        0 <= x <= y < ops.len(),
        forall|i: int| x <= i <= y ==> is_change(#[trigger] ops[i]),
        0 <= k < ws.len(),
        ws[k].0 <= x < ws[k].1,
    ensures
        ws[k].0 <= y < ws[k].1,
    decreases y - x,
{
    if x < y {
        lemma_run_window(ops, c, hs, ws, x, y - 1, k);
        assert(all_equal_between(ops, (y - 1) + 1, y));
        lemma_close_changes_share_window(ops, c, hs, ws, y - 1, y);
        let k2 = choose|k2: int|
            0 <= k2 < ws.len() && (#[trigger] ws[k2]).0 <= y - 1 && y < ws[k2].1;
        lemma_same_window(ops, c, ws, y - 1, k, k2);
    }
}

/// Every window holds at least one change.
proof fn lemma_window_has_change(ops: Seq<DiffOp>, c: int, ws: Seq<(int, int)>, k: int)
    requires
        forall|t: int| 0 <= t < ws.len() ==> window_wf(ops, c, #[trigger] ws[t]),
        c >= 0,
        0 <= k < ws.len(),
    ensures
        exists|i: int| ws[k].0 <= i < ws[k].1 && 0 <= i < ops.len() && #[trigger] is_change(
            ops[i],
        ),
{
    reveal(window_wf);
    let (fs, ls) = choose|fs: int, ls: int| window_around(ops, c, ws[k], fs, ls);
    lemma_window_facts(ops, c, ws[k], fs, ls);
    assert(ws[k].0 <= fs < ws[k].1 && 0 <= fs < ops.len() && is_change(ops[fs]));
}

/// The position `j` lies in none of the windows, so no hunk holds its
/// operation.
pub open spec fn in_no_window(ws: Seq<(int, int)>, j: int) -> bool {
    forall|k: int| 0 <= k < ws.len() ==> !((#[trigger] ws[k]).0 <= j < ws[k].1)
}

/// A stream that is exactly two runs of changes with only `Equal` operations
/// before, between, and after them.
pub open spec fn two_runs_shape(ops: Seq<DiffOp>, p1: int, p2: int, q1: int, q2: int) -> bool {
    &&& 0 <= p1 <= p2 < q1 <= q2 < ops.len()
    &&& forall|i: int| p1 <= i <= p2 ==> is_change(#[trigger] ops[i])
    &&& forall|i: int| q1 <= i <= q2 ==> is_change(#[trigger] ops[i])
    &&& all_equal_between(ops, 0, p1)
    &&& all_equal_between(ops, p2 + 1, q1)
    &&& all_equal_between(ops, q2 + 1, ops.len() as int)
}

/// Threshold law, splitting direction: a stream of exactly two change runs
/// separated by more than `2 * c` equal operations assembles into exactly
/// two hunks.
#[verifier::rlimit(100)]
pub proof fn lemma_two_clusters_split(
    ops: Seq<DiffOp>,
    c: int,
    hs: Seq<SpecHunk>,
    ws: Seq<(int, int)>,
    p1: int,
    p2: int,
    q1: int,
    q2: int,
)
    requires
        hunks_match_windows(ops, c, hs, ws),
        two_runs_shape(ops, p1, p2, q1, q2),
        q1 - p2 - 1 > 2 * c,
        c >= 0,
    ensures
        hs.len() == 2,
        exists|j: int| p2 < j < q1 && #[trigger] in_no_window(ws, j),
{
    lemma_change_located(ops, ws, p1);
    lemma_change_located(ops, ws, q1);
    let k1 = choose|k: int| 0 <= k < ws.len() && (#[trigger] ws[k]).0 <= p1 < ws[k].1;
    let k2 = choose|k: int| 0 <= k < ws.len() && (#[trigger] ws[k]).0 <= q1 < ws[k].1;
    lemma_run_window(ops, c, hs, ws, p1, p2, k1);
    lemma_run_window(ops, c, hs, ws, q1, q2, k2);
    // the two runs cannot share a window
    lemma_far_changes_split(ops, c, hs, ws, p2, q1);
    assert(k1 != k2) by {
        if k1 == k2 {
            assert(ws[k1].0 <= p2 && q1 < ws[k1].1);
        }
    }
    // and no window holds anything else
    assert forall|k: int| #![trigger ws[k]] 0 <= k < ws.len() implies k == k1 || k == k2 by {
        lemma_window_has_change(ops, c, ws, k);
        let x = choose|x: int|
            ws[k].0 <= x < ws[k].1 && 0 <= x < ops.len() && #[trigger] is_change(ops[x]);
        // every change lies in one of the two runs
        assert(p1 <= x <= p2 || q1 <= x <= q2) by {
            if x < p1 || (p2 < x && x < q1) || q2 < x {
                assert(!is_change(ops[x]));
            }
        }
        if p1 <= x && x <= p2 {
            lemma_run_window(ops, c, hs, ws, p1, x, k1);
            lemma_same_window(ops, c, ws, x, k, k1);
        } else {
            lemma_run_window(ops, c, hs, ws, q1, x, k2);
            lemma_same_window(ops, c, ws, x, k, k2);
        }
    }
    assert(ws.len() >= 2);
    assert(ws.len() <= 2) by {
        if ws.len() > 2 {
            assert(0 == k1 || 0 == k2);
            assert(1 == k1 || 1 == k2);
            assert(2 == k1 || 2 == k2);
        }
    }
    // one separating Equal op between the two windows belongs to neither
    lemma_window_change_bounds(ops, c, ws[k1], p2);
    let (fs1, ls1) = choose|fs1: int, ls1: int|
        #[trigger] window_around(ops, c, ws[k1], fs1, ls1) && fs1 <= p2 <= ls1;
    lemma_window_change_bounds(ops, c, ws[k2], q1);
    let (fs2, ls2) = choose|fs2: int, ls2: int|
        #[trigger] window_around(ops, c, ws[k2], fs2, ls2) && fs2 <= q1 <= ls2;
    lemma_window_facts(ops, c, ws[k1], fs1, ls1);
    lemma_window_facts(ops, c, ws[k2], fs2, ls2);
    // the clusters' outer changes are the runs' outer changes
    assert(ls1 == p2) by {
        assert(p1 <= ls1 <= p2 || q1 <= ls1 <= q2) by {
            if ls1 < p1 || (p2 < ls1 && ls1 < q1) || q2 < ls1 {
                assert(!is_change(ops[ls1]));
            }
        }
        if q1 <= ls1 {
            lemma_run_window(ops, c, hs, ws, q1, ls1, k2);
            lemma_same_window(ops, c, ws, ls1, k1, k2);
        }
    }
    assert(fs2 == q1) by {
        assert(ws[k2].0 <= fs2);
        if q1 < fs2 {
            assert(!is_change(ops[q1]));
        }
        assert(p1 <= fs2 <= p2 || q1 <= fs2 <= q2) by {
            if fs2 < p1 || (p2 < fs2 && fs2 < q1) || q2 < fs2 {
                assert(!is_change(ops[fs2]));
            }
        }
        if fs2 <= p2 {
            lemma_run_window(ops, c, hs, ws, p1, p2, k1);
            lemma_run_window(ops, c, hs, ws, fs2, p2, k2);
            lemma_same_window(ops, c, ws, p2, k1, k2);
        }
    }
    let j = p2 + c + 1;
    assert(ws[k1].1 <= j);
    assert(j < ws[k2].0) by {
        assert(ws[k2].0 == max_int(q1 - c, 0));
    }
    assert(p2 < j < q1);
    assert(in_no_window(ws, j));
}

/// Threshold law, merging direction: a stream of exactly two change runs
/// separated by at most `2 * c` equal operations assembles into exactly one
/// hunk.
#[verifier::rlimit(100)]
pub proof fn lemma_two_clusters_merge(
    ops: Seq<DiffOp>,
    c: int,
    hs: Seq<SpecHunk>,
    ws: Seq<(int, int)>,
    p1: int,
    p2: int,
    q1: int,
    q2: int,
)
    requires
        hunks_match_windows(ops, c, hs, ws),
        two_runs_shape(ops, p1, p2, q1, q2),
        q1 - p2 - 1 <= 2 * c,
        c >= 0,
    ensures
        hs.len() == 1,
        ws.len() == 1 && ws[0].0 <= p1 && q2 < ws[0].1,
{
    lemma_change_located(ops, ws, p1);
    let k1 = choose|k: int| 0 <= k < ws.len() && (#[trigger] ws[k]).0 <= p1 < ws[k].1;
    lemma_run_window(ops, c, hs, ws, p1, p2, k1);
    // the bridge between the runs keeps them in the same window
    lemma_close_changes_share_window(ops, c, hs, ws, p2, q1);
    let kb = choose|k: int|
        0 <= k < ws.len() && (#[trigger] ws[k]).0 <= p2 && q1 < ws[k].1;
    lemma_same_window(ops, c, ws, p2, k1, kb);
    lemma_run_window(ops, c, hs, ws, q1, q2, k1);
    assert forall|k: int| #![trigger ws[k]] 0 <= k < ws.len() implies k == k1 by {
        lemma_window_has_change(ops, c, ws, k);
        let x = choose|x: int|
            ws[k].0 <= x < ws[k].1 && 0 <= x < ops.len() && #[trigger] is_change(ops[x]);
        assert(p1 <= x <= p2 || q1 <= x <= q2) by {
            if x < p1 || (p2 < x && x < q1) || q2 < x {
                assert(!is_change(ops[x]));
            }
        }
        if p1 <= x && x <= p2 {
            lemma_run_window(ops, c, hs, ws, p1, x, k1);
        } else {
            lemma_run_window(ops, c, hs, ws, q1, x, k1);
        }
        lemma_same_window(ops, c, ws, x, k, k1);
    }
    assert(ws.len() >= 1);
    assert(ws.len() <= 1) by {
        if ws.len() > 1 {
            assert(0 == k1);
            assert(1 == k1);
        }
    }
    assert(k1 == 0);
}

/// An `Equal` operation's token appears in both projections of the script.
proof fn lemma_equal_token_in_both(ops: Seq<DiffOp>, q: int)
    requires
        0 <= q < ops.len(),
        ops[q] is Equal,
    ensures
        script_a(ops).contains(op_token(ops[q])),
        script_b(ops).contains(op_token(ops[q])),
    decreases ops.len(),
{
    if q == 0 {
        assert(script_a(ops)[0] == op_token(ops[0]));
        assert(script_b(ops)[0] == op_token(ops[0]));
    } else {
        lemma_equal_token_in_both(ops.drop_first(), q - 1);
        assert(ops.drop_first()[q - 1] == ops[q]);
        let t = op_token(ops[q]);
        let ia = choose|ia: int| 0 <= ia < script_a(ops.drop_first()).len() && script_a(
            ops.drop_first(),
        )[ia] == t;
        let ib = choose|ib: int| 0 <= ib < script_b(ops.drop_first()).len() && script_b(
            ops.drop_first(),
        )[ib] == t;
        match ops[0] {
            DiffOp::Insert(_) => {
                assert(script_a(ops) == script_a(ops.drop_first()));
                assert(script_b(ops)[ib + 1] == t);
            },
            DiffOp::Delete(_) => {
                assert(script_b(ops) == script_b(ops.drop_first()));
                assert(script_a(ops)[ia + 1] == t);
            },
            DiffOp::Equal(_) => {
                assert(script_a(ops)[ia + 1] == t);
                assert(script_b(ops)[ib + 1] == t);
            },
        }
    }
}

/// Disjointness law: when no token of side A equals a token of side B, every
/// faithful script is all changes - it has no `Equal` operation and exactly
/// `|A| + |B|` operations, so any two faithful scripts have the same, and
/// least possible, change count.
pub proof fn lemma_disjoint_sides_all_changes(
    ops: Seq<DiffOp>,
    av: Seq<Seq<char>>,
    bv: Seq<Seq<char>>,
)
    requires
        script_a(ops) == av,
        script_b(ops) == bv,
        forall|i: int, j: int|
            0 <= i < av.len() && 0 <= j < bv.len() ==> #[trigger] av[i] != #[trigger] bv[j],
    ensures
        forall|q: int| 0 <= q < ops.len() ==> !((#[trigger] ops[q]) is Equal),
        ops.len() == av.len() + bv.len(),
    decreases ops.len(),
{
    assert forall|q: int| 0 <= q < ops.len() implies !((#[trigger] ops[q]) is Equal) by {
        if ops[q] is Equal {
            lemma_equal_token_in_both(ops, q);
            let t = op_token(ops[q]);
            let ia = choose|ia: int| 0 <= ia < av.len() && av[ia] == t;
            let ib = choose|ib: int| 0 <= ib < bv.len() && bv[ib] == t;
            assert(av[ia] != bv[ib]);
        }
    }
    lemma_script_lens(ops);
}

/// A script's length is the sum of its projections' lengths minus its
/// `Equal` count, counted once per projection.
proof fn lemma_script_lens(ops: Seq<DiffOp>)
    requires
        forall|q: int| 0 <= q < ops.len() ==> !((#[trigger] ops[q]) is Equal),
    ensures
        ops.len() == script_a(ops).len() + script_b(ops).len(),
    decreases ops.len(),
{
    if ops.len() > 0 {
        assert(forall|q: int|
            0 <= q < ops.drop_first().len() ==> #[trigger] ops.drop_first()[q] == ops[q + 1]);
        lemma_script_lens(ops.drop_first());
    }
}

} // verus!
