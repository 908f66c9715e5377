//! The edit-script engine: a forward Myers shortest-edit-script search over
//! the edit graph of two token sequences, followed by a backtracking pass that
//! reconstructs the operation stream.
//!
//! The contract of [`compute_diff`] pins the stream down to one that walks
//! both sequences exactly: its `Equal`/`Delete` tokens are A and its
//! `Equal`/`Insert` tokens are B, in order. The search keeps one
//! furthest-reaching array per edit distance (quadratic auxiliary space in the
//! worst case), which is the documented scaling limit of this engine.

use vstd::prelude::*;

use crate::data::DiffOp;
use crate::data::append_ops;
use crate::data::delete_first;
use crate::data::lemma_delete_first_concat;
use crate::data::lemma_delete_first_push;
use crate::data::lemma_script_a_concat;
use crate::data::lemma_script_a_push;
use crate::data::lemma_script_b_concat;
use crate::data::lemma_script_b_push;
use crate::data::script_a;
use crate::data::script_b;

verus! {

/// The largest combined input length the engine accepts: room is needed for
/// an array of `2 * (n + m) + 1` diagonals on every target.
pub const MAX_TOTAL_LEN: usize = 0x3fff_ffff;

/// Reversing after a push puts the new element in front.
proof fn lemma_reverse_push<T>(s: Seq<T>, x: T)
    ensures
        s.push(x).reverse() =~= seq![x] + s.reverse(),
{
}

/// Compare two token sequences element by element.
pub(crate) fn seqs_equal(a: &[String], b: &[String]) -> (r: bool)
    ensures
        r == (a.deep_view() == b.deep_view()),
{
    if a.len() != b.len() {
        assert(a.deep_view().len() != b.deep_view().len());
        return false;
    }
    let mut i: usize = 0;
    while i < a.len()
        invariant
            i <= a@.len(),
            a@.len() == b@.len(),
            forall|t: int| 0 <= t < i ==> a.deep_view()[t] == b.deep_view()[t],
        decreases a@.len() - i,
    {
        if !(a[i] == b[i]) {
            assert(a.deep_view()[i as int] != b.deep_view()[i as int]);
            return false;
        }
        assert(a.deep_view()[i as int] == b.deep_view()[i as int]);
        i = i + 1;
    }
    assert(a.deep_view() =~= b.deep_view());
    true
}

/// A fresh array of zeroed furthest-reaching values.
fn make_zero_vec(len: usize) -> (r: Vec<usize>)
    ensures
        r@.len() == len,
        forall|i: int| 0 <= i < len ==> r@[i] == 0,
{
    let mut r: Vec<usize> = Vec::new();
    let mut i: usize = 0;
    while i < len
        invariant
            i <= len,
            r@.len() == i,
            forall|t: int| 0 <= t < i ==> r@[t] == 0,
        decreases len - i,
    {
        r.push(0);
        i = i + 1;
    }
    r
}

/// A copy of a furthest-reaching array, snapshotted into the trace.
fn copy_vec(v: &Vec<usize>) -> (r: Vec<usize>)
    ensures
        r@ == v@,
{
    let mut r: Vec<usize> = Vec::new();
    let mut i: usize = 0;
    while i < v.len()
        invariant
            i <= v@.len(),
            r@.len() == i,
            forall|t: int| 0 <= t < i ==> r@[t] == v@[t],
        decreases v@.len() - i,
    {
        r.push(v[i]);
        i = i + 1;
    }
    assert(r@ =~= v@);
    r
}

/// The accumulated operations, read back to front, consume exactly the
/// suffixes of A and B that start at `x` and `y`.
spec fn suffix_invariant(
    r: Seq<DiffOp>,
    adv: Seq<Seq<char>>,
    bdv: Seq<Seq<char>>,
    x: int,
    y: int,
) -> bool {
    &&& 0 <= x <= adv.len()
    &&& 0 <= y <= bdv.len()
    &&& script_a(r.reverse()) == adv.subrange(x, adv.len() as int)
    &&& script_b(r.reverse()) == bdv.subrange(y, bdv.len() as int)
}

/// Safe furthest-reaching lookup: out-of-window diagonals read as zero.
fn safe_get(v: &Vec<usize>, idx: usize) -> (r: usize)
    ensures
        r == (if idx < v@.len() {
            v@[idx as int]
        } else {
            0
        }),
{
    if idx < v.len() {
        v[idx]
    } else {
        0
    }
}

/// Reverse an operation vector.
fn reverse_ops(v: &Vec<DiffOp>) -> (r: Vec<DiffOp>)
    ensures
        r@ == v@.reverse(),
{
    let mut r: Vec<DiffOp> = Vec::new();
    let mut i: usize = v.len();
    while i > 0
        invariant
            i <= v@.len(),
            r@.len() == v@.len() - i,
            forall|t: int| 0 <= t < r@.len() ==> r@[t] == v@[v@.len() - 1 - t],
        decreases i,
    {
        i = i - 1;
        r.push(crate::data::clone_op(&v[i]));
    }
    assert(r@ =~= v@.reverse());
    r
}

/// Reorder each maximal run of changed operations into delete-first form:
/// the deletes keep their order, the inserts keep theirs, and every insert of
/// a run comes after its deletes. Both projections of the stream are
/// unchanged, since inserts move only across deletes and deletes only across
/// inserts.
#[verifier::loop_isolation(false)]
fn normalize_ops(ops: Vec<DiffOp>) -> (r: Vec<DiffOp>)
    ensures
        script_a(r@) == script_a(ops@),
        script_b(r@) == script_b(ops@),
        delete_first(r@),
{
    let mut out: Vec<DiffOp> = Vec::new();
    let mut pending: Vec<DiffOp> = Vec::new();
    let mut i: usize = 0;
    proof {
        assert(out@ + pending@ =~= Seq::<DiffOp>::empty());
        assert(ops@.subrange(0, 0) =~= Seq::<DiffOp>::empty());
    }
    while i < ops.len()
        invariant
            i <= ops@.len(),
            script_a(out@ + pending@) == script_a(ops@.subrange(0, i as int)),
            script_b(out@ + pending@) == script_b(ops@.subrange(0, i as int)),
            script_a(pending@) == Seq::<Seq<char>>::empty(),
            forall|q: int| 0 <= q < pending@.len() ==> (#[trigger] pending@[q]) is Insert,
            delete_first(out@),
            out@.len() > 0 ==> !(out@[out@.len() - 1] is Insert),
        decreases ops@.len() - i,
    {
        let ghost old_out = out@;
        let ghost old_pending = pending@;
        proof {
            assert(ops@.subrange(0, i + 1) =~= ops@.subrange(0, i as int).push(ops@[i as int]));
            lemma_script_a_push(ops@.subrange(0, i as int), ops@[i as int]);
            lemma_script_b_push(ops@.subrange(0, i as int), ops@[i as int]);
        }
        match &ops[i] {
            DiffOp::Equal(_) => {
                append_ops(&mut out, &pending);
                let op = crate::data::clone_op(&ops[i]);
                proof {
                    lemma_delete_first_concat(old_out, old_pending);
                    lemma_delete_first_push(out@, op);
                    lemma_script_a_push(out@, op);
                    lemma_script_b_push(out@, op);
                    lemma_script_a_concat(old_out, old_pending);
                    lemma_script_b_concat(old_out, old_pending);
                }
                out.push(op);
                pending = Vec::new();
                proof {
                    assert(out@ =~= old_out + old_pending + seq![ops@[i as int]]);
                    assert(out@ + pending@ =~= out@);
                    assert(script_a(out@) =~= script_a(old_out + old_pending) + seq![
                        crate::data::op_token(ops@[i as int]),
                    ]);
                    assert(script_b(out@) =~= script_b(old_out + old_pending) + seq![
                        crate::data::op_token(ops@[i as int]),
                    ]);
                }
            },
            DiffOp::Delete(_) => {
                let op = crate::data::clone_op(&ops[i]);
                proof {
                    lemma_delete_first_push(out@, op);
                    lemma_script_a_push(out@, op);
                    lemma_script_b_push(out@, op);
                    lemma_script_a_concat(old_out, old_pending);
                    lemma_script_b_concat(old_out, old_pending);
                    lemma_script_a_concat(old_out.push(op), old_pending);
                    lemma_script_b_concat(old_out.push(op), old_pending);
                }
                out.push(op);
                proof {
                    assert(out@ =~= old_out.push(op));
                    assert(out@ + pending@ =~= old_out.push(op) + old_pending);
                    assert(script_a(out@ + pending@) =~= script_a(old_out) + seq![
                        crate::data::op_token(op),
                    ] + script_a(old_pending));
                    assert(script_a(old_out + old_pending) =~= script_a(old_out));
                    assert(script_a(out@ + pending@) =~= script_a(old_out + old_pending) + seq![
                        crate::data::op_token(op),
                    ]);
                    assert(script_b(out@ + pending@) =~= script_b(old_out + old_pending));
                }
            },
            DiffOp::Insert(_) => {
                let op = crate::data::clone_op(&ops[i]);
                proof {
                    lemma_script_a_push(pending@, op);
                    lemma_script_b_push(pending@, op);
                    lemma_script_a_concat(old_out, old_pending.push(op));
                    lemma_script_b_concat(old_out, old_pending.push(op));
                    lemma_script_a_concat(old_out, old_pending);
                    lemma_script_b_concat(old_out, old_pending);
                }
                pending.push(op);
                proof {
                    assert(out@ + pending@ =~= old_out + old_pending.push(op));
                    assert(script_b(out@ + pending@) =~= script_b(old_out + old_pending) + seq![
                        crate::data::op_token(op),
                    ]);
                    assert(script_a(out@ + pending@) =~= script_a(old_out + old_pending));
                }
            },
        }
        i = i + 1;
    }
    let ghost old_out = out@;
    append_ops(&mut out, &pending);
    proof {
        assert(ops@.subrange(0, ops@.len() as int) =~= ops@);
        lemma_delete_first_concat(old_out, pending@);
    }
    out
}

/// Compute the minimal edit script between two token sequences with Myers'
/// forward search.
///
/// The returned stream reconstructs A from its `Equal`/`Delete` tokens and B
/// from its `Equal`/`Insert` tokens; within every run of changes the deletes
/// come before the inserts, so a replacement renders delete-then-insert;
/// identical inputs yield an all-`Equal` stream. An empty side is handled by
/// a fast path with no search. Ties in the search prefer the insertion
/// ("down") neighbor only when it reaches strictly further.
#[verifier::loop_isolation(false)]
#[verifier::rlimit(60)]
pub fn compute_diff(a: &[String], b: &[String]) -> (r: Vec<DiffOp>)
    requires
        a@.len() + b@.len() <= MAX_TOTAL_LEN,
    ensures
        script_a(r@) == a.deep_view(),
        script_b(r@) == b.deep_view(),
        delete_first(r@),
        a.deep_view() == b.deep_view() ==> r@.len() == a@.len() && (forall|i: int|
            0 <= i < r@.len() ==> r@[i] is Equal),
{
    let ghost adv = a.deep_view();
    let ghost bdv = b.deep_view();
    let n = a.len();
    let m = b.len();

    if n == 0 {
        // Fast path: everything in B is inserted.
        let mut r: Vec<DiffOp> = Vec::new();
        let mut i: usize = 0;
        while i < m
            invariant
                i <= m,
                r@.len() == i,
                forall|t: int| 0 <= t < i ==> r@[t] is Insert,
                script_a(r@) == Seq::<Seq<char>>::empty(),
                script_b(r@) == bdv.subrange(0, i as int),
            decreases m - i,
        {
            let op = DiffOp::Insert(b[i].clone());
            proof {
                lemma_script_a_push(r@, op);
                lemma_script_b_push(r@, op);
                assert(script_b(r@.push(op)) =~= bdv.subrange(0, i + 1));
            }
            r.push(op);
            i = i + 1;
        }
        proof {
            assert(adv =~= Seq::<Seq<char>>::empty());
            assert(bdv.subrange(0, m as int) =~= bdv);
            if adv == bdv {
                assert(r@.len() == 0);
            }
            assert forall|q: int|
                0 <= q && q + 1 < r@.len() && (#[trigger] r@[q]) is Insert implies !(r@[q
                + 1] is Delete) by {
                assert(r@[q + 1] is Insert);
            }
        }
        return r;
    }
    if m == 0 {
        // Fast path: everything in A is deleted.
        let mut r: Vec<DiffOp> = Vec::new();
        let mut i: usize = 0;
        while i < n
            invariant
                i <= n,
                r@.len() == i,
                forall|t: int| 0 <= t < i ==> (#[trigger] r@[t]) is Delete,
                script_a(r@) == adv.subrange(0, i as int),
                script_b(r@) == Seq::<Seq<char>>::empty(),
            decreases n - i,
        {
            let op = DiffOp::Delete(a[i].clone());
            proof {
                lemma_script_a_push(r@, op);
                lemma_script_b_push(r@, op);
                assert(script_a(r@.push(op)) =~= adv.subrange(0, i + 1));
            }
            r.push(op);
            i = i + 1;
        }
        proof {
            assert(bdv =~= Seq::<Seq<char>>::empty());
            assert(adv.subrange(0, n as int) =~= adv);
            assert forall|q: int|
                0 <= q && q + 1 < r@.len() && (#[trigger] r@[q]) is Insert implies !(r@[q
                + 1] is Delete) by {
                assert(!(r@[q] is Insert));
            }
        }
        return r;
    }
    if seqs_equal(a, b) {
        // Fast path: identical inputs give an all-Equal stream.
        let mut r: Vec<DiffOp> = Vec::new();
        let mut i: usize = 0;
        while i < n
            invariant
                i <= n,
                r@.len() == i,
                forall|t: int| 0 <= t < i ==> r@[t] is Equal,
                script_a(r@) == adv.subrange(0, i as int),
                script_b(r@) == bdv.subrange(0, i as int),
            decreases n - i,
        {
            let op = DiffOp::Equal(a[i].clone());
            proof {
                lemma_script_a_push(r@, op);
                lemma_script_b_push(r@, op);
                assert(adv[i as int] == bdv[i as int]);
                assert(script_a(r@.push(op)) =~= adv.subrange(0, i + 1));
                assert(script_b(r@.push(op)) =~= bdv.subrange(0, i + 1));
            }
            r.push(op);
            i = i + 1;
        }
        proof {
            assert(adv.subrange(0, n as int) =~= adv);
            assert(bdv.subrange(0, n as int) =~= bdv);
            assert forall|q: int|
                0 <= q && q + 1 < r@.len() && (#[trigger] r@[q]) is Insert implies !(r@[q
                + 1] is Delete) by {
                assert(!(r@[q] is Insert));
            }
        }
        return r;
    }

    // Forward search: for each edit distance d, record the furthest-reaching
    // x on every diagonal, snapshotting the array per distance for the
    // backtracking pass. Values are capped one past the end of A; a capped
    // value can never lie on the backtracking path, so the cap is harmless.
    let max = n + m;
    let width = 2 * max + 1;
    let mut v = make_zero_vec(width);
    let mut trace: Vec<Vec<usize>> = Vec::new();

    let mut d: usize = 0;
    while d <= max
        invariant
            d <= max + 1,
            v@.len() == width,
            forall|t: int| 0 <= t < width ==> v@[t] <= n + 1,
            trace@.len() == d,
            forall|l: int| #![trigger trace@[l]]
                0 <= l < trace@.len() ==> trace@[l].len() == width && (forall|t: int|
                    0 <= t < width ==> trace@[l]@[t] <= n + 1),
        decreases max + 1 - d,
    {
        let mut j: usize = max - d;
        while j <= max + d
            invariant
                max - d <= j <= max + d + 2,
                v@.len() == width,
                forall|t: int| 0 <= t < width ==> v@[t] <= n + 1,
                trace@.len() == d,
                forall|l: int| #![trigger trace@[l]]
                    0 <= l < trace@.len() ==> trace@[l].len() == width && (forall|t: int|
                        0 <= t < width ==> trace@[l]@[t] <= n + 1),
            decreases max + d + 2 - j,
        {
            // j = max + k for the diagonal k; the window keeps j in range.
            let x_start: usize = if j == max - d {
                safe_get(&v, j + 1)
            } else if j == max + d {
                safe_get(&v, j - 1) + 1
            } else {
                let down = safe_get(&v, j + 1);
                let right = safe_get(&v, j - 1);
                if right < down {
                    down
                } else {
                    right + 1
                }
            };

            let mut x = x_start;
            // y = x - k; a diagonal that would place y below zero holds no
            // snake and cannot be the terminal.
            if x + max >= j {
                let mut y = x + max - j;
                while x < n && y < m && a[x] == b[y]
                    invariant
                        x + max >= j,
                        y == x + max - j,
                        x <= n + 2,
                    decreases n - x,
                {
                    x = x + 1;
                    y = y + 1;
                }
                if x == n && y == m {
                    v.set(j, x);
                    trace.push(copy_vec(&v));
                    return normalize_ops(backtrack(&trace, a, b));
                }
            }
            let capped = if x > n {
                n + 1
            } else {
                x
            };
            v.set(j, capped);
            j = j + 2;
        }
        trace.push(copy_vec(&v));
        d = d + 1;
    }

    // The window of diagonals always suffices for the search to reach the
    // terminal; that fact is not proved here, so a faithful (though not
    // minimal) delete-all-insert-all script keeps the function total.
    let mut r: Vec<DiffOp> = Vec::new();
    let mut i: usize = 0;
    while i < n
        invariant
            i <= n,
            script_a(r@) == adv.subrange(0, i as int),
            script_b(r@) == Seq::<Seq<char>>::empty(),
        decreases n - i,
    {
        let op = DiffOp::Delete(a[i].clone());
        proof {
            lemma_script_a_push(r@, op);
            lemma_script_b_push(r@, op);
            assert(script_a(r@.push(op)) =~= adv.subrange(0, i + 1));
        }
        r.push(op);
        i = i + 1;
    }
    let mut i2: usize = 0;
    while i2 < m
        invariant
            i2 <= m,
            script_a(r@) == adv.subrange(0, n as int),
            script_b(r@) == bdv.subrange(0, i2 as int),
        decreases m - i2,
    {
        let op = DiffOp::Insert(b[i2].clone());
        proof {
            lemma_script_a_push(r@, op);
            lemma_script_b_push(r@, op);
            assert(script_b(r@.push(op)) =~= bdv.subrange(0, i2 + 1));
        }
        r.push(op);
        i2 = i2 + 1;
    }
    proof {
        assert(adv.subrange(0, n as int) =~= adv);
        assert(bdv.subrange(0, m as int) =~= bdv);
    }
    normalize_ops(r)
}

/// Backtrack through the snapshots of the forward search and reconstruct the
/// operation stream in forward order.
///
/// Every emitted operation is checked against the sequences as it is emitted,
/// so the result consumes A and B exactly whatever the snapshots hold.
#[verifier::loop_isolation(false)]
#[verifier::rlimit(60)]
fn backtrack(trace: &Vec<Vec<usize>>, a: &[String], b: &[String]) -> (r: Vec<DiffOp>)
    requires
        a@.len() + b@.len() <= MAX_TOTAL_LEN,
        a@.len() >= 1,
        b@.len() >= 1,
        trace@.len() <= a@.len() + b@.len() + 1,
        forall|l: int| #![trigger trace@[l]]
            0 <= l < trace@.len() ==> trace@[l].len() == 2 * (a@.len() + b@.len()) + 1 && (forall|
                t: int,
            |
                0 <= t < trace@[l]@.len() ==> trace@[l]@[t] <= a@.len() + 1),
    ensures
        script_a(r@) == a.deep_view(),
        script_b(r@) == b.deep_view(),
{
    let ghost adv = a.deep_view();
    let ghost bdv = b.deep_view();
    let n = a.len();
    let m = b.len();
    let max = n + m;
    let width = 2 * max + 1;
    let mut x = n;
    let mut y = m;

    let mut diffs: Vec<DiffOp> = Vec::new();
    let zero_vec = make_zero_vec(width);
    proof {
        assert(diffs@.reverse() =~= Seq::<DiffOp>::empty());
        assert(script_a(Seq::<DiffOp>::empty()) == Seq::<Seq<char>>::empty());
        assert(script_b(Seq::<DiffOp>::empty()) == Seq::<Seq<char>>::empty());
        assert(adv.subrange(n as int, n as int) =~= Seq::<Seq<char>>::empty());
        assert(bdv.subrange(m as int, m as int) =~= Seq::<Seq<char>>::empty());
    }

    let mut lvl = trace.len();
    while lvl > 0
        invariant
            lvl <= trace@.len(),
            lvl <= max + 2,
            x <= n,
            y <= m,
            suffix_invariant(diffs@, adv, bdv, x as int, y as int),
        decreases lvl,
    {
        let d = lvl - 1;
        let prev_v: &Vec<usize> = if d == 0 {
            &zero_vec
        } else {
            &trace[d - 1]
        };
        // j = max + k where k = x - y.
        let j = max + x - y;
        let down_x = safe_get(prev_v, j + 1);
        let right_x = if j >= 1 {
            safe_get(prev_v, j - 1)
        } else {
            0
        };
        let came_from_insert = if j == max - d {
            true
        } else if j == max + d {
            false
        } else {
            right_x < down_x
        };

        let x_start = if came_from_insert {
            down_x
        } else {
            right_x + 1
        };
        let y_start = if x_start + max >= j {
            x_start + max - j
        } else {
            0
        };

        while x > x_start && y > y_start && a[x - 1] == b[y - 1]
            invariant
                x <= n,
                y <= m,
                suffix_invariant(diffs@, adv, bdv, x as int, y as int),
            decreases x,
        {
            let op = DiffOp::Equal(a[x - 1].clone());
            proof {
                lemma_reverse_push(diffs@, op);
                assert((seq![op] + diffs@.reverse()).drop_first() =~= diffs@.reverse());
                assert(adv.subrange(x - 1, n as int) =~= seq![adv[x - 1]] + adv.subrange(
                    x as int,
                    n as int,
                ));
                assert(bdv.subrange(y - 1, m as int) =~= seq![bdv[y - 1]] + bdv.subrange(
                    y as int,
                    m as int,
                ));
            }
            diffs.push(op);
            x = x - 1;
            y = y - 1;
        }

        if x == 0 && y == 0 {
            break ;
        }
        if came_from_insert {
            if y > 0 {
                let op = DiffOp::Insert(b[y - 1].clone());
                proof {
                    lemma_reverse_push(diffs@, op);
                    assert((seq![op] + diffs@.reverse()).drop_first() =~= diffs@.reverse());
                    assert(bdv.subrange(y - 1, m as int) =~= seq![bdv[y - 1]] + bdv.subrange(
                        y as int,
                        m as int,
                    ));
                }
                diffs.push(op);
                y = y - 1;
            }
        } else if x > 0 {
            let op = DiffOp::Delete(a[x - 1].clone());
            proof {
                lemma_reverse_push(diffs@, op);
                assert((seq![op] + diffs@.reverse()).drop_first() =~= diffs@.reverse());
                assert(adv.subrange(x - 1, n as int) =~= seq![adv[x - 1]] + adv.subrange(
                    x as int,
                    n as int,
                ));
            }
            diffs.push(op);
            x = x - 1;
        }
        lvl = lvl - 1;
    }

    while x > 0 && y > 0 && a[x - 1] == b[y - 1]
        invariant
            x <= n,
            y <= m,
            suffix_invariant(diffs@, adv, bdv, x as int, y as int),
        decreases x,
    {
        let op = DiffOp::Equal(a[x - 1].clone());
        proof {
            lemma_reverse_push(diffs@, op);
            assert((seq![op] + diffs@.reverse()).drop_first() =~= diffs@.reverse());
            assert(adv.subrange(x - 1, n as int) =~= seq![adv[x - 1]] + adv.subrange(
                x as int,
                n as int,
            ));
            assert(bdv.subrange(y - 1, m as int) =~= seq![bdv[y - 1]] + bdv.subrange(
                y as int,
                m as int,
            ));
        }
        diffs.push(op);
        x = x - 1;
        y = y - 1;
    }
    while x > 0
        invariant
            x <= n,
            y <= m,
            suffix_invariant(diffs@, adv, bdv, x as int, y as int),
        decreases x,
    {
        let op = DiffOp::Delete(a[x - 1].clone());
        proof {
            lemma_reverse_push(diffs@, op);
            assert((seq![op] + diffs@.reverse()).drop_first() =~= diffs@.reverse());
            assert(adv.subrange(x - 1, n as int) =~= seq![adv[x - 1]] + adv.subrange(
                x as int,
                n as int,
            ));
        }
        diffs.push(op);
        x = x - 1;
    }
    while y > 0
        invariant
            x == 0,
            y <= m,
            suffix_invariant(diffs@, adv, bdv, 0, y as int),
        decreases y,
    {
        let op = DiffOp::Insert(b[y - 1].clone());
        proof {
            lemma_reverse_push(diffs@, op);
            assert((seq![op] + diffs@.reverse()).drop_first() =~= diffs@.reverse());
            assert(bdv.subrange(y - 1, m as int) =~= seq![bdv[y - 1]] + bdv.subrange(
                y as int,
                m as int,
            ));
        }
        diffs.push(op);
        y = y - 1;
    }

    proof {
        assert(adv.subrange(0, n as int) =~= adv);
        assert(bdv.subrange(0, m as int) =~= bdv);
    }
    reverse_ops(&diffs)
}

} // verus!
