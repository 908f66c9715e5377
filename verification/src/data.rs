//! The data model: edit operations, hunks, and summary statistics, together
//! with the specification functions that the contracts of the whole crate are
//! written against.

use vstd::prelude::*;

verus! {

/// One operation of an edit script. An ordered sequence of these transforms
/// sequence A into sequence B: `Equal` consumes one token of both sides,
/// `Insert` consumes one token of B, `Delete` one token of A.
#[derive(Debug, Clone, PartialEq, Eq)]
pub enum DiffOp {
    Equal(String),
    Insert(String),
    Delete(String),
}

/// The token carried by an operation, as a sequence of characters.
pub open spec fn op_token(op: DiffOp) -> Seq<char> {
    match op {
        DiffOp::Equal(s) => s@,
        DiffOp::Insert(s) => s@,
        DiffOp::Delete(s) => s@,
    }
}

/// An operation that changes something (anything but `Equal`).
pub open spec fn is_change(op: DiffOp) -> bool {
    !(op is Equal)
}

/// The tokens of side A that a script consumes: the tokens of its `Equal` and
/// `Delete` operations, in order. A script is faithful to A exactly when this
/// equals A.
pub open spec fn script_a(ops: Seq<DiffOp>) -> Seq<Seq<char>>
    decreases ops.len(),
{
    if ops.len() == 0 {
        Seq::empty()
    } else {
        match ops[0] {
            DiffOp::Insert(_) => script_a(ops.drop_first()),
            _ => seq![op_token(ops[0])] + script_a(ops.drop_first()),
        }
    }
}

/// The tokens of side B that a script produces: the tokens of its `Equal` and
/// `Insert` operations, in order.
pub open spec fn script_b(ops: Seq<DiffOp>) -> Seq<Seq<char>>
    decreases ops.len(),
{
    if ops.len() == 0 {
        Seq::empty()
    } else {
        match ops[0] {
            DiffOp::Delete(_) => script_b(ops.drop_first()),
            _ => seq![op_token(ops[0])] + script_b(ops.drop_first()),
        }
    }
}

/// How many operations of a script are `Insert`.
pub open spec fn count_ins(ops: Seq<DiffOp>) -> nat
    decreases ops.len(),
{
    if ops.len() == 0 {
        0
    } else {
        (if ops[0] is Insert { 1nat } else { 0nat }) + count_ins(ops.drop_first())
    }
}

/// How many operations of a script are `Delete`.
pub open spec fn count_del(ops: Seq<DiffOp>) -> nat
    decreases ops.len(),
{
    if ops.len() == 0 {
        0
    } else {
        (if ops[0] is Delete { 1nat } else { 0nat }) + count_del(ops.drop_first())
    }
}

/// Appending one operation extends `script_a` by the token of that operation
/// unless it is an `Insert`.
pub proof fn lemma_script_a_push(ops: Seq<DiffOp>, op: DiffOp)
    ensures
        script_a(ops.push(op)) == script_a(ops) + (if op is Insert {
            Seq::<Seq<char>>::empty()
        } else {
            seq![op_token(op)]
        }),
    decreases ops.len(),
{
    let tail = (if op is Insert { Seq::<Seq<char>>::empty() } else { seq![op_token(op)] });
    if ops.len() == 0 {
        assert(ops.push(op)[0] == op);
        assert(ops.push(op).drop_first() =~= Seq::<DiffOp>::empty());
        assert(script_a(Seq::<DiffOp>::empty()) == Seq::<Seq<char>>::empty());
        assert(script_a(ops.push(op)) =~= tail);
    } else {
        assert(ops.push(op)[0] == ops[0]);
        assert(ops.push(op).drop_first() =~= ops.drop_first().push(op));
        lemma_script_a_push(ops.drop_first(), op);
        assert(script_a(ops.push(op)) =~= script_a(ops) + tail);
    }
}

/// Appending one operation extends `script_b` by the token of that operation
/// unless it is a `Delete`.
pub proof fn lemma_script_b_push(ops: Seq<DiffOp>, op: DiffOp)
    ensures
        script_b(ops.push(op)) == script_b(ops) + (if op is Delete {
            Seq::<Seq<char>>::empty()
        } else {
            seq![op_token(op)]
        }),
    decreases ops.len(),
{
    let tail = (if op is Delete { Seq::<Seq<char>>::empty() } else { seq![op_token(op)] });
    if ops.len() == 0 {
        assert(ops.push(op)[0] == op);
        assert(ops.push(op).drop_first() =~= Seq::<DiffOp>::empty());
        assert(script_b(Seq::<DiffOp>::empty()) == Seq::<Seq<char>>::empty());
        assert(script_b(ops.push(op)) =~= tail);
    } else {
        assert(ops.push(op)[0] == ops[0]);
        assert(ops.push(op).drop_first() =~= ops.drop_first().push(op));
        lemma_script_b_push(ops.drop_first(), op);
        assert(script_b(ops.push(op)) =~= script_b(ops) + tail);
    }
}

/// `script_a` distributes over concatenation.
pub proof fn lemma_script_a_concat(x: Seq<DiffOp>, y: Seq<DiffOp>)
    ensures
        script_a(x + y) == script_a(x) + script_a(y),
    decreases y.len(),
{
    if y.len() == 0 {
        assert(x + y =~= x);
        assert(script_a(x) + script_a(y) =~= script_a(x));
    } else {
        lemma_script_a_concat(x.push(y[0]), y.drop_first());
        lemma_script_a_push(x, y[0]);
        assert(x + y =~= x.push(y[0]) + y.drop_first());
        assert(script_a(y) =~= (if y[0] is Insert {
            Seq::<Seq<char>>::empty()
        } else {
            seq![op_token(y[0])]
        }) + script_a(y.drop_first()));
        assert(script_a(x + y) =~= script_a(x) + script_a(y));
    }
}

/// `script_b` distributes over concatenation.
pub proof fn lemma_script_b_concat(x: Seq<DiffOp>, y: Seq<DiffOp>)
    ensures
        script_b(x + y) == script_b(x) + script_b(y),
    decreases y.len(),
{
    if y.len() == 0 {
        assert(x + y =~= x);
        assert(script_b(x) + script_b(y) =~= script_b(x));
    } else {
        lemma_script_b_concat(x.push(y[0]), y.drop_first());
        lemma_script_b_push(x, y[0]);
        assert(x + y =~= x.push(y[0]) + y.drop_first());
        assert(script_b(y) =~= (if y[0] is Delete {
            Seq::<Seq<char>>::empty()
        } else {
            seq![op_token(y[0])]
        }) + script_b(y.drop_first()));
        assert(script_b(x + y) =~= script_b(x) + script_b(y));
    }
}

/// A copy of one operation. Written by hand so that verified callers know the
/// copy equals the original.
pub fn clone_op(op: &DiffOp) -> (r: DiffOp)
    ensures
        r == *op,
{
    match op {
        DiffOp::Equal(s) => DiffOp::Equal(s.clone()),
        DiffOp::Insert(s) => DiffOp::Insert(s.clone()),
        DiffOp::Delete(s) => DiffOp::Delete(s.clone()),
    }
}

/// A contiguous, context-bounded block of an edit script, for unified-diff
/// presentation. `start_a`/`start_b` are 1-based line numbers of the first
/// operation of the block in the two sides; `len_a` counts its `Equal` and
/// `Delete` operations, `len_b` its `Equal` and `Insert` operations.
#[derive(Debug, Clone)]
pub struct Hunk {
    pub ops: Vec<DiffOp>,
    pub start_a: usize,
    pub start_b: usize,
    pub len_a: usize,
    pub len_b: usize,
}

/// The mathematical model of a [`Hunk`].
pub ghost struct SpecHunk {
    pub ops: Seq<DiffOp>,
    pub start_a: int,
    pub start_b: int,
    pub len_a: int,
    pub len_b: int,
}

impl View for Hunk {
    type V = SpecHunk;

    open spec fn view(&self) -> SpecHunk {
        SpecHunk {
            ops: self.ops@,
            start_a: self.start_a as int,
            start_b: self.start_b as int,
            len_a: self.len_a as int,
            len_b: self.len_b as int,
        }
    }
}

/// Counts of inserted and deleted tokens in a script.
#[derive(Debug, Default, Clone)]
pub struct DiffStats {
    pub inserts: usize,
    pub deletes: usize,
    pub changes: usize,
}

impl DiffStats {
    /// Tally the `Insert` and `Delete` operations of a script; `changes` is
    /// their sum.
    pub fn from_ops(ops: &[DiffOp]) -> (r: DiffStats)
        ensures
            r.inserts == count_ins(ops@),
            r.deletes == count_del(ops@),
            r.changes == count_ins(ops@) + count_del(ops@),
    {
        let mut stats = DiffStats { inserts: 0, deletes: 0, changes: 0 };
        let mut i: usize = 0;
        while i < ops.len()
            invariant
                i <= ops@.len(),
                stats.inserts == count_ins(ops@.take(i as int)),
                stats.deletes == count_del(ops@.take(i as int)),
                stats.changes == 0,
                stats.inserts + stats.deletes <= i,
            decreases ops@.len() - i,
        {
            proof {
                assert(ops@.take(i + 1 as int) =~= ops@.take(i as int).push(ops@[i as int]));
                lemma_count_ins_push(ops@.take(i as int), ops@[i as int]);
                lemma_count_del_push(ops@.take(i as int), ops@[i as int]);
            }
            match &ops[i] {
                DiffOp::Insert(_) => {
                    stats.inserts = stats.inserts + 1;
                },
                DiffOp::Delete(_) => {
                    stats.deletes = stats.deletes + 1;
                },
                DiffOp::Equal(_) => {},
            }
            i = i + 1;
        }
        proof {
            assert(ops@.take(ops@.len() as int) =~= ops@);
        }
        stats.changes = stats.inserts + stats.deletes;
        stats
    }
}

/// Appending one operation adds one to `count_ins` exactly when it is an
/// `Insert`.
pub proof fn lemma_count_ins_push(ops: Seq<DiffOp>, op: DiffOp)
    ensures
        count_ins(ops.push(op)) == count_ins(ops) + (if op is Insert { 1nat } else { 0nat }),
    decreases ops.len(),
{
    if ops.len() == 0 {
        assert(ops.push(op)[0] == op);
        assert(ops.push(op).drop_first() =~= Seq::<DiffOp>::empty());
        assert(count_ins(Seq::<DiffOp>::empty()) == 0);
    } else {
        assert(ops.push(op)[0] == ops[0]);
        assert(ops.push(op).drop_first() =~= ops.drop_first().push(op));
        lemma_count_ins_push(ops.drop_first(), op);
    }
}

/// Appending one operation adds one to `count_del` exactly when it is a
/// `Delete`.
pub proof fn lemma_count_del_push(ops: Seq<DiffOp>, op: DiffOp)
    ensures
        count_del(ops.push(op)) == count_del(ops) + (if op is Delete { 1nat } else { 0nat }),
    decreases ops.len(),
{
    if ops.len() == 0 {
        assert(ops.push(op)[0] == op);
        assert(ops.push(op).drop_first() =~= Seq::<DiffOp>::empty());
        assert(count_del(Seq::<DiffOp>::empty()) == 0);
    } else {
        assert(ops.push(op)[0] == ops[0]);
        assert(ops.push(op).drop_first() =~= ops.drop_first().push(op));
        lemma_count_del_push(ops.drop_first(), op);
    }
}

/// Within every run of changed operations the deletes come before the
/// inserts: no `Insert` is immediately followed by a `Delete`. This is the
/// rendering order of a replacement - the removed token first, the added one
/// second.
pub open spec fn delete_first(s: Seq<DiffOp>) -> bool {
    forall|i: int| 0 <= i && i + 1 < s.len() && (#[trigger] s[i]) is Insert ==> !(s[i + 1] is Delete)
}

/// Appending an operation keeps the delete-first order as long as it does
/// not put a `Delete` right after a trailing `Insert`.
pub proof fn lemma_delete_first_push(s: Seq<DiffOp>, op: DiffOp)
    requires
        delete_first(s),
        s.len() > 0 && s[s.len() - 1] is Insert ==> !(op is Delete),
    ensures
        delete_first(s.push(op)),
{
    assert forall|i: int|
        0 <= i && i + 1 < s.push(op).len() && (#[trigger] s.push(op)[i]) is Insert implies !(s.push(
        op,
    )[i + 1] is Delete) by {
        if i + 1 < s.len() {
            assert(s.push(op)[i] == s[i]);
            assert(s.push(op)[i + 1] == s[i + 1]);
        } else {
            assert(s.push(op)[i] == s[i]);
            assert(s.push(op)[i + 1] == op);
        }
    }
}

/// Concatenation keeps the delete-first order as long as the seam does not
/// put a `Delete` right after a trailing `Insert`.
pub proof fn lemma_delete_first_concat(x: Seq<DiffOp>, y: Seq<DiffOp>)
    requires
        delete_first(x),
        delete_first(y),
        x.len() > 0 && y.len() > 0 ==> !((x[x.len() - 1]) is Insert && y[0] is Delete),
    ensures
        delete_first(x + y),
{
    assert forall|i: int|
        0 <= i && i + 1 < (x + y).len() && (#[trigger] (x + y)[i]) is Insert implies !((x + y)[i
        + 1] is Delete) by {
        if i + 1 < x.len() {
            assert((x + y)[i] == x[i]);
            assert((x + y)[i + 1] == x[i + 1]);
        } else if i >= x.len() {
            assert((x + y)[i] == y[i - x.len()]);
            assert((x + y)[i + 1] == y[i + 1 - x.len()]);
        } else {
            assert((x + y)[i] == x[x.len() - 1]);
            assert((x + y)[i + 1] == y[0]);
        }
    }
}

/// Append copies of all operations of `src` to `dst`.
pub(crate) fn append_ops(dst: &mut Vec<DiffOp>, src: &Vec<DiffOp>)
    ensures
        final(dst)@ == old(dst)@ + src@,
{
    let mut i: usize = 0;
    while i < src.len()
        invariant
            i <= src@.len(),
            dst@ == old(dst)@ + src@.subrange(0, i as int),
        decreases src@.len() - i,
    {
        proof {
            assert((old(dst)@ + src@.subrange(0, i as int)).push(src@[i as int]) =~= old(dst)@
                + src@.subrange(0, i + 1));
        }
        dst.push(clone_op(&src[i]));
        i = i + 1;
    }
    proof {
        assert(old(dst)@ + src@.subrange(0, src@.len() as int) =~= old(dst)@ + src@);
    }
}

} // verus!
