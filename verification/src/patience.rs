//! The anchor stabilizer: a patience-diff layer over the edit-script engine.
//!
//! Tokens that occur exactly once in both sequences are anchor candidates; the
//! longest increasing subsequence of their position pairs gives a chain of
//! synchronization points, and the engine diffs only the runs between them.

use vstd::prelude::*;

use crate::data::DiffOp;
use crate::data::append_ops;
use crate::data::delete_first;
use crate::data::lemma_delete_first_concat;
use crate::data::lemma_delete_first_push;
use crate::data::lemma_script_a_concat;
use crate::data::lemma_script_a_push;
use crate::data::lemma_script_b_concat;
use crate::data::lemma_script_b_push;
use crate::data::op_token;
use crate::data::script_a;
use crate::data::script_b;
use crate::myers::MAX_TOTAL_LEN;
use crate::myers::compute_diff;

verus! {

/// How many elements of `s` equal the token `t`.
pub open spec fn count_matches(s: Seq<Seq<char>>, t: Seq<char>) -> nat
    decreases s.len(),
{
    if s.len() == 0 {
        0
    } else {
        (if s[0] == t {
            1nat
        } else {
            0nat
        }) + count_matches(s.drop_first(), t)
    }
}

/// Appending an element extends the count by one exactly when it matches.
pub proof fn lemma_count_matches_push(s: Seq<Seq<char>>, x: Seq<char>, t: Seq<char>)
    ensures
        count_matches(s.push(x), t) == count_matches(s, t) + (if x == t {
            1nat
        } else {
            0nat
        }),
    decreases s.len(),
{
    if s.len() == 0 {
        assert(s.push(x)[0] == x);
        assert(s.push(x).drop_first() =~= Seq::<Seq<char>>::empty());
        assert(count_matches(Seq::<Seq<char>>::empty(), t) == 0);
    } else {
        assert(s.push(x)[0] == s[0]);
        assert(s.push(x).drop_first() =~= s.drop_first().push(x));
        lemma_count_matches_push(s.drop_first(), x, t);
    }
}

/// Count the occurrences of one token in a sequence.
fn count_occurrences(s: &[String], t: &String) -> (r: usize)
    ensures
        r == count_matches(s.deep_view(), t@),
{
    let ghost sdv = s.deep_view();
    let mut cnt: usize = 0;
    let mut i: usize = 0;
    while i < s.len()
        invariant
            i <= s@.len(),
            sdv == s.deep_view(),
            cnt == count_matches(sdv.subrange(0, i as int), t@),
            cnt <= i,
        decreases s@.len() - i,
    {
        proof {
            assert(sdv.subrange(0, i + 1) =~= sdv.subrange(0, i as int).push(sdv[i as int]));
            lemma_count_matches_push(sdv.subrange(0, i as int), sdv[i as int], t@);
            assert(sdv[i as int] == s@[i as int]@);
        }
        if s[i] == *t {
            cnt = cnt + 1;
        }
        i = i + 1;
    }
    proof {
        assert(sdv.subrange(0, s@.len() as int) =~= sdv);
    }
    cnt
}

/// Count the occurrences of one token and report the position of its last
/// occurrence.
fn count_and_locate(s: &[String], t: &String) -> (r: (usize, usize))
    ensures
        r.0 == count_matches(s.deep_view(), t@),
        r.0 > 0 ==> r.1 < s@.len() && s.deep_view()[r.1 as int] == t@ && (forall|q: int|
            r.1 < q < s@.len() ==> s.deep_view()[q] != t@),
{
    let ghost sdv = s.deep_view();
    let mut cnt: usize = 0;
    let mut at: usize = 0;
    let mut i: usize = 0;
    while i < s.len()
        invariant
            i <= s@.len(),
            sdv == s.deep_view(),
            cnt == count_matches(sdv.subrange(0, i as int), t@),
            cnt <= i,
            cnt > 0 ==> at < i && sdv[at as int] == t@ && (forall|q: int|
                at < q < i ==> sdv[q] != t@),
        decreases s@.len() - i,
    {
        proof {
            assert(sdv.subrange(0, i + 1) =~= sdv.subrange(0, i as int).push(sdv[i as int]));
            lemma_count_matches_push(sdv.subrange(0, i as int), sdv[i as int], t@);
            assert(sdv[i as int] == s@[i as int]@);
        }
        if s[i] == *t {
            cnt = cnt + 1;
            at = i;
        }
        i = i + 1;
    }
    proof {
        assert(sdv.subrange(0, s@.len() as int) =~= sdv);
    }
    (cnt, at)
}

/// Every element of `s` below position `upto` has an entry in the frequency
/// table `r`.
pub open spec fn freq_covers(r: Seq<(String, usize)>, s: Seq<Seq<char>>, upto: int) -> bool {
    forall|q: int| 0 <= q < upto ==> exists|t: int|
        0 <= t < r.len() && (#[trigger] r[t]).0@ == #[trigger] s[q]
}

/// Token frequencies: one entry per distinct token, carrying how often it
/// occurs, in order of first occurrence.
pub fn count_freq(seq: &[String]) -> (r: Vec<(String, usize)>)
    ensures
        forall|t: int| #![trigger r@[t]]
            0 <= t < r@.len() ==> r@[t].1 == count_matches(seq.deep_view(), r@[t].0@) && r@[t].1
                >= 1,
        forall|t1: int, t2: int| 0 <= t1 < t2 < r@.len() ==> r@[t1].0@ != r@[t2].0@,
        freq_covers(r@, seq.deep_view(), seq@.len() as int),
{
    let ghost sdv = seq.deep_view();
    let mut r: Vec<(String, usize)> = Vec::new();
    let mut i: usize = 0;
    while i < seq.len()
        invariant
            i <= seq@.len(),
            sdv == seq.deep_view(),
            forall|t: int| #![trigger r@[t]]
                0 <= t < r@.len() ==> r@[t].1 == count_matches(sdv, r@[t].0@) && r@[t].1 >= 1,
            forall|t1: int, t2: int| 0 <= t1 < t2 < r@.len() ==> r@[t1].0@ != r@[t2].0@,
            freq_covers(r@, sdv, i as int),
        decreases seq@.len() - i,
    {
        let mut seen = false;
        let mut t: usize = 0;
        while t < r.len()
            invariant
                t <= r@.len(),
                sdv == seq.deep_view(),
                i < seq@.len(),
                seen ==> exists|q: int| 0 <= q < r@.len() && (#[trigger] r@[q]).0@ == sdv[i as int],
                !seen ==> forall|q: int| 0 <= q < t ==> r@[q].0@ != sdv[i as int],
            decreases r@.len() - t,
        {
            if r[t].0 == seq[i] {
                seen = true;
                proof {
                    assert(r@[t as int].0@ == sdv[i as int]);
                }
            }
            t = t + 1;
        }
        if !seen {
            let c = count_occurrences(seq, &seq[i]);
            proof {
                assert(sdv[i as int] == seq@[i as int]@);
                assert(count_matches(sdv, sdv[i as int]) >= 1) by {
                    lemma_count_matches_lower(sdv, i as int);
                }
            }
            let ghost old_r = r@;
            r.push((seq[i].clone(), c));
            proof {
                assert(r@[old_r.len() as int].0@ == sdv[i as int]);
                assert forall|q: int| #![trigger sdv[q]] 0 <= q < i + 1 implies exists|t: int|
                    0 <= t < r@.len() && (#[trigger] r@[t]).0@ == sdv[q] by {
                    if q < i {
                        let t0 = choose|t0: int| 0 <= t0 < old_r.len() && (#[trigger] old_r[t0]).0@ == sdv[q];
                        assert(r@[t0] == old_r[t0]);
                        assert(r@[t0].0@ == sdv[q]);
                    } else {
                        assert(r@[old_r.len() as int].0@ == sdv[q]);
                    }
                }
            }
        } else {
            proof {
                assert forall|q: int| #![trigger sdv[q]] 0 <= q < i + 1 implies exists|t: int|
                    0 <= t < r@.len() && (#[trigger] r@[t]).0@ == sdv[q] by {
                    if q < i {
                        let t0 = choose|t0: int| 0 <= t0 < r@.len() && (#[trigger] r@[t0]).0@ == sdv[q];
                        assert(r@[t0].0@ == sdv[q]);
                    } else {
                        let t0 = choose|t0: int| 0 <= t0 < r@.len() && r@[t0].0@ == sdv[i as int];
                        assert(r@[t0].0@ == sdv[q]);
                    }
                }
            }
        }
        i = i + 1;
    }
    proof {
        assert forall|q: int| #![trigger seq.deep_view()[q]] 0 <= q < seq@.len() implies exists|
            t: int,
        | 0 <= t < r@.len() && (#[trigger] r@[t]).0@ == seq.deep_view()[q] by {
            assert(sdv[q] == seq.deep_view()[q]);
            let t0 = choose|t0: int| 0 <= t0 < r@.len() && (#[trigger] r@[t0]).0@ == sdv[q];
            assert(r@[t0].0@ == seq.deep_view()[q]);
        }
    }
    r
}

/// Two distinct positions holding the same token give it a count of at
/// least two.
proof fn lemma_count_two(s: Seq<Seq<char>>, x: int, y: int)
    requires
        0 <= x < y < s.len(),
        s[x] == s[y],
    ensures
        count_matches(s, s[x]) >= 2,
    decreases s.len(),
{
    if x == 0 {
        lemma_count_matches_lower(s.drop_first(), y - 1);
        assert(s.drop_first()[y - 1] == s[y]);
    } else {
        lemma_count_two(s.drop_first(), x - 1, y - 1);
        assert(s.drop_first()[x - 1] == s[x]);
        assert(s.drop_first()[y - 1] == s[y]);
    }
}

/// A sequence containing `t` at some position has a positive count for it.
proof fn lemma_count_matches_lower(s: Seq<Seq<char>>, i: int)
    requires
        0 <= i < s.len(),
    ensures
        count_matches(s, s[i]) >= 1,
    decreases s.len(),
{
    if i == 0 {
    } else {
        lemma_count_matches_lower(s.drop_first(), i - 1);
        assert(s.drop_first()[i - 1] == s[i]);
    }
}

/// `r` selects, at strictly increasing positions `ix`, elements of `ps`.
pub open spec fn selection_of(
    r: Seq<(usize, usize)>,
    ps: Seq<(usize, usize)>,
    ix: Seq<int>,
) -> bool {
    &&& ix.len() == r.len()
    &&& forall|q: int| 0 <= q < ix.len() ==> 0 <= #[trigger] ix[q] < ps.len() && r[q] == ps[ix[q]]
    &&& forall|q1: int, q2: int| 0 <= q1 < q2 < ix.len() ==> ix[q1] < ix[q2]
}

/// The position of the first tail at least as large as `key`.
fn lower_bound(tails: &Vec<usize>, key: usize) -> (pos: usize)
    requires
        forall|t1: int, t2: int| 0 <= t1 < t2 < tails@.len() ==> tails@[t1] < tails@[t2],
    ensures
        pos <= tails@.len(),
        forall|t: int| 0 <= t < pos ==> tails@[t] < key,
        pos < tails@.len() ==> tails@[pos as int] >= key,
{
    let mut lo: usize = 0;
    let mut hi: usize = tails.len();
    while lo < hi
        invariant
            lo <= hi <= tails@.len(),
            forall|t: int| 0 <= t < lo ==> tails@[t] < key,
            forall|t: int| hi <= t < tails@.len() ==> tails@[t] >= key,
            forall|t1: int, t2: int| 0 <= t1 < t2 < tails@.len() ==> tails@[t1] < tails@[t2],
        decreases hi - lo,
    {
        let mid = lo + (hi - lo) / 2;
        if tails[mid] < key {
            lo = mid + 1;
        } else {
            hi = mid;
        }
    }
    lo
}

/// `ix` selects, at strictly increasing positions below `upto`, elements of
/// `ps` whose second coordinates strictly increase: an increasing
/// subsequence, given by the positions it picks.
pub open spec fn inc_selection(ix: Seq<int>, ps: Seq<(usize, usize)>, upto: int) -> bool {
    &&& forall|q: int| 0 <= q < ix.len() ==> 0 <= #[trigger] ix[q] < upto
    &&& forall|q1: int, q2: int| #![trigger ix[q1], ix[q2]]
        0 <= q1 < q2 < ix.len() ==> ix[q1] < ix[q2] && (ps[ix[q1]]).1 < (ps[ix[q2]]).1
}

/// The longest increasing subsequence of position pairs, by patience sorting
/// with a binary search for the leftmost viable tail.
///
/// The input must be strictly increasing in its first coordinates (candidates
/// are collected in scan order); the result is then a selection of the input
/// that is strictly increasing in both coordinates, nonempty whenever the
/// input is, and at least as long as every increasing selection of the input.
#[verifier::loop_isolation(false)]
#[verifier::rlimit(100)]
pub fn longest_increasing_subsequence(pairs: &[(usize, usize)]) -> (r: Vec<(usize, usize)>)
    requires
        forall|t1: int, t2: int|
            0 <= t1 < t2 < pairs@.len() ==> (#[trigger] pairs@[t1]).0 < (#[trigger] pairs@[t2]).0,
    ensures
        exists|ix: Seq<int>| selection_of(r@, pairs@, ix),
        forall|q1: int, q2: int|
            0 <= q1 < q2 < r@.len() ==> (#[trigger] r@[q1]).0 < (#[trigger] r@[q2]).0 && r@[q1].1
                < r@[q2].1,
        pairs@.len() > 0 ==> r@.len() > 0,
        forall|ix: Seq<int>| inc_selection(ix, pairs@, pairs@.len() as int) ==> ix.len()
            <= r@.len(),
{
    if pairs.len() == 0 {
        let r: Vec<(usize, usize)> = Vec::new();
        proof {
            let ix0 = Seq::<int>::empty();
            assert(selection_of(r@, pairs@, ix0));
            assert forall|ix: Seq<int>| inc_selection(ix, pairs@, pairs@.len() as int) implies ix.len()
                <= r@.len() by {
                if ix.len() > 0 {
                    let q0: int = 0;
                    assert(0 <= q0 < ix.len());
                    assert(0 <= ix[q0] < pairs@.len());
                }
            }
        }
        return r;
    }

    let mut tails_b: Vec<usize> = Vec::new();
    let mut tails_idx: Vec<usize> = Vec::new();
    let mut prev: Vec<Option<usize>> = Vec::new();
    // chain_len follows prev: the length of the increasing subsequence that
    // each processed element currently ends
    let ghost mut chain_len: Seq<int> = Seq::empty();
    let mut i: usize = 0;
    proof {
        assert forall|ix: Seq<int>| #![trigger inc_selection(ix, pairs@, i as int)]
            inc_selection(ix, pairs@, i as int) && ix.len() > 0 implies ix.len()
                <= tails_b@.len() && tails_b@[ix.len() - 1] <= (pairs@[ix[ix.len() - 1]]).1 by {
            let q0: int = 0;
            assert(0 <= q0 < ix.len());
            assert(0 <= ix[q0] < i as int);
        }
    }
    while i < pairs.len()
        invariant
            i <= pairs@.len(),
            prev@.len() == i,
            chain_len.len() == i,
            tails_b@.len() == tails_idx@.len(),
            i > 0 ==> tails_b@.len() >= 1,
            forall|t1: int, t2: int| 0 <= t1 < t2 < tails_b@.len() ==> tails_b@[t1] < tails_b@[t2],
            forall|t: int| #![trigger tails_idx@[t]]
                0 <= t < tails_idx@.len() ==> tails_idx@[t] < i && pairs@[tails_idx@[t] as int].1
                    == tails_b@[t] && chain_len[tails_idx@[t] as int] == t + 1,
            forall|q: int| #![trigger prev@[q]]
                0 <= q < i ==> (match prev@[q] {
                    Some(p) => p < q && pairs@[p as int].1 < pairs@[q].1 && chain_len[p as int]
                        == chain_len[q] - 1,
                    None => chain_len[q] == 1,
                }),
            forall|ix: Seq<int>| #![trigger inc_selection(ix, pairs@, i as int)]
                inc_selection(ix, pairs@, i as int) && ix.len() > 0 ==> ix.len()
                    <= tails_b@.len() && tails_b@[ix.len() - 1] <= (pairs@[ix[ix.len() - 1]]).1,
        decreases pairs@.len() - i,
    {
        let b_idx = pairs[i].1;
        let pos = lower_bound(&tails_b, b_idx);
        let ghost old_tb = tails_b@;
        if pos == tails_b.len() {
            tails_b.push(b_idx);
            tails_idx.push(i);
        } else {
            tails_b.set(pos, b_idx);
            tails_idx.set(pos, i);
        }
        if pos > 0 {
            prev.push(Some(tails_idx[pos - 1]));
        } else {
            prev.push(None);
        }
        proof {
            chain_len = chain_len.push(pos as int + 1);
            assert forall|ix: Seq<int>| #![trigger inc_selection(ix, pairs@, i + 1)]
                inc_selection(ix, pairs@, i + 1) && ix.len() > 0 implies ix.len()
                    <= tails_b@.len() && tails_b@[ix.len() - 1] <= (pairs@[ix[ix.len() - 1]]).1
                by {
                let l = ix.len() as int;
                let last = ix[l - 1];
                assert forall|q: int| 0 <= q < l - 1 implies ix[q] < last && (pairs@[ix[q]]).1
                    < (pairs@[last]).1 by {
                    assert(ix[q] < ix[l - 1] && (pairs@[ix[q]]).1 < (pairs@[ix[l - 1]]).1);
                }
                if last < i {
                    assert(inc_selection(ix, pairs@, i as int)) by {
                        assert(forall|q: int| 0 <= q < l ==> 0 <= #[trigger] ix[q] < i);
                    }
                    assert(l <= old_tb.len());
                    assert(old_tb[l - 1] <= (pairs@[last]).1);
                    if l - 1 == pos {
                        assert(tails_b@[l - 1] == b_idx);
                        assert(pos < old_tb.len());
                        assert(old_tb[pos as int] >= b_idx);
                    } else {
                        assert(tails_b@[l - 1] == old_tb[l - 1]);
                    }
                } else {
                    assert(last == i);
                    assert((pairs@[last]).1 == b_idx);
                    if l == 1 {
                        if pos == 0 {
                            assert(tails_b@[0] == b_idx);
                        } else {
                            assert(old_tb[0] < b_idx);
                            assert(tails_b@[0] == old_tb[0]);
                        }
                    } else {
                        let ix2 = ix.drop_last();
                        assert(ix2.len() == l - 1);
                        assert(forall|q: int| 0 <= q < l - 1 ==> #[trigger] ix2[q] == ix[q]);
                        assert(inc_selection(ix2, pairs@, i as int)) by {
                            assert(forall|q: int| 0 <= q < l - 1 ==> 0 <= #[trigger] ix2[q] < i);
                        }
                        assert(l - 1 <= old_tb.len());
                        assert(old_tb[l - 2] <= (pairs@[ix2[l - 2]]).1);
                        assert((pairs@[ix[l - 2]]).1 < b_idx);
                        assert(old_tb[l - 2] < b_idx);
                        // the tail below the found slot is still smaller, so
                        // this subsequence reaches at most one slot further
                        assert(l - 1 <= pos) by {
                            if l - 1 > pos {
                                assert(pos < old_tb.len());
                                assert(old_tb[pos as int] >= b_idx);
                                if l - 2 > pos {
                                    assert(old_tb[pos as int] < old_tb[l - 2]);
                                }
                                assert(old_tb[l - 2] >= b_idx);
                            }
                        }
                        assert(l <= tails_b@.len());
                        if l - 1 == pos {
                            assert(tails_b@[l - 1] == b_idx);
                        } else {
                            assert(l - 1 < pos);
                            assert(old_tb[l - 1] < b_idx);
                            assert(tails_b@[l - 1] == old_tb[l - 1]);
                        }
                    }
                }
            }
        }
        i = i + 1;
    }

    // Walk the predecessor chain back from the tail of the longest
    // subsequence, then reverse into scan order.
    let mut back: Vec<(usize, usize)> = Vec::new();
    let ghost mut back_ix: Seq<int> = Seq::empty();
    let last_idx = tails_idx[tails_idx.len() - 1];
    let mut cur: Option<usize> = Some(last_idx);
    while cur.is_some()
        invariant
            pairs@.len() > 0,
            back@.len() > 0 || cur is Some,
            back_ix.len() == back@.len(),
            forall|q: int|
                0 <= q < back_ix.len() ==> 0 <= #[trigger] back_ix[q] < pairs@.len() && back@[q]
                    == pairs@[back_ix[q]],
            forall|q1: int, q2: int| 0 <= q1 < q2 < back_ix.len() ==> back_ix[q1] > back_ix[q2],
            forall|q: int|
                0 <= q < back@.len() - 1 ==> (#[trigger] back@[q]).1 > back@[q + 1].1,
            prev@.len() == pairs@.len(),
            forall|q: int| #![trigger prev@[q]]
                0 <= q < prev@.len() ==> (match prev@[q] {
                    Some(p) => p < q && pairs@[p as int].1 < pairs@[q].1 && chain_len[p as int]
                        == chain_len[q] - 1,
                    None => chain_len[q] == 1,
                }),
            cur matches Some(c) ==> c < pairs@.len(),
            cur matches Some(c) ==> (back@.len() > 0 ==> (c as int) < back_ix[back_ix.len() - 1]
                && pairs@[c as int].1 < back@[back@.len() - 1].1),
            cur matches Some(c) ==> back@.len() + chain_len[c as int] == tails_b@.len(),
            cur is None ==> back@.len() == tails_b@.len(),
        decreases (match cur {
            Option::Some(c) => c + 1,
            Option::None => 0,
        }),
    {
        let ci = match cur {
            Option::Some(c) => c,
            Option::None => 0,
        };
        let p = pairs[ci];
        back.push(p);
        proof {
            back_ix = back_ix.push(ci as int);
        }
        cur = match prev[ci] {
            Option::Some(p2) => Option::Some(p2),
            Option::None => Option::None,
        };
    }

    // Reverse into forward order.
    let mut lis: Vec<(usize, usize)> = Vec::new();
    let ghost mut lis_ix: Seq<int> = Seq::empty();
    let mut t: usize = back.len();
    while t > 0
        invariant
            t <= back@.len(),
            lis_ix.len() == lis@.len(),
            lis@.len() == back@.len() - t,
            forall|q: int|
                0 <= q < lis_ix.len() ==> 0 <= #[trigger] lis_ix[q] < pairs@.len() && lis@[q]
                    == pairs@[lis_ix[q]],
            forall|q1: int, q2: int| 0 <= q1 < q2 < lis_ix.len() ==> lis_ix[q1] < lis_ix[q2],
            forall|q: int| 0 <= q < lis@.len() ==> lis@[q] == back@[back@.len() - 1 - q],
            forall|q: int|
                0 <= q < lis_ix.len() ==> lis_ix[q] == back_ix[back_ix.len() - 1 - q],
            back_ix.len() == back@.len(),
            forall|q: int|
                0 <= q < back_ix.len() ==> 0 <= #[trigger] back_ix[q] < pairs@.len() && back@[q]
                    == pairs@[back_ix[q]],
            forall|q1: int, q2: int| 0 <= q1 < q2 < back_ix.len() ==> back_ix[q1] > back_ix[q2],
        decreases t,
    {
        t = t - 1;
        lis.push(back[t]);
        proof {
            lis_ix = lis_ix.push(back_ix[t as int]);
        }
    }

    proof {
        assert(lis@.len() == back@.len());
        assert(selection_of(lis@, pairs@, lis_ix));
        assert(forall|q1: int, q2: int|
            0 <= q1 < q2 < lis@.len() ==> (#[trigger] lis@[q1]).0 < (#[trigger] lis@[q2]).0) by {
            assert(forall|q1: int, q2: int|
                0 <= q1 < q2 < lis@.len() ==> lis_ix[q1] < lis_ix[q2] && lis@[q1]
                    == pairs@[lis_ix[q1]] && lis@[q2] == pairs@[lis_ix[q2]]);
        }
        assert(forall|q1: int, q2: int|
            0 <= q1 < q2 < lis@.len() ==> (#[trigger] lis@[q1]).1 < (#[trigger] lis@[q2]).1) by {
            assert(forall|q: int|
                0 <= q < lis@.len() - 1 ==> (#[trigger] lis@[q]).1 < lis@[q + 1].1) by {
                assert(forall|q: int|
                    0 <= q < back@.len() - 1 ==> (#[trigger] back@[q]).1 > back@[q + 1].1);
            }
            lemma_chain_increasing(lis@);
        }
        assert(back@.len() == tails_b@.len());
        assert forall|ix: Seq<int>| inc_selection(ix, pairs@, pairs@.len() as int) implies ix.len()
            <= lis@.len() by {
            if ix.len() > 0 {
                assert(ix.len() <= tails_b@.len());
            }
        }
    }
    lis
}

/// A pairwise-adjacent strict increase in the second coordinate extends to
/// all index pairs.
proof fn lemma_chain_increasing(s: Seq<(usize, usize)>)
    requires
        forall|q: int| 0 <= q < s.len() - 1 ==> (#[trigger] s[q]).1 < s[q + 1].1,
    ensures
        forall|q1: int, q2: int| 0 <= q1 < q2 < s.len() ==> (#[trigger] s[q1]).1 < (
        #[trigger] s[q2]).1,
{
    assert forall|q1: int, q2: int| 0 <= q1 < q2 < s.len() implies (#[trigger] s[q1]).1 < (
    #[trigger] s[q2]).1 by {
        lemma_chain_increasing_step(s, q1, q2);
    }
}

proof fn lemma_chain_increasing_step(s: Seq<(usize, usize)>, q1: int, q2: int)
    requires
        forall|q: int| 0 <= q < s.len() - 1 ==> (#[trigger] s[q]).1 < s[q + 1].1,
        0 <= q1 < q2 < s.len(),
    ensures
        s[q1].1 < s[q2].1,
    decreases q2 - q1,
{
    if q1 + 1 == q2 {
        assert(s[q1].1 < s[q1 + 1].1);
    } else {
        lemma_chain_increasing_step(s, q1, q2 - 1);
        assert(s[q2 - 1].1 < s[q2 - 1 + 1].1);
    }
}

/// An ASCII whitespace character. The tokenizers scan with this set.
pub open spec fn is_ws_char(c: char) -> bool {
    c == ' ' || c == '\t' || c == '\n' || c == '\r' || c == '\x0c'
}

/// A Unicode whitespace character: the White_Space property's code points.
/// Trimming and the word renderer's pairing scan use this set.
pub open spec fn is_uni_ws_char(c: char) -> bool {
    ||| c == '\t'
    ||| c == '\n'
    ||| c == '\u{b}'
    ||| c == '\u{c}'
    ||| c == '\r'
    ||| c == ' '
    ||| c == '\u{85}'
    ||| c == '\u{a0}'
    ||| c == '\u{1680}'
    ||| c == '\u{2000}'
    ||| c == '\u{2001}'
    ||| c == '\u{2002}'
    ||| c == '\u{2003}'
    ||| c == '\u{2004}'
    ||| c == '\u{2005}'
    ||| c == '\u{2006}'
    ||| c == '\u{2007}'
    ||| c == '\u{2008}'
    ||| c == '\u{2009}'
    ||| c == '\u{200a}'
    ||| c == '\u{2028}'
    ||| c == '\u{2029}'
    ||| c == '\u{202f}'
    ||| c == '\u{205f}'
    ||| c == '\u{3000}'
}

/// A token made of Unicode whitespace alone (the empty token included).
pub open spec fn ws_only(s: Seq<char>) -> bool {
    forall|i: int| 0 <= i < s.len() ==> is_uni_ws_char(#[trigger] s[i])
}

/// Is the character Unicode whitespace?
pub fn is_uni_ws(c: char) -> (r: bool)
    ensures
        r == is_uni_ws_char(c),
{
    c == '\t' || c == '\n' || c == '\u{b}' || c == '\u{c}' || c == '\r' || c == ' ' || c
        == '\u{85}' || c == '\u{a0}' || c == '\u{1680}' || c == '\u{2000}' || c == '\u{2001}'
        || c == '\u{2002}' || c == '\u{2003}' || c == '\u{2004}' || c == '\u{2005}' || c
        == '\u{2006}' || c == '\u{2007}' || c == '\u{2008}' || c == '\u{2009}' || c
        == '\u{200a}' || c == '\u{2028}' || c == '\u{2029}' || c == '\u{202f}' || c
        == '\u{205f}' || c == '\u{3000}'
}

/// Is the token Unicode whitespace alone?
pub fn is_whitespace_token(s: &String) -> (r: bool)
    ensures
        r == ws_only(s@),
{
    let cs = crate::text::chars_of(s.as_str());
    let mut i: usize = 0;
    while i < cs.len()
        invariant
            i <= cs@.len(),
            cs@ == s@,
            forall|t: int| 0 <= t < i ==> is_uni_ws_char(#[trigger] s@[t]),
        decreases cs@.len() - i,
    {
        if !is_uni_ws(cs[i]) {
            assert(!is_uni_ws_char(s@[i as int]));
            return false;
        }
        i = i + 1;
    }
    true
}

/// A valid anchor: the same token at both positions, occurring exactly once
/// in each sequence.
pub open spec fn anchor_ok(adv: Seq<Seq<char>>, bdv: Seq<Seq<char>>, p: (usize, usize)) -> bool {
    &&& (p.0 as int) < adv.len()
    &&& (p.1 as int) < bdv.len()
    &&& adv[p.0 as int] == bdv[p.1 as int]
    &&& count_matches(adv, adv[p.0 as int]) == 1
    &&& count_matches(bdv, adv[p.0 as int]) == 1
}

/// A chain of valid anchors: every element is a valid anchor pair, and the
/// chain is strictly increasing in both coordinates.
pub open spec fn anchor_chain(
    adv: Seq<Seq<char>>,
    bdv: Seq<Seq<char>>,
    sel: Seq<(usize, usize)>,
) -> bool {
    &&& forall|q: int| 0 <= q < sel.len() ==> anchor_ok(adv, bdv, #[trigger] sel[q])
    &&& forall|q1: int, q2: int| #![trigger sel[q1], sel[q2]]
        0 <= q1 < q2 < sel.len() ==> (sel[q1]).0 < (sel[q2]).0 && (sel[q1]).1 < (sel[q2]).1
}

/// The head of an anchored decomposition: the stream splits into a segment
/// whose operations consume exactly the runs before the first anchor on both
/// sides, one `Equal` operation carrying the anchor's token, and a
/// remainder.
pub open spec fn split_head(
    adv: Seq<Seq<char>>,
    bdv: Seq<Seq<char>>,
    chain: Seq<(usize, usize)>,
    la: int,
    lb: int,
    ops: Seq<DiffOp>,
    seg: Seq<DiffOp>,
    e: DiffOp,
    rest: Seq<DiffOp>,
) -> bool {
    &&& chain.len() > 0
    &&& ops == seg + seq![e] + rest
    &&& e is Equal
    &&& op_token(e) == adv[(chain[0]).0 as int]
    &&& script_a(seg) == adv.subrange(la, (chain[0]).0 as int)
    &&& script_b(seg) == bdv.subrange(lb, (chain[0]).1 as int)
}

/// The stream decomposes along the anchor chain: for every anchor in order,
/// a segment consuming exactly the runs before it on both sides and one
/// `Equal` operation carrying the anchor's token; after the last anchor, a
/// trailing segment consuming both remainders. Each segment thus satisfies
/// the engine's contract on its slice pair.
pub open spec fn anchored_split(
    adv: Seq<Seq<char>>,
    bdv: Seq<Seq<char>>,
    chain: Seq<(usize, usize)>,
    la: int,
    lb: int,
    ops: Seq<DiffOp>,
) -> bool
    decreases chain.len(),
{
    if chain.len() == 0 {
        &&& script_a(ops) == adv.subrange(la, adv.len() as int)
        &&& script_b(ops) == bdv.subrange(lb, bdv.len() as int)
    } else {
        exists|seg: Seq<DiffOp>, e: DiffOp, rest: Seq<DiffOp>|
            #[trigger] split_head(adv, bdv, chain, la, lb, ops, seg, e, rest) && anchored_split(
                adv,
                bdv,
                chain.drop_first(),
                (chain[0]).0 + 1,
                (chain[0]).1 + 1,
                rest,
            )
    }
}

/// Assembling one segment, one anchor `Equal`, and a decomposed remainder
/// gives a decomposed stream.
proof fn lemma_split_cons(
    adv: Seq<Seq<char>>,
    bdv: Seq<Seq<char>>,
    chain: Seq<(usize, usize)>,
    la: int,
    lb: int,
    seg: Seq<DiffOp>,
    e: DiffOp,
    rest: Seq<DiffOp>,
)
    requires
        chain.len() > 0,
        e is Equal,
        op_token(e) == adv[(chain[0]).0 as int],
        script_a(seg) == adv.subrange(la, (chain[0]).0 as int),
        script_b(seg) == bdv.subrange(lb, (chain[0]).1 as int),
        anchored_split(adv, bdv, chain.drop_first(), (chain[0]).0 + 1, (chain[0]).1 + 1, rest),
    ensures
        anchored_split(adv, bdv, chain, la, lb, seg + seq![e] + rest),
{
    assert(split_head(adv, bdv, chain, la, lb, seg + seq![e] + rest, seg, e, rest));
}

/// Find the longest chain of anchors: position pairs of tokens unique to both
/// sequences, strictly increasing in both coordinates. No chain of valid
/// anchors is longer than the one returned.
#[verifier::loop_isolation(false)]
#[verifier::rlimit(100)]
pub fn find_unique_anchors(a: &[String], b: &[String]) -> (r: Vec<(usize, usize)>)
    ensures
        forall|t: int|
            0 <= t < r@.len() ==> anchor_ok(a.deep_view(), b.deep_view(), #[trigger] r@[t]),
        forall|t1: int, t2: int|
            0 <= t1 < t2 < r@.len() ==> (#[trigger] r@[t1]).0 < (#[trigger] r@[t2]).0 && r@[t1].1
                < r@[t2].1,
        forall|sel: Seq<(usize, usize)>|
            #[trigger] anchor_chain(a.deep_view(), b.deep_view(), sel) ==> sel.len() <= r@.len(),
{
    let ghost adv = a.deep_view();
    let ghost bdv = b.deep_view();
    let mut pairs: Vec<(usize, usize)> = Vec::new();
    let mut i: usize = 0;
    while i < a.len()
        invariant
            i <= a@.len(),
            forall|t: int| 0 <= t < pairs@.len() ==> anchor_ok(adv, bdv, #[trigger] pairs@[t]),
            forall|t: int| 0 <= t < pairs@.len() ==> (#[trigger] pairs@[t]).0 < i,
            forall|t1: int, t2: int|
                0 <= t1 < t2 < pairs@.len() ==> (#[trigger] pairs@[t1]).0 < (
                #[trigger] pairs@[t2]).0,
            forall|p: (usize, usize)| #![trigger anchor_ok(adv, bdv, p)]
                anchor_ok(adv, bdv, p) && (p.0 as int) < i ==> exists|t: int|
                    0 <= t < pairs@.len() && #[trigger] pairs@[t] == p,
        decreases a@.len() - i,
    {
        let ca = count_occurrences(a, &a[i]);
        let found = count_and_locate(b, &a[i]);
        proof {
            assert(adv[i as int] == a@[i as int]@);
        }
        if ca == 1 && found.0 == 1 {
            proof {
                assert(bdv[found.1 as int] == a@[i as int]@);
                assert(anchor_ok(adv, bdv, (i, found.1)));
            }
            let ghost old_pairs = pairs@;
            pairs.push((i, found.1));
            proof {
                assert forall|p: (usize, usize)| #![trigger anchor_ok(adv, bdv, p)]
                    anchor_ok(adv, bdv, p) && (p.0 as int) < i + 1 implies exists|t: int|
                        0 <= t < pairs@.len() && #[trigger] pairs@[t] == p by {
                    if (p.0 as int) < i {
                        let t0 = choose|t0: int|
                            0 <= t0 < old_pairs.len() && #[trigger] old_pairs[t0] == p;
                        assert(pairs@[t0] == p);
                    } else {
                        // the anchor at position i pairs with the one place
                        // its token occurs in B
                        assert(p.0 == i);
                        if p.1 != found.1 {
                            assert(bdv[p.1 as int] == adv[i as int]);
                            assert(bdv[found.1 as int] == adv[i as int]);
                            if (p.1 as int) < (found.1 as int) {
                                lemma_count_two(bdv, p.1 as int, found.1 as int);
                            } else {
                                lemma_count_two(bdv, found.1 as int, p.1 as int);
                            }
                        }
                        assert(pairs@[old_pairs.len() as int] == p);
                    }
                }
            }
        } else {
            proof {
                assert forall|p: (usize, usize)| #![trigger anchor_ok(adv, bdv, p)]
                    anchor_ok(adv, bdv, p) && (p.0 as int) < i + 1 implies exists|t: int|
                        0 <= t < pairs@.len() && #[trigger] pairs@[t] == p by {
                    if (p.0 as int) < i {
                    } else {
                        // no anchor can start here: its token is not unique
                        assert(p.0 == i);
                        assert(count_matches(adv, adv[i as int]) == ca);
                        assert(count_matches(bdv, adv[i as int]) == found.0);
                    }
                }
            }
        }
        i = i + 1;
    }
    let lis = longest_increasing_subsequence(pairs.as_slice());
    proof {
        let ix = choose|ix: Seq<int>| selection_of(lis@, pairs@, ix);
        assert forall|t: int| 0 <= t < lis@.len() implies anchor_ok(adv, bdv, #[trigger] lis@[t])
            by {
            assert(lis@[t] == pairs@[ix[t]]);
        }
        assert forall|sel: Seq<(usize, usize)>|
            #[trigger] anchor_chain(adv, bdv, sel) implies sel.len() <= lis@.len() by {
            let six = Seq::new(
                sel.len(),
                |q: int| choose|t: int| 0 <= t < pairs@.len() && #[trigger] pairs@[t] == sel[q],
            );
            assert forall|q: int| 0 <= q < sel.len() implies 0 <= #[trigger] six_at(six, q)
                < pairs@.len() && pairs@[six[q]] == sel[q] by {
                assert(anchor_ok(adv, bdv, sel[q]));
                assert((sel[q].0 as int) < adv.len());
                assert(exists|t: int| 0 <= t < pairs@.len() && #[trigger] pairs@[t] == sel[q]);
                assert(six[q] == (choose|t: int|
                    0 <= t < pairs@.len() && #[trigger] pairs@[t] == sel[q]));
            }
            assert forall|q1: int, q2: int| #![trigger six[q1], six[q2]]
                0 <= q1 < q2 < sel.len() implies six[q1] < six[q2] && (pairs@[six[q1]]).1
                    < (pairs@[six[q2]]).1 by {
                assert(0 <= six_at(six, q1) < pairs@.len() && pairs@[six[q1]] == sel[q1]);
                assert(0 <= six_at(six, q2) < pairs@.len() && pairs@[six[q2]] == sel[q2]);
                assert((sel[q1]).0 < (sel[q2]).0 && (sel[q1]).1 < (sel[q2]).1);
                if six[q1] >= six[q2] {
                    if six[q1] == six[q2] {
                        assert((sel[q1]).0 == (sel[q2]).0);
                    } else {
                        assert((pairs@[six[q2]]).0 < (pairs@[six[q1]]).0);
                    }
                }
            }
            assert(inc_selection(six, pairs@, pairs@.len() as int));
            assert(six.len() == sel.len());
        }
    }
    lis
}

/// The element of an index sequence, named so quantified proofs can point at
/// it.
spec fn six_at(six: Seq<int>, q: int) -> int {
    six[q]
}

/// One anchor step of the decomposition: after emitting a segment and the
/// anchor's `Equal`, any decomposition of the remainder extends to one of the
/// whole stream.
proof fn lemma_continuation_step(
    adv: Seq<Seq<char>>,
    bdv: Seq<Seq<char>>,
    chainv: Seq<(usize, usize)>,
    t: int,
    la0: int,
    lb0: int,
    res0: Seq<DiffOp>,
    segv: Seq<DiffOp>,
    op: DiffOp,
    result_v: Seq<DiffOp>,
)
    requires
        0 <= t < chainv.len(),
        op is Equal,
        op_token(op) == adv[(chainv[t]).0 as int],
        script_a(segv) == adv.subrange(la0, (chainv[t]).0 as int),
        script_b(segv) == bdv.subrange(lb0, (chainv[t]).1 as int),
        result_v == res0 + segv + seq![op],
        forall|rest: Seq<DiffOp>|
            #[trigger] anchored_split(adv, bdv, chainv.skip(t), la0, lb0, rest)
                ==> anchored_split(adv, bdv, chainv, 0, 0, res0 + rest),
    ensures
        forall|rest: Seq<DiffOp>|
            #[trigger] anchored_split(
                adv,
                bdv,
                chainv.skip(t + 1),
                (chainv[t]).0 + 1,
                (chainv[t]).1 + 1,
                rest,
            ) ==> anchored_split(adv, bdv, chainv, 0, 0, result_v + rest),
{
    assert(chainv.skip(t)[0] == chainv[t]);
    assert(chainv.skip(t).drop_first() =~= chainv.skip(t + 1));
    assert forall|rest: Seq<DiffOp>|
        #[trigger] anchored_split(
            adv,
            bdv,
            chainv.skip(t + 1),
            (chainv[t]).0 + 1,
            (chainv[t]).1 + 1,
            rest,
        ) implies anchored_split(adv, bdv, chainv, 0, 0, result_v + rest) by {
        lemma_split_cons(adv, bdv, chainv.skip(t), la0, lb0, segv, op, rest);
        assert(anchored_split(adv, bdv, chainv.skip(t), la0, lb0, segv + seq![op] + rest));
        assert(anchored_split(adv, bdv, chainv, 0, 0, res0 + (segv + seq![op] + rest)));
        assert(res0 + (segv + seq![op] + rest) =~= result_v + rest);
    }
}

/// Compute a patience diff: anchor on tokens unique to both sides and let
/// the edit-script engine fill the runs between the anchors.
///
/// The result consumes A and B exactly, and decomposes along a longest chain
/// of valid anchors: each anchor appears as an `Equal` operation in order,
/// and the segment before each anchor (and after the last) consumes exactly
/// the corresponding runs of both sides, as the engine's contract demands of
/// the slice pair it is given. Every run of changes is in delete-first
/// order, so a replacement renders delete-then-insert. Identical inputs
/// yield an all-`Equal` stream.
#[verifier::loop_isolation(false)]
#[verifier::rlimit(100)]
pub fn compute_patience_diff(a: &[String], b: &[String]) -> (r: Vec<DiffOp>)
    requires
        a@.len() + b@.len() <= MAX_TOTAL_LEN,
    ensures
        script_a(r@) == a.deep_view(),
        script_b(r@) == b.deep_view(),
        delete_first(r@),
        exists|chain: Seq<(usize, usize)>|
            #[trigger] anchor_chain(a.deep_view(), b.deep_view(), chain) && (forall|
                sel: Seq<(usize, usize)>,
            |
                anchor_chain(a.deep_view(), b.deep_view(), sel) ==> sel.len() <= chain.len())
                && anchored_split(a.deep_view(), b.deep_view(), chain, 0, 0, r@),
        a.deep_view() == b.deep_view() ==> r@.len() == a@.len() && (forall|i: int|
            0 <= i < r@.len() ==> r@[i] is Equal),
{
    let ghost adv = a.deep_view();
    let ghost bdv = b.deep_view();
    let n = a.len();
    let m = b.len();

    let anchors = find_unique_anchors(a, b);
    let ghost chainv = anchors@;
    proof {
        assert(anchor_chain(adv, bdv, chainv));
    }
    if anchors.len() == 0 {
        // no anchors: the whole comparison is one engine run
        let r = compute_diff(a, b);
        proof {
            assert(adv.subrange(0, adv.len() as int) =~= adv);
            assert(bdv.subrange(0, bdv.len() as int) =~= bdv);
            assert(anchored_split(adv, bdv, chainv, 0, 0, r@));
        }
        return r;
    }

    let mut result: Vec<DiffOp> = Vec::new();
    let mut last_a: usize = 0;
    let mut last_b: usize = 0;
    let mut t: usize = 0;
    proof {
        assert(chainv.skip(0) =~= chainv);
        assert forall|rest: Seq<DiffOp>|
            #[trigger] anchored_split(adv, bdv, chainv.skip(0), 0, 0, rest) implies anchored_split(
            adv,
            bdv,
            chainv,
            0,
            0,
            result@ + rest,
        ) by {
            assert(result@ + rest =~= rest);
        }
    }
    while t < anchors.len()
        invariant
            t <= anchors@.len(),
            last_a <= n,
            last_b <= m,
            t < anchors@.len() ==> last_a <= (anchors@[t as int]).0 && last_b
                <= (anchors@[t as int]).1,
            script_a(result@) == adv.subrange(0, last_a as int),
            script_b(result@) == bdv.subrange(0, last_b as int),
            delete_first(result@),
            result@.len() > 0 ==> result@[result@.len() - 1] is Equal,
            forall|rest: Seq<DiffOp>|
                #[trigger] anchored_split(
                    adv,
                    bdv,
                    chainv.skip(t as int),
                    last_a as int,
                    last_b as int,
                    rest,
                ) ==> anchored_split(adv, bdv, chainv, 0, 0, result@ + rest),
            adv == bdv ==> last_a == last_b && result@.len() == last_a && (forall|q: int|
                0 <= q < result@.len() ==> result@[q] is Equal),
        decreases anchors@.len() - t,
    {
        let pair = anchors[t];
        let ai = pair.0;
        let bi = pair.1;
        let ghost la0 = last_a as int;
        let ghost lb0 = last_b as int;
        let ghost res0 = result@;
        proof {
            assert(anchor_ok(adv, bdv, anchors@[t as int]));
            if adv == bdv && ai != bi {
                // the anchor token occurs once, so its two positions agree
                assert(adv[bi as int] == adv[ai as int]);
                if (ai as int) < (bi as int) {
                    lemma_count_two(adv, ai as int, bi as int);
                } else {
                    lemma_count_two(adv, bi as int, ai as int);
                }
            }
        }
        let ghost mut segv: Seq<DiffOp> = Seq::empty();
        if ai > last_a || bi > last_b {
            let sub_a = &a[last_a..ai];
            let sub_b = &b[last_b..bi];
            proof {
                assert(sub_a.deep_view() =~= adv.subrange(last_a as int, ai as int));
                assert(sub_b.deep_view() =~= bdv.subrange(last_b as int, bi as int));
                if adv == bdv {
                    assert(sub_a.deep_view() == sub_b.deep_view());
                }
            }
            let sub = compute_diff(sub_a, sub_b);
            proof {
                segv = sub@;
                lemma_delete_first_concat(result@, sub@);
                lemma_script_a_concat(result@, sub@);
                lemma_script_b_concat(result@, sub@);
                assert(adv.subrange(0, last_a as int) + adv.subrange(last_a as int, ai as int)
                    =~= adv.subrange(0, ai as int));
                assert(bdv.subrange(0, last_b as int) + bdv.subrange(last_b as int, bi as int)
                    =~= bdv.subrange(0, bi as int));
            }
            append_ops(&mut result, &sub);
            proof {
                if adv == bdv {
                    assert(sub@.len() == ai - la0);
                    assert forall|q: int| 0 <= q < result@.len() implies result@[q] is Equal by {
                        if q < res0.len() {
                            assert(result@[q] == res0[q]);
                        } else {
                            assert(result@[q] == sub@[q - res0.len()]);
                        }
                    }
                }
            }
        } else {
            proof {
                assert(last_a == ai && last_b == bi);
                assert(script_a(segv) =~= adv.subrange(la0, ai as int));
                assert(script_b(segv) =~= bdv.subrange(lb0, bi as int));
            }
        }
        let ghost res_mid = result@;
        let op = DiffOp::Equal(a[ai].clone());
        proof {
            lemma_delete_first_push(result@, op);
            lemma_script_a_push(result@, op);
            lemma_script_b_push(result@, op);
            assert(adv[ai as int] == bdv[bi as int]);
            assert(script_a(result@.push(op)) =~= adv.subrange(0, ai + 1));
            assert(script_b(result@.push(op)) =~= bdv.subrange(0, bi + 1));
        }
        result.push(op);
        proof {
            assert(op_token(op) == adv[ai as int]);
            assert(result@ =~= res0 + segv + seq![op]);
            // thread the decomposition continuation through this anchor
            lemma_continuation_step(adv, bdv, chainv, t as int, la0, lb0, res0, segv, op, result@);
            if adv == bdv {
                assert(ai == bi);
                assert forall|q: int| 0 <= q < result@.len() implies result@[q] is Equal by {
                    if q < res_mid.len() {
                        assert(result@[q] == res_mid[q]);
                    } else {
                        assert(result@[q] == op);
                    }
                }
            }
        }
        last_a = ai + 1;
        last_b = bi + 1;
        t = t + 1;
    }

    let ghost res_pre = result@;
    let ghost mut trailv: Seq<DiffOp> = Seq::empty();
    if last_a < n || last_b < m {
        let sub_a = &a[last_a..n];
        let sub_b = &b[last_b..m];
        proof {
            assert(sub_a.deep_view() =~= adv.subrange(last_a as int, n as int));
            assert(sub_b.deep_view() =~= bdv.subrange(last_b as int, m as int));
            if adv == bdv {
                assert(sub_a.deep_view() == sub_b.deep_view());
            }
        }
        let sub = compute_diff(sub_a, sub_b);
        proof {
            trailv = sub@;
            lemma_delete_first_concat(result@, sub@);
            lemma_script_a_concat(result@, sub@);
            lemma_script_b_concat(result@, sub@);
            assert(adv.subrange(0, last_a as int) + adv.subrange(last_a as int, n as int)
                =~= adv.subrange(0, n as int));
            assert(bdv.subrange(0, last_b as int) + bdv.subrange(last_b as int, m as int)
                =~= bdv.subrange(0, m as int));
        }
        append_ops(&mut result, &sub);
        proof {
            if adv == bdv {
                assert(sub@.len() == n - last_a);
                assert forall|q: int| 0 <= q < result@.len() implies result@[q] is Equal by {
                    if q < res_pre.len() {
                        assert(result@[q] == res_pre[q]);
                    } else {
                        assert(result@[q] == sub@[q - res_pre.len()]);
                    }
                }
            }
        }
    } else {
        proof {
            assert(last_a == n && last_b == m);
        }
    }
    proof {
        assert(adv.subrange(0, n as int) =~= adv);
        assert(bdv.subrange(0, m as int) =~= bdv);
        assert(result@ =~= res_pre + trailv);
        assert(script_a(trailv) =~= adv.subrange(last_a as int, adv.len() as int));
        assert(script_b(trailv) =~= bdv.subrange(last_b as int, bdv.len() as int));
        assert(chainv.skip(chainv.len() as int) =~= Seq::<(usize, usize)>::empty());
        assert(anchored_split(
            adv,
            bdv,
            chainv.skip(chainv.len() as int),
            last_a as int,
            last_b as int,
            trailv,
        ));
        assert(anchored_split(adv, bdv, chainv, 0, 0, res_pre + trailv));
        assert(anchored_split(adv, bdv, chainv, 0, 0, result@));
    }
    result
}

} // verus!
