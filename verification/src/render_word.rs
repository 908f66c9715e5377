//! The word-diff renderer: adjacent delete/insert pairs, possibly separated
//! only by whitespace `Equal` tokens, render as one paired replacement unit;
//! lone inserts and deletes render individually. Whitespace here means the
//! Unicode whitespace set, both for trailing-space splitting and for the
//! pairing scan.

use vstd::prelude::*;

use crate::data::DiffOp;
use crate::data::op_token;
use crate::modes::trim_back;
use crate::patience::is_uni_ws;
use crate::patience::is_uni_ws_char;
use crate::patience::ws_only;
use crate::render::ansi_green;
use crate::render::ansi_red;
use crate::render::ansi_reset;
use crate::text::chars_of;
use crate::text::push_char;

verus! {

/// A token split at its trailing Unicode whitespace: the word part, then
/// the space part.
pub open spec fn spec_word_part(t: Seq<char>) -> Seq<char> {
    trim_back(t)
}

/// The trailing-whitespace part of a token.
pub open spec fn spec_space_part(t: Seq<char>) -> Seq<char> {
    t.subrange(trim_back(t).len() as int, t.len() as int)
}

/// `trim_back` takes a prefix.
pub proof fn lemma_trim_back_prefix(t: Seq<char>)
    ensures
        trim_back(t).len() <= t.len(),
        trim_back(t) == t.subrange(0, trim_back(t).len() as int),
    decreases t.len(),
{
    if t.len() > 0 && is_uni_ws_char(t[t.len() - 1]) {
        lemma_trim_back_prefix(t.drop_last());
        assert(t.drop_last() =~= t.subrange(0, t.len() - 1));
        assert(t.drop_last().subrange(0, trim_back(t.drop_last()).len() as int) =~= t.subrange(
            0,
            trim_back(t.drop_last()).len() as int,
        ));
    } else {
        assert(t =~= t.subrange(0, t.len() as int));
    }
}

/// The lookahead from a changed operation at `i`: scan forward past
/// `Equal` operations made of Unicode whitespace alone, for a matching
/// operation of the wanted kind (`Delete` after an `Insert`, `Insert` after
/// a `Delete`). The result is how many operations the group consumes, and
/// the matched token if one was found. Without a match only the changed
/// operation itself is consumed; any skipped whitespace `Equal` tokens
/// render on later iterations.
pub open spec fn spec_find_match(ops: Seq<DiffOp>, i: int, k: int, want_del: bool) -> (
    int,
    Option<Seq<char>>,
)
    decreases ops.len() - k when 0 <= i < k <= ops.len()
{
    if k >= ops.len() {
        (1, None)
    } else {
        match ops[k] {
            DiffOp::Delete(t) => if want_del {
                (k - i + 1, Some(t@))
            } else {
                (1, None)
            },
            DiffOp::Insert(t) => if !want_del {
                (k - i + 1, Some(t@))
            } else {
                (1, None)
            },
            DiffOp::Equal(t) => if ws_only(t@) {
                spec_find_match(ops, i, k + 1, want_del)
            } else {
                (1, None)
            },
        }
    }
}

/// The lookahead consumes at least one and at most the rest of the stream.
pub proof fn lemma_find_match_bounds(ops: Seq<DiffOp>, i: int, k: int, want_del: bool)
    requires
        0 <= i < k <= ops.len(),
    ensures
        1 <= spec_find_match(ops, i, k, want_del).0 <= ops.len() - i,
    decreases ops.len() - k,
{
    if k < ops.len() {
        match ops[k] {
            DiffOp::Equal(t) => if ws_only(t@) {
                lemma_find_match_bounds(ops, i, k + 1, want_del);
            },
            _ => {},
        }
    }
}

/// A paired replacement unit: both words, and the trailing space of the new
/// side if it has one, else of the old side.
pub open spec fn spec_grouped(old_t: Seq<char>, new_t: Seq<char>, color: bool) -> Seq<char> {
    let ow = spec_word_part(old_t);
    let nw = spec_word_part(new_t);
    let os = spec_space_part(old_t);
    let ns = spec_space_part(new_t);
    let space = if ns.len() == 0 {
        os
    } else {
        ns
    };
    if color {
        ansi_red() + seq!['[', '-'] + ow + seq![']'] + ansi_reset() + ansi_green() + seq![
            '[',
            '+',
        ] + nw + seq![']'] + ansi_reset() + space
    } else {
        seq!['[', '-'] + ow + seq!['+'] + nw + seq![']'] + space
    }
}

/// A lone insert.
pub open spec fn spec_ins_unit(t: Seq<char>, color: bool) -> Seq<char> {
    let w = spec_word_part(t);
    let sp = spec_space_part(t);
    if color {
        ansi_green() + seq!['[', '+'] + w + seq![']'] + ansi_reset() + sp
    } else {
        seq!['[', '+'] + w + seq![']'] + sp
    }
}

/// A lone delete.
pub open spec fn spec_del_unit(t: Seq<char>, color: bool) -> Seq<char> {
    let w = spec_word_part(t);
    let sp = spec_space_part(t);
    if color {
        ansi_red() + seq!['[', '-'] + w + seq![']'] + ansi_reset() + sp
    } else {
        seq!['[', '-'] + w + seq![']'] + sp
    }
}

/// The word rendering of the stream from position `i` on.
pub open spec fn spec_render_word(ops: Seq<DiffOp>, i: int, color: bool) -> Seq<char>
    decreases ops.len() - i when 0 <= i <= ops.len() via spec_render_word_dec
{
    if i >= ops.len() {
        Seq::empty()
    } else {
        match ops[i] {
            DiffOp::Equal(t) => t@ + spec_render_word(ops, i + 1, color),
            DiffOp::Insert(t) => {
                let fm = spec_find_match(ops, i, i + 1, true);
                match fm.1 {
                    Some(dt) => spec_grouped(dt, t@, color) + spec_render_word(
                        ops,
                        i + fm.0,
                        color,
                    ),
                    None => spec_ins_unit(t@, color) + spec_render_word(ops, i + fm.0, color),
                }
            },
            DiffOp::Delete(t) => {
                let fm = spec_find_match(ops, i, i + 1, false);
                match fm.1 {
                    Some(it) => spec_grouped(t@, it, color) + spec_render_word(
                        ops,
                        i + fm.0,
                        color,
                    ),
                    None => spec_del_unit(t@, color) + spec_render_word(ops, i + fm.0, color),
                }
            },
        }
    }
}

#[via_fn]
proof fn spec_render_word_dec(ops: Seq<DiffOp>, i: int, color: bool) {
    if 0 <= i < ops.len() {
        match ops[i] {
            DiffOp::Equal(_) => {},
            _ => {
                lemma_find_match_bounds(ops, i, i + 1, true);
                lemma_find_match_bounds(ops, i, i + 1, false);
            },
        }
    }
}

/// Split a token into its word and its trailing Unicode whitespace.
fn split_trailing_space(s: &String) -> (r: (String, String))
    ensures
        r.0@ == spec_word_part(s@),
        r.1@ == spec_space_part(s@),
{
    let cs = chars_of(s.as_str());
    let mut k = cs.len();
    proof {
        assert(cs@.subrange(0, cs@.len() as int) =~= cs@);
    }
    while k > 0 && is_uni_ws(cs[k - 1])
        invariant
            k <= cs@.len(),
            cs@ == s@,
            trim_back(cs@.subrange(0, k as int)) == trim_back(cs@),
        decreases k,
    {
        proof {
            assert(is_uni_ws_char(cs@[k - 1]));
            assert(cs@.subrange(0, k as int).drop_last() =~= cs@.subrange(0, k - 1));
        }
        k = k - 1;
    }
    proof {
        if k > 0 {
            assert(!is_uni_ws_char(cs@[k - 1]));
        }
        assert(trim_back(cs@.subrange(0, k as int)) == cs@.subrange(0, k as int));
        lemma_trim_back_prefix(cs@);
    }
    let mut word = String::new();
    let mut i: usize = 0;
    while i < k
        invariant
            i <= k <= cs@.len(),
            cs@ == s@,
            word@ == cs@.subrange(0, i as int),
        decreases k - i,
    {
        proof {
            assert(cs@.subrange(0, i as int).push(cs@[i as int]) =~= cs@.subrange(0, i + 1));
        }
        push_char(&mut word, cs[i]);
        i = i + 1;
    }
    let mut space = String::new();
    let mut j = k;
    while j < cs.len()
        invariant
            k <= j <= cs@.len(),
            cs@ == s@,
            space@ == cs@.subrange(k as int, j as int),
        decreases cs@.len() - j,
    {
        proof {
            assert(cs@.subrange(k as int, j as int).push(cs@[j as int]) =~= cs@.subrange(
                k as int,
                j + 1,
            ));
        }
        push_char(&mut space, cs[j]);
        j = j + 1;
    }
    proof {
        assert(word@ =~= spec_word_part(s@));
        assert(space@ =~= spec_space_part(s@));
    }
    (word, space)
}

/// Scan forward from the operation after `i` for a `Delete` to pair with an
/// `Insert` at `i`, skipping whitespace-only `Equal` operations.
fn find_matching_delete(diffs: &[DiffOp], i: usize) -> (r: (usize, Option<String>))
    requires
        i < diffs@.len(),
    ensures
        r.0 == spec_find_match(diffs@, i as int, i + 1, true).0,
        match r.1 {
            Some(t) => spec_find_match(diffs@, i as int, i + 1, true).1 == Some(t@),
            None => spec_find_match(diffs@, i as int, i + 1, true).1 is None,
        },
{
    find_match(diffs, i, true)
}

/// Scan forward from the operation after `i` for an `Insert` to pair with a
/// `Delete` at `i`, skipping whitespace-only `Equal` operations.
fn find_matching_insert(diffs: &[DiffOp], i: usize) -> (r: (usize, Option<String>))
    requires
        i < diffs@.len(),
    ensures
        r.0 == spec_find_match(diffs@, i as int, i + 1, false).0,
        match r.1 {
            Some(t) => spec_find_match(diffs@, i as int, i + 1, false).1 == Some(t@),
            None => spec_find_match(diffs@, i as int, i + 1, false).1 is None,
        },
{
    find_match(diffs, i, false)
}

/// The shared lookahead of the two pairing scans.
fn find_match(diffs: &[DiffOp], i: usize, want_del: bool) -> (r: (usize, Option<String>))
    requires
        i < diffs@.len(),
    ensures
        r.0 == spec_find_match(diffs@, i as int, i + 1, want_del).0,
        match r.1 {
            Some(t) => spec_find_match(diffs@, i as int, i + 1, want_del).1 == Some(t@),
            None => spec_find_match(diffs@, i as int, i + 1, want_del).1 is None,
        },
{
    let n = diffs.len();
    let mut k = i + 1;
    while k < n
        invariant
            n == diffs@.len(),
            i < k <= diffs@.len(),
            spec_find_match(diffs@, i as int, i + 1, want_del) == spec_find_match(
                diffs@,
                i as int,
                k as int,
                want_del,
            ),
        decreases diffs@.len() - k,
    {
        let step_done: bool = match &diffs[k] {
            DiffOp::Delete(t) => {
                if want_del {
                    return (k - i + 1, Some(t.clone()));
                }
                true
            },
            DiffOp::Insert(t) => {
                if !want_del {
                    return (k - i + 1, Some(t.clone()));
                }
                true
            },
            DiffOp::Equal(t) => !crate::patience::is_whitespace_token(t),
        };
        if step_done {
            return (1, None);
        }
        k = k + 1;
    }
    (1, None)
}

/// Render a stream as inline word units.
///
/// Each `Equal` token passes through unchanged; a changed operation and its
/// pair (found by the lookahead) render as one `[-old+new]` unit, keeping
/// the trailing space of the new side when it has one; an unpaired change
/// renders alone as `[+word]` or `[-word]`.
#[verifier::rlimit(100)]
pub fn render_word_diff(diffs: &[DiffOp], color: bool) -> (r: String)
    ensures
        r@ == spec_render_word(diffs@, 0, color),
{
    let mut out = String::new();
    let mut i: usize = 0;
    proof {
        assert(out@ + spec_render_word(diffs@, 0, color) =~= spec_render_word(diffs@, 0, color));
    }
    while i < diffs.len()
        invariant
            i <= diffs@.len(),
            out@ + spec_render_word(diffs@, i as int, color) =~= spec_render_word(
                diffs@,
                0,
                color,
            ),
        decreases diffs@.len() - i,
    {
        proof {
            reveal_strlit("[-");
            reveal_strlit("[+");
            reveal_strlit("]");
            reveal_strlit("+");
            reveal_strlit("\u{1b}[31m");
            reveal_strlit("\u{1b}[32m");
            reveal_strlit("\u{1b}[0m");
        }
        let ghost mark = out@;
        match &diffs[i] {
            DiffOp::Equal(text) => {
                out.append(text.as_str());
                i = i + 1;
            },
            DiffOp::Insert(text) => {
                let found = find_matching_delete(diffs, i);
                proof {
                    lemma_find_match_bounds(diffs@, i as int, i + 1, true);
                }
                match found.1 {
                    Some(delete_text) => {
                        render_grouped(&mut out, &delete_text, text, color);
                        proof {
                            assert(out@ =~= mark + spec_grouped(delete_text@, text@, color));
                        }
                    },
                    None => {
                        render_insert(&mut out, text, color);
                        proof {
                            assert(out@ =~= mark + spec_ins_unit(text@, color));
                        }
                    },
                }
                i = i + found.0;
            },
            DiffOp::Delete(text) => {
                let found = find_matching_insert(diffs, i);
                proof {
                    lemma_find_match_bounds(diffs@, i as int, i + 1, false);
                }
                match found.1 {
                    Some(insert_text) => {
                        render_grouped(&mut out, text, &insert_text, color);
                        proof {
                            assert(out@ =~= mark + spec_grouped(text@, insert_text@, color));
                        }
                    },
                    None => {
                        render_delete(&mut out, text, color);
                        proof {
                            assert(out@ =~= mark + spec_del_unit(text@, color));
                        }
                    },
                }
                i = i + found.0;
            },
        }
    }
    proof {
        assert(spec_render_word(diffs@, diffs@.len() as int, color) =~= Seq::<char>::empty());
        assert(out@ + Seq::<char>::empty() =~= out@);
    }
    out
}

/// Append one paired replacement unit.
fn render_grouped(buf: &mut String, old_t: &String, new_t: &String, color: bool)
    ensures
        final(buf)@ == old(buf)@ + spec_grouped(old_t@, new_t@, color),
{
    proof {
        reveal_strlit("[-");
        reveal_strlit("[+");
        reveal_strlit("]");
        reveal_strlit("+");
        reveal_strlit("\u{1b}[31m");
        reveal_strlit("\u{1b}[32m");
        reveal_strlit("\u{1b}[0m");
    }
    let ow = split_trailing_space(old_t);
    let nw = split_trailing_space(new_t);
    let space = if nw.1.as_str().is_empty() {
        ow.1
    } else {
        nw.1
    };
    if color {
        buf.append("\u{1b}[31m");
        buf.append("[-");
        buf.append(ow.0.as_str());
        buf.append("]");
        buf.append("\u{1b}[0m");
        buf.append("\u{1b}[32m");
        buf.append("[+");
        buf.append(nw.0.as_str());
        buf.append("]");
        buf.append("\u{1b}[0m");
        buf.append(space.as_str());
    } else {
        buf.append("[-");
        buf.append(ow.0.as_str());
        buf.append("+");
        buf.append(nw.0.as_str());
        buf.append("]");
        buf.append(space.as_str());
    }
    proof {
        assert(final(buf)@ =~= old(buf)@ + spec_grouped(old_t@, new_t@, color));
    }
}

/// Append one lone insert unit.
fn render_insert(buf: &mut String, text: &String, color: bool)
    ensures
        final(buf)@ == old(buf)@ + spec_ins_unit(text@, color),
{
    proof {
        reveal_strlit("[+");
        reveal_strlit("]");
        reveal_strlit("\u{1b}[32m");
        reveal_strlit("\u{1b}[0m");
    }
    let parts = split_trailing_space(text);
    if color {
        buf.append("\u{1b}[32m");
        buf.append("[+");
        buf.append(parts.0.as_str());
        buf.append("]");
        buf.append("\u{1b}[0m");
        buf.append(parts.1.as_str());
    } else {
        buf.append("[+");
        buf.append(parts.0.as_str());
        buf.append("]");
        buf.append(parts.1.as_str());
    }
    proof {
        assert(final(buf)@ =~= old(buf)@ + spec_ins_unit(text@, color));
    }
}

/// Append one lone delete unit.
fn render_delete(buf: &mut String, text: &String, color: bool)
    ensures
        final(buf)@ == old(buf)@ + spec_del_unit(text@, color),
{
    proof {
        reveal_strlit("[-");
        reveal_strlit("]");
        reveal_strlit("\u{1b}[31m");
        reveal_strlit("\u{1b}[0m");
    }
    let parts = split_trailing_space(text);
    if color {
        buf.append("\u{1b}[31m");
        buf.append("[-");
        buf.append(parts.0.as_str());
        buf.append("]");
        buf.append("\u{1b}[0m");
        buf.append(parts.1.as_str());
    } else {
        buf.append("[-");
        buf.append(parts.0.as_str());
        buf.append("]");
        buf.append(parts.1.as_str());
    }
    proof {
        assert(final(buf)@ =~= old(buf)@ + spec_del_unit(text@, color));
    }
}

/// The text carried by an operation.
pub fn op_text(op: &DiffOp) -> (r: &str)
    ensures
        r@ == op_token(*op),
{
    match op {
        DiffOp::Equal(s) => s.as_str(),
        DiffOp::Insert(s) => s.as_str(),
        DiffOp::Delete(s) => s.as_str(),
    }
}

} // verus!
