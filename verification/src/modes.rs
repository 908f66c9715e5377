//! Tokenizers: split raw text into line, word, or character tokens, and the
//! diff entry points for each granularity.

use vstd::prelude::*;

use crate::data::DiffOp;
use crate::data::delete_first;
use crate::data::script_a;
use crate::data::script_b;
use crate::myers::MAX_TOTAL_LEN;
use crate::patience::anchor_chain;
use crate::patience::anchored_split;
use crate::patience::compute_patience_diff;
use crate::patience::is_uni_ws;
use crate::patience::is_uni_ws_char;
use crate::patience::is_ws_char;
use crate::text::chars_of;
use crate::text::push_char;

verus! {

/// A token with every trailing carriage return removed.
pub open spec fn trim_cr(t: Seq<char>) -> Seq<char>
    decreases t.len(),
{
    if t.len() > 0 && t[t.len() - 1] == '\r' {
        trim_cr(t.drop_last())
    } else {
        t
    }
}

/// Line splitting, processing the text left to right while carrying the
/// current unfinished line: a newline ends a line, and a final unfinished
/// line counts unless it is empty. Every line loses its trailing carriage
/// returns.
pub open spec fn lines_acc(s: Seq<char>, cur: Seq<char>) -> Seq<Seq<char>>
    decreases s.len(),
{
    if s.len() == 0 {
        if cur.len() == 0 {
            Seq::empty()
        } else {
            seq![trim_cr(cur)]
        }
    } else if s[0] == '\n' {
        seq![trim_cr(cur)] + lines_acc(s.drop_first(), Seq::empty())
    } else {
        lines_acc(s.drop_first(), cur.push(s[0]))
    }
}

/// The lines of a text.
pub open spec fn spec_lines(s: Seq<char>) -> Seq<Seq<char>> {
    lines_acc(s, Seq::empty())
}

/// Splitting a text yields at most one line per character, plus one.
pub proof fn lemma_lines_bound(s: Seq<char>, cur: Seq<char>)
    ensures
        lines_acc(s, cur).len() <= s.len() + 1,
    decreases s.len(),
{
    if s.len() == 0 {
    } else if s[0] == '\n' {
        lemma_lines_bound(s.drop_first(), Seq::empty());
    } else {
        lemma_lines_bound(s.drop_first(), cur.push(s[0]));
    }
}

/// A text with every newline expanded to a carriage-return/newline pair.
pub open spec fn crlf_expand(s: Seq<char>) -> Seq<char>
    decreases s.len(),
{
    if s.len() == 0 {
        Seq::empty()
    } else if s[0] == '\n' {
        seq!['\r', '\n'] + crlf_expand(s.drop_first())
    } else {
        seq![s[0]] + crlf_expand(s.drop_first())
    }
}

/// Line splitting is insensitive to the line-ending convention: expanding
/// every newline to a carriage-return/newline pair leaves the lines
/// unchanged. With the line-diff contract, converting either input to CRLF
/// endings therefore changes neither side of the diff's token sequences.
pub proof fn lemma_lines_crlf(s: Seq<char>, cur: Seq<char>)
    ensures
        lines_acc(crlf_expand(s), cur) == lines_acc(s, cur),
    decreases s.len(),
{
    let e = crlf_expand(s);
    if s.len() == 0 {
        assert(e =~= Seq::<char>::empty());
    } else if s[0] == '\n' {
        assert(e == seq!['\r', '\n'] + crlf_expand(s.drop_first()));
        assert(e[0] == '\r');
        assert(e.drop_first() =~= seq!['\n'] + crlf_expand(s.drop_first()));
        assert(e.drop_first()[0] == '\n');
        assert(e.drop_first().drop_first() =~= crlf_expand(s.drop_first()));
        assert(lines_acc(e, cur) == lines_acc(e.drop_first(), cur.push('\r')));
        assert(lines_acc(e.drop_first(), cur.push('\r')) == seq![trim_cr(cur.push('\r'))]
            + lines_acc(e.drop_first().drop_first(), Seq::empty()));
        assert(cur.push('\r').drop_last() =~= cur);
        assert(trim_cr(cur.push('\r')) == trim_cr(cur));
        lemma_lines_crlf(s.drop_first(), Seq::empty());
        assert(lines_acc(s, cur) == seq![trim_cr(cur)] + lines_acc(
            s.drop_first(),
            Seq::empty(),
        ));
    } else {
        assert(e[0] == s[0]);
        assert(e.drop_first() =~= crlf_expand(s.drop_first()));
        lemma_lines_crlf(s.drop_first(), cur.push(s[0]));
        assert(lines_acc(e, cur) == lines_acc(e.drop_first(), cur.push(s[0])));
        assert(lines_acc(s, cur) == lines_acc(s.drop_first(), cur.push(s[0])));
    }
}

/// The corollary on whole texts.
pub proof fn lemma_spec_lines_crlf(s: Seq<char>)
    ensures
        spec_lines(crlf_expand(s)) == spec_lines(s),
{
    lemma_lines_crlf(s, Seq::empty());
}

/// The string holding the given characters.
fn string_from_chars(cs: &Vec<char>) -> (r: String)
    ensures
        r@ == cs@,
{
    let mut r = String::new();
    let mut i: usize = 0;
    while i < cs.len()
        invariant
            i <= cs@.len(),
            r@ == cs@.subrange(0, i as int),
        decreases cs@.len() - i,
    {
        proof {
            assert(cs@.subrange(0, i as int).push(cs@[i as int]) =~= cs@.subrange(0, i + 1));
        }
        push_char(&mut r, cs[i]);
        i = i + 1;
    }
    proof {
        assert(cs@.subrange(0, cs@.len() as int) =~= cs@);
    }
    r
}

/// Remove every trailing carriage return.
fn trim_trailing_cr(cur: Vec<char>) -> (r: Vec<char>)
    ensures
        r@ == trim_cr(cur@),
{
    let ghost orig = cur@;
    let mut cur = cur;
    while cur.len() > 0 && cur[cur.len() - 1] == '\r'
        invariant
            trim_cr(cur@) == trim_cr(orig),
        decreases cur@.len(),
    {
        proof {
            assert(cur@.drop_last() =~= cur@.subrange(0, cur@.len() - 1));
        }
        cur.pop();
    }
    cur
}

/// Split a text into lines, dropping trailing carriage returns from each.
pub fn split_and_trim_lines(text: &str) -> (r: Vec<String>)
    ensures
        r.deep_view() == spec_lines(text@),
        r@.len() <= text@.len() + 1,
{
    let cs = chars_of(text);
    let mut out: Vec<String> = Vec::new();
    let mut cur: Vec<char> = Vec::new();
    let mut i: usize = 0;
    proof {
        assert(cs@.subrange(0, cs@.len() as int) =~= cs@);
        assert(out.deep_view() =~= Seq::<Seq<char>>::empty());
        assert(Seq::<Seq<char>>::empty() + lines_acc(text@, Seq::empty()) =~= spec_lines(text@));
    }
    while i < cs.len()
        invariant
            i <= cs@.len(),
            cs@ == text@,
            out.deep_view() + lines_acc(cs@.subrange(i as int, cs@.len() as int), cur@)
                =~= spec_lines(text@),
        decreases cs@.len() - i,
    {
        let ghost rest = cs@.subrange(i as int, cs@.len() as int);
        proof {
            assert(rest[0] == cs@[i as int]);
            assert(rest.drop_first() =~= cs@.subrange(i + 1, cs@.len() as int));
        }
        let c = cs[i];
        if c == '\n' {
            let ghost old_cur = cur@;
            let line = string_from_chars(&trim_trailing_cr(cur));
            let ghost old_out = out.deep_view();
            out.push(line);
            cur = Vec::new();
            proof {
                assert(line@ == trim_cr(old_cur));
                assert(out.deep_view() =~= old_out.push(line@));
                assert(lines_acc(rest, old_cur) == seq![trim_cr(old_cur)] + lines_acc(
                    rest.drop_first(),
                    Seq::empty(),
                ));
                assert(out.deep_view() + lines_acc(rest.drop_first(), cur@) =~= old_out
                    + lines_acc(rest, old_cur));
            }
        } else {
            let ghost old_cur = cur@;
            cur.push(c);
            proof {
                assert(lines_acc(rest, old_cur) == lines_acc(rest.drop_first(), old_cur.push(c)));
            }
        }
        i = i + 1;
    }
    proof {
        assert(cs@.subrange(cs@.len() as int, cs@.len() as int) =~= Seq::<char>::empty());
    }
    if cur.len() > 0 {
        let ghost old_cur = cur@;
        let line = string_from_chars(&trim_trailing_cr(cur));
        let ghost old_out = out.deep_view();
        out.push(line);
        proof {
            assert(line@ == trim_cr(old_cur));
            assert(out.deep_view() =~= old_out.push(line@));
            assert(out.deep_view() =~= old_out + seq![trim_cr(old_cur)]);
        }
    } else {
        proof {
            assert(out.deep_view() + Seq::<Seq<char>>::empty() =~= out.deep_view());
        }
    }
    proof {
        lemma_lines_bound(text@, Seq::empty());
        assert(out.deep_view().len() == spec_lines(text@).len());
        assert(out@.len() == out.deep_view().len());
    }
    out
}


/// The first position at or after `i` holding a non-whitespace character.
pub open spec fn ws_end(s: Seq<char>, i: int) -> int
    decreases s.len() - i when 0 <= i <= s.len()
{
    if i >= s.len() {
        s.len() as int
    } else if is_ws_char(s[i]) {
        ws_end(s, i + 1)
    } else {
        i
    }
}

/// `ws_end` stays within bounds and moves right over whitespace.
pub proof fn lemma_ws_end(s: Seq<char>, i: int)
    requires
        0 <= i <= s.len(),
    ensures
        i <= ws_end(s, i) <= s.len(),
        forall|t: int| i <= t < ws_end(s, i) ==> is_ws_char(#[trigger] s[t]),
        ws_end(s, i) < s.len() ==> !is_ws_char(s[ws_end(s, i)]),
    decreases s.len() - i,
{
    if i < s.len() && is_ws_char(s[i]) {
        lemma_ws_end(s, i + 1);
    }
}

/// The first position at or after `i` holding the character `c`, or the
/// length if there is none.
pub open spec fn find_char(s: Seq<char>, i: int, c: char) -> int
    decreases s.len() - i when 0 <= i <= s.len()
{
    if i >= s.len() {
        s.len() as int
    } else if s[i] == c {
        i
    } else {
        find_char(s, i + 1, c)
    }
}

/// `find_char` stays within bounds and lands on `c` if anywhere.
pub proof fn lemma_find_char(s: Seq<char>, i: int, c: char)
    requires
        0 <= i <= s.len(),
    ensures
        i <= find_char(s, i, c) <= s.len(),
        find_char(s, i, c) < s.len() ==> s[find_char(s, i, c)] == c,
    decreases s.len() - i,
{
    if i < s.len() && s[i] != c {
        lemma_find_char(s, i + 1, c);
    }
}

/// The first position at or after `i` where a word token ends: whitespace, an
/// opening bracket, or the end of the text.
pub open spec fn word_end(s: Seq<char>, i: int) -> int
    decreases s.len() - i when 0 <= i <= s.len()
{
    if i >= s.len() {
        s.len() as int
    } else if is_ws_char(s[i]) || s[i] == '[' {
        i
    } else {
        word_end(s, i + 1)
    }
}

/// `word_end` stays within bounds.
pub proof fn lemma_word_end(s: Seq<char>, i: int)
    requires
        0 <= i <= s.len(),
    ensures
        i <= word_end(s, i) <= s.len(),
    decreases s.len() - i,
{
    if i < s.len() && !(is_ws_char(s[i]) || s[i] == '[') {
        lemma_word_end(s, i + 1);
    }
}

/// A token with its leading Unicode whitespace removed.
pub open spec fn trim_front(t: Seq<char>) -> Seq<char>
    decreases t.len(),
{
    if t.len() > 0 && is_uni_ws_char(t[0]) {
        trim_front(t.drop_first())
    } else {
        t
    }
}

/// A token with its trailing Unicode whitespace removed.
pub open spec fn trim_back(t: Seq<char>) -> Seq<char>
    decreases t.len(),
{
    if t.len() > 0 && is_uni_ws_char(t[t.len() - 1]) {
        trim_back(t.drop_last())
    } else {
        t
    }
}

/// A token with Unicode whitespace removed from both ends.
pub open spec fn trim_ws(t: Seq<char>) -> Seq<char> {
    trim_back(trim_front(t))
}

/// A normalized replacement marker built from its two trimmed halves.
pub open spec fn norm_marker(left: Seq<char>, right: Seq<char>) -> Seq<char> {
    seq!['[', '-'] + left + seq!['+'] + right + seq![']']
}

/// Word tokenization from position `i` on: a run of ASCII whitespace becomes
/// a single space token unless one was just emitted; a complete `[-old+new]`
/// marker becomes one normalized token, its halves trimmed of Unicode
/// whitespace (the marker disappears if both halves trim to nothing);
/// anything else runs to the next ASCII whitespace or bracket. An incomplete
/// marker is consumed as an ordinary word token.
pub open spec fn tok_spec(s: Seq<char>, i: int, prev_space: bool) -> Seq<Seq<char>>
    decreases s.len() - i when 0 <= i <= s.len() via tok_spec_dec
{
    if i >= s.len() {
        Seq::empty()
    } else if is_ws_char(s[i]) {
        (if prev_space {
            Seq::<Seq<char>>::empty()
        } else {
            seq![seq![' ']]
        }) + tok_spec(s, ws_end(s, i), true)
    } else if s[i] == '[' && i + 1 < s.len() && s[i + 1] == '-' && find_char(s, i + 2, '+')
        < s.len() && find_char(s, find_char(s, i + 2, '+') + 1, ']') < s.len() {
        let p = find_char(s, i + 2, '+');
        let q = find_char(s, p + 1, ']');
        let left = trim_ws(s.subrange(i + 2, p));
        let right = trim_ws(s.subrange(p + 1, q));
        if left.len() == 0 && right.len() == 0 {
            tok_spec(s, q + 1, prev_space)
        } else {
            seq![norm_marker(left, right)] + tok_spec(s, q + 1, false)
        }
    } else {
        seq![s.subrange(i, word_end(s, i + 1))] + tok_spec(s, word_end(s, i + 1), false)
    }
}

#[via_fn]
proof fn tok_spec_dec(s: Seq<char>, i: int, prev_space: bool) {
    if 0 <= i < s.len() {
        if is_ws_char(s[i]) {
            lemma_ws_end(s, i);
        } else if s[i] == '[' && i + 1 < s.len() && s[i + 1] == '-' && find_char(s, i + 2, '+')
            < s.len() && find_char(s, find_char(s, i + 2, '+') + 1, ']') < s.len() {
            lemma_find_char(s, i + 2, '+');
            lemma_find_char(s, find_char(s, i + 2, '+') + 1, ']');
        } else {
            lemma_word_end(s, i + 1);
        }
    }
}

/// Tokenization emits at most one token per character.
pub proof fn lemma_tok_bound(s: Seq<char>, i: int, prev_space: bool)
    requires
        0 <= i <= s.len(),
    ensures
        tok_spec(s, i, prev_space).len() <= s.len() - i,
    decreases s.len() - i,
{
    if i >= s.len() {
    } else if is_ws_char(s[i]) {
        lemma_ws_end(s, i);
        lemma_tok_bound(s, ws_end(s, i), true);
    } else if s[i] == '[' && i + 1 < s.len() && s[i + 1] == '-' && find_char(s, i + 2, '+')
        < s.len() && find_char(s, find_char(s, i + 2, '+') + 1, ']') < s.len() {
        let p = find_char(s, i + 2, '+');
        let q = find_char(s, p + 1, ']');
        lemma_find_char(s, i + 2, '+');
        lemma_find_char(s, p + 1, ']');
        lemma_tok_bound(s, q + 1, prev_space);
        lemma_tok_bound(s, q + 1, false);
    } else {
        lemma_word_end(s, i + 1);
        lemma_tok_bound(s, word_end(s, i + 1), false);
    }
}

/// The word tokens of a text.
pub open spec fn spec_tokenize(s: Seq<char>) -> Seq<Seq<char>> {
    tok_spec(s, 0, false)
}

/// Exec search for the end of a whitespace run.
fn ws_end_exec(cs: &Vec<char>, i: usize) -> (r: usize)
    requires
        i <= cs@.len(),
    ensures
        r == ws_end(cs@, i as int),
        i <= r <= cs@.len(),
{
    let mut j = i;
    while j < cs.len() && (cs[j] == ' ' || cs[j] == '\t' || cs[j] == '\n' || cs[j] == '\r'
        || cs[j] == '\x0c')
        invariant
            i <= j <= cs@.len(),
            ws_end(cs@, i as int) == ws_end(cs@, j as int),
        decreases cs@.len() - j,
    {
        proof {
            assert(is_ws_char(cs@[j as int]));
        }
        j = j + 1;
    }
    proof {
        if j < cs@.len() {
            assert(!is_ws_char(cs@[j as int]));
        }
    }
    j
}

/// Exec search for a character.
fn find_char_exec(cs: &Vec<char>, i: usize, c: char) -> (r: usize)
    requires
        i <= cs@.len(),
    ensures
        r == find_char(cs@, i as int, c),
        i <= r <= cs@.len(),
{
    let mut j = i;
    while j < cs.len() && cs[j] != c
        invariant
            i <= j <= cs@.len(),
            find_char(cs@, i as int, c) == find_char(cs@, j as int, c),
        decreases cs@.len() - j,
    {
        j = j + 1;
    }
    j
}

/// Exec search for the end of a word token.
fn word_end_exec(cs: &Vec<char>, i: usize) -> (r: usize)
    requires
        i <= cs@.len(),
    ensures
        r == word_end(cs@, i as int),
        i <= r <= cs@.len(),
{
    let mut j = i;
    while j < cs.len() && !(cs[j] == ' ' || cs[j] == '\t' || cs[j] == '\n' || cs[j] == '\r'
        || cs[j] == '\x0c' || cs[j] == '[')
        invariant
            i <= j <= cs@.len(),
            word_end(cs@, i as int) == word_end(cs@, j as int),
        decreases cs@.len() - j,
    {
        proof {
            assert(!is_ws_char(cs@[j as int]) && cs@[j as int] != '[');
        }
        j = j + 1;
    }
    proof {
        if j < cs@.len() {
            assert(is_ws_char(cs@[j as int]) || cs@[j as int] == '[');
        }
    }
    j
}

/// Copies of the characters in `[lo, hi)`.
fn chars_range(cs: &Vec<char>, lo: usize, hi: usize) -> (r: Vec<char>)
    requires
        lo <= hi <= cs@.len(),
    ensures
        r@ == cs@.subrange(lo as int, hi as int),
{
    let mut r: Vec<char> = Vec::new();
    let mut i = lo;
    while i < hi
        invariant
            lo <= i <= hi <= cs@.len(),
            r@ == cs@.subrange(lo as int, i as int),
        decreases hi - i,
    {
        proof {
            assert(cs@.subrange(lo as int, i as int).push(cs@[i as int]) =~= cs@.subrange(
                lo as int,
                i + 1,
            ));
        }
        r.push(cs[i]);
        i = i + 1;
    }
    proof {
        assert(cs@.subrange(lo as int, hi as int) =~= r@);
    }
    r
}

/// Remove Unicode whitespace from both ends.
fn trim_ws_exec(v: Vec<char>) -> (r: Vec<char>)
    ensures
        r@ == trim_ws(v@),
{
    let ghost orig = v@;
    let mut v = v;
    while v.len() > 0 && is_uni_ws(v[0])
        invariant
            trim_front(v@) == trim_front(orig),
        decreases v@.len(),
    {
        proof {
            assert(is_uni_ws_char(v@[0]));
            assert(v@.remove(0) =~= v@.drop_first());
        }
        v.remove(0);
    }
    proof {
        if v@.len() > 0 {
            assert(!is_uni_ws_char(v@[0]));
        }
        assert(v@ == trim_front(orig));
    }
    let ghost fronted = v@;
    while v.len() > 0 && is_uni_ws(v[v.len() - 1])
        invariant
            trim_back(v@) == trim_back(fronted),
        decreases v@.len(),
    {
        proof {
            assert(is_uni_ws_char(v@[v@.len() - 1]));
            assert(v@.drop_last() =~= v@.subrange(0, v@.len() - 1));
        }
        v.pop();
    }
    proof {
        if v@.len() > 0 {
            assert(!is_uni_ws_char(v@[v@.len() - 1]));
        }
        assert(v@ == trim_back(fronted));
    }
    v
}

/// Append copies of all characters of `src`.
fn append_chars(dst: &mut Vec<char>, src: &Vec<char>)
    ensures
        final(dst)@ == old(dst)@ + src@,
{
    let mut i: usize = 0;
    while i < src.len()
        invariant
            i <= src@.len(),
            dst@ == old(dst)@ + src@.subrange(0, i as int),
        decreases src@.len() - i,
    {
        proof {
            assert((old(dst)@ + src@.subrange(0, i as int)).push(src@[i as int]) =~= old(dst)@
                + src@.subrange(0, i + 1));
        }
        dst.push(src[i]);
        i = i + 1;
    }
    proof {
        assert(old(dst)@ + src@.subrange(0, src@.len() as int) =~= old(dst)@ + src@);
    }
}

/// Tokenize text into word tokens.
///
/// Runs of ASCII whitespace collapse to a single space token, complete
/// `[-old+new]` markers become one normalized token, and everything else
/// splits at whitespace and bracket boundaries.
#[verifier::loop_isolation(false)]
#[verifier::rlimit(100)]
pub fn tokenize(text: &str) -> (r: Vec<String>)
    ensures
        r.deep_view() == spec_tokenize(text@),
        r@.len() <= text@.len(),
{
    let ghost s = text@;
    let cs = chars_of(text);
    let n = cs.len();
    let mut out: Vec<String> = Vec::new();
    let mut prev_space = false;
    let mut i: usize = 0;
    proof {
        assert(out.deep_view() =~= Seq::<Seq<char>>::empty());
        assert(Seq::<Seq<char>>::empty() + tok_spec(s, 0, false) =~= spec_tokenize(s));
    }
    while i < n
        invariant
            i <= n,
            out.deep_view() + tok_spec(s, i as int, prev_space) =~= spec_tokenize(s),
        decreases n - i,
    {
        let c = cs[i];
        if c == ' ' || c == '\t' || c == '\n' || c == '\r' || c == '\x0c' {
            proof {
                assert(is_ws_char(s[i as int]));
                lemma_ws_end(s, i as int);
            }
            let j = ws_end_exec(&cs, i);
            if !prev_space {
                let mut sp: Vec<char> = Vec::new();
                sp.push(' ');
                let tok = string_from_chars(&sp);
                let ghost old_out = out.deep_view();
                out.push(tok);
                proof {
                    assert(tok@ =~= seq![' ']);
                    assert(out.deep_view() =~= old_out.push(tok@));
                    assert(out.deep_view() =~= old_out + seq![seq![' ']]);
                }
            }
            prev_space = true;
            i = j;
        } else {
            let mut marker_done = false;
            if c == '[' && i + 1 < n && cs[i + 1] == '-' {
                let p = find_char_exec(&cs, i + 2, '+');
                if p < n {
                    let q = find_char_exec(&cs, p + 1, ']');
                    if q < n {
                        proof {
                            lemma_find_char(s, i + 2, '+');
                            lemma_find_char(s, p + 1, ']');
                        }
                        let left = trim_ws_exec(chars_range(&cs, i + 2, p));
                        let right = trim_ws_exec(chars_range(&cs, p + 1, q));
                        if left.len() == 0 && right.len() == 0 {
                            // an empty marker disappears entirely
                        } else {
                            let mut m: Vec<char> = Vec::new();
                            m.push('[');
                            m.push('-');
                            append_chars(&mut m, &left);
                            m.push('+');
                            append_chars(&mut m, &right);
                            m.push(']');
                            proof {
                                assert(m@ =~= norm_marker(left@, right@));
                            }
                            let tok = string_from_chars(&m);
                            let ghost old_out = out.deep_view();
                            out.push(tok);
                            proof {
                                assert(out.deep_view() =~= old_out.push(tok@));
                                assert(out.deep_view() =~= old_out + seq![
                                    norm_marker(left@, right@),
                                ]);
                            }
                            prev_space = false;
                        }
                        i = q + 1;
                        marker_done = true;
                    }
                }
            }
            if !marker_done {
                proof {
                    lemma_word_end(s, i + 1);
                }
                let e = word_end_exec(&cs, i + 1);
                let w = chars_range(&cs, i, e);
                let tok = string_from_chars(&w);
                let ghost old_out = out.deep_view();
                out.push(tok);
                proof {
                    assert(out.deep_view() =~= old_out.push(tok@));
                    assert(out.deep_view() =~= old_out + seq![s.subrange(i as int, e as int)]);
                }
                prev_space = false;
                i = e;
            }
        }
    }
    proof {
        assert(tok_spec(s, n as int, prev_space) =~= Seq::<Seq<char>>::empty());
        assert(out.deep_view() + Seq::<Seq<char>>::empty() =~= out.deep_view());
        lemma_tok_bound(s, 0, false);
        assert(out@.len() == out.deep_view().len());
    }
    out
}


/// Each character of a text as a one-character token.
pub open spec fn spec_chars(s: Seq<char>) -> Seq<Seq<char>> {
    Seq::new(s.len(), |i: int| seq![s[i]])
}

/// One-character tokens for a text.
fn char_tokens(text: &str) -> (r: Vec<String>)
    ensures
        r.deep_view() == spec_chars(text@),
        r@.len() == text@.len(),
{
    let cs = chars_of(text);
    let mut out: Vec<String> = Vec::new();
    let mut i: usize = 0;
    while i < cs.len()
        invariant
            i <= cs@.len(),
            cs@ == text@,
            out@.len() == i,
            forall|t: int| 0 <= t < i ==> out.deep_view()[t] == seq![text@[t]],
        decreases cs@.len() - i,
    {
        let mut one: Vec<char> = Vec::new();
        one.push(cs[i]);
        let tok = string_from_chars(&one);
        let ghost old_out = out.deep_view();
        out.push(tok);
        proof {
            assert(tok@ =~= seq![text@[i as int]]);
            assert(out.deep_view() =~= old_out.push(tok@));
            assert forall|t: int| 0 <= t < i + 1 implies out.deep_view()[t] == seq![text@[t]] by {
                if t < i {
                    assert(out.deep_view()[t] == old_out[t]);
                }
            }
        }
        i = i + 1;
    }
    proof {
        assert(out.deep_view() =~= spec_chars(text@));
    }
    out
}

/// A line-level diff of two texts: split both into lines, then run the
/// patience layer over the line tokens. The result carries the patience
/// layer's full contract over the two line sequences.
pub fn diff_lines(old: &str, new: &str) -> (r: Vec<DiffOp>)
    requires
        old@.len() + new@.len() + 2 <= MAX_TOTAL_LEN,
    ensures
        script_a(r@) == spec_lines(old@),
        script_b(r@) == spec_lines(new@),
        delete_first(r@),
        exists|chain: Seq<(usize, usize)>|
            #[trigger] anchor_chain(spec_lines(old@), spec_lines(new@), chain) && (forall|
                sel: Seq<(usize, usize)>,
            |
                anchor_chain(spec_lines(old@), spec_lines(new@), sel) ==> sel.len()
                    <= chain.len()) && anchored_split(
                spec_lines(old@),
                spec_lines(new@),
                chain,
                0,
                0,
                r@,
            ),
        spec_lines(old@) == spec_lines(new@) ==> r@.len() == spec_lines(old@).len() && (forall|
            i: int,
        |
            0 <= i < r@.len() ==> r@[i] is Equal),
{
    let old_lines = split_and_trim_lines(old);
    let new_lines = split_and_trim_lines(new);
    let a = old_lines.as_slice();
    let b = new_lines.as_slice();
    proof {
        assert(a.deep_view() =~= spec_lines(old@));
        assert(b.deep_view() =~= spec_lines(new@));
    }
    compute_patience_diff(a, b)
}

/// A word-level diff of two texts: tokenize both into word tokens, then run
/// the patience layer over them. The result carries the patience layer's
/// full contract over the two token sequences.
pub fn diff_words(old_text: &str, new_text: &str) -> (r: Vec<DiffOp>)
    requires
        old_text@.len() + new_text@.len() <= MAX_TOTAL_LEN,
    ensures
        script_a(r@) == spec_tokenize(old_text@),
        script_b(r@) == spec_tokenize(new_text@),
        delete_first(r@),
        exists|chain: Seq<(usize, usize)>|
            #[trigger] anchor_chain(spec_tokenize(old_text@), spec_tokenize(new_text@), chain)
                && (forall|sel: Seq<(usize, usize)>|
                anchor_chain(spec_tokenize(old_text@), spec_tokenize(new_text@), sel)
                    ==> sel.len() <= chain.len()) && anchored_split(
                spec_tokenize(old_text@),
                spec_tokenize(new_text@),
                chain,
                0,
                0,
                r@,
            ),
        spec_tokenize(old_text@) == spec_tokenize(new_text@) ==> r@.len() == spec_tokenize(
            old_text@,
        ).len() && (forall|i: int| 0 <= i < r@.len() ==> r@[i] is Equal),
{
    let old_tokens = tokenize(old_text);
    let new_tokens = tokenize(new_text);
    let a = old_tokens.as_slice();
    let b = new_tokens.as_slice();
    proof {
        assert(a.deep_view() =~= spec_tokenize(old_text@));
        assert(b.deep_view() =~= spec_tokenize(new_text@));
    }
    compute_patience_diff(a, b)
}

/// A character-level diff of two texts: one token per character, then the
/// patience layer over them. The result carries the patience layer's full
/// contract over the two character sequences.
pub fn diff_chars(old_text: &str, new_text: &str) -> (r: Vec<DiffOp>)
    requires
        old_text@.len() + new_text@.len() <= MAX_TOTAL_LEN,
    ensures
        script_a(r@) == spec_chars(old_text@),
        script_b(r@) == spec_chars(new_text@),
        delete_first(r@),
        exists|chain: Seq<(usize, usize)>|
            #[trigger] anchor_chain(spec_chars(old_text@), spec_chars(new_text@), chain) && (
            forall|sel: Seq<(usize, usize)>|
                anchor_chain(spec_chars(old_text@), spec_chars(new_text@), sel) ==> sel.len()
                    <= chain.len()) && anchored_split(
                spec_chars(old_text@),
                spec_chars(new_text@),
                chain,
                0,
                0,
                r@,
            ),
        spec_chars(old_text@) == spec_chars(new_text@) ==> r@.len() == spec_chars(
            old_text@,
        ).len() && (forall|i: int| 0 <= i < r@.len() ==> r@[i] is Equal),
{
    let old_chars = char_tokens(old_text);
    let new_chars = char_tokens(new_text);
    let a = old_chars.as_slice();
    let b = new_chars.as_slice();
    proof {
        assert(a.deep_view() =~= spec_chars(old_text@));
        assert(b.deep_view() =~= spec_chars(new_text@));
    }
    compute_patience_diff(a, b)
}


} // verus!
