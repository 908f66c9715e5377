//! Shared rendering utilities: ANSI color sequences, decimal formatting, and
//! concatenation specs, plus the plain line-by-line renderer.

use vstd::prelude::*;

use crate::data::DiffOp;
use crate::text::push_char;

verus! {

/// The ANSI red escape sequence.
pub open spec fn ansi_red() -> Seq<char> {
    seq!['\u{1b}', '[', '3', '1', 'm']
}

/// The ANSI green escape sequence.
pub open spec fn ansi_green() -> Seq<char> {
    seq!['\u{1b}', '[', '3', '2', 'm']
}

/// The ANSI cyan escape sequence.
pub open spec fn ansi_cyan() -> Seq<char> {
    seq!['\u{1b}', '[', '3', '6', 'm']
}

/// The ANSI gray escape sequence.
pub open spec fn ansi_gray() -> Seq<char> {
    seq!['\u{1b}', '[', '9', '0', 'm']
}

/// The ANSI reset escape sequence.
pub open spec fn ansi_reset() -> Seq<char> {
    seq!['\u{1b}', '[', '0', 'm']
}

/// The concatenation of `f` applied to every element in order.
pub open spec fn concat_map<T>(f: spec_fn(T) -> Seq<char>, xs: Seq<T>) -> Seq<char>
    decreases xs.len(),
{
    if xs.len() == 0 {
        Seq::empty()
    } else {
        f(xs[0]) + concat_map(f, xs.drop_first())
    }
}

/// Appending one element appends its rendering.
pub proof fn lemma_concat_map_push<T>(f: spec_fn(T) -> Seq<char>, xs: Seq<T>, x: T)
    ensures
        concat_map(f, xs.push(x)) == concat_map(f, xs) + f(x),
    decreases xs.len(),
{
    if xs.len() == 0 {
        assert(xs.push(x)[0] == x);
        assert(xs.push(x).drop_first() =~= Seq::<T>::empty());
        assert(concat_map(f, Seq::<T>::empty()) == Seq::<char>::empty());
        assert(concat_map(f, xs.push(x)) =~= concat_map(f, xs) + f(x));
    } else {
        assert(xs.push(x)[0] == xs[0]);
        assert(xs.push(x).drop_first() =~= xs.drop_first().push(x));
        lemma_concat_map_push(f, xs.drop_first(), x);
        assert(concat_map(f, xs.push(x)) =~= concat_map(f, xs) + f(x));
    }
}

/// The decimal digit character for a value below ten.
pub open spec fn dec_digit(d: int) -> char {
    if d == 0 {
        '0'
    } else if d == 1 {
        '1'
    } else if d == 2 {
        '2'
    } else if d == 3 {
        '3'
    } else if d == 4 {
        '4'
    } else if d == 5 {
        '5'
    } else if d == 6 {
        '6'
    } else if d == 7 {
        '7'
    } else if d == 8 {
        '8'
    } else {
        '9'
    }
}

/// The decimal digits of a number, most significant first.
pub open spec fn spec_decimal(n: nat) -> Seq<char>
    decreases n,
{
    if n < 10 {
        seq![dec_digit(n as int)]
    } else {
        spec_decimal(n / 10).push(dec_digit((n % 10) as int))
    }
}

/// The decimal digit character of `d`.
fn digit_char(d: usize) -> (c: char)
    requires
        d < 10,
    ensures
        c == dec_digit(d as int),
{
    if d == 0 {
        '0'
    } else if d == 1 {
        '1'
    } else if d == 2 {
        '2'
    } else if d == 3 {
        '3'
    } else if d == 4 {
        '4'
    } else if d == 5 {
        '5'
    } else if d == 6 {
        '6'
    } else if d == 7 {
        '7'
    } else if d == 8 {
        '8'
    } else {
        '9'
    }
}

/// Format a number in decimal.
pub fn usize_to_string(n: usize) -> (r: String)
    ensures
        r@ == spec_decimal(n as nat),
{
    let mut digits: Vec<char> = Vec::new();
    let mut m = n;
    if m < 10 {
        let mut r = String::new();
        push_char(&mut r, digit_char(m));
        proof {
            assert(r@ =~= spec_decimal(n as nat));
        }
        return r;
    }
    while m >= 10
        invariant
            spec_decimal(n as nat) =~= spec_decimal(m as nat) + digits@.reverse(),
        decreases m,
    {
        let ghost old_digits = digits@;
        let ghost m_old = m as nat;
        let dd = digit_char(m % 10);
        digits.push(dd);
        m = m / 10;
        proof {
            assert(digits@.reverse() =~= seq![dec_digit((m_old % 10) as int)]
                + old_digits.reverse());
            assert(spec_decimal(m_old) == spec_decimal(m_old / 10).push(
                dec_digit((m_old % 10) as int),
            ));
            assert(spec_decimal(m_old / 10).push(dec_digit((m_old % 10) as int))
                + old_digits.reverse() =~= spec_decimal(m_old / 10) + digits@.reverse());
        }
    }
    let ghost pre_digits = digits@;
    let ghost m_fin = m as nat;
    digits.push(digit_char(m));
    proof {
        assert(digits@.reverse() =~= seq![dec_digit(m_fin as int)] + pre_digits.reverse());
        assert(spec_decimal(m_fin) =~= seq![dec_digit(m_fin as int)]);
        assert(spec_decimal(n as nat) =~= digits@.reverse());
    }
    let mut r = String::new();
    let mut i: usize = digits.len();
    while i > 0
        invariant
            i <= digits@.len(),
            r@ =~= digits@.subrange(i as int, digits@.len() as int).reverse(),
        decreases i,
    {
        i = i - 1;
        push_char(&mut r, digits[i]);
    }
    proof {
        assert(r@ =~= digits@.reverse());
    }
    r
}

/// One operation rendered as a line: two-column prefix, the token, a
/// newline, and color around changed lines when requested.
pub open spec fn render_line_op(op: DiffOp, color: bool) -> Seq<char> {
    match op {
        DiffOp::Equal(t) => seq![' ', ' '] + t@ + seq!['\n'],
        DiffOp::Insert(t) => if color {
            ansi_green() + seq!['+', ' '] + t@ + ansi_reset() + seq!['\n']
        } else {
            seq!['+', ' '] + t@ + seq!['\n']
        },
        DiffOp::Delete(t) => if color {
            ansi_red() + seq!['-', ' '] + t@ + ansi_reset() + seq!['\n']
        } else {
            seq!['-', ' '] + t@ + seq!['\n']
        },
    }
}

/// The whole stream rendered line by line.
pub open spec fn spec_render_line_diff(ops: Seq<DiffOp>, color: bool) -> Seq<char> {
    concat_map(|op: DiffOp| render_line_op(op, color), ops)
}

/// Render a stream one line per operation: unchanged lines indented, inserts
/// prefixed `+`, deletes prefixed `-`, with ANSI colors when requested.
#[verifier::loop_isolation(false)]
pub fn render_line_diff(diffs: &[DiffOp], color: bool) -> (r: String)
    ensures
        r@ == spec_render_line_diff(diffs@, color),
{
    let ghost f = |op: DiffOp| render_line_op(op, color);
    let mut out = String::new();
    let mut i: usize = 0;
    proof {
        reveal_strlit("  ");
        reveal_strlit("+ ");
        reveal_strlit("- ");
        reveal_strlit("\n");
        reveal_strlit("\u{1b}[31m");
        reveal_strlit("\u{1b}[32m");
        reveal_strlit("\u{1b}[0m");
        assert(out@ =~= concat_map(f, diffs@.subrange(0, 0)));
    }
    while i < diffs.len()
        invariant
            i <= diffs@.len(),
            out@ == concat_map(f, diffs@.subrange(0, i as int)),
            f == (|op: DiffOp| render_line_op(op, color)),
        decreases diffs@.len() - i,
    {
        proof {
            assert(diffs@.subrange(0, i + 1) =~= diffs@.subrange(0, i as int).push(
                diffs@[i as int],
            ));
            lemma_concat_map_push(f, diffs@.subrange(0, i as int), diffs@[i as int]);
            reveal_strlit("  ");
            reveal_strlit("+ ");
            reveal_strlit("- ");
            reveal_strlit("\n");
            reveal_strlit("\u{1b}[31m");
            reveal_strlit("\u{1b}[32m");
            reveal_strlit("\u{1b}[0m");
        }
        match &diffs[i] {
            DiffOp::Equal(text) => {
                out.append("  ");
                out.append(text.as_str());
                out.append("\n");
            },
            DiffOp::Insert(text) => {
                if color {
                    out.append("\u{1b}[32m");
                }
                out.append("+ ");
                out.append(text.as_str());
                if color {
                    out.append("\u{1b}[0m");
                }
                out.append("\n");
            },
            DiffOp::Delete(text) => {
                if color {
                    out.append("\u{1b}[31m");
                }
                out.append("- ");
                out.append(text.as_str());
                if color {
                    out.append("\u{1b}[0m");
                }
                out.append("\n");
            },
        }
        proof {
            assert(out@ =~= concat_map(f, diffs@.subrange(0, i as int)) + f(diffs@[i as int]));
        }
        i = i + 1;
    }
    proof {
        assert(diffs@.subrange(0, diffs@.len() as int) =~= diffs@);
    }
    out
}

} // verus!
