//! HTML support for the side-by-side view: pairing diff lines into two
//! columns, and the translation of one ANSI-colored line to HTML.

use vstd::prelude::*;

use crate::modes::spec_lines;
use crate::modes::split_and_trim_lines;

verus! {

/// The two columns built from the diff's lines: a removal directly followed
/// by an addition occupies one row; a lone removal or addition leaves the
/// other column empty; anything else is context appearing in both columns.
pub open spec fn spec_columns(lines: Seq<Seq<char>>, i: int) -> (
    Seq<Option<Seq<char>>>,
    Seq<Option<Seq<char>>>,
)
    decreases lines.len() - i when 0 <= i <= lines.len()
{
    if i >= lines.len() {
        (Seq::empty(), Seq::empty())
    } else if lines[i].len() > 0 && lines[i][0] == '-' {
        if i + 1 < lines.len() && lines[i + 1].len() > 0 && lines[i + 1][0] == '+' {
            let rest = spec_columns(lines, i + 2);
            (seq![Some(lines[i])] + rest.0, seq![Some(lines[i + 1])] + rest.1)
        } else {
            let rest = spec_columns(lines, i + 1);
            (seq![Some(lines[i])] + rest.0, seq![None] + rest.1)
        }
    } else if lines[i].len() > 0 && lines[i][0] == '+' {
        let rest = spec_columns(lines, i + 1);
        (seq![None] + rest.0, seq![Some(lines[i])] + rest.1)
    } else {
        let rest = spec_columns(lines, i + 1);
        (seq![Some(lines[i])] + rest.0, seq![Some(lines[i])] + rest.1)
    }
}

/// Whether a line opens with the given sign.
fn starts_with_char(s: &String, c: char) -> (r: bool)
    ensures
        r == (s@.len() > 0 && s@[0] == c),
{
    let cs = crate::text::chars_of(s.as_str());
    if cs.len() > 0 {
        cs[0] == c
    } else {
        false
    }
}

/// Split a rendered diff into the two columns of a side-by-side view.
#[verifier::loop_isolation(false)]
#[verifier::rlimit(100)]
pub fn split_diff_into_columns(diff_text: &str) -> (r: (
    Vec<Option<String>>,
    Vec<Option<String>>,
))
    ensures
        r.0.deep_view() == spec_columns(spec_lines(diff_text@), 0).0,
        r.1.deep_view() == spec_columns(spec_lines(diff_text@), 0).1,
{
    let lines = split_and_trim_lines(diff_text);
    let ghost lsv = lines.deep_view();
    let mut left: Vec<Option<String>> = Vec::new();
    let mut right: Vec<Option<String>> = Vec::new();
    let mut i: usize = 0;
    proof {
        assert(left.deep_view() + spec_columns(lsv, 0).0 =~= spec_columns(lsv, 0).0);
        assert(right.deep_view() + spec_columns(lsv, 0).1 =~= spec_columns(lsv, 0).1);
    }
    while i < lines.len()
        invariant
            i <= lines@.len(),
            left.deep_view() + spec_columns(lsv, i as int).0 =~= spec_columns(lsv, 0).0,
            right.deep_view() + spec_columns(lsv, i as int).1 =~= spec_columns(lsv, 0).1,
        decreases lines@.len() - i,
    {
        let ghost old_l = left.deep_view();
        let ghost old_r = right.deep_view();
        if starts_with_char(&lines[i], '-') {
            if i + 1 < lines.len() && starts_with_char(&lines[i + 1], '+') {
                left.push(Some(lines[i].clone()));
                right.push(Some(lines[i + 1].clone()));
                proof {
                    assert(left.deep_view() =~= old_l.push(Some(lsv[i as int])));
                    assert(right.deep_view() =~= old_r.push(Some(lsv[i + 1])));
                }
                i = i + 2;
            } else {
                left.push(Some(lines[i].clone()));
                right.push(None);
                proof {
                    assert(left.deep_view() =~= old_l.push(Some(lsv[i as int])));
                    assert(right.deep_view() =~= old_r.push(None));
                }
                i = i + 1;
            }
        } else if starts_with_char(&lines[i], '+') {
            left.push(None);
            right.push(Some(lines[i].clone()));
            proof {
                assert(left.deep_view() =~= old_l.push(None));
                assert(right.deep_view() =~= old_r.push(Some(lsv[i as int])));
            }
            i = i + 1;
        } else {
            left.push(Some(lines[i].clone()));
            right.push(Some(lines[i].clone()));
            proof {
                assert(left.deep_view() =~= old_l.push(Some(lsv[i as int])));
                assert(right.deep_view() =~= old_r.push(Some(lsv[i as int])));
            }
            i = i + 1;
        }
    }
    proof {
        assert(left.deep_view() + Seq::<Option<Seq<char>>>::empty() =~= left.deep_view());
        assert(right.deep_view() + Seq::<Option<Seq<char>>>::empty() =~= right.deep_view());
    }
    (left, right)
}

/// What ansi_to_html::convert returns for a given input: the translation
/// depends on the input characters alone, and fails only for malformed ANSI.
pub uninterp spec fn ansi_html_of(s: Seq<char>) -> Option<Seq<char>>;

/// Relies on ansi_to_html::convert: it turns a string holding ANSI escape
/// codes into HTML, escaping special characters, as a function of the input
/// alone; it returns an error only for input it cannot parse.
#[verifier::external_body]
fn ansi_html_convert(s: &str) -> (r: Option<String>)
    ensures
        match r {
            Some(h) => ansi_html_of(s@) == Some(h@),
            None => ansi_html_of(s@) is None,
        },
{
    match ansi_to_html::convert(s) {
        Ok(h) => Some(h),
        Err(_) => None,
    }
}

/// One character HTML-escaped: the three text-significant characters become
/// entities, everything else stands as itself.
pub open spec fn escape_char(c: char) -> Seq<char> {
    if c == '&' {
        seq!['&', 'a', 'm', 'p', ';']
    } else if c == '<' {
        seq!['&', 'l', 't', ';']
    } else if c == '>' {
        seq!['&', 'g', 't', ';']
    } else {
        seq![c]
    }
}

/// A text HTML-escaped character by character.
pub open spec fn spec_escape_text(s: Seq<char>) -> Seq<char>
    decreases s.len(),
{
    if s.len() == 0 {
        Seq::empty()
    } else {
        escape_char(s[0]) + spec_escape_text(s.drop_first())
    }
}

/// Relies on html_escape::encode_text: it escapes exactly `&` to `&amp;`,
/// `<` to `&lt;` and `>` to `&gt;`, leaving every other character as it is.
#[verifier::external_body]
fn html_escape_text(s: &str) -> (r: String)
    ensures
        r@ == spec_escape_text(s@),
{
    html_escape::encode_text(s).to_string()
}

/// One diff line as HTML: the ANSI-aware translation when it succeeds, plain
/// HTML escaping when it does not.
pub fn ansi_to_html_line(line: &str) -> (r: String)
    ensures
        r@ == (match ansi_html_of(line@) {
            Some(h) => h,
            None => spec_escape_text(line@),
        }),
{
    match ansi_html_convert(line) {
        Some(html) => html,
        None => html_escape_text(line),
    }
}

} // verus!
