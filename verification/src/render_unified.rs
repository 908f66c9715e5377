//! The unified-diff renderer: file headers, `@@` hunk headers, and one
//! prefixed line per operation.

use vstd::prelude::*;

use crate::data::DiffOp;
use crate::data::SpecHunk;
use crate::hunks::group_into_hunks;
use crate::hunks::hunk_views;
use crate::hunks::hunks_match_windows;
use crate::render::ansi_cyan;
use crate::render::ansi_gray;
use crate::render::ansi_green;
use crate::render::ansi_red;
use crate::render::ansi_reset;
use crate::render::concat_map;
use crate::render::lemma_concat_map_push;
use crate::render::spec_decimal;
use crate::render::usize_to_string;

verus! {

/// One operation rendered as a unified-diff line.
pub open spec fn render_unified_op(op: DiffOp, color: bool) -> Seq<char> {
    match op {
        DiffOp::Equal(t) => seq![' '] + t@ + seq!['\n'],
        DiffOp::Insert(t) => if color {
            ansi_green() + seq!['+'] + t@ + ansi_reset() + seq!['\n']
        } else {
            seq!['+'] + t@ + seq!['\n']
        },
        DiffOp::Delete(t) => if color {
            ansi_red() + seq!['-'] + t@ + ansi_reset() + seq!['\n']
        } else {
            seq!['-'] + t@ + seq!['\n']
        },
    }
}

/// A hunk's `@@ -a,b +c,d @@` header line.
pub open spec fn spec_hunk_header(h: SpecHunk, color: bool) -> Seq<char> {
    let core = seq!['@', '@', ' ', '-'] + spec_decimal(h.start_a as nat) + seq![',']
        + spec_decimal(h.len_a as nat) + seq![' ', '+'] + spec_decimal(h.start_b as nat)
        + seq![','] + spec_decimal(h.len_b as nat) + seq![' ', '@', '@'];
    if color {
        ansi_cyan() + core + ansi_reset() + seq!['\n']
    } else {
        core + seq!['\n']
    }
}

/// A hunk rendered whole: its header, then its operations.
pub open spec fn spec_render_hunk(h: SpecHunk, color: bool) -> Seq<char> {
    spec_hunk_header(h, color) + concat_map(|op: DiffOp| render_unified_op(op, color), h.ops)
}

/// The two file-name header lines.
pub open spec fn spec_file_header(old_name: Seq<char>, new_name: Seq<char>, color: bool) -> Seq<
    char,
> {
    if color {
        ansi_gray() + seq!['-', '-', '-', ' '] + old_name + ansi_reset() + seq!['\n']
            + ansi_gray() + seq!['+', '+', '+', ' '] + new_name + ansi_reset() + seq!['\n']
    } else {
        seq!['-', '-', '-', ' '] + old_name + seq!['\n'] + seq!['+', '+', '+', ' '] + new_name
            + seq!['\n']
    }
}

/// Render a unified diff: file headers, then every hunk of the stream at the
/// given context width.
///
/// The output is pinned against the hunk decomposition of the stream (see
/// [`hunks_match_windows`]): it is the file header followed by each hunk's
/// header line and prefixed operation lines in order.
#[verifier::rlimit(100)]
pub fn render_unified_diff(
    old_name: &str,
    new_name: &str,
    diffs: &[DiffOp],
    context: usize,
    color: bool,
) -> (r: String)
    requires
        diffs@.len() < usize::MAX,
    ensures
        exists|hs: Seq<SpecHunk>, ws: Seq<(int, int)>|
            #[trigger] hunks_match_windows(diffs@, context as int, hs, ws) && r@
                == spec_file_header(old_name@, new_name@, color) + concat_map(
                |h: SpecHunk| spec_render_hunk(h, color),
                hs,
            ),
{
    let ghost g = |h: SpecHunk| spec_render_hunk(h, color);
    let mut out = String::new();
    proof {
        reveal_strlit("--- ");
        reveal_strlit("+++ ");
        reveal_strlit("\n");
        reveal_strlit("\u{1b}[90m");
        reveal_strlit("\u{1b}[0m");
    }
    if color {
        out.append("\u{1b}[90m");
        out.append("--- ");
        out.append(old_name);
        out.append("\u{1b}[0m");
        out.append("\n");
        out.append("\u{1b}[90m");
        out.append("+++ ");
        out.append(new_name);
        out.append("\u{1b}[0m");
        out.append("\n");
    } else {
        out.append("--- ");
        out.append(old_name);
        out.append("\n");
        out.append("+++ ");
        out.append(new_name);
        out.append("\n");
    }
    let ghost header = spec_file_header(old_name@, new_name@, color);
    proof {
        assert(out@ =~= header);
    }

    let hunks = group_into_hunks(diffs, context);
    let ghost hs = hunk_views(hunks@);
    let mut k: usize = 0;
    proof {
        assert(out@ =~= header + concat_map(g, hs.subrange(0, 0)));
    }
    while k < hunks.len()
        invariant
            k <= hunks@.len(),
            hs == hunk_views(hunks@),
            out@ == header + concat_map(g, hs.subrange(0, k as int)),
            g == (|h: SpecHunk| spec_render_hunk(h, color)),
            header == spec_file_header(old_name@, new_name@, color),
        decreases hunks@.len() - k,
    {
        let ghost f = |op: DiffOp| render_unified_op(op, color);
        proof {
            assert(hs.subrange(0, k + 1) =~= hs.subrange(0, k as int).push(hs[k as int]));
            lemma_concat_map_push(g, hs.subrange(0, k as int), hs[k as int]);
            reveal_strlit("@@ -");
            reveal_strlit(",");
            reveal_strlit(" +");
            reveal_strlit(" @@");
            reveal_strlit("\n");
            reveal_strlit(" ");
            reveal_strlit("+");
            reveal_strlit("-");
            reveal_strlit("\u{1b}[36m");
            reveal_strlit("\u{1b}[31m");
            reveal_strlit("\u{1b}[32m");
            reveal_strlit("\u{1b}[0m");
        }
        let ghost mark = out@;
        let hunk = &hunks[k];
        if color {
            out.append("\u{1b}[36m");
        }
        out.append("@@ -");
        out.append(usize_to_string(hunk.start_a).as_str());
        out.append(",");
        out.append(usize_to_string(hunk.len_a).as_str());
        out.append(" +");
        out.append(usize_to_string(hunk.start_b).as_str());
        out.append(",");
        out.append(usize_to_string(hunk.len_b).as_str());
        out.append(" @@");
        if color {
            out.append("\u{1b}[0m");
        }
        out.append("\n");
        proof {
            assert(out@ =~= mark + spec_hunk_header(hs[k as int], color));
        }
        let mut t: usize = 0;
        while t < hunk.ops.len()
            invariant
                t <= hunk.ops@.len(),
                k < hunks@.len(),
                hunk == &hunks@[k as int],
                hs == hunk_views(hunks@),
                hs[k as int].ops == hunk.ops@,
                out@ == mark + spec_hunk_header(hs[k as int], color) + concat_map(
                    f,
                    hunk.ops@.subrange(0, t as int),
                ),
                f == (|op: DiffOp| render_unified_op(op, color)),
            decreases hunk.ops@.len() - t,
        {
            proof {
                assert(hunk.ops@.subrange(0, t + 1) =~= hunk.ops@.subrange(0, t as int).push(
                    hunk.ops@[t as int],
                ));
                lemma_concat_map_push(f, hunk.ops@.subrange(0, t as int), hunk.ops@[t as int]);
                reveal_strlit(" ");
                reveal_strlit("+");
                reveal_strlit("-");
                reveal_strlit("\n");
                reveal_strlit("\u{1b}[31m");
                reveal_strlit("\u{1b}[32m");
                reveal_strlit("\u{1b}[0m");
            }
            match &hunk.ops[t] {
                DiffOp::Equal(line) => {
                    out.append(" ");
                    out.append(line.as_str());
                    out.append("\n");
                },
                DiffOp::Insert(line) => {
                    if color {
                        out.append("\u{1b}[32m");
                    }
                    out.append("+");
                    out.append(line.as_str());
                    if color {
                        out.append("\u{1b}[0m");
                    }
                    out.append("\n");
                },
                DiffOp::Delete(line) => {
                    if color {
                        out.append("\u{1b}[31m");
                    }
                    out.append("-");
                    out.append(line.as_str());
                    if color {
                        out.append("\u{1b}[0m");
                    }
                    out.append("\n");
                },
            }
            proof {
                assert(out@ =~= mark + spec_hunk_header(hs[k as int], color) + (concat_map(
                    f,
                    hunk.ops@.subrange(0, t as int),
                ) + f(hunk.ops@[t as int])));
            }
            t = t + 1;
        }
        proof {
            assert(hunk.ops@.subrange(0, hunk.ops@.len() as int) =~= hunk.ops@);
            assert(out@ =~= mark + g(hs[k as int]));
            assert(out@ =~= header + concat_map(g, hs.subrange(0, k + 1)));
        }
        k = k + 1;
    }
    proof {
        assert(hs.subrange(0, hs.len() as int) =~= hs);
        let ws = choose|ws: Seq<(int, int)>|
            hunks_match_windows(diffs@, context as int, hunk_views(hunks@), ws);
        assert(hunks_match_windows(diffs@, context as int, hs, ws));
    }
    out
}

} // verus!
