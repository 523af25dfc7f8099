//! Rendering a note's markdown for the terminal, with ANSI colours.

use vstd::prelude::*;
use crate::text::{chars_of, extend, extend_str, has_prefix, lines, lines_of, starts_with_str, string_of, trim, trim_chars, views};

verus! {

pub const RESET: &'static str = "\u{1b}[0m";

pub const BOLD: &'static str = "\u{1b}[1m";

pub const DIM: &'static str = "\u{1b}[2m";

pub const GREEN: &'static str = "\u{1b}[32m";

pub const CYAN: &'static str = "\u{1b}[36m";

/// The horizontal rule drawn for `---`.
pub const RULE: &'static str = "────────────────────";

/// A checked task: `- [x]` or `- [X]`.
pub open spec fn is_done(l: Seq<char>) -> bool {
    has_prefix(l, "- [x]"@) || has_prefix(l, "- [X]"@)
}

/// An unchecked task: `- [ ]`.
pub open spec fn is_open(l: Seq<char>) -> bool {
    !is_done(l) && has_prefix(l, "- [ ]"@)
}

/// How one line renders; `found_current` says whether an earlier unchecked
/// task was already marked as the current one.
pub open spec fn render_line(l: Seq<char>, found_current: bool) -> Seq<char> {
    if is_done(l) {
        GREEN@ + "✔"@ + RESET@ + " "@ + trim(l.skip(5)) + "\n"@
    } else if is_open(l) {
        if !found_current {
            CYAN@ + "→"@ + RESET@ + " "@ + trim(l.skip(5)) + "\n"@
        } else {
            DIM@ + "  "@ + trim(l.skip(5)) + RESET@ + "\n"@
        }
    } else if l == "---"@ {
        DIM@ + RULE@ + RESET@ + "\n"@
    } else if has_prefix(l, "## "@) || has_prefix(l, "# "@) {
        BOLD@ + l + RESET@ + "\n"@
    } else {
        l + "\n"@
    }
}

/// How the lines render, the first unchecked task (after `found_current`)
/// being the current one.
pub open spec fn render_lines(ls: Seq<Seq<char>>, found_current: bool) -> Seq<char>
    decreases ls.len(),
{
    if ls.len() == 0 {
        Seq::<char>::empty()
    } else {
        render_line(ls[0], found_current) + render_lines(
            ls.drop_first(),
            found_current || is_open(ls[0]),
        )
    }
}

/// Some line before line `i` is an unchecked task.
pub open spec fn open_task_before(ls: Seq<Seq<char>>, i: int) -> bool {
    exists|j: int| 0 <= j < i && is_open(#[trigger] ls[j])
}

/// Each line rendered on its own, a line being the current task exactly
/// when no earlier line is an unchecked task.
pub open spec fn first_task_pieces(ls: Seq<Seq<char>>) -> Seq<Seq<char>> {
    Seq::new(ls.len(), |i: int| render_line(ls[i], open_task_before(ls, i)))
}

spec fn pieces_after(ls: Seq<Seq<char>>, f: bool) -> Seq<Seq<char>> {
    Seq::new(ls.len(), |i: int| render_line(ls[i], f || open_task_before(ls, i)))
}

proof fn lemma_render_lines_pieces(ls: Seq<Seq<char>>, f: bool)
    ensures
        render_lines(ls, f) == pieces_after(ls, f).flatten(),
    decreases ls.len(),
{
    let pieces = pieces_after(ls, f);
    if ls.len() == 0 {
        assert(pieces.len() == 0);
    } else {
        let t = ls.drop_first();
        let g = f || is_open(ls[0]);
        lemma_render_lines_pieces(t, g);
        let rest = pieces_after(t, g);
        assert(!open_task_before(ls, 0));
        assert(pieces.first() == render_line(ls[0], f));
        assert forall|i: int| 0 <= i < rest.len() implies #[trigger] pieces.drop_first()[i]
            == rest[i] by {
            assert(t[i] == ls[i + 1]);
            if open_task_before(ls, i + 1) {
                let j = choose|j: int| 0 <= j < i + 1 && is_open(#[trigger] ls[j]);
                if j > 0 {
                    assert(t[j - 1] == ls[j]);
                    assert(open_task_before(t, i));
                }
            }
            if open_task_before(t, i) {
                let j = choose|j: int| 0 <= j < i && is_open(#[trigger] t[j]);
                assert(ls[j + 1] == t[j]);
                assert(open_task_before(ls, i + 1));
            }
            if is_open(ls[0]) {
                assert(open_task_before(ls, i + 1));
            }
        }
        assert(pieces.drop_first() =~= rest);
    }
}

/// A note renders line by line, and only the first unchecked task of the
/// whole note is the current one: each line renders as the current task
/// exactly when no earlier line is an unchecked task, whatever lies between
/// (headings, rules, done tasks, text).
pub proof fn lemma_render_marks_first_open_task(content: Seq<char>)
    ensures
        render_lines(lines(content), false) == first_task_pieces(lines(content)).flatten(),
{
    let ls = lines(content);
    lemma_render_lines_pieces(ls, false);
    assert(pieces_after(ls, false) =~= first_task_pieces(ls));
}

/// Render note markdown content to an ANSI-coloured string.
///
/// Supported syntax:
///   # / ## heading    → bold
///   ---               → dim horizontal rule
///   - [x] item        → green ✔  (done)
///   - [ ] item        → cyan →   (first unchecked = current), then dim (pending)
pub fn render_note(content: &str) -> (r: String)
    ensures
        r@ == render_lines(lines(content@), false),
{
    let cv = chars_of(content);
    let ls = lines_of(cv.as_slice());
    let ghost lv = views(ls@);
    let n = ls.len();
    let mut out: Vec<char> = Vec::new();
    let mut found_current = false;
    let mut i: usize = 0;
    proof {
        assert(lv.skip(0) =~= lv);
    }
    while i < n
        invariant
            n == ls@.len() == lv.len(),
            lv == views(ls@),
            lv == lines(content@),
            0 <= i <= n,
            out@ + render_lines(lv.skip(i as int), found_current) == render_lines(lv, false),
        decreases n - i,
    {
        let line = ls[i].as_slice();
        let ghost before = out@;
        let ghost f = found_current;
        proof {
            assert(lv.skip(i as int)[0] == line@);
            assert(lv.skip(i as int).drop_first() =~= lv.skip(i + 1));
        }
        let done = starts_with_str(line, "- [x]") || starts_with_str(line, "- [X]");
        if done {
            proof {
                reveal_strlit("- [x]");
                reveal_strlit("- [X]");
            }
            let text = trim_chars(crate::text::slice_copy(line, 5, line.len()).as_slice());
            proof {
                assert(line@.subrange(5, line@.len() as int) =~= line@.skip(5));
            }
            extend_str(&mut out, GREEN);
            extend_str(&mut out, "✔");
            extend_str(&mut out, RESET);
            extend_str(&mut out, " ");
            extend(&mut out, text.as_slice());
            extend_str(&mut out, "\n");
        } else if starts_with_str(line, "- [ ]") {
            proof {
                reveal_strlit("- [ ]");
            }
            let text = trim_chars(crate::text::slice_copy(line, 5, line.len()).as_slice());
            proof {
                assert(line@.subrange(5, line@.len() as int) =~= line@.skip(5));
            }
            if !found_current {
                found_current = true;
                extend_str(&mut out, CYAN);
                extend_str(&mut out, "→");
                extend_str(&mut out, RESET);
                extend_str(&mut out, " ");
                extend(&mut out, text.as_slice());
                extend_str(&mut out, "\n");
            } else {
                extend_str(&mut out, DIM);
                extend_str(&mut out, "  ");
                extend(&mut out, text.as_slice());
                extend_str(&mut out, RESET);
                extend_str(&mut out, "\n");
            }
        } else if crate::text::eq_str(line, "---") {
            extend_str(&mut out, DIM);
            extend_str(&mut out, RULE);
            extend_str(&mut out, RESET);
            extend_str(&mut out, "\n");
        } else if starts_with_str(line, "## ") || starts_with_str(line, "# ") {
            extend_str(&mut out, BOLD);
            extend(&mut out, line);
            extend_str(&mut out, RESET);
            extend_str(&mut out, "\n");
        } else {
            extend(&mut out, line);
            extend_str(&mut out, "\n");
        }
        proof {
            assert(out@ =~= before + render_line(line@, f));
            assert(found_current == (f || is_open(line@)));
            assert(before + render_lines(lv.skip(i as int), f) =~= before + render_line(line@, f)
                + render_lines(lv.skip(i + 1), found_current));
        }
        i = i + 1;
    }
    proof {
        assert(lv.skip(n as int) =~= Seq::<Seq<char>>::empty());
        assert(out@ + Seq::<char>::empty() =~= out@);
    }
    string_of(out.as_slice())
}

} // verus!
