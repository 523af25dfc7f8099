//! The layout of `tnote list`: notes grouped by category, labels and
//! annotations aligned in columns, the current note marked, and the windows
//! and shells that link to a named note listed under it.
//!
//! The application adds the colours and runs the annotation command.

use vstd::prelude::*;
use crate::notes::{entry_views, NoteEntry, NoteView};
use crate::text::{
    chars_of, decimal, decimal_exec, extend, extend_str, has_prefix, starts_with_str, str_concat,
    str_views, string_of, strip_prefix, strip_prefix_str,
};
use crate::tmux::{label_views, lookup_label, window_display_label, WindowLabel};

verus! {

/// The length in bytes of the UTF-8 encoding (what `str::len` reports).
pub open spec fn byte_len(s: Seq<char>) -> nat {
    (vstd::utf8::encode_utf8(s).len() as usize) as nat
}

fn byte_len_exec(s: &String) -> (r: usize)
    ensures
        r == byte_len(s@),
{
    s.as_str().len()
}

/// `trim_start_matches(p)`: every leading copy of `p` removed.
pub open spec fn strip_all_prefix(s: Seq<char>, p: Seq<char>) -> Seq<char>
    decreases s.len(),
{
    if p.len() > 0 && has_prefix(s, p) {
        strip_all_prefix(s.skip(p.len() as int), p)
    } else {
        s
    }
}

fn strip_all_prefix_exec(s: &[char], p: &str) -> (r: Vec<char>)
    ensures
        r@ == strip_all_prefix(s@, p@),
{
    let pv = chars_of(p);
    let pl = pv.len();
    let n = s.len();
    let mut i: usize = 0;
    proof {
        assert(s@.skip(0) =~= s@);
    }
    while pl > 0 && i <= n && crate::text::starts_with(
        crate::text::slice_copy(s, i, n).as_slice(),
        pv.as_slice(),
    )
        invariant
            pl == pv@.len(),
            pv@ == p@,
            n == s@.len(),
            0 <= i <= n,
            strip_all_prefix(s@, p@) == strip_all_prefix(s@.skip(i as int), p@),
        decreases n - i,
    {
        proof {
            assert(s@.subrange(i as int, n as int) =~= s@.skip(i as int));
            assert(s@.skip(i as int).skip(pl as int) =~= s@.skip(i + pl));
        }
        i = i + pl;
    }
    proof {
        if pl > 0 {
            assert(s@.subrange(i as int, n as int) =~= s@.skip(i as int));
        }
    }
    crate::text::slice_copy(s, i, n)
}

/// The label a note is listed under: shell notes without their `shell-`.
pub open spec fn shown_label(e: NoteView) -> Seq<char> {
    if e.category == "shell"@ {
        strip_all_prefix(e.display, "shell-"@)
    } else {
        e.display
    }
}

/// How a key that links to a named note is listed: `tmux - <window label>`
/// or `shell - <pid>`.
pub open spec fn source_label(k: Seq<char>, labels: Seq<(Seq<char>, Seq<char>)>) -> Seq<char> {
    if has_prefix(k, "tmux-"@) {
        "tmux - "@ + match lookup_label(labels, k) {
            Some(l) => l,
            None => k.skip(5),
        }
    } else {
        "shell - "@ + match strip_prefix(k, "shell-"@) {
            Some(r) => r,
            None => k,
        }
    }
}

/// The annotation of a note when no annotation command is configured.
pub open spec fn line_count_text(lines: nat) -> Seq<char> {
    decimal(lines) + " lines"@
}

pub fn line_count_annotation(lines: usize) -> (r: String)
    ensures
        r@ == line_count_text(lines as nat),
{
    let mut v = decimal_exec(lines as u64);
    extend_str(&mut v, " lines");
    string_of(v.as_slice())
}

/// One note's row: its label and the spaces that align the annotation
/// column, its annotation and the spaces that align the marker, whether it
/// is the current note, and the keys linking to it.
pub struct ListRow {
    pub label: String,
    pub padding: usize,
    pub annotation: String,
    pub annotation_pad: usize,
    pub current: bool,
    pub sources: Vec<String>,
}

/// The rows of one category, under their heading.
pub struct ListGroup {
    pub header: String,
    pub rows: Vec<ListRow>,
}

/// The categories in the order they are listed, with their headings.
pub open spec fn category_key(c: int) -> Seq<char> {
    if c == 0 {
        "named"@
    } else if c == 1 {
        "tmux"@
    } else if c == 2 {
        "shell"@
    } else {
        "other"@
    }
}

pub open spec fn category_heading(c: int) -> Seq<char> {
    if c == 0 {
        "named:"@
    } else if c == 1 {
        "tmux (session+window):"@
    } else if c == 2 {
        "shell (pid):"@
    } else {
        "other:"@
    }
}

/// The widest of the values (0 for none).
pub open spec fn widest(s: Seq<nat>) -> nat
    decreases s.len(),
{
    if s.len() == 0 {
        0
    } else {
        let w = widest(s.drop_last());
        if s.last() > w {
            s.last()
        } else {
            w
        }
    }
}

/// The mathematical value of a row.
pub struct RowView {
    pub label: Seq<char>,
    pub padding: nat,
    pub annotation: Seq<char>,
    pub annotation_pad: nat,
    pub current: bool,
    pub sources: Seq<Seq<char>>,
}

pub open spec fn row_view(r: ListRow) -> RowView {
    RowView {
        label: r.label@,
        padding: r.padding as nat,
        annotation: r.annotation@,
        annotation_pad: r.annotation_pad as nat,
        current: r.current,
        sources: str_views(r.sources@),
    }
}

/// The row of the note `e` with annotation `a`, in columns of widths
/// `label_w` and `ann_w`.
pub open spec fn row_of(
    e: NoteView,
    a: Seq<char>,
    label_w: nat,
    ann_w: nat,
    current_file: Seq<char>,
    labels: Seq<(Seq<char>, Seq<char>)>,
) -> RowView {
    RowView {
        label: shown_label(e),
        padding: (label_w - byte_len(shown_label(e))) as nat,
        annotation: a,
        annotation_pad: if ann_w >= a.len() {
            (ann_w - a.len()) as nat
        } else {
            0
        },
        current: e.path == current_file,
        sources: e.sources.map_values(|k: Seq<char>| source_label(k, labels)),
    }
}

/// The rows of the notes of category `cat`, in order.
pub open spec fn rows_of(
    es: Seq<NoteView>,
    anns: Seq<Seq<char>>,
    cat: Seq<char>,
    label_w: nat,
    ann_w: nat,
    current_file: Seq<char>,
    labels: Seq<(Seq<char>, Seq<char>)>,
) -> Seq<RowView>
    decreases es.len(),
{
    if es.len() == 0 {
        Seq::<RowView>::empty()
    } else {
        let p = rows_of(es.drop_last(), anns.drop_last(), cat, label_w, ann_w, current_file, labels);
        if es.last().category == cat {
            p.push(row_of(es.last(), anns.last(), label_w, ann_w, current_file, labels))
        } else {
            p
        }
    }
}

/// The layout: for each category in order that has notes, its heading and
/// rows; labels aligned to the widest label and annotations to the widest
/// annotation (in bytes).
pub open spec fn layout_of(
    es: Seq<NoteView>,
    anns: Seq<Seq<char>>,
    current_file: Seq<char>,
    labels: Seq<(Seq<char>, Seq<char>)>,
) -> Seq<(Seq<char>, Seq<RowView>)> {
    let label_w = widest(es.map_values(|e: NoteView| byte_len(shown_label(e))));
    let ann_w = widest(anns.map_values(|a: Seq<char>| byte_len(a)));
    Seq::new(4, |c: int| (category_heading(c), rows_of(es, anns, category_key(c), label_w, ann_w, current_file, labels))).filter(
        |g: (Seq<char>, Seq<RowView>)| g.1.len() > 0,
    )
}

pub open spec fn group_views(v: Seq<ListGroup>) -> Seq<(Seq<char>, Seq<RowView>)> {
    v.map_values(|g: ListGroup| (g.header@, g.rows@.map_values(|r: ListRow| row_view(r))))
}

fn shown_label_exec(e: &NoteEntry) -> (r: Vec<char>)
    ensures
        r@ == shown_label(e@),
{
    let d = chars_of(e.display.as_str());
    if crate::text::eq_str(chars_of(e.category.as_str()).as_slice(), "shell") {
        strip_all_prefix_exec(d.as_slice(), "shell-")
    } else {
        d
    }
}

fn source_label_exec(k: &String, labels: &Vec<WindowLabel>) -> (r: String)
    ensures
        r@ == source_label(k@, label_views(labels@)),
{
    let kv = chars_of(k.as_str());
    if starts_with_str(kv.as_slice(), "tmux-") {
        let l = match window_display_label(labels, k.as_str()) {
            Some(l) => chars_of(l.as_str()),
            None => {
                proof {
                    reveal_strlit("tmux-");
                }
                let r = crate::text::slice_copy(kv.as_slice(), 5, kv.len());
                proof {
                    assert(kv@.subrange(5, kv@.len() as int) =~= kv@.skip(5));
                }
                r
            },
        };
        string_of(str_concat("tmux - ", l.as_slice()).as_slice())
    } else {
        let r = match strip_prefix_str(kv.as_slice(), "shell-") {
            Some(r) => r,
            None => kv,
        };
        string_of(str_concat("shell - ", r.as_slice()).as_slice())
    }
}

fn widest_exec(v: &Vec<usize>) -> (r: usize)
    ensures
        r as nat == widest(v@.map_values(|x: usize| x as nat)),
{
    let ghost s = v@.map_values(|x: usize| x as nat);
    let mut w: usize = 0;
    let mut i: usize = 0;
    proof {
        assert(s.take(0) =~= Seq::<nat>::empty());
    }
    while i < v.len()
        invariant
            0 <= i <= v@.len(),
            s == v@.map_values(|x: usize| x as nat),
            w as nat == widest(s.take(i as int)),
        decreases v@.len() - i,
    {
        proof {
            assert(s.take(i + 1).drop_last() =~= s.take(i as int));
            assert(s.take(i + 1).last() == v@[i as int] as nat);
        }
        if v[i] > w {
            w = v[i];
        }
        i = i + 1;
    }
    proof {
        assert(s.take(v@.len() as int) =~= s);
    }
    w
}

proof fn lemma_widest_bound(s: Seq<nat>, i: int)
    requires
        0 <= i < s.len(),
    ensures
        s[i] <= widest(s),
    decreases s.len(),
{
    if i < s.len() - 1 {
        lemma_widest_bound(s.drop_last(), i);
    }
}

/// Lays out `tnote list`: `entries` as `list_notes` ordered them, with one
/// annotation each (`annotations`), the current note's file and the tmux
/// window labels.
pub fn list_layout(
    entries: &Vec<NoteEntry>,
    current_file: &str,
    annotations: &Vec<String>,
    labels: &Vec<WindowLabel>,
) -> (r: Vec<ListGroup>)
    requires
        annotations@.len() == entries@.len(),
    ensures
        group_views(r@) == layout_of(
            entry_views(entries@),
            str_views(annotations@),
            current_file@,
            label_views(labels@),
        ),
{
    let ghost ev = entry_views(entries@);
    let ghost av = str_views(annotations@);
    let ghost bv = label_views(labels@);
    let n = entries.len();
    let mut shown: Vec<Vec<char>> = Vec::new();
    let mut label_lens: Vec<usize> = Vec::new();
    let mut ann_lens: Vec<usize> = Vec::new();
    let mut i: usize = 0;
    while i < n
        invariant
            n == entries@.len() == annotations@.len() == ev.len() == av.len(),
            ev == entry_views(entries@),
            av == str_views(annotations@),
            0 <= i <= n,
            shown@.len() == i,
            forall|j: int| 0 <= j < i ==> #[trigger] shown@[j]@ == shown_label(ev[j]),
            label_lens@.map_values(|x: usize| x as nat) == ev.take(i as int).map_values(
                |e: NoteView| byte_len(shown_label(e)),
            ),
            ann_lens@.map_values(|x: usize| x as nat) == av.take(i as int).map_values(
                |a: Seq<char>| byte_len(a),
            ),
        decreases n - i,
    {
        let s = shown_label_exec(&entries[i]);
        let st = string_of(s.as_slice());
        let ll = byte_len_exec(&st);
        let al = byte_len_exec(&annotations[i]);
        let ghost lb = label_lens@.map_values(|x: usize| x as nat);
        let ghost ab = ann_lens@.map_values(|x: usize| x as nat);
        shown.push(s);
        label_lens.push(ll);
        ann_lens.push(al);
        proof {
            assert(ev[i as int] == entries@[i as int]@);
            assert(av[i as int] == annotations@[i as int]@);
            assert(label_lens@.map_values(|x: usize| x as nat) =~= lb.push(ll as nat));
            assert(ann_lens@.map_values(|x: usize| x as nat) =~= ab.push(al as nat));
            assert(ev.take(i + 1).map_values(|e: NoteView| byte_len(shown_label(e))) =~= ev.take(
                i as int,
            ).map_values(|e: NoteView| byte_len(shown_label(e))).push(byte_len(shown_label(ev[i as int]))));
            assert(av.take(i + 1).map_values(|a: Seq<char>| byte_len(a)) =~= av.take(
                i as int,
            ).map_values(|a: Seq<char>| byte_len(a)).push(byte_len(av[i as int])));
            assert forall|j: int| 0 <= j < i + 1 implies #[trigger] shown@[j]@ == shown_label(
                ev[j],
            ) by {}
        }
        i = i + 1;
    }
    proof {
        assert(ev.take(n as int) =~= ev);
        assert(av.take(n as int) =~= av);
    }
    let label_w = widest_exec(&label_lens);
    let ann_w = widest_exec(&ann_lens);
    let ghost lw = label_w as nat;
    let ghost aw = ann_w as nat;
    let ghost ls = ev.map_values(|e: NoteView| byte_len(shown_label(e)));
    let cats: [&str; 4] = ["named", "tmux", "shell", "other"];
    let heads: [&str; 4] = ["named:", "tmux (session+window):", "shell (pid):", "other:"];
    let mut groups: Vec<ListGroup> = Vec::new();
    let ghost all = Seq::new(
        4,
        |c: int|
            (category_heading(c), rows_of(ev, av, category_key(c), lw, aw, current_file@, bv)),
    );
    let ghost keep = |g: (Seq<char>, Seq<RowView>)| g.1.len() > 0;
    let cur = chars_of(current_file);
    let mut c: usize = 0;
    proof {
        assert(all.take(0).filter(keep) =~= Seq::<(Seq<char>, Seq<RowView>)>::empty());
        assert(group_views(groups@) =~= Seq::<(Seq<char>, Seq<RowView>)>::empty());
    }
    while c < 4
        invariant
            0 <= c <= 4,
            n == entries@.len() == annotations@.len() == ev.len() == av.len(),
            ev == entry_views(entries@),
            av == str_views(annotations@),
            bv == label_views(labels@),
            shown@.len() == n,
            forall|j: int| 0 <= j < n ==> #[trigger] shown@[j]@ == shown_label(ev[j]),
            ls == ev.map_values(|e: NoteView| byte_len(shown_label(e))),
            lw == widest(ls),
            aw == widest(av.map_values(|a: Seq<char>| byte_len(a))),
            lw == label_w,
            aw == ann_w,
            cur@ == current_file@,
            cats@ == seq!["named", "tmux", "shell", "other"],
            heads@ == seq!["named:", "tmux (session+window):", "shell (pid):", "other:"],
            all == Seq::new(
                4,
                |c: int|
                    (category_heading(c), rows_of(ev, av, category_key(c), lw, aw, current_file@, bv)),
            ),
            keep == (|g: (Seq<char>, Seq<RowView>)| g.1.len() > 0),
            group_views(groups@) == all.take(c as int).filter(keep),
        decreases 4 - c,
    {
        let cat = cats[c];
        proof {
            reveal_strlit("named");
            reveal_strlit("tmux");
            reveal_strlit("shell");
            reveal_strlit("other");
            reveal_strlit("named:");
            reveal_strlit("tmux (session+window):");
            reveal_strlit("shell (pid):");
            reveal_strlit("other:");
            assert(cat@ == category_key(c as int));
            assert(heads[c as int]@ == category_heading(c as int));
        }
        let mut rows: Vec<ListRow> = Vec::new();
        let mut i: usize = 0;
        proof {
            assert(ev.take(0) =~= Seq::<NoteView>::empty());
            assert(av.take(0) =~= Seq::<Seq<char>>::empty());
            assert(rows@.map_values(|r: ListRow| row_view(r)) =~= Seq::<RowView>::empty());
        }
        while i < n
            invariant
                0 <= c < 4,
                n == entries@.len() == annotations@.len() == ev.len() == av.len(),
                ev == entry_views(entries@),
                av == str_views(annotations@),
                bv == label_views(labels@),
                shown@.len() == n,
                forall|j: int| 0 <= j < n ==> #[trigger] shown@[j]@ == shown_label(ev[j]),
                ls == ev.map_values(|e: NoteView| byte_len(shown_label(e))),
                lw == widest(ls),
                lw == label_w,
                aw == ann_w,
                cur@ == current_file@,
                cat@ == category_key(c as int),
                0 <= i <= n,
                rows@.map_values(|r: ListRow| row_view(r)) == rows_of(
                    ev.take(i as int),
                    av.take(i as int),
                    cat@,
                    lw,
                    aw,
                    current_file@,
                    bv,
                ),
            decreases n - i,
        {
            let e = &entries[i];
            let ghost before = rows@.map_values(|r: ListRow| row_view(r));
            proof {
                assert(ev.take(i + 1).drop_last() =~= ev.take(i as int));
                assert(av.take(i + 1).drop_last() =~= av.take(i as int));
                assert(ev.take(i + 1).last() == e@);
                assert(av.take(i + 1).last() == annotations@[i as int]@);
            }
            if crate::text::eq_str(chars_of(e.category.as_str()).as_slice(), cat) {
                let label = string_of(shown[i].as_slice());
                let ll = byte_len_exec(&label);
                proof {
                    assert(ls[i as int] == byte_len(shown_label(ev[i as int])));
                    lemma_widest_bound(ls, i as int);
                }
                let a = &annotations[i];
                let ac = chars_of(a.as_str()).len();
                let apad = if ann_w >= ac {
                    ann_w - ac
                } else {
                    0
                };
                let path = chars_of(e.path.as_str());
                let current = crate::text::chars_eq(path.as_slice(), cur.as_slice());
                let mut sources: Vec<String> = Vec::new();
                let m = e.sources.len();
                let mut j: usize = 0;
                while j < m
                    invariant
                        m == e.sources@.len(),
                        0 <= j <= m,
                        bv == label_views(labels@),
                        str_views(sources@) == str_views(e.sources@).take(j as int).map_values(
                            |k: Seq<char>| source_label(k, bv),
                        ),
                    decreases m - j,
                {
                    let ghost sb = str_views(sources@);
                    let sl = source_label_exec(&e.sources[j], labels);
                    sources.push(sl);
                    proof {
                        assert(str_views(sources@) =~= sb.push(sl@));
                        assert(str_views(e.sources@).take(j + 1).map_values(
                            |k: Seq<char>| source_label(k, bv),
                        ) =~= sb.push(source_label(e.sources@[j as int]@, bv)));
                    }
                    j = j + 1;
                }
                proof {
                    assert(str_views(e.sources@).take(m as int) =~= str_views(e.sources@));
                }
                let row = ListRow {
                    label,
                    padding: label_w - ll,
                    annotation: string_of(chars_of(a.as_str()).as_slice()),
                    annotation_pad: apad,
                    current,
                    sources,
                };
                rows.push(row);
                proof {
                    assert(row_view(row) == row_of(e@, annotations@[i as int]@, lw, aw, current_file@, bv));
                    assert(rows@.map_values(|r: ListRow| row_view(r)) =~= before.push(row_view(row)));
                }
            }
            i = i + 1;
        }
        proof {
            assert(ev.take(n as int) =~= ev);
            assert(av.take(n as int) =~= av);
        }
        let ghost gb = group_views(groups@);
        let ghost g = (category_heading(c as int), rows@.map_values(|r: ListRow| row_view(r)));
        proof {
            assert(all[c as int] == g);
            assert(all.take(c + 1) =~= all.take(c as int).push(g));
            assert(all.take(c + 1).drop_last() =~= all.take(c as int));
            reveal(Seq::filter);
        }
        if rows.len() > 0 {
            groups.push(ListGroup { header: string_of(chars_of(heads[c]).as_slice()), rows });
            proof {
                assert(group_views(groups@) =~= gb.push(g));
            }
        }
        c = c + 1;
    }
    proof {
        assert(all.take(4) =~= all);
    }
    groups
}

// ───────────────────────────── annotations ─────────────────────────────

/// `s.replace(pat, with)` for a non-empty `pat`: each occurrence, from the
/// left and without overlap, replaced.
pub open spec fn replace_all(s: Seq<char>, pat: Seq<char>, with: Seq<char>) -> Seq<char>
    decreases s.len(),
{
    if pat.len() == 0 || s.len() == 0 {
        s
    } else if has_prefix(s, pat) {
        with + replace_all(s.skip(pat.len() as int), pat, with)
    } else {
        seq![s[0]] + replace_all(s.drop_first(), pat, with)
    }
}

/// The shell command that annotates the note at `path`: the configured
/// template with each `{}` replaced by the path.
pub fn annotation_command(template: &str, path: &str) -> (r: String)
    ensures
        r@ == replace_all(template@, "{}"@, path@),
{
    let t = chars_of(template);
    let p = chars_of(path);
    let pat = chars_of("{}");
    proof {
        reveal_strlit("{}");
    }
    let n = t.len();
    let mut out: Vec<char> = Vec::new();
    let mut i: usize = 0;
    proof {
        assert(t@.skip(0) =~= t@);
    }
    while i < n
        invariant
            n == t@.len(),
            pat@ == "{}"@,
            pat@.len() == 2,
            pat@[0] == '{',
            pat@[1] == '}',
            0 <= i <= n,
            out@ + replace_all(t@.skip(i as int), pat@, p@) == replace_all(t@, pat@, p@),
        decreases n - i,
    {
        let ghost rest = t@.skip(i as int);
        let ghost before = out@;
        if i + 1 < n && t[i] == '{' && t[i + 1] == '}' {
            proof {
                assert(rest.take(2) =~= pat@);
                assert(crate::text::has_prefix(rest, pat@));
                assert(rest.skip(2) =~= t@.skip(i + 2));
                assert(replace_all(rest, pat@, p@) == p@ + replace_all(rest.skip(2), pat@, p@));
            }
            extend(&mut out, p.as_slice());
            proof {
                assert(before + (p@ + replace_all(t@.skip(i + 2), pat@, p@)) =~= out@ + replace_all(
                    t@.skip(i + 2),
                    pat@,
                    p@,
                ));
            }
            i = i + 2;
        } else {
            proof {
                if crate::text::has_prefix(rest, pat@) {
                    assert(rest[0] == pat@[0] && rest[1] == pat@[1]);
                }
                assert(rest.drop_first() =~= t@.skip(i + 1));
            }
            out.push(t[i]);
            proof {
                assert(before + (seq![t@[i as int]] + replace_all(t@.skip(i + 1), pat@, p@))
                    =~= out@ + replace_all(t@.skip(i + 1), pat@, p@));
            }
            i = i + 1;
        }
    }
    proof {
        assert(t@.skip(n as int) =~= Seq::<char>::empty());
        assert(out@ + Seq::<char>::empty() =~= out@);
    }
    string_of(out.as_slice())
}

/// `trim_end_matches('\n')`.
pub open spec fn trim_end_newlines(s: Seq<char>) -> Seq<char>
    decreases s.len(),
{
    if s.len() > 0 && s.last() == '\n' {
        trim_end_newlines(s.drop_last())
    } else {
        s
    }
}

/// What the annotation command's output shows: its output without trailing
/// line breaks when it succeeded, else nothing.
pub fn annotation_output(success: bool, stdout: &str) -> (r: String)
    ensures
        r@ == if success {
            trim_end_newlines(stdout@)
        } else {
            Seq::<char>::empty()
        },
{
    if !success {
        return String::new();
    }
    let v = chars_of(stdout);
    let mut hi = v.len();
    proof {
        assert(v@.take(hi as int) =~= v@);
    }
    while hi > 0 && v[hi - 1] == '\n'
        invariant
            hi <= v@.len(),
            trim_end_newlines(v@) == trim_end_newlines(v@.take(hi as int)),
        decreases hi,
    {
        proof {
            assert(v@.take(hi as int).drop_last() =~= v@.take(hi - 1));
        }
        hi = hi - 1;
    }
    proof {
        assert(v@.subrange(0, hi as int) =~= v@.take(hi as int));
    }
    string_of(crate::text::slice_copy(v.as_slice(), 0, hi).as_slice())
}

// ───────────────────────────── the archive ─────────────────────────────

/// An archived named note and its line count.
pub struct ArchiveItem {
    pub name: String,
    pub lines: usize,
}

pub open spec fn item_views(v: Seq<ArchiveItem>) -> Seq<(Seq<char>, nat)> {
    v.map_values(|i: ArchiveItem| (i.name@, i.lines as nat))
}

/// The archived notes among the files of the archive directory: the named
/// note files, with their line counts, in the order of the files.
pub open spec fn archive_items_of(files: Seq<(Seq<char>, Seq<char>)>) -> Seq<(Seq<char>, nat)>
    decreases files.len(),
{
    if files.len() == 0 {
        Seq::<(Seq<char>, nat)>::empty()
    } else {
        let p = archive_items_of(files.drop_last());
        match crate::notes::named_note_of(files.last().0) {
            Some(n) => p.push((n, crate::text::lines(files.last().1).len())),
            None => p,
        }
    }
}

/// Each item comes no later than the next by name.
pub open spec fn sorted_items(s: Seq<(Seq<char>, nat)>) -> bool {
    forall|i: int, j: int|
        0 <= i && j == i + 1 && j < s.len() ==> !crate::notes::lex_lt(#[trigger] s[j].0, #[trigger] s[i].0)
}

fn insert_item(out: &mut Vec<ArchiveItem>, e: ArchiveItem)
    requires
        sorted_items(item_views(old(out)@)),
    ensures
        sorted_items(item_views(final(out)@)),
        item_views(final(out)@).to_multiset() == item_views(old(out)@).to_multiset().insert(
            (e.name@, e.lines as nat),
        ),
{
    let en = chars_of(e.name.as_str());
    let n = out.len();
    let mut p: usize = 0;
    while p < n && !crate::notes::lex_less(en.as_slice(), chars_of(out[p].name.as_str()).as_slice())
        invariant
            n == out@.len(),
            en@ == e.name@,
            0 <= p <= n,
            forall|q: int| 0 <= q < p ==> !crate::notes::lex_lt(e.name@, #[trigger] out@[q].name@),
        decreases n - p,
    {
        p = p + 1;
    }
    let ghost old_v = item_views(out@);
    let ghost ev = (e.name@, e.lines as nat);
    proof {
        if p < n {
            crate::notes::lemma_lex_lt_asymmetric(e.name@, out@[p as int].name@);
        }
    }
    out.insert(p, e);
    proof {
        let nv = item_views(out@);
        assert(nv =~= old_v.insert(p as int, ev));
        vstd::seq_lib::to_multiset_insert(old_v, p as int, ev);
        assert forall|i: int, j: int|
            0 <= i && j == i + 1 && j < nv.len() implies !crate::notes::lex_lt(
            #[trigger] nv[j].0,
            #[trigger] nv[i].0,
        ) by {
            if j < p {
                assert(nv[i] == old_v[i] && nv[j] == old_v[j]);
            } else if j == p {
                assert(nv[i] == old_v[i] && nv[j] == ev);
            } else if i == p {
                assert(nv[i] == ev && nv[j] == old_v[i]);
            } else {
                assert(nv[i] == old_v[i - 1] && nv[j] == old_v[j - 1]);
            }
        }
    }
}

/// The archived notes (from the archive directory's files with their
/// contents), sorted by name.
pub fn archive_items(files: &Vec<crate::notes::NoteFile>) -> (r: Vec<ArchiveItem>)
    ensures
        sorted_items(item_views(r@)),
        item_views(r@).to_multiset() == archive_items_of(crate::notes::file_views(files@)).to_multiset(),
{
    let ghost fv = crate::notes::file_views(files@);
    let n = files.len();
    let mut out: Vec<ArchiveItem> = Vec::new();
    let mut i: usize = 0;
    proof {
        assert(item_views(out@) =~= Seq::<(Seq<char>, nat)>::empty());
    }
    while i < n
        invariant
            n == files@.len() == fv.len(),
            fv == crate::notes::file_views(files@),
            0 <= i <= n,
            sorted_items(item_views(out@)),
            item_views(out@).to_multiset() == archive_items_of(fv.take(i as int)).to_multiset(),
        decreases n - i,
    {
        let ghost prev = archive_items_of(fv.take(i as int));
        proof {
            assert(fv.take(i + 1).drop_last() =~= fv.take(i as int));
            assert(fv.take(i + 1).last() == (files@[i as int].name@, files@[i as int].content@));
        }
        let f = chars_of(files[i].name.as_str());
        match strip_prefix_str(f.as_slice(), "named-") {
            Some(rest) => match crate::text::strip_suffix_str(rest.as_slice(), ".md") {
                Some(name) => {
                    let c = chars_of(files[i].content.as_str());
                    let count = crate::text::lines_of(c.as_slice()).len();
                    let item = ArchiveItem { name: string_of(name.as_slice()), lines: count };
                    proof {
                        vstd::seq_lib::to_multiset_build(prev, (name@, count as nat));
                    }
                    insert_item(&mut out, item);
                },
                None => {},
            },
            None => {},
        }
        i = i + 1;
    }
    proof {
        assert(fv.take(n as int) =~= fv);
    }
    out
}

/// The width of the name column: the longest name, in bytes.
pub fn archive_width(items: &Vec<ArchiveItem>) -> (r: usize)
    ensures
        r as nat == widest(items@.map_values(|i: ArchiveItem| byte_len(i.name@))),
        forall|k: int| 0 <= k < items@.len() ==> byte_len(#[trigger] items@[k].name@) <= r,
{
    let ghost s = items@.map_values(|i: ArchiveItem| byte_len(i.name@));
    let mut w: usize = 0;
    let mut k: usize = 0;
    proof {
        assert(s.take(0) =~= Seq::<nat>::empty());
    }
    while k < items.len()
        invariant
            0 <= k <= items@.len(),
            s == items@.map_values(|i: ArchiveItem| byte_len(i.name@)),
            w as nat == widest(s.take(k as int)),
        decreases items@.len() - k,
    {
        let l = byte_len_exec(&items[k].name);
        proof {
            assert(s.take(k + 1).drop_last() =~= s.take(k as int));
            assert(s.take(k + 1).last() == l as nat);
        }
        if l > w {
            w = l;
        }
        k = k + 1;
    }
    proof {
        assert(s.take(items@.len() as int) =~= s);
        assert forall|q: int| 0 <= q < items@.len() implies byte_len(#[trigger] items@[q].name@) <= w by {
            lemma_widest_bound(s, q);
        }
    }
    w
}

/// One line of the archive listing: `  <name><spaces>  <n> lines`, the
/// names padded (in bytes) to `width`.
pub fn archive_row(item: &ArchiveItem, width: usize) -> (r: String)
    requires
        byte_len(item.name@) <= width,
    ensures
        r@ == "  "@ + item.name@ + Seq::new((width - byte_len(item.name@)) as nat, |k: int| ' ')
            + "  "@ + line_count_text(item.lines as nat),
{
    let mut v = chars_of("  ");
    extend_str(&mut v, item.name.as_str());
    let pad = width - byte_len_exec(&item.name);
    let sp = crate::editor::blank_row_chars(pad);
    extend(&mut v, sp.as_slice());
    extend_str(&mut v, "  ");
    extend_str(&mut v, line_count_annotation(item.lines).as_str());
    string_of(v.as_slice())
}

} // verus!
