//! What tnote asks of tmux and how it reads the answers: shell quoting,
//! window keys and labels, the popup session, and the naming menu.
//!
//! The commands themselves run in the application; these functions build
//! their arguments and interpret their output.

use vstd::prelude::*;
use crate::text::{
    char_index, chars_of, chars_eq, concat, concat_str, contains_sub, decimal, decimal_exec,
    digit_prefix, digit_prefix_exec, extend, extend_str, find_char, find_from, has_prefix,
    has_suffix, lemma_char_index, lines, lines_of, map_chars, map_chars_exec, member,
    occurs_at, parse_unsigned, parse_unsigned_exec, slice_copy, starts_with_str, str_concat,
    str_views, string_of, strings_of, strip_prefix, strip_prefix_str, trim, trim_chars,
    trim_str, views,
};

verus! {

// ───────────────────────────── shell quoting ─────────────────────────────

/// `s` with every `'` written as `'\''`.
pub open spec fn escaped_quotes(s: Seq<char>) -> Seq<char>
    decreases s.len(),
{
    if s.len() == 0 {
        Seq::<char>::empty()
    } else if s.last() == '\'' {
        escaped_quotes(s.drop_last()) + seq!['\'', '\\', '\'', '\'']
    } else {
        escaped_quotes(s.drop_last()) + seq![s.last()]
    }
}

/// `s` as one single-quoted word for `sh`.
pub open spec fn shell_escaped(s: Seq<char>) -> Seq<char> {
    seq!['\''] + escaped_quotes(s) + seq!['\'']
}

/// The value `sh` gives a word built only of single-quoted runs and `\'`
/// escapes, by quote removal (`quoted` says whether a single-quoted run is
/// open). Inside a run every character stands for itself; outside one only
/// `'` (opening a run) and `\'` may occur, so no expansion, field splitting
/// or globbing applies. Any other word, or one with a run left open, has no
/// value here.
pub open spec fn quoted_word_value(w: Seq<char>, quoted: bool) -> Option<Seq<char>>
    decreases w.len(),
{
    if w.len() == 0 {
        if quoted {
            None
        } else {
            Some(Seq::<char>::empty())
        }
    } else if quoted {
        if w[0] == '\'' {
            quoted_word_value(w.drop_first(), false)
        } else {
            prefixed(seq![w[0]], quoted_word_value(w.drop_first(), true))
        }
    } else if w[0] == '\'' {
        quoted_word_value(w.drop_first(), true)
    } else if w[0] == '\\' && w.len() >= 2 && w[1] == '\'' {
        prefixed(seq!['\''], quoted_word_value(w.skip(2), false))
    } else {
        None
    }
}

/// `a` in front of the value, if there is one.
pub open spec fn prefixed(a: Seq<char>, v: Option<Seq<char>>) -> Option<Seq<char>> {
    match v {
        Some(x) => Some(a + x),
        None => None,
    }
}

/// The number of `'` in `s`.
pub open spec fn quote_count(s: Seq<char>) -> nat
    decreases s.len(),
{
    if s.len() == 0 {
        0
    } else if s.last() == '\'' {
        quote_count(s.drop_last()) + 1
    } else {
        quote_count(s.drop_last())
    }
}

proof fn lemma_escaped_quotes_value(s: Seq<char>, rest: Seq<char>)
    ensures
        quoted_word_value(escaped_quotes(s) + rest, true) == prefixed(
            s,
            quoted_word_value(rest, true),
        ),
        escaped_quotes(s).len() == s.len() + 3 * quote_count(s),
    decreases s.len(),
{
    if s.len() == 0 {
        assert(escaped_quotes(s) + rest =~= rest);
        match quoted_word_value(rest, true) {
            Some(x) => assert(s + x =~= x),
            None => {},
        }
    } else {
        let s0 = s.drop_last();
        let c = s.last();
        let piece = if c == '\'' {
            seq!['\'', '\\', '\'', '\'']
        } else {
            seq![c]
        };
        lemma_escaped_quotes_value(s0, piece + rest);
        assert(escaped_quotes(s) + rest =~= escaped_quotes(s0) + (piece + rest));
        let w = piece + rest;
        if c == '\'' {
            let w1 = w.drop_first();
            let w3 = w1.skip(2);
            assert(w3.drop_first() =~= rest);
            assert(w1[0] == '\\' && w1[1] == '\'');
            assert(w3[0] == '\'');
            assert(quoted_word_value(w3, false) == quoted_word_value(rest, true));
            assert(quoted_word_value(w1, false) == prefixed(seq!['\''], quoted_word_value(w3, false)));
            assert(quoted_word_value(w, true) == quoted_word_value(w1, false));
        } else {
            assert(w.drop_first() =~= rest);
            assert(quoted_word_value(w, true) == prefixed(seq![c], quoted_word_value(rest, true)));
        }
        match quoted_word_value(rest, true) {
            Some(x) => assert(s0 + (seq![c] + x) =~= s + x),
            None => {},
        }
    }
}

/// `shell_escape` gives one `sh` word that quote removal turns back into the
/// input, with nothing expanded; it is two characters longer than the input,
/// and three more for each `'` in it.
pub proof fn lemma_shell_escape_round_trip(s: Seq<char>)
    ensures
        quoted_word_value(shell_escaped(s), false) == Some(s),
        shell_escaped(s).len() == s.len() + 2 + 3 * quote_count(s),
{
    let close = seq!['\''];
    lemma_escaped_quotes_value(s, close);
    let w = shell_escaped(s);
    assert(w.drop_first() =~= escaped_quotes(s) + close);
    assert(close.drop_first() =~= Seq::<char>::empty());
    assert(quoted_word_value(Seq::<char>::empty(), false) == Some(Seq::<char>::empty()));
    assert(quoted_word_value(close, true) == quoted_word_value(close.drop_first(), false));
    assert(s + Seq::<char>::empty() =~= s);
}

fn shell_escape_chars(s: &[char]) -> (r: Vec<char>)
    ensures
        r@ == shell_escaped(s@),
{
    let n = s.len();
    let mut body: Vec<char> = Vec::new();
    let mut i: usize = 0;
    proof {
        assert(s@.take(0) =~= Seq::<char>::empty());
    }
    while i < n
        invariant
            n == s@.len(),
            0 <= i <= n,
            body@ == escaped_quotes(s@.take(i as int)),
        decreases n - i,
    {
        let c = s[i];
        proof {
            assert(s@.take(i + 1).drop_last() =~= s@.take(i as int));
            assert(s@.take(i + 1).last() == c);
        }
        if c == '\'' {
            body.push('\'');
            body.push('\\');
            body.push('\'');
            body.push('\'');
        } else {
            body.push(c);
        }
        proof {
            assert(body@ =~= escaped_quotes(s@.take(i + 1)));
        }
        i = i + 1;
    }
    proof {
        assert(s@.take(n as int) =~= s@);
    }
    let mut r: Vec<char> = vec!['\''];
    extend(&mut r, body.as_slice());
    r.push('\'');
    proof {
        assert(r@ =~= shell_escaped(s@));
    }
    r
}

/// Quotes `s` for `sh`: wraps it in single quotes, writing each `'` as `'\''`.
pub fn shell_escape(s: &str) -> (r: String)
    ensures
        r@ == shell_escaped(s@),
{
    let v = chars_of(s);
    string_of(shell_escape_chars(v.as_slice()).as_slice())
}

// ───────────────────────────── window keys ─────────────────────────────

/// The note key of the current window, from the output of
/// `tmux display-message -p '#{session_id}+#{window_id}'`.
pub open spec fn window_key_of(output: Seq<char>) -> Option<Seq<char>> {
    if trim(output).len() == 0 {
        None
    } else {
        Some("tmux-"@ + trim(output))
    }
}

/// Returns the current tmux window's note key, e.g. `tmux-$1+@3`, from the
/// output of `display-message -p '#{session_id}+#{window_id}'`. Uses stable
/// session/window ids so renames don't break the key.
pub fn window_key(output: &str) -> (r: Option<String>)
    ensures
        match r {
            Some(k) => window_key_of(output@) == Some(k@),
            None => window_key_of(output@) is None,
        },
{
    let k = trim_str(output);
    if k.len() == 0 {
        None
    } else {
        Some(string_of(str_concat("tmux-", k.as_slice()).as_slice()))
    }
}

/// True when the output of `display-message -p '#{session_name}'` names a
/// tnote popup session.
pub fn is_popup_session(output: &str) -> (b: bool)
    ensures
        b == has_prefix(trim(output@), "tnote-popup-"@),
{
    let k = trim_str(output);
    starts_with_str(k.as_slice(), "tnote-popup-")
}

/// The keys of all live windows, one per line of
/// `list-windows -a -F '#{session_id}+#{window_id}'`.
pub open spec fn live_keys_of(output: Seq<char>) -> Seq<Seq<char>> {
    lines(output).map_values(|l: Seq<char>| "tmux-"@ + trim(l))
}

/// The key that a window's id line gives as the current window's key is
/// among the live keys of any listing that holds that line, so a live
/// window's note is recognised as live.
pub proof fn lemma_window_key_is_live(output: Seq<char>, j: int)
    requires
        0 <= j < lines(output).len(),
        trim(lines(output)[j]).len() > 0,
    ensures
        window_key_of(lines(output)[j]) matches Some(k) && live_keys_of(output).contains(k),
{
    assert(live_keys_of(output)[j] == "tmux-"@ + trim(lines(output)[j]));
}

/// Returns the keys (e.g. `tmux-$1+@3`) of all live tmux windows across all
/// sessions, from the output of `list-windows -a -F '#{session_id}+#{window_id}'`.
pub fn live_window_keys(output: &str) -> (r: Vec<String>)
    ensures
        str_views(r@) == live_keys_of(output@),
{
    let v = chars_of(output);
    let ls = lines_of(v.as_slice());
    let n = ls.len();
    let mut keys: Vec<Vec<char>> = Vec::new();
    let mut i: usize = 0;
    while i < n
        invariant
            n == ls@.len(),
            views(ls@) == lines(output@),
            v@ == output@,
            0 <= i <= n,
            views(keys@) == live_keys_of(output@).take(i as int),
        decreases n - i,
    {
        let t = trim_chars(ls[i].as_slice());
        let k = str_concat("tmux-", t.as_slice());
        let ghost before = views(keys@);
        keys.push(k);
        proof {
            assert(views(ls@)[i as int] == ls@[i as int]@);
            assert(views(keys@) =~= before.push(k@));
            assert(live_keys_of(output@).take(i + 1) =~= live_keys_of(output@).take(i as int).push(
                k@,
            ));
        }
        i = i + 1;
    }
    proof {
        assert(live_keys_of(output@).take(n as int) =~= live_keys_of(output@));
    }
    strings_of(&keys)
}

// ───────────────────────────── window labels ─────────────────────────────

/// A live window's note key and its human-readable `session_name+window_index`.
pub struct WindowLabel {
    pub key: String,
    pub label: String,
}

pub open spec fn label_views(v: Seq<WindowLabel>) -> Seq<(Seq<char>, Seq<char>)> {
    v.map_values(|w: WindowLabel| (w.key@, w.label@))
}

/// One line `<session_id> <window_id> <label>` read as (key, label); a line
/// with fewer than two spaces gives nothing.
pub open spec fn label_entry(l: Seq<char>) -> Option<(Seq<char>, Seq<char>)> {
    let i = char_index(l, ' ');
    if i < 0 {
        None
    } else {
        let rest = l.skip(i + 1);
        let j = char_index(rest, ' ');
        if j < 0 {
            None
        } else {
            Some(("tmux-"@ + l.take(i) + seq!['+'] + rest.take(j), trim(rest.skip(j + 1))))
        }
    }
}

/// The (key, label) pairs of the lines that have one, in order.
pub open spec fn label_entries(ls: Seq<Seq<char>>) -> Seq<(Seq<char>, Seq<char>)>
    decreases ls.len(),
{
    if ls.len() == 0 {
        Seq::<(Seq<char>, Seq<char>)>::empty()
    } else {
        let p = label_entries(ls.drop_last());
        match label_entry(ls.last()) {
            Some(e) => p.push(e),
            None => p,
        }
    }
}

fn label_entry_exec(l: &[char]) -> (r: Option<WindowLabel>)
    ensures
        match r {
            Some(w) => label_entry(l@) == Some((w.key@, w.label@)),
            None => label_entry(l@) is None,
        },
{
    proof {
        lemma_char_index(l@, ' ');
    }
    let fi = find_char(l, ' ');
    let i: usize = match fi {
        Some(i) => i,
        None => return None,
    };
    let ln = l.len();
    let rest = slice_copy(l, i + 1, ln);
    proof {
        assert(rest@ =~= l@.skip(i + 1));
        lemma_char_index(rest@, ' ');
    }
    let j = match find_char(rest.as_slice(), ' ') {
        Some(j) => j,
        None => return None,
    };
    let mut key = str_concat("tmux-", slice_copy(l, 0, i).as_slice());
    key.push('+');
    extend(&mut key, slice_copy(rest.as_slice(), 0, j).as_slice());
    let label = trim_chars(slice_copy(rest.as_slice(), j + 1, rest.len()).as_slice());
    proof {
        assert(l@.subrange(0, i as int) =~= l@.take(i as int));
        assert(rest@.subrange(0, j as int) =~= rest@.take(j as int));
        assert(rest@.subrange(j + 1, rest@.len() as int) =~= rest@.skip(j + 1));
        assert(key@ =~= "tmux-"@ + l@.take(i as int) + seq!['+'] + rest@.take(j as int));
    }
    Some(WindowLabel { key: string_of(key.as_slice()), label: string_of(label.as_slice()) })
}

/// Returns the (key, label) pairs — `tmux-$1+@3` → `session_name+window_index`
/// — of all live windows, from the output of
/// `list-windows -a -F '#{session_id} #{window_id} #{session_name}+#{window_index}'`.
pub fn window_label_map(output: &str) -> (r: Vec<WindowLabel>)
    ensures
        label_views(r@) == label_entries(lines(output@)),
{
    let v = chars_of(output);
    let ls = lines_of(v.as_slice());
    let ghost lv = views(ls@);
    let n = ls.len();
    let mut out: Vec<WindowLabel> = Vec::new();
    let mut i: usize = 0;
    proof {
        assert(lv.take(0) =~= Seq::<Seq<char>>::empty());
    }
    while i < n
        invariant
            n == ls@.len() == lv.len(),
            lv == views(ls@),
            0 <= i <= n,
            label_views(out@) == label_entries(lv.take(i as int)),
        decreases n - i,
    {
        let ghost before = label_views(out@);
        proof {
            assert(lv.take(i + 1).drop_last() =~= lv.take(i as int));
            assert(lv.take(i + 1).last() == ls@[i as int]@);
        }
        match label_entry_exec(ls[i].as_slice()) {
            Some(w) => {
                out.push(w);
                proof {
                    assert(label_views(out@) =~= before.push((w.key@, w.label@)));
                }
            },
            None => {},
        }
        i = i + 1;
    }
    proof {
        assert(lv.take(n as int) =~= lv);
    }
    out
}

/// The label recorded last for `key` (later entries win, as in a map).
pub open spec fn lookup_label(es: Seq<(Seq<char>, Seq<char>)>, key: Seq<char>) -> Option<
    Seq<char>,
>
    decreases es.len(),
{
    if es.len() == 0 {
        None
    } else if es.last().0 == key {
        Some(es.last().1)
    } else {
        lookup_label(es.drop_last(), key)
    }
}

/// Returns the human-readable `session_name+window_index` label for an
/// id-based key.
pub fn window_display_label(labels: &Vec<WindowLabel>, key: &str) -> (r: Option<String>)
    ensures
        match r {
            Some(l) => lookup_label(label_views(labels@), key@) == Some(l@),
            None => lookup_label(label_views(labels@), key@) is None,
        },
{
    let kv = chars_of(key);
    let ghost es = label_views(labels@);
    let mut i = labels.len();
    proof {
        assert(es.take(es.len() as int) =~= es);
    }
    while i > 0
        invariant
            0 <= i <= labels@.len(),
            es.len() == labels@.len(),
            es == label_views(labels@),
            kv@ == key@,
            lookup_label(es, key@) == lookup_label(es.take(i as int), key@),
        decreases i,
    {
        let ghost t = es.take(i as int);
        proof {
            assert(t.drop_last() =~= es.take(i - 1));
            assert(t.last() == (labels@[i - 1].key@, labels@[i - 1].label@));
        }
        let cand = chars_of(labels[i - 1].key.as_str());
        if chars_eq(cand.as_slice(), kv.as_slice()) {
            proof {
                assert(cand@ == labels@[i - 1].key@);
            }
            return Some(labels[i - 1].label.clone());
        }
        i = i - 1;
    }
    None
}

// ───────────────────────────── versions ─────────────────────────────

/// What a tmux version string like `3.2a` or `2.9` says: the major version
/// (required), and the leading digits after the first `.` as the minor
/// version (0 when absent or unreadable).
pub open spec fn version_of(s: Seq<char>) -> Option<(u32, u32)> {
    let t = trim(s);
    let i = char_index(t, '.');
    let major_s = if i < 0 {
        t
    } else {
        t.take(i)
    };
    let minor = if i < 0 {
        0
    } else {
        match parse_unsigned(digit_prefix(t.skip(i + 1)), u32::MAX as nat) {
            Some(m) => m as u32,
            None => 0,
        }
    };
    match parse_unsigned(major_s, u32::MAX as nat) {
        Some(major) => Some((major as u32, minor)),
        None => None,
    }
}

/// Parse a tmux version string like `3.2a` or `2.9` into (major, minor).
pub fn parse_version_str(s: &str) -> (r: Option<(u32, u32)>)
    ensures
        r == version_of(s@),
{
    let t = trim_str(s);
    proof {
        lemma_char_index(t@, '.');
    }
    let (major_s, minor) = match find_char(t.as_slice(), '.') {
        None => (t.clone(), 0u32),
        Some(i) => {
            let rest = slice_copy(t.as_slice(), i + 1, t.len());
            let d = digit_prefix_exec(rest.as_slice());
            let m = match parse_unsigned_exec(d.as_slice(), 0xffff_ffff) {
                Some(m) => m as u32,
                None => 0,
            };
            proof {
                assert(rest@ =~= t@.skip(i + 1));
            }
            (slice_copy(t.as_slice(), 0, i), m)
        },
    };
    proof {
        let i = char_index(t@, '.');
        if i >= 0 {
            assert(major_s@ =~= t@.take(i));
        }
    }
    match parse_unsigned_exec(major_s.as_slice(), 0xffff_ffff) {
        Some(major) => Some((major as u32, minor)),
        None => None,
    }
}

/// `display-popup` needs tmux 3.2 or later.
pub open spec fn supports_popup(major: u32, minor: u32) -> bool {
    !(major < 3 || (major == 3 && minor < 2))
}

// ───────────────────────────── the popup ─────────────────────────────

/// The popup session of a note file stem: `tnote-popup-<stem>` with `+`, `/`,
/// `$`, `@` replaced by `_`.
pub open spec fn popup_session_of(stem: Seq<char>) -> Seq<char> {
    "tnote-popup-"@ + map_chars(stem, seq!['+', '/', '$', '@'], '_')
}

/// Whether the popup title of this stem shows the tmux window label, which the
/// application then looks up.
pub fn needs_window_label(stem: &str) -> (b: bool)
    ensures
        b == has_prefix(stem@, "tmux-"@),
{
    let v = chars_of(stem);
    starts_with_str(v.as_slice(), "tmux-")
}

/// The kind of note and its label as the popup title shows them.
pub open spec fn popup_note_label(stem: Seq<char>, window_label: Option<Seq<char>>) -> (
    Seq<char>,
    Seq<char>,
) {
    match strip_prefix(stem, "named-"@) {
        Some(s) => ("named"@, s),
        None => if has_prefix(stem, "tmux-"@) {
            (
                "tmux"@,
                match window_label {
                    Some(l) => l,
                    None => stem.skip(5),
                },
            )
        } else {
            match strip_prefix(stem, "shell-"@) {
                Some(s) => ("shell"@, s),
                None => (Seq::<char>::empty(), stem),
            }
        },
    }
}

/// ` <type> tnote - <label> `, or ` tnote - <label> ` for an untyped note.
pub open spec fn popup_title_of(stem: Seq<char>, window_label: Option<Seq<char>>) -> Seq<char> {
    let (ty, label) = popup_note_label(stem, window_label);
    if ty.len() == 0 {
        " tnote - "@ + label + " "@
    } else {
        " "@ + ty + " tnote - "@ + label + " "@
    }
}

/// The shell command the popup runs: attach to the note's session, or create
/// it running `tnote popup`.
pub open spec fn attach_command_of(session: Seq<char>, key: Seq<char>, editor: Seq<char>) -> Seq<
    char,
> {
    "tmux attach-session -t "@ + shell_escaped(session) + " 2>/dev/null || tmux new-session -s "@
        + shell_escaped(session) + " -e TNOTE_WINDOW_KEY="@ + shell_escaped(key)
        + " -e EDITOR="@ + shell_escaped(editor) + " tnote popup"@
}

/// The arguments of `tmux display-popup`, anchored to the top-right corner.
pub open spec fn popup_args_of(width: Seq<char>, height: Seq<char>, title: Seq<char>, attach: Seq<
    char,
>) -> Seq<Seq<char>> {
    seq![
        "display-popup"@,
        "-x"@,
        "R"@,
        "-y"@,
        "T"@,
        "-w"@,
        width,
        "-h"@,
        height,
        "-b"@,
        "rounded"@,
        "-T"@,
        title,
        "-E"@,
        attach,
    ]
}

/// The session name and `tmux` arguments that open the popup.
pub struct PopupCommand {
    pub session: String,
    pub args: Vec<String>,
}

fn push_str_arg(args: &mut Vec<Vec<char>>, s: &str)
    ensures
        views(final(args)@) == views(old(args)@).push(s@),
{
    let ghost before = views(args@);
    args.push(chars_of(s));
    proof {
        assert(views(args@) =~= before.push(s@));
    }
}

fn push_arg(args: &mut Vec<Vec<char>>, s: &[char])
    ensures
        views(final(args)@) == views(old(args)@).push(s@),
{
    let ghost before = views(args@);
    args.push(slice_copy(s, 0, s.len()));
    proof {
        assert(s@.subrange(0, s@.len() as int) =~= s@);
        assert(views(args@) =~= before.push(s@));
    }
}

/// Builds the command that opens (or reattaches to) the persistent popup
/// session of a note: `stem` is the note file's stem, `key` the window key,
/// `window_label` the tmux label when the stem is a tmux one.
pub fn open_popup_session(
    stem: &str,
    key: &str,
    window_label: Option<&str>,
    editor: &str,
    width: &str,
    height: &str,
) -> (r: PopupCommand)
    ensures
        r.session@ == popup_session_of(stem@),
        str_views(r.args@) == popup_args_of(
            width@,
            height@,
            popup_title_of(
                stem@,
                match window_label {
                    Some(l) => Some(l@),
                    None => None,
                },
            ),
            attach_command_of(popup_session_of(stem@), key@, editor@),
        ),
{
    let sv = chars_of(stem);
    let repl: Vec<char> = vec!['+', '/', '$', '@'];
    let mapped = map_chars_exec(sv.as_slice(), repl.as_slice(), '_');
    let session = str_concat("tnote-popup-", mapped.as_slice());
    proof {
        assert(repl@ =~= seq!['+', '/', '$', '@']);
    }
    let ghost wl = match window_label {
        Some(l) => Some(l@),
        None => None,
    };
    // note type and label
    let (ty, label): (Vec<char>, Vec<char>) = if let Some(s) = strip_prefix_str(
        sv.as_slice(),
        "named-",
    ) {
        (chars_of("named"), s)
    } else if starts_with_str(sv.as_slice(), "tmux-") {
        let l = match window_label {
            Some(l) => chars_of(l),
            None => {
                proof {
                    reveal_strlit("tmux-");
                }
                slice_copy(sv.as_slice(), 5, sv.len())
            },
        };
        proof {
            assert(sv@.subrange(5, sv@.len() as int) =~= sv@.skip(5));
        }
        (chars_of("tmux"), l)
    } else if let Some(s) = strip_prefix_str(sv.as_slice(), "shell-") {
        (chars_of("shell"), s)
    } else {
        (Vec::new(), sv.clone())
    };
    proof {
        assert((ty@, label@) == popup_note_label(stem@, wl));
    }
    let title: Vec<char> = if ty.len() == 0 {
        let t = str_concat(" tnote - ", label.as_slice());
        concat_str(t.as_slice(), " ")
    } else {
        let t = str_concat(" ", ty.as_slice());
        let t = concat_str(t.as_slice(), " tnote - ");
        let t = concat(t.as_slice(), label.as_slice());
        concat_str(t.as_slice(), " ")
    };
    let esc_session = shell_escape_chars(session.as_slice());
    let kv = chars_of(key);
    let ev = chars_of(editor);
    let mut attach = str_concat("tmux attach-session -t ", esc_session.as_slice());
    extend_str(&mut attach, " 2>/dev/null || tmux new-session -s ");
    extend(&mut attach, esc_session.as_slice());
    extend_str(&mut attach, " -e TNOTE_WINDOW_KEY=");
    extend(&mut attach, shell_escape_chars(kv.as_slice()).as_slice());
    extend_str(&mut attach, " -e EDITOR=");
    extend(&mut attach, shell_escape_chars(ev.as_slice()).as_slice());
    extend_str(&mut attach, " tnote popup");
    let mut args: Vec<Vec<char>> = Vec::new();
    push_str_arg(&mut args, "display-popup");
    push_str_arg(&mut args, "-x");
    push_str_arg(&mut args, "R");
    push_str_arg(&mut args, "-y");
    push_str_arg(&mut args, "T");
    push_str_arg(&mut args, "-w");
    push_str_arg(&mut args, width);
    push_str_arg(&mut args, "-h");
    push_str_arg(&mut args, height);
    push_str_arg(&mut args, "-b");
    push_str_arg(&mut args, "rounded");
    push_str_arg(&mut args, "-T");
    push_arg(&mut args, title.as_slice());
    push_str_arg(&mut args, "-E");
    push_arg(&mut args, attach.as_slice());
    proof {
        assert(attach@ =~= attach_command_of(popup_session_of(stem@), key@, editor@));
        assert(title@ =~= popup_title_of(stem@, wl));
        assert(views(args@) =~= popup_args_of(width@, height@, title@, attach@));
    }
    PopupCommand { session: string_of(session.as_slice()), args: strings_of(&args) }
}

/// The popup failed because the tmux client and server speak different
/// protocol versions.
pub fn protocol_mismatch(stderr: &str) -> (b: bool)
    ensures
        b == contains_sub(stderr@, "protocol version mismatch"@),
{
    let v = chars_of(stderr);
    let p = chars_of("protocol version mismatch");
    let r = find_from(v.as_slice(), 0, p.as_slice());
    proof {
        if contains_sub(v@, p@) {
            let k = choose|k: int| occurs_at(v@, k, p@);
            assert(0 <= k);
        }
    }
    r.is_some()
}

/// The error for a failed `display-popup`: a protocol mismatch, a server
/// older than 3.2 (when its version is known), or a plain failure.
pub open spec fn popup_failure_of(mismatch: bool, version: Option<(u32, u32)>) -> Seq<char> {
    if mismatch {
        "tmux popup: protocol version mismatch between tmux client and server (tmux was likely upgraded while a server was running) — kill the old server with `pkill tmux`, then start a fresh session"@
    } else {
        match version {
            Some((major, minor)) if !supports_popup(major, minor) => "tmux popup: display-popup requires tmux 3.2+ (server is "@
                + decimal(major as nat) + seq!['.'] + decimal(minor as nat)
                + "); please upgrade tmux"@,
            _ => "tmux popup: display-popup failed"@,
        }
    }
}

/// The message for a failed popup.
pub fn popup_failure_message(mismatch: bool, version: Option<(u32, u32)>) -> (r: String)
    ensures
        r@ == popup_failure_of(mismatch, version),
{
    if mismatch {
        return String::from_str(
            "tmux popup: protocol version mismatch between tmux client and server (tmux was likely upgraded while a server was running) — kill the old server with `pkill tmux`, then start a fresh session",
        );
    }
    match version {
        Some((major, minor)) => {
            if major < 3 || (major == 3 && minor < 2) {
                let mut m: Vec<char> = Vec::new();
                extend_str(&mut m, "tmux popup: display-popup requires tmux 3.2+ (server is ");
                extend(&mut m, decimal_exec(major as u64).as_slice());
                m.push('.');
                extend(&mut m, decimal_exec(minor as u64).as_slice());
                extend_str(&mut m, "); please upgrade tmux");
                return string_of(m.as_slice());
            }
        },
        None => {},
    }
    String::from_str("tmux popup: display-popup failed")
}

// ───────────────────────────── stale popup sessions ─────────────────────────────

/// The stem of a note file name: a name with extension `md`.
pub open spec fn md_stem(name: Seq<char>) -> Option<Seq<char>> {
    if has_suffix(name, ".md"@) && name.len() > 3 {
        Some(name.take(name.len() - 3))
    } else {
        None
    }
}

pub fn md_stem_exec(name: &[char]) -> (r: Option<Vec<char>>)
    ensures
        match r {
            Some(s) => md_stem(name@) == Some(s@),
            None => md_stem(name@) is None,
        },
{
    if name.len() > 3 && crate::text::ends_with_str(name, ".md") {
        Some(slice_copy(name, 0, name.len() - 3))
    } else {
        proof {
            reveal_strlit(".md");
        }
        None
    }
}

/// The popup session that a note file keeps alive, for a file with extension
/// `md`: the session that `open_popup_session` names for its stem.
pub open spec fn file_session(file: Seq<char>) -> Option<Seq<char>> {
    match md_stem(file) {
        Some(st) => Some(popup_session_of(st)),
        None => None,
    }
}

/// Some note file keeps the session `name` alive.
pub open spec fn kept_session(files: Seq<Seq<char>>, name: Seq<char>) -> bool {
    exists|i: int| 0 <= i < files.len() && #[trigger] file_session(files[i]) == Some(name)
}

/// While a note's file exists, the sweep of stale popup sessions keeps the
/// session that was opened for that note: no line of `list-sessions` makes
/// it stale.
pub proof fn lemma_open_session_kept_while_note_exists(files: Seq<Seq<char>>, stem: Seq<char>, i: int)
    requires
        0 <= i < files.len(),
        files[i] == stem + ".md"@,
        stem.len() > 0,
    ensures
        kept_session(files, popup_session_of(stem)),
        forall|line: Seq<char>| stale_session(files, line) != Some(popup_session_of(stem)),
{
    reveal_strlit(".md");
    let f = stem + ".md"@;
    assert(f.skip(f.len() - 3) =~= ".md"@);
    assert(f.take(f.len() - 3) =~= stem);
    assert(md_stem(f) == Some(stem));
    assert(file_session(files[i]) == Some(popup_session_of(stem)));
}

/// The session a line `<name>:<attached>` of `list-sessions` names for
/// removal: a detached tnote popup session whose note file is gone.
pub open spec fn stale_session(files: Seq<Seq<char>>, line: Seq<char>) -> Option<Seq<char>> {
    let i = char_index(line, ':');
    if i < 0 {
        None
    } else {
        let name = line.take(i);
        if parse_unsigned(trim(line.skip(i + 1)), u32::MAX as nat) == Some(0nat) && has_prefix(
            name,
            "tnote-popup-"@,
        ) && !kept_session(files, name) {
            Some(name)
        } else {
            None
        }
    }
}

/// The stale sessions named by the lines, in order.
pub open spec fn stale_sessions(files: Seq<Seq<char>>, ls: Seq<Seq<char>>) -> Seq<Seq<char>>
    decreases ls.len(),
{
    if ls.len() == 0 {
        Seq::<Seq<char>>::empty()
    } else {
        let p = stale_sessions(files, ls.drop_last());
        match stale_session(files, ls.last()) {
            Some(n) => p.push(n),
            None => p,
        }
    }
}

/// The sessions the note files keep alive.
fn kept_sessions(files: &Vec<Vec<char>>) -> (r: Vec<Vec<char>>)
    ensures
        forall|s: Seq<char>| views(r@).contains(s) <==> kept_session(views(files@), s),
{
    let ghost fv = views(files@);
    let repl: Vec<char> = vec!['+', '/', '$', '@'];
    proof {
        assert(repl@ =~= seq!['+', '/', '$', '@']);
    }
    let mut r: Vec<Vec<char>> = Vec::new();
    let n = files.len();
    let mut i: usize = 0;
    while i < n
        invariant
            n == files@.len() == fv.len(),
            fv == views(files@),
            repl@ == seq!['+', '/', '$', '@'],
            0 <= i <= n,
            forall|s: Seq<char>|
                views(r@).contains(s) <==> kept_session(fv.take(i as int), s),
        decreases n - i,
    {
        let ghost before = views(r@);
        let ghost fi = fv.take(i as int);
        let ghost fi1 = fv.take(i + 1);
        proof {
            assert(fv[i as int] == files@[i as int]@);
            assert(fi1[i as int] == fv[i as int]);
            assert forall|j: int| 0 <= j < i implies fi1[j] == fi[j] by {}
        }
        match md_stem_exec(files[i].as_slice()) {
            Some(st) => {
                let m = map_chars_exec(st.as_slice(), repl.as_slice(), '_');
                let name = str_concat("tnote-popup-", m.as_slice());
                r.push(name);
                proof {
                    assert(views(r@) =~= before.push(name@));
                    assert(file_session(fi1[i as int]) == Some(name@));
                    assert forall|s: Seq<char>|
                        views(r@).contains(s) <==> kept_session(fi1, s) by {
                        if views(r@).contains(s) {
                            let k = choose|k: int| 0 <= k < views(r@).len() && views(r@)[k] == s;
                            if k < before.len() {
                                assert(before[k] == s);
                                assert(before.contains(s));
                                let j = choose|j: int|
                                    0 <= j < fi.len() && #[trigger] file_session(fi[j]) == Some(s);
                                assert(file_session(fi1[j]) == Some(s));
                            }
                        }
                        if kept_session(fi1, s) {
                            let j = choose|j: int|
                                0 <= j < fi1.len() && #[trigger] file_session(fi1[j]) == Some(s);
                            if j < i {
                                assert(file_session(fi[j]) == Some(s));
                                assert(kept_session(fi, s));
                                assert(before.contains(s));
                                let k = choose|k: int| 0 <= k < before.len() && before[k] == s;
                                assert(views(r@)[k] == s);
                            } else {
                                assert(views(r@)[before.len() as int] == s);
                            }
                        }
                    }
                }
            },
            None => {
                proof {
                    assert(file_session(fi1[i as int]) is None);
                    assert forall|s: Seq<char>|
                        views(r@).contains(s) <==> kept_session(fi1, s) by {
                        if views(r@).contains(s) {
                            let j = choose|j: int|
                                0 <= j < fi.len() && #[trigger] file_session(fi[j]) == Some(s);
                            assert(file_session(fi1[j]) == Some(s));
                        }
                        if kept_session(fi1, s) {
                            let j = choose|j: int|
                                0 <= j < fi1.len() && #[trigger] file_session(fi1[j]) == Some(s);
                            assert(file_session(fi[j]) == Some(s));
                        }
                    }
                }
            },
        }
        i = i + 1;
    }
    proof {
        assert(fv.take(n as int) =~= fv);
    }
    r
}

/// The sweep never kills the popup session of a note whose file exists, for
/// every stem; and each session it names is a detached tnote popup session
/// listed by `list-sessions`.
pub proof fn lemma_sweep_spares_existing_notes(
    files: Seq<Seq<char>>,
    ls: Seq<Seq<char>>,
    stem: Seq<char>,
    i: int,
)
    requires
        0 <= i < files.len(),
        files[i] == stem + ".md"@,
        stem.len() > 0,
    ensures
        !stale_sessions(files, ls).contains(popup_session_of(stem)),
        forall|k: int|
            0 <= k < stale_sessions(files, ls).len() ==> has_prefix(
                #[trigger] stale_sessions(files, ls)[k],
                "tnote-popup-"@,
            ) && exists|j: int| 0 <= j < ls.len() && stale_session(files, #[trigger] ls[j]) == Some(
                stale_sessions(files, ls)[k],
            ),
    decreases ls.len(),
{
    lemma_open_session_kept_while_note_exists(files, stem, i);
    if ls.len() > 0 {
        let init = ls.drop_last();
        lemma_sweep_spares_existing_notes(files, init, stem, i);
        let p = stale_sessions(files, init);
        let out = stale_sessions(files, ls);
        assert forall|k: int| 0 <= k < out.len() implies has_prefix(
            #[trigger] out[k],
            "tnote-popup-"@,
        ) && exists|j: int| 0 <= j < ls.len() && stale_session(files, #[trigger] ls[j]) == Some(
            out[k],
        ) by {
            if k < p.len() {
                assert(out[k] == p[k]);
                let j = choose|j: int| 0 <= j < init.len() && stale_session(files, #[trigger] init[j]) == Some(
                    p[k],
                );
                assert(ls[j] == init[j]);
            } else {
                assert(ls[ls.len() - 1] == ls.last());
                let line = ls.last();
                let c = char_index(line, ':');
                assert(stale_session(files, line) == Some(out[k]));
                assert(out[k] == line.take(c));
            }
        }
        if out.contains(popup_session_of(stem)) {
            let k = choose|k: int| 0 <= k < out.len() && out[k] == popup_session_of(stem);
            if k < p.len() {
                assert(out[k] == p[k]);
            } else {
                assert(stale_session(files, ls.last()) == Some(out[k]));
            }
        }
    }
}

/// The tnote popup sessions to kill: detached ones whose note file no longer
/// exists. `note_files` are the file names in the notes directory and
/// `sessions` the output of `list-sessions -F '#{session_name}:#{session_attached}'`.
pub fn cleanup_popup_sessions(note_files: &Vec<String>, sessions: &str) -> (r: Vec<String>)
    ensures
        str_views(r@) == stale_sessions(str_views(note_files@), lines(sessions@)),
{
    let files = crate::text::char_vecs(note_files);
    let kept = kept_sessions(&files);
    let ghost fv = views(files@);
    let v = chars_of(sessions);
    let ls = lines_of(v.as_slice());
    let ghost lv = views(ls@);
    let n = ls.len();
    let mut out: Vec<Vec<char>> = Vec::new();
    let mut i: usize = 0;
    proof {
        assert(lv.take(0) =~= Seq::<Seq<char>>::empty());
    }
    while i < n
        invariant
            n == ls@.len() == lv.len(),
            lv == views(ls@),
            fv == str_views(note_files@),
            forall|s: Seq<char>| views(kept@).contains(s) <==> kept_session(fv, s),
            0 <= i <= n,
            views(out@) == stale_sessions(fv, lv.take(i as int)),
        decreases n - i,
    {
        let line = &ls[i];
        let ghost before = views(out@);
        proof {
            assert(lv.take(i + 1).drop_last() =~= lv.take(i as int));
            assert(lv.take(i + 1).last() == line@);
            lemma_char_index(line@, ':');
        }
        match find_char(line.as_slice(), ':') {
            Some(k) => {
                let name = slice_copy(line.as_slice(), 0, k);
                let ln = line.len();
                let att = trim_chars(slice_copy(line.as_slice(), k + 1, ln).as_slice());
                proof {
                    assert(name@ =~= line@.take(k as int));
                    assert(line@.subrange(k + 1, line@.len() as int) =~= line@.skip(k + 1));
                }
                let attached = parse_unsigned_exec(att.as_slice(), 0xffff_ffff);
                let zero = match attached {
                    Some(a) => a == 0,
                    None => false,
                };
                if zero && starts_with_str(name.as_slice(), "tnote-popup-") && !member(
                    &kept,
                    name.as_slice(),
                ) {
                    out.push(name);
                    proof {
                        assert(views(out@) =~= before.push(name@));
                    }
                }
            },
            None => {},
        }
        i = i + 1;
    }
    proof {
        assert(lv.take(n as int) =~= lv);
    }
    strings_of(&out)
}

/// The popup sessions that cleaning kills, given the stale ones that
/// `cleanup_popup_sessions` names: none on a dry run, else exactly the stale
/// sessions, in order. Either way the stale list is what cleaning reports.
pub fn sessions_to_kill(stale: &Vec<String>, dry_run: bool) -> (r: Vec<String>)
    ensures
        dry_run ==> r@.len() == 0,
        !dry_run ==> str_views(r@) == str_views(stale@),
{
    let mut r: Vec<String> = Vec::new();
    if dry_run {
        return r;
    }
    let n = stale.len();
    let mut i: usize = 0;
    while i < n
        invariant
            n == stale@.len(),
            0 <= i <= n,
            str_views(r@) == str_views(stale@.take(i as int)),
        decreases n - i,
    {
        let s = string_of(chars_of(stale[i].as_str()).as_slice());
        let ghost before = r@;
        r.push(s);
        proof {
            assert(s@ == stale@[i as int]@);
            assert(r@ == before.push(s));
            assert(stale@.take(i + 1) =~= stale@.take(i as int).push(stale@[i as int]));
            assert(str_views(before.push(s)) =~= str_views(before).push(s@));
            assert(str_views(stale@.take(i as int).push(stale@[i as int])) =~= str_views(
                stale@.take(i as int),
            ).push(stale@[i as int]@));
            assert(str_views(r@) =~= str_views(stale@.take(i + 1)));
        }
        i = i + 1;
    }
    proof {
        assert(stale@.take(n as int) =~= stale@);
    }
    r
}

// ───────────────────────────── naming menu ─────────────────────────────

/// The tmux command that prompts for a new note name.
pub open spec fn new_name_prompt_of() -> Seq<char> {
    "command-prompt -p 'Note name:' \"run-shell 'tnote name %%'\""@
}

pub fn new_name_prompt_command() -> (r: String)
    ensures
        r@ == new_name_prompt_of(),
{
    String::from_str("command-prompt -p 'Note name:' \"run-shell 'tnote name %%'\"")
}

/// Three menu arguments per existing note: its name, no key, and the command
/// that names the window after it.
pub open spec fn menu_entries(names: Seq<Seq<char>>) -> Seq<Seq<char>>
    decreases names.len(),
{
    if names.len() == 0 {
        Seq::<Seq<char>>::empty()
    } else {
        let n = names.last();
        menu_entries(names.drop_last()) + seq![
            n,
            Seq::<char>::empty(),
            "run-shell "@ + shell_escaped("tnote name "@ + shell_escaped(n)),
        ]
    }
}

/// The arguments of tmux's `display-menu` for naming a note: a `New name...`
/// entry, then the existing names.
pub open spec fn menu_args_of(names: Seq<Seq<char>>) -> Seq<Seq<char>> {
    seq![
        "display-menu"@,
        "-T"@,
        " tnote name "@,
        "New name..."@,
        "N"@,
        new_name_prompt_of(),
    ] + menu_entries(names)
}

pub fn name_menu_args(note_names: &Vec<String>) -> (r: Vec<String>)
    ensures
        str_views(r@) == menu_args_of(str_views(note_names@)),
{
    let mut args: Vec<Vec<char>> = Vec::new();
    push_str_arg(&mut args, "display-menu");
    push_str_arg(&mut args, "-T");
    push_str_arg(&mut args, " tnote name ");
    push_str_arg(&mut args, "New name...");
    push_str_arg(&mut args, "N");
    let p = new_name_prompt_command();
    push_str_arg(&mut args, p.as_str());
    let ghost head = views(args@);
    let names = crate::text::char_vecs(note_names);
    let ghost nv = views(names@);
    let n = names.len();
    let mut i: usize = 0;
    proof {
        assert(nv.take(0) =~= Seq::<Seq<char>>::empty());
        assert(views(args@) =~= head + menu_entries(nv.take(0)));
    }
    while i < n
        invariant
            n == names@.len() == nv.len(),
            nv == views(names@),
            0 <= i <= n,
            views(args@) == head + menu_entries(nv.take(i as int)),
        decreases n - i,
    {
        let name = &names[i];
        let inner = shell_escape_chars(name.as_slice());
        let cmd = str_concat("tnote name ", inner.as_slice());
        let run = str_concat("run-shell ", shell_escape_chars(cmd.as_slice()).as_slice());
        let ghost before = views(args@);
        push_arg(&mut args, name.as_slice());
        let ghost mid = views(args@);
        args.push(Vec::new());
        proof {
            assert(views(args@) =~= mid.push(Seq::<char>::empty()));
        }
        push_arg(&mut args, run.as_slice());
        proof {
            assert(nv.take(i + 1).drop_last() =~= nv.take(i as int));
            assert(nv.take(i + 1).last() == name@);
            assert(views(args@) =~= before + seq![name@, Seq::<char>::empty(), run@]);
            assert(views(args@) =~= head + menu_entries(nv.take(i + 1)));
        }
        i = i + 1;
    }
    proof {
        assert(nv.take(n as int) =~= nv);
        assert(head =~= seq![
            "display-menu"@,
            "-T"@,
            " tnote name "@,
            "New name..."@,
            "N"@,
            new_name_prompt_of(),
        ]);
    }
    strings_of(&args)
}

/// The tmux window a key names: the window id after the `+` of
/// `tmux-<session_id>+<window_id>`.
pub open spec fn window_target_of(key: Seq<char>) -> Option<Seq<char>> {
    match strip_prefix(key, "tmux-"@) {
        Some(id) => {
            let i = char_index(id, '+');
            if i < 0 {
                None
            } else {
                Some(id.skip(i + 1))
            }
        },
        None => None,
    }
}

/// The `-t` target that renames the window of a tmux key.
pub fn window_target(key: &str) -> (r: Option<String>)
    ensures
        match r {
            Some(t) => window_target_of(key@) == Some(t@),
            None => window_target_of(key@) is None,
        },
{
    let kv = chars_of(key);
    match strip_prefix_str(kv.as_slice(), "tmux-") {
        Some(id) => {
            proof {
                lemma_char_index(id@, '+');
            }
            match find_char(id.as_slice(), '+') {
                Some(i) => {
                    let n = id.len();
                    let t = slice_copy(id.as_slice(), i + 1, n);
                    proof {
                        assert(t@ =~= id@.skip(i + 1));
                    }
                    Some(string_of(t.as_slice()))
                },
                None => None,
            }
        },
        None => None,
    }
}

} // verus!
