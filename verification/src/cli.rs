//! Decisions behind the command line: glob matching of note names and the
//! forms a `--bind` / `--unbind` target may take.

use vstd::prelude::*;
use crate::text::{
    all_digits, all_digits_exec, chars_of, chars_eq, ends_with, eq_str, extend, extend_str,
    find_from, has_prefix, has_suffix, occurs_at, split_chars, split_on, starts_with, str_concat,
    string_of, strip_prefix, strip_prefix_str, trim, views,
};

verus! {

// ───────────────────────────── glob matching ─────────────────────────────

/// The pieces `ps` of a pattern that follow its first `*` match `t` from
/// index `pos` on: each piece but the last at some later place, in order, and
/// the last piece at the very end.
pub open spec fn rest_matches(ps: Seq<Seq<char>>, t: Seq<char>, pos: int) -> bool
    decreases ps.len(),
{
    if ps.len() <= 1 {
        ps.len() == 1 && 0 <= pos <= t.len() && has_suffix(t.skip(pos), ps[0])
    } else {
        exists|k: int|
            pos <= k && occurs_at(t, k, ps[0]) && rest_matches(ps.drop_first(), t, k + ps[0].len())
    }
}

/// `text` matches the glob `pattern`, in which `*` stands for any run of
/// characters (possibly empty) and every other character for itself.
pub open spec fn glob_matches(pattern: Seq<char>, text: Seq<char>) -> bool {
    let parts = split_on(pattern, '*');
    if parts.len() == 1 {
        text == pattern
    } else {
        has_prefix(text, parts[0]) && rest_matches(parts.drop_first(), text, parts[0].len() as int)
    }
}

/// A match from a later position is a match from an earlier one.
proof fn lemma_rest_matches_mono(ps: Seq<Seq<char>>, t: Seq<char>, a: int, b: int)
    requires
        0 <= b <= a,
        rest_matches(ps, t, a),
    ensures
        rest_matches(ps, t, b),
{
    if ps.len() <= 1 {
        let l = ps[0].len();
        assert(t.skip(b).skip(t.skip(b).len() - l) =~= t.skip(a).skip(t.skip(a).len() - l));
    } else {
        let k = choose|k: int|
            a <= k && occurs_at(t, k, ps[0]) && rest_matches(ps.drop_first(), t, k + ps[0].len());
        assert(b <= k && occurs_at(t, k, ps[0]) && rest_matches(
            ps.drop_first(),
            t,
            k + ps[0].len(),
        ));
    }
}

/// Matches a note name against a glob pattern in which `*` matches any run of
/// characters.
pub fn glob_match(pattern: &str, text: &str) -> (r: bool)
    ensures
        r == glob_matches(pattern@, text@),
{
    let pv = chars_of(pattern);
    let tv = chars_of(text);
    let parts = split_chars(pv.as_slice(), '*');
    let ghost ps = views(parts@);
    proof {
        crate::text::lemma_split_nonempty(pv@, '*');
    }
    let n = parts.len();
    if n == 1 {
        return chars_eq(pv.as_slice(), tv.as_slice());
    }
    if !starts_with(tv.as_slice(), parts[0].as_slice()) {
        return false;
    }
    let mut pos = parts[0].len();
    let mut i: usize = 1;
    proof {
        assert(ps.drop_first() =~= ps.skip(1));
        assert(ps[0] == parts@[0]@);
    }
    while i < n - 1
        invariant
            n == parts@.len() == ps.len(),
            n >= 2,
            ps == views(parts@),
            1 <= i <= n - 1,
            pos <= tv@.len(),
            glob_matches(pattern@, text@) == rest_matches(ps.skip(i as int), tv@, pos as int),
            pv@ == pattern@,
            tv@ == text@,
        decreases n - i,
    {
        let ghost rest = ps.skip(i as int);
        let ghost l = parts@[i as int]@.len();
        proof {
            assert(rest[0] == parts@[i as int]@);
            assert(rest.drop_first() =~= ps.skip(i + 1));
            assert(rest.len() >= 2);
        }
        match find_from(tv.as_slice(), pos, parts[i].as_slice()) {
            Some(k) => {
                proof {
                    if rest_matches(rest, tv@, pos as int) {
                        let k2 = choose|k2: int|
                            pos <= k2 && occurs_at(tv@, k2, rest[0]) && rest_matches(
                                rest.drop_first(),
                                tv@,
                                k2 + rest[0].len(),
                            );
                        assert(k <= k2);
                        lemma_rest_matches_mono(rest.drop_first(), tv@, k2 + l, k + l);
                    }
                    if rest_matches(rest.drop_first(), tv@, k + l) {
                        assert(pos <= k && occurs_at(tv@, k as int, rest[0]) && rest_matches(
                            rest.drop_first(),
                            tv@,
                            k + rest[0].len(),
                        ));
                    }
                }
                let tl = tv.len();
                proof {
                    assert(occurs_at(tv@, k as int, parts@[i as int]@));
                    assert(k + parts@[i as int]@.len() <= tl);
                }
                pos = k + parts[i].len();
            },
            None => {
                proof {
                    if rest_matches(rest, tv@, pos as int) {
                        let k2 = choose|k2: int|
                            pos <= k2 && occurs_at(tv@, k2, rest[0]) && rest_matches(
                                rest.drop_first(),
                                tv@,
                                k2 + rest[0].len(),
                            );
                        assert(!occurs_at(tv@, k2, rest[0]));
                    }
                }
                return false;
            },
        }
        i = i + 1;
    }
    let last = &parts[n - 1];
    let ghost rest = ps.skip((n - 1) as int);
    proof {
        assert(rest.len() == 1);
        assert(rest[0] == last@);
    }
    if last.len() == 0 {
        proof {
            assert(tv@.skip(pos as int).skip(tv@.skip(pos as int).len() - 0) =~= last@);
        }
        return true;
    }
    let found = find_from(tv.as_slice(), pos, last.as_slice());
    let at_end = ends_with(tv.as_slice(), last.as_slice());
    let l = last.len();
    proof {
        let t = tv@;
        let ts = t.skip(pos as int);
        if found is Some && at_end {
            assert(ts.skip(ts.len() - l) =~= t.skip(t.len() - l));
        }
        if has_suffix(ts, last@) {
            assert(ts.skip(ts.len() - l) =~= t.skip(t.len() - l));
            assert(t.subrange(t.len() - l, t.len() - l + l) =~= t.skip(t.len() - l));
            assert(occurs_at(t, t.len() - l, last@));
        }
    }
    found.is_some() && at_end
}

// ───────────────────────────── bind targets ─────────────────────────────

/// Every character is an ASCII digit, and there is at least one.
pub fn is_digits(s: &str) -> (b: bool)
    ensures
        b == all_digits(s@),
{
    let v = chars_of(s);
    all_digits_exec(v.as_slice())
}

/// A tmux window id: `$<digits>+@<digits>`.
pub open spec fn tmux_window_id(s: Seq<char>) -> bool {
    exists|k: int|
        1 < k && k + 2 < s.len() && s[0] == '$' && all_digits(s.subrange(1, k)) && s[k] == '+'
            && s[k + 1] == '@' && all_digits(s.skip(k + 2))
}

fn is_tmux_window_id_chars(s: &[char]) -> (b: bool)
    ensures
        b == tmux_window_id(s@),
{
    let sep: Vec<char> = vec!['+', '@'];
    proof {
        assert(sep@ =~= seq!['+', '@']);
    }
    match find_from(s, 0, sep.as_slice()) {
        None => {
            proof {
                if tmux_window_id(s@) {
                    let k = choose|k: int|
                        1 < k && k + 2 < s@.len() && s@[0] == '$' && all_digits(s@.subrange(1, k))
                            && s@[k] == '+' && s@[k + 1] == '@' && all_digits(s@.skip(k + 2));
                    assert(s@.subrange(k, k + 2) =~= sep@);
                    assert(occurs_at(s@, k, sep@));
                }
            }
            false
        },
        Some(k) => {
            let sl = s.len();
            proof {
                assert(occurs_at(s@, k as int, sep@));
                assert(k + 2 <= sl);
            }
            let session = crate::text::slice_copy(s, 0, k);
            let window = crate::text::slice_copy(s, k + 2, s.len());
            let ok = session.len() > 0 && session[0] == '$' && all_digits_exec(
                crate::text::slice_copy(session.as_slice(), 1, session.len()).as_slice(),
            ) && all_digits_exec(window.as_slice());
            proof {
                assert(s@.subrange(k as int, k + 2) == sep@);
                assert(s@[k as int] == '+' && s@[k + 1] == '@') by {
                    assert(s@.subrange(k as int, k + 2)[0] == '+');
                    assert(s@.subrange(k as int, k + 2)[1] == '@');
                }
                if ok {
                    assert(session@.subrange(1, session@.len() as int) =~= s@.subrange(1, k as int));
                    assert(window@ =~= s@.skip(k + 2));
                    assert(s@[0] == session@[0]);
                    assert(session@.subrange(1, session@.len() as int).len() > 0);
                    assert(1 < k && k + 2 < s@.len() && s@[0] == '$' && all_digits(
                        s@.subrange(1, k as int),
                    ) && s@[k as int] == '+' && s@[k + 1] == '@' && all_digits(s@.skip(k + 2)));
                }
                if tmux_window_id(s@) {
                    let k2 = choose|k2: int|
                        1 < k2 && k2 + 2 < s@.len() && s@[0] == '$' && all_digits(
                            s@.subrange(1, k2),
                        ) && s@[k2] == '+' && s@[k2 + 1] == '@' && all_digits(s@.skip(k2 + 2));
                    assert(s@.subrange(k2, k2 + 2) =~= sep@);
                    assert(occurs_at(s@, k2, sep@));
                    if (k as int) < k2 {
                        if k == 0 {
                            assert(s@[0] == '+');
                        } else {
                            let sub = s@.subrange(1, k2);
                            assert(sub[k - 1] == s@[k as int]);
                            assert('0' <= sub[k - 1] && sub[k - 1] <= '9');
                        }
                    }
                    assert(k == k2);
                    assert(session@.subrange(1, session@.len() as int) =~= s@.subrange(1, k as int));
                    assert(window@ =~= s@.skip(k + 2));
                    assert(session@.len() == k);
                    assert(session@[0] == s@[0]);
                    assert(ok);
                }
            }
            ok
        },
    }
}

/// A tmux window id: `$<digits>+@<digits>`.
pub fn is_tmux_window_id(s: &str) -> (b: bool)
    ensures
        b == tmux_window_id(s@),
{
    let v = chars_of(s);
    is_tmux_window_id_chars(v.as_slice())
}

/// The message for a bind target of none of the accepted forms.
pub open spec fn invalid_target_message(target: Seq<char>) -> Seq<char> {
    "invalid bind target '"@ + target
        + "'; expected shell-<pid>, <pid>, tmux-$SESSION+@WINDOW, or $SESSION+@WINDOW"@
}

/// The note key a bind target stands for: `shell-<pid>` and
/// `tmux-$S+@W` as they are, a bare `<pid>` or `$S+@W` with the prefix added.
pub open spec fn bind_target_key(target: Seq<char>) -> Result<Seq<char>, Seq<char>> {
    if strip_prefix(target, "shell-"@) matches Some(pid) && all_digits(pid) {
        Ok(target)
    } else if strip_prefix(target, "tmux-"@) matches Some(id) && tmux_window_id(id) {
        Ok(target)
    } else if all_digits(target) {
        Ok("shell-"@ + target)
    } else if tmux_window_id(target) {
        Ok("tmux-"@ + target)
    } else {
        Err(invalid_target_message(target))
    }
}

/// Normalizes a `--bind` / `--unbind` target to a note key.
pub fn normalize_bind_target(target: &str) -> (r: Result<String, String>)
    ensures
        match r {
            Ok(k) => bind_target_key(target@) == Ok::<Seq<char>, Seq<char>>(k@),
            Err(e) => bind_target_key(target@) == Err::<Seq<char>, Seq<char>>(e@),
        },
{
    let tv = chars_of(target);
    if let Some(pid) = strip_prefix_str(tv.as_slice(), "shell-") {
        if all_digits_exec(pid.as_slice()) {
            return Ok(string_of(tv.as_slice()));
        }
    }
    if let Some(id) = strip_prefix_str(tv.as_slice(), "tmux-") {
        if is_tmux_window_id_chars(id.as_slice()) {
            return Ok(string_of(tv.as_slice()));
        }
    }
    if all_digits_exec(tv.as_slice()) {
        let mut out: Vec<char> = Vec::new();
        extend_str(&mut out, "shell-");
        extend(&mut out, tv.as_slice());
        return Ok(string_of(out.as_slice()));
    }
    if is_tmux_window_id_chars(tv.as_slice()) {
        let mut out: Vec<char> = Vec::new();
        extend_str(&mut out, "tmux-");
        extend(&mut out, tv.as_slice());
        return Ok(string_of(out.as_slice()));
    }
    let mut out: Vec<char> = Vec::new();
    extend_str(&mut out, "invalid bind target '");
    extend(&mut out, tv.as_slice());
    extend_str(
        &mut out,
        "'; expected shell-<pid>, <pid>, tmux-$SESSION+@WINDOW, or $SESSION+@WINDOW",
    );
    Err(string_of(out.as_slice()))
}

/// What `--bind` / `--unbind` given without a value stand for: the current
/// window or shell session.
pub const CURRENT_TARGET_SENTINEL: &'static str = "__current__";

/// The key a `--bind` / `--unbind` target names: the current key for the
/// bare flag (or none), else the normalized target.
pub fn resolve_bind_target(target: Option<&str>, current_key: &str) -> (r: Result<String, String>)
    ensures
        match target {
            Some(t) => if t@ == CURRENT_TARGET_SENTINEL@ {
                r matches Ok(k) && k@ == current_key@
            } else {
                match r {
                    Ok(k) => bind_target_key(t@) == Ok::<Seq<char>, Seq<char>>(k@),
                    Err(e) => bind_target_key(t@) == Err::<Seq<char>, Seq<char>>(e@),
                }
            },
            None => r matches Ok(k) && k@ == current_key@,
        },
{
    match target {
        Some(t) => {
            if eq_str(chars_of(t).as_slice(), CURRENT_TARGET_SENTINEL) {
                Ok(string_of(chars_of(current_key).as_slice()))
            } else {
                normalize_bind_target(t)
            }
        },
        None => Ok(string_of(chars_of(current_key).as_slice())),
    }
}

// ───────────────────────────── tnote name ─────────────────────────────

/// What `tnote name` does.
pub enum NameStep {
    /// No name given inside tmux: show the naming menu for the current window.
    Menu,
    /// No name given outside tmux: there is nothing to do but complain.
    MissingName,
    /// `--unbind` without a value: remove every link to the named note.
    UnbindAll { name: String },
    /// `--unbind <target>`: remove the link of that key, if it names the note.
    UnbindKey { name: String, key: String },
    /// Name (bind) the key's note; the tmux window is renamed too when it is
    /// the current window inside tmux.
    Bind { name: String, key: String, rename_window: bool },
    /// The target could not be read: the message to print.
    Invalid { message: String },
}

/// Decides what `tnote name [name] [--bind [target]] [--unbind [target]]`
/// does; `current_key` is the current window's or shell session's key.
pub fn name_step(
    name: Option<&str>,
    bind: Option<&str>,
    unbind: Option<&str>,
    in_tmux: bool,
    current_key: &str,
) -> (r: NameStep)
    ensures
        match name {
            None => if in_tmux {
                r is Menu
            } else {
                r is MissingName
            },
            Some(n) => match unbind {
                Some(u) => if u@ == CURRENT_TARGET_SENTINEL@ {
                    r matches NameStep::UnbindAll { name: m } && m@ == n@
                } else {
                    match bind_target_key(u@) {
                        Ok(k) => r matches NameStep::UnbindKey { name: m, key } && m@ == n@
                            && key@ == k,
                        Err(e) => r matches NameStep::Invalid { message } && message@
                            == "tnote name: "@ + e,
                    }
                },
                None => {
                    let target = match bind {
                        Some(b) => if b@ == CURRENT_TARGET_SENTINEL@ {
                            Ok(current_key@)
                        } else {
                            bind_target_key(b@)
                        },
                        None => Ok(current_key@),
                    };
                    match target {
                        Ok(k) => r matches NameStep::Bind { name: m, key, rename_window } && m@
                            == n@ && key@ == k && rename_window == (in_tmux && bind is None),
                        Err(e) => r matches NameStep::Invalid { message } && message@
                            == "tnote name: "@ + e,
                    }
                },
            },
        },
{
    let n = match name {
        Some(n) => n,
        None => {
            return if in_tmux {
                NameStep::Menu
            } else {
                NameStep::MissingName
            };
        },
    };
    let nm = string_of(chars_of(n).as_slice());
    match unbind {
        Some(u) => {
            if eq_str(chars_of(u).as_slice(), CURRENT_TARGET_SENTINEL) {
                return NameStep::UnbindAll { name: nm };
            }
            match normalize_bind_target(u) {
                Ok(key) => NameStep::UnbindKey { name: nm, key },
                Err(e) => NameStep::Invalid {
                    message: string_of(str_concat("tnote name: ", chars_of(e.as_str()).as_slice()).as_slice()),
                },
            }
        },
        None => match resolve_bind_target(bind, current_key) {
            Ok(key) => NameStep::Bind { name: nm, key, rename_window: in_tmux && bind.is_none() },
            Err(e) => NameStep::Invalid {
                message: string_of(str_concat("tnote name: ", chars_of(e.as_str()).as_slice()).as_slice()),
            },
        },
    }
}

/// `<prefix><name><suffix>`.
fn framed(prefix: &str, name: &str, suffix: &str) -> (r: String)
    ensures
        r@ == prefix@ + name@ + suffix@,
{
    let mut v = chars_of(prefix);
    extend_str(&mut v, name);
    extend_str(&mut v, suffix);
    string_of(v.as_slice())
}

/// `tnote name: unbound <key> from '<name>'`.
pub fn unbound_message(key: &str, name: &str) -> (r: String)
    ensures
        r@ == "tnote name: unbound "@ + key@ + " from '"@ + name@ + "'"@,
{
    let mut v = chars_of("tnote name: unbound ");
    extend_str(&mut v, key);
    extend_str(&mut v, " from '");
    extend_str(&mut v, name);
    extend_str(&mut v, "'");
    string_of(v.as_slice())
}

/// `tnote name: no windows bound to '<name>'`.
pub fn no_bindings_message(name: &str) -> (r: String)
    ensures
        r@ == "tnote name: no windows bound to '"@ + name@ + "'"@,
{
    framed("tnote name: no windows bound to '", name, "'")
}

/// `tnote name: <key> is not bound to '<name>'`.
pub fn not_bound_message(key: &str, name: &str) -> (r: String)
    ensures
        r@ == "tnote name: "@ + key@ + " is not bound to '"@ + name@ + "'"@,
{
    let mut v = chars_of("tnote name: ");
    extend_str(&mut v, key);
    extend_str(&mut v, " is not bound to '");
    extend_str(&mut v, name);
    extend_str(&mut v, "'");
    string_of(v.as_slice())
}

/// `tnote name: migrated existing notes → <name>`.
pub fn migrated_message(name: &str) -> (r: String)
    ensures
        r@ == "tnote name: migrated existing notes → "@ + name@,
{
    let mut v = chars_of("tnote name: migrated existing notes → ");
    extend_str(&mut v, name);
    string_of(v.as_slice())
}

/// `tnote name: window note named '<name>'`.
pub fn named_message(name: &str) -> (r: String)
    ensures
        r@ == "tnote name: window note named '"@ + name@ + "'"@,
{
    framed("tnote name: window note named '", name, "'")
}

/// `tnote: note named '<name>'`, shown in the tmux status line.
pub fn status_message(name: &str) -> (r: String)
    ensures
        r@ == "tnote: note named '"@ + name@ + "'"@,
{
    framed("tnote: note named '", name, "'")
}

/// Printed when `tnote name` is given no name outside tmux.
pub const MISSING_NAME_MESSAGE: &'static str = "tnote name: provide a name, e.g.: tnote name <name>";

// ───────────────────────────── tnote show ─────────────────────────────

/// What `tnote show [--name <name>]` shows.
pub enum ShowTarget {
    /// Every named note matching the glob.
    Matching(String),
    /// One named note.
    Named(String),
    /// The current window's note (named, tmux, then shell).
    Current,
}

pub fn show_target(name: Option<&str>) -> (r: ShowTarget)
    ensures
        match name {
            Some(n) => if n@.contains('*') {
                r matches ShowTarget::Matching(g) && g@ == n@
            } else {
                r matches ShowTarget::Named(m) && m@ == n@
            },
            None => r is Current,
        },
{
    match name {
        Some(n) => {
            let v = chars_of(n);
            if crate::text::find_char(v.as_slice(), '*').is_some() {
                proof {
                    crate::text::lemma_char_index(v@, '*');
                }
                ShowTarget::Matching(string_of(v.as_slice()))
            } else {
                proof {
                    crate::text::lemma_char_index(v@, '*');
                    if v@.contains('*') {
                        let k = choose|k: int| 0 <= k < v@.len() && v@[k] == '*';
                    }
                }
                ShowTarget::Named(string_of(v.as_slice()))
            }
        },
        None => ShowTarget::Current,
    }
}

/// The line above a shown note: `── <label>: <path> ──`.
pub fn show_header(label: &str, path: &str) -> (r: String)
    ensures
        r@ == "── "@ + label@ + ": "@ + path@ + " ──"@,
{
    let mut v = chars_of("── ");
    extend_str(&mut v, label);
    extend_str(&mut v, ": ");
    extend_str(&mut v, path);
    extend_str(&mut v, " ──");
    string_of(v.as_slice())
}

/// The line below a shown note.
pub const SHOW_FOOTER: &'static str = "──────────────────────";

/// `tnote show: (empty) [<label>]`, before the label is dimmed.
pub fn show_empty_prefix() -> (r: &'static str)
    ensures
        r@ == "tnote show: (empty) ["@,
{
    "tnote show: (empty) ["
}

/// `tnote show: no notes matching '<pattern>'`.
pub fn no_match_message(pattern: &str) -> (r: String)
    ensures
        r@ == "tnote show: no notes matching '"@ + pattern@ + "'"@,
{
    framed("tnote show: no notes matching '", pattern, "'")
}

/// `<command>: named note '<name>' not found`.
pub fn not_found_message(command: &str, name: &str) -> (r: String)
    ensures
        r@ == command@ + ": named note '"@ + name@ + "' not found"@,
{
    let mut v = chars_of(command);
    extend_str(&mut v, ": named note '");
    extend_str(&mut v, name);
    extend_str(&mut v, "' not found");
    string_of(v.as_slice())
}

// ───────────────────────────── tnote clean ─────────────────────────────

/// How `tnote clean --name` reports what it did to a named note.
pub fn clean_named_verb(dry_run: bool, archive: bool, unarchive: bool) -> (r: &'static str)
    ensures
        r@ == if dry_run {
            if unarchive {
                "would unarchive"@
            } else if archive {
                "would archive"@
            } else {
                "would remove"@
            }
        } else if unarchive {
            "unarchived"@
        } else if archive {
            "archived"@
        } else {
            "removed"@
        },
{
    if dry_run {
        if unarchive {
            "would unarchive"
        } else if archive {
            "would archive"
        } else {
            "would remove"
        }
    } else if unarchive {
        "unarchived"
    } else if archive {
        "archived"
    } else {
        "removed"
    }
}

/// How `tnote clean` reports a removed note (or one it would remove).
pub fn clean_note_verb(dry_run: bool) -> (r: &'static str)
    ensures
        r@ == if dry_run {
            "would remove"@
        } else {
            "removed"@
        },
{
    if dry_run {
        "would remove"
    } else {
        "removed"
    }
}

/// How `tnote clean` reports a killed popup session (or one it would kill).
pub fn clean_session_verb(dry_run: bool) -> (r: &'static str)
    ensures
        r@ == if dry_run {
            "would kill"@
        } else {
            "killed"@
        },
{
    if dry_run {
        "would kill"
    } else {
        "killed"
    }
}

// ───────────────────────────── tnote setup ─────────────────────────────

/// What the user typed at a prompt: the trimmed answer, or the default for
/// an empty one.
pub fn prompt_answer(input: &str, default: &str) -> (r: String)
    ensures
        r@ == if trim(input@).len() == 0 {
            default@
        } else {
            trim(input@)
        },
{
    let t = crate::text::trim_str(input);
    if t.len() == 0 {
        string_of(chars_of(default).as_slice())
    } else {
        string_of(t.as_slice())
    }
}

/// The answer to the editor prompt.
pub enum EditorChoice {
    /// Use this editor.
    Pick(String),
    /// Ask again, after printing this message.
    Retry(String),
}

/// Reads the editor prompt's answer: empty keeps the current editor, a
/// number picks from the numbered list of available editors (or asks
/// again when out of range), anything else is taken as the editor itself.
pub fn editor_choice(input: &str, current: &str, available: &Vec<String>) -> (r: EditorChoice)
    ensures
        ({
            let t = trim(input@);
            if t.len() == 0 {
                r matches EditorChoice::Pick(e) && e@ == current@
            } else {
                match crate::text::parse_unsigned(t, usize::MAX as nat) {
                    Some(n) => if 1 <= n <= available@.len() {
                        r matches EditorChoice::Pick(e) && e@ == available@[n - 1]@
                    } else {
                        r matches EditorChoice::Retry(m) && m@
                            == "  please enter a number between 1 and "@ + crate::text::decimal(
                            available@.len(),
                        )
                    },
                    None => r matches EditorChoice::Pick(e) && e@ == t,
                }
            }
        }),
{
    let t = crate::text::trim_str(input);
    if t.len() == 0 {
        return EditorChoice::Pick(string_of(chars_of(current).as_slice()));
    }
    match crate::text::parse_unsigned_exec(t.as_slice(), usize::MAX as u64) {
        Some(n) => {
            if 1 <= n && n <= available.len() as u64 {
                let i = (n - 1) as usize;
                EditorChoice::Pick(string_of(chars_of(available[i].as_str()).as_slice()))
            } else {
                let mut m = chars_of("  please enter a number between 1 and ");
                extend(&mut m, crate::text::decimal_exec(available.len() as u64).as_slice());
                EditorChoice::Retry(string_of(m.as_slice()))
            }
        },
        None => EditorChoice::Pick(string_of(t.as_slice())),
    }
}

/// The editors `tnote setup` offers when they are installed, in order.
pub const EDITOR_CANDIDATES: [&'static str; 9] = [
    "nvim",
    "vim",
    "vi",
    "nano",
    "emacs",
    "hx",
    "micro",
    "kak",
    "helix",
];

/// One line of the numbered editor list: `    <n>. <editor>`, marked ` ◀`
/// when it is the current one.
pub fn editor_menu_line(index: usize, editor: &str, current: &str) -> (r: String)
    requires
        index < usize::MAX,
    ensures
        r@ == "    "@ + crate::text::decimal((index + 1) as nat) + ". "@ + editor@ + if editor@
            == current@ {
            " ◀"@
        } else {
            ""@
        },
{
    let mut v = chars_of("    ");
    extend(&mut v, crate::text::decimal_exec((index + 1) as u64).as_slice());
    extend_str(&mut v, ". ");
    extend_str(&mut v, editor);
    if eq_str(chars_of(editor).as_slice(), current) {
        extend_str(&mut v, " ◀");
    } else {
        extend_str(&mut v, "");
    }
    string_of(v.as_slice())
}

/// The list annotation setting from the setup prompt: none when left empty.
pub fn annotation_setting(answer: &str) -> (r: Option<String>)
    ensures
        match r {
            Some(a) => a@ == answer@ && answer@.len() > 0,
            None => answer@.len() == 0,
        },
{
    let v = chars_of(answer);
    if v.len() == 0 {
        None
    } else {
        Some(string_of(v.as_slice()))
    }
}

// ───────────────────────────── help and completions ─────────────────────────────

pub const BASH_COMPLETIONS: &'static str = "_tnote_named_notes() {\n    tnote __complete-named-notes 2>/dev/null\n}\n\n_tnote() {\n    local cur prev cmd\n    COMPREPLY=()\n    cur=\"${COMP_WORDS[COMP_CWORD]}\"\n    prev=\"\"\n    if (( COMP_CWORD > 0 )); then\n        prev=\"${COMP_WORDS[COMP_CWORD-1]}\"\n    fi\n    cmd=\"\"\n    if (( ${#COMP_WORDS[@]} > 1 )); then\n        cmd=\"${COMP_WORDS[1]}\"\n    fi\n\n    case \"$prev\" in\n        completions)\n            COMPREPLY=( $(compgen -W \"bash zsh fish elvish powershell\" -- \"$cur\") )\n            return\n            ;;\n        --all)\n            COMPREPLY=( $(compgen -W \"unprefixed named tmux all\" -- \"$cur\") )\n            return\n            ;;\n        -n|--name)\n            if [[ \"$cmd\" == \"show\" || \"$cmd\" == \"clean\" || \"$cmd\" == \"path\" ]]; then\n                COMPREPLY=( $(compgen -W \"$(_tnote_named_notes)\" -- \"$cur\") )\n                return\n            fi\n            ;;\n    esac\n\n    if (( COMP_CWORD == 1 )); then\n        COMPREPLY=( $(compgen -W \"name show clean list ls path setup uninstall help completions\" -- \"$cur\") )\n        return\n    fi\n\n    if [[ \"$cmd\" == \"name\" && $COMP_CWORD -eq 2 && \"$cur\" != -* ]]; then\n        COMPREPLY=( $(compgen -W \"$(_tnote_named_notes)\" -- \"$cur\") )\n        return\n    fi\n}\n\ncomplete -F _tnote tnote\n";

pub const ZSH_COMPLETIONS: &'static str = "#compdef tnote\n\n_tnote_named_notes() {\n  local -a notes\n  notes=(\"${(@f)$(tnote __complete-named-notes 2>/dev/null)}\")\n  (( ${#notes[@]} )) && compadd -- $notes\n}\n\n_tnote() {\n  local cur prev cmd\n  cur=\"${words[CURRENT]}\"\n  prev=\"\"\n  (( CURRENT > 1 )) && prev=\"${words[CURRENT-1]}\"\n  cmd=\"\"\n  (( ${#words[@]} > 1 )) && cmd=\"${words[2]}\"\n\n  if (( CURRENT == 2 )); then\n    compadd -- name show clean list ls path setup uninstall help completions\n    return\n  fi\n\n  case \"$prev\" in\n    completions)\n      compadd -- bash zsh fish elvish powershell\n      return\n      ;;\n    --all)\n      compadd -- unprefixed named tmux all\n      return\n      ;;\n    -n|--name)\n      if [[ \"$cmd\" == \"show\" || \"$cmd\" == \"clean\" || \"$cmd\" == \"path\" ]]; then\n        _tnote_named_notes\n        return\n      fi\n      ;;\n  esac\n\n  if [[ \"$cmd\" == \"name\" && CURRENT -eq 3 && \"$cur\" != -* ]]; then\n    _tnote_named_notes\n    return\n  fi\n}\n\ncompdef _tnote tnote\n";

pub const FISH_COMPLETIONS: &'static str = "function __tnote_named_notes\n    tnote __complete-named-notes 2>/dev/null\nend\n\ncomplete -c tnote -f\ncomplete -c tnote -n '__fish_use_subcommand' -a 'name show clean list ls path setup uninstall help completions'\ncomplete -c tnote -n '__fish_seen_subcommand_from completions' -a 'bash zsh fish elvish powershell'\ncomplete -c tnote -n '__fish_seen_subcommand_from clean' -l all -a 'unprefixed named tmux all'\ncomplete -c tnote -n '__fish_seen_subcommand_from show clean path' -s n -l name -a '(__tnote_named_notes)'\ncomplete -c tnote -n '__fish_seen_subcommand_from name' -l bind\ncomplete -c tnote -n '__fish_seen_subcommand_from name' -l unbind\ncomplete -c tnote -n '__fish_seen_subcommand_from name; and not __fish_seen_subcommand_from --bind --unbind' -a '(__tnote_named_notes)'\n";

pub const HELP_TEXT: &'static str = "tnote \u{2014} Terminal Notepad\n\nUSAGE:\n  tnote                            Open editor for the current window\n  tnote name [name]                Name or rebind this window's note (also renames the tmux window)\n  tnote name <name> --bind [key]   Bind the current session, or one specific tmux/shell binding, to a named note\n  tnote name <name> --unbind [key] Remove all bindings for a named note, or one specific binding\n  tnote show                       Print note contents inline\n  tnote show --name 'proj-*'       Print all notes matching a pattern (quote the glob)\n  tnote clean [--dryrun]           Remove orphaned notes and popup sessions\n  tnote list / ls                  List all notes with line counts\n  tnote path                       Print the note file path\n  tnote setup                      Configure and install keybindings\n  tnote uninstall                  Remove tmux and shell keybindings\n  tnote help                       Show this help\n\nTMUX COMMAND LINE (works while a process is running):\n  Press ':' in any tmux window, then type:\n    tnote              Open note popup\n    tnote-name         Name menu with existing notes plus a new-name prompt\n    tnote-show         Print note contents\n    tnote-clean        Remove orphaned notes\n    tnote-list         List all notes\n    tnote-ls           List all notes (alias)\n    tnote-path         Print the note file path\n    tnote-help         Show this help\n  Requires 'tnote setup' to install the ':tnote' command aliases.\n\nNOTE TYPES:\n  tmux    One note per tmux window, keyed to <session>+<window> (e.g. work+0).\n          Persists until the window is closed. Cleared by 'tnote clean'.\n\n  named   A preserved note that persists even after closing a terminal session.\n          Created with 'tnote name <name>'. Multiple sessions can share a note\n          by using the same name.\n\n  shell   One note per shell session (parent PID), used outside tmux.\n          Cleared by 'tnote clean' once the shell process exits.\n\nENVIRONMENT (configurable via 'tnote setup'):\n  TNOTE_DIR              Note storage directory  (default: ~/.tnote)\n  TNOTE_KEY              Key binding             (default: t, tmux: prefix+t, shell: Ctrl+t)\n  TNOTE_WIDTH            Popup width  (default: 100%, e.g. 80 or 75%)\n  TNOTE_HEIGHT           Popup height (default: 50%,  e.g. 22 or 40%)\n  TNOTE_LS_ANNOTATION    Shell command shown next to each note in 'tnote ls'.\n                         Use {} as the note file path placeholder.\n                         Default: line count.\n                         Example: ls_annotation=head -1 {} (show first line)";

/// The usage text of `tnote help`.
pub fn help_text() -> (r: &'static str)
    ensures
        r@ == HELP_TEXT@,
{
    HELP_TEXT
}

/// The bash completion script.
pub fn bash_completions() -> (r: &'static str)
    ensures
        r@ == BASH_COMPLETIONS@,
{
    BASH_COMPLETIONS
}

/// The zsh completion script.
pub fn zsh_completions() -> (r: &'static str)
    ensures
        r@ == ZSH_COMPLETIONS@,
{
    ZSH_COMPLETIONS
}

/// The fish completion script.
pub fn fish_completions() -> (r: &'static str)
    ensures
        r@ == FISH_COMPLETIONS@,
{
    FISH_COMPLETIONS
}

} // verus!
