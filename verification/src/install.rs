//! Key bindings that `tnote setup` installs and `tnote uninstall` removes:
//! the shell-rc block and the tmux `source-file` line.

use vstd::prelude::*;
use crate::text::{
    chars_of, eq_str, extend, extend_str, join, join_chars, join_path, joined_path,
    lemma_split_nonempty, lines, lines_of, split_chars, split_on, str_concat, string_of, trim,
    trim_chars, views,
};
use crate::tmux::{shell_escape, shell_escaped};

verus! {

/// First line of the tnote block in a shell rc file.
pub const SHELL_MARKER: &'static str = "# tnote keybinding — managed by 'tnote setup' / 'tnote uninstall'";

/// Last line of the tnote block in a shell rc file.
pub const SHELL_END_MARKER: &'static str = "# end tnote keybinding";

/// A line that opens the tnote block (surrounding whitespace ignored).
pub open spec fn is_start_line(l: Seq<char>) -> bool {
    trim(l) == SHELL_MARKER@
}

/// A line that closes the tnote block (surrounding whitespace ignored).
pub open spec fn is_end_line(l: Seq<char>) -> bool {
    trim(l) == SHELL_END_MARKER@
}

/// Some start line is followed, later, by an end line: the block uses the
/// end-marker format.
pub open spec fn has_end_marker(ls: Seq<Seq<char>>) -> bool {
    exists|i: int, j: int| 0 <= i < j < ls.len() && is_start_line(ls[i]) && is_end_line(ls[j])
}

/// End-marker format: every line from a start line through the next end line
/// (inclusive) is dropped; `in_block` says whether such a block is open.
pub open spec fn drop_blocks(ls: Seq<Seq<char>>, in_block: bool) -> Seq<Seq<char>>
    decreases ls.len(),
{
    if ls.len() == 0 {
        Seq::<Seq<char>>::empty()
    } else if in_block {
        drop_blocks(ls.drop_first(), !is_end_line(ls[0]))
    } else if is_start_line(ls[0]) {
        drop_blocks(ls.drop_first(), true)
    } else {
        seq![ls[0]] + drop_blocks(ls.drop_first(), false)
    }
}

/// Legacy format: every start line and the one line after it are dropped;
/// `skip_next` says whether the next line is to be dropped.
pub open spec fn drop_legacy(ls: Seq<Seq<char>>, skip_next: bool) -> Seq<Seq<char>>
    decreases ls.len(),
{
    if ls.len() == 0 {
        Seq::<Seq<char>>::empty()
    } else if skip_next {
        drop_legacy(ls.drop_first(), false)
    } else if is_start_line(ls[0]) {
        drop_legacy(ls.drop_first(), true)
    } else {
        seq![ls[0]] + drop_legacy(ls.drop_first(), false)
    }
}

/// The lines of `content` that survive the removal of the tnote block.
pub open spec fn kept_lines(content: Seq<char>) -> Seq<Seq<char>> {
    let ls = lines(content);
    if has_end_marker(ls) {
        drop_blocks(ls, false)
    } else {
        drop_legacy(ls, false)
    }
}

/// `content` with the tnote block removed: the kept lines joined by `\n`,
/// with a final `\n` when `content` had one and something is left.
pub open spec fn shell_block_removed(content: Seq<char>) -> Seq<char> {
    let out = join(kept_lines(content), seq!['\n']);
    if content.len() > 0 && content.last() == '\n' && out.len() > 0 {
        out.push('\n')
    } else {
        out
    }
}

proof fn lemma_markers_differ()
    ensures
        SHELL_MARKER@ != SHELL_END_MARKER@,
{
    reveal_strlit("# tnote keybinding — managed by 'tnote setup' / 'tnote uninstall'");
    reveal_strlit("# end tnote keybinding");
    assert(SHELL_MARKER@.len() != SHELL_END_MARKER@.len());
}

fn is_start_exec(l: &[char]) -> (b: bool)
    ensures
        b == is_start_line(l@),
{
    let t = trim_chars(l);
    eq_str(t.as_slice(), SHELL_MARKER)
}

fn is_end_exec(l: &[char]) -> (b: bool)
    ensures
        b == is_end_line(l@),
{
    let t = trim_chars(l);
    eq_str(t.as_slice(), SHELL_END_MARKER)
}

fn has_end_marker_exec(ls: &Vec<Vec<char>>) -> (b: bool)
    ensures
        b == has_end_marker(views(ls@)),
{
    let ghost v = views(ls@);
    let n = ls.len();
    let mut found_start = false;
    let mut found_end = false;
    let mut i: usize = 0;
    proof {
        lemma_markers_differ();
    }
    while i < n && !found_end
        invariant
            n == ls@.len() == v.len(),
            v == views(ls@),
            0 <= i <= n,
            SHELL_MARKER@ != SHELL_END_MARKER@,
            found_start == (exists|k: int| 0 <= k < i && is_start_line(v[k])),
            found_end ==> has_end_marker(v),
            !found_end ==> forall|k1: int, k2: int|
                0 <= k1 < k2 < i ==> !(is_start_line(v[k1]) && is_end_line(v[k2])),
        decreases n - i, (if found_end { 0int } else { 1int }),
    {
        let s = is_start_exec(ls[i].as_slice());
        let e = is_end_exec(ls[i].as_slice());
        proof {
            assert(v[i as int] == ls@[i as int]@);
        }
        if s {
            found_start = true;
            proof {
                assert(!is_end_line(v[i as int]));
            }
        } else if found_start && e {
            found_end = true;
            proof {
                let k = choose|k: int| 0 <= k < i && is_start_line(v[k]);
                assert(0 <= k < i < v.len() && is_start_line(v[k]) && is_end_line(v[i as int]));
            }
        }
        i = i + 1;
    }
    found_end
}

fn drop_blocks_exec(ls: &Vec<Vec<char>>) -> (r: Vec<Vec<char>>)
    ensures
        views(r@) == drop_blocks(views(ls@), false),
{
    let ghost v = views(ls@);
    let n = ls.len();
    let mut out: Vec<Vec<char>> = Vec::new();
    let mut in_block = false;
    let mut i: usize = 0;
    proof {
        assert(v.skip(0) =~= v);
    }
    while i < n
        invariant
            n == ls@.len() == v.len(),
            v == views(ls@),
            0 <= i <= n,
            views(out@) + drop_blocks(v.skip(i as int), in_block) == drop_blocks(v, false),
        decreases n - i,
    {
        let line = &ls[i];
        let ghost rest = v.skip(i as int);
        proof {
            assert(rest[0] == line@);
            assert(rest.drop_first() =~= v.skip(i + 1));
        }
        if in_block {
            in_block = !is_end_exec(line.as_slice());
        } else if is_start_exec(line.as_slice()) {
            in_block = true;
        } else {
            let ghost before = views(out@);
            out.push(line.clone());
            proof {
                assert(views(out@) =~= before + seq![line@]);
                assert(before + seq![line@] + drop_blocks(v.skip(i + 1), false) =~= before + (
                seq![line@] + drop_blocks(v.skip(i + 1), false)));
            }
        }
        i = i + 1;
    }
    proof {
        assert(v.skip(n as int) =~= Seq::<Seq<char>>::empty());
        assert(views(out@) + Seq::<Seq<char>>::empty() =~= views(out@));
    }
    out
}

fn drop_legacy_exec(ls: &Vec<Vec<char>>) -> (r: Vec<Vec<char>>)
    ensures
        views(r@) == drop_legacy(views(ls@), false),
{
    let ghost v = views(ls@);
    let n = ls.len();
    let mut out: Vec<Vec<char>> = Vec::new();
    let mut skip_next = false;
    let mut i: usize = 0;
    proof {
        assert(v.skip(0) =~= v);
    }
    while i < n
        invariant
            n == ls@.len() == v.len(),
            v == views(ls@),
            0 <= i <= n,
            views(out@) + drop_legacy(v.skip(i as int), skip_next) == drop_legacy(v, false),
        decreases n - i,
    {
        let line = &ls[i];
        let ghost rest = v.skip(i as int);
        proof {
            assert(rest[0] == line@);
            assert(rest.drop_first() =~= v.skip(i + 1));
        }
        if skip_next {
            skip_next = false;
        } else if is_start_exec(line.as_slice()) {
            skip_next = true;
        } else {
            let ghost before = views(out@);
            out.push(line.clone());
            proof {
                assert(views(out@) =~= before + seq![line@]);
                assert(before + seq![line@] + drop_legacy(v.skip(i + 1), false) =~= before + (
                seq![line@] + drop_legacy(v.skip(i + 1), false)));
            }
        }
        i = i + 1;
    }
    proof {
        assert(v.skip(n as int) =~= Seq::<Seq<char>>::empty());
        assert(views(out@) + Seq::<Seq<char>>::empty() =~= views(out@));
    }
    out
}

/// Remove the tnote keybinding block from shell rc content.
///
/// Supports two formats:
/// - New (end-marker): removes all lines from `SHELL_MARKER` through
///   `SHELL_END_MARKER` inclusive.
/// - Legacy (no end-marker): removes `SHELL_MARKER` and exactly the one line
///   after it.
pub fn remove_shell_block(content: &str) -> (r: String)
    ensures
        r@ == shell_block_removed(content@),
{
    let cv = chars_of(content);
    let ls = lines_of(cv.as_slice());
    let kept = if has_end_marker_exec(&ls) {
        drop_blocks_exec(&ls)
    } else {
        drop_legacy_exec(&ls)
    };
    let sep: Vec<char> = vec!['\n'];
    let mut out = join_chars(&kept, sep.as_slice());
    proof {
        assert(sep@ =~= seq!['\n']);
    }
    if cv.len() > 0 && cv[cv.len() - 1] == '\n' && out.len() > 0 {
        out.push('\n');
    }
    string_of(out.as_slice())
}

// ───────────────────────────── shell bindings ─────────────────────────────

/// The zsh block between the start marker and the key.
pub const ZSH_HEAD: &'static str = "\n_tnote_toggle() {\nlocal j p\nj=$(jobs -l 2>/dev/null | awk 'tolower($0)~/tnote/ && tolower($0)~/stop|suspend/ {gsub(/[\\[\\]+-]/,\"\",$1);print $1;exit}')\np=$(jobs -l 2>/dev/null | awk '!/tnote/ && tolower($0)~/stop|suspend/ {for(i=1;i<=NF;i++) if($i~/^[0-9]+$/ && $i+0>100){print $i;exit}}')\nif [ -n \"$p\" ]; then echo \"$p\" > \"/tmp/tnote-swap-target-$$\"\nelse rm -f \"/tmp/tnote-swap-target-$$\"; fi\nif [ -n \"$j\" ]; then fg %\"$j\"\nelse tnote; fi\nzle reset-prompt\n}\n_tnote_precmd() {\nlocal f=\"/tmp/tnote-swap-$$\"\n[ -f \"$f\" ] || return\nlocal spid; spid=$(cat \"$f\"); rm -f \"$f\"\n[ -n \"$spid\" ] || return\nlocal j; j=$(jobs -l 2>/dev/null | awk -v p=\"$spid\" '$0~p && tolower($0)~/stop|suspend/ {gsub(/[\\[\\]+-]/,\"\",$1);print $1;exit}')\n[ -n \"$j\" ] && fg %\"$j\" 2>/dev/null\n}\nzle -N _tnote_toggle\nprecmd_functions+=(_tnote_precmd)\nif [ -z \"$TMUX\" ]; then bindkey '";

/// The zsh block between the key and the end marker.
pub const ZSH_TAIL: &'static str = "' _tnote_toggle; fi\n";

/// The bash block between the start marker and the key.
pub const BASH_HEAD: &'static str = "\n_tnote_toggle() {\nlocal j p\nj=$(jobs -l 2>/dev/null | awk 'tolower($0)~/tnote/ && tolower($0)~/stop|suspend/ {gsub(/[\\[\\]+-]/,\"\",$1);print $1;exit}')\np=$(jobs -l 2>/dev/null | awk '!/tnote/ && tolower($0)~/stop|suspend/ {for(i=1;i<=NF;i++) if($i~/^[0-9]+$/ && $i+0>100){print $i;exit}}')\nif [ -n \"$p\" ]; then echo \"$p\" > \"/tmp/tnote-swap-target-$$\"\nelse rm -f \"/tmp/tnote-swap-target-$$\"; fi\nif [ -n \"$j\" ]; then fg %\"$j\"\nelse tnote; fi\n}\n_tnote_precmd() {\nlocal f=\"/tmp/tnote-swap-$$\"\n[ -f \"$f\" ] || return\nlocal spid; spid=$(cat \"$f\"); rm -f \"$f\"\n[ -n \"$spid\" ] || return\nlocal j; j=$(jobs -l 2>/dev/null | awk -v p=\"$spid\" '$0~p && tolower($0)~/stop|suspend/ {gsub(/[\\[\\]+-]/,\"\",$1);print $1;exit}')\n[ -n \"$j\" ] && fg %\"$j\" 2>/dev/null\n}\nif [ -z \"$PROMPT_COMMAND\" ]; then PROMPT_COMMAND=\"_tnote_precmd\"\nelse PROMPT_COMMAND=\"_tnote_precmd; $PROMPT_COMMAND\"; fi\nif [ -z \"$TMUX\" ]; then bind -x '\"";

/// The bash block between the key and the end marker.
pub const BASH_TAIL: &'static str = "\":\"_tnote_toggle\"'; fi\n";

/// The fish block between the start marker and the key.
pub const FISH_HEAD: &'static str = "\nfunction _tnote_toggle\nset -l j (jobs 2>/dev/null | awk 'tolower($0)~/tnote/ && tolower($0)~/stop|suspend/ {print NR;exit}')\nset -l p (jobs 2>/dev/null | awk '!/tnote/ && tolower($0)~/stop|suspend/ {print NR;exit}')\nif test -n \"$p\"; echo \"$p\" > \"/tmp/tnote-swap-target-$fish_pid\"\nelse rm -f \"/tmp/tnote-swap-target-$fish_pid\"; end\nif test -n \"$j\"; fg $j\nelse tnote; end\ncommandline -f repaint\nend\nfunction _tnote_precmd --on-event fish_prompt\nset -l f \"/tmp/tnote-swap-$fish_pid\"\ntest -f \"$f\" || return\nset -l spid (cat \"$f\"); rm -f \"$f\"\ntest -n \"$spid\" || return\nset -l j (jobs 2>/dev/null | awk -v p=\"$spid\" 'NR>1 && $0~p {print NR-1;exit}')\ntest -n \"$j\"; and fg $j 2>/dev/null\nend\nif not set -q TMUX; bind \\c";

/// The fish block between the key and the end marker.
pub const FISH_TAIL: &'static str = " '_tnote_toggle'; end\n";

/// The shell named by `$SHELL`: the part after its last `/`.
pub open spec fn shell_name_of(shell_var: Seq<char>) -> Seq<char> {
    split_on(shell_var, '/').last()
}

/// Detect the user's shell from the value of `$SHELL`.
pub fn detect_shell(shell_var: Option<&str>) -> (r: Option<String>)
    ensures
        match r {
            Some(s) => shell_var matches Some(v) && s@ == shell_name_of(v@),
            None => shell_var is None,
        },
{
    match shell_var {
        Some(v) => {
            let cv = chars_of(v);
            let parts = split_chars(cv.as_slice(), '/');
            proof {
                lemma_split_nonempty(cv@, '/');
            }
            let n = parts.len();
            Some(string_of(parts[n - 1].as_slice()))
        },
        None => None,
    }
}

/// The rc file of a supported shell under `home`.
pub open spec fn shell_rc_of(shell: Seq<char>, home: Seq<char>) -> Option<Seq<char>> {
    if shell == "zsh"@ {
        Some(joined_path(home, ".zshrc"@))
    } else if shell == "bash"@ {
        Some(joined_path(home, ".bashrc"@))
    } else if shell == "fish"@ {
        Some(joined_path(joined_path(home, ".config/fish"@), "config.fish"@))
    } else {
        None
    }
}

/// Return the rc file path for the given shell (keybindings belong in
/// `.bashrc`, read by interactive shells, not `.bash_profile`); none without
/// a home directory or for another shell.
pub fn shell_rc(shell: &str, home: Option<&str>) -> (r: Option<String>)
    ensures
        opt_view(r) == match home {
            Some(h) => shell_rc_of(shell@, h@),
            None => None,
        },
{
    let h = match home {
        Some(h) => chars_of(h),
        None => return None,
    };
    let sv = chars_of(shell);
    if eq_str(sv.as_slice(), "zsh") {
        Some(string_of(join_path(h.as_slice(), chars_of(".zshrc").as_slice()).as_slice()))
    } else if eq_str(sv.as_slice(), "bash") {
        Some(string_of(join_path(h.as_slice(), chars_of(".bashrc").as_slice()).as_slice()))
    } else if eq_str(sv.as_slice(), "fish") {
        let d = join_path(h.as_slice(), chars_of(".config/fish").as_slice());
        Some(string_of(join_path(d.as_slice(), chars_of("config.fish").as_slice()).as_slice()))
    } else {
        None
    }
}

pub open spec fn opt_view(o: Option<String>) -> Option<Seq<char>> {
    match o {
        Some(s) => Some(s@),
        None => None,
    }
}

/// The block of shell code that binds Ctrl-`key` to tnote outside tmux, for
/// zsh, bash and fish, between the start and end markers.
pub open spec fn binding_of(shell: Seq<char>, key: Seq<char>) -> Option<Seq<char>> {
    if shell == "zsh"@ {
        Some(SHELL_MARKER@ + ZSH_HEAD@ + "\\C-"@ + key + ZSH_TAIL@ + SHELL_END_MARKER@)
    } else if shell == "bash"@ {
        Some(SHELL_MARKER@ + BASH_HEAD@ + "\\C-"@ + key + BASH_TAIL@ + SHELL_END_MARKER@)
    } else if shell == "fish"@ {
        Some(SHELL_MARKER@ + FISH_HEAD@ + key + FISH_TAIL@ + SHELL_END_MARKER@)
    } else {
        None
    }
}

/// Generate the shell keybinding snippet for the given shell and key.
pub fn shell_binding(shell: &str, key: &str) -> (r: Option<String>)
    ensures
        opt_view(r) == binding_of(shell@, key@),
{
    let sv = chars_of(shell);
    let mut b: Vec<char> = chars_of(SHELL_MARKER);
    if eq_str(sv.as_slice(), "zsh") {
        extend_str(&mut b, ZSH_HEAD);
        extend_str(&mut b, "\\C-");
        extend_str(&mut b, key);
        extend_str(&mut b, ZSH_TAIL);
    } else if eq_str(sv.as_slice(), "bash") {
        extend_str(&mut b, BASH_HEAD);
        extend_str(&mut b, "\\C-");
        extend_str(&mut b, key);
        extend_str(&mut b, BASH_TAIL);
    } else if eq_str(sv.as_slice(), "fish") {
        extend_str(&mut b, FISH_HEAD);
        extend_str(&mut b, key);
        extend_str(&mut b, FISH_TAIL);
    } else {
        return None;
    }
    extend_str(&mut b, SHELL_END_MARKER);
    Some(string_of(b.as_slice()))
}

/// An rc file's content with the tnote block replaced by `binding`: any
/// existing block removed, then the binding on lines of its own at the end.
pub open spec fn with_binding(content: Seq<char>, binding: Seq<char>) -> Seq<char> {
    let cleaned = shell_block_removed(content);
    let sep = if cleaned.len() > 0 && cleaned.last() != '\n' {
        seq!['\n']
    } else {
        Seq::<char>::empty()
    };
    cleaned + sep + binding + seq!['\n']
}

/// The new content of an rc file (`content`, empty when it could not be
/// read) that carries `binding`.
pub fn add_shell_binding(content: &str, binding: &str) -> (r: String)
    ensures
        r@ == with_binding(content@, binding@),
{
    let cleaned = remove_shell_block(content);
    let mut v = chars_of(cleaned.as_str());
    let n = v.len();
    if n > 0 && v[n - 1] != '\n' {
        v.push('\n');
    }
    extend_str(&mut v, binding);
    v.push('\n');
    proof {
        let sep = if cleaned@.len() > 0 && cleaned@.last() != '\n' {
            seq!['\n']
        } else {
            Seq::<char>::empty()
        };
        assert(v@ =~= cleaned@ + sep + binding@ + seq!['\n']);
    }
    string_of(v.as_slice())
}

/// The new content of an rc file without the tnote block: none when the
/// file could not be read (`content` is `None`) or has no block to remove.
pub fn remove_shell_binding(content: Option<&str>) -> (r: Option<String>)
    ensures
        opt_view(r) == match content {
            Some(c) => if shell_block_removed(c@) != c@ {
                Some(shell_block_removed(c@))
            } else {
                None
            },
            None => None,
        },
{
    match content {
        Some(c) => {
            let cleaned = remove_shell_block(c);
            let cv = chars_of(c);
            let kv = chars_of(cleaned.as_str());
            if crate::text::chars_eq(kv.as_slice(), cv.as_slice()) {
                None
            } else {
                Some(cleaned)
            }
        },
        None => None,
    }
}

// ───────────────────────────── tmux configuration ─────────────────────────────

/// `~/.tmux.conf` for the home directory.
pub fn user_tmux_conf(home: Option<&str>) -> (r: Option<String>)
    ensures
        opt_view(r) == match home {
            Some(h) => Some(joined_path(h@, ".tmux.conf"@)),
            None => None,
        },
{
    match home {
        Some(h) => Some(
            string_of(join_path(chars_of(h).as_slice(), chars_of(".tmux.conf").as_slice()).as_slice()),
        ),
        None => None,
    }
}

/// The tmux command that runs `cmd` in a shell.
pub open spec fn run_shell_of(cmd: Seq<char>) -> Seq<char> {
    "run-shell "@ + shell_escaped(cmd)
}

pub fn tmux_run_shell(cmd: &str) -> (r: String)
    ensures
        r@ == run_shell_of(cmd@),
{
    let e = shell_escape(cmd);
    string_of(str_concat("run-shell ", chars_of(e.as_str()).as_slice()).as_slice())
}

/// The tmux command that runs the tnote binary with a subcommand.
pub open spec fn run_sub_of(bin: Seq<char>, sub: Seq<char>) -> Seq<char> {
    run_shell_of(shell_escaped(bin) + " "@ + sub)
}

fn run_sub(bin: &str, sub: &str) -> (r: Vec<char>)
    ensures
        r@ == run_sub_of(bin@, sub@),
{
    let mut c = chars_of(shell_escape(bin).as_str());
    extend_str(&mut c, " ");
    extend_str(&mut c, sub);
    let s = string_of(c.as_slice());
    chars_of(tmux_run_shell(s.as_str()).as_str())
}

/// `set -s command-alias[<index>] "<name>=<cmd>"`, one line.
pub open spec fn alias_line(index: Seq<char>, name: Seq<char>, cmd: Seq<char>) -> Seq<char> {
    "set -s command-alias["@ + index + "] \""@ + name + "="@ + cmd + "\"\n"@
}

fn push_alias(t: &mut Vec<char>, index: &str, name: &str, cmd: &[char])
    ensures
        final(t)@ == old(t)@ + alias_line(index@, name@, cmd@),
{
    let ghost before = t@;
    extend_str(t, "set -s command-alias[");
    extend_str(t, index);
    extend_str(t, "] \"");
    extend_str(t, name);
    extend_str(t, "=");
    extend(t, cmd);
    extend_str(t, "\"\n");
    proof {
        assert(t@ =~= before + alias_line(index@, name@, cmd@));
    }
}

/// The tmux configuration `tnote setup` writes: prefix + `key` opens the
/// popup, and `:tnote`, `:tnote-show`, … run the tnote binary `bin`.
pub open spec fn tmux_conf_of(key: Seq<char>, bin: Seq<char>) -> Seq<char> {
    let run = run_shell_of(bin);
    "# tnote key bindings — managed by 'tnote setup' / 'tnote uninstall'\n"@ + "unbind-key "@ + key
        + "\n"@ + "bind-key "@ + key + " "@ + run + "\n"@ + alias_line("100"@, "tnote"@, run)
        + alias_line("101"@, "tnote-show"@, run_sub_of(bin, "show"@)) + alias_line(
        "102"@,
        "tnote-list"@,
        run_sub_of(bin, "list"@),
    ) + alias_line("103"@, "tnote-path"@, run_sub_of(bin, "path"@)) + alias_line(
        "104"@,
        "tnote-clean"@,
        run_sub_of(bin, "clean"@),
    ) + alias_line("105"@, "tnote-help"@, run_sub_of(bin, "help"@)) + alias_line(
        "106"@,
        "tnote-name"@,
        run_sub_of(bin, "name"@),
    ) + alias_line("107"@, "tnote-ls"@, run_sub_of(bin, "ls"@))
}

/// The definition of the tmux alias `tnote-<sub>` that runs the tnote binary
/// `bin` with the subcommand `sub`, as it stands in the configuration.
pub open spec fn subcommand_alias(bin: Seq<char>, sub: Seq<char>) -> Seq<char> {
    "\""@ + "tnote-"@ + sub + "="@ + run_sub_of(bin, sub) + "\"\n"@
}

/// The configuration defines the alias `tnote-<sub>` as running `bin sub`.
pub open spec fn runs_subcommand(conf: Seq<char>, bin: Seq<char>, sub: Seq<char>) -> bool {
    crate::text::contains_sub(conf, subcommand_alias(bin, sub))
}

proof fn lemma_contains_concat(a: Seq<char>, b: Seq<char>, p: Seq<char>)
    ensures
        crate::text::contains_sub(a, p) ==> crate::text::contains_sub(a + b, p),
        crate::text::contains_sub(b, p) ==> crate::text::contains_sub(a + b, p),
{
    if crate::text::contains_sub(a, p) {
        let k = choose|k: int| crate::text::occurs_at(a, k, p);
        assert((a + b).subrange(k, k + p.len()) =~= a.subrange(k, k + p.len()));
        assert(crate::text::occurs_at(a + b, k, p));
    }
    if crate::text::contains_sub(b, p) {
        let k = choose|k: int| crate::text::occurs_at(b, k, p);
        let m = a.len() + k;
        assert((a + b).subrange(m, m + p.len()) =~= b.subrange(k, k + p.len()));
        assert(crate::text::occurs_at(a + b, m, p));
    }
}

proof fn lemma_alias_has_subcommand(index: Seq<char>, name: Seq<char>, bin: Seq<char>, sub: Seq<char>)
    requires
        name == "tnote-"@ + sub,
    ensures
        crate::text::contains_sub(alias_line(index, name, run_sub_of(bin, sub)), subcommand_alias(bin, sub)),
{
    reveal_strlit("] \"");
    reveal_strlit("] ");
    reveal_strlit("\"");
    let a = "set -s command-alias["@ + index + "] "@;
    let p = subcommand_alias(bin, sub);
    assert(alias_line(index, name, run_sub_of(bin, sub)) =~= a + p);
    assert((a + p).subrange(a.len() as int, (a.len() + p.len()) as int) =~= p);
    assert(crate::text::occurs_at(a + p, a.len() as int, p));
}

/// Each `:tnote-<sub>` alias that setup writes runs the tnote binary with
/// exactly the subcommand its name gives: `tnote-show` runs `show`,
/// `tnote-path` runs `path`, and so on.
pub proof fn lemma_tmux_aliases_run_their_subcommand(key: Seq<char>, bin: Seq<char>)
    ensures
        runs_subcommand(tmux_conf_of(key, bin), bin, "show"@),
        runs_subcommand(tmux_conf_of(key, bin), bin, "list"@),
        runs_subcommand(tmux_conf_of(key, bin), bin, "path"@),
        runs_subcommand(tmux_conf_of(key, bin), bin, "clean"@),
        runs_subcommand(tmux_conf_of(key, bin), bin, "help"@),
        runs_subcommand(tmux_conf_of(key, bin), bin, "name"@),
        runs_subcommand(tmux_conf_of(key, bin), bin, "ls"@),
{
    reveal_strlit("tnote-");
    let run = run_shell_of(bin);
    let t0 = "# tnote key bindings — managed by 'tnote setup' / 'tnote uninstall'\n"@ + "unbind-key "@ + key
        + "\n"@ + "bind-key "@ + key + " "@ + run + "\n"@;
    let l100 = alias_line("100"@, "tnote"@, run);
    let l101 = alias_line("101"@, "tnote-show"@, run_sub_of(bin, "show"@));
    let l102 = alias_line("102"@, "tnote-list"@, run_sub_of(bin, "list"@));
    let l103 = alias_line("103"@, "tnote-path"@, run_sub_of(bin, "path"@));
    let l104 = alias_line("104"@, "tnote-clean"@, run_sub_of(bin, "clean"@));
    let l105 = alias_line("105"@, "tnote-help"@, run_sub_of(bin, "help"@));
    let l106 = alias_line("106"@, "tnote-name"@, run_sub_of(bin, "name"@));
    let l107 = alias_line("107"@, "tnote-ls"@, run_sub_of(bin, "ls"@));
    let c0 = t0 + l100;
    let c1 = c0 + l101;
    let c2 = c1 + l102;
    let c3 = c2 + l103;
    let c4 = c3 + l104;
    let c5 = c4 + l105;
    let c6 = c5 + l106;
    let c7 = c6 + l107;
    assert(tmux_conf_of(key, bin) == c7);
    reveal_strlit("tnote-show");
    reveal_strlit("show");
    assert("tnote-show"@ =~= "tnote-"@ + "show"@);
    lemma_alias_has_subcommand("101"@, "tnote-show"@, bin, "show"@);
    lemma_contains_concat(c0, l101, subcommand_alias(bin, "show"@));
    lemma_contains_concat(c1, l102, subcommand_alias(bin, "show"@));
    lemma_contains_concat(c2, l103, subcommand_alias(bin, "show"@));
    lemma_contains_concat(c3, l104, subcommand_alias(bin, "show"@));
    lemma_contains_concat(c4, l105, subcommand_alias(bin, "show"@));
    lemma_contains_concat(c5, l106, subcommand_alias(bin, "show"@));
    lemma_contains_concat(c6, l107, subcommand_alias(bin, "show"@));
    reveal_strlit("tnote-list");
    reveal_strlit("list");
    assert("tnote-list"@ =~= "tnote-"@ + "list"@);
    lemma_alias_has_subcommand("102"@, "tnote-list"@, bin, "list"@);
    lemma_contains_concat(c1, l102, subcommand_alias(bin, "list"@));
    lemma_contains_concat(c2, l103, subcommand_alias(bin, "list"@));
    lemma_contains_concat(c3, l104, subcommand_alias(bin, "list"@));
    lemma_contains_concat(c4, l105, subcommand_alias(bin, "list"@));
    lemma_contains_concat(c5, l106, subcommand_alias(bin, "list"@));
    lemma_contains_concat(c6, l107, subcommand_alias(bin, "list"@));
    reveal_strlit("tnote-path");
    reveal_strlit("path");
    assert("tnote-path"@ =~= "tnote-"@ + "path"@);
    lemma_alias_has_subcommand("103"@, "tnote-path"@, bin, "path"@);
    lemma_contains_concat(c2, l103, subcommand_alias(bin, "path"@));
    lemma_contains_concat(c3, l104, subcommand_alias(bin, "path"@));
    lemma_contains_concat(c4, l105, subcommand_alias(bin, "path"@));
    lemma_contains_concat(c5, l106, subcommand_alias(bin, "path"@));
    lemma_contains_concat(c6, l107, subcommand_alias(bin, "path"@));
    reveal_strlit("tnote-clean");
    reveal_strlit("clean");
    assert("tnote-clean"@ =~= "tnote-"@ + "clean"@);
    lemma_alias_has_subcommand("104"@, "tnote-clean"@, bin, "clean"@);
    lemma_contains_concat(c3, l104, subcommand_alias(bin, "clean"@));
    lemma_contains_concat(c4, l105, subcommand_alias(bin, "clean"@));
    lemma_contains_concat(c5, l106, subcommand_alias(bin, "clean"@));
    lemma_contains_concat(c6, l107, subcommand_alias(bin, "clean"@));
    reveal_strlit("tnote-help");
    reveal_strlit("help");
    assert("tnote-help"@ =~= "tnote-"@ + "help"@);
    lemma_alias_has_subcommand("105"@, "tnote-help"@, bin, "help"@);
    lemma_contains_concat(c4, l105, subcommand_alias(bin, "help"@));
    lemma_contains_concat(c5, l106, subcommand_alias(bin, "help"@));
    lemma_contains_concat(c6, l107, subcommand_alias(bin, "help"@));
    reveal_strlit("tnote-name");
    reveal_strlit("name");
    assert("tnote-name"@ =~= "tnote-"@ + "name"@);
    lemma_alias_has_subcommand("106"@, "tnote-name"@, bin, "name"@);
    lemma_contains_concat(c5, l106, subcommand_alias(bin, "name"@));
    lemma_contains_concat(c6, l107, subcommand_alias(bin, "name"@));
    reveal_strlit("tnote-ls");
    reveal_strlit("ls");
    assert("tnote-ls"@ =~= "tnote-"@ + "ls"@);
    lemma_alias_has_subcommand("107"@, "tnote-ls"@, bin, "ls"@);
    lemma_contains_concat(c6, l107, subcommand_alias(bin, "ls"@));
}

/// The tmux configuration for key `key` and the tnote binary at `bin`.
pub fn tmux_conf(key: &str, bin: &str) -> (r: String)
    ensures
        r@ == tmux_conf_of(key@, bin@),
{
    let run = chars_of(tmux_run_shell(bin).as_str());
    let mut t: Vec<char> = Vec::new();
    extend_str(&mut t, "# tnote key bindings — managed by 'tnote setup' / 'tnote uninstall'\n");
    extend_str(&mut t, "unbind-key ");
    extend_str(&mut t, key);
    extend_str(&mut t, "\n");
    extend_str(&mut t, "bind-key ");
    extend_str(&mut t, key);
    extend_str(&mut t, " ");
    extend(&mut t, run.as_slice());
    extend_str(&mut t, "\n");
    push_alias(&mut t, "100", "tnote", run.as_slice());
    push_alias(&mut t, "101", "tnote-show", run_sub(bin, "show").as_slice());
    push_alias(&mut t, "102", "tnote-list", run_sub(bin, "list").as_slice());
    push_alias(&mut t, "103", "tnote-path", run_sub(bin, "path").as_slice());
    push_alias(&mut t, "104", "tnote-clean", run_sub(bin, "clean").as_slice());
    push_alias(&mut t, "105", "tnote-help", run_sub(bin, "help").as_slice());
    push_alias(&mut t, "106", "tnote-name", run_sub(bin, "name").as_slice());
    push_alias(&mut t, "107", "tnote-ls", run_sub(bin, "ls").as_slice());
    string_of(t.as_slice())
}

/// The tmux configuration `tnote uninstall` writes: the key unbound and the
/// command aliases unset.
pub open spec fn cleared_tmux_conf_of(key: Seq<char>) -> Seq<char> {
    "# tnote key bindings — cleared by 'tnote uninstall'\n"@ + "unbind-key "@ + key + "\n"@
        + "set -su command-alias[100]\nset -su command-alias[101]\nset -su command-alias[102]\nset -su command-alias[103]\nset -su command-alias[104]\nset -su command-alias[105]\nset -su command-alias[106]\nset -su command-alias[107]\nset -su command-alias[108]\n"@
}

pub fn cleared_tmux_conf(key: &str) -> (r: String)
    ensures
        r@ == cleared_tmux_conf_of(key@),
{
    let mut t: Vec<char> = Vec::new();
    extend_str(&mut t, "# tnote key bindings — cleared by 'tnote uninstall'\n");
    extend_str(&mut t, "unbind-key ");
    extend_str(&mut t, key);
    extend_str(&mut t, "\n");
    extend_str(
        &mut t,
        "set -su command-alias[100]\nset -su command-alias[101]\nset -su command-alias[102]\nset -su command-alias[103]\nset -su command-alias[104]\nset -su command-alias[105]\nset -su command-alias[106]\nset -su command-alias[107]\nset -su command-alias[108]\n",
    );
    string_of(t.as_slice())
}

// ───────────────────────────── the source-file line ─────────────────────────────

/// The line of `~/.tmux.conf` that loads tnote's tmux configuration.
pub open spec fn source_line_of(path: Seq<char>) -> Seq<char> {
    "source-file "@ + path
}

/// Some line of `content`, trimmed, is the source line.
pub open spec fn has_source_line(content: Seq<char>, path: Seq<char>) -> bool {
    exists|i: int|
        0 <= i < lines(content).len() && trim(#[trigger] lines(content)[i]) == source_line_of(path)
}

/// `content` with the source line appended on a line of its own.
pub open spec fn with_source_line(content: Seq<char>, path: Seq<char>) -> Seq<char> {
    let sep = if content.len() > 0 && content.last() != '\n' {
        seq!['\n']
    } else {
        Seq::<char>::empty()
    };
    content + sep + source_line_of(path) + seq!['\n']
}

/// The lines that are not, trimmed, `line`.
pub open spec fn other_lines(ls: Seq<Seq<char>>, line: Seq<char>) -> Seq<Seq<char>>
    decreases ls.len(),
{
    if ls.len() == 0 {
        Seq::<Seq<char>>::empty()
    } else {
        let p = other_lines(ls.drop_last(), line);
        if trim(ls.last()) == line {
            p
        } else {
            p.push(ls.last())
        }
    }
}

/// `content` without its source lines, keeping a final line break.
pub open spec fn without_source_line(content: Seq<char>, path: Seq<char>) -> Seq<char> {
    let j = join(other_lines(lines(content), source_line_of(path)), seq!['\n']);
    if content.len() > 0 && content.last() == '\n' {
        j.push('\n')
    } else {
        j
    }
}

/// The new content of `~/.tmux.conf` (`content`, empty when it could not be
/// read) that loads tnote's configuration at `source_path`: none when some
/// line already does.
pub fn add_source_line(content: &str, source_path: &str) -> (r: Option<String>)
    ensures
        match r {
            Some(n) => !has_source_line(content@, source_path@) && n@ == with_source_line(
                content@,
                source_path@,
            ),
            None => has_source_line(content@, source_path@),
        },
{
    let line = str_concat("source-file ", chars_of(source_path).as_slice());
    let cv = chars_of(content);
    let ls = lines_of(cv.as_slice());
    let ghost lv = views(ls@);
    let n = ls.len();
    let mut i: usize = 0;
    while i < n
        invariant
            n == ls@.len() == lv.len(),
            lv == views(ls@),
            lv == lines(content@),
            line@ == source_line_of(source_path@),
            0 <= i <= n,
            forall|j: int| 0 <= j < i ==> trim(#[trigger] lv[j]) != line@,
        decreases n - i,
    {
        let t = trim_chars(ls[i].as_slice());
        proof {
            assert(lv[i as int] == ls@[i as int]@);
        }
        if crate::text::chars_eq(t.as_slice(), line.as_slice()) {
            return None;
        }
        i = i + 1;
    }
    let mut out = cv;
    let m = out.len();
    if m > 0 && out[m - 1] != '\n' {
        out.push('\n');
    }
    extend(&mut out, line.as_slice());
    out.push('\n');
    proof {
        let sep = if content@.len() > 0 && content@.last() != '\n' {
            seq!['\n']
        } else {
            Seq::<char>::empty()
        };
        assert(out@ =~= content@ + sep + source_line_of(source_path@) + seq!['\n']);
    }
    Some(string_of(out.as_slice()))
}

/// The new content of `~/.tmux.conf` without the line that loads tnote's
/// configuration at `source_path`: none when the file could not be read
/// (`content` is `None`) or nothing changes.
pub fn remove_source_line(content: Option<&str>, source_path: &str) -> (r: Option<String>)
    ensures
        opt_view(r) == match content {
            Some(c) => if without_source_line(c@, source_path@) != c@ {
                Some(without_source_line(c@, source_path@))
            } else {
                None
            },
            None => None,
        },
{
    let c = match content {
        Some(c) => c,
        None => return None,
    };
    let line = str_concat("source-file ", chars_of(source_path).as_slice());
    let cv = chars_of(c);
    let ls = lines_of(cv.as_slice());
    let ghost lv = views(ls@);
    let n = ls.len();
    let mut kept: Vec<Vec<char>> = Vec::new();
    let mut i: usize = 0;
    proof {
        assert(lv.take(0) =~= Seq::<Seq<char>>::empty());
    }
    while i < n
        invariant
            n == ls@.len() == lv.len(),
            lv == views(ls@),
            line@ == source_line_of(source_path@),
            0 <= i <= n,
            views(kept@) == other_lines(lv.take(i as int), line@),
        decreases n - i,
    {
        let ghost before = views(kept@);
        proof {
            assert(lv.take(i + 1).drop_last() =~= lv.take(i as int));
            assert(lv.take(i + 1).last() == ls@[i as int]@);
        }
        let t = trim_chars(ls[i].as_slice());
        if !crate::text::chars_eq(t.as_slice(), line.as_slice()) {
            let l = crate::text::slice_copy(ls[i].as_slice(), 0, ls[i].len());
            proof {
                assert(ls@[i as int]@.subrange(0, ls@[i as int]@.len() as int) =~= ls@[i as int]@);
            }
            kept.push(l);
            proof {
                assert(views(kept@) =~= before.push(l@));
            }
        }
        i = i + 1;
    }
    proof {
        assert(lv.take(n as int) =~= lv);
    }
    let sep: Vec<char> = vec!['\n'];
    let mut out = join_chars(&kept, sep.as_slice());
    proof {
        assert(sep@ =~= seq!['\n']);
    }
    let m = cv.len();
    if m > 0 && cv[m - 1] == '\n' {
        out.push('\n');
    }
    if crate::text::chars_eq(out.as_slice(), cv.as_slice()) {
        None
    } else {
        Some(string_of(out.as_slice()))
    }
}

/// A path that can stand on a line of its own and be recognised there: not
/// empty, no line break, no whitespace at its end.
pub open spec fn plain_path(p: Seq<char>) -> bool {
    p.len() > 0 && !p.contains('\n') && !crate::text::is_ws(p.last())
}

proof fn lemma_source_line_plain(p: Seq<char>)
    requires
        plain_path(p),
    ensures
        trim(source_line_of(p)) == source_line_of(p),
        !source_line_of(p).contains('\n'),
        crate::text::strip_cr(source_line_of(p)) == source_line_of(p),
        lines(source_line_of(p) + seq!['\n']) == seq![source_line_of(p)],
{
    reveal_strlit("source-file ");
    let l = source_line_of(p);
    assert(l.last() == p.last());
    assert(!crate::text::is_ws(l[0]));
    crate::text::lemma_trim_start_len(l);
    crate::text::lemma_trim_end_len(l);
    assert(l.skip(0) =~= l);
    assert(l.take(l.len() as int) =~= l);
    assert(!l.contains('\n')) by {
        if l.contains('\n') {
            let j = choose|j: int| 0 <= j < l.len() && l[j] == '\n';
            if j >= 12 {
                assert(p[j - 12] == '\n');
            }
        }
    }
    crate::text::lemma_split_concat(l, Seq::<char>::empty(), '\n');
    assert(l + seq!['\n'] =~= l + seq!['\n'] + Seq::<char>::empty());
    assert(split_on(Seq::<char>::empty(), '\n') == seq![Seq::<char>::empty()]);
    assert(split_on(l + seq!['\n'], '\n') =~= seq![l, Seq::<char>::empty()]);
    assert(seq![l, Seq::<char>::empty()].drop_last() =~= seq![l]);
    assert(seq![l].map_values(|x: Seq<char>| crate::text::strip_cr(x)) =~= seq![l]);
}

/// Adding the source line twice adds it once: once added, the file has it,
/// so adding again changes nothing.
pub proof fn lemma_add_source_line_idempotent(content: Seq<char>, path: Seq<char>)
    requires
        plain_path(path),
    ensures
        has_source_line(with_source_line(content, path), path),
{
    lemma_source_line_plain(path);
    let l = source_line_of(path);
    let sep = if content.len() > 0 && content.last() != '\n' {
        seq!['\n']
    } else {
        Seq::<char>::empty()
    };
    let c1 = content + sep;
    let t = l + seq!['\n'];
    assert(with_source_line(content, path) =~= c1 + t);
    if c1.len() == 0 {
        assert(c1 + t =~= t);
        assert(lines(c1 + t)[0] == l);
    } else {
        assert(c1.last() == '\n');
        crate::text::lemma_lines_append(c1, t);
        let k = lines(c1).len() as int;
        assert(lines(c1 + t)[k] == l);
    }
}

/// Text that is its lines joined by line breaks, with its final line break:
/// reading and writing it line by line gives it back.
pub open spec fn normal_text(c: Seq<char>) -> bool {
    if c.len() > 0 && c.last() == '\n' {
        join(lines(c), seq!['\n']).push('\n') == c
    } else {
        join(lines(c), seq!['\n']) == c
    }
}

proof fn lemma_other_lines_append(a: Seq<Seq<char>>, b: Seq<Seq<char>>, line: Seq<char>)
    ensures
        other_lines(a + b, line) == other_lines(a, line) + other_lines(b, line),
    decreases b.len(),
{
    if b.len() == 0 {
        assert(a + b =~= a);
    } else {
        lemma_other_lines_append(a, b.drop_last(), line);
        assert((a + b).drop_last() =~= a + b.drop_last());
        assert((a + b).last() == b.last());
        if trim(b.last()) != line {
            assert((other_lines(a, line) + other_lines(b.drop_last(), line)).push(b.last())
                =~= other_lines(a, line) + other_lines(b.drop_last(), line).push(b.last()));
        }
    }
}

proof fn lemma_other_lines_none(ls: Seq<Seq<char>>, line: Seq<char>)
    requires
        forall|i: int| 0 <= i < ls.len() ==> trim(#[trigger] ls[i]) != line,
    ensures
        other_lines(ls, line) == ls,
    decreases ls.len(),
{
    if ls.len() > 0 {
        lemma_other_lines_none(ls.drop_last(), line);
        assert(trim(ls[ls.len() - 1]) != line);
        assert(ls.drop_last().push(ls.last()) =~= ls);
    }
}

/// Removing the source line undoes adding it: for a tmux configuration that
/// ends with a line break, is in normal form and does not load tnote yet,
/// adding the source line and removing it again gives the file back.
pub proof fn lemma_remove_undoes_add_source_line(content: Seq<char>, path: Seq<char>)
    requires
        plain_path(path),
        content.len() > 0,
        content.last() == '\n',
        normal_text(content),
        !has_source_line(content, path),
    ensures
        without_source_line(with_source_line(content, path), path) == content,
{
    lemma_source_line_plain(path);
    let l = source_line_of(path);
    let t = l + seq!['\n'];
    let added = with_source_line(content, path);
    assert(added =~= content + t);
    crate::text::lemma_lines_append(content, t);
    assert(lines(added) == lines(content) + seq![l]);
    lemma_other_lines_append(lines(content), seq![l], l);
    assert(seq![l].drop_last() =~= Seq::<Seq<char>>::empty());
    assert(seq![l].last() == l);
    assert(other_lines(Seq::<Seq<char>>::empty(), l) == Seq::<Seq<char>>::empty());
    assert(other_lines(seq![l], l) == Seq::<Seq<char>>::empty());
    assert forall|i: int| 0 <= i < lines(content).len() implies trim(
        #[trigger] lines(content)[i],
    ) != l by {}
    lemma_other_lines_none(lines(content), l);
    assert(other_lines(lines(added), l) =~= lines(content));
    assert(added.last() == '\n');
}

proof fn lemma_drop_legacy_none(ls: Seq<Seq<char>>)
    requires
        forall|i: int| 0 <= i < ls.len() ==> !is_start_line(#[trigger] ls[i]),
    ensures
        drop_legacy(ls, false) == ls,
    decreases ls.len(),
{
    if ls.len() > 0 {
        assert forall|i: int| 0 <= i < ls.drop_first().len() implies !is_start_line(
            #[trigger] ls.drop_first()[i],
        ) by {
            assert(ls.drop_first()[i] == ls[i + 1]);
        }
        lemma_drop_legacy_none(ls.drop_first());
        assert(!is_start_line(ls[0]));
        assert(seq![ls[0]] + ls.drop_first() =~= ls);
    }
}

/// Removing the tnote block from an rc file that has none leaves it as it
/// is (for a file in normal form other than a lone line break).
pub proof fn lemma_remove_shell_block_noop(content: Seq<char>)
    requires
        normal_text(content),
        content != seq!['\n'],
        forall|i: int| 0 <= i < lines(content).len() ==> !is_start_line(#[trigger] lines(content)[i]),
    ensures
        shell_block_removed(content) == content,
{
    let ls = lines(content);
    assert(!has_end_marker(ls));
    lemma_drop_legacy_none(ls);
    let out = join(ls, seq!['\n']);
    if content.len() > 0 && content.last() == '\n' {
        assert(out.len() > 0) by {
            if out.len() == 0 {
                assert(out.push('\n') =~= seq!['\n']);
            }
        }
    }
}

proof fn lemma_drop_blocks_prefix(a: Seq<Seq<char>>, r: Seq<Seq<char>>)
    requires
        forall|i: int| 0 <= i < a.len() ==> !is_start_line(#[trigger] a[i]),
    ensures
        drop_blocks(a + r, false) == a + drop_blocks(r, false),
    decreases a.len(),
{
    if a.len() == 0 {
        assert(a + r =~= r);
    } else {
        let t = a.drop_first();
        assert forall|i: int| 0 <= i < t.len() implies !is_start_line(#[trigger] t[i]) by {
            assert(t[i] == a[i + 1]);
        }
        lemma_drop_blocks_prefix(t, r);
        assert((a + r).drop_first() =~= t + r);
        assert((a + r)[0] == a[0]);
        assert(seq![a[0]] + (t + drop_blocks(r, false)) =~= a + drop_blocks(r, false));
    }
}

proof fn lemma_drop_blocks_inside(mid: Seq<Seq<char>>, r: Seq<Seq<char>>)
    requires
        forall|i: int| 0 <= i < mid.len() ==> !is_end_line(#[trigger] mid[i]),
    ensures
        drop_blocks(mid + r, true) == drop_blocks(r, true),
    decreases mid.len(),
{
    if mid.len() == 0 {
        assert(mid + r =~= r);
    } else {
        let t = mid.drop_first();
        assert forall|i: int| 0 <= i < t.len() implies !is_end_line(#[trigger] t[i]) by {
            assert(t[i] == mid[i + 1]);
        }
        lemma_drop_blocks_inside(t, r);
        assert((mid + r).drop_first() =~= t + r);
        assert((mid + r)[0] == mid[0]);
    }
}

proof fn lemma_drop_blocks_kept(ls: Seq<Seq<char>>, in_block: bool)
    ensures
        forall|i: int|
            0 <= i < drop_blocks(ls, in_block).len() ==> !is_start_line(
                #[trigger] drop_blocks(ls, in_block)[i],
            ) && ls.contains(drop_blocks(ls, in_block)[i]),
    decreases ls.len(),
{
    if ls.len() > 0 {
        let t = ls.drop_first();
        lemma_drop_blocks_kept(t, !is_end_line(ls[0]));
        lemma_drop_blocks_kept(t, true);
        lemma_drop_blocks_kept(t, false);
        let out = drop_blocks(ls, in_block);
        assert forall|i: int| 0 <= i < out.len() implies !is_start_line(#[trigger] out[i])
            && ls.contains(out[i]) by {
            if !in_block && !is_start_line(ls[0]) && i == 0 {
                assert(out[0] == ls[0]);
            } else {
                let q = if in_block {
                    drop_blocks(t, !is_end_line(ls[0]))
                } else if is_start_line(ls[0]) {
                    drop_blocks(t, true)
                } else {
                    drop_blocks(t, false)
                };
                let k = if !in_block && !is_start_line(ls[0]) {
                    i - 1
                } else {
                    i
                };
                assert(out[i] == q[k]);
                let j = choose|j: int| 0 <= j < t.len() && t[j] == q[k];
                assert(ls[j + 1] == out[i]);
            }
        }
    }
}

proof fn lemma_drop_legacy_kept(ls: Seq<Seq<char>>, skip_next: bool)
    ensures
        forall|i: int|
            0 <= i < drop_legacy(ls, skip_next).len() ==> !is_start_line(
                #[trigger] drop_legacy(ls, skip_next)[i],
            ) && ls.contains(drop_legacy(ls, skip_next)[i]),
    decreases ls.len(),
{
    if ls.len() > 0 {
        let t = ls.drop_first();
        lemma_drop_legacy_kept(t, true);
        lemma_drop_legacy_kept(t, false);
        let out = drop_legacy(ls, skip_next);
        assert forall|i: int| 0 <= i < out.len() implies !is_start_line(#[trigger] out[i])
            && ls.contains(out[i]) by {
            if !skip_next && !is_start_line(ls[0]) && i == 0 {
                assert(out[0] == ls[0]);
            } else {
                let q = if skip_next {
                    drop_legacy(t, false)
                } else if is_start_line(ls[0]) {
                    drop_legacy(t, true)
                } else {
                    drop_legacy(t, false)
                };
                let k = if !skip_next && !is_start_line(ls[0]) {
                    i - 1
                } else {
                    i
                };
                assert(out[i] == q[k]);
                let j = choose|j: int| 0 <= j < t.len() && t[j] == q[k];
                assert(ls[j + 1] == out[i]);
            }
        }
    }
}

/// A tnote block as setup writes it: read with its final line break, its
/// first line opens the block, its last line closes it, and no line between
/// closes it.
pub open spec fn is_tnote_block(b: Seq<char>) -> bool {
    let ls = lines(b + seq!['\n']);
    &&& ls.len() >= 2
    &&& is_start_line(ls[0])
    &&& is_end_line(ls.last())
    &&& forall|i: int| 0 < i < ls.len() - 1 ==> !is_end_line(#[trigger] ls[i])
}

proof fn lemma_block_dropped(b: Seq<char>)
    requires
        is_tnote_block(b),
    ensures
        drop_blocks(lines(b + seq!['\n']), false) == Seq::<Seq<char>>::empty(),
{
    let ls = lines(b + seq!['\n']);
    let mid = ls.subrange(1, ls.len() - 1);
    let e = seq![ls.last()];
    assert forall|i: int| 0 <= i < mid.len() implies !is_end_line(#[trigger] mid[i]) by {
        assert(mid[i] == ls[i + 1]);
    }
    lemma_drop_blocks_inside(mid, e);
    assert(ls.drop_first() =~= mid + e);
    assert(e.drop_first() =~= Seq::<Seq<char>>::empty());
    assert(e[0] == ls.last());
    assert(drop_blocks(e, true) == drop_blocks(Seq::<Seq<char>>::empty(), false));
    assert(drop_blocks(ls, false) == drop_blocks(ls.drop_first(), true));
}

/// Uninstalling undoes setup: adding a tnote block to an rc file and then
/// removing the tnote block gives what removing the block from the original
/// file gives (for a file that is empty or ends with a line break, none of
/// whose lines ends with a carriage return).
pub proof fn lemma_remove_undoes_add_shell_binding(content: Seq<char>, binding: Seq<char>)
    requires
        content.len() == 0 || content.last() == '\n',
        forall|i: int|
            0 <= i < lines(content).len() ==> crate::text::strip_cr(#[trigger] lines(content)[i])
                == lines(content)[i],
        is_tnote_block(binding),
    ensures
        shell_block_removed(with_binding(content, binding)) == shell_block_removed(content),
{
    let ls = lines(content);
    let kc = kept_lines(content);
    let out = join(kc, seq!['\n']);
    let c = shell_block_removed(content);
    let bl = lines(binding + seq!['\n']);
    lemma_drop_blocks_kept(ls, false);
    lemma_drop_legacy_kept(ls, false);
    crate::text::lemma_lines_lack_newline(content);
    assert forall|i: int| 0 <= i < kc.len() implies !is_start_line(#[trigger] kc[i]) && !kc[i].contains(
        '\n',
    ) && crate::text::strip_cr(kc[i]) == kc[i] by {
        let j = choose|j: int| 0 <= j < ls.len() && ls[j] == kc[i];
    }
    lemma_block_dropped(binding);
    assert(is_start_line(bl[0]) && is_end_line(bl[bl.len() - 1]));
    let w = with_binding(content, binding);
    if out.len() == 0 {
        assert(c == out);
        assert(w =~= binding + seq!['\n']);
        assert(has_end_marker(lines(w)));
        assert(kept_lines(w) == Seq::<Seq<char>>::empty());
        assert(join(Seq::<Seq<char>>::empty(), seq!['\n']) == Seq::<char>::empty());
    } else {
        assert(kc.len() > 0);
        assert(c == out.push('\n'));
        assert(w =~= (out + seq!['\n']) + (binding + seq!['\n']));
        crate::text::lemma_lines_of_joined(kc);
        crate::text::lemma_lines_append(out + seq!['\n'], binding + seq!['\n']);
        assert(lines(w) == kc + bl);
        let n = kc.len() as int;
        assert((kc + bl)[n] == bl[0]);
        assert((kc + bl)[n + bl.len() - 1] == bl[bl.len() - 1]);
        assert(has_end_marker(lines(w)));
        lemma_drop_blocks_prefix(kc, bl);
        assert(kept_lines(w) =~= kc);
        assert(w.last() == '\n');
    }
}

proof fn lemma_marker_lines()
    ensures
        !SHELL_MARKER@.contains('\n'),
        crate::text::strip_cr(SHELL_MARKER@) == SHELL_MARKER@,
        is_start_line(SHELL_MARKER@),
        !SHELL_END_MARKER@.contains('\n'),
        crate::text::strip_cr(SHELL_END_MARKER@) == SHELL_END_MARKER@,
        is_end_line(SHELL_END_MARKER@),
        SHELL_END_MARKER@.len() > 0,
        SHELL_END_MARKER@[0] == '#',
{
    reveal_strlit("# tnote keybinding — managed by 'tnote setup' / 'tnote uninstall'");
    reveal_strlit("# end tnote keybinding");
    crate::text::lemma_trim_plain(SHELL_MARKER@);
    crate::text::lemma_trim_plain(SHELL_END_MARKER@);
}

/// A block made of the start marker, a head whose first character is a line
/// break and whose last line starts with neither whitespace nor `#`, a key
/// line, and the end marker is a tnote block when no `#` occurs in the head
/// and no line break in the key.
proof fn lemma_block_shape(head: Seq<char>, pre: Seq<char>, key: Seq<char>, tail: Seq<char>, k: int)
    requires
        1 <= k,
        k + 1 < head.len(),
        head[0] == '\n',
        head[k] == '\n',
        forall|j: int| k < j < head.len() ==> head[j] != '\n',
        !crate::text::is_ws(head[k + 1]),
        head[k + 1] != '#',
        !head.contains('#'),
        !pre.contains('\n'),
        !key.contains('\n'),
        tail.len() >= 2,
        tail.last() == '\n',
        forall|j: int| 0 <= j < tail.len() - 1 ==> tail[j] != '\n',
        tail[tail.len() - 2] != '\r',
    ensures
        is_tnote_block(SHELL_MARKER@ + head + pre + key + tail + SHELL_END_MARKER@),
{
    let m = SHELL_MARKER@;
    let e = SHELL_END_MARKER@;
    let nl = seq!['\n'];
    lemma_marker_lines();
    let h1 = head.subrange(1, k + 1);
    let h2 = head.skip(k + 1);
    let t1 = tail.drop_last();
    let kl = h2 + pre + key + t1;
    assert(head =~= nl + h1 + h2);
    assert(tail =~= t1 + nl);
    let b = m + head + pre + key + tail + e;
    let rest = (kl + nl) + (e + nl);
    assert(b + nl =~= (m + nl) + (h1 + rest));
    assert(!kl.contains('\n')) by {
        if kl.contains('\n') {
            let j = choose|j: int| 0 <= j < kl.len() && kl[j] == '\n';
            if j < h2.len() {
                assert(head[k + 1 + j] == '\n');
            } else if j < h2.len() + pre.len() {
                assert(pre[j - h2.len()] == '\n');
            } else if j < h2.len() + pre.len() + key.len() {
                assert(key[j - h2.len() - pre.len()] == '\n');
            } else {
                assert(tail[j - h2.len() - pre.len() - key.len()] == '\n');
            }
        }
    }
    assert(kl.last() == tail[tail.len() - 2]);
    crate::text::lemma_line_single(m);
    crate::text::lemma_line_single(kl);
    crate::text::lemma_line_single(e);
    crate::text::lemma_lines_append(kl + nl, e + nl);
    assert(h1.last() == '\n');
    crate::text::lemma_lines_append(h1, rest);
    crate::text::lemma_lines_append(m + nl, h1 + rest);
    let ls = lines(b + nl);
    let hl = lines(h1);
    assert(ls =~= seq![m] + hl + seq![kl] + seq![e]);
    crate::text::lemma_lines_within(h1);
    assert forall|i: int| 0 < i < ls.len() - 1 implies !is_end_line(#[trigger] ls[i]) by {
        let l = ls[i];
        crate::text::lemma_trim_front(l);
        if i <= hl.len() {
            assert(l == hl[i - 1]);
            if is_end_line(l) {
                assert(trim(l)[0] == '#');
                assert(trim(l).contains('#'));
                assert(l.contains('#'));
                assert(hl[i - 1].contains('#'));
                let j = choose|j: int| 0 <= j < h1.len() && h1[j] == '#';
                assert(head[j + 1] == '#');
            }
        } else {
            assert(l == kl);
            assert(kl[0] == head[k + 1]);
        }
    }
}

/// The block that setup writes for a shell is a tnote block, for a key
/// without a line break.
pub proof fn lemma_shell_binding_is_block(shell: Seq<char>, key: Seq<char>)
    requires
        binding_of(shell, key) is Some,
        !key.contains('\n'),
    ensures
        is_tnote_block(binding_of(shell, key)->0),
{
    reveal_strlit("\\C-");
    assert(!"\\C-"@.contains('\n'));
    if shell == "zsh"@ {
        reveal_strlit("\n_tnote_toggle() {\nlocal j p\nj=$(jobs -l 2>/dev/null | awk 'tolower($0)~/tnote/ && tolower($0)~/stop|suspend/ {gsub(/[\\[\\]+-]/,\"\",$1);print $1;exit}')\np=$(jobs -l 2>/dev/null | awk '!/tnote/ && tolower($0)~/stop|suspend/ {for(i=1;i<=NF;i++) if($i~/^[0-9]+$/ && $i+0>100){print $i;exit}}')\nif [ -n \"$p\" ]; then echo \"$p\" > \"/tmp/tnote-swap-target-$$\"\nelse rm -f \"/tmp/tnote-swap-target-$$\"; fi\nif [ -n \"$j\" ]; then fg %\"$j\"\nelse tnote; fi\nzle reset-prompt\n}\n_tnote_precmd() {\nlocal f=\"/tmp/tnote-swap-$$\"\n[ -f \"$f\" ] || return\nlocal spid; spid=$(cat \"$f\"); rm -f \"$f\"\n[ -n \"$spid\" ] || return\nlocal j; j=$(jobs -l 2>/dev/null | awk -v p=\"$spid\" '$0~p && tolower($0)~/stop|suspend/ {gsub(/[\\[\\]+-]/,\"\",$1);print $1;exit}')\n[ -n \"$j\" ] && fg %\"$j\" 2>/dev/null\n}\nzle -N _tnote_toggle\nprecmd_functions+=(_tnote_precmd)\nif [ -z \"$TMUX\" ]; then bindkey '");
        reveal_strlit("' _tnote_toggle; fi\n");
        assert(!ZSH_HEAD@.contains('#'));
        lemma_block_shape(ZSH_HEAD@, "\\C-"@, key, ZSH_TAIL@, 813);
        assert(SHELL_MARKER@ + ZSH_HEAD@ + "\\C-"@ + key + ZSH_TAIL@ + SHELL_END_MARKER@
            == binding_of(shell, key)->0);
    } else if shell == "bash"@ {
        reveal_strlit("\n_tnote_toggle() {\nlocal j p\nj=$(jobs -l 2>/dev/null | awk 'tolower($0)~/tnote/ && tolower($0)~/stop|suspend/ {gsub(/[\\[\\]+-]/,\"\",$1);print $1;exit}')\np=$(jobs -l 2>/dev/null | awk '!/tnote/ && tolower($0)~/stop|suspend/ {for(i=1;i<=NF;i++) if($i~/^[0-9]+$/ && $i+0>100){print $i;exit}}')\nif [ -n \"$p\" ]; then echo \"$p\" > \"/tmp/tnote-swap-target-$$\"\nelse rm -f \"/tmp/tnote-swap-target-$$\"; fi\nif [ -n \"$j\" ]; then fg %\"$j\"\nelse tnote; fi\n}\n_tnote_precmd() {\nlocal f=\"/tmp/tnote-swap-$$\"\n[ -f \"$f\" ] || return\nlocal spid; spid=$(cat \"$f\"); rm -f \"$f\"\n[ -n \"$spid\" ] || return\nlocal j; j=$(jobs -l 2>/dev/null | awk -v p=\"$spid\" '$0~p && tolower($0)~/stop|suspend/ {gsub(/[\\[\\]+-]/,\"\",$1);print $1;exit}')\n[ -n \"$j\" ] && fg %\"$j\" 2>/dev/null\n}\nif [ -z \"$PROMPT_COMMAND\" ]; then PROMPT_COMMAND=\"_tnote_precmd\"\nelse PROMPT_COMMAND=\"_tnote_precmd; $PROMPT_COMMAND\"; fi\nif [ -z \"$TMUX\" ]; then bind -x '\"");
        reveal_strlit("\":\"_tnote_toggle\"'; fi\n");
        assert(!BASH_HEAD@.contains('#'));
        lemma_block_shape(BASH_HEAD@, "\\C-"@, key, BASH_TAIL@, 863);
        assert(SHELL_MARKER@ + BASH_HEAD@ + "\\C-"@ + key + BASH_TAIL@ + SHELL_END_MARKER@
            == binding_of(shell, key)->0);
    } else {
        reveal_strlit("\nfunction _tnote_toggle\nset -l j (jobs 2>/dev/null | awk 'tolower($0)~/tnote/ && tolower($0)~/stop|suspend/ {print NR;exit}')\nset -l p (jobs 2>/dev/null | awk '!/tnote/ && tolower($0)~/stop|suspend/ {print NR;exit}')\nif test -n \"$p\"; echo \"$p\" > \"/tmp/tnote-swap-target-$fish_pid\"\nelse rm -f \"/tmp/tnote-swap-target-$fish_pid\"; end\nif test -n \"$j\"; fg $j\nelse tnote; end\ncommandline -f repaint\nend\nfunction _tnote_precmd --on-event fish_prompt\nset -l f \"/tmp/tnote-swap-$fish_pid\"\ntest -f \"$f\" || return\nset -l spid (cat \"$f\"); rm -f \"$f\"\ntest -n \"$spid\" || return\nset -l j (jobs 2>/dev/null | awk -v p=\"$spid\" 'NR>1 && $0~p {print NR-1;exit}')\ntest -n \"$j\"; and fg $j 2>/dev/null\nend\nif not set -q TMUX; bind \\c");
        reveal_strlit(" '_tnote_toggle'; end\n");
        assert(!FISH_HEAD@.contains('#'));
        assert(SHELL_MARKER@ + FISH_HEAD@ + Seq::<char>::empty() + key + FISH_TAIL@
            + SHELL_END_MARKER@ == binding_of(shell, key)->0);
        assert(!Seq::<char>::empty().contains('\n'));
        lemma_block_shape(FISH_HEAD@, Seq::<char>::empty(), key, FISH_TAIL@, 684);
    }
}

/// Uninstall undoes setup for every supported shell: removing the tnote
/// block from an rc file that setup gave the block for `shell` and `key`
/// leaves what removing it from the original file leaves (for a key without
/// a line break, and a file that is empty or ends with a line break, none of
/// whose lines ends with a carriage return).
pub proof fn lemma_uninstall_undoes_setup(content: Seq<char>, shell: Seq<char>, key: Seq<char>)
    requires
        content.len() == 0 || content.last() == '\n',
        forall|i: int|
            0 <= i < lines(content).len() ==> crate::text::strip_cr(#[trigger] lines(content)[i])
                == lines(content)[i],
        binding_of(shell, key) is Some,
        !key.contains('\n'),
    ensures
        shell_block_removed(with_binding(content, binding_of(shell, key)->0))
            == shell_block_removed(content),
{
    lemma_shell_binding_is_block(shell, key);
    lemma_remove_undoes_add_shell_binding(content, binding_of(shell, key)->0);
}

/// Removing the block that setup appended gives back exactly the rc file as
/// it was before setup, for a file without carriage returns that is empty or
/// ends with a line break (other than a lone line break) and holds no start
/// marker line, and a key without a line break.
pub proof fn lemma_remove_after_setup_gives_back(content: Seq<char>, shell: Seq<char>, key: Seq<char>)
    requires
        !content.contains('\r'),
        content.len() == 0 || (content.last() == '\n' && content != seq!['\n']),
        forall|i: int| 0 <= i < lines(content).len() ==> !is_start_line(#[trigger] lines(content)[i]),
        binding_of(shell, key) is Some,
        !key.contains('\n'),
    ensures
        shell_block_removed(with_binding(content, binding_of(shell, key)->0)) == content,
{
    if content.len() == 0 {
        assert(split_on(content, '\n') == seq![Seq::<char>::empty()]);
        assert(lines(content) =~= Seq::<Seq<char>>::empty());
        assert(join(lines(content), seq!['\n']) == content);
        assert(normal_text(content));
    } else {
        crate::text::lemma_plain_text_lines(content);
        assert(normal_text(content));
    }
    lemma_uninstall_undoes_setup(content, shell, key);
    lemma_remove_shell_block_noop(content);
}

// ───────────────────────────── the previous binding ─────────────────────────────

/// The leading run of non-whitespace characters.
pub open spec fn word_prefix(t: Seq<char>) -> Seq<char>
    decreases t.len(),
{
    if t.len() == 0 || crate::text::is_ws(t[0]) {
        Seq::<char>::empty()
    } else {
        seq![t[0]] + word_prefix(t.drop_first())
    }
}

/// The first whitespace-separated word (`split_whitespace().next()`).
pub open spec fn first_word(s: Seq<char>) -> Option<Seq<char>> {
    let t = crate::text::trim_start(s);
    if t.len() == 0 {
        None
    } else {
        Some(word_prefix(t))
    }
}

/// The key a `bind-key <key> …` line binds.
pub open spec fn bind_key_of(l: Seq<char>) -> Option<Seq<char>> {
    match crate::text::strip_prefix(l, "bind-key "@) {
        Some(rest) => first_word(rest),
        None => None,
    }
}

/// The key of the first `bind-key` line.
pub open spec fn first_bind_key(ls: Seq<Seq<char>>) -> Option<Seq<char>>
    decreases ls.len(),
{
    if ls.len() == 0 {
        None
    } else {
        match bind_key_of(ls[0]) {
            Some(k) => Some(k),
            None => first_bind_key(ls.drop_first()),
        }
    }
}

fn first_word_exec(s: &[char]) -> (r: Option<Vec<char>>)
    ensures
        match r {
            Some(w) => first_word(s@) == Some(w@),
            None => first_word(s@) is None,
        },
{
    let lo = crate::text::trim_start_index(s);
    let n = s.len();
    if lo == n {
        return None;
    }
    let ghost t = s@.skip(lo as int);
    let mut i = lo;
    proof {
        assert(t.take(0) =~= Seq::<char>::empty());
        assert(t.skip(0) =~= t);
    }
    while i < n && !crate::text::is_ws_exec(s[i])
        invariant
            n == s@.len(),
            lo <= i <= n,
            t == s@.skip(lo as int),
            word_prefix(t) == t.take(i - lo) + word_prefix(t.skip(i - lo)),
        decreases n - i,
    {
        proof {
            let u = t.skip(i - lo);
            assert(u[0] == s@[i as int]);
            assert(u.drop_first() =~= t.skip(i - lo + 1));
            assert(t.take(i - lo + 1) =~= t.take(i - lo) + seq![u[0]]);
        }
        i = i + 1;
    }
    proof {
        assert(word_prefix(t.skip(i - lo)) == Seq::<char>::empty());
        assert(s@.subrange(lo as int, i as int) =~= t.take(i - lo));
    }
    Some(crate::text::slice_copy(s, lo, i))
}

/// The key the tmux configuration `conf` binds (its first `bind-key` line).
pub fn old_bind_key(conf: &str) -> (r: Option<String>)
    ensures
        opt_view(r) == first_bind_key(lines(conf@)),
{
    let cv = chars_of(conf);
    let ls = lines_of(cv.as_slice());
    let ghost lv = views(ls@);
    let n = ls.len();
    let mut i: usize = 0;
    proof {
        assert(lv.skip(0) =~= lv);
    }
    while i < n
        invariant
            n == ls@.len() == lv.len(),
            lv == views(ls@),
            lv == lines(conf@),
            0 <= i <= n,
            first_bind_key(lv) == first_bind_key(lv.skip(i as int)),
        decreases n - i,
    {
        proof {
            assert(lv.skip(i as int)[0] == ls@[i as int]@);
            assert(lv.skip(i as int).drop_first() =~= lv.skip(i + 1));
        }
        match crate::text::strip_prefix_str(ls[i].as_slice(), "bind-key ") {
            Some(rest) => match first_word_exec(rest.as_slice()) {
                Some(w) => {
                    return Some(string_of(w.as_slice()));
                },
                None => {},
            },
            None => {},
        }
        i = i + 1;
    }
    None
}

/// The key to unbind before binding `key`: the one the previous tmux
/// configuration (when it could be read) bound, if it differs.
pub fn stale_bind_key(old_conf: Option<&str>, key: &str) -> (r: Option<String>)
    ensures
        opt_view(r) == match old_conf {
            Some(c) => match first_bind_key(lines(c@)) {
                Some(k) => if k != key@ {
                    Some(k)
                } else {
                    None
                },
                None => None,
            },
            None => None,
        },
{
    match old_conf {
        Some(c) => match old_bind_key(c) {
            Some(k) => {
                let kv = chars_of(k.as_str());
                if eq_str(kv.as_slice(), key) {
                    None
                } else {
                    Some(k)
                }
            },
            None => None,
        },
        None => None,
    }
}

} // verus!
