//! The notes directory: where each note lives, what a key resolves to, and
//! the plans that naming, unbinding, cleaning and listing carry out.
//!
//! Layout: `<dir>/<key>.md` for unnamed notes, `<dir>/named-<name>.md` for
//! named ones, and `<dir>/meta/<key>.link` holding the name a key is bound to.
//! The application reads and writes these files; the functions here decide.

use vstd::prelude::*;
use crate::text::{
    chars_of, concat_str, extend, extend_str, has_prefix, has_suffix, join_path, joined_path,
    lines, lines_of, member, parse_unsigned, parse_unsigned_exec, starts_with_str, str_concat,
    str_views, string_of, strip_prefix, strip_prefix_str, strip_suffix, strip_suffix_str, trim,
    trim_str, views,
};
use crate::tmux::{label_views, lookup_label, window_display_label, WindowLabel};

verus! {

/// Which notes `tnote clean` removes besides the orphaned ones.
#[derive(Clone, Copy, PartialEq, Eq, Debug, Structural)]
pub enum ClearScope {
    /// Remove files without a recognized prefix (tmux-, shell-, named-)
    Unprefixed,
    /// Remove all named notes
    Named,
    /// Remove all tmux-keyed notes regardless of window liveness
    Tmux,
    /// Remove all notes
    All,
}

/// The notes directory.
pub struct Notes {
    pub dir: String,
}

/// `<dir>/meta`.
pub open spec fn meta_of(dir: Seq<char>) -> Seq<char> {
    joined_path(dir, "meta"@)
}

/// `<dir>/<key>.md`.
pub open spec fn key_file_of(dir: Seq<char>, key: Seq<char>) -> Seq<char> {
    joined_path(dir, key + ".md"@)
}

/// `<dir>/named-<name>.md`.
pub open spec fn named_file_of(dir: Seq<char>, name: Seq<char>) -> Seq<char> {
    joined_path(dir, "named-"@ + name + ".md"@)
}

/// `<dir>/meta/<key>.link`.
pub open spec fn link_file_of(dir: Seq<char>, key: Seq<char>) -> Seq<char> {
    joined_path(meta_of(dir), key + ".link"@)
}

/// `<dir>/meta/<key>.pid`.
pub open spec fn pid_file_of(dir: Seq<char>, key: Seq<char>) -> Seq<char> {
    joined_path(meta_of(dir), key + ".pid"@)
}

impl Notes {
    pub fn new(dir: String) -> (r: Notes)
        ensures
            r.dir@ == dir@,
    {
        Notes { dir }
    }

    /// `~/.tnote/meta/` — stores .link, .pid, and tmux.conf (non-note files).
    pub fn meta_dir(&self) -> (r: String)
        ensures
            r@ == meta_of(self.dir@),
    {
        let d = chars_of(self.dir.as_str());
        let m = chars_of("meta");
        string_of(join_path(d.as_slice(), m.as_slice()).as_slice())
    }

    /// The file of the unnamed note of `key`.
    pub fn key_file(&self, key: &str) -> (r: String)
        ensures
            r@ == key_file_of(self.dir@, key@),
    {
        let d = chars_of(self.dir.as_str());
        let mut f = chars_of(key);
        extend_str(&mut f, ".md");
        string_of(join_path(d.as_slice(), f.as_slice()).as_slice())
    }

    /// The file of the named note `name`.
    pub fn named_file(&self, name: &str) -> (r: String)
        ensures
            r@ == named_file_of(self.dir@, name@),
    {
        let d = chars_of(self.dir.as_str());
        let mut f = chars_of("named-");
        extend_str(&mut f, name);
        extend_str(&mut f, ".md");
        string_of(join_path(d.as_slice(), f.as_slice()).as_slice())
    }

    /// The link file recording the name `key` is bound to.
    pub fn link_file(&self, key: &str) -> (r: String)
        ensures
            r@ == link_file_of(self.dir@, key@),
    {
        let m = chars_of(self.meta_dir().as_str());
        let mut f = chars_of(key);
        extend_str(&mut f, ".link");
        string_of(join_path(m.as_slice(), f.as_slice()).as_slice())
    }

    /// The pid file kept beside a key's link file.
    pub fn pid_file(&self, key: &str) -> (r: String)
        ensures
            r@ == pid_file_of(self.dir@, key@),
    {
        let m = chars_of(self.meta_dir().as_str());
        let mut f = chars_of(key);
        extend_str(&mut f, ".pid");
        string_of(join_path(m.as_slice(), f.as_slice()).as_slice())
    }

    /// Resolve the note file for a window key, following its link file for
    /// named notes: `link` is the link file's content when it exists and
    /// could be read.
    pub fn file_for_key(&self, key: &str, link: Option<&str>) -> (r: String)
        ensures
            r@ == match link {
                Some(name) => named_file_of(self.dir@, trim(name@)),
                None => key_file_of(self.dir@, key@),
            },
    {
        match link {
            Some(name) => {
                let t = trim_str(name);
                let s = string_of(t.as_slice());
                self.named_file(s.as_str())
            },
            None => self.key_file(key),
        }
    }

    /// Return the display label for a key: the name it is bound to (`link`,
    /// the link file's content), else a tmux window's `session+index` label
    /// from `labels`, else the key itself.
    pub fn label_for_key(&self, key: &str, link: Option<&str>, labels: &Vec<WindowLabel>) -> (r:
        String)
        ensures
            r@ == label_of(key@, link_view(link), label_views(labels@)),
    {
        match link {
            Some(name) => string_of(trim_str(name).as_slice()),
            None => {
                let kv = chars_of(key);
                if starts_with_str(kv.as_slice(), "tmux-") {
                    match window_display_label(labels, key) {
                        Some(l) => {
                            return l;
                        },
                        None => {},
                    }
                }
                string_of(kv.as_slice())
            },
        }
    }

    /// What naming the window `key` as `name` does, given whether its unnamed
    /// note exists with content (`old_has_content`) and whether the named note
    /// exists already (`named_exists`). Existing unnamed content moves to the
    /// named note unless that note exists; the named note is created empty
    /// when nothing else provides it; the link file records the name.
    pub fn name_window(&self, key: &str, name: &str, old_has_content: bool, named_exists: bool) -> (r:
        NamePlan)
        ensures
            r.migrate == migrates(old_has_content, named_exists),
            r.create_empty == creates_empty(old_has_content, named_exists),
            r.old_file@ == key_file_of(self.dir@, key@),
            r.new_file@ == named_file_of(self.dir@, name@),
            r.link_file@ == link_file_of(self.dir@, key@),
            r.link_content@ == name@,
    {
        NamePlan {
            migrate: old_has_content && !named_exists,
            create_empty: !old_has_content && !named_exists,
            old_file: self.key_file(key),
            new_file: self.named_file(name),
            link_file: self.link_file(key),
            link_content: string_of(chars_of(name).as_slice()),
        }
    }
}

pub open spec fn link_view(link: Option<&str>) -> Option<Seq<char>> {
    match link {
        Some(n) => Some(n@),
        None => None,
    }
}

/// The label of a key: its bound name, a tmux window label, or the key.
pub open spec fn label_of(key: Seq<char>, link: Option<Seq<char>>, labels: Seq<(Seq<char>, Seq<char>)>) -> Seq<char> {
    match link {
        Some(name) => trim(name),
        None => if has_prefix(key, "tmux-"@) && lookup_label(labels, key) is Some {
            lookup_label(labels, key)->0
        } else {
            key
        },
    }
}

/// The steps of naming a window's note: move `old_file` to `new_file` when
/// `migrate`, create `new_file` empty when `create_empty`, then write
/// `link_content` to `link_file`.
pub struct NamePlan {
    pub migrate: bool,
    pub create_empty: bool,
    pub old_file: String,
    pub new_file: String,
    pub link_file: String,
    pub link_content: String,
}

/// Naming moves the unnamed note's content when it has some and the named
/// note does not exist yet.
pub open spec fn migrates(old_has_content: bool, named_exists: bool) -> bool {
    old_has_content && !named_exists
}

/// Naming creates the named note empty when nothing else provides it.
pub open spec fn creates_empty(old_has_content: bool, named_exists: bool) -> bool {
    !old_has_content && !named_exists
}

/// After naming, the window's key leads to the named note and shows the
/// name: the link content that naming writes, read back, resolves to the
/// named file and labels the key (for a name without surrounding whitespace).
pub proof fn lemma_naming_binds_key(
    dir: Seq<char>,
    key: Seq<char>,
    name: Seq<char>,
    labels: Seq<(Seq<char>, Seq<char>)>,
)
    requires
        trim(name) == name,
    ensures
        named_file_of(dir, trim(name)) == named_file_of(dir, name),
        label_of(key, Some(name), labels) == name,
{
}

/// After naming, the named note exists (so it shows in `tnote list`), and it
/// was provided by exactly one of: itself already, a move, or a new empty file.
pub proof fn lemma_named_note_exists_after_naming(old_has_content: bool, named_exists: bool)
    ensures
        migrates(old_has_content, named_exists) || creates_empty(old_has_content, named_exists)
            || named_exists,
        !(migrates(old_has_content, named_exists) && creates_empty(old_has_content, named_exists)),
        named_exists ==> !migrates(old_has_content, named_exists) && !creates_empty(
            old_has_content,
            named_exists,
        ),
{
}

// ───────────────────────────── cleaning ─────────────────────────────

/// The stem a directory entry contributes to cleaning: its name without a
/// `.md` or `.link` suffix.
pub open spec fn entry_stem(name: Seq<char>) -> Option<Seq<char>> {
    match strip_suffix(name, ".md"@) {
        Some(s) => Some(s),
        None => strip_suffix(name, ".link"@),
    }
}

/// Named notes are only considered when the scope asks for them.
pub open spec fn considered(scope: Option<ClearScope>, stem: Seq<char>) -> bool {
    !has_prefix(stem, "named-"@) || scope == Some(ClearScope::Named) || scope == Some(
        ClearScope::All,
    )
}

/// `stem` comes from some entry of the notes directory or its `meta`
/// directory (`names`) and is considered under `scope`.
pub open spec fn candidate(names: Seq<Seq<char>>, scope: Option<ClearScope>, stem: Seq<char>) -> bool {
    considered(scope, stem) && exists|j: int|
        0 <= j < names.len() && #[trigger] entry_stem(names[j]) == Some(stem)
}

/// Whether the note `stem` is orphaned (or selected by `scope`):
/// `shell-<pid>` when the process is gone, `tmux-…` when its window is gone
/// or a link supersedes its raw note, `named-…` always (it is only considered
/// under a scope that asks for it), and other notes under the
/// `unprefixed` or `all` scope.
pub open spec fn orphaned(
    stem: Seq<char>,
    scope: Option<ClearScope>,
    root: Seq<Seq<char>>,
    meta: Seq<Seq<char>>,
    live: Seq<Seq<char>>,
    alive: Seq<u32>,
) -> bool {
    match strip_prefix(stem, "shell-"@) {
        Some(pid) => scope == Some(ClearScope::All) || (parse_unsigned(pid, u32::MAX as nat) matches Some(
            v,
        ) && !alive.contains(v as u32)),
        None => if has_prefix(stem, "tmux-"@) {
            (meta.contains(stem + ".link"@) && root.contains(stem + ".md"@)) || scope == Some(
                ClearScope::Tmux,
            ) || scope == Some(ClearScope::All) || !live.contains(stem)
        } else if has_prefix(stem, "named-"@) {
            true
        } else {
            scope == Some(ClearScope::Unprefixed) || scope == Some(ClearScope::All)
        },
    }
}

/// A tmux note whose window is alive and whose key is bound by a link is
/// removed only as a raw note: its link stays.
pub open spec fn keeps_link(stem: Seq<char>, meta: Seq<Seq<char>>, live: Seq<Seq<char>>) -> bool {
    has_prefix(stem, "tmux-"@) && meta.contains(stem + ".link"@) && live.contains(stem)
}

/// A note that cleaning removes: its `.md` file, and unless `keep_link` its
/// `.link` and `.pid` files.
pub struct Orphan {
    pub stem: String,
    pub keep_link: bool,
}

pub open spec fn orphan_stems(v: Seq<Orphan>) -> Seq<Seq<char>> {
    v.map_values(|o: Orphan| o.stem@)
}

pub open spec fn no_duplicates(s: Seq<Seq<char>>) -> bool {
    forall|a: int, b: int| 0 <= a < b < s.len() ==> s[a] != s[b]
}

/// A plain clean (no scope) only removes what is orphaned: named notes
/// persist, the note of a shell whose process is alive stays, the note of a
/// live tmux window with no link stays, and notes without a known prefix stay.
pub proof fn lemma_plain_clean_keeps_live_notes(
    names: Seq<Seq<char>>,
    stem: Seq<char>,
    root: Seq<Seq<char>>,
    meta: Seq<Seq<char>>,
    live: Seq<Seq<char>>,
    alive: Seq<u32>,
)
    ensures
        has_prefix(stem, "named-"@) ==> !candidate(names, None, stem),
        (strip_prefix(stem, "shell-"@) matches Some(pid) && (parse_unsigned(
            pid,
            u32::MAX as nat,
        ) matches Some(v) && alive.contains(v as u32))) ==> !orphaned(
            stem,
            None,
            root,
            meta,
            live,
            alive,
        ),
        (has_prefix(stem, "tmux-"@) && live.contains(stem) && !meta.contains(stem + ".link"@))
            ==> !orphaned(stem, None, root, meta, live, alive),
        (strip_prefix(stem, "shell-"@) is None && !has_prefix(stem, "tmux-"@) && !has_prefix(
            stem,
            "named-"@,
        )) ==> !orphaned(stem, None, root, meta, live, alive),
{
    if has_prefix(stem, "tmux-"@) {
        reveal_strlit("tmux-");
        reveal_strlit("shell-");
        assert(stem.take(5)[0] == 't');
        if has_prefix(stem, "shell-"@) {
            assert(stem.take(6)[0] == 's');
        }
    }
}

/// What each cleaning scope removes: a note without a `shell-`, `tmux-` or
/// `named-` prefix goes only under the `unprefixed` or `all` scope (and then
/// always); a named note is only considered under the `named` or `all`
/// scope; the note of a live shell stays unless the scope is `all`; the note
/// of a live tmux window with no link stays unless the scope is `tmux` or
/// `all`, and the `tmux` scope removes every tmux note; the `all` scope
/// removes every note it considers.
pub proof fn lemma_clean_scopes(
    names: Seq<Seq<char>>,
    stem: Seq<char>,
    scope: Option<ClearScope>,
    root: Seq<Seq<char>>,
    meta: Seq<Seq<char>>,
    live: Seq<Seq<char>>,
    alive: Seq<u32>,
)
    ensures
        (strip_prefix(stem, "shell-"@) is None && !has_prefix(stem, "tmux-"@) && !has_prefix(
            stem,
            "named-"@,
        )) ==> (orphaned(stem, scope, root, meta, live, alive) <==> (scope == Some(
            ClearScope::Unprefixed,
        ) || scope == Some(ClearScope::All))),
        (has_prefix(stem, "named-"@) && scope != Some(ClearScope::Named) && scope != Some(
            ClearScope::All,
        )) ==> !candidate(names, scope, stem),
        (strip_prefix(stem, "shell-"@) matches Some(pid) && (parse_unsigned(
            pid,
            u32::MAX as nat,
        ) matches Some(v) && alive.contains(v as u32)) && scope != Some(ClearScope::All)) ==> !orphaned(
            stem,
            scope,
            root,
            meta,
            live,
            alive,
        ),
        (has_prefix(stem, "tmux-"@) && live.contains(stem) && !meta.contains(stem + ".link"@)
            && scope != Some(ClearScope::Tmux) && scope != Some(ClearScope::All)) ==> !orphaned(
            stem,
            scope,
            root,
            meta,
            live,
            alive,
        ),
        (has_prefix(stem, "tmux-"@) && scope == Some(ClearScope::Tmux)) ==> orphaned(
            stem,
            scope,
            root,
            meta,
            live,
            alive,
        ),
        scope == Some(ClearScope::All) ==> orphaned(stem, scope, root, meta, live, alive),
{
    if has_prefix(stem, "tmux-"@) {
        reveal_strlit("tmux-");
        reveal_strlit("shell-");
        assert(stem.take(5)[0] == 't');
        if has_prefix(stem, "shell-"@) {
            assert(stem.take(6)[0] == 's');
        }
    }
}

fn entry_stem_exec(name: &[char]) -> (r: Option<Vec<char>>)
    ensures
        match r {
            Some(s) => entry_stem(name@) == Some(s@),
            None => entry_stem(name@) is None,
        },
{
    match strip_suffix_str(name, ".md") {
        Some(s) => Some(s),
        None => strip_suffix_str(name, ".link"),
    }
}

fn considered_exec(scope: Option<ClearScope>, stem: &[char]) -> (b: bool)
    ensures
        b == considered(scope, stem@),
{
    !starts_with_str(stem, "named-") || scope == Some(ClearScope::Named) || scope == Some(
        ClearScope::All,
    )
}

fn contains_pid(v: &Vec<u32>, x: u32) -> (b: bool)
    ensures
        b == v@.contains(x),
{
    let n = v.len();
    let mut i: usize = 0;
    while i < n
        invariant
            n == v@.len(),
            0 <= i <= n,
            forall|j: int| 0 <= j < i ==> v@[j] != x,
        decreases n - i,
    {
        if v[i] == x {
            proof {
                assert(v@[i as int] == x);
            }
            return true;
        }
        i = i + 1;
    }
    false
}

/// The distinct stems considered for cleaning, in order of first appearance.
fn candidate_stems(names: &Vec<Vec<char>>, scope: Option<ClearScope>) -> (r: Vec<Vec<char>>)
    ensures
        no_duplicates(views(r@)),
        forall|s: Seq<char>| views(r@).contains(s) <==> candidate(views(names@), scope, s),
{
    let ghost nv = views(names@);
    let n = names.len();
    let mut r: Vec<Vec<char>> = Vec::new();
    let mut i: usize = 0;
    while i < n
        invariant
            n == names@.len() == nv.len(),
            nv == views(names@),
            0 <= i <= n,
            no_duplicates(views(r@)),
            forall|s: Seq<char>|
                views(r@).contains(s) <==> candidate(nv.take(i as int), scope, s),
        decreases n - i,
    {
        let ghost before = views(r@);
        let ghost ni = nv.take(i as int);
        let ghost ni1 = nv.take(i + 1);
        proof {
            assert(nv[i as int] == names@[i as int]@);
            assert(ni1[i as int] == nv[i as int]);
            assert forall|j: int| 0 <= j < i implies ni1[j] == ni[j] by {}
        }
        let st = entry_stem_exec(names[i].as_slice());
        let mut added = false;
        match st {
            Some(stem) => {
                if considered_exec(scope, stem.as_slice()) && !member(&r, stem.as_slice()) {
                    r.push(stem);
                    added = true;
                }
            },
            None => {},
        }
        proof {
            assert forall|s: Seq<char>|
                views(r@).contains(s) <==> candidate(ni1, scope, s) by {
                if candidate(ni1, scope, s) {
                    let j = choose|j: int|
                        0 <= j < ni1.len() && #[trigger] entry_stem(ni1[j]) == Some(s);
                    if j < i {
                        assert(entry_stem(ni[j]) == Some(s));
                        assert(candidate(ni, scope, s));
                        assert(before.contains(s));
                        let k = choose|k: int| 0 <= k < before.len() && before[k] == s;
                        assert(views(r@)[k] == s);
                    } else if !added {
                        assert(before.contains(s));
                        let k = choose|k: int| 0 <= k < before.len() && before[k] == s;
                        assert(views(r@)[k] == s);
                    } else {
                        assert(views(r@)[before.len() as int] == s);
                    }
                }
                if views(r@).contains(s) {
                    let k = choose|k: int| 0 <= k < views(r@).len() && views(r@)[k] == s;
                    if k < before.len() {
                        assert(before[k] == s);
                        assert(before.contains(s));
                        let j = choose|j: int|
                            0 <= j < ni.len() && #[trigger] entry_stem(ni[j]) == Some(s);
                        assert(entry_stem(ni1[j]) == Some(s));
                    } else {
                        assert(entry_stem(ni1[i as int]) == Some(s));
                    }
                }
            }
            if added {
                assert forall|a: int, b: int|
                    0 <= a < b < views(r@).len() implies views(r@)[a] != views(r@)[b] by {
                    if b == before.len() {
                        assert(views(r@)[a] == before[a]);
                        assert(!before.contains(views(r@)[b]));
                    } else {
                        assert(views(r@)[a] == before[a]);
                        assert(views(r@)[b] == before[b]);
                    }
                }
            }
        }
        i = i + 1;
    }
    proof {
        assert(nv.take(n as int) =~= nv);
    }
    r
}

impl Notes {
    /// Decides which notes `tnote clean` removes: orphaned ones — a shell
    /// note whose process is gone, a tmux note whose window is gone or whose
    /// raw note a link supersedes — and those the scope selects. Named notes
    /// are only considered under the `named` and `all` scopes.
    ///
    /// `root_names` and `meta_names` are the entry names of the notes
    /// directory and of its `meta` directory, `live_keys` the keys of the live
    /// tmux windows, and `alive_pids` those pids of `shell-<pid>` notes whose
    /// process still runs. Each stem is reported once.
    pub fn cleanup_orphaned(
        &self,
        scope: Option<ClearScope>,
        root_names: &Vec<String>,
        meta_names: &Vec<String>,
        live_keys: &Vec<String>,
        alive_pids: &Vec<u32>,
    ) -> (r: Vec<Orphan>)
        ensures
            no_duplicates(orphan_stems(r@)),
            forall|s: Seq<char>|
                orphan_stems(r@).contains(s) <==> (candidate(
                    str_views(root_names@) + str_views(meta_names@),
                    scope,
                    s,
                ) && orphaned(
                    s,
                    scope,
                    str_views(root_names@),
                    str_views(meta_names@),
                    str_views(live_keys@),
                    alive_pids@,
                )),
            forall|k: int|
                0 <= k < r@.len() ==> r@[k].keep_link == keeps_link(
                    r@[k].stem@,
                    str_views(meta_names@),
                    str_views(live_keys@),
                ),
    {
        let root = crate::text::char_vecs(root_names);
        let meta = crate::text::char_vecs(meta_names);
        let live = crate::text::char_vecs(live_keys);
        let ghost rv = str_views(root_names@);
        let ghost mv = str_views(meta_names@);
        let ghost lv = str_views(live_keys@);
        let mut all: Vec<Vec<char>> = Vec::new();
        let mut i: usize = 0;
        while i < root_names.len()
            invariant
                0 <= i <= root_names@.len(),
                rv == str_views(root_names@),
                views(all@) == rv.take(i as int),
            decreases root_names@.len() - i,
        {
            let ghost before = views(all@);
            let e = chars_of(root_names[i].as_str());
            all.push(e);
            proof {
                assert(e@ == rv[i as int]);
                assert(views(all@) =~= before.push(e@));
                assert(views(all@) =~= rv.take(i + 1));
            }
            i = i + 1;
        }
        let mut i: usize = 0;
        while i < meta_names.len()
            invariant
                0 <= i <= meta_names@.len(),
                rv == str_views(root_names@),
                mv == str_views(meta_names@),
                views(all@) == rv + mv.take(i as int),
            decreases meta_names@.len() - i,
        {
            let ghost before = views(all@);
            let e = chars_of(meta_names[i].as_str());
            all.push(e);
            proof {
                assert(e@ == mv[i as int]);
                assert(views(all@) =~= before.push(e@));
                assert(views(all@) =~= rv + mv.take(i + 1));
            }
            i = i + 1;
        }
        proof {
            assert(rv.take(rv.len() as int) =~= rv);
            assert(mv.take(mv.len() as int) =~= mv);
        }
        let stems = candidate_stems(&all, scope);
        let ghost sv = views(stems@);
        let n = stems.len();
        let mut out: Vec<Orphan> = Vec::new();
        let mut i: usize = 0;
        while i < n
            invariant
                n == stems@.len() == sv.len(),
                sv == views(stems@),
                no_duplicates(sv),
                views(root@) == rv,
                views(meta@) == mv,
                views(live@) == lv,
                forall|s: Seq<char>| sv.contains(s) <==> candidate(rv + mv, scope, s),
                0 <= i <= n,
                no_duplicates(orphan_stems(out@)),
                forall|s: Seq<char>|
                    orphan_stems(out@).contains(s) <==> (sv.take(i as int).contains(s) && orphaned(
                        s,
                        scope,
                        rv,
                        mv,
                        lv,
                        alive_pids@,
                    )),
                forall|k: int|
                    0 <= k < out@.len() ==> out@[k].keep_link == keeps_link(out@[k].stem@, mv, lv),
            decreases n - i,
        {
            let stem = &stems[i];
            let ghost before = orphan_stems(out@);
            let ghost t0 = sv.take(i as int);
            let ghost t1 = sv.take(i + 1);
            proof {
                assert(sv[i as int] == stem@);
            }
            let has_link = member(&meta, concat_str(stem.as_slice(), ".link").as_slice());
            let md_exists = member(&root, concat_str(stem.as_slice(), ".md").as_slice());
            let live_now = member(&live, stem.as_slice());
            let dead = match strip_prefix_str(stem.as_slice(), "shell-") {
                Some(pid) => {
                    scope == Some(ClearScope::All) || match parse_unsigned_exec(
                        pid.as_slice(),
                        0xffff_ffff,
                    ) {
                        Some(v) => !contains_pid(alive_pids, v as u32),
                        None => false,
                    }
                },
                None => {
                    if starts_with_str(stem.as_slice(), "tmux-") {
                        (has_link && md_exists) || scope == Some(ClearScope::Tmux) || scope == Some(
                            ClearScope::All,
                        ) || !live_now
                    } else if starts_with_str(stem.as_slice(), "named-") {
                        true
                    } else {
                        scope == Some(ClearScope::Unprefixed) || scope == Some(ClearScope::All)
                    }
                },
            };
            proof {
                assert(dead == orphaned(stem@, scope, rv, mv, lv, alive_pids@));
                assert(t1 =~= t0.push(stem@));
            }
            if dead {
                let keep = starts_with_str(stem.as_slice(), "tmux-") && has_link && live_now;
                out.push(Orphan { stem: string_of(stem.as_slice()), keep_link: keep });
                proof {
                    assert(orphan_stems(out@) =~= before.push(stem@));
                    assert(!t0.contains(stem@)) by {
                        if t0.contains(stem@) {
                            let k = choose|k: int|
                                0 <= k < t0.len() && t0[k] == stem@;
                            assert(sv[k] == sv[i as int]);
                        }
                    }
                    assert(!before.contains(stem@));
                    assert forall|a: int, b: int|
                        0 <= a < b < orphan_stems(out@).len() implies orphan_stems(out@)[a]
                        != orphan_stems(out@)[b] by {
                        assert(orphan_stems(out@)[a] == before[a]);
                        if b < before.len() {
                            assert(orphan_stems(out@)[b] == before[b]);
                        }
                    }
                    assert forall|s: Seq<char>|
                        orphan_stems(out@).contains(s) <==> (t1.contains(s)
                            && orphaned(s, scope, rv, mv, lv, alive_pids@)) by {
                        if orphan_stems(out@).contains(s) && s != stem@ {
                            let k = choose|k: int|
                                0 <= k < orphan_stems(out@).len() && orphan_stems(out@)[k] == s;
                            assert(before[k] == s);
                            assert(before.contains(s));
                            let q = choose|q: int|
                                0 <= q < t0.len() && t0[q] == s;
                            assert(t1[q] == s);
                        }
                        if orphan_stems(out@).contains(s) && s == stem@ {
                            assert(t1[i as int] == s);
                        }
                        if t1.contains(s) && orphaned(
                            s,
                            scope,
                            rv,
                            mv,
                            lv,
                            alive_pids@,
                        ) {
                            let q = choose|q: int|
                                0 <= q < t1.len() && t1[q] == s;
                            if q < i {
                                assert(t0[q] == s);
                                assert(before.contains(s));
                                let k = choose|k: int| 0 <= k < before.len() && before[k] == s;
                                assert(orphan_stems(out@)[k] == s);
                            } else {
                                assert(orphan_stems(out@)[before.len() as int] == s);
                            }
                        }
                    }
                }
            } else {
                proof {
                    assert forall|s: Seq<char>|
                        orphan_stems(out@).contains(s) <==> (t1.contains(s)
                            && orphaned(s, scope, rv, mv, lv, alive_pids@)) by {
                        if orphan_stems(out@).contains(s) {
                            let q = choose|q: int|
                                0 <= q < t0.len() && t0[q] == s;
                            assert(t1[q] == s);
                        }
                        if t1.contains(s) && orphaned(
                            s,
                            scope,
                            rv,
                            mv,
                            lv,
                            alive_pids@,
                        ) {
                            let q = choose|q: int|
                                0 <= q < t1.len() && t1[q] == s;
                            if q < i {
                                assert(t0[q] == s);
                            } else {
                                assert(s == stem@);
                            }
                        }
                    }
                }
            }
            i = i + 1;
        }
        proof {
            assert(sv.take(n as int) =~= sv);
        }
        out
    }

    /// The files that cleaning deletes for `orphans`: each note file, and its
    /// link and pid files unless the link is kept. A dry run deletes nothing;
    /// what it reports is the same `orphans` (`cleanup_orphaned` does not
    /// depend on it).
    pub fn removal_files(&self, orphans: &Vec<Orphan>, dry_run: bool) -> (r: Vec<String>)
        ensures
            dry_run ==> r@.len() == 0,
            !dry_run ==> str_views(r@) == removal_paths(self.dir@, orphans@),
    {
        let mut r: Vec<String> = Vec::new();
        if dry_run {
            return r;
        }
        let n = orphans.len();
        let mut i: usize = 0;
        while i < n
            invariant
                n == orphans@.len(),
                0 <= i <= n,
                str_views(r@) == removal_paths(self.dir@, orphans@.take(i as int)),
            decreases n - i,
        {
            let o = &orphans[i];
            proof {
                assert(orphans@.take(i + 1).drop_last() =~= orphans@.take(i as int));
                assert(orphans@.take(i + 1).last() == orphans@[i as int]);
            }
            r.push(self.key_file(o.stem.as_str()));
            if !o.keep_link {
                r.push(self.link_file(o.stem.as_str()));
                r.push(self.pid_file(o.stem.as_str()));
            }
            proof {
                assert(str_views(r@) =~= removal_paths(self.dir@, orphans@.take(i + 1)));
            }
            i = i + 1;
        }
        proof {
            assert(orphans@.take(n as int) =~= orphans@);
        }
        r
    }
}

/// The files deleted for the orphans, in order.
pub open spec fn removal_paths(dir: Seq<char>, orphans: Seq<Orphan>) -> Seq<Seq<char>>
    decreases orphans.len(),
{
    if orphans.len() == 0 {
        Seq::<Seq<char>>::empty()
    } else {
        let o = orphans.last();
        let p = removal_paths(dir, orphans.drop_last()).push(key_file_of(dir, o.stem@));
        if o.keep_link {
            p
        } else {
            p.push(link_file_of(dir, o.stem@)).push(pid_file_of(dir, o.stem@))
        }
    }
}

// ───────────────────────────── links ─────────────────────────────

/// An entry of the `meta` directory: its file name and, when it could be
/// read, its content.
pub struct LinkEntry {
    pub file_name: String,
    pub content: Option<String>,
}

pub open spec fn opt_view(o: Option<String>) -> Option<Seq<char>> {
    match o {
        Some(c) => Some(c@),
        None => None,
    }
}

pub open spec fn link_views(v: Seq<LinkEntry>) -> Seq<(Seq<char>, Option<Seq<char>>)> {
    v.map_values(|e: LinkEntry| (e.file_name@, opt_view(e.content)))
}

/// A file whose extension is `link` (so not `.link` itself).
pub open spec fn is_link_file(name: Seq<char>) -> bool {
    has_suffix(name, ".link"@) && name.len() > 5
}

/// The key a link file binds to the note `name`: a `.link` file whose
/// trimmed content is `name`.
pub open spec fn bound_key(e: (Seq<char>, Option<Seq<char>>), name: Seq<char>) -> Option<Seq<char>> {
    if is_link_file(e.0) && e.1 is Some && trim(e.1->0) == name {
        Some(e.0.take(e.0.len() - 5))
    } else {
        None
    }
}

/// The keys bound to `name`, in the order of the entries.
pub open spec fn bound_keys(es: Seq<(Seq<char>, Option<Seq<char>>)>, name: Seq<char>) -> Seq<Seq<char>>
    decreases es.len(),
{
    if es.len() == 0 {
        Seq::<Seq<char>>::empty()
    } else {
        let p = bound_keys(es.drop_last(), name);
        match bound_key(es.last(), name) {
            Some(k) => p.push(k),
            None => p,
        }
    }
}

/// The (key, target) a link entry records: a name ending in `.link` whose
/// content could be read.
pub open spec fn link_target(e: (Seq<char>, Option<Seq<char>>)) -> Option<(Seq<char>, Seq<char>)> {
    match strip_suffix(e.0, ".link"@) {
        Some(k) => match e.1 {
            Some(c) => Some((k, trim(c))),
            None => None,
        },
        None => None,
    }
}

/// The keys that link to the note `name`, in the order of the entries.
pub open spec fn sources_for(es: Seq<(Seq<char>, Option<Seq<char>>)>, name: Seq<char>) -> Seq<Seq<char>>
    decreases es.len(),
{
    if es.len() == 0 {
        Seq::<Seq<char>>::empty()
    } else {
        let p = sources_for(es.drop_last(), name);
        match link_target(es.last()) {
            Some((k, t)) => if t == name {
                p.push(k)
            } else {
                p
            },
            None => p,
        }
    }
}

fn entry_view_exec(e: &LinkEntry) -> (r: (Vec<char>, Option<Vec<char>>))
    ensures
        r.0@ == e.file_name@,
        match r.1 {
            Some(c) => opt_view(e.content) == Some(c@),
            None => opt_view(e.content) is None,
        },
{
    let f = chars_of(e.file_name.as_str());
    match &e.content {
        Some(c) => (f, Some(chars_of(c.as_str()))),
        None => (f, None),
    }
}

fn bound_key_exec(e: &LinkEntry, name: &[char]) -> (r: Option<Vec<char>>)
    ensures
        match r {
            Some(k) => bound_key((e.file_name@, opt_view(e.content)), name@) == Some(k@),
            None => bound_key((e.file_name@, opt_view(e.content)), name@) is None,
        },
{
    let (f, c) = entry_view_exec(e);
    let fl = f.len();
    if fl > 5 && crate::text::ends_with_str(f.as_slice(), ".link") {
        match c {
            Some(c) => {
                let t = crate::text::trim_chars(c.as_slice());
                if crate::text::chars_eq(t.as_slice(), name) {
                    return Some(crate::text::slice_copy(f.as_slice(), 0, fl - 5));
                }
            },
            None => {},
        }
    }
    None
}

fn bound_keys_exec(links: &Vec<LinkEntry>, name: &[char]) -> (r: Vec<Vec<char>>)
    ensures
        views(r@) == bound_keys(link_views(links@), name@),
{
    let ghost lv = link_views(links@);
    let n = links.len();
    let mut r: Vec<Vec<char>> = Vec::new();
    let mut i: usize = 0;
    while i < n
        invariant
            n == links@.len() == lv.len(),
            lv == link_views(links@),
            0 <= i <= n,
            views(r@) == bound_keys(lv.take(i as int), name@),
        decreases n - i,
    {
        let ghost before = views(r@);
        proof {
            assert(lv.take(i + 1).drop_last() =~= lv.take(i as int));
            assert(lv.take(i + 1).last() == (links@[i as int].file_name@, opt_view(
                links@[i as int].content,
            )));
        }
        match bound_key_exec(&links[i], name) {
            Some(k) => {
                r.push(k);
                proof {
                    assert(views(r@) =~= before.push(k@));
                }
            },
            None => {},
        }
        i = i + 1;
    }
    proof {
        assert(lv.take(n as int) =~= lv);
    }
    r
}

fn sources_for_exec(links: &Vec<LinkEntry>, name: &[char]) -> (r: Vec<Vec<char>>)
    ensures
        views(r@) == sources_for(link_views(links@), name@),
{
    let ghost lv = link_views(links@);
    let n = links.len();
    let mut r: Vec<Vec<char>> = Vec::new();
    let mut i: usize = 0;
    while i < n
        invariant
            n == links@.len() == lv.len(),
            lv == link_views(links@),
            0 <= i <= n,
            views(r@) == sources_for(lv.take(i as int), name@),
        decreases n - i,
    {
        let ghost before = views(r@);
        proof {
            assert(lv.take(i + 1).drop_last() =~= lv.take(i as int));
            assert(lv.take(i + 1).last() == (links@[i as int].file_name@, opt_view(
                links@[i as int].content,
            )));
        }
        let (f, c) = entry_view_exec(&links[i]);
        match strip_suffix_str(f.as_slice(), ".link") {
            Some(k) => match c {
                Some(c) => {
                    let t = crate::text::trim_chars(c.as_slice());
                    if crate::text::chars_eq(t.as_slice(), name) {
                        r.push(k);
                        proof {
                            assert(views(r@) =~= before.push(k@));
                        }
                    }
                },
                None => {},
            },
            None => {},
        }
        i = i + 1;
    }
    proof {
        assert(lv.take(n as int) =~= lv);
    }
    r
}

/// The note name a link file records, with the keys linking to it.
pub struct LinkSource {
    pub name: String,
    pub keys: Vec<String>,
}

/// What removing the named note `name` does: the note file goes, and with
/// it every link file bound to that name (both only when the note exists and
/// this is no dry run).
pub struct RemovalPlan {
    pub found: bool,
    pub note_file: String,
    pub remove_note: bool,
    pub remove_links: Vec<String>,
}

impl Notes {
    /// Plans removing a named note and the link files pointing to it, given
    /// whether its file exists (`note_exists`) and the entries of `meta`.
    /// `found` is whether the note existed.
    pub fn remove_named(&self, name: &str, note_exists: bool, links: &Vec<LinkEntry>, dry_run: bool) -> (r:
        RemovalPlan)
        ensures
            r.found == note_exists,
            r.note_file@ == named_file_of(self.dir@, name@),
            r.remove_note == (note_exists && !dry_run),
            str_views(r.remove_links@) == if note_exists && !dry_run {
                bound_keys(link_views(links@), name@).map_values(
                    |k: Seq<char>| link_file_of(self.dir@, k),
                )
            } else {
                Seq::<Seq<char>>::empty()
            },
    {
        let note_file = self.named_file(name);
        if !note_exists || dry_run {
            return RemovalPlan {
                found: note_exists,
                note_file,
                remove_note: false,
                remove_links: Vec::new(),
            };
        }
        let nv = chars_of(name);
        let keys = bound_keys_exec(links, nv.as_slice());
        let ghost kv = views(keys@);
        let n = keys.len();
        let mut paths: Vec<String> = Vec::new();
        let mut i: usize = 0;
        while i < n
            invariant
                n == keys@.len() == kv.len(),
                kv == views(keys@),
                0 <= i <= n,
                str_views(paths@) == kv.take(i as int).map_values(
                    |k: Seq<char>| link_file_of(self.dir@, k),
                ),
            decreases n - i,
        {
            let ghost before = str_views(paths@);
            let k = string_of(keys[i].as_slice());
            let p = self.link_file(k.as_str());
            paths.push(p);
            proof {
                assert(str_views(paths@) =~= before.push(p@));
                assert(kv.take(i + 1).map_values(|k: Seq<char>| link_file_of(self.dir@, k))
                    =~= before.push(link_file_of(self.dir@, kv[i as int])));
            }
            i = i + 1;
        }
        proof {
            assert(kv.take(n as int) =~= kv);
        }
        RemovalPlan { found: true, note_file, remove_note: true, remove_links: paths }
    }

    /// Removing the link of a single key: given whether its link file exists
    /// and, when it could be read, its content, returns the name it was bound
    /// to (empty when unreadable), or `None` when there was no link.
    pub fn unbind_key(&self, key: &str, link_exists: bool, content: Option<&str>) -> (r: Option<String>)
        ensures
            match r {
                Some(n) => link_exists && n@ == match content {
                    Some(c) => trim(c@),
                    None => Seq::<char>::empty(),
                },
                None => !link_exists,
            },
    {
        if !link_exists {
            return None;
        }
        match content {
            Some(c) => Some(string_of(trim_str(c).as_slice())),
            None => Some(String::new()),
        }
    }

    /// The keys whose link files point to the named note `name`; the
    /// application removes those link files.
    pub fn unbind_named(&self, name: &str, links: &Vec<LinkEntry>) -> (r: Vec<String>)
        ensures
            str_views(r@) == bound_keys(link_views(links@), name@),
    {
        let nv = chars_of(name);
        let keys = bound_keys_exec(links, nv.as_slice());
        crate::text::strings_of(&keys)
    }

    /// Whether unbinding `key` from the named note `name` applies: its link
    /// file's content (when it exists and could be read) names that note.
    pub fn unbind_named_key(&self, name: &str, key: &str, content: Option<&str>) -> (b: bool)
        ensures
            b == match content {
                Some(c) => trim(c@) == name@,
                None => false,
            },
    {
        match content {
            Some(c) => {
                let t = trim_str(c);
                let nv = chars_of(name);
                crate::text::chars_eq(t.as_slice(), nv.as_slice())
            },
            None => false,
        }
    }

    /// Builds the reverse map: note name → the keys that link to it, e.g.
    /// `api-server` → [`tmux-work+0`, `shell-12345`]. Each name appears once,
    /// in order of first appearance.
    pub fn link_sources(&self, links: &Vec<LinkEntry>) -> (r: Vec<LinkSource>)
        ensures
            no_duplicates(r@.map_values(|s: LinkSource| s.name@)),
            forall|k: int|
                0 <= k < r@.len() ==> str_views(r@[k].keys@) == sources_for(
                    link_views(links@),
                    r@[k].name@,
                ) && r@[k].keys@.len() > 0,
            forall|name: Seq<char>|
                sources_for(link_views(links@), name).len() > 0 ==> exists|k: int|
                    0 <= k < r@.len() && #[trigger] r@[k].name@ == name,
    {
        let ghost lv = link_views(links@);
        let n = links.len();
        let mut names: Vec<Vec<char>> = Vec::new();
        let mut i: usize = 0;
        while i < n
            invariant
                n == links@.len() == lv.len(),
                lv == link_views(links@),
                0 <= i <= n,
                no_duplicates(views(names@)),
                forall|t: Seq<char>|
                    views(names@).contains(t) <==> sources_for(lv.take(i as int), t).len() > 0,
            decreases n - i,
        {
            let ghost before = views(names@);
            let ghost li = lv.take(i as int);
            let ghost li1 = lv.take(i + 1);
            proof {
                assert(li1.drop_last() =~= li);
                assert(li1.last() == (links@[i as int].file_name@, opt_view(
                    links@[i as int].content,
                )));
            }
            let (f, c) = entry_view_exec(&links[i]);
            let mut added = false;
            match strip_suffix_str(f.as_slice(), ".link") {
                Some(_) => match c {
                    Some(c) => {
                        let t = crate::text::trim_chars(c.as_slice());
                        if !member(&names, t.as_slice()) {
                            names.push(t);
                            added = true;
                        }
                    },
                    None => {},
                },
                None => {},
            }
            proof {
                assert forall|t: Seq<char>|
                    views(names@).contains(t) <==> sources_for(li1, t).len() > 0 by {
                    if added {
                        assert(views(names@) =~= before.push(views(names@).last()));
                        if views(names@).contains(t) {
                            let k = choose|k: int|
                                0 <= k < views(names@).len() && views(names@)[k] == t;
                            if k < before.len() {
                                assert(before[k] == t);
                                assert(before.contains(t));
                            }
                        }
                        if before.contains(t) {
                            let k = choose|k: int| 0 <= k < before.len() && before[k] == t;
                            assert(views(names@)[k] == t);
                        }
                        if t == views(names@).last() {
                            assert(views(names@)[before.len() as int] == t);
                        }
                    }
                }
                if added {
                    assert forall|a: int, b: int|
                        0 <= a < b < views(names@).len() implies views(names@)[a] != views(
                            names@,
                        )[b] by {
                        assert(views(names@)[a] == before[a]);
                        if b < before.len() {
                            assert(views(names@)[b] == before[b]);
                        }
                    }
                }
            }
            i = i + 1;
        }
        proof {
            assert(lv.take(n as int) =~= lv);
        }
        let ghost nm = views(names@);
        let m = names.len();
        let mut out: Vec<LinkSource> = Vec::new();
        let mut j: usize = 0;
        while j < m
            invariant
                m == names@.len() == nm.len(),
                nm == views(names@),
                lv == link_views(links@),
                no_duplicates(nm),
                forall|t: Seq<char>| nm.contains(t) <==> sources_for(lv, t).len() > 0,
                0 <= j <= m,
                out@.len() == j,
                forall|k: int| 0 <= k < j ==> #[trigger] out@[k].name@ == nm[k],
                forall|k: int|
                    0 <= k < j ==> str_views(#[trigger] out@[k].keys@) == sources_for(lv, nm[k])
                        && out@[k].keys@.len() > 0,
            decreases m - j,
        {
            let keys = sources_for_exec(links, names[j].as_slice());
            proof {
                assert(nm.contains(nm[j as int]));
            }
            let ghost before = out@;
            out.push(LinkSource { name: string_of(names[j].as_slice()), keys: crate::text::strings_of(&keys) });
            proof {
                assert forall|k: int| 0 <= k < j + 1 implies #[trigger] out@[k].name@ == nm[k] by {
                    if k < j {
                        assert(out@[k] == before[k]);
                    }
                }
                assert forall|k: int|
                    0 <= k < j + 1 implies str_views(#[trigger] out@[k].keys@) == sources_for(
                        lv,
                        nm[k],
                    ) && out@[k].keys@.len() > 0 by {
                    if k < j {
                        assert(out@[k] == before[k]);
                    }
                }
            }
            j = j + 1;
        }
        proof {
            assert(out@.map_values(|s: LinkSource| s.name@) =~= nm);
            assert forall|name: Seq<char>|
                sources_for(lv, name).len() > 0 implies exists|k: int|
                    0 <= k < out@.len() && #[trigger] out@[k].name@ == name by {
                assert(nm.contains(name));
                let k = choose|k: int| 0 <= k < nm.len() && nm[k] == name;
                assert(out@[k].name@ == name);
            }
        }
        out
    }
}

// ───────────────────────────── listing ─────────────────────────────

/// A file of the notes directory: its name and its content (empty when it
/// could not be read).
pub struct NoteFile {
    pub name: String,
    pub content: String,
}

/// One note as `tnote list` shows it.
pub struct NoteEntry {
    /// One of `tmux`, `named`, `shell`, `other`.
    pub category: String,
    pub display: String,
    /// Non-empty only for named notes: the keys that link to this note.
    pub sources: Vec<String>,
    pub lines: usize,
    pub path: String,
}

/// The mathematical value of a [`NoteEntry`].
pub struct NoteView {
    pub category: Seq<char>,
    pub display: Seq<char>,
    pub sources: Seq<Seq<char>>,
    pub lines: nat,
    pub path: Seq<char>,
}

impl View for NoteEntry {
    type V = NoteView;

    open spec fn view(&self) -> NoteView {
        NoteView {
            category: self.category@,
            display: self.display@,
            sources: str_views(self.sources@),
            lines: self.lines as nat,
            path: self.path@,
        }
    }
}

pub open spec fn entry_views(v: Seq<NoteEntry>) -> Seq<NoteView> {
    v.map_values(|e: NoteEntry| e@)
}

pub open spec fn file_views(v: Seq<NoteFile>) -> Seq<(Seq<char>, Seq<char>)> {
    v.map_values(|f: NoteFile| (f.name@, f.content@))
}

/// The category and displayed name of a note stem.
pub open spec fn note_kind(stem: Seq<char>, labels: Seq<(Seq<char>, Seq<char>)>) -> (Seq<char>, Seq<char>) {
    if has_prefix(stem, "tmux-"@) {
        (
            "tmux"@,
            match lookup_label(labels, stem) {
                Some(l) => l,
                None => stem.skip(5),
            },
        )
    } else {
        match strip_prefix(stem, "named-"@) {
            Some(s) => ("named"@, s),
            None => if has_prefix(stem, "shell-"@) {
                ("shell"@, stem)
            } else {
                ("other"@, stem)
            },
        }
    }
}

/// The listing entry of a file of the notes directory: files with extension
/// `md` only.
pub open spec fn note_entry_of(
    dir: Seq<char>,
    file: (Seq<char>, Seq<char>),
    links: Seq<(Seq<char>, Option<Seq<char>>)>,
    labels: Seq<(Seq<char>, Seq<char>)>,
) -> Option<NoteView> {
    match crate::tmux::md_stem(file.0) {
        Some(stem) => {
            let (cat, display) = note_kind(stem, labels);
            Some(
                NoteView {
                    category: cat,
                    display,
                    sources: if cat == "named"@ {
                        sources_for(links, display)
                    } else {
                        Seq::<Seq<char>>::empty()
                    },
                    lines: lines(file.1).len(),
                    path: joined_path(dir, file.0),
                },
            )
        },
        None => None,
    }
}

/// The listing entries of the files, in the order of the files.
pub open spec fn note_entries(
    dir: Seq<char>,
    files: Seq<(Seq<char>, Seq<char>)>,
    links: Seq<(Seq<char>, Option<Seq<char>>)>,
    labels: Seq<(Seq<char>, Seq<char>)>,
) -> Seq<NoteView>
    decreases files.len(),
{
    if files.len() == 0 {
        Seq::<NoteView>::empty()
    } else {
        let p = note_entries(dir, files.drop_last(), links, labels);
        match note_entry_of(dir, files.last(), links, labels) {
            Some(e) => p.push(e),
            None => p,
        }
    }
}

/// `a` comes before `b` in lexicographic order of characters (the order of
/// `str`'s `<`).
pub open spec fn lex_lt(a: Seq<char>, b: Seq<char>) -> bool
    decreases a.len(),
{
    if b.len() == 0 {
        false
    } else if a.len() == 0 {
        true
    } else if a[0] != b[0] {
        a[0] < b[0]
    } else {
        lex_lt(a.drop_first(), b.drop_first())
    }
}

/// Lexicographic order is asymmetric (and so irreflexive).
pub proof fn lemma_lex_lt_asymmetric(a: Seq<char>, b: Seq<char>)
    ensures
        lex_lt(a, b) ==> !lex_lt(b, a),
    decreases a.len(),
{
    if a.len() > 0 && b.len() > 0 && a[0] == b[0] {
        lemma_lex_lt_asymmetric(a.drop_first(), b.drop_first());
    }
}

/// Entries are ordered by category, then by displayed name.
pub open spec fn entry_lt(x: NoteView, y: NoteView) -> bool {
    lex_lt(x.category, y.category) || (x.category == y.category && lex_lt(x.display, y.display))
}

/// Each entry comes no later than the next one.
pub open spec fn sorted_entries(s: Seq<NoteView>) -> bool {
    forall|i: int, j: int|
        0 <= i && j == i + 1 && j < s.len() ==> !entry_lt(#[trigger] s[j], #[trigger] s[i])
}

proof fn lemma_entry_lt_asymmetric(x: NoteView, y: NoteView)
    ensures
        entry_lt(x, y) ==> !entry_lt(y, x),
{
    lemma_lex_lt_asymmetric(x.category, y.category);
    lemma_lex_lt_asymmetric(y.category, x.category);
    lemma_lex_lt_asymmetric(x.display, y.display);
    lemma_lex_lt_asymmetric(x.category, x.category);
}

/// `lex_lt` on character slices.
pub fn lex_less(a: &[char], b: &[char]) -> (r: bool)
    ensures
        r == lex_lt(a@, b@),
{
    let na = a.len();
    let nb = b.len();
    let mut i: usize = 0;
    proof {
        assert(a@.skip(0) =~= a@);
        assert(b@.skip(0) =~= b@);
    }
    while i < na && i < nb && a[i] == b[i]
        invariant
            na == a@.len(),
            nb == b@.len(),
            0 <= i <= na,
            i <= nb,
            lex_lt(a@, b@) == lex_lt(a@.skip(i as int), b@.skip(i as int)),
        decreases na - i,
    {
        proof {
            assert(a@.skip(i as int).drop_first() =~= a@.skip(i + 1));
            assert(b@.skip(i as int).drop_first() =~= b@.skip(i + 1));
        }
        i = i + 1;
    }
    if i == nb {
        false
    } else if i == na {
        true
    } else {
        a[i] < b[i]
    }
}

fn entry_less(x: &NoteEntry, y: &NoteEntry) -> (r: bool)
    ensures
        r == entry_lt(x@, y@),
{
    let xc = chars_of(x.category.as_str());
    let yc = chars_of(y.category.as_str());
    if lex_less(xc.as_slice(), yc.as_slice()) {
        return true;
    }
    if !crate::text::chars_eq(xc.as_slice(), yc.as_slice()) {
        return false;
    }
    let xd = chars_of(x.display.as_str());
    let yd = chars_of(y.display.as_str());
    lex_less(xd.as_slice(), yd.as_slice())
}

/// Inserts `e` after every entry that is not later than it.
fn insert_sorted(out: &mut Vec<NoteEntry>, e: NoteEntry)
    requires
        sorted_entries(entry_views(old(out)@)),
    ensures
        sorted_entries(entry_views(final(out)@)),
        entry_views(final(out)@).to_multiset() == entry_views(old(out)@).to_multiset().insert(e@),
{
    let n = out.len();
    let mut p: usize = 0;
    while p < n && !entry_less(&e, &out[p])
        invariant
            n == out@.len(),
            0 <= p <= n,
            forall|q: int| 0 <= q < p ==> !entry_lt(e@, #[trigger] out@[q]@),
        decreases n - p,
    {
        p = p + 1;
    }
    let ghost old_v = entry_views(out@);
    let ghost ev = e@;
    proof {
        if p < n {
            assert(entry_lt(e@, out@[p as int]@));
            lemma_entry_lt_asymmetric(e@, out@[p as int]@);
        }
    }
    out.insert(p, e);
    proof {
        let nv = entry_views(out@);
        assert(nv =~= old_v.insert(p as int, ev));
        vstd::seq_lib::to_multiset_insert(old_v, p as int, ev);
        assert forall|i: int, j: int|
            0 <= i && j == i + 1 && j < nv.len() implies !entry_lt(#[trigger] nv[j], #[trigger] nv[i]) by {
            if j < p {
                assert(nv[i] == old_v[i] && nv[j] == old_v[j]);
            } else if j == p {
                assert(nv[i] == old_v[i] && nv[j] == ev);
            } else if i == p {
                assert(nv[i] == ev && nv[j] == old_v[i]);
            } else {
                assert(nv[i] == old_v[i - 1] && nv[j] == old_v[j - 1]);
            }
        }
    }
}

fn note_kind_exec(stem: &[char], labels: &Vec<WindowLabel>) -> (r: (Vec<char>, Vec<char>))
    ensures
        (r.0@, r.1@) == note_kind(stem@, label_views(labels@)),
{
    if starts_with_str(stem, "tmux-") {
        let key = string_of(stem);
        let label = match window_display_label(labels, key.as_str()) {
            Some(l) => chars_of(l.as_str()),
            None => {
                proof {
                    reveal_strlit("tmux-");
                }
                crate::text::slice_copy(stem, 5, stem.len())
            },
        };
        proof {
            assert(stem@.subrange(5, stem@.len() as int) =~= stem@.skip(5));
        }
        (chars_of("tmux"), label)
    } else {
        match strip_prefix_str(stem, "named-") {
            Some(s) => (chars_of("named"), s),
            None => if starts_with_str(stem, "shell-") {
                (chars_of("shell"), crate::text::slice_copy(stem, 0, stem.len()))
            } else {
                (chars_of("other"), crate::text::slice_copy(stem, 0, stem.len()))
            },
        }
    }
}

impl Notes {
    /// Lists the notes: each file with extension `md` in the notes directory
    /// (`files`, with their contents), with its category (`tmux`, `named`,
    /// `shell` or `other`), its displayed name, the keys that link to it when
    /// it is a named note (from the `meta` entries `links`), its line count
    /// and its path; ordered by category, then displayed name.
    pub fn list_notes(&self, files: &Vec<NoteFile>, links: &Vec<LinkEntry>, labels: &Vec<WindowLabel>) -> (r:
        Vec<NoteEntry>)
        ensures
            sorted_entries(entry_views(r@)),
            entry_views(r@).to_multiset() == note_entries(
                self.dir@,
                file_views(files@),
                link_views(links@),
                label_views(labels@),
            ).to_multiset(),
    {
        let ghost fv = file_views(files@);
        let ghost lv = link_views(links@);
        let ghost bv = label_views(labels@);
        let dir = chars_of(self.dir.as_str());
        let n = files.len();
        let mut out: Vec<NoteEntry> = Vec::new();
        let mut i: usize = 0;
        proof {
            assert(fv.take(0) =~= Seq::<(Seq<char>, Seq<char>)>::empty());
            assert(entry_views(out@) =~= Seq::<NoteView>::empty());
        }
        while i < n
            invariant
                n == files@.len() == fv.len(),
                fv == file_views(files@),
                lv == link_views(links@),
                bv == label_views(labels@),
                dir@ == self.dir@,
                0 <= i <= n,
                sorted_entries(entry_views(out@)),
                entry_views(out@).to_multiset() == note_entries(
                    self.dir@,
                    fv.take(i as int),
                    lv,
                    bv,
                ).to_multiset(),
            decreases n - i,
        {
            let ghost prev = note_entries(self.dir@, fv.take(i as int), lv, bv);
            proof {
                assert(fv.take(i + 1).drop_last() =~= fv.take(i as int));
                assert(fv.take(i + 1).last() == (files@[i as int].name@, files@[i as int].content@));
            }
            let name = chars_of(files[i].name.as_str());
            match crate::tmux::md_stem_exec(name.as_slice()) {
                Some(stem) => {
                    let (cat, display) = note_kind_exec(stem.as_slice(), labels);
                    let sources = if crate::text::eq_str(cat.as_slice(), "named") {
                        crate::text::strings_of(&sources_for_exec(links, display.as_slice()))
                    } else {
                        Vec::new()
                    };
                    let content = chars_of(files[i].content.as_str());
                    let count = lines_of(content.as_slice()).len();
                    let path = join_path(dir.as_slice(), name.as_slice());
                    let e = NoteEntry {
                        category: string_of(cat.as_slice()),
                        display: string_of(display.as_slice()),
                        sources,
                        lines: count,
                        path: string_of(path.as_slice()),
                    };
                    proof {
                        assert(e@.sources =~= if cat@ == "named"@ {
                            sources_for(lv, display@)
                        } else {
                            Seq::<Seq<char>>::empty()
                        });
                        assert(note_entry_of(self.dir@, fv[i as int], lv, bv) == Some(e@));
                        vstd::seq_lib::to_multiset_build(prev, e@);
                    }
                    insert_sorted(&mut out, e);
                },
                None => {},
            }
            i = i + 1;
        }
        proof {
            assert(fv.take(n as int) =~= fv);
        }
        out
    }
}

// ───────────────────────────── session keys ─────────────────────────────

/// The shell's pid from the parent process id: none unless it is positive.
pub fn shell_pid(ppid: i32) -> (r: Option<u32>)
    ensures
        match r {
            Some(p) => ppid > 0 && p == ppid,
            None => ppid <= 0,
        },
{
    if ppid > 0 {
        Some(ppid as u32)
    } else {
        None
    }
}

/// The key of the current shell session: `shell-<ppid>` from the parent
/// shell's pid, or `pid-<pid>` of this process when that is unknown.
pub fn shell_session_key(shell_pid: Option<u32>, own_pid: u32) -> (r: String)
    ensures
        r@ == match shell_pid {
            Some(p) => "shell-"@ + crate::text::decimal(p as nat),
            None => "pid-"@ + crate::text::decimal(own_pid as nat),
        },
{
    match shell_pid {
        Some(p) => string_of(str_concat("shell-", crate::text::decimal_exec(p as u64).as_slice()).as_slice()),
        None => string_of(str_concat("pid-", crate::text::decimal_exec(own_pid as u64).as_slice()).as_slice()),
    }
}

// ───────────────────────────── the old layout ─────────────────────────────

/// Link and pid files that older versions kept beside the notes.
pub open spec fn belongs_in_meta(name: Seq<char>) -> bool {
    has_suffix(name, ".link"@) || has_suffix(name, ".pid"@)
}

/// The entries of the notes directory that belong in `meta`, in order.
pub open spec fn meta_moves(names: Seq<Seq<char>>) -> Seq<Seq<char>>
    decreases names.len(),
{
    if names.len() == 0 {
        Seq::<Seq<char>>::empty()
    } else if belongs_in_meta(names.last()) {
        meta_moves(names.drop_last()).push(names.last())
    } else {
        meta_moves(names.drop_last())
    }
}

impl Notes {
    /// The entries of the notes directory to move into `meta/` (a one-time
    /// migration from the old layout): the `.link` and `.pid` files. The
    /// application moves each one whose destination does not exist yet.
    pub fn migrate_to_meta(&self, root_names: &Vec<String>) -> (r: Vec<String>)
        ensures
            str_views(r@) == meta_moves(str_views(root_names@)),
    {
        let ghost nv = str_views(root_names@);
        let n = root_names.len();
        let mut r: Vec<String> = Vec::new();
        let mut i: usize = 0;
        while i < n
            invariant
                n == root_names@.len() == nv.len(),
                nv == str_views(root_names@),
                0 <= i <= n,
                str_views(r@) == meta_moves(nv.take(i as int)),
            decreases n - i,
        {
            let ghost before = str_views(r@);
            proof {
                assert(nv.take(i + 1).drop_last() =~= nv.take(i as int));
                assert(nv.take(i + 1).last() == root_names@[i as int]@);
            }
            let name = chars_of(root_names[i].as_str());
            if crate::text::ends_with_str(name.as_slice(), ".link") || crate::text::ends_with_str(
                name.as_slice(),
                ".pid",
            ) {
                let s = string_of(name.as_slice());
                r.push(s);
                proof {
                    assert(str_views(r@) =~= before.push(s@));
                }
            }
            i = i + 1;
        }
        proof {
            assert(nv.take(n as int) =~= nv);
        }
        r
    }

    /// `<dir>/archive`, where archived named notes are kept.
    pub fn archive_dir(&self) -> (r: String)
        ensures
            r@ == joined_path(self.dir@, "archive"@),
    {
        let d = chars_of(self.dir.as_str());
        let a = chars_of("archive");
        string_of(join_path(d.as_slice(), a.as_slice()).as_slice())
    }

    /// The archived file of the named note `name`.
    pub fn archived_file(&self, name: &str) -> (r: String)
        ensures
            r@ == joined_path(joined_path(self.dir@, "archive"@), "named-"@ + name@ + ".md"@),
    {
        let a = chars_of(self.archive_dir().as_str());
        let mut f = chars_of("named-");
        extend_str(&mut f, name);
        extend_str(&mut f, ".md");
        string_of(join_path(a.as_slice(), f.as_slice()).as_slice())
    }
}

// ───────────────────────────── named notes ─────────────────────────────

/// The name of a named note's file `named-<name>.md`.
pub open spec fn named_note_of(file: Seq<char>) -> Option<Seq<char>> {
    match strip_prefix(file, "named-"@) {
        Some(rest) => strip_suffix(rest, ".md"@),
        None => None,
    }
}

/// The names of the named notes among the files, those matching the glob
/// `pattern` when one is given, in the order of the files.
pub open spec fn named_notes(files: Seq<Seq<char>>, pattern: Option<Seq<char>>) -> Seq<Seq<char>>
    decreases files.len(),
{
    if files.len() == 0 {
        Seq::<Seq<char>>::empty()
    } else {
        let p = named_notes(files.drop_last(), pattern);
        match named_note_of(files.last()) {
            Some(n) => if pattern matches Some(g) && !crate::cli::glob_matches(g, n) {
                p
            } else {
                p.push(n)
            },
            None => p,
        }
    }
}

/// Each name comes no later than the next one.
pub open spec fn sorted_names(s: Seq<Seq<char>>) -> bool {
    forall|i: int, j: int| 0 <= i && j == i + 1 && j < s.len() ==> !lex_lt(#[trigger] s[j], #[trigger] s[i])
}

fn insert_sorted_name(out: &mut Vec<Vec<char>>, e: Vec<char>)
    requires
        sorted_names(views(old(out)@)),
    ensures
        sorted_names(views(final(out)@)),
        views(final(out)@).to_multiset() == views(old(out)@).to_multiset().insert(e@),
{
    let n = out.len();
    let mut p: usize = 0;
    while p < n && !lex_less(e.as_slice(), out[p].as_slice())
        invariant
            n == out@.len(),
            0 <= p <= n,
            forall|q: int| 0 <= q < p ==> !lex_lt(e@, #[trigger] out@[q]@),
        decreases n - p,
    {
        p = p + 1;
    }
    let ghost old_v = views(out@);
    let ghost ev = e@;
    proof {
        if p < n {
            lemma_lex_lt_asymmetric(e@, out@[p as int]@);
        }
    }
    out.insert(p, e);
    proof {
        let nv = views(out@);
        assert(nv =~= old_v.insert(p as int, ev));
        vstd::seq_lib::to_multiset_insert(old_v, p as int, ev);
        assert forall|i: int, j: int|
            0 <= i && j == i + 1 && j < nv.len() implies !lex_lt(#[trigger] nv[j], #[trigger] nv[i]) by {
            if j < p {
                assert(nv[i] == old_v[i] && nv[j] == old_v[j]);
            } else if j == p {
                assert(nv[i] == old_v[i] && nv[j] == ev);
            } else if i == p {
                assert(nv[i] == ev && nv[j] == old_v[i]);
            } else {
                assert(nv[i] == old_v[i - 1] && nv[j] == old_v[j - 1]);
            }
        }
    }
}

impl Notes {
    /// The names of the named notes (files `named-<name>.md` among
    /// `root_names`), restricted to those matching the glob `pattern` when one
    /// is given, in sorted order.
    pub fn named_note_names(&self, root_names: &Vec<String>, pattern: Option<&str>) -> (r: Vec<String>)
        ensures
            sorted_names(str_views(r@)),
            str_views(r@).to_multiset() == named_notes(
                str_views(root_names@),
                match pattern {
                    Some(g) => Some(g@),
                    None => None,
                },
            ).to_multiset(),
    {
        let ghost nv = str_views(root_names@);
        let ghost pv: Option<Seq<char>> = match pattern {
            Some(g) => Some(g@),
            None => None,
        };
        let n = root_names.len();
        let mut out: Vec<Vec<char>> = Vec::new();
        let mut i: usize = 0;
        proof {
            assert(views(out@) =~= Seq::<Seq<char>>::empty());
        }
        while i < n
            invariant
                n == root_names@.len() == nv.len(),
                nv == str_views(root_names@),
                pv == match pattern {
                    Some(g) => Some(g@),
                    None => None::<Seq<char>>,
                },
                0 <= i <= n,
                sorted_names(views(out@)),
                views(out@).to_multiset() == named_notes(nv.take(i as int), pv).to_multiset(),
            decreases n - i,
        {
            let ghost prev = named_notes(nv.take(i as int), pv);
            proof {
                assert(nv.take(i + 1).drop_last() =~= nv.take(i as int));
                assert(nv.take(i + 1).last() == root_names@[i as int]@);
            }
            let f = chars_of(root_names[i].as_str());
            match strip_prefix_str(f.as_slice(), "named-") {
                Some(rest) => match strip_suffix_str(rest.as_slice(), ".md") {
                    Some(name) => {
                        let keep = match pattern {
                            Some(g) => crate::cli::glob_match(g, string_of(name.as_slice()).as_str()),
                            None => true,
                        };
                        if keep {
                            proof {
                                vstd::seq_lib::to_multiset_build(prev, name@);
                            }
                            insert_sorted_name(&mut out, name);
                        }
                    },
                    None => {},
                },
                None => {},
            }
            i = i + 1;
        }
        proof {
            assert(nv.take(n as int) =~= nv);
        }
        crate::text::strings_of(&out)
    }
}

/// The key of the named note `name`: `named-<name>`.
pub fn named_key(name: &str) -> (r: String)
    ensures
        r@ == "named-"@ + name@,
{
    string_of(str_concat("named-", chars_of(name).as_slice()).as_slice())
}

/// The pid of a `shell-<pid>` stem.
pub open spec fn shell_stem_pid(stem: Seq<char>) -> Option<nat> {
    match strip_prefix(stem, "shell-"@) {
        Some(p) => parse_unsigned(p, u32::MAX as nat),
        None => None,
    }
}

/// The pids of the shell notes among the entries (`names`), whose processes
/// the application checks before cleaning.
pub fn shell_pids(names: &Vec<String>) -> (r: Vec<u32>)
    ensures
        forall|v: u32|
            r@.contains(v) <==> exists|j: int|
                0 <= j < names@.len() && (entry_stem(#[trigger] str_views(names@)[j]) matches Some(s)
                    && shell_stem_pid(s) == Some(v as nat)),
{
    let ghost nv = str_views(names@);
    let n = names.len();
    let mut r: Vec<u32> = Vec::new();
    let mut i: usize = 0;
    while i < n
        invariant
            n == names@.len() == nv.len(),
            nv == str_views(names@),
            0 <= i <= n,
            forall|v: u32|
                r@.contains(v) <==> exists|j: int|
                    0 <= j < i && (entry_stem(#[trigger] nv[j]) matches Some(s) && shell_stem_pid(s)
                        == Some(v as nat)),
        decreases n - i,
    {
        let ghost before = r@;
        let name = chars_of(names[i].as_str());
        proof {
            assert(nv[i as int] == name@);
        }
        let mut found: Option<u32> = None;
        match entry_stem_exec(name.as_slice()) {
            Some(stem) => match strip_prefix_str(stem.as_slice(), "shell-") {
                Some(p) => match parse_unsigned_exec(p.as_slice(), 0xffff_ffff) {
                    Some(v) => {
                        found = Some(v as u32);
                    },
                    None => {},
                },
                None => {},
            },
            None => {},
        }
        match found {
            Some(v) => {
                r.push(v);
                proof {
                    assert(r@ =~= before.push(v));
                    assert forall|w: u32|
                        r@.contains(w) <==> exists|j: int|
                            0 <= j < i + 1 && (entry_stem(#[trigger] nv[j]) matches Some(s)
                                && shell_stem_pid(s) == Some(w as nat)) by {
                        if r@.contains(w) && w != v {
                            let k = choose|k: int| 0 <= k < r@.len() && r@[k] == w;
                            assert(before[k] == w);
                            assert(before.contains(w));
                        }
                        if w == v {
                            assert(r@[before.len() as int] == w);
                        }
                        if exists|j: int|
                            0 <= j < i + 1 && (entry_stem(#[trigger] nv[j]) matches Some(s)
                                && shell_stem_pid(s) == Some(w as nat)) {
                            let j = choose|j: int|
                                0 <= j < i + 1 && (entry_stem(#[trigger] nv[j]) matches Some(s)
                                    && shell_stem_pid(s) == Some(w as nat));
                            if j < i {
                                assert(before.contains(w));
                                let k = choose|k: int| 0 <= k < before.len() && before[k] == w;
                                assert(r@[k] == w);
                            }
                        }
                    }
                }
            },
            None => {
                proof {
                    assert forall|w: u32|
                        r@.contains(w) <==> exists|j: int|
                            0 <= j < i + 1 && (entry_stem(#[trigger] nv[j]) matches Some(s)
                                && shell_stem_pid(s) == Some(w as nat)) by {
                        if exists|j: int|
                            0 <= j < i + 1 && (entry_stem(#[trigger] nv[j]) matches Some(s)
                                && shell_stem_pid(s) == Some(w as nat)) {
                            let j = choose|j: int|
                                0 <= j < i + 1 && (entry_stem(#[trigger] nv[j]) matches Some(s)
                                    && shell_stem_pid(s) == Some(w as nat));
                            assert(j < i);
                        }
                    }
                }
            },
        }
        i = i + 1;
    }
    r
}

} // verus!
