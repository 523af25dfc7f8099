//! Settings: the notes directory, the editor, the key binding and the popup
//! size, each taken from the environment, else from the config file
//! `<dir>/meta/config` (`key=value` lines), else a default.
//!
//! The application reads the environment and the file; these functions
//! decide what the settings are and what the file holds.

use vstd::prelude::*;
use crate::text::{
    char_index, chars_of, extend, extend_str, find_char, joined_path, join_path,
    lemma_char_index, lines, lines_of, slice_copy, split_on, str_views, string_of, strip_cr,
    trim, trim_chars, trim_end, trim_start, views,
};

verus! {

/// tnote's settings.
pub struct Config {
    pub dir: String,
    /// Popup width: columns, or a percentage of the terminal like `100%`.
    pub width: String,
    /// Popup height: lines, or a percentage of the terminal like `50%`.
    pub height: String,
    pub key: String,
    pub editor: String,
}

// ───────────────────────────── the config file ─────────────────────────────

/// A `key=value` line read as its trimmed key and value (split at the first
/// `=`); a line without `=` says nothing.
pub open spec fn line_entry(l: Seq<char>) -> Option<(Seq<char>, Seq<char>)> {
    let i = char_index(l, '=');
    if i < 0 {
        None
    } else {
        Some((trim(l.take(i)), trim(l.skip(i + 1))))
    }
}

/// The settings the lines give; a later line for the same key wins.
pub open spec fn config_map_of(ls: Seq<Seq<char>>) -> Map<Seq<char>, Seq<char>>
    decreases ls.len(),
{
    if ls.len() == 0 {
        Map::empty()
    } else {
        let m = config_map_of(ls.drop_last());
        match line_entry(ls.last()) {
            Some((k, v)) => m.insert(k, v),
            None => m,
        }
    }
}

/// The settings a config file's content gives.
pub open spec fn config_of(content: Seq<char>) -> Map<Seq<char>, Seq<char>> {
    config_map_of(lines(content))
}

/// The map of (key, value) pairs; a later pair for the same key wins.
pub open spec fn pairs_map(s: Seq<(Seq<char>, Seq<char>)>) -> Map<Seq<char>, Seq<char>>
    decreases s.len(),
{
    if s.len() == 0 {
        Map::empty()
    } else {
        pairs_map(s.drop_last()).insert(s.last().0, s.last().1)
    }
}

pub open spec fn distinct_keys(s: Seq<(Seq<char>, Seq<char>)>) -> bool {
    forall|a: int, b: int| 0 <= a < b < s.len() ==> s[a].0 != s[b].0
}

pub open spec fn pair_views(v: Seq<(String, String)>) -> Seq<(Seq<char>, Seq<char>)> {
    v.map_values(|p: (String, String)| (p.0@, p.1@))
}

/// The keys of the map are those of the pairs.
proof fn lemma_pairs_map_dom(s: Seq<(Seq<char>, Seq<char>)>, k: Seq<char>)
    ensures
        pairs_map(s).dom().contains(k) <==> exists|i: int| 0 <= i < s.len() && s[i].0 == k,
        pairs_map(s).dom().finite(),
    decreases s.len(),
{
    if s.len() > 0 {
        lemma_pairs_map_dom(s.drop_last(), k);
        if exists|i: int| 0 <= i < s.len() && s[i].0 == k {
            let i = choose|i: int| 0 <= i < s.len() && s[i].0 == k;
            if i < s.len() - 1 {
                assert(s.drop_last()[i].0 == k);
            }
        }
        if exists|i: int| 0 <= i < s.drop_last().len() && s.drop_last()[i].0 == k {
            let i = choose|i: int| 0 <= i < s.drop_last().len() && s.drop_last()[i].0 == k;
            assert(s[i].0 == k);
        }
    }
}

/// With distinct keys, the map has one key per pair.
proof fn lemma_pairs_map_len(s: Seq<(Seq<char>, Seq<char>)>)
    requires
        distinct_keys(s),
    ensures
        pairs_map(s).dom().len() == s.len(),
    decreases s.len(),
{
    if s.len() > 0 {
        let t = s.drop_last();
        assert(distinct_keys(t)) by {
            assert forall|a: int, b: int| 0 <= a < b < t.len() implies t[a].0 != t[b].0 by {
                assert(t[a] == s[a] && t[b] == s[b]);
            }
        }
        lemma_pairs_map_len(t);
        lemma_pairs_map_dom(t, s.last().0);
        assert(!pairs_map(t).dom().contains(s.last().0)) by {
            if pairs_map(t).dom().contains(s.last().0) {
                let i = choose|i: int| 0 <= i < t.len() && t[i].0 == s.last().0;
                assert(s[i].0 == s[s.len() - 1].0);
            }
        }
        assert(pairs_map(s).dom() =~= pairs_map(t).dom().insert(s.last().0));
    }
}

/// Replacing the value of a pair replaces it in the map.
proof fn lemma_pairs_map_update(s: Seq<(Seq<char>, Seq<char>)>, idx: int, v: Seq<char>)
    requires
        distinct_keys(s),
        0 <= idx < s.len(),
    ensures
        pairs_map(s.update(idx, (s[idx].0, v))) == pairs_map(s).insert(s[idx].0, v),
    decreases s.len(),
{
    let k = s[idx].0;
    let u = s.update(idx, (k, v));
    let t = s.drop_last();
    if idx == s.len() - 1 {
        assert(u.drop_last() =~= t);
        assert(pairs_map(u) =~= pairs_map(s).insert(k, v));
    } else {
        assert(distinct_keys(t)) by {
            assert forall|a: int, b: int| 0 <= a < b < t.len() implies t[a].0 != t[b].0 by {
                assert(t[a] == s[a] && t[b] == s[b]);
            }
        }
        lemma_pairs_map_update(t, idx, v);
        assert(u.drop_last() =~= t.update(idx, (k, v)));
        assert(s.last().0 != k) by {
            assert(s[idx].0 != s[s.len() - 1].0);
        }
        assert(pairs_map(u) =~= pairs_map(s).insert(k, v));
    }
}

/// The settings of a config file.
pub struct ConfigMap {
    entries: Vec<(String, String)>,
}

impl ConfigMap {
    #[verifier::type_invariant]
    spec fn wf(self) -> bool {
        distinct_keys(pair_views(self.entries@))
    }

    pub closed spec fn as_map(self) -> Map<Seq<char>, Seq<char>> {
        pairs_map(pair_views(self.entries@))
    }
}

impl View for ConfigMap {
    type V = Map<Seq<char>, Seq<char>>;

    open spec fn view(&self) -> Map<Seq<char>, Seq<char>> {
        self.as_map()
    }
}

fn line_entry_exec(l: &[char]) -> (r: Option<(Vec<char>, Vec<char>)>)
    ensures
        match r {
            Some((k, v)) => line_entry(l@) == Some((k@, v@)),
            None => line_entry(l@) is None,
        },
{
    proof {
        lemma_char_index(l@, '=');
    }
    match find_char(l, '=') {
        Some(i) => {
            let n = l.len();
            let k = trim_chars(slice_copy(l, 0, i).as_slice());
            let v = trim_chars(slice_copy(l, i + 1, n).as_slice());
            proof {
                assert(l@.subrange(0, i as int) =~= l@.take(i as int));
                assert(l@.subrange(i + 1, n as int) =~= l@.skip(i + 1));
            }
            Some((k, v))
        },
        None => None,
    }
}

impl ConfigMap {
    /// The value set for `key`, if any.
    pub fn get(&self, key: &str) -> (r: Option<String>)
        ensures
            match r {
                Some(v) => self@.dom().contains(key@) && self@[key@] == v@,
                None => !self@.dom().contains(key@),
            },
    {
        proof {
            use_type_invariant(self);
        }
        let kv = chars_of(key);
        let ghost pv = pair_views(self.entries@);
        let n = self.entries.len();
        let mut i: usize = 0;
        while i < n
            invariant
                n == self.entries@.len() == pv.len(),
                pv == pair_views(self.entries@),
                distinct_keys(pv),
                kv@ == key@,
                0 <= i <= n,
                forall|j: int| 0 <= j < i ==> pv[j].0 != key@,
            decreases n - i,
        {
            let cand = chars_of(self.entries[i].0.as_str());
            if crate::text::chars_eq(cand.as_slice(), kv.as_slice()) {
                proof {
                    lemma_map_of_distinct(pv, i as int);
                }
                return Some(string_of(chars_of(self.entries[i].1.as_str()).as_slice()));
            }
            i = i + 1;
        }
        proof {
            lemma_pairs_map_dom(pv, key@);
        }
        None
    }

    /// Whether `key` is set.
    pub fn contains_key(&self, key: &str) -> (b: bool)
        ensures
            b == self@.dom().contains(key@),
    {
        self.get(key).is_some()
    }

    /// The number of keys set.
    pub fn len(&self) -> (r: usize)
        ensures
            r == self@.dom().len(),
    {
        proof {
            use_type_invariant(self);
            lemma_pairs_map_len(pair_views(self.entries@));
        }
        self.entries.len()
    }

    /// Whether no key is set.
    pub fn is_empty(&self) -> (b: bool)
        ensures
            b == (self@.dom().len() == 0),
    {
        self.len() == 0
    }
}

/// In a map of pairs with distinct keys, each pair's value is the key's.
proof fn lemma_map_of_distinct(s: Seq<(Seq<char>, Seq<char>)>, i: int)
    requires
        distinct_keys(s),
        0 <= i < s.len(),
    ensures
        pairs_map(s).dom().contains(s[i].0),
        pairs_map(s)[s[i].0] == s[i].1,
    decreases s.len(),
{
    if i < s.len() - 1 {
        let t = s.drop_last();
        assert(distinct_keys(t)) by {
            assert forall|a: int, b: int| 0 <= a < b < t.len() implies t[a].0 != t[b].0 by {
                assert(t[a] == s[a] && t[b] == s[b]);
            }
        }
        lemma_map_of_distinct(t, i);
        assert(t[i] == s[i]);
        assert(s[i].0 != s[s.len() - 1].0);
    }
}

fn find_key(entries: &Vec<(String, String)>, k: &[char]) -> (r: Option<usize>)
    ensures
        match r {
            Some(j) => j < entries@.len() && pair_views(entries@)[j as int].0 == k@,
            None => forall|q: int|
                0 <= q < entries@.len() ==> pair_views(entries@)[q].0 != k@,
        },
{
    let ghost pv = pair_views(entries@);
    let m = entries.len();
    let mut j: usize = 0;
    while j < m
        invariant
            m == entries@.len() == pv.len(),
            pv == pair_views(entries@),
            0 <= j <= m,
            forall|q: int| 0 <= q < j ==> pv[q].0 != k@,
        decreases m - j,
    {
        let cand = chars_of(entries[j].0.as_str());
        if crate::text::chars_eq(cand.as_slice(), k) {
            return Some(j);
        }
        j = j + 1;
    }
    None
}

/// Reads the settings of a config file from its content (`None` when the
/// file is missing or unreadable): trimmed `key=value` pairs, one per line;
/// lines without `=` are ignored, and a later line for a key wins.
pub fn read_config_file(content: Option<&str>) -> (r: ConfigMap)
    ensures
        r@ == match content {
            Some(c) => config_of(c@),
            None => Map::<Seq<char>, Seq<char>>::empty(),
        },
{
    let mut entries: Vec<(String, String)> = Vec::new();
    let c = match content {
        Some(c) => c,
        None => {
            proof {
                assert(pairs_map(pair_views(entries@)) =~= Map::<Seq<char>, Seq<char>>::empty());
            }
            return ConfigMap { entries };
        },
    };
    let v = chars_of(c);
    let ls = lines_of(v.as_slice());
    let ghost lv = views(ls@);
    let n = ls.len();
    let mut i: usize = 0;
    proof {
        assert(pair_views(entries@) =~= Seq::<(Seq<char>, Seq<char>)>::empty());
        assert(lv.take(0) =~= Seq::<Seq<char>>::empty());
    }
    while i < n
        invariant
            n == ls@.len() == lv.len(),
            lv == views(ls@),
            lv == lines(c@),
            0 <= i <= n,
            distinct_keys(pair_views(entries@)),
            pairs_map(pair_views(entries@)) == config_map_of(lv.take(i as int)),
        decreases n - i,
    {
        let ghost pv = pair_views(entries@);
        proof {
            assert(lv.take(i + 1).drop_last() =~= lv.take(i as int));
            assert(lv.take(i + 1).last() == ls@[i as int]@);
        }
        match line_entry_exec(ls[i].as_slice()) {
            Some((k, val)) => {
                let found = find_key(&entries, k.as_slice());
                if let Some(j) = found {
                    proof {
                        lemma_pairs_map_update(pv, j as int, val@);
                    }
                    let ks = string_of(k.as_slice());
                    let vs = string_of(val.as_slice());
                    entries.set(j, (ks, vs));
                    proof {
                        assert(pair_views(entries@) =~= pv.update(j as int, (pv[j as int].0, val@)));
                        assert forall|a: int, b: int|
                            0 <= a < b < pair_views(entries@).len() implies pair_views(
                            entries@,
                        )[a].0 != pair_views(entries@)[b].0 by {
                            assert(pair_views(entries@)[a].0 == pv[a].0);
                            assert(pair_views(entries@)[b].0 == pv[b].0);
                        }
                    }
                } else {
                    let ks = string_of(k.as_slice());
                    let vs = string_of(val.as_slice());
                    entries.push((ks, vs));
                    proof {
                        assert(pair_views(entries@) =~= pv.push((k@, val@)));
                        assert(pair_views(entries@).drop_last() =~= pv);
                        assert forall|a: int, b: int|
                            0 <= a < b < pair_views(entries@).len() implies pair_views(
                            entries@,
                        )[a].0 != pair_views(entries@)[b].0 by {
                            if b < pv.len() {
                                assert(pair_views(entries@)[a].0 == pv[a].0);
                                assert(pair_views(entries@)[b].0 == pv[b].0);
                            } else {
                                assert(pair_views(entries@)[a].0 == pv[a].0);
                            }
                        }
                    }
                }
            },
            None => {},
        }
        i = i + 1;
    }
    proof {
        assert(lv.take(n as int) =~= lv);
    }
    ConfigMap { entries }
}

// ───────────────────────────── writing the file ─────────────────────────────

/// One `key=value` line.
pub open spec fn setting_line(key: Seq<char>, value: Seq<char>) -> Seq<char> {
    key + "="@ + value + "\n"@
}

/// The config file tnote writes: editor, key, width and height, then the
/// list annotation when there is one.
pub open spec fn config_text_of(
    editor: Seq<char>,
    key: Seq<char>,
    width: Seq<char>,
    height: Seq<char>,
    annotation: Option<Seq<char>>,
) -> Seq<char> {
    setting_line("editor"@, editor) + setting_line("key"@, key) + setting_line("width"@, width)
        + setting_line("height"@, height) + match annotation {
        Some(a) => setting_line("ls_annotation"@, a),
        None => Seq::<char>::empty(),
    }
}

/// The config file of the notes directory `dir`: `<dir>/meta/config`.
pub fn config_file(dir: &str) -> (r: String)
    ensures
        r@ == joined_path(joined_path(dir@, "meta"@), "config"@),
{
    let d = chars_of(dir);
    let m = join_path(d.as_slice(), chars_of("meta").as_slice());
    string_of(join_path(m.as_slice(), chars_of("config").as_slice()).as_slice())
}

impl Config {
    /// `<dir>/meta/config`.
    pub fn config_path(&self) -> (r: String)
        ensures
            r@ == joined_path(joined_path(self.dir@, "meta"@), "config"@),
    {
        config_file(self.dir.as_str())
    }

    /// What saving the settings writes to the config file.
    pub fn save_text(&self, ls_annotation: Option<&str>) -> (r: String)
        ensures
            r@ == config_text_of(
                self.editor@,
                self.key@,
                self.width@,
                self.height@,
                match ls_annotation {
                    Some(a) => Some(a@),
                    None => None,
                },
            ),
    {
        let mut t: Vec<char> = Vec::new();
        extend_str(&mut t, "editor");
        extend_str(&mut t, "=");
        extend_str(&mut t, self.editor.as_str());
        extend_str(&mut t, "\n");
        extend_str(&mut t, "key");
        extend_str(&mut t, "=");
        extend_str(&mut t, self.key.as_str());
        extend_str(&mut t, "\n");
        extend_str(&mut t, "width");
        extend_str(&mut t, "=");
        extend_str(&mut t, self.width.as_str());
        extend_str(&mut t, "\n");
        extend_str(&mut t, "height");
        extend_str(&mut t, "=");
        extend_str(&mut t, self.height.as_str());
        extend_str(&mut t, "\n");
        let ghost base = t@;
        match ls_annotation {
            Some(a) => {
                extend_str(&mut t, "ls_annotation");
                extend_str(&mut t, "=");
                extend_str(&mut t, a);
                extend_str(&mut t, "\n");
            },
            None => {},
        }
        proof {
            assert(base =~= setting_line("editor"@, self.editor@) + setting_line("key"@, self.key@)
                + setting_line("width"@, self.width@) + setting_line("height"@, self.height@));
            match ls_annotation {
                Some(a) => {
                    assert(t@ =~= base + setting_line("ls_annotation"@, a@));
                },
                None => {
                    assert(t@ =~= base + Seq::<char>::empty());
                },
            }
        }
        string_of(t.as_slice())
    }
}

/// A value that survives a trip through the file: no line break, and no
/// whitespace at either end.
pub open spec fn plain_value(v: Seq<char>) -> bool {
    trim(v) == v && !v.contains('\n')
}

/// A setting's name: no `=`, no line break, no whitespace at either end.
pub open spec fn plain_key(k: Seq<char>) -> bool {
    plain_value(k) && !k.contains('=')
}

proof fn lemma_line_entry(k: Seq<char>, v: Seq<char>)
    requires
        plain_key(k),
        plain_value(v),
    ensures
        line_entry(k + "="@ + v) == Some((k, v)),
{
    reveal_strlit("=");
    let l = k + "="@ + v;
    assert(l[k.len() as int] == '=');
    lemma_char_index(l, '=');
    let ci = char_index(l, '=');
    assert(ci == k.len()) by {
        if ci < k.len() {
            assert(l[ci] == k[ci]);
            assert(k.contains('='));
        }
    }
    assert(l.take(k.len() as int) =~= k);
    assert(l.skip(k.len() as int + 1) =~= v);
}

/// A setting line read back as its line: `key=value` without the line break.
proof fn lemma_setting_line_split(k: Seq<char>, v: Seq<char>, rest: Seq<char>)
    requires
        plain_key(k),
        plain_value(v),
    ensures
        split_on(setting_line(k, v) + rest, '\n') == seq![k + "="@ + v] + split_on(rest, '\n'),
        strip_cr(k + "="@ + v) == k + "="@ + v,
{
    reveal_strlit("=");
    reveal_strlit("\n");
    let l = k + "="@ + v;
    assert(!l.contains('\n')) by {
        if l.contains('\n') {
            let j = choose|j: int| 0 <= j < l.len() && l[j] == '\n';
            if j < k.len() {
                assert(k[j] == '\n');
            } else if j > k.len() {
                assert(v[j - k.len() - 1] == '\n');
            }
        }
    }
    assert(setting_line(k, v) + rest =~= l + seq!['\n'] + rest);
    crate::text::lemma_split_concat(l, rest, '\n');
    if v.len() > 0 {
        crate::text::lemma_trimmed_ends(v);
        assert(l.last() == v.last());
    } else {
        assert(l.last() == '=');
    }
}

proof fn lemma_keys_plain()
    ensures
        plain_key("editor"@),
        plain_key("key"@),
        plain_key("width"@),
        plain_key("height"@),
        plain_key("ls_annotation"@),
{
    reveal_strlit("editor");
    reveal_strlit("key");
    reveal_strlit("width");
    reveal_strlit("height");
    reveal_strlit("ls_annotation");
    assert(trim_start("editor"@) == "editor"@);
    assert(trim_end("editor"@) == "editor"@);
}

/// The settings tnote writes are the settings it reads back: for values
/// without line breaks or surrounding whitespace, reading the saved config
/// file gives exactly the editor, key, width, height and (when saved) list
/// annotation.
pub proof fn lemma_config_round_trip(
    editor: Seq<char>,
    key: Seq<char>,
    width: Seq<char>,
    height: Seq<char>,
    annotation: Option<Seq<char>>,
)
    requires
        plain_value(editor),
        plain_value(key),
        plain_value(width),
        plain_value(height),
        annotation matches Some(a) ==> plain_value(a),
    ensures
        config_of(config_text_of(editor, key, width, height, annotation)) == ({
            let m = Map::<Seq<char>, Seq<char>>::empty().insert("editor"@, editor).insert(
                "key"@,
                key,
            ).insert("width"@, width).insert("height"@, height);
            match annotation {
                Some(a) => m.insert("ls_annotation"@, a),
                None => m,
            }
        }),
{
    lemma_keys_plain();
    let e: Seq<char> = Seq::empty();
    let l1 = "editor"@ + "="@ + editor;
    let l2 = "key"@ + "="@ + key;
    let l3 = "width"@ + "="@ + width;
    let l4 = "height"@ + "="@ + height;
    let tail = match annotation {
        Some(a) => setting_line("ls_annotation"@, a),
        None => e,
    };
    let tail_lines: Seq<Seq<char>> = match annotation {
        Some(a) => seq!["ls_annotation"@ + "="@ + a],
        None => Seq::empty(),
    };
    assert(split_on(e, '\n') == seq![e]);
    match annotation {
        Some(a) => {
            lemma_setting_line_split("ls_annotation"@, a, e);
            lemma_line_entry("ls_annotation"@, a);
            assert(setting_line("ls_annotation"@, a) + e =~= tail);
        },
        None => {},
    }
    assert(split_on(tail, '\n') =~= tail_lines + seq![e]);
    let r4 = setting_line("height"@, height) + tail;
    let r3 = setting_line("width"@, width) + r4;
    let r2 = setting_line("key"@, key) + r3;
    let r1 = setting_line("editor"@, editor) + r2;
    lemma_setting_line_split("height"@, height, tail);
    lemma_setting_line_split("width"@, width, r4);
    lemma_setting_line_split("key"@, key, r3);
    lemma_setting_line_split("editor"@, editor, r2);
    lemma_line_entry("editor"@, editor);
    lemma_line_entry("key"@, key);
    lemma_line_entry("width"@, width);
    lemma_line_entry("height"@, height);
    assert(config_text_of(editor, key, width, height, annotation) =~= r1);
    let ls = seq![l1, l2, l3, l4] + tail_lines;
    let p = split_on(r1, '\n');
    assert(p =~= ls + seq![e]);
    assert(p.drop_last() =~= ls);
    assert(lines(r1) =~= ls) by {
        assert(p.drop_last().map_values(|l: Seq<char>| strip_cr(l)) =~= ls) by {
            match annotation {
                Some(a) => {
                    lemma_setting_line_split("ls_annotation"@, a, e);
                },
                None => {},
            }
        }
    }
    let m4 = Map::<Seq<char>, Seq<char>>::empty().insert("editor"@, editor).insert("key"@, key).insert(
        "width"@,
        width,
    ).insert("height"@, height);
    assert(ls.take(4) =~= seq![l1, l2, l3, l4]);
    assert(seq![l1, l2, l3, l4].drop_last() =~= seq![l1, l2, l3]);
    assert(seq![l1, l2, l3].drop_last() =~= seq![l1, l2]);
    assert(seq![l1, l2].drop_last() =~= seq![l1]);
    assert(seq![l1].drop_last() =~= Seq::<Seq<char>>::empty());
    assert(config_map_of(Seq::<Seq<char>>::empty()) == Map::<Seq<char>, Seq<char>>::empty());
    assert(seq![l1].last() == l1);
    assert(config_map_of(seq![l1]) =~= Map::<Seq<char>, Seq<char>>::empty().insert("editor"@, editor));
    assert(config_map_of(seq![l1, l2]) == Map::<Seq<char>, Seq<char>>::empty().insert(
        "editor"@,
        editor,
    ).insert("key"@, key));
    assert(config_map_of(seq![l1, l2, l3]) == Map::<Seq<char>, Seq<char>>::empty().insert(
        "editor"@,
        editor,
    ).insert("key"@, key).insert("width"@, width));
    assert(config_map_of(seq![l1, l2, l3, l4]) == m4);
    match annotation {
        Some(a) => {
            assert(ls.drop_last() =~= seq![l1, l2, l3, l4]);
        },
        None => {
            assert(ls =~= seq![l1, l2, l3, l4]);
        },
    }
}

// ───────────────────────────── reading the settings ─────────────────────────────

pub open spec fn opt_str(o: Option<&str>) -> Option<Seq<char>> {
    match o {
        Some(s) => Some(s@),
        None => None,
    }
}

pub open spec fn opt_string(o: Option<String>) -> Option<Seq<char>> {
    match o {
        Some(s) => Some(s@),
        None => None,
    }
}

/// A setting: from the environment when set there, else from the config
/// file, else the default.
pub open spec fn setting_of(env_val: Option<Seq<char>>, file_val: Option<Seq<char>>, default: Seq<char>) -> Seq<char> {
    match env_val {
        Some(v) => v,
        None => match file_val {
            Some(v) => v,
            None => default,
        },
    }
}

/// A setting from the environment (`env_val`), else the config file
/// (`file_val`), else `default`.
pub fn parse_str(env_val: Option<&str>, file_val: Option<&str>, default: &str) -> (r: String)
    ensures
        r@ == setting_of(opt_str(env_val), opt_str(file_val), default@),
{
    match env_val {
        Some(v) => string_of(chars_of(v).as_slice()),
        None => match file_val {
            Some(v) => string_of(chars_of(v).as_slice()),
            None => string_of(chars_of(default).as_slice()),
        },
    }
}

/// The environment variables tnote reads its settings from: `TNOTE_WIDTH`,
/// `TNOTE_HEIGHT`, `TNOTE_KEY`, `EDITOR`, `TNOTE_LS_ANNOTATION`.
pub struct ConfigEnv {
    pub width: Option<String>,
    pub height: Option<String>,
    pub key: Option<String>,
    pub editor: Option<String>,
    pub ls_annotation: Option<String>,
}

pub open spec fn file_value(file: Map<Seq<char>, Seq<char>>, key: Seq<char>) -> Option<Seq<char>> {
    if file.dom().contains(key) {
        Some(file[key])
    } else {
        None
    }
}

fn file_get(file: &ConfigMap, key: &str) -> (r: Option<String>)
    ensures
        opt_string(r) == file_value(file@, key@),
{
    file.get(key)
}

fn as_opt_str(o: &Option<String>) -> (r: Option<&str>)
    ensures
        opt_str(r) == opt_string(*o),
{
    match o {
        Some(s) => Some(s.as_str()),
        None => None,
    }
}

impl Config {
    /// The settings for the notes directory `dir`: each from the
    /// environment, else the config file, else its default (width `100%`,
    /// height `50%`, key `t`, editor `vim`).
    pub fn from_env(dir: String, env: &ConfigEnv, file: &ConfigMap) -> (r: Config)
        ensures
            r.dir@ == dir@,
            r.width@ == setting_of(opt_string(env.width), file_value(file@, "width"@), "100%"@),
            r.height@ == setting_of(opt_string(env.height), file_value(file@, "height"@), "50%"@),
            r.key@ == setting_of(opt_string(env.key), file_value(file@, "key"@), "t"@),
            r.editor@ == setting_of(opt_string(env.editor), file_value(file@, "editor"@), "vim"@),
    {
        let fw = file_get(file, "width");
        let fh = file_get(file, "height");
        let fk = file_get(file, "key");
        let fe = file_get(file, "editor");
        Config {
            width: parse_str(as_opt_str(&env.width), as_opt_str(&fw), "100%"),
            height: parse_str(as_opt_str(&env.height), as_opt_str(&fh), "50%"),
            key: parse_str(as_opt_str(&env.key), as_opt_str(&fk), "t"),
            editor: parse_str(as_opt_str(&env.editor), as_opt_str(&fe), "vim"),
            dir,
        }
    }
}

/// The shell command whose output `tnote list` shows beside each note, from
/// the environment, else the config file; none means the line count.
pub fn ls_annotation(env: &ConfigEnv, file: &ConfigMap) -> (r: Option<String>)
    ensures
        opt_string(r) == match opt_string(env.ls_annotation) {
            Some(v) => Some(v),
            None => file_value(file@, "ls_annotation"@),
        },
{
    match &env.ls_annotation {
        Some(v) => Some(string_of(chars_of(v.as_str()).as_slice())),
        None => file_get(file, "ls_annotation"),
    }
}

/// The notes directory: `TNOTE_DIR` when set, else `~/.tnote` (with `.`
/// for a missing `HOME`).
pub fn notes_dir(tnote_dir: Option<&str>, home: Option<&str>) -> (r: String)
    ensures
        r@ == match tnote_dir {
            Some(d) => d@,
            None => joined_path(
                match home {
                    Some(h) => h@,
                    None => "."@,
                },
                ".tnote"@,
            ),
        },
{
    match tnote_dir {
        Some(d) => string_of(chars_of(d).as_slice()),
        None => {
            let h = match home {
                Some(h) => chars_of(h),
                None => chars_of("."),
            };
            string_of(join_path(h.as_slice(), chars_of(".tnote").as_slice()).as_slice())
        },
    }
}

/// Which older notes directory moves to `~/.tnote` on first use.
pub enum DirMigration {
    /// Nothing to move: `~/.tnote` exists, or no older directory does.
    Keep,
    /// Move `~/.tnotes`.
    FromTnotes,
    /// Move `~/.termnotes`.
    FromTermnotes,
}

/// When `~/.tnote` does not exist, an older `~/.tnotes`, else
/// `~/.termnotes`, becomes it.
pub fn dir_migration(target_exists: bool, tnotes_exists: bool, termnotes_exists: bool) -> (r:
    DirMigration)
    ensures
        r is FromTnotes <==> !target_exists && tnotes_exists,
        r is FromTermnotes <==> !target_exists && !tnotes_exists && termnotes_exists,
        r is Keep <==> target_exists || (!tnotes_exists && !termnotes_exists),
{
    if target_exists {
        DirMigration::Keep
    } else if tnotes_exists {
        DirMigration::FromTnotes
    } else if termnotes_exists {
        DirMigration::FromTermnotes
    } else {
        DirMigration::Keep
    }
}

/// The older notes directories under `home`: `.tnotes` and `.termnotes`.
pub fn legacy_dirs(home: Option<&str>) -> (r: (String, String))
    ensures
        ({
            let h = match home {
                Some(h) => h@,
                None => "."@,
            };
            r.0@ == joined_path(h, ".tnotes"@) && r.1@ == joined_path(h, ".termnotes"@)
        }),
{
    let h = match home {
        Some(h) => chars_of(h),
        None => chars_of("."),
    };
    (
        string_of(join_path(h.as_slice(), chars_of(".tnotes").as_slice()).as_slice()),
        string_of(join_path(h.as_slice(), chars_of(".termnotes").as_slice()).as_slice()),
    )
}

/// A numeric setting: the environment's value when it reads as a `u16`,
/// else the config file's when it does, else the default.
pub open spec fn u16_setting_of(env_val: Option<Seq<char>>, file_val: Option<Seq<char>>, default: u16) -> u16 {
    match env_val {
        Some(v) if crate::text::parse_unsigned(v, u16::MAX as nat) is Some => crate::text::parse_unsigned(
            v,
            u16::MAX as nat,
        )->0 as u16,
        _ => match file_val {
            Some(v) if crate::text::parse_unsigned(v, u16::MAX as nat) is Some => crate::text::parse_unsigned(
                v,
                u16::MAX as nat,
            )->0 as u16,
            _ => default,
        },
    }
}

pub fn parse_u16(env_val: Option<&str>, file_val: Option<&str>, default: u16) -> (r: u16)
    ensures
        r == u16_setting_of(opt_str(env_val), opt_str(file_val), default),
{
    match env_val {
        Some(v) => match crate::text::parse_unsigned_exec(chars_of(v).as_slice(), 0xffff) {
            Some(n) => {
                return n as u16;
            },
            None => {},
        },
        None => {},
    }
    match file_val {
        Some(v) => match crate::text::parse_unsigned_exec(chars_of(v).as_slice(), 0xffff) {
            Some(n) => n as u16,
            None => default,
        },
        None => default,
    }
}

} // verus!
