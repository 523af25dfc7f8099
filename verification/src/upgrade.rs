//! Self-upgrade decisions: reading the latest release tag, comparing
//! versions, and recognising a `cargo install` build. The application runs
//! `curl`, `brew` and `cargo` and hands their output here.

use vstd::prelude::*;
use crate::text::{
    chars_of, parse_unsigned, parse_unsigned_exec, split_chars, split_on, str_concat, string_of,
    strip_prefix, strip_prefix_str, trim, trim_chars, views,
};

verus! {

/// The version a tag like `v1.2.3` or `1.2.3` names: the first three
/// `.`-separated parts, each a `u64`.
pub open spec fn version_of(s: Seq<char>) -> Option<(u64, u64, u64)> {
    let t = match strip_prefix(s, "v"@) {
        Some(r) => r,
        None => s,
    };
    let parts = split_on(t, '.');
    if parts.len() < 3 {
        None
    } else {
        match (
            parse_unsigned(parts[0], u64::MAX as nat),
            parse_unsigned(parts[1], u64::MAX as nat),
            parse_unsigned(parts[2], u64::MAX as nat),
        ) {
            (Some(a), Some(b), Some(c)) => Some((a as u64, b as u64, c as u64)),
            _ => None,
        }
    }
}

pub fn parse_version(s: &str) -> (r: Option<(u64, u64, u64)>)
    ensures
        r == version_of(s@),
{
    let v = chars_of(s);
    let t = match strip_prefix_str(v.as_slice(), "v") {
        Some(r) => r,
        None => v,
    };
    let parts = split_chars(t.as_slice(), '.');
    if parts.len() < 3 {
        return None;
    }
    proof {
        assert(views(parts@)[0] == parts@[0]@);
        assert(views(parts@)[1] == parts@[1]@);
        assert(views(parts@)[2] == parts@[2]@);
    }
    let a = parse_unsigned_exec(parts[0].as_slice(), 0xffff_ffff_ffff_ffff);
    let b = parse_unsigned_exec(parts[1].as_slice(), 0xffff_ffff_ffff_ffff);
    let c = parse_unsigned_exec(parts[2].as_slice(), 0xffff_ffff_ffff_ffff);
    match (a, b, c) {
        (Some(a), Some(b), Some(c)) => Some((a, b, c)),
        _ => None,
    }
}

/// `a` is a later version than `b` (major, then minor, then patch).
pub open spec fn newer(a: (u64, u64, u64), b: (u64, u64, u64)) -> bool {
    a.0 > b.0 || (a.0 == b.0 && (a.1 > b.1 || (a.1 == b.1 && a.2 > b.2)))
}

/// Version order is the strict lexicographic order on (major, minor,
/// patch): no version is newer than itself, of two different versions
/// exactly one is newer, the order is transitive, and a larger major, a
/// larger minor with the same major, or a larger patch with the same major
/// and minor makes a version newer.
pub proof fn lemma_newer_is_lexicographic(
    a: (u64, u64, u64),
    b: (u64, u64, u64),
    c: (u64, u64, u64),
)
    ensures
        !newer(a, a),
        a != b ==> (newer(a, b) <==> !newer(b, a)),
        newer(a, b) && newer(b, c) ==> newer(a, c),
        a.0 > b.0 ==> newer(a, b),
        a.0 == b.0 && a.1 > b.1 ==> newer(a, b),
        a.0 == b.0 && a.1 == b.1 && a.2 > b.2 ==> newer(a, b),
        newer(a, b) ==> a.0 >= b.0,
{
}

/// Whether the latest release is newer than the running version.
pub fn is_newer(latest: (u64, u64, u64), current: (u64, u64, u64)) -> (b: bool)
    ensures
        b == newer(latest, current),
{
    latest.0 > current.0 || (latest.0 == current.0 && (latest.1 > current.1 || (latest.1
        == current.1 && latest.2 > current.2)))
}

/// The release tag at the end of the URL the `releases/latest` redirect
/// leads to: the part after the last `/`, when it starts with `v`.
pub open spec fn release_tag_of(url: Seq<char>) -> Option<Seq<char>> {
    let last = split_on(url, '/').last();
    if last.len() > 0 && last[0] == 'v' {
        Some(last)
    } else {
        None
    }
}

/// Reads the release tag off the effective URL `curl` printed, or says what
/// was unexpected about it.
pub fn latest_release_tag(curl_output: &str) -> (r: Result<String, String>)
    ensures
        match r {
            Ok(tag) => release_tag_of(trim(curl_output@)) == Some(tag@),
            Err(msg) => release_tag_of(trim(curl_output@)) is None && msg@
                == "unexpected response resolving latest release: "@ + trim(curl_output@),
        },
{
    let url = trim_chars(chars_of(curl_output).as_slice());
    let parts = split_chars(url.as_slice(), '/');
    proof {
        crate::text::lemma_split_nonempty(url@, '/');
    }
    let n = parts.len();
    let last = &parts[n - 1];
    proof {
        assert(views(parts@).last() == parts@[n - 1]@);
    }
    if last.len() > 0 && last[0] == 'v' {
        Ok(string_of(last.as_slice()))
    } else {
        Err(
            string_of(
                str_concat("unexpected response resolving latest release: ", url.as_slice()).as_slice(),
            ),
        )
    }
}

/// The `cargo install` entry of tnote in `cargo install --list` output: the
/// rest of the first line starting with `tnote `, without trailing `:` and
/// surrounding whitespace.
pub open spec fn cargo_detail_of(ls: Seq<Seq<char>>) -> Option<Seq<char>>
    decreases ls.len(),
{
    if ls.len() == 0 {
        None
    } else {
        match strip_prefix(ls[0], "tnote "@) {
            Some(rest) => Some(trim(trim_end_colons(rest))),
            None => cargo_detail_of(ls.drop_first()),
        }
    }
}

/// `trim_end_matches(':')`.
pub open spec fn trim_end_colons(s: Seq<char>) -> Seq<char>
    decreases s.len(),
{
    if s.len() > 0 && s.last() == ':' {
        trim_end_colons(s.drop_last())
    } else {
        s
    }
}

fn trim_end_colons_exec(s: &[char]) -> (r: Vec<char>)
    ensures
        r@ == trim_end_colons(s@),
{
    let mut hi = s.len();
    proof {
        assert(s@.take(hi as int) =~= s@);
    }
    while hi > 0 && s[hi - 1] == ':'
        invariant
            hi <= s@.len(),
            trim_end_colons(s@) == trim_end_colons(s@.take(hi as int)),
        decreases hi,
    {
        proof {
            assert(s@.take(hi as int).drop_last() =~= s@.take(hi - 1));
        }
        hi = hi - 1;
    }
    crate::text::slice_copy(s, 0, hi)
}

/// The detail (e.g. `v0.3.8 (/path/to/checkout)`) of a `cargo install`
/// build of tnote, from the output of `cargo install --list`.
pub fn cargo_install_detail(list_output: &str) -> (r: Option<String>)
    ensures
        match r {
            Some(d) => cargo_detail_of(crate::text::lines(list_output@)) == Some(d@),
            None => cargo_detail_of(crate::text::lines(list_output@)) is None,
        },
{
    let cv = chars_of(list_output);
    let ls = crate::text::lines_of(cv.as_slice());
    let ghost lv = views(ls@);
    let n = ls.len();
    let mut i: usize = 0;
    proof {
        assert(lv.skip(0) =~= lv);
    }
    while i < n
        invariant
            n == ls@.len() == lv.len(),
            lv == views(ls@),
            lv == crate::text::lines(list_output@),
            0 <= i <= n,
            cargo_detail_of(lv) == cargo_detail_of(lv.skip(i as int)),
        decreases n - i,
    {
        proof {
            assert(lv.skip(i as int)[0] == ls@[i as int]@);
            assert(lv.skip(i as int).drop_first() =~= lv.skip(i + 1));
        }
        match strip_prefix_str(ls[i].as_slice(), "tnote ") {
            Some(rest) => {
                let t = trim_end_colons_exec(rest.as_slice());
                return Some(string_of(trim_chars(t.as_slice()).as_slice()));
            },
            None => {},
        }
        i = i + 1;
    }
    None
}

} // verus!
