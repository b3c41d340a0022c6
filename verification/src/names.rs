//! Naming rules for audio endpoints and executables.

use vstd::prelude::*;
use crate::text::{
    char_to_uppercase, contains_seq, find_from, find_str, last_index_of,
    lemma_find_from, lemma_last_index_of, rfind_char, str_contains, substring, to_lowercase, to_owned,
    unicode_lowercase, unicode_uppercase,
};

verus! {

/// A capture endpoint whose name marks it as a virtual cable.
pub open spec fn is_virtual_capture_spec(name: Seq<char>) -> bool {
    let n = unicode_lowercase(name);
    ||| contains_seq(n, "cable"@)
    ||| contains_seq(n, "vb-audio"@)
    ||| contains_seq(n, "virtual"@)
    ||| contains_seq(n, "voicemeeter"@)
}

/// Does this capture-device name look like a virtual cable?
pub fn is_virtual_capture(name: &str) -> (r: bool)
    ensures
        r == is_virtual_capture_spec(name@),
{
    let n = to_lowercase(name);
    let s = n.as_str();
    str_contains(s, "cable") || str_contains(s, "vb-audio") || str_contains(s, "virtual")
        || str_contains(s, "voicemeeter")
}

/// The adapter suffix of an endpoint name: from its last `(` to the end.
pub open spec fn adapter_suffix_spec(name: Seq<char>) -> Option<Seq<char>> {
    match last_index_of(name, '(') {
        Some(i) => Some(name.subrange(i, name.len() as int)),
        None => None,
    }
}

/// Adapter suffix "(VB-Audio …)" of an endpoint name — the part that is
/// never renamed.
pub fn adapter_suffix(name: &str) -> (r: Option<String>)
    ensures
        match r {
            Some(s) => adapter_suffix_spec(name@) == Some(s@),
            None => adapter_suffix_spec(name@) is None,
        },
{
    match rfind_char(name, '(') {
        Some(i) => {
            proof {
                lemma_last_index_of(name@, '(');
            }
            Some(substring(name, i, name.unicode_len()))
        },
        None => None,
    }
}

/// Display name of a device: what precedes the first `" ("`.
pub open spec fn short_device_name_spec(device: Seq<char>) -> Seq<char> {
    match find_from(device, " ("@, 0) {
        Some(i) => device.subrange(0, i),
        None => device,
    }
}

/// Short display name: "Haut-parleurs (Creative…)" becomes "Haut-parleurs".
pub fn short_device_name(device: &str) -> (r: String)
    ensures
        r@ == short_device_name_spec(device@),
{
    match find_str(device, " (") {
        Some(i) => {
            proof {
                lemma_find_from(device@, " ("@, 0);
            }
            substring(device, 0, i)
        },
        None => to_owned(device),
    }
}

/// Path separators recognised in executable paths.
pub open spec fn is_path_sep(c: char) -> bool {
    c == '\\' || c == '/'
}

/// Position of the last path separator in `s`.
pub open spec fn last_sep_index(s: Seq<char>) -> Option<int>
    decreases s.len(),
{
    if s.len() == 0 {
        None
    } else if is_path_sep(s.last()) {
        Some(s.len() - 1)
    } else {
        last_sep_index(s.drop_last())
    }
}

/// File-name component of a path: what follows the last `\` or `/`.
pub open spec fn file_name_spec(path: Seq<char>) -> Seq<char> {
    match last_sep_index(path) {
        Some(i) => path.subrange(i + 1, path.len() as int),
        None => path,
    }
}

/// Executable file name of a full image path.
pub fn file_name(path: &str) -> (r: String)
    ensures
        r@ == file_name_spec(path@),
{
    let n = path.unicode_len();
    let mut k: usize = n;
    proof {
        assert(path@.subrange(0, n as int) =~= path@);
    }
    while k > 0
        invariant
            k <= n,
            n == path@.len(),
            last_sep_index(path@) == last_sep_index(path@.subrange(0, k as int)),
        decreases k,
    {
        let ch = path.get_char(k - 1);
        let ghost pre = path@.subrange(0, k as int);
        if ch == '\\' || ch == '/' {
            return substring(path, k, n);
        }
        assert(pre.drop_last() =~= path@.subrange(0, k - 1));
        k -= 1;
    }
    to_owned(path)
}

/// `s` ends with `suf`.
pub open spec fn ends_with(s: Seq<char>, suf: Seq<char>) -> bool {
    suf.len() <= s.len() && s.subrange(s.len() - suf.len(), s.len() as int) == suf
}

/// `s` with every trailing repetition of `suf` removed
/// (the behaviour of `str::trim_end_matches` with a string pattern).
pub open spec fn trim_end_all(s: Seq<char>, suf: Seq<char>) -> Seq<char>
    decreases s.len(),
{
    if suf.len() > 0 && ends_with(s, suf) {
        trim_end_all(s.subrange(0, s.len() - suf.len()), suf)
    } else {
        s
    }
}

/// Removes every trailing repetition of `suf` from `s`.
pub fn trim_end_matches(s: &str, suf: &str) -> (r: String)
    ensures
        r@ == trim_end_all(s@, suf@),
{
    let m = suf.unicode_len();
    let mut end: usize = s.unicode_len();
    if m == 0 {
        return to_owned(s);
    }
    proof {
        assert(s@.subrange(0, end as int) =~= s@);
    }
    loop
        invariant
            m == suf@.len(),
            m > 0,
            end <= s@.len(),
            trim_end_all(s@, suf@) == trim_end_all(s@.subrange(0, end as int), suf@),
        decreases end,
    {
        if end < m {
            return substring(s, 0, end);
        }
        let mut j: usize = 0;
        let mut ok = true;
        while j < m
            invariant
                m == suf@.len(),
                m <= end <= s@.len(),
                j <= m,
                ok ==> forall|t: int| 0 <= t < j ==> s@[end - m + t] == suf@[t],
                !ok ==> exists|t: int| 0 <= t < m && s@[end - m + t] != suf@[t],
            decreases m - j,
        {
            if s.get_char(end - m + j) != suf.get_char(j) {
                ok = false;
            }
            j += 1;
        }
        let ghost pre = s@.subrange(0, end as int);
        if !ok {
            assert(!ends_with(pre, suf@)) by {
                let t = choose|t: int| 0 <= t < m && s@[end - m + t] != suf@[t];
                assert(pre.subrange(pre.len() - m, pre.len() as int)[t] == s@[end - m + t]);
            }
            return substring(s, 0, end);
        }
        assert(pre.subrange(pre.len() - m, pre.len() as int) =~= suf@);
        assert(pre.subrange(0, pre.len() - m) =~= s@.subrange(0, end - m));
        end = end - m;
    }
}

/// `s` with its first character upper-cased (Unicode mapping).
pub open spec fn capitalize_spec(s: Seq<char>) -> Seq<char> {
    if s.len() == 0 {
        s
    } else {
        unicode_uppercase(s[0]) + s.subrange(1, s.len() as int)
    }
}

/// Upper-cases the first character, keeps the rest.
pub fn capitalize(s: &str) -> (r: String)
    ensures
        r@ == capitalize_spec(s@),
{
    let n = s.unicode_len();
    if n == 0 {
        return String::new();
    }
    let mut head = char_to_uppercase(s.get_char(0));
    let rest = s.substring_char(1, n);
    head.append(rest);
    head
}

/// Label shown for an executable: extension dropped, first letter upper-cased.
pub open spec fn exe_label_spec(exe: Seq<char>) -> Seq<char> {
    capitalize_spec(trim_end_all(trim_end_all(exe, ".exe"@), ".EXE"@))
}

/// "spotify.exe" becomes "Spotify".
pub fn exe_label(exe: &str) -> (r: String)
    ensures
        r@ == exe_label_spec(exe@),
{
    let a = trim_end_matches(exe, ".exe");
    let b = trim_end_matches(a.as_str(), ".EXE");
    capitalize(b.as_str())
}

} // verus!
