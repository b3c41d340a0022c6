//! Pairing a virtual cable's capture side with its render side, and what a
//! cable binding needs to know about its line.

use vstd::prelude::*;
use crate::model::{AppConfig, find_line, line_has_id};
use crate::names::{adapter_suffix, adapter_suffix_spec, ends_with};
use crate::seqs::{first_match, first_match_from, lemma_first_match};
use crate::text::to_owned;

verus! {

/// Does `s` end with `suf`?
pub fn str_ends_with(s: &str, suf: &str) -> (r: bool)
    ensures
        r == ends_with(s@, suf@),
{
    let n = s.unicode_len();
    let m = suf.unicode_len();
    if m > n {
        return false;
    }
    let mut j: usize = 0;
    while j < m
        invariant
            n == s@.len(),
            m == suf@.len(),
            m <= n,
            j <= m,
            forall|t: int| 0 <= t < j ==> s@[n - m + t] == suf@[t],
        decreases m - j,
    {
        if s.get_char(n - m + j) != suf.get_char(j) {
            assert(s@.subrange(n - m, n as int)[j as int] != suf@[j as int]);
            return false;
        }
        j += 1;
    }
    assert(s@.subrange(n - m, n as int) =~= suf@);
    true
}

/// Error for a capture name without an adapter suffix.
pub open spec fn odd_cable_msg(capture_name: Seq<char>) -> Seq<char> {
    "nom de câble inattendu : \""@ + capture_name + "\""@
}

/// The adapter suffix a cable's capture and render sides share, e.g.
/// "(VB-Audio Virtual Cable)": renames never touch it, so it pairs the two
/// sides even after the render side took a line's name.
pub fn cable_suffix(capture_name: &str) -> (r: Result<String, String>)
    ensures
        match r {
            Ok(s) => adapter_suffix_spec(capture_name@) == Some(s@),
            Err(e) => adapter_suffix_spec(capture_name@) is None && e@ == odd_cable_msg(capture_name@),
        },
{
    match adapter_suffix(capture_name) {
        Some(s) => Ok(s),
        None => {
            let mut m = to_owned("nom de câble inattendu : \"");
            m.append(capture_name);
            m.append("\"");
            Err(m)
        },
    }
}

/// Error when no render endpoint carries the suffix.
pub open spec fn render_side_missing_msg(suffix: Seq<char>) -> Seq<char> {
    "côté rendu du câble \""@ + suffix + "\" introuvable — VB-Cable est-il toujours installé ?"@
}

/// The name ends with the suffix.
pub open spec fn named_with_suffix(suffix: Seq<char>) -> spec_fn(Seq<char>) -> bool {
    |n: Seq<char>| ends_with(n, suffix)
}

/// Views of a list of strings.
pub open spec fn name_views(v: Seq<String>) -> Seq<Seq<char>> {
    v.map_values(|s: String| s@)
}

/// The render endpoint (by position among the active ones, whose friendly
/// names are `names`) that is the other side of the cable with this
/// suffix: the first whose name ends with it.
pub fn render_for_suffix(names: &Vec<String>, suffix: &str) -> (r: Result<usize, String>)
    ensures
        match r {
            Ok(k) => first_match(name_views(names@), named_with_suffix(suffix@)) == Some(k as int),
            Err(e) => first_match(name_views(names@), named_with_suffix(suffix@)) is None && e@
                == render_side_missing_msg(suffix@),
        },
{
    let ghost nv = name_views(names@);
    let mut k: usize = 0;
    while k < names.len()
        invariant
            k <= names@.len(),
            nv == name_views(names@),
            first_match(nv, named_with_suffix(suffix@)) == first_match_from(nv, named_with_suffix(suffix@), k as int),
        decreases names@.len() - k,
    {
        assert(nv[k as int] == names@[k as int]@);
        if str_ends_with(names[k].as_str(), suffix) {
            return Ok(k);
        }
        k += 1;
    }
    let mut m = to_owned("côté rendu du câble \"");
    m.append(suffix);
    m.append("\" introuvable — VB-Cable est-il toujours installé ?");
    Err(m)
}

/// What binding a cable to line `line_id` starts from: the line's cached
/// render id, and the name the render side will take (empty when the line
/// is gone).
pub open spec fn binding_request_spec(cfg: AppConfig, line_id: Seq<char>) -> (Option<Seq<char>>, Seq<char>) {
    match first_match(cfg.lines@, line_has_id(line_id)) {
        Some(i) => (
            match cfg.lines@[i].cable_render_id {
                Some(r) => Some(r@),
                None => None,
            },
            cfg.lines@[i].name@,
        ),
        None => (None, Seq::empty()),
    }
}

/// The cached render id and name of line `line_id`, for a cable binding.
pub fn binding_request(cfg: &AppConfig, line_id: &str) -> (r: (Option<String>, String))
    ensures
        (match r.0 {
            Some(s) => Some(s@),
            None => None,
        }, r.1@) == binding_request_spec(*cfg, line_id@),
{
    let found = find_line(&cfg.lines, line_id);
    proof {
        lemma_first_match(cfg.lines@, line_has_id(line_id@));
    }
    match found {
        Some(i) => {
            let cached = match &cfg.lines[i].cable_render_id {
                Some(s) => Some(s.clone()),
                None => None,
            };
            (cached, cfg.lines[i].name.clone())
        },
        None => (None, String::new()),
    }
}

} // verus!
