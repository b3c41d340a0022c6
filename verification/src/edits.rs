//! Live edits of single lines, app assignments, mic toggling and ducking
//! rules.

use vstd::prelude::*;
use crate::model::{
    canonical_reactivity, find_line, find_route, line_has_id, reactivity_of, reactivity_name,
    reactivity_spec, route_to, AppConfig, Route, DuckRule, EqBandCfg, LineConfig, Reactivity,
};
use crate::seqs::{first_match, lemma_first_match, retain_flags};
use crate::text::{eq_ignore_ascii_case, eq_ignore_ascii_case_spec, str_eq};
use crate::topology::same_but_topology;

verus! {

/// `lines` with `f` applied to the first line whose id is `id`.
pub open spec fn update_first_line(
    lines: Seq<LineConfig>,
    id: Seq<char>,
    f: spec_fn(LineConfig) -> LineConfig,
) -> Seq<LineConfig> {
    match first_match(lines, line_has_id(id)) {
        Some(i) => lines.update(i, f(lines[i])),
        None => lines,
    }
}

/// Only the lines changed, as described by `f` on the line `id`.
pub open spec fn line_edit_post(
    old: AppConfig,
    new: AppConfig,
    id: Seq<char>,
    f: spec_fn(LineConfig) -> LineConfig,
) -> bool {
    &&& new.lines@ == update_first_line(old.lines@, id, f)
    &&& new.outputs == old.outputs
    &&& same_but_topology(old, new)
}

/// Sets a line's fader (gain as a bit pattern, already clamped).
pub fn set_line_gain(cfg: &mut AppConfig, id: &str, gain: u32)
    ensures
        line_edit_post(*old(cfg), *final(cfg), id@, |l: LineConfig| LineConfig { gain: gain, ..l }),
{
    let found = find_line(&cfg.lines, id);
    proof {
        lemma_first_match(cfg.lines@, line_has_id(id@));
    }
    if let Some(i) = found {
        cfg.lines[i].gain = gain;
        assert(cfg.lines@ =~= old(cfg).lines@.update(i as int, LineConfig { gain: gain, ..old(cfg).lines@[i as int] }));
    }
}

/// Mutes or unmutes a line.
pub fn set_line_muted(cfg: &mut AppConfig, id: &str, muted: bool)
    ensures
        line_edit_post(*old(cfg), *final(cfg), id@, |l: LineConfig| LineConfig { muted: muted, ..l }),
{
    let found = find_line(&cfg.lines, id);
    proof {
        lemma_first_match(cfg.lines@, line_has_id(id@));
    }
    if let Some(i) = found {
        cfg.lines[i].muted = muted;
        assert(cfg.lines@ =~= old(cfg).lines@.update(i as int, LineConfig { muted: muted, ..old(cfg).lines@[i as int] }));
    }
}

/// Selects a line's capture device; the cached render id belonged to the
/// previous cable and is dropped.
pub fn set_line_input(cfg: &mut AppConfig, id: &str, device: Option<String>)
    ensures
        line_edit_post(
            *old(cfg),
            *final(cfg),
            id@,
            |l: LineConfig| LineConfig { input_device: device, cable_render_id: None, ..l },
        ),
{
    let found = find_line(&cfg.lines, id);
    proof {
        lemma_first_match(cfg.lines@, line_has_id(id@));
    }
    if let Some(i) = found {
        cfg.lines[i].input_device = device;
        cfg.lines[i].cable_render_id = None;
        assert(cfg.lines@ =~= old(cfg).lines@.update(
            i as int,
            LineConfig { input_device: device, cable_render_id: None, ..old(cfg).lines@[i as int] },
        ));
    }
}

/// The curve a line takes for the requested points: the points in
/// frequency order, at most [`crate::setup::MAX_BANDS`] of them; no point at
/// all gives the flat default curve, so a line always keeps 1 to 10 points.
pub open spec fn line_curve(bands: Seq<EqBandCfg>) -> Seq<EqBandCfg> {
    if bands.len() == 0 {
        crate::reconcile::default_bands_spec()
    } else {
        crate::setup::ordered_bands_spec(bands)
    }
}

/// A line's curve always has between 1 and 10 points.
pub proof fn lemma_line_curve_size(bands: Seq<EqBandCfg>)
    ensures
        1 <= line_curve(bands).len() <= crate::setup::MAX_BANDS,
{
    crate::setup::lemma_ordered_bands(bands);
}

/// Replaces a line's parametric EQ curve (points already clamped): see
/// [`line_curve`].
pub fn set_line_eq_bands(cfg: &mut AppConfig, id: &str, bands: Vec<EqBandCfg>)
    ensures
        final(cfg).outputs == old(cfg).outputs,
        same_but_topology(*old(cfg), *final(cfg)),
        match first_match(old(cfg).lines@, line_has_id(id@)) {
            Some(i) => final(cfg).lines@ == old(cfg).lines@.update(
                i,
                LineConfig { eq_bands: final(cfg).lines@[i].eq_bands, ..old(cfg).lines@[i] },
            ) && final(cfg).lines@[i].eq_bands@ == line_curve(bands@),
            None => final(cfg).lines@ == old(cfg).lines@,
        },
{
    let found = find_line(&cfg.lines, id);
    proof {
        lemma_first_match(cfg.lines@, line_has_id(id@));
    }
    if let Some(i) = found {
        let curve = if bands.len() == 0 {
            crate::reconcile::default_bands()
        } else {
            crate::setup::order_bands(&bands)
        };
        cfg.lines[i].eq_bands = curve;
        assert(cfg.lines@ =~= old(cfg).lines@.update(
            i as int,
            LineConfig { eq_bands: cfg.lines@[i as int].eq_bands, ..old(cfg).lines@[i as int] },
        ));
    }
}

/// Renames and recolours a line; returns the cached render id of its cable
/// (the Windows endpoint to rename alongside), if any.
pub fn update_line_meta(cfg: &mut AppConfig, id: &str, name: String, color: String) -> (r: Option<String>)
    ensures
        line_edit_post(
            *old(cfg),
            *final(cfg),
            id@,
            |l: LineConfig| LineConfig { name: name, color: color, ..l },
        ),
        r == (match first_match(old(cfg).lines@, line_has_id(id@)) {
            Some(i) => old(cfg).lines@[i].cable_render_id,
            None => None,
        }),
{
    let found = find_line(&cfg.lines, id);
    proof {
        lemma_first_match(cfg.lines@, line_has_id(id@));
    }
    if let Some(i) = found {
        cfg.lines[i].name = name;
        cfg.lines[i].color = color;
        assert(cfg.lines@ =~= old(cfg).lines@.update(
            i as int,
            LineConfig { name: name, color: color, ..old(cfg).lines@[i as int] },
        ));
        cfg.lines[i].cable_render_id.clone()
    } else {
        None
    }
}

/// Sets the ducking reactivity of a line, stored under its canonical name;
/// returns the parsed level.
pub fn set_line_duck_reactivity(cfg: &mut AppConfig, id: &str, level: &str) -> (r: Reactivity)
    ensures
        r == reactivity_spec(level@),
        final(cfg).outputs == old(cfg).outputs,
        same_but_topology(*old(cfg), *final(cfg)),
        final(cfg).lines@.len() == old(cfg).lines@.len(),
        match first_match(old(cfg).lines@, line_has_id(id@)) {
            Some(i) => final(cfg).lines@ == old(cfg).lines@.update(i, final(cfg).lines@[i])
                && final(cfg).lines@[i] == LineConfig {
                duck_reactivity: final(cfg).lines@[i].duck_reactivity,
                ..old(cfg).lines@[i]
            } && final(cfg).lines@[i].duck_reactivity@ == reactivity_name(reactivity_spec(level@)),
            None => final(cfg).lines@ == old(cfg).lines@,
        },
{
    let found = find_line(&cfg.lines, id);
    proof {
        lemma_first_match(cfg.lines@, line_has_id(id@));
    }
    if let Some(i) = found {
        cfg.lines[i].duck_reactivity = canonical_reactivity(level);
        assert(cfg.lines@ =~= old(cfg).lines@.update(i as int, cfg.lines@[i as int]));
    }
    reactivity_of(level)
}

/// Sets the gain of the route from line `line_id` to bus `output_id`.
pub fn set_route_gain(cfg: &mut AppConfig, line_id: &str, output_id: &str, gain: u32)
    ensures
        final(cfg).outputs == old(cfg).outputs,
        same_but_topology(*old(cfg), *final(cfg)),
        match first_match(old(cfg).lines@, line_has_id(line_id@)) {
            Some(i) => final(cfg).lines@ == old(cfg).lines@.update(
                i,
                LineConfig { routes: final(cfg).lines@[i].routes, ..old(cfg).lines@[i] },
            ) && final(cfg).lines@[i].routes@ == match first_match(
                old(cfg).lines@[i].routes@,
                route_to(output_id@),
            ) {
                Some(j) => old(cfg).lines@[i].routes@.update(
                    j,
                    Route { gain: gain, ..old(cfg).lines@[i].routes@[j] },
                ),
                None => old(cfg).lines@[i].routes@,
            },
            None => final(cfg).lines@ == old(cfg).lines@,
        },
{
    let found = find_line(&cfg.lines, line_id);
    proof {
        lemma_first_match(cfg.lines@, line_has_id(line_id@));
    }
    if let Some(i) = found {
        let r = find_route(&cfg.lines[i].routes, output_id);
        proof {
            lemma_first_match(cfg.lines@[i as int].routes@, route_to(output_id@));
        }
        if let Some(j) = r {
            cfg.lines[i].routes[j].gain = gain;
            assert(cfg.lines@[i as int].routes@ =~= old(cfg).lines@[i as int].routes@.update(
                j as int,
                Route { gain: gain, ..old(cfg).lines@[i as int].routes@[j as int] },
            ));
            assert(cfg.lines@ =~= old(cfg).lines@.update(
                i as int,
                LineConfig { routes: cfg.lines@[i as int].routes, ..old(cfg).lines@[i as int] },
            ));
        } else {
            assert(cfg.lines@ =~= old(cfg).lines@.update(
                i as int,
                LineConfig { routes: cfg.lines@[i as int].routes, ..old(cfg).lines@[i as int] },
            ));
        }
    }
}

/// Sets the global master (bit pattern, already clamped).
pub fn set_master_gain(cfg: &mut AppConfig, gain: u32)
    ensures
        *final(cfg) == (AppConfig { master_gain: gain, ..*old(cfg) }),
{
    cfg.master_gain = gain;
}

} // verus!

verus! {

/// The line is a microphone line.
pub open spec fn is_mic(l: LineConfig) -> bool {
    l.kind@ == "mic"@
}

/// Some microphone line is currently unmuted.
pub open spec fn any_mic_unmuted(lines: Seq<LineConfig>) -> bool {
    exists|i: int| 0 <= i < lines.len() && is_mic(#[trigger] lines[i]) && !lines[i].muted
}

/// All microphone lines share one mute state.
pub open spec fn mics_uniform(lines: Seq<LineConfig>) -> bool {
    forall|i: int, j: int|
        0 <= i < lines.len() && 0 <= j < lines.len() && is_mic(#[trigger] lines[i]) && is_mic(#[trigger] lines[j])
            ==> lines[i].muted == lines[j].muted
}

/// The effect of the global mic-mute shortcut: if any mic is live, every
/// mic is muted; otherwise every mic is unmuted. Nothing else changes.
pub open spec fn toggle_mics_post(old: AppConfig, new: AppConfig) -> bool {
    &&& new.outputs == old.outputs
    &&& same_but_topology(old, new)
    &&& new.lines@.len() == old.lines@.len()
    &&& forall|i: int|
        0 <= i < old.lines@.len() ==> #[trigger] new.lines@[i] == if is_mic(old.lines@[i]) {
            LineConfig { muted: any_mic_unmuted(old.lines@), ..old.lines@[i] }
        } else {
            old.lines@[i]
        }
}

/// Is this a microphone line?
pub fn is_mic_line(l: &LineConfig) -> (r: bool)
    ensures
        r == is_mic(*l),
{
    str_eq(l.kind.as_str(), "mic")
}

/// Toggles every mic line's mute at once (the global shortcut).
pub fn toggle_all_mics(cfg: &mut AppConfig)
    ensures
        toggle_mics_post(*old(cfg), *final(cfg)),
{
    let mut any_unmuted = false;
    let mut i: usize = 0;
    while i < cfg.lines.len()
        invariant
            i <= cfg.lines@.len(),
            any_unmuted == exists|k: int| 0 <= k < i && is_mic(#[trigger] cfg.lines@[k]) && !cfg.lines@[k].muted,
        decreases cfg.lines@.len() - i,
    {
        if is_mic_line(&cfg.lines[i]) && !cfg.lines[i].muted {
            any_unmuted = true;
        }
        i += 1;
    }
    assert(any_unmuted == any_mic_unmuted(cfg.lines@));
    let mut i: usize = 0;
    while i < cfg.lines.len()
        invariant
            any_unmuted == any_mic_unmuted(old(cfg).lines@),
            cfg.outputs == old(cfg).outputs,
            same_but_topology(*old(cfg), *cfg),
            cfg.lines@.len() == old(cfg).lines@.len(),
            i <= cfg.lines@.len(),
            forall|k: int| i <= k < cfg.lines@.len() ==> #[trigger] cfg.lines@[k] == old(cfg).lines@[k],
            forall|k: int|
                0 <= k < i ==> #[trigger] cfg.lines@[k] == if is_mic(old(cfg).lines@[k]) {
                    LineConfig { muted: any_unmuted, ..old(cfg).lines@[k] }
                } else {
                    old(cfg).lines@[k]
                },
        decreases cfg.lines@.len() - i,
    {
        if is_mic_line(&cfg.lines[i]) {
            cfg.lines[i].muted = any_unmuted;
        }
        i += 1;
    }
}

/// After a toggle all mics agree.
pub proof fn lemma_toggle_makes_mics_uniform(c0: AppConfig, c1: AppConfig)
    requires
        toggle_mics_post(c0, c1),
    ensures
        mics_uniform(c1.lines@),
{
    assert forall|i: int, j: int|
        0 <= i < c1.lines@.len() && 0 <= j < c1.lines@.len() && is_mic(#[trigger] c1.lines@[i]) && is_mic(#[trigger] c1.lines@[j])
            implies c1.lines@[i].muted == c1.lines@[j].muted by {
        assert(c1.lines@[i] == if is_mic(c0.lines@[i]) {
            LineConfig { muted: any_mic_unmuted(c0.lines@), ..c0.lines@[i] }
        } else {
            c0.lines@[i]
        });
        assert(c1.lines@[j] == if is_mic(c0.lines@[j]) {
            LineConfig { muted: any_mic_unmuted(c0.lines@), ..c0.lines@[j] }
        } else {
            c0.lines@[j]
        });
    }
}

/// Pressing the mic shortcut twice restores the mix, whenever the mics
/// agreed to begin with (which one press always leaves them in).
pub proof fn lemma_toggle_mics_twice(c0: AppConfig, c1: AppConfig, c2: AppConfig)
    requires
        mics_uniform(c0.lines@),
        toggle_mics_post(c0, c1),
        toggle_mics_post(c1, c2),
    ensures
        c2.lines@ == c0.lines@,
        c2.outputs == c0.outputs,
        same_but_topology(c0, c2),
{
    let u0 = any_mic_unmuted(c0.lines@);
    assert forall|i: int| 0 <= i < c0.lines@.len() implies is_mic(#[trigger] c1.lines@[i]) == is_mic(c0.lines@[i]) by {
        assert(c1.lines@[i] == if is_mic(c0.lines@[i]) {
            LineConfig { muted: u0, ..c0.lines@[i] }
        } else {
            c0.lines@[i]
        });
    }
    if u0 {
        assert(!any_mic_unmuted(c1.lines@)) by {
            assert forall|i: int| 0 <= i < c1.lines@.len() && is_mic(#[trigger] c1.lines@[i]) implies c1.lines@[i].muted by {
                assert(c1.lines@[i] == LineConfig { muted: u0, ..c0.lines@[i] });
            }
        }
    } else {
        let w = choose|i: int| 0 <= i < c0.lines@.len() && is_mic(#[trigger] c0.lines@[i]);
        if exists|i: int| 0 <= i < c0.lines@.len() && is_mic(#[trigger] c0.lines@[i]) {
            assert(c1.lines@[w] == LineConfig { muted: false, ..c0.lines@[w] });
            assert(any_mic_unmuted(c1.lines@));
        }
    }
    assert forall|i: int| 0 <= i < c0.lines@.len() implies #[trigger] c2.lines@[i] == c0.lines@[i] by {
        assert(c1.lines@[i] == if is_mic(c0.lines@[i]) {
            LineConfig { muted: u0, ..c0.lines@[i] }
        } else {
            c0.lines@[i]
        });
        assert(c2.lines@[i] == if is_mic(c1.lines@[i]) {
            LineConfig { muted: any_mic_unmuted(c1.lines@), ..c1.lines@[i] }
        } else {
            c1.lines@[i]
        });
        if is_mic(c0.lines@[i]) {
            if u0 {
                let w = choose|k: int| 0 <= k < c0.lines@.len() && is_mic(#[trigger] c0.lines@[k]) && !c0.lines@[k].muted;
                assert(c0.lines@[i].muted == c0.lines@[w].muted);
            } else {
                assert(c0.lines@[i].muted);
            }
        }
    }
    assert(c2.lines@ =~= c0.lines@);
}

/// The line does not carry this id.
pub open spec fn line_not_id(id: Seq<char>) -> spec_fn(LineConfig) -> bool {
    |l: LineConfig| l.id@ != id
}

/// The rule involves neither side of this line id.
pub open spec fn rule_spares(id: Seq<char>) -> spec_fn(DuckRule) -> bool {
    |d: DuckRule| d.source_line@ != id && d.target_line@ != id
}

/// What removing line `id` leaves: no rule and no line names it any more,
/// every other rule and line stays, and rules that named two distinct
/// existing lines still do.
pub proof fn lemma_removed_line(c0: AppConfig, c1: AppConfig, id: Seq<char>)
    requires
        c1.lines@ == c0.lines@.filter(line_not_id(id)),
        c1.ducking@ == c0.ducking@.filter(rule_spares(id)),
    ensures
        forall|k: int|
            0 <= k < c1.ducking@.len() ==> (#[trigger] c1.ducking@[k]).source_line@ != id && c1.ducking@[k].target_line@
                != id,
        forall|k: int|
            0 <= k < c0.ducking@.len() && c0.ducking@[k].source_line@ != id && c0.ducking@[k].target_line@ != id
                ==> c1.ducking@.contains(#[trigger] c0.ducking@[k]),
        forall|k: int| 0 <= k < c1.lines@.len() ==> (#[trigger] c1.lines@[k]).id@ != id,
        forall|k: int| 0 <= k < c0.lines@.len() && c0.lines@[k].id@ != id ==> c1.lines@.contains(#[trigger] c0.lines@[k]),
        (forall|k: int| 0 <= k < c0.ducking@.len() ==> rule_valid(c0.lines@)(#[trigger] c0.ducking@[k])) ==> forall|k: int|
            0 <= k < c1.ducking@.len() ==> rule_valid(c1.lines@)(#[trigger] c1.ducking@[k]),
{
    crate::seqs::lemma_filter_members(c0.ducking@, rule_spares(id));
    crate::seqs::lemma_filter_members(c0.lines@, line_not_id(id));
    assert forall|k: int| 0 <= k < c1.ducking@.len() implies (#[trigger] c1.ducking@[k]).source_line@ != id
        && c1.ducking@[k].target_line@ != id by {
        assert(rule_spares(id)(c1.ducking@[k]));
    }
    assert forall|k: int| 0 <= k < c1.lines@.len() implies (#[trigger] c1.lines@[k]).id@ != id by {
        assert(line_not_id(id)(c1.lines@[k]));
    }
    assert forall|k: int|
        0 <= k < c0.ducking@.len() && c0.ducking@[k].source_line@ != id && c0.ducking@[k].target_line@ != id implies c1.ducking@.contains(
        #[trigger] c0.ducking@[k],
    ) by {
        assert(rule_spares(id)(c0.ducking@[k]));
    }
    assert forall|k: int| 0 <= k < c0.lines@.len() && c0.lines@[k].id@ != id implies c1.lines@.contains(
        #[trigger] c0.lines@[k],
    ) by {
        assert(line_not_id(id)(c0.lines@[k]));
    }
    if forall|k: int| 0 <= k < c0.ducking@.len() ==> rule_valid(c0.lines@)(#[trigger] c0.ducking@[k]) {
        assert forall|k: int| 0 <= k < c1.ducking@.len() implies rule_valid(c1.lines@)(#[trigger] c1.ducking@[k]) by {
            let d = c1.ducking@[k];
            assert(rule_spares(id)(d));
            let w = choose|w: int| 0 <= w < c0.ducking@.len() && c0.ducking@[w] == d;
            assert(rule_valid(c0.lines@)(c0.ducking@[w]));
            let a = choose|a: int| 0 <= a < c0.lines@.len() && #[trigger] c0.lines@[a].id@ == d.source_line@;
            let b = choose|b: int| 0 <= b < c0.lines@.len() && #[trigger] c0.lines@[b].id@ == d.target_line@;
            assert(line_not_id(id)(c0.lines@[a]));
            assert(line_not_id(id)(c0.lines@[b]));
            assert(c1.lines@.contains(c0.lines@[a]));
            assert(c1.lines@.contains(c0.lines@[b]));
            let a1 = choose|x: int| 0 <= x < c1.lines@.len() && c1.lines@[x] == c0.lines@[a];
            let b1 = choose|x: int| 0 <= x < c1.lines@.len() && c1.lines@[x] == c0.lines@[b];
            assert(c1.lines@[a1].id@ == d.source_line@);
            assert(c1.lines@[b1].id@ == d.target_line@);
        }
    }
}

/// Deletes a line and every ducking rule that mentions it.
pub fn remove_line(cfg: &mut AppConfig, id: &str)
    ensures
        final(cfg).lines@ == old(cfg).lines@.filter(line_not_id(id@)),
        final(cfg).ducking@ == old(cfg).ducking@.filter(rule_spares(id@)),
        forall|k: int|
            0 <= k < final(cfg).ducking@.len() ==> (#[trigger] final(cfg).ducking@[k]).source_line@ != id@
                && final(cfg).ducking@[k].target_line@ != id@,
        forall|k: int|
            0 <= k < old(cfg).ducking@.len() && old(cfg).ducking@[k].source_line@ != id@ && old(cfg).ducking@[k].target_line@
                != id@ ==> final(cfg).ducking@.contains(#[trigger] old(cfg).ducking@[k]),
        forall|k: int| 0 <= k < final(cfg).lines@.len() ==> (#[trigger] final(cfg).lines@[k]).id@ != id@,
        forall|k: int|
            0 <= k < old(cfg).lines@.len() && old(cfg).lines@[k].id@ != id@ ==> final(cfg).lines@.contains(
                #[trigger] old(cfg).lines@[k],
            ),
        (forall|k: int| 0 <= k < old(cfg).ducking@.len() ==> rule_valid(old(cfg).lines@)(#[trigger] old(cfg).ducking@[k]))
            ==> forall|k: int| 0 <= k < final(cfg).ducking@.len() ==> rule_valid(final(cfg).lines@)(#[trigger] final(cfg).ducking@[k]),
        final(cfg).outputs == old(cfg).outputs,
        final(cfg).master_gain == old(cfg).master_gain,
        final(cfg).eq_presets == old(cfg).eq_presets,
        final(cfg).profiles == old(cfg).profiles,
        final(cfg).schema_version == old(cfg).schema_version,
{
    let mut keep: Vec<bool> = Vec::new();
    let mut i: usize = 0;
    while i < cfg.lines.len()
        invariant
            i <= cfg.lines@.len(),
            keep@.len() == i,
            forall|k: int| 0 <= k < i ==> keep@[k] == line_not_id(id@)(#[trigger] cfg.lines@[k]),
        decreases cfg.lines@.len() - i,
    {
        keep.push(!str_eq(cfg.lines[i].id.as_str(), id));
        i += 1;
    }
    retain_flags(&mut cfg.lines, &keep, Ghost(line_not_id(id@)));
    let mut keep: Vec<bool> = Vec::new();
    let mut i: usize = 0;
    while i < cfg.ducking.len()
        invariant
            i <= cfg.ducking@.len(),
            keep@.len() == i,
            forall|k: int| 0 <= k < i ==> keep@[k] == rule_spares(id@)(#[trigger] cfg.ducking@[k]),
        decreases cfg.ducking@.len() - i,
    {
        keep.push(
            !str_eq(cfg.ducking[i].source_line.as_str(), id) && !str_eq(
                cfg.ducking[i].target_line.as_str(),
                id,
            ),
        );
        i += 1;
    }
    retain_flags(&mut cfg.ducking, &keep, Ghost(rule_spares(id@)));
    proof {
        lemma_removed_line(*old(cfg), *cfg, id@);
    }
}

/// Copies a list of strings.
pub fn copy_strings(v: &Vec<String>) -> (r: Vec<String>)
    ensures
        r@ == v@,
{
    let mut r: Vec<String> = Vec::new();
    let mut i: usize = 0;
    while i < v.len()
        invariant
            i <= v@.len(),
            r@ == v@.take(i as int),
        decreases v@.len() - i,
    {
        r.push(v[i].clone());
        assert(r@ =~= v@.take(i + 1));
        i += 1;
    }
    assert(v@.take(i as int) =~= v@);
    r
}

/// The executables routed to the first line with this id (none if absent).
pub fn line_apps(cfg: &AppConfig, id: &str) -> (r: Vec<String>)
    ensures
        r@ == match first_match(cfg.lines@, line_has_id(id@)) {
            Some(i) => cfg.lines@[i].apps@,
            None => Seq::empty(),
        },
{
    let found = find_line(&cfg.lines, id);
    proof {
        lemma_first_match(cfg.lines@, line_has_id(id@));
    }
    match found {
        Some(i) => copy_strings(&cfg.lines[i].apps),
        None => Vec::new(),
    }
}

/// The executable name differs from `exe` (ASCII case ignored).
pub open spec fn app_other_than(exe: Seq<char>) -> spec_fn(String) -> bool {
    |a: String| !eq_ignore_ascii_case_spec(a@, exe)
}

/// Removes `exe` (ASCII case ignored) from a list of executables.
pub fn drop_app(apps: &mut Vec<String>, exe: &str)
    ensures
        final(apps)@ == old(apps)@.filter(app_other_than(exe@)),
{
    let mut keep: Vec<bool> = Vec::new();
    let mut i: usize = 0;
    while i < apps.len()
        invariant
            i <= apps@.len(),
            keep@.len() == i,
            forall|k: int| 0 <= k < i ==> keep@[k] == app_other_than(exe@)(#[trigger] apps@[k]),
        decreases apps@.len() - i,
    {
        keep.push(!eq_ignore_ascii_case(apps[i].as_str(), exe));
        i += 1;
    }
    retain_flags(apps, &keep, Ghost(app_other_than(exe@)));
}

/// The line lists `exe` among its applications (ASCII case ignored).
pub open spec fn holds_app(l: LineConfig, exe: Seq<char>) -> bool {
    exists|k: int| 0 <= k < l.apps@.len() && eq_ignore_ascii_case_spec(#[trigger] l.apps@[k]@, exe)
}

/// Records that `exe` is now routed into line `line_id` through the cable
/// `capture` (render side `render_id`). An application lives on one line
/// only, so it leaves every other line. Returns `false`, changing nothing,
/// when the line no longer exists.
pub fn record_app_assignment(
    cfg: &mut AppConfig,
    line_id: &str,
    exe: String,
    capture: String,
    render_id: String,
) -> (r: bool)
    ensures
        r == first_match(old(cfg).lines@, line_has_id(line_id@)) is Some,
        !r ==> *final(cfg) == *old(cfg),
        final(cfg).outputs == old(cfg).outputs,
        same_but_topology(*old(cfg), *final(cfg)),
        final(cfg).lines@.len() == old(cfg).lines@.len(),
        r ==> forall|i: int|
            0 <= i < old(cfg).lines@.len() ==> {
                let l = #[trigger] final(cfg).lines@[i];
                let o = old(cfg).lines@[i];
                if Some(i) == first_match(old(cfg).lines@, line_has_id(line_id@)) {
                    &&& l == LineConfig {
                        input_device: Some(capture),
                        cable_render_id: Some(render_id),
                        apps: l.apps,
                        ..o
                    }
                    &&& l.apps@ == o.apps@.filter(app_other_than(exe@)).push(exe)
                } else {
                    &&& l == LineConfig { apps: l.apps, ..o }
                    &&& l.apps@ == o.apps@.filter(app_other_than(exe@))
                }
            },
{
    let found = find_line(&cfg.lines, line_id);
    proof {
        lemma_first_match(cfg.lines@, line_has_id(line_id@));
    }
    let target = match found {
        Some(t) => t,
        None => return false,
    };
    let mut i: usize = 0;
    while i < cfg.lines.len()
        invariant
            cfg.outputs == old(cfg).outputs,
            same_but_topology(*old(cfg), *cfg),
            cfg.lines@.len() == old(cfg).lines@.len(),
            i <= cfg.lines@.len(),
            forall|k: int| i <= k < cfg.lines@.len() ==> #[trigger] cfg.lines@[k] == old(cfg).lines@[k],
            forall|k: int|
                0 <= k < i ==> #[trigger] cfg.lines@[k] == (LineConfig { apps: cfg.lines@[k].apps, ..old(cfg).lines@[k] })
                    && cfg.lines@[k].apps@ == old(cfg).lines@[k].apps@.filter(app_other_than(exe@)),
        decreases cfg.lines@.len() - i,
    {
        drop_app(&mut cfg.lines[i].apps, exe.as_str());
        i += 1;
    }
    let ghost before = cfg.lines@;
    cfg.lines[target].input_device = Some(capture);
    cfg.lines[target].cable_render_id = Some(render_id);
    cfg.lines[target].apps.push(exe);
    proof {
        assert forall|k: int| 0 <= k < cfg.lines@.len() && k != target implies #[trigger] cfg.lines@[k] == before[k] by {}
    }
    true
}

/// After an assignment the application lives on exactly one line: the
/// target line holds it and no other line does.
pub proof fn lemma_assignment_unique(c0: AppConfig, c1: AppConfig, line_id: Seq<char>, exe: Seq<char>, t: int)
    requires
        first_match(c0.lines@, line_has_id(line_id)) == Some(t),
        c1.lines@.len() == c0.lines@.len(),
        forall|i: int|
            0 <= i < c0.lines@.len() ==> {
                let l = #[trigger] c1.lines@[i];
                let o = c0.lines@[i];
                if i == t {
                    exists|e: String| e@ == exe && l.apps@ == o.apps@.filter(app_other_than(exe)).push(e)
                } else {
                    l.apps@ == o.apps@.filter(app_other_than(exe))
                }
            },
    ensures
        forall|i: int| 0 <= i < c1.lines@.len() ==> (holds_app(#[trigger] c1.lines@[i], exe) <==> i == t),
{
    assert forall|i: int| 0 <= i < c1.lines@.len() implies (holds_app(#[trigger] c1.lines@[i], exe) <==> i == t) by {
        let o = c0.lines@[i];
        let f = o.apps@.filter(app_other_than(exe));
        crate::seqs::lemma_filter_members(o.apps@, app_other_than(exe));
        assert forall|k: int| 0 <= k < f.len() implies !eq_ignore_ascii_case_spec(#[trigger] f[k]@, exe) by {
            assert(app_other_than(exe)(f[k]));
        }
        if i == t {
            let e = choose|e: String| e@ == exe && c1.lines@[i].apps@ == f.push(e);
            let n = f.len() as int;
            assert(c1.lines@[i].apps@[n] == e);
            assert forall|k: int| 0 <= k < exe.len() implies crate::text::ascii_lower(#[trigger] e@[k]) == crate::text::ascii_lower(exe[k]) by {}
            assert(eq_ignore_ascii_case_spec(c1.lines@[i].apps@[n]@, exe));
        } else {
            assert forall|k: int| 0 <= k < c1.lines@[i].apps@.len() implies !eq_ignore_ascii_case_spec(#[trigger] c1.lines@[i].apps@[k]@, exe) by {
                assert(c1.lines@[i].apps@[k] == f[k]);
            }
        }
    }
}

/// Hands an application back: removes it from the line `line_id`.
pub fn unassign_app(cfg: &mut AppConfig, line_id: &str, exe: &str)
    ensures
        final(cfg).outputs == old(cfg).outputs,
        same_but_topology(*old(cfg), *final(cfg)),
        match first_match(old(cfg).lines@, line_has_id(line_id@)) {
            Some(i) => final(cfg).lines@ == old(cfg).lines@.update(
                i,
                LineConfig { apps: final(cfg).lines@[i].apps, ..old(cfg).lines@[i] },
            ) && final(cfg).lines@[i].apps@ == old(cfg).lines@[i].apps@.filter(app_other_than(exe@)),
            None => final(cfg).lines@ == old(cfg).lines@,
        },
{
    let found = find_line(&cfg.lines, line_id);
    proof {
        lemma_first_match(cfg.lines@, line_has_id(line_id@));
    }
    if let Some(i) = found {
        drop_app(&mut cfg.lines[i].apps, exe);
        assert(cfg.lines@ =~= old(cfg).lines@.update(
            i as int,
            LineConfig { apps: cfg.lines@[i as int].apps, ..old(cfg).lines@[i as int] },
        ));
    }
}

/// Some line carries this id.
pub open spec fn has_line(lines: Seq<LineConfig>, id: Seq<char>) -> bool {
    exists|i: int| 0 <= i < lines.len() && #[trigger] lines[i].id@ == id
}

/// A usable ducking rule: two distinct existing lines.
pub open spec fn rule_valid(lines: Seq<LineConfig>) -> spec_fn(DuckRule) -> bool {
    |d: DuckRule| d.source_line@ != d.target_line@ && has_line(lines, d.source_line@) && has_line(lines, d.target_line@)
}

/// Is there a line with this id?
pub fn line_exists(lines: &Vec<LineConfig>, id: &str) -> (r: bool)
    ensures
        r == has_line(lines@, id@),
{
    let found = find_line(lines, id);
    proof {
        lemma_first_match(lines@, line_has_id(id@));
    }
    match found {
        Some(i) => {
            assert(lines@[i as int].id@ == id@);
            true
        },
        None => {
            assert forall|i: int| 0 <= i < lines@.len() implies #[trigger] lines@[i].id@ != id@ by {
                assert(!line_has_id(id@)(lines@[i]));
            }
            false
        },
    }
}

/// Keeps only the usable ducking rules: a rule whose source is its own
/// target would pump the line on its own level, and one naming a missing
/// line does nothing.
pub fn sane_duck_rules(lines: &Vec<LineConfig>, rules: Vec<DuckRule>) -> (r: Vec<DuckRule>)
    ensures
        r@ == rules@.filter(rule_valid(lines@)),
{
    let mut rules = rules;
    let mut keep: Vec<bool> = Vec::new();
    let mut i: usize = 0;
    while i < rules.len()
        invariant
            i <= rules@.len(),
            keep@.len() == i,
            forall|k: int| 0 <= k < i ==> keep@[k] == rule_valid(lines@)(#[trigger] rules@[k]),
        decreases rules@.len() - i,
    {
        let ok = !str_eq(rules[i].source_line.as_str(), rules[i].target_line.as_str())
            && line_exists(lines, rules[i].source_line.as_str())
            && line_exists(lines, rules[i].target_line.as_str());
        keep.push(ok);
        i += 1;
    }
    retain_flags(&mut rules, &keep, Ghost(rule_valid(lines@)));
    rules
}

} // verus!
