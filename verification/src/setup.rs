//! Creating things: the first-run configuration, new lines, EQ presets and
//! the ordering of EQ points, and the cable a line captures when an app is
//! dropped onto it.

use vstd::prelude::*;
use crate::apps::chars_le;
use crate::apps::label_le;
use crate::model::{
    AppConfig, DuckRule, EqBandCfg, EqPreset, LineConfig, OutputConfig, Route, CURRENT_SCHEMA_VERSION, UNITY_GAIN,
    find_line, line_has_id,
};
use crate::names::{is_virtual_capture, is_virtual_capture_spec};
use crate::reconcile::{cable_used_as_output, cable_used_as_output_spec, new_line, new_line_ok, string_views};
use crate::seqs::{
    first_match, lemma_first_match, lemma_insert_point, lemma_stable_sort, lemma_stable_sort_take,
    retain_flags, sorted_by, stable_sort, total_preorder,
};
use crate::text::{
    eq_ignore_ascii_case, eq_ignore_ascii_case_spec, str_eq, to_owned, trim, unicode_trim,
};
use crate::topology::same_but_topology;

verus! {

/// Bit pattern of the default ducking depth, one half.
pub const HALF_BITS: u32 = 0x3f00_0000;

/// The first-run configuration: Game, Chat and Media app lines and a Mic
/// line, all routed to one unassigned "Headphones" bus, with Chat ducking
/// Game by half.
pub open spec fn default_config_spec(
    c: AppConfig,
    out_id: Seq<char>,
    game: Seq<char>,
    chat: Seq<char>,
    media: Seq<char>,
    mic: Seq<char>,
) -> bool {
    &&& c.lines@.len() == 4
    &&& new_line_ok(c.lines@[0], game, "Game"@, "app"@, "#7c3aed"@, false)
    &&& new_line_ok(c.lines@[1], chat, "Chat"@, "app"@, "#22d3ee"@, false)
    &&& new_line_ok(c.lines@[2], media, "Media"@, "app"@, "#f59e0b"@, false)
    &&& new_line_ok(c.lines@[3], mic, "Mic"@, "mic"@, "#fb923c"@, false)
    &&& forall|i: int|
        0 <= i < 4 ==> (#[trigger] c.lines@[i]).routes@.len() == 1 && c.lines@[i].routes@[0].output_id@ == out_id
            && c.lines@[i].routes@[0].gain == UNITY_GAIN
    &&& c.outputs@.len() == 1
    &&& c.outputs@[0].id@ == out_id
    &&& c.outputs@[0].name@ == "Headphones"@
    &&& c.outputs@[0].device@.len() == 0
    &&& c.outputs@[0].gain == UNITY_GAIN
    &&& !c.outputs@[0].muted
    &&& c.ducking@.len() == 1
    &&& c.ducking@[0].source_line@ == chat
    &&& c.ducking@[0].target_line@ == game
    &&& c.ducking@[0].amount == HALF_BITS
    &&& c.master_gain == UNITY_GAIN
    &&& c.eq_presets@.len() == 0
    &&& c.profiles@.len() == 0
    &&& c.schema_version == CURRENT_SCHEMA_VERSION
}

fn unity_route(out_id: &String) -> (r: Vec<Route>)
    ensures
        r@.len() == 1,
        r@[0].output_id@ == out_id@,
        r@[0].gain == UNITY_GAIN,
{
    let mut v: Vec<Route> = Vec::new();
    v.push(Route { output_id: out_id.clone(), gain: UNITY_GAIN });
    v
}

/// Builds the first-run configuration from five fresh identifiers (the
/// bus, then the Game, Chat, Media and Mic lines). Devices stay
/// unassigned: the user picks them.
pub fn default_config(out_id: String, game: String, chat: String, media: String, mic: String) -> (c: AppConfig)
    ensures
        default_config_spec(c, out_id@, game@, chat@, media@, mic@),
{
    let rule = DuckRule { source_line: chat.clone(), target_line: game.clone(), amount: HALF_BITS };
    let l0 = new_line(game, to_owned("Game"), to_owned("app"), to_owned("#7c3aed"), false, unity_route(&out_id));
    let l1 = new_line(chat, to_owned("Chat"), to_owned("app"), to_owned("#22d3ee"), false, unity_route(&out_id));
    let l2 = new_line(media, to_owned("Media"), to_owned("app"), to_owned("#f59e0b"), false, unity_route(&out_id));
    let l3 = new_line(mic, to_owned("Mic"), to_owned("mic"), to_owned("#fb923c"), false, unity_route(&out_id));
    let mut lines: Vec<LineConfig> = Vec::new();
    lines.push(l0);
    lines.push(l1);
    lines.push(l2);
    lines.push(l3);
    let mut outputs: Vec<OutputConfig> = Vec::new();
    outputs.push(
        OutputConfig { id: out_id, name: to_owned("Headphones"), device: String::new(), gain: UNITY_GAIN, muted: false },
    );
    let mut ducking: Vec<DuckRule> = Vec::new();
    ducking.push(rule);
    AppConfig {
        lines,
        outputs,
        ducking,
        master_gain: UNITY_GAIN,
        eq_presets: Vec::new(),
        profiles: Vec::new(),
        schema_version: CURRENT_SCHEMA_VERSION,
    }
}

/// Appends a line `id` named `name`: one route, to the first bus at unity
/// gain (none when there is no bus); a microphone starts muted.
pub fn add_line(cfg: &mut AppConfig, name: String, color: String, kind: String, id: String)
    ensures
        final(cfg).outputs == old(cfg).outputs,
        same_but_topology(*old(cfg), *final(cfg)),
        final(cfg).lines@.len() == old(cfg).lines@.len() + 1,
        final(cfg).lines@.drop_last() == old(cfg).lines@,
        new_line_ok(final(cfg).lines@.last(), id@, name@, kind@, color@, kind@ == "mic"@),
        old(cfg).outputs@.len() == 0 ==> final(cfg).lines@.last().routes@.len() == 0,
        old(cfg).outputs@.len() > 0 ==> {
            let r = final(cfg).lines@.last().routes@;
            r.len() == 1 && r[0].output_id@ == old(cfg).outputs@[0].id@ && r[0].gain == UNITY_GAIN
        },
{
    let routes = if cfg.outputs.len() > 0 {
        unity_route(&cfg.outputs[0].id)
    } else {
        Vec::new()
    };
    let muted = str_eq(kind.as_str(), "mic");
    let line = new_line(id, name, kind, color, muted, routes);
    let ghost before = cfg.lines@;
    cfg.lines.push(line);
    assert(cfg.lines@.drop_last() =~= before);
}

/// Total order of `f32` bit patterns (`f32::total_cmp`), as an integer key.
pub open spec fn total_order_key(bits: u32) -> int {
    if bits < 0x8000_0000 {
        bits as int
    } else {
        0x7fff_ffff - bits as int
    }
}

/// EQ points by frequency, in `total_cmp` order.
pub open spec fn band_order() -> spec_fn(EqBandCfg, EqBandCfg) -> bool {
    |a: EqBandCfg, b: EqBandCfg| total_order_key(a.freq) <= total_order_key(b.freq)
}

/// At most this many EQ points are kept.
pub const MAX_BANDS: usize = 10;

fn band_key(bits: u32) -> (k: i64)
    ensures
        k == total_order_key(bits),
{
    if bits < 0x8000_0000 {
        bits as i64
    } else {
        0x7fff_ffff - bits as i64
    }
}

/// The EQ points sorted by frequency (stable, `total_cmp` order), cut to
/// the first [`MAX_BANDS`].
pub open spec fn ordered_bands_spec(bands: Seq<EqBandCfg>) -> Seq<EqBandCfg> {
    let s = stable_sort(bands, band_order());
    if s.len() > MAX_BANDS {
        s.take(MAX_BANDS as int)
    } else {
        s
    }
}

/// Sorts EQ points by frequency and keeps the lowest [`MAX_BANDS`].
pub fn order_bands(bands: &Vec<EqBandCfg>) -> (r: Vec<EqBandCfg>)
    ensures
        r@ == ordered_bands_spec(bands@),
{
    let ghost le = band_order();
    let mut out: Vec<EqBandCfg> = Vec::new();
    let mut i: usize = 0;
    while i < bands.len()
        invariant
            i <= bands@.len(),
            le == band_order(),
            out@ == stable_sort(bands@.take(i as int), le),
        decreases bands@.len() - i,
    {
        let x = bands[i];
        let kx = band_key(x.freq);
        let mut p: usize = 0;
        while p < out.len() && band_key(out[p].freq) <= kx
            invariant
                p <= out@.len(),
                le == band_order(),
                kx == total_order_key(x.freq),
                forall|k: int| 0 <= k < p ==> le(#[trigger] out@[k], x),
            decreases out@.len() - p,
        {
            p += 1;
        }
        proof {
            lemma_insert_point(out@, x, le, p as int);
            lemma_stable_sort_take(bands@, le, i as int);
        }
        out.insert(p, x);
        i += 1;
    }
    assert(bands@.take(i as int) =~= bands@);
    if out.len() > MAX_BANDS {
        out.truncate(MAX_BANDS);
    }
    out
}

/// EQ presets by name.
pub open spec fn preset_order() -> spec_fn(EqPreset, EqPreset) -> bool {
    |a: EqPreset, b: EqPreset| chars_le(a.name@, b.name@)
}

/// A preset not named `name` (ASCII case ignored).
pub open spec fn preset_other_than(name: Seq<char>) -> spec_fn(EqPreset) -> bool {
    |p: EqPreset| !eq_ignore_ascii_case_spec(p.name@, name)
}

fn drop_presets_named(presets: &mut Vec<EqPreset>, name: &str)
    ensures
        final(presets)@ == old(presets)@.filter(preset_other_than(name@)),
{
    let mut keep: Vec<bool> = Vec::new();
    let mut k: usize = 0;
    while k < presets.len()
        invariant
            k <= presets@.len(),
            keep@.len() == k,
            forall|t: int| 0 <= t < k ==> keep@[t] == preset_other_than(name@)(#[trigger] presets@[t]),
        decreases presets@.len() - k,
    {
        keep.push(!eq_ignore_ascii_case(presets[k].name.as_str(), name));
        k += 1;
    }
    retain_flags(presets, &keep, Ghost(preset_other_than(name@)));
}

/// The presets kept when saving or deleting the preset `name`.
pub open spec fn presets_without(presets: Seq<EqPreset>, name: Seq<char>) -> Seq<EqPreset> {
    presets.filter(preset_other_than(name))
}

/// Saves the curve `bands` (already sanitised) as the preset `name`
/// (trimmed): a preset of the same name, ASCII case ignored, is replaced,
/// and the list stays ordered by name.
pub fn save_eq_preset(cfg: &mut AppConfig, name: &str, bands: Vec<EqBandCfg>)
    ensures
        exists|p: EqPreset|
            p.name@ == unicode_trim(name@) && p.gains@.len() == 0 && p.bands == bands && final(cfg).eq_presets@
                == #[trigger] stable_sort(
                presets_without(old(cfg).eq_presets@, unicode_trim(name@)).push(p),
                preset_order(),
            ),
        final(cfg).lines == old(cfg).lines,
        final(cfg).outputs == old(cfg).outputs,
        final(cfg).ducking == old(cfg).ducking,
        final(cfg).master_gain == old(cfg).master_gain,
        final(cfg).profiles == old(cfg).profiles,
        final(cfg).schema_version == old(cfg).schema_version,
{
    let n = trim(name);
    drop_presets_named(&mut cfg.eq_presets, n.as_str());
    let ghost kept = cfg.eq_presets@;
    let p = EqPreset { name: n, gains: Vec::new(), bands };
    let ghost pg = p;
    cfg.eq_presets.push(p);
    let ghost all = cfg.eq_presets@;
    // Stable insertion sort by name.
    let ghost le = preset_order();
    let mut src: Vec<EqPreset> = Vec::new();
    std::mem::swap(&mut src, &mut cfg.eq_presets);
    let mut out: Vec<EqPreset> = Vec::new();
    let mut i: usize = 0;
    let total: usize = src.len();
    proof {
        assert(all.skip(0) =~= all);
    }
    while src.len() > 0
        invariant
            le == preset_order(),
            i <= all.len(),
            all.len() == total,
            src@ == all.skip(i as int),
            out@ == stable_sort(all.take(i as int), le),
            cfg.lines == old(cfg).lines,
            cfg.outputs == old(cfg).outputs,
            cfg.ducking == old(cfg).ducking,
            cfg.master_gain == old(cfg).master_gain,
            cfg.profiles == old(cfg).profiles,
            cfg.schema_version == old(cfg).schema_version,
        decreases src@.len(),
    {
        let x = src.remove(0);
        assert(x == all[i as int]);
        let mut q: usize = 0;
        while q < out.len() && label_le(out[q].name.as_str(), x.name.as_str())
            invariant
                q <= out@.len(),
                le == preset_order(),
                forall|k: int| 0 <= k < q ==> le(#[trigger] out@[k], x),
            decreases out@.len() - q,
        {
            q += 1;
        }
        proof {
            lemma_insert_point(out@, x, le, q as int);
            lemma_stable_sort_take(all, le, i as int);
            assert(all.skip(i + 1) =~= all.skip(i as int).drop_first());
        }
        out.insert(q, x);
        i += 1;
    }
    assert(all.take(i as int) =~= all);
    cfg.eq_presets = out;
    assert(pg.name@ == unicode_trim(name@) && pg.gains@.len() == 0 && pg.bands == bands && cfg.eq_presets@ == stable_sort(
        presets_without(old(cfg).eq_presets@, unicode_trim(name@)).push(pg),
        preset_order(),
    ));
}

/// Deletes the presets named `name` (ASCII case ignored).
pub fn delete_eq_preset(cfg: &mut AppConfig, name: &str)
    ensures
        final(cfg).eq_presets@ == presets_without(old(cfg).eq_presets@, name@),
        final(cfg).lines == old(cfg).lines,
        final(cfg).outputs == old(cfg).outputs,
        final(cfg).ducking == old(cfg).ducking,
        final(cfg).master_gain == old(cfg).master_gain,
        final(cfg).profiles == old(cfg).profiles,
        final(cfg).schema_version == old(cfg).schema_version,
{
    drop_presets_named(&mut cfg.eq_presets, name);
}

/// The line's capture source is the device `c`.
pub open spec fn source_is(l: LineConfig, c: Seq<char>) -> bool {
    match l.input_device {
        Some(d) => d@ == c,
        None => false,
    }
}

/// A line other than `id` captures `c`.
pub open spec fn taken_by_other(lines: Seq<LineConfig>, id: Seq<char>, c: Seq<char>) -> bool {
    exists|k: int| 0 <= k < lines.len() && lines[k].id@ != id && source_is(#[trigger] lines[k], c)
}

/// A capture device an app line may claim: a virtual cable that no other
/// line captures and whose render side feeds no output bus.
pub open spec fn claimable(cfg: AppConfig, id: Seq<char>) -> spec_fn(Seq<char>) -> bool {
    |n: Seq<char>| is_virtual_capture_spec(n) && !taken_by_other(cfg.lines@, id, n) && !cable_used_as_output_spec(
        cfg.outputs@,
        n,
    )
}

/// Error for an app dropped on a line that captures a physical input.
pub open spec fn physical_source_msg(name: Seq<char>, device: Seq<char>) -> Seq<char> {
    "la tranche \""@ + name + "\" capture \""@ + device
        + "\" (une entrée physique) — choisis d'abord un câble virtuel comme source, ou vide la source"@
}

/// Error when every virtual cable is taken.
pub open spec fn no_free_cable_msg() -> Seq<char> {
    "aucun câble virtuel libre — installe VB-Cable (et le pack A+B pour plus de lignes)"@
}

/// The capture side an app dropped on line `line_id` goes through, with
/// the cached render id and the line's name: the line's own source when it
/// is a virtual cable, else (no source) the first claimable capture device
/// (`inputs` are the capture device names, or why they could not be
/// listed).
pub open spec fn capture_choice_spec(
    cfg: AppConfig,
    line_id: Seq<char>,
    inputs: Result<Seq<Seq<char>>, Seq<char>>,
) -> Result<(Seq<char>, Option<Seq<char>>, Seq<char>), Seq<char>> {
    match first_match(cfg.lines@, line_has_id(line_id)) {
        None => Err("ligne introuvable"@),
        Some(i) => {
            let l = cfg.lines@[i];
            let cached = match l.cable_render_id {
                Some(r) => Some(r@),
                None => None,
            };
            match l.input_device {
                Some(d) => if is_virtual_capture_spec(d@) {
                    Ok((d@, cached, l.name@))
                } else {
                    Err(physical_source_msg(l.name@, d@))
                },
                None => match inputs {
                    Err(e) => Err(e),
                    Ok(names) => match first_match(names, claimable(cfg, line_id)) {
                        Some(k) => Ok((names[k], cached, l.name@)),
                        None => Err(no_free_cable_msg()),
                    },
                },
            }
        },
    }
}

/// The device list as plain values.
pub open spec fn inputs_view(inputs: Result<Vec<String>, String>) -> Result<Seq<Seq<char>>, Seq<char>> {
    match inputs {
        Ok(v) => Ok(string_views(v@)),
        Err(e) => Err(e@),
    }
}

/// The choice as plain values.
pub open spec fn choice_view(r: Result<(String, Option<String>, String), String>) -> Result<
    (Seq<char>, Option<Seq<char>>, Seq<char>),
    Seq<char>,
> {
    match r {
        Ok(t) => Ok(
            (
                t.0@,
                match t.1 {
                    Some(x) => Some(x@),
                    None => None,
                },
                t.2@,
            ),
        ),
        Err(e) => Err(e@),
    }
}

fn source_taken_elsewhere(lines: &Vec<LineConfig>, id: &str, c: &str) -> (r: bool)
    ensures
        r == taken_by_other(lines@, id@, c@),
{
    let mut k: usize = 0;
    while k < lines.len()
        invariant
            k <= lines@.len(),
            forall|t: int| 0 <= t < k ==> !(lines@[t].id@ != id@ && source_is(#[trigger] lines@[t], c@)),
        decreases lines@.len() - k,
    {
        if !str_eq(lines[k].id.as_str(), id) {
            if let Some(d) = &lines[k].input_device {
                if str_eq(d.as_str(), c) {
                    assert(source_is(lines@[k as int], c@));
                    return true;
                }
            }
        }
        k += 1;
    }
    false
}

fn clone_opt_string(o: &Option<String>) -> (r: Option<String>)
    ensures
        r == *o,
{
    match o {
        Some(s) => Some(s.clone()),
        None => None,
    }
}

/// An app line without a source only ever gets a free virtual cable: one
/// of the listed capture devices, a virtual cable, that no other line
/// captures and whose render side no output bus plays into. An unknown
/// line is refused.
pub proof fn lemma_capture_choice_free(cfg: AppConfig, line_id: Seq<char>, inputs: Result<Seq<Seq<char>>, Seq<char>>)
    ensures
        match first_match(cfg.lines@, line_has_id(line_id)) {
            Some(i) => (cfg.lines@[i].input_device is None && capture_choice_spec(cfg, line_id, inputs) is Ok) ==> {
                let c = capture_choice_spec(cfg, line_id, inputs)->Ok_0.0;
                &&& is_virtual_capture_spec(c)
                &&& !cable_used_as_output_spec(cfg.outputs@, c)
                &&& forall|k: int|
                    0 <= k < cfg.lines@.len() && (#[trigger] cfg.lines@[k]).id@ != line_id
                        && cfg.lines@[k].input_device is Some ==> cfg.lines@[k].input_device->0@ != c
                &&& inputs is Ok && inputs->Ok_0.contains(c)
            },
            None => capture_choice_spec(cfg, line_id, inputs) is Err,
        },
{
    lemma_first_match(cfg.lines@, line_has_id(line_id));
    if let Some(i) = first_match(cfg.lines@, line_has_id(line_id)) {
        if cfg.lines@[i].input_device is None {
            if let Ok(names) = inputs {
                let p = claimable(cfg, line_id);
                lemma_first_match(names, p);
                if let Some(k) = first_match(names, p) {
                    let c = names[k];
                    assert(p(c));
                    assert forall|j: int|
                        0 <= j < cfg.lines@.len() && (#[trigger] cfg.lines@[j]).id@ != line_id
                            && cfg.lines@[j].input_device is Some implies cfg.lines@[j].input_device->0@ != c by {
                        if cfg.lines@[j].input_device->0@ == c {
                            assert(source_is(cfg.lines@[j], c));
                        }
                    }
                }
            }
        }
    }
}

/// Which cable an app dropped on line `line_id` is routed through (see
/// [`capture_choice_spec`]): `(capture device, cached render id, line
/// name)`.
pub fn capture_for_app(cfg: &AppConfig, line_id: &str, inputs: &Result<Vec<String>, String>) -> (r: Result<
    (String, Option<String>, String),
    String,
>)
    ensures
        choice_view(r) == capture_choice_spec(*cfg, line_id@, inputs_view(*inputs)),
        match first_match(cfg.lines@, line_has_id(line_id@)) {
            Some(i) => (cfg.lines@[i].input_device is None && r is Ok) ==> {
                let c = r->Ok_0.0@;
                &&& is_virtual_capture_spec(c)
                &&& !cable_used_as_output_spec(cfg.outputs@, c)
                &&& forall|k: int|
                    0 <= k < cfg.lines@.len() && (#[trigger] cfg.lines@[k]).id@ != line_id@
                        && cfg.lines@[k].input_device is Some ==> cfg.lines@[k].input_device->0@ != c
                &&& inputs is Ok && string_views(inputs->Ok_0@).contains(c)
            },
            None => r is Err,
        },
{
    proof {
        lemma_capture_choice_free(*cfg, line_id@, inputs_view(*inputs));
    }
    let found = find_line(&cfg.lines, line_id);
    proof {
        lemma_first_match(cfg.lines@, line_has_id(line_id@));
    }
    let i = match found {
        Some(i) => i,
        None => return Err(to_owned("ligne introuvable")),
    };
    let line = &cfg.lines[i];
    let cached = clone_opt_string(&line.cable_render_id);
    match &line.input_device {
        Some(d) => {
            if is_virtual_capture(d.as_str()) {
                return Ok((d.clone(), cached, line.name.clone()));
            }
            let mut m = to_owned("la tranche \"");
            m.append(line.name.as_str());
            m.append("\" capture \"");
            m.append(d.as_str());
            m.append("\" (une entrée physique) — choisis d'abord un câble virtuel comme source, ou vide la source");
            Err(m)
        },
        None => {
            let names = match inputs {
                Err(e) => {
                    return Err(e.clone());
                },
                Ok(v) => v,
            };
            let ghost nv = string_views(names@);
            let ghost p = claimable(*cfg, line_id@);
            assert(inputs_view(*inputs) == Ok::<Seq<Seq<char>>, Seq<char>>(nv));
            let mut k: usize = 0;
            while k < names.len()
                invariant
                    k <= names@.len(),
                    nv == string_views(names@),
                    p == claimable(*cfg, line_id@),
                    inputs_view(*inputs) == Ok::<Seq<Seq<char>>, Seq<char>>(nv),
                    i < cfg.lines@.len(),
                    first_match(cfg.lines@, line_has_id(line_id@)) == Some(i as int),
                    *line == cfg.lines@[i as int],
                    line.input_device is None,
                    cached == line.cable_render_id,
                    first_match(nv, p) == crate::seqs::first_match_from(nv, p, k as int),
                decreases names@.len() - k,
            {
                let n = names[k].as_str();
                assert(nv[k as int] == names@[k as int]@);
                if is_virtual_capture(n) && !source_taken_elsewhere(&cfg.lines, line_id, n)
                    && !cable_used_as_output(&cfg.outputs, n) {
                    assert(p(nv[k as int]));
                    assert(first_match(nv, p) == Some(k as int));
                    return Ok((names[k].clone(), cached, line.name.clone()));
                }
                k += 1;
            }
            Err(to_owned("aucun câble virtuel libre — installe VB-Cable (et le pack A+B pour plus de lignes)"))
        },
    }
}

/// The kept EQ points are in frequency order, at most [`MAX_BANDS`] of
/// them, all taken from the input; up to [`MAX_BANDS`] points none is
/// dropped.
pub proof fn lemma_ordered_bands(bands: Seq<EqBandCfg>)
    ensures
        sorted_by(ordered_bands_spec(bands), band_order()),
        ordered_bands_spec(bands).len() == if bands.len() > MAX_BANDS {
            MAX_BANDS as int
        } else {
            bands.len() as int
        },
        forall|k: int| 0 <= k < ordered_bands_spec(bands).len() ==> bands.contains(#[trigger] ordered_bands_spec(bands)[k]),
        bands.len() <= MAX_BANDS ==> ordered_bands_spec(bands).to_multiset() == bands.to_multiset(),
{
    broadcast use vstd::seq_lib::group_to_multiset_ensures;

    let le = band_order();
    assert(total_preorder(le));
    lemma_stable_sort(bands, le);
    let s = stable_sort(bands, le);
    let r = ordered_bands_spec(bands);
    assert forall|k: int| 0 <= k < r.len() implies bands.contains(#[trigger] r[k]) by {
        assert(r[k] == s[k]);
        assert(s.to_multiset().count(s[k]) > 0);
    }
    assert forall|i: int, j: int| 0 <= i < j < r.len() implies le(#[trigger] r[i], #[trigger] r[j]) by {
        assert(r[i] == s[i]);
        assert(r[j] == s[j]);
    }
}

/// After saving preset `p` (named `n`), the presets are ordered by name,
/// `p` is among them exactly once, no other preset is named `n` (ASCII
/// case ignored), and every other earlier preset is still there.
pub proof fn lemma_saved_preset(presets: Seq<EqPreset>, n: Seq<char>, p: EqPreset)
    requires
        p.name@ == n,
    ensures
        sorted_by(stable_sort(presets_without(presets, n).push(p), preset_order()), preset_order()),
        stable_sort(presets_without(presets, n).push(p), preset_order()).to_multiset().count(p) == 1,
        forall|k: int|
            0 <= k < stable_sort(presets_without(presets, n).push(p), preset_order()).len()
                && eq_ignore_ascii_case_spec(
                (#[trigger] stable_sort(presets_without(presets, n).push(p), preset_order())[k]).name@,
                n,
            ) ==> stable_sort(presets_without(presets, n).push(p), preset_order())[k] == p,
        forall|k: int|
            0 <= k < presets.len() && !eq_ignore_ascii_case_spec((#[trigger] presets[k]).name@, n)
                ==> stable_sort(presets_without(presets, n).push(p), preset_order()).contains(presets[k]),
{
    broadcast use vstd::seq_lib::group_to_multiset_ensures;

    let le = preset_order();
    assert forall|a: EqPreset, b: EqPreset| #[trigger] le(a, b) || le(b, a) by {
        crate::apps::lemma_chars_le_total(a.name@, b.name@);
    }
    assert forall|a: EqPreset, b: EqPreset, c: EqPreset| #[trigger] le(a, b) && #[trigger] le(b, c) implies le(a, c) by {
        crate::apps::lemma_chars_le_transitive(a.name@, b.name@, c.name@);
    }
    let kept = presets_without(presets, n);
    let all = kept.push(p);
    lemma_stable_sort(all, le);
    let r = stable_sort(all, le);
    crate::seqs::lemma_filter_members(presets, preset_other_than(n));
    assert(eq_ignore_ascii_case_spec(n, n));
    assert(!kept.contains(p)) by {
        if kept.contains(p) {
            let w = choose|w: int| 0 <= w < kept.len() && kept[w] == p;
            assert(preset_other_than(n)(kept[w]));
        }
    }
    assert(kept.to_multiset().count(p) == 0);
    assert forall|k: int| 0 <= k < r.len() && eq_ignore_ascii_case_spec((#[trigger] r[k]).name@, n) implies r[k] == p by {
        assert(r.to_multiset().count(r[k]) > 0);
        if r[k] != p {
            assert(kept.to_multiset().count(r[k]) > 0);
            assert(kept.contains(r[k]));
            let w = choose|w: int| 0 <= w < kept.len() && kept[w] == r[k];
            assert(preset_other_than(n)(kept[w]));
        }
    }
    assert forall|k: int| 0 <= k < presets.len() && !eq_ignore_ascii_case_spec((#[trigger] presets[k]).name@, n) implies r.contains(
        presets[k],
    ) by {
        assert(preset_other_than(n)(presets[k]));
        assert(kept.contains(presets[k]));
        assert(kept.to_multiset().count(presets[k]) > 0);
        assert(r.to_multiset().count(presets[k]) > 0);
    }
}

} // verus!
