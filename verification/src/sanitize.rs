//! Structural guard rails applied to every configuration entering the
//! application (start-up and import): duplicate ids, dangling references,
//! legacy EQ migration and unknown reactivity names.

use vstd::prelude::*;
use crate::buses::{rule_refs_exist, rules_naming_lines, named, non_empty_devices};
use crate::edits::{has_line, rule_valid, sane_duck_rules};
use crate::model::{
    canonical_reactivity, reactivity_name, reactivity_spec, AppConfig, EqBandCfg, EqPreset,
    LineConfig, LineSnapshot, OutputConfig, Profile, Route,
};
use crate::seqs::{lemma_filter_all_kept, lemma_select_all_kept, lemma_select_map, retain_selected, select};
use crate::text::str_eq;

verus! {

/// Centre frequencies of the legacy 5-band EQ (80 Hz, 250 Hz, 1 kHz,
/// 4 kHz, 12 kHz) as bit patterns.
pub open spec fn legacy_freq(k: int) -> u32 {
    if k == 0 {
        0x42a0_0000u32
    } else if k == 1 {
        0x437a_0000u32
    } else if k == 2 {
        0x447a_0000u32
    } else if k == 3 {
        0x457a_0000u32
    } else {
        0x463b_8000u32
    }
}

/// Number of legacy bands.
pub const LEGACY_BANDS: usize = 5;

/// Exec counterpart of [`legacy_freq`].
pub fn legacy_freq_bits(k: usize) -> (r: u32)
    requires
        k < LEGACY_BANDS,
    ensures
        r == legacy_freq(k as int),
{
    if k == 0 {
        0x42a0_0000u32
    } else if k == 1 {
        0x437a_0000u32
    } else if k == 2 {
        0x447a_0000u32
    } else if k == 3 {
        0x457a_0000u32
    } else {
        0x463b_8000u32
    }
}

/// The parametric bands a legacy gain list migrates to: the legacy centre
/// frequencies paired with the gains (as many as both provide).
pub open spec fn legacy_bands(gains: Seq<u32>) -> Seq<EqBandCfg> {
    let n = if gains.len() < 5 {
        gains.len() as int
    } else {
        5
    };
    Seq::new(n as nat, |k: int| EqBandCfg { freq: legacy_freq(k), gain: gains[k] })
}

/// Pairs the legacy centre frequencies with `gains`.
pub fn migrate_legacy_bands(gains: &Vec<u32>) -> (r: Vec<EqBandCfg>)
    ensures
        r@ == legacy_bands(gains@),
{
    let mut r: Vec<EqBandCfg> = Vec::new();
    let mut k: usize = 0;
    while k < gains.len() && k < LEGACY_BANDS
        invariant
            k <= gains@.len(),
            k <= 5,
            r@.len() == k,
            forall|j: int| 0 <= j < k ==> #[trigger] r@[j] == (EqBandCfg { freq: legacy_freq(j), gain: gains@[j] }),
        decreases 5 - k,
    {
        r.push(EqBandCfg { freq: legacy_freq_bits(k), gain: gains[k] });
        k += 1;
    }
    assert(r@ =~= legacy_bands(gains@));
    r
}

/// Flags the outputs whose id did not appear earlier.
pub open spec fn first_output_flags(s: Seq<OutputConfig>) -> Seq<bool> {
    Seq::new(s.len(), |k: int| forall|j: int| 0 <= j < k ==> #[trigger] s[j].id@ != s[k].id@)
}

/// Flags the lines whose id did not appear earlier.
pub open spec fn first_line_flags(s: Seq<LineConfig>) -> Seq<bool> {
    Seq::new(s.len(), |k: int| forall|j: int| 0 <= j < k ==> #[trigger] s[j].id@ != s[k].id@)
}

/// Some bus carries this id.
pub open spec fn has_bus_id(outputs: Seq<OutputConfig>, id: Seq<char>) -> bool {
    exists|o: int| 0 <= o < outputs.len() && #[trigger] outputs[o].id@ == id
}

/// Flags the routes that target an existing bus not targeted by an earlier
/// route (two routes to one bus would double the sound).
pub open spec fn route_flags(outputs: Seq<OutputConfig>, routes: Seq<Route>) -> Seq<bool> {
    Seq::new(
        routes.len(),
        |k: int|
            has_bus_id(outputs, routes[k].output_id@) && forall|j: int|
                0 <= j < k ==> #[trigger] routes[j].output_id@ != routes[k].output_id@,
    )
}

fn first_output_flags_exec(s: &Vec<OutputConfig>) -> (r: Vec<bool>)
    ensures
        r@ == first_output_flags(s@),
{
    let mut r: Vec<bool> = Vec::new();
    let mut k: usize = 0;
    while k < s.len()
        invariant
            k <= s@.len(),
            r@.len() == k,
            forall|t: int| 0 <= t < k ==> #[trigger] r@[t] == first_output_flags(s@)[t],
        decreases s@.len() - k,
    {
        let mut fresh = true;
        let mut j: usize = 0;
        while j < k
            invariant
                k < s@.len(),
                j <= k,
                fresh == forall|t: int| 0 <= t < j ==> #[trigger] s@[t].id@ != s@[k as int].id@,
            decreases k - j,
        {
            if str_eq(s[j].id.as_str(), s[k].id.as_str()) {
                fresh = false;
            }
            j += 1;
        }
        r.push(fresh);
        k += 1;
    }
    assert(r@ =~= first_output_flags(s@));
    r
}

fn first_line_flags_exec(s: &Vec<LineConfig>) -> (r: Vec<bool>)
    ensures
        r@ == first_line_flags(s@),
{
    let mut r: Vec<bool> = Vec::new();
    let mut k: usize = 0;
    while k < s.len()
        invariant
            k <= s@.len(),
            r@.len() == k,
            forall|t: int| 0 <= t < k ==> #[trigger] r@[t] == first_line_flags(s@)[t],
        decreases s@.len() - k,
    {
        let mut fresh = true;
        let mut j: usize = 0;
        while j < k
            invariant
                k < s@.len(),
                j <= k,
                fresh == forall|t: int| 0 <= t < j ==> #[trigger] s@[t].id@ != s@[k as int].id@,
            decreases k - j,
        {
            if str_eq(s[j].id.as_str(), s[k].id.as_str()) {
                fresh = false;
            }
            j += 1;
        }
        r.push(fresh);
        k += 1;
    }
    assert(r@ =~= first_line_flags(s@));
    r
}

/// Is there a bus with this id?
pub fn bus_exists(outputs: &Vec<OutputConfig>, id: &str) -> (r: bool)
    ensures
        r == has_bus_id(outputs@, id@),
{
    let mut o: usize = 0;
    while o < outputs.len()
        invariant
            o <= outputs@.len(),
            forall|t: int| 0 <= t < o ==> #[trigger] outputs@[t].id@ != id@,
        decreases outputs@.len() - o,
    {
        if str_eq(outputs[o].id.as_str(), id) {
            assert(outputs@[o as int].id@ == id@);
            return true;
        }
        o += 1;
    }
    false
}

fn route_flags_exec(outputs: &Vec<OutputConfig>, routes: &Vec<Route>) -> (r: Vec<bool>)
    ensures
        r@ == route_flags(outputs@, routes@),
{
    let mut r: Vec<bool> = Vec::new();
    let mut k: usize = 0;
    while k < routes.len()
        invariant
            k <= routes@.len(),
            r@.len() == k,
            forall|t: int| 0 <= t < k ==> #[trigger] r@[t] == route_flags(outputs@, routes@)[t],
        decreases routes@.len() - k,
    {
        let mut fresh = true;
        let mut j: usize = 0;
        while j < k
            invariant
                k < routes@.len(),
                j <= k,
                fresh == forall|t: int| 0 <= t < j ==> #[trigger] routes@[t].output_id@ != routes@[k as int].output_id@,
            decreases k - j,
        {
            if str_eq(routes[j].output_id.as_str(), routes[k].output_id.as_str()) {
                fresh = false;
            }
            j += 1;
        }
        let ok = fresh && bus_exists(outputs, routes[k].output_id.as_str());
        r.push(ok);
        k += 1;
    }
    assert(r@ =~= route_flags(outputs@, routes@));
    r
}

/// `new` is line `old` with its structure repaired against `outputs`.
pub open spec fn line_repaired(old: LineConfig, outputs: Seq<OutputConfig>, new: LineConfig) -> bool {
    &&& new == LineConfig {
        eq_bands: new.eq_bands,
        duck_reactivity: new.duck_reactivity,
        routes: new.routes,
        ..old
    }
    &&& new.eq_bands@ == if old.eq_bands@.len() == 0 {
        legacy_bands(old.eq@)
    } else {
        old.eq_bands@
    }
    &&& new.duck_reactivity@ == reactivity_name(reactivity_spec(old.duck_reactivity@))
    &&& new.routes@ == select(old.routes@, route_flags(outputs, old.routes@))
}

/// Repairs one line: legacy EQ migration, canonical reactivity, and routes
/// kept only when they target an existing bus not already targeted.
pub fn repair_line(line: &mut LineConfig, outputs: &Vec<OutputConfig>)
    ensures
        line_repaired(*old(line), outputs@, *final(line)),
{
    if line.eq_bands.len() == 0 {
        line.eq_bands = migrate_legacy_bands(&line.eq);
    }
    line.duck_reactivity = canonical_reactivity(line.duck_reactivity.as_str());
    let flags = route_flags_exec(outputs, &line.routes);
    retain_selected(&mut line.routes, &flags);
}

/// `new` is preset `old` with legacy gains migrated when it has no bands.
pub open spec fn preset_repaired(old: EqPreset, new: EqPreset) -> bool {
    &&& new == EqPreset { bands: new.bands, ..old }
    &&& new.bands@ == if old.bands@.len() == 0 && old.gains@.len() == 5 {
        legacy_bands(old.gains@)
    } else {
        old.bands@
    }
}

/// Migrates a legacy preset.
pub fn repair_preset(p: &mut EqPreset)
    ensures
        preset_repaired(*old(p), *final(p)),
{
    if p.bands.len() == 0 && p.gains.len() == LEGACY_BANDS {
        p.bands = migrate_legacy_bands(&p.gains);
    }
}

/// `new` is profile `old` whose rules name existing `lines` and whose
/// snapshots list only named devices.
pub open spec fn profile_repaired(old: Profile, lines: Seq<LineConfig>, new: Profile) -> bool {
    &&& new == Profile { ducking: new.ducking, lines: new.lines, ..old }
    &&& new.ducking@ == old.ducking@.filter(rule_refs_exist(lines))
    &&& new.lines@.len() == old.lines@.len()
    &&& forall|i: int|
        0 <= i < old.lines@.len() ==> #[trigger] new.lines@[i] == LineSnapshot {
            output_devices: new.lines@[i].output_devices,
            ..old.lines@[i]
        } && new.lines@[i].output_devices@ == old.lines@[i].output_devices@.filter(|d: String| named(d))
}

/// Repairs one profile against the (already repaired) lines.
pub fn repair_profile(p: &mut Profile, lines: &Vec<LineConfig>)
    ensures
        profile_repaired(*old(p), lines@, *final(p)),
{
    p.ducking = rules_naming_lines(lines, &p.ducking);
    let mut i: usize = 0;
    while i < p.lines.len()
        invariant
            i <= p.lines@.len(),
            p.lines@.len() == old(p).lines@.len(),
            p.ducking@ == old(p).ducking@.filter(rule_refs_exist(lines@)),
            *p == (Profile { ducking: p.ducking, lines: p.lines, ..*old(p) }),
            forall|k: int| i <= k < p.lines@.len() ==> #[trigger] p.lines@[k] == old(p).lines@[k],
            forall|k: int|
                0 <= k < i ==> #[trigger] p.lines@[k] == (LineSnapshot {
                    output_devices: p.lines@[k].output_devices,
                    ..old(p).lines@[k]
                }) && p.lines@[k].output_devices@ == old(p).lines@[k].output_devices@.filter(|d: String| named(d)),
        decreases p.lines@.len() - i,
    {
        let kept = non_empty_devices(&p.lines[i].output_devices);
        p.lines[i].output_devices = kept;
        i += 1;
    }
}

/// The structural repairs of a whole configuration.
pub open spec fn structure_repaired(old: AppConfig, new: AppConfig) -> bool {
    let lines0 = select(old.lines@, first_line_flags(old.lines@));
    &&& new.outputs@ == select(old.outputs@, first_output_flags(old.outputs@))
    &&& new.lines@.len() == lines0.len()
    &&& forall|i: int| 0 <= i < lines0.len() ==> line_repaired(lines0[i], new.outputs@, #[trigger] new.lines@[i])
    &&& new.ducking@ == old.ducking@.filter(rule_valid(new.lines@))
    &&& new.eq_presets@.len() == old.eq_presets@.len()
    &&& forall|i: int| 0 <= i < old.eq_presets@.len() ==> preset_repaired(old.eq_presets@[i], #[trigger] new.eq_presets@[i])
    &&& new.profiles@.len() == old.profiles@.len()
    &&& forall|i: int| 0 <= i < old.profiles@.len() ==> profile_repaired(old.profiles@[i], new.lines@, #[trigger] new.profiles@[i])
    &&& new.master_gain == old.master_gain
    &&& new.schema_version == old.schema_version
}

/// Brings a configuration from disk or an import back to the structure the
/// rest of the code assumes: ids deduplicated (first kept), routes to
/// missing or already-targeted buses dropped, ducking rules naming missing
/// lines or a line itself dropped, legacy EQ migrated, reactivity names
/// canonical, blank snapshot devices dropped. Numeric clamping of the
/// continuous values happens outside this crate.
pub fn repair_structure(cfg: &mut AppConfig)
    ensures
        structure_repaired(*old(cfg), *final(cfg)),
{
    let flags = first_output_flags_exec(&cfg.outputs);
    retain_selected(&mut cfg.outputs, &flags);
    let flags = first_line_flags_exec(&cfg.lines);
    retain_selected(&mut cfg.lines, &flags);
    let ghost lines0 = cfg.lines@;
    let mut i: usize = 0;
    while i < cfg.lines.len()
        invariant
            i <= cfg.lines@.len(),
            cfg.lines@.len() == lines0.len(),
            lines0 == select(old(cfg).lines@, first_line_flags(old(cfg).lines@)),
            cfg.outputs@ == select(old(cfg).outputs@, first_output_flags(old(cfg).outputs@)),
            cfg.ducking == old(cfg).ducking,
            cfg.eq_presets == old(cfg).eq_presets,
            cfg.profiles == old(cfg).profiles,
            cfg.master_gain == old(cfg).master_gain,
            cfg.schema_version == old(cfg).schema_version,
            forall|k: int| i <= k < cfg.lines@.len() ==> #[trigger] cfg.lines@[k] == lines0[k],
            forall|k: int| 0 <= k < i ==> line_repaired(lines0[k], cfg.outputs@, #[trigger] cfg.lines@[k]),
        decreases cfg.lines@.len() - i,
    {
        repair_line(&mut cfg.lines[i], &cfg.outputs);
        i += 1;
    }
    let mut rules: Vec<crate::model::DuckRule> = Vec::new();
    std::mem::swap(&mut rules, &mut cfg.ducking);
    cfg.ducking = sane_duck_rules(&cfg.lines, rules);
    let ghost after_lines = *cfg;
    let mut i: usize = 0;
    while i < cfg.eq_presets.len()
        invariant
            i <= cfg.eq_presets@.len(),
            cfg.lines == after_lines.lines,
            cfg.outputs == after_lines.outputs,
            cfg.ducking == after_lines.ducking,
            cfg.master_gain == old(cfg).master_gain,
            cfg.schema_version == old(cfg).schema_version,
            cfg.profiles == old(cfg).profiles,
            cfg.eq_presets@.len() == old(cfg).eq_presets@.len(),
            forall|k: int| i <= k < cfg.eq_presets@.len() ==> #[trigger] cfg.eq_presets@[k] == old(cfg).eq_presets@[k],
            forall|k: int| 0 <= k < i ==> preset_repaired(old(cfg).eq_presets@[k], #[trigger] cfg.eq_presets@[k]),
        decreases cfg.eq_presets@.len() - i,
    {
        repair_preset(&mut cfg.eq_presets[i]);
        i += 1;
    }
    let mut i: usize = 0;
    while i < cfg.profiles.len()
        invariant
            i <= cfg.profiles@.len(),
            cfg.lines == after_lines.lines,
            cfg.outputs == after_lines.outputs,
            cfg.ducking == after_lines.ducking,
            cfg.master_gain == old(cfg).master_gain,
            cfg.schema_version == old(cfg).schema_version,
            cfg.eq_presets@.len() == old(cfg).eq_presets@.len(),
            forall|k: int| 0 <= k < old(cfg).eq_presets@.len() ==> preset_repaired(old(cfg).eq_presets@[k], #[trigger] cfg.eq_presets@[k]),
            cfg.profiles@.len() == old(cfg).profiles@.len(),
            forall|k: int| i <= k < cfg.profiles@.len() ==> #[trigger] cfg.profiles@[k] == old(cfg).profiles@[k],
            forall|k: int| 0 <= k < i ==> profile_repaired(old(cfg).profiles@[k], cfg.lines@, #[trigger] cfg.profiles@[k]),
        decreases cfg.profiles@.len() - i,
    {
        repair_profile(&mut cfg.profiles[i], &cfg.lines);
        i += 1;
    }
}

} // verus!

verus! {

/// The structural invariants every configuration in use satisfies.
pub open spec fn structure_ok(c: AppConfig) -> bool {
    &&& forall|a: int, b: int|
        0 <= a < c.outputs@.len() && 0 <= b < c.outputs@.len() && a != b ==> #[trigger] c.outputs@[a].id@
            != #[trigger] c.outputs@[b].id@
    &&& crate::profiles::line_ids_unique(c.lines@)
    &&& forall|i: int, k: int|
        0 <= i < c.lines@.len() && 0 <= k < c.lines@[i].routes@.len() ==> has_bus_id(
            c.outputs@,
            #[trigger] c.lines@[i].routes@[k].output_id@,
        )
    &&& forall|i: int, k1: int, k2: int|
        0 <= i < c.lines@.len() && 0 <= k1 < c.lines@[i].routes@.len() && 0 <= k2 < c.lines@[i].routes@.len()
            && k1 != k2 ==> #[trigger] c.lines@[i].routes@[k1].output_id@ != #[trigger] c.lines@[i].routes@[k2].output_id@
    &&& forall|k: int| 0 <= k < c.ducking@.len() ==> rule_valid(c.lines@)(#[trigger] c.ducking@[k])
    &&& forall|i: int|
        0 <= i < c.lines@.len() ==> (#[trigger] c.lines@[i]).duck_reactivity@ == reactivity_name(
            reactivity_spec(c.lines@[i].duck_reactivity@),
        )
    &&& forall|p: int, k: int|
        0 <= p < c.profiles@.len() && 0 <= k < c.profiles@[p].ducking@.len() ==> rule_refs_exist(c.lines@)(
            #[trigger] c.profiles@[p].ducking@[k],
        )
}

/// Canonical reactivity names are fixed points of parsing.
pub proof fn lemma_reactivity_canonical(level: Seq<char>)
    ensures
        reactivity_spec(reactivity_name(reactivity_spec(level))) == reactivity_spec(level),
{
    reveal_strlit("douce");
    reveal_strlit("normale");
    reveal_strlit("rapide");
    assert("douce"@.len() != "rapide"@.len());
    assert("normale"@.len() != "rapide"@.len());
    assert("normale"@.len() != "douce"@.len());
    assert("normale"@ != "douce"@);
}

proof fn lemma_select_unique_ids_outputs(s: Seq<OutputConfig>)
    ensures
        forall|a: int, b: int|
            0 <= a < select(s, first_output_flags(s)).len() && 0 <= b < select(s, first_output_flags(s)).len() && a != b
                ==> #[trigger] select(s, first_output_flags(s))[a].id@ != #[trigger] select(s, first_output_flags(s))[b].id@,
{
    let keep = first_output_flags(s);
    let r = select(s, keep);
    let f = lemma_select_map(s, keep);
    assert forall|a: int, b: int| 0 <= a < r.len() && 0 <= b < r.len() && a != b implies #[trigger] r[a].id@ != #[trigger] r[b].id@ by {
        if a < b {
            assert(f[a] < f[b]);
            assert(keep[f[b]]);
            assert(s[f[a]].id@ != s[f[b]].id@);
        } else {
            assert(f[b] < f[a]);
            assert(keep[f[a]]);
            assert(s[f[b]].id@ != s[f[a]].id@);
        }
    }
}

proof fn lemma_select_unique_ids_lines(s: Seq<LineConfig>)
    ensures
        crate::profiles::line_ids_unique(select(s, first_line_flags(s))),
{
    let keep = first_line_flags(s);
    let r = select(s, keep);
    let f = lemma_select_map(s, keep);
    assert forall|a: int, b: int| 0 <= a < r.len() && 0 <= b < r.len() && a != b implies #[trigger] r[a].id@ != #[trigger] r[b].id@ by {
        if a < b {
            assert(f[a] < f[b]);
            assert(keep[f[b]]);
            assert(s[f[a]].id@ != s[f[b]].id@);
        } else {
            assert(f[b] < f[a]);
            assert(keep[f[a]]);
            assert(s[f[b]].id@ != s[f[a]].id@);
        }
    }
}

proof fn lemma_repaired_routes(outputs: Seq<OutputConfig>, routes: Seq<Route>)
    ensures
        forall|k: int|
            0 <= k < select(routes, route_flags(outputs, routes)).len() ==> has_bus_id(
                outputs,
                #[trigger] select(routes, route_flags(outputs, routes))[k].output_id@,
            ),
        forall|a: int, b: int|
            0 <= a < select(routes, route_flags(outputs, routes)).len() && 0 <= b < select(
                routes,
                route_flags(outputs, routes),
            ).len() && a != b ==> #[trigger] select(routes, route_flags(outputs, routes))[a].output_id@
                != #[trigger] select(routes, route_flags(outputs, routes))[b].output_id@,
{
    let keep = route_flags(outputs, routes);
    let r = select(routes, keep);
    let f = lemma_select_map(routes, keep);
    assert forall|k: int| 0 <= k < r.len() implies has_bus_id(outputs, #[trigger] r[k].output_id@) by {
        assert(keep[f[k]]);
    }
    assert forall|a: int, b: int| 0 <= a < r.len() && 0 <= b < r.len() && a != b implies #[trigger] r[a].output_id@ != #[trigger] r[b].output_id@ by {
        if a < b {
            assert(f[a] < f[b]);
            assert(keep[f[b]]);
            assert(routes[f[a]].output_id@ != routes[f[b]].output_id@);
        } else {
            assert(f[b] < f[a]);
            assert(keep[f[a]]);
            assert(routes[f[b]].output_id@ != routes[f[a]].output_id@);
        }
    }
}

/// A repaired configuration satisfies every structural invariant.
pub proof fn lemma_repaired_structure_ok(old: AppConfig, new: AppConfig)
    requires
        structure_repaired(old, new),
    ensures
        structure_ok(new),
{
    let lines0 = select(old.lines@, first_line_flags(old.lines@));
    lemma_select_unique_ids_outputs(old.outputs@);
    lemma_select_unique_ids_lines(old.lines@);
    assert forall|i: int| 0 <= i < new.lines@.len() implies (#[trigger] new.lines@[i]).id@ == lines0[i].id@ by {
        assert(line_repaired(lines0[i], new.outputs@, new.lines@[i]));
    }
    assert(crate::profiles::line_ids_unique(new.lines@)) by {
        assert forall|a: int, b: int| 0 <= a < new.lines@.len() && 0 <= b < new.lines@.len() && a != b implies #[trigger] new.lines@[a].id@ != #[trigger] new.lines@[b].id@ by {
            assert(lines0[a].id@ != lines0[b].id@);
        }
    }
    assert forall|i: int, k: int|
        0 <= i < new.lines@.len() && 0 <= k < new.lines@[i].routes@.len() implies has_bus_id(
            new.outputs@,
            #[trigger] new.lines@[i].routes@[k].output_id@,
        ) by {
        assert(line_repaired(lines0[i], new.outputs@, new.lines@[i]));
        lemma_repaired_routes(new.outputs@, lines0[i].routes@);
    }
    assert forall|i: int, k1: int, k2: int|
        0 <= i < new.lines@.len() && 0 <= k1 < new.lines@[i].routes@.len() && 0 <= k2 < new.lines@[i].routes@.len()
            && k1 != k2 implies #[trigger] new.lines@[i].routes@[k1].output_id@ != #[trigger] new.lines@[i].routes@[k2].output_id@ by {
        assert(line_repaired(lines0[i], new.outputs@, new.lines@[i]));
        lemma_repaired_routes(new.outputs@, lines0[i].routes@);
    }
    crate::seqs::lemma_filter_members(old.ducking@, rule_valid(new.lines@));
    assert forall|i: int| 0 <= i < new.lines@.len() implies (#[trigger] new.lines@[i]).duck_reactivity@ == reactivity_name(
        reactivity_spec(new.lines@[i].duck_reactivity@),
    ) by {
        assert(line_repaired(lines0[i], new.outputs@, new.lines@[i]));
        lemma_reactivity_canonical(lines0[i].duck_reactivity@);
    }
    assert forall|p: int, k: int|
        0 <= p < new.profiles@.len() && 0 <= k < new.profiles@[p].ducking@.len() implies rule_refs_exist(new.lines@)(
            #[trigger] new.profiles@[p].ducking@[k],
        ) by {
        assert(profile_repaired(old.profiles@[p], new.lines@, new.profiles@[p]));
        crate::seqs::lemma_filter_members(old.profiles@[p].ducking@, rule_refs_exist(new.lines@));
    }
}

/// Nothing left for the structural repairs to do: the invariants of
/// [`structure_ok`], a curve on every line that has legacy gains, legacy
/// presets migrated, and snapshots listing only named devices.
pub open spec fn well_structured(c: AppConfig) -> bool {
    &&& structure_ok(c)
    &&& forall|i: int|
        0 <= i < c.lines@.len() ==> (#[trigger] c.lines@[i]).eq_bands@.len() > 0 || c.lines@[i].eq@.len() == 0
    &&& forall|i: int|
        0 <= i < c.eq_presets@.len() ==> (#[trigger] c.eq_presets@[i]).bands@.len() > 0
            || c.eq_presets@[i].gains@.len() != 5
    &&& forall|p: int, s: int, k: int|
        0 <= p < c.profiles@.len() && 0 <= s < c.profiles@[p].lines@.len() && 0 <= k
            < c.profiles@[p].lines@[s].output_devices@.len() ==> named(
            #[trigger] c.profiles@[p].lines@[s].output_devices@[k],
        )
}

/// Line `new` holds what line `old` holds (lists and text by view).
pub open spec fn same_line(old: LineConfig, new: LineConfig) -> bool {
    &&& new == LineConfig {
        eq_bands: new.eq_bands,
        duck_reactivity: new.duck_reactivity,
        routes: new.routes,
        ..old
    }
    &&& new.eq_bands@ == old.eq_bands@
    &&& new.duck_reactivity@ == old.duck_reactivity@
    &&& new.routes@ == old.routes@
}

/// Profile `new` holds what profile `old` holds (lists by view).
pub open spec fn same_profile(old: Profile, new: Profile) -> bool {
    &&& new == Profile { ducking: new.ducking, lines: new.lines, ..old }
    &&& new.ducking@ == old.ducking@
    &&& new.lines@.len() == old.lines@.len()
    &&& forall|s: int|
        0 <= s < old.lines@.len() ==> #[trigger] new.lines@[s] == LineSnapshot {
            output_devices: new.lines@[s].output_devices,
            ..old.lines@[s]
        } && new.lines@[s].output_devices@ == old.lines@[s].output_devices@
}

/// Configuration `new` holds what `old` holds, field by field.
pub open spec fn same_config(old: AppConfig, new: AppConfig) -> bool {
    &&& new.outputs@ == old.outputs@
    &&& new.lines@.len() == old.lines@.len()
    &&& forall|i: int| 0 <= i < old.lines@.len() ==> same_line(old.lines@[i], #[trigger] new.lines@[i])
    &&& new.ducking@ == old.ducking@
    &&& new.eq_presets@.len() == old.eq_presets@.len()
    &&& forall|i: int|
        0 <= i < old.eq_presets@.len() ==> #[trigger] new.eq_presets@[i] == EqPreset {
            bands: new.eq_presets@[i].bands,
            ..old.eq_presets@[i]
        } && new.eq_presets@[i].bands@ == old.eq_presets@[i].bands@
    &&& new.profiles@.len() == old.profiles@.len()
    &&& forall|i: int| 0 <= i < old.profiles@.len() ==> same_profile(old.profiles@[i], #[trigger] new.profiles@[i])
    &&& new.master_gain == old.master_gain
    &&& new.schema_version == old.schema_version
}

/// The repairs change nothing in a configuration that is already well
/// structured.
pub proof fn lemma_repair_keeps_well_structured(c: AppConfig, new: AppConfig)
    requires
        well_structured(c),
        structure_repaired(c, new),
    ensures
        same_config(c, new),
{
    assert forall|k: int| 0 <= k < c.outputs@.len() implies #[trigger] first_output_flags(c.outputs@)[k] by {
        assert forall|j: int| 0 <= j < k implies #[trigger] c.outputs@[j].id@ != c.outputs@[k].id@ by {
            assert(c.outputs@[j].id@ != c.outputs@[k].id@);
        }
    }
    lemma_select_all_kept(c.outputs@, first_output_flags(c.outputs@));
    assert forall|k: int| 0 <= k < c.lines@.len() implies #[trigger] first_line_flags(c.lines@)[k] by {
        assert forall|j: int| 0 <= j < k implies #[trigger] c.lines@[j].id@ != c.lines@[k].id@ by {
            assert(c.lines@[j].id@ != c.lines@[k].id@);
        }
    }
    lemma_select_all_kept(c.lines@, first_line_flags(c.lines@));
    assert forall|i: int| 0 <= i < c.lines@.len() implies same_line(c.lines@[i], #[trigger] new.lines@[i]) by {
        let l = c.lines@[i];
        assert(line_repaired(l, c.outputs@, new.lines@[i]));
        assert forall|k: int| 0 <= k < l.routes@.len() implies #[trigger] route_flags(c.outputs@, l.routes@)[k] by {
            assert(has_bus_id(c.outputs@, c.lines@[i].routes@[k].output_id@));
            assert forall|j: int| 0 <= j < k implies #[trigger] l.routes@[j].output_id@ != l.routes@[k].output_id@ by {
                assert(c.lines@[i].routes@[j].output_id@ != c.lines@[i].routes@[k].output_id@);
            }
        }
        lemma_select_all_kept(l.routes@, route_flags(c.outputs@, l.routes@));
        lemma_reactivity_canonical(l.duck_reactivity@);
        if l.eq_bands@.len() == 0 {
            assert(legacy_bands(l.eq@) =~= l.eq_bands@);
        }
    }
    assert forall|x: Seq<char>| has_line(new.lines@, x) == has_line(c.lines@, x) by {
        if has_line(c.lines@, x) {
            let i = choose|i: int| 0 <= i < c.lines@.len() && #[trigger] c.lines@[i].id@ == x;
            assert(new.lines@[i].id@ == x);
        }
        if has_line(new.lines@, x) {
            let i = choose|i: int| 0 <= i < new.lines@.len() && #[trigger] new.lines@[i].id@ == x;
            assert(c.lines@[i].id@ == x);
        }
    }
    assert forall|k: int| 0 <= k < c.ducking@.len() implies rule_valid(new.lines@)(#[trigger] c.ducking@[k]) by {
        assert(rule_valid(c.lines@)(c.ducking@[k]));
    }
    lemma_filter_all_kept(c.ducking@, rule_valid(new.lines@));
    assert forall|i: int| 0 <= i < c.profiles@.len() implies same_profile(c.profiles@[i], #[trigger] new.profiles@[i]) by {
        let p = c.profiles@[i];
        assert(profile_repaired(p, new.lines@, new.profiles@[i]));
        assert forall|k: int| 0 <= k < p.ducking@.len() implies rule_refs_exist(new.lines@)(#[trigger] p.ducking@[k]) by {
            assert(rule_refs_exist(c.lines@)(c.profiles@[i].ducking@[k]));
        }
        lemma_filter_all_kept(p.ducking@, rule_refs_exist(new.lines@));
        assert forall|s: int| 0 <= s < p.lines@.len() implies #[trigger] new.profiles@[i].lines@[s].output_devices@
            == p.lines@[s].output_devices@ by {
            let d = p.lines@[s].output_devices@;
            assert forall|k: int| 0 <= k < d.len() implies (|x: String| named(x))(#[trigger] d[k]) by {
                assert(named(c.profiles@[i].lines@[s].output_devices@[k]));
            }
            lemma_filter_all_kept(d, |x: String| named(x));
        }
    }
}

/// A repaired configuration is well structured: there is nothing left for
/// a second repair to do.
pub proof fn lemma_repaired_well_structured(old: AppConfig, new: AppConfig)
    requires
        structure_repaired(old, new),
    ensures
        well_structured(new),
{
    lemma_repaired_structure_ok(old, new);
    let lines0 = select(old.lines@, first_line_flags(old.lines@));
    assert forall|i: int| 0 <= i < new.lines@.len() implies (#[trigger] new.lines@[i]).eq_bands@.len() > 0
        || new.lines@[i].eq@.len() == 0 by {
        assert(line_repaired(lines0[i], new.outputs@, new.lines@[i]));
    }
    assert forall|i: int| 0 <= i < new.eq_presets@.len() implies (#[trigger] new.eq_presets@[i]).bands@.len() > 0
        || new.eq_presets@[i].gains@.len() != 5 by {
        assert(preset_repaired(old.eq_presets@[i], new.eq_presets@[i]));
    }
    assert forall|p: int, s: int, k: int|
        0 <= p < new.profiles@.len() && 0 <= s < new.profiles@[p].lines@.len() && 0 <= k
            < new.profiles@[p].lines@[s].output_devices@.len() implies named(
        #[trigger] new.profiles@[p].lines@[s].output_devices@[k],
    ) by {
        assert(profile_repaired(old.profiles@[p], new.lines@, new.profiles@[p]));
        let d = old.profiles@[p].lines@[s].output_devices@;
        crate::seqs::lemma_filter_members(d, |x: String| named(x));
    }
}

/// Repairing twice is repairing once: the second repair changes nothing.
pub proof fn lemma_repair_idempotent(c0: AppConfig, c1: AppConfig, c2: AppConfig)
    requires
        structure_repaired(c0, c1),
        structure_repaired(c1, c2),
    ensures
        same_config(c1, c2),
{
    lemma_repaired_well_structured(c0, c1);
    lemma_repair_keeps_well_structured(c1, c2);
}

/// A line with the five legacy gains always leaves the repairs with a
/// curve: an empty curve is migrated from the gains.
pub proof fn lemma_repaired_curves_present(old: AppConfig, new: AppConfig)
    requires
        structure_repaired(old, new),
        forall|i: int| 0 <= i < old.lines@.len() ==> (#[trigger] old.lines@[i]).eq@.len() == 5,
    ensures
        forall|i: int| 0 <= i < new.lines@.len() ==> (#[trigger] new.lines@[i]).eq_bands@.len() > 0,
{
    let lines0 = select(old.lines@, first_line_flags(old.lines@));
    let f = lemma_select_map(old.lines@, first_line_flags(old.lines@));
    assert forall|i: int| 0 <= i < new.lines@.len() implies (#[trigger] new.lines@[i]).eq_bands@.len() > 0 by {
        assert(line_repaired(lines0[i], new.outputs@, new.lines@[i]));
        assert(lines0[i] == old.lines@[f[i]]);
    }
}

/// The first-run configuration, its ids being distinct, is well
/// structured: the repairs leave it as it is.
pub proof fn lemma_default_config_well_structured(
    c: AppConfig,
    out_id: Seq<char>,
    game: Seq<char>,
    chat: Seq<char>,
    media: Seq<char>,
    mic: Seq<char>,
)
    requires
        crate::setup::default_config_spec(c, out_id, game, chat, media, mic),
        game != chat,
        game != media,
        game != mic,
        chat != media,
        chat != mic,
        media != mic,
    ensures
        well_structured(c),
{
    reveal_strlit("normale");
    reveal_strlit("rapide");
    reveal_strlit("douce");
    assert("normale"@.len() != "rapide"@.len());
    assert("normale"@.len() != "douce"@.len());
    assert(c.lines@[0].id@ == game);
    assert(c.lines@[1].id@ == chat);
    assert(c.lines@[2].id@ == media);
    assert(c.lines@[3].id@ == mic);
    assert(has_bus_id(c.outputs@, out_id));
    assert(has_line(c.lines@, game));
    assert(has_line(c.lines@, chat));
    assert(crate::reconcile::default_bands_spec().len() == 5);
}

/// The top-level shape of a JSON document offered as a configuration.
#[derive(Clone, Copy, Debug)]
pub struct ConfigShape {
    /// The document is a JSON object.
    pub is_object: bool,
    /// It has a `lines` key holding an array.
    pub lines_is_array: bool,
    /// It has an `outputs` key holding an array.
    pub outputs_is_array: bool,
}

/// Every field of the configuration has a default, so any JSON object
/// reads as an (empty) configuration: a document is taken for one only
/// when it is an object whose `lines` and `outputs` are both arrays.
pub fn looks_like_mixflow_config(shape: &ConfigShape) -> (r: bool)
    ensures
        r == (shape.is_object && shape.lines_is_array && shape.outputs_is_array),
{
    shape.is_object && shape.lines_is_array && shape.outputs_is_array
}

/// What serde_json makes of `text`: its error message when the text is not
/// JSON; otherwise whether the document is an object, and whether it holds
/// an array under `first_key`, and under `second_key`.
pub uninterp spec fn json_top_level(text: Seq<char>, first_key: Seq<char>, second_key: Seq<char>) -> Result<(bool, bool, bool), Seq<char>>;

/// `serde_json::from_str` into a `serde_json::Value`, read at its top level
/// (`Value::is_object`, and `Value::get` of each key tested for an array).
/// The outcome depends on the text and the keys alone.
#[verifier::external_body]
fn read_json_top_level(text: &str, first_key: &str, second_key: &str) -> (r: Result<(bool, bool, bool), String>)
    ensures
        match r {
            Ok(t) => json_top_level(text@, first_key@, second_key@) == Ok::<(bool, bool, bool), Seq<char>>(t),
            Err(e) => json_top_level(text@, first_key@, second_key@) == Err::<(bool, bool, bool), Seq<char>>(e@),
        },
{
    match serde_json::from_str::<serde_json::Value>(text) {
        Ok(v) => Ok((
            v.is_object(),
            matches!(v.get(first_key), Some(serde_json::Value::Array(_))),
            matches!(v.get(second_key), Some(serde_json::Value::Array(_))),
        )),
        Err(e) => Err(e.to_string()),
    }
}

/// Message for a file that does not parse as JSON.
pub open spec fn unreadable_msg(parse_error: Seq<char>) -> Seq<char> {
    "fichier illisible : "@ + parse_error
}

/// Message for a JSON document without the configuration's signature.
pub open spec fn not_a_config_msg() -> Seq<char> {
    "ce fichier n'est pas une configuration MixFlow (il lui manque les sections « lines » et « outputs »). Rien n'a été modifié."@
}

/// The verdict on a parsed import: `parsed` is what the JSON reader made of
/// the file (its error, or whether it is an object and whether `lines` and
/// `outputs` are arrays).
pub fn import_verdict(parsed: &Result<(bool, bool, bool), String>) -> (r: Result<(), String>)
    ensures
        match parsed {
            Err(e) => r is Err && r->Err_0@ == unreadable_msg(e@),
            Ok((o, l, out)) => if *o && *l && *out {
                r is Ok
            } else {
                r is Err && r->Err_0@ == not_a_config_msg()
            },
        },
{
    match parsed {
        Err(e) => {
            let mut m = String::from_str("fichier illisible : ");
            m.append(e.as_str());
            Err(m)
        },
        Ok((o, l, out)) => {
            let shape = ConfigShape { is_object: *o, lines_is_array: *l, outputs_is_array: *out };
            if looks_like_mixflow_config(&shape) {
                Ok(())
            } else {
                Err(String::from_str(
                    "ce fichier n'est pas une configuration MixFlow (il lui manque les sections « lines » et « outputs »). Rien n'a été modifié.",
                ))
            }
        },
    }
}

/// Checks that an imported file's text is a configuration before it
/// replaces the current one: every field of the configuration has a
/// default, so any JSON object would read as an empty configuration.
pub fn check_import(text: &str) -> (r: Result<(), String>)
    ensures
        match json_top_level(text@, "lines"@, "outputs"@) {
            Err(e) => r is Err && r->Err_0@ == unreadable_msg(e),
            Ok((o, l, out)) => if o && l && out {
                r is Ok
            } else {
                r is Err && r->Err_0@ == not_a_config_msg()
            },
        },
{
    let parsed = read_json_top_level(text, "lines", "outputs");
    import_verdict(&parsed)
}

} // verus!
