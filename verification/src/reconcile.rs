//! Reconciliation with the machine's real devices: physical sources of app
//! lines are released, a Mic line is guaranteed, route-less lines are sent
//! to the default output, and free virtual cables are claimed by lines.

use vstd::prelude::*;
use crate::edits::{is_mic, is_mic_line};
use crate::model::{
    find_line, line_has_id, AppConfig, LineConfig, OutputConfig, Route, CURRENT_SCHEMA_VERSION,
    UNITY_GAIN,
};
use crate::names::{adapter_suffix, adapter_suffix_spec, is_virtual_capture, is_virtual_capture_spec};
use crate::sanitize::{bus_exists, has_bus_id, legacy_bands, migrate_legacy_bands};
use crate::seqs::{first_match, lemma_first_match, retain_flags};
use crate::text::{str_eq, to_owned};
use crate::topology::{
    bus_id_for, find_or_create_bus, outputs_after_resolve, prune_unused_buses, same_but_topology, bus_in_use,
};

verus! {

/// An app line whose source is a physical capture device.
pub open spec fn holds_physical_source(l: LineConfig) -> bool {
    &&& !is_mic(l)
    &&& l.input_device is Some
    &&& !is_virtual_capture_spec(l.input_device->0@)
}

/// App lines no longer capture physical devices: such sources are released.
pub open spec fn released(l: LineConfig) -> LineConfig {
    if holds_physical_source(l) {
        LineConfig { input_device: None, cable_render_id: None, ..l }
    } else {
        l
    }
}

/// Releases the physical sources of app lines.
pub fn release_physical_sources(cfg: &mut AppConfig)
    ensures
        final(cfg).lines@ == old(cfg).lines@.map_values(|l: LineConfig| released(l)),
        final(cfg).outputs == old(cfg).outputs,
        same_but_topology(*old(cfg), *final(cfg)),
{
    let mut i: usize = 0;
    while i < cfg.lines.len()
        invariant
            i <= cfg.lines@.len(),
            cfg.lines@.len() == old(cfg).lines@.len(),
            cfg.outputs == old(cfg).outputs,
            same_but_topology(*old(cfg), *cfg),
            forall|k: int| i <= k < cfg.lines@.len() ==> #[trigger] cfg.lines@[k] == old(cfg).lines@[k],
            forall|k: int| 0 <= k < i ==> #[trigger] cfg.lines@[k] == released(old(cfg).lines@[k]),
        decreases cfg.lines@.len() - i,
    {
        let release = match &cfg.lines[i].input_device {
            Some(d) => !is_mic_line(&cfg.lines[i]) && !is_virtual_capture(d.as_str()),
            None => false,
        };
        if release {
            cfg.lines[i].input_device = None;
            cfg.lines[i].cable_render_id = None;
        }
        i += 1;
    }
    assert(cfg.lines@ =~= old(cfg).lines@.map_values(|l: LineConfig| released(l)));
}

/// Some line is a microphone line.
pub open spec fn has_mic(lines: Seq<LineConfig>) -> bool {
    exists|i: int| 0 <= i < lines.len() && is_mic(#[trigger] lines[i])
}

/// The default curve: the five legacy centre frequencies, flat.
pub open spec fn default_bands_spec() -> Seq<crate::model::EqBandCfg> {
    legacy_bands(seq![0u32, 0u32, 0u32, 0u32, 0u32])
}

/// Builds the default (flat, five-band) EQ curve.
pub fn default_bands() -> (r: Vec<crate::model::EqBandCfg>)
    ensures
        r@ == default_bands_spec(),
{
    let zeros: Vec<u32> = vec![0u32, 0u32, 0u32, 0u32, 0u32];
    assert(zeros@ =~= seq![0u32, 0u32, 0u32, 0u32, 0u32]);
    migrate_legacy_bands(&zeros)
}

/// A fresh line as the application creates it: unity gain, flat default EQ,
/// no source, no apps, "normale" reactivity.
pub open spec fn new_line_ok(
    l: LineConfig,
    id: Seq<char>,
    name: Seq<char>,
    kind: Seq<char>,
    color: Seq<char>,
    muted: bool,
) -> bool {
    &&& l.id@ == id
    &&& l.name@ == name
    &&& l.kind@ == kind
    &&& l.color@ == color
    &&& l.input_device is None
    &&& l.gain == UNITY_GAIN
    &&& l.muted == muted
    &&& l.eq@ == seq![0u32, 0u32, 0u32, 0u32, 0u32]
    &&& l.eq_bands@ == default_bands_spec()
    &&& l.apps@.len() == 0
    &&& l.cable_render_id is None
    &&& l.duck_reactivity@ == "normale"@
}

/// Builds a fresh line with the given routes.
pub fn new_line(id: String, name: String, kind: String, color: String, muted: bool, routes: Vec<Route>) -> (l: LineConfig)
    ensures
        new_line_ok(l, id@, name@, kind@, color@, muted),
        l.routes == routes,
{
    let eq: Vec<u32> = vec![0u32, 0u32, 0u32, 0u32, 0u32];
    assert(eq@ =~= seq![0u32, 0u32, 0u32, 0u32, 0u32]);
    LineConfig {
        id,
        name,
        kind,
        color,
        input_device: None,
        gain: UNITY_GAIN,
        muted,
        eq,
        eq_bands: default_bands(),
        apps: Vec::new(),
        cable_render_id: None,
        routes,
        duck_reactivity: to_owned("normale"),
    }
}

/// `routes` sends a line to every bus of `outputs`, at unity gain.
pub open spec fn routes_to_all(outputs: Seq<OutputConfig>, routes: Seq<Route>) -> bool {
    &&& routes.len() == outputs.len()
    &&& forall|k: int| 0 <= k < routes.len() ==> (#[trigger] routes[k]).output_id@ == outputs[k].id@ && routes[k].gain == UNITY_GAIN
}

/// Guarantees a Mic line: when none exists, a muted one (monitoring off)
/// routed to every bus is appended with id `fresh_id`.
pub fn ensure_mic_line(cfg: &mut AppConfig, fresh_id: String)
    ensures
        final(cfg).outputs == old(cfg).outputs,
        same_but_topology(*old(cfg), *final(cfg)),
        has_mic(old(cfg).lines@) ==> final(cfg).lines@ == old(cfg).lines@,
        !has_mic(old(cfg).lines@) ==> {
            &&& final(cfg).lines@.len() == old(cfg).lines@.len() + 1
            &&& final(cfg).lines@.drop_last() == old(cfg).lines@
            &&& new_line_ok(final(cfg).lines@.last(), fresh_id@, "Mic"@, "mic"@, "#fb923c"@, true)
            &&& routes_to_all(old(cfg).outputs@, final(cfg).lines@.last().routes@)
        },
{
    let mut i: usize = 0;
    while i < cfg.lines.len()
        invariant
            i <= cfg.lines@.len(),
            forall|k: int| 0 <= k < i ==> !is_mic(#[trigger] cfg.lines@[k]),
        decreases cfg.lines@.len() - i,
    {
        if is_mic_line(&cfg.lines[i]) {
            return;
        }
        i += 1;
    }
    let mut routes: Vec<Route> = Vec::new();
    let mut k: usize = 0;
    while k < cfg.outputs.len()
        invariant
            k <= cfg.outputs@.len(),
            routes@.len() == k,
            forall|t: int| 0 <= t < k ==> (#[trigger] routes@[t]).output_id@ == cfg.outputs@[t].id@ && routes@[t].gain == UNITY_GAIN,
        decreases cfg.outputs@.len() - k,
    {
        routes.push(Route { output_id: cfg.outputs[k].id.clone(), gain: UNITY_GAIN });
        k += 1;
    }
    let mic = new_line(fresh_id, to_owned("Mic"), to_owned("mic"), to_owned("#fb923c"), true, routes);
    cfg.lines.push(mic);
    assert(cfg.lines@.drop_last() =~= old(cfg).lines@);
}

/// The route targets an existing bus.
pub open spec fn route_has_bus(outputs: Seq<OutputConfig>) -> spec_fn(Route) -> bool {
    |r: Route| has_bus_id(outputs, r.output_id@)
}

/// Orphan routes (to missing buses) are dropped from every line.
pub fn drop_orphan_routes(cfg: &mut AppConfig)
    ensures
        final(cfg).outputs == old(cfg).outputs,
        same_but_topology(*old(cfg), *final(cfg)),
        final(cfg).lines@.len() == old(cfg).lines@.len(),
        forall|i: int|
            0 <= i < old(cfg).lines@.len() ==> #[trigger] final(cfg).lines@[i] == (LineConfig {
                routes: final(cfg).lines@[i].routes,
                ..old(cfg).lines@[i]
            }) && final(cfg).lines@[i].routes@ == old(cfg).lines@[i].routes@.filter(route_has_bus(old(cfg).outputs@)),
{
    let mut i: usize = 0;
    while i < cfg.lines.len()
        invariant
            i <= cfg.lines@.len(),
            cfg.lines@.len() == old(cfg).lines@.len(),
            cfg.outputs == old(cfg).outputs,
            same_but_topology(*old(cfg), *cfg),
            forall|k: int| i <= k < cfg.lines@.len() ==> #[trigger] cfg.lines@[k] == old(cfg).lines@[k],
            forall|k: int|
                0 <= k < i ==> #[trigger] cfg.lines@[k] == (LineConfig { routes: cfg.lines@[k].routes, ..old(cfg).lines@[k] })
                    && cfg.lines@[k].routes@ == old(cfg).lines@[k].routes@.filter(route_has_bus(old(cfg).outputs@)),
        decreases cfg.lines@.len() - i,
    {
        let mut keep: Vec<bool> = Vec::new();
        let mut k: usize = 0;
        while k < cfg.lines[i].routes.len()
            invariant
                i < cfg.lines@.len(),
                k <= cfg.lines@[i as int].routes@.len(),
                keep@.len() == k,
                forall|t: int| 0 <= t < k ==> keep@[t] == route_has_bus(cfg.outputs@)(#[trigger] cfg.lines@[i as int].routes@[t]),
            decreases cfg.lines@[i as int].routes@.len() - k,
        {
            keep.push(bus_exists(&cfg.outputs, cfg.lines[i].routes[k].output_id.as_str()));
            k += 1;
        }
        retain_flags(&mut cfg.lines[i].routes, &keep, Ghost(route_has_bus(cfg.outputs@)));
        i += 1;
    }
}

/// The default output device, unless it is one of the virtual cables (a
/// line playing into a cable it captures would loop).
pub open spec fn usable_default(default_output: Option<String>) -> Option<String> {
    match default_output {
        Some(d) => if is_virtual_capture_spec(d@) {
            None
        } else {
            Some(d)
        },
        None => None,
    }
}

/// Some line has no route at all.
pub open spec fn has_routeless_line(lines: Seq<LineConfig>) -> bool {
    exists|i: int| 0 <= i < lines.len() && (#[trigger] lines[i]).routes@.len() == 0
}

/// The outcome of sending route-less lines to the default output.
pub open spec fn default_routes_post(old: AppConfig, default_output: Option<String>, fresh: Seq<char>, new: AppConfig) -> bool {
    match usable_default(default_output) {
        Some(dev) => if has_routeless_line(old.lines@) {
            let bus = bus_id_for(old.outputs@, dev@, fresh);
            &&& outputs_after_resolve(old.outputs@, dev@, fresh, new.outputs@)
            &&& same_but_topology(old, new)
            &&& new.lines@.len() == old.lines@.len()
            &&& forall|i: int|
                0 <= i < old.lines@.len() ==> if old.lines@[i].routes@.len() == 0 {
                    #[trigger] new.lines@[i] == (LineConfig { routes: new.lines@[i].routes, ..old.lines@[i] })
                        && new.lines@[i].routes@.len() == 1 && new.lines@[i].routes@[0].output_id@ == bus
                        && new.lines@[i].routes@[0].gain == UNITY_GAIN
                } else {
                    new.lines@[i] == old.lines@[i]
                }
        } else {
            new == old
        },
        None => new == old,
    }
}

/// Every line must play somewhere: lines without a route are sent to the
/// system's default output (bus found or created with id `fresh_id`).
pub fn route_orphan_lines(cfg: &mut AppConfig, default_output: Option<String>, fresh_id: String)
    ensures
        default_routes_post(*old(cfg), default_output, fresh_id@, *final(cfg)),
{
    let dev = match default_output {
        Some(d) => if is_virtual_capture(d.as_str()) {
            return;
        } else {
            d
        },
        None => return,
    };
    let mut needs = false;
    let mut i: usize = 0;
    while i < cfg.lines.len()
        invariant
            i <= cfg.lines@.len(),
            needs == exists|k: int| 0 <= k < i && (#[trigger] cfg.lines@[k]).routes@.len() == 0,
        decreases cfg.lines@.len() - i,
    {
        if cfg.lines[i].routes.len() == 0 {
            needs = true;
        }
        i += 1;
    }
    if !needs {
        return;
    }
    let ghost f = fresh_id@;
    let bus = find_or_create_bus(cfg, dev.as_str(), fresh_id);
    let mut i: usize = 0;
    while i < cfg.lines.len()
        invariant
            bus@ == bus_id_for(old(cfg).outputs@, dev@, f),
            outputs_after_resolve(old(cfg).outputs@, dev@, f, cfg.outputs@),
            same_but_topology(*old(cfg), *cfg),
            i <= cfg.lines@.len(),
            cfg.lines@.len() == old(cfg).lines@.len(),
            forall|k: int| i <= k < cfg.lines@.len() ==> #[trigger] cfg.lines@[k] == old(cfg).lines@[k],
            forall|k: int|
                0 <= k < i ==> if old(cfg).lines@[k].routes@.len() == 0 {
                    #[trigger] cfg.lines@[k] == (LineConfig { routes: cfg.lines@[k].routes, ..old(cfg).lines@[k] })
                        && cfg.lines@[k].routes@.len() == 1 && cfg.lines@[k].routes@[0].output_id@ == bus@
                        && cfg.lines@[k].routes@[0].gain == UNITY_GAIN
                } else {
                    cfg.lines@[k] == old(cfg).lines@[k]
                },
        decreases cfg.lines@.len() - i,
    {
        if cfg.lines[i].routes.len() == 0 {
            cfg.lines[i].routes.push(Route { output_id: bus.clone(), gain: UNITY_GAIN });
        }
        i += 1;
    }
}

} // verus!

verus! {

/// The render side of this cable already feeds an output bus (streamer
/// set-up): its capture side is not free, since claiming it would rename
/// the endpoint the bus names and loop the streamed mix into a line.
pub open spec fn cable_used_as_output_spec(outputs: Seq<OutputConfig>, capture: Seq<char>) -> bool {
    match adapter_suffix_spec(capture) {
        Some(suffix) => exists|o: int|
            0 <= o < outputs.len() && is_virtual_capture_spec(#[trigger] outputs[o].device@)
                && adapter_suffix_spec(outputs[o].device@) == Some(suffix),
        None => false,
    }
}

/// Does some output bus play into the render side of this cable?
pub fn cable_used_as_output(outputs: &Vec<OutputConfig>, capture: &str) -> (r: bool)
    ensures
        r == cable_used_as_output_spec(outputs@, capture@),
{
    let suffix = match adapter_suffix(capture) {
        Some(s) => s,
        None => return false,
    };
    let mut o: usize = 0;
    while o < outputs.len()
        invariant
            o <= outputs@.len(),
            adapter_suffix_spec(capture@) == Some(suffix@),
            forall|t: int|
                0 <= t < o ==> !(is_virtual_capture_spec(#[trigger] outputs@[t].device@) && adapter_suffix_spec(outputs@[t].device@)
                    == Some(suffix@)),
        decreases outputs@.len() - o,
    {
        if is_virtual_capture(outputs[o].device.as_str()) {
            match adapter_suffix(outputs[o].device.as_str()) {
                Some(s) => {
                    if str_eq(s.as_str(), suffix.as_str()) {
                        assert(is_virtual_capture_spec(outputs@[o as int].device@));
                        return true;
                    }
                },
                None => {},
            }
        }
        o += 1;
    }
    false
}

/// Views of a list of strings.
pub open spec fn string_views(v: Seq<String>) -> Seq<Seq<char>> {
    v.map_values(|s: String| s@)
}

/// The capture devices already taken by lines.
pub open spec fn taken_sources(lines: Seq<LineConfig>) -> Seq<Seq<char>>
    decreases lines.len(),
{
    if lines.len() == 0 {
        Seq::empty()
    } else {
        let prev = taken_sources(lines.drop_last());
        match lines.last().input_device {
            Some(d) => prev.push(d@),
            None => prev,
        }
    }
}

/// A cable a line may claim: not taken, and not feeding an output bus.
pub open spec fn cable_free(outputs: Seq<OutputConfig>, used: Seq<Seq<char>>) -> spec_fn(Seq<char>) -> bool {
    |c: Seq<char>| !used.contains(c) && !cable_used_as_output_spec(outputs, c)
}

/// The line waits for a cable: an app line without a source.
pub open spec fn wants_cable(l: LineConfig) -> bool {
    !is_mic(l) && l.input_device is None
}

/// The greedy cable plan from line `i` on: each app line without a source
/// takes the first free cable; planning stops at the first line that finds
/// none.
pub open spec fn plan_from(
    cfg: AppConfig,
    cables: Seq<Seq<char>>,
    i: int,
    used: Seq<Seq<char>>,
) -> Seq<(Seq<char>, Seq<char>)>
    decreases cfg.lines@.len() - i,
{
    if i < 0 || i >= cfg.lines@.len() {
        Seq::empty()
    } else if !wants_cable(cfg.lines@[i]) {
        plan_from(cfg, cables, i + 1, used)
    } else {
        match first_match(cables, cable_free(cfg.outputs@, used)) {
            Some(c) => seq![(cfg.lines@[i].id@, cables[c])] + plan_from(cfg, cables, i + 1, used.push(cables[c])),
            None => Seq::empty(),
        }
    }
}

/// The virtual cables among the capture device names.
pub open spec fn virtual_cables(inputs: Seq<String>) -> Seq<Seq<char>> {
    string_views(inputs.filter(|n: String| is_virtual_capture_spec(n@)))
}

/// The cable plan for `cfg` given the machine's capture device names.
pub open spec fn cable_plan_spec(cfg: AppConfig, inputs: Seq<String>) -> Seq<(Seq<char>, Seq<char>)> {
    plan_from(cfg, virtual_cables(inputs), 0, taken_sources(cfg.lines@))
}

/// Views of a plan.
pub open spec fn plan_views(p: Seq<(String, String)>) -> Seq<(Seq<char>, Seq<char>)> {
    p.map_values(|e: (String, String)| (e.0@, e.1@))
}

fn contains_str(v: &Vec<String>, s: &str) -> (r: bool)
    ensures
        r == string_views(v@).contains(s@),
{
    let mut i: usize = 0;
    while i < v.len()
        invariant
            i <= v@.len(),
            forall|k: int| 0 <= k < i ==> #[trigger] v@[k]@ != s@,
        decreases v@.len() - i,
    {
        if str_eq(v[i].as_str(), s) {
            assert(string_views(v@)[i as int] == s@);
            return true;
        }
        i += 1;
    }
    assert forall|k: int| 0 <= k < string_views(v@).len() implies string_views(v@)[k] != s@ by {
        assert(string_views(v@)[k] == v@[k]@);
    }
    false
}

/// Start-up cable claim, planning phase: which free virtual cable each app
/// line without a source takes (`inputs` are the capture device names).
pub fn plan_cable_bindings(cfg: &AppConfig, inputs: &Vec<String>) -> (plan: Vec<(String, String)>)
    ensures
        plan_views(plan@) == cable_plan_spec(*cfg, inputs@),
        forall|m: int|
            0 <= m < plan@.len() ==> exists|j: int|
                0 <= j < cfg.lines@.len() && (#[trigger] cfg.lines@[j]).id@ == (#[trigger] plan@[m]).0@
                    && cfg.lines@[j].kind@ != "mic"@ && cfg.lines@[j].input_device is None,
        forall|m: int| 0 <= m < plan@.len() ==> !cable_used_as_output_spec(cfg.outputs@, (#[trigger] plan@[m]).1@),
{
    // Virtual cables, in device order.
    let mut cables = crate::edits::copy_strings(inputs);
    let mut keep: Vec<bool> = Vec::new();
    let mut k: usize = 0;
    while k < cables.len()
        invariant
            k <= cables@.len(),
            cables@ == inputs@,
            keep@.len() == k,
            forall|t: int| 0 <= t < k ==> keep@[t] == (|n: String| is_virtual_capture_spec(n@))(#[trigger] cables@[t]),
        decreases cables@.len() - k,
    {
        keep.push(is_virtual_capture(cables[k].as_str()));
        k += 1;
    }
    retain_flags(&mut cables, &keep, Ghost(|n: String| is_virtual_capture_spec(n@)));
    // Sources already taken.
    let mut used: Vec<String> = Vec::new();
    let mut i: usize = 0;
    while i < cfg.lines.len()
        invariant
            i <= cfg.lines@.len(),
            string_views(used@) == taken_sources(cfg.lines@.take(i as int)),
        decreases cfg.lines@.len() - i,
    {
        let ghost pre = cfg.lines@.take(i + 1);
        assert(pre.drop_last() =~= cfg.lines@.take(i as int));
        if let Some(d) = &cfg.lines[i].input_device {
            let ghost before = used@;
            used.push(d.clone());
            assert(string_views(used@) =~= string_views(before).push(d@));
        }
        i += 1;
    }
    assert(cfg.lines@.take(i as int) =~= cfg.lines@);
    let ghost cv = string_views(cables@);
    let mut plan: Vec<(String, String)> = Vec::new();
    let mut i: usize = 0;
    while i < cfg.lines.len()
        invariant
            i <= cfg.lines@.len(),
            cv == virtual_cables(inputs@),
            cv == string_views(cables@),
            plan_views(plan@) + plan_from(*cfg, cv, i as int, string_views(used@)) == cable_plan_spec(*cfg, inputs@),
        decreases cfg.lines@.len() - i,
    {
        let line = &cfg.lines[i];
        let wants = !is_mic_line(line) && line.input_device.is_none();
        if wants {
            let mut c: usize = 0;
            let mut found: Option<usize> = None;
            let ghost p = cable_free(cfg.outputs@, string_views(used@));
            while c < cables.len() && found.is_none()
                invariant
                    c <= cables@.len(),
                    cv == string_views(cables@),
                    p == cable_free(cfg.outputs@, string_views(used@)),
                    found is None ==> first_match(cv, p) == crate::seqs::first_match_from(cv, p, c as int),
                    found is Some ==> first_match(cv, p) == Some(found->0 as int) && found->0 < cables@.len(),
                decreases cables@.len() - c + (if found is None { 1int } else { 0int }),
            {
                assert(cv[c as int] == cables@[c as int]@);
                if !contains_str(&used, cables[c].as_str()) && !cable_used_as_output(&cfg.outputs, cables[c].as_str()) {
                    found = Some(c);
                } else {
                    c += 1;
                }
            }
            match found {
                Some(c) => {
                    let ghost before = plan@;
                    let ghost used_before = string_views(used@);
                    plan.push((line.id.clone(), cables[c].clone()));
                    used.push(cables[c].clone());
                    proof {
                        assert(string_views(used@) =~= used_before.push(cv[c as int]));
                        assert(plan_views(plan@) =~= plan_views(before).push((line.id@, cv[c as int])));
                        assert(plan_views(plan@) + plan_from(*cfg, cv, i + 1, string_views(used@)) =~= plan_views(before)
                            + plan_from(*cfg, cv, i as int, used_before));
                    }
                },
                None => {
                    proof {
                        assert(plan_from(*cfg, cv, i as int, string_views(used@)) =~= Seq::<(Seq<char>, Seq<char>)>::empty());
                        assert(plan_views(plan@) =~= plan_views(plan@) + Seq::<(Seq<char>, Seq<char>)>::empty());
                        lemma_plan_entries(*cfg, inputs@, plan@);
                    }
                    return plan;
                },
            }
        }
        i += 1;
    }
    assert(plan_views(plan@) =~= plan_views(plan@) + plan_from(*cfg, cv, i as int, string_views(used@)));
    proof {
        lemma_plan_entries(*cfg, inputs@, plan@);
    }
    plan
}

} // verus!

verus! {

/// One planned entry is acceptable: its cable is a free cable of the list,
/// and its line, at `i` or later, waits for a cable.
pub open spec fn plan_entry_ok(
    cfg: AppConfig,
    cables: Seq<Seq<char>>,
    i: int,
    used: Seq<Seq<char>>,
    e: (Seq<char>, Seq<char>),
) -> bool {
    &&& !used.contains(e.1)
    &&& !cable_used_as_output_spec(cfg.outputs@, e.1)
    &&& cables.contains(e.1)
    &&& exists|j: int| i <= j < cfg.lines@.len() && cfg.lines@[j].id@ == e.0 && wants_cable(#[trigger] cfg.lines@[j])
}

/// Soundness of the cable plan from line `i` with `used` taken.
pub proof fn lemma_plan_from(cfg: AppConfig, cables: Seq<Seq<char>>, i: int, used: Seq<Seq<char>>)
    requires
        0 <= i,
    ensures
        forall|m: int|
            0 <= m < plan_from(cfg, cables, i, used).len() ==> plan_entry_ok(
                cfg,
                cables,
                i,
                used,
                #[trigger] plan_from(cfg, cables, i, used)[m],
            ),
        forall|m1: int, m2: int|
            0 <= m1 < m2 < plan_from(cfg, cables, i, used).len() ==> (#[trigger] plan_from(cfg, cables, i, used)[m1]).1
                != (#[trigger] plan_from(cfg, cables, i, used)[m2]).1,
    decreases cfg.lines@.len() - i,
{
    let plan = plan_from(cfg, cables, i, used);
    if i >= cfg.lines@.len() {
        assert(plan.len() == 0);
    } else if !wants_cable(cfg.lines@[i]) {
        let rest = plan_from(cfg, cables, i + 1, used);
        assert(plan == rest);
        lemma_plan_from(cfg, cables, i + 1, used);
        assert forall|m: int| 0 <= m < plan.len() implies plan_entry_ok(cfg, cables, i, used, #[trigger] plan[m]) by {
            assert(plan_entry_ok(cfg, cables, i + 1, used, rest[m]));
            let j = choose|j: int|
                i + 1 <= j < cfg.lines@.len() && cfg.lines@[j].id@ == rest[m].0 && wants_cable(#[trigger] cfg.lines@[j]);
            assert(wants_cable(cfg.lines@[j]));
        }
    } else {
        let p = cable_free(cfg.outputs@, used);
        lemma_first_match(cables, p);
        match first_match(cables, p) {
            Some(c) => {
                let used2 = used.push(cables[c]);
                let rest = plan_from(cfg, cables, i + 1, used2);
                lemma_plan_from(cfg, cables, i + 1, used2);
                assert(plan == seq![(cfg.lines@[i].id@, cables[c])] + rest);
                assert forall|m: int| 0 <= m < plan.len() implies plan_entry_ok(cfg, cables, i, used, #[trigger] plan[m]) by {
                    if m == 0 {
                        assert(p(cables[c]));
                        assert(wants_cable(cfg.lines@[i]));
                    } else {
                        assert(plan[m] == rest[m - 1]);
                        let e = rest[m - 1];
                        assert(plan_entry_ok(cfg, cables, i + 1, used2, e));
                        if used.contains(e.1) {
                            let w = choose|w: int| 0 <= w < used.len() && used[w] == e.1;
                            assert(used2[w] == e.1);
                        }
                        let j = choose|j: int|
                            i + 1 <= j < cfg.lines@.len() && cfg.lines@[j].id@ == e.0 && wants_cable(#[trigger] cfg.lines@[j]);
                        assert(wants_cable(cfg.lines@[j]));
                    }
                }
                assert forall|m1: int, m2: int| 0 <= m1 < m2 < plan.len() implies (#[trigger] plan[m1]).1 != (#[trigger] plan[m2]).1 by {
                    if m1 == 0 {
                        assert(plan[m2] == rest[m2 - 1]);
                        assert(plan_entry_ok(cfg, cables, i + 1, used2, rest[m2 - 1]));
                        assert(used2[used.len() as int] == cables[c]);
                    } else {
                        assert(plan[m1] == rest[m1 - 1]);
                        assert(plan[m2] == rest[m2 - 1]);
                    }
                }
            },
            None => {
                assert(plan.len() == 0);
            },
        }
    }
}

/// The start-up cable claim is sound: every planned cable is a virtual
/// cable of the machine, no two lines get the same cable, no planned cable
/// is already a line's source or feeds an output bus, and only app lines
/// without a source are planned.
pub proof fn lemma_cable_plan_sound(cfg: AppConfig, inputs: Seq<String>)
    ensures
        forall|m: int|
            0 <= m < cable_plan_spec(cfg, inputs).len() ==> plan_entry_ok(
                cfg,
                virtual_cables(inputs),
                0,
                taken_sources(cfg.lines@),
                #[trigger] cable_plan_spec(cfg, inputs)[m],
            ),
        forall|m1: int, m2: int|
            0 <= m1 < m2 < cable_plan_spec(cfg, inputs).len() ==> (#[trigger] cable_plan_spec(cfg, inputs)[m1]).1
                != (#[trigger] cable_plan_spec(cfg, inputs)[m2]).1,
{
    lemma_plan_from(cfg, virtual_cables(inputs), 0, taken_sources(cfg.lines@));
}

/// Only app lines without a source are planned: every entry names a line
/// whose kind is not "mic" and that has no capture source, and its cable
/// feeds no output bus. With unique line ids, no microphone line's id is
/// ever planned.
pub proof fn lemma_cable_plan_skips_mics(cfg: AppConfig, inputs: Seq<String>)
    ensures
        forall|m: int|
            0 <= m < cable_plan_spec(cfg, inputs).len() ==> exists|j: int|
                0 <= j < cfg.lines@.len() && (#[trigger] cfg.lines@[j]).id@ == (#[trigger] cable_plan_spec(cfg, inputs)[m]).0
                    && cfg.lines@[j].kind@ != "mic"@ && cfg.lines@[j].input_device is None,
        forall|m: int|
            0 <= m < cable_plan_spec(cfg, inputs).len() ==> !cable_used_as_output_spec(
                cfg.outputs@,
                (#[trigger] cable_plan_spec(cfg, inputs)[m]).1,
            ),
        crate::profiles::line_ids_unique(cfg.lines@) ==> forall|m: int, j: int|
            0 <= m < cable_plan_spec(cfg, inputs).len() && 0 <= j < cfg.lines@.len() && (#[trigger] cfg.lines@[j]).kind@
                == "mic"@ ==> (#[trigger] cable_plan_spec(cfg, inputs)[m]).0 != cfg.lines@[j].id@,
{
    lemma_cable_plan_sound(cfg, inputs);
    let plan = cable_plan_spec(cfg, inputs);
    assert forall|m: int| 0 <= m < plan.len() implies exists|j: int|
        0 <= j < cfg.lines@.len() && (#[trigger] cfg.lines@[j]).id@ == (#[trigger] plan[m]).0 && cfg.lines@[j].kind@ != "mic"@
            && cfg.lines@[j].input_device is None by {
        assert(plan_entry_ok(cfg, virtual_cables(inputs), 0, taken_sources(cfg.lines@), plan[m]));
        let j = choose|j: int| 0 <= j < cfg.lines@.len() && cfg.lines@[j].id@ == plan[m].0 && wants_cable(#[trigger] cfg.lines@[j]);
        assert(wants_cable(cfg.lines@[j]));
    }
    assert forall|m: int| 0 <= m < plan.len() implies !cable_used_as_output_spec(cfg.outputs@, (#[trigger] plan[m]).1) by {
        assert(plan_entry_ok(cfg, virtual_cables(inputs), 0, taken_sources(cfg.lines@), plan[m]));
    }
    if crate::profiles::line_ids_unique(cfg.lines@) {
        assert forall|m: int, j: int|
            0 <= m < plan.len() && 0 <= j < cfg.lines@.len() && (#[trigger] cfg.lines@[j]).kind@ == "mic"@ implies (#[trigger] plan[m]).0
            != cfg.lines@[j].id@ by {
            assert(plan_entry_ok(cfg, virtual_cables(inputs), 0, taken_sources(cfg.lines@), plan[m]));
            let w = choose|w: int| 0 <= w < cfg.lines@.len() && cfg.lines@[w].id@ == plan[m].0 && wants_cable(#[trigger] cfg.lines@[w]);
            assert(wants_cable(cfg.lines@[w]));
            if w != j {
                assert(cfg.lines@[w].id@ != cfg.lines@[j].id@);
            }
        }
    }
}

proof fn lemma_plan_entries(cfg: AppConfig, inputs: Seq<String>, plan: Seq<(String, String)>)
    requires
        plan_views(plan) == cable_plan_spec(cfg, inputs),
    ensures
        forall|m: int|
            0 <= m < plan.len() ==> exists|j: int|
                0 <= j < cfg.lines@.len() && (#[trigger] cfg.lines@[j]).id@ == (#[trigger] plan[m]).0@
                    && cfg.lines@[j].kind@ != "mic"@ && cfg.lines@[j].input_device is None,
        forall|m: int| 0 <= m < plan.len() ==> !cable_used_as_output_spec(cfg.outputs@, (#[trigger] plan[m]).1@),
{
    lemma_cable_plan_skips_mics(cfg, inputs);
    let spec = cable_plan_spec(cfg, inputs);
    assert forall|m: int| 0 <= m < plan.len() implies exists|j: int|
        0 <= j < cfg.lines@.len() && (#[trigger] cfg.lines@[j]).id@ == (#[trigger] plan[m]).0@ && cfg.lines@[j].kind@ != "mic"@
            && cfg.lines@[j].input_device is None by {
        assert(plan_views(plan)[m] == (plan[m].0@, plan[m].1@));
        assert(spec[m] == plan_views(plan)[m]);
    }
    assert forall|m: int| 0 <= m < plan.len() implies !cable_used_as_output_spec(cfg.outputs@, (#[trigger] plan[m]).1@) by {
        assert(plan_views(plan)[m] == (plan[m].0@, plan[m].1@));
        assert(spec[m] == plan_views(plan)[m]);
    }
}

/// Binds one resolved cable: the line (first with the id) takes the cable
/// and its render id, unless it picked up a source meanwhile.
pub open spec fn bind_one(lines: Seq<LineConfig>, e: (String, String, Option<String>)) -> Seq<LineConfig> {
    match first_match(lines, line_has_id(e.0@)) {
        Some(i) => if lines[i].input_device is None {
            lines.update(i, LineConfig { input_device: Some(e.1), cable_render_id: e.2, ..lines[i] })
        } else {
            lines
        },
        None => lines,
    }
}

/// Binds resolved cables in order.
pub open spec fn bind_all(lines: Seq<LineConfig>, es: Seq<(String, String, Option<String>)>) -> Seq<LineConfig>
    decreases es.len(),
{
    if es.len() == 0 {
        lines
    } else {
        bind_one(bind_all(lines, es.drop_last()), es.last())
    }
}

fn clone_opt(o: &Option<String>) -> (r: Option<String>)
    ensures
        r == *o,
{
    match o {
        Some(s) => Some(s.clone()),
        None => None,
    }
}

/// Start-up cable claim, final phase: records the resolved cables
/// (line id, cable, render id) on their lines, keyed by id, skipping a line
/// that got a source in the meantime.
pub fn apply_cable_bindings(cfg: &mut AppConfig, resolved: &Vec<(String, String, Option<String>)>)
    ensures
        final(cfg).lines@ == bind_all(old(cfg).lines@, resolved@),
        final(cfg).outputs == old(cfg).outputs,
        same_but_topology(*old(cfg), *final(cfg)),
{
    let mut k: usize = 0;
    while k < resolved.len()
        invariant
            k <= resolved@.len(),
            cfg.lines@ == bind_all(old(cfg).lines@, resolved@.take(k as int)),
            cfg.outputs == old(cfg).outputs,
            same_but_topology(*old(cfg), *cfg),
        decreases resolved@.len() - k,
    {
        let ghost pre = resolved@.take(k + 1);
        assert(pre.drop_last() =~= resolved@.take(k as int));
        assert(pre.last() == resolved@[k as int]);
        let found = find_line(&cfg.lines, resolved[k].0.as_str());
        proof {
            lemma_first_match(cfg.lines@, line_has_id(resolved@[k as int].0@));
        }
        if let Some(i) = found {
            if cfg.lines[i].input_device.is_none() {
                let ghost before = cfg.lines@;
                cfg.lines[i].input_device = Some(resolved[k].1.clone());
                cfg.lines[i].cable_render_id = clone_opt(&resolved[k].2);
                assert(cfg.lines@ =~= before.update(
                    i as int,
                    LineConfig {
                        input_device: Some(resolved@[k as int].1),
                        cable_render_id: resolved@[k as int].2,
                        ..before[i as int]
                    },
                ));
            }
        }
        k += 1;
    }
    assert(resolved@.take(k as int) =~= resolved@);
}

/// The steps of structural reconciliation, from `c0` through the
/// intermediate states `c1`..`c4` to `fin`.
pub open spec fn reconcile_steps(
    c0: AppConfig,
    c1: AppConfig,
    c2: AppConfig,
    c3: AppConfig,
    c4: AppConfig,
    fin: AppConfig,
    default_output: Option<String>,
    mic_id: Seq<char>,
    bus_id: Seq<char>,
) -> bool {
    // Physical sources of app lines released.
    &&& c1.lines@ == c0.lines@.map_values(|l: LineConfig| released(l))
    &&& c1.outputs == c0.outputs
    &&& same_but_topology(c0, c1)
    // Mic line guaranteed.
    &&& c2.outputs == c1.outputs
    &&& same_but_topology(c1, c2)
    &&& (has_mic(c1.lines@) ==> c2.lines@ == c1.lines@)
    &&& (!has_mic(c1.lines@) ==> {
        &&& c2.lines@.len() == c1.lines@.len() + 1
        &&& c2.lines@.drop_last() == c1.lines@
        &&& new_line_ok(c2.lines@.last(), mic_id, "Mic"@, "mic"@, "#fb923c"@, true)
        &&& routes_to_all(c1.outputs@, c2.lines@.last().routes@)
    })
    // Routes to vanished outputs dropped.
    &&& c3.outputs == c2.outputs
    &&& same_but_topology(c2, c3)
    &&& c3.lines@.len() == c2.lines@.len()
    &&& forall|i: int|
        0 <= i < c2.lines@.len() ==> #[trigger] c3.lines@[i] == (LineConfig {
            routes: c3.lines@[i].routes,
            ..c2.lines@[i]
        }) && c3.lines@[i].routes@ == c2.lines@[i].routes@.filter(route_has_bus(c2.outputs@))
    // Route-less lines sent to the default output.
    &&& default_routes_post(c3, default_output, bus_id, c4)
    // Unused buses pruned, schema stamped.
    &&& fin.outputs@ == c4.outputs@.filter(bus_in_use(c4.lines@))
    &&& fin.lines == c4.lines
    &&& fin.ducking == c4.ducking
    &&& fin.master_gain == c4.master_gain
    &&& fin.eq_presets == c4.eq_presets
    &&& fin.profiles == c4.profiles
    &&& fin.schema_version == CURRENT_SCHEMA_VERSION
}

/// The structural part of reconciliation, in order: physical sources of
/// app lines released, Mic line guaranteed (id `mic_id`), orphan routes
/// dropped, route-less lines sent to the default output (bus id `bus_id`
/// if one is created), unused buses pruned, schema version stamped.
pub fn reconcile_structure(cfg: &mut AppConfig, default_output: Option<String>, mic_id: String, bus_id: String)
    ensures
        exists|c1: AppConfig, c2: AppConfig, c3: AppConfig, c4: AppConfig|
            #[trigger] reconcile_steps(*old(cfg), c1, c2, c3, c4, *final(cfg), default_output, mic_id@, bus_id@),
{
    let ghost c0 = *cfg;
    let ghost mic = mic_id@;
    let ghost bus = bus_id@;
    release_physical_sources(cfg);
    let ghost c1 = *cfg;
    ensure_mic_line(cfg, mic_id);
    let ghost c2 = *cfg;
    drop_orphan_routes(cfg);
    let ghost c3 = *cfg;
    route_orphan_lines(cfg, default_output, bus_id);
    let ghost c4 = *cfg;
    prune_unused_buses(cfg);
    cfg.schema_version = CURRENT_SCHEMA_VERSION;
    assert(reconcile_steps(c0, c1, c2, c3, c4, *cfg, default_output, mic, bus));
}

} // verus!

verus! {

/// Every route of every line targets an existing bus.
pub open spec fn routes_have_buses(c: AppConfig) -> bool {
    forall|i: int, j: int|
        0 <= i < c.lines@.len() && 0 <= j < c.lines@[i].routes@.len() ==> has_bus_id(
            c.outputs@,
            (#[trigger] c.lines@[i].routes@[j]).output_id@,
        )
}

/// Every line has at least one route.
pub open spec fn every_line_routed(c: AppConfig) -> bool {
    forall|i: int| 0 <= i < c.lines@.len() ==> (#[trigger] c.lines@[i]).routes@.len() > 0
}

proof fn lemma_orphans_dropped(c2: AppConfig, c3: AppConfig)
    requires
        c3.outputs == c2.outputs,
        c3.lines@.len() == c2.lines@.len(),
        forall|i: int|
            0 <= i < c2.lines@.len() ==> #[trigger] c3.lines@[i] == (LineConfig {
                routes: c3.lines@[i].routes,
                ..c2.lines@[i]
            }) && c3.lines@[i].routes@ == c2.lines@[i].routes@.filter(route_has_bus(c2.outputs@)),
    ensures
        routes_have_buses(c3),
        has_mic(c2.lines@) ==> has_mic(c3.lines@),
{
    assert forall|i: int, j: int| 0 <= i < c3.lines@.len() && 0 <= j < c3.lines@[i].routes@.len() implies has_bus_id(
        c3.outputs@,
        (#[trigger] c3.lines@[i].routes@[j]).output_id@,
    ) by {
        assert(c3.lines@[i].routes@ == c2.lines@[i].routes@.filter(route_has_bus(c2.outputs@)));
        crate::seqs::lemma_filter_members(c2.lines@[i].routes@, route_has_bus(c2.outputs@));
        assert(route_has_bus(c2.outputs@)(c3.lines@[i].routes@[j]));
    }
    if has_mic(c2.lines@) {
        let k = choose|k: int| 0 <= k < c2.lines@.len() && is_mic(#[trigger] c2.lines@[k]);
        assert(c3.lines@[k].kind == c2.lines@[k].kind);
    }
}

proof fn lemma_default_routes(c3: AppConfig, c4: AppConfig, default_output: Option<String>, bus: Seq<char>)
    requires
        default_routes_post(c3, default_output, bus, c4),
        routes_have_buses(c3),
    ensures
        routes_have_buses(c4),
        has_mic(c3.lines@) ==> has_mic(c4.lines@),
        usable_default(default_output) is Some ==> every_line_routed(c4),
{
    match usable_default(default_output) {
        Some(dev) => {
            if has_routeless_line(c3.lines@) {
                let b = bus_id_for(c3.outputs@, dev@, bus);
                lemma_first_match(c3.outputs@, crate::model::output_has_device(dev@));
                assert(has_bus_id(c4.outputs@, b)) by {
                    match first_match(c3.outputs@, crate::model::output_has_device(dev@)) {
                        Some(k) => {
                            assert(c4.outputs@[k].id@ == b);
                        },
                        None => {
                            assert(c4.outputs@[c4.outputs@.len() - 1].id@ == b);
                        },
                    }
                }
                assert forall|i: int, j: int| 0 <= i < c4.lines@.len() && 0 <= j < c4.lines@[i].routes@.len() implies has_bus_id(
                    c4.outputs@,
                    (#[trigger] c4.lines@[i].routes@[j]).output_id@,
                ) by {
                    if c3.lines@[i].routes@.len() == 0 {
                        assert(c4.lines@[i].routes@[j].output_id@ == b);
                    } else {
                        assert(c4.lines@[i] == c3.lines@[i]);
                        let id = c3.lines@[i].routes@[j].output_id@;
                        assert(has_bus_id(c3.outputs@, id));
                        let o = choose|o: int| 0 <= o < c3.outputs@.len() && #[trigger] c3.outputs@[o].id@ == id;
                        match first_match(c3.outputs@, crate::model::output_has_device(dev@)) {
                            Some(_) => {},
                            None => {
                                assert(c4.outputs@.drop_last()[o] == c4.outputs@[o]);
                            },
                        }
                        assert(c4.outputs@[o].id@ == id);
                    }
                }
                assert forall|i: int| 0 <= i < c4.lines@.len() implies (#[trigger] c4.lines@[i]).routes@.len() > 0 by {
                    if c3.lines@[i].routes@.len() == 0 {
                    } else {
                        assert(c4.lines@[i] == c3.lines@[i]);
                    }
                }
                if has_mic(c3.lines@) {
                    let k = choose|k: int| 0 <= k < c3.lines@.len() && is_mic(#[trigger] c3.lines@[k]);
                    assert(c4.lines@[k].kind == c3.lines@[k].kind);
                }
            } else {
                assert forall|i: int| 0 <= i < c4.lines@.len() implies (#[trigger] c4.lines@[i]).routes@.len() > 0 by {
                    if c3.lines@[i].routes@.len() == 0 {
                        assert(has_routeless_line(c3.lines@));
                    }
                }
            }
        },
        None => {},
    }
}

proof fn lemma_pruned_routes(c4: AppConfig, fin: AppConfig)
    requires
        routes_have_buses(c4),
        fin.outputs@ == c4.outputs@.filter(bus_in_use(c4.lines@)),
        fin.lines == c4.lines,
    ensures
        routes_have_buses(fin),
{
    crate::seqs::lemma_filter_members(c4.outputs@, bus_in_use(c4.lines@));
    assert forall|i: int, j: int| 0 <= i < fin.lines@.len() && 0 <= j < fin.lines@[i].routes@.len() implies has_bus_id(
        fin.outputs@,
        (#[trigger] fin.lines@[i].routes@[j]).output_id@,
    ) by {
        let id = c4.lines@[i].routes@[j].output_id@;
        assert(has_bus_id(c4.outputs@, id));
        let o = choose|o: int| 0 <= o < c4.outputs@.len() && #[trigger] c4.outputs@[o].id@ == id;
        assert(crate::topology::routed(c4.lines@, id));
        assert(bus_in_use(c4.lines@)(c4.outputs@[o]));
        assert(fin.outputs@.contains(c4.outputs@[o]));
        let k = choose|k: int| 0 <= k < fin.outputs@.len() && fin.outputs@[k] == c4.outputs@[o];
        assert(fin.outputs@[k].id@ == id);
    }
}

/// What reconciliation guarantees of every configuration it lets in: a
/// microphone line exists, every route targets an existing bus, every bus
/// is targeted by some route, and when the system's default output is
/// usable (not a virtual cable) every line plays somewhere.
pub proof fn lemma_reconciled_config(
    c0: AppConfig,
    c1: AppConfig,
    c2: AppConfig,
    c3: AppConfig,
    c4: AppConfig,
    fin: AppConfig,
    default_output: Option<String>,
    mic_id: Seq<char>,
    bus_id: Seq<char>,
)
    requires
        reconcile_steps(c0, c1, c2, c3, c4, fin, default_output, mic_id, bus_id),
    ensures
        has_mic(fin.lines@),
        routes_have_buses(fin),
        forall|k: int| 0 <= k < fin.outputs@.len() ==> crate::topology::routed(fin.lines@, #[trigger] fin.outputs@[k].id@),
        usable_default(default_output) is Some ==> every_line_routed(fin),
{
    if !has_mic(c1.lines@) {
        let n = c2.lines@.len() - 1;
        assert(is_mic(c2.lines@[n]));
    }
    assert(has_mic(c2.lines@));
    lemma_orphans_dropped(c2, c3);
    lemma_default_routes(c3, c4, default_output, bus_id);
    lemma_pruned_routes(c4, fin);
    crate::topology::lemma_pruned_buses_in_use(c4, fin);
    if usable_default(default_output) is Some {
        assert forall|i: int| 0 <= i < fin.lines@.len() implies (#[trigger] fin.lines@[i]).routes@.len() > 0 by {
            assert(c4.lines@[i] == fin.lines@[i]);
        }
    }
}

} // verus!
