//! Binding lines to output devices by name: buses are created on demand,
//! one per device, and a device that stays selected keeps its route gain.

use vstd::prelude::*;
use crate::model::{
    find_line, find_output_by_id, line_has_id, output_has_device, output_has_id, AppConfig,
    DuckRule, EqBandCfg, LineConfig, LineSnapshot, OutputConfig, Profile, Route, UNITY_GAIN,
};
use crate::edits::has_line;
use crate::seqs::{first_match, lemma_first_match, lemma_first_match_push, retain_flags};
use crate::text::str_eq;
use crate::topology::{
    bus_in_use, find_or_create_bus, new_bus_ok, prune_unused_buses,
    same_but_outputs,
};

verus! {

/// Gain of the last route (of `routes`) whose bus — the first output with
/// the route's id — is bound to `device`.
pub open spec fn prior_gain(outputs: Seq<OutputConfig>, routes: Seq<Route>, device: Seq<char>) -> Option<u32>
    decreases routes.len(),
{
    if routes.len() == 0 {
        None
    } else {
        let r = routes.last();
        match first_match(outputs, output_has_id(r.output_id@)) {
            Some(o) => if outputs[o].device@ == device {
                Some(r.gain)
            } else {
                prior_gain(outputs, routes.drop_last(), device)
            },
            None => prior_gain(outputs, routes.drop_last(), device),
        }
    }
}

/// Route gain a device resolves to: its prior gain, or unity.
pub open spec fn gain_or_unity(g: Option<u32>) -> u32 {
    match g {
        Some(v) => v,
        None => UNITY_GAIN,
    }
}

/// The gain the line's routes already give `device`, if any.
pub fn prior_gain_of(outputs: &Vec<OutputConfig>, routes: &Vec<Route>, device: &str) -> (r: Option<u32>)
    ensures
        r == prior_gain(outputs@, routes@, device@),
{
    let mut k: usize = routes.len();
    proof {
        assert(routes@.take(k as int) =~= routes@);
    }
    while k > 0
        invariant
            k <= routes@.len(),
            prior_gain(outputs@, routes@, device@) == prior_gain(outputs@, routes@.take(k as int), device@),
        decreases k,
    {
        let ghost pre = routes@.take(k as int);
        assert(pre.last() == routes@[k - 1]);
        assert(pre.drop_last() =~= routes@.take(k - 1));
        let found = find_output_by_id(outputs, routes[k - 1].output_id.as_str());
        proof {
            lemma_first_match(outputs@, output_has_id(routes@[k - 1].output_id@));
        }
        if let Some(o) = found {
            if str_eq(outputs[o].device.as_str(), device) {
                return Some(routes[k - 1].gain);
            }
        }
        k -= 1;
    }
    None
}

/// Some output bus is bound to `device`.
pub open spec fn has_bus(outputs: Seq<OutputConfig>, device: Seq<char>) -> bool {
    first_match(outputs, output_has_device(device)) is Some
}

/// Index of the first output bus bound to `device`.
pub open spec fn bus_of(outputs: Seq<OutputConfig>, device: Seq<char>) -> int {
    first_match(outputs, output_has_device(device))->0
}

/// `devices[k]` is the first occurrence of its name.
pub open spec fn first_occurrence(devices: Seq<String>, k: int) -> bool {
    forall|j: int| 0 <= j < k ==> #[trigger] devices[j]@ != devices[k]@
}

/// `devices[k]` needs a new bus: none exists for it and it is the first
/// occurrence of its name.
pub open spec fn needs_bus(outputs: Seq<OutputConfig>, devices: Seq<String>, k: int) -> bool {
    &&& 0 <= k < devices.len()
    &&& first_match(outputs, output_has_device(devices[k]@)) is None
    &&& first_occurrence(devices, k)
}

/// `mid` is `outputs` followed by one new bus for each device needing one,
/// in order, the bus for `devices[k]` taking the id `fresh[k]`; `created`
/// lists those positions `k`.
pub open spec fn buses_created(
    outputs: Seq<OutputConfig>,
    devices: Seq<String>,
    fresh: Seq<String>,
    mid: Seq<OutputConfig>,
    created: Seq<int>,
) -> bool {
    &&& mid.len() == outputs.len() + created.len()
    &&& forall|i: int| 0 <= i < outputs.len() ==> #[trigger] mid[i] == outputs[i]
    &&& forall|m: int|
        0 <= m < created.len() ==> needs_bus(outputs, devices, #[trigger] created[m]) && new_bus_ok(
            mid[outputs.len() + m],
            fresh[created[m]]@,
            devices[created[m]]@,
        )
    &&& forall|m1: int, m2: int| 0 <= m1 < m2 < created.len() ==> #[trigger] created[m1] < #[trigger] created[m2]
    &&& forall|k: int| #[trigger] needs_bus(outputs, devices, k) ==> exists|m: int| 0 <= m < created.len() && created[m] == k
}

/// `routes[k]` targets the first bus of `mid` bound to `devices[k]`, at the
/// gain that device had on `prior` routes (unity if none).
pub open spec fn routes_resolved(
    outputs: Seq<OutputConfig>,
    prior: Seq<Route>,
    devices: Seq<String>,
    mid: Seq<OutputConfig>,
    routes: Seq<Route>,
) -> bool {
    &&& routes.len() == devices.len()
    &&& forall|k: int|
        0 <= k < devices.len() ==> match first_match(mid, output_has_device(devices[k]@)) {
            Some(o) => (#[trigger] routes[k]).output_id@ == mid[o].id@ && routes[k].gain == gain_or_unity(
                prior_gain(outputs, prior, devices[k]@),
            ),
            None => false,
        }
}

/// Resolves each device into a route, creating missing buses (the bus for
/// `devices[k]` takes the id `fresh_ids[k]`). `prior` holds the routes the
/// line had, whose gains are kept per device.
pub fn resolve_routes(
    cfg: &mut AppConfig,
    prior: &Vec<Route>,
    devices: &Vec<String>,
    fresh_ids: &Vec<String>,
) -> (routes: Vec<Route>)
    requires
        fresh_ids@.len() >= devices@.len(),
    ensures
        same_but_outputs(*old(cfg), *final(cfg)),
        exists|created: Seq<int>|
            buses_created(old(cfg).outputs@, devices@, fresh_ids@, final(cfg).outputs@, created),
        routes_resolved(old(cfg).outputs@, prior@, devices@, final(cfg).outputs@, routes@),
{
    // Gains are looked up before any bus is created.
    let mut gains: Vec<u32> = Vec::new();
    let mut k: usize = 0;
    while k < devices.len()
        invariant
            k <= devices@.len(),
            gains@.len() == k,
            forall|j: int| 0 <= j < k ==> #[trigger] gains@[j] == gain_or_unity(prior_gain(cfg.outputs@, prior@, devices@[j]@)),
        decreases devices@.len() - k,
    {
        let g = match prior_gain_of(&cfg.outputs, prior, devices[k].as_str()) {
            Some(g) => g,
            None => UNITY_GAIN,
        };
        gains.push(g);
        k += 1;
    }
    let ghost outputs0 = cfg.outputs@;
    let ghost mut created: Seq<int> = Seq::empty();
    let mut routes: Vec<Route> = Vec::new();
    let mut k: usize = 0;
    while k < devices.len()
        invariant
            fresh_ids@.len() >= devices@.len(),
            same_but_outputs(*old(cfg), *cfg),
            outputs0 == old(cfg).outputs@,
            k <= devices@.len(),
            gains@.len() == devices@.len(),
            forall|j: int| 0 <= j < devices@.len() ==> #[trigger] gains@[j] == gain_or_unity(prior_gain(outputs0, prior@, devices@[j]@)),
            routes@.len() == k,
            cfg.outputs@.len() == outputs0.len() + created.len(),
            forall|i: int| 0 <= i < outputs0.len() ==> #[trigger] cfg.outputs@[i] == outputs0[i],
            forall|m: int|
                0 <= m < created.len() ==> 0 <= #[trigger] created[m] < k && needs_bus(outputs0, devices@, created[m]) && new_bus_ok(
                    cfg.outputs@[outputs0.len() + m],
                    fresh_ids@[created[m]]@,
                    devices@[created[m]]@,
                ),
            forall|m1: int, m2: int| 0 <= m1 < m2 < created.len() ==> #[trigger] created[m1] < #[trigger] created[m2],
            forall|j: int| 0 <= j < k && #[trigger] needs_bus(outputs0, devices@, j) ==> exists|m: int| 0 <= m < created.len() && created[m] == j,
            forall|j: int| 0 <= j < k ==> has_bus(cfg.outputs@, #[trigger] devices@[j]@),
            forall|j: int|
                0 <= j < k ==> (#[trigger] routes@[j]).output_id@ == cfg.outputs@[bus_of(cfg.outputs@, devices@[j]@)].id@
                    && routes@[j].gain == gains@[j],
        decreases devices@.len() - k,
    {
        let ghost cur = cfg.outputs@;
        let ghost d = devices@[k as int]@;
        let ghost created_before = created;
        proof {
            lemma_first_match(cur, output_has_device(d));
            lemma_first_match(outputs0, output_has_device(d));
        }
        let bus = find_or_create_bus(cfg, devices[k].as_str(), fresh_ids[k].clone());
        proof {
            if first_match(cur, output_has_device(d)) is None {
                // A new bus: the device had none, and no earlier device shared its name.
                assert(first_match(outputs0, output_has_device(d)) is None) by {
                    if first_match(outputs0, output_has_device(d)) is Some {
                        let i = first_match(outputs0, output_has_device(d))->0;
                        assert(cur[i] == outputs0[i]);
                        assert(output_has_device(d)(cur[i]));
                    }
                }
                assert(first_occurrence(devices@, k as int)) by {
                    assert forall|j: int| 0 <= j < k implies #[trigger] devices@[j]@ != devices@[k as int]@ by {
                        assert(has_bus(cur, devices@[j]@));
                    }
                }
                assert(cfg.outputs@ =~= cur.push(cfg.outputs@.last()));
                created = created.push(k as int);
            } else {
                assert(!needs_bus(outputs0, devices@, k as int)) by {
                    let o = first_match(cur, output_has_device(d))->0;
                    if o < outputs0.len() {
                        assert(cur[o] == outputs0[o]);
                        assert(output_has_device(d)(outputs0[o]));
                    } else {
                        let m = o - outputs0.len();
                        let km = created[m];
                        assert(cur[outputs0.len() + m].device@ == devices@[km]@);
                        assert(devices@[km]@ == d);
                    }
                }
            }
        }
        let ghost after = cfg.outputs@;
        let ghost old_routes = routes@;
        routes.push(Route { output_id: bus, gain: gains[k] });
        proof {
            assert forall|j: int| 0 <= j < k + 1 implies has_bus(after, #[trigger] devices@[j]@)
                && routes@[j].output_id@ == after[bus_of(after, devices@[j]@)].id@ && routes@[j].gain == gains@[j] by {
                if after != cur {
                    assert(after =~= cur.push(after.last()));
                    lemma_first_match_push(cur, output_has_device(devices@[j]@), after.last());
                }
                lemma_first_match(after, output_has_device(devices@[j]@));
                if j < k {
                    assert(routes@[j] == old_routes[j]);
                }
            }
            assert forall|j: int| 0 <= j < k + 1 && #[trigger] needs_bus(outputs0, devices@, j) implies exists|m: int| 0 <= m < created.len() && created[m] == j by {
                if j == k {
                    assert(created[created.len() - 1] == k);
                } else {
                    let m = choose|m: int| 0 <= m < created_before.len() && created_before[m] == j;
                    assert(created[m] == j);
                }
            }
        }
        k += 1;
    }
    proof {
        assert(buses_created(outputs0, devices@, fresh_ids@, cfg.outputs@, created));
        assert forall|j: int| 0 <= j < devices@.len() implies match first_match(cfg.outputs@, output_has_device(devices@[j]@)) {
            Some(o) => (#[trigger] routes@[j]).output_id@ == cfg.outputs@[o].id@ && routes@[j].gain == gain_or_unity(
                prior_gain(old(cfg).outputs@, prior@, devices@[j]@),
            ),
            None => false,
        } by {
            assert(has_bus(cfg.outputs@, devices@[j]@));
            assert(gains@[j] == gain_or_unity(prior_gain(outputs0, prior@, devices@[j]@)));
        }
    }
    routes
}

} // verus!

verus! {

/// The device name is not empty.
pub open spec fn named(d: String) -> bool {
    d@.len() > 0
}

/// The non-empty device names, in order.
pub fn non_empty_devices(devices: &Vec<String>) -> (r: Vec<String>)
    ensures
        r@ == devices@.filter(|d: String| named(d)),
{
    let mut r = crate::edits::copy_strings(devices);
    let mut keep: Vec<bool> = Vec::new();
    let mut i: usize = 0;
    while i < r.len()
        invariant
            i <= r@.len(),
            r@ == devices@,
            keep@.len() == i,
            forall|k: int| 0 <= k < i ==> keep@[k] == (|d: String| named(d))(#[trigger] r@[k]),
        decreases r@.len() - i,
    {
        keep.push(r[i].unicode_len() > 0);
        i += 1;
    }
    retain_flags(&mut r, &keep, Ghost(|d: String| named(d)));
    r
}

/// The non-empty device names of `devices`, in order, repeats included.
pub open spec fn named_devices(devices: Seq<String>) -> Seq<String> {
    devices.filter(|d: String| named(d))
}

/// Names all non-empty are kept as they are.
pub proof fn lemma_named_devices_identity(devices: Seq<String>)
    requires
        forall|k: int| 0 <= k < devices.len() ==> named(#[trigger] devices[k]),
    ensures
        named_devices(devices) == devices,
{
    crate::seqs::lemma_filter_all_kept(devices, |d: String| named(d));
}

/// Views of a list of device names.
pub open spec fn device_views(v: Seq<String>) -> Seq<Seq<char>> {
    v.map_values(|d: String| d@)
}

/// The distinct non-empty device names, in first-occurrence order: the
/// set of devices a line is bound to.
pub open spec fn distinct_named(devices: Seq<String>) -> Seq<String>
    decreases devices.len(),
{
    if devices.len() == 0 {
        Seq::empty()
    } else {
        let prev = distinct_named(devices.drop_last());
        let d = devices.last();
        if named(d) && !device_views(prev).contains(d@) {
            prev.push(d)
        } else {
            prev
        }
    }
}

/// Facts about [`distinct_named`]: no longer than its input, names all
/// non-empty and pairwise distinct.
pub proof fn lemma_distinct_named(devices: Seq<String>)
    ensures
        distinct_named(devices).len() <= devices.len(),
        forall|k: int| 0 <= k < distinct_named(devices).len() ==> named(#[trigger] distinct_named(devices)[k]),
        forall|a: int, b: int|
            0 <= a < b < distinct_named(devices).len() ==> (#[trigger] distinct_named(devices)[a])@
                != (#[trigger] distinct_named(devices)[b])@,
    decreases devices.len(),
{
    if devices.len() > 0 {
        let t = devices.drop_last();
        lemma_distinct_named(t);
        let prev = distinct_named(t);
        let d = devices.last();
        if named(d) && !device_views(prev).contains(d@) {
            let r = prev.push(d);
            assert forall|a: int, b: int| 0 <= a < b < r.len() implies (#[trigger] r[a])@ != (#[trigger] r[b])@ by {
                if b == prev.len() {
                    assert(device_views(prev)[a] == prev[a]@);
                }
            }
        }
    }
}

/// Names already distinct and non-empty are kept as they are.
pub proof fn lemma_distinct_named_identity(devices: Seq<String>)
    requires
        forall|k: int| 0 <= k < devices.len() ==> named(#[trigger] devices[k]),
        forall|a: int, b: int| 0 <= a < b < devices.len() ==> (#[trigger] devices[a])@ != (#[trigger] devices[b])@,
    ensures
        distinct_named(devices) == devices,
    decreases devices.len(),
{
    if devices.len() > 0 {
        let t = devices.drop_last();
        assert forall|a: int, b: int| 0 <= a < b < t.len() implies (#[trigger] t[a])@ != (#[trigger] t[b])@ by {
            assert(t[a] == devices[a] && t[b] == devices[b]);
        }
        assert forall|k: int| 0 <= k < t.len() implies named(#[trigger] t[k]) by {
            assert(t[k] == devices[k]);
        }
        lemma_distinct_named_identity(t);
        assert(named(devices[devices.len() - 1]));
        assert(!device_views(t).contains(devices.last()@)) by {
            if device_views(t).contains(devices.last()@) {
                let w = choose|w: int| 0 <= w < device_views(t).len() && device_views(t)[w] == devices.last()@;
                assert(t[w] == devices[w]);
            }
        }
        assert(t.push(devices.last()) =~= devices);
    }
}

fn contains_device(v: &Vec<String>, d: &str) -> (r: bool)
    ensures
        r == device_views(v@).contains(d@),
{
    let mut i: usize = 0;
    while i < v.len()
        invariant
            i <= v@.len(),
            forall|k: int| 0 <= k < i ==> #[trigger] v@[k]@ != d@,
        decreases v@.len() - i,
    {
        if str_eq(v[i].as_str(), d) {
            assert(device_views(v@)[i as int] == d@);
            return true;
        }
        i += 1;
    }
    assert forall|k: int| 0 <= k < device_views(v@).len() implies device_views(v@)[k] != d@ by {
        assert(device_views(v@)[k] == v@[k]@);
    }
    false
}

/// The distinct non-empty device names, in first-occurrence order.
pub fn distinct_named_devices(devices: &Vec<String>) -> (r: Vec<String>)
    ensures
        r@ == distinct_named(devices@),
{
    let mut r: Vec<String> = Vec::new();
    let mut i: usize = 0;
    while i < devices.len()
        invariant
            i <= devices@.len(),
            r@ == distinct_named(devices@.take(i as int)),
        decreases devices@.len() - i,
    {
        assert(devices@.take(i + 1).drop_last() =~= devices@.take(i as int));
        assert(devices@.take(i + 1).last() == devices@[i as int]);
        let d = &devices[i];
        if d.unicode_len() > 0 && !contains_device(&r, d.as_str()) {
            r.push(d.clone());
        }
        i += 1;
    }
    assert(devices@.take(i as int) =~= devices@);
    r
}

/// Copies a list of routes.
pub fn copy_routes(v: &Vec<Route>) -> (r: Vec<Route>)
    ensures
        r@ == v@,
{
    let mut r: Vec<Route> = Vec::new();
    let mut i: usize = 0;
    while i < v.len()
        invariant
            i <= v@.len(),
            r@ == v@.take(i as int),
        decreases v@.len() - i,
    {
        r.push(Route { output_id: v[i].output_id.clone(), gain: v[i].gain });
        assert(r@ =~= v@.take(i + 1));
        i += 1;
    }
    assert(v@.take(i as int) =~= v@);
    r
}

/// The routes of the first line with this id (none if absent).
pub open spec fn prior_routes(lines: Seq<LineConfig>, id: Seq<char>) -> Seq<Route> {
    match first_match(lines, line_has_id(id)) {
        Some(i) => lines[i].routes@,
        None => Seq::empty(),
    }
}

/// The outcome of binding line `line_id` to exactly the set of named
/// `devices`: buses are found or created per distinct device (the k-th
/// distinct named device creating with `fresh[k]`), the line's routes are
/// replaced by one route per distinct named device, in first-occurrence
/// order, keeping the gain each device already had, and unused buses are
/// dropped.
pub open spec fn line_outputs_post(
    old: AppConfig,
    line_id: Seq<char>,
    devices: Seq<String>,
    fresh: Seq<String>,
    new: AppConfig,
) -> bool {
    let d = distinct_named(devices);
    let prior = prior_routes(old.lines@, line_id);
    exists|mid: Seq<OutputConfig>, created: Seq<int>, routes: Seq<Route>|
        {
            &&& buses_created(old.outputs@, d, fresh, mid, created)
            &&& routes_resolved(old.outputs@, prior, d, mid, routes)
            &&& match first_match(old.lines@, line_has_id(line_id)) {
                Some(i) => new.lines@ == old.lines@.update(
                    i,
                    LineConfig { routes: new.lines@[i].routes, ..old.lines@[i] },
                ) && new.lines@[i].routes@ == routes,
                None => new.lines@ == old.lines@,
            }
            &&& new.outputs@ == mid.filter(bus_in_use(new.lines@))
            &&& crate::topology::same_but_topology(old, new)
        }
}

/// Binds a line to a set of physical devices at once (fan-out). A bus is
/// found or created per device, the line's routes become exactly that set
/// (a device that stays selected keeps its gain), and buses no line uses
/// any more are removed.
pub fn set_line_outputs(cfg: &mut AppConfig, line_id: &str, devices: &Vec<String>, fresh_ids: &Vec<String>)
    requires
        fresh_ids@.len() >= devices@.len(),
    ensures
        line_outputs_post(*old(cfg), line_id@, devices@, fresh_ids@, *final(cfg)),
{
    let named_devices = distinct_named_devices(devices);
    proof {
        lemma_distinct_named(devices@);
    }
    let li = find_line(&cfg.lines, line_id);
    proof {
        lemma_first_match(cfg.lines@, line_has_id(line_id@));
    }
    let prior = match li {
        Some(i) => copy_routes(&cfg.lines[i].routes),
        None => Vec::new(),
    };
    assert(prior@ == prior_routes(cfg.lines@, line_id@));
    let routes = resolve_routes(cfg, &prior, &named_devices, fresh_ids);
    let ghost mid = cfg.outputs@;
    let ghost rv = routes@;
    if let Some(i) = li {
        cfg.lines[i].routes = routes;
        assert(cfg.lines@ =~= old(cfg).lines@.update(
            i as int,
            LineConfig { routes: cfg.lines@[i as int].routes, ..old(cfg).lines@[i as int] },
        ));
    }
    let ghost before_prune = *cfg;
    prune_unused_buses(cfg);
    proof {
        let created = choose|created: Seq<int>| buses_created(old(cfg).outputs@, named_devices@, fresh_ids@, mid, created);
        assert(buses_created(old(cfg).outputs@, named_devices@, fresh_ids@, mid, created));
        assert(routes_resolved(old(cfg).outputs@, prior@, named_devices@, mid, rv));
        assert(cfg.outputs@ == mid.filter(bus_in_use(cfg.lines@)));
    }
}

} // verus!

verus! {

/// Copies a list of EQ bands.
pub fn copy_bands(v: &Vec<EqBandCfg>) -> (r: Vec<EqBandCfg>)
    ensures
        r@ == v@,
{
    let mut r: Vec<EqBandCfg> = Vec::new();
    let mut i: usize = 0;
    while i < v.len()
        invariant
            i <= v@.len(),
            r@ == v@.take(i as int),
        decreases v@.len() - i,
    {
        r.push(EqBandCfg { freq: v[i].freq, gain: v[i].gain });
        assert(r@ =~= v@.take(i + 1));
        i += 1;
    }
    assert(v@.take(i as int) =~= v@);
    r
}

/// Copies a list of ducking rules.
pub fn copy_rules(v: &Vec<DuckRule>) -> (r: Vec<DuckRule>)
    ensures
        r@ == v@,
{
    let mut r: Vec<DuckRule> = Vec::new();
    let mut i: usize = 0;
    while i < v.len()
        invariant
            i <= v@.len(),
            r@ == v@.take(i as int),
        decreases v@.len() - i,
    {
        r.push(
            DuckRule {
                source_line: v[i].source_line.clone(),
                target_line: v[i].target_line.clone(),
                amount: v[i].amount,
            },
        );
        assert(r@ =~= v@.take(i + 1));
        i += 1;
    }
    assert(v@.take(i as int) =~= v@);
    r
}

/// The route goes to an existing bus with no device (an unassigned bus,
/// which a snapshot cannot name).
pub open spec fn unassigned_route(outputs: Seq<OutputConfig>) -> spec_fn(Route) -> bool {
    |r: Route| match first_match(outputs, output_has_id(r.output_id@)) {
        Some(o) => outputs[o].device@.len() == 0,
        None => false,
    }
}

/// The routes a line takes from a snapshot: when the snapshot names
/// devices, its routes to unassigned buses (kept, in front) then one route
/// per named device listed; when it names none, the routes it had.
pub open spec fn snapshot_routes(outputs: Seq<OutputConfig>, prior: Seq<Route>, resolved: Seq<Route>) -> Seq<Route> {
    if resolved.len() == 0 {
        prior
    } else {
        prior.filter(unassigned_route(outputs)) + resolved
    }
}

/// The outcome of restoring one line snapshot: each non-empty device it
/// lists is resolved to a bus in order (one route per listed device, the
/// k-th creating its bus with `fresh[k]`), and the line (if it still
/// exists) takes the snapshot's gain, mute, EQ curve and routes (see
/// [`snapshot_routes`]).
#[verifier::opaque]
pub open spec fn snapshot_post(old: AppConfig, snap: LineSnapshot, fresh: Seq<String>, new: AppConfig) -> bool {
    let d = named_devices(snap.output_devices@);
    let prior = prior_routes(old.lines@, snap.line_id@);
    exists|created: Seq<int>, routes: Seq<Route>|
        {
            &&& buses_created(old.outputs@, d, fresh, new.outputs@, created)
            &&& routes_resolved(old.outputs@, prior, d, new.outputs@, routes)
            &&& match first_match(old.lines@, line_has_id(snap.line_id@)) {
                Some(i) => new.lines@ == old.lines@.update(
                    i,
                    LineConfig {
                        gain: snap.gain,
                        muted: snap.muted,
                        eq_bands: new.lines@[i].eq_bands,
                        routes: new.lines@[i].routes,
                        ..old.lines@[i]
                    },
                ) && new.lines@[i].eq_bands@ == snap.eq_bands@ && new.lines@[i].routes@ == snapshot_routes(
                    old.outputs@,
                    prior,
                    routes,
                ),
                None => new.lines@ == old.lines@,
            }
            &&& crate::topology::same_but_topology(old, new)
        }
}

fn unassigned_routes(outputs: &Vec<OutputConfig>, routes: &Vec<Route>) -> (r: Vec<Route>)
    ensures
        r@ == routes@.filter(unassigned_route(outputs@)),
{
    let mut kept = copy_routes(routes);
    let mut keep: Vec<bool> = Vec::new();
    let mut i: usize = 0;
    while i < kept.len()
        invariant
            i <= kept@.len(),
            kept@ == routes@,
            keep@.len() == i,
            forall|k: int| 0 <= k < i ==> keep@[k] == unassigned_route(outputs@)(#[trigger] kept@[k]),
        decreases kept@.len() - i,
    {
        let found = find_output_by_id(outputs, kept[i].output_id.as_str());
        proof {
            lemma_first_match(outputs@, output_has_id(kept@[i as int].output_id@));
        }
        let flag = match found {
            Some(o) => outputs[o].device.unicode_len() == 0,
            None => false,
        };
        keep.push(flag);
        i += 1;
    }
    retain_flags(&mut kept, &keep, Ghost(unassigned_route(outputs@)));
    kept
}

/// Restores one line snapshot (see [`snapshot_post`]).
pub fn apply_snapshot(cfg: &mut AppConfig, snap: &LineSnapshot, fresh_ids: &Vec<String>)
    requires
        fresh_ids@.len() >= snap.output_devices@.len(),
    ensures
        snapshot_post(*old(cfg), *snap, fresh_ids@, *final(cfg)),
        crate::topology::same_but_topology(*old(cfg), *final(cfg)),
{
    let listed = non_empty_devices(&snap.output_devices);
    proof {
        snap.output_devices@.lemma_filter_len(|d: String| named(d));
    }
    let li = find_line(&cfg.lines, snap.line_id.as_str());
    proof {
        lemma_first_match(cfg.lines@, line_has_id(snap.line_id@));
    }
    let prior = match li {
        Some(i) => copy_routes(&cfg.lines[i].routes),
        None => Vec::new(),
    };
    let kept = unassigned_routes(&cfg.outputs, &prior);
    let routes = resolve_routes(cfg, &prior, &listed, fresh_ids);
    let ghost rv = routes@;
    let ghost mid = cfg.outputs@;
    let new_routes = if routes.len() == 0 {
        prior
    } else {
        let mut all = kept;
        let ghost k0 = all@;
        let mut j: usize = 0;
        while j < routes.len()
            invariant
                j <= routes@.len(),
                all@ == k0 + routes@.take(j as int),
            decreases routes@.len() - j,
        {
            assert(routes@.take(j + 1) =~= routes@.take(j as int).push(routes@[j as int]));
            all.push(Route { output_id: routes[j].output_id.clone(), gain: routes[j].gain });
            j += 1;
        }
        assert(routes@.take(j as int) =~= routes@);
        all
    };
    assert(new_routes@ == snapshot_routes(old(cfg).outputs@, prior@, rv));
    if let Some(i) = li {
        cfg.lines[i].gain = snap.gain;
        cfg.lines[i].muted = snap.muted;
        cfg.lines[i].eq_bands = copy_bands(&snap.eq_bands);
        cfg.lines[i].routes = new_routes;
        assert(cfg.lines@ =~= old(cfg).lines@.update(
            i as int,
            LineConfig {
                gain: snap.gain,
                muted: snap.muted,
                eq_bands: cfg.lines@[i as int].eq_bands,
                routes: cfg.lines@[i as int].routes,
                ..old(cfg).lines@[i as int]
            },
        ));
    }
    proof {
        reveal(snapshot_post);
        assert(listed@ == named_devices(snap.output_devices@));
        assert(prior@ == prior_routes(old(cfg).lines@, snap.line_id@));
        let created = choose|created: Seq<int>| buses_created(old(cfg).outputs@, listed@, fresh_ids@, mid, created);
        assert(buses_created(old(cfg).outputs@, listed@, fresh_ids@, mid, created));
        assert(routes_resolved(old(cfg).outputs@, prior@, listed@, mid, rv));
        assert(cfg.outputs@ == mid);
    }
}

/// The rule names two existing lines.
pub open spec fn rule_refs_exist(lines: Seq<LineConfig>) -> spec_fn(DuckRule) -> bool {
    |d: DuckRule| has_line(lines, d.source_line@) && has_line(lines, d.target_line@)
}

/// The outcome of applying a profile: its snapshots are restored in order
/// (each against the configuration the previous one left), then its valid
/// ducking rules (two distinct existing lines) and its master gain are
/// taken, and unused buses are dropped.
pub open spec fn profile_post(old: AppConfig, profile: Profile, fresh: Seq<Vec<String>>, new: AppConfig) -> bool {
    let n = profile.lines@.len() as int;
    exists|chain: Seq<AppConfig>|
        {
            &&& chain.len() == n + 1
            &&& chain[0] == old
            &&& forall|s: int| 0 <= s < n ==> snapshot_post(#[trigger] chain[s], profile.lines@[s], fresh[s]@, chain[s + 1])
            &&& new.lines == chain[n].lines
            &&& new.ducking@ == profile.ducking@.filter(crate::edits::rule_valid(chain[n].lines@))
            &&& new.master_gain == profile.master_gain
            &&& new.outputs@ == chain[n].outputs@.filter(bus_in_use(new.lines@))
            &&& new.eq_presets == old.eq_presets
            &&& new.profiles == old.profiles
            &&& new.schema_version == old.schema_version
        }
}

/// Applies a saved profile onto the configuration. Lines are matched by
/// id (a snapshot of a deleted line is skipped); outputs are resolved by
/// device name, one route per listed device, keeping a route's gain when
/// its device stays; a line keeps its routes to unassigned buses (and all
/// its routes when the snapshot names no device); ducking rules naming a
/// missing line, or a line ducking itself, are dropped. `fresh_ids[s]`
/// offers ids for the buses snapshot `s` may create.
pub fn apply_profile_to_config(cfg: &mut AppConfig, profile: &Profile, fresh_ids: &Vec<Vec<String>>)
    requires
        fresh_ids@.len() >= profile.lines@.len(),
        forall|s: int| 0 <= s < profile.lines@.len() ==> (#[trigger] fresh_ids@[s])@.len() >= profile.lines@[s].output_devices@.len(),
    ensures
        profile_post(*old(cfg), *profile, fresh_ids@, *final(cfg)),
{
    let ghost mut chain: Seq<AppConfig> = seq![*cfg];
    let mut s: usize = 0;
    while s < profile.lines.len()
        invariant
            fresh_ids@.len() >= profile.lines@.len(),
            forall|t: int| 0 <= t < profile.lines@.len() ==> (#[trigger] fresh_ids@[t])@.len() >= profile.lines@[t].output_devices@.len(),
            s <= profile.lines@.len(),
            chain.len() == s + 1,
            chain[0] == *old(cfg),
            chain[s as int] == *cfg,
            crate::topology::same_but_topology(*old(cfg), *cfg),
            forall|t: int| 0 <= t < s ==> snapshot_post(#[trigger] chain[t], profile.lines@[t], fresh_ids@[t]@, chain[t + 1]),
        decreases profile.lines@.len() - s,
    {
        let ghost before = chain;
        apply_snapshot(cfg, &profile.lines[s], &fresh_ids[s]);
        proof {
            chain = chain.push(*cfg);
            assert forall|t: int| 0 <= t < s + 1 implies snapshot_post(#[trigger] chain[t], profile.lines@[t], fresh_ids@[t]@, chain[t + 1]) by {
                assert(chain[t] == before.push(*cfg)[t]);
                if t < s {
                    assert(chain[t + 1] == before[t + 1]);
                }
            }
        }
        s += 1;
    }
    let ghost last = *cfg;
    cfg.ducking = crate::edits::sane_duck_rules(&cfg.lines, copy_rules(&profile.ducking));
    cfg.master_gain = profile.master_gain;
    prune_unused_buses(cfg);
    proof {
        let n = profile.lines@.len() as int;
        assert(chain[n] == last);
        assert(cfg.lines == last.lines);
        assert(cfg.ducking@ == profile.ducking@.filter(crate::edits::rule_valid(chain[n].lines@)));
        assert(cfg.outputs@ == chain[n].outputs@.filter(bus_in_use(cfg.lines@)));
        assert(chain.len() == n + 1);
    }
}

/// The rules of `rules` that name two existing lines.
pub fn rules_naming_lines(lines: &Vec<LineConfig>, rules: &Vec<DuckRule>) -> (r: Vec<DuckRule>)
    ensures
        r@ == rules@.filter(rule_refs_exist(lines@)),
{
    let mut rules = copy_rules(rules);
    let mut keep: Vec<bool> = Vec::new();
    let mut i: usize = 0;
    while i < rules.len()
        invariant
            i <= rules@.len(),
            keep@.len() == i,
            forall|k: int| 0 <= k < i ==> keep@[k] == rule_refs_exist(lines@)(#[trigger] rules@[k]),
        decreases rules@.len() - i,
    {
        let ok = crate::edits::line_exists(lines, rules[i].source_line.as_str())
            && crate::edits::line_exists(lines, rules[i].target_line.as_str());
        keep.push(ok);
        i += 1;
    }
    retain_flags(&mut rules, &keep, Ghost(rule_refs_exist(lines@)));
    rules
}

} // verus!
