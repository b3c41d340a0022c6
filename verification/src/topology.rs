//! Edits of the configuration topology: buses, routes, lines, mutes.

use vstd::prelude::*;
use crate::model::{
    find_output_by_device, find_route, output_has_device,
    route_to, AppConfig, LineConfig, OutputConfig, Route, UNITY_GAIN,
};
use crate::names::{short_device_name, short_device_name_spec};
use crate::seqs::{first_match, lemma_first_match, lemma_first_match_push, lemma_filter_take_step,
    lemma_filter_members, lemma_filter_idempotent};
use crate::text::str_eq;

verus! {

/// All fields but `outputs` are equal.
pub open spec fn same_but_outputs(a: AppConfig, b: AppConfig) -> bool {
    &&& a.lines == b.lines
    &&& a.ducking == b.ducking
    &&& a.master_gain == b.master_gain
    &&& a.eq_presets == b.eq_presets
    &&& a.profiles == b.profiles
    &&& a.schema_version == b.schema_version
}

/// All fields but `lines` and `outputs` are equal.
pub open spec fn same_but_topology(a: AppConfig, b: AppConfig) -> bool {
    &&& a.ducking == b.ducking
    &&& a.master_gain == b.master_gain
    &&& a.eq_presets == b.eq_presets
    &&& a.profiles == b.profiles
    &&& a.schema_version == b.schema_version
}

/// Some route of some line targets the bus `id`.
pub open spec fn routed(lines: Seq<LineConfig>, id: Seq<char>) -> bool {
    exists|i: int, j: int|
        0 <= i < lines.len() && 0 <= j < lines[i].routes@.len() && #[trigger] lines[i].routes@[j].output_id@
            == id
}

/// The bus is targeted by some route of `lines`.
pub open spec fn bus_in_use(lines: Seq<LineConfig>) -> spec_fn(OutputConfig) -> bool {
    |o: OutputConfig| routed(lines, o.id@)
}

/// Is the bus `id` targeted by some route?
pub fn is_routed(lines: &Vec<LineConfig>, id: &str) -> (r: bool)
    ensures
        r == routed(lines@, id@),
{
    let mut i: usize = 0;
    while i < lines.len()
        invariant
            i <= lines@.len(),
            forall|i2: int, j: int|
                0 <= i2 < i && 0 <= j < lines@[i2].routes@.len() ==> #[trigger] lines@[i2].routes@[j].output_id@
                    != id@,
        decreases lines@.len() - i,
    {
        let mut j: usize = 0;
        while j < lines[i].routes.len()
            invariant
                i < lines@.len(),
                j <= lines@[i as int].routes@.len(),
                forall|i2: int, j2: int|
                    0 <= i2 < i && 0 <= j2 < lines@[i2].routes@.len() ==> #[trigger] lines@[i2].routes@[j2].output_id@
                        != id@,
                forall|j2: int| 0 <= j2 < j ==> #[trigger] lines@[i as int].routes@[j2].output_id@ != id@,
            decreases lines@[i as int].routes@.len() - j,
        {
            if str_eq(lines[i].routes[j].output_id.as_str(), id) {
                assert(lines@[i as int].routes@[j as int].output_id@ == id@);
                return true;
            }
            j += 1;
        }
        i += 1;
    }
    false
}

/// Drops the output buses no route targets (buses are created per device
/// on demand, so an unused one is garbage).
pub fn prune_unused_buses(cfg: &mut AppConfig)
    ensures
        final(cfg).outputs@ == old(cfg).outputs@.filter(bus_in_use(old(cfg).lines@)),
        same_but_outputs(*old(cfg), *final(cfg)),
{
    let ghost orig = cfg.outputs@;
    let ghost p = bus_in_use(cfg.lines@);
    let ghost mut k: int = 0;
    let mut i: usize = 0;
    proof {
        assert(cfg.outputs@.take(0) =~= orig.take(0).filter(p)) by {
            reveal(Seq::filter);
        }
        assert(cfg.outputs@.skip(0) =~= orig.skip(0));
    }
    while i < cfg.outputs.len()
        invariant
            same_but_outputs(*old(cfg), *cfg),
            orig == old(cfg).outputs@,
            p == bus_in_use(cfg.lines@),
            0 <= k <= orig.len(),
            i <= cfg.outputs@.len(),
            cfg.outputs@.take(i as int) == orig.take(k).filter(p),
            cfg.outputs@.skip(i as int) == orig.skip(k),
        decreases cfg.outputs@.len() - i,
    {
        let ghost cur = cfg.outputs@;
        assert(cur.skip(i as int).len() == cur.len() - i);
        assert(orig.skip(k).len() == orig.len() - k);
        assert(cur[i as int] == cur.skip(i as int)[0]);
        assert(orig[k] == orig.skip(k)[0]);
        proof {
            lemma_filter_take_step(orig, p, k);
        }
        if is_routed(&cfg.lines, cfg.outputs[i].id.as_str()) {
            proof {
                assert(cfg.outputs@.take(i + 1) =~= cur.take(i as int).push(cur[i as int]));
                assert forall|t: int| 0 <= t < orig.skip(k + 1).len() implies #[trigger] cfg.outputs@.skip(i + 1)[t] == orig.skip(k + 1)[t] by {
                    assert(cur.skip(i as int)[t + 1] == orig.skip(k)[t + 1]);
                }
                assert(cfg.outputs@.skip(i + 1) =~= orig.skip(k + 1));
            }
            i += 1;
        } else {
            cfg.outputs.remove(i);
            proof {
                assert(cfg.outputs@.take(i as int) =~= cur.take(i as int));
                assert forall|t: int| 0 <= t < orig.skip(k + 1).len() implies #[trigger] cfg.outputs@.skip(i as int)[t] == orig.skip(k + 1)[t] by {
                    assert(cur.skip(i as int)[t + 1] == orig.skip(k)[t + 1]);
                }
                assert(cfg.outputs@.skip(i as int) =~= orig.skip(k + 1));
            }
        }
        proof {
            k = k + 1;
        }
    }
    proof {
        assert(orig.skip(k).len() == 0);
        assert(orig.take(k) =~= orig);
        assert(cfg.outputs@.take(i as int) =~= cfg.outputs@);
    }
}

/// After pruning, every bus is in use.
pub proof fn lemma_pruned_buses_in_use(old_cfg: AppConfig, new_cfg: AppConfig)
    requires
        new_cfg.outputs@ == old_cfg.outputs@.filter(bus_in_use(old_cfg.lines@)),
        new_cfg.lines == old_cfg.lines,
    ensures
        forall|k: int| 0 <= k < new_cfg.outputs@.len() ==> routed(new_cfg.lines@, #[trigger] new_cfg.outputs@[k].id@),
{
    lemma_filter_members(old_cfg.outputs@, bus_in_use(old_cfg.lines@));
    assert forall|k: int| 0 <= k < new_cfg.outputs@.len() implies routed(new_cfg.lines@, #[trigger] new_cfg.outputs@[k].id@) by {
        assert(bus_in_use(old_cfg.lines@)(new_cfg.outputs@[k]));
    }
}

/// Pruning is idempotent: pruning an already pruned configuration changes
/// nothing.
pub proof fn lemma_prune_idempotent(c0: AppConfig, c1: AppConfig, c2: AppConfig)
    requires
        c1.outputs@ == c0.outputs@.filter(bus_in_use(c0.lines@)),
        same_but_outputs(c0, c1),
        c2.outputs@ == c1.outputs@.filter(bus_in_use(c1.lines@)),
        same_but_outputs(c1, c2),
    ensures
        c2.outputs@ == c1.outputs@,
        same_but_outputs(c1, c2),
{
    lemma_filter_idempotent(c0.outputs@, bus_in_use(c0.lines@));
}

/// `o` is a freshly created bus for `device` with id `id`.
pub open spec fn new_bus_ok(o: OutputConfig, id: Seq<char>, device: Seq<char>) -> bool {
    &&& o.id@ == id
    &&& o.name@ == short_device_name_spec(device)
    &&& o.device@ == device
    &&& o.gain == UNITY_GAIN
    &&& !o.muted
}

/// The bus id that `device` resolves to: its first bus, or `fresh`.
pub open spec fn bus_id_for(outputs: Seq<OutputConfig>, device: Seq<char>, fresh: Seq<char>) -> Seq<char> {
    match first_match(outputs, output_has_device(device)) {
        Some(i) => outputs[i].id@,
        None => fresh,
    }
}

/// Outputs after resolving `device`: unchanged when a bus exists, else one
/// new bus appended.
pub open spec fn outputs_after_resolve(
    old_outputs: Seq<OutputConfig>,
    device: Seq<char>,
    fresh: Seq<char>,
    new_outputs: Seq<OutputConfig>,
) -> bool {
    match first_match(old_outputs, output_has_device(device)) {
        Some(_) => new_outputs == old_outputs,
        None => new_outputs.len() == old_outputs.len() + 1 && new_outputs.drop_last() == old_outputs
            && new_bus_ok(new_outputs.last(), fresh, device),
    }
}

/// Finds the bus bound to `device`, or creates one with id `fresh_id`.
pub fn find_or_create_bus(cfg: &mut AppConfig, device: &str, fresh_id: String) -> (r: String)
    ensures
        r@ == bus_id_for(old(cfg).outputs@, device@, fresh_id@),
        outputs_after_resolve(old(cfg).outputs@, device@, fresh_id@, final(cfg).outputs@),
        same_but_outputs(*old(cfg), *final(cfg)),
{
    let found = find_output_by_device(&cfg.outputs, device);
    proof {
        lemma_first_match(cfg.outputs@, output_has_device(device@));
    }
    match found {
        Some(i) => cfg.outputs[i].id.clone(),
        None => {
            let name = short_device_name(device);
            let id = fresh_id.clone();
            cfg.outputs.push(
                OutputConfig {
                    id: fresh_id,
                    name,
                    device: String::from_str(device),
                    gain: UNITY_GAIN,
                    muted: false,
                },
            );
            proof {
                assert(cfg.outputs@.drop_last() =~= old(cfg).outputs@);
            }
            id
        },
    }
}

/// Resolving a device twice yields the same bus and creates nothing the
/// second time.
pub proof fn lemma_resolve_stable(
    o0: Seq<OutputConfig>,
    o1: Seq<OutputConfig>,
    device: Seq<char>,
    f1: Seq<char>,
    f2: Seq<char>,
)
    requires
        outputs_after_resolve(o0, device, f1, o1),
    ensures
        bus_id_for(o1, device, f2) == bus_id_for(o0, device, f1),
        first_match(o1, output_has_device(device)) is Some,
{
    lemma_first_match(o0, output_has_device(device));
    if first_match(o0, output_has_device(device)) is None {
        assert(o1 =~= o0.push(o1.last()));
        lemma_first_match_push(o0, output_has_device(device), o1.last());
    }
}

/// The line has a route to bus `id`.
pub open spec fn line_routes_to(l: LineConfig, id: Seq<char>) -> bool {
    exists|j: int| 0 <= j < l.routes@.len() && #[trigger] l.routes@[j].output_id@ == id
}

/// `b` is `a` with only its routes replaced.
pub open spec fn same_line_but_routes(a: LineConfig, b: LineConfig) -> bool {
    a == LineConfig { routes: a.routes, ..b }
}

/// The outcome of the streamer mode on `old`: every line gains a route at
/// unity gain to the bus of `device`, unless it already has one.
pub open spec fn streamer_post(old: AppConfig, device: Seq<char>, fresh: Seq<char>, new: AppConfig) -> bool {
    let bus = bus_id_for(old.outputs@, device, fresh);
    &&& outputs_after_resolve(old.outputs@, device, fresh, new.outputs@)
    &&& same_but_topology(old, new)
    &&& new.lines@.len() == old.lines@.len()
    &&& forall|i: int|
        0 <= i < old.lines@.len() ==> if line_routes_to(old.lines@[i], bus) {
            #[trigger] new.lines@[i] == old.lines@[i]
        } else {
            same_line_but_routes(old.lines@[i], new.lines@[i]) && new.lines@[i].routes@.len()
                == old.lines@[i].routes@.len() + 1 && new.lines@[i].routes@.drop_last()
                == old.lines@[i].routes@ && new.lines@[i].routes@.last().output_id@ == bus
                && new.lines@[i].routes@.last().gain == UNITY_GAIN
        }
}

/// Streamer mode: sends every line to `device` as well (one click to feed a
/// dedicated stream output), on top of each line's own outputs.
pub fn enable_streamer_mode(cfg: &mut AppConfig, device: &str, fresh_id: String)
    ensures
        streamer_post(*old(cfg), device@, fresh_id@, *final(cfg)),
{
    let ghost f = fresh_id@;
    let bus = find_or_create_bus(cfg, device, fresh_id);
    let ghost mid = *cfg;
    let mut i: usize = 0;
    while i < cfg.lines.len()
        invariant
            bus@ == bus_id_for(old(cfg).outputs@, device@, f),
            outputs_after_resolve(old(cfg).outputs@, device@, f, cfg.outputs@),
            same_but_topology(*old(cfg), *cfg),
            mid.lines == old(cfg).lines,
            i <= cfg.lines@.len(),
            cfg.lines@.len() == old(cfg).lines@.len(),
            forall|i2: int| i <= i2 < cfg.lines@.len() ==> #[trigger] cfg.lines@[i2] == old(cfg).lines@[i2],
            forall|i2: int|
                0 <= i2 < i ==> if line_routes_to(old(cfg).lines@[i2], bus@) {
                    #[trigger] cfg.lines@[i2] == old(cfg).lines@[i2]
                } else {
                    same_line_but_routes(old(cfg).lines@[i2], cfg.lines@[i2])
                        && cfg.lines@[i2].routes@.len() == old(cfg).lines@[i2].routes@.len() + 1
                        && cfg.lines@[i2].routes@.drop_last() == old(cfg).lines@[i2].routes@
                        && cfg.lines@[i2].routes@.last().output_id@ == bus@
                        && cfg.lines@[i2].routes@.last().gain == UNITY_GAIN
                },
        decreases cfg.lines@.len() - i,
    {
        let found = find_route(&cfg.lines[i].routes, bus.as_str());
        proof {
            lemma_first_match(cfg.lines@[i as int].routes@, route_to(bus@));
        }
        if found.is_none() {
            let ghost before = cfg.lines@;
            cfg.lines[i].routes.push(Route { output_id: bus.clone(), gain: UNITY_GAIN });
            proof {
                assert(cfg.lines@[i as int].routes@.drop_last() =~= before[i as int].routes@);
                assert(!line_routes_to(old(cfg).lines@[i as int], bus@));
                assert forall|i2: int| 0 <= i2 < cfg.lines@.len() && i2 != i implies #[trigger] cfg.lines@[i2] == before[i2] by {}
            }
        } else {
            proof {
                let j = found.unwrap() as int;
                assert(cfg.lines@[i as int].routes@[j].output_id@ == bus@);
            }
        }
        i += 1;
    }
}

/// Streamer mode is idempotent: enabling it a second time for the same
/// device changes nothing, whatever fresh id is offered.
pub proof fn lemma_streamer_mode_idempotent(
    c0: AppConfig,
    c1: AppConfig,
    c2: AppConfig,
    device: Seq<char>,
    f1: Seq<char>,
    f2: Seq<char>,
)
    requires
        streamer_post(c0, device, f1, c1),
        streamer_post(c1, device, f2, c2),
    ensures
        c2.outputs@ == c1.outputs@,
        c2.lines@ == c1.lines@,
        same_but_topology(c1, c2),
{
    lemma_resolve_stable(c0.outputs@, c1.outputs@, device, f1, f2);
    let bus = bus_id_for(c0.outputs@, device, f1);
    assert forall|i: int| 0 <= i < c1.lines@.len() implies line_routes_to(c1.lines@[i], bus) by {
        if line_routes_to(c0.lines@[i], bus) {
            assert(c1.lines@[i] == c0.lines@[i]);
        } else {
            let n = c1.lines@[i].routes@.len() - 1;
            assert(c1.lines@[i].routes@[n] == c1.lines@[i].routes@.last());
        }
    }
    assert(c2.lines@ =~= c1.lines@);
}

} // verus!
