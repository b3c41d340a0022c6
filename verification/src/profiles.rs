//! Mix profiles: saving a snapshot of the mix, deleting and re-triggering
//! profiles.

use vstd::prelude::*;
use crate::buses::{copy_bands, copy_rules};
use crate::model::{
    find_output_by_id, output_has_device, output_has_id, AppConfig, LineConfig, LineSnapshot, OutputConfig,
    Profile, Route,
};
use crate::seqs::{first_match, lemma_first_match};
use crate::text::{str_eq, trim, unicode_trim};

verus! {

/// Devices a line's routes play to, in route order: the device of each
/// route's bus (the first bus with its id), skipping missing buses and
/// unassigned (empty) devices.
pub open spec fn route_devices(outputs: Seq<OutputConfig>, routes: Seq<Route>) -> Seq<Seq<char>>
    decreases routes.len(),
{
    if routes.len() == 0 {
        Seq::empty()
    } else {
        let prev = route_devices(outputs, routes.drop_last());
        match first_match(outputs, output_has_id(routes.last().output_id@)) {
            Some(o) => if outputs[o].device@.len() > 0 {
                prev.push(outputs[o].device@)
            } else {
                prev
            },
            None => prev,
        }
    }
}

/// Views of a list of strings.
pub open spec fn views(v: Seq<String>) -> Seq<Seq<char>> {
    v.map_values(|s: String| s@)
}

/// `s` captures line `l` (whose buses are `outputs`).
pub open spec fn snapshot_of(outputs: Seq<OutputConfig>, l: LineConfig, s: LineSnapshot) -> bool {
    &&& s.line_id@ == l.id@
    &&& s.gain == l.gain
    &&& s.muted == l.muted
    &&& s.eq_bands@ == l.eq_bands@
    &&& views(s.output_devices@) == route_devices(outputs, l.routes@)
}

/// The devices the routes of a line play to.
pub fn line_route_devices(outputs: &Vec<OutputConfig>, routes: &Vec<Route>) -> (r: Vec<String>)
    ensures
        views(r@) == route_devices(outputs@, routes@),
{
    let mut r: Vec<String> = Vec::new();
    let mut k: usize = 0;
    while k < routes.len()
        invariant
            k <= routes@.len(),
            views(r@) == route_devices(outputs@, routes@.take(k as int)),
        decreases routes@.len() - k,
    {
        let ghost pre = routes@.take(k + 1);
        assert(pre.drop_last() =~= routes@.take(k as int));
        assert(pre.last() == routes@[k as int]);
        let found = find_output_by_id(outputs, routes[k].output_id.as_str());
        proof {
            lemma_first_match(outputs@, output_has_id(routes@[k as int].output_id@));
        }
        if let Some(o) = found {
            if outputs[o].device.unicode_len() > 0 {
                let ghost before = r@;
                r.push(outputs[o].device.clone());
                assert(views(r@) =~= views(before).push(outputs@[o as int].device@));
            }
        }
        k += 1;
    }
    assert(routes@.take(k as int) =~= routes@);
    r
}

/// Captures one line.
pub fn snapshot_line(outputs: &Vec<OutputConfig>, l: &LineConfig) -> (s: LineSnapshot)
    ensures
        snapshot_of(outputs@, *l, s),
{
    LineSnapshot {
        line_id: l.id.clone(),
        gain: l.gain,
        muted: l.muted,
        eq_bands: copy_bands(&l.eq_bands),
        output_devices: line_route_devices(outputs, &l.routes),
    }
}

/// A trigger that is blank once trimmed counts as no trigger.
pub open spec fn trigger_spec(t: Option<String>) -> Option<String> {
    match t {
        Some(s) => if unicode_trim(s@).len() > 0 {
            Some(s)
        } else {
            None
        },
        None => None,
    }
}

/// Drops a blank trigger.
pub fn normalize_trigger(t: Option<String>) -> (r: Option<String>)
    ensures
        r == trigger_spec(t),
{
    match t {
        Some(s) => {
            let trimmed = trim(s.as_str());
            if trimmed.unicode_len() > 0 {
                Some(s)
            } else {
                None
            }
        },
        None => None,
    }
}

/// `p` is the profile saved from `cfg` under `name`, id `id` and trigger
/// `trigger`.
pub open spec fn saved_profile(cfg: AppConfig, name: Seq<char>, trigger: Option<String>, id: Seq<char>, p: Profile) -> bool {
    &&& p.id@ == id
    &&& p.name@ == unicode_trim(name)
    &&& p.trigger_exe == trigger_spec(trigger)
    &&& p.lines@.len() == cfg.lines@.len()
    &&& forall|i: int| 0 <= i < cfg.lines@.len() ==> snapshot_of(cfg.outputs@, cfg.lines@[i], #[trigger] p.lines@[i])
    &&& p.ducking@ == cfg.ducking@
    &&& p.master_gain == cfg.master_gain
}

/// Saves the current mix as a new profile (id `fresh_id`), appended to the
/// profile list.
pub fn save_profile(cfg: &mut AppConfig, name: &str, trigger_exe: Option<String>, fresh_id: String)
    ensures
        final(cfg).profiles@.len() == old(cfg).profiles@.len() + 1,
        final(cfg).profiles@.drop_last() == old(cfg).profiles@,
        saved_profile(*old(cfg), name@, trigger_exe, fresh_id@, final(cfg).profiles@.last()),
        *final(cfg) == (AppConfig { profiles: final(cfg).profiles, ..*old(cfg) }),
{
    let mut lines: Vec<LineSnapshot> = Vec::new();
    let mut i: usize = 0;
    while i < cfg.lines.len()
        invariant
            i <= cfg.lines@.len(),
            lines@.len() == i,
            forall|k: int| 0 <= k < i ==> snapshot_of(cfg.outputs@, cfg.lines@[k], #[trigger] lines@[k]),
        decreases cfg.lines@.len() - i,
    {
        lines.push(snapshot_line(&cfg.outputs, &cfg.lines[i]));
        i += 1;
    }
    let p = Profile {
        id: fresh_id,
        name: trim(name),
        trigger_exe: normalize_trigger(trigger_exe),
        lines,
        ducking: copy_rules(&cfg.ducking),
        master_gain: cfg.master_gain,
    };
    cfg.profiles.push(p);
    assert(cfg.profiles@.drop_last() =~= old(cfg).profiles@);
}

/// The profile has this id.
pub open spec fn profile_has_id(id: Seq<char>) -> spec_fn(Profile) -> bool {
    |p: Profile| p.id@ == id
}

/// The profile does not have this id.
pub open spec fn profile_not_id(id: Seq<char>) -> spec_fn(Profile) -> bool {
    |p: Profile| p.id@ != id
}

/// Deletes every profile with this id.
pub fn delete_profile(cfg: &mut AppConfig, id: &str)
    ensures
        final(cfg).profiles@ == old(cfg).profiles@.filter(profile_not_id(id@)),
        *final(cfg) == (AppConfig { profiles: final(cfg).profiles, ..*old(cfg) }),
{
    let mut keep: Vec<bool> = Vec::new();
    let mut i: usize = 0;
    while i < cfg.profiles.len()
        invariant
            i <= cfg.profiles@.len(),
            keep@.len() == i,
            forall|k: int| 0 <= k < i ==> keep@[k] == profile_not_id(id@)(#[trigger] cfg.profiles@[k]),
        decreases cfg.profiles@.len() - i,
    {
        keep.push(!str_eq(cfg.profiles[i].id.as_str(), id));
        i += 1;
    }
    crate::seqs::retain_flags(&mut cfg.profiles, &keep, Ghost(profile_not_id(id@)));
}

/// First profile with this id.
pub fn find_profile(profiles: &Vec<Profile>, id: &str) -> (r: Option<usize>)
    ensures
        crate::model::idx(r) == first_match(profiles@, profile_has_id(id@)),
{
    let mut i: usize = 0;
    while i < profiles.len()
        invariant
            i <= profiles@.len(),
            first_match(profiles@, profile_has_id(id@)) == crate::seqs::first_match_from(
                profiles@,
                profile_has_id(id@),
                i as int,
            ),
        decreases profiles@.len() - i,
    {
        if str_eq(profiles[i].id.as_str(), id) {
            return Some(i);
        }
        i += 1;
    }
    None
}

/// Sets (or clears, when blank) the auto-apply trigger of profile `id`.
pub fn set_profile_trigger(cfg: &mut AppConfig, id: &str, trigger_exe: Option<String>)
    ensures
        *final(cfg) == (AppConfig { profiles: final(cfg).profiles, ..*old(cfg) }),
        match first_match(old(cfg).profiles@, profile_has_id(id@)) {
            Some(i) => final(cfg).profiles@ == old(cfg).profiles@.update(
                i,
                Profile { trigger_exe: trigger_spec(trigger_exe), ..old(cfg).profiles@[i] },
            ),
            None => final(cfg).profiles@ == old(cfg).profiles@,
        },
{
    let found = find_profile(&cfg.profiles, id);
    proof {
        lemma_first_match(cfg.profiles@, profile_has_id(id@));
    }
    if let Some(i) = found {
        cfg.profiles[i].trigger_exe = normalize_trigger(trigger_exe);
        assert(cfg.profiles@ =~= old(cfg).profiles@.update(
            i as int,
            Profile { trigger_exe: trigger_spec(trigger_exe), ..old(cfg).profiles@[i as int] },
        ));
    }
}

} // verus!

verus! {

/// No two lines share an id.
pub open spec fn line_ids_unique(lines: Seq<LineConfig>) -> bool {
    forall|i: int, j: int| 0 <= i < lines.len() && 0 <= j < lines.len() && i != j ==> #[trigger] lines[i].id@ != #[trigger] lines[j].id@
}

/// Every ducking rule names two distinct existing lines.
pub open spec fn rules_name_lines(cfg: AppConfig) -> bool {
    forall|k: int| 0 <= k < cfg.ducking@.len() ==> crate::edits::rule_valid(cfg.lines@)(#[trigger] cfg.ducking@[k])
}

proof fn lemma_restore_chain(
    c0: AppConfig,
    p: Profile,
    fresh: Seq<Vec<String>>,
    chain: Seq<AppConfig>,
    t: int,
)
    requires
        line_ids_unique(c0.lines@),
        p.lines@.len() == c0.lines@.len(),
        forall|i: int| 0 <= i < c0.lines@.len() ==> snapshot_of(c0.outputs@, c0.lines@[i], #[trigger] p.lines@[i]),
        chain.len() == p.lines@.len() + 1,
        chain[0].lines == c0.lines,
        chain[0].outputs == c0.outputs,
        forall|s: int| 0 <= s < p.lines@.len() ==> crate::buses::snapshot_post(#[trigger] chain[s], p.lines@[s], fresh[s]@, chain[s + 1]),
        0 <= t <= p.lines@.len(),
    ensures
        chain[t].lines@.len() == c0.lines@.len(),
        routes_restorable(c0) ==> chain[t].outputs@ == c0.outputs@,
        routes_restorable(c0) ==> forall|i: int|
            0 <= i < t ==> route_views((#[trigger] chain[t].lines@[i]).routes@) == route_views(c0.lines@[i].routes@),
        forall|i: int| 0 <= i < c0.lines@.len() ==> (#[trigger] chain[t].lines@[i]).id@ == c0.lines@[i].id@,
        forall|i: int| 0 <= i < t ==> {
            &&& (#[trigger] chain[t].lines@[i]).gain == c0.lines@[i].gain
            &&& chain[t].lines@[i].muted == c0.lines@[i].muted
            &&& chain[t].lines@[i].eq_bands@ == c0.lines@[i].eq_bands@
            &&& chain[t].lines@[i] == LineConfig {
                gain: chain[t].lines@[i].gain,
                muted: chain[t].lines@[i].muted,
                eq_bands: chain[t].lines@[i].eq_bands,
                routes: chain[t].lines@[i].routes,
                ..c0.lines@[i]
            }
        },
        forall|i: int| t <= i < c0.lines@.len() ==> #[trigger] chain[t].lines@[i] == c0.lines@[i],
    decreases t,
{
    if t > 0 {
        let s = t - 1;
        lemma_restore_chain(c0, p, fresh, chain, s);
        let cs = chain[s];
        let snap = p.lines@[s];
        reveal(crate::buses::snapshot_post);
        assert(crate::buses::snapshot_post(cs, snap, fresh[s]@, chain[t]));
        assert(cs.lines@[s] == c0.lines@[s]);
        assert forall|j: int| 0 <= j < s implies !crate::model::line_has_id(snap.line_id@)(#[trigger] cs.lines@[j]) by {
            assert(cs.lines@[j].id@ == c0.lines@[j].id@);
        }
        crate::seqs::lemma_first_match_unique(cs.lines@, crate::model::line_has_id(snap.line_id@), s);
        if routes_restorable(c0) {
            let d = crate::buses::named_devices(snap.output_devices@);
            let prior = crate::buses::prior_routes(cs.lines@, snap.line_id@);
            assert(prior == c0.lines@[s].routes@);
            let (created, routes) = choose|created: Seq<int>, routes: Seq<Route>|
                {
                    &&& crate::buses::buses_created(cs.outputs@, d, fresh[s]@, chain[t].outputs@, created)
                    &&& crate::buses::routes_resolved(cs.outputs@, prior, d, chain[t].outputs@, routes)
                    &&& match first_match(cs.lines@, crate::model::line_has_id(snap.line_id@)) {
                        Some(i) => chain[t].lines@ == cs.lines@.update(
                            i,
                            LineConfig {
                                gain: snap.gain,
                                muted: snap.muted,
                                eq_bands: chain[t].lines@[i].eq_bands,
                                routes: chain[t].lines@[i].routes,
                                ..cs.lines@[i]
                            },
                        ) && chain[t].lines@[i].eq_bands@ == snap.eq_bands@ && chain[t].lines@[i].routes@
                            == crate::buses::snapshot_routes(cs.outputs@, prior, routes),
                        None => chain[t].lines@ == cs.lines@,
                    }
                    &&& crate::topology::same_but_topology(cs, chain[t])
                };
            assert(snapshot_of(c0.outputs@, c0.lines@[s], snap));
            assert(line_routes_restorable(c0.outputs@, c0.lines@[s].routes@));
            lemma_line_routes_restored(c0, c0.lines@[s].routes@, snap.output_devices@, fresh[s]@, chain[t].outputs@, created, routes);
            assert forall|i: int| 0 <= i < t implies route_views((#[trigger] chain[t].lines@[i]).routes@) == route_views(
                c0.lines@[i].routes@,
            ) by {
                if i < s {
                    assert(chain[t].lines@[i] == cs.lines@[i]);
                }
            }
        }
    }
}

/// Applying a profile right after saving it restores every line's gain,
/// mute and EQ curve, the ducking rules and the master gain — provided
/// line ids are unique and every ducking rule names two distinct existing
/// lines (which the sanitising pass guarantees) — and every line's routes
/// when they are restorable (see [`routes_restorable`]), the buses then
/// being those some line uses: in particular a line routed only to an
/// unassigned bus keeps that route, and that bus stays.
pub proof fn lemma_profile_round_trip(
    c0: AppConfig,
    name: Seq<char>,
    trigger: Option<String>,
    id: Seq<char>,
    p: Profile,
    c1: AppConfig,
    fresh: Seq<Vec<String>>,
    c2: AppConfig,
)
    requires
        line_ids_unique(c0.lines@),
        rules_name_lines(c0),
        saved_profile(c0, name, trigger, id, p),
        c1 == (AppConfig { profiles: c1.profiles, ..c0 }),
        crate::buses::profile_post(c1, p, fresh, c2),
    ensures
        c2.lines@.len() == c0.lines@.len(),
        forall|i: int| 0 <= i < c0.lines@.len() ==> {
            &&& (#[trigger] c2.lines@[i]).id@ == c0.lines@[i].id@
            &&& c2.lines@[i].gain == c0.lines@[i].gain
            &&& c2.lines@[i].muted == c0.lines@[i].muted
            &&& c2.lines@[i].eq_bands@ == c0.lines@[i].eq_bands@
        },
        routes_restorable(c0) ==> forall|i: int|
            0 <= i < c0.lines@.len() ==> route_views((#[trigger] c2.lines@[i]).routes@) == route_views(c0.lines@[i].routes@),
        routes_restorable(c0) ==> c2.outputs@ == c0.outputs@.filter(crate::topology::bus_in_use(c0.lines@)),
        c2.ducking@ == c0.ducking@,
        c2.master_gain == c0.master_gain,
{
    let n = p.lines@.len() as int;
    let chain = choose|chain: Seq<AppConfig>| {
        &&& chain.len() == n + 1
        &&& chain[0] == c1
        &&& forall|s: int| 0 <= s < n ==> crate::buses::snapshot_post(#[trigger] chain[s], p.lines@[s], fresh[s]@, chain[s + 1])
        &&& c2.lines == chain[n].lines
        &&& c2.ducking@ == p.ducking@.filter(crate::edits::rule_valid(chain[n].lines@))
        &&& c2.master_gain == p.master_gain
        &&& c2.outputs@ == chain[n].outputs@.filter(crate::topology::bus_in_use(c2.lines@))
        &&& c2.eq_presets == c1.eq_presets
        &&& c2.profiles == c1.profiles
        &&& c2.schema_version == c1.schema_version
    };
    lemma_restore_chain(c0, p, fresh, chain, n);
    let lines_n = chain[n].lines@;
    assert forall|k: int| 0 <= k < p.ducking@.len() implies crate::edits::rule_valid(lines_n)(#[trigger] p.ducking@[k]) by {
        let d = p.ducking@[k];
        assert(crate::edits::rule_valid(c0.lines@)(c0.ducking@[k]));
        let a = choose|a: int| 0 <= a < c0.lines@.len() && #[trigger] c0.lines@[a].id@ == d.source_line@;
        let b = choose|b: int| 0 <= b < c0.lines@.len() && #[trigger] c0.lines@[b].id@ == d.target_line@;
        assert(lines_n[a].id@ == c0.lines@[a].id@);
        assert(lines_n[b].id@ == c0.lines@[b].id@);
    }
    crate::seqs::lemma_filter_all_kept(p.ducking@, crate::edits::rule_valid(lines_n));
    if routes_restorable(c0) {
        assert forall|x: Seq<char>| crate::topology::routed(c2.lines@, x) == crate::topology::routed(c0.lines@, x) by {
            if crate::topology::routed(c2.lines@, x) {
                let (i, j) = choose|i: int, j: int|
                    0 <= i < c2.lines@.len() && 0 <= j < c2.lines@[i].routes@.len() && #[trigger] c2.lines@[i].routes@[j].output_id@ == x;
                assert(i < c0.lines@.len());
                assert(route_views(c2.lines@[i].routes@) == route_views(c0.lines@[i].routes@));
                assert(route_views(c2.lines@[i].routes@).len() == c2.lines@[i].routes@.len());
                assert(route_views(c0.lines@[i].routes@).len() == c0.lines@[i].routes@.len());
                assert(route_views(c2.lines@[i].routes@)[j].0 == x);
                assert(c0.lines@[i].routes@[j].output_id@ == route_views(c0.lines@[i].routes@)[j].0);
            }
            if crate::topology::routed(c0.lines@, x) {
                let (i, j) = choose|i: int, j: int|
                    0 <= i < c0.lines@.len() && 0 <= j < c0.lines@[i].routes@.len() && #[trigger] c0.lines@[i].routes@[j].output_id@ == x;
                assert(route_views(c2.lines@[i].routes@) == route_views(c0.lines@[i].routes@));
                assert(route_views(c2.lines@[i].routes@).len() == c2.lines@[i].routes@.len());
                assert(route_views(c0.lines@[i].routes@).len() == c0.lines@[i].routes@.len());
                assert(route_views(c0.lines@[i].routes@)[j].0 == x);
                assert(c2.lines@[i].routes@[j].output_id@ == route_views(c2.lines@[i].routes@)[j].0);
            }
        }
        assert(crate::topology::bus_in_use(c2.lines@) =~= crate::topology::bus_in_use(c0.lines@));
    }
}

/// The first-run layout, its ids being distinct, meets every condition of
/// [`lemma_profile_round_trip`]: a profile saved from it gives each line
/// back its route to the unassigned bus, and no bus is dropped.
pub proof fn lemma_default_config_round_trip(
    c: AppConfig,
    out_id: Seq<char>,
    game: Seq<char>,
    chat: Seq<char>,
    media: Seq<char>,
    mic: Seq<char>,
)
    requires
        crate::setup::default_config_spec(c, out_id, game, chat, media, mic),
        game != chat,
        game != media,
        game != mic,
        chat != media,
        chat != mic,
        media != mic,
    ensures
        line_ids_unique(c.lines@),
        rules_name_lines(c),
        routes_restorable(c),
        c.outputs@.filter(crate::topology::bus_in_use(c.lines@)) == c.outputs@,
{
    assert(c.lines@[0].id@ == game);
    assert(c.lines@[1].id@ == chat);
    assert(c.lines@[2].id@ == media);
    assert(c.lines@[3].id@ == mic);
    assert(crate::edits::has_line(c.lines@, game));
    assert(crate::edits::has_line(c.lines@, chat));
    assert(crate::sanitize::has_bus_id(c.outputs@, out_id));
    assert(output_has_id(out_id)(c.outputs@[0]));
    lemma_first_match(c.outputs@, output_has_id(out_id));
    assert forall|i: int| 0 <= i < c.lines@.len() implies line_routes_restorable(c.outputs@, (#[trigger] c.lines@[i]).routes@) by {
        let r = c.lines@[i].routes@;
        assert(r.len() == 1);
        assert(crate::sanitize::has_bus_id(c.outputs@, r[0].output_id@));
    }
    assert(c.lines@[0].routes@[0].output_id@ == out_id);
    assert(crate::topology::routed(c.lines@, c.outputs@[0].id@));
    crate::seqs::lemma_filter_all_kept(c.outputs@, crate::topology::bus_in_use(c.lines@));
}

/// Index of the profile the foreground application should switch to: the
/// first whose trigger names `foreground_exe` (ASCII case ignored), unless
/// it is already the active one.
pub open spec fn triggered_profile_spec(profiles: Seq<Profile>, foreground_exe: Seq<char>, active: Option<Seq<char>>) -> Option<int> {
    match first_match(profiles, profile_triggered_by(foreground_exe)) {
        Some(i) => if active == Some(profiles[i].id@) {
            None
        } else {
            Some(i)
        },
        None => None,
    }
}

/// The profile's trigger names this executable (ASCII case ignored).
pub open spec fn profile_triggered_by(exe: Seq<char>) -> spec_fn(Profile) -> bool {
    |p: Profile| match p.trigger_exe {
        Some(t) => crate::text::eq_ignore_ascii_case_spec(t@, exe),
        None => false,
    }
}

/// Which profile (if any) the auto-switch should apply now.
pub fn triggered_profile(profiles: &Vec<Profile>, foreground_exe: &str, active: Option<&str>) -> (r: Option<usize>)
    ensures
        crate::model::idx(r) == triggered_profile_spec(
            profiles@,
            foreground_exe@,
            match active {
                Some(a) => Some(a@),
                None => None,
            },
        ),
{
    let mut i: usize = 0;
    while i < profiles.len()
        invariant
            i <= profiles@.len(),
            first_match(profiles@, profile_triggered_by(foreground_exe@)) == crate::seqs::first_match_from(
                profiles@,
                profile_triggered_by(foreground_exe@),
                i as int,
            ),
        decreases profiles@.len() - i,
    {
        let hit = match &profiles[i].trigger_exe {
            Some(t) => crate::text::eq_ignore_ascii_case(t.as_str(), foreground_exe),
            None => false,
        };
        if hit {
            return match active {
                Some(a) => if str_eq(a, profiles[i].id.as_str()) {
                    None
                } else {
                    Some(i)
                },
                None => Some(i),
            };
        }
        i += 1;
    }
    None
}

} // verus!

verus! {

/// A route as plain values: its bus id and gain.
pub open spec fn route_views(routes: Seq<Route>) -> Seq<(Seq<char>, u32)> {
    routes.map_values(|r: Route| (r.output_id@, r.gain))
}

/// The route goes to a bus with a device.
pub open spec fn assigned_route(outputs: Seq<OutputConfig>) -> spec_fn(Route) -> bool {
    |r: Route| !crate::buses::unassigned_route(outputs)(r)
}

/// The device of the bus a route goes to (the first bus with its id).
pub open spec fn route_device(outputs: Seq<OutputConfig>, r: Route) -> Seq<char> {
    outputs[first_match(outputs, output_has_id(r.output_id@))->0].device@
}

/// Every route of `routes` goes to an existing bus, no two to the same one,
/// and the routes to unassigned buses come first.
pub open spec fn line_routes_restorable(outputs: Seq<OutputConfig>, routes: Seq<Route>) -> bool {
    &&& forall|k: int| 0 <= k < routes.len() ==> crate::sanitize::has_bus_id(outputs, (#[trigger] routes[k]).output_id@)
    &&& forall|a: int, b: int| 0 <= a < b < routes.len() ==> (#[trigger] routes[a]).output_id@ != (#[trigger] routes[b]).output_id@
    &&& forall|a: int, b: int|
        0 <= a < b < routes.len() && assigned_route(outputs)(#[trigger] routes[a]) ==> assigned_route(outputs)(
            #[trigger] routes[b],
        )
}

/// What a configuration needs for its routes to come back from a profile:
/// bus ids and non-empty bus devices are unique, and every line's routes
/// are restorable.
pub open spec fn routes_restorable(c: AppConfig) -> bool {
    &&& forall|a: int, b: int| 0 <= a < b < c.outputs@.len() ==> (#[trigger] c.outputs@[a]).id@ != (#[trigger] c.outputs@[b]).id@
    &&& forall|a: int, b: int|
        0 <= a < c.outputs@.len() && 0 <= b < c.outputs@.len() && a != b && (#[trigger] c.outputs@[a]).device@.len() > 0
            ==> c.outputs@[a].device@ != (#[trigger] c.outputs@[b]).device@
    &&& forall|i: int| 0 <= i < c.lines@.len() ==> line_routes_restorable(c.outputs@, (#[trigger] c.lines@[i]).routes@)
}

proof fn lemma_route_devices_filter(outputs: Seq<OutputConfig>, routes: Seq<Route>)
    requires
        forall|k: int| 0 <= k < routes.len() ==> crate::sanitize::has_bus_id(outputs, (#[trigger] routes[k]).output_id@),
    ensures
        route_devices(outputs, routes) == routes.filter(assigned_route(outputs)).map_values(
            |r: Route| route_device(outputs, r),
        ),
    decreases routes.len(),
{
    reveal(Seq::filter);
    if routes.len() > 0 {
        let t = routes.drop_last();
        assert forall|k: int| 0 <= k < t.len() implies crate::sanitize::has_bus_id(outputs, (#[trigger] t[k]).output_id@) by {
            assert(t[k] == routes[k]);
        }
        lemma_route_devices_filter(outputs, t);
        let r = routes.last();
        assert(crate::sanitize::has_bus_id(outputs, routes[routes.len() - 1].output_id@));
        lemma_first_match(outputs, output_has_id(r.output_id@));
        let w = choose|w: int| 0 <= w < outputs.len() && #[trigger] outputs[w].id@ == r.output_id@;
        assert(output_has_id(r.output_id@)(outputs[w]));
        let f = |x: Route| route_device(outputs, x);
        let ft = t.filter(assigned_route(outputs));
        if assigned_route(outputs)(r) {
            assert(routes.filter(assigned_route(outputs)) == ft.push(r));
            assert(ft.push(r).map_values(f) =~= ft.map_values(f).push(f(r)));
        } else {
            assert(routes.filter(assigned_route(outputs)) == ft);
        }
    }
}

proof fn lemma_prior_gain_unique(outputs: Seq<OutputConfig>, routes: Seq<Route>, d: Seq<char>, j: int)
    requires
        0 <= j < routes.len(),
        forall|k: int| 0 <= k < routes.len() ==> crate::sanitize::has_bus_id(outputs, (#[trigger] routes[k]).output_id@),
        route_device(outputs, routes[j]) == d,
        forall|k: int| 0 <= k < routes.len() && k != j ==> route_device(outputs, #[trigger] routes[k]) != d,
    ensures
        crate::buses::prior_gain(outputs, routes, d) == Some(routes[j].gain),
    decreases routes.len(),
{
    let r = routes.last();
    let n = routes.len() - 1;
    assert(crate::sanitize::has_bus_id(outputs, routes[n].output_id@));
    lemma_first_match(outputs, output_has_id(r.output_id@));
    let w = choose|w: int| 0 <= w < outputs.len() && #[trigger] outputs[w].id@ == r.output_id@;
    assert(output_has_id(r.output_id@)(outputs[w]));
    if j < n {
        let t = routes.drop_last();
        assert(route_device(outputs, routes[n]) != d);
        assert forall|k: int| 0 <= k < t.len() implies crate::sanitize::has_bus_id(outputs, (#[trigger] t[k]).output_id@) by {
            assert(t[k] == routes[k]);
        }
        assert forall|k: int| 0 <= k < t.len() && k != j implies route_device(outputs, #[trigger] t[k]) != d by {
            assert(t[k] == routes[k]);
        }
        assert(t[j] == routes[j]);
        lemma_prior_gain_unique(outputs, t, d, j);
    }
}

/// Restoring a line from the snapshot of its own routes gives back those
/// routes and creates no bus.
pub proof fn lemma_line_routes_restored(
    c: AppConfig,
    routes: Seq<Route>,
    snap_devices: Seq<String>,
    fresh: Seq<String>,
    mid: Seq<OutputConfig>,
    created: Seq<int>,
    resolved: Seq<Route>,
)
    requires
        routes_restorable(c),
        line_routes_restorable(c.outputs@, routes),
        views(snap_devices) == route_devices(c.outputs@, routes),
        crate::buses::buses_created(c.outputs@, crate::buses::named_devices(snap_devices), fresh, mid, created),
        crate::buses::routes_resolved(c.outputs@, routes, crate::buses::named_devices(snap_devices), mid, resolved),
    ensures
        mid == c.outputs@,
        route_views(crate::buses::snapshot_routes(c.outputs@, routes, resolved)) == route_views(routes),
{
    let outputs = c.outputs@;
    let pa = assigned_route(outputs);
    let pu = crate::buses::unassigned_route(outputs);
    let f = |x: Route| route_device(outputs, x);
    // Split the routes: unassigned ones first, then assigned ones.
    lemma_first_match(routes, pa);
    let m = match first_match(routes, pa) {
        Some(i) => i,
        None => routes.len() as int,
    };
    let tt = routes.take(m);
    let aa = routes.skip(m);
    assert(routes =~= tt + aa);
    assert forall|k: int| 0 <= k < aa.len() implies pa(#[trigger] aa[k]) by {
        assert(aa[k] == routes[m + k]);
        if k > 0 {
            assert(pa(routes[m]));
        }
    }
    assert forall|k: int| 0 <= k < tt.len() implies !pa(#[trigger] tt[k]) by {
        assert(tt[k] == routes[k]);
    }
    // Bus of each route.
    assert forall|k: int| 0 <= k < routes.len() implies (#[trigger] first_match(outputs, output_has_id(routes[k].output_id@))) is Some
        && outputs[first_match(outputs, output_has_id(routes[k].output_id@))->0].id@ == routes[k].output_id@ by {
        lemma_first_match(outputs, output_has_id(routes[k].output_id@));
        assert(crate::sanitize::has_bus_id(outputs, routes[k].output_id@));
        let w = choose|w: int| 0 <= w < outputs.len() && #[trigger] outputs[w].id@ == routes[k].output_id@;
        assert(output_has_id(routes[k].output_id@)(outputs[w]));
    }
    // Filters.
    Seq::filter_distributes_over_add(tt, aa, pa);
    Seq::filter_distributes_over_add(tt, aa, pu);
    crate::seqs::lemma_filter_none(tt, pa);
    crate::seqs::lemma_filter_all_kept(aa, pa);
    assert forall|k: int| 0 <= k < tt.len() implies pu(#[trigger] tt[k]) by {
        assert(!pa(tt[k]));
    }
    crate::seqs::lemma_filter_all_kept(tt, pu);
    assert forall|k: int| 0 <= k < aa.len() implies !pu(#[trigger] aa[k]) by {
        assert(pa(aa[k]));
    }
    crate::seqs::lemma_filter_none(aa, pu);
    assert(routes.filter(pa) =~= aa);
    assert(routes.filter(pu) =~= tt);
    lemma_route_devices_filter(outputs, routes);
    let devs = aa.map_values(f);
    assert(route_devices(outputs, routes) == devs);
    // The assigned routes' buses and devices are pairwise distinct.
    assert forall|k: int| 0 <= k < aa.len() implies {
        let o = first_match(outputs, output_has_id((#[trigger] aa[k]).output_id@))->0;
        &&& 0 <= o < outputs.len()
        &&& outputs[o].id@ == aa[k].output_id@
        &&& outputs[o].device@.len() > 0
        &&& outputs[o].device@ == f(aa[k])
    } by {
        assert(aa[k] == routes[m + k]);
        lemma_first_match(outputs, output_has_id(aa[k].output_id@));
        assert(pa(aa[k]));
    }
    assert forall|a: int, b: int| 0 <= a < aa.len() && 0 <= b < aa.len() && a != b implies f(#[trigger] aa[a]) != f(
        #[trigger] aa[b],
    ) by {
        assert(aa[a] == routes[m + a]);
        assert(aa[b] == routes[m + b]);
        if a < b {
            assert(routes[m + a].output_id@ != routes[m + b].output_id@);
        } else {
            assert(routes[m + b].output_id@ != routes[m + a].output_id@);
        }
        let oa = first_match(outputs, output_has_id(aa[a].output_id@))->0;
        let ob = first_match(outputs, output_has_id(aa[b].output_id@))->0;
        assert(oa != ob);
    }
    // The snapshot's devices are already distinct and named.
    assert(snap_devices.len() == aa.len()) by {
        assert(views(snap_devices).len() == snap_devices.len());
    }
    assert forall|k: int| 0 <= k < snap_devices.len() implies (#[trigger] snap_devices[k])@ == f(aa[k]) by {
        assert(views(snap_devices)[k] == snap_devices[k]@);
        assert(devs[k] == f(aa[k]));
    }
    assert forall|k: int| 0 <= k < snap_devices.len() implies crate::buses::named(#[trigger] snap_devices[k]) by {
        assert(snap_devices[k]@ == f(aa[k]));
    }
    assert forall|a: int, b: int| 0 <= a < b < snap_devices.len() implies (#[trigger] snap_devices[a])@
        != (#[trigger] snap_devices[b])@ by {
        assert(snap_devices[a]@ == f(aa[a]));
        assert(snap_devices[b]@ == f(aa[b]));
    }
    crate::buses::lemma_named_devices_identity(snap_devices);
    let d = snap_devices;
    // Each device has exactly one bus: the one its route goes to.
    assert forall|k: int| 0 <= k < d.len() implies #[trigger] first_match(outputs, output_has_device(d[k]@)) == Some(
        first_match(outputs, output_has_id(aa[k].output_id@))->0,
    ) by {
        let o = first_match(outputs, output_has_id(aa[k].output_id@))->0;
        assert(output_has_device(d[k]@)(outputs[o]));
        assert forall|j: int| 0 <= j < o implies !output_has_device(d[k]@)(#[trigger] outputs[j]) by {
            assert(outputs[o].device@.len() > 0);
            assert(outputs[o].device@ != outputs[j].device@);
        }
        crate::seqs::lemma_first_match_unique(outputs, output_has_device(d[k]@), o);
    }
    // No bus is created.
    if created.len() > 0 {
        let k = created[0];
        assert(crate::buses::needs_bus(outputs, d, k));
        assert(first_match(outputs, output_has_device(d[k]@)) is Some);
    }
    assert(mid =~= outputs);
    // The resolved routes are the assigned routes.
    assert forall|k: int| 0 <= k < d.len() implies (#[trigger] resolved[k]).output_id@ == aa[k].output_id@ && resolved[k].gain
        == aa[k].gain by {
        let o = first_match(outputs, output_has_id(aa[k].output_id@))->0;
        assert(first_match(mid, output_has_device(d[k]@)) == Some(o));
        assert forall|i: int| 0 <= i < routes.len() && i != m + k implies route_device(outputs, #[trigger] routes[i]) != d[k]@ by {
            if i < m {
                assert(tt[i] == routes[i]);
                assert(!pa(routes[i]));
                lemma_first_match(outputs, output_has_id(routes[i].output_id@));
            } else {
                assert(aa[i - m] == routes[i]);
                assert(f(aa[i - m]) != f(aa[k]));
            }
        }
        assert(routes[m + k] == aa[k]);
        lemma_prior_gain_unique(outputs, routes, d[k]@, m + k);
    }
    if resolved.len() > 0 {
        assert(route_views(tt + resolved) =~= route_views(routes)) by {
            assert forall|k: int| 0 <= k < routes.len() implies route_views(tt + resolved)[k] == route_views(routes)[k] by {
                if k < m {
                    assert((tt + resolved)[k] == tt[k]);
                } else {
                    assert((tt + resolved)[k] == resolved[k - m]);
                    assert(routes[k] == aa[k - m]);
                }
            }
        }
    }
}

} // verus!
