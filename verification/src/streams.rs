//! Stream planning: which routes get a ring buffer, which lines get a
//! capture stream and which buses get a render stream, for one engine build.

use vstd::prelude::*;
use crate::model::{AppConfig, find_output_by_id, output_has_id};
use crate::seqs::{first_match, lemma_first_match};
use crate::text::str_eq;

verus! {

/// One ring buffer: route `route` of line `line`, rendered by bus `output`.
#[derive(Clone, Copy, Debug)]
pub struct RingPlan {
    pub line: usize,
    pub route: usize,
    pub output: usize,
}

/// The streams one engine build creates, in creation order.
#[derive(Clone, Debug)]
pub struct StreamPlan {
    pub rings: Vec<RingPlan>,
    /// Indices of the lines that get a capture stream.
    pub captures: Vec<usize>,
    /// Indices of the output buses that get a render stream.
    pub renders: Vec<usize>,
}

/// The bus that route `j` of line `i` resolves to: the first bus with
/// the route's id.
pub open spec fn route_bus(cfg: AppConfig, i: int, j: int) -> Option<int> {
    first_match(cfg.outputs@, output_has_id(cfg.lines@[i].routes@[j].output_id@))
}

/// Route `j` of line `i` carries audio: the line has a capture device and
/// the route's bus exists and is bound to a device.
pub open spec fn ring_at(cfg: AppConfig, i: int, j: int) -> bool {
    &&& 0 <= i < cfg.lines@.len()
    &&& cfg.lines@[i].input_device is Some
    &&& 0 <= j < cfg.lines@[i].routes@.len()
    &&& match route_bus(cfg, i, j) {
        Some(o) => cfg.outputs@[o].device@.len() > 0,
        None => false,
    }
}

/// Lexicographic order on (line, route) pairs.
pub open spec fn pair_lt(a: RingPlan, b: RingPlan) -> bool {
    a.line < b.line || (a.line == b.line && a.route < b.route)
}

/// `rings` lists exactly the audio-carrying routes, in (line, route) order,
/// each with its resolved bus.
pub open spec fn rings_spec(cfg: AppConfig, rings: Seq<RingPlan>) -> bool {
    &&& forall|k: int|
        0 <= k < rings.len() ==> ring_at(cfg, #[trigger] rings[k].line as int, rings[k].route as int)
            && route_bus(cfg, rings[k].line as int, rings[k].route as int) == Some(
            rings[k].output as int,
        )
    &&& forall|a: int, b: int| 0 <= a < b < rings.len() ==> pair_lt(#[trigger] rings[a], #[trigger] rings[b])
    &&& forall|i: int, j: int|
        ring_at(cfg, i, j) ==> exists|k: int|
            0 <= k < rings.len() && #[trigger] rings[k].line == i && rings[k].route == j
}

/// Some ring carries audio of a line with this id.
pub open spec fn id_feeds(cfg: AppConfig, rings: Seq<RingPlan>, id: Seq<char>) -> bool {
    exists|k: int| 0 <= k < rings.len() && cfg.lines@[#[trigger] rings[k].line as int].id@ == id
}

/// Line `i` owns a capture stream: it has a device, it is the first line
/// with a device under its id, and some route of that id carries audio.
pub open spec fn capture_at(cfg: AppConfig, rings: Seq<RingPlan>, i: int) -> bool {
    &&& 0 <= i < cfg.lines@.len()
    &&& cfg.lines@[i].input_device is Some
    &&& forall|k: int|
        0 <= k < i && (#[trigger] cfg.lines@[k]).input_device is Some ==> cfg.lines@[k].id@
            != cfg.lines@[i].id@
    &&& id_feeds(cfg, rings, cfg.lines@[i].id@)
}

/// Bus `o` owns a render stream: some ring resolves to it.
pub open spec fn render_at(rings: Seq<RingPlan>, o: int) -> bool {
    exists|k: int| 0 <= k < rings.len() && #[trigger] rings[k].output == o
}

/// `s` lists, in increasing order, exactly the indices below `n` that
/// satisfy `p`.
pub open spec fn enumerates(s: Seq<usize>, n: int, p: spec_fn(int) -> bool) -> bool {
    &&& forall|k: int| 0 <= k < s.len() ==> 0 <= #[trigger] s[k] < n && p(s[k] as int)
    &&& forall|a: int, b: int| 0 <= a < b < s.len() ==> #[trigger] s[a] < #[trigger] s[b]
    &&& forall|i: int| 0 <= i < n && #[trigger] p(i) ==> exists|k: int| 0 <= k < s.len() && #[trigger] s[k] == i
}

/// Plans the ring buffers and streams for `cfg`.
pub fn plan_streams(cfg: &AppConfig) -> (plan: StreamPlan)
    ensures
        rings_spec(*cfg, plan.rings@),
        enumerates(plan.captures@, cfg.lines@.len() as int, |i: int| capture_at(*cfg, plan.rings@, i)),
        enumerates(plan.renders@, cfg.outputs@.len() as int, |o: int| render_at(plan.rings@, o)),
{
    let rings = plan_rings(cfg);
    let captures = plan_captures(cfg, &rings);
    let renders = plan_renders(cfg, &rings);
    StreamPlan { rings, captures, renders }
}

fn plan_rings(cfg: &AppConfig) -> (rings: Vec<RingPlan>)
    ensures
        rings_spec(*cfg, rings@),
{
    let mut rings: Vec<RingPlan> = Vec::new();
    let mut i: usize = 0;
    while i < cfg.lines.len()
        invariant
            i <= cfg.lines@.len(),
            forall|k: int|
                0 <= k < rings@.len() ==> ring_at(*cfg, #[trigger] rings@[k].line as int, rings@[k].route as int)
                    && route_bus(*cfg, rings@[k].line as int, rings@[k].route as int) == Some(
                    rings@[k].output as int,
                ) && rings@[k].line < i,
            forall|a: int, b: int| 0 <= a < b < rings@.len() ==> pair_lt(#[trigger] rings@[a], #[trigger] rings@[b]),
            forall|i2: int, j: int|
                i2 < i && ring_at(*cfg, i2, j) ==> exists|k: int|
                    0 <= k < rings@.len() && #[trigger] rings@[k].line == i2 && rings@[k].route == j,
        decreases cfg.lines@.len() - i,
    {
        let line = &cfg.lines[i];
        if line.input_device.is_some() {
            let mut j: usize = 0;
            let ghost start = rings@.len();
            while j < line.routes.len()
                invariant
                    i < cfg.lines@.len(),
                    *line == cfg.lines@[i as int],
                    line.input_device is Some,
                    start <= rings@.len(),
                    j <= line.routes@.len(),
                    forall|k: int|
                        0 <= k < rings@.len() ==> ring_at(*cfg, #[trigger] rings@[k].line as int, rings@[k].route as int)
                            && route_bus(*cfg, rings@[k].line as int, rings@[k].route as int) == Some(
                            rings@[k].output as int,
                        ) && rings@[k].line <= i,
                    forall|k: int| start <= k < rings@.len() ==> #[trigger] rings@[k].line == i && rings@[k].route < j,
                    forall|k: int| 0 <= k < start ==> #[trigger] rings@[k].line < i,
                    forall|a: int, b: int| 0 <= a < b < rings@.len() ==> pair_lt(#[trigger] rings@[a], #[trigger] rings@[b]),
                    forall|i2: int, j2: int|
                        (i2 < i || (i2 == i && j2 < j)) && ring_at(*cfg, i2, j2) ==> exists|k: int|
                            0 <= k < rings@.len() && #[trigger] rings@[k].line == i2 && rings@[k].route == j2,
                decreases line.routes@.len() - j,
            {
                let found = find_output_by_id(&cfg.outputs, line.routes[j].output_id.as_str());
                proof {
                    lemma_first_match(cfg.outputs@, output_has_id(line.routes@[j as int].output_id@));
                }
                if let Some(o) = found {
                    if cfg.outputs[o].device.unicode_len() > 0 {
                        let ghost before = rings@;
                        rings.push(RingPlan { line: i, route: j, output: o });
                        proof {
                            assert forall|k: int| 0 <= k < before.len() implies #[trigger] rings@[k] == before[k] by {}
                            assert(rings@[before.len() as int] == RingPlan { line: i, route: j, output: o });
                            assert forall|k: int| start <= k < rings@.len() implies #[trigger] rings@[k].line == i && rings@[k].route < j + 1 by {
                                if k < before.len() {
                                    assert(before[k].line == i);
                                }
                            }
                            assert forall|a: int, b: int| 0 <= a < b < rings@.len() implies pair_lt(#[trigger] rings@[a], #[trigger] rings@[b]) by {
                                if b == before.len() {
                                    if a >= start {
                                        assert(before[a].line == i);
                                        assert(before[a].route < j);
                                    } else {
                                        assert(before[a].line < i);
                                    }
                                }
                            }
                            assert forall|i2: int, j2: int|
                                (i2 < i || (i2 == i && j2 < j + 1)) && ring_at(*cfg, i2, j2) implies exists|k: int|
                                    0 <= k < rings@.len() && #[trigger] rings@[k].line == i2 && rings@[k].route == j2 by {
                                if i2 == i && j2 == j {
                                    assert(rings@[before.len() as int].line == i2);
                                } else {
                                    let k = choose|k: int| 0 <= k < before.len() && #[trigger] before[k].line == i2 && before[k].route == j2;
                                    assert(rings@[k] == before[k]);
                                }
                            }
                        }
                    }
                }
                j += 1;
            }
        }
        i += 1;
    }
    rings
}

fn plan_captures(cfg: &AppConfig, rings: &Vec<RingPlan>) -> (captures: Vec<usize>)
    requires
        rings_spec(*cfg, rings@),
    ensures
        enumerates(captures@, cfg.lines@.len() as int, |i: int| capture_at(*cfg, rings@, i)),
{
    let mut captures: Vec<usize> = Vec::new();
    let mut i: usize = 0;
    while i < cfg.lines.len()
        invariant
            i <= cfg.lines@.len(),
            rings_spec(*cfg, rings@),
            forall|k: int| 0 <= k < captures@.len() ==> #[trigger] captures@[k] < i && capture_at(*cfg, rings@, captures@[k] as int),
            forall|a: int, b: int| 0 <= a < b < captures@.len() ==> #[trigger] captures@[a] < #[trigger] captures@[b],
            forall|i2: int| 0 <= i2 < i && capture_at(*cfg, rings@, i2) ==> exists|k: int| 0 <= k < captures@.len() && #[trigger] captures@[k] == i2,
        decreases cfg.lines@.len() - i,
    {
        let id = cfg.lines[i].id.as_str();
        if cfg.lines[i].input_device.is_some() {
            // Is there an earlier line with a device under the same id?
            let mut earlier = false;
            let mut k: usize = 0;
            while k < i
                invariant
                    i < cfg.lines@.len(),
                    k <= i,
                    id@ == cfg.lines@[i as int].id@,
                    !earlier ==> forall|k2: int| 0 <= k2 < k && (#[trigger] cfg.lines@[k2]).input_device is Some ==> cfg.lines@[k2].id@ != id@,
                    earlier ==> exists|k2: int| 0 <= k2 < i && (#[trigger] cfg.lines@[k2]).input_device is Some && cfg.lines@[k2].id@ == id@,
                decreases i - k,
            {
                if cfg.lines[k].input_device.is_some() && str_eq(cfg.lines[k].id.as_str(), id) {
                    earlier = true;
                }
                k += 1;
            }
            // Does some ring carry audio of this id?
            let mut feeds = false;
            let mut r: usize = 0;
            while r < rings.len()
                invariant
                    rings_spec(*cfg, rings@),
                    i < cfg.lines@.len(),
                    r <= rings@.len(),
                    id@ == cfg.lines@[i as int].id@,
                    !feeds ==> forall|r2: int| 0 <= r2 < r ==> cfg.lines@[#[trigger] rings@[r2].line as int].id@ != id@,
                    feeds ==> id_feeds(*cfg, rings@, id@),
                decreases rings@.len() - r,
            {
                let ln = rings[r].line;
                proof {
                    assert(ring_at(*cfg, rings@[r as int].line as int, rings@[r as int].route as int));
                }
                if str_eq(cfg.lines[ln].id.as_str(), id) {
                    feeds = true;
                }
                r += 1;
            }
            let ghost before = captures@;
            if !earlier && feeds {
                captures.push(i);
            }
            proof {
                assert forall|k: int| 0 <= k < before.len() implies #[trigger] captures@[k] == before[k] by {}
                if capture_at(*cfg, rings@, i as int) {
                    assert(!earlier);
                    assert(feeds);
                    assert(captures@[before.len() as int] == i);
                }
                assert forall|i2: int| 0 <= i2 < i + 1 && capture_at(*cfg, rings@, i2) implies exists|k: int| 0 <= k < captures@.len() && #[trigger] captures@[k] == i2 by {
                    if i2 < i {
                        let k = choose|k: int| 0 <= k < before.len() && #[trigger] before[k] == i2;
                        assert(captures@[k] == i2);
                    } else {
                        assert(captures@[before.len() as int] == i);
                    }
                }
            }
        }
        i += 1;
    }
    captures
}

fn plan_renders(cfg: &AppConfig, rings: &Vec<RingPlan>) -> (renders: Vec<usize>)
    requires
        rings_spec(*cfg, rings@),
    ensures
        enumerates(renders@, cfg.outputs@.len() as int, |o: int| render_at(rings@, o)),
{
    let mut renders: Vec<usize> = Vec::new();
    let mut o: usize = 0;
    while o < cfg.outputs.len()
        invariant
            o <= cfg.outputs@.len(),
            rings_spec(*cfg, rings@),
            forall|k: int| 0 <= k < renders@.len() ==> #[trigger] renders@[k] < o && render_at(rings@, renders@[k] as int),
            forall|a: int, b: int| 0 <= a < b < renders@.len() ==> #[trigger] renders@[a] < #[trigger] renders@[b],
            forall|o2: int| 0 <= o2 < o && render_at(rings@, o2) ==> exists|k: int| 0 <= k < renders@.len() && #[trigger] renders@[k] == o2,
        decreases cfg.outputs@.len() - o,
    {
        let mut used = false;
        let mut r: usize = 0;
        while r < rings.len()
            invariant
                r <= rings@.len(),
                !used ==> forall|r2: int| 0 <= r2 < r ==> #[trigger] rings@[r2].output != o,
                used ==> render_at(rings@, o as int),
            decreases rings@.len() - r,
        {
            if rings[r].output == o {
                used = true;
            }
            r += 1;
        }
        let ghost before = renders@;
        if used {
            renders.push(o);
        }
        proof {
            assert forall|k: int| 0 <= k < before.len() implies #[trigger] renders@[k] == before[k] by {}
            assert forall|o2: int| 0 <= o2 < o + 1 && render_at(rings@, o2) implies exists|k: int| 0 <= k < renders@.len() && #[trigger] renders@[k] == o2 by {
                if o2 < o {
                    let k = choose|k: int| 0 <= k < before.len() && #[trigger] before[k] == o2;
                    assert(renders@[k] == o2);
                } else {
                    if !used {
                        let k = choose|k: int| 0 <= k < rings@.len() && #[trigger] rings@[k].output == o2;
                        assert(rings@[k].output != o);
                    }
                    assert(renders@[before.len() as int] == o);
                }
            }
        }
        o += 1;
    }
    renders
}

} // verus!

