//! The status of an engine build: which streams run, and a warning for
//! each one that could not be opened.

use vstd::prelude::*;
use crate::model::AppConfig;
use crate::routing::count_ok;
use crate::streams::StreamPlan;

verus! {

/// Outcome of an engine build.
#[derive(Clone, Debug)]
pub struct EngineStatus {
    /// Human-readable problems (device missing, stream failed...).
    pub warnings: Vec<String>,
    /// Number of capture streams actually running.
    pub active_captures: usize,
    /// Number of render streams actually running.
    pub active_renders: usize,
}

/// Warning for one stream that could not be opened.
pub open spec fn failure_msg(kind: Seq<char>, name: Seq<char>, e: Seq<char>) -> Seq<char> {
    kind + " \""@ + name + "\": "@ + e
}

/// Warnings for the failed streams of a list (`names[k]` is the name of
/// the line or bus of stream `k`), in order.
pub open spec fn warnings_for(kind: Seq<char>, names: Seq<Seq<char>>, results: Seq<Result<(), String>>) -> Seq<Seq<char>>
    decreases results.len(),
{
    if results.len() == 0 {
        Seq::empty()
    } else {
        let prev = warnings_for(kind, names.drop_last(), results.drop_last());
        match results.last() {
            Err(e) => prev.push(failure_msg(kind, names.last(), e@)),
            Ok(_) => prev,
        }
    }
}

/// Names of the lines with a capture stream, in plan order.
pub open spec fn capture_names(cfg: AppConfig, plan: StreamPlan) -> Seq<Seq<char>> {
    plan.captures@.map_values(|i: usize| cfg.lines@[i as int].name@)
}

/// Names of the buses with a render stream, in plan order.
pub open spec fn render_names(cfg: AppConfig, plan: StreamPlan) -> Seq<Seq<char>> {
    plan.renders@.map_values(|o: usize| cfg.outputs@[o as int].name@)
}

/// Views of a list of strings.
pub open spec fn text_views(v: Seq<String>) -> Seq<Seq<char>> {
    v.map_values(|s: String| s@)
}

fn collect_failures(
    warnings: &mut Vec<String>,
    kind: &str,
    names: &Vec<String>,
    results: &Vec<Result<(), String>>,
) -> (ok: usize)
    requires
        names@.len() == results@.len(),
    ensures
        text_views(final(warnings)@) == text_views(old(warnings)@) + warnings_for(kind@, text_views(names@), results@),
        ok == count_ok(results@),
{
    let ghost start = text_views(warnings@);
    let ghost nv = text_views(names@);
    let mut ok: usize = 0;
    let mut i: usize = 0;
    while i < results.len()
        invariant
            i <= results@.len(),
            names@.len() == results@.len(),
            nv == text_views(names@),
            ok <= i,
            ok == count_ok(results@.take(i as int)),
            text_views(warnings@) == start + warnings_for(kind@, nv.take(i as int), results@.take(i as int)),
        decreases results@.len() - i,
    {
        assert(results@.take(i + 1).drop_last() =~= results@.take(i as int));
        assert(nv.take(i + 1).drop_last() =~= nv.take(i as int));
        assert(results@.take(i + 1).last() == results@[i as int]);
        assert(nv.take(i + 1).last() == names@[i as int]@);
        match &results[i] {
            Ok(_) => {
                ok += 1;
            },
            Err(e) => {
                let ghost before = text_views(warnings@);
                let mut m = String::from_str(kind);
                m.append(" \"");
                m.append(names[i].as_str());
                m.append("\": ");
                m.append(e.as_str());
                warnings.push(m);
                assert(text_views(warnings@) =~= before.push(failure_msg(kind@, names@[i as int]@, e@)));
            },
        }
        i += 1;
    }
    assert(results@.take(i as int) =~= results@);
    assert(nv.take(i as int) =~= nv);
    ok
}

/// Sums up an engine build: `captures[k]` / `renders[k]` tell whether the
/// stream of `plan.captures[k]` / `plan.renders[k]` could be opened. Each
/// failure becomes a warning naming its line or bus.
pub fn engine_status(
    cfg: &AppConfig,
    plan: &StreamPlan,
    captures: &Vec<Result<(), String>>,
    renders: &Vec<Result<(), String>>,
) -> (s: EngineStatus)
    requires
        captures@.len() == plan.captures@.len(),
        renders@.len() == plan.renders@.len(),
        forall|k: int| 0 <= k < plan.captures@.len() ==> #[trigger] plan.captures@[k] < cfg.lines@.len(),
        forall|k: int| 0 <= k < plan.renders@.len() ==> #[trigger] plan.renders@[k] < cfg.outputs@.len(),
    ensures
        text_views(s.warnings@) == warnings_for("Line"@, capture_names(*cfg, *plan), captures@) + warnings_for(
            "Output"@,
            render_names(*cfg, *plan),
            renders@,
        ),
        s.active_captures == count_ok(captures@),
        s.active_renders == count_ok(renders@),
{
    let mut cap_names: Vec<String> = Vec::new();
    let mut k: usize = 0;
    while k < plan.captures.len()
        invariant
            k <= plan.captures@.len(),
            forall|t: int| 0 <= t < plan.captures@.len() ==> #[trigger] plan.captures@[t] < cfg.lines@.len(),
            text_views(cap_names@) == capture_names(*cfg, *plan).take(k as int),
        decreases plan.captures@.len() - k,
    {
        let ghost before = text_views(cap_names@);
        let ghost cn = capture_names(*cfg, *plan);
        cap_names.push(cfg.lines[plan.captures[k]].name.clone());
        assert(cn[k as int] == cfg.lines@[plan.captures@[k as int] as int].name@);
        assert(text_views(cap_names@) =~= before.push(cn[k as int]));
        assert(cn.take(k + 1) =~= cn.take(k as int).push(cn[k as int]));
        k += 1;
    }
    assert(capture_names(*cfg, *plan).take(k as int) =~= capture_names(*cfg, *plan));
    let mut out_names: Vec<String> = Vec::new();
    let mut k: usize = 0;
    while k < plan.renders.len()
        invariant
            k <= plan.renders@.len(),
            forall|t: int| 0 <= t < plan.renders@.len() ==> #[trigger] plan.renders@[t] < cfg.outputs@.len(),
            text_views(out_names@) == render_names(*cfg, *plan).take(k as int),
        decreases plan.renders@.len() - k,
    {
        let ghost before = text_views(out_names@);
        let ghost rn = render_names(*cfg, *plan);
        out_names.push(cfg.outputs[plan.renders[k]].name.clone());
        assert(rn[k as int] == cfg.outputs@[plan.renders@[k as int] as int].name@);
        assert(text_views(out_names@) =~= before.push(rn[k as int]));
        assert(rn.take(k + 1) =~= rn.take(k as int).push(rn[k as int]));
        k += 1;
    }
    assert(render_names(*cfg, *plan).take(k as int) =~= render_names(*cfg, *plan));
    let mut warnings: Vec<String> = Vec::new();
    assert(text_views(warnings@) =~= Seq::<Seq<char>>::empty());
    let active_captures = collect_failures(&mut warnings, "Line", &cap_names, captures);
    let active_renders = collect_failures(&mut warnings, "Output", &out_names, renders);
    assert(text_views(warnings@) =~= warnings_for("Line"@, capture_names(*cfg, *plan), captures@) + warnings_for(
        "Output"@,
        render_names(*cfg, *plan),
        renders@,
    ));
    EngineStatus { warnings, active_captures, active_renders }
}

} // verus!

verus! {

/// Warning for a line whose capture device is unplugged.
pub open spec fn input_gone_msg(name: Seq<char>, device: Seq<char>) -> Seq<char> {
    "« "@ + name + " » : périphérique d'entrée débranché (\""@ + device + "\")"@
}

/// Warning for a bus whose render device is unplugged.
pub open spec fn output_gone_msg(name: Seq<char>, device: Seq<char>) -> Seq<char> {
    "« "@ + name + " » : périphérique de sortie débranché (\""@ + device + "\")"@
}

/// Warnings for the lines whose capture device is not among `live`.
pub open spec fn input_warnings(lines: Seq<crate::model::LineConfig>, live: Seq<Seq<char>>) -> Seq<Seq<char>>
    decreases lines.len(),
{
    if lines.len() == 0 {
        Seq::empty()
    } else {
        let prev = input_warnings(lines.drop_last(), live);
        match lines.last().input_device {
            Some(d) => if live.contains(d@) {
                prev
            } else {
                prev.push(input_gone_msg(lines.last().name@, d@))
            },
            None => prev,
        }
    }
}

/// Warnings for the assigned buses whose render device is not among `live`.
pub open spec fn output_warnings(outputs: Seq<crate::model::OutputConfig>, live: Seq<Seq<char>>) -> Seq<Seq<char>>
    decreases outputs.len(),
{
    if outputs.len() == 0 {
        Seq::empty()
    } else {
        let prev = output_warnings(outputs.drop_last(), live);
        let o = outputs.last();
        if o.device@.len() > 0 && !live.contains(o.device@) {
            prev.push(output_gone_msg(o.name@, o.device@))
        } else {
            prev
        }
    }
}

/// Every line whose capture device is missing from `live` is warned about,
/// whatever its other settings, and every warning is for such a line.
pub proof fn lemma_input_warnings(lines: Seq<crate::model::LineConfig>, live: Seq<Seq<char>>)
    ensures
        forall|i: int|
            0 <= i < lines.len() && (#[trigger] lines[i]).input_device is Some && !live.contains(lines[i].input_device->0@)
                ==> input_warnings(lines, live).contains(input_gone_msg(lines[i].name@, lines[i].input_device->0@)),
        forall|w: int|
            #![trigger input_warnings(lines, live)[w]]
            0 <= w < input_warnings(lines, live).len() ==> exists|i: int|
                0 <= i < lines.len() && (#[trigger] lines[i]).input_device is Some && !live.contains(
                    lines[i].input_device->0@,
                ) && input_warnings(lines, live)[w] == input_gone_msg(lines[i].name@, lines[i].input_device->0@),
    decreases lines.len(),
{
    if lines.len() > 0 {
        let t = lines.drop_last();
        lemma_input_warnings(t, live);
        let prev = input_warnings(t, live);
        let cur = input_warnings(lines, live);
        let n = t.len() as int;
        assert(t == lines.drop_last());
        match lines.last().input_device {
            Some(d) => {
                if live.contains(d@) {
                    assert(cur == prev);
                } else {
                    assert(cur == prev.push(input_gone_msg(lines.last().name@, d@)));
                }
            },
            None => {
                assert(cur == prev);
            },
        }
        assert(cur.len() >= prev.len());
        assert(forall|w: int| 0 <= w < prev.len() ==> #[trigger] cur[w] == prev[w]);
        assert forall|i: int|
            0 <= i < lines.len() && (#[trigger] lines[i]).input_device is Some && !live.contains(lines[i].input_device->0@)
                implies cur.contains(input_gone_msg(lines[i].name@, lines[i].input_device->0@)) by {
            if i < n {
                assert(t[i] == lines[i]);
                let m = input_gone_msg(lines[i].name@, lines[i].input_device->0@);
                let w = choose|w: int| 0 <= w < prev.len() && prev[w] == m;
                assert(cur[w] == m);
            } else {
                assert(cur.last() == input_gone_msg(lines[i].name@, lines[i].input_device->0@));
            }
        }
        assert forall|w: int| #![trigger cur[w]] 0 <= w < cur.len() implies exists|i: int|
            0 <= i < lines.len() && (#[trigger] lines[i]).input_device is Some && !live.contains(lines[i].input_device->0@)
                && cur[w] == input_gone_msg(lines[i].name@, lines[i].input_device->0@) by {
            if w < prev.len() {
                assert(cur[w] == prev[w]);
                let i = choose|i: int|
                    0 <= i < t.len() && (#[trigger] t[i]).input_device is Some && !live.contains(t[i].input_device->0@)
                        && prev[w] == input_gone_msg(t[i].name@, t[i].input_device->0@);
                assert(lines[i] == t[i]);
            } else {
                assert(lines[n] == lines.last());
                match lines.last().input_device {
                    Some(d) => {
                        if !live.contains(d@) {
                            assert(cur == prev.push(input_gone_msg(lines.last().name@, d@)));
                            assert(cur[w] == input_gone_msg(lines[n].name@, lines[n].input_device->0@));
                        } else {
                            assert(cur == prev);
                        }
                    },
                    None => {
                        assert(cur == prev);
                    },
                }
            }
        }
    }
}

/// Every assigned bus whose render device is missing from `live` is warned
/// about, and every warning is for such a bus.
pub proof fn lemma_output_warnings(outputs: Seq<crate::model::OutputConfig>, live: Seq<Seq<char>>)
    ensures
        forall|o: int|
            0 <= o < outputs.len() && (#[trigger] outputs[o]).device@.len() > 0 && !live.contains(outputs[o].device@)
                ==> output_warnings(outputs, live).contains(output_gone_msg(outputs[o].name@, outputs[o].device@)),
        forall|w: int|
            #![trigger output_warnings(outputs, live)[w]]
            0 <= w < output_warnings(outputs, live).len() ==> exists|o: int|
                0 <= o < outputs.len() && (#[trigger] outputs[o]).device@.len() > 0 && !live.contains(outputs[o].device@)
                    && output_warnings(outputs, live)[w] == output_gone_msg(outputs[o].name@, outputs[o].device@),
    decreases outputs.len(),
{
    if outputs.len() > 0 {
        let t = outputs.drop_last();
        lemma_output_warnings(t, live);
        let prev = output_warnings(t, live);
        let cur = output_warnings(outputs, live);
        let n = t.len() as int;
        assert forall|o: int|
            0 <= o < outputs.len() && (#[trigger] outputs[o]).device@.len() > 0 && !live.contains(outputs[o].device@)
                implies cur.contains(output_gone_msg(outputs[o].name@, outputs[o].device@)) by {
            if o < n {
                assert(t[o] == outputs[o]);
                let m = output_gone_msg(outputs[o].name@, outputs[o].device@);
                let w = choose|w: int| 0 <= w < prev.len() && prev[w] == m;
                assert(cur[w] == m);
            } else {
                assert(cur.last() == output_gone_msg(outputs[o].name@, outputs[o].device@));
            }
        }
        assert forall|w: int| #![trigger cur[w]] 0 <= w < cur.len() implies exists|o: int|
            0 <= o < outputs.len() && (#[trigger] outputs[o]).device@.len() > 0 && !live.contains(outputs[o].device@)
                && cur[w] == output_gone_msg(outputs[o].name@, outputs[o].device@) by {
            if w < prev.len() {
                assert(cur[w] == prev[w]);
                let o = choose|o: int|
                    0 <= o < t.len() && (#[trigger] t[o]).device@.len() > 0 && !live.contains(t[o].device@)
                        && prev[w] == output_gone_msg(t[o].name@, t[o].device@);
                assert(outputs[o] == t[o]);
            } else {
                assert(outputs[n] == outputs.last());
                let l = outputs.last();
                if l.device@.len() > 0 && !live.contains(l.device@) {
                    assert(cur == prev.push(output_gone_msg(l.name@, l.device@)));
                } else {
                    assert(cur == prev);
                }
            }
        }
    }
}

/// Warning `m` is the unplugged-input warning of some line whose capture
/// device is missing from `li`, or the unplugged-output warning of some
/// assigned bus whose device is missing from `lo`.
pub open spec fn warning_explained(
    lines: Seq<crate::model::LineConfig>,
    outputs: Seq<crate::model::OutputConfig>,
    li: Seq<Seq<char>>,
    lo: Seq<Seq<char>>,
    m: Seq<char>,
) -> bool {
    ||| exists|i: int|
        0 <= i < lines.len() && (#[trigger] lines[i]).input_device is Some && !li.contains(lines[i].input_device->0@)
            && m == input_gone_msg(lines[i].name@, lines[i].input_device->0@)
    ||| exists|o: int|
        0 <= o < outputs.len() && (#[trigger] outputs[o]).device@.len() > 0 && !lo.contains(outputs[o].device@) && m
            == output_gone_msg(outputs[o].name@, outputs[o].device@)
}

proof fn lemma_warnings_explained(
    lines: Seq<crate::model::LineConfig>,
    outputs: Seq<crate::model::OutputConfig>,
    li: Seq<Seq<char>>,
    lo: Seq<Seq<char>>,
)
    ensures
        forall|w: int|
            #![trigger (input_warnings(lines, li) + output_warnings(outputs, lo))[w]]
            0 <= w < (input_warnings(lines, li) + output_warnings(outputs, lo)).len() ==> warning_explained(
                lines,
                outputs,
                li,
                lo,
                (input_warnings(lines, li) + output_warnings(outputs, lo))[w],
            ),
{
    lemma_input_warnings(lines, li);
    lemma_output_warnings(outputs, lo);
    let iw = input_warnings(lines, li);
    let ow = output_warnings(outputs, lo);
    let all = iw + ow;
    assert forall|w: int| #![trigger all[w]] 0 <= w < all.len() implies warning_explained(lines, outputs, li, lo, all[w]) by {
        if w < iw.len() {
            assert(all[w] == iw[w]);
            let i = choose|i: int|
                0 <= i < lines.len() && (#[trigger] lines[i]).input_device is Some && !li.contains(lines[i].input_device->0@)
                    && iw[w] == input_gone_msg(lines[i].name@, lines[i].input_device->0@);
            assert(lines[i].input_device is Some);
        } else {
            let v = w - iw.len();
            assert(all[w] == ow[v]);
            let o = choose|o: int|
                0 <= o < outputs.len() && (#[trigger] outputs[o]).device@.len() > 0 && !lo.contains(outputs[o].device@)
                    && ow[v] == output_gone_msg(outputs[o].name@, outputs[o].device@);
            assert(outputs[o].device@.len() > 0);
        }
    }
}

fn live_contains(live: &Vec<String>, d: &str) -> (r: bool)
    ensures
        r == text_views(live@).contains(d@),
{
    let mut i: usize = 0;
    while i < live.len()
        invariant
            i <= live@.len(),
            forall|k: int| 0 <= k < i ==> #[trigger] live@[k]@ != d@,
        decreases live@.len() - i,
    {
        if crate::text::str_eq(live[i].as_str(), d) {
            assert(text_views(live@)[i as int] == d@);
            return true;
        }
        i += 1;
    }
    assert forall|k: int| 0 <= k < text_views(live@).len() implies text_views(live@)[k] != d@ by {
        assert(text_views(live@)[k] == live@[k]@);
    }
    false
}

/// Device health: a warning for every line whose capture device and every
/// assigned bus whose render device is missing from the live device lists
/// (inputs first, then outputs, in configuration order).
pub fn device_warnings(cfg: &AppConfig, live_inputs: &Vec<String>, live_outputs: &Vec<String>) -> (r: Vec<String>)
    ensures
        text_views(r@) == input_warnings(cfg.lines@, text_views(live_inputs@)) + output_warnings(
            cfg.outputs@,
            text_views(live_outputs@),
        ),
        forall|i: int|
            0 <= i < cfg.lines@.len() && (#[trigger] cfg.lines@[i]).input_device is Some && !text_views(
                live_inputs@,
            ).contains(cfg.lines@[i].input_device->0@) ==> text_views(r@).contains(
                input_gone_msg(cfg.lines@[i].name@, cfg.lines@[i].input_device->0@),
            ),
        forall|o: int|
            0 <= o < cfg.outputs@.len() && (#[trigger] cfg.outputs@[o]).device@.len() > 0 && !text_views(
                live_outputs@,
            ).contains(cfg.outputs@[o].device@) ==> text_views(r@).contains(
                output_gone_msg(cfg.outputs@[o].name@, cfg.outputs@[o].device@),
            ),
        forall|w: int|
            #![trigger text_views(r@)[w]]
            0 <= w < r@.len() ==> warning_explained(
                cfg.lines@,
                cfg.outputs@,
                text_views(live_inputs@),
                text_views(live_outputs@),
                text_views(r@)[w],
            ),
{
    let ghost li = text_views(live_inputs@);
    let ghost lo = text_views(live_outputs@);
    let mut out: Vec<String> = Vec::new();
    let mut i: usize = 0;
    while i < cfg.lines.len()
        invariant
            i <= cfg.lines@.len(),
            li == text_views(live_inputs@),
            text_views(out@) == input_warnings(cfg.lines@.take(i as int), li),
        decreases cfg.lines@.len() - i,
    {
        assert(cfg.lines@.take(i + 1).drop_last() =~= cfg.lines@.take(i as int));
        assert(cfg.lines@.take(i + 1).last() == cfg.lines@[i as int]);
        let line = &cfg.lines[i];
        if let Some(d) = &line.input_device {
            if !live_contains(live_inputs, d.as_str()) {
                let ghost before = text_views(out@);
                let mut m = String::from_str("« ");
                m.append(line.name.as_str());
                m.append(" » : périphérique d'entrée débranché (\"");
                m.append(d.as_str());
                m.append("\")");
                out.push(m);
                assert(text_views(out@) =~= before.push(input_gone_msg(line.name@, d@)));
            }
        }
        i += 1;
    }
    assert(cfg.lines@.take(i as int) =~= cfg.lines@);
    let ghost inw = text_views(out@);
    let mut k: usize = 0;
    while k < cfg.outputs.len()
        invariant
            k <= cfg.outputs@.len(),
            lo == text_views(live_outputs@),
            text_views(out@) == inw + output_warnings(cfg.outputs@.take(k as int), lo),
        decreases cfg.outputs@.len() - k,
    {
        assert(cfg.outputs@.take(k + 1).drop_last() =~= cfg.outputs@.take(k as int));
        assert(cfg.outputs@.take(k + 1).last() == cfg.outputs@[k as int]);
        let o = &cfg.outputs[k];
        if o.device.unicode_len() > 0 && !live_contains(live_outputs, o.device.as_str()) {
            let ghost before = text_views(out@);
            let mut m = String::from_str("« ");
            m.append(o.name.as_str());
            m.append(" » : périphérique de sortie débranché (\"");
            m.append(o.device.as_str());
            m.append("\")");
            out.push(m);
            assert(text_views(out@) =~= before.push(output_gone_msg(o.name@, o.device@)));
        }
        k += 1;
    }
    assert(cfg.outputs@.take(k as int) =~= cfg.outputs@);
    proof {
        lemma_input_warnings(cfg.lines@, li);
        lemma_output_warnings(cfg.outputs@, lo);
        let iw = input_warnings(cfg.lines@, li);
        let ow = output_warnings(cfg.outputs@, lo);
        let all = text_views(out@);
        assert(all == iw + ow);
        assert forall|i: int|
            0 <= i < cfg.lines@.len() && (#[trigger] cfg.lines@[i]).input_device is Some && !li.contains(
                cfg.lines@[i].input_device->0@,
            ) implies all.contains(input_gone_msg(cfg.lines@[i].name@, cfg.lines@[i].input_device->0@)) by {
            let m = input_gone_msg(cfg.lines@[i].name@, cfg.lines@[i].input_device->0@);
            let w = choose|w: int| 0 <= w < iw.len() && iw[w] == m;
            assert(all[w] == m);
        }
        assert forall|o: int|
            0 <= o < cfg.outputs@.len() && (#[trigger] cfg.outputs@[o]).device@.len() > 0 && !lo.contains(
                cfg.outputs@[o].device@,
            ) implies all.contains(output_gone_msg(cfg.outputs@[o].name@, cfg.outputs@[o].device@)) by {
            let m = output_gone_msg(cfg.outputs@[o].name@, cfg.outputs@[o].device@);
            let w = choose|w: int| 0 <= w < ow.len() && ow[w] == m;
            assert(all[iw.len() + w] == m);
        }
        lemma_warnings_explained(cfg.lines@, cfg.outputs@, li, lo);
    }
    out
}

} // verus!
