//! Per-application output routing: which processes to address, which
//! policy calls to make, and how their outcome is reported.

use vstd::prelude::*;
use crate::apps::ProcessEntry;
use crate::model::AppConfig;
use crate::ids::{dec_seq, push_dec};
use crate::text::{str_eq, to_lowercase, trim, unicode_lowercase, unicode_trim};

verus! {

/// Data-flow code of render endpoints in the policy interface.
pub const E_RENDER: i32 = 0;

/// Console role.
pub const ROLE_CONSOLE: i32 = 0;

/// Multimedia role.
pub const ROLE_MULTIMEDIA: i32 = 1;

/// The PIDs of the entries whose executable name matches `target`
/// (already lower-cased), in order.
pub open spec fn pids_named(target: Seq<char>, entries: Seq<(Seq<char>, u32)>) -> Seq<u32>
    decreases entries.len(),
{
    if entries.len() == 0 {
        Seq::empty()
    } else {
        let prev = pids_named(target, entries.drop_last());
        if unicode_lowercase(entries.last().0) == target {
            prev.push(entries.last().1)
        } else {
            prev
        }
    }
}

/// Session entries as plain values.
pub open spec fn session_views(sessions: Seq<(String, u32)>) -> Seq<(Seq<char>, u32)> {
    sessions.map_values(|e: (String, u32)| (e.0@, e.1))
}

/// Process entries as plain values.
pub open spec fn process_views(procs: Seq<ProcessEntry>) -> Seq<(Seq<char>, u32)> {
    procs.map_values(|p: ProcessEntry| (p.name@, p.pid))
}

fn pids_matching(target: &str, entries: &Vec<(String, u32)>) -> (r: Vec<u32>)
    ensures
        r@ == pids_named(target@, session_views(entries@)),
{
    let ghost ev = session_views(entries@);
    let mut out: Vec<u32> = Vec::new();
    let mut i: usize = 0;
    while i < entries.len()
        invariant
            i <= entries@.len(),
            ev == session_views(entries@),
            out@ == pids_named(target@, ev.take(i as int)),
        decreases entries@.len() - i,
    {
        assert(ev.take(i + 1).drop_last() =~= ev.take(i as int));
        let name = to_lowercase(entries[i].0.as_str());
        if str_eq(name.as_str(), target) {
            out.push(entries[i].1);
        }
        i += 1;
    }
    assert(ev.take(i as int) =~= ev);
    out
}

/// PIDs of every audio session owned by `exe` (case-insensitive), given
/// the (executable, pid) pairs of the sessions.
pub fn pids_for_exe(exe: &str, sessions: &Vec<(String, u32)>) -> (r: Vec<u32>)
    ensures
        r@ == pids_named(unicode_lowercase(exe@), session_views(sessions@)),
{
    let target = to_lowercase(exe);
    pids_matching(target.as_str(), sessions)
}

/// PIDs of every running process named `exe` (case-insensitive).
pub fn pids_running_exe(exe: &str, procs: &Vec<ProcessEntry>) -> (r: Vec<u32>)
    ensures
        r@ == pids_named(unicode_lowercase(exe@), process_views(procs@)),
{
    let target = to_lowercase(exe);
    let ghost pv = process_views(procs@);
    let mut out: Vec<u32> = Vec::new();
    let mut i: usize = 0;
    while i < procs.len()
        invariant
            i <= procs@.len(),
            pv == process_views(procs@),
            target@ == unicode_lowercase(exe@),
            out@ == pids_named(target@, pv.take(i as int)),
        decreases procs@.len() - i,
    {
        assert(pv.take(i + 1).drop_last() =~= pv.take(i as int));
        let name = to_lowercase(procs[i].name.as_str());
        if str_eq(name.as_str(), target.as_str()) {
            out.push(procs[i].pid);
        }
        i += 1;
    }
    assert(pv.take(i as int) =~= pv);
    out
}

/// `acc` followed by the elements of `xs` it does not hold yet, in order
/// (each checked against everything appended before it).
pub open spec fn append_new(acc: Seq<u32>, xs: Seq<u32>) -> Seq<u32>
    decreases xs.len(),
{
    if xs.len() == 0 {
        acc
    } else {
        let prev = append_new(acc, xs.drop_last());
        if prev.contains(xs.last()) {
            prev
        } else {
            prev.push(xs.last())
        }
    }
}

/// The owners of `exe`'s audio sessions, in session order (none when the
/// session list could not be read).
pub open spec fn session_owner_pids(exe: Seq<char>, sessions: Result<Seq<(Seq<char>, u32)>, Seq<char>>) -> Seq<u32> {
    match sessions {
        Ok(s) => pids_named(unicode_lowercase(exe), s),
        Err(_) => Seq::empty(),
    }
}

/// The running processes named `exe`, in process order.
pub open spec fn running_pids(exe: Seq<char>, procs: Seq<(Seq<char>, u32)>) -> Seq<u32> {
    pids_named(unicode_lowercase(exe), procs)
}

/// The PIDs to try for `exe`, most promising first, each once: the session
/// owners, then the running processes of that name, duplicates dropped.
pub open spec fn candidate_pids_spec(
    exe: Seq<char>,
    sessions: Result<Seq<(Seq<char>, u32)>, Seq<char>>,
    procs: Seq<(Seq<char>, u32)>,
) -> Seq<u32> {
    append_new(Seq::empty(), session_owner_pids(exe, sessions) + running_pids(exe, procs))
}

/// The session list as plain values.
pub open spec fn sessions_view(sessions: Result<Vec<(String, u32)>, String>) -> Result<Seq<(Seq<char>, u32)>, Seq<char>> {
    match sessions {
        Ok(v) => Ok(session_views(v@)),
        Err(e) => Err(e@),
    }
}

fn contains_pid(v: &Vec<u32>, x: u32) -> (r: bool)
    ensures
        r == v@.contains(x),
{
    let mut i: usize = 0;
    while i < v.len()
        invariant
            i <= v@.len(),
            forall|k: int| 0 <= k < i ==> v@[k] != x,
        decreases v@.len() - i,
    {
        if v[i] == x {
            return true;
        }
        i += 1;
    }
    false
}

/// Every PID worth trying for `exe`: sandboxed helper processes may own
/// the audio session while only the main process accepts a route, so the
/// session owners and the running processes are both listed.
pub fn candidate_pids(exe: &str, sessions: &Result<Vec<(String, u32)>, String>, procs: &Vec<ProcessEntry>) -> (r: Vec<u32>)
    ensures
        r@ == candidate_pids_spec(exe@, sessions_view(*sessions), process_views(procs@)),
{
    let mut all = match sessions {
        Ok(v) => pids_for_exe(exe, v),
        Err(_) => Vec::new(),
    };
    let ghost first = all@;
    let running = pids_running_exe(exe, procs);
    let mut i: usize = 0;
    while i < running.len()
        invariant
            i <= running@.len(),
            all@ == first + running@.take(i as int),
        decreases running@.len() - i,
    {
        assert(running@.take(i + 1) =~= running@.take(i as int).push(running@[i as int]));
        all.push(running[i]);
        i += 1;
    }
    assert(running@.take(i as int) =~= running@);
    let mut pids: Vec<u32> = Vec::new();
    let mut j: usize = 0;
    while j < all.len()
        invariant
            j <= all@.len(),
            pids@ == append_new(Seq::empty(), all@.take(j as int)),
        decreases all@.len() - j,
    {
        assert(all@.take(j + 1).drop_last() =~= all@.take(j as int));
        let pid = all[j];
        if !contains_pid(&pids, pid) {
            pids.push(pid);
        }
        j += 1;
    }
    assert(all@.take(j as int) =~= all@);
    pids
}

/// The policy calls for a list of PIDs: each PID, console role then
/// multimedia role.
pub open spec fn attempts_for(pids: Seq<u32>) -> Seq<(u32, i32)>
    decreases pids.len(),
{
    if pids.len() == 0 {
        Seq::empty()
    } else {
        attempts_for(pids.drop_last()).push((pids.last(), ROLE_CONSOLE)).push((pids.last(), ROLE_MULTIMEDIA))
    }
}

fn attempts(pids: &Vec<u32>) -> (r: Vec<(u32, i32)>)
    ensures
        r@ == attempts_for(pids@),
{
    let mut out: Vec<(u32, i32)> = Vec::new();
    let mut i: usize = 0;
    while i < pids.len()
        invariant
            i <= pids@.len(),
            out@ == attempts_for(pids@.take(i as int)),
        decreases pids@.len() - i,
    {
        assert(pids@.take(i + 1).drop_last() =~= pids@.take(i as int));
        out.push((pids[i], ROLE_CONSOLE));
        out.push((pids[i], ROLE_MULTIMEDIA));
        i += 1;
    }
    assert(pids@.take(i as int) =~= pids@);
    out
}

/// The device path the policy interface expects for an endpoint id.
pub open spec fn policy_device_path_spec(device_id: Seq<char>) -> Seq<char> {
    "\\\\?\\SWD#MMDEVAPI#"@ + device_id + "#{e6327cad-dcec-4949-ae8a-991e976a79d2}"@
}

/// Wraps an endpoint id in the software-device path of a render interface.
pub fn policy_device_path(device_id: &str) -> (r: String)
    ensures
        r@ == policy_device_path_spec(device_id@),
{
    let mut s = String::from_str("\\\\?\\SWD#MMDEVAPI#");
    s.append(device_id);
    s.append("#{e6327cad-dcec-4949-ae8a-991e976a79d2}");
    s
}

/// What routing an app asks of the policy interface.
#[derive(Clone, Debug)]
pub struct RouteRequest {
    /// Target endpoint, as a device path.
    pub device_path: String,
    /// Number of processes addressed.
    pub n_pids: usize,
    /// (pid, role) pairs to set, in order.
    pub attempts: Vec<(u32, i32)>,
}

/// Error reported when no process of the app is running.
pub open spec fn not_running_msg(exe: Seq<char>) -> Seq<char> {
    "\""@ + exe + "\" ne semble pas lancée — démarre l'application puis réessaie"@
}

/// Routes the app `exe` to the render endpoint `device_id`: every
/// candidate process, both roles. Fails when no process of the app runs.
pub fn route_app_by_id(
    exe: &str,
    device_id: &str,
    sessions: &Result<Vec<(String, u32)>, String>,
    procs: &Vec<ProcessEntry>,
) -> (r: Result<RouteRequest, String>)
    ensures
        ({
            let pids = candidate_pids_spec(exe@, sessions_view(*sessions), process_views(procs@));
            match r {
                Ok(req) => pids.len() > 0 && req.device_path@ == policy_device_path_spec(device_id@)
                    && req.n_pids == pids.len() && req.attempts@ == attempts_for(pids),
                Err(e) => pids.len() == 0 && e@ == not_running_msg(exe@),
            }
        }),
{
    let pids = candidate_pids(exe, sessions, procs);
    if pids.len() == 0 {
        let mut m = String::from_str("\"");
        m.append(exe);
        m.append("\" ne semble pas lancée — démarre l'application puis réessaie");
        return Err(m);
    }
    Ok(RouteRequest { device_path: policy_device_path(device_id), n_pids: pids.len(), attempts: attempts(&pids) })
}

/// Number of accepted calls.
pub open spec fn count_ok(results: Seq<Result<(), String>>) -> nat
    decreases results.len(),
{
    if results.len() == 0 {
        0
    } else {
        count_ok(results.drop_last()) + if results.last() is Ok {
            1nat
        } else {
            0nat
        }
    }
}

/// Message of the last refused call, empty when none was refused.
pub open spec fn last_error(results: Seq<Result<(), String>>) -> Seq<char>
    decreases results.len(),
{
    if results.len() == 0 {
        Seq::empty()
    } else {
        match results.last() {
            Err(e) => e@,
            Ok(_) => last_error(results.drop_last()),
        }
    }
}

/// Error reported when every policy call was refused.
pub open spec fn refused_msg(exe: Seq<char>, n_pids: nat, last: Seq<char>) -> Seq<char> {
    "routage de "@ + exe + " refusé après "@ + dec_seq(n_pids) + " processus essayé(s) : "@ + last
        + " — si l'app vient d'être lancée, fais-lui jouer un son puis réessaie"@
}

/// Outcome of a routing: success as soon as one policy call was accepted
/// (sandboxed helper processes refuse theirs), else an error citing the
/// number of processes tried and the last refusal.
pub fn route_outcome(exe: &str, n_pids: usize, results: &Vec<Result<(), String>>) -> (r: Result<(), String>)
    ensures
        count_ok(results@) > 0 ==> r is Ok,
        count_ok(results@) == 0 ==> r is Err && r->Err_0@ == refused_msg(
            exe@,
            n_pids as nat,
            last_error(results@),
        ),
{
    let mut successes: usize = 0;
    let mut last: Option<usize> = None;
    let mut i: usize = 0;
    while i < results.len()
        invariant
            i <= results@.len(),
            successes == count_ok(results@.take(i as int)),
            successes <= i,
            match last {
                Some(k) => k < i && results@[k as int] is Err && last_error(results@.take(i as int))
                    == results@[k as int]->Err_0@,
                None => last_error(results@.take(i as int)) == Seq::<char>::empty(),
            },
        decreases results@.len() - i,
    {
        assert(results@.take(i + 1).drop_last() =~= results@.take(i as int));
        assert(results@.take(i + 1).last() == results@[i as int]);
        match &results[i] {
            Ok(_) => {
                successes += 1;
            },
            Err(_) => {
                last = Some(i);
            },
        }
        i += 1;
    }
    assert(results@.take(i as int) =~= results@);
    if successes > 0 {
        return Ok(());
    }
    let mut m = String::from_str("routage de ");
    m.append(exe);
    m.append(" refusé après ");
    push_dec(&mut m, n_pids as u64);
    m.append(" processus essayé(s) : ");
    match last {
        Some(k) => {
            match &results[k] {
                Err(e) => m.append(e.as_str()),
                Ok(_) => {},
            }
        },
        None => {},
    }
    m.append(" — si l'app vient d'être lancée, fais-lui jouer un son puis réessaie");
    Err(m)
}

/// Hands `exe` back to the system default output: the policy calls that
/// clear its route on every candidate process (none when it is not
/// running).
pub fn unroute_app(exe: &str, sessions: &Result<Vec<(String, u32)>, String>, procs: &Vec<ProcessEntry>) -> (r: Vec<(u32, i32)>)
    ensures
        r@ == attempts_for(candidate_pids_spec(exe@, sessions_view(*sessions), process_views(procs@))),
{
    let pids = candidate_pids(exe, sessions, procs);
    attempts(&pids)
}

/// Error reported for a blank endpoint name.
pub open spec fn blank_name_msg() -> Seq<char> {
    "nom vide : renommage ignoré"@
}

/// Checks a rename of render endpoint `device_id` to `new_desc`: a blank
/// name would leave the device without a label anywhere in Windows, so it
/// is refused. `Ok` means the rename may be written.
pub fn rename_render_device(device_id: &str, new_desc: &str) -> (r: Result<(), String>)
    ensures
        r is Err <==> unicode_trim(new_desc@).len() == 0,
        r is Err ==> r->Err_0@ == blank_name_msg(),
{
    let t = trim(new_desc);
    if t.unicode_len() == 0 {
        return Err(String::from_str("nom vide : renommage ignoré"));
    }
    Ok(())
}

/// An error message with its context: `"{context}: {message}"`.
pub fn err(context: &str, message: &str) -> (r: String)
    ensures
        r@ == context@ + ": "@ + message@,
{
    let mut s = String::from_str(context);
    s.append(": ");
    s.append(message);
    s
}

} // verus!

verus! {

proof fn lemma_append_new(acc: Seq<u32>, xs: Seq<u32>)
    ensures
        append_new(acc, xs).len() >= acc.len(),
        append_new(acc, xs).subrange(0, acc.len() as int) == acc,
        forall|k: int| 0 <= k < xs.len() ==> append_new(acc, xs).contains(#[trigger] xs[k]),
        forall|k: int|
            0 <= k < append_new(acc, xs).len() ==> acc.contains(#[trigger] append_new(acc, xs)[k]) || xs.contains(
                append_new(acc, xs)[k],
            ),
    decreases xs.len(),
{
    if xs.len() > 0 {
        let t = xs.drop_last();
        lemma_append_new(acc, t);
        let prev = append_new(acc, t);
        let r = append_new(acc, xs);
        assert(r.subrange(0, acc.len() as int) =~= acc) by {
            assert(prev.subrange(0, acc.len() as int) == acc);
            if !prev.contains(xs.last()) {
                assert forall|k: int| 0 <= k < acc.len() implies r[k] == prev[k] by {}
            }
        }
        assert forall|k: int| 0 <= k < xs.len() implies r.contains(#[trigger] xs[k]) by {
            if k < t.len() {
                assert(t[k] == xs[k]);
                assert(prev.contains(t[k]));
                if !prev.contains(xs.last()) {
                    let w = choose|w: int| 0 <= w < prev.len() && prev[w] == t[k];
                    assert(r[w] == prev[w]);
                }
            } else {
                if !prev.contains(xs.last()) {
                    assert(r[r.len() - 1] == xs.last());
                }
            }
        }
        assert forall|k: int| 0 <= k < r.len() implies acc.contains(#[trigger] r[k]) || xs.contains(r[k]) by {
            if k < prev.len() {
                assert(r[k] == prev[k]);
                if t.contains(prev[k]) {
                    let w = choose|w: int| 0 <= w < t.len() && t[w] == prev[k];
                    assert(xs[w] == t[w]);
                }
            } else {
                assert(r[k] == xs.last());
                assert(xs[xs.len() - 1] == xs.last());
            }
        }
    }
}

/// No duplicate in a sequence.
pub open spec fn no_dups(s: Seq<u32>) -> bool {
    forall|a: int, b: int| 0 <= a < b < s.len() ==> s[a] != s[b]
}

proof fn lemma_append_new_no_dups(acc: Seq<u32>, xs: Seq<u32>)
    requires
        no_dups(acc),
    ensures
        no_dups(append_new(acc, xs)),
    decreases xs.len(),
{
    if xs.len() > 0 {
        lemma_append_new_no_dups(acc, xs.drop_last());
        let prev = append_new(acc, xs.drop_last());
        if !prev.contains(xs.last()) {
            let r = prev.push(xs.last());
            assert forall|a: int, b: int| 0 <= a < b < r.len() implies r[a] != r[b] by {
                if b == prev.len() {
                    assert(r[a] == prev[a]);
                }
            }
        }
    }
}

proof fn lemma_append_new_concat(acc: Seq<u32>, xs: Seq<u32>, ys: Seq<u32>)
    ensures
        append_new(acc, xs + ys) == append_new(append_new(acc, xs), ys),
    decreases ys.len(),
{
    if ys.len() == 0 {
        assert(xs + ys =~= xs);
    } else {
        lemma_append_new_concat(acc, xs, ys.drop_last());
        assert((xs + ys).drop_last() =~= xs + ys.drop_last());
        assert((xs + ys).last() == ys.last());
    }
}

/// The PIDs tried for an app: each once; the session owners come first,
/// in order; every running process of the app is tried; nothing else is.
pub proof fn lemma_candidates_cover(
    exe: Seq<char>,
    sessions: Result<Seq<(Seq<char>, u32)>, Seq<char>>,
    procs: Seq<(Seq<char>, u32)>,
)
    ensures
        no_dups(candidate_pids_spec(exe, sessions, procs)),
        candidate_pids_spec(exe, sessions, procs).subrange(
            0,
            append_new(Seq::empty(), session_owner_pids(exe, sessions)).len() as int,
        ) == append_new(Seq::empty(), session_owner_pids(exe, sessions)),
        forall|k: int|
            0 <= k < session_owner_pids(exe, sessions).len() ==> candidate_pids_spec(exe, sessions, procs).contains(
                #[trigger] session_owner_pids(exe, sessions)[k],
            ),
        forall|k: int|
            0 <= k < running_pids(exe, procs).len() ==> candidate_pids_spec(exe, sessions, procs).contains(
                #[trigger] running_pids(exe, procs)[k],
            ),
        forall|k: int|
            0 <= k < candidate_pids_spec(exe, sessions, procs).len() ==> session_owner_pids(exe, sessions).contains(
                #[trigger] candidate_pids_spec(exe, sessions, procs)[k],
            ) || running_pids(exe, procs).contains(candidate_pids_spec(exe, sessions, procs)[k]),
{
    let first = session_owner_pids(exe, sessions);
    let running = running_pids(exe, procs);
    let all = first + running;
    let c = append_new(Seq::empty(), all);
    lemma_append_new_no_dups(Seq::empty(), all);
    lemma_append_new_concat(Seq::empty(), first, running);
    let owners = append_new(Seq::empty(), first);
    lemma_append_new(owners, running);
    lemma_append_new(Seq::empty(), all);
    assert forall|k: int| 0 <= k < first.len() implies c.contains(#[trigger] first[k]) by {
        assert(all[k] == first[k]);
    }
    assert forall|k: int| 0 <= k < running.len() implies c.contains(#[trigger] running[k]) by {
        assert(all[first.len() + k] == running[k]);
    }
    assert forall|k: int| 0 <= k < c.len() implies first.contains(#[trigger] c[k]) || running.contains(c[k]) by {
        assert(Seq::<u32>::empty().contains(c[k]) || all.contains(c[k]));
        let w = choose|w: int| 0 <= w < all.len() && all[w] == c[k];
        if w < first.len() {
            assert(first[w] == c[k]);
        } else {
            assert(running[w - first.len()] == c[k]);
        }
    }
}

/// The policy calls address each PID in both roles, console first, in the
/// PIDs' order.
pub proof fn lemma_attempts_for(pids: Seq<u32>)
    ensures
        attempts_for(pids).len() == 2 * pids.len(),
        forall|k: int|
            0 <= k < pids.len() ==> #[trigger] attempts_for(pids)[2 * k] == (pids[k], ROLE_CONSOLE) && attempts_for(pids)[2
                * k + 1] == (pids[k], ROLE_MULTIMEDIA),
    decreases pids.len(),
{
    if pids.len() > 0 {
        let t = pids.drop_last();
        lemma_attempts_for(t);
        assert forall|k: int| 0 <= k < pids.len() implies #[trigger] attempts_for(pids)[2 * k] == (pids[k], ROLE_CONSOLE)
            && attempts_for(pids)[2 * k + 1] == (pids[k], ROLE_MULTIMEDIA) by {
            if k < t.len() {
                assert(t[k] == pids[k]);
                assert(attempts_for(t)[2 * k] == (t[k], ROLE_CONSOLE));
            }
        }
    }
}

} // verus!

verus! {

/// Lower-cased names of every app routed into one of `lines`.
pub open spec fn app_keys(lines: Seq<crate::model::LineConfig>) -> Seq<Seq<char>>
    decreases lines.len(),
{
    if lines.len() == 0 {
        Seq::empty()
    } else {
        app_keys(lines.drop_last()) + lines.last().apps@.map_values(|a: String| unicode_lowercase(a@))
    }
}

/// The app is not among `kept` (case-insensitively).
pub open spec fn not_kept(kept: Seq<Seq<char>>) -> spec_fn(String) -> bool {
    |a: String| !kept.contains(unicode_lowercase(a@))
}

/// The apps of `lines` that are not among `kept`, line by line.
pub open spec fn stale_in(lines: Seq<crate::model::LineConfig>, kept: Seq<Seq<char>>) -> Seq<String>
    decreases lines.len(),
{
    if lines.len() == 0 {
        Seq::empty()
    } else {
        stale_in(lines.drop_last(), kept) + lines.last().apps@.filter(not_kept(kept))
    }
}

/// Some line of `lines` routes an app named `key` (ASCII and Unicode case
/// ignored).
pub open spec fn routes_app(lines: Seq<crate::model::LineConfig>, key: Seq<char>) -> bool {
    exists|j: int, m: int|
        0 <= j < lines.len() && 0 <= m < lines[j].apps@.len() && unicode_lowercase(#[trigger] lines[j].apps@[m]@) == key
}

proof fn lemma_app_keys_routes(lines: Seq<crate::model::LineConfig>, key: Seq<char>)
    ensures
        app_keys(lines).contains(key) == routes_app(lines, key),
    decreases lines.len(),
{
    if lines.len() > 0 {
        let t = lines.drop_last();
        let n = t.len() as int;
        lemma_app_keys_routes(t, key);
        let last = lines.last().apps@.map_values(|a: String| unicode_lowercase(a@));
        assert(app_keys(lines) == app_keys(t) + last);
        if app_keys(lines).contains(key) {
            let w = choose|w: int| 0 <= w < app_keys(lines).len() && app_keys(lines)[w] == key;
            if w < app_keys(t).len() {
                assert(app_keys(t)[w] == key);
                let (j, m) = choose|j: int, m: int|
                    0 <= j < t.len() && 0 <= m < t[j].apps@.len() && unicode_lowercase(#[trigger] t[j].apps@[m]@) == key;
                assert(lines[j] == t[j]);
                assert(unicode_lowercase(lines[j].apps@[m]@) == key);
            } else {
                let m = w - app_keys(t).len();
                assert(last[m] == key);
                assert(lines[n] == lines.last());
                assert(unicode_lowercase(lines[n].apps@[m]@) == key);
            }
        }
        if routes_app(lines, key) {
            let (j, m) = choose|j: int, m: int|
                0 <= j < lines.len() && 0 <= m < lines[j].apps@.len() && unicode_lowercase(#[trigger] lines[j].apps@[m]@) == key;
            if j < n {
                assert(t[j] == lines[j]);
                assert(unicode_lowercase(t[j].apps@[m]@) == key);
                let w = choose|w: int| 0 <= w < app_keys(t).len() && app_keys(t)[w] == key;
                assert(app_keys(lines)[w] == key);
            } else {
                assert(last[m] == key);
                assert(app_keys(lines)[app_keys(t).len() + m] == key);
            }
        }
    }
}

/// The apps handed back are exactly those of `lines` not among `kept`
/// (case ignored): every such app is there, and nothing else is.
pub proof fn lemma_stale_in(lines: Seq<crate::model::LineConfig>, kept: Seq<Seq<char>>)
    ensures
        forall|i: int, k: int|
            0 <= i < lines.len() && 0 <= k < lines[i].apps@.len() && !kept.contains(
                unicode_lowercase((#[trigger] lines[i].apps@[k])@),
            ) ==> stale_in(lines, kept).contains(lines[i].apps@[k]),
        forall|x: int|
            #![trigger stale_in(lines, kept)[x]]
            0 <= x < stale_in(lines, kept).len() ==> !kept.contains(unicode_lowercase(stale_in(lines, kept)[x]@))
                && exists|i: int, k: int|
                0 <= i < lines.len() && 0 <= k < lines[i].apps@.len() && #[trigger] lines[i].apps@[k] == stale_in(
                    lines,
                    kept,
                )[x],
    decreases lines.len(),
{
    if lines.len() > 0 {
        let t = lines.drop_last();
        let n = t.len() as int;
        lemma_stale_in(t, kept);
        let p = not_kept(kept);
        let apps = lines.last().apps@;
        let prev = stale_in(t, kept);
        let cur = stale_in(lines, kept);
        assert(cur == prev + apps.filter(p));
        crate::seqs::lemma_filter_members(apps, p);
        assert(lines[n] == lines.last());
        assert forall|i: int, k: int|
            0 <= i < lines.len() && 0 <= k < lines[i].apps@.len() && !kept.contains(
                unicode_lowercase((#[trigger] lines[i].apps@[k])@),
            ) implies cur.contains(lines[i].apps@[k]) by {
            let a = lines[i].apps@[k];
            if i < n {
                assert(t[i] == lines[i]);
                assert(!kept.contains(unicode_lowercase(t[i].apps@[k]@)));
                let w = choose|w: int| 0 <= w < prev.len() && prev[w] == a;
                assert(cur[w] == a);
            } else {
                assert(p(apps[k]));
                let w = choose|w: int| 0 <= w < apps.filter(p).len() && apps.filter(p)[w] == a;
                assert(cur[prev.len() + w] == a);
            }
        }
        assert forall|x: int| #![trigger cur[x]] 0 <= x < cur.len() implies !kept.contains(unicode_lowercase(cur[x]@))
            && exists|i: int, k: int|
            0 <= i < lines.len() && 0 <= k < lines[i].apps@.len() && #[trigger] lines[i].apps@[k] == cur[x] by {
            if x < prev.len() {
                assert(cur[x] == prev[x]);
                let (i, k) = choose|i: int, k: int|
                    0 <= i < t.len() && 0 <= k < t[i].apps@.len() && #[trigger] t[i].apps@[k] == prev[x];
                assert(lines[i] == t[i]);
                assert(lines[i].apps@[k] == cur[x]);
            } else {
                let y = x - prev.len();
                assert(cur[x] == apps.filter(p)[y]);
                assert(p(apps.filter(p)[y]));
                let k = choose|k: int| 0 <= k < apps.len() && apps[k] == apps.filter(p)[y];
                assert(lines[n].apps@[k] == cur[x]);
            }
        }
    }
}

fn collect_keys(lines: &Vec<crate::model::LineConfig>) -> (r: Vec<String>)
    ensures
        crate::reconcile::string_views(r@) == app_keys(lines@),
{
    let mut out: Vec<String> = Vec::new();
    let mut i: usize = 0;
    while i < lines.len()
        invariant
            i <= lines@.len(),
            crate::reconcile::string_views(out@) == app_keys(lines@.take(i as int)),
        decreases lines@.len() - i,
    {
        assert(lines@.take(i + 1).drop_last() =~= lines@.take(i as int));
        assert(lines@.take(i + 1).last() == lines@[i as int]);
        let apps = &lines[i].apps;
        let ghost base = crate::reconcile::string_views(out@);
        let ghost f = |a: String| unicode_lowercase(a@);
        let mut j: usize = 0;
        while j < apps.len()
            invariant
                j <= apps@.len(),
                f == (|a: String| unicode_lowercase(a@)),
                crate::reconcile::string_views(out@) == base + apps@.take(j as int).map_values(f),
            decreases apps@.len() - j,
        {
            let ghost before = crate::reconcile::string_views(out@);
            out.push(to_lowercase(apps[j].as_str()));
            assert(apps@.take(j + 1).map_values(f) =~= apps@.take(j as int).map_values(f).push(f(apps@[j as int])));
            assert(crate::reconcile::string_views(out@) =~= before.push(f(apps@[j as int])));
            j += 1;
        }
        assert(apps@.take(j as int) =~= apps@);
        i += 1;
    }
    assert(lines@.take(i as int) =~= lines@);
    out
}

fn contains_key(keys: &Vec<String>, k: &str) -> (r: bool)
    ensures
        r == crate::reconcile::string_views(keys@).contains(k@),
{
    let mut i: usize = 0;
    while i < keys.len()
        invariant
            i <= keys@.len(),
            forall|t: int| 0 <= t < i ==> #[trigger] keys@[t]@ != k@,
        decreases keys@.len() - i,
    {
        if str_eq(keys[i].as_str(), k) {
            assert(crate::reconcile::string_views(keys@)[i as int] == k@);
            return true;
        }
        i += 1;
    }
    assert forall|t: int| 0 <= t < crate::reconcile::string_views(keys@).len() implies crate::reconcile::string_views(
        keys@,
    )[t] != k@ by {
        assert(crate::reconcile::string_views(keys@)[t] == keys@[t]@);
    }
    false
}

/// When a configuration replaces `current`, the apps `current` routed
/// that `replacement` no longer names (case-insensitively): Windows keeps
/// their routes persisted, so they must be handed back to the default
/// output or they would play into a cable nobody captures.
pub fn stale_apps(current: &AppConfig, replacement: &AppConfig) -> (r: Vec<String>)
    ensures
        r@ == stale_in(current.lines@, app_keys(replacement.lines@)),
        forall|i: int, k: int|
            0 <= i < current.lines@.len() && 0 <= k < current.lines@[i].apps@.len() && !routes_app(
                replacement.lines@,
                unicode_lowercase((#[trigger] current.lines@[i].apps@[k])@),
            ) ==> r@.contains(current.lines@[i].apps@[k]),
        forall|x: int|
            0 <= x < r@.len() ==> !routes_app(replacement.lines@, unicode_lowercase((#[trigger] r@[x])@)) && exists|
                i: int,
                k: int,
            |
                0 <= i < current.lines@.len() && 0 <= k < current.lines@[i].apps@.len() && #[trigger] current.lines@[i].apps@[k]
                    == r@[x],
{
    let keys = collect_keys(&replacement.lines);
    let ghost kept = crate::reconcile::string_views(keys@);
    let ghost p = not_kept(kept);
    let mut out: Vec<String> = Vec::new();
    let mut i: usize = 0;
    while i < current.lines.len()
        invariant
            i <= current.lines@.len(),
            kept == crate::reconcile::string_views(keys@),
            kept == app_keys(replacement.lines@),
            p == not_kept(kept),
            out@ == stale_in(current.lines@.take(i as int), kept),
        decreases current.lines@.len() - i,
    {
        assert(current.lines@.take(i + 1).drop_last() =~= current.lines@.take(i as int));
        assert(current.lines@.take(i + 1).last() == current.lines@[i as int]);
        let apps = &current.lines[i].apps;
        let ghost base = out@;
        let mut j: usize = 0;
        while j < apps.len()
            invariant
                j <= apps@.len(),
                kept == crate::reconcile::string_views(keys@),
                p == not_kept(kept),
                out@ == base + apps@.take(j as int).filter(p),
            decreases apps@.len() - j,
        {
            proof {
                crate::seqs::lemma_filter_take_step(apps@, p, j as int);
            }
            let key = to_lowercase(apps[j].as_str());
            if !contains_key(&keys, key.as_str()) {
                out.push(apps[j].clone());
                assert(out@ =~= base + apps@.take(j + 1).filter(p));
            } else {
                assert(out@ =~= base + apps@.take(j + 1).filter(p));
            }
            j += 1;
        }
        assert(apps@.take(j as int) =~= apps@);
        i += 1;
    }
    assert(current.lines@.take(i as int) =~= current.lines@);
    proof {
        let rk = app_keys(replacement.lines@);
        lemma_stale_in(current.lines@, rk);
        assert forall|key: Seq<char>| #[trigger] rk.contains(key) == routes_app(replacement.lines@, key) by {
            lemma_app_keys_routes(replacement.lines@, key);
        }
    }
    out
}

} // verus!
