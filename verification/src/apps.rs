//! The application list: audio sessions and well-known running apps merged
//! into one entry per executable, ordered for display.

use vstd::prelude::*;
use crate::names::{exe_label, exe_label_spec, file_name, file_name_spec};
use crate::seqs::{
    first_match, first_match_from, lemma_first_match, lemma_insert_point, lemma_stable_sort, lemma_stable_sort_take,
    stable_sort, total_preorder,
};
use crate::text::{str_eq, to_lowercase, unicode_lowercase};

verus! {

broadcast use vstd::seq_lib::group_to_multiset_ensures;

/// One application that currently has an audio session (or is a
/// well-known audio app that is running).
#[derive(Clone, Debug)]
pub struct AppInfo {
    /// Executable file name, e.g. "Spotify.exe": the stable identifier.
    pub exe: String,
    /// Display label, e.g. "Spotify".
    pub label: String,
    /// PID of one owner process.
    pub pid: u32,
    /// The session is rendering right now.
    pub active: bool,
    /// Small icon as a data URI, when one could be extracted.
    pub icon: Option<String>,
}

/// What an [`AppInfo`] holds, as plain values.
pub struct AppView {
    pub exe: Seq<char>,
    pub label: Seq<char>,
    pub pid: u32,
    pub active: bool,
    pub icon: Option<Seq<char>>,
}

impl View for AppInfo {
    type V = AppView;

    open spec fn view(&self) -> AppView {
        AppView {
            exe: self.exe@,
            label: self.label@,
            pid: self.pid,
            active: self.active,
            icon: match self.icon {
                Some(s) => Some(s@),
                None => None,
            },
        }
    }
}

/// Views of a list of apps.
pub open spec fn app_views(apps: Seq<AppInfo>) -> Seq<AppView> {
    apps.map_values(|a: AppInfo| a@)
}

/// Lexicographic order on character sequences (the order of `str`'s `Ord`,
/// which compares UTF-8 bytes and so code points).
pub open spec fn chars_le(a: Seq<char>, b: Seq<char>) -> bool
    decreases a.len(),
{
    if a.len() == 0 {
        true
    } else if b.len() == 0 {
        false
    } else if a[0] != b[0] {
        a[0] < b[0]
    } else {
        chars_le(a.drop_first(), b.drop_first())
    }
}

/// [`chars_le`] is total.
pub proof fn lemma_chars_le_total(a: Seq<char>, b: Seq<char>)
    ensures
        chars_le(a, b) || chars_le(b, a),
    decreases a.len(),
{
    if a.len() > 0 && b.len() > 0 && a[0] == b[0] {
        lemma_chars_le_total(a.drop_first(), b.drop_first());
    }
}

/// [`chars_le`] is transitive.
pub proof fn lemma_chars_le_transitive(a: Seq<char>, b: Seq<char>, c: Seq<char>)
    requires
        chars_le(a, b),
        chars_le(b, c),
    ensures
        chars_le(a, c),
    decreases a.len(),
{
    if a.len() > 0 && b.len() > 0 && c.len() > 0 && a[0] == b[0] && b[0] == c[0] {
        lemma_chars_le_transitive(a.drop_first(), b.drop_first(), c.drop_first());
    }
}

/// Lexicographic comparison of two strings: `a <= b`.
pub fn label_le(a: &str, b: &str) -> (r: bool)
    ensures
        r == chars_le(a@, b@),
{
    let na = a.unicode_len();
    let nb = b.unicode_len();
    let mut i: usize = 0;
    proof {
        assert(a@.skip(0) =~= a@);
        assert(b@.skip(0) =~= b@);
    }
    loop
        invariant
            na == a@.len(),
            nb == b@.len(),
            i <= na,
            i <= nb,
            chars_le(a@, b@) == chars_le(a@.skip(i as int), b@.skip(i as int)),
        decreases na - i,
    {
        if i == na {
            return true;
        }
        if i == nb {
            return false;
        }
        let ca = a.get_char(i);
        let cb = b.get_char(i);
        proof {
            assert(a@.skip(i as int)[0] == ca);
            assert(b@.skip(i as int)[0] == cb);
        }
        if ca != cb {
            return ca < cb;
        }
        proof {
            assert(a@.skip(i as int).drop_first() =~= a@.skip(i + 1));
            assert(b@.skip(i as int).drop_first() =~= b@.skip(i + 1));
        }
        i += 1;
    }
}

/// Display order: actively playing apps first, then by label.
pub open spec fn app_le(a: AppView, b: AppView) -> bool {
    ||| (a.active && !b.active)
    ||| (a.active == b.active && chars_le(a.label, b.label))
}

/// The list is in display order.
pub open spec fn apps_sorted(s: Seq<AppView>) -> bool {
    forall|i: int, j: int| 0 <= i < j < s.len() ==> app_le(#[trigger] s[i], #[trigger] s[j])
}

/// [`app_le`] is a total preorder.
pub proof fn lemma_app_le_order(a: AppView, b: AppView, c: AppView)
    ensures
        app_le(a, b) || app_le(b, a),
        app_le(a, b) && app_le(b, c) ==> app_le(a, c),
{
    lemma_chars_le_total(a.label, b.label);
    if app_le(a, b) && app_le(b, c) && a.active == b.active && b.active == c.active {
        lemma_chars_le_transitive(a.label, b.label, c.label);
    }
}

fn app_before(a: &AppInfo, b: &AppInfo) -> (r: bool)
    ensures
        r == app_le(a@, b@),
{
    if a.active != b.active {
        a.active
    } else {
        label_le(a.label.as_str(), b.label.as_str())
    }
}

fn copy_app(a: &AppInfo) -> (r: AppInfo)
    ensures
        r@ == a@,
{
    AppInfo {
        exe: a.exe.clone(),
        label: a.label.clone(),
        pid: a.pid,
        active: a.active,
        icon: match &a.icon {
            Some(s) => Some(s.clone()),
            None => None,
        },
    }
}

/// The display order as a relation.
pub open spec fn app_order() -> spec_fn(AppView, AppView) -> bool {
    |a: AppView, b: AppView| app_le(a, b)
}

/// The display order is a total preorder.
pub proof fn lemma_app_order_total_preorder()
    ensures
        total_preorder(app_order()),
{
    assert forall|a: AppView, b: AppView| #[trigger] app_order()(a, b) || app_order()(b, a) by {
        lemma_app_le_order(a, b, b);
    }
    assert forall|a: AppView, b: AppView, c: AppView| #[trigger] app_order()(a, b) && #[trigger] app_order()(b, c) implies app_order()(
        a,
        c,
    ) by {
        lemma_app_le_order(a, b, c);
    }
}

/// Orders apps for display; equal keys keep their order.
pub fn sort_apps(apps: &Vec<AppInfo>) -> (r: Vec<AppInfo>)
    ensures
        app_views(r@) == stable_sort(app_views(apps@), app_order()),
{
    let ghost src = app_views(apps@);
    let ghost le = app_order();
    let mut out: Vec<AppInfo> = Vec::new();
    let mut i: usize = 0;
    while i < apps.len()
        invariant
            i <= apps@.len(),
            src == app_views(apps@),
            le == app_order(),
            app_views(out@) == stable_sort(src.take(i as int), le),
        decreases apps@.len() - i,
    {
        let x = copy_app(&apps[i]);
        let ghost ov = app_views(out@);
        let mut p: usize = 0;
        while p < out.len() && app_before(&out[p], &x)
            invariant
                p <= out@.len(),
                ov == app_views(out@),
                x@ == src[i as int],
                le == app_order(),
                forall|k: int| 0 <= k < p ==> le(#[trigger] ov[k], x@),
            decreases out@.len() - p,
        {
            p += 1;
        }
        proof {
            lemma_insert_point(ov, x@, le, p as int);
            lemma_stable_sort_take(src, le, i as int);
        }
        out.insert(p, x);
        assert(app_views(out@) =~= ov.insert(p as int, src[i as int]));
        i += 1;
    }
    assert(src.take(i as int) =~= src);
    out
}

/// The displayed list is in display order and holds exactly the scanned
/// entries.
pub proof fn lemma_app_list_order(s: Seq<AppView>)
    ensures
        apps_sorted(stable_sort(s, app_order())),
        stable_sort(s, app_order()).to_multiset() == s.to_multiset(),
{
    lemma_app_order_total_preorder();
    lemma_stable_sort(s, app_order());
    let r = stable_sort(s, app_order());
    assert forall|i: int, j: int| 0 <= i < j < r.len() implies app_le(#[trigger] r[i], #[trigger] r[j]) by {
        assert(app_order()(r[i], r[j]));
    }
}

/// One audio session as the endpoint enumeration reports it.
#[derive(Clone, Debug)]
pub struct SessionEntry {
    /// Owner process.
    pub pid: u32,
    /// Full image path of the owner, when it could be resolved.
    pub path: Option<String>,
    /// The session is rendering right now.
    pub active: bool,
}

/// One running process as the process snapshot reports it.
#[derive(Clone, Debug)]
pub struct ProcessEntry {
    pub pid: u32,
    /// Executable file name.
    pub name: String,
}

/// Scan state: lower-cased executable keys and their entries, in
/// insertion order.
pub type ScanState = (Seq<Seq<char>>, Seq<AppView>);

/// The key is this one.
pub open spec fn key_is(key: Seq<char>) -> spec_fn(Seq<char>) -> bool {
    |k: Seq<char>| k == key
}

/// A new entry for executable `exe`, owned by `pid`.
pub open spec fn fresh_app(exe: Seq<char>, pid: u32, active: bool) -> AppView {
    AppView { exe, label: exe_label_spec(exe), pid, active, icon: None }
}

/// One session seen: the system-sounds session (pid 0), our own process
/// and unresolvable owners are skipped; a new executable gets an entry, a
/// known one is flagged active if this session is.
pub open spec fn scan_session(st: ScanState, s: SessionEntry, own_pid: u32) -> ScanState {
    if s.pid == 0 || s.pid == own_pid || s.path is None {
        st
    } else {
        let exe = file_name_spec(s.path->0@);
        let key = unicode_lowercase(exe);
        match first_match(st.0, key_is(key)) {
            Some(i) => (st.0, st.1.update(i, AppView { active: st.1[i].active || s.active, ..st.1[i] })),
            None => (st.0.push(key), st.1.push(fresh_app(exe, s.pid, s.active))),
        }
    }
}

/// All sessions seen, in order.
pub open spec fn scan_sessions(sessions: Seq<SessionEntry>, own_pid: u32) -> ScanState
    decreases sessions.len(),
{
    if sessions.len() == 0 {
        (Seq::empty(), Seq::empty())
    } else {
        scan_session(scan_sessions(sessions.drop_last(), own_pid), sessions.last(), own_pid)
    }
}

/// Well-known audio apps that deserve an entry while running silent.
pub open spec fn is_known_app_spec(key: Seq<char>) -> bool {
    ||| key == "discord.exe"@
    ||| key == "spotify.exe"@
    ||| key == "chrome.exe"@
    ||| key == "msedge.exe"@
    ||| key == "firefox.exe"@
    ||| key == "brave.exe"@
    ||| key == "opera.exe"@
    ||| key == "vlc.exe"@
    ||| key == "steam.exe"@
    ||| key == "obs64.exe"@
    ||| key == "deezer.exe"@
    ||| key == "tidal.exe"@
}

/// Is this lower-cased executable name a well-known audio app?
pub fn is_known_app(key: &str) -> (r: bool)
    ensures
        r == is_known_app_spec(key@),
{
    str_eq(key, "discord.exe") || str_eq(key, "spotify.exe") || str_eq(key, "chrome.exe") || str_eq(
        key,
        "msedge.exe",
    ) || str_eq(key, "firefox.exe") || str_eq(key, "brave.exe") || str_eq(key, "opera.exe") || str_eq(
        key,
        "vlc.exe",
    ) || str_eq(key, "steam.exe") || str_eq(key, "obs64.exe") || str_eq(key, "deezer.exe") || str_eq(
        key,
        "tidal.exe",
    )
}

/// One running process seen: a well-known app without an entry gets one,
/// silent.
pub open spec fn scan_process(st: ScanState, p: ProcessEntry) -> ScanState {
    let key = unicode_lowercase(p.name@);
    if is_known_app_spec(key) && first_match(st.0, key_is(key)) is None {
        (st.0.push(key), st.1.push(fresh_app(p.name@, p.pid, false)))
    } else {
        st
    }
}

/// All running processes seen, in order, after `st`.
pub open spec fn scan_processes(st: ScanState, procs: Seq<ProcessEntry>) -> ScanState
    decreases procs.len(),
{
    if procs.len() == 0 {
        st
    } else {
        scan_process(scan_processes(st, procs.drop_last()), procs.last())
    }
}

/// The entries the scan finds, before ordering.
pub open spec fn scanned_apps(sessions: Seq<SessionEntry>, procs: Seq<ProcessEntry>, own_pid: u32) -> Seq<AppView> {
    scan_processes(scan_sessions(sessions, own_pid), procs).1
}

fn find_key(keys: &Vec<String>, key: &str) -> (r: Option<usize>)
    ensures
        idx_of(r) == first_match(crate::reconcile::string_views(keys@), key_is(key@)),
{
    let ghost kv = crate::reconcile::string_views(keys@);
    let mut i: usize = 0;
    while i < keys.len()
        invariant
            i <= keys@.len(),
            kv == crate::reconcile::string_views(keys@),
            first_match(kv, key_is(key@)) == first_match_from(kv, key_is(key@), i as int),
        decreases keys@.len() - i,
    {
        assert(kv[i as int] == keys@[i as int]@);
        if str_eq(keys[i].as_str(), key) {
            return Some(i);
        }
        i += 1;
    }
    None
}

/// `Some(i)` as an integer index.
pub open spec fn idx_of(r: Option<usize>) -> Option<int> {
    match r {
        Some(i) => Some(i as int),
        None => None,
    }
}

/// Merges the audio sessions and the running processes into one entry
/// per executable (case-insensitive), then orders the entries for
/// display. Icons are left to the caller (`icon` is `None`).
pub fn list_apps_from(sessions: &Vec<SessionEntry>, procs: &Vec<ProcessEntry>, own_pid: u32) -> (r: Vec<AppInfo>)
    ensures
        app_views(r@) == stable_sort(scanned_apps(sessions@, procs@, own_pid), app_order()),
{
    let mut keys: Vec<String> = Vec::new();
    let mut apps: Vec<AppInfo> = Vec::new();
    let mut i: usize = 0;
    while i < sessions.len()
        invariant
            i <= sessions@.len(),
            keys@.len() == apps@.len(),
            (crate::reconcile::string_views(keys@), app_views(apps@)) == scan_sessions(
                sessions@.take(i as int),
                own_pid,
            ),
        decreases sessions@.len() - i,
    {
        let ghost pre = sessions@.take(i + 1);
        assert(pre.drop_last() =~= sessions@.take(i as int));
        let s = &sessions[i];
        if s.pid != 0 && s.pid != own_pid {
            if let Some(path) = &s.path {
                let exe = file_name(path.as_str());
                let key = to_lowercase(exe.as_str());
                let found = find_key(&keys, key.as_str());
                proof {
                    lemma_first_match(crate::reconcile::string_views(keys@), key_is(key@));
                }
                match found {
                    Some(k) => {
                        let ghost before = app_views(apps@);
                        let merged = apps[k].active || s.active;
                        apps[k].active = merged;
                        assert(app_views(apps@) =~= before.update(
                            k as int,
                            AppView { active: before[k as int].active || s.active, ..before[k as int] },
                        ));
                    },
                    None => {
                        let ghost kb = crate::reconcile::string_views(keys@);
                        let ghost ab = app_views(apps@);
                        let label = exe_label(exe.as_str());
                        keys.push(key);
                        apps.push(AppInfo { exe, label, pid: s.pid, active: s.active, icon: None });
                        assert(crate::reconcile::string_views(keys@) =~= kb.push(key@));
                        assert(app_views(apps@) =~= ab.push(fresh_app(file_name_spec(path@), s.pid, s.active)));
                    },
                }
            }
        }
        i += 1;
    }
    assert(sessions@.take(i as int) =~= sessions@);
    let ghost st0 = scan_sessions(sessions@, own_pid);
    let mut j: usize = 0;
    while j < procs.len()
        invariant
            j <= procs@.len(),
            keys@.len() == apps@.len(),
            st0 == scan_sessions(sessions@, own_pid),
            (crate::reconcile::string_views(keys@), app_views(apps@)) == scan_processes(st0, procs@.take(j as int)),
        decreases procs@.len() - j,
    {
        let ghost pre = procs@.take(j + 1);
        assert(pre.drop_last() =~= procs@.take(j as int));
        let p = &procs[j];
        let key = to_lowercase(p.name.as_str());
        if is_known_app(key.as_str()) {
            let found = find_key(&keys, key.as_str());
            if found.is_none() {
                let ghost kb = crate::reconcile::string_views(keys@);
                let ghost ab = app_views(apps@);
                let exe = p.name.clone();
                let label = exe_label(p.name.as_str());
                keys.push(key);
                apps.push(AppInfo { exe, label, pid: p.pid, active: false, icon: None });
                assert(crate::reconcile::string_views(keys@) =~= kb.push(key@));
                assert(app_views(apps@) =~= ab.push(fresh_app(p.name@, p.pid, false)));
            }
        }
        j += 1;
    }
    assert(procs@.take(j as int) =~= procs@);
    sort_apps(&apps)
}

} // verus!

verus! {

/// The session takes part in the scan: a real owner process, not ours,
/// whose path could be resolved.
pub open spec fn counted_session(s: SessionEntry, own_pid: u32) -> bool {
    s.pid != 0 && s.pid != own_pid && s.path is Some
}

/// The lower-cased executable name a session stands for.
pub open spec fn session_key(s: SessionEntry) -> Seq<char> {
    unicode_lowercase(file_name_spec(s.path->0@))
}

/// The lower-cased executable name of an entry.
pub open spec fn app_key(a: AppView) -> Seq<char> {
    unicode_lowercase(a.exe)
}

/// The lower-cased executable names of entries.
pub open spec fn app_keys(apps: Seq<AppView>) -> Seq<Seq<char>> {
    apps.map_values(|a: AppView| app_key(a))
}

/// Session `j` takes part in the scan and stands for `key`.
pub open spec fn session_for(sessions: Seq<SessionEntry>, own_pid: u32, key: Seq<char>, j: int) -> bool {
    0 <= j < sessions.len() && counted_session(sessions[j], own_pid) && session_key(sessions[j]) == key
}

/// Some counted session stands for `key`.
pub open spec fn has_session(sessions: Seq<SessionEntry>, own_pid: u32, key: Seq<char>) -> bool {
    exists|j: int| #[trigger] session_for(sessions, own_pid, key, j)
}

/// Some counted session standing for `key` is rendering.
pub open spec fn has_active_session(sessions: Seq<SessionEntry>, own_pid: u32, key: Seq<char>) -> bool {
    exists|j: int| #[trigger] session_for(sessions, own_pid, key, j) && sessions[j].active
}

/// Process `q` is a running well-known app whose lower-cased name is `key`.
pub open spec fn known_process_for(procs: Seq<ProcessEntry>, key: Seq<char>, q: int) -> bool {
    0 <= q < procs.len() && unicode_lowercase(procs[q].name@) == key && is_known_app_spec(key)
}

/// A running well-known app is named `key` (case ignored).
pub open spec fn has_known_process(procs: Seq<ProcessEntry>, key: Seq<char>) -> bool {
    exists|q: int| #[trigger] known_process_for(procs, key, q)
}

spec fn scan_state_ok(st: ScanState) -> bool {
    &&& st.0.len() == st.1.len()
    &&& forall|k: int| 0 <= k < st.0.len() ==> #[trigger] st.0[k] == app_key(st.1[k])
    &&& forall|a: int, b: int| 0 <= a < b < st.0.len() ==> #[trigger] st.0[a] != #[trigger] st.0[b]
}

proof fn lemma_sessions_push(t: Seq<SessionEntry>, x: SessionEntry, own_pid: u32, key: Seq<char>)
    ensures
        has_session(t.push(x), own_pid, key) == (has_session(t, own_pid, key) || (counted_session(x, own_pid)
            && session_key(x) == key)),
        has_active_session(t.push(x), own_pid, key) == (has_active_session(t, own_pid, key) || (counted_session(
            x,
            own_pid,
        ) && session_key(x) == key && x.active)),
{
    let s = t.push(x);
    if has_session(t, own_pid, key) {
        let j = choose|j: int| #[trigger] session_for(t, own_pid, key, j);
        assert(s[j] == t[j]);
        assert(session_for(s, own_pid, key, j));
    }
    if has_active_session(t, own_pid, key) {
        let j = choose|j: int| #[trigger] session_for(t, own_pid, key, j) && t[j].active;
        assert(s[j] == t[j]);
        assert(session_for(s, own_pid, key, j));
    }
    if counted_session(x, own_pid) && session_key(x) == key {
        assert(s[t.len() as int] == x);
        assert(session_for(s, own_pid, key, t.len() as int));
    }
    if has_session(s, own_pid, key) {
        let j = choose|j: int| #[trigger] session_for(s, own_pid, key, j);
        if j < t.len() {
            assert(s[j] == t[j]);
            assert(session_for(t, own_pid, key, j));
        }
    }
    if has_active_session(s, own_pid, key) {
        let j = choose|j: int| #[trigger] session_for(s, own_pid, key, j) && s[j].active;
        if j < t.len() {
            assert(s[j] == t[j]);
            assert(session_for(t, own_pid, key, j));
        }
    }
}

proof fn lemma_scan_sessions(sessions: Seq<SessionEntry>, own_pid: u32)
    ensures
        scan_state_ok(scan_sessions(sessions, own_pid)),
        forall|k: int|
            0 <= k < scan_sessions(sessions, own_pid).0.len() ==> (#[trigger] scan_sessions(sessions, own_pid).1[k]).active
                == has_active_session(sessions, own_pid, scan_sessions(sessions, own_pid).0[k]),
        forall|k: int|
            0 <= k < scan_sessions(sessions, own_pid).0.len() ==> has_session(
                sessions,
                own_pid,
                #[trigger] scan_sessions(sessions, own_pid).0[k],
            ),
        forall|key: Seq<char>|
            #[trigger] has_session(sessions, own_pid, key) ==> scan_sessions(sessions, own_pid).0.contains(key),
    decreases sessions.len(),
{
    if sessions.len() > 0 {
        let t = sessions.drop_last();
        let x = sessions.last();
        lemma_scan_sessions(t, own_pid);
        assert(t.push(x) =~= sessions);
        let st0 = scan_sessions(t, own_pid);
        let st = scan_sessions(sessions, own_pid);
        assert(st == scan_session(st0, x, own_pid));
        let key = session_key(x);
        lemma_first_match(st0.0, key_is(key));
        assert forall|y: Seq<char>| #[trigger] has_session(sessions, own_pid, y) ==> st.0.contains(y) by {
            lemma_sessions_push(t, x, own_pid, y);
            if has_session(sessions, own_pid, y) {
                if has_session(t, own_pid, y) {
                    let k = choose|k: int| 0 <= k < st0.0.len() && st0.0[k] == y;
                    assert(st.0[k] == y);
                } else if st.0.len() > st0.0.len() {
                    assert(st.0[st0.0.len() as int] == y);
                } else {
                    let i = first_match(st0.0, key_is(key))->0;
                    assert(st.0[i] == y);
                }
            }
        }
        assert forall|k: int| 0 <= k < st.0.len() implies has_session(sessions, own_pid, #[trigger] st.0[k]) by {
            lemma_sessions_push(t, x, own_pid, st.0[k]);
            if k < st0.0.len() {
                assert(st.0[k] == st0.0[k]);
            }
        }
        assert forall|k: int| 0 <= k < st.0.len() implies (#[trigger] st.1[k]).active == has_active_session(
            sessions,
            own_pid,
            st.0[k],
        ) by {
            lemma_sessions_push(t, x, own_pid, st.0[k]);
            if k < st0.0.len() {
                assert(st.0[k] == st0.0[k]);
                if counted_session(x, own_pid) && first_match(st0.0, key_is(key)) is Some {
                    let i = first_match(st0.0, key_is(key))->0;
                    if k != i {
                        assert(st0.0[k] != st0.0[i]);
                    }
                }
            } else {
                assert(!has_session(t, own_pid, st.0[k])) by {
                    if has_session(t, own_pid, st.0[k]) {
                        assert(st0.0.contains(key));
                    }
                }
            }
        }
        assert(scan_state_ok(st)) by {
            if counted_session(x, own_pid) && first_match(st0.0, key_is(key)) is None {
                assert forall|a: int, b: int| 0 <= a < b < st.0.len() implies #[trigger] st.0[a] != #[trigger] st.0[b] by {
                    if b == st0.0.len() {
                        assert(!key_is(key)(st0.0[a]));
                    } else {
                        assert(st.0[a] == st0.0[a] && st.0[b] == st0.0[b]);
                    }
                }
                assert forall|k: int| 0 <= k < st.0.len() implies #[trigger] st.0[k] == app_key(st.1[k]) by {
                    if k < st0.0.len() {
                        assert(st.0[k] == st0.0[k] && st.1[k] == st0.1[k]);
                    }
                }
            }
        }
    }
}

proof fn lemma_procs_push(t: Seq<ProcessEntry>, p: ProcessEntry, key: Seq<char>)
    ensures
        has_known_process(t.push(p), key) == (has_known_process(t, key) || (unicode_lowercase(p.name@) == key
            && is_known_app_spec(key))),
{
    let s = t.push(p);
    if has_known_process(t, key) {
        let q = choose|q: int| #[trigger] known_process_for(t, key, q);
        assert(s[q] == t[q]);
        assert(known_process_for(s, key, q));
    }
    if unicode_lowercase(p.name@) == key && is_known_app_spec(key) {
        assert(s[t.len() as int] == p);
        assert(known_process_for(s, key, t.len() as int));
    }
    if has_known_process(s, key) {
        let q = choose|q: int| #[trigger] known_process_for(s, key, q);
        if q < t.len() {
            assert(s[q] == t[q]);
            assert(known_process_for(t, key, q));
        }
    }
}

proof fn lemma_scan_processes(st0: ScanState, procs: Seq<ProcessEntry>)
    requires
        scan_state_ok(st0),
    ensures
        scan_state_ok(scan_processes(st0, procs)),
        scan_processes(st0, procs).0.len() >= st0.0.len(),
        forall|k: int|
            0 <= k < st0.0.len() ==> #[trigger] scan_processes(st0, procs).0[k] == st0.0[k] && scan_processes(
                st0,
                procs,
            ).1[k] == st0.1[k],
        forall|k: int|
            st0.0.len() <= k < scan_processes(st0, procs).0.len() ==> !(#[trigger] scan_processes(st0, procs).1[k]).active
                && has_known_process(procs, scan_processes(st0, procs).0[k]),
        forall|key: Seq<char>|
            #[trigger] has_known_process(procs, key) ==> scan_processes(st0, procs).0.contains(key),
    decreases procs.len(),
{
    if procs.len() > 0 {
        let t = procs.drop_last();
        let p = procs.last();
        lemma_scan_processes(st0, t);
        assert(t.push(p) =~= procs);
        let st1 = scan_processes(st0, t);
        let st = scan_processes(st0, procs);
        assert(st == scan_process(st1, p));
        let key = unicode_lowercase(p.name@);
        lemma_first_match(st1.0, key_is(key));
        assert forall|y: Seq<char>| #[trigger] has_known_process(procs, y) implies st.0.contains(y) by {
            lemma_procs_push(t, p, y);
            if has_known_process(t, y) {
                let k = choose|k: int| 0 <= k < st1.0.len() && st1.0[k] == y;
                assert(st.0[k] == y);
            } else if st.0.len() > st1.0.len() {
                assert(st.0[st1.0.len() as int] == y);
            } else {
                let i = first_match(st1.0, key_is(key))->0;
                assert(st.0[i] == y);
            }
        }
        assert forall|k: int| st0.0.len() <= k < st.0.len() implies !(#[trigger] st.1[k]).active && has_known_process(
            procs,
            st.0[k],
        ) by {
            lemma_procs_push(t, p, st.0[k]);
            if k < st1.0.len() {
                assert(st.0[k] == st1.0[k] && st.1[k] == st1.1[k]);
            }
        }
        assert forall|k: int| 0 <= k < st0.0.len() implies #[trigger] st.0[k] == st0.0[k] && st.1[k] == st0.1[k] by {
            assert(st1.0[k] == st0.0[k]);
        }
        assert(scan_state_ok(st)) by {
            if is_known_app_spec(key) && first_match(st1.0, key_is(key)) is None {
                assert forall|a: int, b: int| 0 <= a < b < st.0.len() implies #[trigger] st.0[a] != #[trigger] st.0[b] by {
                    if b == st1.0.len() {
                        assert(!key_is(key)(st1.0[a]));
                    } else {
                        assert(st.0[a] == st1.0[a] && st.0[b] == st1.0[b]);
                    }
                }
                assert forall|k: int| 0 <= k < st.0.len() implies #[trigger] st.0[k] == app_key(st.1[k]) by {
                    if k < st1.0.len() {
                        assert(st.0[k] == st1.0[k] && st.1[k] == st1.1[k]);
                    }
                }
            }
        }
    }
}

/// What the scan finds, stated directly: one entry per executable (case
/// ignored); an entry is active exactly when some counted session of its
/// executable is rendering; every counted session and every running
/// well-known app has an entry; and every entry stands for one of them.
pub proof fn lemma_scanned_apps(sessions: Seq<SessionEntry>, procs: Seq<ProcessEntry>, own_pid: u32)
    ensures
        forall|a: int, b: int|
            0 <= a < b < scanned_apps(sessions, procs, own_pid).len() ==> app_key(
                #[trigger] scanned_apps(sessions, procs, own_pid)[a],
            ) != app_key(#[trigger] scanned_apps(sessions, procs, own_pid)[b]),
        forall|k: int|
            0 <= k < scanned_apps(sessions, procs, own_pid).len() ==> (#[trigger] scanned_apps(sessions, procs, own_pid)[k]).active
                == has_active_session(sessions, own_pid, app_key(scanned_apps(sessions, procs, own_pid)[k])),
        forall|k: int|
            0 <= k < scanned_apps(sessions, procs, own_pid).len() ==> has_session(
                sessions,
                own_pid,
                app_key(#[trigger] scanned_apps(sessions, procs, own_pid)[k]),
            ) || has_known_process(procs, app_key(scanned_apps(sessions, procs, own_pid)[k])),
        forall|key: Seq<char>|
            has_session(sessions, own_pid, key) || has_known_process(procs, key) ==> #[trigger] app_keys(
                scanned_apps(sessions, procs, own_pid),
            ).contains(key),
{
    let st0 = scan_sessions(sessions, own_pid);
    lemma_scan_sessions(sessions, own_pid);
    lemma_scan_processes(st0, procs);
    let st = scan_processes(st0, procs);
    let apps = scanned_apps(sessions, procs, own_pid);
    assert(apps == st.1);
    assert(app_keys(apps) =~= st.0) by {
        assert forall|k: int| 0 <= k < st.0.len() implies #[trigger] app_keys(apps)[k] == st.0[k] by {
            assert(st.0[k] == app_key(st.1[k]));
        }
    }
    assert forall|a: int, b: int| 0 <= a < b < apps.len() implies app_key(#[trigger] apps[a]) != app_key(
        #[trigger] apps[b],
    ) by {
        assert(st.0[a] == app_key(st.1[a]) && st.0[b] == app_key(st.1[b]));
    }
    assert forall|k: int| 0 <= k < apps.len() implies (#[trigger] apps[k]).active == has_active_session(
        sessions,
        own_pid,
        app_key(apps[k]),
    ) by {
        assert(st.0[k] == app_key(st.1[k]));
        if k < st0.0.len() {
            assert(st.0[k] == st0.0[k] && st.1[k] == st0.1[k]);
        } else {
            assert(!has_active_session(sessions, own_pid, st.0[k])) by {
                if has_active_session(sessions, own_pid, st.0[k]) {
                    let j = choose|j: int| #[trigger] session_for(sessions, own_pid, st.0[k], j) && sessions[j].active;
                    assert(has_session(sessions, own_pid, st.0[k]));
                    let i = choose|i: int| 0 <= i < st0.0.len() && st0.0[i] == st.0[k];
                    assert(st.0[i] == st0.0[i]);
                }
            }
        }
    }
    assert forall|k: int| 0 <= k < apps.len() implies has_session(sessions, own_pid, app_key(#[trigger] apps[k]))
        || has_known_process(procs, app_key(apps[k])) by {
        assert(st.0[k] == app_key(st.1[k]));
        if k < st0.0.len() {
            assert(st.0[k] == st0.0[k]);
        }
    }
    assert forall|key: Seq<char>| has_session(sessions, own_pid, key) || has_known_process(procs, key) implies #[trigger] app_keys(
        apps,
    ).contains(key) by {
        if has_session(sessions, own_pid, key) {
            let i = choose|i: int| 0 <= i < st0.0.len() && st0.0[i] == key;
            assert(st.0[i] == key);
        }
    }
}

} // verus!
