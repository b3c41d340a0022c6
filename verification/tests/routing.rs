use mixflow::apps::ProcessEntry;
use mixflow::setup::default_config;
use mixflow::routing::{
    stale_apps,
    candidate_pids, err, pids_for_exe, pids_running_exe, policy_device_path, rename_render_device, route_app_by_id,
    route_outcome, unroute_app, ROLE_CONSOLE, ROLE_MULTIMEDIA,
};

fn s(x: &str) -> String {
    x.to_string()
}

fn proc_(pid: u32, name: &str) -> ProcessEntry {
    ProcessEntry { pid, name: s(name) }
}

#[test]
fn session_pids_match_case_insensitively() {
    let sessions = vec![(s("Brave.exe"), 4), (s("spotify.exe"), 5), (s("brave.EXE"), 6)];
    assert_eq!(pids_for_exe("BRAVE.exe", &sessions), vec![4, 6]);
    assert!(pids_for_exe("vlc.exe", &sessions).is_empty());
    assert_eq!(pids_running_exe("brave.exe", &vec![proc_(1, "Brave.exe"), proc_(2, "x.exe")]), vec![1]);
}

#[test]
fn candidates_are_session_owners_then_other_running_processes() {
    let sessions = Ok(vec![(s("brave.exe"), 40), (s("brave.exe"), 41)]);
    let procs = vec![proc_(41, "brave.exe"), proc_(1, "brave.exe"), proc_(2, "code.exe"), proc_(3, "Brave.exe")];
    assert_eq!(candidate_pids("Brave.exe", &sessions, &procs), vec![40, 41, 1, 3]);
    let unreadable: Result<Vec<(String, u32)>, String> = Err(s("COM"));
    assert_eq!(candidate_pids("brave.exe", &unreadable, &procs), vec![41, 1, 3]);
}

#[test]
fn routing_a_stopped_app_fails() {
    let r = route_app_by_id("Discord.exe", "{dev}", &Ok(vec![]), &vec![]);
    assert_eq!(r.unwrap_err(), "\"Discord.exe\" ne semble pas lancée — démarre l'application puis réessaie");
}

#[test]
fn routing_addresses_every_candidate_in_both_roles() {
    let r = route_app_by_id("vlc.exe", "{0.0.0.00000000}.{abc}", &Ok(vec![(s("vlc.exe"), 7)]), &vec![proc_(8, "VLC.exe")]).unwrap();
    assert_eq!(r.n_pids, 2);
    assert_eq!(r.attempts, vec![(7, ROLE_CONSOLE), (7, ROLE_MULTIMEDIA), (8, ROLE_CONSOLE), (8, ROLE_MULTIMEDIA)]);
    assert_eq!(r.device_path, "\\\\?\\SWD#MMDEVAPI#{0.0.0.00000000}.{abc}#{e6327cad-dcec-4949-ae8a-991e976a79d2}");
    assert_eq!(policy_device_path("x"), "\\\\?\\SWD#MMDEVAPI#x#{e6327cad-dcec-4949-ae8a-991e976a79d2}");
}

#[test]
fn one_accepted_call_is_enough() {
    let results = vec![Err(s("E_INVALIDARG")), Ok(()), Err(s("E_FAIL"))];
    assert_eq!(route_outcome("brave.exe", 2, &results), Ok(()));
}

#[test]
fn all_refused_reports_count_and_last_error() {
    let results = vec![Err(s("E1")), Err(s("E2")), Err(s("0x80070057"))];
    assert_eq!(
        route_outcome("brave.exe", 12, &results).unwrap_err(),
        "routage de brave.exe refusé après 12 processus essayé(s) : 0x80070057 — si l'app vient d'être lancée, fais-lui jouer un son puis réessaie"
    );
    assert_eq!(
        route_outcome("x.exe", 0, &vec![]).unwrap_err(),
        "routage de x.exe refusé après 0 processus essayé(s) :  — si l'app vient d'être lancée, fais-lui jouer un son puis réessaie"
    );
}

#[test]
fn unrouting_a_stopped_app_does_nothing() {
    assert!(unroute_app("x.exe", &Ok(vec![]), &vec![]).is_empty());
    assert_eq!(unroute_app("x.exe", &Err(s("e")), &vec![proc_(3, "X.EXE")]), vec![(3, ROLE_CONSOLE), (3, ROLE_MULTIMEDIA)]);
}

#[test]
fn blank_names_are_not_written() {
    assert_eq!(rename_render_device("{id}", "   ").unwrap_err(), "nom vide : renommage ignoré");
    assert_eq!(rename_render_device("{id}", ""), Err(s("nom vide : renommage ignoré")));
    assert_eq!(rename_render_device("{id}", " Game "), Ok(()));
}

#[test]
fn errors_carry_their_context() {
    assert_eq!(err("device enumerator", "0x800401F0"), "device enumerator: 0x800401F0");
}

#[test]
fn apps_dropped_by_an_import_are_handed_back() {
    let mut current = default_config(s("o"), s("g"), s("c"), s("m"), s("k"));
    current.lines[0].apps = vec![s("Spotify.exe"), s("Discord.exe")];
    current.lines[2].apps = vec![s("vlc.exe")];
    let mut imported = default_config(s("o2"), s("g2"), s("c2"), s("m2"), s("k2"));
    imported.lines[1].apps = vec![s("SPOTIFY.EXE")];
    assert_eq!(stale_apps(&current, &imported), vec![s("Discord.exe"), s("vlc.exe")]);
    assert!(stale_apps(&current, &current).is_empty());
}

#[test]
fn a_pid_owning_two_sessions_is_tried_once() {
    let sessions = Ok(vec![(s("brave.exe"), 40), (s("brave.exe"), 40), (s("Brave.exe"), 41)]);
    let procs = vec![proc_(40, "brave.exe"), proc_(7, "brave.exe")];
    assert_eq!(candidate_pids("brave.exe", &sessions, &procs), vec![40, 41, 7]);
}
