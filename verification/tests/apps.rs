use mixflow::apps::{is_known_app, label_le, list_apps_from, sort_apps, AppInfo, ProcessEntry, SessionEntry};

fn session(pid: u32, path: Option<&str>, active: bool) -> SessionEntry {
    SessionEntry { pid, path: path.map(|p| p.to_string()), active }
}

fn process(pid: u32, name: &str) -> ProcessEntry {
    ProcessEntry { pid, name: name.to_string() }
}

#[test]
fn sessions_merge_per_executable_and_sort_active_first() {
    let sessions = vec![
        session(10, Some("C:\\Apps\\spotify.exe"), false),
        session(0, Some("C:\\Windows\\system.exe"), true),
        session(99, Some("C:\\Me\\mixflow.exe"), true),
        session(11, None, true),
        session(12, Some("C:\\Apps\\Spotify.EXE"), true),
        session(20, Some("D:/games/zelda.exe"), false),
        session(30, Some("C:\\Apps\\brave.exe"), true),
    ];
    let apps = list_apps_from(&sessions, &vec![], 99);
    let labels: Vec<&str> = apps.iter().map(|a| a.label.as_str()).collect();
    assert_eq!(labels, vec!["Brave", "Spotify", "Zelda"]);
    let spotify = &apps[1];
    assert_eq!(spotify.exe, "spotify.exe");
    assert_eq!(spotify.pid, 10);
    assert!(spotify.active);
    assert!(apps[0].active && !apps[2].active);
    assert!(apps.iter().all(|a| a.icon.is_none()));
}

#[test]
fn running_known_apps_get_a_silent_entry() {
    let sessions = vec![session(5, Some("C:\\x\\Discord.exe"), false)];
    let procs = vec![process(7, "discord.exe"), process(8, "Steam.exe"), process(9, "notepad.exe"), process(10, "steam.exe")];
    let apps = list_apps_from(&sessions, &procs, 1);
    let exes: Vec<(&str, u32)> = apps.iter().map(|a| (a.exe.as_str(), a.pid)).collect();
    assert_eq!(exes, vec![("Discord.exe", 5), ("Steam.exe", 8)]);
    assert_eq!(apps[1].label, "Steam");
    assert!(!apps[1].active);
}

#[test]
fn known_apps_are_matched_lowercase() {
    assert!(is_known_app("obs64.exe"));
    assert!(is_known_app("tidal.exe"));
    assert!(!is_known_app("OBS64.exe"));
    assert!(!is_known_app("notepad.exe"));
}

#[test]
fn labels_compare_by_code_point() {
    assert!(label_le("Abc", "abc"));
    assert!(!label_le("abc", "Abc"));
    assert!(label_le("ab", "abc"));
    assert!(label_le("", ""));
    assert!(label_le("Zoo", "Édith"));
}

#[test]
fn sorting_is_stable() {
    let app = |label: &str, pid: u32, active: bool| AppInfo {
        exe: format!("{label}.exe"),
        label: label.to_string(),
        pid,
        active,
        icon: None,
    };
    let sorted = sort_apps(&vec![app("B", 1, false), app("A", 2, false), app("B", 3, true), app("B", 4, false)]);
    let pids: Vec<u32> = sorted.iter().map(|a| a.pid).collect();
    assert_eq!(pids, vec![3, 2, 1, 4]);
}

#[test]
fn each_executable_is_listed_once_and_active_only_when_a_session_plays() {
    let sessions = vec![
        session(1, Some("C:\\a\\VLC.exe"), false),
        session(2, Some("C:\\b\\vlc.exe"), false),
        session(3, Some("C:\\c\\Game.exe"), true),
        session(4, Some("C:\\c\\game.EXE"), false),
    ];
    let procs = vec![process(5, "vlc.exe"), process(6, "Tidal.exe"), process(7, "tidal.exe")];
    let apps = list_apps_from(&sessions, &procs, 42);
    let mut keys: Vec<String> = apps.iter().map(|a| a.exe.to_lowercase()).collect();
    keys.sort();
    assert_eq!(keys, vec!["game.exe", "tidal.exe", "vlc.exe"]);
    for a in &apps {
        let k = a.exe.to_lowercase();
        assert_eq!(a.active, k == "game.exe", "{k}");
    }
}
