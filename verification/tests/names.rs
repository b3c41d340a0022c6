use mixflow::cables::{binding_request, cable_suffix, render_for_suffix, str_ends_with};
use mixflow::ids::new_id;
use mixflow::names::{
    adapter_suffix, capitalize, exe_label, file_name, is_virtual_capture, short_device_name, trim_end_matches,
};
use mixflow::setup::{capture_for_app, default_config};

fn s(x: &str) -> String {
    x.to_string()
}

#[test]
fn ids_are_prefix_clock_and_counter_in_hex() {
    assert_eq!(new_id("line", 0x1a2b, 3), "line-1a2b-3");
    assert_eq!(new_id("out", 0, 255), "out-0-ff");
    assert_ne!(new_id("line", 16, 1), new_id("line", 1, 16));
}

#[test]
fn virtual_cables_are_recognised_by_name() {
    assert!(is_virtual_capture("CABLE Output (VB-Audio Virtual Cable)"));
    assert!(is_virtual_capture("VoiceMeeter Out B1"));
    assert!(is_virtual_capture("Line 1 (Virtual Audio Cable)"));
    assert!(!is_virtual_capture("Microphone (Realtek High Definition Audio)"));
}

#[test]
fn endpoint_names() {
    assert_eq!(adapter_suffix("Game (VB-Audio Cable A)").as_deref(), Some("(VB-Audio Cable A)"));
    assert_eq!(adapter_suffix("a (b) (c)").as_deref(), Some("(c)"));
    assert_eq!(adapter_suffix("Speakers"), None);
    assert_eq!(short_device_name("Haut-parleurs (Creative X)"), "Haut-parleurs");
    assert_eq!(short_device_name("Plain"), "Plain");
}

#[test]
fn executable_names() {
    assert_eq!(file_name("C:\\Program Files\\Spotify\\Spotify.exe"), "Spotify.exe");
    assert_eq!(file_name("/usr/bin/vlc"), "vlc");
    assert_eq!(file_name("bare.exe"), "bare.exe");
    assert_eq!(trim_end_matches("a.exe.exe", ".exe"), "a");
    assert_eq!(exe_label("obs64.exe"), "Obs64");
    assert_eq!(exe_label("DISCORD.EXE"), "DISCORD");
    assert_eq!(capitalize("élan"), "Élan");
    assert_eq!(capitalize(""), "");
}

#[test]
fn cables_pair_by_suffix() {
    assert_eq!(cable_suffix("CABLE-A Output (VB-Audio Cable A)"), Ok(s("(VB-Audio Cable A)")));
    assert_eq!(cable_suffix("Odd"), Err(s("nom de câble inattendu : \"Odd\"")));
    let names = vec![s("Speakers (Realtek)"), s("Game (VB-Audio Cable A)"), s("CABLE-A Input (VB-Audio Cable A)")];
    assert_eq!(render_for_suffix(&names, "(VB-Audio Cable A)"), Ok(1));
    assert_eq!(
        render_for_suffix(&names, "(VB-Audio Cable B)"),
        Err(s("côté rendu du câble \"(VB-Audio Cable B)\" introuvable — VB-Cable est-il toujours installé ?"))
    );
    assert!(str_ends_with("abc", "bc") && !str_ends_with("bc", "abc") && str_ends_with("x", ""));
}

#[test]
fn binding_requests_read_the_line() {
    let mut c = default_config(s("o"), s("game"), s("chat"), s("media"), s("mic"));
    c.lines[0].cable_render_id = Some(s("{r}"));
    assert_eq!(binding_request(&c, "game"), (Some(s("{r}")), s("Game")));
    assert_eq!(binding_request(&c, "chat"), (None, s("Chat")));
    assert_eq!(binding_request(&c, "gone"), (None, s("")));
}

#[test]
fn an_app_drop_picks_the_line_cable() {
    let mut c = default_config(s("o"), s("game"), s("chat"), s("media"), s("mic"));
    c.lines[1].input_device = Some(s("CABLE-A Output (VB-Audio Cable A)"));
    c.lines[2].input_device = Some(s("Microphone (USB)"));
    let inputs: Result<Vec<String>, String> = Ok(vec![
        s("Microphone (USB)"),
        s("CABLE-A Output (VB-Audio Cable A)"),
        s("CABLE-B Output (VB-Audio Cable B)"),
    ]);
    assert_eq!(
        capture_for_app(&c, "chat", &inputs),
        Ok((s("CABLE-A Output (VB-Audio Cable A)"), None, s("Chat")))
    );
    assert_eq!(
        capture_for_app(&c, "game", &inputs),
        Ok((s("CABLE-B Output (VB-Audio Cable B)"), None, s("Game")))
    );
    assert_eq!(
        capture_for_app(&c, "media", &inputs),
        Err(s("la tranche \"Media\" capture \"Microphone (USB)\" (une entrée physique) — choisis d'abord un câble virtuel comme source, ou vide la source"))
    );
    assert_eq!(capture_for_app(&c, "gone", &inputs), Err(s("ligne introuvable")));
    assert_eq!(capture_for_app(&c, "game", &Err(s("no host"))), Err(s("no host")));
    let only_taken: Result<Vec<String>, String> = Ok(vec![s("CABLE-A Output (VB-Audio Cable A)")]);
    assert_eq!(
        capture_for_app(&c, "game", &only_taken),
        Err(s("aucun câble virtuel libre — installe VB-Cable (et le pack A+B pour plus de lignes)"))
    );
}

#[test]
fn ids_from_different_counters_differ_across_prefixes() {
    assert_ne!(new_id("line-1", 5, 2), new_id("line", 0x15, 0x12));
    assert_ne!(new_id("out", 7, 1), new_id("out-7", 1, 10));
    assert_ne!(new_id("a", 0, 0), new_id("a-0", 0, 1));
}
