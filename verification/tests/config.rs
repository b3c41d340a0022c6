use mixflow::edits::{
    line_apps, record_app_assignment, remove_line, sane_duck_rules, set_line_duck_reactivity, set_line_gain,
    set_line_input, set_line_muted, set_master_gain, set_route_gain, toggle_all_mics, unassign_app,
    update_line_meta,
};
use mixflow::model::{
    default_color, default_kind, default_reactivity, AppConfig, DuckRule, Reactivity, CURRENT_SCHEMA_VERSION,
    UNITY_GAIN,
};
use mixflow::setup::{add_line, default_config, HALF_BITS};

fn s(x: &str) -> String {
    x.to_string()
}

fn cfg() -> AppConfig {
    default_config(s("out-1"), s("game"), s("chat"), s("media"), s("mic"))
}

#[test]
fn default_config_has_the_sonar_layout() {
    let c = cfg();
    let names: Vec<&str> = c.lines.iter().map(|l| l.name.as_str()).collect();
    assert_eq!(names, vec!["Game", "Chat", "Media", "Mic"]);
    let kinds: Vec<&str> = c.lines.iter().map(|l| l.kind.as_str()).collect();
    assert_eq!(kinds, vec!["app", "app", "app", "mic"]);
    assert_eq!(c.lines[0].color, "#7c3aed");
    assert_eq!(c.lines[3].color, "#fb923c");
    assert!(c.lines.iter().all(|l| l.routes.len() == 1 && l.routes[0].output_id == "out-1"));
    assert!(c.lines.iter().all(|l| l.input_device.is_none() && !l.muted && l.gain == UNITY_GAIN));
    assert!(c.lines.iter().all(|l| l.duck_reactivity == "normale" && l.eq_bands.len() == 5));
    assert_eq!(c.outputs.len(), 1);
    assert_eq!(c.outputs[0].name, "Headphones");
    assert!(c.outputs[0].device.is_empty());
    assert_eq!(c.ducking.len(), 1);
    assert_eq!(c.ducking[0].source_line, "chat");
    assert_eq!(c.ducking[0].target_line, "game");
    assert_eq!(f32::from_bits(c.ducking[0].amount), 0.5);
    assert_eq!(HALF_BITS, 0.5f32.to_bits());
    assert_eq!(f32::from_bits(c.master_gain), 1.0);
    assert_eq!(c.schema_version, CURRENT_SCHEMA_VERSION);
}

#[test]
fn defaults_of_the_model() {
    assert_eq!(default_kind(), "app");
    assert_eq!(default_color(), "#8b5cf6");
    assert_eq!(default_reactivity(), "normale");
    assert_eq!(UNITY_GAIN, 1.0f32.to_bits());
}

#[test]
fn add_line_routes_to_the_first_bus_and_mutes_mics() {
    let mut c = cfg();
    add_line(&mut c, s("Voice"), s("#123456"), s("mic"), s("line-x"));
    let l = c.lines.last().unwrap();
    assert_eq!(l.id, "line-x");
    assert!(l.muted);
    assert_eq!(l.routes.len(), 1);
    assert_eq!(l.routes[0].output_id, "out-1");
    add_line(&mut c, s("Music"), s("#654321"), s("app"), s("line-y"));
    assert!(!c.lines.last().unwrap().muted);
}

#[test]
fn add_line_without_a_bus_has_no_route() {
    let mut c = cfg();
    c.outputs.clear();
    add_line(&mut c, s("Solo"), s("#000000"), s("app"), s("line-z"));
    assert!(c.lines.last().unwrap().routes.is_empty());
}

#[test]
fn live_line_edits_touch_only_their_line() {
    let mut c = cfg();
    set_line_gain(&mut c, "chat", 0.25f32.to_bits());
    set_line_muted(&mut c, "media", true);
    set_line_input(&mut c, "game", Some(s("CABLE Output (VB-Audio Virtual Cable)")));
    assert_eq!(f32::from_bits(c.lines[1].gain), 0.25);
    assert_eq!(f32::from_bits(c.lines[0].gain), 1.0);
    assert!(c.lines[2].muted && !c.lines[1].muted);
    assert_eq!(c.lines[0].input_device.as_deref(), Some("CABLE Output (VB-Audio Virtual Cable)"));
    set_line_gain(&mut c, "nope", 0.0f32.to_bits());
    assert!(c.lines.iter().all(|l| l.id == "chat" || l.gain == UNITY_GAIN));
}

#[test]
fn update_line_meta_returns_the_cable_render_id() {
    let mut c = cfg();
    c.lines[0].cable_render_id = Some(s("{render}"));
    let r = update_line_meta(&mut c, "game", s("Jeu"), s("#ffffff"));
    assert_eq!(r.as_deref(), Some("{render}"));
    assert_eq!(c.lines[0].name, "Jeu");
    assert_eq!(c.lines[0].color, "#ffffff");
    assert_eq!(update_line_meta(&mut c, "chat", s("Chat"), s("#22d3ee")), None);
    assert_eq!(update_line_meta(&mut c, "missing", s("x"), s("y")), None);
}

#[test]
fn duck_reactivity_is_stored_canonically() {
    let mut c = cfg();
    assert_eq!(set_line_duck_reactivity(&mut c, "game", "rapide"), Reactivity::Rapide);
    assert_eq!(c.lines[0].duck_reactivity, "rapide");
    assert_eq!(set_line_duck_reactivity(&mut c, "game", "n'importe quoi"), Reactivity::Normale);
    assert_eq!(c.lines[0].duck_reactivity, "normale");
    assert_eq!(set_line_duck_reactivity(&mut c, "chat", "douce"), Reactivity::Douce);
    assert_eq!(c.lines[1].duck_reactivity, "douce");
}

#[test]
fn route_and_master_gains() {
    let mut c = cfg();
    set_route_gain(&mut c, "media", "out-1", 0.5f32.to_bits());
    assert_eq!(f32::from_bits(c.lines[2].routes[0].gain), 0.5);
    set_route_gain(&mut c, "media", "other-bus", 0.1f32.to_bits());
    assert_eq!(f32::from_bits(c.lines[2].routes[0].gain), 0.5);
    set_master_gain(&mut c, 0.75f32.to_bits());
    assert_eq!(f32::from_bits(c.master_gain), 0.75);
}

#[test]
fn toggling_mics_mutes_all_then_unmutes_all() {
    let mut c = cfg();
    add_line(&mut c, s("Mic 2"), s("#111111"), s("mic"), s("mic2"));
    // One live mic (the default one), one muted (the new one).
    toggle_all_mics(&mut c);
    assert!(c.lines.iter().filter(|l| l.kind == "mic").all(|l| l.muted));
    assert!(c.lines.iter().filter(|l| l.kind == "app").all(|l| !l.muted));
    toggle_all_mics(&mut c);
    assert!(c.lines.iter().filter(|l| l.kind == "mic").all(|l| !l.muted));
}

#[test]
fn toggling_mics_twice_from_uniform_restores() {
    let mut c = cfg();
    let before: Vec<bool> = c.lines.iter().map(|l| l.muted).collect();
    toggle_all_mics(&mut c);
    toggle_all_mics(&mut c);
    let after: Vec<bool> = c.lines.iter().map(|l| l.muted).collect();
    assert_eq!(before, after);
}

#[test]
fn remove_line_drops_its_rules() {
    let mut c = cfg();
    remove_line(&mut c, "chat");
    assert_eq!(c.lines.len(), 3);
    assert!(c.lines.iter().all(|l| l.id != "chat"));
    assert!(c.ducking.is_empty());
}

#[test]
fn an_app_lives_on_one_line() {
    let mut c = cfg();
    assert!(record_app_assignment(&mut c, "game", s("Spotify.exe"), s("CABLE-A Output"), s("{a}")));
    assert!(record_app_assignment(&mut c, "media", s("spotify.EXE"), s("CABLE-B Output"), s("{b}")));
    assert!(line_apps(&c, "game").is_empty());
    assert_eq!(line_apps(&c, "media"), vec![s("spotify.EXE")]);
    assert_eq!(c.lines[2].input_device.as_deref(), Some("CABLE-B Output"));
    assert_eq!(c.lines[2].cable_render_id.as_deref(), Some("{b}"));
    let before = c.clone();
    assert!(!record_app_assignment(&mut c, "gone", s("x.exe"), s("c"), s("r")));
    assert_eq!(format!("{:?}", before), format!("{:?}", c));
    unassign_app(&mut c, "media", "SPOTIFY.exe");
    assert!(line_apps(&c, "media").is_empty());
}

#[test]
fn duck_rules_must_name_two_distinct_lines() {
    let c = cfg();
    let rule = |a: &str, b: &str| DuckRule { source_line: s(a), target_line: s(b), amount: HALF_BITS };
    let kept = sane_duck_rules(&c.lines, vec![rule("chat", "game"), rule("game", "game"), rule("ghost", "game"), rule("media", "ghost"), rule("mic", "media")]);
    let pairs: Vec<(String, String)> = kept.into_iter().map(|r| (r.source_line, r.target_line)).collect();
    assert_eq!(pairs, vec![(s("chat"), s("game")), (s("mic"), s("media"))]);
}
