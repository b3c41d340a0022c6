use mixflow::buses::apply_profile_to_config;
use mixflow::model::{AppConfig, EqBandCfg};
use mixflow::profiles::{delete_profile, normalize_trigger, save_profile, set_profile_trigger, triggered_profile};
use mixflow::setup::default_config;

fn s(x: &str) -> String {
    x.to_string()
}

fn cfg() -> AppConfig {
    let mut c = default_config(s("out-1"), s("game"), s("chat"), s("media"), s("mic"));
    c.outputs[0].device = s("Casque (USB)");
    c
}

fn fresh_for(c: &AppConfig, n: usize) -> Vec<Vec<String>> {
    let p = c.profiles.last().unwrap();
    p.lines.iter().enumerate().map(|(i, l)| (0..l.output_devices.len().max(n)).map(|k| format!("f{i}-{k}")).collect()).collect()
}

#[test]
fn a_saved_profile_restores_the_mix() {
    let mut c = cfg();
    save_profile(&mut c, "  Jeu  ", Some(s("game.exe")), s("p1"));
    assert_eq!(c.profiles.len(), 1);
    assert_eq!(c.profiles[0].name, "Jeu");
    assert_eq!(c.profiles[0].lines.len(), 4);
    assert_eq!(c.profiles[0].lines[0].output_devices, vec![s("Casque (USB)")]);
    let saved = c.clone();
    // Change the mix.
    c.lines[0].gain = 0.1f32.to_bits();
    c.lines[1].muted = true;
    c.lines[2].eq_bands = vec![EqBandCfg { freq: 440.0f32.to_bits(), gain: 6.0f32.to_bits() }];
    c.ducking.clear();
    c.master_gain = 0.2f32.to_bits();
    let profile = c.profiles[0].clone();
    let fresh = fresh_for(&c, 1);
    apply_profile_to_config(&mut c, &profile, &fresh);
    assert_eq!(format!("{:?}", c.lines), format!("{:?}", saved.lines));
    assert_eq!(format!("{:?}", c.ducking), format!("{:?}", saved.ducking));
    assert_eq!(c.master_gain, saved.master_gain);
    assert_eq!(format!("{:?}", c.outputs), format!("{:?}", saved.outputs));
}

#[test]
fn applying_a_profile_skips_deleted_lines_and_their_rules() {
    let mut c = cfg();
    save_profile(&mut c, "P", None, s("p1"));
    let profile = c.profiles[0].clone();
    c.lines.retain(|l| l.id != "chat");
    c.ducking.clear();
    let fresh = fresh_for(&c, 1);
    apply_profile_to_config(&mut c, &profile, &fresh);
    assert_eq!(c.lines.len(), 3);
    assert!(c.ducking.is_empty());
}

#[test]
fn blank_triggers_are_dropped() {
    assert_eq!(normalize_trigger(Some(s("   "))), None);
    assert_eq!(normalize_trigger(Some(s("obs64.exe"))), Some(s("obs64.exe")));
    assert_eq!(normalize_trigger(None), None);
    let mut c = cfg();
    save_profile(&mut c, "P", Some(s("  ")), s("p1"));
    assert_eq!(c.profiles[0].trigger_exe, None);
    set_profile_trigger(&mut c, "p1", Some(s("Game.exe")));
    assert_eq!(c.profiles[0].trigger_exe.as_deref(), Some("Game.exe"));
}

#[test]
fn the_foreground_app_picks_its_profile_once() {
    let mut c = cfg();
    save_profile(&mut c, "A", Some(s("Game.exe")), s("pa"));
    save_profile(&mut c, "B", Some(s("obs64.exe")), s("pb"));
    assert_eq!(triggered_profile(&c.profiles, "GAME.EXE", None), Some(0));
    assert_eq!(triggered_profile(&c.profiles, "obs64.exe", Some("pa")), Some(1));
    assert_eq!(triggered_profile(&c.profiles, "obs64.exe", Some("pb")), None);
    assert_eq!(triggered_profile(&c.profiles, "explorer.exe", None), None);
}

#[test]
fn deleting_a_profile() {
    let mut c = cfg();
    save_profile(&mut c, "A", None, s("pa"));
    save_profile(&mut c, "B", None, s("pb"));
    delete_profile(&mut c, "pa");
    assert_eq!(c.profiles.len(), 1);
    assert_eq!(c.profiles[0].id, "pb");
}

#[test]
fn a_profile_of_the_first_run_layout_keeps_every_route() {
    let mut c = default_config(s("out-1"), s("game"), s("chat"), s("media"), s("mic"));
    save_profile(&mut c, "Premier", None, s("p1"));
    assert!(c.profiles[0].lines.iter().all(|l| l.output_devices.is_empty()));
    let saved = c.clone();
    c.lines[0].gain = 0.3f32.to_bits();
    let profile = c.profiles[0].clone();
    let fresh = fresh_for(&c, 1);
    apply_profile_to_config(&mut c, &profile, &fresh);
    assert!(c.lines.iter().all(|l| l.routes.len() == 1 && l.routes[0].output_id == "out-1"));
    assert_eq!(format!("{:?}", c.lines), format!("{:?}", saved.lines));
    assert_eq!(format!("{:?}", c.outputs), format!("{:?}", saved.outputs));
}

#[test]
fn a_line_keeps_its_unassigned_routes_in_front_of_named_ones() {
    let mut c = default_config(s("out-1"), s("game"), s("chat"), s("media"), s("mic"));
    mixflow::buses::set_line_outputs(&mut c, "game", &vec![s("Enceintes (HDMI)")], &vec![s("spk")]);
    c.lines[0].routes.insert(0, mixflow::model::Route { output_id: s("out-1"), gain: 0.5f32.to_bits() });
    save_profile(&mut c, "Mixte", None, s("p1"));
    assert_eq!(c.profiles[0].lines[0].output_devices, vec![s("Enceintes (HDMI)")]);
    let saved = c.clone();
    c.lines[0].gain = 0.2f32.to_bits();
    c.lines[0].muted = true;
    let profile = c.profiles[0].clone();
    let fresh = fresh_for(&c, 1);
    apply_profile_to_config(&mut c, &profile, &fresh);
    let r = &c.lines[0].routes;
    assert_eq!(r.len(), 2);
    assert_eq!(r[0].output_id, "out-1");
    assert_eq!(f32::from_bits(r[0].gain), 0.5);
    assert_eq!(r[1].output_id, "spk");
    assert_eq!(format!("{:?}", c.lines), format!("{:?}", saved.lines));
    assert_eq!(format!("{:?}", c.outputs), format!("{:?}", saved.outputs));
}

#[test]
fn a_self_ducking_rule_in_a_profile_is_dropped() {
    let mut c = cfg();
    save_profile(&mut c, "P", None, s("p1"));
    let mut profile = c.profiles[0].clone();
    profile.ducking.push(mixflow::model::DuckRule {
        source_line: s("game"),
        target_line: s("game"),
        amount: 0.5f32.to_bits(),
    });
    let fresh = fresh_for(&c, 1);
    apply_profile_to_config(&mut c, &profile, &fresh);
    assert_eq!(c.ducking.len(), 1);
    assert!(c.ducking.iter().all(|d| d.source_line != d.target_line));
}

#[test]
fn a_snapshot_listing_a_device_twice_gives_a_route_per_listing() {
    let mut c = cfg();
    c.lines[0].routes[0].gain = 0.5f32.to_bits();
    save_profile(&mut c, "P", None, s("p1"));
    let mut profile = c.profiles[0].clone();
    profile.lines[0].output_devices = vec![s("Casque (USB)"), s(""), s("Casque (USB)")];
    let fresh = fresh_for(&c, 3);
    apply_profile_to_config(&mut c, &profile, &fresh);
    let r = &c.lines[0].routes;
    assert_eq!(r.len(), 2);
    assert!(r.iter().all(|x| x.output_id == "out-1" && f32::from_bits(x.gain) == 0.5));
    assert_eq!(c.outputs.len(), 1);
}

#[test]
fn profile_names_lose_unicode_white_space_at_both_ends() {
    let mut c = cfg();
    save_profile(&mut c, "\u{3000}\tJeu vidéo\u{a0}\n", None, s("p1"));
    assert_eq!(c.profiles[0].name, "Jeu vidéo");
}
