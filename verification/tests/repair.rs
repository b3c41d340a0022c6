use mixflow::model::{AppConfig, DuckRule, EqBandCfg, EqPreset, LineSnapshot, Profile, Route, UNITY_GAIN};
use mixflow::sanitize::repair_structure;
use mixflow::setup::default_config;

fn s(x: &str) -> String {
    x.to_string()
}

fn cfg() -> AppConfig {
    default_config(s("out-1"), s("game"), s("chat"), s("media"), s("mic"))
}

#[test]
fn repair_drops_ghost_and_duplicate_routes() {
    let mut c = cfg();
    c.lines[0].routes = vec![
        Route { output_id: s("bus-fantome"), gain: f32::NEG_INFINITY.to_bits() },
        Route { output_id: s("out-1"), gain: UNITY_GAIN },
        Route { output_id: s("out-1"), gain: UNITY_GAIN },
    ];
    repair_structure(&mut c);
    assert_eq!(c.lines[0].routes.len(), 1);
    assert_eq!(c.lines[0].routes[0].output_id, "out-1");
}

#[test]
fn repair_drops_orphan_and_self_ducking_rules() {
    let mut c = cfg();
    c.ducking.push(DuckRule { source_line: s("ligne-fantome"), target_line: s("game"), amount: 42.0f32.to_bits() });
    c.ducking.push(DuckRule { source_line: s("game"), target_line: s("game"), amount: 0.5f32.to_bits() });
    repair_structure(&mut c);
    assert_eq!(c.ducking.len(), 1);
    assert!(c.ducking.iter().all(|d| d.source_line != "ligne-fantome" && d.source_line != d.target_line));
}

#[test]
fn repair_canonicalises_reactivity_and_migrates_legacy_eq() {
    let mut c = cfg();
    c.lines[0].duck_reactivity = s("n'importe quoi");
    c.lines[1].duck_reactivity = s("rapide");
    c.lines[2].eq_bands.clear();
    c.lines[2].eq = vec![3.0f32.to_bits(); 5];
    repair_structure(&mut c);
    assert_eq!(c.lines[0].duck_reactivity, "normale");
    assert_eq!(c.lines[1].duck_reactivity, "rapide");
    assert_eq!(c.lines[2].eq_bands.len(), 5);
    assert!(c.lines[2].eq_bands.iter().all(|b| f32::from_bits(b.gain) == 3.0));
}

#[test]
fn repair_keeps_the_first_of_duplicate_ids() {
    let mut c = cfg();
    let mut dup = c.lines[0].clone();
    dup.name = s("Copie");
    c.lines.push(dup);
    let mut bus = c.outputs[0].clone();
    bus.name = s("Copie");
    c.outputs.push(bus);
    repair_structure(&mut c);
    assert_eq!(c.lines.len(), 4);
    assert_eq!(c.lines[0].name, "Game");
    assert_eq!(c.outputs.len(), 1);
    assert_eq!(c.outputs[0].name, "Headphones");
}

#[test]
fn repair_fixes_presets_and_profiles() {
    let mut c = cfg();
    c.eq_presets.push(EqPreset { name: s("Old"), gains: vec![1.0f32.to_bits(); 5], bands: vec![] });
    c.profiles.push(Profile {
        id: s("p"),
        name: s("P"),
        trigger_exe: None,
        lines: vec![LineSnapshot {
            line_id: s("game"),
            gain: UNITY_GAIN,
            muted: false,
            eq_bands: vec![EqBandCfg { freq: 100.0f32.to_bits(), gain: 0 }],
            output_devices: vec![s(""), s("Casque (USB)")],
        }],
        ducking: vec![DuckRule { source_line: s("ghost"), target_line: s("game"), amount: 0 }],
        master_gain: UNITY_GAIN,
    });
    repair_structure(&mut c);
    assert_eq!(c.eq_presets[0].bands.len(), 5);
    assert_eq!(c.profiles[0].lines[0].output_devices, vec![s("Casque (USB)")]);
    assert!(c.profiles[0].ducking.is_empty());
}

#[test]
fn repair_leaves_the_first_run_configuration_as_it_is() {
    let mut c = cfg();
    let before = format!("{:?}", c);
    repair_structure(&mut c);
    assert_eq!(format!("{:?}", c), before);
    repair_structure(&mut c);
    assert_eq!(format!("{:?}", c), before);
}

#[test]
fn repairing_twice_is_repairing_once() {
    let mut c = cfg();
    c.lines[0].routes.push(Route { output_id: s("bus-fantome"), gain: UNITY_GAIN });
    c.lines[0].routes.push(Route { output_id: s("out-1"), gain: UNITY_GAIN });
    c.lines[1].duck_reactivity = s("??");
    c.lines[2].eq_bands.clear();
    c.lines[2].eq = vec![2.0f32.to_bits(); 5];
    c.lines[3].eq_bands.clear();
    c.lines[3].eq.clear();
    c.lines.push(c.lines[0].clone());
    c.ducking.push(DuckRule { source_line: s("mic"), target_line: s("mic"), amount: UNITY_GAIN });
    c.eq_presets.push(EqPreset { name: s("Old"), gains: vec![1.0f32.to_bits(); 5], bands: vec![] });
    c.profiles.push(Profile {
        id: s("p"),
        name: s("P"),
        trigger_exe: None,
        lines: vec![LineSnapshot {
            line_id: s("game"),
            gain: UNITY_GAIN,
            muted: false,
            eq_bands: vec![EqBandCfg { freq: 100.0f32.to_bits(), gain: 0 }],
            output_devices: vec![s(""), s("Casque")],
        }],
        ducking: vec![DuckRule { source_line: s("x"), target_line: s("game"), amount: UNITY_GAIN }],
        master_gain: UNITY_GAIN,
    });
    repair_structure(&mut c);
    let once = format!("{:?}", c);
    repair_structure(&mut c);
    assert_eq!(format!("{:?}", c), once);
    assert_eq!(c.lines.len(), 4);
    assert!(c.lines[3].eq_bands.is_empty());
}
