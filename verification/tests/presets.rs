use mixflow::model::{AppConfig, EqBandCfg, EqPreset};
use mixflow::setup::{default_config, delete_eq_preset, save_eq_preset};

fn cfg() -> AppConfig {
    default_config("o".into(), "g".into(), "c".into(), "m".into(), "k".into())
}

fn band(f: f32) -> EqBandCfg {
    EqBandCfg { freq: f.to_bits(), gain: 0.0f32.to_bits() }
}

fn names(c: &AppConfig) -> Vec<String> {
    c.eq_presets.iter().map(|p| p.name.clone()).collect()
}

#[test]
fn presets_are_saved_trimmed_and_sorted() {
    let mut c = cfg();
    save_eq_preset(&mut c, "  Voix  ", vec![band(100.0)]);
    save_eq_preset(&mut c, "Basses", vec![band(60.0)]);
    save_eq_preset(&mut c, "Aigus", vec![]);
    assert_eq!(names(&c), vec!["Aigus", "Basses", "Voix"]);
    assert!(c.eq_presets.iter().all(|p| p.gains.is_empty()));
    assert_eq!(c.eq_presets[2].bands.len(), 1);
}

#[test]
fn saving_replaces_a_preset_of_the_same_name_ignoring_case() {
    let mut c = cfg();
    save_eq_preset(&mut c, "Voix", vec![band(100.0)]);
    save_eq_preset(&mut c, "VOIX", vec![band(200.0), band(300.0)]);
    assert_eq!(names(&c), vec!["VOIX"]);
    assert_eq!(c.eq_presets[0].bands.len(), 2);
}

#[test]
fn name_order_is_by_code_point() {
    let mut c = cfg();
    for n in ["b", "B", "a", "ab", "Été"] {
        save_eq_preset(&mut c, n, vec![]);
    }
    // "b" and "B" are the same name ignoring ASCII case: the later one wins.
    assert_eq!(names(&c), vec!["B", "a", "ab", "Été"]);
}

#[test]
fn deleting_ignores_ascii_case() {
    let mut c = cfg();
    c.eq_presets.push(EqPreset { name: "Rock".into(), gains: vec![], bands: vec![] });
    c.eq_presets.push(EqPreset { name: "Jazz".into(), gains: vec![], bands: vec![] });
    delete_eq_preset(&mut c, "ROCK");
    assert_eq!(names(&c), vec!["Jazz"]);
    delete_eq_preset(&mut c, "none");
    assert_eq!(names(&c), vec!["Jazz"]);
}
