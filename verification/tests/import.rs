use mixflow::model::AppConfig;
use mixflow::sanitize::{check_import, import_verdict, looks_like_mixflow_config, ConfigShape};
use mixflow::setup::default_config;
use serde_json::Value;

/// The JSON tree of a configuration, field by field as the program
/// writes it (camelCase keys).
fn to_json(c: &AppConfig) -> Value {
    let text = |x: &str| Value::String(x.to_string());
    let lines = c
        .lines
        .iter()
        .map(|l| {
            let mut o = serde_json::Map::new();
            o.insert("id".into(), text(&l.id));
            o.insert("name".into(), text(&l.name));
            o.insert("kind".into(), text(&l.kind));
            o.insert("color".into(), text(&l.color));
            let routes = l
                .routes
                .iter()
                .map(|r| {
                    let mut ro = serde_json::Map::new();
                    ro.insert("outputId".into(), text(&r.output_id));
                    ro.insert("gain".into(), Value::from(f32::from_bits(r.gain) as f64));
                    Value::Object(ro)
                })
                .collect();
            o.insert("routes".into(), Value::Array(routes));
            Value::Object(o)
        })
        .collect();
    let outputs = c
        .outputs
        .iter()
        .map(|b| {
            let mut o = serde_json::Map::new();
            o.insert("id".into(), text(&b.id));
            o.insert("name".into(), text(&b.name));
            o.insert("device".into(), text(&b.device));
            Value::Object(o)
        })
        .collect();
    let mut root = serde_json::Map::new();
    root.insert("lines".into(), Value::Array(lines));
    root.insert("outputs".into(), Value::Array(outputs));
    root.insert("masterGain".into(), Value::from(f32::from_bits(c.master_gain) as f64));
    root.insert("schemaVersion".into(), Value::from(c.schema_version));
    Value::Object(root)
}

#[test]
fn import_rejects_json_that_is_not_a_mixflow_config() {
    let refused = "ce fichier n'est pas une configuration MixFlow (il lui manque les sections « lines » et « outputs »). Rien n'a été modifié.";
    for src in [
        r#"{}"#,
        r#"{"name":"mixflow","version":"0.1.0","scripts":{"dev":"vite"}}"#,
        r#"{"compilerOptions":{"strict":true}}"#,
        r#"{"lines":[]}"#,
    ] {
        // Each is a JSON object, which every-field-defaulted deserialisation
        // accepts: the shape check is what refuses it.
        assert!(serde_json::from_str::<Value>(src).unwrap().is_object(), "{src}");
        assert_eq!(check_import(src), Err(refused.to_string()), "{src}");
    }
    for src in [r#"[]"#, r#""juste une chaîne""#, r#"{"lines":"pas un tableau","outputs":[]}"#] {
        assert_eq!(check_import(src), Err(refused.to_string()), "{src}");
    }
    let real = to_json(&default_config(
        "out-1".to_string(),
        "game".to_string(),
        "chat".to_string(),
        "media".to_string(),
        "mic".to_string(),
    ));
    assert_eq!(check_import(&serde_json::to_string(&real).unwrap()), Ok(()));
    assert_eq!(check_import(r#"{"lines":[],"outputs":[]}"#), Ok(()));
}

#[test]
fn text_that_is_not_json_is_unreadable() {
    let r = check_import("{ pas du json").unwrap_err();
    assert!(r.starts_with("fichier illisible : "), "{r}");
    assert!(r.len() > "fichier illisible : ".len());
}

#[test]
fn the_verdict_follows_the_parsed_shape() {
    assert_eq!(import_verdict(&Ok((true, true, true))), Ok(()));
    assert!(import_verdict(&Ok((true, false, true))).unwrap_err().starts_with("ce fichier n'est pas"));
    assert_eq!(import_verdict(&Err("EOF".to_string())), Err("fichier illisible : EOF".to_string()));
}

#[test]
fn each_missing_part_of_the_signature_is_enough_to_refuse() {
    let all = ConfigShape { is_object: true, lines_is_array: true, outputs_is_array: true };
    assert!(looks_like_mixflow_config(&all));
    assert!(!looks_like_mixflow_config(&ConfigShape { is_object: false, ..all }));
    assert!(!looks_like_mixflow_config(&ConfigShape { lines_is_array: false, ..all }));
    assert!(!looks_like_mixflow_config(&ConfigShape { outputs_is_array: false, ..all }));
}
