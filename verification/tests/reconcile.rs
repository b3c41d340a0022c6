use mixflow::model::{AppConfig, OutputConfig, Route, UNITY_GAIN};
use mixflow::reconcile::{apply_cable_bindings, cable_used_as_output, plan_cable_bindings, reconcile_structure};
use mixflow::setup::default_config;

fn s(x: &str) -> String {
    x.to_string()
}

fn cfg() -> AppConfig {
    let mut c = default_config(s("out-1"), s("game"), s("chat"), s("media"), s("mic"));
    c.outputs[0].device = s("Casque (USB)");
    c
}

#[test]
fn each_sourceless_app_line_claims_a_free_cable() {
    let c = cfg();
    let inputs = vec![
        s("Microphone (Realtek)"),
        s("CABLE-A Output (VB-Audio Cable A)"),
        s("CABLE-B Output (VB-Audio Cable B)"),
    ];
    let plan = plan_cable_bindings(&c, &inputs);
    assert_eq!(
        plan,
        vec![(s("game"), s("CABLE-A Output (VB-Audio Cable A)")), (s("chat"), s("CABLE-B Output (VB-Audio Cable B)"))]
    );
}

#[test]
fn taken_cables_and_stream_cables_are_not_free() {
    let mut c = cfg();
    c.lines[0].input_device = Some(s("CABLE-A Output (VB-Audio Cable A)"));
    c.outputs.push(OutputConfig {
        id: s("stream"),
        name: s("Stream"),
        device: s("CABLE-B Input (VB-Audio Cable B)"),
        gain: UNITY_GAIN,
        muted: false,
    });
    assert!(cable_used_as_output(&c.outputs, "CABLE-B Output (VB-Audio Cable B)"));
    assert!(!cable_used_as_output(&c.outputs, "CABLE-C Output (VB-Audio Cable C)"));
    let inputs = vec![
        s("CABLE-A Output (VB-Audio Cable A)"),
        s("CABLE-B Output (VB-Audio Cable B)"),
        s("CABLE-C Output (VB-Audio Cable C)"),
    ];
    let plan = plan_cable_bindings(&c, &inputs);
    assert_eq!(plan, vec![(s("chat"), s("CABLE-C Output (VB-Audio Cable C)"))]);
}

#[test]
fn bindings_apply_by_id_and_never_clobber_a_source() {
    let mut c = cfg();
    c.lines[1].input_device = Some(s("already"));
    let resolved = vec![
        (s("game"), s("CABLE-A Output (VB-Audio Cable A)"), Some(s("{a}"))),
        (s("chat"), s("CABLE-B Output (VB-Audio Cable B)"), None),
        (s("gone"), s("CABLE-C Output (VB-Audio Cable C)"), None),
    ];
    apply_cable_bindings(&mut c, &resolved);
    assert_eq!(c.lines[0].input_device.as_deref(), Some("CABLE-A Output (VB-Audio Cable A)"));
    assert_eq!(c.lines[0].cable_render_id.as_deref(), Some("{a}"));
    assert_eq!(c.lines[1].input_device.as_deref(), Some("already"));
}

#[test]
fn reconcile_releases_physical_sources_and_adds_a_muted_mic() {
    let mut c = cfg();
    c.lines.retain(|l| l.kind != "mic");
    c.lines[0].input_device = Some(s("Microphone (Realtek)"));
    c.lines[0].cable_render_id = Some(s("{x}"));
    c.lines[1].input_device = Some(s("CABLE Output (VB-Audio Virtual Cable)"));
    reconcile_structure(&mut c, Some(s("Casque (USB)")), s("mic-new"), s("bus-new"));
    assert_eq!(c.lines[0].input_device, None);
    assert_eq!(c.lines[0].cable_render_id, None);
    assert_eq!(c.lines[1].input_device.as_deref(), Some("CABLE Output (VB-Audio Virtual Cable)"));
    let mic = c.lines.last().unwrap();
    assert_eq!(mic.id, "mic-new");
    assert_eq!(mic.kind, "mic");
    assert!(mic.muted);
    assert_eq!(mic.routes.len(), 1);
    assert_eq!(mic.routes[0].output_id, "out-1");
}

#[test]
fn reconcile_sends_routeless_lines_to_the_default_output() {
    let mut c = cfg();
    c.lines[0].routes = vec![Route { output_id: s("vanished"), gain: UNITY_GAIN }];
    reconcile_structure(&mut c, Some(s("Haut-parleurs (Realtek)")), s("m"), s("bus-new"));
    assert_eq!(c.lines[0].routes.len(), 1);
    assert_eq!(c.lines[0].routes[0].output_id, "bus-new");
    assert!(c.outputs.iter().any(|o| o.id == "bus-new" && o.device == "Haut-parleurs (Realtek)"));
    assert!(c.outputs.iter().any(|o| o.id == "out-1"));
}

#[test]
fn reconcile_never_routes_into_a_cable_and_prunes() {
    let mut c = cfg();
    for l in c.lines.iter_mut() {
        l.routes.clear();
    }
    reconcile_structure(&mut c, Some(s("CABLE Input (VB-Audio Virtual Cable)")), s("m"), s("b"));
    assert!(c.lines.iter().all(|l| l.routes.is_empty()));
    assert!(c.outputs.is_empty());
}
