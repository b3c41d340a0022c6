use mixflow::buses::set_line_outputs;
use mixflow::model::{AppConfig, OutputConfig, Route, UNITY_GAIN};
use mixflow::names::short_device_name;
use mixflow::setup::default_config;
use mixflow::topology::{enable_streamer_mode, find_or_create_bus, is_routed, prune_unused_buses};

fn s(x: &str) -> String {
    x.to_string()
}

fn cfg() -> AppConfig {
    default_config(s("out-1"), s("game"), s("chat"), s("media"), s("mic"))
}

fn bus(id: &str, device: &str) -> OutputConfig {
    OutputConfig { id: s(id), name: short_device_name(device), device: s(device), gain: UNITY_GAIN, muted: false }
}

#[test]
fn find_or_create_bus_reuses_a_device_bus() {
    let mut c = cfg();
    c.outputs[0].device = s("Casque (USB)");
    assert_eq!(find_or_create_bus(&mut c, "Casque (USB)", s("fresh")), "out-1");
    assert_eq!(c.outputs.len(), 1);
    assert_eq!(find_or_create_bus(&mut c, "Haut-parleurs (Realtek)", s("fresh")), "fresh");
    assert_eq!(c.outputs.len(), 2);
    assert_eq!(c.outputs[1].name, "Haut-parleurs");
    assert_eq!(c.outputs[1].device, "Haut-parleurs (Realtek)");
    // A second resolution finds the bus just created.
    assert_eq!(find_or_create_bus(&mut c, "Haut-parleurs (Realtek)", s("other")), "fresh");
    assert_eq!(c.outputs.len(), 2);
}

#[test]
fn prune_drops_only_unrouted_buses() {
    let mut c = cfg();
    c.outputs.push(bus("spare", "Spare (X)"));
    assert!(is_routed(&c.lines, "out-1"));
    assert!(!is_routed(&c.lines, "spare"));
    prune_unused_buses(&mut c);
    assert_eq!(c.outputs.len(), 1);
    assert_eq!(c.outputs[0].id, "out-1");
    prune_unused_buses(&mut c);
    assert_eq!(c.outputs.len(), 1);
}

#[test]
fn set_line_outputs_fans_out_and_keeps_gains() {
    let mut c = cfg();
    c.outputs[0].device = s("Casque (USB)");
    c.lines[0].routes[0].gain = 0.5f32.to_bits();
    let devices = vec![s("Casque (USB)"), s(""), s("Enceintes (HDMI)")];
    let fresh = vec![s("n1"), s("n2"), s("n3")];
    set_line_outputs(&mut c, "game", &devices, &fresh);
    let r = &c.lines[0].routes;
    assert_eq!(r.len(), 2);
    assert_eq!(r[0].output_id, "out-1");
    assert_eq!(f32::from_bits(r[0].gain), 0.5);
    let new_bus = c.outputs.iter().find(|o| o.device == "Enceintes (HDMI)").unwrap();
    assert_eq!(new_bus.name, "Enceintes");
    assert_eq!(r[1].output_id, new_bus.id);
    assert_eq!(f32::from_bits(r[1].gain), 1.0);
}

#[test]
fn set_line_outputs_prunes_what_nobody_uses() {
    let mut c = cfg();
    c.outputs[0].device = s("Casque (USB)");
    for l in c.lines.iter_mut() {
        l.routes.clear();
    }
    c.lines[0].routes.push(Route { output_id: s("out-1"), gain: UNITY_GAIN });
    set_line_outputs(&mut c, "game", &vec![s("Autre (Y)")], &vec![s("n1")]);
    assert_eq!(c.outputs.len(), 1);
    assert_eq!(c.outputs[0].id, "n1");
}

#[test]
fn streamer_mode_adds_one_route_per_line_once() {
    let mut c = cfg();
    enable_streamer_mode(&mut c, "CABLE Input (VB-Audio Virtual Cable)", s("stream"));
    assert_eq!(c.outputs.len(), 2);
    assert!(c.lines.iter().all(|l| l.routes.len() == 2 && l.routes[1].output_id == "stream"));
    let snapshot = format!("{:?}", c);
    enable_streamer_mode(&mut c, "CABLE Input (VB-Audio Virtual Cable)", s("again"));
    assert_eq!(format!("{:?}", c), snapshot);
}

#[test]
fn set_line_outputs_takes_each_device_once() {
    let mut c = cfg();
    c.outputs[0].device = s("Casque (USB)");
    let devices = vec![s("Enceintes (HDMI)"), s("Casque (USB)"), s("Enceintes (HDMI)")];
    set_line_outputs(&mut c, "game", &devices, &vec![s("n1"), s("n2"), s("n3")]);
    let r = &c.lines[0].routes;
    assert_eq!(r.len(), 2);
    assert_eq!(r[0].output_id, "n1");
    assert_eq!(r[1].output_id, "out-1");
    assert_eq!(c.outputs.iter().filter(|o| o.device == "Enceintes (HDMI)").count(), 1);
}
