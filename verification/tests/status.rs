use mixflow::model::{AppConfig, OutputConfig, Route, UNITY_GAIN};
use mixflow::setup::default_config;
use mixflow::status::{device_warnings, engine_status};
use mixflow::streams::plan_streams;

fn s(x: &str) -> String {
    x.to_string()
}

fn cfg() -> AppConfig {
    let mut c = default_config(s("out-1"), s("game"), s("chat"), s("media"), s("mic"));
    c.outputs[0].device = s("Casque (USB)");
    c
}

#[test]
fn only_routes_with_both_ends_get_a_ring() {
    let mut c = cfg();
    c.lines[0].input_device = Some(s("CABLE-A Output"));
    c.lines[2].input_device = Some(s("CABLE-C Output"));
    c.outputs.push(OutputConfig { id: s("dead"), name: s("Dead"), device: s(""), gain: UNITY_GAIN, muted: false });
    c.lines[2].routes.push(Route { output_id: s("dead"), gain: UNITY_GAIN });
    c.lines[2].routes.push(Route { output_id: s("ghost"), gain: UNITY_GAIN });
    let plan = plan_streams(&c);
    let rings: Vec<(usize, usize, usize)> = plan.rings.iter().map(|r| (r.line, r.route, r.output)).collect();
    assert_eq!(rings, vec![(0, 0, 0), (2, 0, 0)]);
    assert_eq!(plan.captures, vec![0, 2]);
    assert_eq!(plan.renders, vec![0]);
}

#[test]
fn dormant_lines_open_nothing() {
    let plan = plan_streams(&cfg());
    assert!(plan.rings.is_empty() && plan.captures.is_empty() && plan.renders.is_empty());
}

#[test]
fn failed_streams_become_named_warnings() {
    let mut c = cfg();
    c.lines[0].input_device = Some(s("CABLE-A Output"));
    c.lines[1].input_device = Some(s("CABLE-B Output"));
    let plan = plan_streams(&c);
    let st = engine_status(&c, &plan, &vec![Ok(()), Err(s("device not found"))], &vec![Err(s("unsupported sample format I24"))]);
    assert_eq!(st.active_captures, 1);
    assert_eq!(st.active_renders, 0);
    assert_eq!(
        st.warnings,
        vec![s("Line \"Chat\": device not found"), s("Output \"Headphones\": unsupported sample format I24")]
    );
}

#[test]
fn unplugged_devices_are_reported() {
    let mut c = cfg();
    c.lines[0].input_device = Some(s("CABLE-A Output"));
    c.lines[1].input_device = Some(s("Micro USB"));
    c.outputs.push(OutputConfig { id: s("x"), name: s("Spare"), device: s(""), gain: UNITY_GAIN, muted: false });
    let w = device_warnings(&c, &vec![s("CABLE-A Output")], &vec![s("Enceintes")]);
    assert_eq!(
        w,
        vec![
            s("« Chat » : périphérique d'entrée débranché (\"Micro USB\")"),
            s("« Headphones » : périphérique de sortie débranché (\"Casque (USB)\")"),
        ]
    );
    assert!(device_warnings(&c, &vec![s("CABLE-A Output"), s("Micro USB")], &vec![s("Casque (USB)")]).is_empty());
}
