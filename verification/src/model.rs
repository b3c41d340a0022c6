//! Configuration model. Continuous values (gains, frequencies, amounts) are
//! carried as the IEEE-754 single-precision bit pattern of the number: the
//! configuration logic only copies them, orders them or compares them for
//! identity, and arithmetic on them happens outside this crate.

use vstd::prelude::*;
use crate::text::{str_eq, to_owned};
use crate::seqs::{first_match, first_match_from};

verus! {

/// Bit pattern of the gain `1.0`, the default of every fader.
pub const UNITY_GAIN: u32 = 0x3f80_0000;

/// Bit pattern of `0.0`.
pub const ZERO_BITS: u32 = 0;

/// Bumped when a migration must distinguish "never set" from "cleared".
pub const CURRENT_SCHEMA_VERSION: u32 = 1;

/// A route: "this virtual line feeds that output bus, at this gain".
#[derive(Clone, Debug)]
pub struct Route {
    /// Id of the target [`OutputConfig`].
    pub output_id: String,
    /// Per-route gain (bit pattern).
    pub gain: u32,
}

/// One parametric EQ band: peaking filter at `freq` Hz with `gain` dB
/// (both as bit patterns).
#[derive(Clone, Copy, Debug)]
pub struct EqBandCfg {
    pub freq: u32,
    pub gain: u32,
}

/// A virtual line (Game, Chat, Media, Mic...).
#[derive(Clone, Debug)]
pub struct LineConfig {
    pub id: String,
    pub name: String,
    /// "app" or "mic".
    pub kind: String,
    /// Accent colour used by the UI (hex).
    pub color: String,
    /// Capture endpoint name; `None` means the line is dormant.
    pub input_device: Option<String>,
    /// Line fader (bit pattern).
    pub gain: u32,
    pub muted: bool,
    /// Legacy 5-band gains, migrated into `eq_bands`.
    pub eq: Vec<u32>,
    /// Parametric EQ bands.
    pub eq_bands: Vec<EqBandCfg>,
    /// Executables whose audio Windows routes into this line's cable.
    pub apps: Vec<String>,
    /// MMDevice id of the cable's render side.
    pub cable_render_id: Option<String>,
    pub routes: Vec<Route>,
    /// "douce" | "normale" | "rapide".
    pub duck_reactivity: String,
}

/// An output bus bound to a physical render device.
#[derive(Clone, Debug)]
pub struct OutputConfig {
    pub id: String,
    pub name: String,
    /// Render endpoint name; empty means unassigned.
    pub device: String,
    pub gain: u32,
    pub muted: bool,
}

/// Side-chain ducking rule: while `source_line` is active, `target_line`
/// is attenuated by up to `amount`.
#[derive(Clone, Debug)]
pub struct DuckRule {
    pub source_line: String,
    pub target_line: String,
    pub amount: u32,
}

/// A saved EQ preset.
#[derive(Clone, Debug)]
pub struct EqPreset {
    pub name: String,
    /// Legacy fixed-band gains.
    pub gains: Vec<u32>,
    pub bands: Vec<EqBandCfg>,
}

/// One line's settings captured into a [`Profile`].
#[derive(Clone, Debug)]
pub struct LineSnapshot {
    pub line_id: String,
    pub gain: u32,
    pub muted: bool,
    pub eq_bands: Vec<EqBandCfg>,
    /// Output devices by name.
    pub output_devices: Vec<String>,
}

/// A saved mix state, optionally applied when `trigger_exe` gains focus.
#[derive(Clone, Debug)]
pub struct Profile {
    pub id: String,
    pub name: String,
    pub trigger_exe: Option<String>,
    pub lines: Vec<LineSnapshot>,
    pub ducking: Vec<DuckRule>,
    pub master_gain: u32,
}

/// The whole persisted configuration.
#[derive(Clone, Debug)]
pub struct AppConfig {
    pub lines: Vec<LineConfig>,
    pub outputs: Vec<OutputConfig>,
    pub ducking: Vec<DuckRule>,
    /// Global master (bit pattern).
    pub master_gain: u32,
    pub eq_presets: Vec<EqPreset>,
    pub profiles: Vec<Profile>,
    pub schema_version: u32,
}

/// Payload returned by the device listing.
#[derive(Clone, Debug)]
pub struct DeviceList {
    pub inputs: Vec<String>,
    pub outputs: Vec<String>,
}

/// Envelope reactivity of a ducking side-chain.
#[derive(Clone, Copy, Debug, PartialEq, Eq)]
pub enum Reactivity {
    Douce,
    Normale,
    Rapide,
}

/// Reactivity named by a level string; anything unknown is `Normale`.
pub open spec fn reactivity_spec(level: Seq<char>) -> Reactivity {
    if level == "rapide"@ {
        Reactivity::Rapide
    } else if level == "douce"@ {
        Reactivity::Douce
    } else {
        Reactivity::Normale
    }
}

/// The canonical name of a reactivity level.
pub open spec fn reactivity_name(r: Reactivity) -> Seq<char> {
    match r {
        Reactivity::Douce => "douce"@,
        Reactivity::Normale => "normale"@,
        Reactivity::Rapide => "rapide"@,
    }
}

/// Parses a reactivity level.
pub fn reactivity_of(level: &str) -> (r: Reactivity)
    ensures
        r == reactivity_spec(level@),
{
    if str_eq(level, "rapide") {
        Reactivity::Rapide
    } else if str_eq(level, "douce") {
        Reactivity::Douce
    } else {
        Reactivity::Normale
    }
}

/// Canonical spelling of a level: "douce" and "rapide" stay, anything else
/// becomes "normale".
pub fn canonical_reactivity(level: &str) -> (r: String)
    ensures
        r@ == reactivity_name(reactivity_spec(level@)),
{
    match reactivity_of(level) {
        Reactivity::Douce => to_owned("douce"),
        Reactivity::Normale => to_owned("normale"),
        Reactivity::Rapide => to_owned("rapide"),
    }
}

/// Default line kind.
pub fn default_kind() -> (r: String)
    ensures
        r@ == "app"@,
{
    to_owned("app")
}

/// Default line colour.
pub fn default_color() -> (r: String)
    ensures
        r@ == "#8b5cf6"@,
{
    to_owned("#8b5cf6")
}

/// Default ducking reactivity.
pub fn default_reactivity() -> (r: String)
    ensures
        r@ == "normale"@,
{
    to_owned("normale")
}

} // verus!

verus! {

/// `Option<usize>` seen as an optional mathematical index.
pub open spec fn idx(r: Option<usize>) -> Option<int> {
    match r {
        Some(i) => Some(i as int),
        None => None,
    }
}

/// The output bus has this id.
pub open spec fn output_has_id(id: Seq<char>) -> spec_fn(OutputConfig) -> bool {
    |o: OutputConfig| o.id@ == id
}

/// The output bus is bound to this device.
pub open spec fn output_has_device(device: Seq<char>) -> spec_fn(OutputConfig) -> bool {
    |o: OutputConfig| o.device@ == device
}

/// The line has this id.
pub open spec fn line_has_id(id: Seq<char>) -> spec_fn(LineConfig) -> bool {
    |l: LineConfig| l.id@ == id
}

/// The route targets this bus.
pub open spec fn route_to(id: Seq<char>) -> spec_fn(Route) -> bool {
    |r: Route| r.output_id@ == id
}

/// First output bus with the given id.
pub fn find_output_by_id(outputs: &Vec<OutputConfig>, id: &str) -> (r: Option<usize>)
    ensures
        idx(r) == first_match(outputs@, output_has_id(id@)),
{
    let mut i: usize = 0;
    while i < outputs.len()
        invariant
            i <= outputs@.len(),
            first_match(outputs@, output_has_id(id@)) == first_match_from(
                outputs@,
                output_has_id(id@),
                i as int,
            ),
        decreases outputs@.len() - i,
    {
        if str_eq(outputs[i].id.as_str(), id) {
            return Some(i);
        }
        i += 1;
    }
    None
}

/// First output bus bound to the given device.
pub fn find_output_by_device(outputs: &Vec<OutputConfig>, device: &str) -> (r: Option<usize>)
    ensures
        idx(r) == first_match(outputs@, output_has_device(device@)),
{
    let mut i: usize = 0;
    while i < outputs.len()
        invariant
            i <= outputs@.len(),
            first_match(outputs@, output_has_device(device@)) == first_match_from(
                outputs@,
                output_has_device(device@),
                i as int,
            ),
        decreases outputs@.len() - i,
    {
        if str_eq(outputs[i].device.as_str(), device) {
            return Some(i);
        }
        i += 1;
    }
    None
}

/// First line with the given id.
pub fn find_line(lines: &Vec<LineConfig>, id: &str) -> (r: Option<usize>)
    ensures
        idx(r) == first_match(lines@, line_has_id(id@)),
{
    let mut i: usize = 0;
    while i < lines.len()
        invariant
            i <= lines@.len(),
            first_match(lines@, line_has_id(id@)) == first_match_from(
                lines@,
                line_has_id(id@),
                i as int,
            ),
        decreases lines@.len() - i,
    {
        if str_eq(lines[i].id.as_str(), id) {
            return Some(i);
        }
        i += 1;
    }
    None
}

/// First route of a line that targets the given bus.
pub fn find_route(routes: &Vec<Route>, output_id: &str) -> (r: Option<usize>)
    ensures
        idx(r) == first_match(routes@, route_to(output_id@)),
{
    let mut i: usize = 0;
    while i < routes.len()
        invariant
            i <= routes@.len(),
            first_match(routes@, route_to(output_id@)) == first_match_from(
                routes@,
                route_to(output_id@),
                i as int,
            ),
        decreases routes@.len() - i,
    {
        if str_eq(routes[i].output_id.as_str(), output_id) {
            return Some(i);
        }
        i += 1;
    }
    None
}

} // verus!
