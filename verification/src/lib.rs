//! Verified core of the MixFlow audio router: configuration topology,
//! sanitising passes, stream planning and the small text rules they rely on.

pub mod seqs;
pub mod text;
pub mod names;
pub mod ids;
pub mod model;
pub mod streams;
pub mod topology;
pub mod edits;
pub mod buses;
pub mod profiles;
pub mod sanitize;
pub mod reconcile;
pub mod apps;
pub mod routing;
pub mod icons;
pub mod setup;
pub mod status;
pub mod cables;
