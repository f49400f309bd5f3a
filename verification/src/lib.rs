//! Two small line-oriented text solvers: calibration values read from
//! digit and number-word tokens, and cube-game records reduced under
//! per-colour limits.

pub mod text;
pub mod pattern;
pub mod first_challenge;
pub mod second_challenge;
