//! Electron configurations of atoms: the Madelung filling order, its
//! level-ordered arrangement, and the known d-block anomalies.

pub mod subshell;
pub mod ladder;
pub mod filling;
pub mod arrangement;
pub mod anomaly;
pub mod shell;
pub mod render;
pub mod conservation;
