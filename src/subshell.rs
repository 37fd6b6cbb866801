//! One subshell of a configuration: its principal level, its azimuthal
//! index and the electrons it holds.
use vstd::prelude::*;

verus! {

/// Mathematical model of a subshell.
pub struct Orbital {
    pub level: nat,
    pub az: nat,
    pub electrons: nat,
}

/// Electrons that a subshell of azimuthal index `az` holds when full.
pub open spec fn capacity(az: nat) -> nat {
    (4 * (az + 1) - 2) as nat
}

#[derive(Clone, Copy, Debug, PartialEq, Eq, Structural)]
pub struct ElectronSubshell {
    pub level: u8,
    pub shell: u8,
    pub electrons: u8,
}

impl View for ElectronSubshell {
    type V = Orbital;

    open spec fn view(&self) -> Orbital {
        Orbital { level: self.level as nat, az: self.shell as nat, electrons: self.electrons as nat }
    }
}

/// The models of a sequence of subshells.
pub open spec fn views(v: Seq<ElectronSubshell>) -> Seq<Orbital> {
    v.map_values(|o: ElectronSubshell| o@)
}

impl ElectronSubshell {
    /// A subshell of principal level `level`, azimuthal index `shell`,
    /// holding `electrons` electrons.
    pub fn from_lse(level: u8, shell: u8, electrons: u8) -> (r: ElectronSubshell)
        ensures
            r.level == level,
            r.shell == shell,
            r.electrons == electrons,
    {
        ElectronSubshell { level, shell, electrons }
    }
}

} // verus!
