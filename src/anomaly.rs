//! The d-block anomalies: known configurations where an electron of the
//! outer s subshell sits in the d subshell below it instead.
use vstd::prelude::*;
use crate::subshell::{ElectronSubshell, Orbital, views};

verus! {

/// What the anomaly table asks for, given the d subshell before the outer s subshell.
#[derive(Clone, Copy, Debug, PartialEq, Eq, Structural)]
pub enum Correction {
    /// No known anomaly: the configuration stays as it is.
    Keep,
    /// One electron moves from the outer s subshell into the d subshell.
    ShiftOne,
    /// The outer s subshell is removed and its two electrons join the d subshell.
    AbsorbOuter,
    /// The d subshell makes way for the outer s subshell, followed by a single 7p electron.
    SwapToP,
}

/// The anomaly table, keyed by the d subshell's level and electron count.
pub open spec fn correction_for(level: nat, electrons: nat) -> Correction {
    if level == 3 {
        if electrons == 4 || electrons == 9 {
            Correction::ShiftOne
        } else {
            Correction::Keep
        }
    } else if level == 4 {
        if (3 <= electrons <= 4) || (6 <= electrons <= 7) || electrons == 9 {
            Correction::ShiftOne
        } else if electrons == 8 {
            Correction::AbsorbOuter
        } else {
            Correction::Keep
        }
    } else if level == 5 {
        if 8 <= electrons <= 9 {
            Correction::ShiftOne
        } else {
            Correction::Keep
        }
    } else if level == 6 {
        if electrons == 1 {
            Correction::SwapToP
        } else {
            Correction::Keep
        }
    } else {
        Correction::Keep
    }
}

/// `c` with its anomaly corrected. Only a configuration that stopped on a d
/// rung of the ladder (`last_shell == 3`) and has at least two subshells is
/// looked at; its last subshell is the outer s, the one before it the d.
/// An outer s with no electron left to give keeps the configuration as it is.
pub open spec fn corrected(c: Seq<Orbital>, last_shell: nat) -> Seq<Orbital> {
    if last_shell == 3 && c.len() >= 2 {
        let si = c.len() - 1;
        let di = c.len() - 2;
        let s = c[si];
        let d = c[di];
        match correction_for(d.level, d.electrons) {
            Correction::ShiftOne => if s.electrons >= 1 {
                c.update(si, Orbital { electrons: (s.electrons - 1) as nat, ..s }).update(
                    di,
                    Orbital { electrons: d.electrons + 1, ..d },
                )
            } else {
                c
            },
            Correction::AbsorbOuter => c.drop_last().update(
                di,
                Orbital { electrons: d.electrons + 2, ..d },
            ),
            Correction::SwapToP => c.update(di, s).update(
                si,
                Orbital { level: 7, az: 1, electrons: 1 },
            ),
            Correction::Keep => c,
        }
    } else {
        c
    }
}

/// Looks up the anomaly table for a d subshell of `level` holding `electrons`.
pub fn anomaly_rule(level: u8, electrons: u8) -> (r: Correction)
    ensures
        r == correction_for(level as nat, electrons as nat),
{
    match level {
        3 => match electrons {
            4 | 9 => Correction::ShiftOne,
            _ => Correction::Keep,
        },
        4 => match electrons {
            3..=4 | 6..=7 | 9 => Correction::ShiftOne,
            8 => Correction::AbsorbOuter,
            _ => Correction::Keep,
        },
        5 => match electrons {
            8..=9 => Correction::ShiftOne,
            _ => Correction::Keep,
        },
        6 => match electrons {
            1 => Correction::SwapToP,
            _ => Correction::Keep,
        },
        _ => Correction::Keep,
    }
}

/// Rewrites the tail of a level-ordered configuration that the anomaly table names.
pub fn correct_anomalies(subshells: &mut Vec<ElectronSubshell>, last_shell: u8)
    ensures
        views(final(subshells)@) == corrected(views(old(subshells)@), last_shell as nat),
{
    let len = subshells.len();
    if last_shell == 3 && len >= 2 {
        let s_index = len - 1;
        let d_index = len - 2;
        let outer_s = subshells[s_index];
        let outer_d = subshells[d_index];
        let ghost c = views(subshells@);
        match anomaly_rule(outer_d.level, outer_d.electrons) {
            Correction::ShiftOne => {
                if outer_s.electrons >= 1 {
                    subshells.set(s_index, ElectronSubshell { electrons: outer_s.electrons - 1, ..outer_s });
                    subshells.set(d_index, ElectronSubshell { electrons: outer_d.electrons + 1, ..outer_d });
                }
            },
            Correction::AbsorbOuter => {
                subshells.pop();
                subshells.set(d_index, ElectronSubshell { electrons: outer_d.electrons + 2, ..outer_d });
            },
            Correction::SwapToP => {
                subshells.set(d_index, outer_s);
                subshells.set(s_index, ElectronSubshell { level: 7, shell: 1, electrons: 1 });
            },
            Correction::Keep => {},
        }
        assert(views(subshells@) =~= corrected(c, last_shell as nat));
    }
}

/// Correcting a corrected configuration changes nothing more, unless the
/// first correction left a d subshell that the table names again: a 4d
/// subshell of 3, 6, 7 or 8 electrons or a 5d subshell of 8 grows into
/// another entry of the table, and after a swap the outer s subshell becomes
/// the one looked at.
pub proof fn law_correction_settles(c: Seq<Orbital>, last_shell: nat)
    requires
        last_shell == 3 && c.len() >= 2 ==> {
            let d = c[c.len() - 2];
            let s = c[c.len() - 1];
            &&& !(d.level == 4 && (d.electrons == 3 || 6 <= d.electrons <= 8))
            &&& !(d.level == 5 && d.electrons == 8)
            &&& correction_for(d.level, d.electrons) == Correction::SwapToP ==> correction_for(
                s.level,
                s.electrons,
            ) == Correction::Keep
        },
    ensures
        corrected(corrected(c, last_shell), last_shell) == corrected(c, last_shell),
{
}

} // verus!
