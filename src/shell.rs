//! The configuration of an atom's electrons, filled along the shell ladder.
use vstd::prelude::*;
use crate::subshell::{ElectronSubshell, Orbital, capacity, views};
use crate::ladder::{step_at, highest_rung, lemma_step_bounds};
use crate::filling::{fill_from, configuration, orbital_at};
use crate::arrangement::{by_level, arrange_by_level};
use crate::anomaly::{corrected, correct_anomalies};

verus! {

/// The largest electron count that a configuration is computed for.
pub const MAX_ELECTRONS: usize = 5000;

/// Ladder position at which filling `n` electrons stops.
pub open spec fn final_step(n: nat) -> (nat, nat) {
    step_at((configuration(n).len() - 1) as nat)
}

/// The configuration of `n` electrons arranged level by level, before correction.
pub open spec fn arranged(n: nat) -> Seq<Orbital> {
    by_level(configuration(n), final_step(n).0)
}

/// The configuration of `n` electrons arranged level by level, with its anomaly corrected.
pub open spec fn corrected_configuration(n: nat) -> Seq<Orbital> {
    corrected(arranged(n), final_step(n).1)
}

/// The electrons of an atom, held in filling order together with the ladder
/// position at which filling stopped.
#[derive(Debug)]
pub struct ElectronShell {
    electrons: u16,
    subshells: Vec<ElectronSubshell>,
    aphelion_shell: u8,
    azimuthal_qn: u8,
    last_shell: u8,
}

impl ElectronShell {
    /// The number of electrons this configuration holds.
    pub closed spec fn electron_count(&self) -> nat {
        self.electrons as nat
    }

    #[verifier::type_invariant]
    spec fn well_formed(&self) -> bool {
        let n = self.electrons as nat;
        let k = (configuration(n).len() - 1) as nat;
        &&& n <= MAX_ELECTRONS
        &&& views(self.subshells@) == configuration(n)
        &&& final_step(n) == ((self.azimuthal_qn + 1) as nat, self.last_shell as nat)
        &&& self.aphelion_shell as nat == highest_rung(k)
    }

    /// Fills `num_of_electrons` electrons into subshells along the shell ladder.
    pub fn from_electrons(num_of_electrons: usize) -> (r: ElectronShell)
        requires
            num_of_electrons <= MAX_ELECTRONS,
        ensures
            r.electron_count() == num_of_electrons,
    {
        let num = num_of_electrons;
        let mut subshells: Vec<ElectronSubshell> = Vec::new();
        let mut azimuthal_qn: u8 = 0;
        let mut aphelion_shell: u8 = 1;
        let mut max_level: usize = 1;
        let mut s: usize = 1;
        let mut es: usize = 0;
        // `k` counts the ladder steps taken; `base` is the number of electrons
        // placed before the current diagonal. Each finished diagonal holds at
        // least twice its index, which keeps the ladder within `u8` range.
        let ghost mut k: nat = 0;
        let ghost mut base: nat = 0;
        loop
            invariant_except_break
                es <= num <= MAX_ELECTRONS,
                es < num || k == 0,
                (max_level as nat, s as nat) == step_at(k),
                subshells@.len() == k,
                views(subshells@) + fill_from(k, (num - es) as nat) == configuration(num as nat),
                base <= es,
                (max_level - 1) * (max_level - 2) <= base,
                s < (max_level + 1) / 2 ==> base + 4 * ((max_level + 1) / 2) - 2 <= es,
                aphelion_shell as nat == if k == 0 {
                    1
                } else {
                    highest_rung((k - 1) as nat)
                },
            ensures
                views(subshells@) == configuration(num as nat),
                subshells@.len() == k + 1,
                step_at(k) == (max_level as nat, s as nat),
                azimuthal_qn + 1 == max_level,
                aphelion_shell as nat == highest_rung(k),
            decreases num - es,
        {
            proof {
                lemma_step_bounds(k);
                assert(max_level <= 72) by (nonlinear_arith)
                    requires
                        (max_level - 1) * (max_level - 2) <= MAX_ELECTRONS,
                        max_level >= 1,
                ;
            }
            let ghost prev = subshells@;
            let ghost rem: nat = (num - es) as nat;
            // the capacity of the current subshell, cut to what is left
            let mut max_electrons_in_s = (s * 2 - 1) * 2;
            if max_electrons_in_s + es > num {
                max_electrons_in_s = num - es;
            }
            es += max_electrons_in_s;
            subshells.push(
                ElectronSubshell {
                    level: (max_level + 1 - s) as u8,
                    shell: (s - 1) as u8,
                    electrons: max_electrons_in_s as u8,
                },
            );
            if s as u8 > aphelion_shell {
                aphelion_shell = s as u8;
            }
            azimuthal_qn = max_level as u8 - 1;
            proof {
                let full = capacity((s - 1) as nat);
                assert(views(subshells@) =~= views(prev).push(orbital_at(k, max_electrons_in_s as nat)));
                if rem > full {
                    assert(fill_from(k, rem) =~= seq![orbital_at(k, full)] + fill_from(k + 1, (rem - full) as nat));
                    assert(views(subshells@) + fill_from(k + 1, (num - es) as nat) =~= views(prev) + fill_from(k, rem));
                } else {
                    assert(views(subshells@) =~= views(prev) + fill_from(k, rem));
                }
            }
            if es >= num {
                break;
            }
            proof {
                if s == 1 {
                    assert(max_level * (max_level - 1) == (max_level - 1) * (max_level - 2) + 2 * (max_level - 1)) by (nonlinear_arith);
                    base = es as nat;
                }
            }
            // down the diagonal; from the s rung onto the top of the next one
            if s == 1 {
                max_level += 1;
                s = (max_level + 1) / 2;
            } else {
                s -= 1;
            }
            proof {
                k = k + 1;
            }
        }
        proof {
            assert(configuration(num as nat).len() == k + 1);
        }
        ElectronShell {
            electrons: num as u16,
            subshells,
            aphelion_shell,
            azimuthal_qn,
            last_shell: s as u8,
        }
    }

    /// The highest ladder rung reached while filling, one more than the
    /// largest azimuthal index of any subshell.
    pub fn aphelion_shell(&self) -> (r: u8)
        ensures
            r as nat == highest_rung((configuration(self.electron_count()).len() - 1) as nat),
    {
        proof {
            use_type_invariant(self);
        }
        self.aphelion_shell
    }

    /// The diagonal on which filling stopped, less one: the arrangement runs
    /// over the levels `1..=azimuthal_qn + 1`.
    pub fn azimuthal_qn(&self) -> (r: u8)
        ensures
            r + 1 == final_step(self.electron_count()).0,
    {
        proof {
            use_type_invariant(self);
        }
        self.azimuthal_qn
    }

    /// The subshells level by level, with the d-block anomaly corrected.
    pub fn electron_subshell(&self) -> (r: Vec<ElectronSubshell>)
        ensures
            views(r@) == corrected_configuration(self.electron_count()),
    {
        proof {
            use_type_invariant(self);
        }
        let mut subshells = arrange_by_level(&self.subshells, self.azimuthal_qn as usize + 1);
        correct_anomalies(&mut subshells, self.last_shell);
        subshells
    }
}

} // verus!
