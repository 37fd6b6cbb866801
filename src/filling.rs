//! The idealised configuration: subshells taken in ladder order, each filled
//! to capacity until the requested electrons run out.
use vstd::prelude::*;
use crate::subshell::{Orbital, capacity};
use crate::ladder::{az_at, level_at};

verus! {

/// The subshell met at ladder step `k`, holding `electrons` electrons.
pub open spec fn orbital_at(k: nat, electrons: nat) -> Orbital {
    Orbital { level: level_at(k), az: az_at(k), electrons }
}

/// Subshells from ladder step `k` on, filled with `rem` electrons.
pub open spec fn fill_from(k: nat, rem: nat) -> Seq<Orbital>
    decreases rem,
{
    let full = capacity(az_at(k));
    if rem <= full {
        seq![orbital_at(k, rem)]
    } else {
        seq![orbital_at(k, full)] + fill_from(k + 1, (rem - full) as nat)
    }
}

/// The configuration of `n` electrons, before any anomaly is corrected.
pub open spec fn configuration(n: nat) -> Seq<Orbital> {
    fill_from(0, n)
}

/// Electrons held over all subshells of `c`.
pub open spec fn total_electrons(c: Seq<Orbital>) -> nat
    decreases c.len(),
{
    if c.len() == 0 {
        0
    } else {
        c.first().electrons + total_electrons(c.drop_first())
    }
}

proof fn lemma_fill_total(k: nat, rem: nat)
    ensures
        total_electrons(fill_from(k, rem)) == rem,
    decreases rem,
{
    let full = capacity(az_at(k));
    let c = fill_from(k, rem);
    if rem <= full {
        assert(c.drop_first() =~= Seq::<Orbital>::empty());
        assert(total_electrons(c.drop_first()) == 0);
    } else {
        lemma_fill_total(k + 1, (rem - full) as nat);
        assert(c.drop_first() =~= fill_from(k + 1, (rem - full) as nat));
    }
}

proof fn lemma_fill_shape(k: nat, rem: nat)
    ensures
        fill_from(k, rem).len() >= 1,
        forall|i: int|
            0 <= i < fill_from(k, rem).len() ==> {
                let o = #[trigger] fill_from(k, rem)[i];
                &&& o.level == level_at(k + i as nat)
                &&& o.az == az_at(k + i as nat)
                &&& o.electrons <= capacity(o.az)
                &&& i < fill_from(k, rem).len() - 1 ==> o.electrons == capacity(o.az)
            },
    decreases rem,
{
    let full = capacity(az_at(k));
    if rem > full {
        let rest = fill_from(k + 1, (rem - full) as nat);
        lemma_fill_shape(k + 1, (rem - full) as nat);
        assert forall|i: int| 1 <= i < fill_from(k, rem).len() implies fill_from(k, rem)[i]
            == rest[i - 1] by {}
    }
}

proof fn lemma_fill_one_more(k: nat, rem: nat)
    ensures
        ({
            let c = fill_from(k, rem);
            let last = c.last();
            fill_from(k, rem + 1) == if last.electrons < capacity(last.az) {
                c.update(c.len() - 1, Orbital { electrons: last.electrons + 1, ..last })
            } else {
                c.push(orbital_at(k + c.len(), 1))
            }
        }),
    decreases rem,
{
    let full = capacity(az_at(k));
    let c = fill_from(k, rem);
    let last = c.last();
    if rem < full {
        assert(fill_from(k, rem + 1) =~= c.update(c.len() - 1, Orbital { electrons: last.electrons + 1, ..last }));
    } else if rem == full {
        assert(fill_from(k + 1, 1) =~= seq![orbital_at(k + 1, 1)]);
        assert(fill_from(k, rem + 1) =~= c.push(orbital_at(k + c.len(), 1)));
    } else {
        let r = (rem - full) as nat;
        lemma_fill_one_more(k + 1, r);
        let rest = fill_from(k + 1, r);
        assert(c =~= seq![orbital_at(k, full)] + rest);
        assert(c.last() == rest.last());
        assert((rem + 1 - full) as nat == r + 1);
        if last.electrons < capacity(last.az) {
            assert(fill_from(k, rem + 1) =~= c.update(c.len() - 1, Orbital { electrons: last.electrons + 1, ..last }));
        } else {
            assert(k + c.len() == (k + 1) + rest.len());
            assert(fill_from(k, rem + 1) =~= c.push(orbital_at(k + c.len(), 1)));
        }
    }
}

/// The electrons of a configuration add up to exactly the requested count.
pub proof fn law_configuration_total(n: nat)
    ensures
        total_electrons(configuration(n)) == n,
{
    lemma_fill_total(0, n);
}

/// Subshells come in ladder order; none holds more than its capacity, and
/// every one but the last is full.
pub proof fn law_configuration_shape(n: nat)
    ensures
        configuration(n).len() >= 1,
        forall|i: int|
            0 <= i < configuration(n).len() ==> {
                let o = #[trigger] configuration(n)[i];
                &&& o.level == level_at(i as nat)
                &&& o.az == az_at(i as nat)
                &&& o.electrons <= capacity(o.az)
                &&& i < configuration(n).len() - 1 ==> o.electrons == capacity(o.az)
            },
{
    lemma_fill_shape(0, n);
}

/// One more electron either goes into the last subshell, while it has room,
/// or opens the next subshell of the ladder with a single electron; the
/// subshells before it stay as they were.
pub proof fn law_configuration_grows(n: nat)
    ensures
        ({
            let c = configuration(n);
            let last = c.last();
            configuration(n + 1) == if last.electrons < capacity(last.az) {
                c.update(c.len() - 1, Orbital { electrons: last.electrons + 1, ..last })
            } else {
                c.push(orbital_at(c.len(), 1))
            }
        }),
{
    lemma_fill_one_more(0, n);
}

} // verus!
