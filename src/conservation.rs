//! Arranging a configuration level by level, and correcting its anomaly,
//! keeps every electron.
use vstd::prelude::*;
use crate::subshell::{Orbital, capacity};
use crate::filling::{total_electrons, configuration, law_configuration_shape, law_configuration_total};
use crate::arrangement::{find_from, row_from, by_level};
use crate::ladder::{step_at, precedes, on_ladder, lemma_step_bounds, lemma_steps_ordered, lemma_step_reached, lemma_diagonal_monotonic};
use crate::shell::{final_step, arranged, corrected_configuration};
use crate::anomaly::{Correction, correction_for, corrected};

verus! {

proof fn lemma_total_remove(b: Seq<Orbital>, j: int)
    requires
        0 <= j < b.len(),
    ensures
        total_electrons(b) == b[j].electrons + total_electrons(b.remove(j)),
    decreases j,
{
    if j == 0 {
        assert(b.remove(0) =~= b.drop_first());
    } else {
        let r = b.remove(j);
        lemma_total_remove(b.drop_first(), j - 1);
        assert(r.drop_first() =~= b.drop_first().remove(j - 1));
        assert(r.first() == b.first());
    }
}

proof fn lemma_total_update(c: Seq<Orbital>, i: int, x: Orbital)
    requires
        0 <= i < c.len(),
    ensures
        total_electrons(c.update(i, x)) + c[i].electrons == total_electrons(c) + x.electrons,
    decreases i,
{
    let u = c.update(i, x);
    if i == 0 {
        assert(u.drop_first() =~= c.drop_first());
    } else {
        lemma_total_update(c.drop_first(), i - 1, x);
        assert(u.drop_first() =~= c.drop_first().update(i - 1, x));
    }
}

proof fn lemma_total_drop_last(c: Seq<Orbital>)
    requires
        c.len() >= 1,
    ensures
        total_electrons(c) == total_electrons(c.drop_last()) + c.last().electrons,
{
    lemma_total_remove(c, c.len() - 1);
    assert(c.remove(c.len() - 1) =~= c.drop_last());
}

/// Two sequences without repeats that hold the same subshells hold the same electrons.
proof fn lemma_total_same_elements(a: Seq<Orbital>, b: Seq<Orbital>)
    requires
        a.no_duplicates(),
        b.no_duplicates(),
        forall|x: Orbital| a.contains(x) <==> b.contains(x),
    ensures
        total_electrons(a) == total_electrons(b),
    decreases a.len(),
{
    if a.len() == 0 {
        if b.len() > 0 {
            assert(b.contains(b[0]));
        }
    } else {
        let x = a[0];
        assert(a.contains(x));
        let j = choose|j: int| 0 <= j < b.len() && b[j] == x;
        let a2 = a.drop_first();
        let b2 = b.remove(j);
        assert forall|y: Orbital| a2.contains(y) <==> b2.contains(y) by {
            if a2.contains(y) {
                let p = choose|p: int| 0 <= p < a2.len() && a2[p] == y;
                assert(a[p + 1] == y);
                assert(y != x);
                assert(b.contains(y));
                let q = choose|q: int| 0 <= q < b.len() && b[q] == y;
                assert(q != j);
                if q < j {
                    assert(b2[q] == y);
                } else {
                    assert(b2[q - 1] == y);
                }
            }
            if b2.contains(y) {
                let q = choose|q: int| 0 <= q < b2.len() && b2[q] == y;
                if q < j {
                    assert(b[q] == y);
                    assert(y != x);
                } else {
                    assert(b[q + 1] == y);
                    assert(y != x);
                }
                assert(a.contains(y));
                let p = choose|p: int| 0 <= p < a.len() && a[p] == y;
                assert(p != 0);
                assert(a2[p - 1] == y);
            }
        }
        assert(b2.no_duplicates()) by {
            assert forall|p: int, q: int| 0 <= p < b2.len() && 0 <= q < b2.len() && p != q implies b2[p] != b2[q] by {
                let pp = if p < j { p } else { p + 1 };
                let qq = if q < j { q } else { q + 1 };
                assert(b2[p] == b[pp]);
                assert(b2[q] == b[qq]);
            }
        }
        lemma_total_same_elements(a2, b2);
        lemma_total_remove(b, j);
    }
}

spec fn matches_key(o: Orbital, level: nat, az: nat) -> bool {
    o.level == level && o.az == az
}

proof fn lemma_find_hit(c: Seq<Orbital>, j: nat, i: nat, level: nat, az: nat)
    requires
        j <= i < c.len(),
        matches_key(c[i as int], level, az),
        forall|m: int| j <= m < i ==> !matches_key(#[trigger] c[m], level, az),
    ensures
        find_from(c, j, level, az) == Some(c[i as int]),
    decreases i - j,
{
    if j < i {
        lemma_find_hit(c, j + 1, i, level, az);
    }
}

proof fn lemma_find_miss(c: Seq<Orbital>, j: nat, level: nat, az: nat)
    requires
        forall|m: int| j <= m < c.len() ==> !matches_key(#[trigger] c[m], level, az),
    ensures
        find_from(c, j, level, az) is None,
    decreases c.len() - j,
{
    if j < c.len() {
        lemma_find_miss(c, j + 1, level, az);
    }
}

proof fn lemma_find_sound(c: Seq<Orbital>, j: nat, level: nat, az: nat)
    ensures
        find_from(c, j, level, az) matches Some(o) ==> o.level == level && o.az == az && c.contains(o),
    decreases c.len() - j,
{
    if j < c.len() {
        if matches_key(c[j as int], level, az) {
            assert(c.contains(c[j as int]));
        } else {
            lemma_find_sound(c, j + 1, level, az);
        }
    }
}

spec fn key_before(x: Orbital, y: Orbital) -> bool {
    x.level < y.level || (x.level == y.level && x.az < y.az)
}

spec fn strictly_sorted(s: Seq<Orbital>) -> bool {
    forall|i: int, j: int| 0 <= i < j < s.len() ==> key_before(#[trigger] s[i], #[trigger] s[j])
}

proof fn lemma_row_shape(c: Seq<Orbital>, level: nat, az: nat)
    ensures
        strictly_sorted(row_from(c, level, az)),
        forall|i: int|
            0 <= i < row_from(c, level, az).len() ==> {
                let o = #[trigger] row_from(c, level, az)[i];
                o.level == level && o.az >= az && c.contains(o)
            },
    decreases level - az,
{
    if az < level {
        lemma_find_sound(c, 0, level, az);
        if let Some(o) = find_from(c, 0, level, az) {
            let rest = row_from(c, level, az + 1);
            lemma_row_shape(c, level, az + 1);
            let r = row_from(c, level, az);
            assert(r =~= seq![o] + rest);
            assert forall|i: int| 1 <= i < r.len() implies r[i] == rest[i - 1] by {}
        }
    }
}

proof fn lemma_by_level_shape(c: Seq<Orbital>, top: nat)
    ensures
        strictly_sorted(by_level(c, top)),
        forall|i: int|
            0 <= i < by_level(c, top).len() ==> {
                let o = #[trigger] by_level(c, top)[i];
                o.level <= top && c.contains(o)
            },
    decreases top,
{
    if top > 0 {
        let prev = by_level(c, (top - 1) as nat);
        let row = row_from(c, top, 0);
        lemma_by_level_shape(c, (top - 1) as nat);
        lemma_row_shape(c, top, 0);
        let r = by_level(c, top);
        assert(r =~= prev + row);
        assert forall|i: int| prev.len() <= i < r.len() implies r[i] == row[i - prev.len()] by {}
        assert forall|i: int| 0 <= i < prev.len() implies r[i] == prev[i] by {}
    }
}

proof fn lemma_sorted_distinct(s: Seq<Orbital>)
    requires
        strictly_sorted(s),
    ensures
        s.no_duplicates(),
{
    assert forall|i: int, j: int| 0 <= i < s.len() && 0 <= j < s.len() && i != j implies s[i] != s[j] by {
        if i < j {
            assert(key_before(s[i], s[j]));
        } else {
            assert(key_before(s[j], s[i]));
        }
    }
}

proof fn lemma_row_contains(c: Seq<Orbital>, level: nat, az0: nat, az: nat, x: Orbital)
    requires
        az0 <= az < level,
        forall|a: nat| az0 <= a <= az ==> (#[trigger] find_from(c, 0, level, a)) is Some,
        find_from(c, 0, level, az) == Some(x),
    ensures
        row_from(c, level, az0).contains(x),
    decreases az - az0,
{
    assert(find_from(c, 0, level, az0) is Some);
    let o = find_from(c, 0, level, az0)->0;
    let r = row_from(c, level, az0);
    assert(r =~= seq![o] + row_from(c, level, az0 + 1));
    if az0 == az {
        assert(r[0] == x);
    } else {
        lemma_row_contains(c, level, az0 + 1, az, x);
        let rest = row_from(c, level, az0 + 1);
        let k = choose|k: int| 0 <= k < rest.len() && rest[k] == x;
        assert(r[k + 1] == x);
    }
}

proof fn lemma_by_level_contains(c: Seq<Orbital>, top: nat, level: nat, x: Orbital)
    requires
        1 <= level <= top,
        row_from(c, level, 0).contains(x),
    ensures
        by_level(c, top).contains(x),
    decreases top,
{
    let prev = by_level(c, (top - 1) as nat);
    let row = row_from(c, top, 0);
    assert(by_level(c, top) =~= prev + row);
    if level == top {
        let k = choose|k: int| 0 <= k < row.len() && row[k] == x;
        assert(by_level(c, top)[prev.len() + k] == x);
    } else {
        lemma_by_level_contains(c, (top - 1) as nat, level, x);
        let k = choose|k: int| 0 <= k < prev.len() && prev[k] == x;
        assert(by_level(c, top)[k] == x);
    }
}

/// Ladder position of the subshell of level `level` and azimuthal index `az`.
spec fn step_of(level: nat, az: nat) -> (nat, nat) {
    (level + az, az + 1)
}

proof fn lemma_configuration_steps(n: nat)
    ensures
        forall|i: int|
            0 <= i < configuration(n).len() ==> {
                let o = #[trigger] configuration(n)[i];
                step_of(o.level, o.az) == step_at(i as nat) && o.az < o.level
            },
{
    law_configuration_shape(n);
    assert forall|i: int| 0 <= i < configuration(n).len() implies {
        let o = #[trigger] configuration(n)[i];
        step_of(o.level, o.az) == step_at(i as nat) && o.az < o.level
    } by {
        lemma_step_bounds(i as nat);
    }
}

proof fn lemma_distinct_steps(i: nat, j: nat)
    requires
        i != j,
    ensures
        step_at(i) != step_at(j),
{
    if i < j {
        lemma_steps_ordered(i, j);
    } else {
        lemma_steps_ordered(j, i);
    }
}

/// No step of the walk for `n` electrons lies past its final step.
proof fn lemma_not_past_final(n: nat, i: nat)
    requires
        i < configuration(n).len(),
    ensures
        !precedes(final_step(n), step_at(i)),
{
    let last = (configuration(n).len() - 1) as nat;
    if i < last {
        lemma_steps_ordered(i, last);
    }
}

/// Looking a subshell up in the configuration finds it exactly when its
/// ladder position lies on the ladder and no later than the final step.
proof fn lemma_find_configuration(n: nat, level: nat, az: nat)
    ensures
        ({
            let c = configuration(n);
            let p = step_of(level, az);
            &&& on_ladder(p) && !precedes(final_step(n), p) ==> exists|i: int|
                0 <= i < c.len() && step_at(i as nat) == p && find_from(c, 0, level, az) == Some(
                    #[trigger] c[i],
                )
            &&& !(on_ladder(p) && !precedes(final_step(n), p)) ==> find_from(c, 0, level, az) is None
        }),
{
    let c = configuration(n);
    let p = step_of(level, az);
    let last = (c.len() - 1) as nat;
    law_configuration_shape(n);
    lemma_configuration_steps(n);
    if on_ladder(p) && !precedes(final_step(n), p) {
        lemma_step_reached(last, p);
        let i = choose|i: nat| i <= last && step_at(i) == p;
        assert(step_of(c[i as int].level, c[i as int].az) == p);
        assert forall|m: int| 0 <= m < i implies !matches_key(#[trigger] c[m], level, az) by {
            lemma_distinct_steps(m as nat, i);
        }
        lemma_find_hit(c, 0, i, level, az);
        assert(0 <= i < c.len() && step_at(i) == p && find_from(c, 0, level, az) == Some(c[i as int]));
    } else {
        assert forall|m: int| 0 <= m < c.len() implies !matches_key(#[trigger] c[m], level, az) by {
            if matches_key(c[m], level, az) {
                lemma_step_bounds(m as nat);
                lemma_not_past_final(n, m as nat);
            }
        }
        lemma_find_miss(c, 0, level, az);
    }
}

proof fn lemma_configuration_distinct(n: nat)
    ensures
        configuration(n).no_duplicates(),
{
    let c = configuration(n);
    lemma_configuration_steps(n);
    assert forall|i: int, j: int| 0 <= i < c.len() && 0 <= j < c.len() && i != j implies c[i]
        != c[j] by {
        lemma_distinct_steps(i as nat, j as nat);
    }
}

/// Every subshell of the configuration has its place in the arrangement.
proof fn lemma_arranged_covers(n: nat, i: int)
    requires
        0 <= i < configuration(n).len(),
    ensures
        arranged(n).contains(configuration(n)[i]),
{
    let c = configuration(n);
    let x = c[i];
    let level = x.level;
    let az = x.az;
    let last = (c.len() - 1) as nat;
    lemma_configuration_steps(n);
    lemma_not_past_final(n, i as nat);
    assert forall|a: nat| 0 <= a <= az implies (#[trigger] find_from(c, 0, level, a)) is Some by {
        lemma_find_configuration(n, level, a);
    }
    lemma_find_configuration(n, level, az);
    let j = choose|j: int| 0 <= j < c.len() && step_at(j as nat) == step_of(level, az) && find_from(c, 0, level, az) == Some(#[trigger] c[j]);
    if j != i {
        lemma_distinct_steps(i as nat, j as nat);
    }
    lemma_row_contains(c, level, 0, az, x);
    lemma_step_bounds(i as nat);
    lemma_diagonal_monotonic(i as nat, last);
    lemma_by_level_contains(c, final_step(n).0, level, x);
}

/// Arranging the configuration level by level keeps every electron.
pub proof fn law_arranged_total(n: nat)
    ensures
        total_electrons(arranged(n)) == n,
{
    let c = configuration(n);
    let a = arranged(n);
    lemma_by_level_shape(c, final_step(n).0);
    lemma_sorted_distinct(a);
    lemma_configuration_distinct(n);
    assert forall|x: Orbital| c.contains(x) <==> a.contains(x) by {
        if c.contains(x) {
            let i = choose|i: int| 0 <= i < c.len() && c[i] == x;
            lemma_arranged_covers(n, i);
        }
        if a.contains(x) {
            let k = choose|k: int| 0 <= k < a.len() && a[k] == x;
            assert(c.contains(a[k]));
        }
    }
    lemma_total_same_elements(c, a);
    law_configuration_total(n);
}

proof fn lemma_row_ends(c: Seq<Orbital>, level: nat, az0: nat, az: nat, x: Orbital)
    requires
        az0 <= az < level,
        forall|a: nat| az0 <= a <= az ==> (#[trigger] find_from(c, 0, level, a)) is Some,
        find_from(c, 0, level, az) == Some(x),
        row_from(c, level, az + 1).len() == 0,
    ensures
        row_from(c, level, az0).len() >= 1,
        row_from(c, level, az0).last() == x,
    decreases az - az0,
{
    assert(find_from(c, 0, level, az0) is Some);
    let o = find_from(c, 0, level, az0)->0;
    let r = row_from(c, level, az0);
    assert(r =~= seq![o] + row_from(c, level, az0 + 1));
    if az0 < az {
        lemma_row_ends(c, level, az0 + 1, az, x);
    }
}

/// When filling stops on a d rung, the arrangement ends with that d subshell
/// followed by the full s subshell one level up.
proof fn lemma_arranged_tail(n: nat)
    requires
        final_step(n).1 == 3,
    ensures
        ({
            let a = arranged(n);
            let c = configuration(n);
            &&& a.len() >= 2
            &&& a[a.len() - 2] == c.last()
            &&& a.last() == Orbital { level: (final_step(n).0 - 1) as nat, az: 0, electrons: 2 }
            &&& c.last().az == 2
        }),
{
    let c = configuration(n);
    let last = (c.len() - 1) as nat;
    let top = final_step(n).0;
    lemma_step_bounds(last);
    lemma_configuration_steps(n);
    law_configuration_shape(n);
    assert(top >= 5);
    // nothing of the top level is filled
    lemma_find_configuration(n, top, 0);
    assert(row_from(c, top, 0) =~= Seq::<Orbital>::empty());
    // one level down: only its s subshell
    lemma_find_configuration(n, (top - 1) as nat, 0);
    lemma_find_configuration(n, (top - 1) as nat, 1);
    let i = choose|i: int| 0 <= i < c.len() && step_at(i as nat) == step_of((top - 1) as nat, 0) && find_from(c, 0, (top - 1) as nat, 0) == Some(#[trigger] c[i]);
    assert(i != last);
    let outer_s = c[i];
    assert(row_from(c, (top - 1) as nat, 1) =~= Seq::<Orbital>::empty());
    assert(row_from(c, (top - 1) as nat, 0) =~= seq![outer_s]);
    // two levels down: the row ends with the d subshell filled last
    let d_level = (top - 2) as nat;
    assert forall|a: nat| 0 <= a <= 2 implies (#[trigger] find_from(c, 0, d_level, a)) is Some by {
        lemma_find_configuration(n, d_level, a);
    }
    lemma_find_configuration(n, d_level, 2);
    let j = choose|j: int| 0 <= j < c.len() && step_at(j as nat) == step_of(d_level, 2) && find_from(c, 0, d_level, 2) == Some(#[trigger] c[j]);
    if j != last {
        lemma_distinct_steps(j as nat, last);
    }
    lemma_find_configuration(n, d_level, 3);
    assert(row_from(c, d_level, 3).len() == 0);
    lemma_row_ends(c, d_level, 0, 2, c.last());
    let below = by_level(c, (top - 3) as nat);
    let d_row = row_from(c, d_level, 0);
    assert(by_level(c, (top - 2) as nat) == below + d_row);
    assert(by_level(c, (top - 1) as nat) == below + d_row + seq![outer_s]);
    assert(arranged(n) =~= below + d_row + seq![outer_s]);
}

/// Correcting the anomaly keeps every electron: the arranged and corrected
/// configuration of `n` electrons holds exactly `n`.
pub proof fn law_corrected_total(n: nat)
    ensures
        total_electrons(corrected_configuration(n)) == n,
{
    let a = arranged(n);
    law_arranged_total(n);
    if final_step(n).1 == 3 {
        lemma_arranged_tail(n);
        let si = a.len() - 1;
        let di = a.len() - 2;
        let s = a[si];
        let d = a[di];
        match correction_for(d.level, d.electrons) {
            Correction::ShiftOne => {
                let s2 = Orbital { electrons: (s.electrons - 1) as nat, ..s };
                let d2 = Orbital { electrons: d.electrons + 1, ..d };
                let u = a.update(si, s2);
                lemma_total_update(a, si, s2);
                lemma_total_update(u, di, d2);
            },
            Correction::AbsorbOuter => {
                let d2 = Orbital { electrons: d.electrons + 2, ..d };
                lemma_total_drop_last(a);
                lemma_total_update(a.drop_last(), di, d2);
            },
            Correction::SwapToP => {
                let p = Orbital { level: 7, az: 1, electrons: 1 };
                let u = a.update(di, s);
                lemma_total_update(a, di, s);
                lemma_total_update(u, si, p);
            },
            Correction::Keep => {},
        }
    }
}

/// No subshell of the arranged and corrected configuration holds more than
/// its capacity.
pub proof fn law_corrected_capacity(n: nat)
    ensures
        forall|i: int|
            0 <= i < corrected_configuration(n).len() ==> (#[trigger] corrected_configuration(
                n,
            )[i]).electrons <= capacity(corrected_configuration(n)[i].az),
{
    let c = configuration(n);
    let a = arranged(n);
    law_configuration_shape(n);
    lemma_by_level_shape(c, final_step(n).0);
    assert forall|k: int| 0 <= k < a.len() implies (#[trigger] a[k]).electrons <= capacity(a[k].az) by {
        assert(c.contains(a[k]));
        let i = choose|i: int| 0 <= i < c.len() && c[i] == a[k];
    }
    if final_step(n).1 == 3 {
        lemma_arranged_tail(n);
    }
}

} // verus!
