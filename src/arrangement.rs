//! The level-ordered arrangement of a configuration: by principal level, and
//! within a level by azimuthal index.
use vstd::prelude::*;
use crate::subshell::{ElectronSubshell, Orbital, views};

verus! {

/// The first subshell of `c`, from index `i` on, with the given level and azimuthal index.
pub open spec fn find_from(c: Seq<Orbital>, i: nat, level: nat, az: nat) -> Option<Orbital>
    decreases c.len() - i,
{
    if i >= c.len() {
        None
    } else if c[i as int].level == level && c[i as int].az == az {
        Some(c[i as int])
    } else {
        find_from(c, i + 1, level, az)
    }
}

/// The subshells of `c` at `level` with azimuthal index `az`, `az + 1`, ...,
/// up to the first one that `c` lacks or that the level cannot hold.
pub open spec fn row_from(c: Seq<Orbital>, level: nat, az: nat) -> Seq<Orbital>
    decreases level - az,
{
    if az < level {
        match find_from(c, 0, level, az) {
            Some(o) => seq![o] + row_from(c, level, az + 1),
            None => Seq::empty(),
        }
    } else {
        Seq::empty()
    }
}

/// The subshells of `c` of levels `1..=top`, level by level.
pub open spec fn by_level(c: Seq<Orbital>, top: nat) -> Seq<Orbital>
    decreases top,
{
    if top == 0 {
        Seq::empty()
    } else {
        by_level(c, (top - 1) as nat) + row_from(c, top, 0)
    }
}

/// The subshell of `subshells` with the given level and azimuthal index, if any.
pub fn find_subshell(subshells: &Vec<ElectronSubshell>, level: usize, az: usize) -> (r: Option<
    ElectronSubshell,
>)
    ensures
        match r {
            Some(o) => find_from(views(subshells@), 0, level as nat, az as nat) == Some(o@),
            None => find_from(views(subshells@), 0, level as nat, az as nat) is None,
        },
{
    let ghost c = views(subshells@);
    let mut i: usize = 0;
    while i < subshells.len()
        invariant
            i <= subshells.len(),
            c == views(subshells@),
            find_from(c, 0, level as nat, az as nat) == find_from(c, i as nat, level as nat, az as nat),
        decreases subshells.len() - i,
    {
        let o = subshells[i];
        if o.level as usize == level && o.shell as usize == az {
            return Some(o);
        }
        i += 1;
    }
    None
}

/// Arranges `subshells` level by level for levels `1..=top`.
pub fn arrange_by_level(subshells: &Vec<ElectronSubshell>, top: usize) -> (r: Vec<ElectronSubshell>)
    requires
        top < usize::MAX,
    ensures
        views(r@) == by_level(views(subshells@), top as nat),
{
    let ghost c = views(subshells@);
    let mut arranged: Vec<ElectronSubshell> = Vec::new();
    let mut level: usize = 1;
    while level <= top
        invariant
            1 <= level <= top + 1,
            top < usize::MAX,
            c == views(subshells@),
            views(arranged@) == by_level(c, (level - 1) as nat),
        decreases top + 1 - level,
    {
        let mut az: usize = 0;
        let ghost start = views(arranged@);
        assert(by_level(c, level as nat) == start + row_from(c, level as nat, 0));
        while az < level
            invariant_except_break
                az <= level,
                c == views(subshells@),
                views(arranged@) + row_from(c, level as nat, az as nat) == by_level(c, level as nat),
            ensures
                views(arranged@) == by_level(c, level as nat),
            decreases level - az,
        {
            let ghost before = views(arranged@);
            match find_subshell(subshells, level, az) {
                Some(o) => {
                    arranged.push(o);
                    assert(views(arranged@) =~= before.push(o@));
                    assert(row_from(c, level as nat, az as nat) =~= seq![o@] + row_from(c, level as nat, (az + 1) as nat));
                    assert(views(arranged@) + row_from(c, level as nat, (az + 1) as nat) =~= before + row_from(c, level as nat, az as nat));
                },
                None => {
                    assert(views(arranged@) =~= views(arranged@) + row_from(c, level as nat, az as nat));
                    break;
                },
            }
            az += 1;
        }
        level += 1;
    }
    arranged
}

} // verus!
