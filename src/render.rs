//! Text forms of subshells and configurations, such as `3d5 4s1 `.
use vstd::prelude::*;
use crate::subshell::{ElectronSubshell, Orbital, views};
use crate::shell::{ElectronShell, corrected_configuration};

verus! {

/// The decimal digit for `d < 10`.
pub open spec fn digit_char(d: nat) -> char {
    seq!['0', '1', '2', '3', '4', '5', '6', '7', '8', '9'][d as int]
}

/// The decimal form of `n`, without leading zeros.
pub open spec fn decimal(n: nat) -> Seq<char>
    decreases n,
{
    if n < 10 {
        seq![digit_char(n)]
    } else {
        decimal(n / 10).push(digit_char(n % 10))
    }
}

/// Conventional letters of the azimuthal indices `0..11`.
pub open spec fn letters() -> Seq<char> {
    seq!['s', 'p', 'd', 'f', 'g', 'h', 'i', 'j', 'k', 'l', 'm']
}

/// The label of azimuthal index `az`: its letter, or `n1`, `n2`, ... past the letters.
pub open spec fn label(az: nat) -> Seq<char> {
    if az < letters().len() {
        seq![letters()[az as int]]
    } else {
        seq!['n'] + decimal((az - letters().len() + 1) as nat)
    }
}

/// `{level}{label}{electrons}` followed by a space.
pub open spec fn rendered(o: Orbital) -> Seq<char> {
    decimal(o.level) + label(o.az) + decimal(o.electrons) + seq![' ']
}

/// The subshells of `c` rendered one after the other.
pub open spec fn rendered_all(c: Seq<Orbital>) -> Seq<char>
    decreases c.len(),
{
    if c.len() == 0 {
        Seq::empty()
    } else {
        rendered_all(c.drop_last()) + rendered(c.last())
    }
}

fn digit_text(d: usize) -> (r: &'static str)
    requires
        d < 10,
    ensures
        r@ == seq![digit_char(d as nat)],
{
    match d {
        0 => { proof { reveal_strlit("0"); } "0" },
        1 => { proof { reveal_strlit("1"); } "1" },
        2 => { proof { reveal_strlit("2"); } "2" },
        3 => { proof { reveal_strlit("3"); } "3" },
        4 => { proof { reveal_strlit("4"); } "4" },
        5 => { proof { reveal_strlit("5"); } "5" },
        6 => { proof { reveal_strlit("6"); } "6" },
        7 => { proof { reveal_strlit("7"); } "7" },
        8 => { proof { reveal_strlit("8"); } "8" },
        _ => { proof { reveal_strlit("9"); } "9" },
    }
}

fn letter_text(az: usize) -> (r: &'static str)
    requires
        az < 11,
    ensures
        r@ == seq![letters()[az as int]],
{
    match az {
        0 => { proof { reveal_strlit("s"); } "s" },
        1 => { proof { reveal_strlit("p"); } "p" },
        2 => { proof { reveal_strlit("d"); } "d" },
        3 => { proof { reveal_strlit("f"); } "f" },
        4 => { proof { reveal_strlit("g"); } "g" },
        5 => { proof { reveal_strlit("h"); } "h" },
        6 => { proof { reveal_strlit("i"); } "i" },
        7 => { proof { reveal_strlit("j"); } "j" },
        8 => { proof { reveal_strlit("k"); } "k" },
        9 => { proof { reveal_strlit("l"); } "l" },
        _ => { proof { reveal_strlit("m"); } "m" },
    }
}

/// Appends the decimal form of `n` to `out`.
pub fn push_decimal(out: &mut String, n: usize)
    ensures
        final(out)@ == old(out)@ + decimal(n as nat),
    decreases n,
{
    if n >= 10 {
        push_decimal(out, n / 10);
    }
    out.append(digit_text(n % 10));
    assert(out@ =~= old(out)@ + decimal(n as nat));
}

/// The label of azimuthal index `az`.
pub fn subshell_label_from_az_value(az: usize) -> (r: String)
    ensures
        r@ == label(az as nat),
{
    if az < 11 {
        String::from_str(letter_text(az))
    } else {
        proof {
            reveal_strlit("n");
        }
        let mut text = String::from_str("n");
        push_decimal(&mut text, az - 11 + 1);
        text
    }
}

impl ElectronSubshell {
    /// This subshell as `{level}{label}{electrons} `, e.g. `3d5 `.
    pub fn to_string(&self) -> (r: String)
        ensures
            r@ == rendered(self@),
    {
        let mut text = String::new();
        push_decimal(&mut text, self.level as usize);
        let az_label = subshell_label_from_az_value(self.shell as usize);
        text.append(az_label.as_str());
        push_decimal(&mut text, self.electrons as usize);
        proof {
            reveal_strlit(" ");
        }
        text.append(" ");
        assert(text@ =~= rendered(self@));
        text
    }
}

impl ElectronShell {
    /// The corrected configuration, level by level, as text.
    pub fn electron_subshell_to_string(&self) -> (r: String)
        ensures
            r@ == rendered_all(corrected_configuration(self.electron_count())),
    {
        let subshells = self.electron_subshell();
        let ghost c = views(subshells@);
        let mut text = String::new();
        let mut i: usize = 0;
        while i < subshells.len()
            invariant
                i <= subshells.len(),
                c == views(subshells@),
                text@ == rendered_all(c.take(i as int)),
            decreases subshells.len() - i,
        {
            let piece = subshells[i].to_string();
            text.append(piece.as_str());
            assert(c.take(i + 1).drop_last() =~= c.take(i as int));
            i += 1;
        }
        assert(c.take(i as int) =~= c);
        text
    }
}

} // verus!
