//! Atoms: the primitive operations of the engine. Each reads its operands
//! from the basket it runs in and yields a datum once they are all there.

use vstd::prelude::*;
use crate::basket::Bk;
use crate::data::Data;
use crate::emu::{read_value, Emu};
use crate::loc::Loc;

verus! {

/// A primitive operation, dispatched by name.
#[derive(Debug, Clone, Copy, PartialEq, Eq, Structural)]
pub enum Atom {
    IntAdd,
    IntTimes,
    IntNeg,
    IntSub,
    IntDiv,
    IntLess,
    BoolIf,
}

/// Truncating 16-bit division; the one quotient that does not fit wraps.
pub open spec fn div16(x: Data, y: Data) -> Data {
    match x.checked_div(y) {
        Some(q) => q,
        None => x,
    }
}

/// The attributes an atom reads in basket `bk`, in the order it reads them; it
/// stops at the first operand that is not there yet.
pub open spec fn operand_locs(a: Atom, e: &Emu, bk: int) -> Seq<Loc> {
    let rho = read_value(e.kid(bk, Loc::Rho));
    match a {
        Atom::IntNeg => seq![Loc::Rho],
        Atom::BoolIf => match rho {
            Some(t) => seq![Loc::Rho, if t == 1 { Loc::Attr(0) } else { Loc::Attr(1) }],
            None => seq![Loc::Rho],
        },
        _ => if rho is Some {
            seq![Loc::Rho, Loc::Attr(0)]
        } else {
            seq![Loc::Rho]
        },
    }
}

/// What an atom yields in basket `bk`, if its operands are all dataized.
pub open spec fn atom_value(a: Atom, e: &Emu, bk: int) -> Option<Data> {
    let rho = read_value(e.kid(bk, Loc::Rho));
    let a0 = read_value(e.kid(bk, Loc::Attr(0)));
    let a1 = read_value(e.kid(bk, Loc::Attr(1)));
    match a {
        Atom::IntNeg => match rho {
            Some(x) => Some(0i16.wrapping_sub(x)),
            None => None,
        },
        Atom::BoolIf => match rho {
            Some(t) => if t == 1 {
                a0
            } else {
                a1
            },
            None => None,
        },
        _ => match (rho, a0) {
            (Some(x), Some(y)) => match a {
                Atom::IntAdd => Some(x.wrapping_add(y)),
                Atom::IntTimes => Some(x.wrapping_mul(y)),
                Atom::IntSub => Some(x.wrapping_sub(y)),
                Atom::IntDiv => if y == 0 {
                    None
                } else {
                    Some(div16(x, y))
                },
                _ => Some(if x < y {
                    1i16
                } else {
                    0i16
                }),
            },
            _ => None,
        },
    }
}

/// The effect of running atom `a` in basket `bk`: the operands it reads that
/// were empty become requested; nothing else changes.
pub open spec fn atom_effect(a: Atom, before: &Emu, after: &Emu, bk: int) -> bool {
    &&& after.same_shape(before)
    &&& forall|b: int, l: Loc|
        0 <= b < before.baskets@.len() ==> #[trigger] after.kid(b, l) == if b == bk
            && operand_locs(a, before, bk).contains(l) {
            crate::emu::requested(before.kid(b, l))
        } else {
            before.kid(b, l)
        }
}

proof fn lemma_one(x: Loc)
    ensures
        forall|l: Loc| #[trigger] seq![x].contains(l) == (l == x),
{
    assert forall|l: Loc| #[trigger] seq![x].contains(l) == (l == x) by {
        if l == x {
            assert(seq![x][0] == l);
        }
    }
}

fn binary(emu: &mut Emu, bk: Bk, a: Atom) -> (r: Option<Data>)
    requires
        a != Atom::IntNeg && a != Atom::BoolIf,
        0 <= bk < old(emu).baskets@.len(),
    ensures
        r == atom_value(a, old(emu), bk as int),
        atom_effect(a, old(emu), final(emu), bk as int),
{
    let x = match emu.read(bk, Loc::Rho) {
        Some(x) => x,
        None => {
            assert(operand_locs(a, old(emu), bk as int) =~= seq![Loc::Rho]);
            proof {
                lemma_one(Loc::Rho);
            }
            return None;
        },
    };
    let ghost mid = *emu;
    let y = match emu.read(bk, Loc::Attr(0)) {
        Some(y) => y,
        None => {
            assert(operand_locs(a, old(emu), bk as int) =~= seq![Loc::Rho, Loc::Attr(0)]);
            return None;
        },
    };
    assert(operand_locs(a, old(emu), bk as int) =~= seq![Loc::Rho, Loc::Attr(0)]);
    match a {
        Atom::IntAdd => Some(x.wrapping_add(y)),
        Atom::IntTimes => Some(x.wrapping_mul(y)),
        Atom::IntSub => Some(x.wrapping_sub(y)),
        Atom::IntDiv => {
            if y == 0 {
                None
            } else {
                match x.checked_div(y) {
                    Some(q) => Some(q),
                    None => Some(x),
                }
            }
        },
        _ => Some(if x < y { 1i16 } else { 0i16 }),
    }
}

/// `ρ + 𝛼0`, wrapping.
pub fn int_add(emu: &mut Emu, bk: Bk) -> (r: Option<Data>)
    requires
        0 <= bk < old(emu).baskets@.len(),
    ensures
        r == atom_value(Atom::IntAdd, old(emu), bk as int),
        atom_effect(Atom::IntAdd, old(emu), final(emu), bk as int),
{
    binary(emu, bk, Atom::IntAdd)
}

/// `ρ × 𝛼0`, wrapping.
pub fn int_times(emu: &mut Emu, bk: Bk) -> (r: Option<Data>)
    requires
        0 <= bk < old(emu).baskets@.len(),
    ensures
        r == atom_value(Atom::IntTimes, old(emu), bk as int),
        atom_effect(Atom::IntTimes, old(emu), final(emu), bk as int),
{
    binary(emu, bk, Atom::IntTimes)
}

/// `−ρ`, wrapping.
pub fn int_neg(emu: &mut Emu, bk: Bk) -> (r: Option<Data>)
    requires
        0 <= bk < old(emu).baskets@.len(),
    ensures
        r == atom_value(Atom::IntNeg, old(emu), bk as int),
        atom_effect(Atom::IntNeg, old(emu), final(emu), bk as int),
{
    assert(operand_locs(Atom::IntNeg, old(emu), bk as int) =~= seq![Loc::Rho]);
    proof {
        lemma_one(Loc::Rho);
    }
    match emu.read(bk, Loc::Rho) {
        Some(x) => Some(0i16.wrapping_sub(x)),
        None => None,
    }
}

/// `ρ − 𝛼0`, wrapping.
pub fn int_sub(emu: &mut Emu, bk: Bk) -> (r: Option<Data>)
    requires
        0 <= bk < old(emu).baskets@.len(),
    ensures
        r == atom_value(Atom::IntSub, old(emu), bk as int),
        atom_effect(Atom::IntSub, old(emu), final(emu), bk as int),
{
    binary(emu, bk, Atom::IntSub)
}

/// `ρ ÷ 𝛼0`, truncating; never ready while the divisor is zero.
pub fn int_div(emu: &mut Emu, bk: Bk) -> (r: Option<Data>)
    requires
        0 <= bk < old(emu).baskets@.len(),
    ensures
        r == atom_value(Atom::IntDiv, old(emu), bk as int),
        atom_effect(Atom::IntDiv, old(emu), final(emu), bk as int),
{
    binary(emu, bk, Atom::IntDiv)
}

/// `1` when `ρ < 𝛼0`, else `0`.
pub fn int_less(emu: &mut Emu, bk: Bk) -> (r: Option<Data>)
    requires
        0 <= bk < old(emu).baskets@.len(),
    ensures
        r == atom_value(Atom::IntLess, old(emu), bk as int),
        atom_effect(Atom::IntLess, old(emu), final(emu), bk as int),
{
    binary(emu, bk, Atom::IntLess)
}

/// `𝛼0` when `ρ` is 1, else `𝛼1`.
pub fn bool_if(emu: &mut Emu, bk: Bk) -> (r: Option<Data>)
    requires
        0 <= bk < old(emu).baskets@.len(),
    ensures
        r == atom_value(Atom::BoolIf, old(emu), bk as int),
        atom_effect(Atom::BoolIf, old(emu), final(emu), bk as int),
{
    let term = match emu.read(bk, Loc::Rho) {
        Some(t) => t,
        None => {
            assert(operand_locs(Atom::BoolIf, old(emu), bk as int) =~= seq![Loc::Rho]);
            proof {
                lemma_one(Loc::Rho);
            }
            return None;
        },
    };
    let sel = if term == 1 { Loc::Attr(0) } else { Loc::Attr(1) };
    assert(operand_locs(Atom::BoolIf, old(emu), bk as int) =~= seq![Loc::Rho, sel]);
    emu.read(bk, sel)
}

impl Atom {
    /// Runs the atom in a basket.
    pub fn call(&self, emu: &mut Emu, bk: Bk) -> (r: Option<Data>)
        requires
            0 <= bk < old(emu).baskets@.len(),
        ensures
            r == atom_value(*self, old(emu), bk as int),
            atom_effect(*self, old(emu), final(emu), bk as int),
    {
        match self {
            Atom::IntAdd => int_add(emu, bk),
            Atom::IntTimes => int_times(emu, bk),
            Atom::IntNeg => int_neg(emu, bk),
            Atom::IntSub => int_sub(emu, bk),
            Atom::IntDiv => int_div(emu, bk),
            Atom::IntLess => int_less(emu, bk),
            Atom::BoolIf => bool_if(emu, bk),
        }
    }
}

/// The name of an atom in program text.
pub open spec fn atom_name(a: Atom) -> Seq<char> {
    match a {
        Atom::IntAdd => seq!['i', 'n', 't', '-', 'a', 'd', 'd'],
        Atom::IntTimes => seq!['i', 'n', 't', '-', 't', 'i', 'm', 'e', 's'],
        Atom::IntNeg => seq!['i', 'n', 't', '-', 'n', 'e', 'g'],
        Atom::IntSub => seq!['i', 'n', 't', '-', 's', 'u', 'b'],
        Atom::IntDiv => seq!['i', 'n', 't', '-', 'd', 'i', 'v'],
        Atom::IntLess => seq!['i', 'n', 't', '-', 'l', 'e', 's', 's'],
        Atom::BoolIf => seq!['b', 'o', 'o', 'l', '-', 'i', 'f'],
    }
}

fn same(a: &Vec<char>, b: Vec<char>) -> (r: bool)
    ensures
        r == (a@ == b@),
{
    if a.len() != b.len() {
        return false;
    }
    let mut i: usize = 0;
    while i < a.len()
        invariant
            i <= a.len() == b.len(),
            forall|j: int| 0 <= j < i ==> a@[j] == b@[j],
        decreases a.len() - i,
    {
        if a[i] != b[i] {
            return false;
        }
        i = i + 1;
    }
    assert(a@ =~= b@);
    true
}

impl Atom {
    /// The atom with the given name, if there is one.
    pub fn from_name(n: &Vec<char>) -> (r: Option<Atom>)
        ensures
            match r {
                Some(a) => atom_name(a) == n@,
                None => forall|a: Atom| atom_name(a) != n@,
            },
    {
        if same(n, vec!['i', 'n', 't', '-', 'a', 'd', 'd']) {
            Some(Atom::IntAdd)
        } else if same(n, vec!['i', 'n', 't', '-', 't', 'i', 'm', 'e', 's']) {
            Some(Atom::IntTimes)
        } else if same(n, vec!['i', 'n', 't', '-', 'n', 'e', 'g']) {
            Some(Atom::IntNeg)
        } else if same(n, vec!['i', 'n', 't', '-', 's', 'u', 'b']) {
            Some(Atom::IntSub)
        } else if same(n, vec!['i', 'n', 't', '-', 'd', 'i', 'v']) {
            Some(Atom::IntDiv)
        } else if same(n, vec!['i', 'n', 't', '-', 'l', 'e', 's', 's']) {
            Some(Atom::IntLess)
        } else if same(n, vec!['b', 'o', 'o', 'l', '-', 'i', 'f']) {
            Some(Atom::BoolIf)
        } else {
            proof {
                assert forall|a: Atom| atom_name(a) != n@ by {
                    match a {
                        Atom::IntAdd => assert(atom_name(a) =~= seq!['i', 'n', 't', '-', 'a', 'd', 'd']),
                        _ => {},
                    }
                }
            }
            None
        }
    }
}

} // verus!
