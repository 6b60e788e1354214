//! Attribute names: the steps of a locator and the keys of objects and baskets.

use vstd::prelude::*;
use crate::text::{
    all_digits, chars_of, is_digit, decimal, digits_value, lemma_decimal_round_trip, parse_decimal,
    push_all, push_decimal, push_str, signed_decimal, string_of,
};

verus! {

/// An index into the object arena.
pub type Ob = usize;

/// An attribute name, or one step of a locator.
#[derive(Debug, Clone, Copy, PartialEq, Eq, Hash, Structural)]
pub enum Loc {
    /// `Φ`, the root object.
    Root,
    /// `ρ`, the primary operand.
    Rho,
    /// `𝜑`, the result attribute.
    Phi,
    /// `𝜋`, the ξ-context of the current basket.
    Pi,
    /// `Δ`, the carried datum.
    Delta,
    /// `σ`.
    Sigma,
    /// `𝛼i`, an argument.
    Attr(i8),
    /// `νn`, an absolute object reference.
    Obj(Ob),
}

/// The printed form of an attribute name.
pub open spec fn loc_text(l: Loc) -> Seq<char> {
    match l {
        Loc::Root => seq!['Φ'],
        Loc::Rho => seq!['ρ'],
        Loc::Phi => seq!['𝜑'],
        Loc::Pi => seq!['𝜋'],
        Loc::Delta => seq!['Δ'],
        Loc::Sigma => seq!['σ'],
        Loc::Attr(i) => seq!['𝛼'] + signed_decimal(i as int),
        Loc::Obj(n) => seq!['ν'] + decimal(n as nat),
    }
}

/// The attribute name that a text denotes, if any: a glyph or its ASCII alias,
/// `𝛼i` or a bare `i` for an argument, `νn` for an object.
pub open spec fn parse_loc(s: Seq<char>) -> Option<Loc> {
    if all_digits(s) || (s.len() > 0 && s[0] == '𝛼' && all_digits(s.drop_first())) {
        let v = if all_digits(s) { digits_value(s) } else { digits_value(s.drop_first()) };
        if v <= 127 {
            Some(Loc::Attr(v as i8))
        } else {
            None
        }
    } else if s.len() > 0 && s[0] == 'ν' && all_digits(s.drop_first()) {
        if digits_value(s.drop_first()) <= usize::MAX {
            Some(Loc::Obj(digits_value(s.drop_first()) as usize))
        } else {
            None
        }
    } else if s == seq!['Φ'] || s == seq!['Q'] {
        Some(Loc::Root)
    } else if s == seq!['Δ'] || s == seq!['D'] {
        Some(Loc::Delta)
    } else if s == seq!['𝜋'] || s == seq!['P'] {
        Some(Loc::Pi)
    } else if s == seq!['ρ'] || s == seq!['^'] {
        Some(Loc::Rho)
    } else if s == seq!['𝜑'] || s == seq!['@'] {
        Some(Loc::Phi)
    } else if s == seq!['σ'] || s == seq!['&'] {
        Some(Loc::Sigma)
    } else {
        None
    }
}

/// A message that quotes the offending text.
pub fn quoted(prefix: &str, s: &Vec<char>) -> String {
    let mut out: Vec<char> = Vec::new();
    push_str(&mut out, prefix);
    out.push('\'');
    push_all(&mut out, s);
    out.push('\'');
    string_of(&out)
}

fn is_one(s: &Vec<char>, a: char, b: char) -> (r: bool)
    ensures
        r == (s@ == seq![a] || s@ == seq![b]),
{
    if s.len() == 1 {
        let r = s[0] == a || s[0] == b;
        assert(r ==> (s@ =~= seq![a] || s@ =~= seq![b]));
        r
    } else {
        assert(s@.len() != 1);
        false
    }
}

impl Loc {
    /// Reads an attribute name from its characters.
    pub fn parse(s: &Vec<char>) -> (r: Result<Loc, String>)
        ensures
            match r {
                Ok(l) => parse_loc(s@) == Some(l),
                Err(_) => parse_loc(s@) is None,
            },
    {
        let bare = parse_decimal(s, 0, s.len(), 127);
        assert(s@.subrange(0, s.len() as int) =~= s@);
        if let Some(v) = bare {
            return Ok(Loc::Attr(v as i8));
        }
        if s.len() > 0 && s[0] == '𝛼' {
            assert(s@.subrange(1, s.len() as int) =~= s@.drop_first());
            assert(!is_digit(s@[0]));
            let tail = parse_decimal(s, 1, s.len(), 127);
            if let Some(v) = tail {
                return Ok(Loc::Attr(v as i8));
            }
        }
        if s.len() > 0 && s[0] == 'ν' {
            assert(s@.subrange(1, s.len() as int) =~= s@.drop_first());
            assert(!is_digit(s@[0]));
            if let Some(v) = parse_decimal(s, 1, s.len(), usize::MAX as u64) {
                return Ok(Loc::Obj(v as usize));
            }
        }
        proof {
            if s@.len() >= 1 && !is_digit(s@[0]) {
                assert(!all_digits(s@));
            }
        }
        if is_one(s, 'Φ', 'Q') {
            Ok(Loc::Root)
        } else if is_one(s, 'Δ', 'D') {
            Ok(Loc::Delta)
        } else if is_one(s, '𝜋', 'P') {
            Ok(Loc::Pi)
        } else if is_one(s, 'ρ', '^') {
            Ok(Loc::Rho)
        } else if is_one(s, '𝜑', '@') {
            Ok(Loc::Phi)
        } else if is_one(s, 'σ', '&') {
            Ok(Loc::Sigma)
        } else {
            Err(quoted("Unknown loc: ", s))
        }
    }

    /// Appends the printed form.
    pub fn push_text(&self, out: &mut Vec<char>)
        ensures
            final(out)@ == old(out)@ + loc_text(*self),
    {
        let ghost before = out@;
        match self {
            Loc::Root => out.push('Φ'),
            Loc::Rho => out.push('ρ'),
            Loc::Phi => out.push('𝜑'),
            Loc::Pi => out.push('𝜋'),
            Loc::Delta => out.push('Δ'),
            Loc::Sigma => out.push('σ'),
            Loc::Attr(i) => {
                out.push('𝛼');
                if *i < 0 {
                    out.push('-');
                    push_decimal(out, (0 - *i as i32) as u64);
                } else {
                    push_decimal(out, *i as u64);
                }
            },
            Loc::Obj(n) => {
                out.push('ν');
                push_decimal(out, *n as u64);
            },
        }
        assert(out@ =~= before + loc_text(*self));
    }

    /// The printed form.
    pub fn to_string(&self) -> (r: String)
        ensures
            r@ == loc_text(*self),
    {
        let mut out: Vec<char> = Vec::new();
        self.push_text(&mut out);
        string_of(&out)
    }
}

impl std::str::FromStr for Loc {
    type Err = String;

    fn from_str(s: &str) -> Result<Loc, String> {
        Loc::parse(&chars_of(s))
    }
}

/// Reading back a printed attribute name gives the name; a negative argument
/// index prints with a minus sign, which the reader does not take.
pub proof fn lemma_loc_round_trip(l: Loc)
    requires
        !(l matches Loc::Attr(i) && i < 0),
    ensures
        parse_loc(loc_text(l)) == Some(l),
{
    let t = loc_text(l);
    assert(!is_digit(t[0]));
    assert(!all_digits(t));
    match l {
        Loc::Attr(i) => {
            lemma_decimal_round_trip(i as nat);
            assert(t.drop_first() =~= decimal(i as nat));
        },
        Loc::Obj(n) => {
            lemma_decimal_round_trip(n as nat);
            assert(t.drop_first() =~= decimal(n as nat));
        },
        _ => {
            assert(t.drop_first().len() == 0);
        },
    }
}

} // verus!
