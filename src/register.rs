//! Registers of the directive machine: `#0` to `#F`.

use vstd::prelude::*;
use crate::loc::quoted;
use crate::text::{chars_of, hex_char, hex_value, string_of};

verus! {

/// A register, by its number below sixteen.
#[derive(Debug, Clone, Copy, PartialEq, Eq, Structural)]
pub struct Register(usize);

impl View for Register {
    type V = usize;

    closed spec fn view(&self) -> usize {
        self.0
    }
}

/// The register a text names: `#` and one upper-case hexadecimal digit.
pub open spec fn parse_register(s: Seq<char>) -> Option<usize> {
    if s.len() == 2 && s[0] == '#' && (('0' <= s[1] && s[1] <= '9') || ('A' <= s[1] && s[1] <= 'F')) {
        Some(hex_value(s[1])->0 as usize)
    } else {
        None
    }
}

impl Register {
    /// The register's number.
    pub fn num(&self) -> (r: usize)
        ensures
            r == self@,
    {
        self.0
    }

    /// Reads a register from its characters.
    pub fn parse(s: &Vec<char>) -> (r: Result<Register, String>)
        ensures
            match r {
                Ok(g) => parse_register(s@) == Some(g@) && g@ < 16,
                Err(_) => parse_register(s@) is None,
            },
    {
        if s.len() == 2 && s[0] == '#' {
            let c = s[1];
            if '0' <= c && c <= '9' {
                return Ok(Register((c as u32 - 48) as usize));
            }
            if 'A' <= c && c <= 'F' {
                return Ok(Register((c as u32 - 55) as usize));
            }
        }
        Err(quoted("Invalid register ", s))
    }

    /// The printed form, `#` and the number's hexadecimal digit.
    pub fn to_string(&self) -> (r: String)
        ensures
            self@ < 16 ==> r@ == seq!['#', hex_char(self@ as nat)],
    {
        let mut out: Vec<char> = Vec::new();
        out.push('#');
        if self.0 >= 16 {
            crate::text::push_decimal(&mut out, self.0 as u64);
            return string_of(&out);
        }
        let d = self.0 as u32;
        let c = if d < 10 {
            crate::text::digit_to_char(d as u64)
        } else if d == 10 {
            'A'
        } else if d == 11 {
            'B'
        } else if d == 12 {
            'C'
        } else if d == 13 {
            'D'
        } else if d == 14 {
            'E'
        } else {
            'F'
        };
        out.push(c);
        assert(out@ =~= seq!['#', hex_char(self@ as nat)]);
        string_of(&out)
    }
}

impl std::str::FromStr for Register {
    type Err = String;

    fn from_str(s: &str) -> Result<Register, String> {
        Register::parse(&chars_of(s))
    }
}

} // verus!
