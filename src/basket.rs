//! Baskets: the mutable evaluation frames of dataization.

use vstd::prelude::*;
use crate::data::Data;
use crate::loc::{loc_text, parse_loc, Loc};
use crate::loc::quoted;
use crate::text::{all_digits, all_hex, digits_value, first_of, from_bits16, hex_digits_value, last_of, signed_value, split, trim, chars_of, find_char, parse_decimal, parse_hex16, parse_signed, rfind_char, slice_of, split_at_char, trim_chars, datum_of_bits, bits16, decimal, hex4, join, push_decimal, push_hex4, push_joined, push_signed, signed_decimal, sort_chars, sort_seqs, string_of, views};
use crate::object::Ob;
use crate::table::{lemma_lookup_at, lemma_lookup_none, lemma_lookup_push, lemma_lookup_update, lookup};

verus! {

/// An index into the basket arena; a negative ξ marks an unused slot.
pub type Bk = isize;

/// The state of one attribute of a basket.
#[derive(Debug, Clone, Copy, PartialEq, Eq, Structural)]
pub enum Kid {
    /// Allocated; no demand yet.
    Empt,
    /// Demanded; no target resolved yet.
    Rqtd,
    /// A basket is to be made, or reused, for this object in this ξ-context.
    Need(Ob, Bk),
    /// Will receive the value being computed at this basket's attribute.
    Wait(Bk, Loc),
    /// Holds its datum.
    Dtzd(Data),
}

/// The kids of a basket, by attribute name.
#[derive(Debug)]
pub struct Kids {
    entries: Vec<(Loc, Kid)>,
}

impl View for Kids {
    type V = Seq<(Loc, Kid)>;

    closed spec fn view(&self) -> Seq<(Loc, Kid)> {
        self.entries@
    }
}

impl Clone for Kids {
    fn clone(&self) -> (r: Kids)
        ensures
            r@ == self@,
    {
        let mut entries: Vec<(Loc, Kid)> = Vec::new();
        let mut i: usize = 0;
        while i < self.entries.len()
            invariant
                i <= self.entries.len(),
                entries@ == self@.subrange(0, i as int),
            decreases self.entries.len() - i,
        {
            entries.push(self.entries[i]);
            i = i + 1;
            assert(entries@ =~= self@.subrange(0, i as int));
        }
        assert(self@.subrange(0, self@.len() as int) =~= self@);
        Kids { entries }
    }
}

impl Kids {
    /// No kids.
    pub fn new() -> (r: Kids)
        ensures
            r@.len() == 0,
    {
        Kids { entries: Vec::new() }
    }

    /// The number of kids.
    pub fn len(&self) -> (r: usize)
        ensures
            r == self@.len(),
    {
        self.entries.len()
    }

    /// Whether there are no kids.
    pub fn is_empty(&self) -> (r: bool)
        ensures
            r == (self@.len() == 0),
    {
        self.entries.len() == 0
    }

    fn position(&self, l: Loc) -> (r: Option<usize>)
        ensures
            match r {
                Some(i) => i < self@.len() && self@[i as int].0 == l && (forall|j: int|
                    0 <= j < i ==> (#[trigger] self@[j]).0 != l) && lookup(self@, l) == Some(
                    self@[i as int].1,
                ),
                None => (forall|j: int| 0 <= j < self@.len() ==> (#[trigger] self@[j]).0 != l)
                    && lookup(self@, l) is None,
            },
    {
        let mut i: usize = 0;
        while i < self.entries.len()
            invariant
                i <= self.entries.len(),
                forall|j: int| 0 <= j < i ==> (#[trigger] self@[j]).0 != l,
            decreases self.entries.len() - i,
        {
            if self.entries[i].0 == l {
                proof {
                    lemma_lookup_at(self@, l, i as int);
                }
                return Some(i);
            }
            i = i + 1;
        }
        proof {
            lemma_lookup_none(self@, l);
        }
        None
    }

    /// The state of an attribute.
    pub fn get(&self, l: &Loc) -> (r: Option<&Kid>)
        ensures
            match r {
                Some(k) => lookup(self@, *l) == Some(*k),
                None => lookup(self@, *l) is None,
            },
    {
        match self.position(*l) {
            Some(i) => Some(&self.entries[i].1),
            None => None,
        }
    }

    /// The state of an attribute, by value.
    pub fn kid(&self, l: Loc) -> (r: Option<Kid>)
        ensures
            r == lookup(self@, l),
    {
        match self.position(l) {
            Some(i) => Some(self.entries[i].1),
            None => None,
        }
    }

    /// Sets the state of an attribute; a name already present keeps its place.
    pub fn insert(&mut self, l: Loc, k: Kid)
        ensures
            forall|m: Loc| #[trigger] lookup(final(self)@, m) == if m == l {
                Some(k)
            } else {
                lookup(old(self)@, m)
            },
            lookup(old(self)@, l) is Some ==> final(self)@.map_values(|e: (Loc, Kid)| e.0)
                == old(self)@.map_values(|e: (Loc, Kid)| e.0),
            lookup(old(self)@, l) is None ==> final(self)@.map_values(|e: (Loc, Kid)| e.0)
                == old(self)@.map_values(|e: (Loc, Kid)| e.0).push(l),
            forall|i: int|
                0 <= i < final(self)@.len() ==> (#[trigger] final(self)@[i]).1 == k || (i < old(self)@.len()
                    && final(self)@[i] == old(self)@[i]),
    {
        let ghost s = self@;
        match self.position(l) {
            Some(i) => {
                self.entries.set(i, (l, k));
                proof {
                    assert forall|m: Loc| #[trigger] lookup(self@, m) == if m == l {
                        Some(k)
                    } else {
                        lookup(s, m)
                    } by {
                        lemma_lookup_update(s, l, i as int, k, m);
                    }
                    assert(self@.map_values(|e: (Loc, Kid)| e.0) =~= s.map_values(
                        |e: (Loc, Kid)| e.0,
                    ));
                }
            },
            None => {
                self.entries.push((l, k));
                proof {
                    assert forall|m: Loc| #[trigger] lookup(self@, m) == if m == l {
                        Some(k)
                    } else {
                        lookup(s, m)
                    } by {
                        lemma_lookup_push(s, l, k, m);
                    }
                    assert(self@.map_values(|e: (Loc, Kid)| e.0) =~= s.map_values(
                        |e: (Loc, Kid)| e.0,
                    ).push(l));
                }
            },
        }
    }

    /// The entry at a position.
    pub fn entry(&self, i: usize) -> (r: (Loc, Kid))
        requires
            i < self@.len(),
        ensures
            r == self@[i as int],
    {
        self.entries[i]
    }

    /// Whether some kid is waiting.
    pub fn any_wait(&self) -> (r: bool)
        ensures
            r == exists|i: int| 0 <= i < self@.len() && (#[trigger] self@[i]).1 is Wait,
    {
        let mut i: usize = 0;
        while i < self.entries.len()
            invariant
                i <= self.entries.len(),
                forall|j: int| 0 <= j < i ==> !((#[trigger] self@[j]).1 is Wait),
            decreases self.entries.len() - i,
        {
            if let Kid::Wait(_, _) = self.entries[i].1 {
                return true;
            }
            i = i + 1;
        }
        false
    }

    /// Whether every kid is empty or dataized.
    pub fn all_settled(&self) -> (r: bool)
        ensures
            r == forall|i: int| 0 <= i < self@.len() ==> ((#[trigger] self@[i]).1 is Empt || self@[i].1 is Dtzd),
    {
        let mut i: usize = 0;
        while i < self.entries.len()
            invariant
                i <= self.entries.len(),
                forall|j: int| 0 <= j < i ==> ((#[trigger] self@[j]).1 is Empt || self@[j].1 is Dtzd),
            decreases self.entries.len() - i,
        {
            match self.entries[i].1 {
                Kid::Empt => {},
                Kid::Dtzd(_) => {},
                _ => {
                    return false;
                },
            }
            i = i + 1;
        }
        true
    }

    /// Whether some kid waits on basket `b`.
    pub fn waits_on(&self, b: Bk) -> (r: bool)
        ensures
            r == exists|i: int|
                0 <= i < self@.len() && (#[trigger] self@[i]).1 is Wait && self@[i].1->Wait_0 == b,
    {
        let mut i: usize = 0;
        while i < self.entries.len()
            invariant
                i <= self.entries.len(),
                forall|j: int| 0 <= j < i ==> !((#[trigger] self@[j]).1 is Wait && self@[j].1->Wait_0 == b),
            decreases self.entries.len() - i,
        {
            if let Kid::Wait(w, _) = self.entries[i].1 {
                if w == b {
                    return true;
                }
            }
            i = i + 1;
        }
        false
    }

    /// Every kid waiting on `from.loc` gets the datum `d`.
    pub fn settle(&mut self, from: Bk, loc: Loc, d: Data) -> (r: usize)
        ensures
            r == wait_entries(old(self)@, from, loc),
            final(self)@.map_values(|e: (Loc, Kid)| e.0) == old(self)@.map_values(|e: (Loc, Kid)| e.0),
            forall|m: Loc| #[trigger] lookup(final(self)@, m) == if lookup(old(self)@, m) == Some(Kid::Wait(from, loc)) {
                Some(Kid::Dtzd(d))
            } else {
                lookup(old(self)@, m)
            },
    {
        let ghost s = self@;
        let mut i: usize = 0;
        let mut changed: usize = 0;
        while i < self.entries.len()
            invariant
                i <= self.entries.len() == s.len(),
                changed == wait_entries(s.subrange(0, i as int), from, loc),
                changed <= i,
                self@ == s.subrange(0, i as int).map_values(|e: (Loc, Kid)| settled(e, from, loc, d)) + s.subrange(i as int, s.len() as int),
            decreases self.entries.len() - i,
        {
            let e = self.entries[i];
            assert(e == s[i as int]);
            let ghost before = self@;
            assert(s.subrange(0, i + 1).drop_last() =~= s.subrange(0, i as int));
            if e.1 == Kid::Wait(from, loc) {
                self.entries.set(i, (e.0, Kid::Dtzd(d)));
                changed = changed + 1;
            }
            assert(self@ =~= before.update(i as int, settled(e, from, loc, d)));
            i = i + 1;
            assert(self@ =~= s.subrange(0, i as int).map_values(|e: (Loc, Kid)| settled(e, from, loc, d)) + s.subrange(i as int, s.len() as int));
        }
        assert(self@ =~= s.map_values(|e: (Loc, Kid)| settled(e, from, loc, d)));
        assert(s.subrange(0, s.len() as int) =~= s);
        assert(self@.map_values(|e: (Loc, Kid)| e.0) =~= s.map_values(|e: (Loc, Kid)| e.0));
        assert forall|m: Loc| #[trigger] lookup(self@, m) == if lookup(s, m) == Some(Kid::Wait(from, loc)) {
            Some(Kid::Dtzd(d))
        } else {
            lookup(s, m)
        } by {
            lemma_lookup_map(s, m, from, loc, d);
        }
        changed
    }

    /// The names, in order of entry.
    pub fn keys(&self) -> (r: Vec<Loc>)
        ensures
            r@ == self@.map_values(|e: (Loc, Kid)| e.0),
    {
        let mut r: Vec<Loc> = Vec::new();
        let mut i: usize = 0;
        while i < self.entries.len()
            invariant
                i <= self.entries.len(),
                r@ == self@.subrange(0, i as int).map_values(|e: (Loc, Kid)| e.0),
            decreases self.entries.len() - i,
        {
            r.push(self.entries[i].0);
            i = i + 1;
            assert(r@ =~= self@.subrange(0, i as int).map_values(|e: (Loc, Kid)| e.0));
        }
        assert(self@.subrange(0, self@.len() as int) =~= self@);
        r
    }
}

/// An evaluation frame: an object instantiated in a ξ-context.
#[derive(Debug)]
pub struct Basket {
    pub ob: Ob,
    pub psi: Bk,
    pub kids: Kids,
}

impl Clone for Basket {
    fn clone(&self) -> (r: Basket)
        ensures
            r.ob == self.ob,
            r.psi == self.psi,
            r.kids@ == self.kids@,
    {
        Basket { ob: self.ob, psi: self.psi, kids: self.kids.clone() }
    }
}

impl Basket {
    /// An unused slot.
    pub fn empty() -> (r: Basket)
        ensures
            r.ob == 0,
            r.psi == -1,
            r.kids@.len() == 0,
    {
        Basket { ob: 0, psi: -1, kids: Kids::new() }
    }

    /// A basket for an object in a ξ-context, with no kids yet.
    pub fn start(ob: Ob, psi: Bk) -> (r: Basket)
        ensures
            r.ob == ob,
            r.psi == psi,
            r.kids@.len() == 0,
    {
        Basket { ob, psi, kids: Kids::new() }
    }

    /// Whether this is an unused slot.
    pub fn is_empty(&self) -> (r: bool)
        ensures
            r == (self.psi < 0),
    {
        self.psi < 0
    }

    /// Sets the state of an attribute.
    pub fn put(&mut self, loc: Loc, kid: Kid)
        ensures
            final(self).ob == old(self).ob,
            final(self).psi == old(self).psi,
            forall|m: Loc| #[trigger] lookup(final(self).kids@, m) == if m == loc {
                Some(kid)
            } else {
                lookup(old(self).kids@, m)
            },
            lookup(old(self).kids@, loc) is Some ==> final(self).kids@.map_values(
                |e: (Loc, Kid)| e.0,
            ) == old(self).kids@.map_values(|e: (Loc, Kid)| e.0),
            lookup(old(self).kids@, loc) is None ==> final(self).kids@.map_values(
                |e: (Loc, Kid)| e.0,
            ) == old(self).kids@.map_values(|e: (Loc, Kid)| e.0).push(loc),
            forall|i: int|
                0 <= i < final(self).kids@.len() ==> (#[trigger] final(self).kids@[i]).1 == kid || (i
                    < old(self).kids@.len() && final(self).kids@[i] == old(self).kids@[i]),
    {
        self.kids.insert(loc, kid);
    }
}

/// The printed form of a kid's state.
pub open spec fn kid_text(k: Kid) -> Seq<char> {
    match k {
        Kid::Empt => seq!['→', '∅'],
        Kid::Rqtd => seq!['→', '?'],
        Kid::Need(ob, bk) => seq!['→', '(', 'ν'] + decimal(ob as nat) + seq![';', 'β'] + signed_decimal(bk as int) + seq![')'],
        Kid::Wait(bk, loc) => seq!['⇉', 'β'] + signed_decimal(bk as int) + seq!['.'] + loc_text(loc),
        Kid::Dtzd(d) => seq!['⇶', '0', 'x'] + hex4(bits16(d)),
    }
}

/// The printed form of a basket: its object, its ξ, then its kids sorted, all
/// joined with `, ` between brackets.
pub open spec fn basket_text(b: Basket) -> Seq<char> {
    seq!['['] + join(
        seq![seq!['ν'] + decimal(b.ob as nat), seq!['ξ', ':', 'β'] + signed_decimal(b.psi as int)]
            + sort_seqs(b.kids@.map_values(|e: (Loc, Kid)| loc_text(e.0) + kid_text(e.1))),
        seq![',', ' '],
    ) + seq![']']
}

impl Kid {
    /// Appends the printed form.
    pub fn push_text(&self, out: &mut Vec<char>)
        ensures
            final(out)@ == old(out)@ + kid_text(*self),
    {
        let ghost before = out@;
        match *self {
            Kid::Empt => {
                out.push('→');
                out.push('∅');
            },
            Kid::Rqtd => {
                out.push('→');
                out.push('?');
            },
            Kid::Need(ob, bk) => {
                out.push('→');
                out.push('(');
                out.push('ν');
                push_decimal(out, ob as u64);
                out.push(';');
                out.push('β');
                push_signed(out, bk as i64);
                out.push(')');
            },
            Kid::Wait(bk, loc) => {
                out.push('⇉');
                out.push('β');
                push_signed(out, bk as i64);
                out.push('.');
                loc.push_text(out);
            },
            Kid::Dtzd(d) => {
                out.push('⇶');
                out.push('0');
                out.push('x');
                push_hex4(out, d);
            },
        }
        assert(out@ =~= before + kid_text(*self));
    }
}

impl Basket {
    /// The printed form.
    pub fn to_string(&self) -> (r: String)
        ensures
            r@ == basket_text(*self),
    {
        let mut kids: Vec<Vec<char>> = Vec::new();
        let mut i: usize = 0;
        while i < self.kids.len()
            invariant
                i <= self.kids@.len(),
                views(kids@) == self.kids@.subrange(0, i as int).map_values(|e: (Loc, Kid)| loc_text(e.0) + kid_text(e.1)),
            decreases self.kids@.len() - i,
        {
            let e = self.kids.entry(i);
            let mut t: Vec<char> = Vec::new();
            e.0.push_text(&mut t);
            e.1.push_text(&mut t);
            let ghost before = views(kids@);
            kids.push(t);
            assert(views(kids@) =~= before.push(t@));
            i = i + 1;
            assert(self.kids@.subrange(0, i as int).map_values(|e: (Loc, Kid)| loc_text(e.0) + kid_text(e.1))
                =~= self.kids@.subrange(0, i - 1).map_values(|e: (Loc, Kid)| loc_text(e.0) + kid_text(e.1)).push(t@));
        }
        assert(self.kids@.subrange(0, self.kids@.len() as int) =~= self.kids@);
        let sorted = sort_chars(kids);
        let mut parts: Vec<Vec<char>> = Vec::new();
        let mut a: Vec<char> = Vec::new();
        a.push('ν');
        push_decimal(&mut a, self.ob as u64);
        let mut b: Vec<char> = Vec::new();
        b.push('ξ');
        b.push(':');
        b.push('β');
        push_signed(&mut b, self.psi as i64);
        assert(a@ =~= seq!['ν'] + decimal(self.ob as nat));
        assert(b@ =~= seq!['ξ', ':', 'β'] + signed_decimal(self.psi as int));
        let ghost av = a@;
        let ghost bv = b@;
        parts.push(a);
        parts.push(b);
        let ghost head = views(parts@);
        assert(head =~= seq![av, bv]);
        let mut j: usize = 0;
        while j < sorted.len()
            invariant
                j <= sorted.len(),
                views(parts@) == head + views(sorted@).subrange(0, j as int),
            decreases sorted.len() - j,
        {
            let ghost before = views(parts@);
            parts.push(sorted[j].clone());
            assert(views(parts@) =~= before.push(sorted@[j as int]@));
            j = j + 1;
            assert(views(sorted@).subrange(0, j as int) =~= views(sorted@).subrange(0, j - 1).push(sorted@[j - 1]@));
        }
        assert(views(sorted@).subrange(0, sorted@.len() as int) =~= views(sorted@));
        let mut out: Vec<char> = Vec::new();
        out.push('[');
        let mut sep: Vec<char> = Vec::new();
        sep.push(',');
        sep.push(' ');
        assert(sep@ =~= seq![',', ' ']);
        push_joined(&mut out, &parts, &sep);
        out.push(']');
        assert(views(parts@) =~= seq![seq!['ν'] + decimal(self.ob as nat), seq!['ξ', ':', 'β'] + signed_decimal(self.psi as int)]
            + sort_seqs(self.kids@.map_values(|e: (Loc, Kid)| loc_text(e.0) + kid_text(e.1))));
        assert(out@ =~= basket_text(*self));
        string_of(&out)
    }
}

/// The marker of a kid state that starts at position `i` of a kid's text, as
/// a code (datum 0, wait 1, need 2, empty 3, requested 4) and a length.
pub open spec fn marker_spec(p: Seq<char>, i: int) -> Option<(int, int)> {
    let n = p.len();
    if p[i] == '⇶' && i + 2 < n && p[i + 1] == '0' && p[i + 2] == 'x' {
        Some((0, 3))
    } else if p[i] == '⇉' && i + 1 < n && p[i + 1] == 'β' {
        Some((1, 2))
    } else if p[i] == '→' && i + 2 < n && p[i + 1] == '(' && p[i + 2] == 'ν' {
        Some((2, 3))
    } else if p[i] == '→' && i + 1 < n && p[i + 1] == '∅' {
        Some((3, 2))
    } else if p[i] == '→' && i + 1 < n && p[i + 1] == '?' {
        Some((4, 2))
    } else {
        None
    }
}

/// `i` is the last position where a marker starts.
pub open spec fn is_last_marker(p: Seq<char>, i: int) -> bool {
    0 <= i < p.len() && marker_spec(p, i) is Some && forall|j: int| i < j < p.len() ==> #[trigger] marker_spec(p, j) is None
}

/// What follows the marker at `pos` of length `len`, without one closing
/// parenthesis at the end.
pub open spec fn kid_payload(p: Seq<char>, pos: int, len: int) -> Seq<char> {
    let end = if p.len() > pos + len && p.last() == ')' { p.len() - 1 } else { p.len() as int };
    p.subrange(pos + len, end)
}

/// The kid state a marker and its payload denote.
pub open spec fn kid_of(code: int, rest: Seq<char>) -> Option<Kid> {
    if code == 3 {
        Some(Kid::Empt)
    } else if code == 4 {
        Some(Kid::Rqtd)
    } else if code == 0 {
        if all_hex(rest) && hex_digits_value(rest) < 65536 {
            Some(Kid::Dtzd(from_bits16(hex_digits_value(rest))))
        } else {
            None
        }
    } else if code == 1 {
        let h = split(rest, '.');
        if h.len() != 2 {
            None
        } else {
            match (signed_value(h[0], isize::MAX as int), parse_loc(h[1])) {
                (Some(b), Some(l)) => Some(Kid::Wait(b as Bk, l)),
                _ => None,
            }
        }
    } else {
        let h = split(rest, ';');
        if h.len() != 2 {
            None
        } else {
            let q = h[1].subrange(if h[1].len() > 0 { 1 } else { 0 }, h[1].len() as int);
            if all_digits(h[0]) && digits_value(h[0]) <= usize::MAX {
                match signed_value(q, isize::MAX as int) {
                    Some(v) => Some(Kid::Need(digits_value(h[0]) as Ob, v as Bk)),
                    None => None,
                }
            } else {
                None
            }
        }
    }
}

/// Reading one kid: the text before the last marker names the attribute, the
/// marker and its payload give the state.
pub open spec fn parse_kid_spec(p: Seq<char>) -> Option<(Loc, Kid)> {
    if exists|i: int| is_last_marker(p, i) {
        let pos = choose|i: int| is_last_marker(p, i);
        let m = marker_spec(p, pos)->0;
        match (kid_of(m.0, kid_payload(p, pos, m.1)), parse_loc(p.subrange(0, pos))) {
            (Some(k), Some(l)) => Some((l, k)),
            _ => None,
        }
    } else {
        None
    }
}

/// The kids by name, a later binding of a name replacing an earlier one.
pub open spec fn bind_all(list: Seq<(Loc, Kid)>) -> Map<Loc, Kid>
    decreases list.len(),
{
    if list.len() == 0 {
        Map::empty()
    } else {
        bind_all(list.drop_last()).insert(list.last().0, list.last().1)
    }
}

/// The kids of a basket by name.
pub open spec fn kid_map(s: Seq<(Loc, Kid)>) -> Map<Loc, Kid> {
    Map::new(|l: Loc| lookup(s, l) is Some, |l: Loc| lookup(s, l)->0)
}

/// Reading a basket: the first `[`, the last `]` after it, and between them
/// comma-separated parts: `νob`, `ξ:βpsi`, then the kids.
pub open spec fn parse_basket(s: Seq<char>) -> Option<(Ob, Bk, Map<Loc, Kid>)> {
    match (first_of(s, '[', 0), last_of(s, ']')) {
        (Some(a), Some(z)) => if a < z {
            let parts = split(trim(s.subrange(a + 1, z)), ',');
            let first = trim(parts[0]);
            let ob = first.subrange(if first.len() > 0 { 1 } else { 0 }, first.len() as int);
            if !(all_digits(ob) && digits_value(ob) <= usize::MAX) || parts.len() < 2 {
                None
            } else {
                let second = trim(parts[1]);
                match signed_value(second.subrange(if second.len() >= 3 { 3 } else { second.len() as int }, second.len() as int), isize::MAX as int) {
                    Some(psi) => if forall|i: int| 2 <= i < parts.len() ==> (#[trigger] parse_kid_spec(trim(parts[i]))) is Some {
                        Some((
                            digits_value(ob) as Ob,
                            psi as Bk,
                            bind_all(parts.subrange(2, parts.len() as int).map_values(|q: Seq<char>| parse_kid_spec(trim(q))->0)),
                        ))
                    } else {
                        None
                    },
                    None => None,
                }
            }
        } else {
            None
        },
        _ => None,
    }
}

/// The marker that starts at position `i`, with its code and length.
fn marker_at(p: &Vec<char>, i: usize) -> (r: Option<(u8, usize)>)
    requires
        i < p.len(),
    ensures
        match r {
            Some(m) => marker_spec(p@, i as int) == Some((m.0 as int, m.1 as int)) && i + m.1 <= p.len(),
            None => marker_spec(p@, i as int) is None,
        },
{
    let n = p.len();
    if p[i] == '⇶' && 2 < n - i && p[i + 1] == '0' && p[i + 2] == 'x' {
        Some((0, 3))
    } else if p[i] == '⇉' && 1 < n - i && p[i + 1] == 'β' {
        Some((1, 2))
    } else if p[i] == '→' && 2 < n - i && p[i + 1] == '(' && p[i + 2] == 'ν' {
        Some((2, 3))
    } else if p[i] == '→' && 1 < n - i && p[i + 1] == '∅' {
        Some((3, 2))
    } else if p[i] == '→' && 1 < n - i && p[i + 1] == '?' {
        Some((4, 2))
    } else {
        None
    }
}

/// The last position where a marker starts.
fn last_marker(p: &Vec<char>) -> (r: Option<usize>)
    ensures
        match r {
            Some(i) => is_last_marker(p@, i as int),
            None => forall|j: int| 0 <= j < p@.len() ==> #[trigger] marker_spec(p@, j) is None,
        },
{
    let mut i: usize = p.len();
    while i > 0
        invariant
            i <= p.len(),
            forall|j: int| i <= j < p@.len() ==> #[trigger] marker_spec(p@, j) is None,
        decreases i,
    {
        if marker_at(p, i - 1).is_some() {
            return Some(i - 1);
        }
        i = i - 1;
    }
    None
}

/// Reads one kid, `name` then a marker and its payload.
fn parse_kid(p: &Vec<char>) -> (r: Result<(Loc, Kid), String>)
    ensures
        match r {
            Ok(e) => parse_kid_spec(p@) == Some(e),
            Err(_) => parse_kid_spec(p@) is None,
        },
{
    let pos = match last_marker(p) {
        Some(i) => i,
        None => {
            proof {
                if exists|k: int| is_last_marker(p@, k) {
                    let k = choose|k: int| is_last_marker(p@, k);
                    assert(marker_spec(p@, k) is None);
                }
            }
            return Err(quoted("Can't parse kid pattern in ", p));
        },
    };
    let (code, len) = match marker_at(p, pos) {
        Some(m) => m,
        None => {
            return Err(quoted("Can't parse kid pattern in ", p));
        },
    };
    proof {
        let k = choose|k: int| is_last_marker(p@, k);
        if k < pos {
            assert(marker_spec(p@, pos as int) is None);
        } else if k > pos {
            assert(marker_spec(p@, k) is None);
        }
        assert(k == pos);
    }
    let mut end = p.len();
    if end > pos + len && p[end - 1] == ')' {
        end = end - 1;
    }
    let rest = slice_of(p, pos + len, end);
    assert(rest@ == kid_payload(p@, pos as int, len as int));
    let kid = if code == 3 {
        Kid::Empt
    } else if code == 4 {
        Kid::Rqtd
    } else if code == 0 {
        match parse_hex16(&rest, 0, rest.len()) {
            Some(u) => {
                assert(rest@.subrange(0, rest@.len() as int) =~= rest@);
                Kid::Dtzd(datum_of_bits(u))
            },
            None => {
                assert(rest@.subrange(0, rest@.len() as int) =~= rest@);
                return Err(quoted("Can't parse data ", &rest));
            },
        }
    } else if code == 1 {
        let halves = split_at_char(&rest, '.');
        if halves.len() != 2 {
            return Err(quoted("Invalid wait format ", &rest));
        }
        assert(views(halves@)[0] == halves@[0]@ && views(halves@)[1] == halves@[1]@);
        assert(halves@[0]@.subrange(0, halves@[0]@.len() as int) =~= halves@[0]@);
        let b = match parse_signed(&halves[0], 0, halves[0].len(), isize::MAX as u64) {
            Some(v) => v as isize,
            None => {
                return Err(quoted("Can't parse wait number ", &halves[0]));
            },
        };
        let l = match Loc::parse(&halves[1]) {
            Ok(l) => l,
            Err(_) => {
                return Err(quoted("Can't parse wait loc ", &halves[1]));
            },
        };
        Kid::Wait(b, l)
    } else {
        let halves = split_at_char(&rest, ';');
        if halves.len() != 2 {
            return Err(quoted("Can't parse the needed pair ", &rest));
        }
        assert(views(halves@)[0] == halves@[0]@ && views(halves@)[1] == halves@[1]@);
        assert(halves@[0]@.subrange(0, halves@[0]@.len() as int) =~= halves@[0]@);
        let o = match parse_decimal(&halves[0], 0, halves[0].len(), usize::MAX as u64) {
            Some(v) => v as usize,
            None => {
                return Err(quoted("Can't parse need obj ", &halves[0]));
            },
        };
        let from: usize = if halves[1].len() > 0 { 1 } else { 0 };
        let q = match parse_signed(&halves[1], from, halves[1].len(), isize::MAX as u64) {
            Some(v) => v as isize,
            None => {
                return Err(quoted("Can't parse need psi ", &halves[1]));
            },
        };
        Kid::Need(o, q)
    };
    assert(kid_of(code as int, rest@) == Some(kid));
    let name = slice_of(p, 0, pos);
    match Loc::parse(&name) {
        Ok(l) => Ok((l, kid)),
        Err(_) => Err(quoted("Can't parse location ", &name)),
    }
}

impl Basket {
    /// Reads a basket from its characters: `[νob, ξ:βpsi, kid, …]`.
    pub fn parse(s: &Vec<char>) -> (r: Result<Basket, String>)
        ensures
            match r {
                Ok(b) => parse_basket(s@) == Some((b.ob, b.psi, kid_map(b.kids@))),
                Err(_) => parse_basket(s@) is None,
            },
    {
        let open = find_char(s, '[', 0);
        let close = rfind_char(s, ']');
        let (open, close) = match (open, close) {
            (Some(a), Some(z)) => {
                if z <= a {
                    return Err(quoted("Can't parse the basket: ", s));
                }
                (a, z)
            },
            _ => {
                return Err(quoted("Can't parse the basket: ", s));
            },
        };
        let inner = trim_chars(&slice_of(s, open + 1, close));
        let raw = split_at_char(&inner, ',');
        let ghost parts = views(raw@);
        assert(parts[0] == raw@[0]@);
        let first = trim_chars(&raw[0]);
        let from: usize = if first.len() > 0 { 1 } else { 0 };
        let ob = match parse_decimal(&first, from, first.len(), usize::MAX as u64) {
            Some(v) => v as usize,
            None => {
                return Err(quoted("Can't parse the v part ", &first));
            },
        };
        if raw.len() < 2 {
            return Err(quoted("Missing psi part in basket ", s));
        }
        assert(parts[1] == raw@[1]@);
        let second = trim_chars(&raw[1]);
        let from: usize = if second.len() >= 3 { 3 } else { second.len() };
        let psi = match parse_signed(&second, from, second.len(), isize::MAX as u64) {
            Some(v) => v as isize,
            None => {
                return Err(quoted("Can't parse the psi part ", &second));
            },
        };
        let ghost obtext = first@.subrange(from as int, first@.len() as int);
        let ghost sectext = second@.subrange(if second@.len() >= 3 { 3 } else { second@.len() as int }, second@.len() as int);
        assert(parse_basket(s@) == if forall|i: int| 2 <= i < parts.len() ==> (#[trigger] parse_kid_spec(trim(parts[i]))) is Some {
            Some((
                ob,
                psi,
                bind_all(parts.subrange(2, parts.len() as int).map_values(|q: Seq<char>| parse_kid_spec(trim(q))->0)),
            ))
        } else {
            None
        });
        let mut bsk = Basket::start(ob, psi);
        let ghost list = parts.subrange(2, parts.len() as int).map_values(|q: Seq<char>| parse_kid_spec(trim(q))->0);
        assert(kid_map(bsk.kids@) =~= Map::<Loc, Kid>::empty());
        let mut i: usize = 2;
        while i < raw.len()
            invariant
                2 <= i <= raw.len(),
                parts == views(raw@),
                list == parts.subrange(2, parts.len() as int).map_values(|q: Seq<char>| parse_kid_spec(trim(q))->0),
                bsk.ob == ob,
                bsk.psi == psi,
                parse_basket(s@) == if forall|i: int| 2 <= i < parts.len() ==> (#[trigger] parse_kid_spec(trim(parts[i]))) is Some {
                    Some((ob, psi, bind_all(list)))
                } else {
                    None
                },
                forall|j: int| 2 <= j < i ==> (#[trigger] parse_kid_spec(trim(parts[j]))) is Some,
                kid_map(bsk.kids@) == bind_all(list.subrange(0, i - 2)),
            decreases raw.len() - i,
        {
            assert(parts[i as int] == raw@[i as int]@);
            let part = trim_chars(&raw[i]);
            match parse_kid(&part) {
                Ok((l, k)) => {
                    let ghost before = bsk.kids@;
                    bsk.put(l, k);
                    assert(list.subrange(0, i - 1).drop_last() =~= list.subrange(0, i - 2));
                    assert(list.subrange(0, i - 1).last() == (l, k));
                    assert(kid_map(bsk.kids@) =~= kid_map(before).insert(l, k));
                },
                Err(e) => {
                    assert(parse_kid_spec(trim(parts[i as int])) is None);
                    return Err(e);
                },
            }
            i = i + 1;
        }
        assert(list.subrange(0, i - 2) =~= list);
        Ok(bsk)
    }
}

impl std::str::FromStr for Basket {
    type Err = String;

    fn from_str(s: &str) -> Result<Basket, String> {
        Basket::parse(&chars_of(s))
    }
}

/// The number of entries waiting on `from.loc`.
pub open spec fn wait_entries(s: Seq<(Loc, Kid)>, from: Bk, loc: Loc) -> nat
    decreases s.len(),
{
    if s.len() == 0 {
        0
    } else {
        wait_entries(s.drop_last(), from, loc) + if s.last().1 == Kid::Wait(from, loc) {
            1nat
        } else {
            0nat
        }
    }
}

/// An entry after settling waits on `from.loc` with `d`.
pub open spec fn settled(e: (Loc, Kid), from: Bk, loc: Loc, d: Data) -> (Loc, Kid) {
    if e.1 == Kid::Wait(from, loc) {
        (e.0, Kid::Dtzd(d))
    } else {
        e
    }
}

proof fn lemma_lookup_map(s: Seq<(Loc, Kid)>, m: Loc, from: Bk, loc: Loc, d: Data)
    ensures
        lookup(s.map_values(|e: (Loc, Kid)| settled(e, from, loc, d)), m) == if lookup(s, m) == Some(Kid::Wait(from, loc)) {
            Some(Kid::Dtzd(d))
        } else {
            lookup(s, m)
        },
    decreases s.len(),
{
    let g = |e: (Loc, Kid)| settled(e, from, loc, d);
    if s.len() > 0 {
        lemma_lookup_map(s.drop_first(), m, from, loc, d);
        assert(s.map_values(g).drop_first() =~= s.drop_first().map_values(g));
    }
}

} // verus!
