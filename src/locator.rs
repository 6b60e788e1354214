//! Locators: chains of attribute names separated by dots, such as `𝜋.𝜋.𝛼0`.

use vstd::prelude::*;
use crate::loc::{lemma_loc_round_trip, loc_text, parse_loc, quoted, Loc};
use crate::text::{
    chars_of, decimal, is_digit, join, lacks, lemma_decimal_round_trip, lemma_split_join, push_joined, split, split_at_char, string_of, views,
};

verus! {

/// A chain of attribute names.
#[derive(Debug)]
pub struct Locator {
    locs: Vec<Loc>,
}

impl View for Locator {
    type V = Seq<Loc>;

    closed spec fn view(&self) -> Seq<Loc> {
        self.locs@
    }
}

/// The placement rules of a locator: it is not empty; `ν` and `Φ` stand only
/// first; `𝛼` never stands first; a leading `ν` stands alone.
pub open spec fn locator_ok(v: Seq<Loc>) -> bool {
    &&& v.len() >= 1
    &&& forall|i: int| 1 <= i < v.len() ==> !(#[trigger] v[i] is Obj) && !(v[i] is Root)
    &&& !(v[0] is Attr)
    &&& (v[0] is Obj ==> v.len() == 1)
}

/// The printed form of a chain of names.
pub open spec fn locator_text(v: Seq<Loc>) -> Seq<char> {
    join(v.map_values(|l: Loc| loc_text(l)), seq!['.'])
}

/// The chain that a text denotes, if each dot-separated piece is a name and
/// the chain keeps the placement rules.
pub open spec fn parse_locator(s: Seq<char>) -> Option<Seq<Loc>> {
    let parts = split(s, '.');
    if forall|i: int| 0 <= i < parts.len() ==> (#[trigger] parse_loc(parts[i])) is Some {
        let v = parts.map_values(|p: Seq<char>| parse_loc(p).unwrap());
        if locator_ok(v) {
            Some(v)
        } else {
            None
        }
    } else {
        None
    }
}

impl PartialEq for Locator {
    fn eq(&self, other: &Locator) -> (r: bool)
        ensures
            r == (self@ == other@),
    {
        if self.locs.len() != other.locs.len() {
            return false;
        }
        let mut i: usize = 0;
        while i < self.locs.len()
            invariant
                i <= self.locs.len() == other.locs.len(),
                forall|j: int| 0 <= j < i ==> self@[j] == other@[j],
            decreases self.locs.len() - i,
        {
            if self.locs[i] != other.locs[i] {
                return false;
            }
            i = i + 1;
        }
        assert(self@ =~= other@);
        true
    }
}

impl vstd::std_specs::cmp::PartialEqSpecImpl for Locator {
    open spec fn obeys_eq_spec() -> bool {
        true
    }

    open spec fn eq_spec(&self, other: &Locator) -> bool {
        self@ == other@
    }
}

impl Eq for Locator {
}

impl Clone for Locator {
    fn clone(&self) -> (r: Locator)
        ensures
            r@ == self@,
    {
        Locator { locs: self.locs.clone() }
    }
}

impl Locator {
    /// A locator made of the given names, in order.
    pub fn from_vec(locs: Vec<Loc>) -> (r: Locator)
        ensures
            r@ == locs@,
    {
        Locator { locs }
    }

    /// A locator of one name.
    pub fn from_loc(loc: Loc) -> (r: Locator)
        ensures
            r@ == seq![loc],
    {
        let mut v: Vec<Loc> = Vec::new();
        v.push(loc);
        assert(v@ =~= seq![loc]);
        Locator::from_vec(v)
    }

    /// The name at a position, if there is one.
    pub fn loc(&self, id: usize) -> (r: Option<&Loc>)
        ensures
            id < self@.len() ==> r == Some(&self@[id as int]),
            id >= self@.len() ==> r is None,
    {
        if id < self.locs.len() {
            Some(&self.locs[id])
        } else {
            None
        }
    }

    /// The names, in order.
    pub fn to_vec(&self) -> (r: Vec<Loc>)
        ensures
            r@ == self@,
    {
        self.locs.clone()
    }

    /// The number of names.
    pub fn len(&self) -> (r: usize)
        ensures
            r == self@.len(),
    {
        self.locs.len()
    }

    /// Reads a locator from its characters.
    pub fn parse(s: &Vec<char>) -> (r: Result<Locator, String>)
        ensures
            match r {
                Ok(p) => parse_locator(s@) == Some(p@),
                Err(_) => parse_locator(s@) is None,
            },
    {
        let parts = split_at_char(s, '.');
        let ghost sp = split(s@, '.');
        let mut locs: Vec<Loc> = Vec::new();
        let mut i: usize = 0;
        while i < parts.len()
            invariant
                i <= parts.len(),
                views(parts@) == sp,
                sp == split(s@, '.'),
                locs@.len() == i,
                forall|j: int| 0 <= j < i ==> parse_loc(#[trigger] sp[j]) == Some(locs@[j]),
            decreases parts.len() - i,
        {
            assert(views(parts@)[i as int] == parts@[i as int]@);
            match Loc::parse(&parts[i]) {
                Ok(l) => {
                    locs.push(l);
                },
                Err(e) => {
                    assert(parse_loc(sp[i as int]) is None);
                    return Err(e);
                },
            }
            i = i + 1;
        }
        let ghost v = sp.map_values(|p: Seq<char>| parse_loc(p).unwrap());
        assert(locs@ =~= v);
        assert(forall|j: int| 0 <= j < sp.len() ==> (#[trigger] parse_loc(sp[j])) is Some);
        let n = locs.len();
        let mut k: usize = 1;
        while k < n
            invariant
                1 <= n == locs.len(),
                1 <= k <= n,
                locs@ == v,
                sp == split(s@, '.'),
                v == sp.map_values(|p: Seq<char>| parse_loc(p).unwrap()),
                forall|j: int| 0 <= j < sp.len() ==> (#[trigger] parse_loc(sp[j])) is Some,
                forall|j: int| 1 <= j < k ==> !(#[trigger] locs@[j] is Obj) && !(locs@[j] is Root),
            decreases n - k,
        {
            match locs[k] {
                Loc::Obj(_) => {
                    assert(v[k as int] is Obj);
                    assert(!locator_ok(v));
                    return Err(quoted("ν can only stay at the first position in ", s));
                },
                Loc::Root => {
                    assert(!locator_ok(v));
                    return Err(quoted("Φ can only start a locator in ", s));
                },
                _ => {},
            }
            k = k + 1;
        }
        match locs[0] {
            Loc::Attr(_) => {
                return Err(quoted("𝛼 can't start a locator in ", s));
            },
            Loc::Obj(_) => {
                if n > 1 {
                    return Err(quoted("ν can only be the first and only locator in ", s));
                }
            },
            _ => {},
        }
        Ok(Locator { locs })
    }

    /// Appends the printed form.
    pub fn push_text(&self, out: &mut Vec<char>)
        ensures
            final(out)@ == old(out)@ + locator_text(self@),
    {
        let mut parts: Vec<Vec<char>> = Vec::new();
        let mut i: usize = 0;
        while i < self.locs.len()
            invariant
                i <= self.locs.len(),
                views(parts@) == self@.subrange(0, i as int).map_values(|l: Loc| loc_text(l)),
            decreases self.locs.len() - i,
        {
            let mut t: Vec<char> = Vec::new();
            self.locs[i].push_text(&mut t);
            let ghost prev = views(parts@);
            let ghost tv = t@;
            parts.push(t);
            assert(views(parts@) =~= prev.push(tv));
            assert(tv == loc_text(self@[i as int]));
            i = i + 1;
            assert(self@.subrange(0, i as int).map_values(|l: Loc| loc_text(l)) =~= self@.subrange(
                0,
                i - 1,
            ).map_values(|l: Loc| loc_text(l)).push(tv));
        }
        assert(self@.subrange(0, self@.len() as int) =~= self@);
        let mut dot: Vec<char> = Vec::new();
        dot.push('.');
        assert(dot@ =~= seq!['.']);
        push_joined(out, &parts, &dot);
    }

    /// The printed form.
    pub fn to_string(&self) -> (r: String)
        ensures
            r@ == locator_text(self@),
    {
        let mut out: Vec<char> = Vec::new();
        self.push_text(&mut out);
        assert(out@ =~= locator_text(self@));
        string_of(&out)
    }
}

impl std::str::FromStr for Locator {
    type Err = String;

    fn from_str(s: &str) -> Result<Locator, String> {
        Locator::parse(&chars_of(s))
    }
}

/// A printed name holds no dot.
proof fn lemma_loc_text_has_no_dot(l: Loc)
    requires
        !(l matches Loc::Attr(i) && i < 0),
    ensures
        lacks(loc_text(l), '.'),
{
    let t = loc_text(l);
    match l {
        Loc::Attr(i) => {
            lemma_decimal_round_trip(i as nat);
            assert forall|j: int| 0 <= j < t.len() implies #[trigger] t[j] != '.' by {
                if j > 0 {
                    assert(t[j] == decimal(i as nat)[j - 1]);
                    assert(is_digit(decimal(i as nat)[j - 1]));
                }
            }
        },
        Loc::Obj(n) => {
            lemma_decimal_round_trip(n as nat);
            assert forall|j: int| 0 <= j < t.len() implies #[trigger] t[j] != '.' by {
                if j > 0 {
                    assert(t[j] == decimal(n as nat)[j - 1]);
                    assert(is_digit(decimal(n as nat)[j - 1]));
                }
            }
        },
        _ => {},
    }
}

/// Reading back a printed locator gives the locator, for every locator that keeps
/// the placement rules and has no negative argument index.
pub proof fn lemma_locator_round_trip(v: Seq<Loc>)
    requires
        locator_ok(v),
        forall|i: int| 0 <= i < v.len() ==> !(#[trigger] v[i] matches Loc::Attr(a) && a < 0),
    ensures
        parse_locator(locator_text(v)) == Some(v),
{
    let parts = v.map_values(|l: Loc| loc_text(l));
    assert forall|i: int| 0 <= i < parts.len() implies lacks(#[trigger] parts[i], '.') by {
        lemma_loc_text_has_no_dot(v[i]);
    }
    lemma_split_join(parts, '.');
    let sp = split(locator_text(v), '.');
    assert(sp == parts);
    assert forall|i: int| 0 <= i < sp.len() implies (#[trigger] parse_loc(sp[i])) == Some(v[i]) by {
        lemma_loc_round_trip(v[i]);
    }
    assert(sp.map_values(|p: Seq<char>| parse_loc(p).unwrap()) =~= v);
}

} // verus!
