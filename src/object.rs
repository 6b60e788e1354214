//! Objects: the immutable nodes of a program.

use vstd::prelude::*;
use crate::atom::{atom_name, Atom};
use crate::data::Data;
use crate::loc::{loc_text, Loc};
use crate::loc::parse_loc;
use crate::locator::{locator_text, parse_locator, Locator};
use crate::table::{keys_unique, lemma_lookup_at, lemma_lookup_none, lemma_lookup_push, lemma_lookup_update, lookup};
use crate::loc::quoted;
use crate::text::{
    all_hex, first_of, from_bits16, hex_digits_value, last_of, split, trim,
    bits16, chars_of, datum_of_bits, ends_with, find_char, hex4, join, parse_hex16, push_all,
    push_hex4, push_joined, rfind_char, slice_of, sort_chars, sort_seqs, split_at_char, string_of,
    trim_chars, views,
};

verus! {

/// An index into the object arena.
pub type Ob = usize;

/// The attributes of an object: each name bound to a locator and a flag that
/// says whether ξ is bound at this call site.
#[derive(Debug)]
pub struct Attrs {
    entries: Vec<(Loc, (Locator, bool))>,
}

impl View for Attrs {
    type V = Seq<(Loc, (Seq<Loc>, bool))>;

    closed spec fn view(&self) -> Seq<(Loc, (Seq<Loc>, bool))> {
        self.entries@.map_values(|e: (Loc, (Locator, bool))| (e.0, ((e.1).0@, (e.1).1)))
    }
}

impl Attrs {
    /// No attributes.
    pub fn new() -> (r: Attrs)
        ensures
            r@.len() == 0,
            keys_unique(r@),
    {
        Attrs { entries: Vec::new() }
    }

    /// The number of attributes.
    pub fn len(&self) -> (r: usize)
        ensures
            r == self@.len(),
    {
        self.entries.len()
    }

    /// Whether there are no attributes.
    pub fn is_empty(&self) -> (r: bool)
        ensures
            r == (self@.len() == 0),
    {
        self.entries.len() == 0
    }

    fn position(&self, l: Loc) -> (r: Option<usize>)
        ensures
            match r {
                Some(i) => i < self@.len() && self@[i as int].0 == l && (forall|j: int|
                    0 <= j < i ==> (#[trigger] self@[j]).0 != l) && lookup(self@, l) == Some(
                    self@[i as int].1,
                ),
                None => (forall|j: int| 0 <= j < self@.len() ==> (#[trigger] self@[j]).0 != l)
                    && lookup(self@, l) is None,
            },
    {
        let mut i: usize = 0;
        while i < self.entries.len()
            invariant
                i <= self.entries.len() == self@.len(),
                forall|j: int| 0 <= j < i ==> (#[trigger] self@[j]).0 != l,
            decreases self.entries.len() - i,
        {
            if self.entries[i].0 == l {
                proof {
                    lemma_lookup_at(self@, l, i as int);
                }
                return Some(i);
            }
            i = i + 1;
        }
        proof {
            lemma_lookup_none(self@, l);
        }
        None
    }

    /// The binding of a name.
    pub fn get(&self, l: &Loc) -> (r: Option<&(Locator, bool)>)
        ensures
            match r {
                Some(v) => lookup(self@, *l) == Some((v.0@, v.1)),
                None => lookup(self@, *l) is None,
            },
    {
        match self.position(*l) {
            Some(i) => Some(&self.entries[i].1),
            None => None,
        }
    }

    /// Binds a name, replacing an earlier binding of it.
    pub fn insert(&mut self, l: Loc, v: (Locator, bool))
        ensures
            forall|m: Loc| #[trigger] lookup(final(self)@, m) == if m == l {
                Some((v.0@, v.1))
            } else {
                lookup(old(self)@, m)
            },
            final(self)@.len() == old(self)@.len() + if lookup(old(self)@, l) is Some {
                0int
            } else {
                1int
            },
            keys_unique(old(self)@) ==> keys_unique(final(self)@),
    {
        let ghost vv = (v.0@, v.1);
        match self.position(l) {
            Some(i) => {
                let ghost s = self@;
                self.entries.set(i, (l, v));
                proof {
                    assert(self@ =~= s.update(i as int, (l, vv)));
                    if keys_unique(s) {
                        assert forall|x: int, y: int| 0 <= x < y < self@.len() implies (#[trigger] self@[x]).0 != (#[trigger] self@[y]).0 by {
                            assert(self@[x].0 == s[x].0 && self@[y].0 == s[y].0);
                            assert(s[x].0 != s[y].0);
                        }
                    }
                    assert forall|m: Loc| #[trigger] lookup(self@, m) == if m == l {
                        Some(vv)
                    } else {
                        lookup(s, m)
                    } by {
                        lemma_lookup_update(s, l, i as int, vv, m);
                    }
                }
            },
            None => {
                let ghost s = self@;
                self.entries.push((l, v));
                proof {
                    assert(self@ =~= s.push((l, vv)));
                    if keys_unique(s) {
                        assert forall|x: int, y: int| 0 <= x < y < self@.len() implies (#[trigger] self@[x]).0 != (#[trigger] self@[y]).0 by {
                            if y < s.len() {
                                assert(s[x].0 != s[y].0);
                            } else {
                                assert(s[x].0 != l);
                            }
                        }
                    }
                    assert forall|m: Loc| #[trigger] lookup(self@, m) == if m == l {
                        Some(vv)
                    } else {
                        lookup(s, m)
                    } by {
                        lemma_lookup_push(s, l, vv, m);
                    }
                }
            },
        }
    }

    /// The entry at a position.
    pub fn entry(&self, i: usize) -> (r: &(Loc, (Locator, bool)))
        requires
            i < self@.len(),
        ensures
            (r.0, ((r.1).0@, (r.1).1)) == self@[i as int],
    {
        &self.entries[i]
    }

    /// The names, in order of entry.
    pub fn keys(&self) -> (r: Vec<Loc>)
        ensures
            r@ == self@.map_values(|e: (Loc, (Seq<Loc>, bool))| e.0),
    {
        let mut r: Vec<Loc> = Vec::new();
        let mut i: usize = 0;
        while i < self.entries.len()
            invariant
                i <= self.entries.len(),
                i <= self@.len(),
                r@ == self@.subrange(0, i as int).map_values(|e: (Loc, (Seq<Loc>, bool))| e.0),
            decreases self.entries.len() - i,
        {
            r.push(self.entries[i].0);
            i = i + 1;
            assert(r@ =~= self@.subrange(0, i as int).map_values(|e: (Loc, (Seq<Loc>, bool))| e.0));
        }
        assert(self@.subrange(0, self@.len() as int) =~= self@);
        r
    }
}

/// A program node: a datum, an atom, or a compound of attributes.
#[derive(Debug)]
pub struct Object {
    pub delta: Option<Data>,
    pub lambda: Option<(String, Atom)>,
    pub constant: bool,
    pub attrs: Attrs,
}

/// The printed form of one attribute binding.
pub open spec fn attr_text(l: Loc, p: Seq<Loc>, xi: bool) -> Seq<char> {
    loc_text(l) + seq!['↦'] + locator_text(p) + if xi {
        seq!['(', 'ξ', ')']
    } else if p.len() > 0 && p[0] is Obj {
        seq!['(', '𝜋', ')']
    } else {
        Seq::empty()
    }
}

/// The printed pieces of an object, before sorting: the atom, the datum, then
/// each attribute.
pub open spec fn object_parts(o: Object) -> Seq<Seq<char>> {
    (if o.lambda is Some {
        seq![seq!['λ', '↦'] + (o.lambda->0).0@]
    } else {
        Seq::empty()
    }) + (if o.delta is Some {
        seq![seq!['Δ', '↦', '0', 'x'] + hex4(bits16(o.delta->0))]
    } else {
        Seq::empty()
    }) + o.attrs@.map_values(|e: (Loc, (Seq<Loc>, bool))| attr_text(e.0, (e.1).0, (e.1).1))
}

/// The printed form of an object: its pieces sorted, between `⟦` and `⟧`, with
/// `!` in front for a constant object.
pub open spec fn object_text(o: Object) -> Seq<char> {
    seq!['⟦'] + (if o.constant {
        seq!['!', ' ']
    } else {
        Seq::empty()
    }) + join(sort_seqs(object_parts(o)), seq![',', ' ']) + seq!['⟧']
}

/// Whether an object is empty: no atom, no datum, no attributes.
pub open spec fn object_is_empty(o: Object) -> bool {
    o.lambda is None && o.delta is None && o.attrs@.len() == 0
}

impl Object {
    /// An object with nothing inside.
    pub fn open() -> (r: Object)
        ensures
            keys_unique(r.attrs@),
            r.delta is None,
            r.lambda is None,
            !r.constant,
            r.attrs@.len() == 0,
    {
        Object { delta: None, lambda: None, constant: false, attrs: Attrs::new() }
    }

    /// A data object, always constant.
    pub fn dataic(d: Data) -> (r: Object)
        ensures
            keys_unique(r.attrs@),
            r.delta == Some(d),
            r.lambda is None,
            r.constant,
            r.attrs@.len() == 0,
    {
        Object { delta: Some(d), lambda: None, constant: true, attrs: Attrs::new() }
    }

    /// An atomic object, with the atom's name.
    pub fn atomic(n: String, a: Atom) -> (r: Object)
        ensures
            keys_unique(r.attrs@),
            r.delta is None,
            r.lambda matches Some(p) && p.0@ == n@ && p.1 == a,
            !r.constant,
            r.attrs@.len() == 0,
    {
        Object { delta: None, lambda: Some((n, a)), constant: false, attrs: Attrs::new() }
    }

    /// This object is an empty one, with nothing inside.
    pub fn is_empty(&self) -> (r: bool)
        ensures
            r == object_is_empty(*self),
    {
        self.lambda.is_none() && self.delta.is_none() && self.attrs.is_empty()
    }

    /// Adds an attribute, replacing an earlier binding of the same name.
    pub fn push(&mut self, loc: Loc, p: Locator, xi: bool) -> (r: &mut Object)
        ensures
            r.delta == old(self).delta,
            r.lambda == old(self).lambda,
            r.constant == old(self).constant,
            forall|m: Loc| #[trigger] lookup(r.attrs@, m) == if m == loc {
                Some((p@, xi))
            } else {
                lookup(old(self).attrs@, m)
            },
            r.attrs@.len() == old(self).attrs@.len() + if lookup(old(self).attrs@, loc) is Some {
                0int
            } else {
                1int
            },
            *final(self) == *final(r),
            keys_unique(old(self).attrs@) ==> keys_unique(r.attrs@),
    {
        self.attrs.insert(loc, (p, xi));
        self
    }

    /// A copy of this object with one more attribute.
    pub fn with(&self, loc: Loc, p: Locator, xi: bool) -> (r: Object)
        ensures
            r.delta == self.delta,
            r.lambda == self.lambda,
            r.constant == self.constant,
            forall|m: Loc| #[trigger] lookup(r.attrs@, m) == if m == loc {
                Some((p@, xi))
            } else {
                lookup(self.attrs@, m)
            },
            r.attrs@.len() == self.attrs@.len() + if lookup(self.attrs@, loc) is Some {
                0int
            } else {
                1int
            },
            keys_unique(self.attrs@) ==> keys_unique(r.attrs@),
    {
        let mut obj = self.copy();
        obj.attrs.insert(loc, (p, xi));
        obj
    }

    /// A constant copy of this object.
    pub fn as_constant(&self) -> (r: Object)
        ensures
            r.delta == self.delta,
            r.lambda == self.lambda,
            r.constant,
            r.attrs@ == self.attrs@,
    {
        let mut obj = self.copy();
        obj.constant = true;
        obj
    }

    /// A field-by-field copy.
    pub fn copy(&self) -> (r: Object)
        ensures
            r.delta == self.delta,
            r.lambda == self.lambda,
            r.constant == self.constant,
            r.attrs@ == self.attrs@,
    {
        let lambda = match &self.lambda {
            Some(p) => Some((p.0.clone(), p.1)),
            None => None,
        };
        let mut attrs = Attrs::new();
        let mut i: usize = 0;
        while i < self.attrs.len()
            invariant
                i <= self.attrs@.len(),
                attrs@ == self.attrs@.subrange(0, i as int),
            decreases self.attrs@.len() - i,
        {
            let e = self.attrs.entry(i);
            let v = ((e.1).0.clone(), (e.1).1);
            let ghost prev = attrs@;
            attrs.entries.push((e.0, v));
            assert(attrs@ =~= prev.push((e.0, (v.0@, v.1))));
            i = i + 1;
            assert(attrs@ =~= self.attrs@.subrange(0, i as int));
        }
        assert(self.attrs@.subrange(0, self.attrs@.len() as int) =~= self.attrs@);
        Object { delta: self.delta, lambda, constant: self.constant, attrs }
    }
}

impl Clone for Object {
    fn clone(&self) -> (r: Object)
        ensures
            r.delta == self.delta,
            r.lambda == self.lambda,
            r.constant == self.constant,
            r.attrs@ == self.attrs@,
    {
        self.copy()
    }
}

impl Object {
    fn attr_part(l: Loc, p: &Locator, xi: bool) -> (r: Vec<char>)
        ensures
            r@ == attr_text(l, p@, xi),
    {
        let mut out: Vec<char> = Vec::new();
        l.push_text(&mut out);
        out.push('↦');
        p.push_text(&mut out);
        let ghost mid = out@;
        if xi {
            out.push('(');
            out.push('ξ');
            out.push(')');
        } else if p.len() > 0 {
            match p.loc(0) {
                Some(Loc::Obj(_)) => {
                    out.push('(');
                    out.push('𝜋');
                    out.push(')');
                },
                _ => {},
            }
        }
        assert(out@ =~= attr_text(l, p@, xi));
        out
    }

    /// The printed pieces, before sorting.
    fn parts(&self) -> (r: Vec<Vec<char>>)
        ensures
            views(r@) == object_parts(*self),
    {
        let mut parts: Vec<Vec<char>> = Vec::new();
        let ghost lam: Seq<Seq<char>> = if self.lambda is Some {
            seq![seq!['λ', '↦'] + (self.lambda->0).0@]
        } else {
            Seq::empty()
        };
        let ghost del: Seq<Seq<char>> = if self.delta is Some {
            seq![seq!['Δ', '↦', '0', 'x'] + hex4(bits16(self.delta->0))]
        } else {
            Seq::empty()
        };
        match &self.lambda {
            Some(a) => {
                let mut t: Vec<char> = Vec::new();
                t.push('λ');
                t.push('↦');
                crate::text::push_str(&mut t, a.0.as_str());
                assert(t@ =~= seq!['λ', '↦'] + (self.lambda->0).0@);
                parts.push(t);
                assert(views(parts@) =~= lam);
            },
            None => {},
        }
        assert(views(parts@) =~= lam);
        match self.delta {
            Some(d) => {
                let mut t: Vec<char> = Vec::new();
                t.push('Δ');
                t.push('↦');
                t.push('0');
                t.push('x');
                push_hex4(&mut t, d);
                assert(t@ =~= seq!['Δ', '↦', '0', 'x'] + hex4(bits16(d)));
                let ghost before = views(parts@);
                parts.push(t);
                assert(views(parts@) =~= before.push(t@));
            },
            None => {},
        }
        assert(views(parts@) =~= lam + del);
        let mut i: usize = 0;
        while i < self.attrs.len()
            invariant
                i <= self.attrs@.len(),
                views(parts@) == lam + del + self.attrs@.subrange(0, i as int).map_values(
                    |e: (Loc, (Seq<Loc>, bool))| attr_text(e.0, (e.1).0, (e.1).1),
                ),
            decreases self.attrs@.len() - i,
        {
            let e = self.attrs.entry(i);
            let t = Object::attr_part(e.0, &(e.1).0, (e.1).1);
            let ghost before = views(parts@);
            parts.push(t);
            assert(views(parts@) =~= before.push(t@));
            i = i + 1;
            assert(self.attrs@.subrange(0, i as int).map_values(
                |e: (Loc, (Seq<Loc>, bool))| attr_text(e.0, (e.1).0, (e.1).1),
            ) =~= self.attrs@.subrange(0, i - 1).map_values(
                |e: (Loc, (Seq<Loc>, bool))| attr_text(e.0, (e.1).0, (e.1).1),
            ).push(t@));
        }
        assert(self.attrs@.subrange(0, self.attrs@.len() as int) =~= self.attrs@);
        parts
    }

    /// Appends the printed form.
    pub fn push_text(&self, out: &mut Vec<char>)
        ensures
            final(out)@ == old(out)@ + object_text(*self),
    {
        let ghost before = out@;
        let sorted = sort_chars(self.parts());
        out.push('⟦');
        if self.constant {
            out.push('!');
            out.push(' ');
        }
        let mut sep: Vec<char> = Vec::new();
        sep.push(',');
        sep.push(' ');
        assert(sep@ =~= seq![',', ' ']);
        push_joined(out, &sorted, &sep);
        out.push('⟧');
        assert(out@ =~= before + object_text(*self));
    }

    /// The printed form: `⟦`, `! ` for a constant object, the sorted bindings
    /// joined with `, `, and `⟧`.
    pub fn to_string(&self) -> (r: String)
        ensures
            r@ == object_text(*self),
    {
        let mut out: Vec<char> = Vec::new();
        self.push_text(&mut out);
        assert(out@ =~= object_text(*self));
        string_of(&out)
    }
}

/// A data object is constant, and an atom carries its own name.
pub open spec fn object_sound(o: Object) -> bool {
    &&& (o.delta is Some ==> o.constant)
    &&& match o.lambda {
        Some(p) => atom_name(p.1) == p.0@,
        None => true,
    }
}

/// What the reader sees of an object: its datum, its atom with the atom's
/// name, its constant flag, and its attributes by name.
pub type ObjectModel = (Option<Data>, Option<(Seq<char>, Atom)>, bool, Map<Loc, (Seq<Loc>, bool)>);

/// The attributes by name.
pub open spec fn attr_map(s: Seq<(Loc, (Seq<Loc>, bool))>) -> Map<Loc, (Seq<Loc>, bool)> {
    Map::new(|l: Loc| lookup(s, l) is Some, |l: Loc| lookup(s, l)->0)
}

/// What the reader sees of an object.
pub open spec fn object_model(o: Object) -> ObjectModel {
    (
        o.delta,
        match o.lambda {
            Some(p) => Some((p.0@, p.1)),
            None => None,
        },
        o.constant,
        attr_map(o.attrs@),
    )
}

/// The atom with the given name, if there is one.
pub open spec fn atom_named(t: Seq<char>) -> Option<Atom> {
    if exists|a: Atom| atom_name(a) == t {
        Some(choose|a: Atom| atom_name(a) == t)
    } else {
        None
    }
}

/// `t` without a three-character suffix, and whether it was there.
pub open spec fn strip3(t: Seq<char>, suffix: Seq<char>) -> (Seq<char>, bool) {
    if t.len() >= 3 && t.subrange(t.len() - 3, t.len() as int) == suffix {
        (t.subrange(0, t.len() - 3), true)
    } else {
        (t, false)
    }
}

/// The hexadecimal digits of a datum binding: what follows `0x`.
pub open spec fn hex_part(t: Seq<char>) -> Seq<char> {
    t.subrange(if t.len() >= 2 { 2 } else { t.len() as int }, t.len() as int)
}

/// Reading one binding, `name ↦ target`: `λ` names an atom, `Δ` a datum in
/// hexadecimal (which makes the object constant), any other name an attribute
/// whose target is a locator, marked `(ξ)` when ξ is bound here, and possibly
/// `(𝜋)` for an absolute one.
pub open spec fn apply_pair(m: ObjectModel, p: Seq<char>) -> Option<ObjectModel> {
    let halves = split(p, '↦');
    if halves.len() != 2 {
        None
    } else {
        let name = trim(halves[0]);
        let target = trim(halves[1]);
        if name.len() == 0 {
            None
        } else if name[0] == 'λ' {
            match atom_named(target) {
                Some(a) => Some((m.0, Some((target, a)), m.2, m.3)),
                None => None,
            }
        } else if name[0] == 'Δ' {
            let hex = hex_part(target);
            if all_hex(hex) && hex_digits_value(hex) < 65536 {
                Some((Some(from_bits16(hex_digits_value(hex))), m.1, true, m.3))
            } else {
                None
            }
        } else {
            let tail = strip3(target, seq!['(', '𝜋', ')']).0;
            let marked = strip3(tail, seq!['(', 'ξ', ')']);
            match (parse_loc(name), parse_locator(marked.0)) {
                (Some(l), Some(v)) => Some((m.0, m.1, m.2, m.3.insert(l, (v, marked.1)))),
                _ => None,
            }
        }
    }
}

/// Reading the bindings in order, each trimmed.
pub open spec fn apply_pairs(m: ObjectModel, ps: Seq<Seq<char>>) -> Option<ObjectModel>
    decreases ps.len(),
{
    if ps.len() == 0 {
        Some(m)
    } else {
        match apply_pair(m, trim(ps[0])) {
            Some(m2) => apply_pairs(m2, ps.drop_first()),
            None => None,
        }
    }
}

/// Reading an object: the first `⟦`, the last `⟧` after it, an optional `!`
/// right after the `⟦`, and between them bindings separated by commas.
pub open spec fn parse_object(s: Seq<char>) -> Option<ObjectModel> {
    match (first_of(s, '⟦', 0), last_of(s, '⟧')) {
        (Some(a), Some(z)) => if a < z {
            let bang = a + 1 < z && s[a + 1] == '!';
            let start = if bang { a + 2 } else { a + 1 };
            let inner = trim(s.subrange(start, z));
            let m0: ObjectModel = (None, None, false, Map::empty());
            let r = if inner.len() == 0 { Some(m0) } else { apply_pairs(m0, split(inner, ',')) };
            match r {
                Some(m) => Some(if bang { (m.0, m.1, true, m.3) } else { m }),
                None => None,
            }
        } else {
            None
        },
        _ => None,
    }
}

pub(crate) proof fn lemma_atom_named(a: Atom)
    ensures
        atom_named(atom_name(a)) == Some(a),
{
    let b = choose|b: Atom| atom_name(b) == atom_name(a);
    assert(atom_name(b) == atom_name(a));
    assert(b == a) by {
        let x = atom_name(a);
        match a {
            Atom::IntAdd => { assert(x[4] == 'a'); assert(x.len() == 7); },
            Atom::IntTimes => { assert(x.len() == 9); },
            Atom::IntNeg => { assert(x[4] == 'n'); assert(x.len() == 7); },
            Atom::IntSub => { assert(x[4] == 's'); assert(x.len() == 7); },
            Atom::IntDiv => { assert(x[4] == 'd'); assert(x.len() == 7); },
            Atom::IntLess => { assert(x.len() == 8); },
            Atom::BoolIf => { assert(x[0] == 'b'); assert(x.len() == 7); },
        }
        let y = atom_name(b);
        match b {
            Atom::IntAdd => { assert(y[4] == 'a' && y[0] == 'i'); },
            Atom::IntTimes => { assert(y[4] == 't'); },
            Atom::IntNeg => { assert(y[4] == 'n' && y[0] == 'i'); },
            Atom::IntSub => { assert(y[4] == 's' && y[0] == 'i'); },
            Atom::IntDiv => { assert(y[4] == 'd' && y[0] == 'i'); },
            Atom::IntLess => { assert(y[4] == 'l'); },
            Atom::BoolIf => { assert(y[0] == 'b'); },
        }
    }
}

/// A message about a piece of text, with the text quoted.
fn quoted_in(prefix: &str, piece: &Vec<char>, whole: &Vec<char>) -> String {
    let mut out: Vec<char> = Vec::new();
    crate::text::push_str(&mut out, prefix);
    out.push('\'');
    push_all(&mut out, piece);
    crate::text::push_str(&mut out, "' in '");
    push_all(&mut out, whole);
    out.push('\'');
    string_of(&out)
}

impl Object {
    /// Reads one binding, `name ↦ target`, into the object.
    fn parse_pair(obj: &mut Object, pair: &Vec<char>, whole: &Vec<char>) -> (r: Result<(), String>)
        requires
            object_sound(*old(obj)),
        ensures
            object_sound(*final(obj)),
            match r {
                Ok(()) => apply_pair(object_model(*old(obj)), pair@) == Some(object_model(*final(obj))),
                Err(_) => apply_pair(object_model(*old(obj)), pair@) is None,
            },
    {
        let ghost m = object_model(*obj);
        let halves = split_at_char(pair, '↦');
        if halves.len() != 2 {
            return Err(quoted_in("Can't split in two parts: ", pair, whole));
        }
        assert(views(halves@)[0] == halves@[0]@ && views(halves@)[1] == halves@[1]@);
        let name = trim_chars(&halves[0]);
        let target = trim_chars(&halves[1]);
        if name.len() == 0 {
            return Err(quoted_in("Empty attribute name in ", pair, whole));
        }
        if name[0] == 'λ' {
            match Atom::from_name(&target) {
                Some(a) => {
                    proof {
                        lemma_atom_named(a);
                    }
                    obj.lambda = Some((string_of(&target), a));
                    assert(object_model(*obj) == (m.0, Some((target@, a)), m.2, m.3));
                    Ok(())
                },
                None => Err(quoted_in("Unknown lambda ", &target, whole)),
            }
        } else if name[0] == 'Δ' {
            let lo: usize = if target.len() >= 2 { 2 } else { target.len() };
            match parse_hex16(&target, lo, target.len()) {
                Some(u) => {
                    obj.delta = Some(datum_of_bits(u));
                    obj.constant = true;
                    assert(object_model(*obj) == (Some(from_bits16(hex_digits_value(hex_part(target@)))), m.1, true, m.3));
                    Ok(())
                },
                None => Err(quoted_in("Can't parse hex ", &target, whole)),
            }
        } else {
            proof {
                reveal_strlit("(𝜋)");
                reveal_strlit("(ξ)");
            }
            let ghost pis = seq!['(', '𝜋', ')'];
            let ghost xis = seq!['(', 'ξ', ')'];
            assert("(𝜋)"@ =~= pis);
            assert("(ξ)"@ =~= xis);
            let tail = if target.len() >= 3 && ends_with(&target, "(𝜋)") {
                slice_of(&target, 0, target.len() - 3)
            } else {
                target
            };
            assert(tail@ == strip3(target@, pis).0);
            let xi = tail.len() >= 3 && ends_with(&tail, "(ξ)");
            let text = if xi {
                slice_of(&tail, 0, tail.len() - 3)
            } else {
                tail
            };
            assert(text@ == strip3(strip3(target@, pis).0, xis).0);
            assert(xi == strip3(strip3(target@, pis).0, xis).1);
            let loc = match Loc::parse(&name) {
                Ok(l) => l,
                Err(_) => {
                    return Err(quoted_in("Can't parse location ", &name, whole));
                },
            };
            let locator = match Locator::parse(&text) {
                Ok(p) => p,
                Err(_) => {
                    return Err(quoted_in("Can't parse locator ", &text, whole));
                },
            };
            let ghost v = locator@;
            let ghost before = obj.attrs@;
            obj.attrs.insert(loc, (locator, xi));
            assert(attr_map(obj.attrs@) =~= attr_map(before).insert(loc, (v, xi)));
            Ok(())
        }
    }

    /// Reads an object from its characters: `⟦`, an optional `!` for a constant
    /// object, bindings separated by commas, and `⟧`.
    pub fn parse(s: &Vec<char>) -> (r: Result<Object, String>)
        ensures
            r matches Ok(o) ==> object_sound(o),
            match r {
                Ok(o) => parse_object(s@) == Some(object_model(o)),
                Err(_) => parse_object(s@) is None,
            },
    {
        let open = match find_char(s, '⟦', 0) {
            Some(i) => i,
            None => {
                return Err(quoted("Can't parse object format in ", s));
            },
        };
        let close = match rfind_char(s, '⟧') {
            Some(i) => i,
            None => {
                return Err(quoted("Can't parse object format in ", s));
            },
        };
        if close <= open {
            return Err(quoted("Can't parse object format in ", s));
        }
        let mut start = open + 1;
        let constant = start < close && s[start] == '!';
        if constant {
            start = start + 1;
        }
        let inner = trim_chars(&slice_of(s, start, close));
        let mut obj = Object::open();
        let ghost m0: ObjectModel = (None, None, false, Map::empty());
        assert(object_model(obj) == m0) by {
            assert(attr_map(obj.attrs@) =~= Map::<Loc, (Seq<Loc>, bool)>::empty());
        }
        if inner.len() > 0 {
            let pairs = split_at_char(&inner, ',');
            let ghost ps = views(pairs@);
            assert(ps.subrange(0, ps.len() as int) =~= ps);
            let mut i: usize = 0;
            while i < pairs.len()
                invariant
                    i <= pairs.len(),
                    ps == views(pairs@),
                    ps == split(inner@, ','),
                    inner@.len() > 0,
                    inner@ == trim(s@.subrange(start as int, close as int)),
                    first_of(s@, '⟦', 0) == Some(open as int),
                    last_of(s@, '⟧') == Some(close as int),
                    open < close,
                    constant == (open + 1 < close && s@[open + 1] == '!'),
                    start == if constant { open + 2 } else { open + 1 },
                    m0 == (None::<Data>, None::<(Seq<char>, Atom)>, false, Map::<Loc, (Seq<Loc>, bool)>::empty()),
                    object_sound(obj),
                    apply_pairs(m0, ps) == apply_pairs(object_model(obj), ps.subrange(i as int, ps.len() as int)),
                decreases pairs.len() - i,
            {
                let pair = trim_chars(&pairs[i]);
                let ghost rest = ps.subrange(i as int, ps.len() as int);
                assert(rest[0] == pairs@[i as int]@);
                assert(rest.drop_first() =~= ps.subrange(i + 1, ps.len() as int));
                match Object::parse_pair(&mut obj, &pair, s) {
                    Ok(()) => {},
                    Err(e) => {
                        assert(apply_pairs(m0, ps) is None);
                        return Err(e);
                    },
                }
                i = i + 1;
            }
            assert(ps.subrange(i as int, ps.len() as int).len() == 0);
        }
        if constant {
            obj.constant = true;
        }
        Ok(obj)
    }
}

impl std::str::FromStr for Object {
    type Err = String;

    fn from_str(s: &str) -> Result<Object, String> {
        Object::parse(&chars_of(s))
    }
}

} // verus!
