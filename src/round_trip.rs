//! Reading back what the printer writes.

use vstd::prelude::*;
use crate::atom::{atom_name, Atom};
use crate::loc::{lemma_loc_round_trip, loc_text, Loc};
use crate::locator::{lemma_locator_round_trip, locator_ok, locator_text};
use crate::object::{
    apply_pair, apply_pairs, atom_named, attr_map, attr_text, hex_part, object_model, object_parts,
    object_sound, object_text, parse_object, strip3, Object, ObjectModel,
};
use crate::table::{keys_unique, lookup};
use crate::text::{
    bits16, decimal, hex4, hex_char, is_space, join, lacks,
    lemma_datum_round_trip, lemma_decimal_round_trip, lemma_split_join, signed_decimal, sort_seqs,
    split, trim, trim_start,
};

verus! {

/// No arrow, comma or space in the text.
pub open spec fn plain(s: Seq<char>) -> bool {
    forall|i: int| 0 <= i < s.len() ==> (#[trigger] s[i] != '↦' && s[i] != ',' && !is_space(s[i]))
}

/// No comma or space in the text.
pub open spec fn unbroken(s: Seq<char>) -> bool {
    forall|i: int| 0 <= i < s.len() ==> (#[trigger] s[i] != ',' && !is_space(s[i]))
}

proof fn lemma_plain_concat(a: Seq<char>, b: Seq<char>)
    requires
        plain(a),
        plain(b),
    ensures
        plain(a + b),
{
    assert forall|i: int| 0 <= i < (a + b).len() implies ((#[trigger] (a + b)[i]) != '↦' && (a + b)[i] != ',' && !is_space((a + b)[i])) by {
        if i < a.len() {
            assert((a + b)[i] == a[i]);
        } else {
            assert((a + b)[i] == b[i - a.len()]);
        }
    }
}

proof fn lemma_decimal_plain(n: nat)
    ensures
        plain(decimal(n)),
        decimal(n).len() > 0,
{
    lemma_decimal_round_trip(n);
    assert forall|i: int| 0 <= i < decimal(n).len() implies ((#[trigger] decimal(n)[i]) != '↦' && decimal(n)[i] != ',' && !is_space(decimal(n)[i])) by {
        assert(crate::text::is_digit(decimal(n)[i]));
    }
}

proof fn lemma_loc_plain(l: Loc)
    ensures
        plain(loc_text(l)),
        loc_text(l).len() > 0,
        loc_text(l).last() != ')',
{
    match l {
        Loc::Attr(i) => {
            if i < 0 {
                lemma_decimal_plain((-i) as nat);
                lemma_plain_concat(seq!['-'], decimal((-i) as nat));
                lemma_plain_concat(seq!['𝛼'], signed_decimal(i as int));
                lemma_decimal_round_trip((-i) as nat);
                assert(crate::text::is_digit(loc_text(l).last()));
            } else {
                lemma_decimal_plain(i as nat);
                lemma_plain_concat(seq!['𝛼'], decimal(i as nat));
                lemma_decimal_round_trip(i as nat);
                assert(crate::text::is_digit(decimal(i as nat)[decimal(i as nat).len() - 1]));
                assert(loc_text(l).last() == decimal(i as nat).last());
            }
        },
        Loc::Obj(n) => {
            lemma_decimal_plain(n as nat);
            lemma_plain_concat(seq!['ν'], decimal(n as nat));
            lemma_decimal_round_trip(n as nat);
            assert(crate::text::is_digit(decimal(n as nat)[decimal(n as nat).len() - 1]));
            assert(loc_text(l).last() == decimal(n as nat).last());
        },
        _ => {},
    }
}

proof fn lemma_join_plain(p: Seq<Seq<char>>, sep: Seq<char>)
    requires
        plain(sep),
        forall|i: int| 0 <= i < p.len() ==> plain(#[trigger] p[i]),
    ensures
        plain(join(p, sep)),
    decreases p.len(),
{
    if p.len() > 1 {
        lemma_join_plain(p.drop_last(), sep);
        lemma_plain_concat(join(p.drop_last(), sep), sep);
        assert(plain(p.last())) by {
            assert(p.last() == p[p.len() - 1]);
        }
        lemma_plain_concat(join(p.drop_last(), sep) + sep, p.last());
    } else if p.len() == 1 {
        assert(plain(p[0]));
    }
}

proof fn lemma_join_last(p: Seq<Seq<char>>, sep: Seq<char>)
    requires
        p.len() >= 1,
        p.last().len() > 0,
    ensures
        join(p, sep).len() > 0,
        join(p, sep).last() == p.last().last(),
{
}

proof fn lemma_join_first(p: Seq<Seq<char>>, sep: Seq<char>)
    requires
        p.len() >= 1,
        p[0].len() > 0,
    ensures
        join(p, sep).len() > 0,
        join(p, sep)[0] == p[0][0],
    decreases p.len(),
{
    if p.len() > 1 {
        lemma_join_first(p.drop_last(), sep);
        assert(p.drop_last()[0] == p[0]);
    }
}

proof fn lemma_locator_plain(v: Seq<Loc>)
    requires
        v.len() >= 1,
    ensures
        plain(locator_text(v)),
        locator_text(v).len() > 0,
        locator_text(v).last() != ')',
{
    let p = v.map_values(|l: Loc| loc_text(l));
    assert forall|i: int| 0 <= i < p.len() implies plain(#[trigger] p[i]) by {
        lemma_loc_plain(v[i]);
    }
    lemma_join_plain(p, seq!['.']);
    lemma_loc_plain(v.last());
    assert(p.last() == loc_text(v.last()));
    lemma_join_last(p, seq!['.']);
}

proof fn lemma_trim_unbroken(s: Seq<char>)
    requires
        unbroken(s),
    ensures
        trim(s) == s,
{
    if s.len() > 0 {
        assert(!is_space(s[0]));
        assert(!is_space(s[s.len() - 1]));
    }
    assert(trim_start(s) == s);
}

proof fn lemma_trim_lead(s: Seq<char>)
    requires
        s.len() > 0,
        !is_space(s[0]),
        !is_space(s.last()),
    ensures
        trim(seq![' '] + s) == s,
        trim(s) == s,
{
    let t = seq![' '] + s;
    assert(t.drop_first() =~= s);
    assert(is_space(t[0]));
    assert(trim_start(t) == trim_start(s));
    assert(trim_start(s) == s);
}

proof fn lemma_plain_unbroken(s: Seq<char>)
    requires
        plain(s),
    ensures
        unbroken(s),
        lacks(s, '↦'),
        lacks(s, ','),
{
}

/// The suffix printed after an attribute's locator.
pub open spec fn suffix(v: Seq<Loc>, xi: bool) -> Seq<char> {
    if xi {
        seq!['(', 'ξ', ')']
    } else if v.len() > 0 && v[0] is Obj {
        seq!['(', '𝜋', ')']
    } else {
        Seq::empty()
    }
}

/// An attribute binding that the reader takes back as printed: its name is not
/// `Δ` nor a negative argument, and its locator keeps the placement rules and
/// has no negative argument.
pub open spec fn readable_attr(l: Loc, v: Seq<Loc>) -> bool {
    &&& l != Loc::Delta
    &&& !(l matches Loc::Attr(i) && i < 0)
    &&& locator_ok(v)
    &&& forall|i: int| 0 <= i < v.len() ==> !(#[trigger] v[i] matches Loc::Attr(a) && a < 0)
}

proof fn lemma_split_two(a: Seq<char>, b: Seq<char>, c: char)
    requires
        lacks(a, c),
        lacks(b, c),
    ensures
        split(a + seq![c] + b, c) == seq![a, b],
{
    let p = seq![a, b];
    assert forall|i: int| 0 <= i < p.len() implies lacks(#[trigger] p[i], c) by {}
    lemma_split_join(p, c);
    assert(p.drop_last() =~= seq![a]);
    assert(join(seq![a], seq![c]) == a);
    assert(p.last() == b);
    assert(join(p, seq![c]) =~= a + seq![c] + b);
}

proof fn lemma_attr_part(m: ObjectModel, l: Loc, v: Seq<Loc>, xi: bool)
    requires
        readable_attr(l, v),
    ensures
        apply_pair(m, attr_text(l, v, xi)) == Some((m.0, m.1, m.2, m.3.insert(l, (v, xi)))),
        unbroken(attr_text(l, v, xi)),
        attr_text(l, v, xi).len() > 0,
        !is_space(attr_text(l, v, xi)[0]),
        !is_space(attr_text(l, v, xi).last()),
        attr_text(l, v, xi)[0] != '!',
        attr_text(l, v, xi)[0] != 'λ',
        attr_text(l, v, xi)[0] != 'Δ',
{
    let name = loc_text(l);
    let target = locator_text(v) + suffix(v, xi);
    lemma_loc_plain(l);
    lemma_locator_plain(v);
    assert(plain(suffix(v, xi)));
    lemma_plain_concat(locator_text(v), suffix(v, xi));
    lemma_plain_unbroken(name);
    lemma_plain_unbroken(target);
    assert(attr_text(l, v, xi) =~= name + seq!['↦'] + target);
    lemma_split_two(name, target, '↦');
    lemma_trim_unbroken(name);
    lemma_trim_unbroken(target);
    lemma_loc_round_trip(l);
    lemma_locator_round_trip(v);
    let pis = seq!['(', '𝜋', ')'];
    let xis = seq!['(', 'ξ', ')'];
    let lt = locator_text(v);
    if xi {
        assert(target.subrange(target.len() - 3, target.len() as int) =~= xis);
        assert(target.subrange(target.len() - 3, target.len() as int) != pis);
        assert(strip3(target, pis).0 == target);
        assert(target.subrange(0, target.len() - 3) =~= lt);
        assert(strip3(target, xis) == (lt, true));
    } else if v.len() > 0 && v[0] is Obj {
        assert(target.subrange(target.len() - 3, target.len() as int) =~= pis);
        assert(target.subrange(0, target.len() - 3) =~= lt);
        assert(strip3(target, pis).0 == lt);
        if lt.len() >= 3 {
            assert(lt.subrange(lt.len() - 3, lt.len() as int)[2] == lt.last());
        }
        assert(strip3(lt, xis) == (lt, false));
    } else {
        assert(target =~= lt);
        if lt.len() >= 3 {
            assert(lt.subrange(lt.len() - 3, lt.len() as int)[2] == lt.last());
        }
        assert(strip3(target, pis).0 == lt);
        assert(strip3(lt, xis) == (lt, false));
    }
    assert(name[0] == attr_text(l, v, xi)[0]);
    let x = attr_text(l, v, xi);
    assert(x.last() == target.last());
    assert forall|i: int| 0 <= i < x.len() implies (#[trigger] x[i] != ',' && !is_space(x[i])) by {
        if i < name.len() {
            assert(x[i] == name[i]);
        } else if i > name.len() {
            assert(x[i] == target[i - name.len() - 1]);
        }
    }
}

proof fn lemma_atom_name_plain(a: Atom)
    ensures
        plain(atom_name(a)),
        atom_name(a).len() > 0,
        atom_named(atom_name(a)) == Some(a),
{
    crate::object::lemma_atom_named(a);
}

proof fn lemma_lambda_part(m: ObjectModel, name: Seq<char>, a: Atom)
    requires
        atom_name(a) == name,
    ensures
        apply_pair(m, seq!['λ', '↦'] + name) == Some((m.0, Some((name, a)), m.2, m.3)),
        unbroken(seq!['λ', '↦'] + name),
        !is_space((seq!['λ', '↦'] + name).last()),
{
    lemma_atom_name_plain(a);
    lemma_plain_unbroken(name);
    assert(seq!['λ', '↦'] + name =~= seq!['λ'] + seq!['↦'] + name);
    assert(lacks(seq!['λ'], '↦'));
    lemma_split_two(seq!['λ'], name, '↦');
    assert(plain(seq!['λ']));
    lemma_trim_unbroken(seq!['λ']);
    lemma_trim_unbroken(name);
    let x = seq!['λ', '↦'] + name;
    assert(x.last() == name.last());
    assert forall|i: int| 0 <= i < x.len() implies (#[trigger] x[i] != ',' && !is_space(x[i])) by {
        if i >= 2 {
            assert(x[i] == name[i - 2]);
        }
    }
}

proof fn lemma_hex4_plain(u: nat)
    ensures
        plain(hex4(u)),
{
    assert forall|k: nat| k < 16 implies (#[trigger] hex_char(k) != '↦' && hex_char(k) != ',' && !is_space(hex_char(k))) by {}
}

proof fn lemma_delta_part(m: ObjectModel, d: i16)
    ensures
        apply_pair(m, seq!['Δ', '↦', '0', 'x'] + hex4(bits16(d))) == Some((Some(d), m.1, true, m.3)),
        unbroken(seq!['Δ', '↦', '0', 'x'] + hex4(bits16(d))),
        !is_space((seq!['Δ', '↦', '0', 'x'] + hex4(bits16(d))).last()),
{
    let h = hex4(bits16(d));
    lemma_hex4_plain(bits16(d));
    lemma_datum_round_trip(d);
    let target = seq!['0', 'x'] + h;
    assert(plain(seq!['0', 'x']));
    lemma_plain_concat(seq!['0', 'x'], h);
    lemma_plain_unbroken(target);
    assert(seq!['Δ', '↦', '0', 'x'] + h =~= seq!['Δ'] + seq!['↦'] + target);
    assert(lacks(seq!['Δ'], '↦'));
    lemma_split_two(seq!['Δ'], target, '↦');
    assert(plain(seq!['Δ']));
    lemma_trim_unbroken(seq!['Δ']);
    lemma_trim_unbroken(target);
    assert(hex_part(target) =~= h);
    let x = seq!['Δ', '↦', '0', 'x'] + h;
    assert(x.last() == h.last());
    assert forall|i: int| 0 <= i < x.len() implies (#[trigger] x[i] != ',' && !is_space(x[i])) by {
        if i >= 4 {
            assert(x[i] == h[i - 4]);
        }
    }
}


/// An object that the reader takes back as printed: a data object is
/// constant, an atom carries its own name, attribute names are unique, and
/// every attribute binding is readable.
pub open spec fn readable(o: Object) -> bool {
    &&& object_sound(o)
    &&& keys_unique(o.attrs@)
    &&& forall|i: int| 0 <= i < o.attrs@.len() ==> readable_attr((#[trigger] o.attrs@[i]).0, (o.attrs@[i].1).0)
}

/// The printed atom binding.
pub open spec fn lam_text(o: Object) -> Seq<char> {
    seq!['λ', '↦'] + (o.lambda->0).0@
}

/// The printed datum binding.
pub open spec fn del_text(o: Object) -> Seq<char> {
    seq!['Δ', '↦', '0', 'x'] + hex4(bits16(o.delta->0))
}

/// The printed binding of the attribute at `j`.
pub open spec fn entry_text(o: Object, j: int) -> Seq<char> {
    attr_text(o.attrs@[j].0, (o.attrs@[j].1).0, (o.attrs@[j].1).1)
}

/// Some piece, trimmed, is the datum binding.
pub open spec fn seen_del(o: Object, r: Seq<Seq<char>>) -> bool {
    o.delta is Some && exists|i: int| 0 <= i < r.len() && #[trigger] trim(r[i]) == del_text(o)
}

/// Some piece, trimmed, is the atom binding.
pub open spec fn seen_lam(o: Object, r: Seq<Seq<char>>) -> bool {
    o.lambda is Some && exists|i: int| 0 <= i < r.len() && #[trigger] trim(r[i]) == lam_text(o)
}

/// Some piece, trimmed, is the binding of an attribute named `l`.
pub open spec fn seen_key(o: Object, r: Seq<Seq<char>>, l: Loc) -> bool {
    exists|i: int, j: int|
        0 <= i < r.len() && 0 <= j < o.attrs@.len() && o.attrs@[j].0 == l && #[trigger] trim(r[i])
            == #[trigger] entry_text(o, j)
}

/// The model after reading pieces `r` from model `m`.
pub open spec fn read_ok(o: Object, m: ObjectModel, r: Seq<Seq<char>>, res: ObjectModel) -> bool {
    &&& res.0 == if seen_del(o, r) { o.delta } else { m.0 }
    &&& res.1 == if seen_lam(o, r) { Some(((o.lambda->0).0@, (o.lambda->0).1)) } else { m.1 }
    &&& res.2 == (m.2 || seen_del(o, r))
    &&& forall|l: Loc| #[trigger] res.3.dom().contains(l) == (m.3.dom().contains(l) || seen_key(o, r, l))
    &&& forall|l: Loc| seen_key(o, r, l) ==> #[trigger] res.3[l] == lookup(o.attrs@, l)->0
    &&& forall|l: Loc| !seen_key(o, r, l) && m.3.dom().contains(l) ==> #[trigger] res.3[l] == m.3[l]
}

/// Every piece, trimmed, is one of the object's printed bindings.
pub open spec fn pieces_of(o: Object, r: Seq<Seq<char>>) -> bool {
    forall|i: int| 0 <= i < r.len() ==> object_parts(o).contains(#[trigger] trim(r[i]))
}

proof fn lemma_entry_value(o: Object, j: int)
    requires
        keys_unique(o.attrs@),
        0 <= j < o.attrs@.len(),
    ensures
        lookup(o.attrs@, o.attrs@[j].0) == Some(o.attrs@[j].1),
{
    crate::table::lemma_lookup_at(o.attrs@, o.attrs@[j].0, j);
}

/// Each printed binding is the atom's, the datum's, or an attribute's.
proof fn lemma_piece_kind(o: Object, x: Seq<char>)
    requires
        object_parts(o).contains(x),
    ensures
        (o.lambda is Some && x == lam_text(o)) || (o.delta is Some && x == del_text(o)) || exists|j: int|
            0 <= j < o.attrs@.len() && x == #[trigger] entry_text(o, j),
{
    let p = object_parts(o);
    let k = choose|k: int| 0 <= k < p.len() && p[k] == x;
    let lam: Seq<Seq<char>> = if o.lambda is Some { seq![lam_text(o)] } else { Seq::empty() };
    let del: Seq<Seq<char>> = if o.delta is Some { seq![del_text(o)] } else { Seq::empty() };
    let at = o.attrs@.map_values(|e: (Loc, (Seq<Loc>, bool))| attr_text(e.0, (e.1).0, (e.1).1));
    assert(p =~= lam + del + at);
    if k >= lam.len() + del.len() {
        let j = k - lam.len() - del.len();
        assert(x == entry_text(o, j));
    }
}

proof fn lemma_seen_front(o: Object, r: Seq<Seq<char>>, l: Loc)
    requires
        r.len() > 0,
    ensures
        seen_del(o, r) == ((o.delta is Some && trim(r[0]) == del_text(o)) || seen_del(o, r.drop_first())),
        seen_lam(o, r) == ((o.lambda is Some && trim(r[0]) == lam_text(o)) || seen_lam(o, r.drop_first())),
        seen_key(o, r, l) == ((exists|j: int| 0 <= j < o.attrs@.len() && o.attrs@[j].0 == l && trim(r[0]) == #[trigger] entry_text(o, j))
            || seen_key(o, r.drop_first(), l)),
{
    let t = r.drop_first();
    if seen_del(o, r) {
        let i = choose|i: int| 0 <= i < r.len() && #[trigger] trim(r[i]) == del_text(o);
        if i > 0 {
            assert(trim(t[i - 1]) == del_text(o));
        }
    }
    if seen_del(o, t) {
        let i = choose|i: int| 0 <= i < t.len() && #[trigger] trim(t[i]) == del_text(o);
        assert(trim(r[i + 1]) == del_text(o));
    }
    if o.delta is Some && trim(r[0]) == del_text(o) {
        assert(trim(r[0]) == del_text(o));
    }
    if seen_lam(o, r) {
        let i = choose|i: int| 0 <= i < r.len() && #[trigger] trim(r[i]) == lam_text(o);
        if i > 0 {
            assert(trim(t[i - 1]) == lam_text(o));
        }
    }
    if seen_lam(o, t) {
        let i = choose|i: int| 0 <= i < t.len() && #[trigger] trim(t[i]) == lam_text(o);
        assert(trim(r[i + 1]) == lam_text(o));
    }
    if seen_key(o, r, l) {
        let (i, j) = choose|i: int, j: int|
            0 <= i < r.len() && 0 <= j < o.attrs@.len() && o.attrs@[j].0 == l && #[trigger] trim(r[i])
                == #[trigger] entry_text(o, j);
        if i > 0 {
            assert(trim(t[i - 1]) == entry_text(o, j));
        }
    }
    if seen_key(o, t, l) {
        let (i, j) = choose|i: int, j: int|
            0 <= i < t.len() && 0 <= j < o.attrs@.len() && o.attrs@[j].0 == l && #[trigger] trim(t[i])
                == #[trigger] entry_text(o, j);
        assert(trim(r[i + 1]) == entry_text(o, j));
    }
    if exists|j: int| 0 <= j < o.attrs@.len() && o.attrs@[j].0 == l && trim(r[0]) == #[trigger] entry_text(o, j) {
        let j = choose|j: int| 0 <= j < o.attrs@.len() && o.attrs@[j].0 == l && trim(r[0]) == #[trigger] entry_text(o, j);
        assert(trim(r[0]) == entry_text(o, j));
    }
}

/// Two attributes with the same printed binding have the same name.
proof fn lemma_entry_key(o: Object, j: int, k: int)
    requires
        readable(o),
        0 <= j < o.attrs@.len(),
        0 <= k < o.attrs@.len(),
        entry_text(o, j) == entry_text(o, k),
    ensures
        o.attrs@[j].0 == o.attrs@[k].0,
{
    let a = o.attrs@[j];
    let b = o.attrs@[k];
    assert(readable_attr(a.0, (a.1).0));
    assert(readable_attr(b.0, (b.1).0));
    lemma_loc_plain(a.0);
    lemma_loc_plain(b.0);
    lemma_locator_plain((a.1).0);
    lemma_locator_plain((b.1).0);
    let ta = locator_text((a.1).0) + suffix((a.1).0, (a.1).1);
    let tb = locator_text((b.1).0) + suffix((b.1).0, (b.1).1);
    assert(plain(suffix((a.1).0, (a.1).1)));
    assert(plain(suffix((b.1).0, (b.1).1)));
    lemma_plain_concat(locator_text((a.1).0), suffix((a.1).0, (a.1).1));
    lemma_plain_concat(locator_text((b.1).0), suffix((b.1).0, (b.1).1));
    assert(entry_text(o, j) =~= loc_text(a.0) + seq!['↦'] + ta);
    assert(entry_text(o, k) =~= loc_text(b.0) + seq!['↦'] + tb);
    lemma_split_two(loc_text(a.0), ta, '↦');
    lemma_split_two(loc_text(b.0), tb, '↦');
    assert(loc_text(a.0) == loc_text(b.0));
    lemma_loc_round_trip(a.0);
    lemma_loc_round_trip(b.0);
}

/// Reading printed bindings in any order, from any model.
#[verifier::rlimit(100)]
proof fn lemma_read(o: Object, m: ObjectModel, r: Seq<Seq<char>>)
    requires
        readable(o),
        pieces_of(o, r),
    ensures
        apply_pairs(m, r) matches Some(res) && read_ok(o, m, r, res),
    decreases r.len(),
{
    if r.len() == 0 {
        assert(!seen_del(o, r));
        assert(!seen_lam(o, r));
        assert forall|l: Loc| !seen_key(o, r, l) by {}
        assert(read_ok(o, m, r, m));
    } else {
        let x = trim(r[0]);
        let rest = r.drop_first();
        assert(object_parts(o).contains(x));
        assert forall|i: int| 0 <= i < rest.len() implies object_parts(o).contains(#[trigger] trim(rest[i])) by {
            assert(trim(rest[i]) == trim(r[i + 1]));
        }
        lemma_piece_kind(o, x);
        assert forall|j: int| 0 <= j < o.attrs@.len() implies (#[trigger] entry_text(o, j))[0] != 'λ'
            && entry_text(o, j)[0] != 'Δ' by {
            lemma_attr_part(m, o.attrs@[j].0, (o.attrs@[j].1).0, (o.attrs@[j].1).1);
        }
        if o.lambda is Some {
            lemma_lambda_part(m, (o.lambda->0).0@, (o.lambda->0).1);
        }
        if o.delta is Some {
            lemma_delta_part(m, o.delta->0);
        }
        if o.lambda is Some && x == lam_text(o) {
            let m2: ObjectModel = (m.0, Some(((o.lambda->0).0@, (o.lambda->0).1)), m.2, m.3);
            assert(apply_pair(m, x) == Some(m2));
            lemma_read(o, m2, rest);
            let res = apply_pairs(m2, rest)->0;
            assert forall|l: Loc| #![auto] seen_key(o, r, l) == seen_key(o, rest, l) by {
                lemma_seen_front(o, r, l);
            }
            lemma_seen_front(o, r, Loc::Phi);
            assert(read_ok(o, m, r, res));
        } else if o.delta is Some && x == del_text(o) {
            let m2: ObjectModel = (o.delta, m.1, true, m.3);
            assert(apply_pair(m, x) == Some(m2));
            lemma_read(o, m2, rest);
            let res = apply_pairs(m2, rest)->0;
            assert forall|l: Loc| #![auto] seen_key(o, r, l) == seen_key(o, rest, l) by {
                lemma_seen_front(o, r, l);
            }
            lemma_seen_front(o, r, Loc::Phi);
            assert(read_ok(o, m, r, res));
        } else {
            let j = choose|j: int| 0 <= j < o.attrs@.len() && x == #[trigger] entry_text(o, j);
            let key = o.attrs@[j].0;
            lemma_attr_part(m, key, (o.attrs@[j].1).0, (o.attrs@[j].1).1);
            let m2: ObjectModel = (m.0, m.1, m.2, m.3.insert(key, o.attrs@[j].1));
            assert(apply_pair(m, x) == Some(m2));
            lemma_read(o, m2, rest);
            let res = apply_pairs(m2, rest)->0;
            lemma_entry_value(o, j);
            lemma_seen_front(o, r, Loc::Phi);
            assert forall|l: Loc| #[trigger] res.3.dom().contains(l) == (m.3.dom().contains(l) || seen_key(o, r, l)) by {
                lemma_seen_front(o, r, l);
                if l == key {
                    assert(seen_key(o, r, l));
                } else {
                    if exists|k: int| 0 <= k < o.attrs@.len() && o.attrs@[k].0 == l && trim(r[0]) == #[trigger] entry_text(o, k) {
                        let k = choose|k: int| 0 <= k < o.attrs@.len() && o.attrs@[k].0 == l && trim(r[0]) == #[trigger] entry_text(o, k);
                        lemma_entry_key(o, j, k);
                    }
                }
            }
            assert forall|l: Loc| seen_key(o, r, l) implies #[trigger] res.3[l] == lookup(o.attrs@, l)->0 by {
                lemma_seen_front(o, r, l);
                if !seen_key(o, rest, l) {
                    let k = choose|k: int| 0 <= k < o.attrs@.len() && o.attrs@[k].0 == l && trim(r[0]) == #[trigger] entry_text(o, k);
                    lemma_entry_key(o, j, k);
                    assert(l == key);
                }
            }
            assert forall|l: Loc| !seen_key(o, r, l) && m.3.dom().contains(l) implies #[trigger] res.3[l] == m.3[l] by {
                lemma_seen_front(o, r, l);
                if l == key {
                    assert(seen_key(o, r, l));
                }
            }
            assert(read_ok(o, m, r, res));
        }
    }
}

proof fn lemma_insert_contains(x: Seq<char>, t: Seq<Seq<char>>, y: Seq<char>)
    ensures
        crate::text::insert_sorted(x, t).contains(y) == (y == x || t.contains(y)),
    decreases t.len(),
{
    let r = crate::text::insert_sorted(x, t);
    if t.len() == 0 {
        if y == x {
            assert(r[0] == y);
        }
    } else if crate::text::seq_le(x, t[0]) {
        assert(r =~= seq![x] + t);
        if y == x {
            assert(r[0] == y);
        }
        if t.contains(y) {
            let k = choose|k: int| 0 <= k < t.len() && t[k] == y;
            assert(r[k + 1] == y);
        }
        if r.contains(y) && y != x {
            let k = choose|k: int| 0 <= k < r.len() && r[k] == y;
            assert(t[k - 1] == y);
        }
    } else {
        let u = crate::text::insert_sorted(x, t.drop_first());
        lemma_insert_contains(x, t.drop_first(), y);
        assert(r =~= seq![t[0]] + u);
        if r.contains(y) {
            let k = choose|k: int| 0 <= k < r.len() && r[k] == y;
            if k == 0 {
                assert(t[0] == y);
            } else {
                assert(u[k - 1] == y);
                if t.drop_first().contains(y) {
                    let q = choose|q: int| 0 <= q < t.drop_first().len() && t.drop_first()[q] == y;
                    assert(t[q + 1] == y);
                }
            }
        }
        if y == x {
            let k = choose|k: int| 0 <= k < u.len() && u[k] == y;
            assert(r[k + 1] == y);
        }
        if t.contains(y) {
            let k = choose|k: int| 0 <= k < t.len() && t[k] == y;
            if k == 0 {
                assert(r[0] == y);
            } else {
                assert(t.drop_first()[k - 1] == y);
                let q = choose|q: int| 0 <= q < u.len() && u[q] == y;
                assert(r[q + 1] == y);
            }
        }
    }
}

/// Sorting keeps every element and adds none.
proof fn lemma_sort_contains(s: Seq<Seq<char>>, y: Seq<char>)
    ensures
        sort_seqs(s).contains(y) == s.contains(y),
    decreases s.len(),
{
    if s.len() > 0 {
        lemma_sort_contains(s.drop_last(), y);
        lemma_insert_contains(s.last(), sort_seqs(s.drop_last()), y);
        if s.contains(y) && y != s.last() {
            let k = choose|k: int| 0 <= k < s.len() && s[k] == y;
            assert(s.drop_last()[k] == y);
        }
        if s.drop_last().contains(y) {
            let k = choose|k: int| 0 <= k < s.drop_last().len() && s.drop_last()[k] == y;
            assert(s[k] == y);
        }
        if y == s.last() {
            assert(s[s.len() - 1] == y);
        }
    }
}

/// The shape of a printed binding: not empty, no comma or space, not
/// starting with `!`.
proof fn lemma_part_shape(o: Object, x: Seq<char>)
    requires
        readable(o),
        object_parts(o).contains(x),
    ensures
        x.len() > 0,
        !is_space(x[0]),
        !is_space(x.last()),
        x[0] != '!',
        unbroken(x),
        lacks(x, ','),
{
    let m: ObjectModel = (None, None, false, Map::empty());
    lemma_piece_kind(o, x);
    if o.lambda is Some && x == lam_text(o) {
        lemma_lambda_part(m, (o.lambda->0).0@, (o.lambda->0).1);
        assert(x[0] == 'λ');
    } else if o.delta is Some && x == del_text(o) {
        lemma_delta_part(m, o.delta->0);
        assert(x[0] == 'Δ');
    } else {
        let j = choose|j: int| 0 <= j < o.attrs@.len() && x == #[trigger] entry_text(o, j);
        lemma_attr_part(m, o.attrs@[j].0, (o.attrs@[j].1).0, (o.attrs@[j].1).1);
    }
}

/// The pieces of a text joined with `, ` are those of the same text joined
/// with `,`, each piece but the first led by a space.
pub open spec fn spaced(s: Seq<Seq<char>>) -> Seq<Seq<char>> {
    Seq::new(s.len(), |i: int| if i == 0 { s[0] } else { seq![' '] + s[i] })
}

proof fn lemma_join_spaced(s: Seq<Seq<char>>)
    ensures
        join(s, seq![',', ' ']) == join(spaced(s), seq![',']),
    decreases s.len(),
{
    if s.len() > 1 {
        lemma_join_spaced(s.drop_last());
        assert(spaced(s).drop_last() =~= spaced(s.drop_last()));
        assert(spaced(s).last() == seq![' '] + s.last());
        assert(join(s, seq![',', ' ']) =~= join(spaced(s), seq![',']));
    } else if s.len() == 1 {
        assert(spaced(s)[0] == s[0]);
    }
}

/// The printed bindings of an object, sorted.
pub open spec fn sorted_parts(o: Object) -> Seq<Seq<char>> {
    sort_seqs(object_parts(o))
}

/// Each sorted binding is one of the object's, with the printed shape.
proof fn lemma_sorted_shape(o: Object)
    requires
        readable(o),
    ensures
        forall|x: Seq<char>| #[trigger] sorted_parts(o).contains(x) ==> object_parts(o).contains(x) && x.len() > 0
            && !is_space(x[0]) && !is_space(x.last()) && x[0] != '!' && unbroken(x) && lacks(x, ','),
        forall|x: Seq<char>| #[trigger] object_parts(o).contains(x) ==> sorted_parts(o).contains(x),
{
    assert forall|x: Seq<char>| #[trigger] sorted_parts(o).contains(x) implies object_parts(o).contains(x) && x.len() > 0
        && !is_space(x[0]) && !is_space(x.last()) && x[0] != '!' && unbroken(x) && lacks(x, ',') by {
        lemma_sort_contains(object_parts(o), x);
        lemma_part_shape(o, x);
    }
    assert forall|x: Seq<char>| #[trigger] object_parts(o).contains(x) implies sorted_parts(o).contains(x) by {
        lemma_sort_contains(object_parts(o), x);
    }
}

/// Where the reader finds the bindings in a printed object.
#[verifier::rlimit(100)]
proof fn lemma_text_frame(o: Object)
    requires
        readable(o),
    ensures
        sorted_parts(o).len() == 0 ==> parse_object(object_text(o)) == Some((None::<crate::data::Data>, None::<(Seq<char>, Atom)>, o.constant, Map::<Loc, (Seq<Loc>, bool)>::empty())),
        sorted_parts(o).len() > 0 ==> parse_object(object_text(o)) == match apply_pairs((None, None, false, Map::empty()), split(join(sorted_parts(o), seq![',', ' ']), ',')) {
            Some(m) => Some(if o.constant { (m.0, m.1, true, m.3) } else { m }),
            None => None,
        },
{
    let srt = sorted_parts(o);
    lemma_sorted_shape(o);
    let j = join(srt, seq![',', ' ']);
    let bang_text: Seq<char> = if o.constant { seq!['!', ' '] } else { Seq::empty() };
    let text = object_text(o);
    assert(text =~= seq!['⟦'] + bang_text + j + seq!['⟧']);
    let z = text.len() - 1;
    assert(crate::text::is_first(text, '⟦', 0, 0));
    assert(crate::text::first_of(text, '⟦', 0) == Some(0int)) by {
        let k = choose|k: int| crate::text::is_first(text, '⟦', 0, k);
        if k > 0 {
            assert(text[0] != '⟦');
        }
    }
    assert(crate::text::is_last(text, '⟧', z));
    assert(crate::text::last_of(text, '⟧') == Some(z)) by {
        let k = choose|k: int| crate::text::is_last(text, '⟧', k);
        if k < z {
            assert(text[z] != '⟧');
        }
    }
    if srt.len() > 0 {
        assert(srt.contains(srt[0]));
        assert(srt.contains(srt.last()));
        lemma_join_last(srt, seq![',', ' ']);
        lemma_join_first(srt, seq![',', ' ']);
        lemma_trim_lead(j);
    }
    let bang = 0 + 1 < z && text[1] == '!';
    assert(bang == o.constant) by {
        if !o.constant && srt.len() > 0 {
            assert(text[1] == j[0]);
        }
    }
    let start: int = if bang { 2 } else { 1 };
    if o.constant {
        assert(text.subrange(start, z) =~= seq![' '] + j);
    } else {
        assert(text.subrange(start, z) =~= j);
    }
    if srt.len() == 0 {
        assert(j.len() == 0);
        if o.constant {
            assert(seq![' '].drop_first() =~= Seq::<char>::empty());
            assert(is_space(seq![' '][0]));
            assert(trim_start(seq![' ']) == trim_start(Seq::<char>::empty()));
        }
        assert(trim(text.subrange(start, z)).len() == 0);
    } else {
        assert(trim(text.subrange(start, z)) == j);
    }
}

/// Splitting the joined bindings at commas gives them back, each but the
/// first led by a space.
proof fn lemma_split_sorted(o: Object)
    requires
        readable(o),
        sorted_parts(o).len() > 0,
    ensures
        split(join(sorted_parts(o), seq![',', ' ']), ',') == spaced(sorted_parts(o)),
        pieces_of(o, spaced(sorted_parts(o))),
        forall|i: int| 0 <= i < sorted_parts(o).len() ==> trim(#[trigger] spaced(sorted_parts(o))[i]) == sorted_parts(o)[i],
{
    let srt = sorted_parts(o);
    lemma_sorted_shape(o);
    let sp = spaced(srt);
    lemma_join_spaced(srt);
    assert forall|i: int| 0 <= i < sp.len() implies lacks(#[trigger] sp[i], ',') by {
        assert(srt.contains(srt[i]));
        if i > 0 {
            assert(sp[i] == seq![' '] + srt[i]);
            assert forall|q: int| 0 <= q < sp[i].len() implies #[trigger] sp[i][q] != ',' by {
                if q > 0 {
                    assert(sp[i][q] == srt[i][q - 1]);
                }
            }
        }
    }
    lemma_split_join(sp, ',');
    assert forall|i: int| 0 <= i < sp.len() implies trim(#[trigger] sp[i]) == srt[i] by {
        assert(srt.contains(srt[i]));
        lemma_trim_lead(srt[i]);
    }
    assert forall|i: int| 0 <= i < sp.len() implies object_parts(o).contains(#[trigger] trim(sp[i])) by {
        assert(trim(sp[i]) == srt[i]);
        assert(srt.contains(srt[i]));
    }
}

/// Reading all the bindings of an object gives its model.
#[verifier::rlimit(100)]
proof fn lemma_read_all(o: Object)
    requires
        readable(o),
        sorted_parts(o).len() > 0,
    ensures
        apply_pairs((None, None, false, Map::empty()), spaced(sorted_parts(o))) matches Some(m)
            && (if o.constant { (m.0, m.1, true, m.3) } else { m }) == object_model(o),
{
    let srt = sorted_parts(o);
    let p = object_parts(o);
    let sp = spaced(srt);
    let m0: ObjectModel = (None, None, false, Map::empty());
    lemma_sorted_shape(o);
    lemma_split_sorted(o);
    lemma_read(o, m0, sp);
    let res = apply_pairs(m0, sp)->0;
    let lam: Seq<Seq<char>> = if o.lambda is Some { seq![lam_text(o)] } else { Seq::empty() };
    let del: Seq<Seq<char>> = if o.delta is Some { seq![del_text(o)] } else { Seq::empty() };
    let at = o.attrs@.map_values(|e: (Loc, (Seq<Loc>, bool))| attr_text(e.0, (e.1).0, (e.1).1));
    assert(p =~= lam + del + at);
    assert forall|x: Seq<char>| p.contains(x) implies exists|i: int| 0 <= i < sp.len() && #[trigger] trim(sp[i]) == x by {
        assert(srt.contains(x));
        let k = choose|k: int| 0 <= k < srt.len() && srt[k] == x;
        assert(trim(sp[k]) == x);
    }
    if o.delta is Some {
        assert(p[lam.len() as int] == del_text(o));
        assert(p.contains(del_text(o)));
    }
    if o.lambda is Some {
        assert(p[0] == lam_text(o));
        assert(p.contains(lam_text(o)));
    }
    assert(seen_del(o, sp) == (o.delta is Some));
    assert(seen_lam(o, sp) == (o.lambda is Some));
    assert forall|l: Loc| #[trigger] seen_key(o, sp, l) == (lookup(o.attrs@, l) is Some) by {
        crate::table::lemma_lookup_has(o.attrs@, l);
        if crate::table::has_key(o.attrs@, l) {
            let q = choose|q: int| 0 <= q < o.attrs@.len() && (#[trigger] o.attrs@[q]).0 == l;
            assert(p[lam.len() + del.len() + q] == entry_text(o, q));
            assert(p.contains(entry_text(o, q)));
            let i = choose|i: int| 0 <= i < sp.len() && #[trigger] trim(sp[i]) == entry_text(o, q);
            assert(seen_key(o, sp, l));
        }
        if seen_key(o, sp, l) {
            let (i, q) = choose|i: int, q: int|
                0 <= i < sp.len() && 0 <= q < o.attrs@.len() && o.attrs@[q].0 == l && #[trigger] trim(sp[i])
                    == #[trigger] entry_text(o, q);
            assert(crate::table::has_key(o.attrs@, l));
        }
    }
    assert(res.3 =~= attr_map(o.attrs@));
}

/// Text round trip: reading back the printed form of an object gives the
/// object: its datum, its atom, its constant flag and its attributes by name.
/// This holds for every object whose data object is constant, whose atom
/// carries its own name, whose attribute names are unique, and whose
/// attributes are readable: no attribute is named `Δ` (the datum's own
/// binding), and no name or locator has a negative argument index.
pub proof fn lemma_object_round_trip(o: Object)
    requires
        readable(o),
    ensures
        parse_object(object_text(o)) == Some(object_model(o)),
{
    lemma_text_frame(o);
    if sorted_parts(o).len() == 0 {
        let p = object_parts(o);
        lemma_sorted_shape(o);
        assert(p.len() == 0) by {
            if p.len() > 0 {
                assert(p.contains(p[0]));
                assert(sorted_parts(o).contains(p[0]));
            }
        }
        let at = o.attrs@.map_values(|e: (Loc, (Seq<Loc>, bool))| attr_text(e.0, (e.1).0, (e.1).1));
        let lam: Seq<Seq<char>> = if o.lambda is Some { seq![lam_text(o)] } else { Seq::empty() };
        let del: Seq<Seq<char>> = if o.delta is Some { seq![del_text(o)] } else { Seq::empty() };
        assert(p =~= lam + del + at);
        assert(o.attrs@.len() == 0);
        assert(attr_map(o.attrs@) =~= Map::<Loc, (Seq<Loc>, bool)>::empty());
    } else {
        lemma_split_sorted(o);
        lemma_read_all(o);
    }
}

/// A printed object has no line break, starts with `⟦` and ends with `⟧`.
proof fn lemma_object_text_shape(o: Object)
    requires
        readable(o),
    ensures
        lacks(object_text(o), '\n'),
        object_text(o).len() >= 2,
        object_text(o)[0] == '⟦',
        object_text(o).last() == '⟧',
{
    lemma_sorted_shape(o);
    let srt = sorted_parts(o);
    let j = join(srt, seq![',', ' ']);
    lemma_join_spaced(srt);
    let sp = spaced(srt);
    assert forall|k: int| 0 <= k < sp.len() implies lacks(#[trigger] sp[k], '\n') by {
        assert(srt.contains(srt[k]));
        assert(unbroken(srt[k]));
        assert forall|q: int| 0 <= q < sp[k].len() implies #[trigger] sp[k][q] != '\n' by {
            if k > 0 {
                assert(sp[k] == seq![' '] + srt[k]);
                if q > 0 {
                    assert(sp[k][q] == srt[k][q - 1]);
                    assert(!is_space(srt[k][q - 1]));
                }
            } else {
                assert(!is_space(srt[k][q]));
            }
        }
    }
    lemma_join_lacks(sp, seq![','], '\n');
    let bang_text: Seq<char> = if o.constant { seq!['!', ' '] } else { Seq::empty() };
    assert(object_text(o) =~= seq!['⟦'] + bang_text + j + seq!['⟧']);
    assert forall|q: int| 0 <= q < object_text(o).len() implies #[trigger] object_text(o)[q] != '\n' by {
        let t = object_text(o);
        if 1 + bang_text.len() <= q < t.len() - 1 {
            assert(t[q] == j[q - 1 - bang_text.len()]);
        }
    }
}

/// Joining pieces none of which holds `c`, with a separator without `c`, gives a text without `c`.
proof fn lemma_join_lacks(p: Seq<Seq<char>>, sep: Seq<char>, c: char)
    requires
        lacks(sep, c),
        forall|i: int| 0 <= i < p.len() ==> lacks(#[trigger] p[i], c),
    ensures
        lacks(join(p, sep), c),
    decreases p.len(),
{
    if p.len() > 1 {
        lemma_join_lacks(p.drop_last(), sep, c);
        let a = join(p.drop_last(), sep);
        assert(lacks(p.last(), c)) by {
            assert(p.last() == p[p.len() - 1]);
        }
        assert forall|q: int| 0 <= q < join(p, sep).len() implies #[trigger] join(p, sep)[q] != c by {
            let t = a + sep + p.last();
            assert(join(p, sep) == t);
            if q < a.len() {
                assert(t[q] == a[q]);
            } else if q < a.len() + sep.len() {
                assert(t[q] == sep[q - a.len()]);
            } else {
                assert(t[q] == p.last()[q - a.len() - sep.len()]);
            }
        }
    } else if p.len() == 1 {
        assert(lacks(p[0], c));
    }
}

proof fn lemma_digit_run(x: Seq<char>, d: Seq<char>, i: int)
    requires
        crate::text::all_digits(d),
        1 <= i <= 1 + d.len() as int,
        x.len() > 1 + d.len() as int,
        x.subrange(1, 1 + d.len() as int) == d,
        !crate::text::is_digit(x[1 + d.len() as int]),
    ensures
        crate::emu::digit_run_end(x, i) == 1 + d.len() as int,
    decreases 1 + d.len() as int - i,
{
    if i < 1 + d.len() as int {
        assert(x[i] == d[i - 1]);
        lemma_digit_run(x, d, i + 1);
    }
}

/// Reading a program line gives the slot and the object's model.
proof fn lemma_line_object(n: nat, o: Object)
    requires
        readable(o),
        n <= usize::MAX,
    ensures
        crate::emu::line_object(crate::emu::object_line(n, o)) == Some((n, object_model(o))),
        lacks(crate::emu::object_line(n, o), '\n'),
        crate::emu::object_line(n, o)[0] == 'ν',
        crate::emu::object_line(n, o).last() == '⟧',
{
    let x = crate::emu::object_line(n, o);
    let d = decimal(n);
    let t = object_text(o);
    lemma_decimal_round_trip(n);
    lemma_object_text_shape(o);
    lemma_object_round_trip(o);
    let j: int = 1 + d.len() as int;
    assert(x =~= seq!['ν'] + d + seq!['(', '𝜋', ')', ' ', '↦', ' '] + t);
    assert(crate::text::is_first(x, 'ν', 0, 0));
    assert(crate::text::first_of(x, 'ν', 0) == Some(0int)) by {
        let k = choose|k: int| crate::text::is_first(x, 'ν', 0, k);
        if k > 0 {
            assert(x[0] != 'ν');
        }
    }
    assert(x.subrange(1, j) =~= d);
    assert(x[j] == '(');
    lemma_digit_run(x, d, 1);
    assert(x.subrange(j, j + 7) =~= seq!['(', '𝜋', ')', ' ', '↦', ' ', '⟦']);
    assert(x.subrange(j + 6, x.len() as int) =~= t);
    assert forall|q: int| 0 <= q < x.len() implies #[trigger] x[q] != '\n' by {
        if q >= j + 6 {
            assert(x[q] == t[q - j - 6]);
        } else if 1 <= q < j {
            assert(x[q] == d[q - 1]);
            assert(crate::text::is_digit(d[q - 1]));
        }
    }
    assert(x.last() == t.last());
}

proof fn lemma_load_push(ms: Seq<ObjectModel>, a: Seq<Seq<char>>, x: Seq<char>)
    ensures
        crate::emu::load_lines(ms, a.push(x)) == match crate::emu::load_lines(ms, a) {
            Some(m2) => crate::emu::load_line(m2, x),
            None => None,
        },
    decreases a.len(),
{
    if a.len() == 0 {
        assert(a.push(x).drop_first() =~= Seq::<Seq<char>>::empty());
        assert(a.push(x)[0] == x);
        assert(crate::emu::load_lines(ms, a) == Some(ms));
        match crate::emu::load_line(ms, x) {
            Some(m2) => {
                assert(crate::emu::load_lines(m2, Seq::<Seq<char>>::empty()) == Some(m2));
            },
            None => {},
        }
    } else {
        assert(a.push(x).drop_first() =~= a.drop_first().push(x));
        assert(a.push(x)[0] == a[0]);
        match crate::emu::load_line(ms, a[0]) {
            Some(m2) => lemma_load_push(m2, a.drop_first(), x),
            None => {},
        }
    }
}

/// The models of the slots below `i`, the other slots empty.
pub open spec fn prefix_models(objs: Seq<Object>, i: int) -> Seq<ObjectModel> {
    Seq::new(crate::emu::MAX_OBJECTS as nat, |k: int| if k < i {
        object_model(objs[k])
    } else {
        (None::<crate::data::Data>, None::<(Seq<char>, Atom)>, false, Map::<Loc, (Seq<Loc>, bool)>::empty())
    })
}

/// An arena whose program text reads back: sixteen slots, every non-empty
/// object readable, no empty object marked constant.
pub open spec fn readable_arena(objs: Seq<Object>) -> bool {
    &&& objs.len() == crate::emu::MAX_OBJECTS
    &&& forall|i: int| 0 <= i < objs.len() ==> (crate::object::object_is_empty(#[trigger] objs[i]) ==> !objs[i].constant)
    &&& forall|i: int| 0 <= i < objs.len() ==> (!crate::object::object_is_empty(#[trigger] objs[i]) ==> readable(objs[i]))
}

proof fn lemma_load_prefix(objs: Seq<Object>, i: int)
    requires
        readable_arena(objs),
        0 <= i <= objs.len(),
    ensures
        crate::emu::load_lines(prefix_models(objs, 0), crate::emu::program_lines(objs, i)) == Some(prefix_models(objs, i)),
        forall|k: int| 0 <= k < crate::emu::program_lines(objs, i).len() ==> {
            let l = #[trigger] crate::emu::program_lines(objs, i)[k];
            lacks(l, '\n') && l.len() > 0 && l[0] == 'ν' && l.last() == '⟧'
        },
    decreases i,
{
    if i > 0 {
        lemma_load_prefix(objs, i - 1);
        let o = objs[i - 1];
        let pl = crate::emu::program_lines(objs, i - 1);
        if !crate::object::object_is_empty(o) {
            let x = crate::emu::object_line((i - 1) as nat, o);
            lemma_line_object((i - 1) as nat, o);
            lemma_load_push(prefix_models(objs, 0), pl, x);
            lemma_trim_lead(x);
            let ms = prefix_models(objs, i - 1);
            assert(crate::emu::model_empty(ms[i - 1])) by {
                assert(ms[i - 1].3.dom() =~= Set::<Loc>::empty());
            }
            assert(ms.update(i - 1, object_model(o)) =~= prefix_models(objs, i));
            assert(crate::emu::program_lines(objs, i) == pl.push(x));
            assert forall|k: int| 0 <= k < pl.push(x).len() implies {
                let l = #[trigger] pl.push(x)[k];
                lacks(l, '\n') && l.len() > 0 && l[0] == 'ν' && l.last() == '⟧'
            } by {
                if k < pl.len() {
                    assert(pl.push(x)[k] == pl[k]);
                }
            }
        } else {
            crate::emu::lemma_model_empty(o);
            assert(object_model(o).3 =~= Map::<Loc, (Seq<Loc>, bool)>::empty());
            assert(prefix_models(objs, i - 1) =~= prefix_models(objs, i));
        }
    }
}

/// Text round trip for the whole engine: reading back the program text of an
/// arena gives the models of all its objects.
pub proof fn lemma_program_round_trip(objs: Seq<Object>)
    requires
        readable_arena(objs),
    ensures
        crate::emu::parse_program(crate::emu::program_text_spec(objs)) == Some(crate::emu::models(objs)),
{
    let n = objs.len() as int;
    lemma_load_prefix(objs, n);
    let l = crate::emu::program_lines(objs, n);
    let text = crate::emu::program_text_spec(objs);
    let init = Seq::new(crate::emu::MAX_OBJECTS as nat, |i: int| (None::<crate::data::Data>, None::<(Seq<char>, Atom)>, false, Map::<Loc, (Seq<Loc>, bool)>::empty()));
    assert(init =~= prefix_models(objs, 0));
    assert(prefix_models(objs, n) =~= crate::emu::models(objs));
    if l.len() == 0 {
        assert(text.len() == 0);
        assert(trim(text) =~= Seq::<char>::empty()) by {
            assert(trim_start(text) == text);
        }
        assert(split(trim(text), '\n') =~= seq![Seq::<char>::empty()]);
        assert(seq![Seq::<char>::empty()].drop_first() =~= Seq::<Seq<char>>::empty());
        assert(trim(Seq::<char>::empty()).len() == 0) by {
            assert(trim_start(Seq::<char>::empty()) == Seq::<char>::empty());
        }
        assert(crate::emu::load_lines(init, Seq::<Seq<char>>::empty()) == Some(init));
    } else {
        assert(l[0].len() > 0 && l[0][0] == 'ν');
        assert(l.last() == l[l.len() - 1]);
        lemma_join_first(l, seq!['\n']);
        lemma_join_last(l, seq!['\n']);
        lemma_trim_lead(text);
        assert forall|k: int| 0 <= k < l.len() implies lacks(#[trigger] l[k], '\n') by {}
        lemma_split_join(l, '\n');
    }
}

} // verus!
