//! Small association lists keyed by attribute name, as kept by objects and baskets.

use vstd::prelude::*;
use crate::loc::Loc;

verus! {

/// The value bound to the first entry named `l`.
pub open spec fn lookup<V>(s: Seq<(Loc, V)>, l: Loc) -> Option<V>
    decreases s.len(),
{
    if s.len() == 0 {
        None
    } else if s[0].0 == l {
        Some(s[0].1)
    } else {
        lookup(s.drop_first(), l)
    }
}

/// No two entries share a name.
pub open spec fn keys_unique<V>(s: Seq<(Loc, V)>) -> bool {
    forall|i: int, j: int| 0 <= i < j < s.len() ==> (#[trigger] s[i]).0 != (#[trigger] s[j]).0
}

/// Whether a name has an entry.
pub open spec fn has_key<V>(s: Seq<(Loc, V)>, l: Loc) -> bool {
    exists|i: int| 0 <= i < s.len() && (#[trigger] s[i]).0 == l
}

/// The first entry named `l` sits at `i`.
pub proof fn lemma_lookup_at<V>(s: Seq<(Loc, V)>, l: Loc, i: int)
    requires
        0 <= i < s.len(),
        s[i].0 == l,
        forall|j: int| 0 <= j < i ==> (#[trigger] s[j]).0 != l,
    ensures
        lookup(s, l) == Some(s[i].1),
    decreases i,
{
    if i > 0 {
        lemma_lookup_at(s.drop_first(), l, i - 1);
    }
}

/// No entry is named `l`.
pub proof fn lemma_lookup_none<V>(s: Seq<(Loc, V)>, l: Loc)
    requires
        forall|j: int| 0 <= j < s.len() ==> (#[trigger] s[j]).0 != l,
    ensures
        lookup(s, l) is None,
        !has_key(s, l),
    decreases s.len(),
{
    if s.len() > 0 {
        lemma_lookup_none(s.drop_first(), l);
    }
}

/// A name has an entry exactly when the lookup finds one.
pub proof fn lemma_lookup_has<V>(s: Seq<(Loc, V)>, l: Loc)
    ensures
        lookup(s, l) is Some <==> has_key(s, l),
    decreases s.len(),
{
    if s.len() > 0 {
        lemma_lookup_has(s.drop_first(), l);
        if has_key(s, l) && s[0].0 != l {
            let i = choose|i: int| 0 <= i < s.len() && (#[trigger] s[i]).0 == l;
            assert(s.drop_first()[i - 1].0 == l);
        }
        if has_key(s.drop_first(), l) {
            let i = choose|i: int| 0 <= i < s.len() - 1 && (#[trigger] s.drop_first()[i]).0 == l;
            assert(s[i + 1].0 == l);
        }
    }
}

/// Rebinding the first entry named `l` changes the lookup of `l` alone.
pub proof fn lemma_lookup_update<V>(s: Seq<(Loc, V)>, l: Loc, i: int, v: V, m: Loc)
    requires
        0 <= i < s.len(),
        s[i].0 == l,
        forall|j: int| 0 <= j < i ==> (#[trigger] s[j]).0 != l,
    ensures
        lookup(s.update(i, (l, v)), m) == if m == l {
            Some(v)
        } else {
            lookup(s, m)
        },
    decreases i,
{
    if i == 0 {
        assert(s.update(i, (l, v)).drop_first() =~= s.drop_first());
    } else {
        lemma_lookup_update(s.drop_first(), l, i - 1, v, m);
        assert(s.update(i, (l, v)).drop_first() =~= s.drop_first().update(i - 1, (l, v)));
    }
}

/// Appending an entry named `l`, where none was, binds `l` and keeps the rest.
pub proof fn lemma_lookup_push<V>(s: Seq<(Loc, V)>, l: Loc, v: V, m: Loc)
    requires
        forall|j: int| 0 <= j < s.len() ==> (#[trigger] s[j]).0 != l,
    ensures
        lookup(s.push((l, v)), m) == if m == l {
            Some(v)
        } else {
            lookup(s, m)
        },
    decreases s.len(),
{
    if s.len() == 0 {
        assert(s.push((l, v)).drop_first() =~= Seq::<(Loc, V)>::empty());
        assert(lookup(Seq::<(Loc, V)>::empty(), m) is None);
        assert(lookup(s, m) is None);
    } else {
        assert forall|j: int| 0 <= j < s.drop_first().len() implies (#[trigger] s.drop_first()[j]).0
            != l by {
            assert(s.drop_first()[j] == s[j + 1]);
        }
        lemma_lookup_push(s.drop_first(), l, v, m);
        assert(s.push((l, v)).drop_first() =~= s.drop_first().push((l, v)));
        assert(s.push((l, v))[0] == s[0]);
    }
}

} // verus!
