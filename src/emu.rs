//! The engine: an arena of objects, a pool of baskets, and the transitions
//! that rewrite them until the root basket holds a datum.

use vstd::prelude::*;
use crate::atom::{atom_value, operand_locs, Atom};
use crate::basket::{wait_entries, Basket, Bk, Kid};
use crate::data::Data;
use crate::loc::Loc;
use crate::locator::Locator;
use crate::object::{object_is_empty, object_model, Ob, Object};
use crate::perf::{bump_n, bump_seq, capped, sum_counts, Perf, Transition};
use crate::loc::quoted;
use crate::table::lookup;
use crate::text::{join, split, trim, views, chars_of, find_char, parse_decimal, push_decimal, push_str, slice_of, split_at_char, string_of, trim_chars};

verus! {

/// The root basket.
pub const ROOT_BK: Bk = 0;

/// The root object.
pub const ROOT_OB: Ob = 0;

/// The capacity of the object arena.
pub const MAX_OBJECTS: usize = 16;

/// The capacity of the basket pool.
pub const MAX_BASKETS: usize = 128;

/// The number of cycles after which a run stops, when asked to.
pub const MAX_CYCLES: usize = 65536;

/// The number of steps after which path resolution gives up.
pub const MAX_STEPS: usize = 1024;

/// Options of a run.
#[derive(Debug, Clone, Copy, PartialEq, Eq, Hash, Structural)]
pub enum Opt {
    DontDelete,
    LogSnapshots,
    StopWhenTooManyCycles,
    StopWhenStuck,
}

/// Why the engine stopped without a result.
#[derive(Debug, Clone, Copy, PartialEq, Eq, Structural)]
pub enum Fault {
    /// A locator led to an empty object slot.
    EmptyTarget(Ob),
    /// A ξ-step was taken where there is no live ξ.
    NoXi,
    /// An object has neither the attribute nor a `𝜑` to inherit it through.
    NoAttr(Loc),
    /// A locator has no steps.
    EmptyLocator,
    /// Path resolution did not end within its step bound.
    TooDeep,
    /// The basket pool is full.
    PoolExhausted,
    /// A cycle changed nothing.
    Stuck,
    /// The cycle bound was passed.
    Runaway,
    /// The slot is already occupied.
    Occupied,
}

/// The engine's state.
#[derive(Debug)]
pub struct Emu {
    pub objects: Vec<Object>,
    pub baskets: Vec<Basket>,
    pub opts: Vec<Opt>,
}

/// What a search returns: the target object, the ξ to bind, and where the
/// target physically lives, if anywhere.
pub type Found = (Ob, Bk, Option<(Bk, Loc)>);

impl Emu {
    /// Both arenas have their fixed sizes.
    pub open spec fn wf(&self) -> bool {
        self.objects@.len() == MAX_OBJECTS && self.baskets@.len() == MAX_BASKETS
    }

    /// A basket slot in use.
    pub open spec fn live(&self, b: int) -> bool {
        0 <= b < self.baskets@.len() && self.baskets@[b].psi >= 0
    }

    /// The state of an attribute of a basket.
    pub open spec fn kid(&self, b: int, l: Loc) -> Option<Kid> {
        lookup(self.baskets@[b].kids@, l)
    }

    /// The attribute names of a basket, in order.
    pub open spec fn keys(&self, b: int) -> Seq<Loc> {
        self.baskets@[b].kids@.map_values(|e: (Loc, Kid)| e.0)
    }

    /// The object in a slot, if the slot exists.
    pub open spec fn obj(&self, ob: int) -> Option<Object> {
        if 0 <= ob < self.objects@.len() {
            Some(self.objects@[ob])
        } else {
            None
        }
    }

    /// The binding of an attribute of an object.
    pub open spec fn object_attr(&self, ob: int, l: Loc) -> Option<(Seq<Loc>, bool)> {
        if 0 <= ob < self.objects@.len() {
            lookup(self.objects@[ob].attrs@, l)
        } else {
            None
        }
    }

    /// Whether an option is set.
    pub open spec fn has(&self, o: Opt) -> bool {
        self.opts@.contains(o)
    }

    /// Every live `Wait(b, _)` points at a live basket.
    pub open spec fn no_dangling(&self) -> bool {
        forall|b: int, l: Loc|
            #![trigger self.kid(b, l)]
            self.live(b) && self.kid(b, l) is Some && self.kid(b, l)->0 is Wait ==> self.live(
                self.kid(b, l)->0->Wait_0 as int,
            )
    }

    /// Whether basket `b` could stand for object `tob` in context `tpsi`: it is
    /// live, instantiates `tob`, and `tob` is a data object, or a constant one
    /// in the same context.
    pub open spec fn stashable(&self, b: int, tob: Ob, tpsi: Bk) -> bool {
        &&& self.live(b)
        &&& self.baskets@[b].ob == tob
        &&& self.obj(tob as int) matches Some(o)
        &&& (o.delta is Some || (o.constant && self.baskets@[b].psi == tpsi))
    }

    /// No two live baskets stand for the same data object, nor for the same
    /// constant object in the same context.
    pub open spec fn sharing_safe(&self) -> bool {
        forall|b1: int, b2: int|
            #![trigger self.stashable(b1, self.baskets@[b2].ob, self.baskets@[b2].psi)]
            b1 != b2 && self.live(b2) ==> !self.stashable(
                b1,
                self.baskets@[b2].ob,
                self.baskets@[b2].psi,
            )
    }

    /// The objects, options and the shape of every basket are kept; only the
    /// states of existing kids may differ.
    pub open spec fn same_shape(&self, other: &Emu) -> bool {
        &&& other.objects@ == self.objects@
        &&& other.opts@ == self.opts@
        &&& other.baskets@.len() == self.baskets@.len()
        &&& forall|b: int|
            0 <= b < self.baskets@.len() ==> (#[trigger] other.baskets@[b]).ob
                == self.baskets@[b].ob && other.baskets@[b].psi == self.baskets@[b].psi
                && other.keys(b) == self.keys(b)
    }
}

/// A datum, once in a basket that stays live, stays.
pub open spec fn frozen(before: &Emu, after: &Emu) -> bool {
    forall|b: int, l: Loc|
        #![trigger after.kid(b, l)]
        before.live(b) && after.live(b) && before.kid(b, l) is Some && before.kid(b, l)->0 is Dtzd
            ==> after.kid(b, l) == before.kid(b, l)
}

/// No basket stops being live.
pub open spec fn live_kept(before: &Emu, after: &Emu) -> bool {
    forall|b: int| #[trigger] before.live(b) ==> after.live(b)
}

/// Frozen data stay frozen across two steps that release no basket.
pub proof fn lemma_frozen_trans(a: &Emu, b: &Emu, c: &Emu)
    requires
        frozen(a, b),
        frozen(b, c),
        live_kept(a, b),
    ensures
        frozen(a, c),
{
    assert forall|x: int, l: Loc|
        a.live(x) && c.live(x) && a.kid(x, l) is Some && a.kid(x, l)->0 is Dtzd implies #[trigger] c.kid(
        x,
        l,
    ) == a.kid(x, l) by {
        assert(b.live(x));
        assert(b.kid(x, l) == a.kid(x, l));
    }
}

impl Emu {
    /// Sets the state of one kid.
    fn set_kid(&mut self, b: usize, l: Loc, k: Kid)
        requires
            b < old(self).baskets@.len(),
        ensures
            final(self).objects@ == old(self).objects@,
            final(self).opts@ == old(self).opts@,
            final(self).baskets@.len() == old(self).baskets@.len(),
            forall|j: int|
                0 <= j < old(self).baskets@.len() && j != b ==> #[trigger] final(self).baskets@[j]
                    == old(self).baskets@[j],
            final(self).baskets@[b as int].ob == old(self).baskets@[b as int].ob,
            final(self).baskets@[b as int].psi == old(self).baskets@[b as int].psi,
            forall|m: Loc| #[trigger] final(self).kid(b as int, m) == if m == l {
                Some(k)
            } else {
                old(self).kid(b as int, m)
            },
            old(self).kid(b as int, l) is Some ==> final(self).keys(b as int) == old(self).keys(
                b as int,
            ),
    {
        self.baskets[b].put(l, k);
    }

    /// An engine with empty arenas and the root basket, whose `𝜑` is requested.
    pub fn empty() -> (r: Emu)
        ensures
            r.wf(),
            r.opts@.len() == 0,
            forall|i: int| 0 <= i < MAX_OBJECTS ==> object_is_empty(#[trigger] r.objects@[i]) && !r.objects@[i].constant,
            fresh_pool(r),
            r.live(ROOT_BK as int),
            r.baskets@[0].ob == ROOT_OB,
            r.baskets@[0].psi == 0,
            forall|l: Loc| #[trigger] r.kid(0, l) == if l == Loc::Phi {
                Some(Kid::Rqtd)
            } else {
                None
            },
            forall|i: int| 1 <= i < MAX_BASKETS ==> !(#[trigger] r.live(i)) && r.baskets@[i].kids@.len() == 0,
            r.no_dangling(),
            r.sharing_safe(),
    {
        let mut objects: Vec<Object> = Vec::new();
        let mut i: usize = 0;
        while i < MAX_OBJECTS
            invariant
                i <= MAX_OBJECTS,
                objects@.len() == i,
                forall|j: int| 0 <= j < i ==> object_is_empty(#[trigger] objects@[j]) && !objects@[j].constant,
            decreases MAX_OBJECTS - i,
        {
            objects.push(Object::open());
            i = i + 1;
        }
        let mut baskets: Vec<Basket> = Vec::new();
        let mut root = Basket::start(ROOT_OB, 0);
        root.put(Loc::Phi, Kid::Rqtd);
        baskets.push(root);
        let mut i: usize = 1;
        while i < MAX_BASKETS
            invariant
                1 <= i <= MAX_BASKETS,
                baskets@.len() == i,
                baskets@[0].psi == 0,
                baskets@[0].ob == ROOT_OB,
                forall|l: Loc| #[trigger] lookup(baskets@[0].kids@, l) == if l == Loc::Phi {
                    Some(Kid::Rqtd)
                } else {
                    None
                },
                forall|j: int| 1 <= j < i ==> (#[trigger] baskets@[j]).psi < 0 && baskets@[j].kids@.len() == 0,
            decreases MAX_BASKETS - i,
        {
            baskets.push(Basket::empty());
            i = i + 1;
        }
        let r = Emu { objects, baskets, opts: Vec::new() };
        assert forall|b1: int, b2: int|
            b1 != b2 && r.live(b2) implies !#[trigger] r.stashable(
            b1,
            r.baskets@[b2].ob,
            r.baskets@[b2].psi,
        ) by {
            if b1 == 0 {
                assert(!r.live(b2));
            }
        }
        r
    }

    /// Sets an option of the run.
    pub fn opt(&mut self, opt: Opt)
        ensures
            final(self).objects@ == old(self).objects@,
            final(self).baskets@ == old(self).baskets@,
            forall|o: Opt| #[trigger] final(self).has(o) == (old(self).has(o) || o == opt),
    {
        self.opts.push(opt);
        assert forall|o: Opt| #[trigger] self.has(o) == (old(self).has(o) || o == opt) by {
            if o == opt {
                assert(self.opts@[self.opts@.len() - 1] == opt);
            }
            if old(self).has(o) {
                let k = choose|k: int| 0 <= k < old(self).opts@.len() && old(self).opts@[k] == o;
                assert(self.opts@[k] == o);
            }
        }
    }

    /// Whether an option is set.
    pub fn has_opt(&self, opt: Opt) -> (r: bool)
        ensures
            r == self.has(opt),
    {
        let mut i: usize = 0;
        while i < self.opts.len()
            invariant
                i <= self.opts.len(),
                forall|j: int| 0 <= j < i ==> self.opts@[j] != opt,
            decreases self.opts.len() - i,
        {
            if self.opts[i] == opt {
                return true;
            }
            i = i + 1;
        }
        false
    }

    /// Installs an object in an empty slot.
    pub fn put(&mut self, ob: Ob, obj: Object) -> (r: Result<(), Fault>)
        ensures
            r is Ok <==> (ob < old(self).objects@.len() && object_is_empty(old(self).objects@[ob as int])),
            r is Ok ==> final(self).objects@ == old(self).objects@.update(ob as int, obj),
            r is Err ==> final(self).objects@ == old(self).objects@,
            final(self).baskets@ == old(self).baskets@,
            final(self).opts@ == old(self).opts@,
    {
        if ob >= self.objects.len() || !self.objects[ob].is_empty() {
            return Err(Fault::Occupied);
        }
        self.objects.set(ob, obj);
        Ok(())
    }

    /// Places a basket in an unused slot.
    pub fn inject(&mut self, bk: Bk, bsk: Basket) -> (r: Result<(), Fault>)
        ensures
            r is Ok <==> (0 <= bk < old(self).baskets@.len() && old(self).baskets@[bk as int].psi < 0),
            r is Ok ==> final(self).baskets@ == old(self).baskets@.update(bk as int, bsk),
            r is Err ==> final(self).baskets@ == old(self).baskets@,
            final(self).objects@ == old(self).objects@,
            final(self).opts@ == old(self).opts@,
    {
        if bk < 0 || bk as usize >= self.baskets.len() || !self.baskets[bk as usize].is_empty() {
            return Err(Fault::Occupied);
        }
        self.baskets.set(bk as usize, bsk);
        Ok(())
    }

    /// The object in a slot.
    pub fn object(&self, ob: Ob) -> (r: &Object)
        requires
            ob < self.objects@.len(),
        ensures
            *r == self.objects@[ob as int],
    {
        &self.objects[ob]
    }

    /// The basket in a slot.
    pub fn basket(&self, bk: Bk) -> (r: &Basket)
        requires
            0 <= bk < self.baskets@.len(),
        ensures
            *r == self.baskets@[bk as int],
    {
        &self.baskets[bk as usize]
    }

    /// Reads a datum for an atom: an empty kid becomes requested and gives
    /// nothing yet; a dataized kid gives its datum; any other gives nothing.
    pub fn read(&mut self, bk: Bk, loc: Loc) -> (r: Option<Data>)
        ensures
            final(self).same_shape(old(self)),
            0 <= bk < old(self).baskets@.len() ==> r == read_value(old(self).kid(bk as int, loc)),
            !(0 <= bk < old(self).baskets@.len()) ==> r is None,
            forall|b: int, l: Loc|
                0 <= b < old(self).baskets@.len() ==> #[trigger] final(self).kid(b, l) == if b == bk
                    && l == loc {
                    requested(old(self).kid(b, l))
                } else {
                    old(self).kid(b, l)
                },
    {
        if bk < 0 || bk as usize >= self.baskets.len() {
            return None;
        }
        let b = bk as usize;
        match self.baskets[b].kids.kid(loc) {
            Some(Kid::Empt) => {
                self.set_kid(b, loc, Kid::Rqtd);
                None
            },
            Some(Kid::Dtzd(d)) => Some(d),
            _ => None,
        }
    }
}

/// What an atom reads from a kid.
pub open spec fn read_value(k: Option<Kid>) -> Option<Data> {
    match k {
        Some(Kid::Dtzd(d)) => Some(d),
        _ => None,
    }
}

/// A kid after an atom has read it: an empty one becomes requested.
pub open spec fn requested(k: Option<Kid>) -> Option<Kid> {
    if k == Some(Kid::Empt) {
        Some(Kid::Rqtd)
    } else {
        k
    }
}

/// Only requests and data were written: every kid that changed was not a
/// datum before and is not a wait after.
pub open spec fn mild(before: &Emu, after: &Emu) -> bool {
    &&& after.same_shape(before)
    &&& forall|b: int, l: Loc|
        0 <= b < before.baskets@.len() ==> #[trigger] after.kid(b, l) == before.kid(b, l) || (
        before.kid(b, l) is Some && !(before.kid(b, l)->0 is Dtzd) && after.kid(b, l) is Some
            && !(after.kid(b, l)->0 is Wait))
}

/// A mild step keeps data, liveness, and both safety laws.
pub proof fn lemma_mild(before: &Emu, after: &Emu)
    requires
        mild(before, after),
    ensures
        frozen(before, after),
        live_kept(before, after),
        before.wf() ==> after.wf(),
        before.no_dangling() ==> after.no_dangling(),
        before.sharing_safe() ==> after.sharing_safe(),
{
    assert forall|b: int| #[trigger] before.live(b) implies after.live(b) by {
        assert(after.baskets@[b].psi == before.baskets@[b].psi);
    }
    assert forall|b: int| #[trigger] after.live(b) implies before.live(b) by {
        assert(after.baskets@[b].psi == before.baskets@[b].psi);
    }
    if before.no_dangling() {
        assert forall|b: int, l: Loc|
            after.live(b) && after.kid(b, l) is Some && after.kid(b, l)->0 is Wait implies after.live(
            #[trigger] after.kid(b, l)->0->Wait_0 as int,
        ) by {
            assert(before.live(b));
            assert(before.kid(b, l) == after.kid(b, l));
            let w = after.kid(b, l)->0->Wait_0 as int;
            assert(before.live(w));
        }
    }
    if before.sharing_safe() {
        assert forall|b1: int, b2: int|
            b1 != b2 && after.live(b2) implies !#[trigger] after.stashable(
            b1,
            after.baskets@[b2].ob,
            after.baskets@[b2].psi,
        ) by {
            assert(before.live(b2));
            assert(!before.stashable(b1, before.baskets@[b2].ob, before.baskets@[b2].psi));
            if 0 <= b1 < before.baskets@.len() {
                assert(after.baskets@[b1].ob == before.baskets@[b1].ob);
            }
        }
    }
}

/// Mild steps compose.
pub proof fn lemma_mild_trans(a: &Emu, b: &Emu, c: &Emu)
    requires
        mild(a, b),
        mild(b, c),
    ensures
        mild(a, c),
{
    assert forall|x: int| 0 <= x < a.baskets@.len() implies (#[trigger] c.baskets@[x]).ob
        == a.baskets@[x].ob && c.baskets@[x].psi == a.baskets@[x].psi && c.keys(x) == a.keys(x) by {
        assert(b.baskets@[x].ob == a.baskets@[x].ob);
    }
    assert forall|x: int, l: Loc|
        0 <= x < a.baskets@.len() implies #[trigger] c.kid(x, l) == a.kid(x, l) || (a.kid(x, l) is Some
        && !(a.kid(x, l)->0 is Dtzd) && c.kid(x, l) is Some && !(c.kid(x, l)->0 is Wait)) by {
        assert(b.kid(x, l) == a.kid(x, l) || (a.kid(x, l) is Some && !(a.kid(x, l)->0 is Dtzd)
            && b.kid(x, l) is Some && !(b.kid(x, l)->0 is Wait)));
        assert(c.kid(x, l) == b.kid(x, l) || (b.kid(x, l) is Some && !(b.kid(x, l)->0 is Dtzd)
            && c.kid(x, l) is Some && !(c.kid(x, l)->0 is Wait)));
    }
}

/// Whether `copy` acts on basket `bk`: it is live, its `𝜑` is requested, and
/// its object carries a datum.
pub open spec fn copy_ready(e: &Emu, bk: int) -> bool {
    &&& e.live(bk)
    &&& e.kid(bk, Loc::Phi) == Some(Kid::Rqtd)
    &&& e.obj(e.baskets@[bk].ob as int) matches Some(o)
    &&& o.delta is Some
}

/// Whether `delegate` acts on basket `bk`: it is live, its `𝜑` is requested,
/// none of its kids waits, and its object is atomic.
pub open spec fn delegate_ready(e: &Emu, bk: int) -> bool {
    &&& e.live(bk)
    &&& e.kid(bk, Loc::Phi) == Some(Kid::Rqtd)
    &&& !exists|i: int|
        0 <= i < e.baskets@[bk].kids@.len() && (#[trigger] e.baskets@[bk].kids@[i]).1 is Wait
    &&& e.obj(e.baskets@[bk].ob as int) matches Some(o)
    &&& o.lambda is Some
}

/// The atom of a basket's object.
pub open spec fn atom_of(e: &Emu, bk: int) -> Atom {
    (e.objects@[e.baskets@[bk].ob as int].lambda->0).1
}

/// Whether `delete` releases basket `bk`: it is live and not the root, its
/// object is not constant, all its kids are empty or dataized, and no live
/// basket has a kid waiting on it.
pub open spec fn delete_ready(e: &Emu, bk: int) -> bool {
    &&& bk != ROOT_BK
    &&& e.live(bk)
    &&& !(e.obj(e.baskets@[bk].ob as int) matches Some(o) && o.constant)
    &&& forall|i: int|
        0 <= i < e.baskets@[bk].kids@.len() ==> ((#[trigger] e.baskets@[bk].kids@[i]).1 is Empt
            || e.baskets@[bk].kids@[i].1 is Dtzd)
    &&& forall|b: int, i: int|
        e.live(b) && 0 <= i < e.baskets@[b].kids@.len() ==> !((#[trigger] e.baskets@[b].kids@[i]).1 is Wait
            && e.baskets@[b].kids@[i].1->Wait_0 == bk)
}

impl Emu {
    /// Copy: a requested `𝜑` of a basket of a data object gets the datum.
    pub fn copy(&mut self, perf: &mut Perf, bk: Bk)
        ensures
            copy_post(old(self), old(perf), final(self), final(perf), bk),
    {
        proof {
            crate::perf::lemma_bump_n_small(perf.hits@, Transition::CPY);
        }
        if 0 <= bk && (bk as usize) < self.baskets.len() && self.baskets[bk as usize].psi >= 0 {
            let b = bk as usize;
            if let Some(Kid::Rqtd) = self.baskets[b].kids.kid(Loc::Phi) {
                let ob = self.baskets[b].ob;
                if ob < self.objects.len() {
                    if let Some(d) = self.objects[ob].delta {
                        self.set_kid(b, Loc::Phi, Kid::Dtzd(d));
                        perf.hit(Transition::CPY);
                    }
                }
            }
        }
        perf.tick(Transition::CPY);
    }

    /// Delegate: the atom of a basket whose `𝜑` is requested runs once none of
    /// its kids waits; what it yields becomes the datum of `𝜑`.
    pub fn delegate(&mut self, perf: &mut Perf, bk: Bk)
        ensures
            delegate_post(old(self), old(perf), final(self), final(perf), bk),
    {
        proof {
            crate::perf::lemma_bump_n_small(perf.hits@, Transition::DLG);
        }
        if 0 <= bk && (bk as usize) < self.baskets.len() && self.baskets[bk as usize].psi >= 0 {
            let b = bk as usize;
            if let Some(Kid::Rqtd) = self.baskets[b].kids.kid(Loc::Phi) {
                if !self.baskets[b].kids.any_wait() {
                    let ob = self.baskets[b].ob;
                    if ob < self.objects.len() {
                        match &self.objects[ob].lambda {
                            Some(p) => {
                                let name = p.0.clone();
                                let a = p.1;
                                let ghost e0 = *self;
                                perf.hit(Transition::DLG);
                                let v = a.call(self, bk);
                                let ghost e1 = *self;
                                proof {
                                    assert forall|x: int, l: Loc| 0 <= x < e0.baskets@.len() implies
                                        #[trigger] e1.kid(x, l) == e0.kid(x, l) || (e0.kid(x, l) is Some
                                        && !(e0.kid(x, l)->0 is Dtzd) && e1.kid(x, l) is Some
                                        && !(e1.kid(x, l)->0 is Wait)) by {
                                        if x == bk && operand_locs(a, &e0, x).contains(l) {
                                        }
                                    }
                                    assert(operand_locs(a, &e0, bk as int).contains(Loc::Phi) ==> false) by {
                                        if operand_locs(a, &e0, bk as int).contains(Loc::Phi) {
                                            let k = choose|k: int| 0 <= k < operand_locs(a, &e0, bk as int).len()
                                                && operand_locs(a, &e0, bk as int)[k] == Loc::Phi;
                                        }
                                    }
                                }
                                assert(atom_of(&e0, bk as int) == a);
                                assert(delegate_ready(&e0, bk as int));
                                if let Some(d) = v {
                                    perf.atom(name);
                                    self.set_kid(b, Loc::Phi, Kid::Dtzd(d));
                                    proof {
                                        lemma_mild_trans(&e0, &e1, self);
                                    }
                                    assert forall|x: int, l: Loc| 0 <= x < e0.baskets@.len() implies #[trigger] self.kid(x, l) == if x == bk {
                                        if l == Loc::Phi {
                                            Some(Kid::Dtzd(d))
                                        } else if operand_locs(a, &e0, x).contains(l) {
                                            requested(e0.kid(x, l))
                                        } else {
                                            e0.kid(x, l)
                                        }
                                    } else {
                                        e0.kid(x, l)
                                    } by {
                                        if x != bk {
                                            assert(self.baskets@[x] == e1.baskets@[x]);
                                        }
                                    }
                                } else {
                                    assert forall|x: int, l: Loc| 0 <= x < e0.baskets@.len() implies #[trigger] self.kid(x, l) == if x == bk {
                                        if operand_locs(a, &e0, x).contains(l) {
                                            requested(e0.kid(x, l))
                                        } else {
                                            e0.kid(x, l)
                                        }
                                    } else {
                                        e0.kid(x, l)
                                    } by {
                                    }
                                }
                            },
                            None => {},
                        }
                    }
                }
            }
        }
        perf.tick(Transition::DLG);
    }

    /// Delete: a finished basket that nothing waits on is released.
    pub fn delete(&mut self, perf: &mut Perf, bk: Bk)
        ensures
            delete_post(old(self), old(perf), final(self), final(perf), bk),
    {
        proof {
            crate::perf::lemma_bump_n_small(perf.hits@, Transition::DEL);
        }
        perf.tick(Transition::DEL);
        if bk == ROOT_BK || bk < 0 || (bk as usize) >= self.baskets.len() || self.baskets[bk as usize].psi < 0 {
            return;
        }
        let b = bk as usize;
        let ob = self.baskets[b].ob;
        if ob < self.objects.len() && self.objects[ob].constant {
            return;
        }
        if !self.baskets[b].kids.all_settled() {
            return;
        }
        let mut i: usize = 0;
        while i < self.baskets.len()
            invariant
                i <= self.baskets.len(),
                counted(old(perf), perf, Transition::DEL, 0, None),
                forall|x: int, j: int|
                    0 <= x < i && self.live(x) && 0 <= j < self.baskets@[x].kids@.len() ==> !((#[trigger] self.baskets@[x].kids@[j]).1 is Wait
                        && self.baskets@[x].kids@[j].1->Wait_0 == bk),
            decreases self.baskets.len() - i,
        {
            if self.baskets[i].psi >= 0 && self.baskets[i].kids.waits_on(bk) {
                return;
            }
            i = i + 1;
        }
        let ghost e0 = *self;
        self.baskets.set(b, Basket::empty());
        perf.hit(Transition::DEL);
        proof {
            assert forall|x: int, l: Loc| self.live(x) implies !(#[trigger] self.kid(x, l) matches Some(Kid::Wait(w, _)) && w == bk) by {
                assert(e0.live(x));
                assert(self.kid(x, l) == e0.kid(x, l));
                if self.kid(x, l) matches Some(Kid::Wait(w, _)) {
                    lemma_lookup_some(e0.baskets@[x].kids@, l);
                }
            }
            if e0.no_dangling() {
                assert forall|x: int, l: Loc|
                    self.live(x) && self.kid(x, l) is Some && self.kid(x, l)->0 is Wait implies self.live(
                    #[trigger] self.kid(x, l)->0->Wait_0 as int,
                ) by {
                    assert(e0.live(x));
                    assert(self.kid(x, l) == e0.kid(x, l));
                }
            }
            if e0.sharing_safe() {
                assert forall|b1: int, b2: int|
                    b1 != b2 && self.live(b2) implies !#[trigger] self.stashable(
                    b1,
                    self.baskets@[b2].ob,
                    self.baskets@[b2].psi,
                ) by {
                    assert(e0.live(b2));
                    assert(!e0.stashable(b1, e0.baskets@[b2].ob, e0.baskets@[b2].psi));
                }
            }
        }
    }
}

/// The counters after a transition's guard was evaluated once, with `hits`
/// changes of state counted and, for an atom that yielded, one count for it.
pub open spec fn counted(before: &Perf, after: &Perf, t: Transition, hits: nat, atom: Option<Seq<char>>) -> bool {
    &&& after.ticks@ == bump_seq(before.ticks@, t)
    &&& after.hits@ == bump_n(before.hits@, t, hits)
    &&& after.atoms@ == match atom {
        Some(n) => bump_seq(before.atoms@, n),
        None => before.atoms@,
    }
    &&& after.cycles == before.cycles
    &&& after.peak == before.peak
}

/// The number of kids in live baskets below `i` that wait on `bk.loc`.
pub open spec fn waits_upto(e: &Emu, bk: Bk, loc: Loc, i: int) -> nat
    decreases i,
{
    if i <= 0 {
        0
    } else {
        waits_upto(e, bk, loc, i - 1) + if e.live(i - 1) {
            wait_entries(e.baskets@[i - 1].kids@, bk, loc)
        } else {
            0nat
        }
    }
}

/// Whether `propagate` acts on `bk.loc`: the basket is live and the kid holds a datum.
pub open spec fn propagate_ready(e: &Emu, bk: int, loc: Loc) -> bool {
    e.live(bk) && e.kid(bk, loc) is Some && e.kid(bk, loc)->0 is Dtzd
}

impl Emu {
    /// Propagate: every live kid waiting on `bk.loc` gets its datum.
    pub fn propagate(&mut self, perf: &mut Perf, bk: Bk, loc: Loc)
        ensures
            propagate_post(old(self), old(perf), final(self), final(perf), bk, loc),
    {
        let ghost p0 = *perf;
        perf.tick(Transition::PPG);
        if bk < 0 || (bk as usize) >= self.baskets.len() || self.baskets[bk as usize].psi < 0 {
            return;
        }
        let d = match self.baskets[bk as usize].kids.kid(loc) {
            Some(Kid::Dtzd(d)) => d,
            _ => {
                return;
            },
        };
        let ghost e0 = *self;
        let mut i: usize = 0;
        while i < self.baskets.len()
            invariant
                i <= self.baskets.len() == e0.baskets@.len(),
                self.same_shape(&e0),
                propagate_ready(&e0, bk as int, loc),
                e0.kid(bk as int, loc) == Some(Kid::Dtzd(d)),
                forall|b: int, l: Loc|
                    0 <= b < e0.baskets@.len() ==> #[trigger] self.kid(b, l) == if b < i && e0.live(b)
                        && e0.kid(b, l) == Some(Kid::Wait(bk, loc)) {
                        Some(Kid::Dtzd(d))
                    } else {
                        e0.kid(b, l)
                    },
                forall|b: int| i <= b < e0.baskets@.len() ==> #[trigger] self.baskets@[b] == e0.baskets@[b],
                counted(&p0, perf, Transition::PPG, waits_upto(&e0, bk, loc, i as int), None),
            decreases self.baskets.len() - i,
        {
            assert(self.baskets@[i as int] == e0.baskets@[i as int]);
            if self.baskets[i].psi >= 0 {
                let ghost e1 = *self;
                let changed = self.baskets[i].kids.settle(bk, loc, d);
                proof {
                    assert forall|b: int| 0 <= b < e0.baskets@.len() implies (#[trigger] self.baskets@[b]).ob
                        == e0.baskets@[b].ob && self.baskets@[b].psi == e0.baskets@[b].psi
                        && self.keys(b) == e0.keys(b) by {
                        if b != i {
                            assert(self.baskets@[b] == e1.baskets@[b]);
                        }
                    }
                    assert forall|b: int, l: Loc| 0 <= b < e0.baskets@.len() implies #[trigger] self.kid(b, l) == if b < i + 1 && e0.live(b)
                        && e0.kid(b, l) == Some(Kid::Wait(bk, loc)) {
                        Some(Kid::Dtzd(d))
                    } else {
                        e0.kid(b, l)
                    } by {
                        if b != i {
                            assert(self.baskets@[b] == e1.baskets@[b]);
                        } else {
                            assert(e1.kid(b, l) == e0.kid(b, l));
                        }
                    }
                }
                let mut k: usize = 0;
                while k < changed
                    invariant
                        k <= changed,
                        counted(&p0, perf, Transition::PPG, waits_upto(&e0, bk, loc, i as int) + k as nat, None),
                    decreases changed - k,
                {
                    perf.hit(Transition::PPG);
                    k = k + 1;
                }
            }
            i = i + 1;
        }
    }
}

impl Emu {
    /// Path resolution from a state: `locs` are the steps left, `ob` the
    /// object reached, `cur` the basket whose ξ a `𝜋` follows, `psi` the ξ to
    /// bind, `obk` the basket where attributes of `ob` live, `origin` the most
    /// recent attribute hop.
    pub open spec fn resolve(
        &self,
        locs: Seq<Loc>,
        ob: int,
        cur: int,
        psi: int,
        obk: int,
        origin: Option<(Bk, Loc)>,
        fuel: nat,
    ) -> Result<Found, Fault>
        decreases fuel,
    {
        if locs.len() == 0 {
            Ok((ob as Ob, psi as Bk, origin))
        } else if fuel == 0 {
            Err(Fault::TooDeep)
        } else {
            let loc = locs[0];
            let rest = locs.drop_first();
            match loc {
                Loc::Root => self.resolve(rest, ROOT_OB as int, cur, psi, obk, origin, (fuel - 1) as nat),
                Loc::Pi => {
                    let p = self.baskets@[cur].psi as int;
                    if p == ROOT_BK || !self.live(p) {
                        Err(Fault::NoXi)
                    } else {
                        self.resolve(
                            rest,
                            self.baskets@[p].ob as int,
                            p,
                            p,
                            p,
                            Some((p as Bk, Loc::Root)),
                            (fuel - 1) as nat,
                        )
                    }
                },
                Loc::Obj(n) => self.resolve(rest, n as int, cur, psi, obk, origin, (fuel - 1) as nat),
                _ => match self.object_attr(ob, loc) {
                    Some(a) => self.resolve(
                        a.0 + rest,
                        ob,
                        cur,
                        psi,
                        obk,
                        Some((obk as Bk, loc)),
                        (fuel - 1) as nat,
                    ),
                    None => match self.object_attr(ob, Loc::Phi) {
                        Some(a) => self.resolve(
                            a.0 + locs,
                            ob,
                            cur,
                            psi,
                            obk,
                            Some((obk as Bk, loc)),
                            (fuel - 1) as nat,
                        ),
                        None => Err(Fault::NoAttr(loc)),
                    },
                },
            }
        }
    }

    /// What `search` finds from basket `bk` along `locator`: resolution starts
    /// at the basket's object and ξ, and fails on an empty target.
    pub open spec fn search_spec(&self, bk: int, locator: Seq<Loc>) -> Result<Found, Fault> {
        if locator.len() == 0 {
            Err(Fault::EmptyLocator)
        } else {
            match self.resolve(
                locator,
                self.baskets@[bk].ob as int,
                bk,
                self.baskets@[bk].psi as int,
                bk,
                None,
                MAX_STEPS as nat,
            ) {
                Ok(f) => if (f.0 as int) < self.objects@.len() && !object_is_empty(self.objects@[f.0 as int]) {
                    Ok(f)
                } else {
                    Err(Fault::EmptyTarget(f.0))
                },
                Err(e) => Err(e),
            }
        }
    }
}

/// Resolution depends only on the objects and on the object and ξ of each basket.
pub proof fn lemma_resolve_frames(
    a: &Emu,
    b: &Emu,
    locs: Seq<Loc>,
    ob: int,
    cur: int,
    psi: int,
    obk: int,
    origin: Option<(Bk, Loc)>,
    fuel: nat,
)
    requires
        a.objects@ == b.objects@,
        a.baskets@.len() == b.baskets@.len(),
        forall|x: int| 0 <= x < a.baskets@.len() ==> (#[trigger] a.baskets@[x]).ob == b.baskets@[x].ob
            && a.baskets@[x].psi == b.baskets@[x].psi,
        0 <= cur < a.baskets@.len(),
    ensures
        a.resolve(locs, ob, cur, psi, obk, origin, fuel) == b.resolve(locs, ob, cur, psi, obk, origin, fuel),
    decreases fuel,
{
    if locs.len() > 0 && fuel > 0 {
        let loc = locs[0];
        let rest = locs.drop_first();
        match loc {
            Loc::Root => lemma_resolve_frames(a, b, rest, ROOT_OB as int, cur, psi, obk, origin, (fuel - 1) as nat),
            Loc::Pi => {
                let p = a.baskets@[cur].psi as int;
                if !(p == ROOT_BK || !a.live(p)) {
                    lemma_resolve_frames(a, b, rest, a.baskets@[p].ob as int, p, p, p, Some((p as Bk, Loc::Root)), (fuel - 1) as nat);
                }
            },
            Loc::Obj(n) => lemma_resolve_frames(a, b, rest, n as int, cur, psi, obk, origin, (fuel - 1) as nat),
            _ => match a.object_attr(ob, loc) {
                Some(x) => lemma_resolve_frames(a, b, x.0 + rest, ob, cur, psi, obk, Some((obk as Bk, loc)), (fuel - 1) as nat),
                None => match a.object_attr(ob, Loc::Phi) {
                    Some(x) => lemma_resolve_frames(a, b, x.0 + locs, ob, cur, psi, obk, Some((obk as Bk, loc)), (fuel - 1) as nat),
                    None => {},
                },
            },
        }
    }
}

/// Where resolution says a target lives is a live basket, when it starts from one.
pub proof fn lemma_resolve_origin(
    e: &Emu,
    locs: Seq<Loc>,
    ob: int,
    cur: int,
    psi: int,
    obk: int,
    origin: Option<(Bk, Loc)>,
    fuel: nat,
)
    requires
        e.wf(),
        e.live(cur),
        e.live(obk),
        0 <= psi <= isize::MAX,
        origin matches Some(o) ==> e.live(o.0 as int),
    ensures
        e.resolve(locs, ob, cur, psi, obk, origin, fuel) matches Ok(f) ==> (f.1 >= 0 && (f.2 matches Some(o) ==> e.live(o.0 as int))),
    decreases fuel,
{
    if locs.len() > 0 && fuel > 0 {
        let loc = locs[0];
        let rest = locs.drop_first();
        match loc {
            Loc::Root => lemma_resolve_origin(e, rest, ROOT_OB as int, cur, psi, obk, origin, (fuel - 1) as nat),
            Loc::Pi => {
                let p = e.baskets@[cur].psi as int;
                if !(p == ROOT_BK || !e.live(p)) {
                    lemma_resolve_origin(e, rest, e.baskets@[p].ob as int, p, p, p, Some((p as Bk, Loc::Root)), (fuel - 1) as nat);
                }
            },
            Loc::Obj(n) => lemma_resolve_origin(e, rest, n as int, cur, psi, obk, origin, (fuel - 1) as nat),
            _ => match e.object_attr(ob, loc) {
                Some(x) => lemma_resolve_origin(e, x.0 + rest, ob, cur, psi, obk, Some((obk as Bk, loc)), (fuel - 1) as nat),
                None => match e.object_attr(ob, Loc::Phi) {
                    Some(x) => lemma_resolve_origin(e, x.0 + locs, ob, cur, psi, obk, Some((obk as Bk, loc)), (fuel - 1) as nat),
                    None => {},
                },
            },
        }
    }
}

/// Resolver determinism: two states with the same objects, and the same object and
/// ξ in every basket, resolve every locator from every live basket alike, however
/// their kids differ.
pub proof fn lemma_search_deterministic(a: &Emu, b: &Emu, bk: int, locator: Seq<Loc>)
    requires
        a.objects@ == b.objects@,
        a.baskets@.len() == b.baskets@.len(),
        forall|x: int| 0 <= x < a.baskets@.len() ==> (#[trigger] a.baskets@[x]).ob == b.baskets@[x].ob
            && a.baskets@[x].psi == b.baskets@[x].psi,
        0 <= bk < a.baskets@.len(),
    ensures
        a.search_spec(bk, locator) == b.search_spec(bk, locator),
{
    assert(a.baskets@[bk].ob == b.baskets@[bk].ob);
    lemma_resolve_frames(a, b, locator, a.baskets@[bk].ob as int, bk, a.baskets@[bk].psi as int, bk, None, MAX_STEPS as nat);
}

/// All steps but the first.
fn rest_of(v: &Vec<Loc>) -> (r: Vec<Loc>)
    requires
        v@.len() > 0,
    ensures
        r@ == v@.drop_first(),
{
    let mut r: Vec<Loc> = Vec::new();
    let mut i: usize = 1;
    while i < v.len()
        invariant
            1 <= i <= v.len(),
            r@ == v@.subrange(1, i as int),
        decreases v.len() - i,
    {
        r.push(v[i]);
        i = i + 1;
        assert(r@ =~= v@.subrange(1, i as int));
    }
    assert(v@.subrange(1, v@.len() as int) =~= v@.drop_first());
    r
}

/// The steps of a locator followed by more steps.
fn prepend(p: &Locator, rest: &Vec<Loc>, from: usize) -> (r: Vec<Loc>)
    requires
        from <= rest@.len(),
    ensures
        r@ == p@ + rest@.subrange(from as int, rest@.len() as int),
{
    let mut r = p.to_vec();
    let ghost head = r@;
    let mut i: usize = from;
    while i < rest.len()
        invariant
            from <= i <= rest.len(),
            r@ == head + rest@.subrange(from as int, i as int),
        decreases rest.len() - i,
    {
        r.push(rest[i]);
        i = i + 1;
        assert(r@ =~= head + rest@.subrange(from as int, i as int));
    }
    r
}

impl Emu {
    /// Resolves a locator from basket `bk` to the target object, the ξ to bind
    /// for it, and the basket attribute where it lives, if any.
    pub fn search(&self, bk: Bk, locator: &Locator) -> (r: Result<Found, Fault>)
        requires
            self.wf(),
            0 <= bk < self.baskets@.len(),
        ensures
            r == self.search_spec(bk as int, locator@),
    {
        if locator.len() == 0 {
            return Err(Fault::EmptyLocator);
        }
        let b = bk as usize;
        let mut locs: Vec<Loc> = locator.to_vec();
        let mut ob: usize = self.baskets[b].ob;
        let mut cur: usize = b;
        let mut psi: isize = self.baskets[b].psi;
        let mut obk: isize = bk;
        let mut origin: Option<(Bk, Loc)> = None;
        let mut fuel: usize = MAX_STEPS;
        let ghost goal = self.resolve(
            locator@,
            self.baskets@[bk as int].ob as int,
            bk as int,
            self.baskets@[bk as int].psi as int,
            bk as int,
            None,
            MAX_STEPS as nat,
        );
        assert(goal == self.resolve(locs@, ob as int, cur as int, psi as int, obk as int, origin, fuel as nat));
        while locs.len() > 0
            invariant
                self.wf(),
                cur < self.baskets@.len(),
                0 <= bk < self.baskets@.len(),
                locator@.len() > 0,
                goal == self.resolve(
                    locator@,
                    self.baskets@[bk as int].ob as int,
                    bk as int,
                    self.baskets@[bk as int].psi as int,
                    bk as int,
                    None,
                    MAX_STEPS as nat,
                ),
                self.resolve(locs@, ob as int, cur as int, psi as int, obk as int, origin, fuel as nat) == goal,
            decreases fuel,
        {
            if fuel == 0 {
                assert(goal == Err::<Found, Fault>(Fault::TooDeep));
                return Err(Fault::TooDeep);
            }
            let loc = locs[0];
            let ghost rest = locs@.drop_first();
            let ghost (l0, o0, c0, p0, k0, g0) = (locs@, ob as int, cur as int, psi as int, obk as int, origin);
            assert(locs@.subrange(1, locs@.len() as int) =~= rest);
            match loc {
                Loc::Root => {
                    ob = ROOT_OB;
                    locs = rest_of(&locs);
                    assert(locs@ =~= rest);
                },
                Loc::Pi => {
                    let p = self.baskets[cur].psi;
                    if p == ROOT_BK || p < 0 || (p as usize) >= self.baskets.len() || self.baskets[p as usize].psi < 0 {
                        assert(goal == Err::<Found, Fault>(Fault::NoXi));
                        return Err(Fault::NoXi);
                    }
                    cur = p as usize;
                    psi = p;
                    obk = p;
                    ob = self.baskets[p as usize].ob;
                    origin = Some((p, Loc::Root));
                    locs = rest_of(&locs);
                    assert(locs@ =~= rest);
                    assert(self.resolve(l0, o0, c0, p0, k0, g0, fuel as nat) == self.resolve(rest, ob as int, cur as int, psi as int, obk as int, origin, (fuel - 1) as nat));
                },
                Loc::Obj(n) => {
                    ob = n;
                    locs = rest_of(&locs);
                    assert(locs@ =~= rest);
                },
                _ => {
                    let direct = if ob < self.objects.len() {
                        self.objects[ob].attrs.get(&loc)
                    } else {
                        None
                    };
                    match direct {
                        Some(a) => {
                            locs = prepend(&a.0, &locs, 1);
                            origin = Some((obk, loc));
                            assert(self.resolve(l0, o0, c0, p0, k0, g0, fuel as nat) == self.resolve(locs@, ob as int, cur as int, psi as int, obk as int, origin, (fuel - 1) as nat));
                        },
                        None => {
                            let via = if ob < self.objects.len() {
                                self.objects[ob].attrs.get(&Loc::Phi)
                            } else {
                                None
                            };
                            match via {
                                Some(a) => {
                                    locs = prepend(&a.0, &locs, 0);
                                    assert(l0.subrange(0, l0.len() as int) =~= l0);
                                    origin = Some((obk, loc));
                                    assert(self.resolve(l0, o0, c0, p0, k0, g0, fuel as nat) == self.resolve(locs@, ob as int, cur as int, psi as int, obk as int, origin, (fuel - 1) as nat));
                                },
                                None => {
                                    assert(goal == Err::<Found, Fault>(Fault::NoAttr(loc)));
                                    return Err(Fault::NoAttr(loc));
                                },
                            }
                        },
                    }
                },
            }
            fuel = fuel - 1;
        }
        assert(goal == Ok::<Found, Fault>((ob, psi, origin)));
        if ob < self.objects.len() && !self.objects[ob].is_empty() {
            Ok((ob, psi, origin))
        } else {
            Err(Fault::EmptyTarget(ob))
        }
    }
}

/// The kid that `find` leaves at `b.l`, given what the search returned.
pub open spec fn after_find(e: &Emu, bk: int, loc: Loc, f: Found, advice: bool, b: int, l: Loc) -> Option<Kid> {
    let tpsi = if advice { bk as Bk } else { f.1 };
    match f.2 {
        Some(o) => if e.kid(o.0 as int, o.1) == Some(Kid::Empt) {
            if b == o.0 && l == o.1 {
                Some(Kid::Wait(bk as Bk, loc))
            } else if b == bk && l == loc {
                Some(Kid::Need(f.0, tpsi))
            } else {
                e.kid(b, l)
            }
        } else if b == bk && l == loc {
            Some(Kid::Wait(o.0, o.1))
        } else {
            e.kid(b, l)
        },
        None => if b == bk && l == loc {
            Some(Kid::Need(f.0, tpsi))
        } else {
            e.kid(b, l)
        },
    }
}

/// Whether `find` acts on `bk.loc`: the basket is live, the kid is requested,
/// and the basket's object binds the attribute.
pub open spec fn find_ready(e: &Emu, bk: int, loc: Loc) -> bool {
    e.live(bk) && e.kid(bk, loc) == Some(Kid::Rqtd) && e.object_attr(e.baskets@[bk].ob as int, loc) is Some
}

/// The laws that every step keeps, and no basket stops being live.
pub open spec fn keeps_laws(before: &Emu, after: &Emu) -> bool {
    &&& frozen(before, after)
    &&& live_kept(before, after)
    &&& after.objects@ == before.objects@
    &&& after.opts@ == before.opts@
    &&& (before.wf() ==> after.wf())
    &&& (before.no_dangling() ==> after.no_dangling())
    &&& (before.sharing_safe() ==> after.sharing_safe())
}

impl Emu {
    /// Find: a requested kid is resolved along its attribute's locator. Where
    /// the target lives in an empty kid, that kid is set to wait on this one and
    /// this one needs a basket; where it lives elsewhere, this kid waits on it.
    pub fn find(&mut self, perf: &mut Perf, bk: Bk, loc: Loc) -> (r: Result<(), Fault>)
        requires
            old(self).wf(),
        ensures
            find_post(old(self), old(perf), final(self), final(perf), bk, loc, r),
    {
        proof {
            crate::perf::lemma_bump_n_small(perf.hits@, Transition::FIND);
        }
        perf.tick(Transition::FIND);
        if bk < 0 || (bk as usize) >= self.baskets.len() || self.baskets[bk as usize].psi < 0 {
            return Ok(());
        }
        let b = bk as usize;
        match self.baskets[b].kids.kid(loc) {
            Some(Kid::Rqtd) => {},
            _ => {
                return Ok(());
            },
        }
        let ob = self.baskets[b].ob;
        if ob >= self.objects.len() {
            return Ok(());
        }
        let (locator, advice) = match self.objects[ob].attrs.get(&loc) {
            Some(a) => (a.0.clone(), a.1),
            None => {
                return Ok(());
            },
        };
        let found = self.search(bk, &locator);
        let (tob, psi, attr) = match found {
            Ok(f) => f,
            Err(f) => {
                return Err(f);
            },
        };
        let ghost e0 = *self;
        proof {
            lemma_resolve_origin(&e0, locator@, e0.baskets@[bk as int].ob as int, bk as int, e0.baskets@[bk as int].psi as int, bk as int, None, MAX_STEPS as nat);
        }
        let tpsi = if advice { bk } else { psi };
        match attr {
            Some((pbk, ploc)) => {
                assert(e0.live(pbk as int));
                let pb = pbk as usize;
                assert(pb as int == pbk as int);
                if let Some(Kid::Empt) = self.baskets[pb].kids.kid(ploc) {
                    assert(e0.kid(pbk as int, ploc) == Some(Kid::Empt));
                    assert(pb != b || ploc != loc);
                    self.set_kid(pb, ploc, Kid::Wait(bk, loc));
                    let ghost e1 = *self;
                    self.set_kid(b, loc, Kid::Need(tob, tpsi));
                    proof {
                        assert forall|x: int, l: Loc| 0 <= x < e0.baskets@.len() implies #[trigger] self.kid(x, l) == after_find(&e0, bk as int, loc, (tob, psi, attr), advice, x, l) by {
                            if x == b && l == loc {
                                assert(self.kid(x, l) == Some(Kid::Need(tob, tpsi)));
                            } else if x == pb && l == ploc {
                                assert(self.kid(x, l) == e1.kid(x, l));
                                assert(e1.kid(x, l) == Some(Kid::Wait(bk, loc)));
                            } else {
                                if x == b {
                                    assert(self.kid(x, l) == e1.kid(x, l));
                                } else {
                                    assert(self.baskets@[x] == e1.baskets@[x]);
                                }
                                if x == pb {
                                    assert(e1.kid(x, l) == e0.kid(x, l));
                                } else {
                                    assert(e1.baskets@[x] == e0.baskets@[x]);
                                }
                            }
                        }
                    }
                } else {
                    self.set_kid(b, loc, Kid::Wait(pbk, ploc));
                }
            },
            None => {
                self.set_kid(b, loc, Kid::Need(tob, tpsi));
            },
        }
        perf.hit(Transition::FIND);
        proof {
            let e = *self;
            assert forall|x: int| 0 <= x < e0.baskets@.len() implies (#[trigger] e.baskets@[x]).ob
                == e0.baskets@[x].ob && e.baskets@[x].psi == e0.baskets@[x].psi && e.keys(x) == e0.keys(x) by {
                assert(e.kid(x, loc) == after_find(&e0, bk as int, loc, (tob, psi, attr), advice, x, loc));
            }
            assert forall|x: int| #[trigger] e0.live(x) implies e.live(x) by {
                assert(e.baskets@[x].psi == e0.baskets@[x].psi);
            }
            assert forall|x: int, l: Loc|
                e0.live(x) && e.live(x) && e0.kid(x, l) is Some && e0.kid(x, l)->0 is Dtzd implies #[trigger] e.kid(x, l) == e0.kid(x, l) by {
                assert(e.kid(x, l) == after_find(&e0, bk as int, loc, (tob, psi, attr), advice, x, l));
            }
            if e0.no_dangling() {
                assert forall|x: int, l: Loc|
                    e.live(x) && e.kid(x, l) is Some && e.kid(x, l)->0 is Wait implies e.live(
                    #[trigger] e.kid(x, l)->0->Wait_0 as int,
                ) by {
                    assert(e.kid(x, l) == after_find(&e0, bk as int, loc, (tob, psi, attr), advice, x, l));
                    assert(e0.live(x));
                }
            }
            if e0.sharing_safe() {
                assert forall|b1: int, b2: int|
                    b1 != b2 && e.live(b2) implies !#[trigger] e.stashable(
                    b1,
                    e.baskets@[b2].ob,
                    e.baskets@[b2].psi,
                ) by {
                    assert(e0.live(b2));
                    assert(!e0.stashable(b1, e0.baskets@[b2].ob, e0.baskets@[b2].psi));
                }
            }
        }
        Ok(())
    }
}

/// `b` is the first basket that could stand for `tob` in context `tpsi`.
pub open spec fn least_stash(e: &Emu, tob: Ob, tpsi: Bk, b: int) -> bool {
    e.stashable(b, tob, tpsi) && forall|j: int| 0 <= j < b ==> !#[trigger] e.stashable(j, tob, tpsi)
}

/// `f` is the lowest unused basket slot.
pub open spec fn least_free(e: &Emu, f: int) -> bool {
    0 <= f < e.baskets@.len() && !e.live(f) && forall|j: int| 0 <= j < f ==> #[trigger] e.live(j)
}

/// Whether `new` acts on `bk.loc`: the basket is live and the kid needs a
/// basket for an object slot in a live-able context.
pub open spec fn new_ready(e: &Emu, bk: int, loc: Loc) -> bool {
    &&& e.live(bk)
    &&& e.kid(bk, loc) is Some
    &&& e.kid(bk, loc)->0 is Need
    &&& e.kid(bk, loc)->0->Need_1 >= 0
    &&& (e.kid(bk, loc)->0->Need_0 as int) < e.objects@.len()
}

impl Emu {
    /// The first basket that could stand for `tob` in context `tpsi`.
    pub fn stashed(&self, tob: Ob, tpsi: Bk) -> (r: Option<usize>)
        ensures
            match r {
                Some(b) => least_stash(self, tob, tpsi, b as int),
                None => forall|j: int| 0 <= j < self.baskets@.len() ==> !#[trigger] self.stashable(j, tob, tpsi),
            },
    {
        let mut i: usize = 0;
        while i < self.baskets.len()
            invariant
                i <= self.baskets.len(),
                forall|j: int| 0 <= j < i ==> !#[trigger] self.stashable(j, tob, tpsi),
            decreases self.baskets.len() - i,
        {
            let bsk = &self.baskets[i];
            if bsk.psi >= 0 && bsk.ob == tob && tob < self.objects.len() {
                let obj = &self.objects[tob];
                if obj.delta.is_some() || (obj.constant && bsk.psi == tpsi) {
                    return Some(i);
                }
            }
            i = i + 1;
        }
        None
    }

    /// The lowest unused basket slot.
    fn free_slot(&self) -> (r: Option<usize>)
        ensures
            match r {
                Some(f) => least_free(self, f as int),
                None => forall|j: int| 0 <= j < self.baskets@.len() ==> #[trigger] self.live(j),
            },
    {
        let mut i: usize = 0;
        while i < self.baskets.len()
            invariant
                i <= self.baskets.len(),
                forall|j: int| 0 <= j < i ==> #[trigger] self.live(j),
            decreases self.baskets.len() - i,
        {
            if self.baskets[i].psi < 0 {
                return Some(i);
            }
            i = i + 1;
        }
        None
    }

    /// A fresh basket for an object: an empty kid for each of its attributes and
    /// a requested `𝜑`.
    fn fresh(&self, tob: Ob, tpsi: Bk) -> (r: Basket)
        requires
            tob < self.objects@.len(),
        ensures
            r.ob == tob,
            r.psi == tpsi,
            forall|l: Loc| #[trigger] lookup(r.kids@, l) == if l == Loc::Phi {
                Some(Kid::Rqtd)
            } else if self.object_attr(tob as int, l) is Some {
                Some(Kid::Empt)
            } else {
                None
            },
            forall|i: int| 0 <= i < r.kids@.len() ==> !((#[trigger] r.kids@[i]).1 is Wait),
    {
        let mut bsk = Basket::start(tob, tpsi);
        let keys = self.objects[tob].attrs.keys();
        let ghost attrs = self.objects@[tob as int].attrs@;
        let mut i: usize = 0;
        while i < keys.len()
            invariant
                i <= keys.len(),
                keys@ == attrs.map_values(|e: (Loc, (Seq<Loc>, bool))| e.0),
                attrs == self.objects@[tob as int].attrs@,
                tob < self.objects@.len(),
                bsk.ob == tob,
                bsk.psi == tpsi,
                forall|l: Loc| #[trigger] lookup(bsk.kids@, l) == if keys@.subrange(0, i as int).contains(l) {
                    Some(Kid::Empt)
                } else {
                    None
                },
                forall|j: int| 0 <= j < bsk.kids@.len() ==> (#[trigger] bsk.kids@[j]).1 == Kid::Empt,
            decreases keys.len() - i,
        {
            let ghost before = bsk.kids@;
            bsk.put(keys[i], Kid::Empt);
            proof {
                assert forall|l: Loc| #[trigger] lookup(bsk.kids@, l) == if keys@.subrange(0, i + 1).contains(l) {
                    Some(Kid::Empt)
                } else {
                    None
                } by {
                    if keys@.subrange(0, i as int).contains(l) {
                        let k = choose|k: int| 0 <= k < i && #[trigger] keys@.subrange(0, i as int)[k] == l;
                        assert(keys@.subrange(0, i + 1)[k] == l);
                    }
                    if l == keys@[i as int] {
                        assert(keys@.subrange(0, i + 1)[i as int] == l);
                    }
                    if keys@.subrange(0, i + 1).contains(l) && l != keys@[i as int] {
                        let k = choose|k: int| 0 <= k < i + 1 && #[trigger] keys@.subrange(0, i + 1)[k] == l;
                        assert(keys@.subrange(0, i as int)[k] == l);
                    }
                }
                assert forall|j: int| 0 <= j < bsk.kids@.len() implies (#[trigger] bsk.kids@[j]).1 == Kid::Empt by {
                    if j < before.len() && bsk.kids@[j] == before[j] {
                        assert(before[j].1 == Kid::Empt);
                    }
                }
            }
            i = i + 1;
        }
        let ghost before = bsk.kids@;
        bsk.put(Loc::Phi, Kid::Rqtd);
        assert forall|j: int| 0 <= j < bsk.kids@.len() implies !((#[trigger] bsk.kids@[j]).1 is Wait) by {
            if j < before.len() && bsk.kids@[j] == before[j] {
                assert(before[j].1 == Kid::Empt);
            }
        }
        assert forall|l: Loc| #[trigger] lookup(bsk.kids@, l) == if l == Loc::Phi {
            Some(Kid::Rqtd)
        } else if self.object_attr(tob as int, l) is Some {
            Some(Kid::Empt)
        } else {
            None
        } by {
            assert(keys@.subrange(0, keys@.len() as int) =~= keys@);
            lemma_keys_contain(attrs, l);
        }
        bsk
    }
}

impl Emu {
    /// New: a kid that needs a basket waits on the `𝜑` of a basket that may
    /// stand for it, or else of a fresh basket made in the lowest unused slot.
    pub fn new(&mut self, perf: &mut Perf, bk: Bk, loc: Loc) -> (r: Result<(), Fault>)
        requires
            old(self).wf(),
        ensures
            new_post(old(self), old(perf), final(self), final(perf), bk, loc, r),
    {
        proof {
            crate::perf::lemma_bump_n_small(perf.hits@, Transition::NEW);
        }
        perf.tick(Transition::NEW);
        if bk < 0 || (bk as usize) >= self.baskets.len() || self.baskets[bk as usize].psi < 0 {
            return Ok(());
        }
        let b = bk as usize;
        let (tob, tpsi) = match self.baskets[b].kids.kid(loc) {
            Some(Kid::Need(o, p)) => (o, p),
            _ => {
                return Ok(());
            },
        };
        if tpsi < 0 || tob >= self.objects.len() {
            return Ok(());
        }
        let ghost e0 = *self;
        match self.stashed(tob, tpsi) {
            Some(s) => {
                proof {
                    assert(least_stash(&e0, tob, tpsi, s as int));
                    let c = choose|c: int| least_stash(&e0, tob, tpsi, c);
                    if c < s {
                        assert(!e0.stashable(c, tob, tpsi));
                    } else if s < c {
                        assert(!e0.stashable(s as int, tob, tpsi));
                    }
                    assert(c == s);
                }
                self.set_kid(b, loc, Kid::Wait(s as Bk, Loc::Phi));
                perf.hit(Transition::NEW);
                proof {
                    let e = *self;
                    assert forall|x: int| 0 <= x < e0.baskets@.len() implies (#[trigger] e.baskets@[x]).ob
                        == e0.baskets@[x].ob && e.baskets@[x].psi == e0.baskets@[x].psi && e.keys(x) == e0.keys(x) by {
                        if x != b {
                            assert(e.baskets@[x] == e0.baskets@[x]);
                        }
                    }
                    assert forall|x: int, l: Loc| 0 <= x < e0.baskets@.len() implies #[trigger] e.kid(x, l) == if x == bk && l == loc {
                        Some(Kid::Wait(s as Bk, Loc::Phi))
                    } else {
                        e0.kid(x, l)
                    } by {
                        if x != b {
                            assert(e.baskets@[x] == e0.baskets@[x]);
                        }
                    }
                    lemma_one_kid_laws(&e0, &e, bk as int, loc, Kid::Wait(s as Bk, Loc::Phi));
                }
                Ok(())
            },
            None => {
                match self.free_slot() {
                    None => {
                        proof {
                            assert forall|f: int| !#[trigger] least_free(&e0, f) by {
                                if 0 <= f < e0.baskets@.len() {
                                    assert(e0.live(f));
                                }
                            }
                        }
                        Err(Fault::PoolExhausted)
                    },
                    Some(f) => {
                        proof {
                            assert(forall|c: int| !#[trigger] least_stash(&e0, tob, tpsi, c));
                            let c = choose|c: int| least_free(&e0, c);
                            if c < f {
                                assert(e0.live(c));
                            } else if f < c {
                                assert(e0.live(f as int));
                            }
                            assert(c == f);
                        }
                        let nb = self.fresh(tob, tpsi);
                        self.baskets.set(f, nb);
                        let ghost e1 = *self;
                        self.set_kid(b, loc, Kid::Wait(f as Bk, Loc::Phi));
                        perf.hit(Transition::NEW);
                        proof {
                            let e = *self;
                            assert(f != b);
                            assert forall|x: int| 0 <= x < e0.baskets@.len() && x != f implies (#[trigger] e.baskets@[x]).ob
                                == e0.baskets@[x].ob && e.baskets@[x].psi == e0.baskets@[x].psi by {
                                if x != b {
                                    assert(e.baskets@[x] == e1.baskets@[x]);
                                }
                            }
                            assert(e.baskets@[f as int] == e1.baskets@[f as int]);
                            assert forall|x: int, l: Loc| 0 <= x < e0.baskets@.len() && x != f && (x != bk || l != loc) implies #[trigger] e.kid(x, l) == e0.kid(x, l) by {
                                if x != b {
                                    assert(e.baskets@[x] == e1.baskets@[x]);
                                }
                            }
                            assert forall|x: int| #[trigger] e0.live(x) implies e.live(x) by {
                                if x != b && x != f {
                                    assert(e.baskets@[x] == e0.baskets@[x]);
                                }
                            }
                            assert forall|x: int, l: Loc|
                                e0.live(x) && e.live(x) && e0.kid(x, l) is Some && e0.kid(x, l)->0 is Dtzd implies #[trigger] e.kid(x, l) == e0.kid(x, l) by {
                                if x != b {
                                    assert(e.baskets@[x] == e1.baskets@[x]);
                                }
                            }
                            if e0.no_dangling() {
                                assert forall|x: int, l: Loc|
                                    e.live(x) && e.kid(x, l) is Some && e.kid(x, l)->0 is Wait implies e.live(
                                    #[trigger] e.kid(x, l)->0->Wait_0 as int,
                                ) by {
                                    if x == f {
                                        assert(e.kid(x, l) == e1.kid(x, l));
                                        assert(l == Loc::Phi || e1.object_attr(tob as int, l) is Some || e1.kid(x, l) is None);
                                    } else if x == bk && l == loc {
                                    } else {
                                        assert(e.kid(x, l) == e0.kid(x, l));
                                        assert(e0.live(x));
                                        let w = e0.kid(x, l)->0->Wait_0 as int;
                                        assert(e0.live(w));
                                        if w != b && w != f {
                                            assert(e.baskets@[w] == e0.baskets@[w]);
                                        }
                                    }
                                }
                            }
                            if e0.sharing_safe() {
                                assert forall|b1: int, b2: int|
                                    b1 != b2 && e.live(b2) implies !#[trigger] e.stashable(
                                    b1,
                                    e.baskets@[b2].ob,
                                    e.baskets@[b2].psi,
                                ) by {
                                    if b2 == f {
                                        if 0 <= b1 < e0.baskets@.len() {
                                            assert(!e0.stashable(b1, tob, tpsi));
                                            if b1 != b {
                                                assert(e.baskets@[b1] == e0.baskets@[b1]);
                                            }
                                        }
                                    } else if b1 == f {
                                        assert(e0.live(b2));
                                        assert(!e0.stashable(b2, tob, tpsi));
                                        if b2 != b {
                                            assert(e.baskets@[b2] == e0.baskets@[b2]);
                                        }
                                    } else {
                                        assert(e0.live(b2));
                                        assert(!e0.stashable(b1, e0.baskets@[b2].ob, e0.baskets@[b2].psi));
                                        if b2 != b {
                                            assert(e.baskets@[b2] == e0.baskets@[b2]);
                                        }
                                        if 0 <= b1 < e0.baskets@.len() && b1 != b {
                                            assert(e.baskets@[b1] == e0.baskets@[b1]);
                                        }
                                    }
                                }
                            }
                        }
                        Ok(())
                    },
                }
            },
        }
    }
}

/// Writing one kid that is not a datum over one that was not a datum, with a
/// wait only on a live basket, keeps the laws.
proof fn lemma_one_kid_laws(e0: &Emu, e: &Emu, bk: int, loc: Loc, k: Kid)
    requires
        e.same_shape(e0),
        e0.live(bk),
        e0.kid(bk, loc) is Some,
        !(e0.kid(bk, loc)->0 is Dtzd),
        k is Wait ==> e0.live(k->Wait_0 as int),
        forall|x: int, l: Loc| 0 <= x < e0.baskets@.len() ==> #[trigger] e.kid(x, l) == if x == bk && l == loc {
            Some(k)
        } else {
            e0.kid(x, l)
        },
    ensures
        keeps_laws(e0, e),
{
    assert forall|x: int| #[trigger] e0.live(x) implies e.live(x) by {
        assert(e.baskets@[x].psi == e0.baskets@[x].psi);
    }
    assert forall|x: int| #[trigger] e.live(x) implies e0.live(x) by {
        assert(e.baskets@[x].psi == e0.baskets@[x].psi);
    }
    if e0.no_dangling() {
        assert forall|x: int, l: Loc|
            e.live(x) && e.kid(x, l) is Some && e.kid(x, l)->0 is Wait implies e.live(
            #[trigger] e.kid(x, l)->0->Wait_0 as int,
        ) by {
            if !(x == bk && l == loc) {
                assert(e0.live(x));
                assert(e.kid(x, l) == e0.kid(x, l));
                let w = e0.kid(x, l)->0->Wait_0 as int;
                assert(e0.live(w));
            } else {
                assert(e0.live(k->Wait_0 as int));
            }
        }
    }
    if e0.sharing_safe() {
        assert forall|b1: int, b2: int|
            b1 != b2 && e.live(b2) implies !#[trigger] e.stashable(
            b1,
            e.baskets@[b2].ob,
            e.baskets@[b2].psi,
        ) by {
            assert(e0.live(b2));
            assert(!e0.stashable(b1, e0.baskets@[b2].ob, e0.baskets@[b2].psi));
        }
    }
}

/// The objects and options are kept, and so are the arena sizes and both
/// safety laws.
pub open spec fn keeps_safety(before: &Emu, after: &Emu) -> bool {
    &&& after.objects@ == before.objects@
    &&& after.opts@ == before.opts@
    &&& (before.wf() ==> after.wf())
    &&& (before.no_dangling() ==> after.no_dangling())
    &&& (before.sharing_safe() ==> after.sharing_safe())
}

/// Steps that keep the laws compose.
pub proof fn lemma_laws_trans(a: &Emu, b: &Emu, c: &Emu)
    requires
        keeps_laws(a, b),
        keeps_laws(b, c),
    ensures
        keeps_laws(a, c),
{
    lemma_frozen_trans(a, b, c);
}

impl Emu {
    /// The attribute names of a basket, in order.
    pub fn locs(&self, bk: Bk) -> (r: Vec<Loc>)
        requires
            0 <= bk < self.baskets@.len(),
        ensures
            r@ == self.keys(bk as int),
    {
        self.baskets[bk as usize].kids.keys()
    }

    /// Runs copy, delegate or delete over every live basket, in order.
    fn sweep(&mut self, perf: &mut Perf, which: Transition)
        requires
            old(self).wf(),
            which == Transition::CPY || which == Transition::DLG || which == Transition::DEL,
        ensures
            swept(which, *old(self), *old(perf), *final(self), *final(perf), MAX_BASKETS as int),
            keeps_safety(old(self), final(self)),
            final(self).wf(),
            which != Transition::DEL ==> keeps_laws(old(self), final(self)),
    {
        let ghost e0 = *self;
        let ghost p0 = *perf;
        let ghost mut tr: Seq<(Emu, Perf)> = seq![(e0, p0)];
        let mut i: usize = 0;
        while i < self.baskets.len()
            invariant
                self.wf(),
                e0 == *old(self),
                p0 == *old(perf),
                which == Transition::CPY || which == Transition::DLG || which == Transition::DEL,
                i <= self.baskets.len(),
                keeps_safety(&e0, self),
                which != Transition::DEL ==> keeps_laws(&e0, self),
                sweep_trace(which, tr, i as int),
                tr[0] == (e0, p0),
                tr[i as int] == (*self, *perf),
            decreases self.baskets.len() - i,
        {
            let ghost e1 = *self;
            let ghost q1 = *perf;
            if self.baskets[i].psi >= 0 {
                let bk = i as Bk;
                if which == Transition::CPY {
                    self.copy(perf, bk);
                    proof {
                        lemma_mild(&e1, self);
                        lemma_laws_trans(&e0, &e1, self);
                    }
                } else if which == Transition::DLG {
                    self.delegate(perf, bk);
                    proof {
                        lemma_mild(&e1, self);
                        lemma_laws_trans(&e0, &e1, self);
                    }
                } else {
                    self.delete(perf, bk);
                }
            }
            let ghost cur = (*self, *perf);
            assert(sweep_turn(which, (e1, q1), cur, i as int));
            let ghost old_tr = tr;
            proof {
                tr = tr.push(cur);
                assert forall|k: int| 0 <= k < i + 1 implies #[trigger] sweep_turn(which, tr[k], tr[k + 1], k) by {
                    if k < i {
                        assert(tr[k] == old_tr[k] && tr[k + 1] == old_tr[k + 1]);
                        assert(sweep_turn(which, old_tr[k], old_tr[k + 1], k));
                    }
                }
            }
            i = i + 1;
        }
        assert(sweep_trace(which, tr, MAX_BASKETS as int));
    }

    /// Runs propagate, find and new over the kids of every live basket, in
    /// order; stops at the first fault.
    fn sweep_kids(&mut self, perf: &mut Perf) -> (r: Result<(), Fault>)
        requires
            old(self).wf(),
        ensures
            match r {
                Ok(()) => kids_swept(*old(self), *old(perf), *final(self), *final(perf), MAX_BASKETS as int),
                Err(f) => kids_swept_fail(*old(self), *old(perf), *final(self), *final(perf), f),
            },
            keeps_laws(old(self), final(self)),
            final(self).wf(),
    {
        let ghost e0 = *self;
        let ghost p0 = *perf;
        let ghost mut tr: Seq<(Emu, Perf)> = seq![(e0, p0)];
        let mut i: usize = 0;
        while i < self.baskets.len()
            invariant
                self.wf(),
                e0 == *old(self),
                p0 == *old(perf),
                i <= self.baskets.len(),
                keeps_laws(&e0, self),
                kids_sweep_trace(tr, i as int),
                tr[0] == (e0, p0),
                tr[i as int] == (*self, *perf),
            decreases self.baskets.len() - i,
        {
            let ghost e1 = *self;
            let ghost q1 = *perf;
            assert(kids_swept(e0, p0, e1, q1, i as int));
            if self.baskets[i].psi >= 0 {
                let bk = i as Bk;
                let locs = self.locs(bk);
                let ghost mut kt: Seq<(Emu, Perf)> = seq![(e1, q1)];
                let mut j: usize = 0;
                while j < locs.len()
                    invariant
                        self.wf(),
                        e0 == *old(self),
                        p0 == *old(perf),
                        i < self.baskets.len(),
                        bk == i,
                        e1.live(i as int),
                        locs@ == e1.keys(i as int),
                        j <= locs.len(),
                        keeps_laws(&e0, self),
                        kids_swept(e0, p0, e1, q1, i as int),
                        kids_trace(kt, bk, locs@, j as int),
                        kt[0] == (e1, q1),
                        kt[j as int] == (*self, *perf),
                    decreases locs.len() - j,
                {
                    let loc = locs[j];
                    let ghost m = *self;
                    let ghost q = *perf;
                    assert(kids_done(e1, q1, m, q, bk, locs@, j as int));
                    self.propagate(perf, bk, loc);
                    proof {
                        lemma_mild(&m, self);
                        lemma_laws_trans(&e0, &m, self);
                    }
                    let ghost m1 = *self;
                    let ghost q1b = *perf;
                    let found = self.find(perf, bk, loc);
                    proof {
                        lemma_laws_trans(&e0, &m1, self);
                    }
                    if let Err(f) = found {
                        assert(propagate_post(&m, &q, &m1, &q1b, bk, locs@[j as int]));
                        assert(kids_fail(e1, q1, *self, *perf, bk, locs@, j as int, f));
                        assert(kids_swept_fail(e0, p0, *self, *perf, f));
                        return Err(f);
                    }
                    let ghost m2 = *self;
                    let ghost q2 = *perf;
                    let made = self.new(perf, bk, loc);
                    proof {
                        lemma_laws_trans(&e0, &m2, self);
                    }
                    if let Err(f) = made {
                        assert(propagate_post(&m, &q, &m1, &q1b, bk, locs@[j as int]));
                        assert(find_post(&m1, &q1b, &m2, &q2, bk, locs@[j as int], Ok(())));
                        assert(kids_fail(e1, q1, *self, *perf, bk, locs@, j as int, f));
                        assert(kids_swept_fail(e0, p0, *self, *perf, f));
                        return Err(f);
                    }
                    let ghost cur = (*self, *perf);
                    assert(propagate_post(&m, &q, &m1, &q1b, bk, loc));
                    assert(find_post(&m1, &q1b, &m2, &q2, bk, loc, Ok(())));
                    assert(loc == locs@[j as int]);
                    assert(new_post(&m2, &q2, &cur.0, &cur.1, bk, loc, Ok(())));
                    assert(propagate_post(&(m, q).0, &(m, q).1, &m1, &q1b, bk, loc));
                    assert(kid_turn((m, q), cur, bk, locs@[j as int]));
                    let ghost old_kt = kt;
                    proof {
                        kt = kt.push(cur);
                        assert forall|k: int| 0 <= k < j + 1 implies #[trigger] kid_turn(kt[k], kt[k + 1], bk, locs@[k]) by {
                            if k < j {
                                assert(kt[k] == old_kt[k] && kt[k + 1] == old_kt[k + 1]);
                                assert(kid_turn(old_kt[k], old_kt[k + 1], bk, locs@[k]));
                            }
                        }
                    }
                    j = j + 1;
                }
                assert(kids_done(e1, q1, *self, *perf, bk, locs@, locs@.len() as int));
            }
            let ghost cur = (*self, *perf);
            assert(basket_kids_turn((e1, q1), cur, i as int));
            let ghost old_tr = tr;
            proof {
                tr = tr.push(cur);
                assert forall|k: int| 0 <= k < i + 1 implies #[trigger] basket_kids_turn(tr[k], tr[k + 1], k) by {
                    if k < i {
                        assert(tr[k] == old_tr[k] && tr[k + 1] == old_tr[k + 1]);
                        assert(basket_kids_turn(old_tr[k], old_tr[k + 1], k));
                    }
                }
            }
            i = i + 1;
        }
        assert(kids_sweep_trace(tr, MAX_BASKETS as int));
        Ok(())
    }

    /// One cycle: copy, delegate, delete unless told not to, then propagate,
    /// find and new over each kid of each live basket.
    pub fn cycle(&mut self, perf: &mut Perf) -> (r: Result<(), Fault>)
        requires
            old(self).wf(),
        ensures
            cycle_rel(*old(self), *old(perf), *final(self), *final(perf), r),
            keeps_safety(old(self), final(self)),
            final(self).wf(),
            old(self).has(Opt::DontDelete) ==> keeps_laws(old(self), final(self)),
    {
        let ghost e0 = *self;
        let ghost p0 = *perf;
        self.sweep(perf, Transition::CPY);
        let ghost e1 = *self;
        let ghost q1 = *perf;
        self.sweep(perf, Transition::DLG);
        proof {
            lemma_laws_trans(&e0, &e1, self);
        }
        let ghost e2 = *self;
        let ghost q2 = *perf;
        if !self.has_opt(Opt::DontDelete) {
            self.sweep(perf, Transition::DEL);
        }
        let ghost e3 = *self;
        let ghost q3 = *perf;
        let r = self.sweep_kids(perf);
        proof {
            if e0.has(Opt::DontDelete) {
                lemma_laws_trans(&e0, &e2, self);
            }
            assert(cycle_via(e0, p0, e1, q1, e2, q2, e3, q3, *self, *perf, r));
        }
        r
    }

    /// The number of live baskets.
    pub fn live_count(&self) -> (r: usize)
        ensures
            r == live_upto(*self, self.baskets@.len() as int),
    {
        let mut n: usize = 0;
        let mut i: usize = 0;
        while i < self.baskets.len()
            invariant
                i <= self.baskets.len(),
                n <= i,
                n == live_upto(*self, i as int),
            decreases self.baskets.len() - i,
        {
            if self.baskets[i].psi >= 0 {
                n = n + 1;
            }
            i = i + 1;
        }
        n
    }

    /// Dataizes the root object: runs cycles until the root basket's `𝜑` holds
    /// a datum. A run stops as stuck after a cycle with no hit when asked to,
    /// and as runaway past its cycle bound; a cycle's own fault stops it too.
    pub fn dataize(&mut self) -> (r: Result<(Data, Perf), Fault>)
        requires
            old(self).wf(),
        ensures
            run_rel(*old(self), *final(self), r),
            keeps_safety(old(self), final(self)),
            final(self).wf(),
            old(self).has(Opt::DontDelete) ==> keeps_laws(old(self), final(self)),
            r matches Ok(p) ==> final(self).kid(ROOT_BK as int, Loc::Phi) == Some(Kid::Dtzd(p.0)),
    {
        let mut perf = Perf::new();
        let limit: usize = if self.has_opt(Opt::StopWhenTooManyCycles) {
            MAX_CYCLES
        } else {
            usize::MAX
        };
        let stop_when_stuck = self.has_opt(Opt::StopWhenStuck);
        let ghost e0 = *self;
        let ghost mut t: Seq<(Emu, Perf)> = seq![(e0, perf)];
        let mut cycles: usize = 0;
        loop
            invariant
                self.wf(),
                e0 == *old(self),
                keeps_safety(&e0, self),
                e0.has(Opt::DontDelete) ==> keeps_laws(&e0, self),
                stop_when_stuck == e0.has(Opt::StopWhenStuck),
                limit == cycle_limit(e0),
                self.opts@ == e0.opts@,
                cycles <= limit,
                run_trace(t, cycles as int, stop_when_stuck),
                t[0].0 == e0,
                fresh(t[0].1),
                t[cycles as int] == (*self, perf),
            decreases limit - cycles,
        {
            let before = perf.total_hits();
            let ghost e1 = *self;
            let ghost q1 = perf;
            let res = self.cycle(&mut perf);
            proof {
                if e0.has(Opt::DontDelete) {
                    lemma_laws_trans(&e0, &e1, self);
                }
            }
            let ghost e2 = *self;
            let ghost p2 = perf;
            assert(cycle_rel(e1, q1, e2, p2, res));
            match res {
                Err(f) => {
                    assert(run_end(t, cycles as int, e2, p2, res, Err(f)));
                    return Err(f);
                },
                Ok(()) => {},
            }
            let n = self.live_count();
            perf.peak(n);
            if stop_when_stuck && before == perf.total_hits() {
                assert(run_end(t, cycles as int, e2, p2, res, Err(Fault::Stuck)));
                return Err(Fault::Stuck);
            }
            if perf.cycles < usize::MAX {
                perf.cycles = perf.cycles + 1;
            }
            assert(perf == next_perf(p2, e2));
            if let Some(Kid::Dtzd(d)) = self.baskets[0].kids.kid(Loc::Phi) {
                assert(run_end(t, cycles as int, e2, p2, res, Ok((d, perf))));
                return Ok((d, perf));
            }
            if cycles >= limit {
                assert(run_end(t, cycles as int, e2, p2, res, Err(Fault::Runaway)));
                return Err(Fault::Runaway);
            }
            assert(root_datum(e2) is None);
            assert(!(stop_when_stuck && capped(sum_counts(p2.hits@)) == capped(sum_counts(q1.hits@))));
            assert(res is Ok);
            assert(cycle_rel((e1, q1).0, (e1, q1).1, e2, p2, res));
            assert(outcome((e1, q1), e2, p2, res, stop_when_stuck, false) is None);
            assert(run_turn((e1, q1), (e2, next_perf(p2, e2)), stop_when_stuck));
            let ghost old_t = t;
            proof {
                t = t.push((*self, perf));
                assert forall|k: int| 0 <= k < cycles + 1 implies #[trigger] run_turn(t[k], t[k + 1], stop_when_stuck) by {
                    if k < cycles {
                        assert(t[k] == old_t[k] && t[k + 1] == old_t[k + 1]);
                        assert(run_turn(old_t[k], old_t[k + 1], stop_when_stuck));
                    }
                }
            }
            cycles = cycles + 1;
        }
    }
}

impl Emu {
    /// Reads one line `νN(𝜋) ↦ ⟦…⟧` into the arena.
    fn parse_line(&mut self, line: &Vec<char>) -> (r: Result<(), String>)
        requires
            old(self).wf(),
        ensures
            final(self).wf(),
            final(self).baskets@ == old(self).baskets@,
            final(self).opts@ == old(self).opts@,
            match r {
                Ok(()) => line_fits(old(self).objects@, line@) && forall|k: int| 0 <= k < MAX_OBJECTS ==> #[trigger] object_model(final(self).objects@[k])
                    == if k == (line_object(line@)->0).0 { (line_object(line@)->0).1 } else { object_model(old(self).objects@[k]) },
                Err(_) => !line_fits(old(self).objects@, line@) && final(self).objects@ == old(self).objects@,
            },
    {
        let v = match find_char(line, 'ν', 0) {
            Some(i) => i,
            None => {
                return Err(quoted("Can't parse the line ", line));
            },
        };
        if v >= line.len() {
            return Err(quoted("Can't parse the line ", line));
        }
        let mut j: usize = v + 1;
        while j < line.len() && '0' <= line[j] && line[j] <= '9'
            invariant
                v < j <= line.len(),
                digit_run_end(line@, j as int) == digit_run_end(line@, v + 1),
            decreases line.len() - j,
        {
            j = j + 1;
        }
        assert(digit_run_end(line@, j as int) == j);
        let ob = match parse_decimal(line, v + 1, j, usize::MAX as u64) {
            Some(n) => n as usize,
            None => {
                return Err(quoted("Can't parse the line ", line));
            },
        };
        let n = line.len();
        if !(j < n && n - j > 6 && line[j] == '(' && line[j + 1] == '𝜋' && line[j + 2] == ')' && line[j + 3] == ' '
            && line[j + 4] == '↦' && line[j + 5] == ' ' && line[j + 6] == '⟦') {
            proof {
                if j + 6 < n && line@.subrange(j as int, j + 7) == seq!['(', '𝜋', ')', ' ', '↦', ' ', '⟦'] {
                    assert(line@.subrange(j as int, j + 7)[0] == line@[j as int]);
                    assert(line@.subrange(j as int, j + 7)[1] == line@[j + 1]);
                    assert(line@.subrange(j as int, j + 7)[2] == line@[j + 2]);
                    assert(line@.subrange(j as int, j + 7)[3] == line@[j + 3]);
                    assert(line@.subrange(j as int, j + 7)[4] == line@[j + 4]);
                    assert(line@.subrange(j as int, j + 7)[5] == line@[j + 5]);
                    assert(line@.subrange(j as int, j + 7)[6] == line@[j + 6]);
                }
            }
            return Err(quoted("Can't parse the line ", line));
        }
        assert(line@.subrange(j as int, j + 7) =~= seq!['(', '𝜋', ')', ' ', '↦', ' ', '⟦']);
        let body = slice_of(line, j + 6, n);
        let obj = match Object::parse(&body) {
            Ok(o) => o,
            Err(e) => {
                return Err(e);
            },
        };
        let ghost before = self.objects@;
        match self.put(ob, obj) {
            Ok(()) => {
                assert forall|k: int| 0 <= k < MAX_OBJECTS implies #[trigger] object_model(self.objects@[k])
                    == if k == (line_object(line@)->0).0 { (line_object(line@)->0).1 } else { object_model(before[k]) } by {}
                Ok(())
            },
            Err(_) => Err(quoted("The object is already occupied or out of range: ", line)),
        }
    }

    /// Reads an engine from program text, one object per line `νN(𝜋) ↦ ⟦…⟧`;
    /// blank lines are skipped.
    pub fn parse(s: &Vec<char>) -> (r: Result<Emu, String>)
        ensures
            match r {
                Ok(e) => parse_program(s@) == Some(models(e.objects@)),
                Err(_) => parse_program(s@) is None,
            },
            r matches Ok(e) ==> e.wf() && e.no_dangling() && e.sharing_safe() && fresh_pool(e),
    {
        let mut emu = Emu::empty();
        let text = trim_chars(s);
        let lines = split_at_char(&text, '\n');
        let ghost ls = views(lines@);
        let ghost b0 = emu.baskets@;
        proof {
            lemma_empty_models(emu.objects@);
            assert(ls.subrange(0, ls.len() as int) =~= ls);
        }
        let mut i: usize = 0;
        while i < lines.len()
            invariant
                i <= lines.len(),
                ls == views(lines@),
                ls == split(trim(s@), '\n'),
                emu.wf(),
                emu.baskets@ == b0,
                fresh_pool(emu),
                emu.no_dangling(),
                emu.sharing_safe(),
                emu.live(ROOT_BK as int),
                forall|b: int| 1 <= b < MAX_BASKETS ==> !#[trigger] emu.live(b),
                parse_program(s@) == load_lines(models(emu.objects@), ls.subrange(i as int, ls.len() as int)),
            decreases lines.len() - i,
        {
            let line = trim_chars(&lines[i]);
            let ghost rest = ls.subrange(i as int, ls.len() as int);
            let ghost ms = models(emu.objects@);
            assert(rest[0] == lines@[i as int]@);
            assert(rest.drop_first() =~= ls.subrange(i + 1, ls.len() as int));
            if line.len() > 0 {
                let ghost e0 = emu;
                proof {
                    lemma_fits_models(e0.objects@, line@);
                }
                match emu.parse_line(&line) {
                    Ok(()) => {},
                    Err(e) => {
                        return Err(e);
                    },
                }
                proof {
                    let x = line_object(line@)->0;
                    assert(models(emu.objects@) =~= ms.update(x.0 as int, x.1));
                    assert forall|b: int| #[trigger] emu.live(b) == e0.live(b) by {}
                    assert forall|b: int, l: Loc| #[trigger] emu.kid(b, l) == e0.kid(b, l) by {}
                    assert forall|b1: int, b2: int|
                        b1 != b2 && emu.live(b2) implies !#[trigger] emu.stashable(
                        b1,
                        emu.baskets@[b2].ob,
                        emu.baskets@[b2].psi,
                    ) by {
                        assert(b2 == 0);
                        assert(!emu.live(b1));
                    }
                }
            }
            i = i + 1;
        }
        Ok(emu)
    }

    /// The program, one line `νN(𝜋) ↦ ⟦…⟧` per non-empty object, in the form
    /// that `parse` reads.
    pub fn program_text(&self) -> (r: String)
        ensures
            r@ == program_text_spec(self.objects@),
    {
        let mut out: Vec<char> = Vec::new();
        let mut first = true;
        let mut ob: usize = 0;
        while ob < self.objects.len()
            invariant
                ob <= self.objects.len(),
                out@ == join(program_lines(self.objects@, ob as int), seq!['\n']),
                first == (program_lines(self.objects@, ob as int).len() == 0),
            decreases self.objects.len() - ob,
        {
            let ghost before = out@;
            let ghost p = program_lines(self.objects@, ob as int);
            if !self.objects[ob].is_empty() {
                if !first {
                    out.push('\n');
                }
                first = false;
                let ghost mid = out@;
                out.push('ν');
                push_decimal(&mut out, ob as u64);
                push_str(&mut out, "(𝜋) ↦ ");
                proof {
                    reveal_strlit("(𝜋) ↦ ");
                }
                self.objects[ob].push_text(&mut out);
                proof {
                    let x = object_line(ob as nat, self.objects@[ob as int]);
                    assert(out@ =~= mid + x);
                    assert(p.push(x).drop_last() =~= p);
                    if p.len() > 0 {
                        assert(join(p.push(x), seq!['\n']) =~= before + seq!['\n'] + x);
                    } else {
                        assert(join(p.push(x), seq!['\n']) =~= x);
                    }
                }
            }
            ob = ob + 1;
        }
        string_of(&out)
    }

    /// A listing of the arena: each non-empty object, with the live baskets
    /// that instantiate it.
    pub fn to_string(&self) -> String {
        let mut out: Vec<char> = Vec::new();
        let mut first = true;
        let mut ob: usize = 0;
        while ob < self.objects.len()
            decreases self.objects.len() - ob,
        {
            if !self.objects[ob].is_empty() {
                if !first {
                    out.push('\n');
                }
                first = false;
                out.push('ν');
                push_decimal(&mut out, ob as u64);
                out.push(' ');
                self.objects[ob].push_text(&mut out);
                let mut b: usize = 0;
                while b < self.baskets.len()
                    decreases self.baskets.len() - b,
                {
                    if self.baskets[b].psi >= 0 && self.baskets[b].ob == ob {
                        push_str(&mut out, "\n\t➞ β");
                        push_decimal(&mut out, b as u64);
                        out.push(' ');
                        let t = self.baskets[b].to_string();
                        push_str(&mut out, t.as_str());
                    }
                    b = b + 1;
                }
            }
            ob = ob + 1;
        }
        string_of(&out)
    }
}

impl std::str::FromStr for Emu {
    type Err = String;

    fn from_str(s: &str) -> Result<Emu, String> {
        Emu::parse(&chars_of(s))
    }
}

/// One step of a sweep over basket `i`: copy, delegate or delete.
pub open spec fn sweep_step(which: Transition, s0: &Emu, p0: &Perf, s1: &Emu, p1: &Perf, i: int) -> bool {
    if which == Transition::CPY {
        copy_post(s0, p0, s1, p1, i as Bk)
    } else if which == Transition::DLG {
        delegate_post(s0, p0, s1, p1, i as Bk)
    } else {
        delete_post(s0, p0, s1, p1, i as Bk)
    }
}

/// One basket's turn in a sweep: a live basket takes one step, an unused
/// slot is passed over.
pub open spec fn sweep_turn(which: Transition, a: (Emu, Perf), b: (Emu, Perf), k: int) -> bool {
    if a.0.live(k) {
        sweep_step(which, &a.0, &a.1, &b.0, &b.1, k)
    } else {
        b == a
    }
}

/// A trace of a sweep over the baskets below `n`.
pub open spec fn sweep_trace(which: Transition, t: Seq<(Emu, Perf)>, n: int) -> bool {
    t.len() == n + 1 && forall|k: int| 0 <= k < n ==> #[trigger] sweep_turn(which, t[k], t[k + 1], k)
}

/// The states a sweep reaches after the baskets below `n`.
pub open spec fn swept(which: Transition, s0: Emu, p0: Perf, s1: Emu, p1: Perf, n: int) -> bool {
    exists|t: Seq<(Emu, Perf)>| #[trigger] sweep_trace(which, t, n) && t[0] == (s0, p0) && t[n] == (s1, p1)
}

/// Propagate, find and new over one name of basket `bk`, with no fault.
pub open spec fn kid_turn(a: (Emu, Perf), b: (Emu, Perf), bk: Bk, loc: Loc) -> bool {
    exists|m1: Emu, q1: Perf, m2: Emu, q2: Perf|
        #![trigger propagate_post(&a.0, &a.1, &m1, &q1, bk, loc), find_post(&m1, &q1, &m2, &q2, bk, loc, Ok(()))]
        propagate_post(&a.0, &a.1, &m1, &q1, bk, loc) && find_post(&m1, &q1, &m2, &q2, bk, loc, Ok(()))
            && new_post(&m2, &q2, &b.0, &b.1, bk, loc, Ok(()))
}

/// A trace of the kid pass over the names `locs[..j]` of basket `bk`.
pub open spec fn kids_trace(t: Seq<(Emu, Perf)>, bk: Bk, locs: Seq<Loc>, j: int) -> bool {
    t.len() == j + 1 && forall|k: int| 0 <= k < j ==> #[trigger] kid_turn(t[k], t[k + 1], bk, locs[k])
}

/// Propagate, find and new over the names `locs[..j]` of basket `bk`, with no fault.
pub open spec fn kids_done(s0: Emu, p0: Perf, s1: Emu, p1: Perf, bk: Bk, locs: Seq<Loc>, j: int) -> bool {
    exists|t: Seq<(Emu, Perf)>| #[trigger] kids_trace(t, bk, locs, j) && t[0] == (s0, p0) && t[j] == (s1, p1)
}

/// After the names `locs[..j]`, the name `locs[j]` fails: in find, or in new.
pub open spec fn kids_fail(s0: Emu, p0: Perf, s1: Emu, p1: Perf, bk: Bk, locs: Seq<Loc>, j: int, f: Fault) -> bool {
    ||| exists|m: Emu, q: Perf, m1: Emu, q1: Perf|
        #![trigger kids_done(s0, p0, m, q, bk, locs, j), propagate_post(&m, &q, &m1, &q1, bk, locs[j])]
        kids_done(s0, p0, m, q, bk, locs, j) && 0 <= j < locs.len() && propagate_post(&m, &q, &m1, &q1, bk, locs[j])
            && find_post(&m1, &q1, &s1, &p1, bk, locs[j], Err(f))
    ||| exists|m: Emu, q: Perf, m1: Emu, q1: Perf, m2: Emu, q2: Perf|
        #![trigger kids_done(s0, p0, m, q, bk, locs, j), propagate_post(&m, &q, &m1, &q1, bk, locs[j]), find_post(&m1, &q1, &m2, &q2, bk, locs[j], Ok(()))]
        kids_done(s0, p0, m, q, bk, locs, j) && 0 <= j < locs.len() && propagate_post(&m, &q, &m1, &q1, bk, locs[j])
            && find_post(&m1, &q1, &m2, &q2, bk, locs[j], Ok(())) && new_post(&m2, &q2, &s1, &p1, bk, locs[j], Err(f))
}

/// One basket's turn in the kid pass: its names are taken when its turn comes.
pub open spec fn basket_kids_turn(a: (Emu, Perf), b: (Emu, Perf), k: int) -> bool {
    if a.0.live(k) {
        kids_done(a.0, a.1, b.0, b.1, k as Bk, a.0.keys(k), a.0.keys(k).len() as int)
    } else {
        b == a
    }
}

/// A trace of the kid pass over the baskets below `n`.
pub open spec fn kids_sweep_trace(t: Seq<(Emu, Perf)>, n: int) -> bool {
    t.len() == n + 1 && forall|k: int| 0 <= k < n ==> #[trigger] basket_kids_turn(t[k], t[k + 1], k)
}

/// The kid pass over the baskets below `n`, with no fault.
pub open spec fn kids_swept(s0: Emu, p0: Perf, s1: Emu, p1: Perf, n: int) -> bool {
    exists|t: Seq<(Emu, Perf)>| #[trigger] kids_sweep_trace(t, n) && t[0] == (s0, p0) && t[n] == (s1, p1)
}

/// The kid pass stops at a fault of some basket's name.
pub open spec fn kids_swept_fail(s0: Emu, p0: Perf, s1: Emu, p1: Perf, f: Fault) -> bool {
    exists|i: int, m: Emu, q: Perf, j: int|
        #![trigger kids_swept(s0, p0, m, q, i), kids_fail(m, q, s1, p1, i as Bk, m.keys(i), j, f)]
        kids_swept(s0, p0, m, q, i) && 0 <= i < MAX_BASKETS && m.live(i) && kids_fail(m, q, s1, p1, i as Bk, m.keys(i), j, f)
}

/// A cycle through the given intermediate states.
pub open spec fn cycle_via(s0: Emu, p0: Perf, a1: Emu, q1: Perf, a2: Emu, q2: Perf, a3: Emu, q3: Perf, s1: Emu, p1: Perf, r: Result<(), Fault>) -> bool {
    &&& swept(Transition::CPY, s0, p0, a1, q1, MAX_BASKETS as int)
    &&& swept(Transition::DLG, a1, q1, a2, q2, MAX_BASKETS as int)
    &&& if s0.has(Opt::DontDelete) {
        a3 == a2 && q3 == q2
    } else {
        swept(Transition::DEL, a2, q2, a3, q3, MAX_BASKETS as int)
    }
    &&& match r {
        Ok(()) => kids_swept(a3, q3, s1, p1, MAX_BASKETS as int),
        Err(f) => kids_swept_fail(a3, q3, s1, p1, f),
    }
}

/// One cycle: a copy sweep, a delegate sweep, a delete sweep unless `DontDelete`
/// is set, then the kid pass, which may stop at a fault.
pub open spec fn cycle_rel(s0: Emu, p0: Perf, s1: Emu, p1: Perf, r: Result<(), Fault>) -> bool {
    exists|a1: Emu, q1: Perf, a2: Emu, q2: Perf, a3: Emu, q3: Perf|
        #[trigger] cycle_via(s0, p0, a1, q1, a2, q2, a3, q3, s1, p1, r)
}

/// The number of live baskets below `i`.
pub open spec fn live_upto(e: Emu, i: int) -> nat
    decreases i,
{
    if i <= 0 {
        0
    } else {
        live_upto(e, i - 1) + if e.live(i - 1) { 1nat } else { 0nat }
    }
}

/// Counters at the start of a run.
pub open spec fn fresh(p: Perf) -> bool {
    p.cycles == 0 && p.peak == 0 && p.atoms@.len() == 0 && p.hits@.len() == 0 && p.ticks@.len() == 0
}

/// The counters after a cycle: the peak keeps the largest number of live
/// baskets, and the cycle count goes up by one.
pub open spec fn next_perf(p: Perf, e: Emu) -> Perf {
    Perf {
        cycles: crate::perf::inc(p.cycles),
        peak: if (p.peak as int) < live_upto(e, MAX_BASKETS as int) {
            live_upto(e, MAX_BASKETS as int) as usize
        } else {
            p.peak
        },
        atoms: p.atoms,
        hits: p.hits,
        ticks: p.ticks,
    }
}

/// The datum at the root basket's `𝜑`, if any.
pub open spec fn root_datum(e: Emu) -> Option<Data> {
    match e.kid(ROOT_BK as int, Loc::Phi) {
        Some(Kid::Dtzd(d)) => Some(d),
        _ => None,
    }
}

/// How many cycles a run may take beyond the first.
pub open spec fn cycle_limit(e: Emu) -> usize {
    if e.has(Opt::StopWhenTooManyCycles) {
        MAX_CYCLES
    } else {
        usize::MAX
    }
}

/// How a run ends after a cycle from `a` to `(e, p)` with result `cr`, if it
/// ends there: with the cycle's fault; as stuck when asked to stop on a cycle
/// with no hit; with the root's datum; as runaway after the last allowed cycle.
pub open spec fn outcome(a: (Emu, Perf), e: Emu, p: Perf, cr: Result<(), Fault>, stuck: bool, last: bool) -> Option<Result<(Data, Perf), Fault>> {
    match cr {
        Err(f) => Some(Err(f)),
        Ok(()) => if stuck && capped(sum_counts(p.hits@)) == capped(sum_counts(a.1.hits@)) {
            Some(Err(Fault::Stuck))
        } else if root_datum(e) is Some {
            Some(Ok((root_datum(e)->0, next_perf(p, e))))
        } else if last {
            Some(Err(Fault::Runaway))
        } else {
            None
        },
    }
}

/// One cycle of a run that goes on.
pub open spec fn run_turn(a: (Emu, Perf), b: (Emu, Perf), stuck: bool) -> bool {
    exists|e: Emu, p: Perf, cr: Result<(), Fault>|
        #[trigger] cycle_rel(a.0, a.1, e, p, cr) && cr is Ok && outcome(a, e, p, cr, stuck, false) is None && b == (e, next_perf(p, e))
}

/// A trace of `k` cycles of a run that goes on.
pub open spec fn run_trace(t: Seq<(Emu, Perf)>, k: int, stuck: bool) -> bool {
    t.len() == k + 1 && forall|i: int| 0 <= i < k ==> #[trigger] run_turn(t[i], t[i + 1], stuck)
}

/// The run ends after the cycle from the trace's last state.
pub open spec fn run_end(t: Seq<(Emu, Perf)>, k: int, e: Emu, p: Perf, cr: Result<(), Fault>, r: Result<(Data, Perf), Fault>) -> bool {
    cycle_rel(t[k].0, t[k].1, e, p, cr) && outcome(t[k], e, p, cr, t[0].0.has(Opt::StopWhenStuck), k == cycle_limit(t[0].0)) == Some(r)
}

/// A run from `s0` to `s1` with result `r`: cycles from fresh counters, each
/// going on, then one that ends the run.
pub open spec fn run_rel(s0: Emu, s1: Emu, r: Result<(Data, Perf), Fault>) -> bool {
    exists|t: Seq<(Emu, Perf)>, k: int, p: Perf, cr: Result<(), Fault>|
        #![trigger run_trace(t, k, s0.has(Opt::StopWhenStuck)), run_end(t, k, s1, p, cr, r)]
        run_trace(t, k, s0.has(Opt::StopWhenStuck)) && 0 <= k <= cycle_limit(s0) && t[0].0 == s0 && fresh(t[0].1)
            && run_end(t, k, s1, p, cr, r)
}

/// The models of the arena's objects.
pub open spec fn models(objs: Seq<Object>) -> Seq<crate::object::ObjectModel> {
    objs.map_values(|o: Object| object_model(o))
}

/// The basket pool of a fresh engine: only the root basket, for the root
/// object in its own context, with its `𝜑` requested.
pub open spec fn fresh_pool(e: Emu) -> bool {
    &&& e.live(ROOT_BK as int)
    &&& e.baskets@[0].ob == ROOT_OB
    &&& e.baskets@[0].psi == 0
    &&& forall|l: Loc| #[trigger] e.kid(0, l) == if l == Loc::Phi { Some(Kid::Rqtd) } else { None }
    &&& forall|i: int| 1 <= i < MAX_BASKETS ==> !(#[trigger] e.live(i)) && e.baskets@[i].kids@.len() == 0
}

/// Where the run of digits starting at `i` ends.
pub open spec fn digit_run_end(s: Seq<char>, i: int) -> int
    decreases s.len() - i,
{
    if 0 <= i < s.len() && crate::text::is_digit(s[i]) {
        digit_run_end(s, i + 1)
    } else {
        i
    }
}

/// A program line `νN(𝜋) ↦ ⟦…⟧`: its object number and the object it reads.
pub open spec fn line_object(l: Seq<char>) -> Option<(nat, crate::object::ObjectModel)> {
    match crate::text::first_of(l, 'ν', 0) {
        Some(v) => {
            let j = digit_run_end(l, v + 1);
            let digits = l.subrange(v + 1, j);
            if crate::text::all_digits(digits) && crate::text::digits_value(digits) <= usize::MAX && j + 6 < l.len()
                && l.subrange(j, j + 7) == seq!['(', '𝜋', ')', ' ', '↦', ' ', '⟦'] {
                match crate::object::parse_object(l.subrange(j + 6, l.len() as int)) {
                    Some(m) => Some((crate::text::digits_value(digits), m)),
                    None => None,
                }
            } else {
                None
            }
        },
        None => None,
    }
}

/// A line reads into an empty slot of the arena.
pub open spec fn line_fits(objs: Seq<Object>, l: Seq<char>) -> bool {
    line_object(l) matches Some(x) && x.0 < objs.len() && object_is_empty(objs[x.0 as int])
}

/// A model with no datum, no atom and no attributes.
pub open spec fn model_empty(m: crate::object::ObjectModel) -> bool {
    m.0 is None && m.1 is None && m.3.dom() == Set::<Loc>::empty()
}

/// Reading one line into the arena's models; blank lines are skipped.
pub open spec fn load_line(ms: Seq<crate::object::ObjectModel>, line: Seq<char>) -> Option<Seq<crate::object::ObjectModel>> {
    let l = trim(line);
    if l.len() == 0 {
        Some(ms)
    } else {
        match line_object(l) {
            Some(x) => if x.0 < ms.len() && model_empty(ms[x.0 as int]) {
                Some(ms.update(x.0 as int, x.1))
            } else {
                None
            },
            None => None,
        }
    }
}

/// Reading lines in order.
pub open spec fn load_lines(ms: Seq<crate::object::ObjectModel>, lines: Seq<Seq<char>>) -> Option<Seq<crate::object::ObjectModel>>
    decreases lines.len(),
{
    if lines.len() == 0 {
        Some(ms)
    } else {
        match load_line(ms, lines[0]) {
            Some(ms2) => load_lines(ms2, lines.drop_first()),
            None => None,
        }
    }
}

/// Reading a program text: the object models of the sixteen slots.
pub open spec fn parse_program(s: Seq<char>) -> Option<Seq<crate::object::ObjectModel>> {
    load_lines(
        Seq::new(MAX_OBJECTS as nat, |i: int| (None::<Data>, None::<(Seq<char>, Atom)>, false, Map::<Loc, (Seq<Loc>, bool)>::empty())),
        split(trim(s), '\n'),
    )
}

/// An object is empty exactly when its model is.
pub proof fn lemma_model_empty(o: Object)
    ensures
        object_is_empty(o) == model_empty(object_model(o)),
{
    let m = object_model(o);
    if o.attrs@.len() > 0 {
        crate::table::lemma_lookup_has(o.attrs@, o.attrs@[0].0);
        assert(m.3.dom().contains(o.attrs@[0].0));
    } else {
        assert(m.3.dom() =~= Set::<Loc>::empty());
    }
}

proof fn lemma_fits_models(objs: Seq<Object>, l: Seq<char>)
    ensures
        line_fits(objs, l) == (line_object(l) matches Some(x) && x.0 < objs.len() && model_empty(models(objs)[x.0 as int])),
{
    if line_object(l) is Some {
        let x = line_object(l)->0;
        if x.0 < objs.len() {
            lemma_model_empty(objs[x.0 as int]);
        }
    }
}

proof fn lemma_empty_models(objs: Seq<Object>)
    requires
        objs.len() == MAX_OBJECTS,
        forall|i: int| 0 <= i < MAX_OBJECTS ==> object_is_empty(#[trigger] objs[i]) && !objs[i].constant,
    ensures
        models(objs) =~= Seq::new(MAX_OBJECTS as nat, |i: int| (None::<Data>, None::<(Seq<char>, Atom)>, false, Map::<Loc, (Seq<Loc>, bool)>::empty())),
{
    assert forall|i: int| 0 <= i < MAX_OBJECTS implies #[trigger] models(objs)[i] == (None::<Data>, None::<(Seq<char>, Atom)>, false, Map::<Loc, (Seq<Loc>, bool)>::empty()) by {
        lemma_model_empty(objs[i]);
        assert(object_model(objs[i]).3 =~= Map::<Loc, (Seq<Loc>, bool)>::empty());
    }
}

/// The program line of the object in slot `n`.
pub open spec fn object_line(n: nat, o: Object) -> Seq<char> {
    seq!['ν'] + crate::text::decimal(n) + seq!['(', '𝜋', ')', ' ', '↦', ' '] + crate::object::object_text(o)
}

/// The program lines of the non-empty objects below slot `i`, in order.
pub open spec fn program_lines(objs: Seq<Object>, i: int) -> Seq<Seq<char>>
    decreases i,
{
    if i <= 0 {
        Seq::empty()
    } else if !object_is_empty(objs[i - 1]) {
        program_lines(objs, i - 1).push(object_line((i - 1) as nat, objs[i - 1]))
    } else {
        program_lines(objs, i - 1)
    }
}

/// The program text of an arena: its lines joined with line breaks.
pub open spec fn program_text_spec(objs: Seq<Object>) -> Seq<char> {
    join(program_lines(objs, objs.len() as int), seq!['\n'])
}

/// A name is among the keys exactly when it is bound.
pub proof fn lemma_keys_contain(s: Seq<(Loc, (Seq<Loc>, bool))>, l: Loc)
    ensures
        s.map_values(|e: (Loc, (Seq<Loc>, bool))| e.0).contains(l) == (lookup(s, l) is Some),
{
    crate::table::lemma_lookup_has(s, l);
    let ks = s.map_values(|e: (Loc, (Seq<Loc>, bool))| e.0);
    if ks.contains(l) {
        let k = choose|k: int| 0 <= k < ks.len() && #[trigger] ks[k] == l;
        assert(s[k].0 == l);
    }
    if crate::table::has_key(s, l) {
        let k = choose|k: int| 0 <= k < s.len() && (#[trigger] s[k]).0 == l;
        assert(ks[k] == l);
    }
}

/// What `copy` does: its state and counter effects.
pub open spec fn copy_post(s0: &Emu, p0: &Perf, s1: &Emu, p1: &Perf, bk: Bk) -> bool {
    &&& counted(p0, p1, Transition::CPY, if copy_ready(s0, bk as int) { 1nat } else { 0nat }, None)
    &&& mild(s0, s1)
    &&& forall|b: int, l: Loc|
        0 <= b < s0.baskets@.len() ==> #[trigger] s1.kid(b, l) == if b == bk
        && l == Loc::Phi && copy_ready(s0, bk as int) {
        Some(Kid::Dtzd(s0.objects@[s0.baskets@[b].ob as int].delta->0))
        } else {
        s0.kid(b, l)
        }
}

/// What `delegate` does: its state and counter effects.
pub open spec fn delegate_post(s0: &Emu, p0: &Perf, s1: &Emu, p1: &Perf, bk: Bk) -> bool {
    &&& counted(p0, p1, Transition::DLG, if delegate_ready(s0, bk as int) { 1nat } else { 0nat },
        if delegate_ready(s0, bk as int) && atom_value(atom_of(s0, bk as int), s0, bk as int) is Some {
        Some((s0.objects@[s0.baskets@[bk as int].ob as int].lambda->0).0@)
        } else {
        None
        })
    &&& mild(s0, s1)
    &&& forall|b: int, l: Loc|
        0 <= b < s0.baskets@.len() ==> #[trigger] s1.kid(b, l) == if b == bk
        && delegate_ready(s0, bk as int) {
        if l == Loc::Phi && atom_value(atom_of(s0, b), s0, b) is Some {
        Some(Kid::Dtzd(atom_value(atom_of(s0, b), s0, b)->0))
        } else if operand_locs(atom_of(s0, b), s0, b).contains(l) {
        requested(s0.kid(b, l))
        } else {
        s0.kid(b, l)
        }
        } else {
        s0.kid(b, l)
        }
}

/// What `delete` does: its state and counter effects.
pub open spec fn delete_post(s0: &Emu, p0: &Perf, s1: &Emu, p1: &Perf, bk: Bk) -> bool {
    &&& counted(p0, p1, Transition::DEL, if delete_ready(s0, bk as int) { 1nat } else { 0nat }, None)
    &&& s1.objects@ == s0.objects@
    &&& s1.opts@ == s0.opts@
    &&& s1.baskets@.len() == s0.baskets@.len()
    &&& forall|b: int|
        0 <= b < s0.baskets@.len() && (b != bk || !delete_ready(s0, bk as int))
        ==> #[trigger] s1.baskets@[b] == s0.baskets@[b]
    &&& delete_ready(s0, bk as int) ==> s1.baskets@[bk as int].psi == -1
        && s1.baskets@[bk as int].ob == 0 && s1.baskets@[bk as int].kids@.len() == 0
    &&& delete_ready(s0, bk as int) ==> forall|b: int, l: Loc|
        s1.live(b) ==> !(#[trigger] s1.kid(b, l) matches Some(Kid::Wait(w, _)) && w == bk)
    &&& s0.no_dangling() ==> s1.no_dangling()
    &&& s0.sharing_safe() ==> s1.sharing_safe()
    &&& s0.wf() ==> s1.wf()
    &&& frozen(s0, s1)
}

/// What `propagate` does: its state and counter effects.
pub open spec fn propagate_post(s0: &Emu, p0: &Perf, s1: &Emu, p1: &Perf, bk: Bk, loc: Loc) -> bool {
    &&& counted(p0, p1, Transition::PPG, if propagate_ready(s0, bk as int, loc) { waits_upto(s0, bk, loc, s0.baskets@.len() as int) } else { 0nat }, None)
    &&& mild(s0, s1)
    &&& forall|b: int, l: Loc|
        0 <= b < s0.baskets@.len() ==> #[trigger] s1.kid(b, l) == if propagate_ready(s0, bk as int, loc)
        && s0.live(b) && s0.kid(b, l) == Some(Kid::Wait(bk, loc)) {
        s0.kid(bk as int, loc)
        } else {
        s0.kid(b, l)
        }
}

/// What `find` does: its state and counter effects.
pub open spec fn find_post(s0: &Emu, p0: &Perf, s1: &Emu, p1: &Perf, bk: Bk, loc: Loc, r: Result<(), Fault>) -> bool {
    &&& counted(p0, p1, Transition::FIND, if find_ready(s0, bk as int, loc) && r is Ok { 1nat } else { 0nat }, None)
    &&& keeps_laws(s0, s1)
    &&& s1.same_shape(s0)
    &&& !find_ready(s0, bk as int, loc) ==> r is Ok && s1.baskets@ == s0.baskets@
    &&& find_ready(s0, bk as int, loc) ==> {
        let at = s0.object_attr(s0.baskets@[bk as int].ob as int, loc)->0;
        match s0.search_spec(bk as int, at.0) {
        Err(f) => r == Err::<(), Fault>(f) && s1.baskets@ == s0.baskets@,
        Ok(f) => r is Ok && forall|b: int, l: Loc|
        0 <= b < s0.baskets@.len() ==> #[trigger] s1.kid(b, l) == after_find(s0, bk as int, loc, f, at.1, b, l),
        }
        }
}

/// What `new` does: its state and counter effects.
pub open spec fn new_post(s0: &Emu, p0: &Perf, s1: &Emu, p1: &Perf, bk: Bk, loc: Loc, r: Result<(), Fault>) -> bool {
    &&& counted(p0, p1, Transition::NEW, if new_ready(s0, bk as int, loc) && r is Ok { 1nat } else { 0nat }, None)
    &&& keeps_laws(s0, s1)
    &&& s1.baskets@.len() == s0.baskets@.len()
    &&& !new_ready(s0, bk as int, loc) ==> r is Ok && s1.baskets@ == s0.baskets@
    &&& new_ready(s0, bk as int, loc) ==> {
        let tob = s0.kid(bk as int, loc)->0->Need_0;
        let tpsi = s0.kid(bk as int, loc)->0->Need_1;
        if exists|s: int| #[trigger] least_stash(s0, tob, tpsi, s) {
        r is Ok && s1.same_shape(s0) && forall|b: int, l: Loc|
        0 <= b < s0.baskets@.len() ==> #[trigger] s1.kid(b, l) == if b == bk && l == loc {
        Some(Kid::Wait((choose|s: int| least_stash(s0, tob, tpsi, s)) as Bk, Loc::Phi))
        } else {
        s0.kid(b, l)
        }
        } else if exists|f: int| #[trigger] least_free(s0, f) {
        let f = choose|f: int| least_free(s0, f);
        &&& r is Ok
        &&& s1.baskets@[f].ob == tob
        &&& s1.baskets@[f].psi == tpsi
        &&& forall|l: Loc| #[trigger] s1.kid(f, l) == if l == Loc::Phi {
        Some(Kid::Rqtd)
        } else if s0.object_attr(tob as int, l) is Some {
        Some(Kid::Empt)
        } else {
        None
        }
        &&& s1.kid(bk as int, loc) == Some(Kid::Wait(f as Bk, Loc::Phi))
        &&& forall|x: int| 0 <= x < s0.baskets@.len() && x != f ==> (#[trigger] s1.baskets@[x]).ob == s0.baskets@[x].ob
            && s1.baskets@[x].psi == s0.baskets@[x].psi
        &&& forall|b: int, l: Loc|
        0 <= b < s0.baskets@.len() && b != f && (b != bk || l != loc) ==> #[trigger] s1.kid(b, l) == s0.kid(b, l)
        } else {
        r == Err::<(), Fault>(Fault::PoolExhausted) && s1.baskets@ == s0.baskets@
        }
        }
}

/// A bound value is one of the entries.
pub proof fn lemma_lookup_some(s: Seq<(Loc, Kid)>, l: Loc)
    requires
        lookup(s, l) is Some,
    ensures
        exists|i: int| 0 <= i < s.len() && #[trigger] s[i] == (l, lookup(s, l)->0),
    decreases s.len(),
{
    if s[0].0 != l {
        lemma_lookup_some(s.drop_first(), l);
        let i = choose|i: int| 0 <= i < s.len() - 1 && #[trigger] s.drop_first()[i] == (l, lookup(s, l)->0);
        assert(s[i + 1] == (l, lookup(s, l)->0));
    } else {
        assert(s[0] == (l, lookup(s, l)->0));
    }
}

} // verus!
