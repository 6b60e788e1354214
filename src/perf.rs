//! Performance counters of a dataization run.

use vstd::prelude::*;
use crate::text::{push_decimal, push_joined, push_str, sort_chars, string_of};

verus! {

/// The transitions of the engine, as counted.
#[derive(Debug, Clone, Copy, PartialEq, Eq, Hash, Structural)]
pub enum Transition {
    CPY,
    DEL,
    NEW,
    DLG,
    PPG,
    FIND,
}

/// The sum of the counts.
pub open spec fn sum_counts<K>(s: Seq<(K, usize)>) -> nat
    decreases s.len(),
{
    if s.len() == 0 {
        0
    } else {
        sum_counts(s.drop_last()) + s.last().1 as nat
    }
}

/// The count of the first entry for `k`.
pub open spec fn count_of<K>(s: Seq<(K, usize)>, k: K) -> Option<usize>
    decreases s.len(),
{
    if s.len() == 0 {
        None
    } else if s[0].0 == k {
        Some(s[0].1)
    } else {
        count_of(s.drop_first(), k)
    }
}

/// A sum that stops at the largest `usize`.
pub open spec fn capped(n: nat) -> usize {
    if n > usize::MAX {
        usize::MAX
    } else {
        n as usize
    }
}

/// A count plus one, stopping at the largest `usize`.
pub open spec fn inc(c: usize) -> usize {
    if c < usize::MAX {
        (c + 1) as usize
    } else {
        c
    }
}

/// The counters after counting `k` once more: the first entry for `k` goes up
/// by one, or a new entry with count one is added at the end.
pub open spec fn bump_seq<K>(s: Seq<(K, usize)>, k: K) -> Seq<(K, usize)>
    decreases s.len(),
{
    if s.len() == 0 {
        seq![(k, 1usize)]
    } else if s[0].0 == k {
        s.update(0, (k, inc(s[0].1)))
    } else {
        seq![s[0]] + bump_seq(s.drop_first(), k)
    }
}

/// The counters after counting `k` `n` more times.
pub open spec fn bump_n<K>(s: Seq<(K, usize)>, k: K, n: nat) -> Seq<(K, usize)>
    decreases n,
{
    if n == 0 {
        s
    } else {
        bump_seq(bump_n(s, k, (n - 1) as nat), k)
    }
}

/// Counting zero or one more times.
pub proof fn lemma_bump_n_small<K>(s: Seq<(K, usize)>, k: K)
    ensures
        bump_n(s, k, 0) == s,
        bump_n(s, k, 1) == bump_seq(s, k),
{
    assert(bump_n(s, k, 0) == s);
}

proof fn lemma_bump_at<K>(s: Seq<(K, usize)>, k: K, i: int)
    requires
        0 <= i < s.len(),
        s[i].0 == k,
        forall|j: int| 0 <= j < i ==> (#[trigger] s[j]).0 != k,
    ensures
        bump_seq(s, k) == s.update(i, (k, inc(s[i].1))),
    decreases i,
{
    if i > 0 {
        lemma_bump_at(s.drop_first(), k, i - 1);
        assert(bump_seq(s, k) =~= s.update(i, (k, inc(s[i].1))));
    }
}

proof fn lemma_bump_new<K>(s: Seq<(K, usize)>, k: K)
    requires
        forall|j: int| 0 <= j < s.len() ==> (#[trigger] s[j]).0 != k,
    ensures
        bump_seq(s, k) == s.push((k, 1usize)),
    decreases s.len(),
{
    if s.len() > 0 {
        assert forall|j: int| 0 <= j < s.drop_first().len() implies (#[trigger] s.drop_first()[j]).0 != k by {
            assert(s.drop_first()[j] == s[j + 1]);
        }
        lemma_bump_new(s.drop_first(), k);
        assert(bump_seq(s, k) =~= s.push((k, 1usize)));
    } else {
        assert(bump_seq(s, k) =~= s.push((k, 1usize)));
    }
}

/// Counting once more adds one to the sum, below the largest count.
pub proof fn lemma_bump_sum<K>(s: Seq<(K, usize)>, k: K)
    ensures
        sum_counts(bump_seq(s, k)) == sum_counts(s) + 1 || (count_of(s, k) == Some(usize::MAX)
            && sum_counts(bump_seq(s, k)) == sum_counts(s)),
        count_of(bump_seq(s, k), k) == Some(match count_of(s, k) {
            Some(c) => inc(c),
            None => 1usize,
        }),
    decreases s.len(),
{
    if s.len() == 0 {
        assert(bump_seq(s, k).drop_last() =~= s);
        assert(bump_seq(s, k).drop_first().len() == 0);
    } else if s[0].0 == k {
        lemma_sum_update(s, 0, (k, inc(s[0].1)));
    } else {
        lemma_bump_sum(s.drop_first(), k);
        lemma_sum_prepend(s[0], s.drop_first());
        lemma_sum_prepend(s[0], bump_seq(s.drop_first(), k));
        assert(s =~= seq![s[0]] + s.drop_first());
        assert((seq![s[0]] + bump_seq(s.drop_first(), k)).drop_first() =~= bump_seq(s.drop_first(), k));
    }
}

proof fn lemma_sum_prepend<K>(e: (K, usize), s: Seq<(K, usize)>)
    ensures
        sum_counts(seq![e] + s) == e.1 + sum_counts(s),
    decreases s.len(),
{
    if s.len() == 0 {
        assert((seq![e] + s).drop_last() =~= Seq::<(K, usize)>::empty());
        assert((seq![e] + s).last() == e);
        assert(sum_counts(Seq::<(K, usize)>::empty()) == 0);
    } else {
        lemma_sum_prepend(e, s.drop_last());
        assert((seq![e] + s).drop_last() =~= seq![e] + s.drop_last());
        assert((seq![e] + s).last() == s.last());
    }
}

/// Counters by transition.
#[derive(Debug)]
pub struct Tally {
    entries: Vec<(Transition, usize)>,
}

impl View for Tally {
    type V = Seq<(Transition, usize)>;

    closed spec fn view(&self) -> Seq<(Transition, usize)> {
        self.entries@
    }
}

proof fn lemma_count_at<K>(s: Seq<(K, usize)>, k: K, i: int)
    requires
        0 <= i < s.len(),
        s[i].0 == k,
        forall|j: int| 0 <= j < i ==> (#[trigger] s[j]).0 != k,
    ensures
        count_of(s, k) == Some(s[i].1),
    decreases i,
{
    if i > 0 {
        lemma_count_at(s.drop_first(), k, i - 1);
    }
}

proof fn lemma_count_none<K>(s: Seq<(K, usize)>, k: K)
    requires
        forall|j: int| 0 <= j < s.len() ==> (#[trigger] s[j]).0 != k,
    ensures
        count_of(s, k) is None,
    decreases s.len(),
{
    if s.len() > 0 {
        lemma_count_none(s.drop_first(), k);
    }
}

proof fn lemma_sum_update<K>(s: Seq<(K, usize)>, i: int, e: (K, usize))
    requires
        0 <= i < s.len(),
    ensures
        sum_counts(s.update(i, e)) == sum_counts(s) - s[i].1 + e.1,
    decreases s.len(),
{
    if i < s.len() - 1 {
        lemma_sum_update(s.drop_last(), i, e);
        assert(s.update(i, e).drop_last() =~= s.drop_last().update(i, e));
    } else {
        assert(s.update(i, e).drop_last() =~= s.drop_last());
    }
}

impl Tally {
    /// No counts.
    pub fn new() -> (r: Tally)
        ensures
            r@.len() == 0,
    {
        Tally { entries: Vec::new() }
    }

    /// The count of a transition, if it was ever counted.
    pub fn get(&self, t: &Transition) -> (r: Option<&usize>)
        ensures
            match r {
                Some(c) => count_of(self@, *t) == Some(*c),
                None => count_of(self@, *t) is None,
            },
    {
        let mut i: usize = 0;
        while i < self.entries.len()
            invariant
                i <= self.entries.len(),
                forall|j: int| 0 <= j < i ==> (#[trigger] self@[j]).0 != *t,
            decreases self.entries.len() - i,
        {
            if self.entries[i].0 == *t {
                proof {
                    lemma_count_at(self@, *t, i as int);
                }
                return Some(&self.entries[i].1);
            }
            i = i + 1;
        }
        proof {
            lemma_count_none(self@, *t);
        }
        None
    }

    /// Adds one to the count of a transition, stopping at the largest `usize`.
    pub fn bump(&mut self, t: Transition)
        ensures
            final(self)@ == bump_seq(old(self)@, t),
    {
        let mut i: usize = 0;
        while i < self.entries.len()
            invariant
                i <= self.entries.len(),
                self@ == old(self)@,
                forall|j: int| 0 <= j < i ==> (#[trigger] self@[j]).0 != t,
            decreases self.entries.len() - i,
        {
            if self.entries[i].0 == t {
                let c = self.entries[i].1;
                proof {
                    lemma_bump_at(self@, t, i as int);
                }
                let n = if c < usize::MAX { c + 1 } else { c };
                self.entries.set(i, (t, n));
                return;
            }
            i = i + 1;
        }
        proof {
            lemma_bump_new(self@, t);
        }
        self.entries.push((t, 1));
    }

    /// The sum of the counts, stopping at the largest `usize`.
    pub fn total(&self) -> (r: usize)
        ensures
            r == capped(sum_counts(self@)),
    {
        let mut acc: usize = 0;
        let mut i: usize = 0;
        while i < self.entries.len()
            invariant
                i <= self.entries.len(),
                acc == capped(sum_counts(self@.subrange(0, i as int))),
            decreases self.entries.len() - i,
        {
            let c = self.entries[i].1;
            assert(self@.subrange(0, i + 1).drop_last() =~= self@.subrange(0, i as int));
            if acc > usize::MAX - c {
                acc = usize::MAX;
            } else {
                acc = acc + c;
            }
            i = i + 1;
        }
        assert(self@.subrange(0, self@.len() as int) =~= self@);
        acc
    }

    /// One line per counter, `name: count`, in the order of entry.
    fn lines(&self) -> Vec<Vec<char>> {
        let mut out: Vec<Vec<char>> = Vec::new();
        let mut i: usize = 0;
        while i < self.entries.len()
            invariant
                i <= self.entries.len(),
            decreases self.entries.len() - i,
        {
            let mut line: Vec<char> = Vec::new();
            line.push('\t');
            push_str(&mut line, transition_name(self.entries[i].0));
            push_str(&mut line, ": ");
            push_decimal(&mut line, self.entries[i].1 as u64);
            out.push(line);
            i = i + 1;
        }
        out
    }
}

proof fn lemma_sum_ge<K>(s: Seq<(K, usize)>, i: int)
    requires
        0 <= i < s.len(),
    ensures
        sum_counts(s) >= s[i].1,
    decreases s.len(),
{
    if i < s.len() - 1 {
        lemma_sum_ge(s.drop_last(), i);
    }
}

/// The name of a transition.
pub fn transition_name(t: Transition) -> &'static str {
    match t {
        Transition::CPY => "CPY",
        Transition::DEL => "DEL",
        Transition::NEW => "NEW",
        Transition::DLG => "DLG",
        Transition::PPG => "PPG",
        Transition::FIND => "FIND",
    }
}

/// Counters by atom name.
#[derive(Debug)]
pub struct AtomTally {
    entries: Vec<(String, usize)>,
}

impl View for AtomTally {
    type V = Seq<(Seq<char>, usize)>;

    closed spec fn view(&self) -> Seq<(Seq<char>, usize)> {
        self.entries@.map_values(|e: (String, usize)| (e.0@, e.1))
    }
}

impl AtomTally {
    /// No counts.
    pub fn new() -> (r: AtomTally)
        ensures
            r@.len() == 0,
    {
        AtomTally { entries: Vec::new() }
    }

    /// Adds one to the count of an atom, stopping at the largest `usize`.
    pub fn bump(&mut self, a: String)
        ensures
            final(self)@ == bump_seq(old(self)@, a@),
    {
        let mut i: usize = 0;
        while i < self.entries.len()
            invariant
                i <= self.entries.len(),
                self@ == old(self)@,
                forall|j: int| 0 <= j < i ==> (#[trigger] self@[j]).0 != a@,
            decreases self.entries.len() - i,
        {
            if self.entries[i].0 == a {
                let c = self.entries[i].1;
                let ghost s = self@;
                proof {
                    lemma_bump_at(s, a@, i as int);
                }
                let n = if c < usize::MAX { c + 1 } else { c };
                self.entries.set(i, (a, n));
                assert(self@ =~= s.update(i as int, (a@, inc(c))));
                return;
            }
            i = i + 1;
        }
        let ghost s = self@;
        proof {
            lemma_bump_new(s, a@);
        }
        self.entries.push((a, 1));
        assert(self@ =~= s.push((a@, 1usize)));
    }

    /// The sum of the counts, stopping at the largest `usize`.
    pub fn total(&self) -> (r: usize)
        ensures
            r == capped(sum_counts(self@)),
    {
        let mut acc: usize = 0;
        let mut i: usize = 0;
        while i < self.entries.len()
            invariant
                i <= self.entries.len(),
                acc == capped(sum_counts(self@.subrange(0, i as int))),
            decreases self.entries.len() - i,
        {
            let c = self.entries[i].1;
            assert(self@.subrange(0, i + 1).drop_last() =~= self@.subrange(0, i as int));
            if acc > usize::MAX - c {
                acc = usize::MAX;
            } else {
                acc = acc + c;
            }
            i = i + 1;
        }
        assert(self@.subrange(0, self@.len() as int) =~= self@);
        acc
    }

    fn lines(&self) -> Vec<Vec<char>> {
        let mut out: Vec<Vec<char>> = Vec::new();
        let mut i: usize = 0;
        while i < self.entries.len()
            invariant
                i <= self.entries.len(),
            decreases self.entries.len() - i,
        {
            let mut line: Vec<char> = Vec::new();
            line.push('\t');
            push_str(&mut line, self.entries[i].0.as_str());
            push_str(&mut line, ": ");
            push_decimal(&mut line, self.entries[i].1 as u64);
            out.push(line);
            i = i + 1;
        }
        out
    }
}

/// The counters of one dataization run.
#[derive(Debug)]
pub struct Perf {
    pub cycles: usize,
    pub peak: usize,
    pub atoms: AtomTally,
    pub hits: Tally,
    pub ticks: Tally,
}

fn push_section(out: &mut Vec<char>, title: &str, lines: Vec<Vec<char>>, total: usize) {
    push_str(out, title);
    push_str(out, ":\n");
    let sorted = sort_chars(lines);
    let mut nl: Vec<char> = Vec::new();
    nl.push('\n');
    push_joined(out, &sorted, &nl);
    if sorted.len() > 0 {
        out.push('\n');
    }
    push_str(out, "\tTotal: ");
    push_decimal(out, total as u64);
}

impl Perf {
    /// All counters at zero.
    pub fn new() -> (r: Perf)
        ensures
            r.cycles == 0,
            r.peak == 0,
            r.atoms@.len() == 0,
            r.hits@.len() == 0,
            r.ticks@.len() == 0,
    {
        Perf { atoms: AtomTally::new(), ticks: Tally::new(), hits: Tally::new(), cycles: 0, peak: 0 }
    }

    /// Counts one evaluation of a transition's guard.
    pub fn tick(&mut self, t: Transition)
        ensures
            final(self).hits@ == old(self).hits@,
            final(self).atoms@ == old(self).atoms@,
            final(self).cycles == old(self).cycles,
            final(self).peak == old(self).peak,
            final(self).ticks@ == bump_seq(old(self).ticks@, t),
    {
        self.ticks.bump(t);
    }

    /// Counts one transition that changed the state.
    pub fn hit(&mut self, t: Transition)
        ensures
            final(self).ticks@ == old(self).ticks@,
            final(self).atoms@ == old(self).atoms@,
            final(self).cycles == old(self).cycles,
            final(self).peak == old(self).peak,
            final(self).hits@ == bump_seq(old(self).hits@, t),
    {
        self.hits.bump(t);
    }

    /// Counts one invocation of an atom.
    pub fn atom(&mut self, a: String)
        ensures
            final(self).ticks@ == old(self).ticks@,
            final(self).hits@ == old(self).hits@,
            final(self).cycles == old(self).cycles,
            final(self).peak == old(self).peak,
            final(self).atoms@ == bump_seq(old(self).atoms@, a@),
    {
        self.atoms.bump(a);
    }

    /// Records the number of live baskets, keeping the largest seen.
    pub fn peak(&mut self, s: usize)
        ensures
            final(self).peak == if old(self).peak < s {
                s
            } else {
                old(self).peak
            },
            final(self).ticks == old(self).ticks,
            final(self).hits == old(self).hits,
            final(self).atoms == old(self).atoms,
            final(self).cycles == old(self).cycles,
    {
        if self.peak < s {
            self.peak = s;
        }
    }

    /// The number of transitions that changed the state.
    pub fn total_hits(&self) -> (r: usize)
        ensures
            r == capped(sum_counts(self.hits@)),
    {
        self.hits.total()
    }

    /// The number of guard evaluations.
    pub fn total_ticks(&self) -> (r: usize)
        ensures
            r == capped(sum_counts(self.ticks@)),
    {
        self.ticks.total()
    }

    /// The number of atom invocations.
    pub fn total_atoms(&self) -> (r: usize)
        ensures
            r == capped(sum_counts(self.atoms@)),
    {
        self.atoms.total()
    }

    /// A report: cycles, peak, then each group of counters sorted by name with its total.
    pub fn to_string(&self) -> String {
        let mut out: Vec<char> = Vec::new();
        push_str(&mut out, "Cycles: ");
        push_decimal(&mut out, self.cycles as u64);
        push_str(&mut out, "\nPeak: ");
        push_decimal(&mut out, self.peak as u64);
        out.push('\n');
        push_section(&mut out, "Atoms", self.atoms.lines(), self.atoms.total());
        out.push('\n');
        push_section(&mut out, "Ticks", self.ticks.lines(), self.ticks.total());
        out.push('\n');
        push_section(&mut out, "Hits", self.hits.lines(), self.hits.total());
        string_of(&out)
    }
}

impl Default for Perf {
    fn default() -> (r: Perf)
        ensures
            r.cycles == 0,
            r.peak == 0,
            r.atoms@.len() == 0,
            r.hits@.len() == 0,
            r.ticks@.len() == 0,
    {
        Perf::new()
    }
}

} // verus!
