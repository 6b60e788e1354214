//! Character-level helpers shared by the printers and parsers.

use vstd::prelude::*;
use vstd::std_specs::iter::IteratorSpec;

verus! {

/// Relies on `String::push`: the character is appended at the end.
#[verifier::external_body]
fn push_char(s: &mut String, c: char)
    ensures
        final(s)@ == old(s)@.push(c),
{
    s.push(c)
}

/// The characters of a string slice, in order.
pub fn chars_of(s: &str) -> (r: Vec<char>)
    ensures
        r@ == s@,
{
    let mut it = s.chars();
    let mut out: Vec<char> = Vec::new();
    loop
        invariant_except_break
            it.obeys_prophetic_iter_laws(),
            it.decrease() is Some,
        invariant
            out@ + it.remaining() == s@,
        ensures
            out@ == s@,
        decreases it.decrease()->0,
    {
        match it.next() {
            Some(c) => {
                out.push(c);
            },
            None => {
                assert(out@ + it.remaining() =~= out@);
                break;
            },
        }
    }
    out
}

/// A string made of the given characters.
pub fn string_of(cs: &Vec<char>) -> (r: String)
    ensures
        r@ == cs@,
{
    let mut s = String::new();
    let mut i: usize = 0;
    while i < cs.len()
        invariant
            i <= cs.len(),
            s@ == cs@.subrange(0, i as int),
        decreases cs.len() - i,
    {
        push_char(&mut s, cs[i]);
        i = i + 1;
        assert(s@ =~= cs@.subrange(0, i as int));
    }
    assert(cs@.subrange(0, cs.len() as int) =~= cs@);
    s
}

} // verus!

verus! {

/// The character for a decimal digit.
pub open spec fn digit_char(d: nat) -> char {
    ((d + 48) as u32) as char
}

/// True for the ASCII decimal digits.
pub open spec fn is_digit(c: char) -> bool {
    '0' <= c && c <= '9'
}

/// The value of a decimal digit character.
pub open spec fn digit_value(c: char) -> nat {
    ((c as u32) - 48) as nat
}

/// A non-empty run of decimal digits.
pub open spec fn all_digits(s: Seq<char>) -> bool {
    s.len() > 0 && forall|i: int| 0 <= i < s.len() ==> #[trigger] is_digit(s[i])
}

/// The number that a run of decimal digits denotes.
pub open spec fn digits_value(s: Seq<char>) -> nat
    decreases s.len(),
{
    if s.len() == 0 {
        0
    } else {
        digits_value(s.drop_last()) * 10 + digit_value(s.last())
    }
}

/// The shortest decimal writing of a natural number.
pub open spec fn decimal(n: nat) -> Seq<char>
    decreases n,
{
    if n < 10 {
        seq![digit_char(n)]
    } else {
        decimal(n / 10).push(digit_char(n % 10))
    }
}

/// The decimal writing of a signed number, with a leading minus when negative.
pub open spec fn signed_decimal(n: int) -> Seq<char> {
    if n < 0 {
        seq!['-'].add(decimal((-n) as nat))
    } else {
        decimal(n as nat)
    }
}

/// Reading back the decimal writing of `n` gives `n`.
pub proof fn lemma_decimal_round_trip(n: nat)
    ensures
        all_digits(decimal(n)),
        digits_value(decimal(n)) == n,
    decreases n,
{
    reveal_with_fuel(decimal, 2);
    if n < 10 {
        assert(decimal(n).drop_last() =~= Seq::<char>::empty());
        assert(digit_value(digit_char(n)) == n);
        assert(digits_value(Seq::<char>::empty()) == 0);
        assert(digits_value(decimal(n)) == digits_value(Seq::<char>::empty()) * 10 + digit_value(
            digit_char(n),
        ));
    } else {
        lemma_decimal_round_trip(n / 10);
        assert(decimal(n).drop_last() =~= decimal(n / 10));
        assert(digit_value(digit_char(n % 10)) == n % 10);
        assert(n == (n / 10) * 10 + n % 10);
        assert(decimal(n).last() == digit_char(n % 10));
        assert(digits_value(decimal(n)) == digits_value(decimal(n / 10)) * 10 + digit_value(
            digit_char(n % 10),
        ));
        assert forall|i: int| 0 <= i < decimal(n).len() implies #[trigger] is_digit(decimal(n)[i]) by {
            if i < decimal(n / 10).len() {
                assert(is_digit(decimal(n / 10)[i]));
            }
        }
    }
}

/// The character of a decimal digit.
pub fn digit_to_char(d: u64) -> (c: char)
    requires
        d < 10,
    ensures
        c == digit_char(d as nat),
        is_digit(c),
        digit_value(c) == d,
{
    if d == 0 { '0' } else if d == 1 { '1' } else if d == 2 { '2' } else if d == 3 { '3' }
    else if d == 4 { '4' } else if d == 5 { '5' } else if d == 6 { '6' } else if d == 7 { '7' }
    else if d == 8 { '8' } else { '9' }
}

/// Appends the decimal writing of `n`.
pub fn push_decimal(out: &mut Vec<char>, n: u64)
    ensures
        final(out)@ == old(out)@ + decimal(n as nat),
    decreases n,
{
    let ghost before = out@;
    if n >= 10 {
        push_decimal(out, n / 10);
    }
    let c = digit_to_char(n % 10);
    out.push(c);
    proof {
        reveal_with_fuel(decimal, 2);
        assert(out@ =~= before + decimal(n as nat));
    }
}

/// A longer run of digits never denotes a smaller number.
proof fn lemma_digits_prefix(s: Seq<char>, i: int)
    requires
        0 <= i <= s.len(),
    ensures
        digits_value(s.subrange(0, i)) <= digits_value(s),
    decreases s.len() - i,
{
    if i < s.len() {
        lemma_digits_prefix(s, i + 1);
        assert(s.subrange(0, i + 1).drop_last() =~= s.subrange(0, i));
    } else {
        assert(s.subrange(0, i) =~= s);
    }
}

/// Reads the decimal number written in `s[lo..hi]`, if it is a non-empty run of
/// digits whose value is at most `limit`.
pub fn parse_decimal(s: &Vec<char>, lo: usize, hi: usize, limit: u64) -> (r: Option<u64>)
    requires
        lo <= hi <= s.len(),
    ensures
        r is Some <==> (all_digits(s@.subrange(lo as int, hi as int)) && digits_value(
            s@.subrange(lo as int, hi as int),
        ) <= limit),
        r matches Some(v) ==> v == digits_value(s@.subrange(lo as int, hi as int)),
{
    let ghost w = s@.subrange(lo as int, hi as int);
    if lo == hi {
        return None;
    }
    let mut acc: u64 = 0;
    let mut i: usize = lo;
    while i < hi
        invariant
            lo <= i <= hi <= s.len(),
            w == s@.subrange(lo as int, hi as int),
            forall|j: int| lo <= j < i ==> #[trigger] is_digit(s@[j]),
            acc == digits_value(s@.subrange(lo as int, i as int)),
            acc <= limit,
        decreases hi - i,
    {
        let c = s[i];
        if !('0' <= c && c <= '9') {
            assert(!is_digit(w[i - lo]));
            return None;
        }
        let d: u64 = (c as u32 - 48) as u64;
        assert(s@.subrange(lo as int, i + 1).drop_last() =~= s@.subrange(lo as int, i as int));
        if d > limit || acc > (limit - d) / 10 {
            proof {
                if d <= limit {
                    assert(acc * 10 + d > limit) by (nonlinear_arith)
                        requires
                            acc > (limit - d) / 10,
                            d <= limit,
                    ;
                }
                assert(w.subrange(0, i + 1 - lo) =~= s@.subrange(lo as int, i + 1));
                lemma_digits_prefix(w, i + 1 - lo);
            }
            return None;
        }
        proof {
            assert(acc * 10 + d <= limit) by (nonlinear_arith)
                requires
                    acc <= (limit - d) / 10,
                    d <= limit,
            ;
        }
        acc = acc * 10 + d;
        i = i + 1;
    }
    assert(s@.subrange(lo as int, hi as int) =~= w);
    Some(acc)
}

/// The characters of each vector.
pub open spec fn views(v: Seq<Vec<char>>) -> Seq<Seq<char>> {
    v.map_values(|x: Vec<char>| x@)
}

/// The pieces of `s` between occurrences of `sep`; there is always at least one.
pub open spec fn split(s: Seq<char>, sep: char) -> Seq<Seq<char>>
    decreases s.len(),
{
    if s.len() == 0 {
        seq![Seq::<char>::empty()]
    } else {
        let r = split(s.drop_last(), sep);
        if s.last() == sep {
            r.push(Seq::<char>::empty())
        } else {
            r.update(r.len() - 1, r.last().push(s.last()))
        }
    }
}

/// `split` never returns an empty list.
pub proof fn lemma_split_len(s: Seq<char>, sep: char)
    ensures
        split(s, sep).len() >= 1,
    decreases s.len(),
{
    if s.len() > 0 {
        lemma_split_len(s.drop_last(), sep);
    }
}

/// The characters of `s[lo..hi]`.
pub fn slice_of(s: &Vec<char>, lo: usize, hi: usize) -> (r: Vec<char>)
    requires
        lo <= hi <= s.len(),
    ensures
        r@ == s@.subrange(lo as int, hi as int),
{
    let mut r: Vec<char> = Vec::new();
    let mut i: usize = lo;
    while i < hi
        invariant
            lo <= i <= hi <= s.len(),
            r@ == s@.subrange(lo as int, i as int),
        decreases hi - i,
    {
        r.push(s[i]);
        i = i + 1;
        assert(r@ =~= s@.subrange(lo as int, i as int));
    }
    r
}

/// Splits `s` at every `sep`.
pub fn split_at_char(s: &Vec<char>, sep: char) -> (r: Vec<Vec<char>>)
    ensures
        views(r@) == split(s@, sep),
        r@.len() >= 1,
{
    let mut parts: Vec<Vec<char>> = Vec::new();
    let mut cur: Vec<char> = Vec::new();
    let mut i: usize = 0;
    while i < s.len()
        invariant
            i <= s.len(),
            views(parts@).push(cur@) == split(s@.subrange(0, i as int), sep),
        decreases s.len() - i,
    {
        let c = s[i];
        let ghost prev = s@.subrange(0, i as int);
        assert(s@.subrange(0, i + 1).drop_last() =~= prev);
        proof {
            lemma_split_len(prev, sep);
        }
        if c == sep {
            let done = cur;
            parts.push(done);
            cur = Vec::new();
            assert(views(parts@).push(cur@) =~= split(prev, sep).push(Seq::<char>::empty()));
        } else {
            cur.push(c);
            assert(views(parts@).push(cur@) =~= split(prev, sep).update(
                split(prev, sep).len() - 1,
                split(prev, sep).last().push(c),
            ));
        }
        i = i + 1;
    }
    assert(s@.subrange(0, s.len() as int) =~= s@);
    parts.push(cur);
    assert(views(parts@) =~= split(s@, sep));
    parts
}

/// The characters that `trim` strips.
pub open spec fn is_space(c: char) -> bool {
    c == ' ' || c == '\t' || c == '\n' || c == '\r' || c == '\x0B' || c == '\x0C'
}

/// `s` without its leading spaces.
pub open spec fn trim_start(s: Seq<char>) -> Seq<char>
    decreases s.len(),
{
    if s.len() > 0 && is_space(s[0]) {
        trim_start(s.drop_first())
    } else {
        s
    }
}

/// `s` without its trailing spaces.
pub open spec fn trim_end(s: Seq<char>) -> Seq<char>
    decreases s.len(),
{
    if s.len() > 0 && is_space(s.last()) {
        trim_end(s.drop_last())
    } else {
        s
    }
}

/// `s` without spaces at either end.
pub open spec fn trim(s: Seq<char>) -> Seq<char> {
    trim_end(trim_start(s))
}

proof fn lemma_trim_start(s: Seq<char>, lo: int)
    requires
        0 <= lo <= s.len(),
        forall|j: int| 0 <= j < lo ==> #[trigger] is_space(s[j]),
        lo == s.len() || !is_space(s[lo]),
    ensures
        trim_start(s) == s.subrange(lo, s.len() as int),
    decreases lo,
{
    if lo > 0 {
        lemma_trim_start(s.drop_first(), lo - 1);
        assert(s.drop_first().subrange(lo - 1, s.len() - 1) =~= s.subrange(lo, s.len() as int));
    } else {
        assert(s.subrange(0, s.len() as int) =~= s);
    }
}

proof fn lemma_trim_end(s: Seq<char>, hi: int)
    requires
        0 <= hi <= s.len(),
        forall|j: int| hi <= j < s.len() ==> #[trigger] is_space(s[j]),
        hi == 0 || !is_space(s[hi - 1]),
    ensures
        trim_end(s) == s.subrange(0, hi),
    decreases s.len() - hi,
{
    if hi < s.len() {
        lemma_trim_end(s.drop_last(), hi);
        assert(s.drop_last().subrange(0, hi) =~= s.subrange(0, hi));
    } else {
        assert(s.subrange(0, hi) =~= s);
    }
}

/// `s` without spaces at either end.
pub fn trim_chars(s: &Vec<char>) -> (r: Vec<char>)
    ensures
        r@ == trim(s@),
{
    let mut lo: usize = 0;
    while lo < s.len() && (s[lo] == ' ' || s[lo] == '\t' || s[lo] == '\n' || s[lo] == '\r'
        || s[lo] == '\x0B' || s[lo] == '\x0C')
        invariant
            lo <= s.len(),
            forall|j: int| 0 <= j < lo ==> #[trigger] is_space(s@[j]),
        decreases s.len() - lo,
    {
        lo = lo + 1;
    }
    proof {
        lemma_trim_start(s@, lo as int);
    }
    let mut hi: usize = s.len();
    while hi > lo && (s[hi - 1] == ' ' || s[hi - 1] == '\t' || s[hi - 1] == '\n' || s[hi - 1]
        == '\r' || s[hi - 1] == '\x0B' || s[hi - 1] == '\x0C')
        invariant
            lo <= hi <= s.len(),
            forall|j: int| hi <= j < s.len() ==> #[trigger] is_space(s@[j]),
        decreases hi,
    {
        hi = hi - 1;
    }
    let ghost t = s@.subrange(lo as int, s.len() as int);
    proof {
        assert forall|j: int| hi - lo <= j < t.len() implies #[trigger] is_space(t[j]) by {
            assert(t[j] == s@[j + lo]);
        }
        if hi > lo {
            assert(t[hi - lo - 1] == s@[hi - 1]);
        }
        lemma_trim_end(t, hi - lo);
        assert(t.subrange(0, hi - lo) =~= s@.subrange(lo as int, hi as int));
    }
    slice_of(s, lo, hi)
}

/// The pieces joined with `sep` between neighbours.
pub open spec fn join(parts: Seq<Seq<char>>, sep: Seq<char>) -> Seq<char>
    decreases parts.len(),
{
    if parts.len() == 0 {
        Seq::empty()
    } else if parts.len() == 1 {
        parts[0]
    } else {
        join(parts.drop_last(), sep) + sep + parts.last()
    }
}

/// Appends the pieces joined with `sep`.
pub fn push_joined(out: &mut Vec<char>, parts: &Vec<Vec<char>>, sep: &Vec<char>)
    ensures
        final(out)@ == old(out)@ + join(views(parts@), sep@),
{
    let ghost before = out@;
    let mut i: usize = 0;
    while i < parts.len()
        invariant
            i <= parts.len(),
            out@ == before + join(views(parts@).subrange(0, i as int), sep@),
        decreases parts.len() - i,
    {
        let ghost pre = views(parts@).subrange(0, i as int);
        if i > 0 {
            push_all(out, sep);
        }
        push_all(out, &parts[i]);
        i = i + 1;
        proof {
            let now = views(parts@).subrange(0, i as int);
            assert(now.drop_last() =~= pre);
            assert(now.last() == parts@[i - 1]@);
            if i == 1 {
                assert(out@ =~= before + join(now, sep@));
            } else {
                assert(out@ =~= before + join(now, sep@));
            }
        }
    }
    assert(views(parts@).subrange(0, parts.len() as int) =~= views(parts@));
}

/// Appends all of `s`.
pub fn push_all(out: &mut Vec<char>, s: &Vec<char>)
    ensures
        final(out)@ == old(out)@ + s@,
{
    let ghost before = out@;
    let mut i: usize = 0;
    while i < s.len()
        invariant
            i <= s.len(),
            out@ == before + s@.subrange(0, i as int),
        decreases s.len() - i,
    {
        out.push(s[i]);
        i = i + 1;
        assert(out@ =~= before + s@.subrange(0, i as int));
    }
    assert(s@.subrange(0, s.len() as int) =~= s@);
}

/// Appends the characters of a string slice.
pub fn push_str(out: &mut Vec<char>, s: &str)
    ensures
        final(out)@ == old(out)@ + s@,
{
    let cs = chars_of(s);
    push_all(out, &cs);
}

/// Lexicographic order on character sequences, by code point.
pub open spec fn seq_le(a: Seq<char>, b: Seq<char>) -> bool
    decreases a.len(),
{
    if a.len() == 0 {
        true
    } else if b.len() == 0 {
        false
    } else if (a[0] as u32) != (b[0] as u32) {
        (a[0] as u32) < (b[0] as u32)
    } else {
        seq_le(a.drop_first(), b.drop_first())
    }
}

/// Puts `x` before the first element that is not smaller than it.
pub open spec fn insert_sorted(x: Seq<char>, s: Seq<Seq<char>>) -> Seq<Seq<char>>
    decreases s.len(),
{
    if s.len() == 0 {
        seq![x]
    } else if seq_le(x, s[0]) {
        seq![x] + s
    } else {
        seq![s[0]] + insert_sorted(x, s.drop_first())
    }
}

/// The elements of `s` in lexicographic order.
pub open spec fn sort_seqs(s: Seq<Seq<char>>) -> Seq<Seq<char>>
    decreases s.len(),
{
    if s.len() == 0 {
        Seq::empty()
    } else {
        insert_sorted(s.last(), sort_seqs(s.drop_last()))
    }
}

/// Whether `a` comes no later than `b` in lexicographic order.
pub fn chars_le(a: &Vec<char>, b: &Vec<char>) -> (r: bool)
    ensures
        r == seq_le(a@, b@),
{
    let mut i: usize = 0;
    assert(a@.subrange(0, a.len() as int) =~= a@);
    assert(b@.subrange(0, b.len() as int) =~= b@);
    while i < a.len() && i < b.len() && (a[i] as u32) == (b[i] as u32)
        invariant
            i <= a.len(),
            i <= b.len(),
            seq_le(a@, b@) == seq_le(a@.subrange(i as int, a.len() as int), b@.subrange(
                i as int,
                b.len() as int,
            )),
        decreases a.len() - i,
    {
        let ghost sa = a@.subrange(i as int, a.len() as int);
        let ghost sb = b@.subrange(i as int, b.len() as int);
        assert(sa.drop_first() =~= a@.subrange(i + 1, a.len() as int));
        assert(sb.drop_first() =~= b@.subrange(i + 1, b.len() as int));
        i = i + 1;
    }
    let ghost sa = a@.subrange(i as int, a.len() as int);
    let ghost sb = b@.subrange(i as int, b.len() as int);
    if i == a.len() {
        assert(sa.len() == 0);
        true
    } else if i == b.len() {
        false
    } else {
        assert(sa[0] == a@[i as int] && sb[0] == b@[i as int]);
        (a[i] as u32) < (b[i] as u32)
    }
}

proof fn lemma_insert_at(x: Seq<char>, s: Seq<Seq<char>>, k: int)
    requires
        0 <= k <= s.len(),
        forall|j: int| 0 <= j < k ==> !seq_le(x, #[trigger] s[j]),
        k == s.len() || seq_le(x, s[k]),
    ensures
        insert_sorted(x, s) == s.subrange(0, k).push(x) + s.subrange(k, s.len() as int),
    decreases k,
{
    if k == 0 {
        if s.len() == 0 {
            assert(insert_sorted(x, s) =~= s.subrange(0, k).push(x) + s.subrange(k, s.len() as int));
        } else {
            assert(insert_sorted(x, s) =~= s.subrange(0, k).push(x) + s.subrange(k, s.len() as int));
        }
    } else {
        assert(!seq_le(x, s[0]));
        lemma_insert_at(x, s.drop_first(), k - 1);
        assert(insert_sorted(x, s) =~= s.subrange(0, k).push(x) + s.subrange(k, s.len() as int));
    }
}

/// The strings in lexicographic order.
pub fn sort_chars(v: Vec<Vec<char>>) -> (r: Vec<Vec<char>>)
    ensures
        views(r@) == sort_seqs(views(v@)),
{
    let mut out: Vec<Vec<char>> = Vec::new();
    let mut i: usize = 0;
    while i < v.len()
        invariant
            i <= v.len(),
            views(out@) == sort_seqs(views(v@).subrange(0, i as int)),
        decreases v.len() - i,
    {
        let x = v[i].clone();
        let mut k: usize = 0;
        while k < out.len() && !chars_le(&x, &out[k])
            invariant
                k <= out.len(),
                x@ == v@[i as int]@,
                forall|j: int| 0 <= j < k ==> !seq_le(x@, #[trigger] views(out@)[j]),
            decreases out.len() - k,
        {
            k = k + 1;
        }
        proof {
            lemma_insert_at(x@, views(out@), k as int);
            let pre = views(v@).subrange(0, i as int);
            assert(views(v@).subrange(0, i + 1).drop_last() =~= pre);
        }
        let ghost before = views(out@);
        out.insert(k, x);
        assert(views(out@) =~= before.subrange(0, k as int).push(x@) + before.subrange(
            k as int,
            before.len() as int,
        ));
        i = i + 1;
    }
    assert(views(v@).subrange(0, v.len() as int) =~= views(v@));
    out
}

/// The character of a hexadecimal digit, in upper case.
pub open spec fn hex_char(d: nat) -> char {
    if d < 10 {
        digit_char(d)
    } else {
        ((d + 55) as u32) as char
    }
}

/// The value of a hexadecimal digit character of either case.
pub open spec fn hex_value(c: char) -> Option<nat> {
    if '0' <= c && c <= '9' {
        Some(((c as u32) - 48) as nat)
    } else if 'A' <= c && c <= 'F' {
        Some(((c as u32) - 55) as nat)
    } else if 'a' <= c && c <= 'f' {
        Some(((c as u32) - 87) as nat)
    } else {
        None
    }
}

/// A non-empty run of hexadecimal digits.
pub open spec fn all_hex(s: Seq<char>) -> bool {
    s.len() > 0 && forall|i: int| 0 <= i < s.len() ==> #[trigger] hex_value(s[i]) is Some
}

/// The number that a run of hexadecimal digits denotes.
pub open spec fn hex_digits_value(s: Seq<char>) -> nat
    decreases s.len(),
{
    if s.len() == 0 {
        0
    } else {
        hex_digits_value(s.drop_last()) * 16 + hex_value(s.last()).unwrap_or(0)
    }
}

/// Four hexadecimal digits, upper case, of a number below 65536.
pub open spec fn hex4(u: nat) -> Seq<char> {
    seq![hex_char((u / 4096) % 16), hex_char((u / 256) % 16), hex_char((u / 16) % 16), hex_char(u % 16)]
}

/// The bits of a 16-bit datum, read as an unsigned number.
pub open spec fn bits16(d: i16) -> nat {
    if d < 0 {
        (d + 65536) as nat
    } else {
        d as nat
    }
}

/// The datum whose bits, read as an unsigned number, are `u`.
pub open spec fn from_bits16(u: nat) -> i16 {
    if u >= 32768 {
        (u - 65536) as i16
    } else {
        u as i16
    }
}

fn hex_digit_to_char(d: u32) -> (c: char)
    requires
        d < 16,
    ensures
        c == hex_char(d as nat),
        hex_value(c) == Some(d as nat),
{
    if d < 10 {
        digit_to_char(d as u64)
    } else if d == 10 {
        'A'
    } else if d == 11 {
        'B'
    } else if d == 12 {
        'C'
    } else if d == 13 {
        'D'
    } else if d == 14 {
        'E'
    } else {
        'F'
    }
}

/// Appends the four hexadecimal digits of a datum's bits.
pub fn push_hex4(out: &mut Vec<char>, d: i16)
    ensures
        final(out)@ == old(out)@ + hex4(bits16(d)),
{
    let u: u32 = if d < 0 {
        (d as i32 + 65536) as u32
    } else {
        d as u32
    };
    assert(u == bits16(d));
    let ghost before = out@;
    out.push(hex_digit_to_char((u / 4096) % 16));
    out.push(hex_digit_to_char((u / 256) % 16));
    out.push(hex_digit_to_char((u / 16) % 16));
    out.push(hex_digit_to_char(u % 16));
    assert(out@ =~= before + hex4(bits16(d)));
}

/// Reading back four hexadecimal digits gives the number.
proof fn lemma_hex4_round_trip(u: nat)
    requires
        u < 65536,
    ensures
        all_hex(hex4(u)),
        hex_digits_value(hex4(u)) == u,
        hex4(u).len() == 4,
{
    let s = hex4(u);
    let a = (u / 4096) % 16;
    let b = (u / 256) % 16;
    let c = (u / 16) % 16;
    let d = u % 16;
    assert forall|k: nat| k < 16 implies #[trigger] hex_value(hex_char(k)) == Some(k) by {}
    assert(hex_value(s[0]) == Some(a));
    assert(hex_value(s[1]) == Some(b));
    assert(hex_value(s[2]) == Some(c));
    assert(hex_value(s[3]) == Some(d));
    assert(s.drop_last().drop_last().drop_last().drop_last() =~= Seq::<char>::empty());
    assert(s.drop_last().drop_last().drop_last() =~= seq![s[0]]);
    assert(s.drop_last().drop_last() =~= seq![s[0], s[1]]);
    assert(s.drop_last() =~= seq![s[0], s[1], s[2]]);
    reveal_with_fuel(hex_digits_value, 5);
    assert(hex_digits_value(seq![s[0]]) == a) by {
        assert(seq![s[0]].drop_last() =~= Seq::<char>::empty());
    }
    assert(hex_digits_value(seq![s[0], s[1]]) == a * 16 + b) by {
        assert(seq![s[0], s[1]].drop_last() =~= seq![s[0]]);
    }
    assert(hex_digits_value(seq![s[0], s[1], s[2]]) == (a * 16 + b) * 16 + c) by {
        assert(seq![s[0], s[1], s[2]].drop_last() =~= seq![s[0], s[1]]);
    }
    assert(((a * 16 + b) * 16 + c) * 16 + d == u) by (nonlinear_arith)
        requires
            u < 65536,
            a == (u / 4096) % 16,
            b == (u / 256) % 16,
            c == (u / 16) % 16,
            d == u % 16,
    ;
}

/// Reads the hexadecimal number written in `s[lo..hi]`, if it is a non-empty run of
/// hexadecimal digits whose value is below 65536.
pub fn parse_hex16(s: &Vec<char>, lo: usize, hi: usize) -> (r: Option<u32>)
    requires
        lo <= hi <= s.len(),
    ensures
        r is Some <==> (all_hex(s@.subrange(lo as int, hi as int)) && hex_digits_value(
            s@.subrange(lo as int, hi as int),
        ) < 65536),
        r matches Some(v) ==> v == hex_digits_value(s@.subrange(lo as int, hi as int)),
{
    let ghost w = s@.subrange(lo as int, hi as int);
    if lo == hi {
        return None;
    }
    let mut acc: u32 = 0;
    let mut i: usize = lo;
    while i < hi
        invariant
            lo <= i <= hi <= s.len(),
            w == s@.subrange(lo as int, hi as int),
            forall|j: int| lo <= j < i ==> #[trigger] hex_value(s@[j]) is Some,
            acc == hex_digits_value(s@.subrange(lo as int, i as int)),
            acc < 65536,
        decreases hi - i,
    {
        let c = s[i];
        let d: u32 = if '0' <= c && c <= '9' {
            c as u32 - 48
        } else if 'A' <= c && c <= 'F' {
            c as u32 - 55
        } else if 'a' <= c && c <= 'f' {
            c as u32 - 87
        } else {
            assert(hex_value(w[i - lo]) is None);
            return None;
        };
        assert(s@.subrange(lo as int, i + 1).drop_last() =~= s@.subrange(lo as int, i as int));
        if acc >= 4096 {
            proof {
                assert(w.subrange(0, i + 1 - lo) =~= s@.subrange(lo as int, i + 1));
                lemma_hex_prefix(w, i + 1 - lo);
            }
            return None;
        }
        acc = acc * 16 + d;
        i = i + 1;
    }
    assert(s@.subrange(lo as int, hi as int) =~= w);
    Some(acc)
}

proof fn lemma_hex_prefix(s: Seq<char>, i: int)
    requires
        0 <= i <= s.len(),
    ensures
        hex_digits_value(s.subrange(0, i)) <= hex_digits_value(s),
    decreases s.len() - i,
{
    if i < s.len() {
        lemma_hex_prefix(s, i + 1);
        assert(s.subrange(0, i + 1).drop_last() =~= s.subrange(0, i));
    } else {
        assert(s.subrange(0, i) =~= s);
    }
}

/// The datum whose 16 bits are `u`.
pub fn datum_of_bits(u: u32) -> (d: i16)
    requires
        u < 65536,
    ensures
        d == from_bits16(u as nat),
{
    if u >= 32768 {
        (u as i32 - 65536) as i16
    } else {
        u as i16
    }
}

/// Reading back the four hexadecimal digits printed for a datum gives the datum.
pub proof fn lemma_datum_round_trip(d: i16)
    ensures
        all_hex(hex4(bits16(d))),
        hex_digits_value(hex4(bits16(d))) < 65536,
        from_bits16(hex_digits_value(hex4(bits16(d)))) == d,
{
    lemma_hex4_round_trip(bits16(d));
}

/// True when `c` does not occur in `s`.
pub open spec fn lacks(s: Seq<char>, c: char) -> bool {
    forall|i: int| 0 <= i < s.len() ==> #[trigger] s[i] != c
}

proof fn lemma_split_tail(a: Seq<char>, b: Seq<char>, sep: char)
    requires
        lacks(b, sep),
    ensures
        split(a + b, sep) == split(a, sep).update(
            split(a, sep).len() - 1,
            split(a, sep).last() + b,
        ),
    decreases b.len(),
{
    lemma_split_len(a, sep);
    if b.len() == 0 {
        assert(a + b =~= a);
        assert(split(a, sep).last() + b =~= split(a, sep).last());
        assert(split(a, sep).update(split(a, sep).len() - 1, split(a, sep).last() + b) =~= split(
            a,
            sep,
        ));
    } else {
        let b1 = b.drop_last();
        assert(lacks(b1, sep)) by {
            assert forall|i: int| 0 <= i < b1.len() implies #[trigger] b1[i] != sep by {
                assert(b1[i] == b[i]);
            }
        }
        lemma_split_tail(a, b1, sep);
        assert((a + b).drop_last() =~= a + b1);
        assert(b.last() != sep) by {
            assert(b[b.len() - 1] != sep);
        }
        lemma_split_len(a + b1, sep);
        assert(split(a + b, sep) =~= split(a, sep).update(
            split(a, sep).len() - 1,
            split(a, sep).last() + b,
        )) by {
            let r1 = split(a + b1, sep);
            assert(split(a + b, sep) == r1.update(r1.len() - 1, r1.last().push(b.last())));
            assert(r1.len() == split(a, sep).len());
            assert(r1.last() == split(a, sep).last() + b1);
            assert((split(a, sep).last() + b1).push(b.last()) =~= split(a, sep).last() + b);
        }
    }
}

/// Splitting pieces joined with a separator that none of them holds gives the pieces back.
pub proof fn lemma_split_join(p: Seq<Seq<char>>, sep: char)
    requires
        p.len() >= 1,
        forall|i: int| 0 <= i < p.len() ==> lacks(#[trigger] p[i], sep),
    ensures
        split(join(p, seq![sep]), sep) == p,
    decreases p.len(),
{
    if p.len() == 1 {
        lemma_split_tail(Seq::<char>::empty(), p[0], sep);
        assert(Seq::<char>::empty() + p[0] =~= p[0]);
        assert(split(Seq::<char>::empty(), sep).last() + p[0] =~= p[0]);
        assert(split(join(p, seq![sep]), sep) =~= p);
    } else {
        let q = p.drop_last();
        assert forall|i: int| 0 <= i < q.len() implies lacks(#[trigger] q[i], sep) by {
            assert(q[i] == p[i]);
        }
        lemma_split_join(q, sep);
        let a = join(q, seq![sep]) + seq![sep];
        assert(lacks(p.last(), sep)) by {
            assert(p[p.len() - 1] == p.last());
        }
        lemma_split_tail(a, p.last(), sep);
        assert(a.drop_last() =~= join(q, seq![sep]));
        assert(join(p, seq![sep]) =~= a + p.last());
        assert(split(a, sep) =~= q.push(Seq::<char>::empty()));
        assert(Seq::<char>::empty() + p.last() =~= p.last());
        assert(split(join(p, seq![sep]), sep) =~= p);
    }
}

/// Appends the decimal writing of a signed number.
pub fn push_signed(out: &mut Vec<char>, n: i64)
    ensures
        final(out)@ == old(out)@ + signed_decimal(n as int),
{
    let ghost before = out@;
    if n < 0 {
        out.push('-');
        let m: u64 = if n == i64::MIN {
            9223372036854775808u64
        } else {
            (0 - n) as u64
        };
        push_decimal(out, m);
        assert(out@ =~= before + signed_decimal(n as int));
    } else {
        push_decimal(out, n as u64);
    }
}

/// Whether `a` ends with the characters of `s`.
pub fn ends_with(a: &Vec<char>, s: &str) -> (r: bool)
    ensures
        r == (a@.len() >= s@.len() && a@.subrange(a@.len() - s@.len(), a@.len() as int) == s@),
{
    let b = chars_of(s);
    if a.len() < b.len() {
        return false;
    }
    let off = a.len() - b.len();
    let mut i: usize = 0;
    while i < b.len()
        invariant
            i <= b.len(),
            off + b.len() == a.len(),
            b@ == s@,
            forall|j: int| 0 <= j < i ==> a@[off + j] == b@[j],
        decreases b.len() - i,
    {
        if a[off + i] != b[i] {
            assert(a@.subrange(off as int, a@.len() as int)[i as int] != s@[i as int]);
            return false;
        }
        i = i + 1;
    }
    assert(a@.subrange(off as int, a@.len() as int) =~= s@);
    true
}

/// `i` is the first position of `c` at or after `from`.
pub open spec fn is_first(s: Seq<char>, c: char, from: int, i: int) -> bool {
    from <= i < s.len() && s[i] == c && forall|j: int| from <= j < i ==> s[j] != c
}

/// The first position of `c` at or after `from`, if any.
pub open spec fn first_of(s: Seq<char>, c: char, from: int) -> Option<int> {
    if exists|i: int| is_first(s, c, from, i) {
        Some(choose|i: int| is_first(s, c, from, i))
    } else {
        None
    }
}

/// `i` is the last position of `c`.
pub open spec fn is_last(s: Seq<char>, c: char, i: int) -> bool {
    0 <= i < s.len() && s[i] == c && forall|j: int| i < j < s.len() ==> s[j] != c
}

/// The last position of `c`, if any.
pub open spec fn last_of(s: Seq<char>, c: char) -> Option<int> {
    if exists|i: int| is_last(s, c, i) {
        Some(choose|i: int| is_last(s, c, i))
    } else {
        None
    }
}

/// The first position of `c` at or after `from`, if any.
pub fn find_char(a: &Vec<char>, c: char, from: usize) -> (r: Option<usize>)
    ensures
        match r {
            Some(i) => first_of(a@, c, from as int) == Some(i as int),
            None => first_of(a@, c, from as int) is None,
        },
        match r {
            Some(i) => from <= i < a@.len() && a@[i as int] == c && forall|j: int| from <= j < i ==> a@[j] != c,
            None => forall|j: int| from <= j < a@.len() ==> a@[j] != c,
        },
{
    let mut i: usize = from;
    while i < a.len()
        invariant
            from <= i || i == from,
            forall|j: int| from <= j < i ==> a@[j] != c,
        decreases a.len() - i,
    {
        if a[i] == c {
            proof {
                assert(is_first(a@, c, from as int, i as int));
                let k = choose|k: int| is_first(a@, c, from as int, k);
                if k < i {
                    assert(a@[k] != c);
                } else if k > i {
                    assert(a@[i as int] != c);
                }
            }
            return Some(i);
        }
        i = i + 1;
    }
    proof {
        if exists|k: int| is_first(a@, c, from as int, k) {
            let k = choose|k: int| is_first(a@, c, from as int, k);
            assert(a@[k] != c);
        }
    }
    None
}

/// The last position of `c`, if any.
pub fn rfind_char(a: &Vec<char>, c: char) -> (r: Option<usize>)
    ensures
        match r {
            Some(i) => last_of(a@, c) == Some(i as int),
            None => last_of(a@, c) is None,
        },
        match r {
            Some(i) => i < a@.len() && a@[i as int] == c && forall|j: int| i < j < a@.len() ==> a@[j] != c,
            None => forall|j: int| 0 <= j < a@.len() ==> a@[j] != c,
        },
{
    let mut i: usize = a.len();
    while i > 0
        invariant
            i <= a.len(),
            forall|j: int| i <= j < a@.len() ==> a@[j] != c,
        decreases i,
    {
        if a[i - 1] == c {
            proof {
                assert(is_last(a@, c, i - 1));
                let k = choose|k: int| is_last(a@, c, k);
                if k < i - 1 {
                    assert(a@[i - 1] != c);
                } else if k > i - 1 {
                    assert(a@[k] != c);
                }
            }
            return Some(i - 1);
        }
        i = i - 1;
    }
    proof {
        if exists|k: int| is_last(a@, c, k) {
            let k = choose|k: int| is_last(a@, c, k);
            assert(a@[k] != c);
        }
    }
    None
}

/// The number written as an optional minus sign and then digits, if its
/// magnitude is at most `limit`.
pub open spec fn signed_value(t: Seq<char>, limit: int) -> Option<int> {
    if t.len() > 0 && t[0] == '-' {
        if all_digits(t.drop_first()) && digits_value(t.drop_first()) <= limit {
            Some(-digits_value(t.drop_first()))
        } else {
            None
        }
    } else if all_digits(t) && digits_value(t) <= limit {
        Some(digits_value(t) as int)
    } else {
        None
    }
}

/// Reads a signed decimal number, an optional minus sign and then digits,
/// from `s[lo..hi]`, if its magnitude is at most `limit`.
pub fn parse_signed(s: &Vec<char>, lo: usize, hi: usize, limit: u64) -> (r: Option<i64>)
    requires
        lo <= hi <= s.len(),
        limit <= i64::MAX,
    ensures
        match r {
            Some(v) => signed_value(s@.subrange(lo as int, hi as int), limit as int) == Some(v as int),
            None => signed_value(s@.subrange(lo as int, hi as int), limit as int) is None,
        },
{
    let ghost t = s@.subrange(lo as int, hi as int);
    if lo < hi {
        assert(t.drop_first() =~= s@.subrange(lo + 1, hi as int));
        assert(t[0] == s@[lo as int]);
    }
    if lo < hi && s[lo] == '-' {
        match parse_decimal(s, lo + 1, hi, limit) {
            Some(v) => Some(0 - v as i64),
            None => None,
        }
    } else {
        match parse_decimal(s, lo, hi, limit) {
            Some(v) => Some(v as i64),
            None => None,
        }
    }
}

/// The number a decimal integer text denotes: an optional sign, then digits.
pub open spec fn int_value(s: Seq<char>) -> Option<int> {
    if s.len() > 0 && (s[0] == '-' || s[0] == '+') {
        if all_digits(s.drop_first()) {
            Some(if s[0] == '-' {
                -digits_value(s.drop_first())
            } else {
                digits_value(s.drop_first()) as int
            })
        } else {
            None
        }
    } else if all_digits(s) {
        Some(digits_value(s) as int)
    } else {
        None
    }
}

/// Reads a decimal integer, with an optional sign, if it lies in `[lo, hi]`.
pub fn parse_int(s: &Vec<char>, lo: i64, hi: i64) -> (r: Option<i64>)
    requires
        lo <= 0 <= hi,
        lo > i64::MIN,
    ensures
        r is Some <==> (int_value(s@) matches Some(v) && lo <= v <= hi),
        r matches Some(v) ==> int_value(s@) == Some(v as int),
{
    let neg = s.len() > 0 && s[0] == '-';
    let signed = s.len() > 0 && (s[0] == '-' || s[0] == '+');
    let from: usize = if signed { 1 } else { 0 };
    let limit: u64 = if neg { (0 - lo) as u64 } else { hi as u64 };
    assert(s@.subrange(1, s@.len() as int) =~= s@.drop_first());
    assert(s@.subrange(0, s@.len() as int) =~= s@);
    proof {
        if !signed && s@.len() > 0 {
            assert(s@[0] != '-' && s@[0] != '+');
        }
    }
    match parse_decimal(s, from, s.len(), limit) {
        Some(v) => {
            if neg {
                Some(0 - v as i64)
            } else {
                Some(v as i64)
            }
        },
        None => None,
    }
}

/// An owned copy of a string slice.
pub fn owned(s: &str) -> (r: String)
    ensures
        r@ == s@,
{
    let cs = chars_of(s);
    string_of(&cs)
}

} // verus!
