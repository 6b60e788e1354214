//! The command line around the engine: arguments, and running a program text.

use vstd::prelude::*;
use crate::data::Data;
use crate::emu::{Emu, Fault, Opt};
use crate::text::{chars_of, owned, push_str, string_of};

verus! {

/// A usage message naming the program, or `fallback` when there is no name.
/// The usage message for a program named by the first argument, or `fallback`.
pub open spec fn usage_text(args: Seq<String>, fallback: Seq<char>, tail: Seq<char>) -> Seq<char> {
    "Usage: "@ + (if args.len() > 0 { args[0]@ } else { fallback }) + tail
}

/// Why a number argument does not read: empty, out of range, or not a number.
pub open spec fn parse_error_text(t: Seq<char>) -> Seq<char> {
    if t.len() == 0 {
        "cannot parse integer from empty string"@
    } else if crate::text::int_value(t) is Some {
        if t[0] == '-' {
            "number too small to fit in target type"@
        } else {
            "number too large to fit in target type"@
        }
    } else {
        "invalid digit found in string"@
    }
}

/// The reason a number argument does not read.
pub(crate) fn parse_error(t: &Vec<char>) -> (r: &'static str)
    ensures
        r@ == parse_error_text(t@),
{
    if t.len() == 0 {
        return "cannot parse integer from empty string";
    }
    let from: usize = if t[0] == '-' || t[0] == '+' { 1 } else { 0 };
    assert(t@.subrange(1, t@.len() as int) =~= t@.drop_first());
    assert(t@.subrange(0, t@.len() as int) =~= t@);
    if from == t.len() {
        return "invalid digit found in string";
    }
    let mut i: usize = from;
    while i < t.len()
        invariant
            from <= i <= t.len(),
            t.len() > 0,
            from == (if t@[0] == '-' || t@[0] == '+' { 1usize } else { 0usize }),
            forall|j: int| from <= j < i ==> #[trigger] crate::text::is_digit(t@[j]),
        decreases t.len() - i,
    {
        if !('0' <= t[i] && t[i] <= '9') {
            assert(!crate::text::is_digit(t@.subrange(from as int, t@.len() as int)[i - from]));
            assert(t@.subrange(1, t@.len() as int) =~= t@.drop_first());
            assert(t@.subrange(0, t@.len() as int) =~= t@);
            assert(from == 1 <==> (t@[0] == '-' || t@[0] == '+'));
            return "invalid digit found in string";
        }
        i = i + 1;
    }
    assert forall|j: int| 0 <= j < t@.len() - from implies #[trigger] crate::text::is_digit(t@.subrange(from as int, t@.len() as int)[j]) by {
        assert(t@.subrange(from as int, t@.len() as int)[j] == t@[j + from]);
    }
    if t[0] == '-' {
        "number too small to fit in target type"
    } else {
        "number too large to fit in target type"
    }
}

pub(crate) fn usage(args: &[String], fallback: &str, tail: &str) -> (r: String)
    ensures
        r@ == usage_text(args@, fallback@, tail@),
{
    let mut out: Vec<char> = Vec::new();
    push_str(&mut out, "Usage: ");
    if args.len() > 0 {
        push_str(&mut out, args[0].as_str());
    } else {
        push_str(&mut out, fallback);
    }
    push_str(&mut out, tail);
    assert(out@ =~= usage_text(args@, fallback@, tail@));
    string_of(&out)
}

/// The program file named on the command line: the first argument after the
/// program's own name.
pub fn parse_args(args: &[String]) -> (r: Result<String, String>)
    ensures
        r is Ok <==> args@.len() >= 2,
        r matches Ok(f) ==> f@ == args@[1]@,
        r matches Err(e) ==> e@ == usage_text(args@, "phie"@, " <file.phie>"@),
{
    if args.len() < 2 {
        return Err(usage(args, "phie", " <file.phie>"));
    }
    Ok(args[1].clone())
}

/// A message for a fault of the engine.
pub(crate) fn fault_message(f: Fault) -> String {
    match f {
        Fault::EmptyTarget(_) => owned("a locator leads to an empty object"),
        Fault::NoXi => owned("a ξ-step was taken where there is no ξ"),
        Fault::NoAttr(_) => owned("an attribute is missing and there is no 𝜑"),
        Fault::EmptyLocator => owned("a locator has no steps"),
        Fault::TooDeep => owned("path resolution does not end"),
        Fault::PoolExhausted => owned("no more empty baskets left in the pool"),
        Fault::Stuck => owned("we are stuck, no hits in the recent cycle"),
        Fault::Runaway => owned("too many cycles, most probably endless recursion"),
        Fault::Occupied => owned("the slot is already occupied"),
    }
}

/// A message: a prefix, then the detail.
pub(crate) fn prefixed(prefix: &str, detail: &String) -> String {
    let mut out: Vec<char> = Vec::new();
    push_str(&mut out, prefix);
    push_str(&mut out, detail.as_str());
    string_of(&out)
}

/// Runs a program text with the given options and returns what the root dataizes to.
pub(crate) fn run_text(content: &str, opts: &[Opt], parse_prefix: &str) -> (r: Result<Data, String>) {
    let mut emu = match Emu::parse(&chars_of(content)) {
        Ok(e) => e,
        Err(e) => {
            return Err(prefixed(parse_prefix, &e));
        },
    };
    let mut i: usize = 0;
    while i < opts.len()
        invariant
            emu.wf(),
        decreases opts.len() - i,
    {
        emu.opt(opts[i]);
        i = i + 1;
    }
    match emu.dataize() {
        Ok((d, _)) => Ok(d),
        Err(f) => Err(prefixed("Failed to dataize: ", &fault_message(f))),
    }
}

/// Parses a program text, stops when stuck or runaway, and returns what the
/// root dataizes to.
pub fn execute_phie(content: &str) -> (r: Result<Data, String>) {
    run_text(content, &[Opt::StopWhenTooManyCycles, Opt::StopWhenStuck], "Failed to parse phie program: ")
}

} // verus!
