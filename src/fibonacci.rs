//! Fibonacci numbers computed by the engine, as a benchmark of recursion.

use vstd::prelude::*;
use crate::cli::{parse_error, parse_error_text, run_text, usage, usage_text};
use crate::data::Data;
use crate::emu::Opt;
use crate::text::{int_value, parse_int, push_hex4, push_signed, push_str, string_of};

verus! {

/// The program that computes the Fibonacci number of `x`.
pub fn fibo_program(x: Data) -> String {
    let mut out: Vec<char> = Vec::new();
    push_str(&mut out, "ν0(𝜋) ↦ ⟦ 𝜑 ↦ ν2(𝜋) ⟧\n");
    push_str(&mut out, "ν1(𝜋) ↦ ⟦ Δ ↦ 0x");
    push_hex4(&mut out, x);
    push_str(&mut out, " ⟧\n");
    push_str(&mut out, "ν2(𝜋) ↦ ⟦ 𝜑 ↦ ν3(ξ), 𝛼0 ↦ ν1(𝜋) ⟧\n");
    push_str(&mut out, "ν3(𝜋) ↦ ⟦ 𝜑 ↦ ν13(𝜋) ⟧\n");
    push_str(&mut out, "ν5(𝜋) ↦ ⟦ Δ ↦ 0x0002 ⟧\n");
    push_str(&mut out, "ν6(𝜋) ↦ ⟦ λ ↦ int-sub, ρ ↦ 𝜋.𝜋.𝛼0, 𝛼0 ↦ ν5(𝜋) ⟧\n");
    push_str(&mut out, "ν7(𝜋) ↦ ⟦ Δ ↦ 0x0001 ⟧\n");
    push_str(&mut out, "ν8(𝜋) ↦ ⟦ λ ↦ int-sub, ρ ↦ 𝜋.𝜋.𝛼0, 𝛼0 ↦ ν7(𝜋) ⟧\n");
    push_str(&mut out, "ν9(𝜋) ↦ ⟦ 𝜑 ↦ ν3(ξ), 𝛼0 ↦ ν8(𝜋) ⟧\n");
    push_str(&mut out, "ν10(𝜋) ↦ ⟦ 𝜑 ↦ ν3(ξ), 𝛼0 ↦ ν6(𝜋) ⟧\n");
    push_str(&mut out, "ν11(𝜋) ↦ ⟦ λ ↦ int-add, ρ ↦ ν9(𝜋), 𝛼0 ↦ ν10(𝜋) ⟧\n");
    push_str(&mut out, "ν12(𝜋) ↦ ⟦ λ ↦ int-less, ρ ↦ 𝜋.𝛼0, 𝛼0 ↦ ν5(𝜋) ⟧\n");
    push_str(&mut out, "ν13(𝜋) ↦ ⟦ λ ↦ bool-if, ρ ↦ ν12(𝜋), 𝛼0 ↦ ν7(𝜋), 𝛼1 ↦ ν11(𝜋) ⟧\n");
    string_of(&out)
}

/// A number that is there and lies in `[lo, hi]`.
pub open spec fn in_range(v: Option<int>, lo: int, hi: int) -> bool {
    match v {
        Some(x) => lo <= x <= hi,
        None => false,
    }
}

/// The Fibonacci number of `x` (one for `x` below two), computed by the engine.
pub fn fibo(x: Data) -> (r: Result<Data, String>) {
    let program = fibo_program(x);
    run_text(
        program.as_str(),
        &[Opt::LogSnapshots, Opt::StopWhenTooManyCycles, Opt::StopWhenStuck],
        "Failed to parse Fibonacci emulator: ",
    )
}

/// A message about an argument that is not a number.
pub open spec fn invalid_text(what: Seq<char>, arg: Seq<char>) -> Seq<char> {
    "Invalid "@ + what + " argument '"@ + arg + "': "@ + parse_error_text(arg)
}

fn invalid(what: &str, arg: &String) -> (r: String)
    ensures
        r@ == invalid_text(what@, arg@),
{
    let mut out: Vec<char> = Vec::new();
    push_str(&mut out, "Invalid ");
    push_str(&mut out, what);
    push_str(&mut out, " argument '");
    push_str(&mut out, arg.as_str());
    push_str(&mut out, "': ");
    push_str(&mut out, parse_error(&crate::text::chars_of(arg.as_str())));
    assert(out@ =~= invalid_text(what@, arg@));
    string_of(&out)
}

/// The input and the number of cycles named on the command line.
pub fn parse_fibonacci_args(args: &[String]) -> (r: Result<(Data, i32), String>)
    ensures
        args@.len() < 3 ==> (r is Err && r->Err_0@ == usage_text(args@, "fibonacci"@, " <input> <cycles>"@)),
        args@.len() >= 3 && !in_range(int_value(args@[1]@), -32768, 32767) ==> (r is Err && r->Err_0@ == invalid_text("input"@, args@[1]@)),
        args@.len() >= 3 && in_range(int_value(args@[1]@), -32768, 32767) && !in_range(int_value(args@[2]@), -2147483648, 2147483647)
            ==> (r is Err && r->Err_0@ == invalid_text("cycles"@, args@[2]@)),
        args@.len() >= 3 ==> (r is Ok <==> (in_range(int_value(args@[1]@), -32768, 32767)
            && in_range(int_value(args@[2]@), -2147483648, 2147483647))),
        r matches Ok(p) ==> int_value(args@[1]@) == Some(p.0 as int) && int_value(args@[2]@) == Some(
            p.1 as int,
        ),
{
    if args.len() < 3 {
        return Err(usage(args, "fibonacci", " <input> <cycles>"));
    }
    let input = match parse_int(&crate::text::chars_of(args[1].as_str()), -32768, 32767) {
        Some(v) => v as i16,
        None => {
            return Err(invalid("input", &args[1]));
        },
    };
    let cycles = match parse_int(&crate::text::chars_of(args[2].as_str()), -2147483648, 2147483647) {
        Some(v) => v as i32,
        None => {
            return Err(invalid("cycles", &args[2]));
        },
    };
    Ok((input, cycles))
}

/// Computes the Fibonacci number of `input` `cycles` times; returns the last
/// result and the wrapping sum of all of them.
pub fn run_fibonacci_cycles(input: Data, cycles: i32) -> (r: Result<(Data, Data), String>)
    ensures
        cycles <= 0 ==> r == Ok::<(Data, Data), String>((0i16, 0i16)),
{
    let mut total: Data = 0;
    let mut f: Data = 0;
    let mut i: i32 = 0;
    while i < cycles
        invariant
            0 <= i,
            cycles > 0 || (i == 0 && total == 0 && f == 0),
        decreases cycles - i,
    {
        f = match fibo(input) {
            Ok(v) => v,
            Err(e) => {
                return Err(e);
            },
        };
        total = total.wrapping_add(f);
        i = i + 1;
    }
    Ok((f, total))
}

/// The command: parses the arguments, runs the cycles, and reports.
pub fn run(args: &[String]) -> (r: Result<String, String>)
    ensures
        args@.len() < 3 ==> r is Err,
{
    let (input, cycles) = match parse_fibonacci_args(args) {
        Ok(p) => p,
        Err(e) => {
            return Err(e);
        },
    };
    let (f, total) = match run_fibonacci_cycles(input, cycles) {
        Ok(p) => p,
        Err(e) => {
            return Err(e);
        },
    };
    let mut out: Vec<char> = Vec::new();
    push_signed(&mut out, input as i64);
    push_str(&mut out, "-th Fibonacci number is ");
    push_signed(&mut out, f as i64);
    push_str(&mut out, "\nSum of results is ");
    push_signed(&mut out, total as i64);
    Ok(string_of(&out))
}

} // verus!
