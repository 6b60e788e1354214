//! Running a program text and checking its result against an expected one.

use vstd::prelude::*;
use crate::cli::{parse_error, parse_error_text, run_text, usage, usage_text};
use crate::data::Data;
use crate::emu::Opt;
use crate::text::{chars_of, int_value, owned, parse_int, push_signed, push_str, string_of};

verus! {

/// Parses and dataizes a program text, stopping when stuck or runaway.
pub fn emulate(phi_code: &str) -> (r: Result<Data, String>) {
    run_text(
        phi_code,
        &[Opt::LogSnapshots, Opt::StopWhenTooManyCycles, Opt::StopWhenStuck],
        "Failed to parse phi code: ",
    )
}

/// The arguments name a program file: there are at least two.
pub fn check_args(args: &[String]) -> (r: Result<(), String>)
    ensures
        r is Ok <==> args@.len() >= 2,
{
    if args.len() < 2 {
        return Err(owned("Insufficient arguments"));
    }
    Ok(())
}

/// The usage message when there is no program file.
pub fn validate_args(args: &[String]) -> (r: Result<(), String>)
    ensures
        r is Ok <==> args@.len() >= 2,
        r matches Err(e) ==> e@ == usage_text(args@, "custom_executor"@, " <filename> [expected_result]"@),
{
    if args.len() < 2 {
        return Err(usage(args, "custom_executor", " <filename> [expected_result]"));
    }
    Ok(())
}

/// Holds a result to the expected value given as the third argument, if any.
pub fn check_expected(args: &[String], result: Data) -> (r: Result<Data, String>)
    ensures
        args@.len() < 3 ==> r == Ok::<Data, String>(result),
        args@.len() >= 3 ==> (r is Ok <==> int_value(args@[2]@) == Some(result as int)),
        args@.len() >= 3 && !crate::fibonacci::in_range(int_value(args@[2]@), -32768, 32767) ==> (r is Err && r->Err_0@ == "Invalid expected value argument '"@ + args@[2]@ + "': "@ + parse_error_text(args@[2]@)),
        r matches Ok(v) ==> v == result,
{
    if args.len() < 3 {
        return Ok(result);
    }
    let correct = match parse_int(&chars_of(args[2].as_str()), -32768, 32767) {
        Some(v) => v as i16,
        None => {
            let mut out: Vec<char> = Vec::new();
            push_str(&mut out, "Invalid expected value argument '");
            push_str(&mut out, args[2].as_str());
            push_str(&mut out, "': ");
            push_str(&mut out, parse_error(&chars_of(args[2].as_str())));
            return Err(string_of(&out));
        },
    };
    if result != correct {
        let mut out: Vec<char> = Vec::new();
        push_str(&mut out, "Result ");
        push_signed(&mut out, result as i64);
        push_str(&mut out, " does not match expected ");
        push_signed(&mut out, correct as i64);
        return Err(string_of(&out));
    }
    Ok(result)
}

/// The report of a successful run.
pub fn report(result: Data) -> (r: String)
    ensures
        r@ == "Executor result: "@ + crate::text::signed_decimal(result as int),
{
    let mut out: Vec<char> = Vec::new();
    push_str(&mut out, "Executor result: ");
    push_signed(&mut out, result as i64);
    string_of(&out)
}

} // verus!
