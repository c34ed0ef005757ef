//! Command line options: flags, and names that a value follows.

use vstd::prelude::*;
use crate::text::{parse_u128, same_text, u128_of};

verus! {

/// The first argument from `from` on that is `name`; the number of arguments if none is.
pub open spec fn position_of(args: Seq<String>, name: Seq<char>, from: nat) -> nat
    decreases args.len() - from,
{
    if from >= args.len() || args[from as int]@ == name {
        from
    } else {
        position_of(args, name, from + 1)
    }
}

/// The argument behind the first one that is `name`.
pub open spec fn value_of(args: Seq<String>, name: Seq<char>) -> Option<Seq<char>> {
    let i = position_of(args, name, 0);
    if i + 1 < args.len() {
        Some(args[i as int + 1]@)
    } else {
        None
    }
}

/// The number behind a name; the default where there is none, or none that fits.
pub open spec fn number_of(args: Seq<String>, name: Seq<char>, max: u128, default: u128) -> u128 {
    match value_of(args, name) {
        Some(text) => match u128_of(text) {
            Some(n) if n <= max => n,
            _ => default,
        },
        None => default,
    }
}

/// The first argument that is `name`.
fn position(args: &[String], name: &str) -> (i: usize)
    ensures
        i == position_of(args@, name@, 0),
        i <= args@.len(),
        i < args@.len() ==> args@[i as int]@ == name@,
        forall|k: int| 0 <= k < i ==> (#[trigger] args@[k])@ != name@,
{
    let mut i: usize = 0;
    while i < args.len()
        invariant
            i <= args@.len(),
            position_of(args@, name@, 0) == position_of(args@, name@, i as nat),
            forall|k: int| 0 <= k < i ==> (#[trigger] args@[k])@ != name@,
        decreases args@.len() - i,
    {
        if same_text(&args[i], name) {
            return i;
        }
        i += 1;
    }
    i
}

/// Whether `name` is among the arguments.
pub fn has_flag(args: &[String], name: &str) -> (found: bool)
    ensures
        found <==> exists|i: int| 0 <= i < args@.len() && (#[trigger] args@[i])@ == name@,
{
    position(args, name) < args.len()
}

/// The argument behind the first one that is `name`.
pub fn option_value<'a>(args: &'a [String], name: &str) -> (value: Option<&'a String>)
    ensures
        value is Some <==> value_of(args@, name@) is Some,
        value matches Some(v) ==> value_of(args@, name@) == Some(v@),
{
    let i: usize = position(args, name);
    if args.len() > 0 && i < args.len() - 1 {
        Some(&args[i + 1])
    } else {
        None
    }
}

/// The number behind a name, no larger than `max`.
fn option_number(args: &[String], name: &str, max: u128, default: u128) -> (n: u128)
    ensures
        n == number_of(args@, name@, max, default),
{
    match option_value(args, name) {
        Some(text) => match parse_u128(text.as_str()) {
            Some(n) => if n <= max {
                n
            } else {
                default
            },
            None => default,
        },
        None => default,
    }
}

/// The count behind a name; the default where there is none.
pub fn count_option(args: &[String], name: &str, default: usize) -> (n: usize)
    ensures
        n == number_of(args@, name@, usize::MAX as u128, default as u128),
{
    let n: u128 = option_number(args, name, usize::MAX as u128, default as u128);
    n as usize
}

/// The number of seconds behind a name; the default where there is none.
pub fn seconds_option(args: &[String], name: &str, default: u64) -> (n: u64)
    ensures
        n == number_of(args@, name@, u64::MAX as u128, default as u128),
{
    let n: u128 = option_number(args, name, u64::MAX as u128, default as u128);
    n as u64
}

} // verus!
