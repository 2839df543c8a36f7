//! The command line of the standalone program.

use crate::text::{
    decimal, law_number_text_round_trip, push_decimal, spells, to_chars, unsigned_value,
};
use vstd::prelude::*;

verus! {

/// The words of a command line, as text.
pub open spec fn words(args: Seq<String>) -> Seq<Seq<char>> {
    args.map_values(|s: String| s@)
}

/// Whether a command line pins the sample rate.
pub open spec fn pins_sample_rate(args: Seq<Seq<char>>) -> bool {
    exists|i: int| 0 <= i < args.len() && is_rate_option(#[trigger] args[i])
}

/// Whether a word is the option that pins the sample rate.
pub open spec fn is_rate_option(word: Seq<char>) -> bool {
    word == "--sample-rate"@ || word == "-r"@
}

/// Whether a word is the option that pins the sample rate.
fn asks_for_rate(word: &String) -> (r: bool)
    ensures
        r == is_rate_option(word@),
{
    let chars = to_chars(word.as_str());
    spells(&chars, "--sample-rate") || spells(&chars, "-r")
}

/// Whether a command line pins the sample rate; only if not, the device need be asked.
pub fn rate_is_pinned(args: &Vec<String>) -> (r: bool)
    ensures
        r == pins_sample_rate(words(args@)),
{
    let mut i: usize = 0;
    while i < args.len()
        invariant
            i <= args@.len(),
            forall|j: int| 0 <= j < i ==> !is_rate_option(#[trigger] words(args@)[j]),
        decreases args@.len() - i,
    {
        if asks_for_rate(&args[i]) {
            assert(is_rate_option(words(args@)[i as int]));
            return true;
        }
        i += 1;
    }
    false
}

/// The command line that the program runs with.
pub open spec fn launched(args: Seq<Seq<char>>, device_rate: Option<u32>) -> Seq<Seq<char>> {
    match device_rate {
        Some(rate) => if pins_sample_rate(args) {
            args
        } else {
            args.push("--sample-rate"@).push(decimal(rate as int))
        },
        None => args,
    }
}

/// Runs the audio device at its own rate: unless the command line pins one, the rate of the
/// output device, where it is known, is put behind it.
pub fn with_sample_rate(args: Vec<String>, device_rate: Option<u32>) -> (r: Vec<String>)
    ensures
        words(r@) == launched(words(args@), device_rate),
        words(r@) == match device_rate {
            Some(rate) => if pins_sample_rate(words(args@)) {
                words(args@)
            } else {
                words(args@).push("--sample-rate"@).push(decimal(rate as int))
            },
            None => words(args@),
        },
{
    let mut r = args;
    if rate_is_pinned(&r) {
        return r;
    }
    if let Some(rate) = device_rate {
        let mut text = String::new();
        push_decimal(&mut text, rate as i64);
        assert(text@ =~= decimal(rate as int));
        r.push("--sample-rate".to_string());
        r.push(text);
        assert(words(r@) =~= words(args@).push("--sample-rate"@).push(decimal(rate as int)));
    }
    r
}

/// A command line pins the sample rate if and only if one of its words is the long or the
/// short option, wherever it stands; the words are taken as they are.
pub proof fn law_only_the_options_pin_the_rate(args: Seq<String>)
    ensures
        pins_sample_rate(words(args)) <==> words(args).contains("--sample-rate"@) || words(
            args,
        ).contains("-r"@),
        words(args).len() == args.len(),
        forall|i: int| 0 <= i < args.len() ==> #[trigger] words(args)[i] == args[i]@,
{
    let w = words(args);
    if w.contains("--sample-rate"@) {
        let i = choose|i: int| 0 <= i < w.len() && w[i] == "--sample-rate"@;
        assert(is_rate_option(w[i]));
    }
    if w.contains("-r"@) {
        let i = choose|i: int| 0 <= i < w.len() && w[i] == "-r"@;
        assert(is_rate_option(w[i]));
    }
}

/// The program runs with the words that it is given, first and in order. Where the device's
/// rate is known the rate is pinned in the end: by the words given, to which nothing is added,
/// or by the option and the device's rate behind them. A second launch adds nothing.
pub proof fn law_the_rate_is_pinned_once(
    args: Seq<Seq<char>>,
    device_rate: Option<u32>,
    other: Option<u32>,
)
    ensures
        ({
            let r = launched(args, device_rate);
            &&& device_rate is None || pins_sample_rate(args) ==> r == args
            &&& device_rate is Some && !pins_sample_rate(args) ==> {
                &&& r.len() == args.len() + 2
                &&& r.take(args.len() as int) == args
                &&& r[args.len() as int] == "--sample-rate"@
                &&& unsigned_value(r[args.len() as int + 1]) == Some(device_rate->0 as nat)
            }
            &&& device_rate is Some ==> pins_sample_rate(r) && launched(r, other) == r
        }),
{
    let r = launched(args, device_rate);
    if device_rate is Some && !pins_sample_rate(args) {
        law_number_text_round_trip(device_rate->0 as nat);
        assert(r.take(args.len() as int) =~= args);
        assert(is_rate_option(r[args.len() as int]));
    }
}

} // verus!
