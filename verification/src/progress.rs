//! What is reported while a conversion runs.

use crate::names;
use crate::natural;
use crate::text::{decimal_text, join3};
use crate::text;
use vstd::prelude::*;

verus! {

/// How far a conversion has come.
#[derive(Debug, Clone)]
pub struct ConvertProgress {
    pub current: usize,
    pub total: usize,
    pub message: String,
}

/// `n/total` behind a word.
pub open spec fn counted(word: Seq<char>, n: nat, total: nat) -> Seq<char> {
    word + " "@ + text::decimal(n) + "/"@ + text::decimal(total)
}

/// Whether `p` reports `n` of `total`, in words that start with `word`.
pub open spec fn reports(p: ConvertProgress, word: Seq<char>, n: nat, total: nat) -> bool {
    p.current == n && p.total == total && p.message@ == counted(word, n, total)
}

/// Reports `n` of `total`, such as `Processing 3/12`.
pub fn report_count(word: &str, n: usize, total: usize) -> (p: ConvertProgress)
    ensures
        reports(p, word@, n as nat, total as nat),
{
    let mut message = join3(word, " ", decimal_text(n as u64).as_str());
    message.append("/");
    message.append(decimal_text(total as u64).as_str());
    ConvertProgress { current: n, total, message }
}

/// Reports a step whose length is not known.
pub fn report_step(message: &str) -> (p: ConvertProgress)
    ensures
        p.current == 0,
        p.total == 1,
        p.message@ == message@,
{
    ConvertProgress { current: 0, total: 1, message: message.to_owned() }
}

/// A report says how far it is: behind the word stand the two numbers, in decimal.
/// `r` is what stands for them.
pub proof fn reports_say_how_far(p: ConvertProgress, word: Seq<char>, n: nat, total: nat) -> (r: (
    Seq<char>,
    Seq<char>,
))
    requires
        reports(p, word, n, total),
    ensures
        p.current == n,
        p.total == total,
        p.message@ == word + " "@ + r.0 + "/"@ + r.1,
        natural::all_digits(r.0) && natural::digits_value(r.0) == n,
        natural::all_digits(r.1) && natural::digits_value(r.1) == total,
{
    names::lemma_decimal(n);
    names::lemma_decimal(total);
    (text::decimal(n), text::decimal(total))
}

} // verus!
