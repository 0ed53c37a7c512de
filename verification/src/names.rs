//! File names that pages get, in a directory and in an archive.

use crate::natural;
use crate::text::{decimal4_text, has_prefix, join, join3};
use crate::text;
use vstd::prelude::*;

verus! {

/// The name of the page with number `i`: four digits or more, a dot and the
/// extension.
pub open spec fn numbered(i: nat, ext: Seq<char>) -> Seq<char> {
    text::decimal4(i) + "."@ + ext
}

/// What the name of the page with number `i` starts with while pages are being
/// renamed.
pub open spec fn pending_start(i: nat) -> Seq<char> {
    "__tmp_"@ + text::decimal4(i) + "."@
}

/// The name of the page with number `i` while pages are being renamed.
pub open spec fn pending(i: nat, ext: Seq<char>) -> Seq<char> {
    pending_start(i) + ext
}

/// The name of the page with number `i`.
pub fn numbered_name(i: usize, ext: &str) -> (s: String)
    ensures
        s@ == numbered(i as nat, ext@),
{
    join3(decimal4_text(i as u64).as_str(), ".", ext)
}

/// What the pending name of the page with number `i` starts with.
pub fn pending_pattern(i: usize) -> (s: String)
    ensures
        s@ == pending_start(i as nat),
{
    join3("__tmp_", decimal4_text(i as u64).as_str(), ".")
}

/// The name of the page with number `i` while pages are being renamed.
pub fn pending_name(i: usize, ext: &str) -> (s: String)
    ensures
        s@ == pending(i as nat, ext@),
{
    join(pending_pattern(i).as_str(), ext)
}

// ---------------------------------------------------------------------------
// Numbers in names
// ---------------------------------------------------------------------------

proof fn lemma_digit_of(d: int)
    requires
        0 <= d < 10,
    ensures
        natural::is_digit(text::digit_of(d)),
        text::digit_of(d) as int - '0' as int == d,
{
}

pub proof fn lemma_decimal(n: nat)
    ensures
        text::decimal(n).len() >= 1,
        natural::all_digits(text::decimal(n)),
        natural::digits_value(text::decimal(n)) == n,
    decreases n,
{
    reveal_with_fuel(natural::digits_value, 2);
    if n < 10 {
        lemma_digit_of(n as int);
        assert(text::decimal(n).drop_last() =~= seq![]);
    } else {
        lemma_decimal(n / 10);
        lemma_digit_of((n % 10) as int);
        assert(text::decimal(n).drop_last() =~= text::decimal(n / 10));
    }
}

/// Decimal numbers of 64 bits have up to 20 digits.
pub proof fn lemma_decimal_length(n: nat)
    requires
        n <= u64::MAX,
    ensures
        text::decimal(n).len() <= 20,
        text::decimal4(n).len() <= 20,
{
    reveal_with_fuel(text::decimal, 20);
}

proof fn lemma_leading_zeros(k: int, s: Seq<char>)
    ensures
        natural::digits_value(text::zeros(k) + s) == natural::digits_value(s),
    decreases s.len(), k,
{
    reveal_with_fuel(natural::digits_value, 2);
    let t = text::zeros(k) + s;
    if s.len() > 0 {
        lemma_leading_zeros(k, s.drop_last());
        assert(t.drop_last() =~= text::zeros(k) + s.drop_last());
        assert(t.last() == s.last());
    } else if k > 0 {
        lemma_leading_zeros(k - 1, s);
        assert(t.drop_last() =~= text::zeros(k - 1) + s);
        assert(t.last() == '0');
    } else {
        assert(t =~= s);
    }
}

/// A number filled up to four digits still writes that number.
pub proof fn lemma_decimal4(n: nat)
    ensures
        text::decimal4(n).len() >= 4,
        natural::all_digits(text::decimal4(n)),
        natural::digits_value(text::decimal4(n)) == n,
{
    lemma_decimal(n);
    let k = 4 - text::decimal(n).len();
    lemma_leading_zeros(k, text::decimal(n));
    assert forall|i: int| 0 <= i < text::decimal4(n).len() implies natural::is_digit(
        #[trigger] text::decimal4(n)[i],
    ) by {
        if i >= text::zeros(k).len() {
            assert(text::decimal4(n)[i] == text::decimal(n)[i - text::zeros(k).len()]);
        }
    }
}

/// Pages written under running numbers are found again in that order: of two
/// numbered names the one with the smaller number comes first in natural order,
/// whatever their extensions.
pub proof fn numbered_names_are_in_natural_order(
    i: nat,
    j: nat,
    ext: Seq<char>,
    other: Seq<char>,
)
    requires
        i < j,
    ensures
        natural::natural_lt(numbered(i, ext), numbered(j, other)),
{
    reveal_strlit(".");
    lemma_decimal4(i);
    lemma_decimal4(j);
    let none = Seq::<char>::empty();
    let x = text::decimal4(i);
    let y = text::decimal4(j);
    natural::numbers_are_compared_by_value(none, none, x, y, "."@ + ext, "."@ + other);
    assert(none + (x + ("."@ + ext)) =~= numbered(i, ext));
    assert(none + (y + ("."@ + other)) =~= numbered(j, other));
}

/// Different numbers give different names, whatever the extensions.
pub proof fn numbered_names_are_distinct(i: nat, j: nat, ext: Seq<char>, other: Seq<char>)
    requires
        numbered(i, ext) == numbered(j, other),
    ensures
        i == j,
{
    if i < j {
        numbered_names_are_in_natural_order(i, j, ext, other);
        natural::natural_order_is_irreflexive(numbered(i, ext));
    } else if j < i {
        numbered_names_are_in_natural_order(j, i, other, ext);
        natural::natural_order_is_irreflexive(numbered(i, ext));
    }
}

/// While pages are being renamed no pending name is a final one, so no page can
/// take the place of another.
pub proof fn pending_names_are_not_numbered(i: nat, j: nat, ext: Seq<char>, other: Seq<char>)
    ensures
        pending(i, ext) != numbered(j, other),
{
    reveal_strlit("__tmp_");
    lemma_decimal4(j);
    assert(pending(i, ext)[0] == '_');
    assert(numbered(j, other)[0] == text::decimal4(j)[0]);
    assert(natural::is_digit(text::decimal4(j)[0]));
}

/// Of the pending names just those of page `i` start with its pattern.
pub proof fn pending_pattern_finds_its_page(i: nat, j: nat, ext: Seq<char>)
    ensures
        pending_start(i).is_prefix_of(pending(j, ext)) <==> i == j,
{
    reveal_strlit("__tmp_");
    reveal_strlit(".");
    let p = pending_start(i);
    let s = pending(j, ext);
    if i == j {
        assert(p =~= s.subrange(0, p.len() as int));
    } else if p.is_prefix_of(s) {
        let a = p.skip(6);
        let b = s.skip(6);
        assert(a =~= numbered(i, seq![]));
        assert(b =~= numbered(j, ext));
        assert(a =~= b.take(a.len() as int));

        assert(b =~= numbered(i, b.skip(a.len() as int)));
        numbered_names_are_distinct(i, j, b.skip(a.len() as int), ext);
    }
}

/// The name of a page is its number, in four digits or more, a dot and the extension.
/// `d` are the digits.
pub proof fn numbered_names_hold_their_number(i: nat, ext: Seq<char>) -> (d: Seq<char>)
    ensures
        numbered(i, ext) == d + (seq!['.'] + ext),
        natural::all_digits(d) && natural::digits_value(d) == i,
        d.len() >= 4,
        d.len() > 4 ==> d[0] != '0',
        pending(i, ext) == "__tmp_"@ + numbered(i, ext),
{
    reveal_strlit(".");
    let d = text::decimal4(i);
    lemma_decimal4(i);
    text::short_numbers_are_filled_up(i);
    text::numbers_are_written_in_decimal(i);
    assert(numbered(i, ext) =~= d + (seq!['.'] + ext));
    assert(pending(i, ext) =~= "__tmp_"@ + numbered(i, ext));
    d
}

/// The first file name that starts like the pending name of page `i`.
pub fn find_pending(names: &Vec<String>, i: usize) -> (r: Option<usize>)
    ensures
        r is Some ==> r->0 < names@.len() && pending_start(i as nat).is_prefix_of(
            names@[r->0 as int]@,
        ) && forall|k: int|
            0 <= k < r->0 ==> !pending_start(i as nat).is_prefix_of((#[trigger] names@[k])@),
        r is None ==> forall|k: int|
            0 <= k < names@.len() ==> !pending_start(i as nat).is_prefix_of((#[trigger] names@[k])@),
{
    let pattern = pending_pattern(i);
    let mut k: usize = 0;
    while k < names.len()
        invariant
            k <= names@.len(),
            pattern@ == pending_start(i as nat),
            forall|j: int|
                0 <= j < k ==> !pending_start(i as nat).is_prefix_of((#[trigger] names@[j])@),
        decreases names.len() - k,
    {
        if has_prefix(names[k].as_str(), pattern.as_str()) {
            return Some(k);
        }
        k += 1;
    }
    None
}

} // verus!
