//! Natural (human) order of file names: numeric runs are compared by value, so
//! that `2.jpg` comes before `10.jpg`, and text is compared without regard to
//! ASCII case. It keeps pages in reading order in archives whose names are not
//! zero-padded. Case tells two names apart only where nothing else does.

use crate::text::chars_of;
use std::cmp::Ordering;
use vstd::arithmetic::power::*;
use vstd::prelude::*;

verus! {

/// Whether `c` is one of `0` to `9`.
pub open spec fn is_digit(c: char) -> bool {
    '0' <= c <= '9'
}

/// The ASCII lower-case form of `c`; other characters are themselves.
pub open spec fn ascii_lower(c: char) -> char {
    if 'A' <= c <= 'Z' {
        (c as u32 + 32) as char
    } else {
        c
    }
}

/// How many digits `s` starts with.
pub open spec fn digit_run(s: Seq<char>) -> nat
    decreases s.len(),
{
    if s.len() > 0 && is_digit(s[0]) {
        1 + digit_run(s.drop_first())
    } else {
        0
    }
}

/// The number that the decimal digits `s` write.
pub open spec fn digits_value(s: Seq<char>) -> nat
    decreases s.len(),
{
    if s.len() == 0 {
        0
    } else {
        (digits_value(s.drop_last()) * 10 + (s.last() as int - '0' as int)) as nat
    }
}

/// A name in ASCII lower case.
pub open spec fn folded(s: Seq<char>) -> Seq<char> {
    s.map_values(|c: char| ascii_lower(c))
}

/// Order of names by their numbers and characters. Where both stand at a digit
/// the whole runs are compared, by value and then by length (fewer leading zeros
/// first); elsewhere one character is compared. A name comes before every longer
/// name that it starts.
pub open spec fn runs_lt(a: Seq<char>, b: Seq<char>) -> bool
    decreases a.len(),
{
    if b.len() == 0 {
        false
    } else if a.len() == 0 {
        true
    } else if is_digit(a[0]) && is_digit(b[0]) {
        proof {
            lemma_digit_run(a);
        }
        let m = digit_run(a);
        let n = digit_run(b);
        let va = digits_value(a.take(m as int));
        let vb = digits_value(b.take(n as int));
        va < vb || (va == vb && (m < n || (m == n && runs_lt(a.skip(m as int), b.skip(n as int)))))
    } else {
        a[0] < b[0] || (a[0] == b[0] && runs_lt(a.drop_first(), b.drop_first()))
    }
}

/// Order of names by their code points.
pub open spec fn code_lt(a: Seq<char>, b: Seq<char>) -> bool
    decreases a.len(),
{
    if b.len() == 0 {
        false
    } else if a.len() == 0 {
        true
    } else {
        a[0] < b[0] || (a[0] == b[0] && code_lt(a.drop_first(), b.drop_first()))
    }
}

/// Whether `a` comes strictly before `b` in natural order: by numbers and
/// characters without regard to case, and by code points where two names differ
/// in nothing but case.
pub open spec fn natural_lt(a: Seq<char>, b: Seq<char>) -> bool {
    runs_lt(folded(a), folded(b)) || (folded(a) == folded(b) && code_lt(a, b))
}

/// Natural order with equality.
pub open spec fn natural_le(a: Seq<char>, b: Seq<char>) -> bool {
    a == b || natural_lt(a, b)
}

// ---------------------------------------------------------------------------
// Digit runs and their values
// ---------------------------------------------------------------------------

pub open spec fn all_digits(s: Seq<char>) -> bool {
    forall|i: int| 0 <= i < s.len() ==> is_digit(#[trigger] s[i])
}

pub proof fn lemma_digit_run(s: Seq<char>)
    ensures
        digit_run(s) <= s.len(),
        all_digits(s.take(digit_run(s) as int)),
        digit_run(s) < s.len() ==> !is_digit(s[digit_run(s) as int]),
    decreases s.len(),
{
    if s.len() > 0 && is_digit(s[0]) {
        let t = s.drop_first();
        lemma_digit_run(t);
        let n = digit_run(s) as int;
        assert forall|i: int| 0 <= i < n implies is_digit(#[trigger] s.take(n)[i]) by {
            if i > 0 {
                assert(s.take(n)[i] == t.take(n - 1)[i - 1]);
            }
        }
    }
}

/// A prefix of digits that is followed by no digit is the whole run.
proof fn lemma_digit_run_is(s: Seq<char>, n: int)
    requires
        0 <= n <= s.len(),
        forall|i: int| 0 <= i < n ==> is_digit(#[trigger] s[i]),
        n < s.len() ==> !is_digit(s[n]),
    ensures
        digit_run(s) == n,
    decreases n,
{
    if n > 0 {
        let t = s.drop_first();
        assert forall|i: int| 0 <= i < n - 1 implies is_digit(#[trigger] t[i]) by {
            assert(t[i] == s[i + 1]);
        }
        lemma_digit_run_is(t, n - 1);
    }
}

proof fn lemma_digits_value_split(s: Seq<char>, k: int)
    requires
        0 <= k <= s.len(),
        all_digits(s),
    ensures
        digits_value(s) == digits_value(s.take(k)) * pow(10, (s.len() - k) as nat) + digits_value(
            s.skip(k),
        ),
    decreases s.len(),
{
    if k == s.len() {
        assert(s.take(k) =~= s);
        assert(s.skip(k).len() == 0);
        lemma_pow0(10);
    } else {
        let t = s.drop_last();
        assert(all_digits(t)) by {
            assert forall|i: int| 0 <= i < t.len() implies is_digit(#[trigger] t[i]) by {
                assert(t[i] == s[i]);
            }
        }
        lemma_digits_value_split(t, k);
        assert(t.take(k) =~= s.take(k));
        assert(s.skip(k).drop_last() =~= t.skip(k));
        assert(s.skip(k).last() == s.last());
        assert(is_digit(s[s.len() - 1]));
        let e = (t.len() - k) as nat;
        assert(pow(10, e + 1) == 10 * pow(10, e)) by {
            reveal(pow);
        }
        let x = digits_value(s.take(k)) as int;
        let p = pow(10, e);
        assert((x * p) * 10 == x * (10 * p)) by (nonlinear_arith);
    }
}

proof fn lemma_digits_value_bounds(s: Seq<char>)
    requires
        all_digits(s),
    ensures
        digits_value(s) < pow(10, s.len()),
        s.len() > 0 && s[0] != '0' ==> digits_value(s) >= pow(10, (s.len() - 1) as nat),
    decreases s.len(),
{
    if s.len() == 0 {
        lemma_pow0(10);
    } else {
        let t = s.drop_last();
        assert forall|i: int| 0 <= i < t.len() implies is_digit(#[trigger] t[i]) by {
            assert(t[i] == s[i]);
        }
        lemma_digits_value_bounds(t);
        assert(is_digit(s[s.len() - 1]));
        assert(pow(10, s.len()) == 10 * pow(10, t.len())) by {
            reveal(pow);
        }
        if t.len() > 0 {
            assert(pow(10, t.len()) == 10 * pow(10, (t.len() - 1) as nat)) by {
                reveal(pow);
            }
        } else {
            lemma_pow0(10);
            assert(digits_value(t) == 0);
        }
    }
}

/// Digit sequences of one length that first differ at `k` are ordered as the
/// digits there.
proof fn lemma_first_difference(s: Seq<char>, t: Seq<char>, k: int)
    requires
        all_digits(s),
        all_digits(t),
        s.len() == t.len(),
        0 <= k < s.len(),
        s.take(k) == t.take(k),
        s[k] < t[k],
    ensures
        digits_value(s) < digits_value(t),
{
    let n = s.len();
    let e = (n - k - 1) as nat;
    lemma_digits_value_split(s, k);
    lemma_digits_value_split(t, k);
    let u = s.skip(k);
    let v = t.skip(k);
    assert(all_digits(u)) by {
        assert forall|i: int| 0 <= i < u.len() implies is_digit(#[trigger] u[i]) by {
            assert(u[i] == s[i + k]);
        }
    }
    assert(all_digits(v)) by {
        assert forall|i: int| 0 <= i < v.len() implies is_digit(#[trigger] v[i]) by {
            assert(v[i] == t[i + k]);
        }
    }
    lemma_digits_value_split(u, 1);
    lemma_digits_value_split(v, 1);
    let us = u.skip(1);
    let vs = v.skip(1);
    assert(all_digits(us)) by {
        assert forall|i: int| 0 <= i < us.len() implies is_digit(#[trigger] us[i]) by {
            assert(us[i] == u[i + 1]);
        }
    }
    lemma_digits_value_bounds(us);
    reveal_with_fuel(digits_value, 2);
    let x = u[0] as int - '0' as int;
    let y = v[0] as int - '0' as int;
    assert(is_digit(s[k]) && is_digit(t[k]));
    assert(u.take(1).drop_last().len() == 0);
    assert(v.take(1).drop_last().len() == 0);
    assert(digits_value(u.take(1)) == x);
    assert(digits_value(v.take(1)) == y);
    let p = pow(10, e);
    assert(digits_value(u) == x * p + digits_value(us));
    assert(digits_value(v) == y * p + digits_value(vs));
    assert(x * p + p <= y * p) by (nonlinear_arith)
        requires
            x + 1 <= y,
            p >= 0,
    ;
}

/// Digit sequences of one length and one value are the same sequence.
proof fn lemma_same_length_same_value(s: Seq<char>, t: Seq<char>)
    requires
        all_digits(s),
        all_digits(t),
        s.len() == t.len(),
        digits_value(s) == digits_value(t),
    ensures
        s == t,
    decreases s.len(),
{
    if s.len() > 0 {
        let s1 = s.drop_last();
        let t1 = t.drop_last();
        assert(all_digits(s1)) by {
            assert forall|i: int| 0 <= i < s1.len() implies is_digit(#[trigger] s1[i]) by {
                assert(s1[i] == s[i]);
            }
        }
        assert(all_digits(t1)) by {
            assert forall|i: int| 0 <= i < t1.len() implies is_digit(#[trigger] t1[i]) by {
                assert(t1[i] == t[i]);
            }
        }
        assert(is_digit(s[s.len() - 1]) && is_digit(t[t.len() - 1]));
        lemma_same_length_same_value(s1, t1);
        assert(s =~= s1.push(s.last()));
        assert(t =~= t1.push(t.last()));
    } else {
        assert(s =~= t);
    }
}

// ---------------------------------------------------------------------------
// Names by their numbers and characters
// ---------------------------------------------------------------------------

proof fn lemma_runs_irreflexive(a: Seq<char>)
    ensures
        !runs_lt(a, a),
    decreases a.len(),
{
    if a.len() > 0 {
        if is_digit(a[0]) {
            lemma_digit_run(a);
            lemma_runs_irreflexive(a.skip(digit_run(a) as int));
        } else {
            lemma_runs_irreflexive(a.drop_first());
        }
    }
}

proof fn lemma_runs_total(a: Seq<char>, b: Seq<char>)
    requires
        a != b,
    ensures
        runs_lt(a, b) != runs_lt(b, a),
    decreases a.len(),
{
    if a.len() == 0 {
        assert(b.len() > 0) by {
            if b.len() == 0 {
                assert(a =~= b);
            }
        }
    } else if b.len() == 0 {
    } else if is_digit(a[0]) && is_digit(b[0]) {
        let m = digit_run(a) as int;
        let n = digit_run(b) as int;
        lemma_digit_run(a);
        lemma_digit_run(b);
        if m == n && digits_value(a.take(m)) == digits_value(b.take(n)) {
            lemma_same_length_same_value(a.take(m), b.take(n));
            assert(a.skip(m) != b.skip(n)) by {
                if a.skip(m) == b.skip(n) {
                    assert(a =~= a.take(m) + a.skip(m));
                    assert(b =~= b.take(n) + b.skip(n));
                }
            }
            lemma_runs_total(a.skip(m), b.skip(n));
        }
    } else if a[0] == b[0] {
        assert(a.drop_first() != b.drop_first()) by {
            if a.drop_first() == b.drop_first() {
                assert(a =~= seq![a[0]] + a.drop_first());
                assert(b =~= seq![b[0]] + b.drop_first());
            }
        }
        lemma_runs_total(a.drop_first(), b.drop_first());
    }
}

proof fn lemma_runs_transitive(a: Seq<char>, b: Seq<char>, c: Seq<char>)
    requires
        runs_lt(a, b),
        runs_lt(b, c),
    ensures
        runs_lt(a, c),
    decreases a.len(),
{
    if a.len() > 0 && b.len() > 0 && c.len() > 0 {
        if is_digit(a[0]) && is_digit(b[0]) && is_digit(c[0]) {
            let m = digit_run(a) as int;
            let n = digit_run(b) as int;
            let o = digit_run(c) as int;
            lemma_digit_run(a);
            if m == n && n == o && digits_value(a.take(m)) == digits_value(b.take(n))
                && digits_value(b.take(n)) == digits_value(c.take(o)) {
                lemma_runs_transitive(a.skip(m), b.skip(n), c.skip(o));
            }
        } else if a[0] == b[0] && b[0] == c[0] {
            lemma_runs_transitive(a.drop_first(), b.drop_first(), c.drop_first());
        }
    }
}

/// Whether `s` ends in a digit.
pub open spec fn ends_in_digit(s: Seq<char>) -> bool {
    s.len() > 0 && is_digit(s.last())
}

/// Whether `s` starts with a digit.
pub open spec fn starts_with_digit(s: Seq<char>) -> bool {
    s.len() > 0 && is_digit(s[0])
}

proof fn lemma_common_start(p: Seq<char>, a: Seq<char>, b: Seq<char>)
    requires
        !ends_in_digit(p),
    ensures
        runs_lt(p + a, p + b) == runs_lt(a, b),
    decreases p.len(),
{
    let x = p + a;
    let y = p + b;
    if p.len() == 0 {
        assert(x =~= a);
        assert(y =~= b);
    } else if is_digit(p[0]) {
        lemma_digit_run(p);
        let m = digit_run(p) as int;
        assert(m < p.len()) by {
            if m == p.len() {
                assert(p.take(m) =~= p);
                assert(is_digit(p.take(m)[p.len() - 1]));
            }
        }
        assert(x.take(m) =~= p.take(m));
        assert(y.take(m) =~= p.take(m));
        assert(x[m] == p[m] && y[m] == p[m]);
        assert forall|i: int| 0 <= i < m implies is_digit(#[trigger] x[i]) && is_digit(y[i]) by {
            assert(p.take(m)[i] == p[i]);
        }
        assert forall|i: int| 0 <= i < m implies is_digit(#[trigger] y[i]) by {
            assert(is_digit(x[i]));
        }
        lemma_digit_run_is(x, m);
        lemma_digit_run_is(y, m);
        let rest = p.skip(m);
        assert(x.skip(m) =~= rest + a);
        assert(y.skip(m) =~= rest + b);
        assert(rest.last() == p.last());
        lemma_common_start(rest, a, b);
    } else {
        let rest = p.drop_first();
        assert(x.drop_first() =~= rest + a);
        assert(y.drop_first() =~= rest + b);
        if rest.len() > 0 {
            assert(rest.last() == p.last());
        }
        lemma_common_start(rest, a, b);
    }
}

proof fn lemma_code_order(a: Seq<char>, b: Seq<char>)
    ensures
        !code_lt(a, a),
        a != b ==> code_lt(a, b) != code_lt(b, a),
    decreases a.len(),
{
    if a.len() > 0 && b.len() > 0 {
        lemma_code_order(a.drop_first(), b.drop_first());
        if a != b && a[0] == b[0] && a.drop_first() == b.drop_first() {
            assert(a =~= seq![a[0]] + a.drop_first());
            assert(b =~= seq![b[0]] + b.drop_first());
        }
    } else if a.len() > 0 {
        lemma_code_order(a.drop_first(), b);
    } else if b.len() == 0 {
        assert(a =~= b);
    }
}

proof fn lemma_code_transitive(a: Seq<char>, b: Seq<char>, c: Seq<char>)
    requires
        code_lt(a, b),
        code_lt(b, c),
    ensures
        code_lt(a, c),
    decreases a.len(),
{
    if a.len() > 0 && a[0] == b[0] && b[0] == c[0] {
        lemma_code_transitive(a.drop_first(), b.drop_first(), c.drop_first());
    }
}

/// Lower case changes no digit and no length.
proof fn lemma_folded(s: Seq<char>)
    ensures
        folded(s).len() == s.len(),
        forall|i: int| 0 <= i < s.len() ==> is_digit(#[trigger] folded(s)[i]) == is_digit(s[i]),
        all_digits(s) ==> folded(s) == s,
        starts_with_digit(folded(s)) == starts_with_digit(s),
        ends_in_digit(folded(s)) == ends_in_digit(s),
{
    if all_digits(s) {
        assert(folded(s) =~= s);
    }
}

proof fn lemma_folded_join(a: Seq<char>, b: Seq<char>)
    ensures
        folded(a + b) == folded(a) + folded(b),
{
    assert(folded(a + b) =~= folded(a) + folded(b));
}

// ---------------------------------------------------------------------------
// Laws of the order
// ---------------------------------------------------------------------------

/// No name comes before itself.
pub proof fn natural_order_is_irreflexive(a: Seq<char>)
    ensures
        !natural_lt(a, a),
{
    lemma_runs_irreflexive(folded(a));
    lemma_code_order(a, a);
}

/// Of two different names exactly one comes before the other.
pub proof fn natural_order_is_total(a: Seq<char>, b: Seq<char>)
    requires
        a != b,
    ensures
        natural_lt(a, b) != natural_lt(b, a),
{
    if folded(a) == folded(b) {
        lemma_runs_irreflexive(folded(a));
        lemma_code_order(a, b);
    } else {
        lemma_runs_total(folded(a), folded(b));
    }
}

/// A name before a second that is before a third is before the third.
pub proof fn natural_order_is_transitive(a: Seq<char>, b: Seq<char>, c: Seq<char>)
    requires
        natural_lt(a, b),
        natural_lt(b, c),
    ensures
        natural_lt(a, c),
{
    if runs_lt(folded(a), folded(b)) && runs_lt(folded(b), folded(c)) {
        lemma_runs_transitive(folded(a), folded(b), folded(c));
    } else if folded(a) == folded(b) && folded(b) == folded(c) && code_lt(a, b) && code_lt(b, c) {
        lemma_code_transitive(a, b, c);
    }
}

/// What two names start with makes no difference where it differs in case alone,
/// as long as no number reaches over its end and what follows is told apart by
/// more than case.
pub proof fn like_starts_make_no_difference(
    p: Seq<char>,
    q: Seq<char>,
    a: Seq<char>,
    b: Seq<char>,
)
    requires
        folded(p) == folded(q),
        !ends_in_digit(p),
        folded(a) != folded(b),
    ensures
        natural_lt(p + a, q + b) == natural_lt(a, b),
{
    lemma_folded_join(p, a);
    lemma_folded_join(q, b);
    lemma_folded(p);
    lemma_common_start(folded(p), folded(a), folded(b));
    if folded(p + a) == folded(q + b) {
        assert(folded(a) =~= folded(p + a).skip(p.len() as int));
        assert(folded(b) =~= folded(q + b).skip(folded(q).len() as int));
    }
}

/// Numbers in names are compared by value: of two names that are alike up to a
/// number, but for case, the one with the smaller number comes first, whatever
/// follows.
pub proof fn numbers_are_compared_by_value(
    p: Seq<char>,
    q: Seq<char>,
    x: Seq<char>,
    y: Seq<char>,
    r: Seq<char>,
    s: Seq<char>,
)
    requires
        folded(p) == folded(q),
        !ends_in_digit(p),
        x.len() > 0,
        y.len() > 0,
        all_digits(x),
        all_digits(y),
        !starts_with_digit(r),
        !starts_with_digit(s),
        digits_value(x) < digits_value(y),
    ensures
        natural_lt(p + (x + r), q + (y + s)),
{
    let a = x + folded(r);
    let b = y + folded(s);
    let m = x.len() as int;
    let n = y.len() as int;
    lemma_folded(p);
    lemma_folded(r);
    lemma_folded(s);
    lemma_folded(x);
    lemma_folded(y);
    lemma_folded_join(x, r);
    lemma_folded_join(y, s);
    lemma_folded_join(p, x + r);
    lemma_folded_join(q, y + s);
    assert(a.take(m) =~= x);
    assert(b.take(n) =~= y);
    assert(r.len() > 0 ==> a[m] == folded(r)[0]);
    assert(s.len() > 0 ==> b[n] == folded(s)[0]);
    lemma_digit_run_is(a, m);
    lemma_digit_run_is(b, n);
    assert(a[0] == x[0] && b[0] == y[0]);
    assert(runs_lt(a, b));
    lemma_common_start(folded(p), a, b);
}

/// Text is compared without regard to case: of two names that are alike up to a
/// letter, but for case, the letters decide by their lower case, whatever
/// follows.
pub proof fn letters_are_compared_without_case(
    p: Seq<char>,
    q: Seq<char>,
    c: char,
    d: char,
    r: Seq<char>,
    s: Seq<char>,
)
    requires
        folded(p) == folded(q),
        !ends_in_digit(p),
        !is_digit(c) || !is_digit(d),
        ascii_lower(c) != ascii_lower(d),
    ensures
        natural_lt(p + (seq![c] + r), q + (seq![d] + s)) <==> ascii_lower(c) < ascii_lower(d),
{
    let a = seq![c] + r;
    let b = seq![d] + s;
    assert(folded(a)[0] == ascii_lower(c) && folded(b)[0] == ascii_lower(d));
    assert(runs_lt(folded(a), folded(b)) == (ascii_lower(c) < ascii_lower(d)));
    like_starts_make_no_difference(p, q, a, b);
}

proof fn lemma_prefix_first(p: Seq<char>, s: Seq<char>)
    requires
        s.len() > 0,
    ensures
        runs_lt(p, p + s),
    decreases p.len(),
{
    let x = p + s;
    if p.len() > 0 {
        assert(x[0] == p[0]);
        if is_digit(p[0]) {
            lemma_digit_run(p);
            lemma_digit_run(x);
            let m = digit_run(p) as int;
            let n = digit_run(x) as int;
            assert(n >= m) by {
                if n < m {
                    assert(is_digit(p.take(m)[n]));
                    assert(x[n] == p[n]);
                }
            }
            assert(x.take(n).take(m) =~= p.take(m));
            if n == m {
                assert(x.take(m) =~= p.take(m));
                assert(x.skip(m) =~= p.skip(m) + s);
                lemma_prefix_first(p.skip(m), s);
            } else {
                let v = digits_value(p.take(m)) as int;
                let w = pow(10, (n - m) as nat);
                lemma_digits_value_split(x.take(n), m);
                lemma_pow_positive(10, (n - m) as nat);
                assert(v * w >= v) by (nonlinear_arith)
                    requires
                        v >= 0,
                        w >= 1,
                ;
            }
        } else {
            assert(x.drop_first() =~= p.drop_first() + s);
            lemma_prefix_first(p.drop_first(), s);
        }
    }
}

/// A name comes before every longer name that it starts.
pub proof fn shorter_names_come_first(p: Seq<char>, s: Seq<char>)
    requires
        s.len() > 0,
    ensures
        natural_lt(p, p + s),
{
    lemma_folded_join(p, s);
    lemma_prefix_first(folded(p), folded(s));
}

/// Of numbers of one value the one with fewer zeros in front comes first, whatever
/// follows.
pub proof fn fewer_zeros_come_first(
    p: Seq<char>,
    q: Seq<char>,
    x: Seq<char>,
    y: Seq<char>,
    r: Seq<char>,
    s: Seq<char>,
)
    requires
        folded(p) == folded(q),
        !ends_in_digit(p),
        0 < x.len() < y.len(),
        all_digits(x),
        all_digits(y),
        !starts_with_digit(r),
        !starts_with_digit(s),
        digits_value(x) == digits_value(y),
    ensures
        natural_lt(p + (x + r), q + (y + s)),
{
    let a = x + folded(r);
    let b = y + folded(s);
    let m = x.len() as int;
    let n = y.len() as int;
    lemma_folded(p);
    lemma_folded(r);
    lemma_folded(s);
    lemma_folded(x);
    lemma_folded(y);
    lemma_folded_join(x, r);
    lemma_folded_join(y, s);
    lemma_folded_join(p, x + r);
    lemma_folded_join(q, y + s);
    assert(a.take(m) =~= x);
    assert(b.take(n) =~= y);
    assert(r.len() > 0 ==> a[m] == folded(r)[0]);
    assert(s.len() > 0 ==> b[n] == folded(s)[0]);
    lemma_digit_run_is(a, m);
    lemma_digit_run_is(b, n);
    assert(a[0] == x[0] && b[0] == y[0]);
    assert(runs_lt(a, b));
    lemma_common_start(folded(p), a, b);
}

proof fn lemma_code_start(p: Seq<char>, a: Seq<char>, b: Seq<char>)
    ensures
        code_lt(p + a, p + b) == code_lt(a, b),
    decreases p.len(),
{
    if p.len() == 0 {
        assert(p + a =~= a);
        assert(p + b =~= b);
    } else {
        lemma_code_start(p.drop_first(), a, b);
        assert((p + a).drop_first() =~= p.drop_first() + a);
        assert((p + b).drop_first() =~= p.drop_first() + b);
    }
}

/// Of names that differ in nothing but case, the one with the capital where they first
/// differ comes first.
pub proof fn capitals_come_first(p: Seq<char>, c: char, d: char, r: Seq<char>, s: Seq<char>)
    requires
        'A' <= c <= 'Z',
        d as int == c as int + 32,
        folded(r) == folded(s),
    ensures
        natural_lt(p + (seq![c] + r), p + (seq![d] + s)),
{
    let a = seq![c] + r;
    let b = seq![d] + s;
    lemma_folded_join(p, a);
    lemma_folded_join(p, b);
    lemma_folded_join(seq![c], r);
    lemma_folded_join(seq![d], s);
    assert(folded(seq![c]) =~= folded(seq![d]));
    assert(a[0] == c && b[0] == d);
    lemma_code_start(p, a, b);
}

/// The digits are those from 0 to 9, and a capital is no other letter than its small
/// form.
pub proof fn digits_and_letters(c: char)
    ensures
        is_digit(c) <==> c == '0' || c == '1' || c == '2' || c == '3' || c == '4' || c == '5' || c == '6'
            || c == '7' || c == '8' || c == '9',
        'A' <= c <= 'Z' ==> ascii_lower(c) as int - 'a' as int == c as int - 'A' as int,
        c < 'A' || c > 'Z' ==> ascii_lower(c) == c,
{
}

/// A text is a number where each of its characters is a digit, and whether a number
/// reaches over an end of a text is told by the character there.
pub proof fn numbers_are_made_of_digits(s: Seq<char>)
    ensures
        all_digits(s) <==> forall|i: int| 0 <= i < s.len() ==> '0' <= #[trigger] s[i] && s[i] <= '9',
        s.len() > 0 ==> (starts_with_digit(s) <==> '0' <= s[0] && s[0] <= '9'),
        s.len() > 0 ==> (ends_in_digit(s) <==> '0' <= s[s.len() - 1] && s[s.len() - 1] <= '9'),
        s.len() == 0 ==> !starts_with_digit(s) && !ends_in_digit(s),
        folded(s).len() == s.len(),
        forall|i: int| 0 <= i < s.len() ==> #[trigger] folded(s)[i] == ascii_lower(s[i]),
{
    if all_digits(s) {
        assert forall|i: int| 0 <= i < s.len() implies '0' <= #[trigger] s[i] && s[i] <= '9' by {
            assert(is_digit(s[i]));
        }
    }
}

/// A name stands before or equals another just where the other does not come before it.
pub proof fn names_come_first_or_later(a: Seq<char>, b: Seq<char>)
    ensures
        natural_le(a, b) <==> !natural_lt(b, a),
        natural_le(a, b) && natural_le(b, a) ==> a == b,
{
    natural_order_is_irreflexive(a);
    if a != b {
        natural_order_is_total(a, b);
    }
}

/// A digit counts for what it writes, and digits in front of others count for ten times
/// as much for each of these.
pub proof fn digits_are_decimal(a: Seq<char>, b: Seq<char>, c: char)
    requires
        all_digits(a),
        all_digits(b),
        is_digit(c),
    ensures
        digits_value(seq![c]) == c as int - '0' as int,
        digits_value(a + b) == digits_value(a) * pow(10, b.len()) + digits_value(b),
{
    reveal_with_fuel(digits_value, 2);
    assert(seq![c].drop_last() =~= seq![]);
    let s = a + b;
    assert(all_digits(s)) by {
        assert forall|i: int| 0 <= i < s.len() implies is_digit(#[trigger] s[i]) by {
            if i < a.len() {
                assert(s[i] == a[i]);
            } else {
                assert(s[i] == b[i - a.len()]);
            }
        }
    }
    lemma_digits_value_split(s, a.len() as int);
    assert(s.take(a.len() as int) =~= a);
    assert(s.skip(a.len() as int) =~= b);
}

/// Case decides last: it is looked at only where two names differ in nothing
/// else.
pub proof fn case_decides_last(a: Seq<char>, b: Seq<char>)
    requires
        folded(a) != folded(b),
    ensures
        natural_lt(a, b) == natural_lt(folded(a), folded(b)),
{
    assert(folded(folded(a)) =~= folded(a));
    assert(folded(folded(b)) =~= folded(b));
}

// ---------------------------------------------------------------------------
// Comparing names
// ---------------------------------------------------------------------------

/// How one thing stands to another in an order.
#[derive(Clone, Copy, PartialEq, Eq, Structural, Debug)]
pub enum Relation {
    Before,
    Same,
    After,
}

fn digit_char(c: char) -> (r: bool)
    ensures
        r == is_digit(c),
{
    '0' <= c && c <= '9'
}

fn lower_char(c: char) -> (r: char)
    ensures
        r == ascii_lower(c),
{
    if 'A' <= c && c <= 'Z' {
        (c as u8 + 32) as char
    } else {
        c
    }
}

fn relate_chars(c: char, d: char) -> (r: Relation)
    ensures
        r is Before <==> c < d,
        r is After <==> d < c,
        r is Same <==> c == d,
{
    if c < d {
        Relation::Before
    } else if d < c {
        Relation::After
    } else {
        Relation::Same
    }
}

/// The end of the digit run that starts at `i`.
fn run_end(s: &Vec<char>, i: usize) -> (end: usize)
    requires
        i <= s.len(),
    ensures
        i <= end <= s.len(),
        end - i == digit_run(s@.skip(i as int)),
        forall|k: int| i <= k < end ==> is_digit(#[trigger] s@[k]),
{
    let mut end: usize = i;
    while end < s.len() && digit_char(s[end])
        invariant
            i <= end <= s.len(),
            forall|k: int| i <= k < end ==> is_digit(#[trigger] s@[k]),
        decreases s.len() - end,
    {
        end += 1;
    }
    proof {
        let t = s@.skip(i as int);
        assert forall|k: int| 0 <= k < end - i implies is_digit(#[trigger] t[k]) by {
            assert(t[k] == s@[k + i]);
        }
        lemma_digit_run_is(t, end - i);
    }
    end
}

/// The first position at or after `i`, before `end`, that holds no `0`.
fn skip_zeros(s: &Vec<char>, i: usize, end: usize) -> (k: usize)
    requires
        i <= end <= s.len(),
        forall|k: int| i <= k < end ==> is_digit(#[trigger] s@[k]),
    ensures
        i <= k <= end,
        k < end ==> s@[k as int] != '0',
        digits_value(s@.subrange(i as int, end as int)) == digits_value(
            s@.subrange(k as int, end as int),
        ),
{
    let mut k: usize = i;
    while k < end && s[k] == '0'
        invariant
            i <= k <= end <= s.len(),
            forall|k: int| i <= k < end ==> is_digit(#[trigger] s@[k]),
            digits_value(s@.subrange(i as int, end as int)) == digits_value(
                s@.subrange(k as int, end as int),
            ),
        decreases end - k,
    {
        proof {
            let t = s@.subrange(k as int, end as int);
            assert forall|m: int| 0 <= m < t.len() implies is_digit(#[trigger] t[m]) by {
                assert(t[m] == s@[m + k]);
            }
            lemma_digits_value_split(t, 1);
            assert(t.skip(1) =~= s@.subrange(k + 1, end as int));
            reveal_with_fuel(digits_value, 2);
            assert(t.take(1).drop_last().len() == 0);
            let z = digits_value(t.take(1));
            let w = pow(10, (t.len() - 1) as nat);
            assert(z * w == 0) by (nonlinear_arith)
                requires
                    z == 0,
            ;
        }
        k += 1;
    }
    k
}

/// Compares the numbers that two digit runs write.
fn relate_runs(a: &Vec<char>, i: usize, m: usize, b: &Vec<char>, j: usize, n: usize) -> (r: Relation)
    requires
        i <= m <= a.len(),
        j <= n <= b.len(),
        forall|k: int| i <= k < m ==> is_digit(#[trigger] a@[k]),
        forall|k: int| j <= k < n ==> is_digit(#[trigger] b@[k]),
    ensures
        ({
            let va = digits_value(a@.subrange(i as int, m as int));
            let vb = digits_value(b@.subrange(j as int, n as int));
            match r {
                Relation::Before => va < vb,
                Relation::Same => va == vb,
                Relation::After => va > vb,
            }
        }),
{
    let p: usize = skip_zeros(a, i, m);
    let q: usize = skip_zeros(b, j, n);
    let ghost x = a@.subrange(p as int, m as int);
    let ghost y = b@.subrange(q as int, n as int);
    proof {
        assert forall|k: int| 0 <= k < x.len() implies is_digit(#[trigger] x[k]) by {
            assert(x[k] == a@[k + p]);
        }
        assert forall|k: int| 0 <= k < y.len() implies is_digit(#[trigger] y[k]) by {
            assert(y[k] == b@[k + q]);
        }
        lemma_digits_value_bounds(x);
        lemma_digits_value_bounds(y);
        if x.len() < y.len() {
            lemma_pow_increases(10, x.len(), (y.len() - 1) as nat);
        } else if y.len() < x.len() {
            lemma_pow_increases(10, y.len(), (x.len() - 1) as nat);
        }
    }
    if m - p < n - q {
        return Relation::Before;
    }
    if n - q < m - p {
        return Relation::After;
    }
    let len: usize = m - p;
    let mut k: usize = 0;
    while k < len
        invariant
            k <= len,
            p + len == m,
            q + len == n,
            m <= a.len(),
            n <= b.len(),
            x == a@.subrange(p as int, m as int),
            y == b@.subrange(q as int, n as int),
            all_digits(x),
            all_digits(y),
            x.take(k as int) =~= y.take(k as int),
            digits_value(a@.subrange(i as int, m as int)) == digits_value(x),
            digits_value(b@.subrange(j as int, n as int)) == digits_value(y),
        decreases len - k,
    {
        let c = a[p + k];
        let d = b[q + k];
        assert(c == x[k as int] && d == y[k as int]);
        if c < d {
            proof {
                lemma_first_difference(x, y, k as int);
            }
            return Relation::Before;
        }
        if d < c {
            proof {
                lemma_first_difference(y, x, k as int);
            }
            return Relation::After;
        }
        k += 1;
    }
    assert(x =~= y) by {
        assert(x.take(len as int) =~= x);
        assert(y.take(len as int) =~= y);
    }
    Relation::Same
}

/// Compares two names by their numbers and characters.
fn relate_by_runs(a: &Vec<char>, b: &Vec<char>) -> (r: Relation)
    ensures
        r is Before <==> runs_lt(a@, b@),
        r is After <==> runs_lt(b@, a@),
        r is Same <==> a@ == b@,
{
    let mut i: usize = 0;
    let mut j: usize = 0;
    assert(a@.skip(0) =~= a@);
    assert(b@.skip(0) =~= b@);
    while i < a.len() && j < b.len()
        invariant
            i <= a.len(),
            j <= b.len(),
            runs_lt(a@, b@) == runs_lt(a@.skip(i as int), b@.skip(j as int)),
            runs_lt(b@, a@) == runs_lt(b@.skip(j as int), a@.skip(i as int)),
            (a@ == b@) == (a@.skip(i as int) == b@.skip(j as int)),
        decreases a.len() - i,
    {
        let ghost s = a@.skip(i as int);
        let ghost t = b@.skip(j as int);
        assert(s[0] == a@[i as int] && t[0] == b@[j as int]);
        proof {
            lemma_runs_irreflexive(s);
            if s != t {
                lemma_runs_total(s, t);
            }
        }
        if digit_char(a[i]) && digit_char(b[j]) {
            let m: usize = run_end(a, i);
            let n: usize = run_end(b, j);
            assert(s.take(m - i) =~= a@.subrange(i as int, m as int));
            assert(t.take(n - j) =~= b@.subrange(j as int, n as int));
            assert(s.skip(m - i) =~= a@.skip(m as int));
            assert(t.skip(n - j) =~= b@.skip(n as int));
            match relate_runs(a, i, m, b, j, n) {
                Relation::Before => {
                    return Relation::Before;
                },
                Relation::After => {
                    return Relation::After;
                },
                Relation::Same => {},
            }
            if m - i < n - j {
                return Relation::Before;
            }
            if n - j < m - i {
                return Relation::After;
            }
            proof {
                assert(digit_run(s) == m - i) by {
                    lemma_digit_run(s);
                }
                lemma_digit_run(t);
                lemma_same_length_same_value(s.take(m - i), t.take(n - j));
                assert(s =~= s.take(m - i) + s.skip(m - i));
                assert(t =~= t.take(n - j) + t.skip(n - j));
                assert((s == t) == (s.skip(m - i) == t.skip(n - j)));
            }
            i = m;
            j = n;
        } else {
            match relate_chars(a[i], b[j]) {
                Relation::Before => {
                    return Relation::Before;
                },
                Relation::After => {
                    return Relation::After;
                },
                Relation::Same => {},
            }
            proof {
                assert(s.drop_first() =~= a@.skip(i + 1));
                assert(t.drop_first() =~= b@.skip(j + 1));
                assert(s =~= seq![s[0]] + s.drop_first());
                assert(t =~= seq![t[0]] + t.drop_first());
                assert((s == t) == (s.drop_first() == t.drop_first()));
            }
            i += 1;
            j += 1;
        }
    }
    if i < a.len() {
        Relation::After
    } else if j < b.len() {
        Relation::Before
    } else {
        assert(a@.skip(i as int) =~= b@.skip(j as int));
        Relation::Same
    }
}

/// A name, given as its characters, in ASCII lower case.
fn fold(s: &Vec<char>) -> (r: Vec<char>)
    ensures
        r@ == folded(s@),
{
    let mut r: Vec<char> = Vec::new();
    let mut i: usize = 0;
    while i < s.len()
        invariant
            i <= s@.len(),
            r@ == folded(s@).take(i as int),
        decreases s.len() - i,
    {
        r.push(lower_char(s[i]));
        assert(r@ =~= folded(s@).take(i + 1));
        i += 1;
    }
    assert(folded(s@).take(i as int) =~= folded(s@));
    r
}

/// Compares two names, given as their characters, by their code points.
fn relate_by_codes(a: &Vec<char>, b: &Vec<char>) -> (r: Relation)
    ensures
        r is Before <==> code_lt(a@, b@),
        r is After <==> code_lt(b@, a@),
        r is Same <==> a@ == b@,
{
    let mut i: usize = 0;
    assert(a@.skip(0) =~= a@);
    assert(b@.skip(0) =~= b@);
    while i < a.len() && i < b.len()
        invariant
            i <= a.len(),
            i <= b.len(),
            code_lt(a@, b@) == code_lt(a@.skip(i as int), b@.skip(i as int)),
            code_lt(b@, a@) == code_lt(b@.skip(i as int), a@.skip(i as int)),
            a@.take(i as int) == b@.take(i as int),
        decreases a.len() - i,
    {
        let ghost s = a@.skip(i as int);
        let ghost t = b@.skip(i as int);
        assert(s[0] == a@[i as int] && t[0] == b@[i as int]);
        assert(s.drop_first() =~= a@.skip(i + 1));
        assert(t.drop_first() =~= b@.skip(i + 1));
        match relate_chars(a[i], b[i]) {
            Relation::Before => {
                return Relation::Before;
            },
            Relation::After => {
                return Relation::After;
            },
            Relation::Same => {},
        }
        assert(a@.take(i + 1) =~= a@.take(i as int).push(a@[i as int]));
        assert(b@.take(i + 1) =~= b@.take(i as int).push(b@[i as int]));
        i += 1;
    }
    if i < a.len() {
        Relation::After
    } else if i < b.len() {
        Relation::Before
    } else {
        assert(a@ =~= a@.take(i as int));
        assert(b@ =~= b@.take(i as int));
        Relation::Same
    }
}

/// Compares two names, given as their characters, in natural order.
pub fn relate_naturally(a: &Vec<char>, b: &Vec<char>) -> (r: Relation)
    ensures
        r is Before <==> natural_lt(a@, b@),
        r is After <==> natural_lt(b@, a@),
        r is Same <==> a@ == b@,
{
    match relate_by_runs(&fold(a), &fold(b)) {
        Relation::Same => {
            proof {
                lemma_runs_irreflexive(folded(a@));
            }
            relate_by_codes(a, b)
        },
        other => {
            proof {
                lemma_runs_irreflexive(folded(a@));
            }
            other
        },
    }
}

/// Natural (human) order comparison of two names.
pub fn natural_cmp(a: &str, b: &str) -> (r: Ordering)
    ensures
        r == Ordering::Less <==> natural_lt(a@, b@),
        r == Ordering::Greater <==> natural_lt(b@, a@),
        r == Ordering::Equal <==> a@ == b@,
{
    match relate_naturally(&chars_of(a), &chars_of(b)) {
        Relation::Before => Ordering::Less,
        Relation::Same => Ordering::Equal,
        Relation::After => Ordering::Greater,
    }
}

} // verus!
