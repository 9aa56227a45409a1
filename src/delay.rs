//! The delay grammar of reminders: an optional hours part, then an optional
//! minutes part, then an optional seconds part, at least one of them, each an
//! amount of one to six digits without a leading zero followed by its unit
//! letter (`h`, `m` or `s`); for example `1h30m` or `45s`.
use vstd::prelude::*;
use crate::errors::{AppError, ReminderError};

verus! {

pub open spec fn is_digit(c: char) -> bool {
    '0' <= c <= '9'
}

pub open spec fn digit_value(c: char) -> nat {
    ((c as u32) - ('0' as u32)) as nat
}

/// Number of decimal digits at the start of `s`.
pub open spec fn leading_digits(s: Seq<char>) -> nat
    decreases s.len(),
{
    if s.len() > 0 && is_digit(s[0]) {
        1 + leading_digits(s.skip(1))
    } else {
        0
    }
}

/// Value of the decimal digits `a`.
pub open spec fn digits_value(a: Seq<char>) -> nat
    decreases a.len(),
{
    if a.len() == 0 {
        0
    } else {
        digits_value(a.drop_last()) * 10 + digit_value(a.last())
    }
}

pub open spec fn pow10(n: nat) -> nat
    decreases n,
{
    if n == 0 {
        1
    } else {
        10 * pow10((n - 1) as nat)
    }
}

/// The part `<amount><unit>` at the start of `s`, if there is one: its amount
/// and the number of characters it takes; `(0, 0)` if there is none.
pub open spec fn component(s: Seq<char>, unit: char) -> (nat, nat) {
    let d = leading_digits(s);
    if 1 <= d <= 6 && s[0] != '0' && d < s.len() && s[d as int] == unit {
        (digits_value(s.take(d as int)), d + 1)
    } else {
        (0, 0)
    }
}

/// The delay that `s` denotes, in seconds, or `None` if `s` is not a delay.
pub open spec fn delay_seconds(s: Seq<char>) -> Option<nat> {
    let (h, a) = component(s, 'h');
    let s1 = s.skip(a as int);
    let (m, b) = component(s1, 'm');
    let s2 = s1.skip(b as int);
    let (sec, c) = component(s2, 's');
    if a + b + c > 0 && c == s2.len() {
        Some(h * 3600 + m * 60 + sec)
    } else {
        None
    }
}

proof fn lemma_digits_value_positive(a: Seq<char>)
    requires
        a.len() >= 1,
        is_digit(a[0]),
        a[0] != '0',
    ensures
        digits_value(a) > 0,
    decreases a.len(),
{
    if a.len() > 1 {
        lemma_digits_value_positive(a.drop_last());
    } else {
        assert(a.drop_last().len() == 0);
    }
}

proof fn lemma_component_positive(s: Seq<char>, unit: char)
    requires
        component(s, unit).1 > 0,
    ensures
        component(s, unit).0 > 0,
{
    let d = leading_digits(s);
    lemma_leading_digits_are_digits(s, 0);
    lemma_digits_value_positive(s.take(d as int));
}

/// A delay is never zero.
pub proof fn lemma_delay_positive(s: Seq<char>)
    requires
        delay_seconds(s) is Some,
    ensures
        delay_seconds(s)->0 > 0,
{
    let (h, a) = component(s, 'h');
    let s1 = s.skip(a as int);
    let (m, b) = component(s1, 'm');
    let s2 = s1.skip(b as int);
    let (sec, c) = component(s2, 's');
    if a > 0 {
        lemma_component_positive(s, 'h');
    } else if b > 0 {
        lemma_component_positive(s1, 'm');
    } else {
        lemma_component_positive(s2, 's');
    }
}

proof fn lemma_pow10_bound(n: nat)
    requires
        n <= 6,
    ensures
        pow10(n) <= 1000000,
{
    reveal_with_fuel(pow10, 7);
}

/// Count the digits of `cs` from `start` on.
fn count_digits(cs: &Vec<char>, start: usize) -> (d: usize)
    requires
        start <= cs.len(),
    ensures
        d == leading_digits(cs@.skip(start as int)),
        start + d <= cs.len(),
{
    let mut k: usize = start;
    while k < cs.len() && '0' <= cs[k] && cs[k] <= '9'
        invariant
            start <= k <= cs.len(),
            leading_digits(cs@.skip(start as int)) == (k - start) + leading_digits(
                cs@.skip(k as int),
            ),
        decreases cs.len() - k,
    {
        assert(cs@.skip(k as int).skip(1) =~= cs@.skip(k + 1));
        k = k + 1;
    }
    if k < cs.len() {
        assert(cs@.skip(k as int)[0] == cs@[k as int]);
    }
    k - start
}

/// Read the part `<amount><unit>` of `cs` at `start`: its amount and length,
/// or `(0, 0)` where there is none.
fn read_component(cs: &Vec<char>, start: usize, unit: char) -> (r: (u32, usize))
    requires
        start <= cs.len(),
    ensures
        r.0 as nat == component(cs@.skip(start as int), unit).0,
        r.1 as nat == component(cs@.skip(start as int), unit).1,
        r.0 < 1000000,
        start + r.1 <= cs.len(),
{
    let ghost s = cs@.skip(start as int);
    let d = count_digits(cs, start);
    if !(1 <= d && d <= 6 && cs[start] != '0' && start + d < cs.len() && cs[start + d] == unit) {
        return (0, 0);
    }
    let mut v: u32 = 0;
    let mut k: usize = 0;
    while k < d
        invariant
            k <= d <= 6,
            start + d < cs.len(),
            s == cs@.skip(start as int),
            d == leading_digits(s),
            v as nat == digits_value(s.take(k as int)),
            v < pow10(k as nat),
            pow10(k as nat) <= 1000000,
        decreases d - k,
    {
        proof {
            lemma_leading_digits_are_digits(s, k as int);
            lemma_pow10_bound((k + 1) as nat);
            assert(s.take(k + 1).drop_last() =~= s.take(k as int));
        }
        let c = cs[start + k];
        assert(c == s[k as int]);
        let dg = (c as u32) - ('0' as u32);
        assert(v * 10 + dg < 10 * pow10(k as nat)) by (nonlinear_arith)
            requires
                v < pow10(k as nat),
                dg <= 9,
        ;
        v = v * 10 + dg;
        k = k + 1;
    }
    assert(cs@.skip(start as int)[d as int] == cs@[start + d]);
    assert(cs@.skip(start as int)[0] == cs@[start as int]);
    (v, d + 1)
}

proof fn lemma_leading_digits_len(s: Seq<char>)
    ensures
        leading_digits(s) <= s.len(),
    decreases s.len(),
{
    if s.len() > 0 && is_digit(s[0]) {
        lemma_leading_digits_len(s.skip(1));
    }
}

proof fn lemma_leading_digits_are_digits(s: Seq<char>, k: int)
    requires
        0 <= k < leading_digits(s),
    ensures
        is_digit(s[k]),
    decreases k,
{
    assert(s.len() > 0 && is_digit(s[0]));
    lemma_leading_digits_len(s);
    if k > 0 {
        lemma_leading_digits_are_digits(s.skip(1), k - 1);
        assert(s.skip(1)[k - 1] == s[k]);
    }
}

/// The number of seconds that the delay `spec` denotes; an error naming
/// `spec` where it does not follow the grammar.
pub fn parse_delay_spec_into_seconds(spec: &str) -> (r: Result<u32, AppError>)
    ensures
        match delay_seconds(spec@) {
            Some(v) => r == Ok::<u32, AppError>(v as u32) && v <= u32::MAX,
            None => r matches Err(AppError::Reminder(ReminderError::InvalidReminderTime(e))) && e@
                == spec@,
        },
{
    let len = spec.unicode_len();
    let mut cs: Vec<char> = Vec::new();
    let mut i: usize = 0;
    while i < len
        invariant
            i <= len,
            len == spec@.len(),
            cs@ == spec@.take(i as int),
        decreases len - i,
    {
        cs.push(spec.get_char(i));
        i = i + 1;
        assert(cs@ =~= spec@.take(i as int));
    }
    assert(cs@ =~= spec@);
    let (h, a) = read_component(&cs, 0, 'h');
    assert(cs@.skip(0) =~= cs@);
    let (m, b) = read_component(&cs, a, 'm');
    assert(cs@.skip(a as int).skip(b as int) =~= cs@.skip((a + b) as int));
    let (sec, c) = read_component(&cs, a + b, 's');
    assert(cs@.skip(a as int) =~= cs@.skip(0).skip(a as int));
    if a + b + c > 0 && a + b + c == cs.len() {
        let total: u64 = (h as u64) * 3600 + (m as u64) * 60 + (sec as u64);
        Ok(total as u32)
    } else {
        Err(AppError::Reminder(ReminderError::InvalidReminderTime(String::from_str(spec))))
    }
}

} // verus!
