//! The text form of a `Time`: `HH:MM:SS`, then `+D` or `-D` when the day is
//! not zero.
use vstd::prelude::*;

use vstd::std_specs::iter::IteratorSpec;

use crate::types::{euclid_div, euclid_mod, Time};

verus! {

pub open spec fn digit_char(d: int) -> char {
    if d == 0 {
        '0'
    } else if d == 1 {
        '1'
    } else if d == 2 {
        '2'
    } else if d == 3 {
        '3'
    } else if d == 4 {
        '4'
    } else if d == 5 {
        '5'
    } else if d == 6 {
        '6'
    } else if d == 7 {
        '7'
    } else if d == 8 {
        '8'
    } else {
        '9'
    }
}

/// The value of a decimal digit, or -1 for any other character.
pub open spec fn char_digit(c: char) -> int {
    if c == '0' {
        0
    } else if c == '1' {
        1
    } else if c == '2' {
        2
    } else if c == '3' {
        3
    } else if c == '4' {
        4
    } else if c == '5' {
        5
    } else if c == '6' {
        6
    } else if c == '7' {
        7
    } else if c == '8' {
        8
    } else if c == '9' {
        9
    } else {
        -1
    }
}

/// The decimal digits of `n`, most significant first, without leading zeros.
pub open spec fn digits(n: nat) -> Seq<char>
    decreases n,
{
    if n < 10 {
        seq![digit_char(n as int)]
    } else {
        digits(n / 10).push(digit_char((n % 10) as int))
    }
}

pub open spec fn all_digits(s: Seq<char>) -> bool {
    forall|i: int| 0 <= i < s.len() ==> char_digit(#[trigger] s[i]) >= 0
}

/// The number that a string of decimal digits denotes.
pub open spec fn digits_value(s: Seq<char>) -> int
    decreases s.len(),
{
    if s.len() == 0 {
        0
    } else {
        digits_value(s.drop_last()) * 10 + char_digit(s.last())
    }
}

/// A field of two digits, with a leading zero.
pub open spec fn two_digits(v: int) -> Seq<char> {
    seq![digit_char(v / 10), digit_char(v % 10)]
}

/// The text form of the time `t` seconds.
pub open spec fn format_time(t: int) -> Seq<char> {
    let day = euclid_div(t, 86400);
    let hour = euclid_mod(euclid_div(t, 3600), 24);
    let minute = euclid_mod(euclid_div(t, 60), 60);
    let second = euclid_mod(t, 60);
    let suffix = if day > 0 {
        seq!['+'] + digits(day as nat)
    } else if day < 0 {
        seq!['-'] + digits((-day) as nat)
    } else {
        Seq::empty()
    };
    two_digits(hour) + seq![':'] + two_digits(minute) + seq![':'] + two_digits(second) + suffix
}

/// The value of the two digits at `i`, or -1.
pub open spec fn field_at(s: Seq<char>, i: int) -> int {
    if char_digit(s[i]) >= 0 && char_digit(s[i + 1]) >= 0 {
        char_digit(s[i]) * 10 + char_digit(s[i + 1])
    } else {
        -1
    }
}

/// The day that the text after `HH:MM:SS` gives: none, or a sign and digits.
pub open spec fn parse_day(r: Seq<char>) -> Option<int> {
    if r.len() == 0 {
        Some(0)
    } else if r.len() >= 2 && (r[0] == '+' || r[0] == '-') && all_digits(r.drop_first()) {
        if r[0] == '+' {
            Some(digits_value(r.drop_first()))
        } else {
            Some(-digits_value(r.drop_first()))
        }
    } else {
        None
    }
}

/// The time in seconds that a text gives, if it is well formed.
pub open spec fn parse_time(s: Seq<char>) -> Option<int> {
    if s.len() < 8 || s[2] != ':' || s[5] != ':' {
        None
    } else {
        let h = field_at(s, 0);
        let m = field_at(s, 3);
        let sec = field_at(s, 6);
        if !(0 <= h < 24 && 0 <= m < 60 && 0 <= sec < 60) {
            None
        } else {
            match parse_day(s.subrange(8, s.len() as int)) {
                Some(d) => Some(d * 86400 + h * 3600 + m * 60 + sec),
                None => None,
            }
        }
    }
}

proof fn lemma_digits(n: nat)
    ensures
        digits(n).len() >= 1,
        all_digits(digits(n)),
        digits_value(digits(n)) == n,
    decreases n,
{
    if n >= 10 {
        lemma_digits(n / 10);
        let p = digits(n / 10);
        let d = digits(n);
        assert(d.drop_last() == p);
        let k = (n % 10) as int;
        assert(0 <= k < 10);
        assert(char_digit(digit_char(k)) == k);
        assert(n == (n / 10) * 10 + n % 10) by (nonlinear_arith);
        assert(d.last() == digit_char(k));
        assert(digits_value(d) == digits_value(p) * 10 + char_digit(d.last()));
        assert forall|i: int| 0 <= i < d.len() implies char_digit(#[trigger] d[i]) >= 0 by {
            if i < p.len() {
                assert(d[i] == p[i]);
            }
        }
    } else {
        assert(digits(n).drop_last() =~= Seq::<char>::empty());
        assert(char_digit(digit_char(n as int)) == n);
        assert(digits_value(Seq::<char>::empty()) == 0);
        assert(digits_value(digits(n)) == digits_value(Seq::<char>::empty()) * 10 + char_digit(digits(n).last()));
    }
}

/// The clock fields and the day number add back up to the time.
proof fn lemma_decompose(t: int)
    ensures
        euclid_div(t, 86400) * 86400 + euclid_mod(euclid_div(t, 3600), 24) * 3600 + euclid_mod(
            euclid_div(t, 60),
            60,
        ) * 60 + euclid_mod(t, 60) == t,
        0 <= euclid_mod(euclid_div(t, 3600), 24) < 24,
        0 <= euclid_mod(euclid_div(t, 60), 60) < 60,
        0 <= euclid_mod(t, 60) < 60,
{
    let d = t / 86400;
    let r = t % 86400;
    let h = r / 3600;
    let r2 = r % 3600;
    let m = r2 / 60;
    let sec = r2 % 60;
    assert(t == d * 86400 + r && 0 <= r < 86400) by (nonlinear_arith)
        requires
            d == t / 86400,
            r == t % 86400,
    ;
    assert(r == h * 3600 + r2 && 0 <= r2 < 3600 && 0 <= h < 24) by (nonlinear_arith)
        requires
            h == r / 3600,
            r2 == r % 3600,
            0 <= r < 86400,
    ;
    assert(r2 == m * 60 + sec && 0 <= sec < 60 && 0 <= m < 60) by (nonlinear_arith)
        requires
            m == r2 / 60,
            sec == r2 % 60,
            0 <= r2 < 3600,
    ;
    // t / 3600 == 24 d + h, and its remainder by 24 is h
    assert(t == (24 * d + h) * 3600 + r2) by (nonlinear_arith)
        requires
            t == d * 86400 + r,
            r == h * 3600 + r2,
    ;
    vstd::arithmetic::div_mod::lemma_fundamental_div_mod_converse(t, 3600, 24 * d + h, r2);
    assert(24 * d + h == d * 24 + h);
    vstd::arithmetic::div_mod::lemma_fundamental_div_mod_converse(24 * d + h, 24, d, h);
    // t / 60 == 1440 d + 60 h + m, and its remainder by 60 is m
    assert(t == (1440 * d + 60 * h + m) * 60 + sec) by (nonlinear_arith)
        requires
            t == d * 86400 + r,
            r == h * 3600 + r2,
            r2 == m * 60 + sec,
    ;
    vstd::arithmetic::div_mod::lemma_fundamental_div_mod_converse(t, 60, 1440 * d + 60 * h + m, sec);
    vstd::arithmetic::div_mod::lemma_fundamental_div_mod_converse(
        1440 * d + 60 * h + m,
        60,
        24 * d + h,
        m,
    );
    assert(1440 * d + 60 * h + m == (24 * d + h) * 60 + m) by (nonlinear_arith);
}

/// Reading back the text form of a time gives the same time.
pub proof fn lemma_time_text_round_trip(t: int)
    ensures
        parse_time(format_time(t)) == Some(t),
{
    let day = euclid_div(t, 86400);
    let hour = euclid_mod(euclid_div(t, 3600), 24);
    let minute = euclid_mod(euclid_div(t, 60), 60);
    let second = euclid_mod(t, 60);
    lemma_decompose(t);
    let s = format_time(t);
    let suffix = if day > 0 {
        seq!['+'] + digits(day as nat)
    } else if day < 0 {
        seq!['-'] + digits((-day) as nat)
    } else {
        Seq::<char>::empty()
    };
    let head = two_digits(hour) + seq![':'] + two_digits(minute) + seq![':'] + two_digits(second);
    assert(s == head + suffix);
    assert(head.len() == 8);
    assert(s.subrange(8, s.len() as int) =~= suffix);
    assert(s[2] == ':' && s[5] == ':');
    assert(field_at(s, 0) == hour);
    assert(field_at(s, 3) == minute);
    assert(field_at(s, 6) == second);
    if day > 0 {
        lemma_digits(day as nat);
        assert(suffix.drop_first() =~= digits(day as nat));
    } else if day < 0 {
        lemma_digits((-day) as nat);
        assert(suffix.drop_first() =~= digits((-day) as nat));
    }
}

} // verus!

verus! {

broadcast use vstd::string::group_string_axioms;

fn digit_char_exec(d: u32) -> (c: char)
    requires
        d < 10,
    ensures
        c == digit_char(d as int),
{
    if d == 0 {
        '0'
    } else if d == 1 {
        '1'
    } else if d == 2 {
        '2'
    } else if d == 3 {
        '3'
    } else if d == 4 {
        '4'
    } else if d == 5 {
        '5'
    } else if d == 6 {
        '6'
    } else if d == 7 {
        '7'
    } else if d == 8 {
        '8'
    } else {
        '9'
    }
}

fn char_digit_exec(c: char) -> (d: i64)
    ensures
        d == char_digit(c),
{
    if c == '0' {
        0
    } else if c == '1' {
        1
    } else if c == '2' {
        2
    } else if c == '3' {
        3
    } else if c == '4' {
        4
    } else if c == '5' {
        5
    } else if c == '6' {
        6
    } else if c == '7' {
        7
    } else if c == '8' {
        8
    } else if c == '9' {
        9
    } else {
        -1
    }
}

fn push_digits(v: &mut Vec<char>, n: u32)
    ensures
        final(v)@ == old(v)@ + digits(n as nat),
    decreases n,
{
    if n >= 10 {
        push_digits(v, n / 10);
    }
    v.push(digit_char_exec(n % 10));
    proof {
        if n < 10 {
            assert(digits(n as nat) == seq![digit_char(n as int)]);
        } else {
            assert(digits(n as nat) == digits((n / 10) as nat).push(digit_char((n % 10) as int)));
        }
        assert(final(v)@ =~= old(v)@ + digits(n as nat));
    }
}

fn push_two_digits(v: &mut Vec<char>, x: u8)
    requires
        x < 100,
    ensures
        final(v)@ == old(v)@ + two_digits(x as int),
{
    v.push(digit_char_exec((x / 10) as u32));
    v.push(digit_char_exec((x % 10) as u32));
    assert(final(v)@ =~= old(v)@ + two_digits(x as int));
}

/// The text form of `t`, as characters.
pub fn format_chars(t: Time) -> (r: Vec<char>)
    ensures
        r@ == format_time(t.sec()),
{
    let mut v: Vec<char> = Vec::new();
    push_two_digits(&mut v, t.hour());
    v.push(':');
    push_two_digits(&mut v, t.minute());
    v.push(':');
    push_two_digits(&mut v, t.second());
    let day = t.day();
    let ghost head = v@;
    if day > 0 {
        v.push('+');
        push_digits(&mut v, day as u32);
    } else if day < 0 {
        v.push('-');
        push_digits(&mut v, (-(day as i64)) as u32);
    }
    proof {
        let ds = euclid_div(t.sec(), 86400);
        assert(-2147483648 <= t.sec() <= 2147483647);
        assert(-24856 <= ds <= 24855) by (nonlinear_arith)
            requires
                ds == t.sec() / 86400,
                -2147483648 <= t.sec() <= 2147483647,
        ;
    }
    assert(v@ =~= format_time(t.sec()));
    v
}

/// Relies on `String`'s `FromIterator<char>`: the string holds the characters in order.
#[verifier::external_body]
fn chars_to_string(v: &Vec<char>) -> (r: String)
    ensures
        r@ == v@,
{
    v.iter().collect()
}

/// The characters of a string, in order.
fn str_chars(s: &str) -> (r: Vec<char>)
    ensures
        r@ == s@,
{
    let mut it = s.chars();
    let mut out: Vec<char> = Vec::new();
    assert(out@ + it.remaining() =~= s@);
    loop
        invariant
            it.obeys_prophetic_iter_laws(),
            it.decrease() is Some,
            out@ + it.remaining() == s@,
        ensures
            out@ == s@,
        decreases it.decrease()->0,
    {
        let ghost before = it.remaining();
        match it.next() {
            Some(c) => {
                out.push(c);
                assert(out@ + it.remaining() =~= s@) by {
                    assert(before =~= seq![c] + before.drop_first());
                }
            },
            None => {
                assert(out@ =~= s@);
                break;
            },
        }
    }
    assert(out@ =~= s@);
    out
}

fn field_exec(c: &Vec<char>, i: usize) -> (r: i64)
    requires
        i + 1 < c@.len(),
    ensures
        r == field_at(c@, i as int),
{
    let _n = c.len();
    let a = char_digit_exec(c[i]);
    let b = char_digit_exec(c[i + 1]);
    if a >= 0 && b >= 0 {
        a * 10 + b
    } else {
        -1
    }
}

proof fn lemma_value_grows(s: Seq<char>, i: int)
    requires
        0 <= i <= s.len(),
        all_digits(s),
    ensures
        digits_value(s) >= digits_value(s.subrange(0, i)),
        digits_value(s) >= 0,
    decreases s.len(),
{
    if s.len() > 0 {
        let p = s.drop_last();
        assert(all_digits(p)) by {
            assert forall|k: int| 0 <= k < p.len() implies char_digit(#[trigger] p[k]) >= 0 by {
                assert(p[k] == s[k]);
            }
        }
        assert(char_digit(s[s.len() - 1]) >= 0);
        if i == s.len() {
            assert(s.subrange(0, i) == s);
            lemma_value_grows(p, p.len() as int);
        } else {
            lemma_value_grows(p, i);
            assert(p.subrange(0, i) == s.subrange(0, i));
        }
    } else {
        assert(s.subrange(0, i) == s);
    }
}

/// Reads the text form of a time; `None` when it is malformed or out of range.
pub fn parse_chars(c: &Vec<char>) -> (r: Option<Time>)
    ensures
        r is Some <==> (parse_time(c@) matches Some(t) && i32::MIN <= t <= i32::MAX),
        r matches Some(t) ==> parse_time(c@) == Some(t.sec()),
{
    let n = c.len();
    if n < 8 || c[2] != ':' || c[5] != ':' {
        return None;
    }
    let h = field_exec(c, 0);
    let m = field_exec(c, 3);
    let sec = field_exec(c, 6);
    if !(0 <= h && h < 24 && 0 <= m && m < 60 && 0 <= sec && sec < 60) {
        return None;
    }
    let ghost rest = c@.subrange(8, n as int);
    let mut day: i64 = 0;
    if n > 8 {
        if n < 10 || !(c[8] == '+' || c[8] == '-') {
            return None;
        }
        let ghost ds = rest.drop_first();
        assert(ds =~= c@.subrange(9, n as int));
        let mut val: i64 = 0;
        let mut k: usize = 9;
        while k < n
            invariant
                9 <= k <= n,
                n == c@.len(),
                ds == c@.subrange(9, n as int),
                rest == c@.subrange(8, n as int),
                ds == rest.drop_first(),
                rest.len() >= 2,
                rest[0] == '+' || rest[0] == '-',
                0 <= h < 24,
                0 <= m < 60,
                0 <= sec < 60,
                0 <= val <= 30000,
                val == digits_value(ds.subrange(0, k - 9)),
                all_digits(ds.subrange(0, k - 9)),
            decreases n - k,
        {
            let d = char_digit_exec(c[k]);
            let ghost pre = ds.subrange(0, k - 9);
            let ghost nxt = ds.subrange(0, k + 1 - 9);
            assert(nxt.drop_last() =~= pre);
            assert(nxt.last() == c@[k as int]);
            if d < 0 {
                assert(!all_digits(ds)) by {
                    assert(ds[k - 9] == c@[k as int]);
                }
                assert(rest == c@.subrange(8, c@.len() as int));
                assert(parse_day(rest) is None);
                return None;
            }
            val = val * 10 + d;
            assert(all_digits(nxt)) by {
                assert forall|q: int| 0 <= q < nxt.len() implies char_digit(#[trigger] nxt[q]) >= 0 by {
                    if q < pre.len() {
                        assert(nxt[q] == pre[q]);
                    }
                }
            }
            k = k + 1;
            if val > 30000 {
                proof {
                    assert(rest == c@.subrange(8, c@.len() as int));
                    if all_digits(ds) {
                        lemma_value_grows(ds, k - 9);
                        let v = digits_value(ds);
                        assert(v > 30000);
                        let pd = parse_day(rest);
                        assert(pd == Some(v) || pd == Some(-v));
                        let dd = pd->0;
                        let tt = dd * 86400 + h * 3600 + m * 60 + sec;
                        assert(tt > i32::MAX || tt < i32::MIN) by (nonlinear_arith)
                            requires
                                dd == v || dd == -v,
                                v > 30000,
                                0 <= h < 24,
                                0 <= m < 60,
                                0 <= sec < 60,
                                tt == dd * 86400 + h * 3600 + m * 60 + sec,
                        ;
                    } else {
                        assert(parse_day(rest) is None);
                    }
                }
                return None;
            }
        }
        assert(ds.subrange(0, n - 9) == ds);
        day = if c[8] == '+' {
            val
        } else {
            -val
        };
    } else {
        assert(rest.len() == 0);
    }
    let t: i64 = day * 86400 + h * 3600 + m * 60 + sec;
    if t < i32::MIN as i64 || t > i32::MAX as i64 {
        return None;
    }
    Some(Time::new(t as i32))
}

impl Time {
    /// The text form: `HH:MM:SS`, then `+D` or `-D` when the day is not zero.
    pub fn to_string(&self) -> (r: String)
        ensures
            r@ == format_time(self.sec()),
    {
        chars_to_string(&format_chars(*self))
    }

    /// Reads a time from its text form.
    pub fn parse(s: &str) -> (r: Option<Time>)
        ensures
            r is Some <==> (parse_time(s@) matches Some(t) && i32::MIN <= t <= i32::MAX),
            r matches Some(t) ==> parse_time(s@) == Some(t.sec()),
    {
        parse_chars(&str_chars(s))
    }
}

} // verus!
