//! Scalar domains of the layout: identifiers, time and interval lengths.
use vstd::prelude::*;

verus! {

pub type StationID = u64;

pub type TrainID = u64;

/// A directed interval between two stations, `(from, to)`.
pub type IntervalID = (StationID, StationID);

/// Operations on interval identifiers.
pub trait IntervalIDExt: Sized {
    spec fn reversed(&self) -> Self;

    /// The same interval in the opposite direction.
    fn reverse(&self) -> (r: Self)
        ensures
            r == self.reversed(),
    ;
}

impl IntervalIDExt for IntervalID {
    open spec fn reversed(&self) -> Self {
        (self.1, self.0)
    }

    fn reverse(&self) -> (r: Self) {
        (self.1, self.0)
    }
}

/// A point in time or a duration, in whole seconds.
#[derive(Debug, Clone, Copy, PartialEq, Eq, Structural)]
pub struct Time(pub i32);

impl Time {
    /// The number of seconds, as a mathematical integer.
    pub open spec fn sec(self) -> int {
        self.0 as int
    }

    pub fn new(seconds: i32) -> (r: Time)
        ensures
            r.sec() == seconds as int,
    {
        Time(seconds)
    }

    pub fn seconds(&self) -> (r: i32)
        ensures
            r as int == self.sec(),
    {
        self.0
    }

    /// Seconds within the minute, by Euclidean remainder.
    pub fn second(&self) -> (r: u8)
        ensures
            r as int == euclid_mod(self.sec(), 60),
    {
        euclid_rem_i32(self.0, 60) as u8
    }

    /// Whole minutes, truncated toward zero.
    pub fn minutes(&self) -> (r: i32)
        ensures
            r as int == trunc_div(self.sec(), 60),
    {
        trunc_div_i32(self.0, 60)
    }

    /// Minutes within the hour, by Euclidean division.
    pub fn minute(&self) -> (r: u8)
        ensures
            r as int == euclid_mod(euclid_div(self.sec(), 60), 60),
    {
        euclid_rem_i32(euclid_div_i32(self.0, 60), 60) as u8
    }

    /// Whole hours, truncated toward zero.
    pub fn hours(&self) -> (r: i32)
        ensures
            r as int == trunc_div(self.sec(), 3600),
    {
        trunc_div_i32(self.0, 3600)
    }

    /// Hours within the day, by Euclidean division.
    pub fn hour(&self) -> (r: u8)
        ensures
            r as int == euclid_mod(euclid_div(self.sec(), 3600), 24),
    {
        euclid_rem_i32(euclid_div_i32(self.0, 3600), 24) as u8
    }

    /// Whole days, truncated toward zero.
    pub fn days(&self) -> (r: i32)
        ensures
            r as int == trunc_div(self.sec(), 86400),
    {
        trunc_div_i32(self.0, 86400)
    }

    /// The day number, by Euclidean division (negative before day zero).
    pub fn day(&self) -> (r: i32)
        ensures
            r as int == euclid_div(self.sec(), 86400),
    {
        euclid_div_i32(self.0, 86400)
    }
}

/// Euclidean division: the quotient `q` with `a == q * b + r`, `0 <= r < b`.
pub open spec fn euclid_div(a: int, b: int) -> int
    recommends
        b > 0,
{
    a / b
}

/// Euclidean remainder, always in `[0, b)`.
pub open spec fn euclid_mod(a: int, b: int) -> int
    recommends
        b > 0,
{
    a % b
}

/// Division truncated toward zero, as Rust's `/` on integers.
pub open spec fn trunc_div(a: int, b: int) -> int
    recommends
        b > 0,
{
    if a >= 0 {
        a / b
    } else {
        -((-a) / b)
    }
}

/// Euclidean quotient and remainder of `a` by `b`, from nonnegative operations.
fn euclid_div_rem_i32(a: i32, b: i32) -> (qr: (i32, i32))
    requires
        b > 1,
    ensures
        qr.0 as int == euclid_div(a as int, b as int),
        qr.1 as int == euclid_mod(a as int, b as int),
        0 <= qr.1 < b,
{
    let ai = a as i64;
    let bi = b as i64;
    if ai >= 0 {
        (a / b, a % b)
    } else {
        let n: i64 = -ai;
        let d: i64 = n / bi;
        let m: i64 = n % bi;
        proof {
            lemma_neg_euclid(a as int, b as int, d as int, m as int);
        }
        if m == 0 {
            ((-d) as i32, 0)
        } else {
            ((-d - 1) as i32, (bi - m) as i32)
        }
    }
}

proof fn lemma_neg_euclid(a: int, b: int, d: int, m: int)
    requires
        b > 1,
        a < 0,
        d == (-a) / b,
        m == (-a) % b,
    ensures
        m == 0 ==> a / b == -d && a % b == 0,
        m != 0 ==> a / b == -d - 1 && a % b == b - m,
        -d - 1 >= a,
{
    assert((-a) == d * b + m && 0 <= m < b) by (nonlinear_arith)
        requires
            b > 1,
            d == (-a) / b,
            m == (-a) % b,
    ;
    assert(d >= 0 && d < -a) by (nonlinear_arith)
        requires
            b > 1,
            -a > 0,
            d == (-a) / b,
    ;
    if m == 0 {
        assert(a == (-d) * b) by (nonlinear_arith)
            requires
                (-a) == d * b + m,
                m == 0,
        ;
        vstd::arithmetic::div_mod::lemma_fundamental_div_mod_converse(a, b, -d, 0);
    } else {
        assert(a == (-d - 1) * b + (b - m)) by (nonlinear_arith)
            requires
                (-a) == d * b + m,
        ;
        vstd::arithmetic::div_mod::lemma_fundamental_div_mod_converse(a, b, -d - 1, b - m);
    }
}

fn euclid_div_i32(a: i32, b: i32) -> (q: i32)
    requires
        b > 1,
    ensures
        q as int == euclid_div(a as int, b as int),
{
    euclid_div_rem_i32(a, b).0
}

fn euclid_rem_i32(a: i32, b: i32) -> (r: i32)
    requires
        b > 1,
    ensures
        r as int == euclid_mod(a as int, b as int),
        0 <= r < b,
{
    euclid_div_rem_i32(a, b).1
}

/// Division truncated toward zero, from nonnegative operations.
fn trunc_div_i32(a: i32, b: i32) -> (q: i32)
    requires
        b > 1,
    ensures
        q as int == trunc_div(a as int, b as int),
{
    if a >= 0 {
        a / b
    } else {
        let n: i64 = -(a as i64);
        let d: i64 = n / (b as i64);
        assert(d <= n) by (nonlinear_arith)
            requires
                b > 1,
                n > 0,
                d as int == (n as int) / (b as int),
        ;
        (-d) as i32
    }
}

/// A physical interval length in whole meters.
#[derive(Debug, Clone, Copy, PartialEq, Eq, Structural)]
pub struct IntervalLength(pub u32);

impl IntervalLength {
    pub open spec fn m(self) -> nat {
        self.0 as nat
    }

    pub fn new(meters: u32) -> (r: IntervalLength)
        ensures
            r.m() == meters as nat,
    {
        IntervalLength(meters)
    }

    pub fn meters(&self) -> (r: u32)
        ensures
            r as nat == self.m(),
    {
        self.0
    }

    /// The mean of two lengths, rounded down.
    pub fn mean(a: IntervalLength, b: IntervalLength) -> (r: IntervalLength)
        ensures
            r.m() == (a.m() + b.m()) / 2,
    {
        IntervalLength(((a.0 as u64 + b.0 as u64) / 2) as u32)
    }
}

/// How a physical interval length maps to vertical distance on the graph.
#[derive(Debug, Clone, Copy, PartialEq, Eq, Structural)]
pub enum ScaleMode {
    Linear,
    Logarithmic,
    Uniform,
    Squared,
}

} // verus!
