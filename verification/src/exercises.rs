//! Small warm-up pieces that live beside the interpreter: a tail-recursive
//! Fibonacci, the first word of a string, and a rectangle.

use vstd::prelude::*;

verus! {

/// The value the accumulator-passing Fibonacci computes: `b` for the first
/// two steps, then the recurrence on shifted accumulators.
pub open spec fn spec_fib(n: nat, a: nat, b: nat) -> nat
    decreases n,
{
    if n <= 2 {
        b
    } else {
        spec_fib((n - 1) as nat, b, a + b)
    }
}

/// Every intermediate sum along the recursion stays in machine range.
pub open spec fn fib_fits(n: nat, a: nat, b: nat) -> bool
    decreases n,
{
    if n <= 2 {
        true
    } else {
        a + b <= u32::MAX && fib_fits((n - 1) as nat, b, a + b)
    }
}

/// The `n`-th step of the Fibonacci recurrence over the accumulators `a`
/// and `b`; `fib(n, 1, 1)` is the `n`-th Fibonacci number.
pub fn fib(n: u32, a: u32, b: u32) -> (r: u32)
    requires
        n >= 1,
        fib_fits(n as nat, a as nat, b as nat),
    ensures
        r == spec_fib(n as nat, a as nat, b as nat),
    decreases n,
{
    if n == 1 {
        b
    } else if n == 2 {
        b
    } else {
        fib(n - 1, b, a + b)
    }
}

/// How many non-space characters stand at position `i` and onwards.
pub open spec fn word_len(s: Seq<char>, i: int) -> nat
    decreases crate::lex::rest_len(s, i),
{
    if 0 <= i && i < s.len() && s[i] != ' ' {
        1 + word_len(s, i + 1)
    } else {
        0
    }
}

/// The prefix of `s` before its first space; the whole of `s` when it has
/// none.
pub fn first_word(s: &str) -> (r: &str)
    ensures
        r@ == s@.subrange(0, word_len(s@, 0) as int),
{
    let chars = crate::lex::chars_of(s);
    let n = chars.len();
    let mut j: usize = 0;
    while j < n && chars[j] != ' '
        invariant
            j <= n,
            n == s@.len(),
            chars@ == s@,
            word_len(s@, 0) == word_len(s@, j as int) + j,
        decreases n - j,
    {
        assert(word_len(s@, j as int) == 1 + word_len(s@, j as int + 1));
        j = j + 1;
    }
    assert(word_len(s@, j as int) == 0);
    s.substring_char(0, j)
}

/// An axis-aligned rectangle.
#[derive(Debug)]
pub struct Rectangle {
    pub width: u32,
    pub height: u32,
}

impl Rectangle {
    /// The area, for rectangles whose area fits the machine.
    pub fn area(&self) -> (r: u32)
        requires
            self.width * self.height <= u32::MAX,
        ensures
            r == self.width * self.height,
    {
        self.width * self.height
    }

    /// Whether this rectangle's area is at least the other's.
    pub fn can_hold(&self, other: &Rectangle) -> (r: bool)
        requires
            self.width * self.height <= u32::MAX,
            other.width * other.height <= u32::MAX,
        ensures
            r == (self.width * self.height >= other.width * other.height),
    {
        self.area() >= other.area()
    }

    /// The square with the given side.
    pub fn square(size: u32) -> (r: Rectangle)
        ensures
            r.width == size,
            r.height == size,
    {
        Rectangle { width: size, height: size }
    }
}

} // verus!
