//! The answers of the query service: a greeting, a user record and a sum.

use vstd::prelude::*;
use vstd::string::*;

verus! {

/// A user as the query service reports it.
#[derive(Debug)]
pub struct User {
    pub id: i32,
    pub name: String,
    pub message: String,
}

/// The root of the query service.
#[derive(Debug)]
pub struct QueryRoot;

/// The character for the digit `d`.
pub open spec fn spec_digit(d: int) -> char {
    seq!['0', '1', '2', '3', '4', '5', '6', '7', '8', '9'][d]
}

/// The decimal digits of `n`, most significant first, without leading zeros.
pub open spec fn spec_digits(n: nat) -> Seq<char>
    decreases n,
{
    if n < 10 {
        seq![spec_digit(n as int)]
    } else {
        spec_digits(n / 10).push(spec_digit((n % 10) as int))
    }
}

/// `n` written in decimal, with a minus sign in front if it is negative.
pub open spec fn spec_decimal(n: int) -> Seq<char> {
    if n < 0 {
        seq!['-'] + spec_digits((-n) as nat)
    } else {
        spec_digits(n as nat)
    }
}

/// Appends the character for the digit `d` to `s`.
fn push_digit(s: &mut String, d: u64)
    requires
        d < 10,
    ensures
        final(s)@ == old(s)@.push(spec_digit(d as int)),
{
    proof {
        reveal_strlit("0");
        reveal_strlit("1");
        reveal_strlit("2");
        reveal_strlit("3");
        reveal_strlit("4");
        reveal_strlit("5");
        reveal_strlit("6");
        reveal_strlit("7");
        reveal_strlit("8");
        reveal_strlit("9");
    }
    let digit = if d == 0 {
        "0"
    } else if d == 1 {
        "1"
    } else if d == 2 {
        "2"
    } else if d == 3 {
        "3"
    } else if d == 4 {
        "4"
    } else if d == 5 {
        "5"
    } else if d == 6 {
        "6"
    } else if d == 7 {
        "7"
    } else if d == 8 {
        "8"
    } else {
        "9"
    };
    assert(digit@ =~= seq![spec_digit(d as int)]);
    s.append(digit);
    assert(s@ =~= old(s)@.push(spec_digit(d as int)));
}

/// Appends the decimal digits of `n` to `s`.
fn push_digits(s: &mut String, n: u64)
    ensures
        final(s)@ == old(s)@ + spec_digits(n as nat),
    decreases n,
{
    if n >= 10 {
        push_digits(s, n / 10);
    }
    push_digit(s, n % 10);
    assert(s@ =~= old(s)@ + spec_digits(n as nat));
}

impl QueryRoot {
    /// The greeting.
    pub fn hello(&self) -> (greeting: String)
        ensures
            greeting@ == "Hello, GraphQL World!"@,
    {
        String::from_str("Hello, GraphQL World!")
    }

    /// The user with the identity `id`: its name is `tuser` followed by the
    /// identity in decimal.
    pub fn user(&self, id: i32) -> (user: User)
        ensures
            user.id == id,
            user.name@ == "tuser"@ + spec_decimal(id as int),
            user.message@ == "안녕하세요"@,
    {
        let mut name = String::from_str("tuser");
        if id < 0 {
            proof {
                reveal_strlit("-");
            }
            name.append("-");
            assert(name@ =~= "tuser"@ + seq!['-']);
            push_digits(&mut name, (-(id as i64)) as u64);
            assert(name@ =~= "tuser"@ + spec_decimal(id as int));
        } else {
            push_digits(&mut name, id as u64);
        }
        User { id, name, message: String::from_str("안녕하세요") }
    }

    /// The sum of `a` and `b`, which fits an `i32`.
    pub fn add(&self, a: i32, b: i32) -> (sum: i32)
        requires
            i32::MIN <= a + b <= i32::MAX,
        ensures
            sum == a + b,
    {
        a + b
    }
}

} // verus!
