//! Numbers as they are written in a linker script.
use vstd::prelude::*;

verus! {

/// Why a text is not a number.
#[derive(Clone, Copy, Debug, PartialEq, Eq, Structural)]
pub enum ParseError {
    /// No digit stands where a number has to start.
    NoDigits,
    /// A decimal number holds a hexadecimal digit.
    InvalidDigit,
    /// The number, its unit or a sum is too large for 64 bits.
    Overflow,
}

/// Whether `c` is a hexadecimal digit.
pub open spec fn is_hex_digit(c: u8) -> bool {
    ||| '0' as u8 <= c <= '9' as u8
    ||| 'a' as u8 <= c <= 'f' as u8
    ||| 'A' as u8 <= c <= 'F' as u8
}

/// The value of a hexadecimal digit.
pub open spec fn digit_value(c: u8) -> nat {
    if c <= '9' as u8 {
        (c - '0' as u8) as nat
    } else if c <= 'F' as u8 {
        (c - 'A' as u8 + 10) as nat
    } else {
        (c - 'a' as u8 + 10) as nat
    }
}

/// How many hexadecimal digits `b` starts with.
pub open spec fn digit_count(b: Seq<u8>) -> nat
    decreases b.len(),
{
    if b.len() > 0 && is_hex_digit(b[0]) {
        1 + digit_count(b.skip(1))
    } else {
        0
    }
}

/// Whether all of `digits` are digits below `radix`.
pub open spec fn all_below(digits: Seq<u8>, radix: nat) -> bool {
    forall|i: int|
        0 <= i < digits.len() ==> is_hex_digit(#[trigger] digits[i]) && digit_value(digits[i])
            < radix
}

/// The number that `digits` stand for.
pub open spec fn value(digits: Seq<u8>, radix: nat) -> nat
    decreases digits.len(),
{
    if digits.len() == 0 {
        0
    } else {
        value(digits.drop_last(), radix) * radix + digit_value(digits.last())
    }
}

/// The digit of value `d`, in lower case.
pub open spec fn digit(d: nat) -> u8 {
    if d < 10 {
        ('0' as u8 + d) as u8
    } else {
        ('a' as u8 + d - 10) as u8
    }
}

/// Division by two or more makes a number smaller, and leaves a remainder below the divisor.
pub proof fn lemma_quotient(n: nat, radix: nat)
    requires
        2 <= radix,
        0 < n,
    ensures
        n / radix < n,
        n % radix < radix,
        (n / radix) * radix + n % radix == n,
{
    assert(n / radix < n && n % radix < radix && (n / radix) * radix + n % radix == n)
        by (nonlinear_arith)
        requires
            2 <= radix,
            0 < n,
    ;
}

/// The digits that stand for `n`, without leading zeros.
pub open spec fn digits(n: nat, radix: nat) -> Seq<u8>
    decreases n,
{
    if radix < 2 || n < radix {
        seq![digit(n)]
    } else {
        proof {
            lemma_quotient(n, radix);
        }
        digits(n / radix, radix).push(digit(n % radix))
    }
}

/// The number of hexadecimal digits at the start of a text is within it, and the text goes on with
/// something else.
pub proof fn lemma_digit_count(b: Seq<u8>)
    ensures
        digit_count(b) <= b.len(),
        forall|i: int| 0 <= i < digit_count(b) ==> is_hex_digit(#[trigger] b[i]),
        digit_count(b) < b.len() ==> !is_hex_digit(b[digit_count(b) as int]),
    decreases b.len(),
{
    if b.len() > 0 && is_hex_digit(b[0]) {
        let rest = b.skip(1);
        lemma_digit_count(rest);
        assert forall|i: int| 0 <= i < digit_count(b) implies is_hex_digit(#[trigger] b[i]) by {
            if i > 0 {
                assert(rest[i - 1] == b[i]);
            }
        }
    }
}

/// A longer number is not smaller.
proof fn lemma_value_grows(b: Seq<u8>, n: int, radix: nat)
    requires
        0 <= n <= b.len(),
        radix > 0,
    ensures
        value(b.take(n), radix) <= value(b, radix),
    decreases b.len() - n,
{
    if n == b.len() {
        assert(b.take(n) =~= b);
    } else {
        lemma_value_grows(b, n + 1, radix);
        assert(b.take(n + 1).drop_last() =~= b.take(n));
        let v = value(b.take(n), radix);
        assert(v <= v * radix) by (nonlinear_arith)
            requires
                radix > 0,
        ;
    }
}

/// How many hexadecimal digits `b` starts with.
pub fn count_digits(b: &[u8]) -> (r: usize)
    ensures
        r == digit_count(b@),
{
    let mut i: usize = 0;
    assert(b@.skip(0) =~= b@);
    while i < b.len()
        invariant
            i <= b@.len(),
            digit_count(b@) == i + digit_count(b@.skip(i as int)),
        decreases b@.len() - i,
    {
        let c = b[i];
        if !(('0' as u8 <= c && c <= '9' as u8) || ('a' as u8 <= c && c <= 'f' as u8) || ('A' as u8
            <= c && c <= 'F' as u8)) {
            return i;
        }
        assert(b@.skip(i as int).skip(1) =~= b@.skip(i + 1));
        i += 1;
    }
    i
}

/// The number that the first `n` bytes of `b` stand for.
pub fn read_digits(b: &[u8], n: usize, radix: u64) -> (r: Result<u64, ParseError>)
    requires
        n <= b@.len(),
        2 <= radix <= 16,
        forall|i: int| 0 <= i < n ==> is_hex_digit(#[trigger] b@[i]),
    ensures
        match r {
            Ok(v) => n > 0 && all_below(b@.take(n as int), radix as nat) && v == value(
                b@.take(n as int),
                radix as nat,
            ),
            Err(ParseError::NoDigits) => n == 0,
            Err(ParseError::InvalidDigit) => n > 0 && !all_below(b@.take(n as int), radix as nat),
            Err(ParseError::Overflow) => n > 0 && all_below(b@.take(n as int), radix as nat)
                && value(b@.take(n as int), radix as nat) > u64::MAX,
        },
{
    if n == 0 {
        return Err(ParseError::NoDigits);
    }
    let ghost all = b@.take(n as int);
    let mut i: usize = 0;
    let mut total: Option<u64> = Some(0);
    while i < n
        invariant
            i <= n <= b@.len(),
            all == b@.take(n as int),
            0 < n,
            2 <= radix <= 16,
            forall|j: int| 0 <= j < n ==> is_hex_digit(#[trigger] b@[j]),
            forall|j: int| 0 <= j < i ==> digit_value(#[trigger] all[j]) < radix,
            match total {
                Some(v) => v == value(all.take(i as int), radix as nat),
                None => value(all, radix as nat) > u64::MAX,
            },
        decreases n - i,
    {
        let c = b[i];
        let d: u64 = if c <= '9' as u8 {
            (c - '0' as u8) as u64
        } else if c <= 'F' as u8 {
            (c - 'A' as u8 + 10) as u64
        } else {
            (c - 'a' as u8 + 10) as u64
        };
        assert(all[i as int] == c);
        if d >= radix {
            return Err(ParseError::InvalidDigit);
        }
        proof {
            assert(all.take(i + 1).drop_last() =~= all.take(i as int));
            lemma_value_grows(all, i + 1, radix as nat);
        }
        total = match total {
            Some(v) => match v.checked_mul(radix) {
                Some(w) => w.checked_add(d),
                None => None,
            },
            None => None,
        };
        i += 1;
    }
    assert(all.take(n as int) =~= all);
    assert(all_below(all, radix as nat));
    match total {
        Some(v) => Ok(v),
        None => Err(ParseError::Overflow),
    }
}

/// What is written of a number reads as that number.
pub proof fn lemma_digits_value(n: nat, radix: nat)
    requires
        2 <= radix <= 16,
    ensures
        digits(n, radix).len() > 0,
        all_below(digits(n, radix), radix),
        value(digits(n, radix), radix) == n,
    decreases n,
{
    reveal_with_fuel(value, 2);
    if n < radix {
        assert(digits(n, radix).drop_last() =~= Seq::<u8>::empty());
    } else {
        lemma_quotient(n, radix);
        lemma_digits_value(n / radix, radix);
        let front = digits(n / radix, radix);
        let last = digit(n % radix);
        assert(digits(n, radix).drop_last() =~= front);
        assert forall|i: int| 0 <= i < digits(n, radix).len() implies is_hex_digit(
            #[trigger] digits(n, radix)[i],
        ) && digit_value(digits(n, radix)[i]) < radix by {
            if i < front.len() {
                assert(digits(n, radix)[i] == front[i]);
            }
        }
    }
}

/// A run of digits before anything else is counted whole.
pub proof fn lemma_digit_count_run(b: Seq<u8>, n: int)
    requires
        0 <= n <= b.len(),
        forall|i: int| 0 <= i < n ==> is_hex_digit(#[trigger] b[i]),
        n < b.len() ==> !is_hex_digit(b[n]),
    ensures
        digit_count(b) == n,
{
    lemma_digit_count(b);
    if digit_count(b) < n {
        assert(is_hex_digit(b[digit_count(b) as int]));
    } else if digit_count(b) > n {
        assert(is_hex_digit(b[n]));
    }
}

/// Writes `n` behind what `out` holds.
pub fn push_digits(out: &mut Vec<u8>, n: u64, radix: u64)
    requires
        2 <= radix <= 16,
    ensures
        final(out)@ == old(out)@ + digits(n as nat, radix as nat),
    decreases n,
{
    if n >= radix {
        proof {
            lemma_quotient(n as nat, radix as nat);
        }
        push_digits(out, n / radix, radix);
    }
    let d = n % radix;
    proof {
        if n < radix {
            assert(d == n) by (nonlinear_arith)
                requires
                    n < radix,
                    d == n % radix,
            ;
        }
    }
    let c: u8 = if d < 10 {
        '0' as u8 + d as u8
    } else {
        'a' as u8 + (d - 10) as u8
    };
    out.push(c);
    assert(out@ =~= old(out)@ + digits(n as nat, radix as nat));
}

} // verus!
