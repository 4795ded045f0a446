//! Laws on how a region is read: numbers, units, sums, white space, attributes and line breaks.
use vstd::prelude::*;
use vstd::string::*;
use vstd::utf8::*;

use crate::laws;
use crate::number;
use crate::number::ParseError;
use crate::parser;
use crate::text;

verus! {

/// `s` holds nothing but spaces, tabs and line breaks.
pub open spec fn is_blank(s: Seq<u8>) -> bool {
    forall|i: int|
        0 <= i < s.len() ==> (#[trigger] s[i] == ' ' as u8 || s[i] == '\t' as u8 || s[i] == '\r' as u8
            || s[i] == '\n' as u8)
}

/// `c` is a decimal digit, or in base 16 a hexadecimal one of either case.
pub open spec fn is_digit(c: u8, base: int) -> bool {
    ||| '0' as u8 <= c <= '9' as u8
    ||| base == 16 && 'a' as u8 <= c <= 'f' as u8
    ||| base == 16 && 'A' as u8 <= c <= 'F' as u8
}

/// What `digits` are worth in `base`.
pub open spec fn in_base(digits: Seq<u8>, base: int) -> int {
    digits.fold_left(
        0int,
        |n: int, c: u8|
            n * base + if c <= '9' as u8 {
                c - '0' as u8
            } else if c <= 'F' as u8 {
                c - 'A' as u8 + 10
            } else {
                c - 'a' as u8 + 10
            },
    )
}

/// A number as it may stand in a script: white space, `0x` in base 16, digits, a unit, white space.
pub struct Term {
    pub before: Seq<u8>,
    pub base: int,
    pub digits: Seq<u8>,
    pub unit: Seq<u8>,
    pub after: Seq<u8>,
}

impl Term {
    /// The parts of the number are what they are called.
    pub open spec fn wf(self) -> bool {
        &&& is_blank(self.before)
        &&& is_blank(self.after)
        &&& self.base == 10 || self.base == 16
        &&& self.digits.len() > 0
        &&& forall|i: int|
            0 <= i < self.digits.len() ==> is_digit(#[trigger] self.digits[i], self.base)
        &&& self.unit.len() == 0 || self.unit == seq!['K' as u8] || self.unit == seq!['k' as u8]
            || self.unit == seq!['M' as u8] || self.unit == seq!['m' as u8]
    }

    /// What stands in the script.
    pub open spec fn text(self) -> Seq<u8> {
        self.before + if self.base == 16 {
            seq!['0' as u8, 'x' as u8]
        } else {
            seq![]
        } + self.digits + self.unit + self.after
    }

    /// What the number is worth: `K` and `k` stand for 1024, `M` and `m` for 1024 times that.
    pub open spec fn amount(self) -> int {
        in_base(self.digits, self.base) * if self.unit.len() == 0 {
            1int
        } else if self.unit[0] == 'K' as u8 || self.unit[0] == 'k' as u8 {
            1024int
        } else {
            1048576int
        }
    }

    /// `next` does not go on with the number.
    pub open spec fn ends_before(self, next: Seq<u8>) -> bool {
        self.unit.len() == 0 && self.after.len() == 0 && next.len() > 0 ==> {
            &&& !is_digit(next[0], 16)
            &&& next[0] == 'x' as u8 ==> self.base == 16 || self.digits != seq!['0' as u8]
            &&& next[0] != 'K' as u8
            &&& next[0] != 'k' as u8
            &&& next[0] != 'M' as u8
            &&& next[0] != 'm' as u8
        }
    }
}

/// Digits are read as what they are worth.
pub proof fn law_digits_are_worth(digits: Seq<u8>, base: int)
    requires
        base == 10 || base == 16,
        forall|i: int| 0 <= i < digits.len() ==> is_digit(#[trigger] digits[i], base),
    ensures
        in_base(digits, base) == number::value(digits, base as nat),
        number::all_below(digits, base as nat),
    decreases digits.len(),
{
    if digits.len() > 0 {
        let front = digits.drop_last();
        assert forall|i: int| 0 <= i < front.len() implies is_digit(#[trigger] front[i], base) by {
            assert(front[i] == digits[i]);
        }
        law_digits_are_worth(front, base);
        assert(is_digit(digits[digits.len() - 1], base));
    }
}

/// White space before something else is skipped.
pub proof fn law_white_space_is_skipped(blank: Seq<u8>, rest: Seq<u8>)
    requires
        is_blank(blank),
        rest.len() > 0 ==> !is_blank(seq![rest[0]]),
    ensures
        text::skip_space(blank + rest) == rest,
    decreases blank.len(),
{
    let b = blank + rest;
    if blank.len() == 0 {
        assert(b =~= rest);
        if rest.len() > 0 {
            assert(seq![rest[0]][0] == rest[0]);
        }
    } else {
        assert(b[0] == blank[0]);
        assert(b.skip(1) =~= blank.skip(1) + rest);
        assert forall|i: int| 0 <= i < blank.skip(1).len() implies (#[trigger] blank.skip(1)[i]
            == ' ' as u8 || blank.skip(1)[i] == '\t' as u8 || blank.skip(1)[i] == '\r' as u8
            || blank.skip(1)[i] == '\n' as u8) by {
            assert(blank.skip(1)[i] == blank[i + 1]);
        }
        law_white_space_is_skipped(blank.skip(1), rest);
    }
}

/// The digits, the unit and the white space of a number, and what follows.
spec fn behind_prefix(t: Term, next: Seq<u8>) -> Seq<u8> {
    t.digits + (t.unit + (t.after + next))
}

/// The digits of a number end where they end.
proof fn lemma_digits_end(t: Term, next: Seq<u8>)
    requires
        t.wf(),
        t.ends_before(next),
    ensures
        ({
            let body = behind_prefix(t, next);
            let n = t.digits.len() as int;
            &&& number::digit_count(body) == n
            &&& body.take(n) == t.digits
            &&& body.skip(n) == t.unit + (t.after + next)
        }),
{
    let body = behind_prefix(t, next);
    let n = t.digits.len() as int;
    let tail = t.unit + (t.after + next);
    assert(body.take(n) =~= t.digits);
    assert(body.skip(n) =~= tail);
    assert forall|i: int| 0 <= i < n implies number::is_hex_digit(#[trigger] body[i]) by {
        assert(body[i] == t.digits[i]);
        assert(is_digit(t.digits[i], t.base));
    }
    if n < body.len() {
        assert(body[n] == tail[0]);
        if t.unit.len() > 0 {
            assert(tail[0] == t.unit[0]);
        } else if t.after.len() > 0 {
            assert(tail[0] == t.after[0]);
        } else {
            assert(tail[0] == next[0]);
            assert(!is_digit(next[0], 16));
        }
    }
    number::lemma_digit_count_run(body, n);
}

/// The unit of a number ends where it ends.
proof fn lemma_unit_ends(t: Term, next: Seq<u8>)
    requires
        t.wf(),
        t.ends_before(next),
    ensures
        ({
            let tail = t.unit + (t.after + next);
            &&& parser::skip_unit(tail) == t.after + next
            &&& parser::unit(tail) == if t.unit.len() == 0 {
                1nat
            } else if t.unit[0] == 'K' as u8 || t.unit[0] == 'k' as u8 {
                1024nat
            } else {
                1048576nat
            }
        }),
{
    let rest = t.after + next;
    let tail = t.unit + rest;
    if t.unit.len() == 0 {
        assert(tail =~= rest);
        if t.after.len() > 0 {
            assert(rest[0] == t.after[0]);
        } else if next.len() > 0 {
            assert(rest[0] == next[0]);
        }
    } else {
        assert(tail[0] == t.unit[0]);
        assert(tail.skip(1) =~= rest);
    }
}

/// What is read of a text that starts with a number, up to its value.
proof fn lemma_body_of(t: Term, next: Seq<u8>)
    requires
        t.wf(),
        t.ends_before(next),
    ensures
        ({
            let b = t.text() + next;
            let start = text::skip_space(b);
            &&& parser::hex_prefix().is_prefix_of(start) == (t.base == 16)
            &&& t.base == 16 ==> start.skip(2) == behind_prefix(t, next)
            &&& t.base == 10 ==> start == behind_prefix(t, next)
        }),
{
    let b = t.text() + next;
    let body = behind_prefix(t, next);
    let prefix: Seq<u8> = if t.base == 16 {
        seq!['0' as u8, 'x' as u8]
    } else {
        seq![]
    };
    let start = prefix + body;
    assert(is_digit(t.digits[0], t.base));
    assert(body[0] == t.digits[0]);
    assert(b =~= t.before + start);
    assert(start[0] == if t.base == 16 {
        '0' as u8
    } else {
        t.digits[0]
    });
    assert(!is_blank(seq![start[0]])) by {
        assert(seq![start[0]][0] == start[0]);
    }
    law_white_space_is_skipped(t.before, start);
    laws::lemma_prefix(parser::hex_prefix(), start);
    assert(parser::hex_prefix()[0] == '0' as u8 && parser::hex_prefix()[1] == 'x' as u8);
    if t.base == 16 {
        assert(start[1] == 'x' as u8);
        assert(start.skip(2) =~= body);
    } else {
        assert(start =~= body);
        if body.len() > 1 {
            if t.digits.len() > 1 {
                assert(body[1] == t.digits[1]);
                assert(is_digit(t.digits[1], t.base));
            } else if t.unit.len() > 0 {
                assert(body[1] == t.unit[0]);
            } else if t.after.len() > 0 {
                assert(body[1] == t.after[0]);
            } else {
                assert(body[1] == next[0]);
                if t.digits[0] == '0' as u8 {
                    assert(t.digits =~= seq!['0' as u8]);
                }
            }
        }
    }
}

/// A number is read as what it is worth: behind `0x` in base 16 and else in base 10, times its unit.
/// What follows its unit is left. One that 64 bits do not hold is an error.
pub proof fn law_number_is_read(t: Term, next: Seq<u8>)
    requires
        t.wf(),
        t.ends_before(next),
    ensures
        parser::number(t.text() + next) == if t.amount() <= u64::MAX {
            Ok::<(nat, Seq<u8>), ParseError>((t.amount() as nat, t.after + next))
        } else {
            Err(ParseError::Overflow)
        },
{
    lemma_body_of(t, next);
    lemma_digits_end(t, next);
    lemma_unit_ends(t, next);
    law_digits_are_worth(t.digits, t.base);
}

/// Where no digit stands, there is no number.
pub proof fn law_number_needs_a_digit(before: Seq<u8>, hex: bool, next: Seq<u8>)
    requires
        is_blank(before),
        next.len() > 0 ==> !is_digit(next[0], 16) && !(!hex && is_blank(seq![next[0]])),
    ensures
        parser::number(
            before + if hex {
                seq!['0' as u8, 'x' as u8]
            } else {
                seq![]
            } + next,
        ) == Err::<(nat, Seq<u8>), ParseError>(ParseError::NoDigits),
{
    let prefix: Seq<u8> = if hex {
        seq!['0' as u8, 'x' as u8]
    } else {
        seq![]
    };
    let start = prefix + next;
    assert(before + prefix + next =~= before + start);
    if hex {
        assert(start[0] == '0' as u8 && start[1] == 'x' as u8);
        assert(seq![start[0]][0] == start[0]);
        assert(start.skip(2) =~= next);
    } else {
        assert(start =~= next);
    }
    law_white_space_is_skipped(before, start);
    laws::lemma_prefix(parser::hex_prefix(), start);
    assert(parser::hex_prefix()[0] == '0' as u8 && parser::hex_prefix()[1] == 'x' as u8);
    number::lemma_digit_count(next);
    if next.len() > 0 {
        assert(!number::is_hex_digit(next[0]));
    }
}

/// A decimal number with one of the letters `a` to `f` in it is an error.
pub proof fn law_decimal_number_has_no_letters(
    before: Seq<u8>,
    digits: Seq<u8>,
    letter: int,
    next: Seq<u8>,
)
    requires
        is_blank(before),
        0 <= letter < digits.len(),
        !is_digit(digits[letter], 10),
        forall|i: int| 0 <= i < digits.len() ==> is_digit(#[trigger] digits[i], 16),
        next.len() > 0 ==> !is_digit(next[0], 16) && !(digits == seq!['0' as u8] && next[0]
            == 'x' as u8),
    ensures
        parser::number(before + digits + next) == Err::<(nat, Seq<u8>), ParseError>(
            ParseError::InvalidDigit,
        ),
{
    let start = digits + next;
    assert(before + digits + next =~= before + start);
    assert(is_digit(digits[0], 16));
    assert(start[0] == digits[0]);
    assert(seq![start[0]][0] == start[0]);
    law_white_space_is_skipped(before, start);
    laws::lemma_prefix(parser::hex_prefix(), start);
    assert(parser::hex_prefix()[0] == '0' as u8 && parser::hex_prefix()[1] == 'x' as u8);
    if digits.len() > 1 {
        assert(is_digit(digits[1], 16));
        assert(start[1] == digits[1]);
    } else if next.len() > 0 {
        assert(start[1] == next[0]);
        if digits[0] == '0' as u8 {
            assert(digits =~= seq!['0' as u8]);
        }
    }
    let n = digits.len() as int;
    assert forall|i: int| 0 <= i < n implies number::is_hex_digit(#[trigger] start[i]) by {
        assert(start[i] == digits[i]);
        assert(is_digit(digits[i], 16));
    }
    if n < start.len() {
        assert(start[n] == next[0]);
    }
    number::lemma_digit_count_run(start, n);
    assert(start.take(n) =~= digits);
    assert(is_digit(digits[letter], 16));
    assert(number::digit_value(digits[letter]) >= 10);
}

/// Numbers that are joined by `+`.
pub open spec fn sum_text(terms: Seq<Term>) -> Seq<u8>
    decreases terms.len(),
{
    if terms.len() == 0 {
        seq![]
    } else if terms.len() == 1 {
        terms[0].text()
    } else {
        terms[0].text() + seq!['+' as u8] + sum_text(terms.skip(1))
    }
}

/// What they are worth together.
pub open spec fn sum(terms: Seq<Term>) -> int
    decreases terms.len(),
{
    if terms.len() == 0 {
        0
    } else {
        terms[0].amount() + sum(terms.skip(1))
    }
}

/// `terms` are numbers, at least one, and `next` does not go on with them.
pub open spec fn is_sum_before(terms: Seq<Term>, next: Seq<u8>) -> bool {
    &&& terms.len() > 0
    &&& forall|i: int| 0 <= i < terms.len() ==> (#[trigger] terms[i]).wf()
    &&& terms.last().ends_before(next)
    &&& next.len() > 0 ==> next[0] != '+' as u8 && !is_blank(seq![next[0]])
}

/// A number is not negative.
proof fn lemma_amount(t: Term)
    requires
        t.wf(),
    ensures
        t.amount() >= 0,
{
    law_digits_are_worth(t.digits, t.base);
}

/// Numbers are not negative together.
proof fn lemma_sum(terms: Seq<Term>)
    requires
        forall|i: int| 0 <= i < terms.len() ==> (#[trigger] terms[i]).wf(),
    ensures
        sum(terms) >= 0,
    decreases terms.len(),
{
    if terms.len() > 0 {
        lemma_amount(terms[0]);
        assert forall|i: int| 0 <= i < terms.skip(1).len() implies (#[trigger] terms.skip(
            1,
        )[i]).wf() by {
            assert(terms.skip(1)[i] == terms[i + 1]);
        }
        lemma_sum(terms.skip(1));
    }
}

/// Numbers that `+` joins are read as their sum, with the white space behind them. A sum that 64
/// bits do not hold is an error.
pub proof fn law_sum_is_read(before: nat, terms: Seq<Term>, next: Seq<u8>)
    requires
        is_sum_before(terms, next),
    ensures
        parser::expression(before, sum_text(terms) + next) == if before + sum(terms) <= u64::MAX {
            Ok::<(nat, Seq<u8>), ParseError>(((before + sum(terms)) as nat, next))
        } else {
            Err(ParseError::Overflow)
        },
    decreases terms.len(),
{
    let t = terms[0];
    let b = sum_text(terms) + next;
    lemma_amount(t);
    let others = terms.skip(1);
    assert forall|i: int| 0 <= i < others.len() implies (#[trigger] others[i]).wf() by {
        assert(others[i] == terms[i + 1]);
    }
    lemma_sum(others);
    if terms.len() == 1 {
        law_number_is_read(t, next);
        law_white_space_is_skipped(t.after, next);
        assert(sum(others) == 0);
    } else {
        let rest = sum_text(others) + next;
        let follow = seq!['+' as u8] + rest;
        assert(b =~= t.text() + follow);
        assert(follow[0] == '+' as u8);
        law_number_is_read(t, follow);
        assert(seq![follow[0]][0] == follow[0]);
        law_white_space_is_skipped(t.after, follow);
        assert(follow.skip(1) =~= rest);
        assert(others.last() == terms.last());
        if before + t.amount() <= u64::MAX {
            law_sum_is_read((before + t.amount()) as nat, others, next);
        }
    }
}

/// A `+` behind a number adds what follows it, or its error.
pub proof fn law_sum_goes_on(before: nat, t: Term, rest: Seq<u8>)
    requires
        t.wf(),
    ensures
        parser::expression(before, t.text() + (seq!['+' as u8] + rest)) == if before + t.amount()
            <= u64::MAX {
            parser::expression((before + t.amount()) as nat, rest)
        } else {
            Err(ParseError::Overflow)
        },
{
    let follow = seq!['+' as u8] + rest;
    lemma_amount(t);
    assert(follow[0] == '+' as u8);
    law_number_is_read(t, follow);
    assert(seq![follow[0]][0] == follow[0]);
    law_white_space_is_skipped(t.after, follow);
    assert(follow.skip(1) =~= rest);
}

/// A sum whose first number is an error is that error.
pub proof fn law_sum_needs_numbers(before: nat, b: Seq<u8>)
    ensures
        parser::number(b) matches Err(e) ==> parser::expression(before, b) == Err::<
            (nat, Seq<u8>),
            ParseError,
        >(e),
{
}

/// White space and a word are read.
pub proof fn law_token_is_read(blank: Seq<u8>, token: Seq<u8>, rest: Seq<u8>)
    requires
        is_blank(blank),
        token.len() > 0,
        !is_blank(seq![token[0]]),
    ensures
        text::skip_token(blank + (token + rest), token) == rest,
{
    let b = token + rest;
    assert(b[0] == token[0]);
    law_white_space_is_skipped(blank, b);
    laws::lemma_prefix(token, b);
    assert forall|i: int| 0 <= i < token.len() implies #[trigger] token[i] == b[i] by {}
    assert(b.skip(token.len() as int) =~= rest);
}

/// What does not come next is not read, but for the white space before it.
pub proof fn law_missing_token_is_passed_over(blank: Seq<u8>, token: Seq<u8>, rest: Seq<u8>)
    requires
        is_blank(blank),
        rest.len() > 0 ==> !is_blank(seq![rest[0]]),
        rest.len() < token.len() || rest.take(token.len() as int) != token,
    ensures
        text::skip_token(blank + rest, token) == rest,
{
    law_white_space_is_skipped(blank, rest);
    if token.is_prefix_of(rest) {
        assert(rest.take(token.len() as int) =~= token);
    }
}

/// As many lines end in a text as newlines stand in it.
pub proof fn law_newlines_are_counted(b: Seq<u8>)
    ensures
        text::newlines(b) == b.to_multiset().count('\n' as u8),
    decreases b.len(),
{
    broadcast use vstd::multiset::group_multiset_axioms;

    if b.len() == 0 {
        assert(!b.contains('\n' as u8));
        b.to_multiset_ensures();
        assert(b.to_multiset().count('\n' as u8) == 0);
    } else {
        let front = b.drop_last();
        law_newlines_are_counted(front);
        front.to_multiset_ensures();
        assert(front.push(b.last()) =~= b);
        assert(b.to_multiset() =~= front.to_multiset().insert(b.last()));
    }
}

/// The text that describes a region: `RAM`, attributes up to a colon, `ORIGIN =` and numbers, a
/// comma, `LENGTH =` and numbers. `blanks` is the white space before the colon's and the comma's
/// words and before their `=`.
pub open spec fn region_text(
    attributes: Seq<u8>,
    blanks: (Seq<u8>, Seq<u8>, Seq<u8>, Seq<u8>),
    origin: Seq<Term>,
    length: Seq<Term>,
    next: Seq<u8>,
) -> Seq<u8> {
    encode_utf8("RAM"@) + (attributes + (encode_utf8(":"@) + (blanks.0 + (encode_utf8("ORIGIN"@) + (
    blanks.1 + (encode_utf8("="@) + (sum_text(origin) + (encode_utf8(","@) + (blanks.2 + (
    encode_utf8("LENGTH"@) + (blanks.3 + (encode_utf8("="@) + (sum_text(length) + next)))))))))))))
}

/// The part of the text of a region that starts with its length.
proof fn lemma_length_is_read(
    blanks: (Seq<u8>, Seq<u8>, Seq<u8>, Seq<u8>),
    length: Seq<Term>,
    next: Seq<u8>,
)
    requires
        is_blank(blanks.2),
        is_blank(blanks.3),
        is_sum_before(length, next),
    ensures
        ({
            let size = sum_text(length) + next;
            let tail = encode_utf8(","@) + (blanks.2 + (encode_utf8("LENGTH"@) + (blanks.3 + (
            encode_utf8("="@) + size))));
            parser::skip_assignment(text::skip_token(tail, text::bytes(",")), "LENGTH") == size
        }),
{
    laws::lemma_words();
    let empty = Seq::<u8>::empty();
    let size = sum_text(length) + next;
    let t3 = blanks.3 + (encode_utf8("="@) + size);
    let t2 = blanks.2 + (encode_utf8("LENGTH"@) + t3);
    let t1 = encode_utf8(","@) + t2;
    assert(seq![text::bytes(",")[0]][0] == ',' as u8);
    assert(seq![text::bytes("LENGTH")[0]][0] == 'L' as u8);
    assert(seq![text::bytes("=")[0]][0] == '=' as u8);
    assert(empty + t1 =~= t1);
    law_token_is_read(empty, text::bytes(","), t2);
    law_token_is_read(blanks.2, text::bytes("LENGTH"), t3);
    law_token_is_read(blanks.3, text::bytes("="), size);
}

/// The part of the text of a region before its origin.
proof fn lemma_origin_is_read(
    attributes: Seq<u8>,
    blanks: (Seq<u8>, Seq<u8>, Seq<u8>, Seq<u8>),
    address: Seq<u8>,
)
    requires
        is_blank(blanks.0),
        is_blank(blanks.1),
        forall|i: int| 0 <= i < attributes.len() ==> #[trigger] attributes[i] != ':' as u8,
    ensures
        ({
            let b = encode_utf8("RAM"@) + (attributes + (encode_utf8(":"@) + (blanks.0 + (
            encode_utf8("ORIGIN"@) + (blanks.1 + (encode_utf8("="@) + address))))));
            let colon = text::skip_to(text::skip_token(b, text::bytes("RAM")), ':' as u8);
            parser::skip_assignment(text::skip_token(colon, text::bytes(":")), "ORIGIN") == address
        }),
{
    laws::lemma_words();
    let empty = Seq::<u8>::empty();
    let t3 = blanks.1 + (encode_utf8("="@) + address);
    let t2 = blanks.0 + (encode_utf8("ORIGIN"@) + t3);
    let t1 = encode_utf8(":"@) + t2;
    let t0 = attributes + t1;
    let b = encode_utf8("RAM"@) + t0;
    assert(seq![text::bytes("RAM")[0]][0] == 'R' as u8);
    assert(seq![text::bytes(":")[0]][0] == ':' as u8);
    assert(seq![text::bytes("ORIGIN")[0]][0] == 'O' as u8);
    assert(seq![text::bytes("=")[0]][0] == '=' as u8);
    assert(empty + b =~= b);
    law_token_is_read(empty, text::bytes("RAM"), t0);
    text::lemma_index_of(t0, ':' as u8);
    let n = attributes.len() as int;
    assert(t0[n] == ':' as u8);
    assert(text::index_of(t0, ':' as u8) == Some(n)) by {
        let i = text::index_of(t0, ':' as u8)->0;
        if i < n {
            assert(t0[i] == attributes[i]);
        }
    }
    assert(t0.skip(n) =~= t1);
    assert(empty + t1 =~= t1);
    law_token_is_read(empty, text::bytes(":"), t2);
    law_token_is_read(blanks.0, text::bytes("ORIGIN"), t3);
    law_token_is_read(blanks.1, text::bytes("="), address);
}

/// A region is read as it is written: behind the first `RAM` of a script, with any attributes, white
/// space and line breaks, the origin and the length are what the numbers behind their names are
/// worth, the line is the one with `RAM` on it, and what follows is left. Numbers that 64 bits do
/// not hold are an error.
pub proof fn law_region_is_read(
    b: Seq<u8>,
    p: int,
    attributes: Seq<u8>,
    blanks: (Seq<u8>, Seq<u8>, Seq<u8>, Seq<u8>),
    origin: Seq<Term>,
    length: Seq<Term>,
    next: Seq<u8>,
)
    requires
        text::first_ram(b) == Some(p),
        b.skip(p) == region_text(attributes, blanks, origin, length, next),
        forall|i: int| 0 <= i < attributes.len() ==> #[trigger] attributes[i] != ':' as u8,
        is_blank(blanks.0),
        is_blank(blanks.1),
        is_blank(blanks.2),
        is_blank(blanks.3),
        is_sum_before(origin, encode_utf8(","@)),
        is_sum_before(length, next),
    ensures
        ({
            let read = parser::find_region(b);
            if sum(origin) <= u64::MAX && sum(length) <= u64::MAX {
                &&& read matches Ok(Some(region))
                &&& region.line == b.take(p).to_multiset().count('\n' as u8)
                &&& region.origin == sum(origin)
                &&& region.length == sum(length)
                &&& region.rest == next
            } else {
                read matches Err(ParseError::Overflow)
            }
        }),
{
    laws::lemma_words();
    law_newlines_are_counted(b.take(p));
    let size = sum_text(length) + next;
    let tail = encode_utf8(","@) + (blanks.2 + (encode_utf8("LENGTH"@) + (blanks.3 + (encode_utf8(
        "="@,
    ) + size))));
    let address = sum_text(origin) + tail;
    assert(tail[0] == ',' as u8);
    assert(encode_utf8(","@)[0] == ',' as u8);
    lemma_origin_is_read(attributes, blanks, address);
    law_sum_is_read(0, origin, tail);
    lemma_length_is_read(blanks, length, next);
    law_sum_is_read(0, length, next);
    lemma_sum(origin);
    lemma_sum(length);
}

/// As many digits are counted as stand before something else.
pub proof fn law_digits_are_counted(digits: Seq<u8>, rest: Seq<u8>)
    requires
        forall|i: int| 0 <= i < digits.len() ==> is_digit(#[trigger] digits[i], 16),
        rest.len() > 0 ==> !is_digit(rest[0], 16),
    ensures
        number::digit_count(digits + rest) == digits.len(),
{
    let b = digits + rest;
    let n = digits.len() as int;
    assert forall|i: int| 0 <= i < n implies number::is_hex_digit(#[trigger] b[i]) by {
        assert(b[i] == digits[i]);
        assert(is_digit(digits[i], 16));
    }
    if n < b.len() {
        assert(b[n] == rest[0]);
    }
    number::lemma_digit_count_run(b, n);
}

/// A digit is one of its base if and only if it is read as one.
pub proof fn law_digits_of_a_base(digits: Seq<u8>, base: int)
    requires
        base == 10 || base == 16,
    ensures
        number::all_below(digits, base as nat) <==> forall|i: int|
            0 <= i < digits.len() ==> is_digit(#[trigger] digits[i], base),
{
    if number::all_below(digits, base as nat) {
        assert forall|i: int| 0 <= i < digits.len() implies is_digit(#[trigger] digits[i], base) by {
            assert(number::is_hex_digit(digits[i]));
        }
    }
    if forall|i: int| 0 <= i < digits.len() ==> is_digit(#[trigger] digits[i], base) {
        law_digits_are_worth(digits, base);
    }
}

/// A byte is found where it stands first.
pub proof fn law_first_byte_is_found(b: Seq<u8>, c: u8, p: int)
    requires
        0 <= p < b.len(),
        b[p] == c,
        forall|i: int| 0 <= i < p ==> #[trigger] b[i] != c,
    ensures
        text::index_of(b, c) == Some(p),
        text::skip_to(b, c) == b.skip(p),
{
    text::lemma_index_of(b, c);
}

/// A byte that does not stand in a text is not found in it.
pub proof fn law_missing_byte_is_not_found(b: Seq<u8>, c: u8)
    requires
        forall|i: int| 0 <= i < b.len() ==> #[trigger] b[i] != c,
    ensures
        text::index_of(b, c) is None,
        text::skip_to(b, c) == b,
{
    text::lemma_index_of(b, c);
}

/// A parser that has read up to some text has that text before it, is as many bytes further as it
/// has read, and has the line that it had.
pub proof fn law_parser_reads_to(p: parser::Parser, before: parser::Parser, rest: Seq<u8>)
    ensures
        p.rest() == encode_utf8(p.script@),
        p.wf() <==> p.position + encode_utf8(p.script@).len() <= usize::MAX,
        p.reads_to(before, rest) <==> {
            &&& encode_utf8(p.script@) == rest
            &&& p.position == before.position + encode_utf8(before.script@).len() - rest.len()
            &&& p.ram_line == before.ram_line
        },
        p.line_without_region() == if encode_utf8(p.script@).len() == 0 {
            p.ram_line
        } else {
            0
        },
{
}

/// White space at the start of a text does not matter for what follows it.
proof fn lemma_blank(blank: Seq<u8>, rest: Seq<u8>)
    requires
        is_blank(blank),
    ensures
        text::skip_space(blank + rest) == text::skip_space(rest),
        text::skip_space(text::skip_space(rest)) == text::skip_space(rest),
    decreases blank.len(),
{
    let b = blank + rest;
    parser::lemma_skip_space(rest);
    if blank.len() == 0 {
        assert(b =~= rest);
    } else {
        assert(b[0] == blank[0]);
        assert(b.skip(1) =~= blank.skip(1) + rest);
        assert forall|i: int| 0 <= i < blank.skip(1).len() implies (#[trigger] blank.skip(1)[i]
            == ' ' as u8 || blank.skip(1)[i] == '\t' as u8 || blank.skip(1)[i] == '\r' as u8
            || blank.skip(1)[i] == '\n' as u8) by {
            assert(blank.skip(1)[i] == blank[i + 1]);
        }
        lemma_blank(blank.skip(1), rest);
    }
}

/// Texts that differ only in the white space at their start are read alike.
proof fn lemma_alike(x: Seq<u8>, y: Seq<u8>, token: Seq<u8>, before: nat)
    requires
        text::skip_space(x) == text::skip_space(y),
    ensures
        text::skip_token(x, token) == text::skip_token(y, token),
        parser::expression(before, x) == parser::expression(before, y),
{
    assert(parser::number(x) == parser::number(y));
}

/// The word, if it is there.
pub open spec fn optional(word: Seq<u8>, present: bool) -> Seq<u8> {
    if present {
        word
    } else {
        seq![]
    }
}

/// A word is read if it is there, up to white space.
proof fn lemma_optional(blank: Seq<u8>, word: Seq<u8>, present: bool, rest: Seq<u8>)
    requires
        is_blank(blank),
        word.len() > 0,
        !is_blank(seq![word[0]]),
        text::skip_space(rest).len() > 0 ==> text::skip_space(rest)[0] != word[0],
    ensures
        text::skip_space(text::skip_token(blank + (optional(word, present) + rest), word))
            == text::skip_space(rest),
{
    if present {
        law_token_is_read(blank, word, rest);
    } else {
        assert(optional(word, present) + rest =~= rest);
        lemma_blank(blank, rest);
        let start = text::skip_space(rest);
        if word.is_prefix_of(start) {
            assert(start.subrange(0, word.len() as int)[0] == start[0]);
        }
    }
}

/// A sum starts with a digit behind its white space.
proof fn lemma_sum_starts(terms: Seq<Term>, next: Seq<u8>)
    requires
        terms.len() > 0,
        terms[0].wf(),
    ensures
        text::skip_space(sum_text(terms) + next).len() > 0,
        is_digit(text::skip_space(sum_text(terms) + next)[0], 16),
{
    let t = terms[0];
    let b = sum_text(terms) + next;
    let prefix: Seq<u8> = if t.base == 16 {
        seq!['0' as u8, 'x' as u8]
    } else {
        seq![]
    };
    let tail = if terms.len() == 1 {
        next
    } else {
        seq!['+' as u8] + sum_text(terms.skip(1)) + next
    };
    let start = prefix + (t.digits + (t.unit + (t.after + tail)));
    assert(b =~= t.before + start);
    assert(is_digit(t.digits[0], t.base));
    assert(start[0] == if t.base == 16 {
        '0' as u8
    } else {
        t.digits[0]
    });
    assert(seq![start[0]][0] == start[0]);
    law_white_space_is_skipped(t.before, start);
}

/// `name = ` before a sum, any part of which may be missing.
pub open spec fn assignment_text(
    blank: Seq<u8>,
    name: Seq<u8>,
    named: bool,
    space: Seq<u8>,
    equals: bool,
    rest: Seq<u8>,
) -> Seq<u8> {
    blank + (optional(name, named) + (space + (optional(encode_utf8("="@), equals) + rest)))
}

/// What is behind `name = ` before a sum, any part of which may be missing.
proof fn lemma_assignment(
    blank: Seq<u8>,
    name: &str,
    named: bool,
    space: Seq<u8>,
    equals: bool,
    terms: Seq<Term>,
    next: Seq<u8>,
)
    requires
        is_blank(blank),
        is_blank(space),
        terms.len() > 0,
        terms[0].wf(),
        text::bytes(name).len() > 0,
        'G' as u8 <= text::bytes(name)[0] <= 'Z' as u8,
    ensures
        ({
            let rest = sum_text(terms) + next;
            let b = assignment_text(blank, text::bytes(name), named, space, equals, rest);
            &&& parser::expression(0, parser::skip_assignment(b, name)) == parser::expression(0, rest)
            &&& text::skip_space(b).len() > 0
            &&& text::skip_space(b)[0] == text::bytes(name)[0] || text::skip_space(b)[0] == '=' as u8
                || is_digit(text::skip_space(b)[0], 16)
        }),
{
    laws::lemma_words();
    let word = text::bytes(name);
    let sign = encode_utf8("="@);
    let rest = sum_text(terms) + next;
    let t = space + (optional(sign, equals) + rest);
    let b = blank + (optional(word, named) + t);
    lemma_sum_starts(terms, next);
    assert(sign[0] == '=' as u8);
    assert(seq![sign[0]][0] == '=' as u8);
    assert(seq![word[0]][0] == word[0]);
    lemma_optional(space, sign, equals, rest);
    // What is behind the name starts with the sign or with the sum.
    assert(text::skip_space(t).len() > 0 && (text::skip_space(t)[0] == '=' as u8 || is_digit(
        text::skip_space(t)[0],
        16,
    ))) by {
        if equals {
            let u = sign + rest;
            assert(u[0] == '=' as u8);
            assert(seq![u[0]][0] == u[0]);
            law_white_space_is_skipped(space, u);
        } else {
            assert(optional(sign, equals) + rest =~= rest);
            lemma_blank(space, rest);
        }
    }
    lemma_optional(blank, word, named, t);
    let c = text::skip_token(b, word);
    lemma_alike(c, t, sign, 0);
    lemma_alike(text::skip_token(c, sign), rest, sign, 0);
    if named {
        let u = word + t;
        assert(u[0] == word[0]);
        assert(seq![u[0]][0] == u[0]);
        law_white_space_is_skipped(blank, u);
    } else {
        assert(optional(word, named) + t =~= t);
        lemma_blank(blank, t);
    }
}

/// A region is read where words are missing, too: each of the colon, `ORIGIN`, `LENGTH`, their `=`,
/// and the comma may be there or not, as long as the numbers do not run into one. Without the colon
/// there are no attributes.
pub proof fn law_region_is_read_without_words(
    b: Seq<u8>,
    p: int,
    attributes: Seq<u8>,
    blanks: (Seq<u8>, Seq<u8>, Seq<u8>, Seq<u8>),
    present: (bool, bool, bool, bool, bool),
    colon: bool,
    origin: Seq<Term>,
    length: Seq<Term>,
    next: Seq<u8>,
)
    requires
        text::first_ram(b) == Some(p),
        ({
            let size = assignment_text(
                blanks.2,
                encode_utf8("LENGTH"@),
                present.3,
                blanks.3,
                present.4,
                sum_text(length) + next,
            );
            let tail = optional(encode_utf8(","@), present.2) + size;
            let address = assignment_text(
                blanks.0,
                encode_utf8("ORIGIN"@),
                present.0,
                blanks.1,
                present.1,
                sum_text(origin) + tail,
            );
            &&& b.skip(p) == encode_utf8("RAM"@) + (attributes + (optional(
                encode_utf8(":"@),
                colon,
            ) + address))
            &&& is_sum_before(origin, tail)
            &&& !colon ==> is_blank(attributes) && forall|i: int|
                0 <= i < address.len() ==> #[trigger] address[i] != ':' as u8
        }),
        forall|i: int| 0 <= i < attributes.len() ==> #[trigger] attributes[i] != ':' as u8,
        is_blank(blanks.0),
        is_blank(blanks.1),
        is_blank(blanks.2),
        is_blank(blanks.3),
        is_sum_before(length, next),
    ensures
        ({
            let read = parser::find_region(b);
            if sum(origin) <= u64::MAX && sum(length) <= u64::MAX {
                &&& read matches Ok(Some(region))
                &&& region.line == b.take(p).to_multiset().count('\n' as u8)
                &&& region.origin == sum(origin)
                &&& region.length == sum(length)
                &&& region.rest == next
            } else {
                read matches Err(ParseError::Overflow)
            }
        }),
{
    laws::lemma_words();
    law_newlines_are_counted(b.take(p));
    let empty = Seq::<u8>::empty();
    let comma = encode_utf8(","@);
    let size = assignment_text(
        blanks.2,
        encode_utf8("LENGTH"@),
        present.3,
        blanks.3,
        present.4,
        sum_text(length) + next,
    );
    let tail = optional(comma, present.2) + size;
    let address = assignment_text(
        blanks.0,
        encode_utf8("ORIGIN"@),
        present.0,
        blanks.1,
        present.1,
        sum_text(origin) + tail,
    );
    lemma_assignment(blanks.2, "LENGTH", present.3, blanks.3, present.4, length, next);
    lemma_assignment(blanks.0, "ORIGIN", present.0, blanks.1, present.1, origin, tail);
    lemma_colon(attributes, colon, address);
    let at = text::skip_to(text::skip_token(b.skip(p), text::bytes("RAM")), ':' as u8);
    lemma_alike(
        text::skip_token(at, text::bytes(":")),
        address,
        text::bytes("ORIGIN"),
        0,
    );
    law_sum_is_read(0, origin, tail);
    law_sum_is_read(0, length, next);
    assert(comma[0] == ',' as u8);
    assert(seq![comma[0]][0] == ',' as u8);
    assert(empty + tail =~= tail);
    lemma_optional(empty, comma, present.2, size);
    let behind = text::skip_token(tail, comma);
    lemma_alike(behind, size, text::bytes("LENGTH"), 0);
    lemma_sum(origin);
    lemma_sum(length);
}

/// The part of the text of a region up to its colon.
proof fn lemma_colon(attributes: Seq<u8>, colon: bool, address: Seq<u8>)
    requires
        forall|i: int| 0 <= i < attributes.len() ==> #[trigger] attributes[i] != ':' as u8,
        !colon ==> is_blank(attributes) && forall|i: int|
            0 <= i < address.len() ==> #[trigger] address[i] != ':' as u8,
    ensures
        ({
            let b = encode_utf8("RAM"@) + (attributes + (optional(encode_utf8(":"@), colon)
                + address));
            let at = text::skip_to(text::skip_token(b, text::bytes("RAM")), ':' as u8);
            text::skip_space(text::skip_token(at, text::bytes(":"))) == text::skip_space(address)
        }),
{
    laws::lemma_words();
    let empty = Seq::<u8>::empty();
    let word = encode_utf8(":"@);
    let t1 = optional(word, colon) + address;
    let t0 = attributes + t1;
    let b = encode_utf8("RAM"@) + t0;
    assert(seq![text::bytes("RAM")[0]][0] == 'R' as u8);
    assert(seq![word[0]][0] == ':' as u8);
    assert(empty + b =~= b);
    law_token_is_read(empty, text::bytes("RAM"), t0);
    let n = attributes.len() as int;
    assert forall|i: int| 0 <= i < n implies #[trigger] t0[i] != ':' as u8 by {
        assert(t0[i] == attributes[i]);
    }
    if colon {
        assert(t0[n] == ':' as u8);
        law_first_byte_is_found(t0, ':' as u8, n);
        assert(t0.skip(n) =~= t1);
        assert(empty + t1 =~= t1);
        law_token_is_read(empty, word, address);
    } else {
        assert forall|i: int| 0 <= i < t0.len() implies #[trigger] t0[i] != ':' as u8 by {
            if i >= n {
                assert(t0[i] == address[i - n]);
            }
        }
        law_missing_byte_is_not_found(t0, ':' as u8);
        parser::lemma_skip_space(address);
        let start = text::skip_space(address);
        if start.len() > 0 {
            assert(start[0] == address[address.len() - start.len()]);
        }
        lemma_optional(attributes, word, colon, address);
    }
}

/// A region with something else than a number in it is that error: in the place of its origin, or
/// behind its origin in the place of its length.
pub proof fn law_region_needs_numbers(
    b: Seq<u8>,
    p: int,
    attributes: Seq<u8>,
    blanks: (Seq<u8>, Seq<u8>, Seq<u8>, Seq<u8>),
    origin: Seq<Term>,
    size: Seq<u8>,
    e: ParseError,
)
    requires
        text::first_ram(b) == Some(p),
        forall|i: int| 0 <= i < attributes.len() ==> #[trigger] attributes[i] != ':' as u8,
        is_blank(blanks.0),
        is_blank(blanks.1),
        is_blank(blanks.2),
        is_blank(blanks.3),
        ({
            let front = encode_utf8("RAM"@) + attributes + encode_utf8(":"@) + blanks.0
                + encode_utf8("ORIGIN"@) + blanks.1 + encode_utf8("="@);
            let tail = encode_utf8(","@) + (blanks.2 + (encode_utf8("LENGTH"@) + (blanks.3 + (
            encode_utf8("="@) + size))));
            ||| b.skip(p) == front + size
            ||| {
                &&& b.skip(p) == front + (sum_text(origin) + tail)
                &&& is_sum_before(origin, encode_utf8(","@))
                &&& sum(origin) <= u64::MAX
            }
        }),
        parser::expression(0, size) == Err::<(nat, Seq<u8>), ParseError>(e),
    ensures
        parser::find_region(b) == Err::<Option<parser::Region>, ParseError>(e),
{
    laws::lemma_words();
    let empty = Seq::<u8>::empty();
    let front = encode_utf8("RAM"@) + attributes + encode_utf8(":"@) + blanks.0 + encode_utf8(
        "ORIGIN"@,
    ) + blanks.1 + encode_utf8("="@);
    let t3 = blanks.3 + (encode_utf8("="@) + size);
    let t2 = blanks.2 + (encode_utf8("LENGTH"@) + t3);
    let tail = encode_utf8(","@) + t2;
    let address = if b.skip(p) == front + size {
        size
    } else {
        sum_text(origin) + tail
    };
    assert(front + address =~= encode_utf8("RAM"@) + (attributes + (encode_utf8(":"@) + (blanks.0 + (
    encode_utf8("ORIGIN"@) + (blanks.1 + (encode_utf8("="@) + address)))))));
    lemma_origin_is_read(attributes, blanks, address);
    if b.skip(p) != front + size {
        assert(tail[0] == ',' as u8);
        assert(encode_utf8(","@)[0] == ',' as u8);
        law_sum_is_read(0, origin, tail);
        assert(seq![text::bytes(",")[0]][0] == ',' as u8);
        assert(seq![text::bytes("LENGTH")[0]][0] == 'L' as u8);
        assert(seq![text::bytes("=")[0]][0] == '=' as u8);
        assert(empty + tail =~= tail);
        law_token_is_read(empty, text::bytes(","), t2);
        law_token_is_read(blanks.2, text::bytes("LENGTH"), t3);
        law_token_is_read(blanks.3, text::bytes("="), size);
        lemma_sum(origin);
    }
}

} // verus!
