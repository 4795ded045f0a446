//! Finds the `RAM` region in a linker script.
use vstd::prelude::*;
use vstd::string::*;
use vstd::utf8::*;

use crate::memory::MemoryEntry;
use crate::number;
use crate::number::ParseError;
use crate::text;

verus! {

/// The factor that the unit at the start of `b` stands for: `K` and `k` for 1024, `M` and `m` for
/// its square.
pub open spec fn unit(b: Seq<u8>) -> nat {
    if b.len() > 0 && (b[0] == 'K' as u8 || b[0] == 'k' as u8) {
        1024
    } else if b.len() > 0 && (b[0] == 'M' as u8 || b[0] == 'm' as u8) {
        1024 * 1024
    } else {
        1
    }
}

/// `b` without the unit that it starts with.
pub open spec fn skip_unit(b: Seq<u8>) -> Seq<u8> {
    if unit(b) == 1 {
        b
    } else {
        b.skip(1)
    }
}

/// `0x`, which starts a hexadecimal number.
pub open spec fn hex_prefix() -> Seq<u8> {
    seq!['0' as u8, 'x' as u8]
}

/// The number at the start of `b`, in its unit, and what follows it.
pub open spec fn number(b: Seq<u8>) -> Result<(nat, Seq<u8>), ParseError> {
    let start = text::skip_space(b);
    let (radix, body) = if hex_prefix().is_prefix_of(start) {
        (16nat, start.skip(2))
    } else {
        (10nat, start)
    };
    let count = number::digit_count(body) as int;
    let digits = body.take(count);
    let tail = body.skip(count);
    let total = number::value(digits, radix) * unit(tail);
    if count == 0 {
        Err(ParseError::NoDigits)
    } else if !number::all_below(digits, radix) {
        Err(ParseError::InvalidDigit)
    } else if total > u64::MAX {
        Err(ParseError::Overflow)
    } else {
        Ok((total, skip_unit(tail)))
    }
}

/// `sum` plus the numbers at the start of `b` that `+` joins, and what follows them and their white
/// space.
pub open spec fn expression(sum: nat, b: Seq<u8>) -> Result<(nat, Seq<u8>), ParseError>
    decreases b.len(),
{
    match number(b) {
        Ok((term, tail)) => {
            let rest = text::skip_space(tail);
            if sum + term > u64::MAX {
                Err(ParseError::Overflow)
            } else if rest.len() > 0 && rest[0] == '+' as u8 {
                proof {
                    lemma_number_shorter(b);
                    lemma_skip_space(tail);
                }
                expression(sum + term, rest.skip(1))
            } else {
                Ok((sum + term, rest))
            }
        },
        Err(e) => Err(e),
    }
}

/// A `RAM` region in a script: the line and the address where it starts, its size, and the text
/// that follows it.
pub struct Region {
    pub line: nat,
    pub origin: nat,
    pub length: nat,
    pub rest: Seq<u8>,
}

/// What follows `name = ` at the start of `b`, any part of which may be missing.
pub open spec fn skip_assignment(b: Seq<u8>, name: &str) -> Seq<u8> {
    text::skip_token(text::skip_token(b, text::bytes(name)), text::bytes("="))
}

/// The region that `b`, which starts on line `line`, describes: a name, attributes up to a colon,
/// `ORIGIN = ..., LENGTH = ...`.
pub open spec fn region(line: nat, b: Seq<u8>) -> Result<Region, ParseError> {
    let attributes = text::skip_token(b, text::bytes("RAM"));
    let colon = text::skip_to(attributes, ':' as u8);
    let origin = skip_assignment(text::skip_token(colon, text::bytes(":")), "ORIGIN");
    match expression(0, origin) {
        Ok((start, tail)) => {
            let length = skip_assignment(text::skip_token(tail, text::bytes(",")), "LENGTH");
            match expression(0, length) {
                Ok((size, rest)) => Ok(Region { line, origin: start, length: size, rest }),
                Err(e) => Err(e),
            }
        },
        Err(e) => Err(e),
    }
}

/// The first `RAM` region of the script `b`, comments left aside.
pub open spec fn find_region(b: Seq<u8>) -> Result<Option<Region>, ParseError> {
    match text::first_ram(b) {
        Some(i) => match region(text::newlines(b.take(i)), b.skip(i)) {
            Ok(r) => Ok(Some(r)),
            Err(e) => Err(e),
        },
        None => Ok(None),
    }
}

/// Leading white space is all that `skip_space` takes away.
pub proof fn lemma_skip_space(b: Seq<u8>)
    ensures
        text::skip_space(b).len() <= b.len(),
        text::skip_space(b) == b.skip(b.len() - text::skip_space(b).len()),
        text::skip_space(b).len() > 0 ==> !text::is_space(text::skip_space(b)[0]),
    decreases b.len(),
{
    if b.len() > 0 && text::is_space(b[0]) {
        lemma_skip_space(b.skip(1));
        let n = b.skip(1).len() - text::skip_space(b.skip(1)).len();
        text::lemma_skip_skip(b, 1, n);
    } else {
        assert(b.skip(0) =~= b);
    }
}

/// A number is not empty.
pub proof fn lemma_number_shorter(b: Seq<u8>)
    ensures
        number(b) matches Ok((_, tail)) ==> tail.len() < b.len(),
{
    lemma_skip_space(b);
    let start = text::skip_space(b);
    number::lemma_digit_count(start);
    number::lemma_digit_count(start.skip(2));
}

/// A place in a linker script.
pub struct Parser<'a> {
    /// What is still to be read.
    pub script: &'a str,
    /// The line of the region, counted from 0, which is the line to replace in the script.
    pub ram_line: usize,
    /// How many bytes were read.
    pub position: usize,
}

impl<'a> Parser<'a> {
    /// What is still to be read, as bytes.
    pub open spec fn rest(self) -> Seq<u8> {
        text::bytes(self.script)
    }

    /// The end of the script is at a position that a `usize` can hold.
    pub open spec fn wf(self) -> bool {
        self.position + self.rest().len() <= usize::MAX
    }

    /// `self` comes from `before` by reading up to `rest`, which ends where `before` does.
    pub open spec fn reads_to(self, before: Self, rest: Seq<u8>) -> bool {
        &&& self.rest() == rest
        &&& self.position == before.position + before.rest().len() - rest.len()
        &&& self.ram_line == before.ram_line
    }

    /// The start of `script`.
    pub fn new(script: &'a str) -> (r: Self)
        ensures
            r.wf(),
            r.script == script,
            r.ram_line == 0,
            r.position == 0,
    {
        let size = script.as_bytes().len();
        assert(size == text::bytes(script).len());
        Parser { script, ram_line: 0, position: 0 }
    }

    /// Reads `amount` bytes.
    pub fn advance(&mut self, amount: usize)
        requires
            old(self).position + amount <= usize::MAX,
            is_char_boundary(old(self).rest(), amount as int),
        ensures
            final(self).rest() == old(self).rest().skip(amount as int),
            final(self).position == old(self).position + amount,
            final(self).ram_line == old(self).ram_line,
    {
        let (_, rest) = self.script.split_at(amount);
        self.script = rest;
        self.position += amount;
    }

    /// Reads white space.
    pub fn eat_whitespace(&mut self)
        requires
            old(self).wf(),
        ensures
            final(self).wf(),
            final(self).reads_to(*old(self), text::skip_space(old(self).rest())),
    {
        loop
            invariant
                self.wf(),
                text::skip_space(self.rest()) == text::skip_space(old(self).rest()),
                self.position + self.rest().len() == old(self).position + old(self).rest().len(),
                self.ram_line == old(self).ram_line,
            decreases self.rest().len(),
        {
            let b = self.script.as_bytes();
            if b.len() > 0 && (b[0] == ' ' as u8 || b[0] == '\t' as u8 || b[0] == '\r' as u8
                || b[0] == '\n' as u8) {
                proof {
                    text::lemma_str(self.script);
                    text::lemma_ascii_boundary(self.rest(), 0);
                }
                self.advance(1);
            } else {
                return;
            }
        }
    }

    /// Reads white space and then, where it comes next, `expect`.
    pub fn parse_token(&mut self, expect: &str)
        requires
            old(self).wf(),
        ensures
            final(self).wf(),
            final(self).reads_to(
                *old(self),
                text::skip_token(old(self).rest(), text::bytes(expect)),
            ),
    {
        self.eat_whitespace();
        if text::starts_with(self.script.as_bytes(), expect.as_bytes()) {
            proof {
                text::lemma_str(self.script);
                text::lemma_str(expect);
                text::lemma_prefix_boundary(self.rest(), text::bytes(expect));
            }
            self.advance(expect.as_bytes().len());
        }
    }

    /// Sets `ram_line` to the line of the first `RAM` outside a comment, and to 0 where a script
    /// that is not empty has none.
    pub fn get_ram_line(&mut self)
        ensures
            final(self).script == old(self).script,
            final(self).position == old(self).position,
            match text::first_ram(old(self).rest()) {
                Some(i) => final(self).ram_line == text::newlines(old(self).rest().take(i)),
                None => final(self).ram_line == if old(self).rest().len() == 0 {
                    old(self).ram_line
                } else {
                    0
                },
            },
    {
        let b = self.script.as_bytes();
        match text::find_ram(b) {
            Some(i) => {
                proof {
                    text::lemma_ram_index(b@, text::Mode::Plain, false, false);
                }
                self.ram_line = text::count_newlines(b, i);
            },
            None => {
                if b.len() > 0 {
                    self.ram_line = 0;
                }
            },
        }
    }

    /// Reads a number with its unit. Where there is none, reads nothing.
    pub fn try_parse_number(&mut self) -> (r: Result<u64, ParseError>)
        requires
            old(self).wf(),
        ensures
            final(self).wf(),
            match number(old(self).rest()) {
                Ok((v, rest)) => r == Ok::<u64, ParseError>(v as u64) && v <= u64::MAX
                    && final(self).reads_to(*old(self), rest),
                Err(e) => r == Err::<u64, ParseError>(e) && *final(self) == *old(self),
            },
    {
        let script = self.script;
        let position = self.position;
        self.eat_whitespace();
        proof {
            lemma_skip_space(old(self).rest());
            text::lemma_str(self.script);
        }
        let ghost start = self.rest();
        let b = self.script.as_bytes();
        let hex = b.len() >= 2 && b[0] == '0' as u8 && b[1] == 'x' as u8;
        let radix: u64 = if hex {
            16
        } else {
            10
        };
        if hex {
            proof {
                assert(hex_prefix() =~= start.subrange(0, 2));
                text::lemma_ascii_boundary(start, 1);
            }
            self.advance(2);
        } else {
            assert(!hex_prefix().is_prefix_of(start)) by {
                if hex_prefix().is_prefix_of(start) {
                    assert(hex_prefix()[0] == start[0] && hex_prefix()[1] == start[1]);
                }
            }
        }
        let ghost body = self.rest();
        let b = self.script.as_bytes();
        let count = number::count_digits(b);
        proof {
            number::lemma_digit_count(body);
        }
        match number::read_digits(b, count, radix) {
            Ok(v) => {
                proof {
                    text::lemma_str(self.script);
                    text::lemma_ascii_boundary(body, count - 1);
                }
                self.advance(count);
                let ghost tail = self.rest();
                let b = self.script.as_bytes();
                let factor: u64 = if b.len() == 0 {
                    1
                } else if b[0] == 'K' as u8 || b[0] == 'k' as u8 {
                    1024
                } else if b[0] == 'M' as u8 || b[0] == 'm' as u8 {
                    1024 * 1024
                } else {
                    1
                };
                assert(factor == unit(tail));
                match v.checked_mul(factor) {
                    Some(total) => {
                        if factor != 1 {
                            proof {
                                text::lemma_str(self.script);
                                text::lemma_ascii_boundary(tail, 0);
                            }
                            self.advance(1);
                        }
                        Ok(total)
                    },
                    None => {
                        self.script = script;
                        self.position = position;
                        Err(ParseError::Overflow)
                    },
                }
            },
            Err(e) => {
                self.script = script;
                self.position = position;
                proof {
                    if e is Overflow {
                        let v = number::value(body.take(count as int), radix as nat);
                        let u = unit(body.skip(count as int));
                        assert(v * u >= v) by (nonlinear_arith)
                            requires
                                u >= 1,
                        ;
                    }
                }
                Err(e)
            },
        }
    }

    /// Reads a number with its unit.
    pub fn parse_number(&mut self) -> (r: u64)
        requires
            old(self).wf(),
            number(old(self).rest()) is Ok,
        ensures
            final(self).wf(),
            r == number(old(self).rest())->Ok_0.0,
            final(self).reads_to(*old(self), number(old(self).rest())->Ok_0.1),
    {
        match self.try_parse_number() {
            Ok(v) => v,
            Err(_) => 0,
        }
    }

    /// Reads a sum of numbers and the white space behind it. Where there is none, reads nothing.
    pub fn try_parse_expression(&mut self) -> (r: Result<u64, ParseError>)
        requires
            old(self).wf(),
        ensures
            final(self).wf(),
            match expression(0, old(self).rest()) {
                Ok((v, rest)) => r == Ok::<u64, ParseError>(v as u64) && v <= u64::MAX
                    && final(self).reads_to(*old(self), rest),
                Err(e) => r == Err::<u64, ParseError>(e) && *final(self) == *old(self),
            },
    {
        let script = self.script;
        let position = self.position;
        let mut total: u64 = 0;
        loop
            invariant
                self.wf(),
                script == old(self).script,
                position == old(self).position,
                expression(0, old(self).rest()) == expression(total as nat, self.rest()),
                self.position + self.rest().len() == old(self).position + old(self).rest().len(),
                self.ram_line == old(self).ram_line,
            decreases self.rest().len(),
        {
            let ghost before = self.rest();
            proof {
                lemma_number_shorter(before);
            }
            match self.try_parse_number() {
                Ok(v) => {
                    match total.checked_add(v) {
                        Some(sum) => {
                            total = sum;
                        },
                        None => {
                            self.script = script;
                            self.position = position;
                            return Err(ParseError::Overflow);
                        },
                    }
                },
                Err(e) => {
                    self.script = script;
                    self.position = position;
                    return Err(e);
                },
            }
            proof {
                lemma_skip_space(self.rest());
            }
            self.eat_whitespace();
            let b = self.script.as_bytes();
            if b.len() > 0 && b[0] == '+' as u8 {
                proof {
                    text::lemma_str(self.script);
                    text::lemma_ascii_boundary(self.rest(), 0);
                }
                self.advance(1);
            } else {
                return Ok(total);
            }
        }
    }

    /// Reads a sum of numbers and the white space behind it.
    pub fn parse_expression(&mut self) -> (r: u64)
        requires
            old(self).wf(),
            expression(0, old(self).rest()) is Ok,
        ensures
            final(self).wf(),
            r == expression(0, old(self).rest())->Ok_0.0,
            final(self).reads_to(*old(self), expression(0, old(self).rest())->Ok_0.1),
    {
        match self.try_parse_expression() {
            Ok(v) => v,
            Err(_) => 0,
        }
    }

    /// The line that `find_ram_in_linker_script` leaves in `ram_line` where `self` has no region.
    pub open spec fn line_without_region(self) -> usize {
        if self.rest().len() == 0 {
            self.ram_line
        } else {
            0
        }
    }

    /// Looks for "RAM : ORIGIN = $origin, LENGTH = $length". Where the region holds something else
    /// than a number, reads nothing.
    pub fn try_find_ram_in_linker_script(&mut self) -> (r: Result<Option<MemoryEntry>, ParseError>)
        requires
            old(self).wf(),
        ensures
            final(self).wf(),
            match find_region(old(self).rest()) {
                Ok(Some(region)) => {
                    &&& r matches Ok(Some(entry))
                    &&& entry.line == region.line
                    &&& entry.origin == region.origin
                    &&& entry.length == region.length
                    &&& final(self).rest() == region.rest
                    &&& final(self).position == old(self).position + old(self).rest().len()
                        - region.rest.len()
                    &&& final(self).ram_line == region.line
                },
                Ok(None) => {
                    &&& r == Ok::<Option<MemoryEntry>, ParseError>(None)
                    &&& final(self).script == old(self).script
                    &&& final(self).position == old(self).position
                    &&& final(self).ram_line == old(self).line_without_region()
                },
                Err(e) => r == Err::<Option<MemoryEntry>, ParseError>(e) && *final(self) == *old(
                    self,
                ),
            },
    {
        let script = self.script;
        let position = self.position;
        let ram_line = self.ram_line;
        self.get_ram_line();
        let b = self.script.as_bytes();
        match text::find_ram(b) {
            Some(i) => {
                proof {
                    text::lemma_str(self.script);
                    text::lemma_ram_index(b@, text::Mode::Plain, false, false);
                    assert(b@.subrange(i as int, i + 3)[0] == b@[i as int]);
                    text::lemma_ascii_boundary(b@, i as int);
                }
                self.advance(i);
            },
            None => {
                return Ok(None);
            },
        }
        self.parse_token("RAM");
        let b = self.script.as_bytes();
        if let Some(i) = text::find_byte(b, ':' as u8) {
            proof {
                text::lemma_str(self.script);
                text::lemma_index_of(b@, ':' as u8);
                text::lemma_ascii_boundary(b@, i as int);
            }
            self.advance(i);
        }
        self.parse_token(":");
        self.parse_token("ORIGIN");
        self.parse_token("=");
        let origin = match self.try_parse_expression() {
            Ok(v) => v,
            Err(e) => {
                self.script = script;
                self.position = position;
                self.ram_line = ram_line;
                return Err(e);
            },
        };
        self.parse_token(",");
        self.parse_token("LENGTH");
        self.parse_token("=");
        let total_length = match self.try_parse_expression() {
            Ok(v) => v,
            Err(e) => {
                self.script = script;
                self.position = position;
                self.ram_line = ram_line;
                return Err(e);
            },
        };
        Ok(Some(MemoryEntry { line: self.ram_line, origin, length: total_length }))
    }

    /// Looks for "RAM : ORIGIN = $origin, LENGTH = $length".
    pub fn find_ram_in_linker_script(&mut self) -> (r: Option<MemoryEntry>)
        requires
            old(self).wf(),
            find_region(old(self).rest()) is Ok,
        ensures
            final(self).wf(),
            match find_region(old(self).rest())->Ok_0 {
                Some(region) => {
                    &&& r matches Some(entry)
                    &&& entry.line == region.line
                    &&& entry.origin == region.origin
                    &&& entry.length == region.length
                    &&& final(self).rest() == region.rest
                    &&& final(self).position == old(self).position + old(self).rest().len()
                        - region.rest.len()
                    &&& final(self).ram_line == region.line
                },
                None => {
                    &&& r is None
                    &&& final(self).script == old(self).script
                    &&& final(self).position == old(self).position
                    &&& final(self).ram_line == old(self).line_without_region()
                },
            },
    {
        match self.try_find_ram_in_linker_script() {
            Ok(entry) => entry,
            Err(_) => None,
        }
    }
}

} // verus!
