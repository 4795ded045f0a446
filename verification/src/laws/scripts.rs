//! Laws on linker scripts as texts: their lines, what they include, and how a region is written.
use vstd::prelude::*;
use vstd::string::*;
use vstd::utf8::*;

use crate::laws;
use crate::laws::reading;
use crate::laws::reading::{in_base, is_digit};
use crate::number;
use crate::script;
use crate::text;

verus! {

/// `line` holds no newline.
pub open spec fn is_one_line(line: Seq<u8>) -> bool {
    forall|i: int| 0 <= i < line.len() ==> #[trigger] line[i] != '\n' as u8
}

/// `x` is made of whole lines, or empty.
pub open spec fn is_whole(x: Seq<u8>) -> bool {
    x.len() > 0 ==> x[x.len() - 1] == '\n' as u8
}

/// A line is what stands before a newline, without a carriage return right before that. A last line
/// may lack its newline, and keeps its carriage return then.
pub proof fn law_lines(line: Seq<u8>, rest: Seq<u8>)
    requires
        is_one_line(line),
    ensures
        text::lines(seq![]) == Seq::<Seq<u8>>::empty(),
        line.len() > 0 ==> text::lines(line) == seq![line],
        text::lines(line + seq!['\n' as u8] + rest) == seq![
            if line.len() > 0 && line[line.len() - 1] == '\r' as u8 {
                line.take(line.len() - 1)
            } else {
                line
            },
        ] + text::lines(rest),
{
    let empty = Seq::<u8>::empty();
    text::lemma_index_of(empty, '\n' as u8);
    text::lemma_index_of(line, '\n' as u8);
    let b = line + seq!['\n' as u8] + rest;
    laws::lemma_line_split(line, rest);
    assert(b =~= line.push('\n' as u8) + rest);
    assert(b.take(line.len() as int) =~= line);
    assert(b.skip(line.len() as int + 1) =~= rest);
    if line.len() > 0 {
        assert(line.drop_last() =~= line.take(line.len() - 1));
    }
}

/// The lines of whole lines before a text come before those of the text.
pub proof fn law_whole_lines_come_first(x: Seq<u8>, y: Seq<u8>)
    requires
        is_whole(x),
    ensures
        text::lines(x + y) == text::lines(x) + text::lines(y),
        text::lines(x).len() == x.to_multiset().count('\n' as u8),
{
    laws::lemma_lines_add(x, y);
    reading::law_newlines_are_counted(x);
}

/// Lines are written one after the other, each with a newline behind it.
pub proof fn law_lines_are_written(line: Seq<u8>, lines: Seq<Seq<u8>>)
    ensures
        text::terminated(seq![]) == Seq::<u8>::empty(),
        text::terminated(seq![line] + lines) == line + seq!['\n' as u8] + text::terminated(lines),
{
    laws::lemma_terminated_first(line, lines);
    assert(line.push('\n' as u8) =~= line + seq!['\n' as u8]);
}

/// Whole lines without carriage returns are written as they were read.
pub proof fn law_lines_are_written_as_read(x: Seq<u8>)
    requires
        is_whole(x),
        forall|i: int| 0 <= i < x.len() ==> #[trigger] x[i] != '\r' as u8,
    ensures
        text::terminated(text::lines(x)) == x,
    decreases x.len(),
{
    if x.len() == 0 {
        law_lines(x, x);
        assert(x =~= Seq::<u8>::empty());
    } else {
        laws::lemma_index_of_add(x, Seq::empty());
        text::lemma_index_of(x, '\n' as u8);
        let i = text::index_of(x, '\n' as u8)->0;
        let line = x.take(i);
        let rest = x.skip(i + 1);
        assert forall|k: int| 0 <= k < line.len() implies #[trigger] line[k] != '\n' as u8 by {
            assert(line[k] == x[k]);
        }
        assert forall|k: int| 0 <= k < rest.len() implies #[trigger] rest[k] != '\r' as u8 by {
            assert(rest[k] == x[k + i + 1]);
        }
        if line.len() > 0 {
            assert(line[line.len() - 1] == x[i - 1]);
        }
        law_lines_are_written_as_read(rest);
        law_lines(line, rest);
        law_lines_are_written(line, text::lines(rest));
        assert(x =~= line + seq!['\n' as u8] + rest);
    }
}

/// A number is written in digits that are worth it, in lower case and without leading zeros.
pub proof fn law_number_is_written(n: nat, base: int)
    requires
        base == 10 || base == 16,
    ensures
        ({
            let digits = number::digits(n, base as nat);
            &&& digits.len() > 0
            &&& in_base(digits, base) == n
            &&& digits.len() > 1 ==> digits[0] != '0' as u8
            &&& forall|i: int|
                0 <= i < digits.len() ==> is_digit(#[trigger] digits[i], base) && !('A' as u8
                    <= digits[i] <= 'F' as u8)
        }),
    decreases n,
{
    let digits = number::digits(n, base as nat);
    if n < base {
        assert(digits =~= seq![number::digit(n)]);
    } else {
        number::lemma_quotient(n, base as nat);
        law_number_is_written(n / (base as nat), base);
        let front = number::digits(n / (base as nat), base as nat);
        let last = number::digit(n % (base as nat));
        assert(digits == front.push(last));
        assert(digits[0] == front[0]);
        assert(front.len() == 1 ==> front[0] != '0' as u8) by {
            if front.len() == 1 && front[0] == '0' as u8 {
                reading::law_digits_are_worth(front, base);
                assert(front.drop_last() =~= Seq::<u8>::empty());
                reveal_with_fuel(number::value, 2);
                assert(n / (base as nat) == 0);
                assert(n < base) by (nonlinear_arith)
                    requires
                        n / (base as nat) == 0,
                        base > 0,
                ;
            }
        }
        assert forall|i: int| 0 <= i < digits.len() implies is_digit(#[trigger] digits[i], base)
            && !('A' as u8 <= digits[i] <= 'F' as u8) by {
            if i < front.len() {
                assert(digits[i] == front[i]);
            } else {
                assert(digits[i] == last);
            }
        }
    }
    number::lemma_digits_value(n, base as nat);
    reading::law_digits_are_worth(digits, base);
}

/// A region is written as `RAM`, its origin in base 16 and its length in base 10.
pub proof fn law_region_is_written(origin: u64, length: u64)
    ensures
        script::ram_line(origin, length) == encode_utf8("  RAM : ORIGIN = 0x"@) + number::digits(
            origin as nat,
            16,
        ) + encode_utf8(", LENGTH = "@) + number::digits(length as nat, 10),
{
}

/// A script is written with the new region in place of one line, and all other lines as they are:
/// before a newline, or at the end of the script.
pub proof fn law_one_line_is_replaced(
    x: Seq<u8>,
    line: Seq<u8>,
    y: Seq<u8>,
    origin: u64,
    length: u64,
)
    requires
        is_whole(x),
        is_one_line(line),
    ensures
        ({
            let index = x.to_multiset().count('\n' as u8) as int;
            let new = script::ram_line(origin, length) + seq!['\n' as u8];
            let before = text::terminated(text::lines(x));
            &&& script::rewritten(x + (line + seq!['\n' as u8] + y), index, origin, length)
                == before + new + text::terminated(text::lines(y))
            &&& line.len() > 0 ==> script::rewritten(x + line, index, origin, length) == before
                + new
        }),
{
    let k = x.to_multiset().count('\n' as u8) as int;
    let end = seq!['\n' as u8];
    let new = script::ram_line(origin, length);
    let empty = Seq::<Seq<u8>>::empty();
    law_lines(line, y);
    law_whole_lines_come_first(x, line + end + y);
    law_whole_lines_come_first(x, line);
    let before = text::lines(x);
    let b = x + (line + end + y);
    assert(script::replaced(text::lines(b), k, new) =~= before + (seq![new] + text::lines(y)));
    laws::lemma_terminated_add(before, seq![new] + text::lines(y));
    law_lines_are_written(new, text::lines(y));
    assert(text::terminated(before) + (new + end + text::terminated(text::lines(y)))
        =~= text::terminated(before) + (new + end) + text::terminated(text::lines(y)));
    if line.len() > 0 {
        assert(script::replaced(text::lines(x + line), k, new) =~= before + (seq![new] + empty));
        laws::lemma_terminated_add(before, seq![new] + empty);
        law_lines_are_written(new, empty);
        assert(new + end + text::terminated(empty) =~= new + end);
    }
}

/// In a script of whole lines without carriage returns, the text before and behind the line that is
/// replaced stays as it is, to the byte.
pub proof fn law_rest_of_script_stays(
    x: Seq<u8>,
    line: Seq<u8>,
    y: Seq<u8>,
    origin: u64,
    length: u64,
)
    requires
        is_whole(x),
        is_one_line(line),
        is_whole(y),
        forall|i: int| 0 <= i < x.len() ==> #[trigger] x[i] != '\r' as u8,
        forall|i: int| 0 <= i < y.len() ==> #[trigger] y[i] != '\r' as u8,
    ensures
        script::rewritten(
            x + (line + seq!['\n' as u8] + y),
            x.to_multiset().count('\n' as u8) as int,
            origin,
            length,
        ) == x + (encode_utf8("  RAM : ORIGIN = 0x"@) + number::digits(origin as nat, 16)
            + encode_utf8(", LENGTH = "@) + number::digits(length as nat, 10) + seq!['\n' as u8])
            + y,
{
    law_one_line_is_replaced(x, line, y, origin, length);
    law_lines_are_written_as_read(x);
    law_lines_are_written_as_read(y);
    law_region_is_written(origin, length);
}

/// A line that a script does not have is not replaced.
pub proof fn law_missing_line_is_not_replaced(b: Seq<u8>, index: int, origin: u64, length: u64)
    requires
        index >= text::lines(b).len(),
    ensures
        script::rewritten(b, index, origin, length) == text::terminated(text::lines(b)),
{
}

/// `c` is white space.
pub open spec fn is_white(c: char) -> bool {
    ||| c == ' '
    ||| '\u{9}' <= c <= '\u{d}'
    ||| c == '\u{85}'
    ||| c == '\u{a0}'
    ||| c == '\u{1680}'
    ||| '\u{2000}' <= c <= '\u{200a}'
    ||| c == '\u{2028}'
    ||| c == '\u{2029}'
    ||| c == '\u{202f}'
    ||| c == '\u{205f}'
    ||| c == '\u{3000}'
}

/// `s` holds nothing but white space.
pub open spec fn all_white(s: Seq<char>) -> bool {
    forall|i: int| 0 <= i < s.len() ==> is_white(#[trigger] s[i])
}

/// `s` has no white space at its ends.
pub open spec fn is_trim(s: Seq<char>) -> bool {
    s.len() > 0 ==> !is_white(s[0]) && !is_white(s[s.len() - 1])
}

/// Leading white space is trimmed.
proof fn lemma_trim_start(white: Seq<char>, s: Seq<char>)
    requires
        all_white(white),
        s.len() > 0 ==> !is_white(s[0]),
    ensures
        script::trim_start(white + s) == s,
    decreases white.len(),
{
    let t = white + s;
    if white.len() == 0 {
        assert(t =~= s);
    } else {
        assert(is_white(white[0]) && t[0] == white[0]);
        assert(t.skip(1) =~= white.skip(1) + s);
        assert forall|i: int| 0 <= i < white.skip(1).len() implies is_white(
            #[trigger] white.skip(1)[i],
        ) by {
            assert(white.skip(1)[i] == white[i + 1]);
        }
        lemma_trim_start(white.skip(1), s);
    }
}

/// Trailing white space is trimmed.
proof fn lemma_trim_end(s: Seq<char>, white: Seq<char>)
    requires
        all_white(white),
        s.len() > 0 ==> !is_white(s[s.len() - 1]),
    ensures
        script::trim_end(s + white) == s,
    decreases white.len(),
{
    let t = s + white;
    if white.len() == 0 {
        assert(t =~= s);
    } else {
        assert(t.last() == white.last());
        assert(is_white(white[white.len() - 1]));
        assert(t.drop_last() =~= s + white.drop_last());
        assert forall|i: int| 0 <= i < white.drop_last().len() implies is_white(
            #[trigger] white.drop_last()[i],
        ) by {
            assert(white.drop_last()[i] == white[i]);
        }
        lemma_trim_end(s, white.drop_last());
    }
}

/// Trimming takes the white space at the ends, and nothing else.
pub proof fn law_white_space_is_trimmed(before: Seq<char>, s: Seq<char>, after: Seq<char>)
    requires
        all_white(before),
        is_trim(s),
        all_white(after),
    ensures
        script::trimmed(before + s + after) == s,
{
    if s.len() == 0 {
        let all = before + after;
        assert(before + s + after =~= all + s);
        assert forall|i: int| 0 <= i < all.len() implies is_white(#[trigger] all[i]) by {
            if i < before.len() {
                assert(all[i] == before[i]);
            } else {
                assert(all[i] == after[i - before.len()]);
            }
        }
        lemma_trim_start(all, s);
    } else {
        assert(before + s + after =~= before + (s + after));
        assert((s + after)[0] == s[0]);
        lemma_trim_start(before, s + after);
        lemma_trim_end(s, after);
    }
}

/// What two lists of lines include is what both include, in order.
pub proof fn law_includes_of_lines(a: Seq<Seq<u8>>, c: Seq<Seq<u8>>)
    ensures
        script::includes(a + c) == script::includes(a) + script::includes(c),
    decreases c.len(),
{
    if c.len() == 0 {
        assert(a + c =~= a);
        assert(script::includes(a) + script::includes(c) =~= script::includes(a));
    } else {
        law_includes_of_lines(a, c.drop_last());
        assert((a + c).drop_last() =~= a + c.drop_last());
        assert((a + c).last() == c.last());
        assert(script::includes(a + c) =~= script::includes(a) + script::includes(c));
    }
}

/// What a script includes is what its first lines and what its other lines include, in order.
pub proof fn law_includes_of_scripts(x: Seq<u8>, y: Seq<u8>)
    requires
        is_whole(x),
    ensures
        script::includes(text::lines(x + y)) == script::includes(text::lines(x)) + script::includes(
            text::lines(y),
        ),
{
    law_whole_lines_come_first(x, y);
    law_includes_of_lines(text::lines(x), text::lines(y));
}

/// What a script of one line includes, with any line ending.
proof fn lemma_includes_of_one_line(line: Seq<char>)
    requires
        is_one_line(encode_utf8(line)),
        line.len() > 0,
    ensures
        ({
            let b = encode_utf8(line);
            let one = match script::include_of(line) {
                Some(name) => seq![name],
                None => seq![],
            };
            &&& script::includes(text::lines(b)) == one
            &&& script::includes(text::lines(b + seq!['\r' as u8, '\n' as u8])) == one
            &&& b[b.len() - 1] != '\r' as u8 ==> script::includes(text::lines(b + seq!['\n' as u8]))
                == one
        }),
{
    let b = encode_utf8(line);
    let empty = Seq::<u8>::empty();
    encode_utf8_decode_utf8(line);
    assert(b.len() > 0) by {
        if b.len() == 0 {
            assert(decode_utf8(b) =~= Seq::<char>::empty());
        }
    }
    let one = match script::include_of(line) {
        Some(name) => seq![name],
        None => seq![],
    };
    assert(script::includes(seq![b]) == one) by {
        assert(seq![b].drop_last() =~= Seq::<Seq<u8>>::empty());
        assert(seq![b].last() == b);
        assert(script::includes(Seq::<Seq<u8>>::empty()) =~= Seq::<Seq<char>>::empty());
        assert(script::includes(seq![b]) =~= one);
    }
    law_lines(b, empty);
    assert(b + seq!['\n' as u8] + empty =~= b + seq!['\n' as u8]);
    assert(seq![b] + text::lines(empty) =~= seq![b]);
    let c = b.push('\r' as u8);
    law_lines(c, empty);
    assert(c.take(c.len() - 1) =~= b);
    assert(c + seq!['\n' as u8] + empty =~= b + seq!['\r' as u8, '\n' as u8]);
}

/// Text without a newline is encoded without one.
pub proof fn lemma_one_line(line: Seq<char>)
    requires
        !line.contains('\n'),
    ensures
        is_one_line(encode_utf8(line)),
{
    let b = encode_utf8(line);
    encode_utf8_valid_utf8(line);
    encode_utf8_decode_utf8(line);
    assert forall|i: int| 0 <= i < b.len() implies #[trigger] b[i] != '\n' as u8 by {
        if b[i] == '\n' as u8 {
            let end = b.len() as int;
            text::lemma_ascii_boundary(b, i);
            decode_utf8_split(b, i);
            let rest = b.subrange(i, end);
            let front = decode_utf8(b.subrange(0, i));
            assert(rest[0] == '\n' as u8);
            valid_utf8_split(b, i);
            assert((10u8 & 0x7f) == 10u8) by (bit_vector);
            assert(decode_first_scalar(rest) == 10u32);
            assert(decode_utf8(rest)[0] == '\n');
            assert(line[front.len() as int] == '\n');
        }
    }
}

/// A line with `INCLUDE` and a name, with any white space around them, includes that name, as it
/// stands there, with its directories and all.
pub proof fn law_include_line(
    before: Seq<char>,
    between: Seq<char>,
    name: Seq<char>,
    after: Seq<char>,
)
    requires
        all_white(before),
        all_white(between),
        all_white(after),
        is_trim(name),
        !(before + between + name + after).contains('\n'),
    ensures
        ({
            let b = encode_utf8(before + "INCLUDE"@ + between + name + after);
            &&& script::includes(text::lines(b)) == seq![name]
            &&& script::includes(text::lines(b + seq!['\r' as u8, '\n' as u8])) == seq![name]
            &&& b[b.len() - 1] != '\r' as u8 ==> script::includes(text::lines(b + seq!['\n' as u8]))
                == seq![name]
        }),
{
    reveal_strlit("INCLUDE");
    let word = "INCLUDE"@;
    let line = before + word + between + name + after;
    assert(word[0] == 'I' && word[6] == 'E' && word.len() == 7);
    let core = if name.len() > 0 {
        word + between + name
    } else {
        word
    };
    let tail = if name.len() > 0 {
        after
    } else {
        between + after
    };
    assert(all_white(tail)) by {
        if name.len() == 0 {
            assert forall|i: int| 0 <= i < tail.len() implies is_white(#[trigger] tail[i]) by {
                if i < between.len() {
                    assert(tail[i] == between[i]);
                } else {
                    assert(tail[i] == after[i - between.len()]);
                }
            }
        }
    }
    assert(core[0] == 'I');
    assert(name.len() > 0 ==> core[core.len() - 1] == name[name.len() - 1]);
    assert(line =~= before + core + tail);
    law_white_space_is_trimmed(before, core, tail);
    assert(core.subrange(0, 7) =~= word);
    assert(script::trimmed(core.skip(7)) == name) by {
        let empty = Seq::<char>::empty();
        if name.len() > 0 {
            law_white_space_is_trimmed(between, name, empty);
            assert(core.skip(7) =~= between + name + empty);
        } else {
            law_white_space_is_trimmed(empty, name, empty);
            assert(core.skip(7) =~= empty + name + empty);
        }
    }
    assert(script::include_of(line) == Some(name));
    assert(!line.contains('\n')) by {
        let other = before + between + name + after;
        if line.contains('\n') {
            let i = choose|i: int| 0 <= i < line.len() && line[i] == '\n';
            let n = before.len();
            if i < n {
                assert(other[i] == '\n');
            } else if i < n + 7 {
                assert(line[i] == word[i - n]);
            } else {
                assert(other[i - 7] == '\n');
            }
        }
    }
    lemma_one_line(line);
    lemma_includes_of_one_line(line);
}

/// What is trimmed at the end starts as it did.
proof fn lemma_trim_end_prefix(s: Seq<char>)
    ensures
        script::trim_end(s).len() <= s.len(),
        script::trim_end(s) == s.take(script::trim_end(s).len() as int),
    decreases s.len(),
{
    if s.len() > 0 && script::is_white_space(s.last()) {
        lemma_trim_end_prefix(s.drop_last());
        let n = script::trim_end(s).len() as int;
        assert(s.drop_last().take(n) =~= s.take(n));
    } else {
        assert(s.take(s.len() as int) =~= s);
    }
}

/// A line that starts with something else than `INCLUDE`, white space left aside, or that is blank,
/// includes nothing.
pub proof fn law_other_line(before: Seq<char>, rest: Seq<char>)
    requires
        all_white(before),
        rest.len() > 0 ==> !is_white(rest[0]),
        rest.len() < 7 || rest.take(7) != "INCLUDE"@,
        before.len() + rest.len() > 0,
        !(before + rest).contains('\n'),
    ensures
        ({
            let b = encode_utf8(before + rest);
            let none = Seq::<Seq<char>>::empty();
            &&& script::includes(text::lines(b)) == none
            &&& script::includes(text::lines(b + seq!['\r' as u8, '\n' as u8])) == none
            &&& b[b.len() - 1] != '\r' as u8 ==> script::includes(text::lines(b + seq!['\n' as u8]))
                == none
        }),
{
    reveal_strlit("INCLUDE");
    let line = before + rest;
    lemma_trim_start(before, rest);
    lemma_trim_end_prefix(rest);
    let t = script::trimmed(line);
    assert(t == script::trim_end(rest));
    if "INCLUDE"@.is_prefix_of(t) {
        assert(t.subrange(0, 7) =~= rest.take(7));
    }
    lemma_one_line(line);
    lemma_includes_of_one_line(line);
}

/// An empty script includes nothing.
pub proof fn law_empty_script_includes_nothing()
    ensures
        script::includes(text::lines(seq![])) == Seq::<Seq<char>>::empty(),
{
    law_lines(seq![], seq![]);
}

/// Ordinary paths name their scripts alike on every platform, also behind a drive where it does not
/// matter for the name.
pub proof fn law_ordinary_path_is_portable(path: Seq<char>)
    requires
        forall|i: int| 0 <= i < path.len() ==> #[trigger] path[i] != '\\',
        path.len() >= 2 && path[1] == ':' ==> script::final_name(path) == script::final_name(
            path.skip(2),
        ),
        !(path.len() >= 2 && path[0] == '/' && path[1] == '/'),
    ensures
        script::is_portable(path),
{
}

/// Strings stand for their UTF-8 encoding.
pub proof fn law_texts_are_utf8(s: &str, pieces: Seq<&str>)
    ensures
        text::bytes(s) == encode_utf8(s@),
        text::encoded(pieces).len() == pieces.len(),
        forall|i: int|
            0 <= i < pieces.len() ==> #[trigger] text::encoded(pieces)[i] == encode_utf8(
                pieces[i]@,
            ),
{
}

} // verus!
