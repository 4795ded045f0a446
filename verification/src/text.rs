//! The text of a linker script, as bytes: tokens, white space, lines and comments.
//!
//! Everything that a linker script is searched for is ASCII, so the specifications speak of the
//! UTF-8 encoding of the text. The lemmas on character boundaries say where such a text may be cut.
use vstd::prelude::*;
use vstd::string::*;
use vstd::utf8::*;

verus! {

/// The UTF-8 encoding of a string slice.
pub open spec fn bytes(s: &str) -> Seq<u8> {
    encode_utf8(s@)
}

/// The white space that may stand between two tokens of a memory region.
pub open spec fn is_space(c: u8) -> bool {
    c == ' ' as u8 || c == '\t' as u8 || c == '\r' as u8 || c == '\n' as u8
}

/// `b` without its leading white space.
pub open spec fn skip_space(b: Seq<u8>) -> Seq<u8>
    decreases b.len(),
{
    if b.len() > 0 && is_space(b[0]) {
        skip_space(b.skip(1))
    } else {
        b
    }
}

/// `b` without its leading white space and, where it comes next, without `token`.
pub open spec fn skip_token(b: Seq<u8>, token: Seq<u8>) -> Seq<u8> {
    let rest = skip_space(b);
    if token.is_prefix_of(rest) {
        rest.skip(token.len() as int)
    } else {
        rest
    }
}

/// The index of the first `c` in `b`.
pub open spec fn index_of(b: Seq<u8>, c: u8) -> Option<int>
    decreases b.len(),
{
    if b.len() == 0 {
        None
    } else if b[0] == c {
        Some(0)
    } else {
        shifted(index_of(b.skip(1), c), 1)
    }
}

/// `b` from its first `c` on; all of `b` where it holds none.
pub open spec fn skip_to(b: Seq<u8>, c: u8) -> Seq<u8> {
    match index_of(b, c) {
        Some(i) => b.skip(i),
        None => b,
    }
}

/// An index into a text, seen from `n` bytes further to the front.
pub open spec fn shifted(index: Option<int>, n: int) -> Option<int> {
    match index {
        Some(i) => Some(i + n),
        None => None,
    }
}

/// How many lines end in `b`.
pub open spec fn newlines(b: Seq<u8>) -> nat
    decreases b.len(),
{
    if b.len() == 0 {
        0
    } else {
        newlines(b.drop_last()) + if b.last() == '\n' as u8 {
            1nat
        } else {
            0nat
        }
    }
}

/// A line whose `\n` is already gone, without the carriage return before it.
pub open spec fn chomp(line: Seq<u8>) -> Seq<u8> {
    if line.len() > 0 && line.last() == '\r' as u8 {
        line.drop_last()
    } else {
        line
    }
}

/// The lines of `b`, each without its ending, `\n` or `\r\n`. The last line may lack one.
pub open spec fn lines(b: Seq<u8>) -> Seq<Seq<u8>>
    decreases b.len(),
{
    match index_of(b, '\n' as u8) {
        Some(i) => if 0 <= i < b.len() {
            seq![chomp(b.take(i))] + lines(b.skip(i + 1))
        } else {
            seq![]
        },
        None => if b.len() == 0 {
            seq![]
        } else {
            seq![b]
        },
    }
}

/// The text that holds `lines`, each ended by `\n`.
pub open spec fn terminated(lines: Seq<Seq<u8>>) -> Seq<u8>
    decreases lines.len(),
{
    if lines.len() == 0 {
        seq![]
    } else {
        lines[0] + seq!['\n' as u8] + terminated(lines.skip(1))
    }
}

/// `/*`, which opens a comment.
pub open spec fn comment_open() -> Seq<u8> {
    seq!['/' as u8, '*' as u8]
}

/// `*/`, which closes a comment.
pub open spec fn comment_close() -> Seq<u8> {
    seq!['*' as u8, '/' as u8]
}

/// The name of the memory region that holds the stack.
pub open spec fn ram() -> Seq<u8> {
    seq!['R' as u8, 'A' as u8, 'M' as u8]
}

/// Whether `c` may stand in the name of a file or in a pattern of such names. All that is not ASCII
/// may.
pub open spec fn is_name_byte(c: u8) -> bool {
    ||| 'a' as u8 <= c <= 'z' as u8
    ||| 'A' as u8 <= c <= 'Z' as u8
    ||| '0' as u8 <= c <= '9' as u8
    ||| c == '_' as u8
    ||| c == '.' as u8
    ||| c == '-' as u8
    ||| c == '$' as u8
    ||| c == '~' as u8
    ||| c == '*' as u8
    ||| c == '?' as u8
    ||| c == ']' as u8
    ||| c >= 0x80
}

/// `b` starts inside a pattern such as `dir/*.o`, right before its `/*`, which opens no comment.
pub open spec fn pattern_at(b: Seq<u8>) -> bool {
    b.len() >= 3 && is_name_byte(b[0]) && b[1] == '/' as u8 && b[2] == '*' as u8
}

/// A `*/` stands in `b`.
pub open spec fn has_close(b: Seq<u8>) -> bool {
    exists|i: int| 0 <= i < b.len() - 1 && #[trigger] b[i] == '*' as u8 && b[i + 1] == '/' as u8
}

/// A `"` stands in `b`.
pub open spec fn has_quote(b: Seq<u8>) -> bool {
    exists|i: int| 0 <= i < b.len() && #[trigger] b[i] == '"' as u8
}

/// How a place in a linker script is read.
#[derive(Clone, Copy, Debug, PartialEq, Eq, Structural)]
pub enum Mode {
    /// As anything else than the following.
    Plain,
    /// Inside a comment, from `/*` to `*/`.
    Comment,
    /// Behind `#`, up to the end of the line. Such a line is read, but opens no comment.
    Hash,
    /// Inside a quoted name, from `"` to `"`. Such a name is read, but opens no comment.
    Quote,
}

/// How many bytes at the start of `b`, which is not empty, are read in one, and how what follows
/// them is read. `close` and `quote` say whether a `*/` and a `"` stand behind `b`.
///
/// `/*` opens a comment where a `*/` follows it, but not right behind a byte of a name: there it
/// belongs to a file pattern. `"` starts a name where another `"` follows it.
pub open spec fn step(b: Seq<u8>, mode: Mode, close: bool, quote: bool) -> (int, Mode) {
    match mode {
        Mode::Plain => if comment_open().is_prefix_of(b) && (has_close(b.skip(2)) || close) {
            (2, Mode::Comment)
        } else if pattern_at(b) {
            (2, Mode::Plain)
        } else if b[0] == '"' as u8 && (has_quote(b.skip(1)) || quote) {
            (1, Mode::Quote)
        } else if b[0] == '#' as u8 {
            (1, Mode::Hash)
        } else {
            (1, Mode::Plain)
        },
        Mode::Comment => if comment_close().is_prefix_of(b) {
            (2, Mode::Plain)
        } else {
            (1, Mode::Comment)
        },
        Mode::Hash => if b[0] == '\n' as u8 {
            (1, Mode::Plain)
        } else {
            (1, Mode::Hash)
        },
        Mode::Quote => if b[0] == '"' as u8 {
            (1, Mode::Plain)
        } else {
            (1, Mode::Quote)
        },
    }
}

/// The index of the first `RAM` in `b` that is not part of a comment. `mode` says how the start of
/// `b` is read, `close` and `quote` whether a `*/` and a `"` stand behind `b`.
pub open spec fn ram_index(b: Seq<u8>, mode: Mode, close: bool, quote: bool) -> Option<int>
    decreases b.len(),
{
    if b.len() == 0 {
        None
    } else if !(mode is Comment) && ram().is_prefix_of(b) {
        Some(0)
    } else {
        let (n, next) = step(b, mode, close, quote);
        shifted(ram_index(b.skip(n), next, close, quote), n)
    }
}

/// How what follows `b` is read.
pub open spec fn mode_after(b: Seq<u8>, mode: Mode, close: bool, quote: bool) -> Mode
    decreases b.len(),
{
    if b.len() == 0 {
        mode
    } else {
        let (n, next) = step(b, mode, close, quote);
        mode_after(b.skip(n), next, close, quote)
    }
}

/// The index of the first `RAM` in the script `b` that is not part of a comment.
pub open spec fn first_ram(b: Seq<u8>) -> Option<int> {
    ram_index(b, Mode::Plain, false, false)
}

/// Two cuts in a row are one.
pub proof fn lemma_skip_skip(b: Seq<u8>, i: int, j: int)
    requires
        0 <= i,
        0 <= j,
        i + j <= b.len(),
    ensures
        b.skip(i).skip(j) == b.skip(i + j),
{
    assert(b.skip(i).skip(j) =~= b.skip(i + j));
}

/// A text may be cut before and after each of its ASCII characters.
pub proof fn lemma_ascii_boundary(b: Seq<u8>, i: int)
    requires
        valid_utf8(b),
        0 <= i < b.len(),
        b[i] < 0x80,
    ensures
        is_char_boundary(b, i),
        is_char_boundary(b, i + 1),
{
    is_char_boundary_iff_is_leading_byte(b, i);
    assert(is_leading_byte_width_1(b[i]));
    if i + 1 == b.len() {
        is_char_boundary_start_end_of_seq(b);
    } else {
        valid_utf8_split(b, i);
        let rest = b.subrange(i, b.len() as int);
        let next = pop_first_scalar(rest);
        assert(rest[0] == b[i]);
        assert(valid_utf8(next));
        assert(next[0] == b[i + 1]);
        is_char_boundary_iff_is_leading_byte(b, i + 1);
    }
}

/// A text may be cut behind a text that it starts with.
pub proof fn lemma_prefix_boundary(b: Seq<u8>, prefix: Seq<u8>)
    requires
        valid_utf8(b),
        valid_utf8(prefix),
        prefix.is_prefix_of(b),
    ensures
        is_char_boundary(b, prefix.len() as int),
{
    let n = prefix.len() as int;
    assert(b.subrange(0, n) =~= prefix);
    if n == b.len() {
        is_char_boundary_start_end_of_seq(b);
    } else {
        let rest = b.subrange(n, b.len() as int);
        if !valid_utf8(rest) {
            partial_valid_partial_invalid_utf8(b, n);
        }
        assert(valid_first_scalar(rest));
        assert(rest[0] == b[n]);
        is_char_boundary_iff_is_leading_byte(b, n);
    }
}

/// A string slice is valid UTF-8, and may be cut at its ends.
pub proof fn lemma_str(s: &str)
    ensures
        valid_utf8(bytes(s)),
        is_char_boundary(bytes(s), 0),
        is_char_boundary(bytes(s), bytes(s).len() as int),
{
    encode_utf8_valid_utf8(s@);
    is_char_boundary_start_end_of_seq(bytes(s));
}

/// What `index_of` finds is there, and nothing before it is.
pub proof fn lemma_index_of(b: Seq<u8>, c: u8)
    ensures
        match index_of(b, c) {
            Some(i) => 0 <= i < b.len() && b[i] == c && (forall|j: int|
                0 <= j < i ==> #[trigger] b[j] != c),
            None => forall|j: int| 0 <= j < b.len() ==> #[trigger] b[j] != c,
        },
    decreases b.len(),
{
    if b.len() > 0 && b[0] != c {
        let rest = b.skip(1);
        lemma_index_of(rest, c);
        match index_of(rest, c) {
            Some(i) => {
                assert forall|j: int| 0 <= j < i + 1 implies #[trigger] b[j] != c by {
                    if j > 0 {
                        assert(rest[j - 1] == b[j]);
                    }
                }
            },
            None => {
                assert forall|j: int| 0 <= j < b.len() implies #[trigger] b[j] != c by {
                    if j > 0 {
                        assert(rest[j - 1] == b[j]);
                    }
                }
            },
        }
    }
}

/// What `ram_index` finds is a whole `RAM` inside the text.
pub proof fn lemma_ram_index(b: Seq<u8>, mode: Mode, close: bool, quote: bool)
    ensures
        ram_index(b, mode, close, quote) matches Some(i) ==> 0 <= i && i + 3 <= b.len()
            && b.subrange(i, i + 3) == ram(),
    decreases b.len(),
{
    if b.len() > 0 {
        if !(mode is Comment) && ram().is_prefix_of(b) {
            assert(b.subrange(0, 3) =~= ram());
        } else {
            let (n, next) = step(b, mode, close, quote);
            lemma_ram_index(b.skip(n), next, close, quote);
            match ram_index(b.skip(n), next, close, quote) {
                Some(i) => {
                    assert(b.skip(n).subrange(i, i + 3) =~= b.subrange(i + n, i + n + 3));
                },
                None => {},
            }
        }
    }
}

/// Whether `b` starts with `token`.
pub fn starts_with(b: &[u8], token: &[u8]) -> (r: bool)
    ensures
        r == token@.is_prefix_of(b@),
{
    if token.len() > b.len() {
        return false;
    }
    let mut i: usize = 0;
    while i < token.len()
        invariant
            i <= token@.len() <= b@.len(),
            forall|j: int| 0 <= j < i ==> token@[j] == b@[j],
        decreases token@.len() - i,
    {
        if token[i] != b[i] {
            assert(b@.subrange(0, token@.len() as int)[i as int] == b@[i as int]);
            return false;
        }
        i += 1;
    }
    assert(token@ =~= b@.subrange(0, token@.len() as int));
    true
}

/// The index of the first `c` in `b`.
pub fn find_byte(b: &[u8], c: u8) -> (r: Option<usize>)
    ensures
        match r {
            Some(i) => index_of(b@, c) == Some(i as int),
            None => index_of(b@, c) is None,
        },
{
    let mut i: usize = 0;
    assert(b@.skip(0) =~= b@);
    while i < b.len()
        invariant
            i <= b@.len(),
            index_of(b@, c) == shifted(index_of(b@.skip(i as int), c), i as int),
        decreases b@.len() - i,
    {
        if b[i] == c {
            return Some(i);
        }
        proof {
            lemma_skip_skip(b@, i as int, 1);
        }
        i += 1;
    }
    None
}

/// Whether `c` may stand in the name of a file or in a pattern of such names.
fn names_file(c: u8) -> (r: bool)
    ensures
        r == is_name_byte(c),
{
    ('a' as u8 <= c && c <= 'z' as u8) || ('A' as u8 <= c && c <= 'Z' as u8) || ('0' as u8 <= c
        && c <= '9' as u8) || c == '_' as u8 || c == '.' as u8 || c == '-' as u8 || c == '$' as u8
        || c == '~' as u8 || c == '*' as u8 || c == '?' as u8 || c == ']' as u8 || c >= 0x80
}

/// `last` is the index of the last `*/` in `b`.
spec fn is_last_close(b: Seq<u8>, last: Option<usize>) -> bool {
    match last {
        Some(c) => {
            &&& 0 <= c < b.len() - 1 && b[c as int] == '*' as u8 && b[c + 1] == '/' as u8
            &&& forall|k: int|
                c < k < b.len() - 1 ==> !(#[trigger] b[k] == '*' as u8 && b[k + 1] == '/' as u8)
        },
        None => !has_close(b),
    }
}

/// `last` is the index of the last `"` in `b`.
spec fn is_last_quote(b: Seq<u8>, last: Option<usize>) -> bool {
    match last {
        Some(q) => {
            &&& q < b.len() && b[q as int] == '"' as u8
            &&& forall|k: int| q < k < b.len() ==> #[trigger] b[k] != '"' as u8
        },
        None => !has_quote(b),
    }
}

/// The index of the last `*/` in `b`.
fn last_close(b: &[u8]) -> (r: Option<usize>)
    ensures
        is_last_close(b@, r),
{
    let mut i = b.len();
    while i > 1
        invariant
            i <= b@.len(),
            forall|j: int|
                i - 1 <= j < b@.len() - 1 && 0 <= j ==> !(#[trigger] b@[j] == '*' as u8 && b@[j + 1]
                    == '/' as u8),
        decreases i,
    {
        i -= 1;
        if b[i - 1] == '*' as u8 && b[i] == '/' as u8 {
            return Some(i - 1);
        }
    }
    None
}

/// The index of the last `"` in `b`.
fn last_quote(b: &[u8]) -> (r: Option<usize>)
    ensures
        is_last_quote(b@, r),
{
    let mut i = b.len();
    while i > 0
        invariant
            i <= b@.len(),
            forall|j: int| i <= j < b@.len() ==> #[trigger] b@[j] != '"' as u8,
        decreases i,
    {
        i -= 1;
        if b[i] == '"' as u8 {
            return Some(i);
        }
    }
    None
}

/// Whether `last`, the index of the last mark of some kind in a text, is `i` or more.
fn follows(last: Option<usize>, i: usize) -> (r: bool)
    ensures
        r == (last matches Some(k) && i <= k),
{
    match last {
        Some(k) => i <= k,
        None => false,
    }
}

/// The index behind what is read in one at index `i` of `b`, and how what follows is read. `close`
/// and `quote` are the indices of the last `*/` and `"`.
fn next(b: &[u8], i: usize, mode: Mode, close: Option<usize>, quote: Option<usize>) -> (r: (
    usize,
    Mode,
))
    requires
        i < b@.len(),
        is_last_close(b@, close),
        is_last_quote(b@, quote),
    ensures
        i < r.0 <= b@.len(),
        (r.0 - i, r.1) == step(b@.skip(i as int), mode, false, false),
{
    let ghost rest = b@.skip(i as int);
    let left = b.len() - i;
    let two = left >= 2;
    proof {
        if left >= 2 {
            assert(rest.subrange(0, 2) =~= seq![b@[i as int], b@[i + 1]]);
            lemma_skip_skip(b@, i as int, 2);
        }
        lemma_skip_skip(b@, i as int, 1);
        assert(comment_open()[0] == '/' as u8 && comment_open()[1] == '*' as u8);
        assert(comment_close()[0] == '*' as u8 && comment_close()[1] == '/' as u8);
    }
    match mode {
        Mode::Plain => {
            let opens = two && b[i] == '/' as u8 && b[i + 1] == '*' as u8;
            proof {
                if opens {
                    assert(comment_open() =~= rest.subrange(0, 2));
                }
                assert(opens == comment_open().is_prefix_of(rest));
                if left >= 2 {
                    lemma_close_follows(b@, i + 2, close);
                }
                lemma_quote_follows(b@, i + 1, quote);
            }
            if opens && follows(close, i + 2) {
                (i + 2, Mode::Comment)
            } else if left >= 3 && names_file(b[i]) && b[i + 1] == '/' as u8 && b[i + 2]
                == '*' as u8 {
                (i + 2, Mode::Plain)
            } else if b[i] == '"' as u8 && follows(quote, i + 1) {
                (i + 1, Mode::Quote)
            } else if b[i] == '#' as u8 {
                (i + 1, Mode::Hash)
            } else {
                (i + 1, Mode::Plain)
            }
        },
        Mode::Comment => {
            let closes = two && b[i] == '*' as u8 && b[i + 1] == '/' as u8;
            proof {
                if closes {
                    assert(comment_close() =~= rest.subrange(0, 2));
                }
                assert(closes == comment_close().is_prefix_of(rest));
            }
            if closes {
                (i + 2, Mode::Plain)
            } else {
                (i + 1, Mode::Comment)
            }
        },
        Mode::Hash => {
            if b[i] == '\n' as u8 {
                (i + 1, Mode::Plain)
            } else {
                (i + 1, Mode::Hash)
            }
        },
        Mode::Quote => {
            if b[i] == '"' as u8 {
                (i + 1, Mode::Plain)
            } else {
                (i + 1, Mode::Quote)
            }
        },
    }
}

/// A `*/` follows if and only if the last one does.
proof fn lemma_close_follows(b: Seq<u8>, i: int, last: Option<usize>)
    requires
        0 <= i <= b.len(),
        is_last_close(b, last),
    ensures
        has_close(b.skip(i)) == (last matches Some(c) && i <= c),
{
    let rest = b.skip(i);
    if has_close(rest) {
        let k = choose|k: int|
            0 <= k < rest.len() - 1 && #[trigger] rest[k] == '*' as u8 && rest[k + 1] == '/' as u8;
        assert(b[i + k] == '*' as u8 && b[i + k + 1] == '/' as u8);
    }
    if let Some(c) = last {
        if i <= c {
            assert(rest[c - i] == '*' as u8 && rest[c - i + 1] == '/' as u8);
        }
    }
}

/// A `"` follows if and only if the last one does.
proof fn lemma_quote_follows(b: Seq<u8>, i: int, last: Option<usize>)
    requires
        0 <= i <= b.len(),
        is_last_quote(b, last),
    ensures
        has_quote(b.skip(i)) == (last matches Some(q) && i <= q),
{
    let rest = b.skip(i);
    if has_quote(rest) {
        let k = choose|k: int| 0 <= k < rest.len() && #[trigger] rest[k] == '"' as u8;
        assert(b[i + k] == '"' as u8);
    }
    if let Some(q) = last {
        if i <= q {
            assert(rest[q - i] == '"' as u8);
        }
    }
}

/// The index of the first `RAM` in `b` that is not part of a comment.
pub fn find_ram(b: &[u8]) -> (r: Option<usize>)
    ensures
        match r {
            Some(i) => first_ram(b@) == Some(i as int),
            None => first_ram(b@) is None,
        },
{
    let close = last_close(b);
    let quote = last_quote(b);
    let mut i: usize = 0;
    let mut mode = Mode::Plain;
    assert(b@.skip(0) =~= b@);
    while i < b.len()
        invariant
            i <= b@.len(),
            is_last_close(b@, close),
            is_last_quote(b@, quote),
            first_ram(b@) == shifted(ram_index(b@.skip(i as int), mode, false, false), i as int),
        decreases b@.len() - i,
    {
        let ghost rest = b@.skip(i as int);
        let named = b.len() - i >= 3 && b[i] == 'R' as u8 && b[i + 1] == 'A' as u8 && b[i + 2]
            == 'M' as u8;
        proof {
            if b@.len() - i >= 3 {
                assert(rest.subrange(0, 3) =~= seq![b@[i as int], b@[i + 1], b@[i + 2]]);
            }
            if named {
                assert(ram() =~= rest.subrange(0, 3));
            }
            assert(ram()[0] == 'R' as u8 && ram()[1] == 'A' as u8 && ram()[2] == 'M' as u8);
            assert(named == ram().is_prefix_of(rest));
        }
        if named && mode != Mode::Comment {
            return Some(i);
        }
        let (j, then_mode) = next(b, i, mode, close, quote);
        proof {
            lemma_skip_skip(b@, i as int, j - i);
        }
        i = j;
        mode = then_mode;
    }
    None
}

/// How many lines end in the first `n` bytes of `b`.
pub fn count_newlines(b: &[u8], n: usize) -> (r: usize)
    requires
        n <= b@.len(),
    ensures
        r == newlines(b@.take(n as int)),
{
    let mut i: usize = 0;
    let mut count: usize = 0;
    while i < n
        invariant
            i <= n <= b@.len(),
            count <= i,
            count == newlines(b@.take(i as int)),
        decreases n - i,
    {
        assert(b@.take(i + 1).drop_last() =~= b@.take(i as int));
        if b[i] == '\n' as u8 {
            count += 1;
        }
        i += 1;
    }
    count
}

/// The bytes of each of `pieces`.
pub open spec fn encoded(pieces: Seq<&str>) -> Seq<Seq<u8>> {
    pieces.map_values(|s: &str| bytes(s))
}

/// `line` without the carriage return at its end.
fn without_return<'a>(line: &'a str) -> (r: &'a str)
    ensures
        bytes(r) == chomp(bytes(line)),
{
    let b = line.as_bytes();
    let n = b.len();
    if n > 0 && b[n - 1] == '\r' as u8 {
        proof {
            lemma_str(line);
            lemma_ascii_boundary(bytes(line), n - 1);
        }
        let (head, _) = line.split_at(n - 1);
        assert(bytes(head) =~= bytes(line).drop_last());
        head
    } else {
        line
    }
}

/// The lines of `s`, in order.
pub fn split_lines<'a>(s: &'a str) -> (r: Vec<&'a str>)
    ensures
        encoded(r@) == lines(bytes(s)),
{
    let mut out: Vec<&'a str> = Vec::new();
    let mut rest: &'a str = s;
    assert(encoded(out@) =~= Seq::<Seq<u8>>::empty());
    assert(encoded(out@) + lines(bytes(rest)) =~= lines(bytes(s)));
    loop
        invariant
            encoded(out@) + lines(bytes(rest)) == lines(bytes(s)),
        decreases bytes(rest).len(),
    {
        let b = rest.as_bytes();
        let n = b.len();
        let ghost before = encoded(out@);
        proof {
            lemma_index_of(b@, '\n' as u8);
            lemma_str(rest);
        }
        match find_byte(b, '\n' as u8) {
            Some(i) => {
                proof {
                    lemma_ascii_boundary(b@, i as int);
                }
                let (head, _) = rest.split_at(i);
                let (_, tail) = rest.split_at(i + 1);
                let line = without_return(head);
                out.push(line);
                assert(encoded(out@) =~= before.push(bytes(line)));
                assert(lines(bytes(rest)) == seq![bytes(line)] + lines(bytes(tail)));
                assert(before + (seq![bytes(line)] + lines(bytes(tail))) =~= before.push(
                    bytes(line),
                ) + lines(bytes(tail)));
                rest = tail;
            },
            None => {
                if n > 0 {
                    out.push(rest);
                    assert(encoded(out@) =~= before.push(bytes(rest)));
                    assert(before + seq![bytes(rest)] =~= before.push(bytes(rest)));
                } else {
                    assert(before + Seq::<Seq<u8>>::empty() =~= before);
                }
                return out;
            },
        }
    }
}

} // verus!
