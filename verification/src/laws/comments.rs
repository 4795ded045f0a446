//! Laws on where the search for `RAM` looks: comments, file patterns, `#` lines and quoted names.
use vstd::prelude::*;

use crate::laws;
use crate::text;
use crate::text::Mode;

verus! {

/// `RAM` stands in `b` at index `i`.
pub open spec fn has_ram(b: Seq<u8>, i: int) -> bool {
    0 <= i < b.len() - 2 && b[i] == 'R' as u8 && b[i + 1] == 'A' as u8 && b[i + 2] == 'M' as u8
}

/// The first `RAM` in `b`, be it part of a comment or not, stands at index `p`.
pub open spec fn has_first_ram(b: Seq<u8>, p: int) -> bool {
    has_ram(b, p) && forall|j: int| j < p ==> !#[trigger] has_ram(b, j)
}

/// `c` may stand in the name of a file or in a pattern of such names.
pub open spec fn is_in_name(c: u8) -> bool {
    ||| 'a' as u8 <= c <= 'z' as u8
    ||| 'A' as u8 <= c <= 'Z' as u8
    ||| '0' as u8 <= c <= '9' as u8
    ||| c == '_' as u8 || c == '.' as u8 || c == '-' as u8 || c == '$' as u8 || c == '~' as u8
    ||| c == '*' as u8 || c == '?' as u8 || c == ']' as u8
    ||| c >= 0x80
}

/// `pre` holds no `RAM`, and nothing that changes how what follows it is read: no `/*`, `#` or `"`.
pub open spec fn is_quiet(pre: Seq<u8>) -> bool {
    &&& forall|i: int| !#[trigger] has_ram(pre, i)
    &&& forall|i: int|
        0 <= i < pre.len() ==> #[trigger] pre[i] != '#' as u8 && pre[i] != '"' as u8
    &&& forall|i: int|
        0 <= i < pre.len() - 1 ==> !(#[trigger] pre[i] == '/' as u8 && pre[i + 1] == '*' as u8)
}

/// `found` is the index that `inner` is, seen from `n` bytes further to the front.
pub open spec fn is_later(found: Option<int>, inner: Option<int>, n: int) -> bool {
    match inner {
        Some(i) => found == Some(i + n),
        None => found is None,
    }
}

/// Quiet text is read as plain text.
proof fn lemma_quiet(pre: Seq<u8>, close: bool, quote: bool)
    requires
        is_quiet(pre),
    ensures
        text::ram_index(pre, Mode::Plain, close, quote) is None,
        text::mode_after(pre, Mode::Plain, close, quote) is Plain,
    decreases pre.len(),
{
    if pre.len() > 0 {
        laws::lemma_step(pre, Mode::Plain, close, quote);
        assert(!has_ram(pre, 0));
        assert(pre[0] != '#' as u8 && pre[0] != '"' as u8);
        assert(!text::comment_open().is_prefix_of(pre)) by {
            if text::comment_open().is_prefix_of(pre) {
                assert(pre[0] == '/' as u8);
            }
        }
        assert(!text::pattern_at(pre)) by {
            if text::pattern_at(pre) {
                assert(pre[1] == '/' as u8);
            }
        }
        let rest = pre.skip(1);
        lemma_quiet_skip(pre);
        lemma_quiet(rest, close, quote);
        laws::lemma_unfold(pre, Mode::Plain, close, quote, 1, Mode::Plain);
    }
}

/// What is found is `RAM`.
pub proof fn law_found_ram_is_ram(b: Seq<u8>)
    ensures
        text::first_ram(b) matches Some(p) ==> has_ram(b, p),
{
    text::lemma_ram_index(b, Mode::Plain, false, false);
    if let Some(p) = text::first_ram(b) {
        laws::lemma_token_bytes();
        let s = b.subrange(p, p + 3);
        assert(s[0] == b[p] && s[1] == b[p + 1] && s[2] == b[p + 2]);
    }
}

/// The two ways to say that `RAM` stands somewhere.
proof fn lemma_ram_at(b: Seq<u8>, i: int)
    ensures
        laws::ram_at(b, i) == has_ram(b, i),
{
    laws::lemma_token_bytes();
    if 0 <= i <= b.len() - 3 {
        let s = b.subrange(i, i + 3);
        assert(s[0] == b[i] && s[1] == b[i + 1] && s[2] == b[i + 2]);
        if has_ram(b, i) {
            assert(s =~= text::ram());
        }
    }
}

/// The first `RAM` of a text, by its bytes.
pub proof fn law_word_index_by_bytes(b: Seq<u8>)
    ensures
        match laws::word_index(b) {
            Some(p) => has_first_ram(b, p),
            None => forall|i: int| !#[trigger] has_ram(b, i),
        },
{
    laws::law_word_index(b);
    assert forall|i: int| #[trigger] has_ram(b, i) == laws::ram_at(b, i) by {
        lemma_ram_at(b, i);
    }
}

/// A script in which each `/*` stands right behind a byte of a name, or has no `*/` behind it, holds
/// its region at its first `RAM`, and none where it has no `RAM`.
pub proof fn law_first_ram_without_comments(b: Seq<u8>)
    requires
        forall|i: int|
            0 <= i < b.len() - 1 && #[trigger] b[i] == '/' as u8 && b[i + 1] == '*' as u8 ==> {
                ||| i > 0 && is_in_name(b[i - 1])
                ||| forall|j: int|
                    i + 2 <= j < b.len() - 1 ==> !(#[trigger] b[j] == '*' as u8 && b[j + 1]
                        == '/' as u8)
            },
    ensures
        match text::first_ram(b) {
            Some(p) => has_first_ram(b, p),
            None => forall|i: int| !#[trigger] has_ram(b, i),
        },
{
    assert forall|i: int|
        0 <= i < b.len() - 1 && #[trigger] b[i] == '/' as u8 && b[i + 1]
            == '*' as u8 implies laws::opens_nothing(b, i) by {
        let rest = b.skip(i + 2);
        if text::has_close(rest) {
            let k = choose|k: int|
                0 <= k < rest.len() - 1 && #[trigger] rest[k] == '*' as u8 && rest[k + 1]
                    == '/' as u8;
            assert(b[k + i + 2] == '*' as u8 && b[k + i + 3] == '/' as u8);
        }
    }
    laws::law_ram_without_comments(b);
    law_word_index_by_bytes(b);
}

/// Quiet text before a script changes nothing but the index, where the two do not run into one.
pub proof fn law_quiet_text_is_passed_over(pre: Seq<u8>, b: Seq<u8>)
    requires
        is_quiet(pre),
        pre.len() > 0 && b.len() > 0 ==> {
            ||| b[0] != '/' as u8 && b[0] != '*' as u8 && b[0] != 'A' as u8 && b[0] != 'M' as u8
            ||| !is_in_name(pre[pre.len() - 1]) && !(pre[pre.len() - 1] == '/' as u8 && b[0]
                == '*' as u8)
        },
    ensures
        is_later(text::first_ram(pre + b), text::first_ram(b), pre.len() as int),
{
    lemma_quiet(pre, text::has_close(b), text::has_quote(b));
    laws::lemma_ram_split(pre, b, Mode::Plain, false, false);
}

/// The first `RAM` behind quiet text is found, whatever follows it.
pub proof fn law_ram_is_found(pre: Seq<u8>, rest: Seq<u8>)
    requires
        is_quiet(pre),
    ensures
        text::first_ram(pre + (seq!['R' as u8, 'A' as u8, 'M' as u8] + rest)) == Some(
            pre.len() as int,
        ),
{
    let b = seq!['R' as u8, 'A' as u8, 'M' as u8] + rest;
    assert(b[0] == 'R' as u8 && b[1] == 'A' as u8 && b[2] == 'M' as u8);
    laws::lemma_step(b, Mode::Plain, false, false);
    assert(text::first_ram(b) == Some(0int));
    law_quiet_text_is_passed_over(pre, b);
}

/// A comment is passed over, whatever it holds: a `RAM` in it is not found, and the search goes on
/// behind it.
pub proof fn law_comment_hides_ram(pre: Seq<u8>, inner: Seq<u8>, post: Seq<u8>)
    requires
        is_quiet(pre),
        pre.len() > 0 ==> !is_in_name(pre[pre.len() - 1]),
        forall|i: int|
            0 <= i < inner.len() - 1 ==> !(#[trigger] inner[i] == '*' as u8 && inner[i + 1]
                == '/' as u8),
    ensures
        is_later(
            text::first_ram(
                pre + (seq!['/' as u8, '*' as u8] + (inner + seq!['*' as u8, '/' as u8] + post)),
            ),
            text::first_ram(post),
            (pre.len() + inner.len() + 4) as int,
        ),
{
    lemma_quiet(pre, true, text::has_quote(inner + post));
    laws::law_comment_is_skipped(pre, inner, post);
}

/// A `/*` right behind a byte of a name belongs to a file pattern, and opens no comment.
pub proof fn law_pattern_hides_nothing(pre: Seq<u8>, post: Seq<u8>)
    requires
        is_quiet(pre),
        pre.len() > 0,
        is_in_name(pre[pre.len() - 1]),
    ensures
        is_later(
            text::first_ram(pre + (seq!['/' as u8, '*' as u8] + post)),
            text::first_ram(seq!['*' as u8] + post),
            (pre.len() + 1) as int,
        ),
{
    let n = pre.len() as int - 1;
    let front = pre.take(n);
    let rest = seq![pre[n]] + (seq!['/' as u8, '*' as u8] + post);
    assert(pre + (seq!['/' as u8, '*' as u8] + post) =~= front + rest);
    let tail = seq!['*' as u8] + post;
    assert(rest[0] == pre[n] && rest[1] == '/' as u8 && rest[2] == '*' as u8);
    assert(rest.skip(2) =~= tail);
    laws::lemma_step(rest, Mode::Plain, false, false);
    laws::lemma_unfold(rest, Mode::Plain, false, false, 2, Mode::Plain);
    assert(front.push(pre[n]) =~= pre);
    lemma_name_before(front, pre[n], seq!['/' as u8, '*' as u8] + post);
}

/// Quiet text up to a byte of a name that `/` follows is read as plain text.
proof fn lemma_name_before(front: Seq<u8>, c: u8, tail: Seq<u8>)
    requires
        is_quiet(front.push(c)),
        is_in_name(c),
        tail.len() > 0,
        tail[0] == '/' as u8,
    ensures
        text::first_ram(front + (seq![c] + tail)) == text::shifted(
            text::first_ram(seq![c] + tail),
            front.len() as int,
        ),
    decreases front.len(),
{
    let rest = seq![c] + tail;
    let b = front + rest;
    if front.len() == 0 {
        assert(b =~= rest);
    } else {
        let pre = front.push(c);
        laws::lemma_step(b, Mode::Plain, false, false);
        assert(b[0] == front[0] && pre[0] == front[0]);
        assert(b.skip(1) =~= front.skip(1) + rest);
        assert(pre[0] != '#' as u8 && pre[0] != '"' as u8);
        assert(!has_ram(pre, 0));
        assert(b[1] == pre[1]);
        if front.len() >= 2 {
            assert(b[2] == pre[2]);
        } else {
            assert(b[2] == tail[0]);
        }
        assert(!(pre[0] == '/' as u8 && pre[1] == '*' as u8));
        assert(front.len() >= 2 ==> !(pre[1] == '/' as u8 && pre[2] == '*' as u8));
        assert(text::step(b, Mode::Plain, false, false) == (1int, Mode::Plain));
        laws::lemma_unfold(b, Mode::Plain, false, false, 1, Mode::Plain);
        assert(front.skip(1).push(c) =~= pre.skip(1));
        lemma_quiet_skip(pre);
        lemma_name_before(front.skip(1), c, tail);
    }
}

/// Quiet text without its first byte is quiet.
proof fn lemma_quiet_skip(pre: Seq<u8>)
    requires
        is_quiet(pre),
        pre.len() > 0,
    ensures
        is_quiet(pre.skip(1)),
{
    let rest = pre.skip(1);
    assert forall|i: int| !#[trigger] has_ram(rest, i) by {
        if has_ram(rest, i) {
            assert(has_ram(pre, i + 1));
        }
    }
    assert forall|i: int| 0 <= i < rest.len() implies #[trigger] rest[i] != '#' as u8 && rest[i]
        != '"' as u8 by {
        assert(rest[i] == pre[i + 1]);
    }
    assert forall|i: int| 0 <= i < rest.len() - 1 implies !(#[trigger] rest[i] == '/' as u8
        && rest[i + 1] == '*' as u8) by {
        assert(rest[i] == pre[i + 1]);
    }
}

/// Behind a `#`, up to the end of the line, `RAM` is found, and no comment opens.
pub proof fn law_hash_hides_nothing(pre: Seq<u8>, line: Seq<u8>, post: Seq<u8>)
    requires
        is_quiet(pre),
        forall|i: int| 0 <= i < line.len() ==> #[trigger] line[i] != '\n' as u8,
    ensures
        ({
            let found = text::first_ram(
                pre + (seq!['#' as u8] + (line + (seq!['\n' as u8] + post))),
            );
            &&& forall|p: int| #[trigger]
                has_first_ram(line, p) ==> found == Some(pre.len() + 1 + p)
            &&& (forall|p: int| !#[trigger] has_ram(line, p)) ==> is_later(
                found,
                text::first_ram(post),
                (pre.len() + line.len() + 2) as int,
            )
        }),
{
    let rest = seq!['#' as u8] + (line + (seq!['\n' as u8] + post));
    lemma_quiet(pre, text::has_close(rest), text::has_quote(rest));
    laws::law_hash_line_opens_no_comment(pre, line, post);
    law_word_index_by_bytes(line);
    lemma_first_is_one(line);
}

/// Between two quotes `RAM` is found, and no comment opens.
pub proof fn law_quotes_hide_nothing(pre: Seq<u8>, name: Seq<u8>, post: Seq<u8>)
    requires
        is_quiet(pre),
        forall|i: int| 0 <= i < name.len() ==> #[trigger] name[i] != '"' as u8,
    ensures
        ({
            let found = text::first_ram(
                pre + (seq!['"' as u8] + (name + (seq!['"' as u8] + post))),
            );
            &&& forall|p: int| #[trigger]
                has_first_ram(name, p) ==> found == Some(pre.len() + 1 + p)
            &&& (forall|p: int| !#[trigger] has_ram(name, p)) ==> is_later(
                found,
                text::first_ram(post),
                (pre.len() + name.len() + 2) as int,
            )
        }),
{
    let rest = seq!['"' as u8] + (name + (seq!['"' as u8] + post));
    lemma_quiet(pre, text::has_close(rest), true);
    laws::law_quoted_name_opens_no_comment(pre, name, post);
    law_word_index_by_bytes(name);
    lemma_first_is_one(name);
}

/// There is one first `RAM`.
proof fn lemma_first_is_one(b: Seq<u8>)
    ensures
        forall|p: int, q: int| #[trigger]
            has_first_ram(b, p) && #[trigger] has_first_ram(b, q) ==> p == q,
{
    assert forall|p: int, q: int| #[trigger]
        has_first_ram(b, p) && #[trigger] has_first_ram(b, q) implies p == q by {
        if p < q {
            assert(!has_ram(b, p));
        } else if q < p {
            assert(!has_ram(b, q));
        }
    }
}

/// A quote without another one behind it quotes nothing.
pub proof fn law_lone_quote_is_passed_over(pre: Seq<u8>, post: Seq<u8>)
    requires
        is_quiet(pre),
        forall|i: int| 0 <= i < post.len() ==> #[trigger] post[i] != '"' as u8,
    ensures
        is_later(
            text::first_ram(pre + (seq!['"' as u8] + post)),
            text::first_ram(post),
            (pre.len() + 1) as int,
        ),
{
    let rest = seq!['"' as u8] + post;
    assert(rest[0] == '"' as u8);
    assert(rest.skip(1) =~= post);
    assert(!text::has_quote(post));
    lemma_quiet(pre, text::has_close(rest), text::has_quote(rest));
    laws::lemma_ram_split(pre, rest, Mode::Plain, false, false);
    laws::lemma_step(rest, Mode::Plain, false, false);
    laws::lemma_unfold(rest, Mode::Plain, false, false, 1, Mode::Plain);
}

/// Behind a `#` on a line without an end, the search finds the first `RAM`.
proof fn lemma_last_hash_line(line: Seq<u8>)
    requires
        forall|i: int| 0 <= i < line.len() ==> #[trigger] line[i] != '\n' as u8,
    ensures
        text::ram_index(line, Mode::Hash, false, false) == laws::word_index(line),
    decreases line.len(),
{
    if line.len() > 0 {
        let rest = line.skip(1);
        assert forall|i: int| 0 <= i < rest.len() implies #[trigger] rest[i] != '\n' as u8 by {
            assert(rest[i] == line[i + 1]);
        }
        assert(line[0] != '\n' as u8);
        lemma_last_hash_line(rest);
        laws::lemma_unfold(line, Mode::Hash, false, false, 1, Mode::Hash);
    }
}

/// Behind a `#` on the last line of a script, `RAM` is found, and no comment opens.
pub proof fn law_last_hash_line_hides_nothing(pre: Seq<u8>, line: Seq<u8>)
    requires
        is_quiet(pre),
        forall|i: int| 0 <= i < line.len() ==> #[trigger] line[i] != '\n' as u8,
    ensures
        ({
            let found = text::first_ram(pre + (seq!['#' as u8] + line));
            &&& forall|p: int| #[trigger]
                has_first_ram(line, p) ==> found == Some(pre.len() + 1 + p)
            &&& (forall|p: int| !#[trigger] has_ram(line, p)) ==> found is None
        }),
{
    let rest = seq!['#' as u8] + line;
    assert(rest[0] == '#' as u8);
    assert(rest.skip(1) =~= line);
    lemma_quiet(pre, text::has_close(rest), text::has_quote(rest));
    laws::lemma_ram_split(pre, rest, Mode::Plain, false, false);
    laws::lemma_step(rest, Mode::Plain, false, false);
    laws::lemma_unfold(rest, Mode::Plain, false, false, 1, Mode::Hash);
    lemma_last_hash_line(line);
    law_word_index_by_bytes(line);
    lemma_first_is_one(line);
}

} // verus!
