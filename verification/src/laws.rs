//! Laws on linker scripts: what comments, lines and replaced regions mean for the search. The modules
//! below hold the laws on what each operation gives for its inputs, by their bytes and fields.
use vstd::prelude::*;
use vstd::string::*;
use vstd::utf8::*;

use crate::number;
use crate::parser;
use crate::parser::Region;
use crate::script;
use crate::text;
use crate::text::Mode;

pub mod comments;
pub mod layout;
pub mod link;
pub mod names;
pub mod reading;
pub mod scripts;

verus! {

/// Nothing that is read in one lies across the end of `x` in `x + y`.
spec fn parts(x: Seq<u8>, y: Seq<u8>) -> bool {
    x.len() > 0 && y.len() > 0 ==> {
        ||| y[0] != '/' as u8 && y[0] != '*' as u8 && y[0] != 'A' as u8 && y[0] != 'M' as u8
        ||| !text::is_name_byte(x.last()) && !(x.last() == '/' as u8 && y[0] == '*' as u8)
    }
}

/// A text starts with another if they agree byte by byte.
proof fn lemma_prefix(p: Seq<u8>, b: Seq<u8>)
    ensures
        p.is_prefix_of(b) <==> p.len() <= b.len() && forall|i: int|
            0 <= i < p.len() ==> #[trigger] p[i] == b[i],
{
    if p.is_prefix_of(b) {
        assert forall|i: int| 0 <= i < p.len() implies #[trigger] p[i] == b[i] by {
            assert(b.subrange(0, p.len() as int)[i] == b[i]);
        }
    } else if p.len() <= b.len() && forall|i: int| 0 <= i < p.len() ==> #[trigger] p[i] == b[i] {
        assert(p =~= b.subrange(0, p.len() as int));
    }
}

/// The bytes of the tokens that the search for `RAM` looks at.
proof fn lemma_token_bytes()
    ensures
        text::ram().len() == 3,
        text::ram()[0] == 'R' as u8,
        text::ram()[1] == 'A' as u8,
        text::ram()[2] == 'M' as u8,
        text::comment_open().len() == 2,
        text::comment_open()[0] == '/' as u8,
        text::comment_open()[1] == '*' as u8,
        text::comment_close().len() == 2,
        text::comment_close()[0] == '*' as u8,
        text::comment_close()[1] == '/' as u8,
{
}

/// The marks of two texts are those of both.
proof fn lemma_marks(x: Seq<u8>, y: Seq<u8>)
    requires
        parts(x, y),
    ensures
        text::has_close(x + y) == (text::has_close(x) || text::has_close(y)),
        text::has_quote(x + y) == (text::has_quote(x) || text::has_quote(y)),
{
    let b = x + y;
    let n = x.len();
    if text::has_close(b) {
        let i = choose|i: int|
            0 <= i < b.len() - 1 && #[trigger] b[i] == '*' as u8 && b[i + 1] == '/' as u8;
        if i + 1 < n {
            assert(x[i] == '*' as u8 && x[i + 1] == '/' as u8);
        } else if i >= n {
            assert(y[i - n] == '*' as u8 && y[i - n + 1] == '/' as u8);
        } else {
            assert(x.last() == '*' as u8 && y[0] == '/' as u8);
        }
    }
    if text::has_close(x) {
        let i = choose|i: int|
            0 <= i < x.len() - 1 && #[trigger] x[i] == '*' as u8 && x[i + 1] == '/' as u8;
        assert(b[i] == '*' as u8 && b[i + 1] == '/' as u8);
    }
    if text::has_close(y) {
        let i = choose|i: int|
            0 <= i < y.len() - 1 && #[trigger] y[i] == '*' as u8 && y[i + 1] == '/' as u8;
        assert(b[n + i] == '*' as u8 && b[n + i + 1] == '/' as u8);
    }
    lemma_quotes(x, y);
}

/// The quotes of two texts are those of both.
proof fn lemma_quotes(x: Seq<u8>, y: Seq<u8>)
    ensures
        text::has_quote(x + y) == (text::has_quote(x) || text::has_quote(y)),
{
    let b = x + y;
    let n = x.len();
    if text::has_quote(b) {
        let i = choose|i: int| 0 <= i < b.len() && #[trigger] b[i] == '"' as u8;
        if i < n {
            assert(x[i] == '"' as u8);
        } else {
            assert(y[i - n] == '"' as u8);
        }
    }
    if text::has_quote(x) {
        let i = choose|i: int| 0 <= i < x.len() && #[trigger] x[i] == '"' as u8;
        assert(b[i] == '"' as u8);
    }
    if text::has_quote(y) {
        let i = choose|i: int| 0 <= i < y.len() && #[trigger] y[i] == '"' as u8;
        assert(b[n + i] == '"' as u8);
    }
}

/// What is read in one at the start of a text, by the bytes of the text.
proof fn lemma_step(b: Seq<u8>, mode: Mode, close: bool, quote: bool)
    requires
        b.len() > 0,
    ensures
        text::comment_open().is_prefix_of(b) == (b.len() >= 2 && b[0] == '/' as u8 && b[1]
            == '*' as u8),
        text::comment_close().is_prefix_of(b) == (b.len() >= 2 && b[0] == '*' as u8 && b[1]
            == '/' as u8),
        text::ram().is_prefix_of(b) == (b.len() >= 3 && b[0] == 'R' as u8 && b[1] == 'A' as u8
            && b[2] == 'M' as u8),
        1 <= text::step(b, mode, close, quote).0 <= 2,
        text::step(b, mode, close, quote).0 <= b.len(),
{
    lemma_token_bytes();
    lemma_prefix(text::comment_open(), b);
    lemma_prefix(text::comment_close(), b);
    lemma_prefix(text::ram(), b);
}

/// What is read in one at the start of two texts lies in the first.
proof fn lemma_step_split(x: Seq<u8>, y: Seq<u8>, mode: Mode, close: bool, quote: bool)
    requires
        x.len() > 0,
        parts(x, y),
    ensures
        text::step(x + y, mode, close, quote) == text::step(
            x,
            mode,
            text::has_close(y) || close,
            text::has_quote(y) || quote,
        ),
        text::ram().is_prefix_of(x + y) == text::ram().is_prefix_of(x),
        (x + y).skip(text::step(x + y, mode, close, quote).0) == x.skip(
            text::step(x + y, mode, close, quote).0,
        ) + y,
        parts(x.skip(text::step(x + y, mode, close, quote).0), y),
        1 <= text::step(x + y, mode, close, quote).0 <= x.len(),
{
    let b = x + y;
    let c = text::has_close(y) || close;
    let q = text::has_quote(y) || quote;
    lemma_step(b, mode, close, quote);
    lemma_step(x, mode, c, q);
    assert(b[0] == x[0]);
    if x.len() == 1 {
        assert(y.len() > 0 ==> b[1] == y[0]);
    } else {
        assert(b[1] == x[1]);
        assert(b.skip(2) =~= x.skip(2) + y);
        lemma_marks(x.skip(2), y);
        if x.len() == 2 {
            assert(y.len() > 0 ==> b[2] == y[0]);
        } else {
            assert(b[2] == x[2]);
        }
    }
    assert(b.skip(1) =~= x.skip(1) + y);
    lemma_quotes(x.skip(1), y);
}

/// The search in a text, by what is read in one at its start.
proof fn lemma_unfold(b: Seq<u8>, mode: Mode, close: bool, quote: bool, n: int, next: Mode)
    requires
        b.len() > 0,
        text::step(b, mode, close, quote) == (n, next),
    ensures
        text::ram_index(b, mode, close, quote) == if !(mode is Comment)
            && text::ram().is_prefix_of(b) {
            Some(0int)
        } else {
            text::shifted(text::ram_index(b.skip(n), next, close, quote), n)
        },
        text::mode_after(b, mode, close, quote) == text::mode_after(b.skip(n), next, close, quote),
{
}

/// What follows two texts is read as what follows the second behind the first.
proof fn lemma_mode_split(x: Seq<u8>, y: Seq<u8>, mode: Mode, close: bool, quote: bool)
    requires
        parts(x, y),
    ensures
        text::mode_after(x + y, mode, close, quote) == text::mode_after(
            y,
            text::mode_after(
                x,
                mode,
                text::has_close(y) || close,
                text::has_quote(y) || quote,
            ),
            close,
            quote,
        ),
    decreases x.len(),
{
    let c = text::has_close(y) || close;
    let q = text::has_quote(y) || quote;
    if x.len() == 0 {
        assert(x + y =~= y);
    } else {
        let (n, next) = text::step(x, mode, c, q);
        lemma_step_split(x, y, mode, close, quote);
        lemma_unfold(x, mode, c, q, n, next);
        lemma_unfold(x + y, mode, close, quote, n, next);
        lemma_mode_split(x.skip(n), y, next, close, quote);
    }
}

/// An index behind two texts, seen from their start.
proof fn lemma_later(here: bool, n: int, len: int, first: Option<int>, second: Option<int>)
    ensures
        ({
            let rest = match first {
                Some(i) => Some(i),
                None => text::shifted(second, len - n),
            };
            let all = if here {
                Some(0int)
            } else {
                text::shifted(rest, n)
            };
            let front = if here {
                Some(0int)
            } else {
                text::shifted(first, n)
            };
            all == match front {
                Some(i) => Some(i),
                None => text::shifted(second, len),
            }
        }),
{
}

/// The search in two texts is the search in the first, and then that in the second.
proof fn lemma_ram_split(x: Seq<u8>, y: Seq<u8>, mode: Mode, close: bool, quote: bool)
    requires
        parts(x, y),
    ensures
        ({
            let c = text::has_close(y) || close;
            let q = text::has_quote(y) || quote;
            text::ram_index(x + y, mode, close, quote) == match text::ram_index(x, mode, c, q) {
                Some(i) => Some(i),
                None => text::shifted(
                    text::ram_index(y, text::mode_after(x, mode, c, q), close, quote),
                    x.len() as int,
                ),
            }
        }),
    decreases x.len(),
{
    let c = text::has_close(y) || close;
    let q = text::has_quote(y) || quote;
    if x.len() == 0 {
        assert(x + y =~= y);
    } else {
        let (n, next) = text::step(x, mode, c, q);
        let rest = x.skip(n);
        lemma_step_split(x, y, mode, close, quote);
        lemma_unfold(x, mode, c, q, n, next);
        lemma_unfold(x + y, mode, close, quote, n, next);
        lemma_ram_split(rest, y, next, close, quote);
        let after = text::mode_after(rest, next, c, q);
        lemma_later(
            !(mode is Comment) && text::ram().is_prefix_of(x),
            n,
            x.len() as int,
            text::ram_index(rest, next, c, q),
            text::ram_index(y, after, close, quote),
        );
    }
}

/// The search in two texts, and how what follows them is read.
proof fn lemma_split(x: Seq<u8>, y: Seq<u8>, mode: Mode, close: bool, quote: bool)
    requires
        parts(x, y),
    ensures
        ({
            let c = text::has_close(y) || close;
            let q = text::has_quote(y) || quote;
            let after = text::mode_after(x, mode, c, q);
            &&& text::ram_index(x + y, mode, close, quote) == match text::ram_index(x, mode, c, q) {
                Some(i) => Some(i),
                None => text::shifted(text::ram_index(y, after, close, quote), x.len() as int),
            }
            &&& text::mode_after(x + y, mode, close, quote) == text::mode_after(
                y,
                after,
                close,
                quote,
            )
        }),
{
    lemma_mode_split(x, y, mode, close, quote);
    lemma_ram_split(x, y, mode, close, quote);
}

/// What follows a `RAM` that is found does not matter.
proof fn lemma_found_before(x: Seq<u8>, y: Seq<u8>, mode: Mode, close: bool, quote: bool)
    requires
        text::has_close(y) || close,
        text::ram_index(x, mode, true, text::has_quote(y) || quote) is Some,
    ensures
        text::ram_index(x + y, mode, close, quote) == text::ram_index(
            x,
            mode,
            true,
            text::has_quote(y) || quote,
        ),
    decreases x.len(),
{
    let b = x + y;
    let q = text::has_quote(y) || quote;
    text::lemma_ram_index(x, mode, true, q);
    lemma_step(b, mode, close, quote);
    lemma_step(x, mode, true, q);
    assert(b[0] == x[0] && b[1] == x[1] && b[2] == x[2]);
    assert(b.skip(1) =~= x.skip(1) + y);
    assert(b.skip(2) =~= x.skip(2) + y);
    lemma_quotes(x.skip(1), y);
    assert(text::has_close(b.skip(2)) || close) by {
        if text::has_close(y) {
            let i = choose|i: int|
                0 <= i < y.len() - 1 && #[trigger] y[i] == '*' as u8 && y[i + 1] == '/' as u8;
            let j = x.len() - 2 + i;
            assert(b.skip(2)[j] == '*' as u8 && b.skip(2)[j + 1] == '/' as u8);
        }
    }
    let (n, next) = text::step(x, mode, true, q);
    assert(text::step(b, mode, close, quote) == (n, next));
    if !(!(mode is Comment) && text::ram().is_prefix_of(x)) {
        lemma_found_before(x.skip(n), y, next, close, quote);
    }
}

/// A comment without an end inside `inner` ends where it is closed.
proof fn lemma_comment_ends(inner: Seq<u8>, post: Seq<u8>)
    requires
        forall|i: int|
            0 <= i < inner.len() - 1 ==> !(#[trigger] inner[i] == '*' as u8 && inner[i + 1]
                == '/' as u8),
    ensures
        text::ram_index(
            inner + text::comment_close() + post,
            Mode::Comment,
            false,
            false,
        ) == text::shifted(text::first_ram(post), inner.len() as int + 2),
    decreases inner.len(),
{
    lemma_token_bytes();
    let b = inner + text::comment_close() + post;
    lemma_step(b, Mode::Comment, false, false);
    if inner.len() == 0 {
        assert(b[0] == '*' as u8 && b[1] == '/' as u8);
        assert(b.skip(2) =~= post);
    } else {
        let rest = inner.skip(1);
        assert forall|i: int| 0 <= i < rest.len() - 1 implies !(#[trigger] rest[i] == '*' as u8
            && rest[i + 1] == '/' as u8) by {
            assert(inner[i + 1] == rest[i]);
        }
        assert(b[0] == inner[0]);
        if inner.len() > 1 {
            assert(b[1] == inner[1]);
        } else {
            assert(b[1] == '*' as u8);
        }
        assert(b.skip(1) =~= rest + text::comment_close() + post);
        lemma_comment_ends(rest, post);
    }
}

/// A comment is passed over. It holds a `*/`, and the quotes of what is in it and behind it.
proof fn lemma_comment(inner: Seq<u8>, post: Seq<u8>)
    requires
        forall|i: int|
            0 <= i < inner.len() - 1 ==> !(#[trigger] inner[i] == '*' as u8 && inner[i + 1]
                == '/' as u8),
    ensures
        ({
            let comment = text::comment_open() + (inner + text::comment_close() + post);
            &&& comment.len() > 0
            &&& comment[0] == '/' as u8
            &&& text::has_close(comment)
            &&& text::has_quote(comment) == text::has_quote(inner + post)
            &&& text::first_ram(comment) == text::shifted(
                text::first_ram(post),
                (inner.len() + 4) as int,
            )
        }),
{
    lemma_token_bytes();
    let body = inner + text::comment_close() + post;
    let comment = text::comment_open() + body;
    let n = inner.len() as int;
    assert(body[n] == '*' as u8 && body[n + 1] == '/' as u8);
    assert(comment[n + 2] == '*' as u8 && comment[n + 3] == '/' as u8);
    assert(text::has_close(comment) && text::has_close(body));
    assert(text::has_quote(comment) == text::has_quote(inner + post)) by {
        lemma_quotes(inner, post);
        lemma_quotes(text::comment_open(), body);
        lemma_quotes(inner + text::comment_close(), post);
        lemma_quotes(inner, text::comment_close());
    }
    assert(comment[0] == '/' as u8 && comment[1] == '*' as u8);
    assert(comment.skip(2) =~= body);
    lemma_step(comment, Mode::Plain, false, false);
    lemma_unfold(comment, Mode::Plain, false, false, 2, Mode::Comment);
    lemma_comment_ends(inner, post);
}

/// What a comment holds does not matter: the search finds what stands before the comment, or else
/// what it finds in the rest of the script. So a region that stands in a comment is not found. The
/// text before the comment is one behind which a comment may open: it is read as plain text there,
/// and does not end in a name.
pub proof fn law_comment_is_skipped(pre: Seq<u8>, inner: Seq<u8>, post: Seq<u8>)
    requires
        forall|i: int|
            0 <= i < inner.len() - 1 ==> !(#[trigger] inner[i] == '*' as u8 && inner[i + 1]
                == '/' as u8),
        text::ram_index(pre, Mode::Plain, true, text::has_quote(inner + post)) is None ==> {
            &&& text::mode_after(pre, Mode::Plain, true, text::has_quote(inner + post)) is Plain
            &&& pre.len() > 0 ==> !text::is_name_byte(pre.last())
        },
    ensures
        text::first_ram(
            pre + (text::comment_open() + (inner + text::comment_close() + post)),
        ) == match text::ram_index(
            pre,
            Mode::Plain,
            true,
            text::has_quote(inner + post),
        ) {
            Some(i) => Some(i),
            None => text::shifted(
                text::first_ram(post),
                (pre.len() + inner.len() + 4) as int,
            ),
        },
{
    let comment = text::comment_open() + (inner + text::comment_close() + post);
    let q = text::has_quote(inner + post);
    lemma_comment(inner, post);
    if text::ram_index(pre, Mode::Plain, true, q) is Some {
        lemma_found_before(pre, comment, Mode::Plain, false, false);
    } else {
        lemma_ram_split(pre, comment, Mode::Plain, false, false);
    }
}

/// `RAM` stands in `b` at index `i`.
pub open spec fn ram_at(b: Seq<u8>, i: int) -> bool {
    0 <= i <= b.len() - 3 && b.subrange(i, i + 3) == text::ram()
}

/// The index of the first `RAM` in `b`, be it part of a comment or not.
pub open spec fn word_index(b: Seq<u8>) -> Option<int>
    decreases b.len(),
{
    if b.len() == 0 {
        None
    } else if text::ram().is_prefix_of(b) {
        Some(0)
    } else {
        text::shifted(word_index(b.skip(1)), 1)
    }
}

/// The first `RAM` is there, and none stands before it.
pub proof fn law_word_index(b: Seq<u8>)
    ensures
        match word_index(b) {
            Some(i) => ram_at(b, i) && forall|j: int| j < i ==> !#[trigger] ram_at(b, j),
            None => forall|j: int| !#[trigger] ram_at(b, j),
        },
    decreases b.len(),
{
    lemma_token_bytes();
    if b.len() > 0 {
        if text::ram().is_prefix_of(b) {
            assert(b.subrange(0, 3) =~= text::ram());
        } else {
            let rest = b.skip(1);
            law_word_index(rest);
            assert(!ram_at(b, 0));
            assert forall|j: int| j > 0 implies #[trigger] ram_at(b, j) == ram_at(rest, j - 1) by {
                if j <= b.len() - 3 {
                    assert(b.subrange(j, j + 3) =~= rest.subrange(j - 1, j - 1 + 3));
                }
            }
        }
    }
}

/// A `/*` at index `i` of `b` opens no comment: it stands right behind a byte of a name, or no `*/`
/// follows it.
pub open spec fn opens_nothing(b: Seq<u8>, i: int) -> bool {
    (i > 0 && text::is_name_byte(b[i - 1])) || !text::has_close(b.skip(i + 2))
}

/// The search that meets no comment finds the first `RAM`.
proof fn lemma_without_comments(b: Seq<u8>, mode: Mode)
    requires
        !(mode is Comment),
        forall|i: int|
            0 <= i < b.len() - 1 && #[trigger] b[i] == '/' as u8 && b[i + 1] == '*' as u8
                ==> opens_nothing(b, i) || (i == 0 && !(mode is Plain)),
    ensures
        text::ram_index(b, mode, false, false) == word_index(b),
    decreases b.len(),
{
    if b.len() > 0 {
        lemma_step(b, mode, false, false);
        let (n, next) = text::step(b, mode, false, false);
        if !text::ram().is_prefix_of(b) {
            assert(!(next is Comment)) by {
                if next is Comment {
                    assert(b[0] == '/' as u8 && b[1] == '*' as u8);
                }
            }
            let rest = b.skip(n);
            assert forall|i: int|
                0 <= i < rest.len() - 1 && #[trigger] rest[i] == '/' as u8 && rest[i + 1]
                    == '*' as u8 implies opens_nothing(rest, i) || (i == 0 && !(next is Plain)) by {
                assert(b[i + n] == rest[i] && b[i + n + 1] == rest[i + 1]);
                assert(b.skip(i + n + 2) =~= rest.skip(i + 2));
                if i == 0 {
                    assert(b[n - 1] == b[i + n - 1]);
                } else {
                    assert(rest[i - 1] == b[i + n - 1]);
                }
            }
            lemma_without_comments(rest, next);
            if n == 2 {
                let one = b.skip(1);
                lemma_step(one, Mode::Plain, false, false);
                assert(one[0] == b[1]);
                assert(one.skip(1) =~= rest);
                assert(word_index(one) == text::shifted(word_index(rest), 1));
            }
        }
    }
}

/// A script in which no `/*` is closed, but for those in file patterns, holds its region at its
/// first `RAM`.
pub proof fn law_ram_without_comments(b: Seq<u8>)
    requires
        forall|i: int|
            0 <= i < b.len() - 1 && #[trigger] b[i] == '/' as u8 && b[i + 1] == '*' as u8
                ==> opens_nothing(b, i),
    ensures
        text::first_ram(b) == word_index(b),
{
    lemma_without_comments(b, Mode::Plain);
}

/// The search behind `#` or a `"` finds the first `RAM` there, or goes on behind what ends it.
proof fn lemma_run(run: Seq<u8>, end: u8, post: Seq<u8>, mode: Mode)
    requires
        mode is Hash && end == '\n' as u8 || mode is Quote && end == '"' as u8,
        forall|i: int| 0 <= i < run.len() ==> #[trigger] run[i] != end,
    ensures
        text::ram_index(run + (seq![end] + post), mode, false, false) == match word_index(run) {
            Some(i) => Some(i),
            None => text::shifted(text::first_ram(post), run.len() as int + 1),
        },
    decreases run.len(),
{
    let b = run + (seq![end] + post);
    lemma_step(b, mode, false, false);
    if run.len() == 0 {
        assert(b[0] == end);
        assert(b.skip(1) =~= post);
    } else {
        let rest = run.skip(1);
        lemma_step(run, mode, false, false);
        assert(b[0] == run[0]);
        if run.len() == 1 {
            assert(b[1] == end);
        } else {
            assert(b[1] == run[1]);
            if run.len() == 2 {
                assert(b[2] == end);
            } else {
                assert(b[2] == run[2]);
            }
        }
        assert(text::ram().is_prefix_of(b) == text::ram().is_prefix_of(run));
        assert(b.skip(1) =~= rest + (seq![end] + post));
        assert forall|i: int| 0 <= i < rest.len() implies #[trigger] rest[i] != end by {
            assert(rest[i] == run[i + 1]);
        }
        lemma_run(rest, end, post, mode);
    }
}

/// No comment opens behind a `#` on its line: behind plain text without a region of its own, the
/// first `RAM` of such a line is found, and behind the line the search goes on.
pub proof fn law_hash_line_opens_no_comment(pre: Seq<u8>, line: Seq<u8>, post: Seq<u8>)
    requires
        forall|i: int| 0 <= i < line.len() ==> #[trigger] line[i] != '\n' as u8,
        ({
            let rest = seq!['#' as u8] + (line + (seq!['\n' as u8] + post));
            let close = text::has_close(rest);
            let quote = text::has_quote(rest);
            &&& text::ram_index(pre, Mode::Plain, close, quote) is None
            &&& text::mode_after(pre, Mode::Plain, close, quote) is Plain
        }),
    ensures
        text::first_ram(
            pre + (seq!['#' as u8] + (line + (seq!['\n' as u8] + post))),
        ) == match word_index(line) {
            Some(i) => Some(pre.len() + 1 + i),
            None => text::shifted(text::first_ram(post), (pre.len() + line.len() + 2) as int),
        },
{
    let body = line + (seq!['\n' as u8] + post);
    let rest = seq!['#' as u8] + body;
    assert(rest[0] == '#' as u8);
    lemma_split(pre, rest, Mode::Plain, false, false);
    lemma_step(rest, Mode::Plain, false, false);
    assert(rest.skip(1) =~= body);
    lemma_run(line, '\n' as u8, post, Mode::Hash);
}

/// No comment opens between the quotes of a name: behind plain text without a region of its own, the
/// first `RAM` of such a name is found, and behind the name the search goes on.
pub proof fn law_quoted_name_opens_no_comment(pre: Seq<u8>, name: Seq<u8>, post: Seq<u8>)
    requires
        forall|i: int| 0 <= i < name.len() ==> #[trigger] name[i] != '"' as u8,
        ({
            let rest = seq!['"' as u8] + (name + (seq!['"' as u8] + post));
            let close = text::has_close(rest);
            &&& text::ram_index(pre, Mode::Plain, close, true) is None
            &&& text::mode_after(pre, Mode::Plain, close, true) is Plain
        }),
    ensures
        text::first_ram(
            pre + (seq!['"' as u8] + (name + (seq!['"' as u8] + post))),
        ) == match word_index(name) {
            Some(i) => Some(pre.len() + 1 + i),
            None => text::shifted(text::first_ram(post), (pre.len() + name.len() + 2) as int),
        },
{
    let body = name + (seq!['"' as u8] + post);
    let rest = seq!['"' as u8] + body;
    assert(rest[0] == '"' as u8);
    assert(body[name.len() as int] == '"' as u8);
    assert(text::has_quote(rest) && text::has_quote(body));
    lemma_split(pre, rest, Mode::Plain, false, false);
    lemma_step(rest, Mode::Plain, false, false);
    assert(rest.skip(1) =~= body);
    lemma_run(name, '"' as u8, post, Mode::Quote);
}

/// Each byte counts for itself.
proof fn lemma_newlines_add(x: Seq<u8>, y: Seq<u8>)
    ensures
        text::newlines(x + y) == text::newlines(x) + text::newlines(y),
    decreases y.len(),
{
    if y.len() == 0 {
        assert(x + y =~= x);
    } else {
        lemma_newlines_add(x, y.drop_last());
        assert((x + y).drop_last() =~= x + y.drop_last());
    }
}

/// A text without a newline ends no line.
proof fn lemma_no_newlines(x: Seq<u8>)
    requires
        forall|i: int| 0 <= i < x.len() ==> #[trigger] x[i] != '\n' as u8,
    ensures
        text::newlines(x) == 0,
    decreases x.len(),
{
    if x.len() > 0 {
        lemma_no_newlines(x.drop_last());
    }
}

/// The first line of a text ends one line.
proof fn lemma_first_line(b: Seq<u8>)
    ensures
        text::index_of(b, '\n' as u8) matches Some(i) ==> text::newlines(b.take(i + 1)) == 1
            && text::newlines(b.take(i)) == 0 && 0 <= i < b.len() && b[i] == '\n' as u8,
        text::index_of(b, '\n' as u8) is None ==> text::newlines(b) == 0,
{
    text::lemma_index_of(b, '\n' as u8);
    match text::index_of(b, '\n' as u8) {
        Some(i) => {
            lemma_no_newlines(b.take(i));
            assert(b.take(i + 1).drop_last() =~= b.take(i));
        },
        None => {
            lemma_no_newlines(b);
        },
    }
}

/// `p` in the middle of a text ends as many lines as the part of it behind the first line, and one.
proof fn lemma_newlines_behind(b: Seq<u8>, i: int, p: int)
    requires
        text::index_of(b, '\n' as u8) == Some(i),
        i < p <= b.len(),
    ensures
        0 <= i < b.len(),
        text::newlines(b.take(p)) == 1 + text::newlines(b.skip(i + 1).take(p - (i + 1))),
{
    lemma_first_line(b);
    lemma_newlines_add(b.take(i + 1), b.skip(i + 1).take(p - (i + 1)));
    assert(b.take(p) =~= b.take(i + 1) + b.skip(i + 1).take(p - (i + 1)));
}

/// Two texts of which the second starts where the first ends are one.
proof fn lemma_join(a: Seq<u8>, b: Seq<u8>, c: Seq<u8>)
    ensures
        (a + b) + c == a + (b + c),
{
    assert((a + b) + c =~= a + (b + c));
}

/// A `RAM` in a text is one in the line that it is on.
proof fn lemma_line_of_ram(b: Seq<u8>, p: int)
    requires
        ram_at(b, p),
    ensures
        text::newlines(b.take(p)) < text::lines(b).len(),
        exists|column: int| #[trigger]
            ram_at(text::lines(b)[text::newlines(b.take(p)) as int], column),
    decreases b.len(),
{
    lemma_token_bytes();
    lemma_first_line(b);
    text::lemma_index_of(b, '\n' as u8);
    assert(b.subrange(p, p + 3)[0] == b[p]);
    assert(b.subrange(p, p + 3)[1] == b[p + 1]);
    assert(b.subrange(p, p + 3)[2] == b[p + 2]);
    match text::index_of(b, '\n' as u8) {
        Some(i) => {
            let rest = b.skip(i + 1);
            if p <= i {
                lemma_no_newlines(b.take(p));
                let line = text::chomp(b.take(i));
                assert(text::lines(b)[0] == line);
                assert(p + 3 <= line.len());
                assert(line.subrange(p, p + 3) =~= b.subrange(p, p + 3));
                assert(ram_at(line, p));
            } else {
                let q = p - (i + 1);
                lemma_newlines_behind(b, i, p);
                assert(rest.subrange(q, q + 3) =~= b.subrange(p, p + 3));
                lemma_line_of_ram(rest, q);
                let k = text::newlines(rest.take(q)) as int;
                assert(text::lines(b)[k + 1] == text::lines(rest)[k]);
            }
        },
        None => {
            lemma_no_newlines(b.take(p));
            assert(text::lines(b)[0] == b);
        },
    }
}

/// The line that the search for `RAM` reports exists, and holds `RAM`.
pub proof fn law_ram_line_holds_ram(b: Seq<u8>)
    ensures
        text::first_ram(b) matches Some(p) ==> {
            let line = text::newlines(b.take(p)) as int;
            &&& line < text::lines(b).len()
            &&& exists|column: int| #[trigger] ram_at(text::lines(b)[line], column)
        },
{
    text::lemma_ram_index(b, Mode::Plain, false, false);
    if let Some(p) = text::first_ram(b) {
        lemma_line_of_ram(b, p);
    }
}

/// The first `RAM` of a text is on the first of its lines that holds one. So the line that is
/// reported of a script without comments is that line.
pub proof fn law_first_line_with_ram(b: Seq<u8>)
    ensures
        match word_index(b) {
            Some(p) => {
                let line = text::newlines(b.take(p)) as int;
                &&& line < text::lines(b).len()
                &&& exists|column: int| #[trigger] ram_at(text::lines(b)[line], column)
                &&& forall|k: int, column: int|
                    0 <= k < line ==> !#[trigger] ram_at(text::lines(b)[k], column)
            },
            None => forall|k: int, column: int|
                0 <= k < text::lines(b).len() ==> !#[trigger] ram_at(text::lines(b)[k], column),
        },
{
    law_word_index(b);
    if let Some(p) = word_index(b) {
        lemma_line_of_ram(b, p);
    }
    assert forall|k: int, column: int|
        0 <= k < text::lines(b).len() && #[trigger] ram_at(
            text::lines(b)[k],
            column,
        ) implies word_index(b) matches Some(p) && text::newlines(b.take(p)) <= k by {
        let q = lemma_ram_of_line(b, k, column);
        let p = word_index(b)->0;
        assert(p <= q);
        lemma_newlines_add(b.take(p), b.subrange(p, q));
        assert(b.take(q) =~= b.take(p) + b.subrange(p, q));
    }
}

/// A `RAM` in a line of a text is one in the text, on that line.
proof fn lemma_ram_of_line(b: Seq<u8>, k: int, column: int) -> (p: int)
    requires
        0 <= k < text::lines(b).len(),
        ram_at(text::lines(b)[k], column),
    ensures
        ram_at(b, p),
        text::newlines(b.take(p)) == k,
    decreases b.len(),
{
    lemma_first_line(b);
    text::lemma_index_of(b, '\n' as u8);
    match text::index_of(b, '\n' as u8) {
        Some(i) => {
            let rest = b.skip(i + 1);
            if k == 0 {
                let line = text::chomp(b.take(i));
                assert(text::lines(b)[0] == line);
                assert(line.subrange(column, column + 3) =~= b.subrange(column, column + 3));
                lemma_no_newlines(b.take(column));
                column
            } else {
                assert(text::lines(b)[k] == text::lines(rest)[k - 1]);
                let q = lemma_ram_of_line(rest, k - 1, column);
                let p = i + 1 + q;
                lemma_newlines_behind(b, i, p);
                assert(rest.subrange(q, q + 3) =~= b.subrange(p, p + 3));
                p
            }
        },
        None => {
            assert(text::lines(b)[0] == b);
            lemma_no_newlines(b.take(column));
            column
        },
    }
}

/// Where the line starts that index `p` of `b` is on.
pub open spec fn line_start(b: Seq<u8>, p: int) -> int
    decreases p,
{
    if p <= 0 || b[p - 1] == '\n' as u8 {
        p
    } else {
        line_start(b, p - 1)
    }
}

/// A line starts behind a newline, or with the text, and holds no newline up to a place on it.
proof fn lemma_line_start(b: Seq<u8>, p: int)
    requires
        0 <= p <= b.len(),
    ensures
        0 <= line_start(b, p) <= p,
        line_start(b, p) > 0 ==> b[line_start(b, p) - 1] == '\n' as u8,
        text::newlines(b.take(p)) == text::newlines(b.take(line_start(b, p))),
    decreases p,
{
    if p > 0 && b[p - 1] != '\n' as u8 {
        lemma_line_start(b, p - 1);
        assert(b.take(p).drop_last() =~= b.take(p - 1));
        assert(b.take(p).last() == b[p - 1]);
    }
}

/// A text that ends with a line has that line's newline at the end of another text, too.
proof fn lemma_index_of_add(x: Seq<u8>, y: Seq<u8>)
    requires
        x.len() > 0,
        x.last() == '\n' as u8,
    ensures
        text::index_of(x, '\n' as u8) is Some,
        text::index_of(x + y, '\n' as u8) == text::index_of(x, '\n' as u8),
{
    text::lemma_index_of(x, '\n' as u8);
    text::lemma_index_of(x + y, '\n' as u8);
    assert(x[x.len() - 1] == '\n' as u8);
    let i = text::index_of(x, '\n' as u8)->0;
    assert((x + y)[i] == x[i]);
    let j = text::index_of(x + y, '\n' as u8)->0;
    assert(j <= i);
    assert(x[j] == (x + y)[j]);
}

/// The lines of whole lines before a text are lines of their own.
proof fn lemma_lines_add(x: Seq<u8>, y: Seq<u8>)
    requires
        x.len() > 0 ==> x.last() == '\n' as u8,
    ensures
        text::lines(x + y) == text::lines(x) + text::lines(y),
        text::lines(x).len() == text::newlines(x),
    decreases x.len(),
{
    let b = x + y;
    if x.len() == 0 {
        assert(b =~= y);
        assert(text::lines(x) =~= Seq::<Seq<u8>>::empty());
        assert(text::lines(x) + text::lines(y) =~= text::lines(y));
    } else {
        lemma_index_of_add(x, y);
        text::lemma_index_of(x, '\n' as u8);
        lemma_first_line(x);
        let i = text::index_of(x, '\n' as u8)->0;
        let rest = x.skip(i + 1);
        lemma_lines_add(rest, y);
        assert(b.take(i) =~= x.take(i));
        assert(b.skip(i + 1) =~= rest + y);
        assert(x =~= x.take(i + 1) + rest);
        lemma_newlines_add(x.take(i + 1), rest);
        let first = seq![text::chomp(x.take(i))];
        assert(first + (text::lines(rest) + text::lines(y)) =~= (first + text::lines(rest))
            + text::lines(y));
    }
}

/// A line more at the start is that line, ended, before the text.
proof fn lemma_terminated_first(line: Seq<u8>, lines: Seq<Seq<u8>>)
    ensures
        text::terminated(seq![line] + lines) == line.push('\n' as u8) + text::terminated(lines),
{
    assert((seq![line] + lines).skip(1) =~= lines);
    assert(line + seq!['\n' as u8] =~= line.push('\n' as u8));
}

/// The texts of lines stand one behind the other.
proof fn lemma_terminated_add(a: Seq<Seq<u8>>, c: Seq<Seq<u8>>)
    ensures
        text::terminated(a + c) == text::terminated(a) + text::terminated(c),
    decreases a.len(),
{
    if a.len() == 0 {
        assert(a + c =~= c);
        assert(text::terminated(a) + text::terminated(c) =~= text::terminated(c));
    } else {
        let rest = a.skip(1);
        lemma_terminated_add(rest, c);
        assert(a =~= seq![a[0]] + rest);
        assert(a + c =~= seq![a[0]] + (rest + c));
        lemma_terminated_first(a[0], rest);
        lemma_terminated_first(a[0], rest + c);
        lemma_join(a[0].push('\n' as u8), text::terminated(rest), text::terminated(c));
    }
}

/// The text of lines ends as many lines, and ends with the last of them.
proof fn lemma_terminated_newlines(lines: Seq<Seq<u8>>)
    requires
        forall|k: int, i: int|
            0 <= k < lines.len() && 0 <= i < lines[k].len() ==> #[trigger] lines[k][i]
                != '\n' as u8,
    ensures
        text::newlines(text::terminated(lines)) == lines.len(),
        lines.len() > 0 ==> text::terminated(lines).len() > 0 && text::terminated(lines).last()
            == '\n' as u8,
    decreases lines.len(),
{
    if lines.len() > 0 {
        let line = lines[0];
        let rest = lines.skip(1);
        assert forall|k: int, i: int|
            0 <= k < rest.len() && 0 <= i < rest[k].len() implies #[trigger] rest[k][i]
            != '\n' as u8 by {
            assert(rest[k] == lines[k + 1]);
            assert(lines[k + 1][i] != '\n' as u8);
        }
        lemma_terminated_newlines(rest);
        assert(lines =~= seq![line] + rest);
        lemma_terminated_first(line, rest);
        let x = line.push('\n' as u8);
        lemma_newlines_add(x, text::terminated(rest));
        assert forall|i: int| 0 <= i < line.len() implies #[trigger] line[i] != '\n' as u8 by {
            assert(lines[0][i] != '\n' as u8);
        }
        lemma_no_newlines(line);
        assert(x.drop_last() =~= line);
        if rest.len() == 0 {
            assert(x + text::terminated(rest) =~= x);
        }
    }
}

/// The ending of a line does not matter for what follows it.
proof fn lemma_line_end(line: Seq<u8>, mode: Mode, close: bool, quote: bool)
    ensures
        ({
            let own = line.push('\n' as u8);
            let bare = text::chomp(line).push('\n' as u8);
            &&& text::has_close(own) == text::has_close(bare)
            &&& text::has_quote(own) == text::has_quote(bare)
            &&& text::ram_index(own, mode, close, quote) == text::ram_index(
                bare,
                mode,
                close,
                quote,
            )
            &&& text::mode_after(own, mode, close, quote) == text::mode_after(
                bare,
                mode,
                close,
                quote,
            )
        }),
{
    if line.len() > 0 && line.last() == '\r' as u8 {
        let short = line.drop_last();
        let one = seq!['\n' as u8];
        let two = seq!['\r' as u8, '\n' as u8];
        assert(line.push('\n' as u8) =~= short + two);
        assert(short.push('\n' as u8) =~= short + one);
        lemma_marks(short, one);
        lemma_marks(short, two);
        assert(!text::has_close(one) && !text::has_quote(one));
        assert(!text::has_close(two) && !text::has_quote(two)) by {
            assert(two[0] == '\r' as u8 && two[1] == '\n' as u8);
        }
        lemma_split(short, one, mode, close, quote);
        lemma_split(short, two, mode, close, quote);
        let after = text::mode_after(short, mode, close, quote);
        lemma_step(one, after, close, quote);
        lemma_step(two, after, close, quote);
        assert(two.skip(1) =~= one);
        let between = text::step(two, after, close, quote).1;
        assert(between == after);
        assert(text::step(two, after, close, quote).0 == 1);
        assert(one.skip(1) =~= Seq::<u8>::empty());
        assert(text::step(one, after, close, quote).0 == 1);
        let end = text::step(one, after, close, quote).1;
        assert(text::ram_index(one.skip(1), end, close, quote) is None);
        assert(text::mode_after(one.skip(1), end, close, quote) == end);
        assert(text::ram_index(one, after, close, quote) is None);
        assert(text::ram_index(two, after, close, quote) is None);
        assert(text::mode_after(two, after, close, quote) == text::mode_after(
            one,
            after,
            close,
            quote,
        ));
    }
}

/// The marks of a text are those of its lines.
proof fn lemma_terminated_marks(z: Seq<u8>)
    ensures
        text::has_close(text::terminated(text::lines(z))) == text::has_close(z),
        text::has_quote(text::terminated(text::lines(z))) == text::has_quote(z),
    decreases z.len(),
{
    text::lemma_index_of(z, '\n' as u8);
    match text::index_of(z, '\n' as u8) {
        Some(i) => {
            let raw = z.take(i);
            let rest = z.skip(i + 1);
            let own = raw.push('\n' as u8);
            let bare = text::chomp(raw).push('\n' as u8);
            lemma_terminated_marks(rest);
            lemma_terminated_first(text::chomp(raw), text::lines(rest));
            lemma_line_end(raw, Mode::Plain, false, false);
            assert(z =~= own + rest);
            lemma_marks(own, rest);
            lemma_marks(bare, text::terminated(text::lines(rest)));
        },
        None => {
            if z.len() == 0 {
                assert(text::terminated(text::lines(z)) =~= z);
            } else {
                let end = seq!['\n' as u8];
                assert(text::lines(z) =~= seq![z] + Seq::<Seq<u8>>::empty());
                lemma_terminated_first(z, Seq::<Seq<u8>>::empty());
                assert(text::terminated(text::lines(z)) =~= z + end);
                lemma_marks(z, end);
                assert(!text::has_close(end) && !text::has_quote(end));
            }
        },
    }
}

/// Whole lines are read as their lines are.
proof fn lemma_terminated_search(z: Seq<u8>, mode: Mode, close: bool, quote: bool)
    requires
        z.len() > 0 ==> z.last() == '\n' as u8,
    ensures
        text::ram_index(z, mode, close, quote) is None == text::ram_index(
            text::terminated(text::lines(z)),
            mode,
            close,
            quote,
        ) is None,
        text::ram_index(z, mode, close, quote) is None ==> text::mode_after(
            text::terminated(text::lines(z)),
            mode,
            close,
            quote,
        ) == text::mode_after(z, mode, close, quote),
    decreases z.len(),
{
    if z.len() == 0 {
        assert(text::terminated(text::lines(z)) =~= z);
    } else {
        lemma_index_of_add(z, Seq::empty());
        text::lemma_index_of(z, '\n' as u8);
        let i = text::index_of(z, '\n' as u8)->0;
        let raw = z.take(i);
        let rest = z.skip(i + 1);
        let own = raw.push('\n' as u8);
        let bare = text::chomp(raw).push('\n' as u8);
        let lines = text::terminated(text::lines(rest));
        let c = text::has_close(rest) || close;
        let q = text::has_quote(rest) || quote;
        lemma_terminated_marks(rest);
        lemma_terminated_first(text::chomp(raw), text::lines(rest));
        lemma_line_end(raw, mode, c, q);
        assert(z =~= own + rest);
        lemma_split(own, rest, mode, close, quote);
        lemma_split(bare, lines, mode, close, quote);
        lemma_terminated_search(rest, text::mode_after(own, mode, c, q), close, quote);
    }
}

/// A text that leaves a comment holds the end of one, and a text that leaves a name a `"`.
proof fn lemma_left(x: Seq<u8>, mode: Mode, close: bool, quote: bool)
    requires
        text::mode_after(x, mode, close, quote) != mode,
    ensures
        mode is Comment ==> text::has_close(x),
        mode is Quote ==> text::has_quote(x),
    decreases x.len(),
{
    if x.len() > 0 {
        lemma_step(x, mode, close, quote);
        let (n, next) = text::step(x, mode, close, quote);
        if mode is Comment && n == 2 {
            assert(x[0] == '*' as u8 && x[1] == '/' as u8);
        } else if mode is Quote && !(next is Quote) {
            assert(x[0] == '"' as u8);
        } else if next == mode {
            let rest = x.skip(n);
            lemma_left(rest, next, close, quote);
            if mode is Comment {
                let i = choose|i: int|
                    0 <= i < rest.len() - 1 && #[trigger] rest[i] == '*' as u8 && rest[i + 1]
                        == '/' as u8;
                assert(x[i + n] == '*' as u8 && x[i + n + 1] == '/' as u8);
            } else if mode is Quote {
                let i = choose|i: int| 0 <= i < rest.len() && #[trigger] rest[i] == '"' as u8;
                assert(x[i + n] == '"' as u8);
            }
        }
    }
}

/// A text behind which plain text follows is read alike where fewer marks follow it: what it opens,
/// it closes.
proof fn lemma_fewer_marks(x: Seq<u8>, mode: Mode, close: bool, quote: bool, c: bool, q: bool)
    requires
        text::mode_after(x, mode, close, quote) is Plain,
        c ==> close,
        q ==> quote,
    ensures
        text::ram_index(x, mode, c, q) == text::ram_index(x, mode, close, quote),
        text::mode_after(x, mode, c, q) is Plain,
    decreases x.len(),
{
    if x.len() > 0 {
        lemma_step(x, mode, close, quote);
        let (n, next) = text::step(x, mode, close, quote);
        let rest = x.skip(n);
        if mode is Plain && (next is Comment || next is Quote) {
            lemma_left(rest, next, close, quote);
        }
        assert(text::step(x, mode, c, q) == (n, next));
        lemma_fewer_marks(rest, next, close, quote, c, q);
    }
}

/// In the script whose lines before and behind a new one are `head` and `tail`, the search for `RAM`
/// gets to the new line: nothing is found before it, and it does not start inside a comment.
pub open spec fn is_reached(head: Seq<u8>, tail: Seq<u8>) -> bool {
    let close = text::has_close(tail);
    let quote = text::has_quote(tail);
    &&& text::ram_index(head, Mode::Plain, close, quote) is None
    &&& !(text::mode_after(head, Mode::Plain, close, quote) is Comment)
}

/// Where the line of a region starts as plain text, outside comments and quoted names, the search
/// gets to a line in its place.
pub proof fn law_plain_line_can_be_replaced(b: Seq<u8>)
    requires
        text::first_ram(b) matches Some(p) && {
            let start = line_start(b, p);
            text::mode_after(
                b.take(start),
                Mode::Plain,
                text::has_close(b.skip(start)),
                text::has_quote(b.skip(start)),
            ) is Plain
        },
    ensures
        ({
            let line = text::newlines(b.take(text::first_ram(b)->0)) as int;
            is_reached(
                text::terminated(text::lines(b).take(line)),
                text::terminated(text::lines(b).skip(line + 1)),
            )
        }),
{
    let p = text::first_ram(b)->0;
    text::lemma_ram_index(b, Mode::Plain, false, false);
    lemma_line_start(b, p);
    let start = line_start(b, p);
    let x = b.take(start);
    let y = b.skip(start);
    let line = text::newlines(b.take(p)) as int;
    assert(b =~= x + y);
    if start > 0 {
        assert(x.last() == '\n' as u8);
    }
    lemma_lines_add(x, y);
    law_ram_line_holds_ram(b);
    assert(text::lines(b).take(line) =~= text::lines(x));
    assert(text::lines(b).skip(line + 1) =~= text::lines(y).skip(1));
    let tail = text::terminated(text::lines(y).skip(1));
    let c = text::has_close(tail);
    let q = text::has_quote(tail);
    lemma_tail_marks(y);
    lemma_split(x, y, Mode::Plain, false, false);
    text::lemma_ram_index(x, Mode::Plain, text::has_close(y), text::has_quote(y));
    lemma_fewer_marks(x, Mode::Plain, text::has_close(y), text::has_quote(y), c, q);
    lemma_terminated_search(x, Mode::Plain, c, q);
}

/// The lines of a text, without the first, have no marks that the text lacks.
proof fn lemma_tail_marks(y: Seq<u8>)
    requires
        y.len() > 0,
    ensures
        text::has_close(text::terminated(text::lines(y).skip(1))) ==> text::has_close(y),
        text::has_quote(text::terminated(text::lines(y).skip(1))) ==> text::has_quote(y),
{
    text::lemma_index_of(y, '\n' as u8);
    match text::index_of(y, '\n' as u8) {
        Some(i) => {
            let rest = y.skip(i + 1);
            assert(text::lines(y).skip(1) =~= text::lines(rest));
            lemma_terminated_marks(rest);
            assert(y =~= y.take(i + 1) + rest);
            lemma_marks(y.take(i + 1), rest);
        },
        None => {
            assert(text::lines(y).skip(1) =~= Seq::<Seq<u8>>::empty());
            assert(text::terminated(text::lines(y).skip(1)) =~= Seq::<u8>::empty());
        },
    }
}

/// `new` starts with two spaces and `RAM`, and holds no mark and no newline.
spec fn is_new_line(new: Seq<u8>) -> bool {
    &&& new.len() >= 5
    &&& new[0] == ' ' as u8
    &&& new[1] == ' ' as u8
    &&& new.subrange(2, 5) == text::ram()
    &&& forall|i: int|
        0 <= i < new.len() ==> #[trigger] new[i] != '\n' as u8 && new[i] != '*' as u8 && new[i]
            != '"' as u8
}

/// A new line is found where it does not start inside a comment, and else is passed over.
proof fn lemma_new_line_found(new: Seq<u8>, tail: Seq<u8>, mode: Mode)
    requires
        is_new_line(new),
        !(mode is Hash),
    ensures
        ({
            let rest = new + (seq!['\n' as u8] + tail);
            let found = text::ram_index(rest, mode, false, false);
            &&& text::has_close(rest) == text::has_close(tail)
            &&& text::has_quote(rest) == text::has_quote(tail)
            &&& !(mode is Comment) ==> found == Some(2int)
            &&& mode is Comment ==> (found matches Some(i) ==> i > new.len())
        }),
{
    let end = seq!['\n' as u8];
    let rest = new + (end + tail);
    let line = new + end;
    assert(rest =~= line + tail);
    assert(!text::has_close(line) && !text::has_quote(line)) by {
        assert forall|i: int| 0 <= i < line.len() implies #[trigger] line[i] != '*' as u8
            && line[i] != '"' as u8 by {
            if i < new.len() {
                assert(line[i] == new[i]);
            }
        }
    }
    assert(line.last() == '\n' as u8);
    lemma_marks(line, tail);
    if mode is Comment {
        let c = text::has_close(tail);
        let q = text::has_quote(tail);
        lemma_stays_comment(line, c, q);
        lemma_split(line, tail, mode, false, false);
        text::lemma_ram_index(tail, mode, false, false);
    } else {
        lemma_token_bytes();
        assert(new.subrange(2, 5)[0] == new[2]);
        assert(new.subrange(2, 5)[1] == new[3]);
        assert(new.subrange(2, 5)[2] == new[4]);
        let one = rest.skip(1);
        let two = one.skip(1);
        assert(two[0] == 'R' as u8 && two[1] == 'A' as u8 && two[2] == 'M' as u8);
        assert(one[0] == ' ' as u8 && rest[0] == ' ' as u8);
        lemma_step(rest, mode, false, false);
        lemma_step(one, mode, false, false);
        lemma_step(two, mode, false, false);
        assert(text::step(rest, mode, false, false) == (1int, mode));
        assert(text::step(one, mode, false, false) == (1int, mode));
        assert(text::ram_index(two, mode, false, false) == Some(0int));
        assert(text::ram_index(one, mode, false, false) == Some(1int));
    }
}

/// A text without `*/` ends no comment.
proof fn lemma_stays_comment(x: Seq<u8>, close: bool, quote: bool)
    requires
        !text::has_close(x),
    ensures
        text::ram_index(x, Mode::Comment, close, quote) is None,
        text::mode_after(x, Mode::Comment, close, quote) is Comment,
    decreases x.len(),
{
    if x.len() > 0 {
        lemma_step(x, Mode::Comment, close, quote);
        assert(!text::comment_close().is_prefix_of(x)) by {
            if text::comment_close().is_prefix_of(x) {
                assert(x[0] == '*' as u8 && x[1] == '/' as u8);
            }
        }
        let rest = x.skip(1);
        assert(!text::has_close(rest)) by {
            if text::has_close(rest) {
                let i = choose|i: int|
                    0 <= i < rest.len() - 1 && #[trigger] rest[i] == '*' as u8 && rest[i + 1]
                        == '/' as u8;
                assert(x[i + 1] == '*' as u8 && x[i + 2] == '/' as u8);
            }
        }
        lemma_stays_comment(rest, close, quote);
    }
}

/// The bytes of the words that describe a region.
proof fn lemma_words()
    ensures
        text::bytes("RAM") == text::ram(),
        text::bytes(":") == seq![':' as u8],
        text::bytes("ORIGIN") == seq![
            'O' as u8,
            'R' as u8,
            'I' as u8,
            'G' as u8,
            'I' as u8,
            'N' as u8,
        ],
        text::bytes("LENGTH") == seq![
            'L' as u8,
            'E' as u8,
            'N' as u8,
            'G' as u8,
            'T' as u8,
            'H' as u8,
        ],
        text::bytes("=") == seq!['=' as u8],
        text::bytes(",") == seq![',' as u8],
{
    reveal_strlit("RAM");
    reveal_strlit(":");
    reveal_strlit("ORIGIN");
    reveal_strlit("LENGTH");
    reveal_strlit("=");
    reveal_strlit(",");
    is_ascii_chars_encode_utf8("RAM"@);
    is_ascii_chars_encode_utf8(":"@);
    is_ascii_chars_encode_utf8("ORIGIN"@);
    is_ascii_chars_encode_utf8("LENGTH"@);
    is_ascii_chars_encode_utf8("="@);
    is_ascii_chars_encode_utf8(","@);
    assert(text::bytes("RAM") =~= text::ram());
    assert(text::bytes(":") =~= seq![':' as u8]);
    assert(text::bytes("ORIGIN") =~= seq![
        'O' as u8,
        'R' as u8,
        'I' as u8,
        'G' as u8,
        'I' as u8,
        'N' as u8,
    ]);
    assert(text::bytes("LENGTH") =~= seq![
        'L' as u8,
        'E' as u8,
        'N' as u8,
        'G' as u8,
        'T' as u8,
        'H' as u8,
    ]);
    assert(text::bytes("=") =~= seq!['=' as u8]);
    assert(text::bytes(",") =~= seq![',' as u8]);
}

/// The bytes of the fixed parts of a new line.
proof fn lemma_parts()
    ensures
        text::bytes("  RAM : ORIGIN = 0x") == seq![' ' as u8, ' ' as u8] + (text::ram() + (seq![
            ' ' as u8,
        ] + (text::bytes(":") + (seq![' ' as u8] + (text::bytes("ORIGIN") + (seq![' ' as u8] + (
        text::bytes("=") + (seq![' ' as u8] + parser::hex_prefix())))))))),
        text::bytes(", LENGTH = ") == text::bytes(",") + (seq![' ' as u8] + (text::bytes("LENGTH")
            + (seq![' ' as u8] + (text::bytes("=") + seq![' ' as u8])))),
{
    lemma_words();
    reveal_strlit("  RAM : ORIGIN = 0x");
    reveal_strlit(", LENGTH = ");
    is_ascii_chars_encode_utf8("  RAM : ORIGIN = 0x"@);
    is_ascii_chars_encode_utf8(", LENGTH = "@);
    assert(text::bytes("  RAM : ORIGIN = 0x") =~= seq![' ' as u8, ' ' as u8] + (text::ram() + (seq![
        ' ' as u8,
    ] + (text::bytes(":") + (seq![' ' as u8] + (text::bytes("ORIGIN") + (seq![' ' as u8] + (
    text::bytes("=") + (seq![' ' as u8] + parser::hex_prefix())))))))));
    assert(text::bytes(", LENGTH = ") =~= text::bytes(",") + (seq![' ' as u8] + (text::bytes(
        "LENGTH",
    ) + (seq![' ' as u8] + (text::bytes("=") + seq![' ' as u8])))));
}

/// A token that comes next is read.
proof fn lemma_token_next(token: Seq<u8>, rest: Seq<u8>)
    requires
        token.len() > 0,
        !text::is_space(token[0]),
    ensures
        text::skip_token(token + rest, token) == rest,
        text::skip_token(seq![' ' as u8] + (token + rest), token) == rest,
{
    let b = token + rest;
    assert(b[0] == token[0]);
    assert(text::skip_space(b) == b);
    lemma_prefix(token, b);
    assert(b.skip(token.len() as int) =~= rest);
    let spaced = seq![' ' as u8] + b;
    assert(spaced[0] == ' ' as u8);
    assert(spaced.skip(1) =~= b);
    assert(text::skip_space(spaced) == b);
}

/// A number that is written as a sum of one term, before something that is neither part of the
/// number nor a further term, is read.
proof fn lemma_hex_read(n: u64, rest: Seq<u8>)
    requires
        rest.len() > 0,
        rest[0] == ',' as u8,
    ensures
        parser::expression(
            0,
            seq![' ' as u8] + (parser::hex_prefix() + (number::digits(n as nat, 16) + rest)),
        ) == Ok::<(nat, Seq<u8>), number::ParseError>((n as nat, rest)),
{
    let digits = number::digits(n as nat, 16);
    number::lemma_digits_value(n as nat, 16);
    let body = digits + rest;
    let start = parser::hex_prefix() + body;
    let b = seq![' ' as u8] + start;
    assert(start[0] == '0' as u8);
    assert(text::skip_space(start) == start);
    assert(b[0] == ' ' as u8 && b.skip(1) =~= start);
    assert(text::skip_space(b) == start);
    lemma_prefix(parser::hex_prefix(), start);
    assert(start.skip(2) =~= body);
    assert forall|i: int| 0 <= i < digits.len() implies number::is_hex_digit(#[trigger] body[i]) by {
        assert(body[i] == digits[i]);
    }
    assert(body[digits.len() as int] == rest[0]);
    number::lemma_digit_count_run(body, digits.len() as int);
    assert(body.take(digits.len() as int) =~= digits);
    assert(body.skip(digits.len() as int) =~= rest);
    assert(parser::unit(rest) == 1);
    assert(parser::number(b) == Ok::<(nat, Seq<u8>), number::ParseError>((n as nat, rest)));
    assert(text::skip_space(rest) == rest);
}

/// The sum of `n` and what `+` joins to it at the start of `next`, and what follows it.
pub open spec fn continued(n: nat, next: Seq<u8>) -> Result<(nat, Seq<u8>), number::ParseError> {
    if next.len() > 0 && next[0] == '+' as u8 {
        parser::expression(n, next.skip(1))
    } else {
        Ok((n, next))
    }
}

/// A decimal number at the end of a line is read, and what is joined to it on the next.
proof fn lemma_decimal_read(n: u64, tail: Seq<u8>)
    ensures
        parser::expression(
            0,
            seq![' ' as u8] + (number::digits(n as nat, 10) + (seq!['\n' as u8] + tail)),
        ) == continued(n as nat, text::skip_space(tail)),
{
    let digits = number::digits(n as nat, 10);
    number::lemma_digits_value(n as nat, 10);
    let rest = seq!['\n' as u8] + tail;
    let body = digits + rest;
    let b = seq![' ' as u8] + body;
    assert(body[0] == digits[0]);
    assert(number::is_hex_digit(digits[0]));
    assert(text::skip_space(body) == body);
    assert(b[0] == ' ' as u8 && b.skip(1) =~= body);
    assert(text::skip_space(b) == body);
    assert(!parser::hex_prefix().is_prefix_of(body)) by {
        lemma_prefix(parser::hex_prefix(), body);
        assert(parser::hex_prefix()[1] == 'x' as u8);
        if digits.len() > 1 {
            assert(body[1] == digits[1]);
            assert(number::is_hex_digit(digits[1]));
        } else {
            assert(body[1] == '\n' as u8);
        }
    }
    assert forall|i: int| 0 <= i < digits.len() implies number::is_hex_digit(#[trigger] body[i]) by {
        assert(body[i] == digits[i]);
    }
    assert(body[digits.len() as int] == '\n' as u8);
    number::lemma_digit_count_run(body, digits.len() as int);
    assert(body.take(digits.len() as int) =~= digits);
    assert(body.skip(digits.len() as int) =~= rest);
    assert(parser::unit(rest) == 1);
    assert(parser::number(b) == Ok::<(nat, Seq<u8>), number::ParseError>((n as nat, rest)));
    assert(rest.skip(1) =~= tail);
    assert(text::skip_space(rest) == text::skip_space(tail));
}

/// The start of a new line, before `rest`.
proof fn lemma_line_head(rest: Seq<u8>)
    ensures
        ({
            let space = seq![' ' as u8];
            text::bytes("  RAM : ORIGIN = 0x") + rest == seq![' ' as u8, ' ' as u8] + (text::ram()
                + (space + (text::bytes(":") + (space + (text::bytes("ORIGIN") + (space + (
            text::bytes("=") + (space + (parser::hex_prefix() + rest)))))))))
        }),
{
    lemma_parts();
    let space = seq![' ' as u8];
    let hex = parser::hex_prefix();
    let t8 = space + hex;
    let t7 = text::bytes("=") + t8;
    let t6 = space + t7;
    let t5 = text::bytes("ORIGIN") + t6;
    let t4 = space + t5;
    let t3 = text::bytes(":") + t4;
    let t2 = space + t3;
    let t1 = text::ram() + t2;
    lemma_join(seq![' ' as u8, ' ' as u8], t1, rest);
    lemma_join(text::ram(), t2, rest);
    lemma_join(space, t3, rest);
    lemma_join(text::bytes(":"), t4, rest);
    lemma_join(space, t5, rest);
    lemma_join(text::bytes("ORIGIN"), t6, rest);
    lemma_join(space, t7, rest);
    lemma_join(text::bytes("="), t8, rest);
    lemma_join(space, hex, rest);
}

/// The middle of a new line, before `rest`.
proof fn lemma_line_middle(rest: Seq<u8>)
    ensures
        ({
            let space = seq![' ' as u8];
            text::bytes(", LENGTH = ") + rest == text::bytes(",") + (space + (text::bytes("LENGTH")
                + (space + (text::bytes("=") + (space + rest)))))
        }),
{
    lemma_parts();
    let space = seq![' ' as u8];
    let t4 = text::bytes("=") + space;
    let t3 = space + t4;
    let t2 = text::bytes("LENGTH") + t3;
    let t1 = space + t2;
    lemma_join(text::bytes(","), t1, rest);
    lemma_join(space, t2, rest);
    lemma_join(text::bytes("LENGTH"), t3, rest);
    lemma_join(space, t4, rest);
    lemma_join(text::bytes("="), space, rest);
}

/// The region that a new line before `tail` describes: its own, where what is joined to it on the
/// next line adds nothing.
spec fn described(line: nat, origin: u64, length: u64, tail: Seq<u8>) -> Result<
    Region,
    number::ParseError,
> {
    match continued(length as nat, text::skip_space(tail)) {
        Ok((sum, rest)) => Ok(Region { line, origin: origin as nat, length: sum, rest }),
        Err(e) => Err(e),
    }
}

/// The region that the words of a new line describe.
proof fn lemma_words_read(line: nat, origin: u64, length: u64, tail: Seq<u8>)
    ensures
        ({
            let space = seq![' ' as u8];
            let size = space + (number::digits(length as nat, 10) + (seq!['\n' as u8] + tail));
            let b4 = text::bytes(",") + (space + (text::bytes("LENGTH") + (space + (text::bytes("=")
                + size))));
            let address = space + (parser::hex_prefix() + (number::digits(origin as nat, 16) + b4));
            parser::region(
                line,
                text::ram() + (space + (text::bytes(":") + (space + (text::bytes("ORIGIN") + (space
                    + (text::bytes("=") + address)))))),
            ) == described(line, origin, length, tail)
        }),
{
    lemma_words();
    let space = seq![' ' as u8];
    let size = space + (number::digits(length as nat, 10) + (seq!['\n' as u8] + tail));
    let b5 = space + (text::bytes("LENGTH") + (space + (text::bytes("=") + size)));
    let b4 = text::bytes(",") + b5;
    let address = space + (parser::hex_prefix() + (number::digits(origin as nat, 16) + b4));
    let b3 = space + (text::bytes("ORIGIN") + (space + (text::bytes("=") + address)));
    let b2 = text::bytes(":") + b3;
    let b1 = space + b2;
    lemma_token_next(text::ram(), b1);
    assert(text::skip_to(b1, ':' as u8) == b2) by {
        assert(b1[0] == ' ' as u8);
        assert(b1.skip(1) =~= b2);
        assert(b2[0] == ':' as u8);
        assert(text::index_of(b2, ':' as u8) == Some(0int));
        assert(text::index_of(b1, ':' as u8) == Some(1int));
    }
    lemma_token_next(text::bytes(":"), b3);
    lemma_token_next(text::bytes("ORIGIN"), space + (text::bytes("=") + address));
    lemma_token_next(text::bytes("="), address);
    lemma_hex_read(origin, b4);
    lemma_token_next(text::bytes(","), b5);
    lemma_token_next(text::bytes("LENGTH"), space + (text::bytes("=") + size));
    lemma_token_next(text::bytes("="), size);
    lemma_decimal_read(length, tail);
}

/// What follows two spaces.
proof fn lemma_behind_spaces(words: Seq<u8>)
    ensures
        (seq![' ' as u8, ' ' as u8] + words).skip(2) == words,
{
    assert((seq![' ' as u8, ' ' as u8] + words).skip(2) =~= words);
}

/// A new line, without the spaces at its start, describes its region.
proof fn lemma_new_line_read(line: nat, origin: u64, length: u64, tail: Seq<u8>)
    ensures
        parser::region(
            line,
            (script::ram_line(origin, length) + (seq!['\n' as u8] + tail)).skip(2),
        ) == described(line, origin, length, tail),
{
    let new = script::ram_line(origin, length);
    let hex = number::digits(origin as nat, 16);
    let decimal = number::digits(length as nat, 10);
    let end = seq!['\n' as u8] + tail;
    let head = text::bytes("  RAM : ORIGIN = 0x");
    let middle = text::bytes(", LENGTH = ");
    let size = decimal + end;
    lemma_join(head + hex + middle, decimal, end);
    lemma_join(head + hex, middle, size);
    lemma_join(head, hex, middle + size);
    lemma_line_head(hex + (middle + size));
    lemma_line_middle(size);
    lemma_words_read(line, origin, length, tail);
    let space = seq![' ' as u8];
    let b4 = text::bytes(",") + (space + (text::bytes("LENGTH") + (space + (text::bytes("=") + (space
        + size)))));
    let address = space + (parser::hex_prefix() + (hex + b4));
    let words = text::ram() + (space + (text::bytes(":") + (space + (text::bytes("ORIGIN") + (space
        + (text::bytes("=") + address))))));
    assert(new + end == seq![' ' as u8, ' ' as u8] + words);
    lemma_behind_spaces(words);
}

/// `line` reads back as itself when it is ended by `\n`: it holds no newline, and no carriage return
/// at its end.
pub open spec fn is_plain_line(line: Seq<u8>) -> bool {
    &&& forall|i: int| 0 <= i < line.len() ==> #[trigger] line[i] != '\n' as u8
    &&& line.len() > 0 ==> line.last() != '\r' as u8
}

/// The lines of a text hold no newline.
proof fn lemma_lines_hold_no_newline(b: Seq<u8>, k: int)
    requires
        0 <= k < text::lines(b).len(),
    ensures
        forall|i: int|
            0 <= i < text::lines(b)[k].len() ==> #[trigger] text::lines(b)[k][i] != '\n' as u8,
    decreases b.len(),
{
    text::lemma_index_of(b, '\n' as u8);
    if let Some(i) = text::index_of(b, '\n' as u8) {
        let rest = b.skip(i + 1);
        if k > 0 {
            lemma_lines_hold_no_newline(rest, k - 1);
            assert(text::lines(b)[k] == text::lines(rest)[k - 1]);
        } else {
            assert(text::lines(b)[0] == text::chomp(b.take(i)));
        }
    }
}

/// A new line starts with two spaces and `RAM`, is plain and holds no mark.
proof fn lemma_ram_line(origin: u64, length: u64)
    ensures
        is_plain_line(script::ram_line(origin, length)),
        is_new_line(script::ram_line(origin, length)),
{
    let head = text::bytes("  RAM : ORIGIN = 0x");
    let middle = text::bytes(", LENGTH = ");
    let hex = number::digits(origin as nat, 16);
    let decimal = number::digits(length as nat, 10);
    reveal_strlit("  RAM : ORIGIN = 0x");
    reveal_strlit(", LENGTH = ");
    is_ascii_chars_encode_utf8("  RAM : ORIGIN = 0x"@);
    is_ascii_chars_encode_utf8(", LENGTH = "@);
    number::lemma_digits_value(origin as nat, 16);
    number::lemma_digits_value(length as nat, 10);
    let new = script::ram_line(origin, length);
    let h = head.len() as int;
    let x = hex.len() as int;
    let m = middle.len() as int;
    assert forall|i: int| 0 <= i < new.len() implies #[trigger] new[i] != '\n' as u8 && new[i]
        != '*' as u8 && new[i] != '"' as u8 by {
        if i < h {
            assert(new[i] == head[i]);
            assert(head[i] == "  RAM : ORIGIN = 0x"@[i] as u8);
        } else if i < h + x {
            assert(new[i] == hex[i - h]);
            assert(number::is_hex_digit(hex[i - h]));
        } else if i < h + x + m {
            assert(new[i] == middle[i - h - x]);
            assert(middle[i - h - x] == ", LENGTH = "@[i - h - x] as u8);
        } else {
            assert(new[i] == decimal[i - h - x - m]);
            assert(number::is_hex_digit(decimal[i - h - x - m]));
        }
    }
    assert(new[0] == head[0] && new[1] == head[1]);
    assert(new.subrange(2, 5) =~= text::ram());
    assert(new.last() == decimal.last());
    assert(number::is_hex_digit(decimal[decimal.len() - 1]));
}

/// What is written into a script is what is read from it: the script in which the line of its `RAM`
/// region is replaced holds the new region, on the same line, if and only if the search gets to that
/// line and the next line does not go on with a `+` that changes the length. The search gets there
/// where the line starts as plain text; where it starts inside a comment, the end of the comment may
/// be lost with the line.
pub proof fn law_rewritten_script_holds_new_region(b: Seq<u8>, origin: u64, length: u64)
    requires
        text::first_ram(b) is Some,
    ensures
        ({
            let line = text::newlines(b.take(text::first_ram(b)->0));
            let head = text::terminated(text::lines(b).take(line as int));
            let tail = text::terminated(text::lines(b).skip(line as int + 1));
            let read = parser::find_region(script::rewritten(b, line as int, origin, length));
            (read matches Ok(Some(region)) && region.line == line && region.origin == origin
                && region.length == length) <==> {
                &&& is_reached(head, tail)
                &&& continued(length as nat, text::skip_space(tail)) matches Ok((sum, _)) && sum
                    == length
            }
        }),
{
    let p = text::first_ram(b)->0;
    let k = text::newlines(b.take(p)) as int;
    let all = text::lines(b);
    let new = script::ram_line(origin, length);
    let end = seq!['\n' as u8];
    let head = text::terminated(all.take(k));
    let tail = text::terminated(all.skip(k + 1));
    let rest = new + (end + tail);
    let out = script::rewritten(b, k, origin, length);
    law_ram_line_holds_ram(b);
    lemma_ram_line(origin, length);
    assert(out == head + rest) by {
        assert(script::replaced(all, k, new) =~= all.take(k) + (seq![new] + all.skip(k + 1)));
        lemma_terminated_add(all.take(k), seq![new] + all.skip(k + 1));
        lemma_terminated_first(new, all.skip(k + 1));
        assert(new.push('\n' as u8) + tail =~= rest);
    }
    assert(text::newlines(head) == k && (k > 0 ==> head.len() > 0 && head.last() == '\n' as u8)) by {
        assert forall|j: int, i: int|
            0 <= j < all.take(k).len() && 0 <= i < all.take(k)[j].len() implies #[trigger] all.take(
            k,
        )[j][i] != '\n' as u8 by {
            lemma_lines_hold_no_newline(b, j);
            assert(all.take(k)[j] == all[j]);
            assert(all[j][i] != '\n' as u8);
        }
        lemma_terminated_newlines(all.take(k));
    }
    if k == 0 {
        assert(all.take(k) =~= Seq::<Seq<u8>>::empty());
        assert(head =~= Seq::<u8>::empty());
    }
    lemma_read_back(head, new, tail, k as nat, origin, length);
}

/// What is found before whole lines end is on one of them.
proof fn lemma_found_earlier(head: Seq<u8>, rest: Seq<u8>, i: int)
    requires
        0 <= i < head.len(),
        head.last() == '\n' as u8,
    ensures
        text::newlines((head + rest).take(i)) < text::newlines(head),
{
    assert((head + rest).take(i) =~= head.take(i));
    lemma_newlines_add(head.take(i), head.skip(i));
    assert(head =~= head.take(i) + head.skip(i));
    assert(head.skip(i).last() == '\n' as u8);
}

/// What is found behind a line is on a later one.
proof fn lemma_found_later(head: Seq<u8>, new: Seq<u8>, tail: Seq<u8>, i: int)
    requires
        new.len() < i <= new.len() + 1 + tail.len(),
    ensures
        text::newlines((head + (new + (seq!['\n' as u8] + tail))).take(head.len() + i))
            > text::newlines(head),
{
    let rest = new + (seq!['\n' as u8] + tail);
    let n = new.len() as int;
    let upto = rest.take(n + 1);
    assert(rest[n] == '\n' as u8);
    assert(upto.last() == '\n' as u8);
    assert((head + rest).take(head.len() + i) =~= head + rest.take(i));
    lemma_newlines_add(head, rest.take(i));
    assert(rest.take(i) =~= upto + rest.subrange(n + 1, i));
    lemma_newlines_add(upto, rest.subrange(n + 1, i));
}

/// The search in a script with a new line between `head` and `tail` ends at the new line where it
/// gets there, and else on another line.
proof fn lemma_search_new_line(head: Seq<u8>, new: Seq<u8>, tail: Seq<u8>)
    requires
        is_new_line(new),
        head.len() > 0 ==> head.last() == '\n' as u8,
    ensures
        ({
            let out = head + (new + (seq!['\n' as u8] + tail));
            if is_reached(head, tail) {
                text::first_ram(out) == Some(head.len() as int + 2)
            } else {
                text::first_ram(out) matches Some(i) ==> text::newlines(out.take(i))
                    != text::newlines(head)
            }
        }),
{
    let rest = new + (seq!['\n' as u8] + tail);
    let close = text::has_close(tail);
    let quote = text::has_quote(tail);
    let mode = text::mode_after(head, Mode::Plain, close, quote);
    lemma_not_hash(head, Mode::Plain, close, quote);
    lemma_new_line_found(new, tail, mode);
    assert(rest[0] == ' ' as u8);
    lemma_ram_split(head, rest, Mode::Plain, false, false);
    match text::ram_index(head, Mode::Plain, close, quote) {
        Some(i) => {
            text::lemma_ram_index(head, Mode::Plain, close, quote);
            lemma_found_earlier(head, rest, i);
        },
        None => {
            if mode is Comment {
                if let Some(i) = text::ram_index(rest, mode, false, false) {
                    text::lemma_ram_index(rest, mode, false, false);
                    lemma_found_later(head, new, tail, i);
                }
            }
        },
    }
}

/// What is read of a script with a new line between `head` and `tail`.
proof fn lemma_read_back(
    head: Seq<u8>,
    new: Seq<u8>,
    tail: Seq<u8>,
    k: nat,
    origin: u64,
    length: u64,
)
    requires
        new == script::ram_line(origin, length),
        is_new_line(new),
        head.len() > 0 ==> head.last() == '\n' as u8,
        text::newlines(head) == k,
    ensures
        (parser::find_region(head + (new + (seq!['\n' as u8] + tail))) matches Ok(Some(region))
            && region.line == k && region.origin == origin && region.length == length) <==> {
            &&& is_reached(head, tail)
            &&& continued(length as nat, text::skip_space(tail)) matches Ok((sum, _)) && sum
                == length
        },
{
    let rest = new + (seq!['\n' as u8] + tail);
    let out = head + rest;
    lemma_search_new_line(head, new, tail);
    if is_reached(head, tail) {
        let j = head.len() as int + 2;
        assert(out.skip(j) =~= rest.skip(2));
        assert(out.take(j) =~= head + new.take(2));
        lemma_newlines_add(head, new.take(2));
        lemma_no_newlines(new.take(2));
        lemma_new_line_read(k, origin, length, tail);
        assert(parser::region(k, out.skip(j)) == described(k, origin, length, tail));
    }
}

/// Behind a newline no line goes on.
proof fn lemma_not_hash(x: Seq<u8>, mode: Mode, close: bool, quote: bool)
    requires
        x.len() > 0 ==> x.last() == '\n' as u8,
        x.len() == 0 ==> !(mode is Hash),
    ensures
        !(text::mode_after(x, mode, close, quote) is Hash),
    decreases x.len(),
{
    if x.len() > 0 {
        lemma_step(x, mode, close, quote);
        let (n, next) = text::step(x, mode, close, quote);
        lemma_not_hash(x.skip(n), next, close, quote);
    }
}

/// The first newline of a text that starts with a line.
proof fn lemma_line_split(line: Seq<u8>, rest: Seq<u8>)
    requires
        forall|i: int| 0 <= i < line.len() ==> #[trigger] line[i] != '\n' as u8,
    ensures
        text::index_of(line.push('\n' as u8) + rest, '\n' as u8) == Some(line.len() as int),
    decreases line.len(),
{
    let b = line.push('\n' as u8) + rest;
    if line.len() == 0 {
        assert(b[0] == '\n' as u8);
    } else {
        assert(b[0] == line[0]);
        assert(b.skip(1) =~= line.skip(1).push('\n' as u8) + rest);
        lemma_line_split(line.skip(1), rest);
    }
}

/// Plain lines, each ended by a newline, read back as themselves.
proof fn lemma_lines_of_terminated(lines: Seq<Seq<u8>>)
    requires
        forall|i: int| 0 <= i < lines.len() ==> is_plain_line(#[trigger] lines[i]),
    ensures
        text::lines(text::terminated(lines)) == lines,
    decreases lines.len(),
{
    if lines.len() == 0 {
        assert(text::lines(text::terminated(lines)) =~= lines);
    } else {
        let line = lines[0];
        let tail = lines.skip(1);
        let rest = text::terminated(tail);
        let b = line.push('\n' as u8) + rest;
        assert forall|i: int| 0 <= i < tail.len() implies is_plain_line(#[trigger] tail[i]) by {
            assert(tail[i] == lines[i + 1]);
        }
        lemma_lines_of_terminated(tail);
        assert(is_plain_line(lines[0]));
        assert(lines =~= seq![line] + tail);
        lemma_terminated_first(line, tail);
        lemma_line_split(line, rest);
        assert(b.take(line.len() as int) =~= line);
        assert(b.skip(line.len() as int + 1) =~= rest);
        assert(text::lines(b) =~= seq![line] + tail);
    }
}

/// Only the line that is replaced changes: the lines of the new script are those of the old one, but
/// for that line. This leaves out scripts with another line that ends in a carriage return before
/// its line ending, since the two would be read as one ending.
pub proof fn law_rewriting_keeps_other_lines(b: Seq<u8>, line: int, origin: u64, length: u64)
    requires
        forall|i: int|
            0 <= i < text::lines(b).len() && i != line && (#[trigger] text::lines(b)[i]).len() > 0
                ==> text::lines(b)[i].last() != '\r' as u8,
    ensures
        text::lines(script::rewritten(b, line, origin, length)) == script::replaced(
            text::lines(b),
            line,
            script::ram_line(origin, length),
        ),
{
    let all = text::lines(b);
    let new = script::replaced(all, line, script::ram_line(origin, length));
    assert forall|i: int| 0 <= i < new.len() implies is_plain_line(#[trigger] new[i]) by {
        if i == line {
            lemma_ram_line(origin, length);
        } else {
            assert(new[i] == all[i]);
            lemma_lines_hold_no_newline(b, i);
        }
    }
    lemma_lines_of_terminated(new);
}

} // verus!
