//! Linker scripts: the scripts that a script names, and the script with another `RAM` region.
use vstd::prelude::*;
use vstd::string::*;
use vstd::utf8::*;

use crate::number;
use crate::text;

verus! {

/// The `White_Space` property of Unicode.
pub open spec fn is_white_space(c: char) -> bool {
    ||| '\u{9}' <= c <= '\u{d}'
    ||| c == ' '
    ||| c == '\u{85}'
    ||| c == '\u{a0}'
    ||| c == '\u{1680}'
    ||| '\u{2000}' <= c <= '\u{200a}'
    ||| c == '\u{2028}'
    ||| c == '\u{2029}'
    ||| c == '\u{202f}'
    ||| c == '\u{205f}'
    ||| c == '\u{3000}'
}

/// `s` without its leading white space.
pub open spec fn trim_start(s: Seq<char>) -> Seq<char>
    decreases s.len(),
{
    if s.len() > 0 && is_white_space(s[0]) {
        trim_start(s.skip(1))
    } else {
        s
    }
}

/// `s` without its trailing white space.
pub open spec fn trim_end(s: Seq<char>) -> Seq<char>
    decreases s.len(),
{
    if s.len() > 0 && is_white_space(s.last()) {
        trim_end(s.drop_last())
    } else {
        s
    }
}

/// `s` without the white space at its ends.
pub open spec fn trimmed(s: Seq<char>) -> Seq<char> {
    trim_end(trim_start(s))
}

/// `str::trim`: the slice without leading and trailing white space, by the `White_Space` property
/// of Unicode.
pub assume_specification[ str::trim ](s: &str) -> (r: &str)
    ensures
        r@ == trimmed(s@),
;

/// What a line of a linker script includes: what follows `INCLUDE` where the line starts with it,
/// white space left aside.
pub open spec fn include_of(line: Seq<char>) -> Option<Seq<char>> {
    if "INCLUDE"@.is_prefix_of(trimmed(line)) {
        Some(trimmed(trimmed(line).skip("INCLUDE"@.len() as int)))
    } else {
        None
    }
}

/// What `lines` include, in order.
pub open spec fn includes(lines: Seq<Seq<u8>>) -> Seq<Seq<char>>
    decreases lines.len(),
{
    if lines.len() == 0 {
        seq![]
    } else {
        let front = includes(lines.drop_last());
        match include_of(decode_utf8(lines.last())) {
            Some(name) => front.push(name),
            None => front,
        }
    }
}

/// The characters of each of `pieces`.
pub open spec fn texts(pieces: Seq<&str>) -> Seq<Seq<char>> {
    pieces.map_values(|s: &str| s@)
}

/// What follows `token` in `s`, where `s` starts with it.
fn strip_prefix<'a>(s: &'a str, token: &str) -> (r: Option<&'a str>)
    ensures
        match r {
            Some(rest) => token@.is_prefix_of(s@) && rest@ == s@.skip(token@.len() as int),
            None => !token@.is_prefix_of(s@),
        },
{
    let n = s.unicode_len();
    let m = token.unicode_len();
    if m > n {
        return None;
    }
    let mut i: usize = 0;
    while i < m
        invariant
            i <= m <= n,
            m == token@.len(),
            n == s@.len(),
            forall|j: int| 0 <= j < i ==> token@[j] == s@[j],
        decreases m - i,
    {
        if s.get_char(i) != token.get_char(i) {
            assert(s@.subrange(0, m as int)[i as int] == s@[i as int]);
            return None;
        }
        i += 1;
    }
    assert(token@ =~= s@.subrange(0, m as int));
    Some(s.substring_char(m, n))
}

/// The names of the scripts that a linker script includes.
pub fn get_includes_from_linker_script(linker_script: &str) -> (r: Vec<&str>)
    ensures
        texts(r@) == includes(text::lines(text::bytes(linker_script))),
{
    let lines = text::split_lines(linker_script);
    let ghost all = text::lines(text::bytes(linker_script));
    let mut names: Vec<&str> = Vec::new();
    let mut i: usize = 0;
    assert(texts(names@) =~= includes(all.take(0)));
    while i < lines.len()
        invariant
            i <= lines@.len(),
            all == text::encoded(lines@),
            texts(names@) == includes(all.take(i as int)),
        decreases lines@.len() - i,
    {
        let line = lines[i];
        let ghost before = texts(names@);
        proof {
            encode_utf8_decode_utf8(line@);
            assert(all[i as int] == text::bytes(line));
            assert(all.take(i + 1).drop_last() =~= all.take(i as int));
        }
        if let Some(rest) = strip_prefix(line.trim(), "INCLUDE") {
            let name = rest.trim();
            names.push(name);
            assert(texts(names@) =~= before.push(name@));
        }
        i += 1;
    }
    assert(all.take(i as int) =~= all);
    names
}

/// The line of a script that describes a `RAM` region.
pub open spec fn ram_line(origin: u64, length: u64) -> Seq<u8> {
    text::bytes("  RAM : ORIGIN = 0x") + number::digits(origin as nat, 16) + text::bytes(
        ", LENGTH = ",
    ) + number::digits(length as nat, 10)
}

/// `lines` with `line` in the place of the one of index `index`, where there is such a one.
pub open spec fn replaced(lines: Seq<Seq<u8>>, index: int, line: Seq<u8>) -> Seq<Seq<u8>> {
    if 0 <= index < lines.len() {
        lines.update(index, line)
    } else {
        lines
    }
}

/// The text of the script `b` with another `RAM` region on the line of index `line`.
pub open spec fn rewritten(b: Seq<u8>, line: int, origin: u64, length: u64) -> Seq<u8> {
    text::terminated(replaced(text::lines(b), line, ram_line(origin, length)))
}

/// A line more at the end is that line, ended, behind the text.
pub proof fn lemma_terminated_push(lines: Seq<Seq<u8>>, line: Seq<u8>)
    ensures
        text::terminated(lines.push(line)) == text::terminated(lines) + line + seq!['\n' as u8],
    decreases lines.len(),
{
    reveal_with_fuel(text::terminated, 2);
    if lines.len() == 0 {
        assert(lines.push(line).skip(1) =~= Seq::<Seq<u8>>::empty());
        assert(text::terminated(lines.push(line)) =~= text::terminated(lines) + line
            + seq!['\n' as u8]);
    } else {
        lemma_terminated_push(lines.skip(1), line);
        assert(lines.push(line).skip(1) =~= lines.skip(1).push(line));
        assert(text::terminated(lines.push(line)) =~= text::terminated(lines) + line
            + seq!['\n' as u8]);
    }
}

/// Writes `s` behind what `out` holds.
fn push_str(out: &mut Vec<u8>, s: &str)
    ensures
        final(out)@ == old(out)@ + text::bytes(s),
{
    let b = s.as_bytes();
    let mut i: usize = 0;
    while i < b.len()
        invariant
            i <= b@.len(),
            out@ == old(out)@ + b@.take(i as int),
        decreases b@.len() - i,
    {
        out.push(b[i]);
        assert(out@ =~= old(out)@ + b@.take(i + 1));
        i += 1;
    }
    assert(b@.take(i as int) =~= b@);
}

/// The script with another `RAM` region: each line of `linker_script` ended by `\n`, the one of
/// index `line` replaced.
pub fn rewrite_linker_script(linker_script: &str, line: usize, origin: u64, length: u64) -> (r: Vec<
    u8,
>)
    ensures
        r@ == rewritten(text::bytes(linker_script), line as int, origin, length),
{
    let lines = text::split_lines(linker_script);
    let ghost all = text::encoded(lines@);
    let ghost new = replaced(all, line as int, ram_line(origin, length));
    let mut out: Vec<u8> = Vec::new();
    let mut i: usize = 0;
    assert(out@ =~= text::terminated(new.take(0)));
    while i < lines.len()
        invariant
            i <= lines@.len(),
            all == text::encoded(lines@),
            new == replaced(all, line as int, ram_line(origin, length)),
            out@ == text::terminated(new.take(i as int)),
        decreases lines@.len() - i,
    {
        let ghost before = out@;
        if i == line {
            push_str(&mut out, "  RAM : ORIGIN = 0x");
            number::push_digits(&mut out, origin, 16);
            push_str(&mut out, ", LENGTH = ");
            number::push_digits(&mut out, length, 10);
            assert(out@ =~= before + ram_line(origin, length));
        } else {
            push_str(&mut out, lines[i]);
        }
        out.push('\n' as u8);
        proof {
            assert(new.take(i + 1) =~= new.take(i as int).push(new[i as int]));
            lemma_terminated_push(new.take(i as int), new[i as int]);
            assert(out@ =~= before + new[i as int] + seq!['\n' as u8]);
        }
        i += 1;
    }
    assert(new.take(i as int) =~= new);
    out
}

/// What follows the last `/` of a path.
pub open spec fn last_segment(path: Seq<char>) -> Seq<char>
    decreases path.len(),
{
    if path.len() == 0 || path.last() == '/' {
        seq![]
    } else {
        last_segment(path.drop_last()).push(path.last())
    }
}

/// The last component of `path`, where `/` separates, if it names an entry of a directory. What is
/// empty or `.` at the end of the path is left aside, and `..` names none.
pub open spec fn final_name(path: Seq<char>) -> Option<Seq<char>>
    decreases path.len(),
{
    let name = last_segment(path);
    if name.len() > 0 && name != "."@ {
        if name == ".."@ {
            None
        } else {
            Some(name)
        }
    } else if name.len() < path.len() {
        final_name(path.take(path.len() - name.len() - 1))
    } else {
        None
    }
}

/// The final name of `path` is the same on every platform: it holds no `\`, which separates on some,
/// and does not start with a network prefix. A `:` behind the first character may end the name of a
/// drive, which is not part of what follows it; the final name is the same then with or without it.
pub open spec fn is_portable(path: Seq<char>) -> bool {
    &&& !path.contains('\\')
    &&& !(path.len() >= 2 && path[0] == '/' && path[1] == '/')
    &&& path.len() >= 2 && path[1] == ':' ==> final_name(path) == final_name(path.skip(2))
}

/// `name` is not empty, and `path` holds it in one piece.
pub open spec fn is_part_of(name: Seq<char>, path: Seq<char>) -> bool {
    exists|i: int, j: int| 0 <= i < j <= path.len() && name == #[trigger] path.subrange(i, j)
}

/// `std::path::Path::file_name`: the final component of the path, which is a part of its text;
/// `None` where there is none or it is `..`. Of a portable path it is what `/` separates, trailing
/// separators and `.` left aside. What separates the components of other paths is up to the
/// platform, and nothing more is said of them.
#[verifier::external_body]
fn path_file_name(path: &str) -> (r: Option<&str>)
    ensures
        match r {
            Some(name) => is_part_of(name@, path@) && (is_portable(path@) ==> final_name(path@)
                == Some(name@)),
            None => is_portable(path@) ==> final_name(path@) is None,
        },
{
    std::path::Path::new(path).file_name().and_then(|name| name.to_str())
}

/// A linker script, by its path.
pub struct LinkerScript(String);

impl View for LinkerScript {
    type V = Seq<char>;

    closed spec fn view(&self) -> Seq<char> {
        self.0@
    }
}

impl LinkerScript {
    /// The script at `path`.
    pub fn new(path: String) -> (r: Self)
        ensures
            r@ == path@,
    {
        LinkerScript(path)
    }

    /// The name of the script, without the directories that lead to it. Of a path that is not
    /// portable only that is said which holds on every platform.
    pub fn file_name(&self) -> (r: Option<&str>)
        ensures
            match r {
                Some(name) => is_part_of(name@, self@) && (is_portable(self@) ==> final_name(self@)
                    == Some(name@)),
                None => is_portable(self@) ==> final_name(self@) is None,
            },
    {
        path_file_name(self.path())
    }

    /// The path of the script.
    pub fn path(&self) -> (r: &str)
        ensures
            r@ == self@,
    {
        self.0.as_str()
    }
}

/// What follows the last `/` of a path that ends with `/` and `name`.
proof fn lemma_last_segment(dir: Seq<char>, name: Seq<char>)
    requires
        !name.contains('/'),
    ensures
        last_segment(dir + seq!['/'] + name) == name,
    decreases name.len(),
{
    let path = dir + seq!['/'] + name;
    if name.len() == 0 {
        assert(path.last() == '/');
        assert(last_segment(path) =~= name);
    } else {
        let front = name.drop_last();
        assert(path.last() == name.last());
        assert(name.contains(name.last()));
        assert forall|c: char| front.contains(c) implies name.contains(c) by {
            let i = choose|i: int| 0 <= i < front.len() && front[i] == c;
            assert(name[i] == c);
        }
        lemma_last_segment(dir, front);
        assert(path.drop_last() =~= dir + seq!['/'] + front);
        assert(last_segment(path) =~= name);
    }
}

/// A text without `/` follows the last `/` of itself.
proof fn lemma_single_segment(name: Seq<char>)
    requires
        !name.contains('/'),
    ensures
        last_segment(name) == name,
    decreases name.len(),
{
    if name.len() > 0 {
        let front = name.drop_last();
        assert(name.contains(name.last()));
        assert forall|c: char| front.contains(c) implies name.contains(c) by {
            let i = choose|i: int| 0 <= i < front.len() && front[i] == c;
            assert(name[i] == c);
        }
        lemma_single_segment(front);
    }
    assert(last_segment(name) =~= name);
}

/// A script is named as it is in its directory, whatever leads there.
pub proof fn law_final_name_is_last_component(dir: Seq<char>, name: Seq<char>)
    requires
        !name.contains('/'),
        name.len() > 0,
        name != "."@,
        name != ".."@,
    ensures
        final_name(name) == Some(name),
        final_name(dir + seq!['/'] + name) == Some(name),
{
    lemma_single_segment(name);
    lemma_last_segment(dir, name);
}

/// Separators and `.` at the end of a path do not change what it names.
pub proof fn law_final_name_leaves_ends_aside(path: Seq<char>)
    ensures
        final_name(path + seq!['/']) == final_name(path),
        final_name(path + seq!['/', '.']) == final_name(path),
{
    reveal_strlit(".");
    lemma_last_segment(path, seq![]);
    lemma_last_segment(path, seq!['.']);
    assert(path + seq!['/'] + Seq::<char>::empty() =~= path + seq!['/']);
    assert(path + seq!['/'] + seq!['.'] =~= path + seq!['/', '.']);
    assert("."@ =~= seq!['.']);
    assert((path + seq!['/']).take(path.len() as int) =~= path);
    assert((path + seq!['/', '.']).take(path.len() as int) =~= path);
}

/// Nothing, a root, `.` and `..` name no script.
pub proof fn law_final_name_may_be_missing(dir: Seq<char>)
    ensures
        final_name(seq![]) is None,
        final_name(seq!['/']) is None,
        final_name(seq!['.']) is None,
        final_name(seq!['.', '.']) is None,
        final_name(dir + seq!['/', '.', '.']) is None,
{
    reveal_strlit(".");
    reveal_strlit("..");
    let empty = Seq::<char>::empty();
    let dot = seq!['.'];
    let dots = seq!['.', '.'];
    assert("."@ =~= dot);
    assert(".."@ =~= dots);
    assert(dots.len() != dot.len());
    assert(!dot.contains('/') && !dots.contains('/') && !empty.contains('/'));
    lemma_single_segment(empty);
    lemma_single_segment(dot);
    lemma_single_segment(dots);
    assert(final_name(empty) is None);
    law_final_name_leaves_ends_aside(empty);
    assert(empty + seq!['/'] =~= seq!['/']);
    lemma_last_segment(dir, dots);
    assert(dir + seq!['/'] + dots =~= dir + seq!['/', '.', '.']);
}

} // verus!
