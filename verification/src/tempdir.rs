//! The name of the directory that holds the new linker script.
use vstd::prelude::*;
use vstd::string::*;

verus! {

/// What `getrandom` reports where the system has no random bytes to give.
#[verifier::external_type_specification]
#[verifier::external_body]
pub struct ExGetrandomError(getrandom::Error);

/// `getrandom::getrandom` on a buffer of eight bytes: random bytes, or an error of the system. Which
/// of them come is chance.
#[verifier::external_body]
fn random_bytes() -> (r: Result<[u8; 8], getrandom::Error>) {
    let mut random = [0; 8];
    getrandom::getrandom(&mut random)?;
    Ok(random)
}

/// The text of a `getrandom::Error`, by its `Display`. The system words the errors that are its own.
#[verifier::external_body]
fn error_text(e: &getrandom::Error) -> (r: String) {
    e.to_string()
}

/// The two hexadecimal digits of `byte`.
pub open spec fn hex_byte(byte: u8) -> Seq<char> {
    seq![hex_char(byte / 16), hex_char(byte % 16)]
}

/// The hexadecimal digit of value `d`.
pub open spec fn hex_char(d: u8) -> char {
    if d < 10 {
        ('0' as u8 + d) as char
    } else {
        ('a' as u8 + d - 10) as char
    }
}

/// `bytes` in hexadecimal digits, with a comma and a space between two of them.
pub open spec fn hex_list(bytes: Seq<u8>) -> Seq<char>
    decreases bytes.len(),
{
    if bytes.len() == 0 {
        seq![]
    } else if bytes.len() == 1 {
        hex_byte(bytes[0])
    } else {
        hex_list(bytes.drop_last()) + ", "@ + hex_byte(bytes.last())
    }
}

/// The name of the directory for the random bytes `random`.
pub open spec fn dir_name(random: Seq<u8>) -> Seq<char> {
    "flip-link-["@ + hex_list(random) + "]"@
}

/// The hexadecimal digit of value `d`, as a string.
fn hex_digit(d: u8) -> (r: &'static str)
    requires
        d < 16,
    ensures
        r@ == seq![hex_char(d)],
{
    proof {
        reveal_strlit("0");
        reveal_strlit("1");
        reveal_strlit("2");
        reveal_strlit("3");
        reveal_strlit("4");
        reveal_strlit("5");
        reveal_strlit("6");
        reveal_strlit("7");
        reveal_strlit("8");
        reveal_strlit("9");
        reveal_strlit("a");
        reveal_strlit("b");
        reveal_strlit("c");
        reveal_strlit("d");
        reveal_strlit("e");
        reveal_strlit("f");
    }
    let r = match d {
        0 => "0",
        1 => "1",
        2 => "2",
        3 => "3",
        4 => "4",
        5 => "5",
        6 => "6",
        7 => "7",
        8 => "8",
        9 => "9",
        10 => "a",
        11 => "b",
        12 => "c",
        13 => "d",
        14 => "e",
        _ => "f",
    };
    assert(r@ =~= seq![hex_char(d)]);
    r
}

/// The name of the directory for the random bytes `random`.
pub fn tempdir_name(random: &[u8]) -> (r: String)
    ensures
        r@ == dir_name(random@),
{
    let mut name = "flip-link-[".to_owned();
    let mut i: usize = 0;
    assert(name@ =~= "flip-link-["@ + hex_list(random@.take(0)));
    while i < random.len()
        invariant
            i <= random@.len(),
            name@ == "flip-link-["@ + hex_list(random@.take(i as int)),
        decreases random@.len() - i,
    {
        let byte = random[i];
        let ghost front = random@.take(i as int);
        let ghost next = random@.take(i + 1);
        assert(next.drop_last() =~= front);
        if i > 0 {
            name.append(", ");
        }
        name.append(hex_digit(byte / 16));
        name.append(hex_digit(byte % 16));
        assert(name@ =~= "flip-link-["@ + hex_list(next));
        i += 1;
    }
    assert(random@.take(i as int) =~= random@);
    name.append("]");
    name
}

/// A name for a new directory, made of random bytes, or the text of the error where there are none.
/// Which of the two it is, is up to the system, and is not said. `tempdir_name_for` says what comes
/// of either.
pub fn random_tempdir_name() -> (r: Result<String, String>)
    ensures
        r matches Ok(name) ==> exists|random: Seq<u8>|
            random.len() == 8 && name@ == #[trigger] dir_name(random),
{
    let random = match random_bytes() {
        Ok(random) => Ok(random),
        Err(e) => Err(error_text(&e)),
    };
    tempdir_name_for(random)
}

/// The name for what the system gave: the one for its random bytes, or the text of its error.
pub fn tempdir_name_for(random: Result<[u8; 8], String>) -> (r: Result<String, String>)
    ensures
        match random {
            Ok(bytes) => r matches Ok(name) && name@ == dir_name(bytes@),
            Err(message) => r matches Err(m) && m == message,
        },
{
    match random {
        Ok(bytes) => Ok(tempdir_name(bytes.as_slice())),
        Err(message) => Err(message),
    }
}

} // verus!
