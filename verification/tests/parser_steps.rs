use flip_link::memory::MemoryEntry;
use flip_link::number::ParseError;
use flip_link::parser::Parser;

fn number(script: &str) -> (Result<u64, ParseError>, &str, usize) {
    let mut parser = Parser::new(script);
    let r = parser.try_parse_number();
    (r, parser.script, parser.position)
}

fn expression(script: &str) -> (Result<u64, ParseError>, &str, usize) {
    let mut parser = Parser::new(script);
    let r = parser.try_parse_expression();
    (r, parser.script, parser.position)
}

fn entry(script: &str) -> Result<Option<MemoryEntry>, ParseError> {
    Parser::new(script).try_find_ram_in_linker_script()
}

#[test]
fn numbers_have_radix_and_unit() {
    assert_eq!(number(" \t10K rest"), (Ok(10240), " rest", 5));
    assert_eq!(number("10k"), (Ok(10240), "", 3));
    assert_eq!(number("3M,"), (Ok(3 * 1024 * 1024), ",", 2));
    assert_eq!(number("3m"), (Ok(3 * 1024 * 1024), "", 2));
    assert_eq!(number("0xFfK"), (Ok(255 * 1024), "", 5));
    assert_eq!(number("64P"), (Ok(64), "P", 2));
    assert_eq!(number("0"), (Ok(0), "", 1));
    assert_eq!(number("18446744073709551615"), (Ok(u64::MAX), "", 20));
    assert_eq!(number("0xffffffffffffffff\u{e9}"), (Ok(u64::MAX), "\u{e9}", 18));
    assert_eq!(Parser::new("0x2Krest").parse_number(), 2048);
}

#[test]
fn bad_numbers_read_nothing() {
    assert_eq!(number(" x1"), (Err(ParseError::NoDigits), " x1", 0));
    assert_eq!(number(""), (Err(ParseError::NoDigits), "", 0));
    assert_eq!(number("0xK"), (Err(ParseError::NoDigits), "0xK", 0));
    assert_eq!(number("12ab"), (Err(ParseError::InvalidDigit), "12ab", 0));
    assert_eq!(
        number("18446744073709551616"),
        (Err(ParseError::Overflow), "18446744073709551616", 0)
    );
    assert_eq!(
        number("0x10000000000000000"),
        (Err(ParseError::Overflow), "0x10000000000000000", 0)
    );
    assert_eq!(
        number("18014398509481984K"),
        (Err(ParseError::Overflow), "18014398509481984K", 0)
    );
}

#[test]
fn expressions_are_sums() {
    assert_eq!(expression("1 + 2K+\n0x3 ; x"), (Ok(1 + 2048 + 3), "; x", 12));
    assert_eq!(expression("7"), (Ok(7), "", 1));
    assert_eq!(expression("1 + "), (Err(ParseError::NoDigits), "1 + ", 0));
    assert_eq!(
        expression("18446744073709551615 + 1"),
        (Err(ParseError::Overflow), "18446744073709551615 + 1", 0)
    );
    assert_eq!(Parser::new("5 + 6 ").parse_expression(), 11);
}

#[test]
fn tokens_and_white_space() {
    let mut parser = Parser::new("\r\n \tRAM: x");
    parser.parse_token("ORIGIN");
    assert_eq!((parser.script, parser.position), ("RAM: x", 4));
    parser.parse_token("RAM");
    assert_eq!((parser.script, parser.position), (": x", 7));
    parser.advance(1);
    parser.eat_whitespace();
    parser.eat_whitespace();
    assert_eq!((parser.script, parser.position), ("x", 9));
    let mut parser = Parser::new("\u{a0}x");
    parser.eat_whitespace();
    assert_eq!((parser.script, parser.position), ("\u{a0}x", 0));
    parser.parse_token("\u{a0}");
    assert_eq!((parser.script, parser.position), ("x", 2));
}

#[test]
fn line_of_ram() {
    let mut parser = Parser {
        script: "a\nb RAM\nRAM",
        position: 3,
        ram_line: 9,
    };
    parser.get_ram_line();
    assert_eq!((parser.ram_line, parser.position), (1, 3));
    let mut parser = Parser {
        script: "none",
        position: 0,
        ram_line: 9,
    };
    parser.get_ram_line();
    assert_eq!(parser.ram_line, 0);
    let mut parser = Parser {
        script: "",
        position: 0,
        ram_line: 9,
    };
    parser.get_ram_line();
    assert_eq!(parser.ram_line, 9);
}

#[test]
fn regions_in_comments_are_passed_over() {
    let script = "/* RAM : ORIGIN = 1, LENGTH = 2 */ /* * RAM **/\n\
                  RAM : ORIGIN = 0x10, LENGTH = 3\n/* RAM */";
    assert_eq!(
        entry(script),
        Ok(Some(MemoryEntry {
            line: 1,
            origin: 16,
            length: 3
        }))
    );
    assert_eq!(entry("/* RAM : ORIGIN = 1, LENGTH = 2 */"), Ok(None));
    assert_eq!(entry("/*/ RAM : ORIGIN = 1, LENGTH = 2 */"), Ok(None));
    assert_eq!(
        entry("/**/RAM : ORIGIN = 1, LENGTH = 2"),
        Ok(Some(MemoryEntry {
            line: 0,
            origin: 1,
            length: 2
        }))
    );
}

#[test]
fn file_patterns_open_no_comment() {
    let found = Ok(Some(MemoryEntry {
        line: 1,
        origin: 1,
        length: 2,
    }));
    for pattern in ["dir/*.o", "*/*.o", "dir?/*/*.o", "lib_1/*", "\u{e9}/*", "[a-z]/*"] {
        assert_eq!(entry(&format!("{}\nRAM : ORIGIN = 1, LENGTH = 2", pattern)), found);
        assert_eq!(entry(&format!("{} /* x */\nRAM : ORIGIN = 1, LENGTH = 2", pattern)), found);
    }
    for comment in ["{/* RAM */", " /* RAM */", "/* RAM *//* RAM */", "//* RAM */", ",/*RAM*/"] {
        assert_eq!(entry(&format!("{}\nRAM : ORIGIN = 1, LENGTH = 2", comment)), found);
    }
}

#[test]
fn comments_open_only_where_they_close() {
    let found = Ok(Some(MemoryEntry {
        line: 1,
        origin: 1,
        length: 2,
    }));
    for line in ["# /*", "/*", "*/ /*", "/* */ /*", "/*/", "\" /* \"", "\"# /*", "# \" /*"] {
        assert_eq!(entry(&format!("{}\nRAM : ORIGIN = 1, LENGTH = 2", line)), found);
    }
    for (line, close) in [
        ("# /*", "*/"),
        ("# \" /*", "\" */"),
        ("\" /*", "\" */"),
        ("\" /* \"", "*/"),
        ("\"\" # /*", "*/"),
    ] {
        let script = format!("{}\nRAM : ORIGIN = 1, LENGTH = 2\n{}", line, close);
        assert_eq!(entry(&script), found);
    }
    for line in ["\" /* RAM */", "\"#\" /* RAM */", "\"a\" /* RAM */ \"b\"", "/* \" RAM */ # \""] {
        assert_eq!(entry(&format!("{}\nRAM : ORIGIN = 1, LENGTH = 2", line)), found);
    }
    let mut parser = Parser::new("# /*\nRAM : ORIGIN = 1, LENGTH = 2");
    parser.get_ram_line();
    assert_eq!(parser.ram_line, 1);
    assert_eq!(entry("# RAM : ORIGIN = 1, LENGTH = 2").unwrap().unwrap().line, 0);
    assert_eq!(entry("\n\"RAM\" : ORIGIN = 1, LENGTH = 2"), found);
}

#[test]
fn first_region_decides() {
    let script = "\u{20ac}\r\nRAM (xrw) : ORIGIN = 4, LENGTH = 5\nRAM : ORIGIN = 6, LENGTH = 7";
    let mut parser = Parser::new(script);
    assert_eq!(
        parser.find_ram_in_linker_script(),
        Some(MemoryEntry {
            line: 1,
            origin: 4,
            length: 5
        })
    );
    assert_eq!(parser.ram_line, 1);
    assert_eq!(parser.script, "RAM : ORIGIN = 6, LENGTH = 7");
    assert_eq!(parser.position + parser.script.len(), script.len());
}

#[test]
fn regions_without_numbers_are_errors() {
    let mut parser = Parser::new(" RAM : ORIGIN = x, LENGTH = 2");
    assert_eq!(
        parser.try_find_ram_in_linker_script(),
        Err(ParseError::NoDigits)
    );
    assert_eq!((parser.script, parser.position), (" RAM : ORIGIN = x, LENGTH = 2", 0));
    assert_eq!(
        entry("RAM : ORIGIN = 1, LENGTH = 2z4\n"),
        Ok(Some(MemoryEntry {
            line: 0,
            origin: 1,
            length: 2
        }))
    );
    assert_eq!(
        entry("RAM : ORIGIN = 1, LENGTH = 2a"),
        Err(ParseError::InvalidDigit)
    );
    assert_eq!(
        entry("RAM : ORIGIN = 1, LENGTH = 99999999999999999999"),
        Err(ParseError::Overflow)
    );
}
