use flip_link::memory::MemoryEntry;
use flip_link::parser::Parser;
use flip_link::script::{get_includes_from_linker_script, rewrite_linker_script, LinkerScript};

#[test]
fn includes_are_trimmed_lines() {
    let script = "INCLUDE a.x\r\n  \u{a0}INCLUDE\tb.x \n INCLUDEc.x\nX INCLUDE d.x\nINCLUDE\n\u{2003}INCLUDE \u{e9}";
    assert_eq!(
        get_includes_from_linker_script(script),
        vec!["a.x", "b.x", "c.x", "", "\u{e9}"]
    );
    assert!(get_includes_from_linker_script("").is_empty());
    assert!(get_includes_from_linker_script("include a.x\nINCLUD b").is_empty());
}

#[test]
fn one_line_is_replaced() {
    let script = "MEMORY\r\n{\n  RAM : ORIGIN = 0x20000000, LENGTH = 64K\n\r}";
    assert_eq!(
        rewrite_linker_script(script, 2, 0x2000_ff10, 240),
        b"MEMORY\n{\n  RAM : ORIGIN = 0x2000ff10, LENGTH = 240\n\r}\n".to_vec()
    );
    assert_eq!(rewrite_linker_script("a\nb", 7, 1, 1), b"a\nb\n".to_vec());
    assert_eq!(
        rewrite_linker_script("a", 0, 0, 0),
        b"  RAM : ORIGIN = 0x0, LENGTH = 0\n".to_vec()
    );
    assert_eq!(
        rewrite_linker_script("a", 0, u64::MAX, u64::MAX),
        b"  RAM : ORIGIN = 0xffffffffffffffff, LENGTH = 18446744073709551615\n".to_vec()
    );
    assert!(rewrite_linker_script("", 0, 1, 1).is_empty());
}

#[test]
fn replaced_region_is_read_back() {
    let script = "/* RAM */\r\nMEMORY { RAM : ORIGIN = 0x20000000,\n LENGTH = 64K }\nINCLUDE device.x\n";
    let entry = Parser::new(script).find_ram_in_linker_script().unwrap();
    assert_eq!(entry.line, 1);
    let text = String::from_utf8(rewrite_linker_script(script, entry.line, 0x2000_8000, 32768)).unwrap();
    assert_eq!(
        Parser::new(&text).find_ram_in_linker_script(),
        Some(MemoryEntry {
            line: 1,
            origin: 0x2000_8000,
            length: 32768
        })
    );
    let lines: Vec<&str> = text.lines().collect();
    assert_eq!(lines[0], "/* RAM */");
    assert_eq!(lines[2], " LENGTH = 64K }");
    assert_eq!(lines[3], "INCLUDE device.x");
    assert_eq!(get_includes_from_linker_script(&text), vec!["device.x"]);
}

fn reread(script: &str) -> Option<MemoryEntry> {
    let entry = Parser::new(script).find_ram_in_linker_script().unwrap();
    let text = String::from_utf8(rewrite_linker_script(script, entry.line, 3, 4)).unwrap();
    Parser::new(&text).find_ram_in_linker_script()
}

#[test]
fn replaced_region_may_be_lost_with_the_end_of_a_comment() {
    let entry = |line| {
        Some(MemoryEntry {
            line,
            origin: 3,
            length: 4,
        })
    };
    assert_eq!(reread("/*\n*/ RAM : ORIGIN = 1, LENGTH = 2\n/* */"), None);
    assert_eq!(reread("/*\n*/ RAM : ORIGIN = 1, LENGTH = 2"), entry(1));
    assert_eq!(reread("/* RAM\n*/ RAM : ORIGIN = 1, LENGTH = 2"), entry(0));
    assert_eq!(reread("\" /*\nRAM \" : ORIGIN = 1, LENGTH = 2 */"), entry(1));
    assert_eq!(reread("\" /*\nRAM \" : ORIGIN = 1, LENGTH = 2\n*/"), None);
    assert_eq!(reread("# /*\r\nRAM : ORIGIN = 1, LENGTH = 2\n/* */"), entry(1));
}

#[test]
fn script_has_path_and_name() {
    let script = LinkerScript::new("/some/dir/memory.x".to_string());
    assert_eq!(script.path(), "/some/dir/memory.x");
    assert_eq!(script.file_name(), Some("memory.x"));
    assert_eq!(LinkerScript::new("link.x".to_string()).file_name(), Some("link.x"));
    assert_eq!(LinkerScript::new("a/..".to_string()).file_name(), None);
}

#[test]
fn names_are_final_components() {
    for (path, name) in [
        ("ab:c/memory.x", Some("memory.x")),
        ("a:/memory.x", Some("memory.x")),
        ("a:dir/memory.x/", Some("memory.x")),
        ("a:/..", None),
        ("dir/me:mory.x", Some("me:mory.x")),
        ("dir/memory.x/", Some("memory.x")),
        ("dir/memory.x//", Some("memory.x")),
        ("dir/memory.x/.", Some("memory.x")),
        ("dir/memory.x/./", Some("memory.x")),
        ("dir//memory.x", Some("memory.x")),
        ("./memory.x", Some("memory.x")),
        ("../\u{e9}.x", Some("\u{e9}.x")),
        ("...", Some("...")),
        (".x", Some(".x")),
        ("", None),
        ("/", None),
        (".", None),
        ("./.", None),
        ("..", None),
        ("a/../", None),
        ("a/../.", None),
    ] {
        assert_eq!(LinkerScript::new(path.to_string()).file_name(), name, "{}", path);
    }
}
