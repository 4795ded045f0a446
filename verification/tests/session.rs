use flip_link::cargo;
use flip_link::memory::MemoryEntry;
use flip_link::number::ParseError;
use flip_link::search::ScriptSearch;
use flip_link::sections::RegionError;
use flip_link::session::{Session, Stage};
use flip_link::tempdir::{random_tempdir_name, tempdir_name, tempdir_name_for};

const SCRIPT: &str = "MEMORY\n{\n  RAM : ORIGIN = 0x20000000, LENGTH = 64K\n}\n";

/// A 32-bit little endian ELF file without sections.
fn empty_elf() -> Vec<u8> {
    let mut elf = vec![0x7f, b'E', b'L', b'F', 1, 1, 1, 0, 0, 0, 0, 0, 0, 0, 0, 0];
    elf.extend_from_slice(&2u16.to_le_bytes());
    elf.extend_from_slice(&40u16.to_le_bytes());
    for word in [1u32, 0, 0, 0, 0] {
        elf.extend_from_slice(&word.to_le_bytes());
    }
    for half in [52u16, 32, 0, 40, 0, 0] {
        elf.extend_from_slice(&half.to_le_bytes());
    }
    elf
}

fn targets(names: &[&str]) -> Vec<String> {
    names.iter().map(|name| name.to_string()).collect()
}

fn paths(search: &ScriptSearch) -> Vec<&str> {
    search.scripts().iter().map(|script| script.path()).collect()
}

#[test]
fn search_takes_the_first_directory() {
    let mut search = ScriptSearch::new(3, targets(&["a.x", "b.x"]));
    assert_eq!(search.pending(), Some((0, "b.x")));
    search.absent();
    assert_eq!(search.pending(), Some((1, "b.x")));
    search.found("one/b.x".to_string(), "INCLUDE c.x\nINCLUDE d.x\n");
    assert_eq!(search.pending(), Some((0, "d.x")));
    search.absent();
    search.absent();
    assert_eq!(search.pending(), Some((2, "d.x")));
    search.absent();
    assert_eq!(search.pending(), Some((0, "c.x")));
    search.found("c.x".to_string(), "");
    assert_eq!(search.pending(), Some((0, "a.x")));
    search.found("a.x".to_string(), "");
    assert_eq!(search.pending(), None);
    assert_eq!(paths(&search), vec!["one/b.x", "c.x", "a.x"]);
}

#[test]
fn search_leaves_nothing_out() {
    let files = [
        (1, "a.x", "INCLUDE b.x\nINCLUDE missing.x"),
        (0, "b.x", "INCLUDE c.x"),
        (1, "b.x", "INCLUDE hidden.x"),
        (1, "c.x", ""),
        (0, "hidden.x", ""),
        (0, "d.x", "INCLUDE c.x"),
    ];
    let mut search = ScriptSearch::new(2, targets(&["d.x", "none.x", "a.x"]));
    let mut looked_for = vec![];
    while let Some((dir, name)) = search.pending() {
        let name = name.to_string();
        looked_for.push(name.clone());
        match files.iter().find(|file| file.0 == dir && file.1 == name) {
            Some(file) => search.found(format!("{}/{}", dir, name), file.2),
            None => search.absent(),
        }
    }
    looked_for.dedup();
    assert_eq!(
        looked_for,
        ["a.x", "missing.x", "b.x", "c.x", "none.x", "d.x", "c.x"]
    );
    assert_eq!(
        paths(&search),
        ["1/a.x", "0/b.x", "1/c.x", "0/d.x", "1/c.x"]
    );
}

#[test]
fn search_without_targets_is_over() {
    assert_eq!(ScriptSearch::new(1, Vec::new()).pending(), None);
}

#[test]
fn whole_session() {
    let mut session = Session::new(1, targets(&["memory.x", "link.x"]));
    assert_eq!(session.stage(), Stage::Link);
    session.linked(true, Some(0));
    assert_eq!(session.stage(), Stage::Search);
    assert_eq!(session.pending(), Some((0, "link.x")));
    session.found("dir/link.x".to_string(), "SECTIONS {}");
    session.found("dir/memory.x".to_string(), SCRIPT);
    assert_eq!(session.stage(), Stage::Scan { script: 0 });
    assert_eq!(session.pending(), None);
    assert_eq!(session.scanned("SECTIONS {}"), Ok(()));
    assert_eq!(session.stage(), Stage::Scan { script: 1 });
    assert_eq!(session.new_script(SCRIPT), None);
    assert_eq!(session.scanned(SCRIPT), Ok(()));
    let ram = MemoryEntry {
        line: 2,
        origin: 0x2000_0000,
        length: 0x1_0000,
    };
    assert_eq!(session.stage(), Stage::Output { script: 1, ram });
    assert!(session.output(&empty_elf()).is_ok());
    assert_eq!(
        session.stage(),
        Stage::Relink {
            script: 1,
            ram,
            origin: 0x2001_0000,
            length: 0
        }
    );
    assert_eq!(session.scripts()[1].file_name(), Some("memory.x"));
    assert_eq!(
        session.new_script(SCRIPT),
        Some(b"MEMORY\n{\n  RAM : ORIGIN = 0x20010000, LENGTH = 0\n}\n".to_vec())
    );
    session.linked(true, Some(0));
    assert_eq!(session.stage(), Stage::Exit { code: 0 });
    session.linked(false, Some(5));
    assert_eq!(session.stage(), Stage::Exit { code: 0 });
}

#[test]
fn failed_links_end_a_session() {
    let mut session = Session::new(1, targets(&["memory.x"]));
    session.linked(false, Some(7));
    assert_eq!(session.stage(), Stage::Exit { code: 7 });
    let mut session = Session::new(1, targets(&["memory.x"]));
    session.linked(false, None);
    assert_eq!(session.stage(), Stage::Exit { code: 1 });
    let mut session = Session::new(1, targets(&["memory.x"]));
    session.linked(true, None);
    session.found("memory.x".to_string(), SCRIPT);
    assert_eq!(session.scanned(SCRIPT), Ok(()));
    assert!(session.output(&empty_elf()).is_ok());
    session.linked(false, Some(3));
    assert_eq!(session.stage(), Stage::Exit { code: 3 });
}

#[test]
fn sessions_without_a_region() {
    let mut session = Session::new(1, Vec::new());
    assert_eq!(session.error(), None);
    session.linked(true, Some(0));
    assert_eq!(session.stage(), Stage::NoRam);
    assert_eq!(
        session.error(),
        Some("MEMORY.RAM not found after scanning linker scripts")
    );
    let mut session = Session::new(2, targets(&["a.x", "b.x"]));
    session.linked(true, Some(0));
    session.absent();
    session.absent();
    session.found("a.x".to_string(), "");
    assert_eq!(session.scanned("/* RAM */"), Ok(()));
    assert_eq!(session.stage(), Stage::NoRam);
}

#[test]
fn unreadable_input_leaves_a_session_as_it_is() {
    let mut session = Session::new(1, targets(&["a.x"]));
    session.absent();
    assert_eq!(session.scanned("RAM"), Ok(()));
    assert!(session.output(b"").is_ok());
    assert_eq!(session.stage(), Stage::Link);
    session.linked(true, Some(0));
    session.found("a.x".to_string(), "");
    assert_eq!(session.scanned("RAM"), Err(ParseError::NoDigits));
    assert_eq!(session.stage(), Stage::Scan { script: 0 });
    assert_eq!(session.scanned("RAM : ORIGIN = 1, LENGTH = 2"), Ok(()));
    assert!(matches!(session.output(b"?"), Err(RegionError::Object(_))));
    assert!(matches!(session.stage(), Stage::Output { script: 0, .. }));
}

#[test]
fn names_of_directories() {
    assert_eq!(
        tempdir_name(&[0, 1, 0x0f, 0x10, 0xab, 0xff, 9, 0xa0]),
        "flip-link-[00, 01, 0f, 10, ab, ff, 09, a0]"
    );
    assert_eq!(tempdir_name(&[0xc4]), "flip-link-[c4]");
    assert_eq!(tempdir_name(&[]), "flip-link-[]");
    let name = random_tempdir_name().unwrap();
    assert_eq!(name.len(), "flip-link-[]".len() + 8 * 2 + 7 * 2);
    assert_ne!(name, random_tempdir_name().unwrap());
}

#[test]
fn names_for_what_the_system_gave() {
    assert_eq!(
        tempdir_name_for(Ok([0xff, 2, 3, 4, 5, 6, 7, 0x80])),
        Ok("flip-link-[ff, 02, 03, 04, 05, 06, 07, 80]".to_string())
    );
    assert_eq!(
        tempdir_name_for(Err("no entropy".to_string())),
        Err("no entropy".to_string())
    );
}

#[test]
fn outcomes_of_a_test_run() {
    assert_eq!(cargo::clean_test_app(true), Ok(()));
    assert_eq!(
        cargo::clean_test_app(false),
        Err("cleaning `test-flip-link-app`".to_string())
    );
    assert_eq!(cargo::install_flip_link(true), Ok(()));
    assert_eq!(
        cargo::install_flip_link(false),
        Err("installing flip-link from path".to_string())
    );
    assert_eq!(cargo::test(true), Ok(()));
    assert_eq!(cargo::test(false), Err("running `cargo test`".to_string()));
}
