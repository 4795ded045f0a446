//! The course of a link: which step follows which, and what the outcome of each means.
//!
//! A session says which step is due. Whoever runs it performs the step (runs the linker, looks for
//! a file, reads one) and reports what came of it.
use vstd::prelude::*;
use vstd::string::*;

use crate::memory::MemoryEntry;
use crate::number::ParseError;
use crate::parser;
use crate::parser::Parser;
use crate::script;
use crate::script::LinkerScript;
use crate::search::{ScriptSearch, SearchState};
use crate::sections;
use crate::sections::RegionError;
use crate::text;

verus! {

/// The exit code for a linker that failed without one.
pub const EXIT_CODE_FAILURE: i32 = 1;

/// The step that is due.
#[derive(Clone, Copy, Debug, PartialEq, Eq, Structural)]
pub enum Stage {
    /// Link the program normally.
    Link,
    /// Look for the linker script that the search is at.
    Search,
    /// Read the linker script of this index.
    Scan { script: usize },
    /// Read the linked program. The linker script of index `script` holds `ram`.
    Output { script: usize, ram: MemoryEntry },
    /// Link the program with another version of the linker script of index `script`, in which the
    /// line of `ram` describes a region at `origin`, `length` bytes long. The stack starts at
    /// `origin`.
    Relink { script: usize, ram: MemoryEntry, origin: u64, length: u64 },
    /// Exit with this code.
    Exit { code: i32 },
    /// Report that no linker script holds a `RAM` region.
    NoRam,
}

/// What came of a step.
pub enum Event {
    /// The linker ran: whether it succeeded, and its exit code.
    Linked { success: bool, code: Option<i32> },
    /// The directory that was looked at lacks the script.
    Absent,
    /// The directory that was looked at has the script.
    Found { path: Seq<char>, contents: Seq<u8> },
    /// The text of a linker script.
    Scanned { contents: Seq<u8> },
    /// The bytes of the linked program.
    Output { elf: Seq<u8> },
}

/// The code to exit with where a linker failed.
pub open spec fn failure_code(code: Option<i32>) -> i32 {
    match code {
        Some(c) => c,
        None => EXIT_CODE_FAILURE,
    }
}

/// Where a session stands.
pub struct SessionState {
    pub stage: Stage,
    pub search: SearchState,
}

impl SessionState {
    /// Reading goes on with the script of index `script`, where there is one.
    pub open spec fn scan(self, script: nat) -> SessionState {
        SessionState {
            stage: if script < self.search.scripts.len() {
                Stage::Scan { script: script as usize }
            } else {
                Stage::NoRam
            },
            ..self
        }
    }

    /// The search goes on, or ends and leaves its scripts to be read.
    pub open spec fn searching(self, search: SearchState) -> SessionState {
        if search.probe is Some {
            SessionState { stage: Stage::Search, search }
        } else {
            SessionState { search, ..self }.scan(0)
        }
    }

    /// What a session does upon `event`. An event that does not belong to the step that is due
    /// changes nothing, nor does a text or a program that cannot be read.
    pub open spec fn step(self, event: Event) -> SessionState {
        match (self.stage, event) {
            (Stage::Link, Event::Linked { success, code }) => if success {
                self.searching(self.search)
            } else {
                SessionState { stage: Stage::Exit { code: failure_code(code) }, ..self }
            },
            (Stage::Search, Event::Absent) => self.searching(self.search.absent()),
            (Stage::Search, Event::Found { path, contents }) => self.searching(
                self.search.found(path, contents),
            ),
            (Stage::Scan { script }, Event::Scanned { contents }) => match parser::find_region(
                contents,
            ) {
                Ok(Some(region)) => SessionState {
                    stage: Stage::Output {
                        script,
                        ram: MemoryEntry {
                            line: region.line as usize,
                            origin: region.origin as u64,
                            length: region.length as u64,
                        },
                    },
                    ..self
                },
                Ok(None) => self.scan(script as nat + 1),
                Err(_) => self,
            },
            (Stage::Output { script, ram }, Event::Output { elf }) => match new_region(ram, elf) {
                Some((origin, length)) => SessionState {
                    stage: Stage::Relink { script, ram, origin, length },
                    ..self
                },
                None => self,
            },
            (Stage::Relink { .. }, Event::Linked { success, code }) => SessionState {
                stage: Stage::Exit {
                    code: if success {
                        0
                    } else {
                        failure_code(code)
                    },
                },
                ..self
            },
            _ => self,
        }
    }

    /// What a session does upon `events`, in order.
    pub open spec fn run(self, events: Seq<Event>) -> SessionState
        decreases events.len(),
    {
        if events.len() == 0 {
            self
        } else {
            self.run(events.drop_last()).step(events.last())
        }
    }
}

/// The region that the used part of `ram` moves to for the program `elf`. There is none where the
/// program cannot be read or something ends behind the address space.
pub open spec fn new_region(ram: MemoryEntry, elf: Seq<u8>) -> Option<(u64, u64)> {
    match sections::object_sections(elf) {
        Some(list) => if ram.wf() && sections::all_fit(list) {
            Some(sections::new_region(ram, list))
        } else {
            None
        },
        None => None,
    }
}

/// The course of a link.
pub struct Session {
    stage: Stage,
    search: ScriptSearch,
}

impl View for Session {
    type V = SessionState;

    closed spec fn view(&self) -> SessionState {
        SessionState { stage: self.stage, search: self.search@ }
    }
}

impl Session {
    /// The search is in order, and the scripts that the stage names were found.
    pub closed spec fn wf(self) -> bool {
        &&& self.search.wf()
        &&& match self.stage {
            Stage::Search => self.search@.probe is Some,
            Stage::Scan { script } => script < self.search@.scripts.len(),
            Stage::Output { script, .. } => script < self.search@.scripts.len(),
            Stage::Relink { script, .. } => script < self.search@.scripts.len(),
            _ => true,
        }
    }

    /// A session that looks for the linker scripts `targets`, the last of them first, in `dirs`
    /// directories.
    pub fn new(dirs: usize, targets: Vec<String>) -> (r: Self)
        requires
            dirs > 0,
        ensures
            r.wf(),
            r@.stage == Stage::Link,
            r@.search == (SearchState {
                dirs: dirs as nat,
                targets: crate::search::strings(targets@),
                probe: None,
                scripts: seq![],
            }).next_target(),
    {
        Session { stage: Stage::Link, search: ScriptSearch::new(dirs, targets) }
    }

    /// The step that is due.
    pub fn stage(&self) -> (r: Stage)
        ensures
            r == self@.stage,
    {
        self.stage
    }

    /// The directory, by its index, and the script to look for in it; `None` when all were looked
    /// for.
    pub fn pending(&self) -> (r: Option<(usize, &str)>)
        ensures
            match r {
                Some((dir, name)) => self@.search.probe == Some((dir as nat, name@)),
                None => self@.search.probe is None,
            },
    {
        self.search.pending()
    }

    /// The scripts that were found, in order.
    pub fn scripts(&self) -> (r: &Vec<LinkerScript>)
        ensures
            crate::search::paths(r@) == self@.search.scripts,
    {
        self.search.scripts()
    }

    fn scan(&mut self, script: usize)
        requires
            old(self).search.wf(),
        ensures
            final(self).wf(),
            final(self)@ == old(self)@.scan(script as nat),
    {
        let scripts = self.search.scripts();
        assert(scripts@.len() == crate::search::paths(scripts@).len());
        if script < scripts.len() {
            self.stage = Stage::Scan { script };
        } else {
            self.stage = Stage::NoRam;
        }
    }

    fn searching(&mut self)
        requires
            old(self).search.wf(),
        ensures
            final(self).wf(),
            final(self)@ == old(self)@.searching(old(self)@.search),
    {
        if self.search.pending().is_some() {
            self.stage = Stage::Search;
        } else {
            self.scan(0);
        }
    }

    /// Takes note of how the linker ended.
    pub fn linked(&mut self, success: bool, code: Option<i32>)
        requires
            old(self).wf(),
        ensures
            final(self).wf(),
            final(self)@ == old(self)@.step(Event::Linked { success, code }),
    {
        let failure = match code {
            Some(c) => c,
            None => EXIT_CODE_FAILURE,
        };
        match self.stage {
            Stage::Link => {
                if success {
                    self.searching();
                } else {
                    self.stage = Stage::Exit { code: failure };
                }
            },
            Stage::Relink { .. } => {
                self.stage = Stage::Exit {
                    code: if success {
                        0
                    } else {
                        failure
                    },
                };
            },
            _ => {},
        }
    }

    /// Takes note that the directory that was looked at lacks the script.
    pub fn absent(&mut self)
        requires
            old(self).wf(),
        ensures
            final(self).wf(),
            final(self)@ == old(self)@.step(Event::Absent),
    {
        if let Stage::Search = self.stage {
            self.search.absent();
            self.searching();
        }
    }

    /// Takes note that the directory that was looked at has the script, at `path` and with the text
    /// `contents`.
    pub fn found(&mut self, path: String, contents: &str)
        requires
            old(self).wf(),
        ensures
            final(self).wf(),
            final(self)@ == old(self)@.step(
                (Event::Found { path: path@, contents: text::bytes(contents) }),
            ),
    {
        if let Stage::Search = self.stage {
            self.search.found(path, contents);
            self.searching();
        }
    }

    /// Takes note of the text of the linker script that was to be read. A `RAM` region without a
    /// number in it is an error.
    pub fn scanned(&mut self, contents: &str) -> (r: Result<(), ParseError>)
        requires
            old(self).wf(),
        ensures
            final(self).wf(),
            final(self)@ == old(self)@.step((Event::Scanned { contents: text::bytes(contents) })),
            match r {
                Ok(_) => !(old(self)@.stage is Scan) || parser::find_region(text::bytes(contents))
                    is Ok,
                Err(e) => old(self)@.stage is Scan && parser::find_region(text::bytes(contents))
                    == Err::<Option<parser::Region>, ParseError>(e),
            },
    {
        if let Stage::Scan { script } = self.stage {
            let mut parser = Parser::new(contents);
            match parser.try_find_ram_in_linker_script() {
                Ok(Some(ram)) => {
                    self.stage = Stage::Output { script, ram };
                },
                Ok(None) => {
                    let scripts = self.search.scripts();
                    assert(scripts@.len() == crate::search::paths(scripts@).len());
                    if scripts.len() - script > 1 {
                        self.scan(script + 1);
                    } else {
                        self.stage = Stage::NoRam;
                    }
                },
                Err(e) => {
                    return Err(e);
                },
            }
        }
        Ok(())
    }

    /// Takes note of the bytes of the linked program. One whose sections cannot be read or do not
    /// fit in the address space is an error.
    pub fn output(&mut self, elf: &[u8]) -> (r: Result<(), RegionError>)
        requires
            old(self).wf(),
        ensures
            final(self).wf(),
            final(self)@ == old(self)@.step(Event::Output { elf: elf@ }),
            match old(self)@.stage {
                Stage::Output { ram, .. } => match new_region(ram, elf@) {
                    Some(_) => r is Ok,
                    None => if sections::object_sections(elf@) is None {
                        r matches Err(RegionError::Object(_))
                    } else {
                        r matches Err(RegionError::AddressOverflow)
                    },
                },
                _ => r is Ok,
            },
    {
        if let Stage::Output { script, ram } = self.stage {
            match sections::region_for_program(ram, elf) {
                Ok((origin, length)) => {
                    self.stage = Stage::Relink { script, ram, origin, length };
                },
                Err(e) => {
                    return Err(e);
                },
            }
        }
        Ok(())
    }

    /// What is to be reported instead of an exit code; `None` where nothing is.
    pub fn error(&self) -> (r: Option<&'static str>)
        ensures
            match r {
                Some(message) => self@.stage is NoRam && message@
                    == "MEMORY.RAM not found after scanning linker scripts"@,
                None => !(self@.stage is NoRam),
            },
    {
        match self.stage {
            Stage::NoRam => Some("MEMORY.RAM not found after scanning linker scripts"),
            _ => None,
        }
    }

    /// The new version of the linker script that is to be linked with, whose text is `contents`.
    /// Before the region is known there is none.
    pub fn new_script(&self, contents: &str) -> (r: Option<Vec<u8>>)
        ensures
            match self@.stage {
                Stage::Relink { ram, origin, length, .. } => r matches Some(t) && t@
                    == script::rewritten(text::bytes(contents), ram.line as int, origin, length),
                _ => r is None,
            },
    {
        match self.stage {
            Stage::Relink { ram, origin, length, .. } => Some(
                script::rewrite_linker_script(contents, ram.line, origin, length),
            ),
            _ => None,
        }
    }
}

/// Nothing happens after the exit code is known.
pub proof fn law_exit_is_final(s: SessionState, events: Seq<Event>)
    requires
        s.stage is Exit,
    ensures
        s.run(events) == s,
    decreases events.len(),
{
    if events.len() > 0 {
        law_exit_is_final(s, events.drop_last());
    }
}

/// Nothing but an exit follows the first link unless it succeeds: scripts are searched and read, and
/// the program is linked again, only after a link that succeeded.
pub proof fn law_first_link_must_succeed(s: SessionState, events: Seq<Event>)
    requires
        s.stage is Link,
        !(s.run(events).stage is Link),
        !(s.run(events).stage is Exit),
    ensures
        exists|i: int|
            0 <= i < events.len() && (#[trigger] events[i] matches Event::Linked { success, .. }
                && success),
    decreases events.len(),
{
    if events.len() > 0 {
        let front = events.drop_last();
        let before = s.run(front);
        if before.stage is Link {
            let last = events.len() - 1;
            assert(events[last] matches Event::Linked { success, .. } && success);
        } else {
            assert(!(before.stage is Exit));
            law_first_link_must_succeed(s, front);
            let i = choose|i: int|
                0 <= i < front.len() && (#[trigger] front[i] matches Event::Linked { success, .. }
                    && success);
            assert(events[i] == front[i]);
        }
    }
}

/// The first script that holds a region decides: where the scripts before it hold none, its region
/// is the one that is moved.
pub proof fn law_first_region_decides(s: SessionState, texts: Seq<Seq<u8>>)
    requires
        s.stage == (Stage::Scan { script: 0 }),
        0 < texts.len() <= s.search.scripts.len() <= usize::MAX,
        forall|i: int|
            0 <= i < texts.len() - 1 ==> parser::find_region(#[trigger] texts[i]) == Ok::<
                Option<parser::Region>,
                ParseError,
            >(None),
        parser::find_region(texts.last()) matches Ok(Some(_)),
    ensures
        ({
            let region = parser::find_region(texts.last())->Ok_0->0;
            let events = texts.map_values(|t: Seq<u8>| Event::Scanned { contents: t });
            s.run(events).stage == Stage::Output {
                script: (texts.len() - 1) as usize,
                ram: MemoryEntry {
                    line: region.line as usize,
                    origin: region.origin as u64,
                    length: region.length as u64,
                },
            }
        }),
{
    let f = |t: Seq<u8>| Event::Scanned { contents: t };
    let events = texts.map_values(f);
    lemma_scans_go_on(s, texts.drop_last());
    assert(events.drop_last() =~= texts.drop_last().map_values(f));
    assert(events.last() == f(texts.last()));
}

/// Where no script holds a region, that is reported once all of them were read.
pub proof fn law_missing_region_is_reported(s: SessionState, texts: Seq<Seq<u8>>)
    requires
        s.stage == (Stage::Scan { script: 0 }),
        0 < texts.len() == s.search.scripts.len() <= usize::MAX,
        forall|i: int|
            0 <= i < texts.len() ==> parser::find_region(#[trigger] texts[i]) == Ok::<
                Option<parser::Region>,
                ParseError,
            >(None),
    ensures
        s.run(texts.map_values(|t: Seq<u8>| Event::Scanned { contents: t })).stage is NoRam,
{
    let f = |t: Seq<u8>| Event::Scanned { contents: t };
    let events = texts.map_values(f);
    let last = texts.len() - 1;
    lemma_scans_go_on(s, texts.drop_last());
    assert(events.drop_last() =~= texts.drop_last().map_values(f));
    assert(events.last() == f(texts[last]));
}

/// Scripts without a region are passed over.
proof fn lemma_scans_go_on(s: SessionState, texts: Seq<Seq<u8>>)
    requires
        s.stage == (Stage::Scan { script: 0 }),
        texts.len() < s.search.scripts.len() <= usize::MAX,
        forall|i: int|
            0 <= i < texts.len() ==> parser::find_region(#[trigger] texts[i]) == Ok::<
                Option<parser::Region>,
                ParseError,
            >(None),
    ensures
        s.run(texts.map_values(|t: Seq<u8>| Event::Scanned { contents: t })) == (SessionState {
            stage: Stage::Scan { script: texts.len() as usize },
            ..s
        }),
    decreases texts.len(),
{
    let f = |t: Seq<u8>| Event::Scanned { contents: t };
    let events = texts.map_values(f);
    if texts.len() > 0 {
        lemma_scans_go_on(s, texts.drop_last());
        assert(events.drop_last() =~= texts.drop_last().map_values(f));
        assert(events.last() == f(texts.last()));
        assert(parser::find_region(texts[texts.len() - 1]) == Ok::<
            Option<parser::Region>,
            ParseError,
        >(None));
    }
}

/// The region that the program is linked with again ends where RAM ends and holds all of RAM that
/// the program uses, so that the stack, which starts where that region does, grows away from it.
pub proof fn law_relinked_region_holds_used_ram(s: SessionState, elf: Seq<u8>)
    requires
        s.stage is Output,
        s.step(Event::Output { elf }).stage is Relink,
    ensures
        match s.step(Event::Output { elf }).stage {
            Stage::Relink { ram, origin, length, .. } => {
                &&& s.stage matches Stage::Output { ram: before, .. }
                &&& before == ram
                &&& sections::object_sections(elf) matches Some(list)
                &&& origin + length == ram.origin + ram.length
                &&& sections::used_length(ram, list) <= length
            },
            _ => false,
        },
{
    let ram = s.stage->Output_ram;
    let list = sections::object_sections(elf)->0;
    sections::law_new_region_is_end_region(ram, list);
}

} // verus!
