//! Laws on the course of a link and on the search for linker scripts, event by event.
use vstd::prelude::*;
use vstd::string::*;

use crate::memory::MemoryEntry;
use crate::number::ParseError;
use crate::parser;
use crate::parser::Region;
use crate::script;
use crate::script::LinkerScript;
use crate::search;
use crate::search::{Files, SearchState};
use crate::sections;
use crate::session;
use crate::session::{Event, SessionState, Stage};
use crate::text;

verus! {

/// `after` is the search `before` once it is done with the name that it was at, has found `scripts`
/// in all and has `waiting` names before it: the last of them is next, from the first directory on.
pub open spec fn goes_on(
    before: SearchState,
    after: SearchState,
    scripts: Seq<Seq<char>>,
    waiting: Seq<Seq<char>>,
) -> bool {
    &&& after.dirs == before.dirs
    &&& after.scripts == scripts
    &&& waiting.len() > 0 ==> after.probe == Some((0nat, waiting[waiting.len() - 1]))
        && after.targets == waiting.take(waiting.len() - 1)
    &&& waiting.len() == 0 ==> after.probe is None && after.targets.len() == 0
}

/// The stage of a session is that of its search: it looks for a script while there is one to look
/// for, then reads the first of the scripts, and reports that there is no region where there are no
/// scripts.
pub open spec fn follows_search(after: SessionState) -> bool {
    if after.search.probe is Some {
        after.stage is Search
    } else if after.search.scripts.len() > 0 {
        after.stage == (Stage::Scan { script: 0 })
    } else {
        after.stage is NoRam
    }
}

/// A new search starts with the last of its targets, in the first directory.
pub proof fn law_new_search(dirs: nat, targets: Seq<Seq<char>>)
    ensures
        ({
            let s = SearchState { dirs, targets, probe: None, scripts: seq![] };
            goes_on(s, s.next_target(), seq![], targets)
        }),
{
    if targets.len() > 0 {
        assert(targets.drop_last() =~= targets.take(targets.len() - 1));
    }
}

/// A directory that lacks a script leaves the next directory to be looked at for it. Only the last
/// directory ends the search for a script.
pub proof fn law_next_directory_is_next(s: SearchState, dir: nat, name: Seq<char>)
    requires
        s.probe == Some((dir, name)),
    ensures
        dir + 1 < s.dirs ==> {
            &&& s.absent().probe == Some((dir + 1, name))
            &&& s.absent().dirs == s.dirs
            &&& s.absent().targets == s.targets
            &&& s.absent().scripts == s.scripts
        },
        dir + 1 >= s.dirs ==> goes_on(s, s.absent(), s.scripts, s.targets),
{
    if s.targets.len() > 0 {
        assert(s.targets.drop_last() =~= s.targets.take(s.targets.len() - 1));
    }
}

/// A script that is found is the last of the scripts, and what it includes waits last.
pub proof fn law_found_script_is_kept(
    s: SearchState,
    dir: nat,
    name: Seq<char>,
    path: Seq<char>,
    contents: Seq<u8>,
)
    requires
        s.probe == Some((dir, name)),
    ensures
        goes_on(
            s,
            s.found(path, contents),
            s.scripts + seq![path],
            s.targets + script::includes(text::lines(contents)),
        ),
{
    let waiting = s.targets + script::includes(text::lines(contents));
    assert(s.scripts.push(path) =~= s.scripts + seq![path]);
    if waiting.len() > 0 {
        assert(waiting.drop_last() =~= waiting.take(waiting.len() - 1));
    }
}

/// A session at a directory that lacks a script looks at the next directory for it, and goes on with
/// the next script only behind the last directory.
pub proof fn law_session_looks_at_each_directory(s: SessionState, dir: nat, name: Seq<char>)
    requires
        s.stage is Search,
        s.search.probe == Some((dir, name)),
    ensures
        ({
            let after = s.step(Event::Absent);
            &&& follows_search(after)
            &&& dir + 1 < s.search.dirs ==> {
                &&& after.stage is Search
                &&& after.search.probe == Some((dir + 1, name))
                &&& after.search.dirs == s.search.dirs
                &&& after.search.targets == s.search.targets
                &&& after.search.scripts == s.search.scripts
            }
            &&& dir + 1 >= s.search.dirs ==> goes_on(
                s.search,
                after.search,
                s.search.scripts,
                s.search.targets,
            )
        }),
{
    law_next_directory_is_next(s.search, dir, name);
}

/// A session keeps a script that is found, and looks for what it includes.
pub proof fn law_session_keeps_found_script(
    s: SessionState,
    dir: nat,
    name: Seq<char>,
    path: Seq<char>,
    contents: Seq<u8>,
)
    requires
        s.stage is Search,
        s.search.probe == Some((dir, name)),
    ensures
        ({
            let after = s.step(Event::Found { path, contents });
            &&& follows_search(after)
            &&& goes_on(
                s.search,
                after.search,
                s.search.scripts + seq![path],
                s.search.targets + script::includes(text::lines(contents)),
            )
        }),
{
    law_found_script_is_kept(s.search, dir, name, path, contents);
}

/// A first link that succeeds leads to the search, one that fails to the exit with the code of the
/// linker, or 1 where it has none.
pub proof fn law_first_link(s: SessionState, success: bool, code: Option<i32>)
    requires
        s.stage is Link,
    ensures
        ({
            let after = s.step(Event::Linked { success, code });
            &&& after.search == s.search
            &&& success ==> follows_search(after)
            &&& !success ==> after.stage == (Stage::Exit {
                code: if code is Some {
                    code->0
                } else {
                    1
                },
            })
        }),
{
}

/// The second link ends the session, with 0 where it succeeds and else with the code of the linker,
/// or 1 where it has none.
pub proof fn law_second_link(s: SessionState, success: bool, code: Option<i32>)
    requires
        s.stage is Relink,
    ensures
        ({
            let after = s.step(Event::Linked { success, code });
            &&& after.search == s.search
            &&& after.stage == (Stage::Exit {
                code: if success {
                    0
                } else if code is Some {
                    code->0
                } else {
                    1
                },
            })
        }),
{
}

/// A script with a region leads to the linked program, with the region as it was read; one without
/// leads to the next script, or to the report that there is no region. What cannot be read changes
/// nothing.
pub proof fn law_script_is_read(s: SessionState, script: usize, contents: Seq<u8>)
    requires
        s.stage == (Stage::Scan { script }),
        s.search.scripts.len() <= usize::MAX,
    ensures
        ({
            let after = s.step(Event::Scanned { contents });
            &&& after.search == s.search
            &&& match parser::find_region(contents) {
                Ok(Some(region)) => region.line <= usize::MAX && region.origin <= u64::MAX
                    && region.length <= u64::MAX ==> {
                    &&& after.stage matches Stage::Output { script: i, ram }
                    &&& i == script
                    &&& ram.line == region.line
                    &&& ram.origin == region.origin
                    &&& ram.length == region.length
                },
                Ok(None) => if script + 1 < s.search.scripts.len() {
                    after.stage == (Stage::Scan { script: (script + 1) as usize })
                } else {
                    after.stage is NoRam
                },
                Err(_) => after.stage == s.stage,
            }
        }),
{
}

/// The numbers of a region that is read fit in 64 bits.
pub proof fn law_region_fits(b: Seq<u8>)
    ensures
        parser::find_region(b) matches Ok(Some(region)) ==> region.origin <= u64::MAX
            && region.length <= u64::MAX,
{
    if let Some(i) = text::first_ram(b) {
        let c = b.skip(i);
        let attributes = text::skip_token(c, text::bytes("RAM"));
        let colon = text::skip_to(attributes, ':' as u8);
        let origin = parser::skip_assignment(
            text::skip_token(colon, text::bytes(":")),
            "ORIGIN",
        );
        lemma_sum_fits(0, origin);
        if let Ok((_, tail)) = parser::expression(0, origin) {
            let length = parser::skip_assignment(
                text::skip_token(tail, text::bytes(",")),
                "LENGTH",
            );
            lemma_sum_fits(0, length);
        }
    }
}

/// A sum that is read fits in 64 bits.
proof fn lemma_sum_fits(sum: nat, b: Seq<u8>)
    ensures
        parser::expression(sum, b) matches Ok((v, _)) ==> v <= u64::MAX,
    decreases b.len(),
{
    if let Ok((term, tail)) = parser::number(b) {
        let rest = text::skip_space(tail);
        parser::lemma_number_shorter(b);
        parser::lemma_skip_space(tail);
        if sum + term <= u64::MAX && rest.len() > 0 && rest[0] == '+' as u8 {
            lemma_sum_fits(sum + term, rest.skip(1));
        }
    }
}

/// A script holds a region if and only if `RAM` stands in it outside of comments. Then the region is
/// read, or its numbers are an error.
pub proof fn law_region_is_where_ram_is(b: Seq<u8>)
    ensures
        text::first_ram(b) is None <==> parser::find_region(b) == Ok::<Option<Region>, ParseError>(
            None,
        ),
{
}

/// What does not belong to the step that is due changes nothing.
pub proof fn law_other_events_change_nothing(s: SessionState, event: Event)
    requires
        match event {
            Event::Linked { .. } => !(s.stage is Link || s.stage is Relink),
            Event::Absent => !(s.stage is Search),
            Event::Found { .. } => !(s.stage is Search),
            Event::Scanned { .. } => !(s.stage is Scan),
            Event::Output { .. } => !(s.stage is Output),
        },
    ensures
        s.step(event) == s,
{
}

/// Events in order are one after the other.
pub proof fn law_run(s: SessionState, events: Seq<Event>, event: Event)
    ensures
        s.run(seq![]) == s,
        s.run(events + seq![event]) == s.run(events).step(event),
{
    let all = events + seq![event];
    assert(all.drop_last() =~= events);
    assert(all.last() == event);
}

/// A session has a new region for a program if and only if the program can be read and neither RAM
/// nor a section that takes up memory ends behind the address space.
pub proof fn law_session_has_region(ram: MemoryEntry, elf: Seq<u8>)
    ensures
        session::new_region(ram, elf) is Some <==> {
            &&& sections::object_sections(elf) matches Some(list)
            &&& ram.origin + ram.length <= u64::MAX
            &&& forall|i: int|
                0 <= i < list.len() ==> !((#[trigger] list[i]).elf_flags matches Some(flags)
                    && flags & 2 != 0 && list[i].address + list[i].size > u64::MAX)
        },
{
    if let Some(list) = sections::object_sections(elf) {
        if sections::all_fit(list) {
            assert forall|i: int|
                0 <= i < list.len() implies !((#[trigger] list[i]).elf_flags matches Some(flags)
                && flags & 2 != 0 && list[i].address + list[i].size > u64::MAX) by {
                if list[i].is_allocated() {
                    assert(list[i].fits());
                }
            }
        } else {
            let i = choose|i: int|
                0 <= i < list.len() && (#[trigger] list[i]).is_allocated() && !list[i].fits();
            assert(list[i].elf_flags matches Some(flags) && flags & 2 != 0 && list[i].address
                + list[i].size > u64::MAX);
        }
    }
}

/// The script `name` stands at `path` with the text `contents` in the first of the `dirs`
/// directories that has it.
pub open spec fn first_has(
    files: Files,
    dirs: nat,
    name: Seq<char>,
    path: Seq<char>,
    contents: Seq<u8>,
) -> bool {
    exists|dir: nat|
        dir < dirs && (#[trigger] files(dir, name)) == Some((path, contents)) && forall|e: nat|
            e < dir ==> (#[trigger] files(e, name)) is None
}

/// `events` are what is seen of `files`, look by look, from the search of the session `s` on.
pub open spec fn are_looks(s: SessionState, files: Files, events: Seq<Event>) -> bool {
    forall|i: int|
        0 <= i < events.len() ==> {
            let now = s.run(events.take(i));
            &&& now.stage is Search
            &&& now.search.probe matches Some((dir, name))
            &&& #[trigger] events[i] == match files(dir, name) {
                Some((path, contents)) => Event::Found { path, contents },
                None => Event::Absent,
            }
        }
}

/// A session that looks at files does what its search does.
proof fn lemma_session_searches(s: SessionState, files: Files, events: Seq<Event>, n: nat)
    requires
        s.stage is Search,
        s.search.probe is Some,
        are_looks(s, files, events),
        n <= events.len(),
    ensures
        s.run(events.take(n as int)).search == s.search.after(files, n),
        n > 0 ==> follows_search(s.run(events.take(n as int))),
        n == 0 ==> s.run(events.take(n as int)) == s,
    decreases n,
{
    if n > 0 {
        let m = (n - 1) as nat;
        lemma_session_searches(s, files, events, m);
        let now = s.run(events.take(m as int));
        let event = events[m as int];
        assert(events.take(n as int).drop_last() =~= events.take(m as int));
        assert(events.take(n as int).last() == event);
        search::lemma_after_after(s.search, files, m, 1);
        assert(now.search.after(files, 1) == now.search.looked(files).after(files, 0));
        assert(now.search.looked(files).after(files, 0) == now.search.looked(files));
    }
}

/// A session that looks for its scripts to the end leaves none out and adds none. There is a set of
/// names, with all names that it had before it: of each of them, the script in the first directory
/// that has it is among the scripts, and what that script includes is among the names; and each
/// script was there before or is such a one.
pub proof fn law_session_finds_all_scripts(
    s: SessionState,
    files: Files,
    events: Seq<Event>,
    first: Seq<char>,
)
    requires
        s.stage is Search,
        s.search.dirs > 0,
        s.search.probe == Some((0nat, first)),
        are_looks(s, files, events),
        !(s.run(events).stage is Search),
    ensures
        ({
            let scripts = s.run(events).search.scripts;
            exists|names: Set<Seq<char>>|
                #![trigger names.contains(first)]
                {
                    &&& names.contains(first)
                    &&& forall|name: Seq<char>|
                        s.search.targets.contains(name) ==> #[trigger] names.contains(name)
                    &&& forall|name: Seq<char>, path: Seq<char>, contents: Seq<u8>|
                        names.contains(name) && #[trigger] first_has(
                            files,
                            s.search.dirs,
                            name,
                            path,
                            contents,
                        ) ==> scripts.contains(path) && forall|other: Seq<char>|
                            script::includes(text::lines(contents)).contains(other)
                                ==> #[trigger] names.contains(other)
                    &&& forall|path: Seq<char>| #[trigger]
                        scripts.contains(path) ==> s.search.scripts.contains(path) || exists|
                            name: Seq<char>,
                            contents: Seq<u8>,
                        | #[trigger]
                            first_has(files, s.search.dirs, name, path, contents)
                                && names.contains(name)
                }
        }),
{
    let n = events.len();
    let dirs = s.search.dirs;
    lemma_session_searches(s, files, events, n);
    assert(events.take(n as int) =~= events);
    let end = s.run(events);
    assert(end.search == s.search.after(files, n));
    search::law_search_is_complete(s.search, files, n);
    let names = Set::new(|name: Seq<char>| s.search.looks_for(files, n, name));
    assert(s.search.awaits(first));
    assert forall|name: Seq<char>| s.search.targets.contains(name) implies #[trigger] names.contains(
        name,
    ) by {
        assert(s.search.awaits(name));
    }
    assert forall|name: Seq<char>, path: Seq<char>, contents: Seq<u8>|
        names.contains(name) && #[trigger] first_has(
            files,
            dirs,
            name,
            path,
            contents,
        ) implies end.search.scripts.contains(path) && forall|other: Seq<char>|
        script::includes(text::lines(contents)).contains(other) ==> #[trigger] names.contains(
            other,
        ) by {
        lemma_first_has(files, dirs, name, path, contents);
        assert(s.search.looks_for(files, n, name));
        assert(s.search.settles(files, n, name));
        assert forall|other: Seq<char>|
            script::includes(text::lines(contents)).contains(
                other,
            ) implies #[trigger] names.contains(other) by {
            assert(s.search.looks_for(files, n, other));
        }
    }
    assert forall|path: Seq<char>| #[trigger]
        end.search.scripts.contains(path) implies s.search.scripts.contains(path) || exists|
        name: Seq<char>,
        contents: Seq<u8>,
    | #[trigger] first_has(files, dirs, name, path, contents) && names.contains(name) by {
        if !s.search.scripts.contains(path) {
            assert(s.search.finds(files, n, path));
            let name = choose|name: Seq<char>| #[trigger]
                s.search.looks_for(files, n, name) && (search::first_found(
                    files,
                    0,
                    dirs,
                    name,
                ) matches Some((p, _)) && p == path);
            search::law_first_found(files, 0, dirs, name);
            let contents = search::first_found(files, 0, dirs, name).unwrap().1;
            assert(first_has(files, dirs, name, path, contents));
            assert(names.contains(name));
        }
    }
    assert(names.contains(first));
}

/// What the first directory has is what is found.
proof fn lemma_first_has(
    files: Files,
    dirs: nat,
    name: Seq<char>,
    path: Seq<char>,
    contents: Seq<u8>,
)
    requires
        first_has(files, dirs, name, path, contents),
    ensures
        search::first_found(files, 0, dirs, name) == Some((path, contents)),
{
    search::law_first_found(files, 0, dirs, name);
    let d = choose|d: nat|
        d < dirs && (#[trigger] files(d, name)) == Some((path, contents)) && forall|e: nat|
            e < d ==> (#[trigger] files(e, name)) is None;
    match search::first_found(files, 0, dirs, name) {
        Some(found) => {
            let e = choose|e: nat|
                0 <= e < dirs && (#[trigger] files(e, name)) == Some(found) && forall|k: nat|
                    0 <= k < e ==> (#[trigger] files(k, name)) is None;
            if e < d {
                assert(files(e, name) is None);
            } else if d < e {
                assert(files(d, name) is None);
            }
        },
        None => {
            assert(files(d, name) is None);
        },
    }
}

/// Lists of strings and of scripts stand for their texts, one for one.
pub proof fn law_lists_stand_for_texts(
    names: Seq<String>,
    pieces: Seq<&str>,
    scripts: Seq<LinkerScript>,
)
    ensures
        search::strings(names).len() == names.len(),
        forall|i: int|
            0 <= i < names.len() ==> #[trigger] search::strings(names)[i] == names[i]@,
        script::texts(pieces).len() == pieces.len(),
        forall|i: int|
            0 <= i < pieces.len() ==> #[trigger] script::texts(pieces)[i] == pieces[i]@,
        search::paths(scripts).len() == scripts.len(),
        forall|i: int|
            0 <= i < scripts.len() ==> #[trigger] search::paths(scripts)[i] == scripts[i]@,
{
}

} // verus!
