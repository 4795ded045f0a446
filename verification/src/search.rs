//! The search for the linker scripts of a program.
//!
//! The scripts to look for are taken from a stack. Each is looked for in one directory after the
//! other, and the first directory that has it decides. What a script includes is put on the stack
//! when the script is found.
use vstd::prelude::*;
use vstd::string::*;

use crate::script;
use crate::script::LinkerScript;
use crate::text;

verus! {

/// Where a search stands.
pub struct SearchState {
    /// How many directories there are.
    pub dirs: nat,
    /// The names that are still to be looked for, the next of them last.
    pub targets: Seq<Seq<char>>,
    /// The directory and the name to look at now.
    pub probe: Option<(nat, Seq<char>)>,
    /// The paths of the scripts that were found, in order.
    pub scripts: Seq<Seq<char>>,
}

impl SearchState {
    /// The search goes on with its next name, in the first directory.
    pub open spec fn next_target(self) -> SearchState {
        if self.targets.len() == 0 {
            SearchState { probe: None, ..self }
        } else {
            SearchState {
                targets: self.targets.drop_last(),
                probe: Some((0, self.targets.last())),
                ..self
            }
        }
    }

    /// The directory that was looked at lacks the script.
    pub open spec fn absent(self) -> SearchState {
        match self.probe {
            Some((dir, name)) => if dir + 1 < self.dirs {
                SearchState { probe: Some((dir + 1, name)), ..self }
            } else {
                self.next_target()
            },
            None => self,
        }
    }

    /// The directory that was looked at has the script, at `path` and with the text `contents`.
    pub open spec fn found(self, path: Seq<char>, contents: Seq<u8>) -> SearchState {
        match self.probe {
            Some(_) => SearchState {
                targets: self.targets + script::includes(text::lines(contents)),
                scripts: self.scripts.push(path),
                ..self
            }.next_target(),
            None => self,
        }
    }
}

/// The characters of each of `strings`.
pub open spec fn strings(strings: Seq<String>) -> Seq<Seq<char>> {
    strings.map_values(|s: String| s@)
}

/// The paths of `scripts`.
pub open spec fn paths(scripts: Seq<LinkerScript>) -> Seq<Seq<char>> {
    scripts.map_values(|s: LinkerScript| s@)
}

/// A search for linker scripts.
pub struct ScriptSearch {
    dirs: usize,
    targets: Vec<String>,
    target: Option<String>,
    dir: usize,
    scripts: Vec<LinkerScript>,
}

impl View for ScriptSearch {
    type V = SearchState;

    closed spec fn view(&self) -> SearchState {
        SearchState {
            dirs: self.dirs as nat,
            targets: strings(self.targets@),
            probe: match self.target {
                Some(name) => Some((self.dir as nat, name@)),
                None => None,
            },
            scripts: paths(self.scripts@),
        }
    }
}

impl ScriptSearch {
    /// The directory to look at is one of the search, and the search ends with its last name.
    pub open spec fn wf(self) -> bool {
        match self@.probe {
            Some((dir, _)) => dir < self@.dirs,
            None => self@.targets.len() == 0,
        }
    }

    /// A search for `targets`, the last of them first, in `dirs` directories.
    pub fn new(dirs: usize, targets: Vec<String>) -> (r: Self)
        requires
            dirs > 0,
        ensures
            r.wf(),
            r@ == (SearchState {
                dirs: dirs as nat,
                targets: strings(targets@),
                probe: None,
                scripts: seq![],
            }).next_target(),
    {
        let mut search = ScriptSearch { dirs, targets, target: None, dir: 0, scripts: Vec::new() };
        assert(search@.scripts =~= Seq::<Seq<char>>::empty());
        search.next_target();
        search
    }

    fn next_target(&mut self)
        requires
            old(self)@.dirs > 0,
        ensures
            final(self).wf(),
            final(self)@ == old(self)@.next_target(),
    {
        let ghost before = self@.targets;
        let next = self.targets.pop();
        proof {
            if before.len() > 0 {
                assert(strings(self.targets@) =~= before.drop_last());
            } else {
                assert(strings(self.targets@) =~= before);
            }
        }
        self.target = next;
        self.dir = 0;
    }

    /// The directory, by its index, and the name to look at now; `None` when the search is over.
    pub fn pending(&self) -> (r: Option<(usize, &str)>)
        ensures
            match r {
                Some((dir, name)) => self@.probe == Some((dir as nat, name@)),
                None => self@.probe is None,
            },
    {
        match &self.target {
            Some(name) => Some((self.dir, name.as_str())),
            None => None,
        }
    }

    /// The scripts that were found, in order.
    pub fn scripts(&self) -> (r: &Vec<LinkerScript>)
        ensures
            paths(r@) == self@.scripts,
    {
        &self.scripts
    }

    /// Takes note that the directory that was looked at lacks the script.
    pub fn absent(&mut self)
        requires
            old(self).wf(),
            old(self)@.probe is Some,
        ensures
            final(self).wf(),
            final(self)@ == old(self)@.absent(),
    {
        if self.dirs - self.dir > 1 {
            self.dir += 1;
        } else {
            self.next_target();
        }
    }

    /// Takes note that the directory that was looked at has the script, at `path` and with the text
    /// `contents`.
    pub fn found(&mut self, path: String, contents: &str)
        requires
            old(self).wf(),
            old(self)@.probe is Some,
        ensures
            final(self).wf(),
            final(self)@ == old(self)@.found(path@, text::bytes(contents)),
    {
        let includes = script::get_includes_from_linker_script(contents);
        let ghost all = script::texts(includes@);
        let ghost before = self@;
        let mut i: usize = 0;
        assert(before.targets + all.take(0) =~= before.targets);
        while i < includes.len()
            invariant
                i <= includes@.len(),
                all == script::texts(includes@),
                self@ == (SearchState { targets: before.targets + all.take(i as int), ..before }),
            decreases includes@.len() - i,
        {
            let name = includes[i].to_owned();
            let ghost targets = self@.targets;
            self.targets.push(name);
            proof {
                assert(strings(self.targets@) =~= targets.push(name@));
                assert(all[i as int] == name@);
                assert(targets.push(name@) =~= before.targets + all.take(i + 1));
            }
            i += 1;
        }
        assert(all.take(i as int) =~= all);
        let ghost scripts = self@.scripts;
        self.scripts.push(LinkerScript::new(path));
        assert(paths(self.scripts@) =~= scripts.push(path@));
        self.next_target();
    }
}

impl SearchState {
    /// The search after the next `n` directories were found to lack the script.
    pub open spec fn absent_times(self, n: nat) -> SearchState
        decreases n,
    {
        if n == 0 {
            self
        } else {
            self.absent_times((n - 1) as nat).absent()
        }
    }
}

/// While directories are left, the search goes through them in order and changes nothing else.
proof fn lemma_absent_times(s: SearchState, n: nat)
    requires
        s.probe matches Some((dir, _)) && dir == 0,
        n < s.dirs,
    ensures
        s.absent_times(n) == (SearchState { probe: Some((n, s.probe.unwrap().1)), ..s }),
    decreases n,
{
    if n > 0 {
        lemma_absent_times(s, (n - 1) as nat);
    }
}

/// The first directory that has a script decides: it is found there, once, at the path that it has
/// there, and what it includes is looked for next, the last of it first, before the names that
/// waited.
pub proof fn law_first_directory_decides(
    s: SearchState,
    dir: nat,
    path: Seq<char>,
    contents: Seq<u8>,
)
    requires
        s.probe matches Some((first, _)) && first == 0,
        dir < s.dirs,
    ensures
        ({
            let before = s.absent_times(dir);
            let after = before.found(path, contents);
            let waiting = s.targets + script::includes(text::lines(contents));
            &&& before.probe == Some((dir, s.probe.unwrap().1))
            &&& after.scripts == s.scripts.push(path)
            &&& waiting.len() == 0 ==> after.probe is None && after.targets == waiting
            &&& waiting.len() > 0 ==> after.probe == Some((0nat, waiting.last())) && after.targets
                == waiting.drop_last()
        }),
{
    lemma_absent_times(s, dir);
}

/// A script that no directory has is passed over, and the search goes on with the next name.
pub proof fn law_missing_script_is_passed_over(s: SearchState)
    requires
        s.probe matches Some((first, _)) && first == 0,
        s.dirs > 0,
    ensures
        s.absent_times(s.dirs) == s.next_target(),
{
    lemma_absent_times(s, (s.dirs - 1) as nat);
}

/// What a directory, by its index, holds under a name: the path and the text of a script.
pub type Files = spec_fn(nat, Seq<char>) -> Option<(Seq<char>, Seq<u8>)>;

/// What the first of the directories from `dir` to `dirs` that has the script `name` holds under it.
pub open spec fn first_found(files: Files, dir: nat, dirs: nat, name: Seq<char>) -> Option<
    (Seq<char>, Seq<u8>),
>
    decreases dirs - dir,
{
    if dir >= dirs {
        None
    } else if files(dir, name) is Some {
        files(dir, name)
    } else {
        first_found(files, dir + 1, dirs, name)
    }
}

impl SearchState {
    /// The search after the directory that it is at was looked at.
    pub open spec fn looked(self, files: Files) -> SearchState {
        match self.probe {
            Some((dir, name)) => match files(dir, name) {
                Some((path, contents)) => self.found(path, contents),
                None => self.absent(),
            },
            None => self,
        }
    }

    /// The search after `n` looks.
    pub open spec fn after(self, files: Files, n: nat) -> SearchState
        decreases n,
    {
        if n == 0 {
            self
        } else {
            self.looked(files).after(files, (n - 1) as nat)
        }
    }

    /// The search starts with a name, or is over.
    pub open spec fn at_start(self) -> bool {
        match self.probe {
            Some((dir, _)) => dir == 0 && self.dirs > 0,
            None => self.targets.len() == 0,
        }
    }

    /// The search has `name` still before it.
    pub open spec fn awaits(self, name: Seq<char>) -> bool {
        self.targets.contains(name) || self.probe == Some((0nat, name))
    }

    /// Among the next `n` looks is one for `name`.
    pub open spec fn looks_for(self, files: Files, n: nat, name: Seq<char>) -> bool {
        exists|i: nat|
            i < n && ((#[trigger] self.after(files, i)).probe matches Some((_, x)) && x == name)
    }

    /// Where a directory has the script `name`, the first one's is among the scripts after `n`
    /// looks, and what it includes was looked for.
    pub open spec fn settles(self, files: Files, n: nat, name: Seq<char>) -> bool {
        match first_found(files, 0, self.dirs, name) {
            Some((path, contents)) => {
                &&& self.after(files, n).scripts.contains(path)
                &&& forall|other: Seq<char>|
                    script::includes(text::lines(contents)).contains(other) ==> #[trigger]
                    self.looks_for(files, n, other)
            },
            None => true,
        }
    }

    /// `path` is where the first directory that has it has a script that is among the next `n`
    /// looks.
    pub open spec fn finds(self, files: Files, n: nat, path: Seq<char>) -> bool {
        exists|name: Seq<char>| #[trigger]
            self.looks_for(files, n, name) && (first_found(files, 0, self.dirs, name) matches Some(
                (p, _),
            ) && p == path)
    }
}

/// A script is found if and only if one of the directories has it.
pub proof fn law_first_found(files: Files, dir: nat, dirs: nat, name: Seq<char>)
    ensures
        match first_found(files, dir, dirs, name) {
            Some(script) => exists|d: nat|
                dir <= d < dirs && (#[trigger] files(d, name)) == Some(script) && forall|e: nat|
                    dir <= e < d ==> (#[trigger] files(e, name)) is None,
            None => forall|d: nat| dir <= d < dirs ==> (#[trigger] files(d, name)) is None,
        },
    decreases dirs - dir,
{
    if dir < dirs && files(dir, name) is None {
        law_first_found(files, dir + 1, dirs, name);
    }
}

/// The looks for one name: as many as it takes to find it, or as there are directories. They leave
/// the search at the start of the next name.
proof fn lemma_one_name(s: SearchState, files: Files, dir: nat, name: Seq<char>) -> (k: nat)
    requires
        s.probe == Some((dir, name)),
        dir < s.dirs,
    ensures
        k > 0,
        s.after(files, k) == match first_found(files, dir, s.dirs, name) {
            Some((path, contents)) => s.found(path, contents),
            None => s.next_target(),
        },
        forall|i: nat|
            i < k ==> ((#[trigger] s.after(files, i)).probe matches Some((_, x)) && x == name),
    decreases s.dirs - dir,
{
    reveal_with_fuel(SearchState::after, 2);
    let t = s.looked(files);
    if files(dir, name) is Some || dir + 1 >= s.dirs {
        reveal_with_fuel(first_found, 2);
        assert(s.after(files, 1) == t.after(files, 0));
        1
    } else {
        let rest = lemma_one_name(t, files, dir + 1, name);
        let k = rest + 1;
        assert forall|i: nat| i < k implies ((#[trigger] s.after(files, i)).probe matches Some(
            (_, x),
        ) && x == name) by {
            if i > 0 {
                assert(s.after(files, i) == t.after(files, (i - 1) as nat));
            }
        }
        assert(s.after(files, k) == t.after(files, rest));
        k
    }
}

/// Looks in a row are one row of looks.
pub proof fn lemma_after_after(s: SearchState, files: Files, i: nat, j: nat)
    ensures
        s.after(files, i).after(files, j) == s.after(files, i + j),
    decreases i,
{
    if i > 0 {
        lemma_after_after(s.looked(files), files, (i - 1) as nat, j);
    }
}

/// A search that is over stays as it is.
proof fn lemma_over(s: SearchState, files: Files, n: nat)
    requires
        s.probe is None,
    ensures
        s.after(files, n) == s,
    decreases n,
{
    if n > 0 {
        lemma_over(s, files, (n - 1) as nat);
    }
}

/// What is looked for in a row of looks is the name that it starts with, or looked for behind that.
proof fn lemma_looks_split(s: SearchState, files: Files, k: nat, n: nat, name: Seq<char>)
    requires
        0 < k <= n,
        forall|i: nat|
            i < k ==> ((#[trigger] s.after(files, i)).probe matches Some((_, x)) && x == name),
    ensures
        forall|x: Seq<char>| #[trigger]
            s.looks_for(files, n, x) <==> x == name || s.after(files, k).looks_for(
                files,
                (n - k) as nat,
                x,
            ),
{
    let t = s.after(files, k);
    let m = (n - k) as nat;
    assert forall|x: Seq<char>| #[trigger]
        s.looks_for(files, n, x) <==> x == name || t.looks_for(files, m, x) by {
        if s.looks_for(files, n, x) {
            let i = choose|i: nat|
                i < n && ((#[trigger] s.after(files, i)).probe matches Some((_, y)) && y == x);
            if i >= k {
                let j = (i - k) as nat;
                lemma_after_after(s, files, k, j);
                assert(j < m && t.after(files, j) == s.after(files, i));
            }
        }
        if x == name {
            assert(s.after(files, 0).probe matches Some((_, y)) && y == x);
        }
        if t.looks_for(files, m, x) {
            let j = choose|j: nat|
                j < m && ((#[trigger] t.after(files, j)).probe matches Some((_, y)) && y == x);
            lemma_after_after(s, files, k, j);
            assert(k + j < n && s.after(files, k + j) == t.after(files, j));
        }
    }
}

/// What waited, the next name left aside, waits for the search that goes on with its next name.
proof fn lemma_awaits_next(s: SearchState, name: Seq<char>)
    requires
        s.targets.contains(name),
    ensures
        s.next_target().awaits(name),
{
    let i = choose|i: int| 0 <= i < s.targets.len() && s.targets[i] == name;
    if i < s.targets.len() - 1 {
        assert(s.targets.drop_last()[i] == name);
    }
}

/// A search that is run to its end leaves nothing out and adds nothing: each name that it has
/// before it is looked for; of each name that is looked for, the script in the first directory that
/// has it is among the scripts, and what that script includes is looked for too; and each script
/// was there before or is that of a name that was looked for.
pub proof fn law_search_is_complete(s: SearchState, files: Files, n: nat)
    requires
        s.at_start(),
        s.after(files, n).probe is None,
    ensures
        forall|name: Seq<char>| #[trigger] s.awaits(name) ==> s.looks_for(files, n, name),
        forall|name: Seq<char>| #[trigger]
            s.looks_for(files, n, name) ==> s.settles(files, n, name),
        forall|path: Seq<char>| #[trigger]
            s.after(files, n).scripts.contains(path) ==> s.scripts.contains(path) || s.finds(
                files,
                n,
                path,
            ),
        s.scripts.is_prefix_of(s.after(files, n).scripts),
    decreases n,
{
    let end = s.after(files, n);
    match s.probe {
        None => {
            lemma_over(s, files, n);
            assert forall|i: nat| (#[trigger] s.after(files, i)).probe is None by {
                lemma_over(s, files, i);
            }
            assert(s.scripts =~= end.scripts.subrange(0, s.scripts.len() as int));
        },
        Some((_, name)) => {
            let k = lemma_one_name(s, files, 0, name);
            assert(k <= n);
            let t = s.after(files, k);
            let m = (n - k) as nat;
            lemma_after_after(s, files, k, m);
            assert(t.after(files, m) == end);
            law_search_is_complete(t, files, m);
            lemma_looks_split(s, files, k, n, name);
            lemma_complete_behind(s, files, n, k, name);
        },
    }
}

/// A new search that is run to its end looks for each of its targets, and has those scripts that
/// some directory has, with all that they include.
pub proof fn law_targets_are_found(
    dirs: nat,
    targets: Seq<Seq<char>>,
    files: Files,
    n: nat,
    name: Seq<char>,
)
    requires
        dirs > 0,
        targets.contains(name),
        (SearchState { dirs, targets, probe: None, scripts: seq![] }).next_target().after(
            files,
            n,
        ).probe is None,
    ensures
        ({
            let s = (SearchState { dirs, targets, probe: None, scripts: seq![] }).next_target();
            s.looks_for(files, n, name) && s.settles(files, n, name)
        }),
{
    let new = SearchState { dirs, targets, probe: None, scripts: seq![] };
    let s = new.next_target();
    lemma_awaits_next(new, name);
    law_search_is_complete(s, files, n);
    assert(s.awaits(name));
    assert(s.looks_for(files, n, name));
}

/// A search is complete where it is behind its first name.
proof fn lemma_complete_behind(s: SearchState, files: Files, n: nat, k: nat, name: Seq<char>)
    requires
        s.probe == Some((0nat, name)),
        s.dirs > 0,
        0 < k <= n,
        s.after(files, k) == match first_found(files, 0, s.dirs, name) {
            Some((path, contents)) => s.found(path, contents),
            None => s.next_target(),
        },
        s.after(files, k).after(files, (n - k) as nat) == s.after(files, n),
        forall|x: Seq<char>| #[trigger]
            s.looks_for(files, n, x) <==> x == name || s.after(files, k).looks_for(
                files,
                (n - k) as nat,
                x,
            ),
        forall|x: Seq<char>| #[trigger]
            s.after(files, k).awaits(x) ==> s.after(files, k).looks_for(files, (n - k) as nat, x),
        forall|x: Seq<char>| #[trigger]
            s.after(files, k).looks_for(files, (n - k) as nat, x) ==> s.after(files, k).settles(
                files,
                (n - k) as nat,
                x,
            ),
        forall|path: Seq<char>| #[trigger]
            s.after(files, n).scripts.contains(path) ==> s.after(files, k).scripts.contains(path)
                || s.after(files, k).finds(files, (n - k) as nat, path),
        s.after(files, k).scripts.is_prefix_of(s.after(files, n).scripts),
    ensures
        forall|x: Seq<char>| #[trigger] s.awaits(x) ==> s.looks_for(files, n, x),
        forall|x: Seq<char>| #[trigger] s.looks_for(files, n, x) ==> s.settles(files, n, x),
        forall|path: Seq<char>| #[trigger]
            s.after(files, n).scripts.contains(path) ==> s.scripts.contains(path) || s.finds(
                files,
                n,
                path,
            ),
        s.scripts.is_prefix_of(s.after(files, n).scripts),
{
    let t = s.after(files, k);
    let m = (n - k) as nat;
    let end = s.after(files, n);
    let first = first_found(files, 0, s.dirs, name);
    // The search without the first name, before it goes on with the next.
    let between = match first {
        Some((path, contents)) => SearchState {
            targets: s.targets + script::includes(text::lines(contents)),
            scripts: s.scripts.push(path),
            ..s
        },
        None => s,
    };
    assert(t == between.next_target());
    assert(t.dirs == s.dirs);
    assert(t.scripts == between.scripts);
    assert forall|x: Seq<char>| between.targets.contains(x) implies #[trigger] s.looks_for(
        files,
        n,
        x,
    ) by {
        lemma_awaits_next(between, x);
        assert(t.awaits(x));
    }
    assert forall|x: Seq<char>| #[trigger] s.awaits(x) implies s.looks_for(files, n, x) by {
        if s.targets.contains(x) {
            let i = choose|i: int| 0 <= i < s.targets.len() && s.targets[i] == x;
            assert(between.targets[i] == x);
        }
    }
    assert forall|i: int| 0 <= i < t.scripts.len() implies #[trigger] end.scripts[i]
        == t.scripts[i] by {
        assert(end.scripts.subrange(0, t.scripts.len() as int)[i] == end.scripts[i]);
    }
    assert(s.scripts =~= end.scripts.subrange(0, s.scripts.len() as int));
    assert forall|x: Seq<char>| #[trigger] s.looks_for(files, n, x) implies s.settles(
        files,
        n,
        x,
    ) by {
        if x == name {
            if let Some((path, contents)) = first {
                let list = script::includes(text::lines(contents));
                assert(t.scripts[s.scripts.len() as int] == path);
                assert(end.scripts[s.scripts.len() as int] == path);
                assert forall|other: Seq<char>| list.contains(other) implies #[trigger] s.looks_for(
                    files,
                    n,
                    other,
                ) by {
                    let i = choose|i: int| 0 <= i < list.len() && list[i] == other;
                    assert(between.targets[s.targets.len() + i] == other);
                }
            }
        } else {
            assert(t.looks_for(files, m, x));
            assert(t.settles(files, m, x));
        }
    }
    assert forall|path: Seq<char>| #[trigger] end.scripts.contains(path) implies s.scripts.contains(
        path,
    ) || s.finds(files, n, path) by {
        if t.scripts.contains(path) {
            let i = choose|i: int| 0 <= i < t.scripts.len() && t.scripts[i] == path;
            if i < s.scripts.len() {
                assert(s.scripts[i] == path);
            } else {
                assert(s.looks_for(files, n, name));
            }
        } else {
            let x = choose|x: Seq<char>| #[trigger]
                t.looks_for(files, m, x) && (first_found(files, 0, t.dirs, x) matches Some((p, _))
                    && p == path);
            assert(s.looks_for(files, n, x));
        }
    }
}

} // verus!
