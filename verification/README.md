# flip-link

Logic of a linker wrapper that adds zero-cost stack overflow protection to embedded programs, with
contracts and laws proved by [Verus](https://github.com/verus-lang/verus).

The program is linked normally first. The linker scripts are then searched for the `RAM` region, the
part of it that the program uses is read from the linked program, and the program is linked again
with a fake `RAM` region at the end of the real one. The stack starts below that region, so that an
overflow runs out of memory instead of into the static variables.

| Path | Contents |
| --- | --- |
| `src/text.rs` | tokens, lines and comments of a linker script, as bytes |
| `src/number.rs` | numbers: reading and writing |
| `src/parser.rs` | `Parser`, which finds the `RAM` region of a script |
| `src/script.rs` | included scripts, the script with another region, script names |
| `src/memory.rs` | memory regions and the region at the end of one |
| `src/sections.rs` | the part of RAM that the sections of a program use |
| `src/search.rs` | the search for linker scripts |
| `src/session.rs` | the course of a link, from step to step |
| `src/tempdir.rs` | the name of the temporary directory |
| `src/cargo.rs` | the outcomes of an integration test run |
| `src/laws.rs` | laws on comments, lines and replaced regions |
| `app/` | the program: arguments, files and the native linker |
