# rbx-inject

Write asset ids and config values into a Roblox place file, just before it is
uploaded. No network, no credentials, no Roblox API: a `.rbxl` goes in, rules are
applied to it, and it goes out again.

```sh
rbx-inject apply --place build/game.rbxl \
                 --config injections.toml \
                 --assets output/Assets.luau
rbx-inject check --place build/game.rbxl --config injections.toml
rbx-inject migrate injections.json
```

The library is written in Verus: what each function returns and changes is stated
in its contract and proved. The program around it is ordinary Rust.

## Rules

A rule addresses an instance by a dot-separated path from the root of the place.

- `properties` sets properties of that instance. A value is a key of the asset map
  (`ui.ShopIcon`), the source of a module (`$module:name`, `$module`,
  `$rbxsync_module`), or a stub that requires an uploaded model
  (`$require:models.main`).
- `keys` sets values inside the table that a ModuleScript returns. `Config.Sound`
  is a nested key, `$4` the integer key 4; a value is a key of the asset map, or a
  literal: `$1234`, `$0.5`, `$true`, `$nil` (which removes the key), `$$Hello`.

Every `properties` rule runs before any `keys` rule.

## Layout

| path | what it holds |
| --- | --- |
| `src/text.rs`, `src/text_map.rs` | texts, decimal numbers, maps and sets in the order of their keys |
| `src/lua.rs` | the boundary to the Luau runtime, and the model of its tables |
| `src/luau_text.rs` | names, keywords and quoted strings |
| `src/luau_order.rs`, `src/luau_print.rs` | printing a table as source, keys sorted |
| `src/luau_edit.rs`, `src/luau.rs` | setting keys, and rewriting a whole module |
| `src/luau_read.rs`, `src/luau_laws.rs`, `src/luau_trees.rs` | what holds of printing and editing |
| `src/place.rs`, `src/reflection.rs`, `src/place_file.rs` | the boundary to the place, the reflection database and the file format |
| `src/chunks.rs`, `src/catalogue.rs` | whether a file and a database are such that the reader and the writer take them |
| `src/dom.rs` | paths, and the type of a property |
| `src/sources.rs`, `src/asset_map.rs`, `src/inputs.rs`, `src/assets.rs` | what rules are resolved against |
| `src/config.rs`, `src/resolve.rs` | rules, and what their values stand for |
| `src/inject.rs` | applying rules |
| `src/inject_laws.rs`, `src/run_laws.rs`, `src/two_runs.rs` | what holds of single rules, of whole runs, and of two of them |
| `src/check.rs` | holding rules against a place without changing it |
| `src/cli.rs` | what the command line decides |
| `app/` | arguments, files, and what is printed |

## What is proved, and what is taken for granted

A place is modelled by its instances, a Luau state by its tables, the reflection
database by its classes. The functions in `src/lua.rs`, `src/place.rs`,
`src/reflection.rs`, `src/place_file.rs`, `src/chunks.rs`, `src/resolve.rs` and
`src/text.rs` that make a single call into another crate or the standard library say in
their contracts what is taken for granted of that call.

Of Luau it is taken for granted, among the rest, that a source that is a table literal
evaluates to that table.

Some calls have no single outcome: a module may ask for the time, a new instance
gets a random reference, and the reflection database depends on the machine. There
a contract says which outcomes can be, and what follows from each.

Among what is proved of the library as a whole:

- tables that hold the same are printed the same, in whatever order the runtime
  walks them, unless two keys of one table are printed alike;
- a tree of tables, texts, truth values and finite numbers is printed, and printed in
  full, under the same condition;
- what is printed is read back by Luau's rules for table literals as the table
  that was printed, unless it holds a number that is infinite or none: those are
  printed as names, which are no literals;
- such a tree is printed to a source that Luau evaluates to a tree which holds the
  same, and a module whose table is one, before and after it was edited, is rewritten to
  itself, to the letter, by a second run with the same edits or with none;
- an edit can be read back, a number as itself unless it is too close to zero to be told
  from it, leaves every other slot as it was, and made twice is as good as made once;
- edits made again to a tree that holds what they came to print the same again;
- a path that was grown can be found, nothing that was there is changed by it, and growing
  it again creates nothing, where the references of new instances are new;
- a run that reports no change leaves the place as it was;
- a run leaves every instance as it was but for the properties that its rules are
  for, those that would override them, and children that are added, where the
  references of new instances are new;
- a property that is written leaves no twin behind that would override it;
- the properties of all rules, applied again, change nothing more, unless a rule is
  for an instance that only a later rule creates;
- nothing is created without a module source to fill it with;
- the properties of a rule and its keys can stand in rules of their own, and where
  `keys` stand among `properties` makes no difference: two runs in which the modules
  come to the same come to the same report and, but for the references of new instances,
  to the same place;
- checking with an asset map finds what checking without one finds, and lookups that
  fail, nothing else, where the modules come to the same in both.
