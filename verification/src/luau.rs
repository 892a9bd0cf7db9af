//! Editing the table that a ModuleScript returns.
//!
//! The target of a `keys` rule is a value inside a Luau table, addressed by a
//! path, and the file has to be valid Luau afterwards. So the source is evaluated,
//! the table is edited as a table, and it is printed back out.

pub use crate::luau_edit::{KeyValue, Number};

use crate::lua::{evaluates, known, lua_heap, outcome_of, ready, run, Datum, Evaluation};
use crate::lua::{sound, LuaHeap, LuaValue};
use crate::luau_edit::{edited, edits_model, placed, set_nested, stopped, Edit};
use crate::luau_print::{agrees, module_source, module_text, PrintError, Refusal};
use crate::text::split;
use vstd::prelude::*;
use vstd::string::*;

verus! {

/// Why a module could not be rewritten.
#[derive(Debug)]
pub enum KeysError {
    /// Its source does not evaluate.
    Evaluate(String),
    /// It returns something else than a table.
    NotATable,
    /// A key could not be set: its path, and what the runtime says.
    Setting(String, String),
    /// The table has no source form.
    Print(PrintError),
}

/// What a failure reads as.
pub open spec fn print_message(e: PrintError) -> Seq<char> {
    match e {
        PrintError::Unwritable(kind) => "cannot write a "@ + kind@ + " back to source"@,
        PrintError::BadText(reason) => reason@,
        PrintError::Cyclic => "cannot write a table that holds itself back to source"@,
        PrintError::Lua(reason) => reason@,
        PrintError::Crowded => "cannot go through so many tables"@,
    }
}

/// What a failure reads as, from the outside in.
pub open spec fn keys_message(e: KeysError) -> Seq<char> {
    match e {
        KeysError::Evaluate(reason) => "evaluating the ModuleScript source: "@ + reason@,
        KeysError::NotATable => "the ModuleScript does not return a table"@,
        KeysError::Setting(path, reason) => "setting key '"@ + path@ + "': "@ + reason@,
        KeysError::Print(e) => print_message(e),
    }
}

impl KeysError {
    /// What the failure reads as.
    pub fn message(&self) -> (r: String)
        ensures
            r@ == keys_message(*self),
    {
        match self {
            KeysError::Evaluate(reason) => {
                let mut out: String = "evaluating the ModuleScript source: ".to_owned();
                out.append(reason.as_str());
                out
            },
            KeysError::NotATable => "the ModuleScript does not return a table".to_owned(),
            KeysError::Setting(path, reason) => {
                let mut out: String = "setting key '".to_owned();
                out.append(path.as_str());
                out.append("': ");
                out.append(reason.as_str());
                out
            },
            KeysError::Print(e) => match e {
                PrintError::Unwritable(kind) => {
                    let mut out: String = "cannot write a ".to_owned();
                    out.append(kind.as_str());
                    out.append(" back to source");
                    out
                },
                PrintError::BadText(reason) => reason.as_str().to_owned(),
                PrintError::Cyclic => {
                    "cannot write a table that holds itself back to source".to_owned()
                },
                PrintError::Lua(reason) => reason.as_str().to_owned(),
                PrintError::Crowded => "cannot go through so many tables".to_owned(),
            },
        }
    }
}

/// Whether `r` is what making the edits in the table `root` and printing it comes
/// to. The runtime may fail at any point: a key could not be set where the edits
/// before it were made and this one was stopped with the message that is given.
pub open spec fn rewritten(
    heap: LuaHeap,
    root: mlua::Table,
    edits: Seq<Edit>,
    r: Result<String, KeysError>,
) -> bool {
    match r {
        Err(KeysError::Setting(path, reason)) => exists|i: int|
            {
                &&& 0 <= i < edits.len()
                &&& (#[trigger] edits[i]).0 == path@
                &&& stopped_after(heap, root, edits.take(i), edits[i], reason@)
            },
        Err(KeysError::Evaluate(_)) => false,
        Err(KeysError::NotATable) => false,
        Ok(text) => exists|after: LuaHeap|
            {
                &&& #[trigger] edited(heap, root, edits, after)
                &&& sound(after)
                &&& agrees(after, root, Ok(text), module_text(after, root))
            },
        Err(KeysError::Print(e)) => exists|after: LuaHeap|
            {
                &&& #[trigger] edited(heap, root, edits, after)
                &&& sound(after)
                &&& agrees(after, root, Err(e), module_text(after, root))
            },
    }
}

/// Whether `edit` can be stopped with this message once the edits `made` were made.
pub open spec fn stopped_after(
    heap: LuaHeap,
    root: mlua::Table,
    made: Seq<Edit>,
    edit: Edit,
    message: Seq<char>,
) -> bool {
    exists|between: LuaHeap, after: LuaHeap|
        {
            &&& edited(heap, root, made, between)
            &&& #[trigger] stopped(between, root, split(edit.0, '.'), edit.1, message, after)
        }
}

/// Whether `r` is what rewriting a module comes to, once its source was run with
/// this outcome.
pub open spec fn concluded(
    outcome: Evaluation,
    edits: Seq<Edit>,
    r: Result<String, KeysError>,
) -> bool {
    match outcome {
        Evaluation::Fails(message) => r matches Err(KeysError::Evaluate(reason)) && reason@
            == message,
        Evaluation::Returns(heap, LuaValue::Table(root)) => rewritten(heap, root, edits, r),
        Evaluation::Returns(_, _) => r == Err::<String, KeysError>(KeysError::NotATable),
    }
}

/// Whether rewriting the module with this source can come to `r`.
pub open spec fn may_rewrite(
    source: Seq<char>,
    edits: Seq<Edit>,
    r: Result<String, KeysError>,
) -> bool {
    exists|outcome: Evaluation|
        {
            &&& #[trigger] evaluates("module"@, source, outcome)
            &&& concluded(outcome, edits, r)
        }
}

/// What rewriting a module came to.
pub type Rewriting = Result<String, KeysError>;

/// Make the edits in a table and print it as a module.
pub fn rewrite(lua: &mut mlua::Lua, root: &mlua::Table, edits: &[(String, KeyValue)]) -> (r: Result<
    String,
    KeysError,
>)
    requires
        ready(*old(lua)),
        lua_heap(*old(lua)).contains_key(*root),
    ensures
        rewritten(lua_heap(*old(lua)), *root, edits_model(edits@), r),
{
    let ghost before = lua_heap(*lua);
    let ghost todo = edits_model(edits@);
    let mut i: usize = 0;
    assert(todo.take(0) =~= Seq::empty());
    while i < edits.len()
        invariant
            i <= edits@.len(),
            todo == edits_model(edits@),
            before == lua_heap(*old(lua)),
            ready(*lua),
            lua_heap(*lua).contains_key(*root),
            edited(before, *root, todo.take(i as int), lua_heap(*lua)),
        decreases edits@.len() - i,
    {
        let ghost between = lua_heap(*lua);
        match set_nested(lua, root, edits[i].0.as_str(), &edits[i].1) {
            Ok(_) => {},
            Err(e) => {
                proof {
                    let edit = todo[i as int];
                    assert(edit == (edits@[i as int].0@, edits@[i as int].1@));
                    assert(stopped(
                        between,
                        *root,
                        split(edit.0, '.'),
                        edit.1,
                        e@,
                        lua_heap(*lua),
                    ));
                    assert(stopped_after(before, *root, todo.take(i as int), edit, e@));
                }
                return Err(KeysError::Setting(edits[i].0.as_str().to_owned(), e));
            },
        }
        proof {
            let upto = todo.take(i as int + 1);
            assert(upto.drop_last() =~= todo.take(i as int));
            assert(upto.last() == todo[i as int]);
            assert(placed(
                between,
                *root,
                split(upto.last().0, '.'),
                upto.last().1,
                lua_heap(*lua),
            ));
        }
        i = i + 1;
    }
    assert(todo.take(todo.len() as int) =~= todo);
    match module_source(lua, root) {
        Ok(text) => Ok(text),
        Err(e) => Err(KeysError::Print(e)),
    }
}

/// What rewriting a module comes to, once its source was run.
pub fn conclude(evaluated: Result<(mlua::Lua, Datum), String>, edits: &[(String, KeyValue)]) -> (r:
    Result<String, KeysError>)
    requires
        evaluated matches Ok((lua, value)) ==> ready(lua) && known(lua_heap(lua), value@),
    ensures
        concluded(outcome_of(evaluated), edits_model(edits@), r),
{
    match evaluated {
        Ok((lua, value)) => {
            let mut lua = lua;
            match value {
                Datum::Table(root) => rewrite(&mut lua, &root, edits),
                _ => Err(KeysError::NotATable),
            }
        },
        Err(message) => Err(KeysError::Evaluate(message)),
    }
}

/// Evaluate `source`, make the edits and print the table back as a module.
///
/// Keys are printed in sorted order, so a run with unchanged inputs gives the same
/// text.
pub fn apply_keys(source: &str, edits: &[(String, KeyValue)]) -> (r: Result<String, KeysError>)
    ensures
        may_rewrite(source@, edits_model(edits@), r),
{
    let evaluated = run("module", source);
    assert(evaluates("module"@, source@, outcome_of(evaluated)));
    conclude(evaluated, edits)
}

/// What is said of a failure tells what failed, and why.
pub proof fn law_a_failure_is_told(e: PrintError, path: String, reason: String)
    ensures
        keys_message(KeysError::Evaluate(reason)) == "evaluating the ModuleScript source: "@
            + reason@,
        keys_message(KeysError::NotATable) == "the ModuleScript does not return a table"@,
        keys_message(KeysError::Setting(path, reason)) == "setting key '"@ + path@ + "': "@
            + reason@,
        keys_message(KeysError::Print(e)) == match e {
            PrintError::Unwritable(kind) => "cannot write a "@ + kind@ + " back to source"@,
            PrintError::BadText(why) => why@,
            PrintError::Lua(why) => why@,
            PrintError::Cyclic => "cannot write a table that holds itself back to source"@,
            PrintError::Crowded => "cannot go through so many tables"@,
        },
{
}

/// What rewriting a module comes to, by what its source came to. A source that fails is told so
/// with its message, and one that returns no table is told so. Of a table, the edits are made,
/// all of them and in order, and what is printed of it then is the new source.
pub proof fn law_what_rewriting_comes_to(
    outcome: Evaluation,
    edits: Seq<Edit>,
    r: Result<String, KeysError>,
)
    requires
        concluded(outcome, edits, r),
    ensures
        match outcome {
            Evaluation::Fails(message) => r matches Err(KeysError::Evaluate(reason)) && reason@
                == message,
            Evaluation::Returns(heap, value) => match value {
                LuaValue::Table(root) => match r {
                    Ok(text) => exists|after: LuaHeap| #[trigger]
                        edited(heap, root, edits, after) && module_text(after, root) == Ok::<
                            Seq<char>,
                            Refusal,
                        >(text@),
                    Err(e) => {
                        &&& !(e is Evaluate) && !(e is NotATable)
                        &&& e matches KeysError::Setting(path, _) ==> exists|i: int|
                            0 <= i < edits.len() && (#[trigger] edits[i]).0 == path@
                        &&& e matches KeysError::Print(PrintError::Unwritable(kind)) ==> exists|
                            after: LuaHeap,
                        | #[trigger]
                            edited(heap, root, edits, after) && module_text(after, root) == Err::<
                                Seq<char>,
                                Refusal,
                            >(Refusal::Unwritable(kind@))
                        &&& e matches KeysError::Print(PrintError::Cyclic) ==> exists|
                            after: LuaHeap,
                        | #[trigger]
                            edited(heap, root, edits, after) && module_text(after, root) == Err::<
                                Seq<char>,
                                Refusal,
                            >(Refusal::Cyclic)
                    },
                },
                _ => r matches Err(KeysError::NotATable),
            },
        },
{
}

} // verus!
