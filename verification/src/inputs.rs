//! What rules are resolved against: a map, and modules under any name.
//!
//! The map is evaluated, so that `ui.ShopIcon` resolves to an id. The modules are
//! copied as they are: generated Luau files whose whole text goes into the `Source`
//! of a ModuleScript. The asset map file is both.

use crate::asset_map::{asset_map_read, read_asset_map, AssetMapError};
use crate::lua::{evaluates, known, lua_heap, outcome_of, ready, run, Datum, Evaluation};
use crate::sources::Sources;
use crate::text_map::{ascending, map_of, str_pairs, Pairs, TextMap};
use vstd::prelude::*;

pub use crate::sources::{ASSETS, IDS};

verus! {

/// A map and named module sources.
#[derive(Debug)]
pub struct Inputs {
    map: TextMap,
    modules: TextMap,
}

impl Default for Inputs {
    /// An empty map and no modules.
    fn default() -> (r: Inputs)
        ensures
            r.map() == Map::<Seq<char>, Seq<char>>::empty(),
            r.modules() == Map::<Seq<char>, Seq<char>>::empty(),
    {
        Inputs { map: TextMap::new(), modules: TextMap::new() }
    }
}

impl Sources for Inputs {
    closed spec fn map(&self) -> Map<Seq<char>, Seq<char>> {
        self.map@
    }

    closed spec fn modules(&self) -> Map<Seq<char>, Seq<char>> {
        self.modules@
    }

    fn mapped(&self, key: &str) -> (r: Option<&str>) {
        self.map.get(key)
    }

    fn source_of(&self, name: &str) -> (r: Option<&str>) {
        self.modules.get(name)
    }
}

/// Whether `r` is `before` with an asset map read into it, once the source of the
/// map was run with this outcome.
pub open spec fn with_map(
    before: Inputs,
    source: Seq<char>,
    outcome: Evaluation,
    r: Result<Inputs, AssetMapError>,
) -> bool {
    match r {
        Ok(after) => {
            &&& asset_map_read(outcome, before.map(), after.map(), Ok(()))
            &&& after.modules() == before.modules().insert("assets"@, source)
        },
        Err(e) => asset_map_read(outcome, before.map(), before.map(), Err(e)),
    }
}

impl Inputs {
    /// Read the file that holds the asset map: both the map and the module named
    /// [`ASSETS`]. `name` is what the file is called, `source` is its text.
    pub fn with_asphalt(self, name: &str, source: &str) -> (r: Result<Inputs, AssetMapError>)
        ensures
            exists|outcome: Evaluation|
                {
                    &&& #[trigger] evaluates(name@, source@, outcome)
                    &&& with_map(self, source@, outcome, r)
                },
    {
        let evaluated = run(name, source);
        assert(evaluates(name@, source@, outcome_of(evaluated)));
        self.with_evaluated(source, evaluated)
    }

    /// Take in the file that holds the asset map, once it was run.
    pub fn with_evaluated(
        self,
        source: &str,
        evaluated: Result<(mlua::Lua, Datum), String>,
    ) -> (r: Result<Inputs, AssetMapError>)
        requires
            evaluated matches Ok((lua, value)) ==> ready(lua) && known(lua_heap(lua), value@),
        ensures
            with_map(self, source@, outcome_of(evaluated), r),
    {
        let mut map: TextMap = self.map;
        let mut modules: TextMap = self.modules;
        match read_asset_map(evaluated, &mut map) {
            Ok(_) => {},
            Err(e) => {
                return Err(e);
            },
        }
        modules.insert(ASSETS.to_owned(), source.to_owned());
        Ok(Inputs { map, modules })
    }

    /// Register the text of a file as a module source under `name`.
    pub fn with_module(self, name: &str, source: &str) -> (r: Inputs)
        ensures
            r.map() == self.map(),
            r.modules() == self.modules().insert(name@, source@),
    {
        self.with_module_source(name, source)
    }

    /// What the map holds under a key.
    pub fn get(&self, key: &str) -> (r: Option<&str>)
        ensures
            match r {
                Some(v) => self.map().contains_key(key@) && self.map()[key@] == v@,
                None => !self.map().contains_key(key@),
            },
    {
        self.map.get(key)
    }

    /// The source of a module.
    pub fn module(&self, name: &str) -> (r: Option<&str>)
        ensures
            match r {
                Some(v) => self.modules().contains_key(name@) && self.modules()[name@] == v@,
                None => !self.modules().contains_key(name@),
            },
    {
        self.modules.get(name)
    }

    /// Whether there is anything in the map.
    pub fn has_map(&self) -> (r: bool)
        ensures
            r == (self.map() != Map::<Seq<char>, Seq<char>>::empty()),
    {
        !self.map.is_empty()
    }

    /// The modules with their sources, in the order of their names.
    pub closed spec fn module_pairs(&self) -> Pairs {
        self.modules.pairs()
    }

    /// The names of the modules, in order.
    pub fn module_names(&self) -> (r: Vec<&str>)
        ensures
            r@.len() == self.module_pairs().len(),
            forall|i: int| 0 <= i < r@.len() ==> (#[trigger] r@[i])@ == self.module_pairs()[i].0,
            ascending(self.module_pairs()),
            map_of(self.module_pairs()) == self.modules(),
    {
        self.modules.keys()
    }

    /// A map that is there already.
    pub fn from_pairs(pairs: &[(&str, &str)]) -> (r: Inputs)
        ensures
            r.map() == map_of(str_pairs(pairs@)),
            r.modules() == Map::<Seq<char>, Seq<char>>::empty(),
    {
        Inputs { map: TextMap::from_pairs(pairs), modules: TextMap::new() }
    }

    /// Register a module source.
    pub fn with_module_source(self, name: &str, source: &str) -> (r: Inputs)
        ensures
            r.map() == self.map(),
            r.modules() == self.modules().insert(name@, source@),
    {
        let mut modules: TextMap = self.modules;
        modules.insert(name.to_owned(), source.to_owned());
        Inputs { map: self.map, modules }
    }
}

/// What taking in the file of a map does: its map is laid over the one that was there, its text
/// is the source of the module `assets`, and every other module is as it was. It does this just
/// where reading the map succeeds.
pub proof fn law_what_a_file_adds(
    before: Inputs,
    source: Seq<char>,
    outcome: Evaluation,
    r: Result<Inputs, AssetMapError>,
)
    requires
        with_map(before, source, outcome, r),
    ensures
        match r {
            Ok(after) => {
                &&& asset_map_read(outcome, before.map(), after.map(), Ok(()))
                &&& after.modules().contains_key("assets"@)
                &&& after.modules()["assets"@] == source
                &&& forall|name: Seq<char>|
                    name != "assets"@ ==> {
                        &&& #[trigger] after.modules().contains_key(name)
                            == before.modules().contains_key(name)
                        &&& before.modules().contains_key(name) ==> after.modules()[name]
                            == before.modules()[name]
                    }
            },
            Err(e) => asset_map_read(outcome, before.map(), before.map(), Err(e)),
        },
{
}

} // verus!
