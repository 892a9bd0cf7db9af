//! The asset map: what `ui.ShopIcon` resolves to, with the two modules that rules
//! know by a name of their own.

use crate::asset_map::{asset_map_read, read_asset_map, AssetMapError};
use crate::lua::{evaluates, known, lua_heap, outcome_of, ready, run, Datum, Evaluation};
use crate::sources::{Sources, ASSETS, IDS};
use crate::text::same;
use crate::text_map::{ascending, map_of, str_pairs, Pairs, TextMap};
use vstd::prelude::*;

verus! {

/// A map, the source of the module that holds it, and that of the ids module.
#[derive(Debug)]
pub struct Assets {
    map: TextMap,
    module_source: Option<String>,
    ids_module_source: Option<String>,
}

/// The text of an optional string.
pub open spec fn text_in(s: Option<String>) -> Option<Seq<char>> {
    match s {
        Some(s) => Some(s@),
        None => None,
    }
}

/// The map with the text under `name`, where there is one.
pub open spec fn with_text(
    m: Map<Seq<char>, Seq<char>>,
    name: Seq<char>,
    text: Option<Seq<char>>,
) -> Map<Seq<char>, Seq<char>> {
    match text {
        Some(text) => m.insert(name, text),
        None => m,
    }
}

impl Default for Assets {
    /// An empty map and no modules.
    fn default() -> (r: Assets)
        ensures
            r.map() == Map::<Seq<char>, Seq<char>>::empty(),
            r.asset_module() is None,
            r.ids_module() is None,
    {
        Assets { map: TextMap::new(), module_source: None, ids_module_source: None }
    }
}

impl Sources for Assets {
    closed spec fn map(&self) -> Map<Seq<char>, Seq<char>> {
        self.map@
    }

    open spec fn modules(&self) -> Map<Seq<char>, Seq<char>> {
        with_text(
            with_text(Map::empty(), "assets"@, self.asset_module()),
            "ids"@,
            self.ids_module(),
        )
    }

    fn mapped(&self, key: &str) -> (r: Option<&str>) {
        self.map.get(key)
    }

    fn source_of(&self, name: &str) -> (r: Option<&str>) {
        proof {
            reveal_strlit("assets");
            reveal_strlit("ids");
            assert("assets"@.len() != "ids"@.len());
        }
        if same(name, ASSETS) {
            self.module_source()
        } else if same(name, IDS) {
            self.ids_module_source()
        } else {
            None
        }
    }
}

/// Whether `r` is an asset map read from a file, once the source of the map was
/// run with this outcome.
pub open spec fn from_map(
    source: Seq<char>,
    outcome: Evaluation,
    r: Result<Assets, AssetMapError>,
) -> bool {
    match r {
        Ok(assets) => {
            &&& asset_map_read(outcome, Map::empty(), assets.map(), Ok(()))
            &&& assets.asset_module() == Some(source)
            &&& assets.ids_module() is None
        },
        Err(e) => asset_map_read(outcome, Map::empty(), Map::empty(), Err(e)),
    }
}

impl Assets {
    /// The source of the module that holds the map.
    pub closed spec fn asset_module(&self) -> Option<Seq<char>> {
        text_in(self.module_source)
    }

    /// The source of the ids module.
    pub closed spec fn ids_module(&self) -> Option<Seq<char>> {
        text_in(self.ids_module_source)
    }

    /// The pairs of the map, in the order of their keys.
    pub closed spec fn map_pairs(&self) -> Pairs {
        self.map.pairs()
    }

    /// Read the file that holds the asset map. `name` is what the file is called,
    /// `source` is its text.
    pub fn from_asphalt(name: &str, source: &str) -> (r: Result<Assets, AssetMapError>)
        ensures
            exists|outcome: Evaluation|
                {
                    &&& #[trigger] evaluates(name@, source@, outcome)
                    &&& from_map(source@, outcome, r)
                },
    {
        let evaluated = run(name, source);
        assert(evaluates(name@, source@, outcome_of(evaluated)));
        Assets::from_evaluated(source, evaluated)
    }

    /// Take in the file that holds the asset map, once it was run.
    pub fn from_evaluated(
        source: &str,
        evaluated: Result<(mlua::Lua, Datum), String>,
    ) -> (r: Result<Assets, AssetMapError>)
        requires
            evaluated matches Ok((lua, value)) ==> ready(lua) && known(lua_heap(lua), value@),
        ensures
            from_map(source@, outcome_of(evaluated), r),
    {
        let mut map: TextMap = TextMap::new();
        match read_asset_map(evaluated, &mut map) {
            Ok(_) => {},
            Err(e) => {
                return Err(e);
            },
        }
        Ok(Assets { map, module_source: Some(source.to_owned()), ids_module_source: None })
    }

    /// Register the text of the ids module.
    pub fn with_ids_module(self, source: &str) -> (r: Assets)
        ensures
            r.map() == self.map(),
            r.asset_module() == self.asset_module(),
            r.ids_module() == Some(source@),
    {
        Assets {
            map: self.map,
            module_source: self.module_source,
            ids_module_source: Some(source.to_owned()),
        }
    }

    /// What the map holds under a key.
    pub fn get(&self, key: &str) -> (r: Option<&str>)
        ensures
            match r {
                Some(v) => self.map().contains_key(key@) && self.map()[key@] == v@,
                None => !self.map().contains_key(key@),
            },
    {
        self.map.get(key)
    }

    /// The source of the module that holds the map.
    pub fn module_source(&self) -> (r: Option<&str>)
        ensures
            match r {
                Some(v) => self.asset_module() == Some(v@),
                None => self.asset_module() is None,
            },
    {
        match &self.module_source {
            Some(s) => Some(s.as_str()),
            None => None,
        }
    }

    /// The source of the ids module.
    pub fn ids_module_source(&self) -> (r: Option<&str>)
        ensures
            match r {
                Some(v) => self.ids_module() == Some(v@),
                None => self.ids_module() is None,
            },
    {
        match &self.ids_module_source {
            Some(s) => Some(s.as_str()),
            None => None,
        }
    }

    /// The keys of the map, in order.
    pub fn keys(&self) -> (r: Vec<&str>)
        ensures
            r@.len() == self.map_pairs().len(),
            forall|i: int| 0 <= i < r@.len() ==> (#[trigger] r@[i])@ == self.map_pairs()[i].0,
            ascending(self.map_pairs()),
            map_of(self.map_pairs()) == self.map(),
    {
        self.map.keys()
    }

    /// A map that is there already.
    pub fn from_pairs(pairs: &[(&str, &str)]) -> (r: Assets)
        ensures
            r.map() == map_of(str_pairs(pairs@)),
            r.asset_module() is None,
            r.ids_module() is None,
    {
        Assets {
            map: TextMap::from_pairs(pairs),
            module_source: None,
            ids_module_source: None,
        }
    }

    /// Set the source of the module that holds the map.
    pub fn with_module_source(self, source: &str) -> (r: Assets)
        ensures
            r.map() == self.map(),
            r.asset_module() == Some(source@),
            r.ids_module() == self.ids_module(),
    {
        Assets {
            map: self.map,
            module_source: Some(source.to_owned()),
            ids_module_source: self.ids_module_source,
        }
    }
}

/// Which modules there are: the one that holds the map under `assets` and the ids module under
/// `ids`, each just where it was given and with its own source, and no others.
pub proof fn law_the_two_modules(assets: Assets, name: Seq<char>)
    ensures
        name == "assets"@ ==> assets.modules().contains_key(name) == assets.asset_module() is Some,
        name == "ids"@ ==> assets.modules().contains_key(name) == assets.ids_module() is Some,
        assets.asset_module() matches Some(source) ==> assets.modules()["assets"@] == source,
        assets.ids_module() matches Some(source) ==> assets.modules()["ids"@] == source,
        name != "assets"@ && name != "ids"@ ==> !assets.modules().contains_key(name),
{
    reveal_strlit("assets");
    reveal_strlit("ids");
    assert("assets"@.len() != "ids"@.len());
}

/// What reading the file of a map gives: its map and nothing else in it, its text as the source
/// of the module, and no ids module. It gives this just where reading the map succeeds.
pub proof fn law_what_a_file_gives(
    source: Seq<char>,
    outcome: Evaluation,
    r: Result<Assets, AssetMapError>,
)
    requires
        from_map(source, outcome, r),
    ensures
        match r {
            Ok(assets) => {
                &&& asset_map_read(outcome, Map::empty(), assets.map(), Ok(()))
                &&& assets.asset_module() == Some(source)
                &&& assets.ids_module() is None
            },
            Err(e) => asset_map_read(outcome, Map::empty(), Map::empty(), Err(e)),
        },
{
}

} // verus!
