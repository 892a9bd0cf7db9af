//! What rules are resolved against.

use vstd::prelude::*;

verus! {

/// The name of the module that holds the asset map, which `$module` stands for.
pub const ASSETS: &'static str = "assets";

/// The name of the generated ids module, which `$rbxsync_module` stands for.
pub const IDS: &'static str = "ids";

/// Something that rules are resolved against: a map that keys are looked up in,
/// and the sources of modules, which are copied as they are.
pub trait Sources {
    /// The map.
    spec fn map(&self) -> Map<Seq<char>, Seq<char>>;

    /// The module sources, by name.
    spec fn modules(&self) -> Map<Seq<char>, Seq<char>>;

    /// What the map holds under a key.
    fn mapped(&self, key: &str) -> (r: Option<&str>)
        ensures
            match r {
                Some(v) => self.map().contains_key(key@) && self.map()[key@] == v@,
                None => !self.map().contains_key(key@),
            },
    ;

    /// The source of a module.
    fn source_of(&self, name: &str) -> (r: Option<&str>)
        ensures
            match r {
                Some(v) => self.modules().contains_key(name@) && self.modules()[name@] == v@,
                None => !self.modules().contains_key(name@),
            },
    ;
}

} // verus!
