use vstd::prelude::*;

use crate::enums::{spec_load_order_method, GameId, LoadOrderMethod};
use crate::names::{names_match, same_name};

verus! {

/// A game's configuration, resolved by the caller: which game it is, where
/// its files live, and which plugins it always loads.
#[derive(Clone, Debug)]
pub struct GameSettings {
    pub id: GameId,
    pub master_file: String,
    /// The plugins that the game loads whether or not they are listed, in
    /// their hardcoded order.
    pub implicitly_active_plugins: Vec<String>,
    pub plugins_directory: String,
    pub active_plugins_file: String,
}

/// Whether `name` is one of the implicitly active plugins `implicits`.
pub open spec fn is_implicit(implicits: Seq<String>, name: Seq<char>) -> bool {
    exists|k: int| 0 <= k < implicits.len() && same_name(#[trigger] implicits[k]@, name)
}

impl GameSettings {
    pub open spec fn implicits(&self) -> Seq<String> {
        self.implicitly_active_plugins@
    }

    pub fn id(&self) -> (r: GameId)
        ensures
            r == self.id,
    {
        self.id
    }

    pub fn load_order_method(&self) -> (r: LoadOrderMethod)
        ensures
            r == spec_load_order_method(self.id),
    {
        self.id.load_order_method()
    }

    pub fn master_file(&self) -> (r: &str)
        ensures
            r@ == self.master_file@,
    {
        self.master_file.as_str()
    }

    pub fn implicitly_active_plugins(&self) -> (r: &Vec<String>)
        ensures
            r@ == self.implicits(),
    {
        &self.implicitly_active_plugins
    }

    /// Whether the game always loads the plugin of the given name.
    pub fn is_implicitly_active(&self, name: &str) -> (r: bool)
        ensures
            r == is_implicit(self.implicits(), name@),
    {
        let mut i: usize = 0;
        while i < self.implicitly_active_plugins.len()
            invariant
                0 <= i <= self.implicits().len(),
                forall|k: int| 0 <= k < i ==> !same_name(#[trigger] self.implicits()[k]@, name@),
            decreases self.implicits().len() - i,
        {
            if names_match(self.implicitly_active_plugins[i].as_str(), name) {
                return true;
            }
            i += 1;
        }
        false
    }
}

} // verus!
