//! Exploration of a combination space: items combine pairwise into other
//! items, and the library enumerates what a seed set can reach, finds minimal
//! generating sets, rebuilds combination paths and searches for removable
//! subsets of a pool.
use vstd::prelude::*;

pub mod cache;
pub mod element_set;
pub mod enumeration;
pub mod lines;
pub mod pair;
pub mod path;
pub mod recipe;
pub mod search;
pub mod seqs;
pub mod set_enum;
pub mod subset;
pub mod uniform_family;

pub use cache::Cache;
pub use element_set::ElementSet;
pub use enumeration::SetEnumeration;
pub use pair::{Pair, SymPair, NOTHING};
pub use path::get_path;
pub use recipe::RecipeSet;
pub use search::{Graph, Search};
pub use uniform_family::UniformFamily;

verus! {

/// The four starting items of the game: Water, Fire, Wind and Earth.
pub fn default_init() -> (r: Vec<String>)
    ensures
        r@.len() == 4,
        r@[0]@ == "Water"@,
        r@[1]@ == "Fire"@,
        r@[2]@ == "Wind"@,
        r@[3]@ == "Earth"@,
{
    let mut r: Vec<String> = Vec::new();
    r.push("Water".to_owned());
    r.push("Fire".to_owned());
    r.push("Wind".to_owned());
    r.push("Earth".to_owned());
    r
}

} // verus!
