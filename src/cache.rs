//! A recipe cache: item names interned to ids, the token count of each item
//! as far as known, and the recipes learned so far.
use std::collections::HashMap;
use vstd::prelude::*;

use crate::pair::NOTHING;
use crate::recipe::{lookup, with_recipe, RecipeSet};

verus! {

/// The marker of an unknown token count.
pub const NONE: usize = usize::MAX;

pub struct Cache {
    id: HashMap<String, u32>,
    name: Vec<String>,
    token: Vec<usize>,
    pair: RecipeSet,
}

impl Cache {
    /// The names, by id.
    pub closed spec fn names(&self) -> Seq<Seq<char>> {
        self.name@.map_values(|s: String| s@)
    }

    /// The token counts, by id; `None` where unknown.
    pub closed spec fn tokens(&self) -> Seq<Option<usize>> {
        self.token@.map_values(|t: usize| if t == NONE { None } else { Some(t) })
    }

    /// The recipes learned so far.
    pub closed spec fn recipes(&self) -> Map<(u32, u32), u32> {
        self.pair@
    }

    pub closed spec fn wf(&self) -> bool {
        &&& self.name@.len() >= 1
        &&& self.name@.len() <= 4294967296
        &&& self.token@.len() == self.name@.len()
        &&& self.pair.wf()
    }

    /// The cache with only the reserved item, of token count 0.
    pub fn new() -> (r: Cache)
        ensures
            r.wf(),
            r.names().len() == 1,
            r.tokens() == seq![Some(0usize)],
            r.recipes() == Map::<(u32, u32), u32>::empty(),
    {
        let mut name: Vec<String> = Vec::new();
        name.push("Nothing".to_owned());
        let mut token: Vec<usize> = Vec::new();
        token.push(0);
        let r = Cache { id: HashMap::new(), name, token, pair: RecipeSet::new() };
        assert(r.tokens() =~= seq![Some(0usize)]);
        r
    }

    /// The id of `name`, given a new one, of unknown token count, if it has
    /// none. The empty name is the reserved id.
    pub fn intern(&mut self, name: &str) -> (r: u32)
        requires
            old(self).wf(),
            old(self).names().len() < 4294967296,
        ensures
            final(self).wf(),
            name@.len() == 0 ==> r == NOTHING && final(self).names() == old(self).names(),
            name@.len() > 0 ==> (r as int) < final(self).names().len() && final(self).names()[r as int] == name@,
            final(self).names().len() >= old(self).names().len(),
            final(self).names().len() <= old(self).names().len() + 1,
            forall|i: int| 0 <= i < old(self).names().len() ==> #[trigger] final(self).names()[i] == old(self).names()[i],
            final(self).names().len() > old(self).names().len() ==> {
                &&& r as int == old(self).names().len()
                &&& final(self).tokens() == old(self).tokens().push(None)
            },
            final(self).names().len() == old(self).names().len() ==> final(self).tokens() == old(self).tokens(),
            final(self).recipes() == old(self).recipes(),
    {
        if name.is_empty() {
            return NOTHING;
        }
        let owned = name.to_owned();
        match self.id.get(&owned) {
            Some(id) => {
                let id = *id;
                if (id as usize) < self.name.len() && self.name[id as usize] == owned {
                    return id;
                }
            },
            None => {},
        }
        let id = self.name.len() as u32;
        self.id.insert(name.to_owned(), id);
        self.name.push(owned);
        self.token.push(NONE);
        proof {
            assert(self.names() =~= old(self).names().push(name@));
            assert(self.tokens() =~= old(self).tokens().push(None));
        }
        id
    }

    /// The name of `id`.
    pub fn name(&self, id: u32) -> (r: &str)
        requires
            (id as int) < self.names().len(),
        ensures
            r@ == self.names()[id as int],
    {
        self.name[id as usize].as_str()
    }

    /// Records `pair[0] + pair[1] -> result` in both orders. A pair that
    /// already has a different result keeps it, and that result comes back as
    /// the error.
    pub fn insert_pair(&mut self, pair: [u32; 2], result: u32) -> (r: Result<(), u32>)
        requires
            old(self).wf(),
            pair@[0] != NOTHING,
            pair@[1] != NOTHING,
        ensures
            final(self).wf(),
            final(self).names() == old(self).names(),
            final(self).tokens() == old(self).tokens(),
            match lookup(old(self).recipes(), pair@[0], pair@[1]) {
                Some(x) => final(self).recipes() == old(self).recipes() && r == if x == result {
                    Ok::<(), u32>(())
                } else {
                    Err(x)
                },
                None => final(self).recipes() == with_recipe(old(self).recipes(), pair@[0], pair@[1], result)
                    && r == Ok::<(), u32>(()),
            },
    {
        self.pair.insert(pair[0], pair[1], result)
    }

    /// The recorded result of the pair, if any.
    pub fn pair(&self, pair: [u32; 2]) -> (r: Option<u32>)
        requires
            self.wf(),
        ensures
            r == lookup(self.recipes(), pair@[0], pair@[1]),
    {
        self.pair.get(pair[0], pair[1])
    }

    /// The recipes learned so far.
    pub fn recipe_set(&self) -> (r: &RecipeSet)
        requires
            self.wf(),
        ensures
            r@ == self.recipes(),
            r.wf(),
    {
        &self.pair
    }

    /// Records the token count of `item`.
    pub fn insert_tokenize(&mut self, item: u32, count: usize)
        requires
            old(self).wf(),
            (item as int) < old(self).names().len(),
        ensures
            final(self).wf(),
            final(self).tokens() == old(self).tokens().update(item as int, if count == NONE { None } else { Some(count) }),
            final(self).names() == old(self).names(),
            final(self).recipes() == old(self).recipes(),
    {
        self.token.set(item as usize, count);
        proof {
            assert(self.tokens() =~= old(self).tokens().update(item as int, if count == NONE { None } else { Some(count) }));
        }
    }

    /// The token count of `id`, if known.
    pub fn tokenize(&self, id: u32) -> (r: Option<usize>)
        requires
            self.wf(),
            (id as int) < self.names().len(),
        ensures
            r == self.tokens()[id as int],
    {
        let t = self.token[id as usize];
        if t == NONE {
            None
        } else {
            Some(t)
        }
    }
}

} // verus!
