//! Item names: interning to dense ids, with a canonical id per name up to
//! letter case, and the token counts the oracle reported.
use std::collections::HashMap;
use vstd::prelude::*;

use crate::pair::NOTHING;

verus! {

/// What `str::to_lowercase` makes of a name.
pub uninterp spec fn lower_of(s: Seq<char>) -> Seq<char>;

/// Relies on `str::to_lowercase`: the result depends on the characters alone.
#[verifier::external_body]
fn lowercase(s: &str) -> (r: String)
    ensures
        r@ == lower_of(s@),
{
    s.to_lowercase()
}

/// The names of the items by id; id 0 is the reserved "Nothing".
pub struct ElementSet {
    name: Vec<String>,
    by_name: HashMap<String, u32>,
    by_lcname: HashMap<String, u32>,
    canon: Vec<u32>,
    token_count: HashMap<u32, usize>,
}

impl ElementSet {
    /// The names, by id.
    pub closed spec fn names(&self) -> Seq<Seq<char>> {
        self.name@.map_values(|s: String| s@)
    }

    /// The canonical id of each id.
    pub closed spec fn canon_view(&self) -> Seq<u32> {
        self.canon@
    }

    /// The token counts recorded so far.
    pub closed spec fn token_view(&self) -> Map<u32, usize> {
        self.token_count@
    }

    pub open spec fn wf(&self) -> bool {
        &&& self.names().len() >= 1
        &&& self.names().len() <= 4294967296
        &&& self.canon_view().len() == self.names().len()
        &&& forall|i: int| 0 <= i < self.canon_view().len() ==> (#[trigger] self.canon_view()[i]) as int <= i
    }

    /// The set with only the reserved item.
    pub fn new() -> (r: ElementSet)
        ensures
            r.wf(),
            r.names().len() == 1,
            r.canon_view() == seq![NOTHING],
            r.token_view() == Map::<u32, usize>::empty(),
    {
        let nothing = "Nothing".to_owned();
        let mut name: Vec<String> = Vec::new();
        name.push(nothing);
        let mut canon: Vec<u32> = Vec::new();
        canon.push(NOTHING);
        let r = ElementSet {
            name,
            by_name: HashMap::new(),
            by_lcname: HashMap::new(),
            canon,
            token_count: HashMap::new(),
        };
        r
    }

    /// The id of `name`, given a new one if it has none. The empty name is
    /// the reserved id. A new id's canonical id is an earlier id whose name
    /// has the same lower case, or itself.
    pub fn intern(&mut self, name: &str) -> (r: u32)
        requires
            old(self).wf(),
            old(self).names().len() < 4294967296,
        ensures
            final(self).wf(),
            name@.len() == 0 ==> r == NOTHING && final(self).names() == old(self).names(),
            name@.len() > 0 ==> (r as int) < final(self).names().len() && final(self).names()[r as int] == name@,
            final(self).names().len() >= old(self).names().len(),
            final(self).names().len() <= old(self).names().len() + 1,
            forall|i: int| 0 <= i < old(self).names().len() ==> #[trigger] final(self).names()[i] == old(self).names()[i],
            final(self).names().len() > old(self).names().len() ==> r as int == old(self).names().len(),
            final(self).names().len() > old(self).names().len() ==> {
                let c = final(self).canon_view()[r as int];
                c == r || (c < r && lower_of(final(self).names()[c as int]) == lower_of(name@))
            },
            forall|i: int| 0 <= i < old(self).canon_view().len() ==> #[trigger] final(self).canon_view()[i] == old(self).canon_view()[i],
            final(self).token_view() == old(self).token_view(),
    {
        if name.is_empty() {
            return NOTHING;
        }
        let owned = name.to_owned();
        match self.by_name.get(&owned) {
            Some(id) => {
                let id = *id;
                if (id as usize) < self.name.len() && self.name[id as usize] == owned {
                    return id;
                }
            },
            None => {},
        }
        let id = self.name.len() as u32;
        let lc = lowercase(name);
        let mut c = match self.by_lcname.get(&lc) {
            Some(c) => if *c < id { *c } else { id },
            None => id,
        };
        if c < id {
            let lc2 = lowercase(self.name[c as usize].as_str());
            if !(lc2 == lc) {
                c = id;
            }
        }
        if c == id {
            self.by_lcname.insert(lc, id);
        }
        self.by_name.insert(name.to_owned(), id);
        let ghost n0 = self.name@;
        self.name.push(owned);
        self.canon.push(c);
        proof {
            assert(self.names() =~= old(self).names().push(name@));
            assert forall|i: int| 0 <= i < self.canon_view().len() implies (#[trigger] self.canon_view()[i]) as int <= i by {
                if i < old(self).canon_view().len() {
                    assert(self.canon_view()[i] == old(self).canon_view()[i]);
                }
            }
        }
        id
    }

    /// The name of `id`.
    pub fn name(&self, id: u32) -> (r: &str)
        requires
            (id as int) < self.names().len(),
        ensures
            r@ == self.names()[id as int],
    {
        self.name[id as usize].as_str()
    }

    /// The canonical id of `id`: the first id whose name matches it up to case.
    pub fn canon(&self, id: u32) -> (r: u32)
        requires
            self.wf(),
            (id as int) < self.names().len(),
        ensures
            r == self.canon_view()[id as int],
            r <= id,
    {
        self.canon[id as usize]
    }

    /// The number of ids, the reserved one included.
    pub fn len(&self) -> (r: usize)
        ensures
            r == self.names().len(),
    {
        self.name.len()
    }

    /// The ids of the items, the reserved one left out.
    pub fn items(&self) -> (r: Vec<u32>)
        requires
            self.wf(),
        ensures
            r@.len() == self.names().len() - 1,
            forall|k: int| 0 <= k < r@.len() ==> #[trigger] r@[k] == k + 1,
    {
        let n = self.name.len();
        let mut r: Vec<u32> = Vec::new();
        let mut u: usize = 1;
        while u < n
            invariant
                1 <= u <= n,
                n == self.names().len(),
                n <= 4294967296,
                r@.len() == u - 1,
                forall|k: int| 0 <= k < r@.len() ==> #[trigger] r@[k] == k + 1,
            decreases n - u,
        {
            r.push(u as u32);
            u += 1;
        }
        r
    }

    /// The token count recorded for `u`.
    pub fn token_count(&self, u: u32) -> (r: Option<usize>)
        ensures
            r == if self.token_view().contains_key(u) { Some(self.token_view()[u]) } else { None::<usize> },
    {
        match self.token_count.get(&u) {
            Some(c) => Some(*c),
            None => None,
        }
    }

    /// Records the token count of `u`.
    pub fn set_token_count(&mut self, u: u32, count: usize)
        requires
            old(self).wf(),
        ensures
            final(self).wf(),
            final(self).token_view() == old(self).token_view().insert(u, count),
            final(self).names() == old(self).names(),
            final(self).canon_view() == old(self).canon_view(),
    {
        self.token_count.insert(u, count);
    }
}

/// Whether both items of a pair are within their token-count limits.
pub fn within_token_limits(counts: [usize; 2], max_token: [usize; 2]) -> (r: bool)
    ensures
        r == (counts@[0] <= max_token@[0] && counts@[1] <= max_token@[1]),
{
    counts[0] <= max_token[0] && counts[1] <= max_token[1]
}

} // verus!
