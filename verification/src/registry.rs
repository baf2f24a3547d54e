use vstd::prelude::*;

use crate::state::ItemState;

verus! {

/// How an item looks in each state: one prepared view description (a
/// handle `H`) per state, or none where the item has no presence.
pub struct ItemDefinition<H> {
    pub on_ground: Option<H>,
    pub equipped: Option<H>,
    pub stored: Option<H>,
}

impl<H> ItemDefinition<H> {
    pub open spec fn spec_chrome(&self, state: ItemState) -> Option<H> {
        match state {
            ItemState::OnGround => self.on_ground,
            ItemState::Equipped => self.equipped,
            ItemState::Stored => self.stored,
        }
    }

    /// The view description for `state`.
    pub fn chrome(&self, state: ItemState) -> (r: Option<&H>)
        ensures
            r is Some == self.spec_chrome(state) is Some,
            r matches Some(h) ==> *h == self.spec_chrome(state)->0,
    {
        match state {
            ItemState::OnGround => self.on_ground.as_ref(),
            ItemState::Equipped => self.equipped.as_ref(),
            ItemState::Stored => self.stored.as_ref(),
        }
    }
}

/// Item definitions by item key.
pub struct ItemRegistry<H> {
    definitions: Vec<(String, ItemDefinition<H>)>,
}

pub open spec fn spec_keys_unique<H>(s: Seq<(String, ItemDefinition<H>)>) -> bool {
    forall|i: int, j: int| 0 <= i < s.len() && 0 <= j < s.len() && i != j ==> #[trigger] s[i].0@ != #[trigger] s[j].0@
}

impl<H> ItemRegistry<H> {
    #[verifier::type_invariant]
    spec fn keys_unique(self) -> bool {
        spec_keys_unique(self.definitions@)
    }

    pub closed spec fn spec_has(self, key: Seq<char>) -> bool {
        exists|i: int| 0 <= i < self.definitions@.len() && self.definitions@[i].0@ == key
    }

    pub closed spec fn spec_index(self, key: Seq<char>) -> int {
        choose|i: int| 0 <= i < self.definitions@.len() && self.definitions@[i].0@ == key
    }
}

impl<H> View for ItemRegistry<H> {
    type V = Map<Seq<char>, ItemDefinition<H>>;

    closed spec fn view(&self) -> Map<Seq<char>, ItemDefinition<H>> {
        Map::new(|key: Seq<char>| self.spec_has(key), |key: Seq<char>| self.definitions@[self.spec_index(key)].1)
    }
}

impl<H> ItemRegistry<H> {
    /// A registry with no definitions.
    pub fn new() -> (r: ItemRegistry<H>)
        ensures
            r@ == Map::<Seq<char>, ItemDefinition<H>>::empty(),
    {
        let r = ItemRegistry { definitions: Vec::new() };
        assert(r@ =~= Map::<Seq<char>, ItemDefinition<H>>::empty());
        r
    }

    fn find(&self, key: &String) -> (r: Option<usize>)
        ensures
            match r {
                Some(i) => i < self.definitions@.len() && self.definitions@[i as int].0@ == key@,
                None => !self.spec_has(key@),
            },
    {
        let n = self.definitions.len();
        let mut i: usize = 0;
        while i < n
            invariant
                n == self.definitions@.len(),
                i <= n,
                forall|k: int| 0 <= k < i ==> self.definitions@[k].0@ != key@,
            decreases n - i,
        {
            if self.definitions[i].0 == *key {
                return Some(i);
            }
            i = i + 1;
        }
        None
    }

    /// Registers `definition` under `key`, replacing any definition the key had.
    pub fn register(&mut self, key: String, definition: ItemDefinition<H>)
        ensures
            final(self)@ == old(self)@.insert(key@, definition),
    {
        proof {
            use_type_invariant(&*self);
        }
        let ghost s = self.definitions@;
        let ghost k = key@;
        let ghost d = definition;
        let found = self.find(&key);
        let mut definitions: Vec<(String, ItemDefinition<H>)> = Vec::new();
        std::mem::swap(&mut definitions, &mut self.definitions);
        match found {
            Some(i) => {
                definitions.set(i, (key, definition));
                proof {
                    let t = definitions@;
                    assert forall|a: int, b: int| 0 <= a < t.len() && 0 <= b < t.len() && a != b
                        implies #[trigger] t[a].0@ != #[trigger] t[b].0@ by {
                        assert(t[a].0@ == s[a].0@ && t[b].0@ == s[b].0@);
                    }
                }
            },
            None => {
                definitions.push((key, definition));
                proof {
                    let t = definitions@;
                    assert forall|a: int, b: int| 0 <= a < t.len() && 0 <= b < t.len() && a != b
                        implies #[trigger] t[a].0@ != #[trigger] t[b].0@ by {
                        if a < s.len() && b < s.len() {
                            assert(t[a] == s[a] && t[b] == s[b]);
                        } else if a < s.len() {
                            assert(t[a] == s[a]);
                            assert(s[a].0@ != k);
                        } else {
                            assert(t[b] == s[b]);
                            assert(s[b].0@ != k);
                        }
                    }
                }
            },
        }
        self.definitions = definitions;
        proof {
            let t = self.definitions@;
            let old_map = old(self)@;
            assert forall|key2: Seq<char>| self.spec_has(key2) <==> old(self).spec_has(key2) || key2 == k by {
                if old(self).spec_has(key2) {
                    let j = old(self).spec_index(key2);
                    assert(t[j].0@ == key2);
                }
                if self.spec_has(key2) && key2 != k {
                    let j = self.spec_index(key2);
                    assert(j < s.len());
                    assert(s[j].0@ == key2);
                }
                if key2 == k {
                    match found {
                        Some(i) => assert(t[i as int].0@ == k),
                        None => assert(t[s.len() as int].0@ == k),
                    }
                }
            }
            assert forall|key2: Seq<char>| #[trigger] self@.contains_key(key2) implies self@[key2] == old_map.insert(k, d)[key2] by {
                let j = self.spec_index(key2);
                assert(t[j].0@ == key2);
                if key2 != k {
                    let j0 = old(self).spec_index(key2);
                    assert(s[j0].0@ == key2);
                    assert(t[j0] == s[j0]);
                    assert(j0 == j);
                }
            }
            assert(self@ =~= old_map.insert(k, d));
        }
    }

    /// The definition registered under `key`, if any.
    pub fn definition(&self, key: &String) -> (r: Option<&ItemDefinition<H>>)
        ensures
            r is Some == self@.contains_key(key@),
            r matches Some(d) ==> *d == self@[key@],
    {
        proof {
            use_type_invariant(self);
        }
        match self.find(key) {
            Some(i) => {
                proof {
                    let j = self.spec_index(key@);
                    assert(self.definitions@[j].0@ == key@);
                }
                Some(&self.definitions[i].1)
            },
            None => None,
        }
    }

    /// The view description for an item with key `key` in state `state`:
    /// none when the key has no definition, or the definition no view for
    /// that state.
    pub fn chrome(&self, key: &String, state: ItemState) -> (r: Option<&H>)
        ensures
            r is Some == (self@.contains_key(key@) && self@[key@].spec_chrome(state) is Some),
            r matches Some(h) ==> *h == self@[key@].spec_chrome(state)->0,
    {
        match self.definition(key) {
            Some(definition) => definition.chrome(state),
            None => None,
        }
    }
}

} // verus!
