use vstd::prelude::*;
use crate::node_def::NodeDef;

verus! {

/// Map of the node definitions that a graph can use, by name. The names and the
/// definitions stand in two lists, a definition at the place of its name: of a hash map
/// with `String` keys Verus knows nothing, not even that it holds what was put in.
pub struct NodeDefRegistry {
    names: Vec<String>,
    defs: Vec<NodeDef>,
}

impl NodeDefRegistry {
    /// Every name stands for one definition.
    pub closed spec fn wf(&self) -> bool {
        &&& self.names.len() == self.defs.len()
        &&& forall|i: int, j: int|
            0 <= i < j < self.names.len() ==> self.names[i]@ != self.names[j]@
    }

    spec fn position(&self, name: Seq<char>) -> int {
        choose|i: int| 0 <= i < self.names.len() && self.names[i]@ == name
    }

    /// The registered definitions, by name.
    pub closed spec fn view(&self) -> Map<Seq<char>, NodeDef> {
        Map::new(
            |name: Seq<char>| exists|i: int| 0 <= i < self.names.len() && self.names[i]@ == name,
            |name: Seq<char>| self.defs[self.position(name)],
        )
    }

    /// The name at a position is found at that position and at no other.
    proof fn lemma_entry(&self, i: int)
        requires
            self.wf(),
            0 <= i < self.names.len(),
        ensures
            self.position(self.names[i]@) == i,
            self@.contains_key(self.names[i]@),
            self@[self.names[i]@] == self.defs[i],
    {
        let p = self.position(self.names[i]@);
        assert(0 <= p < self.names.len() && self.names[p]@ == self.names[i]@);
        if p < i {
            assert(self.names[p]@ != self.names[i]@);
        } else if i < p {
            assert(self.names[i]@ != self.names[p]@);
        }
    }

    pub fn new() -> (registry: NodeDefRegistry)
        ensures
            registry.wf(),
            registry@ == Map::<Seq<char>, NodeDef>::empty(),
    {
        let registry = NodeDefRegistry { names: Vec::new(), defs: Vec::new() };
        assert(registry@ =~= Map::<Seq<char>, NodeDef>::empty());
        registry
    }

    fn find(&self, node_def_name: &String) -> (found: Option<usize>)
        requires
            self.wf(),
        ensures
            match found {
                Some(i) => i < self.names.len() && self.names[i as int]@ == node_def_name@
                    && self.position(node_def_name@) == i && self@.contains_key(node_def_name@),
                None => !self@.contains_key(node_def_name@),
            },
    {
        let mut i: usize = 0;
        while i < self.names.len()
            invariant
                self.wf(),
                i <= self.names.len(),
                forall|j: int| 0 <= j < i ==> self.names[j]@ != node_def_name@,
            decreases self.names.len() - i,
        {
            if self.names[i] == *node_def_name {
                proof {
                    self.lemma_entry(i as int);
                }
                return Some(i);
            }
            i += 1;
        }
        None
    }

    /// Whether a definition is registered under this name.
    pub fn contains(&self, node_def_name: &String) -> (known: bool)
        requires
            self.wf(),
        ensures
            known == self@.contains_key(node_def_name@),
    {
        self.find(node_def_name).is_some()
    }

    /// Adds a definition under a name that is not taken yet.
    pub fn register(&mut self, node_def_name: String, node_def: NodeDef)
        requires
            old(self).wf(),
            !old(self)@.contains_key(node_def_name@),
        ensures
            final(self).wf(),
            final(self)@ == old(self)@.insert(node_def_name@, node_def),
    {
        let ghost before = *self;
        self.names.push(node_def_name);
        self.defs.push(node_def);
        proof {
            let last = self.names.len() - 1;
            assert forall|i: int, j: int| 0 <= i < j < self.names.len() implies self.names[i]@
                != self.names[j]@ by {
                if j == last {
                    assert(before.names[i]@ == self.names[i]@);
                    assert(before@.contains_key(self.names[i]@));
                } else {
                    assert(before.names[i]@ != before.names[j]@);
                }
            }
            assert forall|name: Seq<char>| #[trigger]
                self@.contains_key(name) == before@.insert(node_def_name@, node_def).contains_key(
                    name,
                ) by {
                if self@.contains_key(name) {
                    let i = self.position(name);
                    if i != last {
                        assert(before.names[i]@ == name);
                    }
                }
                if before@.contains_key(name) {
                    let i = before.position(name);
                    assert(self.names[i]@ == name);
                }
                if name == node_def_name@ {
                    assert(self.names[last]@ == name);
                }
            }
            assert forall|name: Seq<char>| #[trigger] self@.contains_key(name) implies self@[name]
                == before@.insert(node_def_name@, node_def)[name] by {
                let i = self.position(name);
                self.lemma_entry(i);
                if i != last {
                    before.lemma_entry(i);
                }
            }
            assert(self@ =~= before@.insert(node_def_name@, node_def));
        }
    }

    /// The definition registered under a name.
    pub fn get_def(&self, node_def_name: &String) -> (node_def: &NodeDef)
        requires
            self.wf(),
            self@.contains_key(node_def_name@),
        ensures
            *node_def == self@[node_def_name@],
    {
        let found = self.find(node_def_name);
        &self.defs[found.unwrap()]
    }

    /// Forgets every definition.
    pub fn reset(&mut self)
        ensures
            final(self).wf(),
            final(self)@ == Map::<Seq<char>, NodeDef>::empty(),
    {
        self.names.clear();
        self.defs.clear();
        assert(self@ =~= Map::<Seq<char>, NodeDef>::empty());
    }
}

} // verus!
