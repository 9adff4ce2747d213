//! A tally of the upstream footprint objects: which identifiers were
//! seen, and which of them carry the building tag, by object kind. The
//! decoding of the upstream format stays outside the library; records
//! arrive as plain values.

use vstd::prelude::*;
use std::collections::HashSet;

verus! {

broadcast use vstd::std_specs::hash::group_hash_axioms;

/// The kind of an upstream object.
#[derive(Clone, Copy, Debug, PartialEq, Eq, Structural)]
pub enum ObjectKind {
    Node,
    Way,
    Relation,
}

/// Identifier sets per kind: every node is recorded; ways and relations
/// only when tagged as buildings, as are building-tagged nodes.
pub struct FootprintTally {
    pub nodes_all: HashSet<i64>,
    pub building_nodes: HashSet<i64>,
    pub building_ways: HashSet<i64>,
    pub building_relations: HashSet<i64>,
}

impl FootprintTally {
    pub fn new() -> (r: FootprintTally)
        ensures
            r.nodes_all@ == Set::<i64>::empty(),
            r.building_nodes@ == Set::<i64>::empty(),
            r.building_ways@ == Set::<i64>::empty(),
            r.building_relations@ == Set::<i64>::empty(),
    {
        FootprintTally {
            nodes_all: HashSet::new(),
            building_nodes: HashSet::new(),
            building_ways: HashSet::new(),
            building_relations: HashSet::new(),
        }
    }

    /// Record one object: a node always lands in the node set; any
    /// building-tagged object also lands in its kind's building set.
    pub fn record(&mut self, kind: ObjectKind, id: i64, is_building: bool)
        ensures
            final(self).nodes_all@ == if kind == ObjectKind::Node {
                old(self).nodes_all@.insert(id)
            } else {
                old(self).nodes_all@
            },
            final(self).building_nodes@ == if kind == ObjectKind::Node && is_building {
                old(self).building_nodes@.insert(id)
            } else {
                old(self).building_nodes@
            },
            final(self).building_ways@ == if kind == ObjectKind::Way && is_building {
                old(self).building_ways@.insert(id)
            } else {
                old(self).building_ways@
            },
            final(self).building_relations@ == if kind == ObjectKind::Relation && is_building {
                old(self).building_relations@.insert(id)
            } else {
                old(self).building_relations@
            },
    {
        match kind {
            ObjectKind::Node => {
                if is_building {
                    self.building_nodes.insert(id);
                }
                self.nodes_all.insert(id);
            },
            ObjectKind::Way => {
                if is_building {
                    self.building_ways.insert(id);
                }
            },
            ObjectKind::Relation => {
                if is_building {
                    self.building_relations.insert(id);
                }
            },
        }
    }

    /// The four set sizes: all nodes, building nodes, building ways,
    /// building relations.
    pub fn counts(&self) -> (r: (usize, usize, usize, usize))
        ensures
            r.0 == self.nodes_all@.len(),
            r.1 == self.building_nodes@.len(),
            r.2 == self.building_ways@.len(),
            r.3 == self.building_relations@.len(),
    {
        (
            self.nodes_all.len(),
            self.building_nodes.len(),
            self.building_ways.len(),
            self.building_relations.len(),
        )
    }
}

} // verus!
