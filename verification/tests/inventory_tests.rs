use tile_mosaic::inventory::{FootprintTally, ObjectKind};

#[test]
fn tally_counts_by_kind_and_tag() {
    let mut t = FootprintTally::new();
    t.record(ObjectKind::Node, 1, false);
    t.record(ObjectKind::Node, 2, true);
    t.record(ObjectKind::Node, 3, true);
    t.record(ObjectKind::Way, 10, true);
    t.record(ObjectKind::Way, 11, false);
    t.record(ObjectKind::Relation, 20, true);
    let (nodes, building_nodes, building_ways, building_relations) = t.counts();
    assert_eq!(nodes, 3);
    assert_eq!(building_nodes, 2);
    assert_eq!(building_ways, 1);
    assert_eq!(building_relations, 1);
}

#[test]
fn recording_an_identifier_twice_keeps_one_entry() {
    let mut t = FootprintTally::new();
    t.record(ObjectKind::Node, 5, true);
    t.record(ObjectKind::Node, 5, true);
    let (nodes, building_nodes, _, _) = t.counts();
    assert_eq!(nodes, 1);
    assert_eq!(building_nodes, 1);
}
