use rook_terminal::file_system::{
    contains_entity, last_segment_text, ArchetypeRecord, Binary, CommandRegistry, ComponentInfo,
    DynamicFilter, ECSFileSystem, EntityId, EntityRecord, Text, VFSChildren, VFSName, VFSParent,
    VFSQueryChildren,
};
use rook_terminal::text::{chars_of, string_of};

fn id(index: u32) -> EntityId {
    EntityId { index, generation: 0 }
}

fn record(entity: EntityId, name: Option<&str>, archetype: Option<usize>) -> EntityRecord {
    EntityRecord {
        entity,
        name: name.map(|n| VFSName { name: n.to_string() }),
        parent: None,
        children: None,
        query_children: None,
        text: None,
        binary: None,
        archetype,
    }
}

fn info(id: usize, name: &str) -> ComponentInfo {
    ComponentInfo { id, name: name.to_string(), size: 24 }
}

/// root(0) -> [test(1) -> [readme(2), bin(3)], empty(4), .hidden(5)]
fn sample() -> ECSFileSystem {
    let mut root = record(id(0), Some("root"), Some(0));
    root.children = Some(VFSChildren { children: vec![id(1), id(4), id(5)] });
    let mut dir = record(id(1), Some("test"), Some(0));
    dir.children = Some(VFSChildren { children: vec![id(2), id(3)] });
    dir.parent = Some(VFSParent { parent: id(0) });
    let mut readme = record(id(2), Some("test_readme.txt"), Some(1));
    readme.text = Some(Text { text: "this is some testing informations".to_string() });
    readme.parent = Some(VFSParent { parent: id(1) });
    let mut bin = record(id(3), Some("test_binary.bin"), Some(2));
    bin.binary = Some(Binary { binary: vec![123, 124, 21, 21, 42, 135, 25, 45, 24, 124] });
    let empty = record(id(4), Some("empty"), Some(3));
    let hidden = record(id(5), Some(".hidden"), Some(3));
    ECSFileSystem {
        records: vec![root, dir, readme, bin, empty, hidden],
        archetypes: vec![
            ArchetypeRecord { components: vec![0, 1], entities: vec![id(0), id(1)] },
            ArchetypeRecord { components: vec![0, 2], entities: vec![id(2)] },
            ArchetypeRecord { components: vec![0, 3], entities: vec![id(3)] },
            ArchetypeRecord { components: vec![0], entities: vec![id(4), id(5)] },
        ],
        components: vec![
            info(0, "rook_terminal::file_system::VFSName"),
            info(1, "rook_terminal::file_system::VFSChildren"),
            info(2, "rook_terminal::file_system::Text"),
            info(3, "rook_terminal::file_system::Binary"),
        ],
    }
}

#[test]
fn resolve_path_follows_names() {
    let fs = sample();
    assert_eq!(fs.resolve_path(id(0), "test/test_readme.txt"), Some(id(2)));
    assert_eq!(fs.resolve_path(id(0), "/test//test_binary.bin"), Some(id(3)));
    assert_eq!(fs.resolve_path(id(0), "test/./test_readme.txt"), Some(id(2)));
    assert_eq!(fs.resolve_path(id(0), "nope"), None);
    assert_eq!(fs.resolve_path(id(0), "test/nope/x"), None);
}

#[test]
fn resolve_path_dot_dot_uses_parent() {
    let fs = sample();
    assert_eq!(fs.resolve_path(id(0), "test/../test"), Some(id(1)));
    assert_eq!(fs.resolve_path(id(2), ".."), Some(id(1)));
    // the root has no parent: `..` stays
    assert_eq!(fs.resolve_path(id(0), ".."), Some(id(0)));
}

#[test]
fn resolve_path_here_and_concat() {
    let fs = sample();
    assert_eq!(fs.resolve_path(id(1), ""), Some(id(1)));
    assert_eq!(fs.resolve_path(id(1), "/"), Some(id(1)));
    assert_eq!(fs.resolve_path(id(1), "."), Some(id(1)));
    let a = fs.resolve_path(id(0), "test").unwrap();
    assert_eq!(fs.resolve_path(a, "test_readme.txt"), fs.resolve_path(id(0), "test/test_readme.txt"));
}

#[test]
fn parent_and_children() {
    let fs = sample();
    assert_eq!(fs.parent(id(1)), Some(id(0)));
    assert_eq!(fs.parent(id(0)), None);
    assert_eq!(fs.parent(id(9)), None);
    assert_eq!(fs.children(id(0)), vec![id(1), id(4), id(5)]);
    assert_eq!(fs.children(id(2)), Vec::<EntityId>::new());
    assert_eq!(fs.children(id(9)), Vec::<EntityId>::new());
}

#[test]
fn query_children_follow_the_filter() {
    let mut fs = sample();
    let mut q = record(id(6), Some(".files"), None);
    q.query_children = Some(VFSQueryChildren {
        filter: DynamicFilter::for_component(Some(2)).or(DynamicFilter::for_component(Some(3))),
    });
    q.children = Some(VFSChildren { children: vec![id(4)] });
    fs.records.push(q);
    // listed children first, then the archetypes' entities in order
    assert_eq!(fs.children(id(6)), vec![id(4), id(2), id(3)]);
    let mut all = record(id(7), Some(".entities"), None);
    all.query_children = Some(VFSQueryChildren { filter: DynamicFilter::Never.negate() });
    fs.records.push(all);
    assert_eq!(fs.children(id(7)), vec![id(0), id(1), id(2), id(3), id(4), id(5)]);
}

#[test]
fn filters_combine() {
    let a = ArchetypeRecord { components: vec![1, 2], entities: vec![] };
    assert!(DynamicFilter::Has(1).matches_archetype(&a));
    assert!(!DynamicFilter::Has(3).matches_archetype(&a));
    assert!(DynamicFilter::Has(1).and(DynamicFilter::Has(2)).matches_archetype(&a));
    assert!(!DynamicFilter::Has(1).and(DynamicFilter::Has(3)).matches_archetype(&a));
    assert!(DynamicFilter::Has(3).or(DynamicFilter::Has(2)).matches_archetype(&a));
    assert!(!DynamicFilter::Never.matches_archetype(&a));
    assert!(DynamicFilter::Never.negate().matches_archetype(&a));
    assert!(!DynamicFilter::Has(1).negate().matches_archetype(&a));
    assert!(DynamicFilter::And(vec![]).matches_archetype(&a));
    assert!(!DynamicFilter::Or(vec![]).matches_archetype(&a));
}

#[test]
fn negation_twice_gives_the_filter_back() {
    let f = DynamicFilter::Has(4).negate().negate();
    assert!(matches!(f, DynamicFilter::Has(4)));
    assert!(matches!(DynamicFilter::Never.negate(), DynamicFilter::Not(_)));
}

#[test]
fn for_component_without_id_is_never() {
    assert!(matches!(DynamicFilter::for_component(None), DynamicFilter::Never));
    assert!(matches!(DynamicFilter::for_component(Some(7)), DynamicFilter::Has(7)));
}

#[test]
fn compute_size_sums_files() {
    let fs = sample();
    assert!(fs.is_well_formed());
    assert_eq!(fs.compute_size(id(2)), 48);
    assert_eq!(fs.compute_size(id(4)), 24);
    assert_eq!(fs.compute_size(id(1)), 96);
    assert_eq!(fs.compute_size(id(0)), 144);
    // an entity the snapshot does not hold has no size
    assert_eq!(fs.compute_size(id(9)), 0);
}

#[test]
fn compute_size_counts_each_entity_once() {
    let mut fs = sample();
    // the directory lists itself and the same file twice
    fs.records[1].children = Some(VFSChildren { children: vec![id(1), id(2), id(2)] });
    assert_eq!(fs.compute_size(id(1)), 48);
}

#[test]
fn compute_size_of_file_is_own_size() {
    let fs = sample();
    assert_eq!(fs.compute_size(id(3)), 24 + 24);
}

#[test]
fn is_well_formed_checks_the_total_size() {
    let fs = sample();
    assert!(fs.is_well_formed());
    let mut big = sample();
    big.components[0].size = usize::MAX;
    assert!(!big.is_well_formed());
    let mut half = sample();
    half.components = vec![ComponentInfo { id: 1, name: "x".to_string(), size: usize::MAX / 2 }];
    // two records of the archetype that holds component 1
    assert!(half.is_well_formed());
    half.components[0].size = usize::MAX / 2 + 1;
    assert!(!half.is_well_formed());
}

#[test]
fn a_second_record_of_an_entity_is_not_read() {
    let mut fs = sample();
    let mut again = record(id(2), Some("again"), Some(0));
    again.children = Some(VFSChildren { children: vec![id(4)] });
    fs.records.push(again);
    assert_eq!(fs.entity_vfs_name(id(2)), "test_readme.txt");
    assert!(fs.children(id(2)).is_empty());
    assert_eq!(fs.compute_size(id(2)), 48);
    assert_eq!(fs.compute_size(id(0)), 144);
}

#[test]
fn entity_vfs_name_falls_back_to_id() {
    let fs = sample();
    assert_eq!(fs.entity_vfs_name(id(2)), "test_readme.txt");
    assert_eq!(fs.entity_vfs_name(EntityId { index: 42, generation: 3 }), "42v3");
    let mut unnamed = sample();
    unnamed.records.push(record(EntityId { index: 7, generation: 1 }, None, None));
    assert_eq!(unnamed.entity_vfs_name(EntityId { index: 7, generation: 1 }), "7v1");
}

#[test]
fn component_names_are_short() {
    let fs = sample();
    let names: Vec<String> = fs.component_names(id(2)).iter().map(|t| string_of(t)).collect();
    assert_eq!(names, vec!["VFSName".to_string(), "Text".to_string()]);
    assert!(fs.component_names(id(9)).is_empty());
}

#[test]
fn last_segment_of_paths() {
    assert_eq!(string_of(&last_segment_text(&chars_of("a::b::C"))), "C");
    assert_eq!(string_of(&last_segment_text(&chars_of("plain"))), "plain");
    assert_eq!(string_of(&last_segment_text(&chars_of("a::"))), "");
    assert_eq!(string_of(&last_segment_text(&chars_of("a:b"))), "a:b");
}

#[test]
fn contains_entity_finds() {
    let v = vec![id(1), id(2)];
    assert!(contains_entity(&v, id(2)));
    assert!(!contains_entity(&v, id(3)));
}

#[test]
fn placeholder_entity() {
    let e = EntityId::placeholder();
    assert_eq!(e.index, 0xFFFF_FFFE);
    assert_eq!(e.generation, 0);
}

#[test]
fn registry_register_get_remove() {
    let mut r: CommandRegistry<u32> = CommandRegistry::new();
    assert_eq!(r.get("ls"), None);
    r.register("ls", 1);
    r.register("cd", 2);
    assert_eq!(r.get("ls"), Some(&1));
    assert_eq!(r.get("cd"), Some(&2));
    r.register("ls", 3);
    assert_eq!(r.get("ls"), Some(&3));
    assert_eq!(r.names().len(), 2);
    r.remove("ls");
    assert_eq!(r.get("ls"), None);
    assert_eq!(r.get("cd"), Some(&2));
    r.remove("missing");
    assert_eq!(r.names(), vec!["cd".to_string()]);
}

#[test]
fn cloned_filters_match_alike() {
    let f = DynamicFilter::Has(1).and(DynamicFilter::Has(2).or(DynamicFilter::Never.negate())).negate();
    let g = f.clone();
    for components in [vec![], vec![1], vec![2], vec![1, 2], vec![3]] {
        let a = ArchetypeRecord { components, entities: vec![] };
        assert_eq!(g.matches_archetype(&a), f.matches_archetype(&a));
    }
    assert!(matches!(g, DynamicFilter::Not(_)));
}

#[test]
fn size_counts_every_reached_file_once() {
    let mut fs = sample();
    // a second path to the same file and a cycle back to the root
    fs.records[1].children = Some(VFSChildren { children: vec![id(2), id(3), id(0)] });
    fs.records[0].children = Some(VFSChildren { children: vec![id(1), id(4), id(5), id(2)] });
    assert_eq!(fs.compute_size(id(0)), 48 + 48 + 24 + 24);
    assert_eq!(fs.compute_size(id(1)), 48 + 48 + 24 + 24);
}
