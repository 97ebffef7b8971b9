use alias_trie::Trie;
use alias_trie::UniqueOption;

#[test]
fn round_trip_canonical() {
    let mut trie = Trie::new();
    trie.insert(&["x", "y"], 7);
    assert_eq!(trie.get(&["x", "y"]), UniqueOption::Unique(&7));
}

#[test]
fn alias_substitution_single_position() {
    let mut trie = Trie::new();
    trie.insert(&["a", "b", "c"], 5);
    assert_eq!(
        trie.update_aliases(&["a", "b", "c"], &[&["A"], &[], &["C"]]),
        true
    );
    assert_eq!(trie.get(&["A", "b", "c"]), UniqueOption::Unique(&5));
    assert_eq!(trie.get(&["a", "b", "C"]), UniqueOption::Unique(&5));
    assert_eq!(trie.get(&["a", "b", "c"]), UniqueOption::Unique(&5));
}

#[test]
fn ambiguity_is_permanent() {
    let mut trie = Trie::new();
    trie.insert(&["a", "b"], 1);
    trie.insert(&["a", "c"], 2);
    assert_eq!(trie.update_aliases(&["a", "b"], &[&[], &["x"]]), true);
    assert_eq!(trie.update_aliases(&["a", "c"], &[&[], &["x"]]), true);
    assert_eq!(trie.get(&["a", "x"]), UniqueOption::NonUnique);

    // No later operation makes the poisoned edge definite again.
    trie.insert(&["a", "d"], 3);
    assert_eq!(trie.update_aliases(&["a", "d"], &[&["A"], &["D"]]), true);
    trie.insert(&["a", "b"], 10);
    assert_eq!(trie.get(&["a", "x"]), UniqueOption::NonUnique);
    assert_eq!(trie.get(&["a", "x", "deeper"]), UniqueOption::NonUnique);
}

#[test]
fn update_aliases_twice_is_idempotent() {
    let mut trie = Trie::new();
    trie.insert(&["a", "b"], 4);
    assert_eq!(trie.update_aliases(&["a", "b"], &[&["A"], &["B"]]), true);
    assert_eq!(trie.update_aliases(&["a", "b"], &[&["A"], &["B"]]), true);
    assert_eq!(trie.get(&["A", "B"]), UniqueOption::Unique(&4));
    assert_eq!(trie.get(&["a", "b"]), UniqueOption::Unique(&4));
    assert_eq!(trie.get(&["A", "b"]), UniqueOption::Unique(&4));
}

#[test]
fn validation_gate_rejects_unknown_path() {
    let mut trie = Trie::new();
    trie.insert(&["a", "b"], 1);
    assert_eq!(
        trie.update_aliases(&["a", "missing"], &[&["A"], &["M"]]),
        false
    );
    // Nothing was mutated: neither alias resolves.
    assert_eq!(trie.get(&["A", "b"]), UniqueOption::Absent);
    assert_eq!(trie.get(&["a", "M"]), UniqueOption::Absent);
    assert_eq!(trie.get(&["a", "b"]), UniqueOption::Unique(&1));
}

#[test]
fn validation_gate_rejects_conflicted_prefix() {
    let mut trie = Trie::new();
    trie.insert(&["a", "b", "c"], 1);
    trie.insert(&["a", "d", "c"], 2);
    assert_eq!(trie.update_aliases(&["a", "b"], &[&[], &["x"]]), true);
    assert_eq!(trie.update_aliases(&["a", "d"], &[&[], &["x"]]), true);
    // The path itself runs through the conflicted edge, so it is rejected.
    assert_eq!(
        trie.update_aliases(&["a", "x", "c"], &[&[], &[], &["C"]]),
        false
    );
    assert_eq!(trie.get(&["a", "b", "C"]), UniqueOption::Absent);
}

#[test]
fn empty_alias_lists_are_no_ops() {
    let mut trie = Trie::new();
    trie.insert(&["a", "b"], 9);
    assert_eq!(trie.update_aliases(&["a", "b"], &[&[], &[]]), true);
    assert_eq!(trie.get(&["a", "b"]), UniqueOption::Unique(&9));
}

#[test]
fn value_overwritten_in_place() {
    let mut trie = Trie::new();
    trie.insert(&["a", "b"], 1);
    assert_eq!(trie.update_aliases(&["a", "b"], &[&["A"], &["B"]]), true);
    trie.insert(&["a", "b"], 2);
    // Aliases keep pointing at the same node; only its value changed.
    assert_eq!(trie.get(&["a", "b"]), UniqueOption::Unique(&2));
    assert_eq!(trie.get(&["A", "B"]), UniqueOption::Unique(&2));
}

#[test]
fn intermediate_node_without_value_is_absent() {
    let mut trie = Trie::new();
    trie.insert(&["a", "b", "c"], 3);
    assert_eq!(trie.get(&["a", "b"]), UniqueOption::Absent);
}

#[test]
fn empty_path_is_absent() {
    let trie: Trie<i32> = Trie::new();
    let empty: &[&str] = &[];
    assert_eq!(trie.get(empty), UniqueOption::Absent);
}

#[test]
fn conflicted_edge_blocks_insert() {
    let mut trie = Trie::new();
    trie.insert(&["a", "b"], 1);
    trie.insert(&["a", "c"], 2);
    assert_eq!(trie.update_aliases(&["a", "b"], &[&[], &["x"]]), true);
    assert_eq!(trie.update_aliases(&["a", "c"], &[&[], &["x"]]), true);
    // Inserting through the conflicted edge stores nothing.
    trie.insert(&["a", "x"], 99);
    trie.insert(&["a", "x", "y"], 99);
    assert_eq!(trie.get(&["a", "x"]), UniqueOption::NonUnique);
    assert_eq!(trie.get(&["a", "x", "y"]), UniqueOption::NonUnique);
}

#[test]
fn alias_over_existing_canonical_key_conflicts() {
    let mut trie = Trie::new();
    trie.insert(&["n", "c"], 1);
    trie.insert(&["n", "d"], 2);
    // "d" already leads definitely elsewhere, so as an alias for the
    // "c"-child it becomes conflicted.
    assert_eq!(trie.update_aliases(&["n", "c"], &[&[], &["d"]]), true);
    assert_eq!(trie.get(&["n", "d"]), UniqueOption::NonUnique);
    assert_eq!(trie.get(&["n", "c"]), UniqueOption::Unique(&1));
}

#[test]
fn alias_equal_to_its_own_canonical_key_is_harmless() {
    let mut trie = Trie::new();
    trie.insert(&["n", "c"], 1);
    assert_eq!(trie.update_aliases(&["n", "c"], &[&[], &["c"]]), true);
    assert_eq!(trie.get(&["n", "c"]), UniqueOption::Unique(&1));
}

#[test]
fn get_mut_answers_like_get() {
    let mut trie = Trie::new();
    trie.insert(&["a", "b"], 1);
    trie.insert(&["a", "c"], 2);
    assert_eq!(trie.update_aliases(&["a", "b"], &[&[], &["x"]]), true);
    assert_eq!(trie.update_aliases(&["a", "c"], &[&[], &["x"]]), true);
    assert_eq!(trie.get_mut(&["a", "x"]), UniqueOption::NonUnique);
    assert_eq!(trie.get_mut(&["a", "missing"]), UniqueOption::Absent);
    assert_eq!(trie.get_mut(&["a"]), UniqueOption::Absent);
    assert_eq!(trie.get_mut(&["a", "b"]), UniqueOption::Unique(&mut 1));
}

#[test]
fn unwrap_returns_the_found_value() {
    let v: UniqueOption<i32> = UniqueOption::Unique(3);
    assert_eq!(v.unwrap(), 3);
}
