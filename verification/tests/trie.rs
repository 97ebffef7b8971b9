use alias_trie::Trie;
use alias_trie::UniqueOption;
use regex::Regex;

#[test]
fn test1() {
    let mut trie = Trie::new();
    trie.insert(&["a", "b", "c"], 100);
    assert_eq!(
        trie.update_aliases(&["a", "b"], &[&["A", "aaa"], &["bbb", "b4"]]),
        true
    );

    let value = trie.get(&["A", "b4", "c"]);
    assert_eq!(value, UniqueOption::Unique(&100));
}

#[test]
fn test2() {
    let mut trie = Trie::new();
    trie.insert(&["a", "b", "c"], 100);
    assert_eq!(
        trie.update_aliases(&["a", "b"], &[&["A", "aaa"], &["bbb", "b4"]]),
        true
    );

    let value = trie.get(&["A", "b4", "C"]);
    assert_eq!(value, UniqueOption::Absent);
}

#[test]
fn test3() {
    let mut trie = Trie::new();
    trie.insert(&["a", "b", "c"], "c");
    trie.insert(&["a", "b", "d", "e"], "e");
    assert_eq!(
        trie.update_aliases(&["a", "b", "c"], &[&["A", "aaa"], &["bbb", "b4"], &["C", "X"]],),
        true
    );
    assert_eq!(
        trie.update_aliases(&["a", "b", "d", "e"], &[&[], &[], &["D", "X"], &["E", "ee"]],),
        true
    );
    assert_eq!(
        trie.update_aliases(&["a", "b", "X", "e"], &[&[], &[], &["DDD"], &["e5"]],),
        false
    );
    assert_eq!(
        trie.update_aliases(&["A", "b", "D", "ee"], &[&[], &[], &["DDDD"], &["e6"]],),
        true
    );

    let value = trie.get(&["A", "b4", "C"]);
    assert_eq!(value, UniqueOption::Unique(&"c"));

    let value = trie.get(&["A", "b4", "X"]);
    assert_eq!(value, UniqueOption::NonUnique);

    let value = trie.get(&["A", "b4", "d", "ee"]);
    assert_eq!(value, UniqueOption::Unique(&"e"));

    let value = trie.get(&["A", "b4", "X", "e6"]);
    assert_eq!(value, UniqueOption::NonUnique);

    let value = trie.get(&["A", "b4", "DDDD", "ee"]);
    assert_eq!(value, UniqueOption::Unique(&"e"));
}

#[test]
fn test4() {
    let mut trie = Trie::new();
    trie.insert(&["a", "b", "c"], 100);
    trie.update_aliases(&["a", "b"], &[&["A", "aaa"], &["bbb", "b4"]]);

    let value = trie.get_mut(&["A", "b4", "c"]).unwrap();
    *value = 1000;

    let value = trie.get(&["A", "b4", "c"]);
    assert_eq!(value, UniqueOption::Unique(&1000));
}

#[test]
fn test5() {
    let names = vec![
        "first/Output!",
        "first/Output![Demo6A,0].0",
        "first/Output![Demo6A,0].1",
        "first/self",
        "self.b[Demo6B,0].Double",
        "self.b[Demo6B,0].Double",
        "self.b[Demo6B,0].Double[Demo6A,0].0",
        "self.b[Demo6B,0].Double[Demo6A,1].0",
        "self.b[Demo6B,0].Double[Demo6A,0].1",
        "self.b[Demo6B,0].Double[Demo6A,1].1",
        "self.b[Demo6B,0].Multiple",
        "self.b[Demo6B,0].Multiple",
        "self.b[Demo6B,0].Multiple[Demo6A,0].0",
        "self.b[Demo6B,0].Multiple[Demo6A,0].1",
        "self.b[Demo6B,0].Single",
        "self.b[Demo6B,0].Single[Demo6A,0].0",
        "self.b[Demo6B,0].Single[Demo6A,0].1",
    ];

    let mut trie = Trie::new();
    for name in names {
        let name = format!("{}$", name);
        let segments = name.split(".").map(|s| s.to_string()).collect::<Vec<_>>();
        let path = segments.iter().map(|s| s.as_str()).collect::<Vec<_>>();

        let re = Regex::new(r"\[[^\[\]]+\]").unwrap();
        let alias_segments = path
            .iter()
            .map(|cell1| {
                let cell2 = re.replace(cell1, "").to_string();
                if cell1.len() == cell2.len() {
                    vec![]
                } else {
                    vec![cell2]
                }
            })
            .collect::<Vec<_>>();

        trie.insert(&path, name.clone());

        let alias_refs = alias_segments
            .iter()
            .map(|cells| cells.iter().map(|s| s.as_str()).collect::<Vec<_>>())
            .collect::<Vec<_>>();
        let path_aliases = alias_refs.iter().map(|cells| &cells[..]).collect::<Vec<_>>();

        trie.update_aliases(&path, &path_aliases);
    }

    let value = trie.get(&["first/Output!$"]);
    assert_eq!(value, UniqueOption::Unique(&"first/Output!$".to_string()));

    let value = trie.get(&["first/Output!", "0$"]);
    assert_eq!(
        value,
        UniqueOption::Unique(&"first/Output![Demo6A,0].0$".to_string())
    );

    let value = trie.get(&["first/Output!", "1$"]);
    assert_eq!(
        value,
        UniqueOption::Unique(&"first/Output![Demo6A,0].1$".to_string())
    );

    let value = trie.get(&["self", "b", "Double$"]);
    assert_eq!(
        value,
        UniqueOption::Unique(&"self.b[Demo6B,0].Double$".to_string())
    );

    let value = trie.get(&["self", "b", "Double", "0$"]);
    assert_eq!(value, UniqueOption::NonUnique);

    let value = trie.get(&["self", "b", "Double", "1$"]);
    assert_eq!(value, UniqueOption::NonUnique);

    let value = trie.get(&["self", "b", "Double[Demo6A,1]", "1$"]);
    assert_eq!(
        value,
        UniqueOption::Unique(&"self.b[Demo6B,0].Double[Demo6A,1].1$".to_string())
    );
}
