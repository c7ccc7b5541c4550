use graphpath::NodeSet;

#[test]
fn new_set_is_empty() {
    let set = NodeSet::new();
    assert_eq!(set.len(), 0);
    assert!(set.get(0).is_none());
    assert!(!set.contains(&"a".to_string()));
    assert!(set.to_vec().is_empty());
}

#[test]
fn insert_says_whether_the_label_was_new() {
    let mut set = NodeSet::new();
    assert!(set.insert("a".to_string()));
    assert!(set.insert("b".to_string()));
    assert!(!set.insert("a".to_string()));
    assert_eq!(set.len(), 2);
    assert!(set.contains(&"a".to_string()));
    assert!(set.contains(&"b".to_string()));
    assert!(!set.contains(&"c".to_string()));
}

#[test]
fn members_keep_insertion_order() {
    let mut set = NodeSet::new();
    set.insert("c".to_string());
    set.insert("a".to_string());
    set.insert("c".to_string());
    set.insert("b".to_string());
    assert_eq!(set.to_vec(), vec!["c".to_string(), "a".to_string(), "b".to_string()]);
    assert_eq!(set.get(0), Some(&"c".to_string()));
    assert_eq!(set.get(1), Some(&"a".to_string()));
    assert_eq!(set.get(2), Some(&"b".to_string()));
    assert_eq!(set.get(3), None);
}

#[test]
fn position_finds_a_member_and_nothing_else() {
    let mut set = NodeSet::new();
    set.insert("c".to_string());
    set.insert("a".to_string());
    assert_eq!(set.position(&"c".to_string()), Some(0));
    assert_eq!(set.position(&"a".to_string()), Some(1));
    assert_eq!(set.position(&"b".to_string()), None);
    assert_eq!(set.position(&"".to_string()), None);
}

#[test]
fn empty_text_is_a_label_like_any_other() {
    let mut set = NodeSet::new();
    assert!(set.insert("".to_string()));
    assert!(!set.insert("".to_string()));
    assert_eq!(set.len(), 1);
    assert!(set.contains(&"".to_string()));
}
