use snails_machine::{PatriciaError, PatriciaNode};

#[test]
fn test_insert() {
    let mut tree = PatriciaNode::new("apple");

    assert_eq!(tree.prefix, "apple");

    tree.insert("tea").unwrap();

    assert_eq!(tree.prefix, "");
    assert_eq!(
        tree.children
            .iter()
            .map(|child| child.prefix.clone())
            .collect::<Vec<String>>(),
        vec!["apple".to_string(), "tea".to_string()]
    );
}

#[test]
fn test_search() {
    let mut tree = PatriciaNode::new("top");
    tree.insert("tea").unwrap();
    tree.insert("teapot").unwrap();
    tree.insert("tree").unwrap();
    tree.insert("trie").unwrap();
    tree.insert("teamwork").unwrap();
    tree.insert("team").unwrap();
    tree.insert("apple").unwrap();

    println!("{:#?}", tree);

    assert!(tree.search("top"));
    assert!(tree.search("tea"));
    assert!(tree.search("teapot"));
    assert!(tree.search("tree"));
    assert!(tree.search("trie"));
    assert!(tree.search("teamwork"));
    assert!(tree.search("team"));
    assert!(tree.search("apple"));
}

#[test]
fn duplicate_insert_fails_only_second_time() {
    let mut tree = PatriciaNode::new("tea");
    assert!(tree.insert("team").is_ok());
    assert!(matches!(
        tree.insert("team"),
        Err(PatriciaError::KeyAlreadyExists)
    ));
    assert!(matches!(
        tree.insert("tea"),
        Err(PatriciaError::KeyAlreadyExists)
    ));
    // the failed insertions change nothing
    assert!(tree.search("tea"));
    assert!(tree.search("team"));
}

#[test]
fn search_is_exact_membership() {
    let mut tree = PatriciaNode::new("top");
    tree.insert("tea").unwrap();
    tree.insert("teapot").unwrap();

    // prefixes, extensions and strangers of members are not members
    assert!(!tree.search("t"));
    assert!(!tree.search("te"));
    assert!(!tree.search("teap"));
    assert!(!tree.search("teapots"));
    assert!(!tree.search("tops"));
    assert!(!tree.search("apple"));
    assert!(!tree.search(""));
}

#[test]
fn key_that_is_prefix_of_member_becomes_member() {
    let mut tree = PatriciaNode::new("teamwork");
    tree.insert("team").unwrap();
    assert!(tree.search("team"));
    assert!(tree.search("teamwork"));
    assert!(!tree.search("teamw"));
}
