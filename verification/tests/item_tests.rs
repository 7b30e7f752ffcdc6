use mem_store_rs::collections::{StringMap, StringSet};
use mem_store_rs::store::Item;

fn s(x: &str) -> String {
    x.to_string()
}

#[test]
fn list_from_text() {
    assert_eq!(
        Item::from_string(s("a,b,c")),
        Item::List(vec![s("a"), s("b"), s("c")])
    );
}

#[test]
fn list_elements_are_trimmed() {
    assert_eq!(
        Item::from_string(s(" a , b\t,c ")),
        Item::List(vec![s("a"), s("b"), s("c")])
    );
}

#[test]
fn list_with_empty_elements() {
    assert_eq!(
        Item::from_string(s("a,,")),
        Item::List(vec![s("a"), s(""), s("")])
    );
}

#[test]
fn list_when_some_segment_lacks_colon() {
    assert_eq!(
        Item::from_string(s("a:1,b")),
        Item::List(vec![s("a:1"), s("b")])
    );
}

#[test]
fn set_from_text_drops_repeats() {
    assert_eq!(
        Item::from_string(s("[a, b,a]")),
        Item::HashSet(StringSet::from_vec(vec![s("a"), s("b")]))
    );
}

#[test]
fn empty_brackets_hold_one_empty_member() {
    assert_eq!(Item::from_string(s("[]")), Item::HashSet(StringSet::from_vec(vec![s("")])));
}

#[test]
fn map_from_text() {
    assert_eq!(
        Item::from_string(s("akey:a, bkey : b:c")),
        Item::HashMap(StringMap::from_vec(vec![(s("akey"), s("a")), (s("bkey"), s("b:c"))]))
    );
}

#[test]
fn map_later_value_replaces_earlier() {
    assert_eq!(
        Item::from_string(s("k:1,j:2,k:3")),
        Item::HashMap(StringMap::from_vec(vec![(s("k"), s("3")), (s("j"), s("2"))]))
    );
}

#[test]
fn single_entry_is_a_string() {
    assert_eq!(Item::from_string(s("k:v")), Item::String(s("k:v")));
}

#[test]
fn plain_text_is_a_string_untrimmed() {
    assert_eq!(Item::from_string(s("  abc ")), Item::String(s("  abc ")));
}

#[test]
fn unicode_whitespace_is_trimmed() {
    assert_eq!(
        Item::from_string(s("\u{3000}x\u{a0},y\u{2003}")),
        Item::List(vec![s("x"), s("y")])
    );
}

#[test]
fn text_of_each_kind() {
    assert_eq!(Item::String(s("abc")).to_string(), "abc");
    assert_eq!(Item::List(vec![s("a"), s("b"), s("c")]).to_string(), "a,b,c");
    assert_eq!(Item::List(vec![]).to_string(), "");
    assert_eq!(Item::HashSet(StringSet::from_vec(vec![s("a"), s("b")])).to_string(), "[a,b]");
    assert_eq!(Item::HashSet(StringSet::from_vec(vec![])).to_string(), "[]");
    assert_eq!(
        Item::HashMap(StringMap::from_vec(vec![(s("akey"), s("a")), (s("bkey"), s("b"))])).to_string(),
        "akey:a,bkey:b"
    );
}

#[test]
fn canonical_values_read_back() {
    let values = vec![
        Item::String(s("abc")),
        Item::List(vec![s("a"), s("b"), s("c")]),
        Item::HashSet(StringSet::from_vec(vec![s("x"), s("y")])),
        Item::HashMap(StringMap::from_vec(vec![(s("akey"), s("a")), (s("bkey"), s("b"))])),
    ];
    for v in values {
        let text = v.to_string();
        assert_eq!(Item::from_string(text), v);
    }
}

#[test]
fn one_element_list_reads_back_as_string() {
    let v = Item::List(vec![s("a")]);
    assert_eq!(Item::from_string(v.to_string()), Item::String(s("a")));
}

#[test]
fn clone_keeps_value() {
    let v = Item::HashMap(StringMap::from_vec(vec![(s("k"), s("v"))]));
    assert_eq!(v.clone(), v);
}

#[test]
fn set_and_map_hold_no_repeats() {
    let set = StringSet::from_vec(vec![s("a"), s("b"), s("a")]);
    assert_eq!(set.members(), &vec![s("a"), s("b")]);
    assert_eq!(Item::HashSet(set).to_string(), "[a,b]");
    let mut set = StringSet::new();
    assert!(set.insert(s("x")));
    assert!(!set.insert(s("x")));
    assert!(set.contains(&s("x")));
    assert!(!set.contains(&s("y")));
    let map = StringMap::from_vec(vec![(s("k"), s("1")), (s("j"), s("2")), (s("k"), s("3"))]);
    assert_eq!(map.entries(), &vec![(s("k"), s("3")), (s("j"), s("2"))]);
    let mut map = StringMap::new();
    assert_eq!(map.insert(s("k"), s("1")), None);
    assert_eq!(map.insert(s("k"), s("2")), Some(s("1")));
    assert_eq!(map.entries(), &vec![(s("k"), s("2"))]);
    assert_eq!(map.clone(), map);
}
