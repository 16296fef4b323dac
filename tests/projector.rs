use projector::projector::{default_data, Projector};
use projector::scope::ScopeMap;
use projector::store::ScopeStore;

fn get_data() -> ScopeStore {
    let mut data = ScopeStore::new();
    data.set("/".to_string(), "foo".to_string(), "bar1".to_string());
    data.set("/".to_string(), "fem".to_string(), "is_great".to_string());
    data.set("/foo".to_string(), "foo".to_string(), "bar2".to_string());
    data.set("/foo/bar".to_string(), "foo".to_string(), "bar3".to_string());
    data
}

fn get_projector(pwd: &str) -> Projector {
    Projector::new(pwd.to_string(), get_data())
}

fn sorted_pairs(m: &ScopeMap) -> Vec<(String, String)> {
    let mut v = m.pairs().clone();
    v.sort();
    v
}

#[test]
fn get_value() {
    let proj = get_projector("/foo/bar");
    assert_eq!(proj.get_value("foo"), Some(&String::from("bar3")));
    assert_eq!(proj.get_value("fem"), Some(&String::from("is_great")));
}

#[test]
fn set_value() {
    let mut proj = get_projector("/foo/bar");
    proj.set_value(String::from("foo"), String::from("bar4"));
    proj.set_value(String::from("fem"), String::from("bar5"));

    assert_eq!(proj.get_value("foo"), Some(&String::from("bar4")));
    assert_eq!(proj.get_value("fem"), Some(&String::from("bar5")));
}

#[test]
fn nearest_definition_wins() {
    let proj = get_projector("/foo/bar");
    assert_eq!(proj.get_value("foo"), Some(&String::from("bar3")));
    let all = proj.get_value_all();
    assert_eq!(all.get("foo"), Some(&String::from("bar3")));
    let mid = get_projector("/foo");
    assert_eq!(mid.get_value("foo"), Some(&String::from("bar2")));
    let root = get_projector("/");
    assert_eq!(root.get_value("foo"), Some(&String::from("bar1")));
}

#[test]
fn inherits_from_root() {
    let proj = get_projector("/foo/bar");
    assert_eq!(proj.get_value("fem"), Some(&String::from("is_great")));
    let deep = get_projector("/foo/bar/baz/qux");
    assert_eq!(deep.get_value("fem"), Some(&String::from("is_great")));
    assert_eq!(deep.get_value("foo"), Some(&String::from("bar3")));
}

#[test]
fn missing_key_is_absent() {
    let proj = get_projector("/foo/bar");
    assert_eq!(proj.get_value("nothing"), None);
    let other = get_projector("/other");
    assert_eq!(other.get_value("foo"), Some(&String::from("bar1")));
}

#[test]
fn set_is_scoped_to_current_directory() {
    let mut proj = get_projector("/foo/bar");
    proj.set_value("foo".to_string(), "v".to_string());
    assert_eq!(proj.get_value("foo"), Some(&String::from("v")));
    let store = proj.store();
    assert_eq!(store.scope("/").unwrap().get("foo"), Some(&String::from("bar1")));
    assert_eq!(store.scope("/foo").unwrap().get("foo"), Some(&String::from("bar2")));
    assert_eq!(store.scope("/foo").unwrap().len(), 1);
    assert_eq!(store.scope("/").unwrap().len(), 2);
}

#[test]
fn set_unseen_from_parent() {
    let mut proj = get_projector("/foo/bar");
    proj.set_value("foo".to_string(), "v".to_string());
    proj.set_value("new".to_string(), "w".to_string());
    let mut data = ScopeStore::new();
    for p in proj.store().paths() {
        let m = proj.store().scope(p).unwrap();
        for (k, v) in m.pairs() {
            data.set(p.clone(), k.clone(), v.clone());
        }
    }
    let parent = Projector::new("/foo".to_string(), data);
    assert_eq!(parent.get_value("foo"), Some(&String::from("bar2")));
    assert_eq!(parent.get_value("new"), None);
}

#[test]
fn set_creates_scope() {
    let mut proj = get_projector("/elsewhere");
    assert!(proj.store().scope("/elsewhere").is_none());
    proj.set_value("k".to_string(), "".to_string());
    assert_eq!(proj.store().scope("/elsewhere").unwrap().get("k"), Some(&String::new()));
    assert_eq!(proj.get_value("k"), Some(&String::new()));
    proj.set_value("".to_string(), "empty key".to_string());
    assert_eq!(proj.get_value(""), Some(&String::from("empty key")));
}

#[test]
fn merge_matches_lookup() {
    let proj = get_projector("/foo/bar");
    let all = proj.get_value_all();
    assert_eq!(
        sorted_pairs(&all),
        vec![
            ("fem".to_string(), "is_great".to_string()),
            ("foo".to_string(), "bar3".to_string()),
        ]
    );
    for (k, v) in all.pairs() {
        assert_eq!(proj.get_value(k), Some(v));
    }
    let mid = get_projector("/foo");
    assert_eq!(
        sorted_pairs(&mid.get_value_all()),
        vec![
            ("fem".to_string(), "is_great".to_string()),
            ("foo".to_string(), "bar2".to_string()),
        ]
    );
}

#[test]
fn remove_is_idempotent() {
    let mut proj = get_projector("/foo/bar");
    proj.remove_value("never");
    assert_eq!(proj.store().scope("/foo/bar").unwrap().len(), 1);
    proj.remove_value("foo");
    assert_eq!(proj.get_value("foo"), Some(&String::from("bar2")));
    proj.remove_value("foo");
    assert_eq!(proj.get_value("foo"), Some(&String::from("bar2")));
    assert_eq!(proj.store().scope("/foo/bar").unwrap().len(), 0);
    assert_eq!(proj.store().scope("/foo").unwrap().get("foo"), Some(&String::from("bar2")));
}

#[test]
fn remove_only_touches_current_directory() {
    let mut proj = get_projector("/foo/bar");
    proj.remove_value("fem");
    assert_eq!(proj.get_value("fem"), Some(&String::from("is_great")));
    let mut bare = get_projector("/nowhere");
    bare.remove_value("foo");
    assert!(bare.store().scope("/nowhere").is_none());
    assert_eq!(bare.get_value("foo"), Some(&String::from("bar1")));
}

#[test]
fn failed_load_gives_empty_store() {
    let proj = Projector::from_config("/foo/bar".to_string(), None);
    assert_eq!(proj.get_value_all().len(), 0);
    assert_eq!(proj.get_value("foo"), None);
    let root = Projector::from_config("/".to_string(), None);
    assert_eq!(root.get_value_all().len(), 0);
    assert_eq!(default_data().paths().len(), 0);
}

#[test]
fn loaded_store_is_kept() {
    let proj = Projector::from_config("/foo".to_string(), Some(get_data()));
    assert_eq!(proj.pwd(), "/foo");
    assert_eq!(proj.get_value("foo"), Some(&String::from("bar2")));
}

#[test]
fn end_to_end_example() {
    let mut proj = get_projector("/foo/bar");
    assert_eq!(proj.get_value("foo"), Some(&String::from("bar3")));
    assert_eq!(proj.get_value("fem"), Some(&String::from("is_great")));
    proj.set_value("foo".to_string(), "bar4".to_string());
    assert_eq!(proj.get_value("foo"), Some(&String::from("bar4")));
    assert_eq!(proj.store().scope("/foo").unwrap().get("foo"), Some(&String::from("bar2")));
}

#[test]
fn scope_map_basics() {
    let mut m = ScopeMap::new();
    assert_eq!(m.len(), 0);
    m.insert("a".to_string(), "1".to_string());
    m.insert("b".to_string(), "2".to_string());
    m.insert("a".to_string(), "3".to_string());
    assert_eq!(m.len(), 2);
    assert_eq!(m.get("a"), Some(&String::from("3")));
    m.remove("a");
    assert_eq!(m.get("a"), None);
    assert_eq!(m.len(), 1);
    let mut n = ScopeMap::new();
    n.insert("b".to_string(), "9".to_string());
    n.insert("c".to_string(), "4".to_string());
    m.extend_from(&n);
    assert_eq!(
        sorted_pairs(&m),
        vec![("b".to_string(), "9".to_string()), ("c".to_string(), "4".to_string())]
    );
}

#[test]
fn ancestor_chain_walks_to_root() {
    let chain = projector::path::ancestor_chain(&"/foo/bar".to_string());
    assert_eq!(chain, vec!["/foo/bar".to_string(), "/foo".to_string(), "/".to_string()]);
    let root = projector::path::ancestor_chain(&"/".to_string());
    assert_eq!(root, vec!["/".to_string()]);
}
