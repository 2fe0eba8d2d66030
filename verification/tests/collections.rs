use rptagfs::names::{NameMap, NameSet, PathSet};
use rptagfs::order::{Key, Order};
use rptagfs::path::FsPath;
use rptagfs::sorted_map::SortedMap;
use rptagfs::sorted_set::SortedSet;

fn s(text: &str) -> String {
    text.to_string()
}

fn set(list: &[&str]) -> NameSet {
    SortedSet::from_vec(list.iter().map(|t| t.to_string()).collect())
}

fn path(text: &str) -> FsPath {
    FsPath::from_text(text)
}

fn bytes(text: &str) -> Vec<u8> {
    path(text).to_bytes()
}

#[test]
fn sets_keep_order_and_have_no_duplicates() {
    let a = set(&["b", "a", "c", "a"]);
    assert_eq!(a.len(), 3);
    assert_eq!(a.at(0), "a");
    assert_eq!(a.at(2), "c");
    assert_eq!(a, set(&["c", "b", "a"]));
    assert!(a.same(&set(&["a", "b", "c"])));
    assert!(!a.same(&set(&["a", "b"])));
}

#[test]
fn set_operations() {
    let a = set(&["a", "b", "c"]);
    let b = set(&["b", "d"]);
    assert_eq!(a.difference(&b), set(&["a", "c"]));
    assert_eq!(a.intersection(&b), set(&["b"]));
    assert!(set(&["a", "c"]).is_subset(&a));
    assert!(!b.is_subset(&a));
    let mut c = a.dup();
    c.extend(&b);
    assert_eq!(c, set(&["a", "b", "c", "d"]));
    c.remove_all(&a);
    assert_eq!(c, set(&["d"]));
    c.remove(&s("d"));
    assert!(c.is_empty());
}

#[test]
fn names_are_ordered_by_their_bytes() {
    let a = set(&["z", "A", "a", "\u{e9}", "ab", ""]);
    let list: Vec<&str> = (0..a.len()).map(|i| a.at(i).as_str()).collect();
    assert_eq!(list, vec!["", "A", "a", "ab", "z", "\u{e9}"]);
}

#[test]
fn sets_of_names_are_ordered() {
    assert_eq!(set(&["a"]).order(&set(&["a", "b"])), Order::Less);
    assert_eq!(set(&["b"]).order(&set(&["a", "c"])), Order::Greater);
    assert_eq!(set(&["b", "a"]).order(&set(&["a", "b"])), Order::Equal);
}

#[test]
fn maps_hold_the_last_value() {
    let mut m: NameMap<u64> = SortedMap::new();
    m.insert(s("b"), 1);
    m.insert(s("a"), 2);
    m.insert(s("b"), 3);
    assert_eq!(m.len(), 2);
    assert_eq!(m.key_at(0), "a");
    assert_eq!(m.get(&s("b")), Some(&3));
    assert_eq!(m.remove(&s("b")), Some(3));
    assert_eq!(m.remove(&s("b")), None);
    assert_eq!(m.key_set(), set(&["a"]));
}

#[test]
fn maps_of_sets() {
    let mut m: NameMap<NameSet> = SortedMap::new();
    m.touch(&s("t"));
    assert!(m.get(&s("t")).unwrap().is_empty());
    m.add(&s("t"), s("x"));
    m.add(&s("u"), s("y"));
    m.touch(&s("t"));
    assert_eq!(m.get(&s("t")), Some(&set(&["x"])));
    m.drop_item(&s("t"), &s("x"));
    m.drop_item(&s("v"), &s("x"));
    assert!(m.get(&s("t")).unwrap().is_empty());
    assert!(!m.contains_key(&s("v")));
}

#[test]
fn paths_are_kept_by_their_components() {
    assert_eq!(bytes("a//b/./c/"), b"a/b/c".to_vec());
    assert_eq!(bytes("/a/b"), b"/a/b".to_vec());
    assert_eq!(bytes("./a"), b"./a".to_vec());
    assert_eq!(bytes("a/../b"), b"a/../b".to_vec());
    assert_eq!(bytes(""), b"".to_vec());
    assert_eq!(bytes("/"), b"/".to_vec());
    assert_eq!(path("a/b"), path("a/./b//"));
}

#[test]
fn bytes_of_a_path_spell_it() {
    for text in ["", "/", "a", "a/b/c", "/a/b", "./a/..", "../x", "/.."] {
        let p = path(text);
        assert_eq!(FsPath::from_bytes(&p.to_bytes()), p);
    }
}

#[test]
fn parents_of_paths() {
    assert_eq!(path("a/b").parent(), Some(path("a")));
    assert_eq!(path("a").parent(), Some(path("")));
    assert_eq!(path("").parent(), None);
    assert_eq!(path("/").parent(), None);
    assert_eq!(path("/a").parent(), Some(path("/")));
}

#[test]
fn joined_paths() {
    assert_eq!(path("a").join(&path("b/c")), path("a/b/c"));
    assert_eq!(path("").join(&path("b")), path("b"));
    assert_eq!(path("a").join(&path("/b")), path("/b"));
    assert_eq!(path("a").join(&path("")), path("a"));
    assert_eq!(path("a").join(&path("./b")), path("a/b"));
    assert_eq!(path("a").join_text("b"), path("a/b"));
}

#[test]
fn paths_are_ordered_by_their_components() {
    let mut set: PathSet = SortedSet::new();
    for text in ["b", "a/z", "a", "a b", "/x", "..", "./y"] {
        set.insert(path(text));
    }
    let list: Vec<Vec<u8>> = (0..set.len()).map(|i| set.at(i).to_bytes()).collect();
    let expected: Vec<Vec<u8>> =
        ["/x", "./y", "..", "a", "a/z", "a b", "b"].iter().map(|t| t.as_bytes().to_vec()).collect();
    assert_eq!(list, expected);
}
