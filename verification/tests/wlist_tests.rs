use layer0::wlist::Wlist;

fn names(w: &Wlist) -> Vec<String> {
    w.to_vec()
}

#[test]
fn add_keeps_newest_within_capacity() {
    let mut w = Wlist::new(3);
    for n in ["a", "b", "c", "d", "e"] {
        w.add(n.to_string());
    }
    assert_eq!(names(&w), vec!["c", "d", "e"]);
}

#[test]
fn add_with_room_appends() {
    let mut w = Wlist::new(10);
    w.add("x".to_string());
    w.add("y".to_string());
    assert_eq!(names(&w), vec!["x", "y"]);
}

#[test]
fn zero_capacity_stays_empty() {
    let mut w = Wlist::new(0);
    w.add("x".to_string());
    assert!(names(&w).is_empty());
}

#[test]
fn search_finds_first() {
    let mut w = Wlist::new(5);
    w.add("a".to_string());
    w.add("b".to_string());
    w.add("a".to_string());
    assert_eq!(w.search("a"), 0);
    assert_eq!(w.search("b"), 1);
    assert_eq!(w.search("z"), -1);
}

#[test]
fn remove_and_remove_node() {
    let mut w = Wlist::new(5);
    for n in ["a", "b", "c", "b"] {
        w.add(n.to_string());
    }
    w.remove(0);
    assert_eq!(names(&w), vec!["b", "c", "b"]);
    w.remove_node("b");
    assert_eq!(names(&w), vec!["c", "b"]);
}

#[test]
fn clone_is_equal_and_independent() {
    let mut w = Wlist::new(2);
    w.add("a".to_string());
    let mut c = w.clone();
    assert_eq!(names(&c), names(&w));
    c.add("b".to_string());
    c.add("c".to_string());
    assert_eq!(names(&c), vec!["b", "c"]);
    assert_eq!(names(&w), vec!["a"]);
}
