use editor::rope::Rope;

fn text(r: &Rope) -> String {
    r.slice_to_string(0, r.len())
}

#[test]
fn rope_split_then_join_gives_back_the_text() {
    let r = Rope::leaf("hello").concat(Rope::leaf(" wörld"));
    for index in [0, 3, 5, 7, 9, 12] {
        let (a, b) = r.clone().split(index);
        let joined = a.unwrap_or_default().join(b.unwrap_or_default());
        assert_eq!(text(&joined), "hello wörld");
    }
}

#[test]
fn rope_split_parts_are_absent_when_empty() {
    let r = Rope::leaf("abc");
    let (a, b) = r.clone().split(0);
    assert!(a.is_none());
    assert_eq!(text(&b.unwrap()), "abc");
    let (a, b) = r.split(3);
    assert_eq!(text(&a.unwrap()), "abc");
    assert!(b.is_none());
}

#[test]
fn rope_insert_then_remove_gives_back_the_text() {
    let r = Rope::leaf("abcdef");
    let w = r.clone().insert_str(2, "XYZ");
    assert_eq!(text(&w), "abXYZcdef");
    assert_eq!(text(&w.clone().remove(2, 3)), "abcdef");
    assert_eq!(text(&w.slice(2, 3)), "XYZ");
}

#[test]
fn rope_insert_into_empty_gives_the_inserted_rope() {
    let other = Rope::leaf("ab").concat(Rope::leaf("cd"));
    let r = Rope::default().insert_rope(3, other.clone());
    assert_eq!(r, other);
}

#[test]
fn rope_insert_str_keeps_the_rope_balanced() {
    let mut r = Rope::default();
    for i in 0..200 {
        let at = i % (r.len() + 1);
        r = r.insert_str(at, "x");
        assert!(r.is_balanced());
    }
    assert_eq!(r.len(), 200);
}

#[test]
fn rope_split_right_only_node_gives_leaves() {
    let b = Rope::node(None, Some(Rope::leaf("abc")));
    let (x, y) = b.split(1);
    assert_eq!(x, Some(Rope::leaf("a")));
    assert_eq!(y, Some(Rope::leaf("bc")));
}

#[test]
fn rope_slice_across_children_builds_a_node() {
    let a = Rope::leaf("foo").concat(Rope::leaf("bar"));
    let s = a.slice(1, 4);
    assert_eq!(s, Rope::node(Some(Rope::leaf("oo")), Some(Rope::leaf("ba"))));
}

#[test]
fn rope_remove_joins_the_outer_parts() {
    let a = Rope::leaf("foo").concat(Rope::leaf("bar"));
    let r = a.remove(1, 4);
    assert_eq!(r, Rope::leaf("f").concat(Rope::leaf("r")));
    assert_eq!(text(&r), "fr");
}

#[test]
fn rope_insert_joins_parts_around_the_insert() {
    let a = Rope::leaf("abcd");
    let r = a.insert_rope(2, Rope::leaf("XY"));
    let expected = Rope::leaf("ab").concat(Rope::leaf("XY")).concat(Rope::leaf("cd"));
    assert_eq!(r, expected);
}
