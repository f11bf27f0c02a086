use editor::fib::fibonacci_sequence;
use editor::rope::Rope;
use std::rc::Rc;

fn text(r: &Rope) -> String {
    r.slice_to_string(0, r.len())
}

fn opt_text(r: Option<Rope>) -> Option<String> {
    r.map(|r| text(&r))
}

#[test]
fn first_ten_values_are_correct() {
    let seq = fibonacci_sequence(10);
    assert_eq!(seq, [0, 1, 1, 2, 3, 5, 8, 13, 21, 34]);
}

#[test]
fn empty_default() {
    let r = Rope::default();
    assert!(r.is_leaf());
    assert!(!r.is_node());
    assert_eq!(r.len(), 0);
    assert_eq!(r.weight(), 0);
    assert_eq!(r.depth(), 0);
    assert_eq!(text(&r), "");
}

#[test]
fn leaf_basic() {
    let r = Rope::leaf("hello");
    assert!(r.is_leaf());
    assert!(!r.is_node());
    assert_eq!(r.len(), 5);
    assert_eq!(r.weight(), 5);
    assert_eq!(r.depth(), 0);
    assert_eq!(text(&r), "hello");
}

#[test]
fn leaf_getters_return_none() {
    let r = Rope::leaf("x");
    assert!(r.is_leaf());
    assert!(!r.is_node());
    assert!(r.get_left().is_none());
    assert!(r.get_right().is_none());
}

#[test]
fn node_with_only_left_child() {
    let r = Rope::node(Some(Rope::leaf("abc")), None);
    assert!(!r.is_leaf());
    assert!(r.is_node());
    assert_eq!(r.len(), 3);
    assert_eq!(r.weight(), 3);
    assert_eq!(r.depth(), 1);
    assert_eq!(r.get_left().map(Rope::len), Some(3));
    assert!(r.get_right().is_none());
    assert_eq!(text(&r), "abc");
}

#[test]
fn node_with_only_right_child() {
    let r = Rope::node(None, Some(Rope::leaf("abc")));
    assert!(!r.is_leaf());
    assert!(r.is_node());
    assert_eq!(r.len(), 3);
    assert_eq!(r.weight(), 0);
    assert_eq!(r.depth(), 1);
    assert!(r.get_left().is_none());
    assert_eq!(r.get_right().map(Rope::len), Some(3));
    assert_eq!(text(&r), "abc");
}

#[test]
fn node_filters_empty_child() {
    let r = Rope::node(Some(Rope::leaf("")), Some(Rope::leaf("abc")));
    match &r {
        Rope::Node {
            left,
            right,
            weight,
            ..
        } => {
            assert!(left.is_none());
            assert!(right.is_some());
            assert_eq!(*weight, 0);
        }
        _ => unreachable!("`r` is a node"),
    }
    assert_eq!(text(&r), "abc");
}

#[test]
fn is_empty_on_default() {
    assert!(Rope::default().is_empty());
}

#[test]
fn is_empty_on_leaf() {
    assert!(!Rope::leaf("x").is_empty());
}

#[test]
fn is_empty_after_remove_all() {
    let r = Rope::leaf("hello").remove(0, 5);
    assert!(r.is_empty());
}

#[test]
fn concat_two_leaves() {
    let r = Rope::leaf("foo").concat(Rope::leaf("bar"));
    assert_eq!(r.len(), 6);
    assert_eq!(r.weight(), 3);
    assert_eq!(r.depth(), 1);
    assert!(r.is_balanced());
    assert_eq!(text(&r), "foobar");
}

#[test]
fn concat_empty_left() {
    let r = Rope::default().concat(Rope::leaf("foo"));
    assert_eq!(r.len(), 3);
    assert_eq!(text(&r), "foo");
}

#[test]
fn concat_empty_right() {
    let r = Rope::leaf("foo").concat(Rope::default());
    assert_eq!(r.len(), 3);
    assert_eq!(text(&r), "foo");
}

#[test]
fn join_two_nonempty() {
    let r = Rope::leaf("foo").join(Rope::leaf("bar"));
    assert_eq!(text(&r), "foobar");
    assert_eq!(r.len(), 6);
}

#[test]
fn join_empty_left() {
    let r = Rope::default().join(Rope::leaf("foo"));
    assert_eq!(text(&r), "foo");
}

#[test]
fn join_empty_right() {
    let r = Rope::leaf("foo").join(Rope::default());
    assert_eq!(text(&r), "foo");
}

#[test]
fn join_two_empty_is_noop() {
    let r = Rope::default().join(Rope::default());
    assert!(r.is_empty());
}

#[test]
fn eq_two_defaults() {
    assert_eq!(Rope::default(), Rope::default());
}

#[test]
fn eq_two_identical_leaves() {
    assert_eq!(Rope::leaf("hello"), Rope::leaf("hello"));
}

#[test]
fn ne_different_leaves() {
    assert_ne!(Rope::leaf("hello"), Rope::leaf("world"));
}

#[test]
fn eq_tree_and_leaf_with_same_text_are_not_equal() {
    let tree = Rope::leaf("foo").concat(Rope::leaf("bar"));
    let leaf = Rope::leaf("foobar");
    assert_ne!(tree, leaf);
}

#[test]
fn ascii() {
    let r = Rope::leaf("hello");
    assert_eq!(r.char_at(0), Some('h'));
    assert_eq!(r.char_at(1), Some('e'));
    assert_eq!(r.char_at(4), Some('o'));
    assert_eq!(r.char_at(5), None);
}

#[test]
fn rope_unicode() {
    let r = Rope::leaf("héllo");
    assert_eq!(r.len(), 6);
    assert_eq!(r.char_at(0), Some('h'));
    assert_eq!(r.char_at(1), Some('é'));
    assert_eq!(r.char_at(2), None);
    assert_eq!(r.char_at(3), Some('l'));
    assert_eq!(r.char_at(5), Some('o'));
    assert_eq!(r.char_at(6), None);
}

#[test]
fn rope_across_leaves() {
    let r = Rope::leaf("foo").concat(Rope::leaf("bar"));
    assert_eq!(r.char_at(0), Some('f'));
    assert_eq!(r.char_at(2), Some('o'));
    assert_eq!(r.char_at(3), Some('b'));
    assert_eq!(r.char_at(5), Some('r'));
    assert_eq!(r.char_at(6), None);
}

#[test]
fn rope_multibyte_across_leaves() {
    let r = Rope::leaf("ab").concat(Rope::leaf("é"));
    assert_eq!(r.len(), 4);
    assert_eq!(r.char_at(0), Some('a'));
    assert_eq!(r.char_at(1), Some('b'));
    assert_eq!(r.char_at(2), Some('é'));
    assert_eq!(r.char_at(3), None);
}

#[test]
fn left_only_node_past_end_is_none() {
    let r = Rope::node(Some(Rope::leaf("abc")), None);
    assert_eq!(r.char_at(0), Some('a'));
    assert_eq!(r.char_at(2), Some('c'));
    assert_eq!(r.char_at(3), None);
    assert_eq!(r.char_at(100), None);
}

#[test]
fn rope_right_only_node() {
    let r = Rope::node(None, Some(Rope::leaf("abc")));
    assert_eq!(r.char_at(0), Some('a'));
    assert_eq!(r.char_at(2), Some('c'));
    assert_eq!(r.char_at(3), None);
}

#[test]
fn ascii_leaf() {
    let r = Rope::leaf("abc");
    assert_eq!(r.byte_at(0), Some(b'a'));
    assert_eq!(r.byte_at(1), Some(b'b'));
    assert_eq!(r.byte_at(2), Some(b'c'));
    assert_eq!(r.byte_at(3), None);
}

#[test]
fn out_of_bounds_is_none() {
    let r = Rope::leaf("abc");
    assert_eq!(r.byte_at(100), None);
}

#[test]
fn empty_leaf_yields_none() {
    let r = Rope::default();
    assert_eq!(r.byte_at(0), None);
}

#[test]
fn multibyte_bytes_are_raw_utf8() {
    let r = Rope::leaf("é");
    assert_eq!(r.byte_at(0), Some(0xC3));
    assert_eq!(r.byte_at(1), Some(0xA9));
    assert_eq!(r.byte_at(2), None);
}

#[test]
fn byte_at_across_leaves() {
    let r = Rope::leaf("ab").concat(Rope::leaf("cd"));
    assert_eq!(r.byte_at(0), Some(b'a'));
    assert_eq!(r.byte_at(1), Some(b'b'));
    assert_eq!(r.byte_at(2), Some(b'c'));
    assert_eq!(r.byte_at(3), Some(b'd'));
    assert_eq!(r.byte_at(4), None);
}

#[test]
fn on_node_boundary_index() {
    let r = Rope::leaf("ab").concat(Rope::leaf("cd"));
    assert_eq!(r.byte_at(2), Some(b'c'));
}

#[test]
fn byte_at_right_only_node() {
    let r = Rope::node(None, Some(Rope::leaf("xy")));
    assert_eq!(r.byte_at(0), Some(b'x'));
    assert_eq!(r.byte_at(1), Some(b'y'));
    assert_eq!(r.byte_at(2), None);
}

#[test]
fn left_only_node() {
    let r = Rope::node(Some(Rope::leaf("xy")), None);
    assert_eq!(r.byte_at(0), Some(b'x'));
    assert_eq!(r.byte_at(1), Some(b'y'));
    assert_eq!(r.byte_at(2), None);
}

#[test]
fn zero_is_always_boundary() {
    assert!(Rope::leaf("hello").is_char_boundary(0));
    assert!(Rope::default().is_char_boundary(0));
}

#[test]
fn len_is_always_boundary() {
    let r = Rope::leaf("hello");
    assert!(r.is_char_boundary(5));
}

#[test]
fn past_len_is_not_boundary() {
    let r = Rope::leaf("hello");
    assert!(!r.is_char_boundary(6));
    assert!(!r.is_char_boundary(100));
}

#[test]
fn ascii_positions_are_all_boundaries() {
    let r = Rope::leaf("hello");
    for i in 0..=5 {
        assert!(r.is_char_boundary(i), "index {} should be a boundary", i);
    }
}

#[test]
fn multibyte_middle_is_not_boundary() {
    let r = Rope::leaf("héllo");
    assert!(r.is_char_boundary(0));
    assert!(r.is_char_boundary(1));
    assert!(!r.is_char_boundary(2));
    assert!(r.is_char_boundary(3));
    assert!(r.is_char_boundary(4));
    assert!(r.is_char_boundary(5));
    assert!(r.is_char_boundary(6));
}

#[test]
fn is_char_boundary_across_leaves() {
    let r = Rope::leaf("ab").concat(Rope::leaf("é"));
    assert!(r.is_char_boundary(0));
    assert!(r.is_char_boundary(1));
    assert!(r.is_char_boundary(2));
    assert!(!r.is_char_boundary(3));
    assert!(r.is_char_boundary(4));
}

#[test]
fn empty_rope_past_zero_is_not_boundary() {
    let r = Rope::default();
    assert!(!r.is_char_boundary(1));
}

#[test]
fn ascii_moves_one_byte() {
    let r = Rope::leaf("hello");
    assert_eq!(r.next_char_boundary(0), Some(1));
    assert_eq!(r.next_char_boundary(1), Some(2));
    assert_eq!(r.next_char_boundary(4), Some(5));
}

#[test]
fn at_end_is_none() {
    let r = Rope::leaf("hello");
    assert_eq!(r.next_char_boundary(5), None);
}

#[test]
fn past_end_is_none() {
    let r = Rope::leaf("hello");
    assert_eq!(r.next_char_boundary(100), None);
}

#[test]
fn multibyte_skips_whole_char() {
    let r = Rope::leaf("héllo");
    assert_eq!(r.next_char_boundary(0), Some(1));
    assert_eq!(r.next_char_boundary(1), Some(3));
    assert_eq!(r.next_char_boundary(3), Some(4));
}

#[test]
fn mid_char_is_none() {
    let r = Rope::leaf("héllo");
    assert_eq!(r.next_char_boundary(2), None);
}

#[test]
fn next_char_boundary_across_leaves() {
    let r = Rope::leaf("ab").concat(Rope::leaf("cd"));
    assert_eq!(r.next_char_boundary(0), Some(1));
    assert_eq!(r.next_char_boundary(1), Some(2));
    assert_eq!(r.next_char_boundary(2), Some(3));
    assert_eq!(r.next_char_boundary(3), Some(4));
    assert_eq!(r.next_char_boundary(4), None);
}

#[test]
fn rope_empty_rope_zero_is_none() {
    let r = Rope::default();
    assert_eq!(r.next_char_boundary(0), None);
}

#[test]
fn rope_four_byte_char() {
    let r = Rope::leaf("😀");
    assert_eq!(r.len(), 4);
    assert_eq!(r.next_char_boundary(0), Some(4));
}

#[test]
fn ascii_moves_back_one() {
    let r = Rope::leaf("hello");
    assert_eq!(r.prev_char_boundary(1), Some(0));
    assert_eq!(r.prev_char_boundary(5), Some(4));
}

#[test]
fn at_zero_is_none() {
    let r = Rope::leaf("hello");
    assert_eq!(r.prev_char_boundary(0), None);
}

#[test]
fn multibyte_lands_on_char_start() {
    let r = Rope::leaf("héllo");
    assert_eq!(r.prev_char_boundary(3), Some(1));
    assert_eq!(r.prev_char_boundary(1), Some(0));
    assert_eq!(r.prev_char_boundary(4), Some(3));
}

#[test]
fn prev_char_boundary_across_leaves() {
    let r = Rope::leaf("ab").concat(Rope::leaf("cd"));
    assert_eq!(r.prev_char_boundary(4), Some(3));
    assert_eq!(r.prev_char_boundary(2), Some(1));
    assert_eq!(r.prev_char_boundary(1), Some(0));
}

#[test]
fn crossing_leaf_boundary_with_multibyte() {
    let r = Rope::leaf("ab").concat(Rope::leaf("é"));
    assert_eq!(r.prev_char_boundary(4), Some(2));
    assert_eq!(r.prev_char_boundary(2), Some(1));
}

#[test]
fn prev_char_boundary_empty_rope_zero_is_none() {
    let r = Rope::default();
    assert_eq!(r.prev_char_boundary(0), None);
}

#[test]
fn prev_char_boundary_four_byte_char() {
    let r = Rope::leaf("a😀");
    assert_eq!(r.prev_char_boundary(5), Some(1));
    assert_eq!(r.prev_char_boundary(1), Some(0));
}

#[test]
fn multibyte_at_start() {
    let r = Rope::leaf("éllo");
    assert_eq!(r.prev_char_boundary(2), Some(0));
    assert_eq!(r.prev_char_boundary(1), Some(0));
    assert_eq!(r.prev_char_boundary(0), None);
}

#[test]
fn out_of_bounds_clamps_to_last_boundary() {
    let r = Rope::leaf("hello");
    assert_eq!(r.prev_char_boundary(100), Some(4));
}

#[test]
fn out_of_bounds_with_multibyte() {
    let r = Rope::leaf("héllo");
    assert_eq!(r.prev_char_boundary(100), Some(5));
    assert_eq!(r.prev_char_boundary(6), Some(5));
}

#[test]
fn next_then_prev_is_identity() {
    let r = Rope::leaf("héllo wörld");
    let mut i = 0;
    while i < r.len() {
        if r.is_char_boundary(i) {
            let next = r
                .next_char_boundary(i)
                .expect("i < r.len() implies that next boundary exists");

            assert_eq!(r.prev_char_boundary(next), Some(i));
        }
        i += 1;
    }
}

#[test]
fn leaf_middle() {
    let r = Rope::leaf("hello");
    let (l, r) = r.split(2);
    assert_eq!(opt_text(l), Some("he".to_string()));
    assert_eq!(opt_text(r), Some("llo".to_string()));
}

#[test]
fn at_zero() {
    let r = Rope::leaf("hello");
    let (l, r) = r.split(0);
    assert_eq!(l, None);
    assert_eq!(opt_text(r), Some("hello".to_string()));
}

#[test]
fn rope_at_end() {
    let r = Rope::leaf("hello");
    let (l, r) = r.split(5);
    assert_eq!(opt_text(l), Some("hello".to_string()));
    assert_eq!(r, None);
}

#[test]
fn node() {
    let r = Rope::leaf("foo").concat(Rope::leaf("bar"));
    let (l, r) = r.split(4);
    assert_eq!(opt_text(l), Some("foob".to_string()));
    assert_eq!(opt_text(r), Some("ar".to_string()));
}

#[test]
fn empty() {
    let r = Rope::default();
    let (l, r) = r.split(0);
    assert_eq!(l, None);
    assert_eq!(r, None);
}

#[test]
fn beyond_end_on_left_only_node() {
    let r = Rope::node(Some(Rope::leaf("abc")), None);
    let (l, r) = r.split(10);
    assert_eq!(opt_text(l), Some("abc".to_string()));
    assert_eq!(r, None);
}

#[test]
fn on_right_only_node_triggers_single_leaf_rebalance() {
    let r = Rope::node(None, Some(Rope::leaf("abc")));
    let (l, r) = r.split(1);
    assert_eq!(l, Some(Rope::leaf("a")));
    assert_eq!(r, Some(Rope::leaf("bc")));
    assert_eq!(opt_text(l), Some("a".to_string()));
    assert_eq!(opt_text(r), Some("bc".to_string()));
}

#[test]
fn node_at_zero_hits_none_left() {
    let r = Rope::leaf("foo").concat(Rope::leaf("bar"));
    let (l, r) = r.split(0);
    assert_eq!(l, None);
    assert_eq!(opt_text(r), Some("foobar".to_string()));
}

#[test]
fn node_exactly_at_weight() {
    let r = Rope::leaf("foo").concat(Rope::leaf("bar"));
    let (l, r) = r.split(3);
    assert_eq!(opt_text(l), Some("foo".to_string()));
    assert_eq!(opt_text(r), Some("bar".to_string()));
}

#[test]
fn node_at_end_hits_none_right() {
    let r = Rope::leaf("foo").concat(Rope::leaf("bar"));
    let (l, r) = r.split(6);
    assert_eq!(opt_text(l), Some("foobar".to_string()));
    assert_eq!(r, None);
}

#[test]
fn into_empty() {
    let r = Rope::default().insert_str(0, "hello");
    assert_eq!(text(&r), "hello");
}

#[test]
fn rope_at_beginning() {
    let r = Rope::leaf("world").insert_str(0, "hello ");
    assert_eq!(text(&r), "hello world");
}

#[test]
fn rope_at_middle() {
    let r = Rope::leaf("helloworld").insert_str(5, " ");
    assert_eq!(text(&r), "hello world");
}

#[test]
fn insert_str_at_end() {
    let r = Rope::leaf("hello").insert_str(5, " world");
    assert_eq!(text(&r), "hello world");
}

#[test]
fn rope_out_of_bounds_clamps() {
    let r = Rope::leaf("hello").insert_str(100, "!");
    assert_eq!(text(&r), "hello!");
}

#[test]
fn empty_text_is_noop() {
    let r = Rope::leaf("hello").insert_str(2, "");
    assert_eq!(text(&r), "hello");
}

#[test]
fn at_front_hits_none_left_arm() {
    let r = Rope::leaf("abc").insert_str(0, "x");
    assert_eq!(text(&r), "xabc");
}

#[test]
fn at_back_hits_none_right_arm() {
    let r = Rope::leaf("abc").insert_str(3, "x");
    assert_eq!(text(&r), "abcx");
}

#[test]
fn before_multibyte_char() {
    let r = Rope::leaf("héllo").insert_str(1, "X");
    assert_eq!(text(&r), "hXéllo");
}

#[test]
fn after_multibyte_char() {
    let r = Rope::leaf("héllo").insert_str(3, "X");
    assert_eq!(text(&r), "héXllo");
}

#[test]
fn multibyte_str() {
    let r = Rope::leaf("αβγ").insert_str(2, "X");
    assert_eq!(text(&r), "αXβγ");
}

#[test]
fn empty_other_returns_self_unchanged() {
    let r = Rope::leaf("hello");
    let r2 = r.clone().insert_rope(3, Rope::default());
    assert_eq!(r, r2);
}

#[test]
fn empty_other_on_empty_self() {
    let r = Rope::default().insert_rope(0, Rope::default());
    assert!(r.is_empty());
}

#[test]
fn into_empty_self() {
    let r = Rope::leaf("hello");
    let r2 = Rope::default().insert_rope(0, r.clone());
    assert_eq!(r, r2);
    assert_eq!(text(&r2), "hello");
}

#[test]
fn insert_rope_at_beginning() {
    let r = Rope::leaf("world").insert_rope(0, Rope::leaf("hello "));
    assert_eq!(text(&r), "hello world");
}

#[test]
fn insert_rope_at_middle() {
    let r = Rope::leaf("helloworld").insert_rope(5, Rope::leaf(" "));
    assert_eq!(text(&r), "hello world");
}

#[test]
fn insert_rope_at_end() {
    let r = Rope::leaf("hello").insert_rope(5, Rope::leaf(" world"));
    assert_eq!(text(&r), "hello world");
}

#[test]
fn insert_rope_out_of_bounds_clamps() {
    let r = Rope::leaf("hello").insert_rope(100, Rope::leaf("!"));
    assert_eq!(text(&r), "hello!");
}

#[test]
fn multi_leaf_other() {
    let other = Rope::leaf("foo").concat(Rope::leaf("bar"));
    let r = Rope::leaf("X").insert_rope(1, other);
    assert_eq!(text(&r), "Xfoobar");
}

#[test]
fn insert_into_multi_leaf_self() {
    let base = Rope::leaf("aaa").concat(Rope::leaf("bbb"));
    let r = base.insert_rope(3, Rope::leaf("---"));
    assert_eq!(text(&r), "aaa---bbb");
}

#[test]
fn clipboard_round_trip() {
    let doc = Rope::leaf("hello world");
    let clip = doc.slice(6, 5);
    let pasted = doc.clone().insert_rope(0, clip);

    assert_eq!(text(&pasted), "worldhello world");
    assert_eq!(text(&doc), "hello world");
}

#[test]
fn multibyte_rope() {
    let r = Rope::leaf("héllo").insert_rope(1, Rope::leaf("X"));
    assert_eq!(text(&r), "hXéllo");
}

#[test]
fn self_and_other_from_same_tree() {
    let r = Rope::leaf("foobar");
    let left = r.slice(0, 3);
    let right = r.slice(3, 3);
    let combined = left.insert_rope(3, right);
    assert_eq!(text(&combined), "foobar");
}

#[test]
fn other_is_descendant_of_self() {
    let doc = Rope::leaf("abcdef");
    let clip = doc.slice(2, 2);
    let pasted = doc.insert_rope(4, clip);
    assert_eq!(text(&pasted), "abcdcdef");
}

#[test]
fn rope_middle() {
    let r = Rope::leaf("hello world").remove(5, 1);
    assert_eq!(text(&r), "helloworld");
}

#[test]
fn whole() {
    let r = Rope::leaf("hello").remove(0, 5);
    assert_eq!(r.len(), 0);
    assert_eq!(text(&r), "");
}

#[test]
fn beyond_end_clamps() {
    let r = Rope::leaf("hello").remove(3, 100);
    assert_eq!(text(&r), "hel");
}

#[test]
fn zero_len() {
    let r = Rope::leaf("hello").remove(2, 0);
    assert_eq!(text(&r), "hello");
}

#[test]
fn entirely_out_of_bounds() {
    let r = Rope::leaf("hello").remove(100, 5);
    assert_eq!(text(&r), "hello");
}

#[test]
fn from_beginning_hits_none_left_arm() {
    let r = Rope::leaf("abc").remove(0, 1);
    assert_eq!(text(&r), "bc");
}

#[test]
fn from_end_hits_none_right_arm() {
    let r = Rope::leaf("abc").remove(2, 1);
    assert_eq!(text(&r), "ab");
}

#[test]
fn spanning_three_leaves() {
    let r = Rope::leaf("aaa")
        .concat(Rope::leaf("bbb"))
        .concat(Rope::leaf("ccc"));
    let out = r.remove(2, 5);
    assert_eq!(text(&out), "aacc");
}

#[test]
fn multibyte_char() {
    let r = Rope::leaf("héllo").remove(1, 2);
    assert_eq!(text(&r), "hllo");
}

#[test]
fn full() {
    let r = Rope::leaf("hello");
    let s = r.slice(0, 5);
    assert_eq!(text(&s), "hello");
}

#[test]
fn slice_middle() {
    let r = Rope::leaf("hello world");
    let s = r.slice(6, 5);
    assert_eq!(text(&s), "world");
}

#[test]
fn slice_out_of_bounds_clamps() {
    let r = Rope::leaf("hello");
    let s = r.slice(3, 100);
    assert_eq!(text(&s), "lo");
}

#[test]
fn empty_range() {
    let r = Rope::leaf("hello");
    let s = r.slice(2, 0);
    assert_eq!(text(&s), "");
    assert_eq!(s.len(), 0);
}

#[test]
fn slice_across_leaves() {
    let r = Rope::leaf("foo")
        .concat(Rope::leaf("bar"))
        .concat(Rope::leaf("baz"));
    let s = r.slice(2, 5);
    assert_eq!(text(&s), "obarb");
}

#[test]
fn full_range_keeps_content() {
    let r = Rope::leaf("hello").concat(Rope::leaf("world"));
    let s = r.slice(0, 10);
    assert_eq!(text(&s), "helloworld");
}

#[test]
fn hits_left_branch() {
    let r = Rope::leaf("aaa").concat(Rope::leaf("bbb"));
    assert_eq!(text(&r.slice(0, 2)), "aa");
}

#[test]
fn hits_right_branch() {
    let r = Rope::leaf("aaa").concat(Rope::leaf("bbb"));
    assert_eq!(text(&r.slice(4, 2)), "bb");
}

#[test]
fn hits_straddle_branch() {
    let r = Rope::leaf("aaa").concat(Rope::leaf("bbb"));
    assert_eq!(text(&r.slice(2, 2)), "ab");
}

#[test]
fn hits_left_branch_with_nonzero_start() {
    let r = Rope::leaf("aaa").concat(Rope::leaf("bbb"));
    assert_eq!(text(&r.slice(1, 1)), "a");
}

#[test]
fn hits_right_branch_with_interior_end() {
    let r = Rope::leaf("aaa").concat(Rope::leaf("bbb"));
    assert_eq!(text(&r.slice(4, 1)), "b");
}

#[test]
fn on_right_only_node() {
    let r = Rope::node(None, Some(Rope::leaf("abc")));
    assert_eq!(text(&r.slice(1, 1)), "b");
}

#[test]
fn slice_multibyte_across_leaves() {
    let r = Rope::leaf("αβγ").concat(Rope::leaf("δεζ"));
    assert_eq!(r.slice_to_string(0, 8), "αβγδ");
    assert_eq!(r.slice_to_string(4, 8), "γδεζ");
}

#[test]
fn rope_does_not_mutate_source() {
    let r = Rope::leaf("hello world");
    let _ = r.slice(0, 5);
    let _ = r.slice(6, 5);
    assert_eq!(text(&r), "hello world");
}

#[test]
fn basic() {
    let r = Rope::leaf("hello world");
    assert_eq!(r.slice_to_string(6, 5), "world");
}

#[test]
fn slice_to_string_unicode() {
    let r = Rope::leaf("héllo wörld");
    assert_eq!(r.slice_to_string(0, 7), "héllo ");
    assert_eq!(r.slice_to_string(7, 6), "wörld");
}

#[test]
fn slice_to_string_out_of_bounds_clamps() {
    let r = Rope::leaf("hi");
    assert_eq!(r.slice_to_string(1, 100), "i");
}

#[test]
fn slice_to_string_does_not_mutate_source() {
    let r = Rope::leaf("hello world");
    let _ = r.slice_to_string(0, 5);
    let _ = r.slice_to_string(6, 5);
    assert_eq!(text(&r), "hello world");
}

#[test]
fn empty_rope_displays_empty() {
    assert_eq!(Rope::default().to_string(), "");
}

#[test]
fn leaf_displays_content() {
    assert_eq!(Rope::leaf("hello").to_string(), "hello");
}

#[test]
fn node_displays_concatenated_content() {
    let r = Rope::leaf("foo").concat(Rope::leaf("bar"));
    assert_eq!(r.to_string(), "foobar");
}

#[test]
fn deeper_tree_displays_in_order() {
    let r = Rope::leaf("a")
        .concat(Rope::leaf("b"))
        .concat(Rope::leaf("c"))
        .concat(Rope::leaf("d"));
    assert_eq!(r.to_string(), "abcd");
}

#[test]
fn multibyte_displays_correctly() {
    let r = Rope::leaf("héllo").concat(Rope::leaf(" wörld"));
    assert_eq!(r.to_string(), "héllo wörld");
}

#[test]
fn display_matches_slice_to_string() {
    let r = Rope::leaf("foo")
        .concat(Rope::leaf("bar"))
        .concat(Rope::leaf("baz"));
    assert_eq!(r.to_string(), r.slice_to_string(0, r.len()));
}

#[test]
fn display_with_control_chars_passes_through() {
    let r = Rope::leaf("line1\nline2\ttabbed");
    assert_eq!(r.to_string(), "line1\nline2\ttabbed");
}

#[test]
fn to_string_works_via_blanket_impl() {
    let r = Rope::leaf("hello").concat(Rope::leaf(" world"));
    assert_eq!(r.to_string(), "hello world");
}

#[test]
fn display_single_child_node() {
    let r = Rope::node(Some(Rope::leaf("abc")), None);
    assert_eq!(r.to_string(), "abc");
}

#[test]
fn clone_shares_leaf_allocation() {
    let a = Rope::leaf("hello");
    let b = a.clone();
    match (&a, &b) {
        (Rope::Leaf(ra), Rope::Leaf(rb)) => assert!(Rc::ptr_eq(ra, rb)),
        _ => unreachable!("`a` and `b` are leaves"),
    }
}

#[test]
fn clone_shares_node_children() {
    let a = Rope::leaf("foo").concat(Rope::leaf("bar"));
    let b = a.clone();
    match (&a, &b) {
        (
            Rope::Node {
                left: la,
                right: ra,
                ..
            },
            Rope::Node {
                left: lb,
                right: rb,
                ..
            },
        ) => {
            assert!(Rc::ptr_eq(la.as_ref().unwrap(), lb.as_ref().unwrap()));
            assert!(Rc::ptr_eq(ra.as_ref().unwrap(), rb.as_ref().unwrap()));
        }
        _ => unreachable!("`a` and `b` are nodes"),
    }
}

#[test]
fn slice_full_range_shares_root() {
    let a = Rope::leaf("foo").concat(Rope::leaf("bar"));
    let b = a.slice(0, 6);
    match (&a, &b) {
        (
            Rope::Node {
                left: la,
                right: ra,
                ..
            },
            Rope::Node {
                left: lb,
                right: rb,
                ..
            },
        ) => {
            assert!(Rc::ptr_eq(la.as_ref().unwrap(), lb.as_ref().unwrap()));
            assert!(Rc::ptr_eq(ra.as_ref().unwrap(), rb.as_ref().unwrap()));
        }
        _ => unreachable!("`a` and `b` are nodes"),
    }
}

#[test]
fn flattens_single_leaf_chain() {
    let r = Rope::node(Some(Rope::leaf("a")), None);
    assert!(!r.is_balanced());

    let r = r.rebalance();
    assert!(r.is_balanced());
    assert_eq!(r, Rope::leaf("a"));
}

#[test]
fn merge_three_leaves_rebuilds_balanced_tree() {
    let ab = Rope::leaf("a").concat(Rope::leaf("b"));
    let r = ab.concat(Rope::leaf("c"));
    assert_eq!(text(&r), "abc");
    assert!(r.is_balanced());
}

#[test]
fn merge_two_leaves_arm() {
    let r = Rope::node(Some(Rope::leaf("a")), None).concat(Rope::leaf("b"));
    assert_eq!(text(&r), "ab");
    assert!(r.is_balanced());
}

#[test]
fn is_balanced_false_when_depth_exceeds_table() {
    let mut r = Rope::leaf("x");
    for _ in 0..92 {
        r = Rope::node(Some(r), None);
    }
    assert_eq!(r.depth(), 92);
    assert!(!r.is_balanced());
}

#[test]
fn into_leaves_handles_single_child_node() {
    let r = Rope::node(Some(Rope::leaf("hello")), None);
    let leaves: Vec<_> = r.into_leaves();
    assert_eq!(leaves.len(), 1);
}

#[test]
fn leaves_iterates_right_only_node() {
    let r = Rope::node(None, Some(Rope::leaf("hello")));
    let leaves: Vec<_> = r.leaves();
    assert_eq!(leaves.len(), 1);

    match leaves[0] {
        Rope::Leaf(s) => assert_eq!(&**s, "hello"),
        _ => unreachable!("`leaves` contains only leaves"),
    }
}

#[test]
fn many_appends_keep_text_correct() {
    let mut r = Rope::default();
    for i in 0..100 {
        let s = format!("{}", i % 10);
        let r_len = r.len();
        r = r.insert_str(r_len, &s);
    }
    assert_eq!(r.len(), 100);
    assert_eq!(
        r.slice_to_string(0, 100),
        (0..100)
            .map(|i| char::from(b'0' + (i % 10) as u8))
            .collect::<String>()
    );
}

#[test]
fn round_trip_insert_then_slice() {
    let r = Rope::leaf("hello world").insert_str(5, ",");
    assert_eq!(r.slice_to_string(0, 12), "hello, world");
}

#[test]
fn edit_sequence_preserves_content() {
    let mut r = Rope::leaf("the quick brown fox");
    r = r.insert_str(4, "very ");
    r = r.remove(0, 4);
    assert_eq!(text(&r), "very quick brown fox");
}

#[test]
fn empty_ops_do_not_panic() {
    let r = Rope::default();
    assert_eq!(text(&r.clone().insert_str(0, "")), "");
    assert_eq!(text(&r.clone().remove(0, 0)), "");
    assert_eq!(text(&r.clone().slice(0, 0)), "");
}

#[test]
fn random_edits_match_string_model() {
    let mut rope = Rope::default();
    let mut model = String::new();
    let mut seed: u64 = 0x9E37_79B9_7F4A_7C15;
    let mut rng = || {
        seed ^= seed << 13;
        seed ^= seed >> 7;
        seed ^= seed << 17;
        seed
    };

    for step in 0..1000 {
        match rng() % 3 {
            0 => {
                let pos = (rng() as usize) % (model.len() + 1);
                let byte = b'a' + (rng() % 26) as u8;
                let text = (byte as char).to_string();
                rope = rope.insert_str(pos, &text);
                model.insert_str(pos, &text);
            }
            1 => {
                if !model.is_empty() {
                    let pos = (rng() as usize) % model.len();
                    let max = (model.len() - pos).min(8);
                    let len = ((rng() as usize) % max) + 1;
                    rope = rope.remove(pos, len);
                    model.replace_range(pos..pos + len, "");
                }
            }
            _ => {
                if model.len() >= 4 {
                    let pos = (rng() as usize) % (model.len() - 3);
                    let len = ((rng() as usize) % 3) + 1;
                    let chunk = model[pos..pos + len].to_string();

                    rope = rope.remove(pos, len);
                    model.replace_range(pos..pos + len, "");

                    let dst = (rng() as usize) % (model.len() + 1);
                    rope = rope.insert_str(dst, &chunk);
                    model.insert_str(dst, &chunk);
                }
            }
        }

        assert_eq!(rope.len(), model.len(), "len mismatch at step {}", step);
        assert_eq!(
            rope.slice_to_string(0, rope.len()),
            model,
            "content mismatch at step {}",
            step
        );
    }
}

#[test]
fn deep_tree_stays_balanced_after_many_inserts() {
    let mut r = Rope::default();
    for i in 0..1000 {
        let s = format!("{}", (b'a' + (i % 26) as u8) as char);
        let len = r.len();
        r = r.insert_str(len, &s);
        assert!(r.is_balanced(), "unbalanced after {} inserts", i + 1);
    }
    assert_eq!(r.len(), 1000);
}
