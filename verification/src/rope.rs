//! A rope: an immutable binary tree of string slices whose in-order
//! concatenation is the text it holds. Subtrees are shared through `Rc`.
//!
//! The text is modelled as the sequence of its UTF-8 bytes (the view `r@`);
//! every index taken by a method is a byte offset into that sequence.
use std::rc::Rc;
use vstd::prelude::*;
use vstd::string::StrSliceExecFns;
use vstd::string::StringExecFns;
use vstd::string::StringSliceAdditionalSpecFns;
use vstd::utf8::*;

use crate::fib::{fib, fibonacci_sequence};
use vstd::arithmetic::power2::{lemma2_to64, lemma_pow2_strictly_increases, lemma_pow2_unfold, pow2};
use crate::std_calls::{char_len_utf8, char_to_string, rc_clone, rc_str_from};
use crate::utf8::{char_at_spec, lemma_boundary_bytes, lemma_boundary_concat, lemma_char_at_concat, lemma_decode_first, lemma_encode_concat, lemma_width_leading_byte, width_at};

verus! {

broadcast use vstd::seq::group_seq_axioms, vstd::seq_lib::group_seq_properties;

#[derive(Debug, PartialEq)]
pub enum Rope {
    Leaf(Rc<str>),
    Node {
        left: Option<Rc<Self>>,
        right: Option<Rc<Self>>,
        depth: usize,
        weight: usize,
        len: usize,
    },
}

/// The larger of two naturals.
pub open spec fn max_nat(a: nat, b: nat) -> nat {
    if a >= b {
        a
    } else {
        b
    }
}

impl Rope {
    /// The UTF-8 bytes of the text, in order.
    pub open spec fn content(self) -> Seq<u8>
        decreases self,
    {
        match self {
            Rope::Leaf(s) => (*s).spec_bytes(),
            Rope::Node { left, right, .. } => {
                (match left {
                    Some(l) => (*l).content(),
                    None => Seq::empty(),
                }) + (match right {
                    Some(r) => (*r).content(),
                    None => Seq::empty(),
                })
            },
        }
    }

    /// The characters of the text, in order.
    pub open spec fn text(self) -> Seq<char>
        decreases self,
    {
        match self {
            Rope::Leaf(s) => (*s)@,
            Rope::Node { left, right, .. } => {
                (match left {
                    Some(l) => (*l).text(),
                    None => Seq::empty(),
                }) + (match right {
                    Some(r) => (*r).text(),
                    None => Seq::empty(),
                })
            },
        }
    }

    /// The depth of the tree: 0 for a leaf.
    pub open spec fn spec_depth(self) -> nat
        decreases self,
    {
        match self {
            Rope::Leaf(_) => 0,
            Rope::Node { left, right, .. } => 1 + max_nat(
                match left {
                    Some(l) => (*l).spec_depth(),
                    None => 0,
                },
                match right {
                    Some(r) => (*r).spec_depth(),
                    None => 0,
                },
            ),
        }
    }

    pub open spec fn child_content(c: Option<Rc<Rope>>) -> Seq<u8> {
        match c {
            Some(r) => (*r).content(),
            None => Seq::empty(),
        }
    }

    pub open spec fn child_text(c: Option<Rc<Rope>>) -> Seq<char> {
        match c {
            Some(r) => (*r).text(),
            None => Seq::empty(),
        }
    }

    /// The left subtree, if this is a node that has one.
    pub open spec fn left_opt(self) -> Option<Rope> {
        match self {
            Rope::Node { left: Some(l), .. } => Some(*l),
            _ => None,
        }
    }

    /// The right subtree, if this is a node that has one.
    pub open spec fn right_opt(self) -> Option<Rope> {
        match self {
            Rope::Node { right: Some(r), .. } => Some(*r),
            _ => None,
        }
    }

    pub open spec fn opt_content(o: Option<Rope>) -> Seq<u8> {
        match o {
            Some(r) => r.content(),
            None => Seq::empty(),
        }
    }

    pub open spec fn opt_text(o: Option<Rope>) -> Seq<char> {
        match o {
            Some(r) => r.text(),
            None => Seq::empty(),
        }
    }

    /// The weight: the length of the left subtree, or the length of a leaf.
    pub open spec fn spec_weight(self) -> nat {
        match self {
            Rope::Leaf(s) => (*s).spec_bytes().len(),
            Rope::Node { weight, .. } => weight as nat,
        }
    }

    /// The stored fields of every node agree with its subtrees, every node has a
    /// subtree, and every subtree is nonempty.
    pub open spec fn is_tree(self) -> bool
        decreases self,
    {
        match self {
            Rope::Leaf(_) => true,
            Rope::Node { left, right, depth, weight, len } => {
                &&& (left is Some || right is Some)
                &&& (match left {
                    Some(l) => (*l).is_tree() && (*l).content().len() > 0,
                    None => true,
                })
                &&& (match right {
                    Some(r) => (*r).is_tree() && (*r).content().len() > 0,
                    None => true,
                })
                &&& weight == Self::child_content(left).len()
                &&& len == Self::child_content(left).len() + Self::child_content(right).len()
                &&& depth == self.spec_depth()
            },
        }
    }

    /// A well-formed rope: a consistent tree whose length and depth fit a `usize`
    /// with room to spare for one more level.
    pub open spec fn wf(self) -> bool {
        &&& self.is_tree()
        &&& self.content().len() <= usize::MAX
        &&& self.spec_depth() < usize::MAX
    }

    /// An empty leaf is dropped from a pair of children; anything else is kept.
    pub open spec fn spec_filter_empty(node: Option<Rope>) -> Option<Rope> {
        match node {
            Some(Rope::Leaf(s)) => if (*s)@.len() == 0 {
                None
            } else {
                node
            },
            _ => node,
        }
    }

    /// The bytes are the UTF-8 encoding of the characters, so they are valid UTF-8.
    pub proof fn lemma_content_text(&self)
        ensures
            self.content() == encode_utf8(self.text()),
            valid_utf8(self.content()),
            decode_utf8(self.content()) == self.text(),
            self.content().len() == 0 <==> self.text().len() == 0,
        decreases self,
    {
        match self {
            Rope::Leaf(s) => {},
            Rope::Node { left, right, .. } => {
                match left {
                    Some(l) => (*l).lemma_content_text(),
                    None => {},
                }
                match right {
                    Some(r) => (*r).lemma_content_text(),
                    None => {},
                }
                lemma_encode_concat(Self::child_text(*left), Self::child_text(*right));
            },
        }
        encode_utf8_valid_utf8(self.text());
        encode_utf8_decode_utf8(self.text());
        lemma_encode_len(self.text());
    }

    /// Facts about a node's two parts that most proofs need.
    pub proof fn lemma_node_parts(&self)
        requires
            self.is_tree(),
            self is Node,
        ensures
            self.content() == Self::opt_content(self.left_opt()) + Self::opt_content(
                self.right_opt(),
            ),
            valid_utf8(Self::opt_content(self.left_opt())),
            valid_utf8(Self::opt_content(self.right_opt())),
            self.spec_weight() == Self::opt_content(self.left_opt()).len(),
            self.left_opt() matches Some(l) ==> l.is_tree() && l.content().len() > 0
                && l.spec_depth() < self.spec_depth(),
            self.right_opt() matches Some(r) ==> r.is_tree() && r.content().len() > 0
                && r.spec_depth() < self.spec_depth(),
    {
        match self {
            Rope::Node { left, right, .. } => {
                match left {
                    Some(l) => (*l).lemma_content_text(),
                    None => {},
                }
                match right {
                    Some(r) => (*r).lemma_content_text(),
                    None => {},
                }
            },
            _ => {},
        }
    }

    /// The empty leaf cannot be a child; a nonempty subtree of a well-formed rope
    /// is well-formed.
    pub proof fn lemma_child_wf(&self)
        requires
            self.wf(),
            self is Node,
        ensures
            self.left_opt() matches Some(l) ==> l.wf(),
            self.right_opt() matches Some(r) ==> r.wf(),
    {
        self.lemma_node_parts();
    }

    /// Makes a rope that is a single leaf holding `s`.
    pub fn leaf(s: &str) -> (res: Self)
        ensures
            res is Leaf,
            res.text() == s@,
            res@ == s.spec_bytes(),
            res.wf(),
    {
        let n: usize = s.as_bytes().len();
        Rope::Leaf(rc_str_from(s))
    }

    fn filter_empty(node: Option<Self>) -> (res: Option<Self>)
        ensures
            res == Self::spec_filter_empty(node),
    {
        match node {
            Some(Self::Leaf(s)) => {
                if s.is_empty() {
                    None
                } else {
                    Some(Self::Leaf(s))
                }
            },
            other => other,
        }
    }

    /// Makes a node of the nonempty ones of the two parts.
    pub fn node(left: Option<Self>, right: Option<Self>) -> (res: Self)
        requires
            left matches Some(l) ==> l.wf(),
            right matches Some(r) ==> r.wf(),
            Self::opt_content(left).len() + Self::opt_content(right).len() > 0,
            Self::opt_content(left).len() + Self::opt_content(right).len() <= usize::MAX,
        ensures
            res is Node,
            res.left_opt() == Self::spec_filter_empty(left),
            res.right_opt() == Self::spec_filter_empty(right),
            res.is_tree(),
            res@ == Self::opt_content(left) + Self::opt_content(right),
            res.text() == Self::opt_text(left) + Self::opt_text(right),
            res.spec_depth() == 1 + max_nat(
                Self::opt_depth(Self::spec_filter_empty(left)),
                Self::opt_depth(Self::spec_filter_empty(right)),
            ),
            res.content().len() <= usize::MAX,
    {
        proof {
            match &left {
                Some(l) => l.lemma_content_text(),
                None => {},
            }
            match &right {
                Some(r) => r.lemma_content_text(),
                None => {},
            }
        }
        let left_res = Self::filter_empty(left);
        let right_res = Self::filter_empty(right);
        let left_depth: usize = match &left_res {
            Some(n) => n.depth(),
            None => 0,
        };
        let right_depth: usize = match &right_res {
            Some(n) => n.depth(),
            None => 0,
        };
        let left_len: usize = match &left_res {
            Some(n) => n.len(),
            None => 0,
        };
        let right_len: usize = match &right_res {
            Some(n) => n.len(),
            None => 0,
        };
        let deeper: usize = if left_depth >= right_depth {
            left_depth
        } else {
            right_depth
        };
        Self::Node {
            depth: 1 + deeper,
            weight: left_len,
            len: left_len + right_len,
            left: match left_res {
                Some(n) => Some(Rc::new(n)),
                None => None,
            },
            right: match right_res {
                Some(n) => Some(Rc::new(n)),
                None => None,
            },
        }
    }

    pub open spec fn opt_depth(o: Option<Rope>) -> nat {
        match o {
            Some(r) => r.spec_depth(),
            None => 0,
        }
    }

    /// The left subtree, if any.
    pub fn get_left(&self) -> (res: Option<&Self>)
        ensures
            res is Some <==> self.left_opt() is Some,
            res matches Some(l) ==> self.left_opt() == Some(*l),
    {
        match self {
            Self::Leaf(_) => None,
            Self::Node { left, .. } => match left {
                Some(l) => Some(&**l),
                None => None,
            },
        }
    }

    /// The right subtree, if any.
    pub fn get_right(&self) -> (res: Option<&Self>)
        ensures
            res is Some <==> self.right_opt() is Some,
            res matches Some(r) ==> self.right_opt() == Some(*r),
    {
        match self {
            Self::Leaf(_) => None,
            Self::Node { right, .. } => match right {
                Some(r) => Some(&**r),
                None => None,
            },
        }
    }

    /// The depth of the tree.
    pub fn depth(&self) -> (res: usize)
        requires
            self.is_tree(),
        ensures
            res == self.spec_depth(),
    {
        match self {
            Self::Leaf(_) => 0,
            Self::Node { depth, .. } => *depth,
        }
    }

    /// The weight: the length of the left subtree, or of the leaf's text.
    pub fn weight(&self) -> (res: usize)
        requires
            self.wf(),
        ensures
            res == self.spec_weight(),
    {
        match self {
            Self::Leaf(s) => s.as_bytes().len(),
            Self::Node { weight, .. } => *weight,
        }
    }

    /// The length of the text in bytes.
    pub fn len(&self) -> (res: usize)
        requires
            self.is_tree(),
        ensures
            res == self@.len(),
    {
        match self {
            Self::Leaf(s) => s.as_bytes().len(),
            Self::Node { len, .. } => *len,
        }
    }

    /// Whether this rope is a leaf.
    pub fn is_leaf(&self) -> (res: bool)
        ensures
            res == self is Leaf,
    {
        match self {
            Self::Leaf(_) => true,
            _ => false,
        }
    }

    /// Whether this rope is a node.
    pub fn is_node(&self) -> (res: bool)
        ensures
            res == self is Node,
    {
        match self {
            Self::Node { .. } => true,
            _ => false,
        }
    }

    /// Whether the text is empty.
    pub fn is_empty(&self) -> (res: bool)
        requires
            self.is_tree(),
        ensures
            res == (self@.len() == 0),
    {
        self.len() == 0
    }

    /// The byte at `index`, if there is one.
    pub fn byte_at(&self, index: usize) -> (res: Option<u8>)
        requires
            self.is_tree(),
        ensures
            res == (if index < self@.len() {
                Some(self@[index as int])
            } else {
                None::<u8>
            }),
        decreases self,
    {
        match self {
            Self::Leaf(s) => {
                let b = s.as_bytes();
                if index < b.len() {
                    Some(b[index])
                } else {
                    None
                }
            },
            Self::Node { left, right, weight, .. } => {
                proof {
                    self.lemma_node_parts();
                }
                if index < *weight {
                    match left {
                        Some(l) => l.byte_at(index),
                        None => None,
                    }
                } else {
                    match right {
                        Some(r) => r.byte_at(index - *weight),
                        None => None,
                    }
                }
            },
        }
    }

    /// The character that starts at byte `index`, if one starts there.
    pub fn char_at(&self, index: usize) -> (res: Option<char>)
        requires
            self.is_tree(),
        ensures
            res == char_at_spec(self@, index as int),
        decreases self,
    {
        proof {
            self.lemma_content_text();
        }
        match self {
            Self::Leaf(s) => {
                let n: usize = s.as_bytes().len();
                if index < n && s.is_char_boundary(index) {
                    let (_, t) = s.split_at(index);
                    proof {
                        let sub = s.spec_bytes().subrange(index as int, n as int);
                        encode_utf8_decode_utf8(t@);
                        vstd::utf8::valid_utf8_split(s.spec_bytes(), index as int);
                        assert(sub =~= s.spec_bytes().skip(index as int));
                        lemma_decode_first(sub);
                    }
                    Some(t.get_char(0))
                } else {
                    None
                }
            },
            Self::Node { left, right, weight, .. } => {
                proof {
                    self.lemma_node_parts();
                    lemma_char_at_concat(
                        Self::opt_content(self.left_opt()),
                        Self::opt_content(self.right_opt()),
                        index as int,
                    );
                }
                if index < *weight {
                    match left {
                        Some(l) => l.char_at(index),
                        None => None,
                    }
                } else {
                    match right {
                        Some(r) => r.char_at(index - *weight),
                        None => None,
                    }
                }
            },
        }
    }

    /// Whether a character starts at byte `index`, or `index` is the end of the text.
    pub fn is_char_boundary(&self, index: usize) -> (res: bool)
        requires
            self.is_tree(),
        ensures
            res == is_char_boundary(self@, index as int),
    {
        proof {
            self.lemma_content_text();
            lemma_boundary_bytes(self@, index as int);
        }
        let n: usize = self.len();
        if index == 0 || index == n {
            return true;
        }
        if index > n {
            return false;
        }
        match self.byte_at(index) {
            Some(b) => {
                proof {
                    utf8_byte_ranges_bitwise(b);
                }
                (b & 0b1100_0000) != 0b1000_0000
            },
            None => false,
        }
    }

    /// The boundary just after the character that starts at `index`, if one starts there.
    pub fn next_char_boundary(&self, index: usize) -> (res: Option<usize>)
        requires
            self.is_tree(),
        ensures
            res == (if char_at_spec(self@, index as int) is Some {
                Some((index + width_at(self@, index as int)) as usize)
            } else {
                None::<usize>
            }),
            res matches Some(j) ==> index < j <= self@.len() && is_char_boundary(self@, j as int),
    {
        match self.char_at(index) {
            Some(c) => {
                proof {
                    self.lemma_content_text();
                    let sub = self@.skip(index as int);
                    vstd::utf8::valid_utf8_split(self@, index as int);
                    lemma_decode_first(sub);
                    decode_utf8_first_scalar(sub);
                    lemma_width_leading_byte(self@, index as int);
                    assert(take_first_scalar(sub).len() == length_of_first_scalar(sub));
                }
                let n: usize = self.len();
                let w: usize = char_len_utf8(c);
                Some(index + w)
            },
            None => None,
        }
    }

    /// The last boundary before `index` (after clamping `index` to the length); `None`
    /// when `index` is 0.
    pub fn prev_char_boundary(&self, index: usize) -> (res: Option<usize>)
        requires
            self.is_tree(),
        ensures
            index == 0 ==> res is None,
            index > 0 ==> (res matches Some(i) && Self::is_prev_boundary(self@, index, i as int)),
    {
        if index == 0 {
            return None;
        }
        proof {
            self.lemma_content_text();
            is_char_boundary_start_end_of_seq(self@);
        }
        let n: usize = self.len();
        let m: usize = if index < n {
            index
        } else {
            n
        };
        let mut i: usize = m.saturating_sub(1);
        while !self.is_char_boundary(i)
            invariant
                self.is_tree(),
                valid_utf8(self@),
                is_char_boundary(self@, 0),
                i <= Self::prev_start(self@.len(), index),
                Self::prev_start(self@.len(), index) == m.saturating_sub(1),
                forall|j: int| i < j <= Self::prev_start(self@.len(), index) ==> !is_char_boundary(self@, j),
            decreases i,
        {
            i = i - 1;
        }
        Some(i)
    }

    /// `i` is the last character boundary at or before `prev_start(len, index)`.
    pub open spec fn is_prev_boundary(bytes: Seq<u8>, index: usize, i: int) -> bool {
        &&& 0 <= i <= Self::prev_start(bytes.len(), index)
        &&& is_char_boundary(bytes, i)
        &&& forall|j: int| i < j <= Self::prev_start(bytes.len(), index) ==> !is_char_boundary(bytes, j)
    }

    /// Where the backward search for a boundary starts: one before `index`
    /// clamped to the length, and never below 0.
    pub open spec fn prev_start(len: nat, index: usize) -> nat {
        let m = if index < len {
            index as nat
        } else {
            len
        };
        if m > 0 {
            (m - 1) as nat
        } else {
            0
        }
    }

    /// Balanced: the depth is below 92 and the length is at least the Fibonacci
    /// number at index depth + 2.
    pub open spec fn spec_is_balanced(self) -> bool {
        self.spec_depth() < 92 && fib(self.spec_depth() + 2) <= self@.len()
    }

    /// Whether the rope is balanced.
    pub fn is_balanced(&self) -> (res: bool)
        requires
            self.is_tree(),
        ensures
            res == self.spec_is_balanced(),
    {
        let depth: usize = self.depth();
        if depth >= 92 {
            return false;
        }
        let table = fibonacci_sequence(depth + 3);
        let n: usize = self.len();
        table[depth + 2] <= n as u64
    }

    /// The leaves, from left to right.
    pub open spec fn spec_leaves(self) -> Seq<Rope>
        decreases self,
    {
        match self {
            Rope::Leaf(_) => seq![self],
            Rope::Node { left, right, .. } => (match left {
                Some(l) => (*l).spec_leaves(),
                None => Seq::empty(),
            }) + (match right {
                Some(r) => (*r).spec_leaves(),
                None => Seq::empty(),
            }),
        }
    }

    pub open spec fn opt_leaves(o: Option<Rope>) -> Seq<Rope> {
        match o {
            Some(r) => r.spec_leaves(),
            None => Seq::empty(),
        }
    }

    /// The concatenated bytes of a sequence of ropes.
    pub open spec fn concat_contents(s: Seq<Rope>) -> Seq<u8>
        decreases s.len(),
    {
        if s.len() == 0 {
            Seq::empty()
        } else {
            Self::concat_contents(s.drop_last()) + s.last().content()
        }
    }

    /// The concatenated characters of a sequence of ropes.
    pub open spec fn concat_texts(s: Seq<Rope>) -> Seq<char>
        decreases s.len(),
    {
        if s.len() == 0 {
            Seq::empty()
        } else {
            Self::concat_texts(s.drop_last()) + s.last().text()
        }
    }

    pub proof fn lemma_concat_texts_append(a: Seq<Rope>, b: Seq<Rope>)
        ensures
            Self::concat_texts(a + b) == Self::concat_texts(a) + Self::concat_texts(b),
        decreases b.len(),
    {
        if b.len() == 0 {
            assert(a + b =~= a);
        } else {
            assert((a + b).drop_last() =~= a + b.drop_last());
            Self::lemma_concat_texts_append(a, b.drop_last());
        }
    }

    /// The texts of the leaves spell the text of the rope.
    pub proof fn lemma_leaves_text(&self)
        requires
            self.is_tree(),
        ensures
            Self::concat_texts(self.spec_leaves()) == self.text(),
        decreases self,
    {
        match self {
            Rope::Leaf(_) => {
                let s1 = seq![*self];
                assert(s1.drop_last() =~= Seq::<Rope>::empty());
                assert(Self::concat_texts(Seq::<Rope>::empty()) =~= Seq::<char>::empty());
                assert(Self::concat_texts(s1) =~= self.text());
            },
            Rope::Node { left, right, .. } => {
                match left {
                    Some(l) => (*l).lemma_leaves_text(),
                    None => {},
                }
                match right {
                    Some(r) => (*r).lemma_leaves_text(),
                    None => {},
                }
                Self::lemma_concat_texts_append(
                    Self::opt_leaves(self.left_opt()),
                    Self::opt_leaves(self.right_opt()),
                );
            },
        }
    }

    pub proof fn lemma_concat_contents_append(a: Seq<Rope>, b: Seq<Rope>)
        ensures
            Self::concat_contents(a + b) == Self::concat_contents(a) + Self::concat_contents(b),
        decreases b.len(),
    {
        if b.len() == 0 {
            assert(a + b =~= a);
        } else {
            assert((a + b).drop_last() =~= a + b.drop_last());
            Self::lemma_concat_contents_append(a, b.drop_last());
        }
    }

    /// The leaves are leaves, at least one; they spell the text, and they are all
    /// nonempty unless the whole rope is one empty leaf.
    pub proof fn lemma_leaves(&self)
        requires
            self.is_tree(),
        ensures
            self.spec_leaves().len() >= 1,
            Self::concat_contents(self.spec_leaves()) == self@,
            forall|i: int| 0 <= i < self.spec_leaves().len() ==> #[trigger] self.spec_leaves()[i] is Leaf,
            forall|i: int| 0 <= i < self.spec_leaves().len() ==> #[trigger] self.spec_leaves()[i].content().len() <= self@.len(),
            self is Node ==> forall|i: int|
                0 <= i < self.spec_leaves().len() ==> #[trigger] self.spec_leaves()[i].content().len() > 0,
            self is Leaf ==> self.spec_leaves() == seq![*self],
        decreases self,
    {
        match self {
            Rope::Leaf(_) => {
                let s1 = seq![*self];
                assert(s1.drop_last() =~= Seq::<Rope>::empty());
                assert(s1.last() == *self);
                assert(Self::concat_contents(Seq::<Rope>::empty()) =~= Seq::<u8>::empty());
                assert(Self::concat_contents(s1) =~= self.content());
            },
            Rope::Node { left, right, .. } => {
                self.lemma_node_parts();
                let ll = Self::opt_leaves(self.left_opt());
                let rl = Self::opt_leaves(self.right_opt());
                match left {
                    Some(l) => (*l).lemma_leaves(),
                    None => {},
                }
                match right {
                    Some(r) => (*r).lemma_leaves(),
                    None => {},
                }
                Self::lemma_concat_contents_append(ll, rl);
                assert forall|i: int| 0 <= i < self.spec_leaves().len() implies #[trigger] self.spec_leaves()[i] is Leaf
                    && self.spec_leaves()[i].content().len() <= self@.len()
                    && self.spec_leaves()[i].content().len() > 0 by {
                    if i < ll.len() {
                        assert(self.spec_leaves()[i] == ll[i]);
                    } else {
                        assert(self.spec_leaves()[i] == rl[i - ll.len()]);
                    }
                }
            },
        }
    }

    /// Collects references to the leaves, from left to right.
    pub fn leaves(&self) -> (res: Vec<&Self>)
        requires
            self.is_tree(),
        ensures
            res@.len() == self.spec_leaves().len(),
            forall|i: int| 0 <= i < res@.len() ==> *res@[i] == self.spec_leaves()[i],
    {
        let mut out: Vec<&Self> = Vec::new();
        self.push_leaf_refs(&mut out);
        out
    }

    fn push_leaf_refs<'a>(&'a self, out: &mut Vec<&'a Self>)
        requires
            self.is_tree(),
        ensures
            final(out)@.len() == old(out)@.len() + self.spec_leaves().len(),
            forall|i: int| 0 <= i < old(out)@.len() ==> final(out)@[i] == old(out)@[i],
            forall|i: int|
                0 <= i < self.spec_leaves().len() ==> *final(out)@[old(out)@.len() + i]
                    == self.spec_leaves()[i],
        decreases self,
    {
        match self {
            Self::Leaf(_) => {
                out.push(self);
            },
            Self::Node { left, right, .. } => {
                let ghost start = out@.len();
                match left {
                    Some(l) => l.push_leaf_refs(out),
                    None => {},
                }
                let ghost mid = out@.len();
                match right {
                    Some(r) => r.push_leaf_refs(out),
                    None => {},
                }
                proof {
                    let ll = Self::opt_leaves(self.left_opt());
                    let rl = Self::opt_leaves(self.right_opt());
                    assert forall|i: int| 0 <= i < self.spec_leaves().len() implies *out@[start + i]
                        == self.spec_leaves()[i] by {
                        if i < ll.len() {
                            assert(self.spec_leaves()[i] == ll[i]);
                        } else {
                            assert(self.spec_leaves()[i] == rl[i - ll.len()]);
                            assert(start + i == mid + (i - ll.len()));
                        }
                    }
                }
            },
        }
    }

    /// The text of each leaf, from left to right.
    pub fn leaves_str(&self) -> (res: Vec<&str>)
        requires
            self.is_tree(),
        ensures
            res@.len() == self.spec_leaves().len(),
            forall|i: int| 0 <= i < res@.len() ==> res@[i]@ == self.spec_leaves()[i].text(),
    {
        let leaves = self.leaves();
        proof {
            self.lemma_leaves();
        }
        let mut out: Vec<&str> = Vec::new();
        let mut i: usize = 0;
        while i < leaves.len()
            invariant
                i <= leaves@.len(),
                leaves@.len() == self.spec_leaves().len(),
                forall|k: int| 0 <= k < leaves@.len() ==> *leaves@[k] == self.spec_leaves()[k],
                forall|k: int| 0 <= k < self.spec_leaves().len() ==> #[trigger] self.spec_leaves()[k] is Leaf,
                out@.len() == i,
                forall|k: int| 0 <= k < i ==> out@[k]@ == self.spec_leaves()[k].text(),
            decreases leaves@.len() - i,
        {
            let leaf: &Self = leaves[i];
            match leaf {
                Self::Leaf(s) => {
                    out.push(&**s);
                },
                Self::Node { .. } => {
                    assert(self.spec_leaves()[i as int] is Leaf);
                },
            }
            i += 1;
        }
        out
    }

    /// Takes the rope out of a shared pointer, cloning it when it is shared.
    fn unwrap_shared(r: Rc<Self>) -> (res: Self)
        ensures
            res == *r,
    {
        match Rc::try_unwrap(r) {
            Ok(v) => v,
            Err(shared) => (*shared).clone(),
        }
    }

    /// Takes the leaves out of the rope, from left to right.
    pub fn into_leaves(self) -> (res: Vec<Self>)
        requires
            self.is_tree(),
        ensures
            res@ == self.spec_leaves(),
    {
        let mut out: Vec<Self> = Vec::new();
        self.push_leaves(&mut out);
        assert(out@ =~= self.spec_leaves());
        out
    }

    fn push_leaves(self, out: &mut Vec<Self>)
        requires
            self.is_tree(),
        ensures
            final(out)@ == old(out)@ + self.spec_leaves(),
        decreases self,
    {
        let ghost me = self;
        match self {
            Self::Leaf(_) => {
                out.push(self);
            },
            Self::Node { left, right, .. } => {
                match left {
                    Some(l) => {
                        let lv = Self::unwrap_shared(l);
                        assert(decreases_to!(me => lv));
                        lv.push_leaves(out);
                    },
                    None => {},
                }
                match right {
                    Some(r) => {
                        let rv = Self::unwrap_shared(r);
                        assert(decreases_to!(me => rv));
                        rv.push_leaves(out);
                    },
                    None => {},
                }
                assert(out@ =~= old(out)@ + me.spec_leaves());
            },
        }
    }

    /// `r` is the balanced tree that `merge` builds from `s`: the single rope when
    /// there is one, else a node over the trees of the two halves.
    pub open spec fn is_merge_of(r: Rope, s: Seq<Rope>) -> bool
        decreases s.len(),
    {
        if s.len() <= 1 {
            s.len() == 1 && r == s[0]
        } else {
            let mid = s.len() / 2;
            &&& r is Node
            &&& (match r.left_opt() {
                Some(l) => Self::is_merge_of(l, s.take(mid as int)),
                None => false,
            })
            &&& (match r.right_opt() {
                Some(x) => Self::is_merge_of(x, s.skip(mid as int)),
                None => false,
            })
        }
    }

    /// Builds a balanced tree over the given ropes, splitting them in halves.
    fn merge(leaves: Vec<Self>) -> (res: Self)
        requires
            leaves@.len() >= 1,
            forall|i: int| 0 <= i < leaves@.len() ==> (#[trigger] leaves@[i]).wf(),
            forall|i: int| 0 <= i < leaves@.len() ==> (#[trigger] leaves@[i]) is Leaf,
            leaves@.len() > 1 ==> forall|i: int|
                0 <= i < leaves@.len() ==> (#[trigger] leaves@[i]).content().len() > 0,
            Self::concat_contents(leaves@).len() <= usize::MAX,
        ensures
            res.is_tree(),
            res@ == Self::concat_contents(leaves@),
            res.spec_depth() < leaves@.len(),
            Self::is_merge_of(res, leaves@),
            res.wf(),
        decreases leaves@.len(),
    {
        let ghost all = leaves@;
        let mut leaves = leaves;
        let range: usize = leaves.len();
        if range == 1 {
            proof {
                assert(all.drop_last() =~= Seq::<Rope>::empty());
                assert(Self::concat_contents(Seq::<Rope>::empty()) =~= Seq::<u8>::empty());
                assert(Self::concat_contents(all) =~= all[0].content());
            }
            return leaves.pop().unwrap();
        }
        let mid: usize = range / 2;
        let right_part = leaves.split_off(mid);
        proof {
            assert(leaves@ =~= all.take(mid as int));
            assert(right_part@ =~= all.skip(mid as int));
            assert(all =~= leaves@ + right_part@);
            Self::lemma_concat_contents_append(leaves@, right_part@);
        }
        let a = Self::merge(leaves);
        let b = Self::merge(right_part);
        proof {
            a.lemma_content_text();
            b.lemma_content_text();
        }
        Self::node(Some(a), Some(b))
    }

    /// Rebuilds the rope as a balanced tree over its leaves, unless it is balanced already.
    pub fn rebalance(self) -> (res: Self)
        requires
            self.is_tree(),
            self@.len() <= usize::MAX,
        ensures
            res.wf(),
            res@ == self@,
            self.spec_is_balanced() ==> res == self,
            !self.spec_is_balanced() ==> Self::is_merge_of(res, self.spec_leaves()),
            self@.len() > 0 ==> res.spec_is_balanced(),
    {
        if !self.is_balanced() {
            proof {
                self.lemma_leaves();
            }
            let leaves = self.into_leaves();
            proof {
                assert forall|i: int| 0 <= i < leaves@.len() implies (#[trigger] leaves@[i]).wf() by {
                    assert(leaves@[i] is Leaf);
                }
            }
            let merged = Self::merge(leaves);
            proof {
                if self@.len() > 0 {
                    assert(self is Node) by {
                        if self is Leaf {
                            assert(self.spec_depth() == 0);
                            assert(fib(2) == 1);
                        }
                    }
                    lemma_merge_balanced(merged, self.spec_leaves());
                }
            }
            return merged;
        }
        self
    }

    /// `res` is what rebalancing `r` gives: `r` itself when it is balanced, else the
    /// balanced tree over its leaves.
    pub open spec fn is_rebalanced(res: Rope, r: Rope) -> bool {
        &&& r.spec_is_balanced() ==> res == r
        &&& !r.spec_is_balanced() ==> Self::is_merge_of(res, r.spec_leaves())
    }

    /// `n` is the node over `left` and `right` that `node` builds, empty leaves dropped.
    pub open spec fn is_node_of(n: Rope, left: Option<Rope>, right: Option<Rope>) -> bool {
        &&& n is Node
        &&& n.is_tree()
        &&& n.left_opt() == Self::spec_filter_empty(left)
        &&& n.right_opt() == Self::spec_filter_empty(right)
    }

    /// `res` is the node over `left` and `right`, rebalanced.
    pub open spec fn is_joined(res: Rope, left: Option<Rope>, right: Option<Rope>) -> bool {
        exists|n: Rope| Self::is_node_of(n, left, right) && #[trigger] Self::is_rebalanced(res, n)
    }

    /// `o` is `q` rebalanced, or both are absent.
    pub open spec fn opt_rebalanced(o: Option<Rope>, q: Option<Rope>) -> bool {
        match q {
            Some(x) => (o matches Some(y) && Self::is_rebalanced(y, x)),
            None => o is None,
        }
    }

    /// Joins two ropes under a new node and rebalances the result.
    pub fn concat(self, other: Self) -> (res: Self)
        requires
            self.wf(),
            other.wf(),
            self@.len() + other@.len() > 0,
            self@.len() + other@.len() <= usize::MAX,
        ensures
            res.wf(),
            res@ == self@ + other@,
            res.spec_is_balanced(),
            Self::is_joined(res, Some(self), Some(other)),
    {
        let n = Self::node(Some(self), Some(other));
        let res = n.rebalance();
        assert(Self::is_rebalanced(res, n));
        res
    }

    /// Joins two ropes, returning one of them unchanged when the other is empty.
    pub fn join(self, other: Self) -> (res: Self)
        requires
            self.wf(),
            other.wf(),
            self@.len() + other@.len() <= usize::MAX,
        ensures
            res.wf(),
            res@ == self@ + other@,
            self@.len() == 0 ==> res == other,
            self@.len() > 0 && other@.len() == 0 ==> res == self,
    {
        if self.is_empty() {
            proof {
                assert(self@ + other@ =~= other@);
            }
            other
        } else if other.is_empty() {
            proof {
                assert(self@ + other@ =~= self@);
            }
            self
        } else {
            self.concat(other)
        }
    }

    /// Where `split` can cut without cutting through a character of a leaf.
    pub open spec fn can_split(self, index: int) -> bool
        decreases self,
    {
        match self {
            Rope::Leaf(s) => is_char_boundary((*s).spec_bytes(), index),
            Rope::Node { left, right, weight, .. } => {
                if index < weight {
                    match left {
                        Some(l) => (*l).can_split(index),
                        None => false,
                    }
                } else if index == weight {
                    true
                } else {
                    match right {
                        Some(r) => (*r).can_split(index - weight),
                        None => true,
                    }
                }
            },
        }
    }

    /// Within the text, `split` can cut exactly at the character boundaries.
    pub proof fn lemma_can_split(&self, index: int)
        requires
            self.is_tree(),
            0 <= index <= self@.len(),
        ensures
            self.can_split(index) <==> is_char_boundary(self@, index),
        decreases self,
    {
        match self {
            Rope::Leaf(_) => {},
            Rope::Node { left, right, weight, .. } => {
                self.lemma_node_parts();
                let a = Self::opt_content(self.left_opt());
                let b = Self::opt_content(self.right_opt());
                lemma_boundary_concat(a, b, index);
                if index < *weight {
                    match left {
                        Some(l) => (*l).lemma_can_split(index),
                        None => {},
                    }
                } else if index == *weight {
                    vstd::utf8::is_char_boundary_start_end_of_seq(a);
                } else {
                    match right {
                        Some(r) => (*r).lemma_can_split(index - *weight),
                        None => {},
                    }
                }
            },
        }
    }

    /// The length of the part before a cut at `index`.
    pub open spec fn clamp(len: nat, index: int) -> int {
        if index < len {
            index
        } else {
            len as int
        }
    }

    /// A part of a split: absent exactly when its text is empty, and well-formed.
    pub open spec fn is_part(o: Option<Rope>, bytes: Seq<u8>) -> bool {
        &&& Self::opt_content(o) == bytes
        &&& (o is None <==> bytes.len() == 0)
        &&& (o matches Some(r) ==> r.wf())
    }

    /// A part of a split of `r` is balanced, unless it is one of `r`'s own subtrees,
    /// handed back as it was.
    pub open spec fn is_split_shape(r: Rope, o: Option<Rope>) -> bool {
        o matches Some(x) ==> x.spec_is_balanced() || r.left_opt() == Some(x) || r.right_opt()
            == Some(x)
    }

    /// `p` is what splitting `r` at `index` gives: the text before and from `index`,
    /// each absent when empty. A leaf splits into leaves; a node cut at its left
    /// side's length hands back its children; otherwise the child holding `index`
    /// is split, the part on the far side is put under a new node with the other
    /// child, and both parts are rebalanced.
    pub open spec fn is_split_of(r: Rope, index: int, p: (Option<Rope>, Option<Rope>)) -> bool
        decreases r,
    {
        &&& Self::is_part(p.0, r@.take(Self::clamp(r@.len(), index)))
        &&& Self::is_part(p.1, r@.skip(Self::clamp(r@.len(), index)))
        &&& match r {
            Rope::Leaf(_) => (p.0 matches Some(x) ==> x is Leaf) && (p.1 matches Some(y) ==> y is Leaf),
            Rope::Node { left, right, weight, .. } => if index < weight {
                match left {
                    Some(l) => exists|q: (Option<Rope>, Option<Rope>)|
                        Self::is_split_of(*l, index, q) && #[trigger] Self::opt_rebalanced(p.0, q.0)
                            && (p.1 matches Some(y) && Self::is_joined(y, q.1, r.right_opt())),
                    None => p == (None::<Rope>, r.right_opt()),
                }
            } else if index == weight {
                p == (r.left_opt(), r.right_opt())
            } else {
                match right {
                    Some(x) => exists|q: (Option<Rope>, Option<Rope>)|
                        Self::is_split_of(*x, index - weight, q) && (p.0 matches Some(y)
                            && Self::is_joined(y, r.left_opt(), q.0)) && #[trigger] Self::opt_rebalanced(
                            p.1,
                            q.1,
                        ),
                    None => p == (r.left_opt(), None::<Rope>),
                }
            },
        }
    }

    /// Cuts the rope into the text before `index` and the text from `index` on; an
    /// empty part is `None`. Parts made of new nodes are rebalanced.
    #[verifier::rlimit(80)]
    #[verifier::spinoff_prover]
    pub fn split(self, index: usize) -> (res: (Option<Self>, Option<Self>))
        requires
            self.wf(),
            self.can_split(index as int),
        ensures
            Self::is_part(res.0, self@.take(Self::clamp(self@.len(), index as int))),
            Self::is_part(res.1, self@.skip(Self::clamp(self@.len(), index as int))),
            Self::is_split_shape(self, res.0),
            Self::is_split_shape(self, res.1),
            Self::is_split_of(self, index as int, res),
        decreases self,
    {
        let ghost me = self;
        proof {
            self.lemma_content_text();
        }
        match self {
            Self::Leaf(s) => {
                let (left_str, right_str) = s.split_at(index);
                proof {
                    lemma_encode_len(left_str@);
                    lemma_encode_len(right_str@);
                }
                let left_res = if left_str.is_empty() {
                    None
                } else {
                    Some(Self::leaf(left_str))
                };
                let right_res = if right_str.is_empty() {
                    None
                } else {
                    Some(Self::leaf(right_str))
                };
                proof {
                    assert(fib(2) == 1);
                    assert(Self::is_split_of(me, index as int, (left_res, right_res)));
                }
                (left_res, right_res)
            },
            Self::Node { left, right, weight, .. } => {
                proof {
                    me.lemma_node_parts();
                    me.lemma_child_wf();
                }
                let ghost a = Self::opt_content(me.left_opt());
                let ghost b = Self::opt_content(me.right_opt());
                let left_child: Option<Self> = match left {
                    Some(l) => Some(Self::unwrap_shared(l)),
                    None => None,
                };
                let right_child: Option<Self> = match right {
                    Some(r) => Some(Self::unwrap_shared(r)),
                    None => None,
                };
                if index < weight {
                    match left_child {
                        Some(l) => {
                            assert(decreases_to!(me => l));
                            let (split_left, split_right) = l.split(index);
                            proof {
                                assert(a.take(index as int) =~= me@.take(index as int));
                                assert(me@.skip(index as int) =~= a.skip(index as int) + b);
                            }
                            let ghost q = (split_left, split_right);
                            let first = match split_left {
                                Some(x) => Some(x.rebalance()),
                                None => None,
                            };
                            let joined = Self::node(split_right, right_child);
                            let ghost n = joined;
                            let second = joined.rebalance();
                            proof {
                                assert(right_child == me.right_opt());
                                assert(Self::is_node_of(n, q.1, me.right_opt()));
                                assert(Self::is_rebalanced(second, n));
                                assert(Self::is_joined(second, q.1, me.right_opt()));
                                assert(Self::opt_rebalanced(first, q.0));
                                assert(me@.skip(index as int) =~= me@.skip(Self::clamp(me@.len(), index as int)));
                                Self::lemma_split_of_left(me, index as int, l, q, first, second);
                            }
                            (first, Some(second))
                        },
                        None => (None, right_child),
                    }
                } else if index == weight {
                    proof {
                        assert(a =~= me@.take(index as int));
                        assert(b =~= me@.skip(index as int));
                    }
                    (left_child, right_child)
                } else {
                    match right_child {
                        Some(r) => {
                            assert(decreases_to!(me => r));
                            let (split_left, split_right) = r.split(index - weight);
                            let ghost k = Self::clamp(b.len(), index - weight);
                            proof {
                                assert(me@.take(Self::clamp(me@.len(), index as int)) =~= a + b.take(k));
                                assert(me@.skip(Self::clamp(me@.len(), index as int)) =~= b.skip(k));
                            }
                            let ghost q = (split_left, split_right);
                            let joined = Self::node(left_child, split_left);
                            let ghost n = joined;
                            let first = joined.rebalance();
                            let second = match split_right {
                                Some(x) => Some(x.rebalance()),
                                None => None,
                            };
                            proof {
                                assert(left_child == me.left_opt());
                                assert(Self::is_node_of(n, me.left_opt(), q.0));
                                assert(Self::is_rebalanced(first, n));
                                assert(Self::is_joined(first, me.left_opt(), q.0));
                                assert(Self::opt_rebalanced(second, q.1));
                                Self::lemma_split_of_right(me, index as int, r, q, first, second);
                            }
                            (Some(first), second)
                        },
                        None => {
                            proof {
                                assert(a =~= me@.take(Self::clamp(me@.len(), index as int)));
                                assert(me@.skip(Self::clamp(me@.len(), index as int)).len() == 0);
                            }
                            (left_child, None)
                        },
                    }
                }
            },
        }
    }

    /// The split of a node within its left side, put together from the split of its
    /// left child.
    proof fn lemma_split_of_left(
        me: Rope,
        index: int,
        l: Rope,
        q: (Option<Rope>, Option<Rope>),
        first: Option<Rope>,
        second: Rope,
    )
        requires
            me matches Rope::Node { weight, .. } && index < weight,
            me.left_opt() == Some(l),
            Self::is_split_of(l, index, q),
            Self::opt_rebalanced(first, q.0),
            Self::is_joined(second, q.1, me.right_opt()),
            Self::is_part(first, me@.take(Self::clamp(me@.len(), index))),
            Self::is_part(Some(second), me@.skip(Self::clamp(me@.len(), index))),
        ensures
            Self::is_split_of(me, index, (first, Some(second))),
    {
        reveal_with_fuel(Rope::is_split_of, 2);
        match me {
            Rope::Node { left: Some(lrc), .. } => {
                assert(*lrc == l);
                assert(Self::is_split_of(*lrc, index, q));
                assert(Self::opt_rebalanced(first, q.0));
            },
            _ => {},
        }
    }

    /// The split of a node within its right side, put together from the split of its
    /// right child.
    proof fn lemma_split_of_right(
        me: Rope,
        index: int,
        r: Rope,
        q: (Option<Rope>, Option<Rope>),
        first: Rope,
        second: Option<Rope>,
    )
        requires
            me matches Rope::Node { weight, .. } && index > weight && Self::is_split_of(
                r,
                index - weight,
                q,
            ),
            me.right_opt() == Some(r),
            Self::is_joined(first, me.left_opt(), q.0),
            Self::opt_rebalanced(second, q.1),
            Self::is_part(Some(first), me@.take(Self::clamp(me@.len(), index))),
            Self::is_part(second, me@.skip(Self::clamp(me@.len(), index))),
        ensures
            Self::is_split_of(me, index, (Some(first), second)),
    {
        reveal_with_fuel(Rope::is_split_of, 2);
        match me {
            Rope::Node { right: Some(rrc), weight, .. } => {
                assert(*rrc == r);
                assert(Self::is_split_of(*rrc, index - weight, q));
                assert(Self::opt_rebalanced(second, q.1));
            },
            _ => {},
        }
    }

    /// `res` is what inserting `other` between the parts `p` of a split gives: the
    /// parts and `other` joined from left to right, each join rebalanced.
    pub open spec fn is_inserted(res: Rope, p: (Option<Rope>, Option<Rope>), other: Rope) -> bool {
        match p {
            (Some(l), Some(r)) => exists|m: Rope|
                #[trigger] Self::is_joined(m, Some(l), Some(other)) && Self::is_joined(
                    res,
                    Some(m),
                    Some(r),
                ),
            (Some(l), None) => Self::is_joined(res, Some(l), Some(other)),
            (None, Some(r)) => Self::is_joined(res, Some(other), Some(r)),
            (None, None) => res == other,
        }
    }

    /// `res` is `other` inserted into `r` at `at`: `r` split there, then joined again
    /// around `other`.
    pub open spec fn is_insertion(res: Rope, r: Rope, at: int, other: Rope) -> bool {
        exists|p: (Option<Rope>, Option<Rope>)|
            #[trigger] Self::is_split_of(r, at, p) && Self::is_inserted(res, p, other)
    }

    /// `res` is what is left of the parts `l` and `r` after a removal: the two joined and
    /// rebalanced, the one that is there, or an empty leaf.
    pub open spec fn is_removed(res: Rope, l: Option<Rope>, r: Option<Rope>) -> bool {
        match (l, r) {
            (Some(a), Some(b)) => Self::is_joined(res, Some(a), Some(b)),
            (Some(a), None) => res == a,
            (None, Some(b)) => res == b,
            (None, None) => res is Leaf,
        }
    }

    /// `res` is `r` with the bytes from `start` to `end` taken out: `r` split at `start`,
    /// the part after it split at the removed length, and the outer parts joined.
    pub open spec fn is_removal(res: Rope, r: Rope, start: int, end: int) -> bool {
        exists|p: (Option<Rope>, Option<Rope>)|
            #[trigger] Self::is_split_of(r, start, p) && match p.1 {
                Some(m) => exists|p2: (Option<Rope>, Option<Rope>)|
                    #[trigger] Self::is_split_of(m, end - start, p2) && Self::is_removed(
                        res,
                        p.0,
                        p2.1,
                    ),
                None => Self::is_removed(res, p.0, None),
            }
    }

    /// Inserts the text of `other` at byte `index`, clamped to the length.
    pub fn insert_rope(self, index: usize, other: Rope) -> (res: Self)
        requires
            self.wf(),
            other.wf(),
            self@.len() + other@.len() <= usize::MAX,
            other@.len() > 0 ==> is_char_boundary(self@, Self::clamp(self@.len(), index as int)),
        ensures
            res.wf(),
            res@ == self@.take(Self::clamp(self@.len(), index as int)) + other@ + self@.skip(
                Self::clamp(self@.len(), index as int),
            ),
            other@.len() == 0 ==> res == self,
            self@.len() == 0 && other@.len() > 0 ==> res == other,
            self@.len() > 0 && other@.len() > 0 ==> res.spec_is_balanced(),
            other@.len() > 0 ==> Self::is_insertion(
                res,
                self,
                Self::clamp(self@.len(), index as int),
                other,
            ),
    {
        if other.is_empty() {
            proof {
                let k = Self::clamp(self@.len(), index as int);
                assert(self@.take(k) + other@ + self@.skip(k) =~= self@);
            }
            return self;
        }
        let n: usize = self.len();
        let start: usize = if index < n {
            index
        } else {
            n
        };
        let ghost whole = self@;
        proof {
            self.lemma_can_split(start as int);
        }
        let ghost me = self;
        let parts = self.split(start);
        let ghost p = parts;
        let (left_tree, right_tree) = parts;
        match (left_tree, right_tree) {
            (Some(l), Some(r)) => {
                let ghost o = other;
                let lo = l.concat(other);
                proof {
                    assert(whole =~= l@ + r@);
                }
                let res = lo.concat(r);
                proof {
                    assert(Self::is_joined(lo, Some(l), Some(o)));
                    assert(Self::is_inserted(res, p, o));
                    assert(Self::is_insertion(res, me, start as int, o));
                }
                res
            },
            (Some(l), None) => {
                let ghost o = other;
                let res = l.concat(other);
                proof {
                    assert(Self::is_inserted(res, p, o));
                    assert(Self::is_insertion(res, me, start as int, o));
                }
                res
            },
            (None, Some(r)) => {
                let ghost o = other;
                let res = other.concat(r);
                proof {
                    assert(Self::is_inserted(res, p, o));
                    assert(Self::is_insertion(res, me, start as int, o));
                }
                res
            },
            (None, None) => {
                proof {
                    assert(Self::is_inserted(other, p, other));
                    assert(Self::is_insertion(other, me, start as int, other));
                }
                other
            },
        }
    }

    /// Inserts `str` at byte `index`, clamped to the length.
    pub fn insert_str(self, index: usize, str: &str) -> (res: Self)
        requires
            self.wf(),
            self@.len() + str.spec_bytes().len() <= usize::MAX,
            str@.len() > 0 ==> is_char_boundary(self@, Self::clamp(self@.len(), index as int)),
        ensures
            res.wf(),
            res@ == self@.take(Self::clamp(self@.len(), index as int)) + str.spec_bytes()
                + self@.skip(Self::clamp(self@.len(), index as int)),
            str@.len() == 0 ==> res == self,
            str@.len() > 0 ==> res.spec_is_balanced(),
            str@.len() > 0 ==> exists|lf: Rope|
                lf is Leaf && lf@ == str.spec_bytes() && #[trigger] Self::is_insertion(
                    res,
                    self,
                    Self::clamp(self@.len(), index as int),
                    lf,
                ),
    {
        let leaf = Self::leaf(str);
        let ghost lf = leaf;
        proof {
            leaf.lemma_content_text();
            assert(fib(2) == 1);
        }
        let res = self.insert_rope(index, leaf);
        proof {
            if str@.len() > 0 {
                assert(Self::is_insertion(res, self, Self::clamp(self@.len(), index as int), lf));
            }
        }
        res
    }

    /// Removes the `len` bytes from `index` on, both clamped to the text.
    pub fn remove(self, index: usize, len: usize) -> (res: Self)
        requires
            self.wf(),
            Self::clamp(self@.len(), index as int) < Self::range_end(self@.len(), index, len)
                ==> is_char_boundary(self@, Self::clamp(self@.len(), index as int))
                && is_char_boundary(self@, Self::range_end(self@.len(), index, len)),
        ensures
            res.wf(),
            res@ == self@.take(Self::clamp(self@.len(), index as int)) + self@.skip(
                Self::range_end(self@.len(), index, len),
            ),
            Self::clamp(self@.len(), index as int) >= Self::range_end(self@.len(), index, len)
                ==> res == self,
            Self::clamp(self@.len(), index as int) < Self::range_end(self@.len(), index, len)
                ==> Self::is_removal(
                res,
                self,
                Self::clamp(self@.len(), index as int),
                Self::range_end(self@.len(), index, len),
            ),
    {
        let n: usize = self.len();
        let start: usize = if index < n {
            index
        } else {
            n
        };
        let e: usize = start.saturating_add(len);
        let end: usize = if e < n {
            e
        } else {
            n
        };
        if start >= end {
            proof {
                assert(self@.take(start as int) + self@.skip(end as int) =~= self@);
            }
            return self;
        }
        let ghost whole = self@;
        proof {
            self.lemma_content_text();
            self.lemma_can_split(start as int);
            vstd::utf8::is_char_boundary_start_end_of_seq(whole);
            crate::utf8::lemma_boundary_subrange(whole, start as int, whole.len() as int, end as int);
            assert(whole.subrange(start as int, whole.len() as int) =~= whole.skip(start as int));
        }
        let ghost me = self;
        let p = self.split(start);
        let ghost gp = p;
        let (lhs_l, lhs_r) = p;
        let ghost mut p2 = (None::<Rope>, None::<Rope>);
        let rhs_r = match lhs_r {
            Some(m) => {
                proof {
                    m.lemma_can_split((end - start) as int);
                }
                let q = m.split(end - start);
                proof {
                    p2 = q;
                }
                let (_, tail) = q;
                proof {
                    assert(m@.skip((end - start) as int) =~= whole.skip(end as int));
                }
                tail
            },
            None => None,
        };
        proof {
            match gp.1 {
                Some(m) => {
                    assert(Self::is_split_of(m, end - start, p2));
                },
                None => {},
            }
        }
        proof {
            assert(whole.take(start as int) + whole.skip(end as int) =~= Self::opt_content(lhs_l)
                + Self::opt_content(rhs_r));
        }
        let ghost left_part = lhs_l;
        let ghost right_part = rhs_r;
        let res = match (lhs_l, rhs_r) {
            (Some(l), Some(r)) => l.concat(r),
            (Some(l), None) => {
                assert(l@ + Seq::<u8>::empty() =~= l@);
                l
            },
            (None, Some(r)) => {
                assert(Seq::<u8>::empty() + r@ =~= r@);
                r
            },
            (None, None) => {
                assert(Seq::<u8>::empty() + Seq::<u8>::empty() =~= Seq::<u8>::empty());
                Self::default()
            },
        };
        proof {
            assert(Self::is_removed(res, left_part, right_part));
            assert(Self::is_split_of(me, start as int, gp));
            assert(Self::is_removal(res, me, start as int, end as int));
        }
        res
    }

    /// The end of the byte range `index .. index + len`, both clamped to the text.
    pub open spec fn range_end(total: nat, index: usize, len: usize) -> int {
        let start = Self::clamp(total, index as int);
        let e = if start + len > usize::MAX {
            usize::MAX as int
        } else {
            start + len
        };
        Self::clamp(total, e)
    }

    /// `res` is what slicing `r` from `start` to `end` gives: `r` itself for the whole
    /// of it; a new leaf within a leaf; the slice of the child that holds the range;
    /// and, for a range across both children, a new node over the slices of the two,
    /// not rebalanced.
    pub open spec fn is_slice_of(r: Rope, start: int, end: int, res: Rope) -> bool
        decreases r,
    {
        if start == 0 && end == r@.len() {
            res == r
        } else {
            match r {
                Rope::Leaf(_) => res is Leaf,
                Rope::Node { left, right, .. } => {
                    let ll = Self::child_content(left).len() as int;
                    if end <= ll {
                        match left {
                            Some(x) => Self::is_slice_of(*x, start, end, res),
                            None => res is Leaf,
                        }
                    } else if start >= ll {
                        match right {
                            Some(x) => Self::is_slice_of(*x, start - ll, end - ll, res),
                            None => res is Leaf,
                        }
                    } else {
                        exists|a: Option<Rope>, b: Option<Rope>|
                            #[trigger] Self::is_node_of(res, a, b) && (match left {
                                Some(x) => (a matches Some(y) && Self::is_slice_of(
                                    *x,
                                    start,
                                    ll,
                                    y,
                                )),
                                None => a is None,
                            }) && (match right {
                                Some(x) => (b matches Some(y) && Self::is_slice_of(
                                    *x,
                                    0,
                                    end - ll,
                                    y,
                                )),
                                None => b is None,
                            })
                    }
                },
            }
        }
    }

    /// The text of the byte range `index .. index + len`, both clamped to the text,
    /// as a rope sharing the subtrees that lie wholly inside the range.
    pub fn slice(&self, index: usize, len: usize) -> (res: Self)
        requires
            self.wf(),
            Self::clamp(self@.len(), index as int) < Self::range_end(self@.len(), index, len)
                ==> is_char_boundary(self@, Self::clamp(self@.len(), index as int))
                && is_char_boundary(self@, Self::range_end(self@.len(), index, len)),
        ensures
            res.wf(),
            res@ == self@.subrange(
                Self::clamp(self@.len(), index as int),
                Self::range_end(self@.len(), index, len),
            ),
            res.spec_depth() <= self.spec_depth(),
            Self::clamp(self@.len(), index as int) >= Self::range_end(self@.len(), index, len)
                ==> res is Leaf,
            Self::clamp(self@.len(), index as int) == 0 && Self::range_end(self@.len(), index, len)
                == self@.len() && self@.len() > 0 ==> res == *self,
            Self::clamp(self@.len(), index as int) < Self::range_end(self@.len(), index, len)
                ==> Self::is_slice_of(
                *self,
                Self::clamp(self@.len(), index as int),
                Self::range_end(self@.len(), index, len),
                res,
            ),
    {
        let n: usize = self.len();
        let start: usize = if index < n {
            index
        } else {
            n
        };
        let e: usize = start.saturating_add(len);
        let end: usize = if e < n {
            e
        } else {
            n
        };
        if start >= end {
            return Self::default();
        }
        self.slice_range(start, end)
    }

    /// The text of the nonempty byte range `start .. end` as a rope.
    fn slice_range(&self, start: usize, end: usize) -> (res: Self)
        requires
            self.wf(),
            start < end <= self@.len(),
            is_char_boundary(self@, start as int),
            is_char_boundary(self@, end as int),
        ensures
            res.wf(),
            res@ == self@.subrange(start as int, end as int),
            res.spec_depth() <= self.spec_depth(),
            start == 0 && end == self@.len() ==> res == *self,
            Self::is_slice_of(*self, start as int, end as int, res),
        decreases self,
    {
        let n: usize = self.len();
        if start == 0 && end == n {
            proof {
                assert(self@.subrange(0, n as int) =~= self@);
            }
            return self.clone();
        }
        proof {
            self.lemma_content_text();
        }
        match self {
            Self::Leaf(s) => {
                let (head, _) = s.split_at(end);
                proof {
                    crate::utf8::lemma_boundary_subrange_prefix(s.spec_bytes(), end as int, start as int);
                }
                let (_, mid) = head.split_at(start);
                proof {
                    assert(mid.spec_bytes() =~= self@.subrange(start as int, end as int));
                }
                Self::leaf(mid)
            },
            Self::Node { left, right, .. } => {
                proof {
                    self.lemma_node_parts();
                    self.lemma_child_wf();
                }
                let ghost a = Self::opt_content(self.left_opt());
                let ghost b = Self::opt_content(self.right_opt());
                let l_len: usize = match left {
                    Some(x) => x.len(),
                    None => 0,
                };
                proof {
                    lemma_boundary_concat(a, b, start as int);
                    lemma_boundary_concat(a, b, end as int);
                    vstd::utf8::is_char_boundary_start_end_of_seq(a);
                    vstd::utf8::is_char_boundary_start_end_of_seq(b);
                }
                if end <= l_len {
                    match left {
                        Some(x) => {
                            proof {
                                assert(self@.subrange(start as int, end as int) =~= a.subrange(
                                    start as int,
                                    end as int,
                                ));
                            }
                            x.slice_range(start, end)
                        },
                        None => Self::default(),
                    }
                } else if start >= l_len {
                    match right {
                        Some(x) => {
                            proof {
                                assert(self@.subrange(start as int, end as int) =~= b.subrange(
                                    start - l_len,
                                    end - l_len,
                                ));
                            }
                            x.slice_range(start - l_len, end - l_len)
                        },
                        None => Self::default(),
                    }
                } else {
                    Self::slice_straddle(self, start, end, l_len)
                }
            },
        }
    }

    /// The range crosses from the left subtree into the right one.
    fn slice_straddle(node: &Self, start: usize, end: usize, l_len: usize) -> (res: Self)
        requires
            node.wf(),
            node is Node,
            l_len == Self::opt_content(node.left_opt()).len(),
            start < l_len < end <= node@.len(),
            !(start == 0 && end == node@.len()),
            is_char_boundary(node@, start as int),
            is_char_boundary(node@, end as int),
        ensures
            res.wf(),
            res@ == node@.subrange(start as int, end as int),
            res.spec_depth() <= node.spec_depth(),
            Self::is_slice_of(*node, start as int, end as int, res),
        decreases node, 0nat,
    {
        proof {
            node.lemma_content_text();
            node.lemma_node_parts();
            node.lemma_child_wf();
        }
        let ghost a = Self::opt_content(node.left_opt());
        let ghost b = Self::opt_content(node.right_opt());
        proof {
            lemma_boundary_concat(a, b, start as int);
            lemma_boundary_concat(a, b, end as int);
            vstd::utf8::is_char_boundary_start_end_of_seq(a);
            vstd::utf8::is_char_boundary_start_end_of_seq(b);
        }
        match node {
            Self::Node { left, right, .. } => {
                let first: Option<Self> = match left {
                    Some(x) => Some(x.slice_range(start, l_len)),
                    None => None,
                };
                let second: Option<Self> = match right {
                    Some(x) => Some(x.slice_range(0, end - l_len)),
                    None => None,
                };
                proof {
                    assert(node@.subrange(start as int, end as int) =~= a.subrange(
                        start as int,
                        l_len as int,
                    ) + b.subrange(0, end - l_len));
                }
                let res = Self::node(first, second);
                proof {
                    assert(Self::is_node_of(res, first, second));
                }
                res
            },
            Self::Leaf(_) => Self::default(),
        }
    }

    /// The text of the byte range `index .. index + len`, both clamped to the text.
    pub fn slice_to_string(&self, index: usize, len: usize) -> (res: String)
        requires
            self.wf(),
            Self::clamp(self@.len(), index as int) < Self::range_end(self@.len(), index, len)
                ==> is_char_boundary(self@, Self::clamp(self@.len(), index as int))
                && is_char_boundary(self@, Self::range_end(self@.len(), index, len)),
        ensures
            res@ == decode_utf8(
                self@.subrange(
                    Self::clamp(self@.len(), index as int),
                    Self::range_end(self@.len(), index, len),
                ),
            ),
    {
        let part = self.slice(index, len);
        part.to_string()
    }

    /// The whole text as a `String`.
    pub fn to_string(&self) -> (res: String)
        requires
            self.is_tree(),
        ensures
            res@ == self.text(),
            res@ == decode_utf8(self@),
    {
        let parts = self.leaves_str();
        proof {
            self.lemma_leaves_text();
            self.lemma_content_text();
        }
        let ghost leaves = self.spec_leaves();
        let mut out = String::new();
        let mut i: usize = 0;
        while i < parts.len()
            invariant
                i <= parts@.len(),
                parts@.len() == leaves.len(),
                forall|k: int| 0 <= k < parts@.len() ==> parts@[k]@ == leaves[k].text(),
                out@ == Self::concat_texts(leaves.take(i as int)),
            decreases parts@.len() - i,
        {
            proof {
                assert(leaves.take(i + 1).drop_last() =~= leaves.take(i as int));
            }
            out.append(parts[i]);
            i += 1;
        }
        proof {
            assert(leaves.take(parts@.len() as int) =~= leaves);
        }
        out
    }

    /// Inserts the character `c` at byte `index`, clamped to the length.
    pub fn insert_char(self, index: usize, c: char) -> (res: Self)
        requires
            self.wf(),
            self@.len() + encode_scalar(c as u32).len() <= usize::MAX,
            is_char_boundary(self@, Self::clamp(self@.len(), index as int)),
        ensures
            res.wf(),
            res@ == self@.take(Self::clamp(self@.len(), index as int)) + encode_scalar(c as u32)
                + self@.skip(Self::clamp(self@.len(), index as int)),
    {
        let s = char_to_string(c);
        proof {
            assert(seq![c].drop_first() =~= Seq::<char>::empty());
            assert(seq![c][0] == c);
            assert(encode_utf8(seq![c]) =~= encode_scalar(c as u32) + encode_utf8(Seq::<char>::empty()));
            assert(encode_scalar(c as u32) + encode_utf8(Seq::<char>::empty()) =~= encode_scalar(c as u32));
        }
        self.insert_str(index, s.as_str())
    }
}

impl View for Rope {
    type V = Seq<u8>;

    open spec fn view(&self) -> Seq<u8> {
        self.content()
    }
}

/// Every encoded character takes at least one byte.
pub proof fn lemma_encode_len(chars: Seq<char>)
    ensures
        encode_utf8(chars).len() == 0 <==> chars.len() == 0,
        encode_utf8(chars).len() >= chars.len(),
    decreases chars.len(),
{
    if chars.len() > 0 {
        lemma_encode_len(chars.drop_first());
    }
}

impl Clone for Rope {
    /// Clones share the subtrees and leaves of the rope they copy.
    fn clone(&self) -> (res: Self)
        ensures
            res == *self,
    {
        match self {
            Rope::Leaf(s) => Rope::Leaf(rc_clone(s)),
            Rope::Node { left, right, depth, weight, len } => Rope::Node {
                left: clone_child(left),
                right: clone_child(right),
                depth: *depth,
                weight: *weight,
                len: *len,
            },
        }
    }
}

fn clone_child(c: &Option<Rc<Rope>>) -> (res: Option<Rc<Rope>>)
    ensures
        res == *c,
{
    match c {
        Some(r) => Some(rc_clone(r)),
        None => None,
    }
}

impl Default for Rope {
    /// The empty rope: a leaf holding the empty string.
    fn default() -> (res: Self)
        ensures
            res is Leaf,
            res@ == Seq::<u8>::empty(),
            res.text() == Seq::<char>::empty(),
            res.wf(),
    {
        let r = Rope::leaf("");
        proof {
            reveal_strlit("");
        }
        r
    }
}

/// The Fibonacci number at index d + 2 is at most 2 to the power d - 1, plus one.
pub proof fn lemma_fib_pow2(d: nat)
    requires
        d >= 1,
    ensures
        fib(d + 2) <= pow2((d - 1) as nat) + 1,
    decreases d,
{
    assert(fib(1) == 1);
    assert(fib(2) == 1);
    if d == 1 {
        assert(fib(3) == 2);
        lemma2_to64();
    } else if d == 2 {
        assert(fib(3) == 2);
        assert(fib(4) == 3);
        lemma2_to64();
    } else {
        lemma_fib_pow2((d - 1) as nat);
        lemma_fib_pow2((d - 2) as nat);
        assert(fib(d + 2) == fib(d + 1) + fib(d));
        lemma_pow2_unfold((d - 1) as nat);
        lemma_pow2_unfold((d - 2) as nat);
        vstd::arithmetic::power2::lemma_pow2_pos((d - 3) as nat);
    }
}

/// A tree that `merge` builds over k >= 2 leaves has depth d with 2 to the d - 1 below k.
pub proof fn lemma_merge_depth(r: Rope, s: Seq<Rope>)
    requires
        Rope::is_merge_of(r, s),
        r.is_tree(),
        forall|i: int| 0 <= i < s.len() ==> (#[trigger] s[i]) is Leaf,
    ensures
        s.len() == 1 ==> r.spec_depth() == 0,
        s.len() >= 2 ==> r.spec_depth() >= 1 && pow2((r.spec_depth() - 1) as nat) < s.len(),
    decreases s.len(),
{
    if s.len() >= 2 {
        let mid = s.len() / 2;
        r.lemma_node_parts();
        let l = r.left_opt()->0;
        let x = r.right_opt()->0;
        let a = s.take(mid as int);
        let b = s.skip(mid as int);
        lemma_merge_depth(l, a);
        lemma_merge_depth(x, b);
        assert(r.spec_depth() == 1 + max_nat(l.spec_depth(), x.spec_depth()));
        let d = r.spec_depth();
        if d >= 2 {
            lemma_pow2_unfold((d - 1) as nat);
        }
        lemma2_to64();
    }
}

/// With k nonempty ropes, the concatenated text has at least k bytes.
pub proof fn lemma_concat_len(s: Seq<Rope>)
    requires
        forall|i: int| 0 <= i < s.len() ==> (#[trigger] s[i]).content().len() > 0,
    ensures
        Rope::concat_contents(s).len() >= s.len(),
    decreases s.len(),
{
    if s.len() > 0 {
        lemma_concat_len(s.drop_last());
    }
}

/// A tree that `merge` builds over two or more nonempty leaves is balanced.
pub proof fn lemma_merge_balanced(r: Rope, s: Seq<Rope>)
    requires
        Rope::is_merge_of(r, s),
        r.is_tree(),
        r@ == Rope::concat_contents(s),
        r@.len() <= usize::MAX,
        r@.len() > 0,
        s.len() >= 1,
        forall|i: int| 0 <= i < s.len() ==> (#[trigger] s[i]) is Leaf,
        forall|i: int| 0 <= i < s.len() ==> (#[trigger] s[i]).content().len() > 0,
    ensures
        r.spec_is_balanced(),
{
    lemma_merge_depth(r, s);
    lemma_concat_len(s);
    assert(fib(2) == 1);
    if s.len() >= 2 {
        let d = r.spec_depth();
        lemma_fib_pow2(d);
        lemma2_to64();
        if d >= 65 {
            lemma_pow2_strictly_increases(64, (d - 1) as nat);
        }
    }
}

/// At most one position is the previous boundary of an index.
pub proof fn lemma_prev_boundary_unique(bytes: Seq<u8>, index: usize, i1: int, i2: int)
    requires
        Rope::is_prev_boundary(bytes, index, i1),
        Rope::is_prev_boundary(bytes, index, i2),
    ensures
        i1 == i2,
{
}

/// Stepping forward over the character that starts at a boundary, then back to the
/// previous boundary, returns to where the step started.
pub proof fn lemma_next_then_prev(r: Rope, i: usize)
    requires
        r.wf(),
        i < r@.len(),
        is_char_boundary(r@, i as int),
    ensures
        char_at_spec(r@, i as int) is Some,
        Rope::is_prev_boundary(r@, (i + width_at(r@, i as int)) as usize, i as int),
{
    r.lemma_content_text();
    let bytes = r@;
    lemma_width_leading_byte(bytes, i as int);
    let w = width_at(bytes, i as int);
    let t = bytes.skip(i as int);
    vstd::utf8::valid_utf8_split(bytes, i as int);
    lemma_decode_first(t);
    assert forall|j: int| i < j <= i + w - 1 implies !is_char_boundary(bytes, j) by {
        assert(bytes[j] == t[j - i]);
        vstd::utf8::is_char_boundary_iff_not_is_continuation_byte(bytes, j);
    }
}

/// Removing the bytes just inserted at an index gives back the text as it was.
pub proof fn lemma_insert_then_remove(text: Seq<u8>, inserted: Seq<u8>, index: usize)
    requires
        index <= text.len(),
        text.len() + inserted.len() <= usize::MAX,
    ensures
        ({
            let w = text.take(index as int) + inserted + text.skip(index as int);
            w.take(Rope::clamp(w.len(), index as int)) + w.skip(
                Rope::range_end(w.len(), index, inserted.len() as usize),
            ) == text
        }),
{
    let w = text.take(index as int) + inserted + text.skip(index as int);
    assert(w.take(index as int) =~= text.take(index as int));
    assert(w.skip(index + inserted.len()) =~= text.skip(index as int));
    assert(text.take(index as int) + text.skip(index as int) =~= text);
}

/// The slice at an index, as long as the text just inserted there, is that text.
pub proof fn lemma_insert_then_slice(text: Seq<u8>, inserted: Seq<u8>, index: usize)
    requires
        index <= text.len(),
        text.len() + inserted.len() <= usize::MAX,
    ensures
        ({
            let w = text.take(index as int) + inserted + text.skip(index as int);
            w.subrange(
                Rope::clamp(w.len(), index as int),
                Rope::range_end(w.len(), index, inserted.len() as usize),
            ) == inserted
        }),
{
    let w = text.take(index as int) + inserted + text.skip(index as int);
    assert(w.subrange(index as int, index + inserted.len()) =~= inserted);
}

/// The two parts that splitting a rope gives, joined again, hold the rope's text.
pub proof fn lemma_split_then_join(r: Rope, index: usize, left: Option<Rope>, right: Option<Rope>)
    requires
        r.wf(),
        Rope::is_part(left, r@.take(Rope::clamp(r@.len(), index as int))),
        Rope::is_part(right, r@.skip(Rope::clamp(r@.len(), index as int))),
    ensures
        Rope::opt_content(left) + Rope::opt_content(right) == r@,
{
    let k = Rope::clamp(r@.len(), index as int);
    assert(r@.take(k) + r@.skip(k) =~= r@);
}

/// The slice of a text before an index, with the slice from that index to the end
/// inserted back at that index, is the text again.
pub proof fn lemma_slices_rejoin(text: Seq<u8>, index: usize)
    requires
        text.len() <= usize::MAX,
    ensures
        ({
            let k = Rope::clamp(text.len(), index as int);
            let a = text.subrange(0, Rope::range_end(text.len(), 0, index));
            let b = text.subrange(
                k,
                Rope::range_end(text.len(), index, (text.len() - k) as usize),
            );
            a.take(Rope::clamp(a.len(), index as int)) + b + a.skip(
                Rope::clamp(a.len(), index as int),
            ) == text
        }),
{
    let k = Rope::clamp(text.len(), index as int);
    let a = text.subrange(0, k);
    assert(a.take(k) =~= a);
    assert(a.skip(k) =~= Seq::<u8>::empty());
    assert(text.subrange(0, k) + text.subrange(k, text.len() as int) =~= text);
}

} // verus!
