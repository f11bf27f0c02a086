//! A one-line input in the status bar, after a label that says what it asks for.
use vstd::prelude::*;
use vstd::string::StrSliceExecFns;
use vstd::string::StringExecFns;
use vstd::string::StringSliceAdditionalSpecFns;
use vstd::utf8::*;

use crate::editor::scroll_axis;
use crate::lines::{
    advance, chars_between, lemma_chars_encode, lemma_chars_split, lemma_chars_step,
    lemma_inside_char, lemma_prev_b, lemma_prev_b_bounds, next_b, prev_b,
};
use crate::std_calls::{char_len_utf8, string_insert, string_remove};
use crate::utf8::{lemma_width_leading_byte, width_at};

verus! {

broadcast use vstd::seq::group_seq_axioms, vstd::utf8::encode_utf8_valid_utf8;

/// How many columns the view keeps between the cursor and its edge.
const SCROLLOFF: usize = 4;

#[derive(Debug, PartialEq, Eq, Structural, Clone, Copy)]
pub enum PromptKind {
    Open,
    SaveAs,
}

/// The label shown before the input.
pub open spec fn label_text(kind: PromptKind) -> Seq<char> {
    match kind {
        PromptKind::Open => "open: "@,
        PromptKind::SaveAs => "save as: "@,
    }
}

#[derive(Debug)]
pub struct Prompt {
    buffer: String,
    kind: PromptKind,
    cursor: usize,
    viewport_left: usize,
    viewport_cols: usize,
}

impl Prompt {
    /// The characters typed.
    pub closed spec fn chars(self) -> Seq<char> {
        self.buffer@
    }

    /// The UTF-8 bytes of what was typed.
    pub open spec fn content(self) -> Seq<u8> {
        encode_utf8(self.chars())
    }

    pub closed spec fn spec_kind(self) -> PromptKind {
        self.kind
    }

    /// The cursor, a byte offset into the input.
    pub closed spec fn spec_cursor(self) -> int {
        self.cursor as int
    }

    /// The view: first column and width.
    pub closed spec fn spec_viewport(self) -> (usize, usize) {
        (self.viewport_left, self.viewport_cols)
    }

    /// The status line while the prompt is open: the label, then the characters of the
    /// input from the view's first column, as many as the view is wide.
    pub open spec fn shown_line(self) -> Seq<char> {
        let t = self.content();
        let (left, cols) = self.spec_viewport();
        let vs = advance(t, 0, left as nat, t.len() as int);
        let ve = advance(t, vs, cols as nat, t.len() as int);
        label_text(self.spec_kind()) + decode_utf8(t.subrange(vs, ve))
    }

    /// The cursor is at a character boundary and the input and the view fit well
    /// within the memory an allocation can have.
    pub open spec fn wf(self) -> bool {
        &&& 0 <= self.spec_cursor() <= self.content().len()
        &&& is_char_boundary(self.content(), self.spec_cursor())
        &&& self.content().len() + 16 <= isize::MAX
        &&& self.spec_viewport().0 <= isize::MAX
        &&& self.spec_viewport().1 <= isize::MAX
    }

    /// An empty prompt of the given kind.
    pub fn new(kind: PromptKind) -> (res: Self)
        ensures
            res.wf(),
            res.chars() == Seq::<char>::empty(),
            res.spec_kind() == kind,
            res.spec_cursor() == 0,
            res.spec_viewport() == (0usize, 0usize),
    {
        let res = Self {
            buffer: String::new(),
            kind,
            cursor: 0,
            viewport_left: 0,
            viewport_cols: 0,
        };
        proof {
            assert(res.content() =~= Seq::<u8>::empty());
            is_char_boundary_start_end_of_seq(res.content());
        }
        res
    }

    /// What was typed.
    pub fn prompt(&self) -> (res: &str)
        ensures
            res@ == self.chars(),
    {
        self.buffer.as_str()
    }

    /// What the prompt asks for.
    pub fn kind(&self) -> (res: &PromptKind)
        ensures
            *res == self.spec_kind(),
    {
        &self.kind
    }

    /// The cursor's column on the status line: the label's width plus the characters
    /// before the cursor.
    pub fn cursor_pos(&self) -> (res: usize)
        requires
            self.wf(),
        ensures
            res == decode_utf8(self.content().take(self.spec_cursor())).len() + label_text(
                self.spec_kind(),
            ).len(),
    {
        let col: usize = self.char_column(self.cursor);
        let l: usize = self.label().unicode_len();
        proof {
            reveal_strlit("open: ");
            reveal_strlit("save as: ");
            self.lemma_column_bound(self.spec_cursor());
        }
        col + l
    }

    /// The view: first column and width.
    pub fn viewport(&self) -> (res: (usize, usize))
        ensures
            res == self.spec_viewport(),
    {
        (self.viewport_left, self.viewport_cols)
    }

    /// Moves the view so that the cursor stays `SCROLLOFF` columns away from its edges
    /// where it can.
    pub fn scroll_to_cursor(&mut self)
        requires
            old(self).wf(),
        ensures
            final(self).wf(),
            final(self).chars() == old(self).chars(),
            final(self).spec_kind() == old(self).spec_kind(),
            final(self).spec_cursor() == old(self).spec_cursor(),
            final(self).spec_viewport().0 == scroll_axis(
                decode_utf8(old(self).content().take(old(self).spec_cursor())).len() as int,
                old(self).spec_viewport().0 as int,
                old(self).spec_viewport().1 as int,
            ),
            final(self).spec_viewport().1 == old(self).spec_viewport().1,
    {
        let col: usize = self.char_column(self.cursor);
        proof {
            self.lemma_column_bound(self.spec_cursor());
        }
        if col.saturating_sub(SCROLLOFF) < self.viewport_left {
            self.viewport_left = col.saturating_sub(SCROLLOFF);
        } else if col.saturating_add(SCROLLOFF) >= self.viewport_left + self.viewport_cols {
            self.viewport_left = col.saturating_add(SCROLLOFF) - self.viewport_cols + 1;
        }
    }

    /// Sets the view's width to what `cols` columns leave after the label.
    pub fn set_viewport_size(&mut self, cols: usize)
        requires
            old(self).wf(),
            cols <= isize::MAX,
        ensures
            final(self).wf(),
            final(self).chars() == old(self).chars(),
            final(self).spec_kind() == old(self).spec_kind(),
            final(self).spec_cursor() == old(self).spec_cursor(),
            final(self).spec_viewport() == (
                old(self).spec_viewport().0,
                (if cols >= label_text(old(self).spec_kind()).len() {
                    cols - label_text(old(self).spec_kind()).len()
                } else {
                    0
                }) as usize,
            ),
    {
        let l: usize = self.label().unicode_len();
        self.viewport_cols = cols.saturating_sub(l);
    }

    /// Moves the cursor to the start of the input.
    pub fn move_home(&mut self)
        requires
            old(self).wf(),
        ensures
            final(self).wf(),
            final(self).chars() == old(self).chars(),
            final(self).spec_kind() == old(self).spec_kind(),
            final(self).spec_cursor() == 0,
            final(self).spec_viewport() == old(self).spec_viewport(),
    {
        proof {
            is_char_boundary_start_end_of_seq(self.content());
        }
        self.cursor = 0;
    }

    /// Moves the cursor to the end of the input.
    pub fn move_end(&mut self)
        requires
            old(self).wf(),
        ensures
            final(self).wf(),
            final(self).chars() == old(self).chars(),
            final(self).spec_kind() == old(self).spec_kind(),
            final(self).spec_cursor() == old(self).content().len(),
            final(self).spec_viewport() == old(self).spec_viewport(),
    {
        proof {
            is_char_boundary_start_end_of_seq(self.content());
        }
        self.cursor = self.buffer.as_str().as_bytes().len();
    }

    /// Moves the cursor back over one character.
    pub fn move_left(&mut self)
        requires
            old(self).wf(),
        ensures
            final(self).wf(),
            final(self).chars() == old(self).chars(),
            final(self).spec_kind() == old(self).spec_kind(),
            final(self).spec_cursor() == prev_b(old(self).content(), old(self).spec_cursor()),
            final(self).spec_viewport() == old(self).spec_viewport(),
    {
        proof {
            lemma_prev_b_bounds(self.content(), self.spec_cursor());
        }
        self.cursor = self.prev_boundary(self.cursor);
    }

    /// Moves the cursor forward over one character.
    pub fn move_right(&mut self)
        requires
            old(self).wf(),
        ensures
            final(self).wf(),
            final(self).chars() == old(self).chars(),
            final(self).spec_kind() == old(self).spec_kind(),
            final(self).spec_cursor() == next_b(old(self).content(), old(self).spec_cursor()),
            final(self).spec_viewport() == old(self).spec_viewport(),
    {
        self.cursor = self.next_boundary(self.cursor);
    }

    /// Inserts `c` at the cursor and moves the cursor past it.
    pub fn insert(&mut self, c: char)
        requires
            old(self).wf(),
            old(self).content().len() + 4 + 16 <= isize::MAX,
        ensures
            final(self).wf(),
            final(self).content() == old(self).content().take(old(self).spec_cursor())
                + encode_scalar(c as u32) + old(self).content().skip(old(self).spec_cursor()),
            final(self).spec_kind() == old(self).spec_kind(),
            final(self).spec_cursor() == old(self).spec_cursor() + encode_scalar(c as u32).len(),
            final(self).spec_viewport() == old(self).spec_viewport(),
    {
        let ghost t = self.content();
        let ghost cur = self.spec_cursor();
        string_insert(&mut self.buffer, self.cursor, c);
        let w: usize = char_len_utf8(c);
        proof {
            let e = encode_scalar(c as u32);
            char_is_scalar(c);
            assert(seq![c].drop_first() =~= Seq::<char>::empty());
            assert(seq![c][0] == c);
            assert(encode_utf8(seq![c]) =~= e + encode_utf8(Seq::<char>::empty()));
            assert(e + encode_utf8(Seq::<char>::empty()) =~= e);
            encode_utf8_valid_utf8(seq![c]);
            encode_utf8_valid_utf8(old(self).chars());
            valid_utf8_split(t, cur);
            valid_utf8_concat(t.take(cur), e);
            crate::utf8::lemma_boundary_concat(t.take(cur) + e, t.skip(cur), cur + e.len());
            crate::utf8::lemma_boundary_concat(t.take(cur), e, cur + e.len());
            is_char_boundary_start_end_of_seq(e);
        }
        self.cursor = self.cursor + w;
    }

    /// Deletes the character before the cursor, if any, and moves the cursor to where it
    /// started.
    pub fn delete_back(&mut self)
        requires
            old(self).wf(),
        ensures
            final(self).wf(),
            final(self).spec_kind() == old(self).spec_kind(),
            final(self).spec_viewport() == old(self).spec_viewport(),
            old(self).spec_cursor() == 0 ==> final(self).chars() == old(self).chars()
                && final(self).spec_cursor() == 0,
            old(self).spec_cursor() > 0 ==> ({
                let t = old(self).content();
                let start = prev_b(t, old(self).spec_cursor());
                &&& final(self).content() == t.take(start) + t.skip(old(self).spec_cursor())
                &&& final(self).spec_cursor() == start
            }),
    {
        if self.cursor > 0 {
            let ghost t = self.content();
            let ghost cur = self.spec_cursor();
            proof {
                encode_utf8_valid_utf8(self.chars());
                lemma_prev_b_bounds(t, cur);
            }
            let start: usize = self.prev_boundary(self.cursor);
            proof {
                lemma_width_leading_byte(t, start as int);
                let w = width_at(t, start as int);
                if start + w < cur {
                    crate::editor::lemma_prev_b_last(t, cur, start + w);
                }
                if cur < start + w {
                    lemma_inside_char(t, start as int, cur);
                }
            }
            string_remove(&mut self.buffer, start);
            proof {
                self.lemma_cut(t, start as int);
            }
            self.cursor = start;
        }
    }

    /// Deletes the character at the cursor, if any.
    pub fn delete_forward(&mut self)
        requires
            old(self).wf(),
        ensures
            final(self).wf(),
            final(self).spec_kind() == old(self).spec_kind(),
            final(self).spec_viewport() == old(self).spec_viewport(),
            final(self).spec_cursor() == old(self).spec_cursor(),
            ({
                let t = old(self).content();
                let c = old(self).spec_cursor();
                final(self).content() == t.take(c) + t.skip(next_b(t, c))
            }),
    {
        let ghost t = self.content();
        let ghost cur = self.spec_cursor();
        if self.cursor < self.buffer.as_str().as_bytes().len() {
            proof {
                encode_utf8_valid_utf8(self.chars());
            }
            string_remove(&mut self.buffer, self.cursor);
            proof {
                self.lemma_cut(t, cur);
            }
        } else {
            proof {
                assert(t.take(cur) + t.skip(cur) =~= t);
            }
        }
    }

    /// The status line: the label, then the part of the input that the view shows.
    pub fn visible_line(&self) -> (res: String)
        requires
            self.wf(),
        ensures
            res@ == self.shown_line(),
    {
        let ghost t = self.content();
        proof {
            encode_utf8_valid_utf8(self.chars());
            is_char_boundary_start_end_of_seq(t);
        }
        let n: usize = self.buffer.as_str().as_bytes().len();
        let start: usize = self.advance_chars(0, self.viewport_left, n);
        let end: usize = self.advance_chars(start, self.viewport_cols, n);
        let (head, _) = self.buffer.as_str().split_at(end);
        proof {
            crate::utf8::lemma_boundary_subrange_prefix(t, end as int, start as int);
        }
        let (_, mid) = head.split_at(start);
        proof {
            lemma_chars_encode(t, start as int, end as int);
            assert(mid.spec_bytes() =~= t.subrange(start as int, end as int));
            encode_utf8_decode_utf8(mid@);
        }
        let mut out = String::from_str(self.label());
        out.append(mid);
        out
    }

    /// The label shown before the input.
    fn label(&self) -> (res: &'static str)
        ensures
            res@ == label_text(self.spec_kind()),
    {
        match self.kind {
            PromptKind::Open => "open: ",
            PromptKind::SaveAs => "save as: ",
        }
    }

    /// The number of characters before byte `offset`.
    fn char_column(&self, offset: usize) -> (res: usize)
        requires
            self.wf(),
            offset <= self.content().len(),
            is_char_boundary(self.content(), offset as int),
        ensures
            res == decode_utf8(self.content().take(offset as int)).len(),
    {
        let (head, _) = self.buffer.as_str().split_at(offset);
        proof {
            encode_utf8_decode_utf8(head@);
        }
        head.unicode_len()
    }

    /// The offset reached from `offset` by stepping over `n` characters, stopping at `limit`.
    fn advance_chars(&self, offset: usize, n: usize, limit: usize) -> (res: usize)
        requires
            self.wf(),
            offset <= limit <= self.content().len(),
            is_char_boundary(self.content(), offset as int),
            is_char_boundary(self.content(), limit as int),
        ensures
            res == advance(self.content(), offset as int, n as nat, limit as int),
            offset <= res <= limit,
            is_char_boundary(self.content(), res as int),
    {
        let ghost t = self.content();
        proof {
            encode_utf8_valid_utf8(self.chars());
        }
        if offset >= limit {
            return offset;
        }
        let mut p: usize = offset;
        let mut k: usize = 0;
        proof {
            lemma_chars_encode(t, offset as int, limit as int);
            assert(t.subrange(offset as int, offset as int) =~= Seq::<u8>::empty());
            assert(chars_between(t, offset as int, limit as int).take(0) =~= Seq::<char>::empty());
        }
        while k < n && p < limit
            invariant
                self.wf(),
                t == self.content(),
                valid_utf8(t),
                offset <= p <= limit <= t.len(),
                is_char_boundary(t, p as int),
                is_char_boundary(t, offset as int),
                is_char_boundary(t, limit as int),
                k <= n,
                chars_between(t, offset as int, p as int) == chars_between(
                    t,
                    offset as int,
                    limit as int,
                ).take(k as int),
                k <= chars_between(t, offset as int, limit as int).len(),
            decreases limit - p,
        {
            proof {
                lemma_chars_step(t, p as int, limit as int);
                let w = width_at(t, p as int);
                lemma_chars_split(t, offset as int, p as int, limit as int);
                lemma_chars_split(t, offset as int, p as int, p + w);
                lemma_chars_step(t, p as int, p + w);
                assert(t.subrange(p + w, p + w) =~= Seq::<u8>::empty());
                assert(chars_between(t, offset as int, p + w) =~= chars_between(
                    t,
                    offset as int,
                    limit as int,
                ).take(k + 1));
            }
            p = self.next_boundary(p);
            k = k + 1;
        }
        proof {
            lemma_chars_encode(t, offset as int, p as int);
            lemma_chars_encode(t, offset as int, limit as int);
            let all = chars_between(t, offset as int, limit as int);
            if k < n {
                assert(p == limit);
                assert(all =~= all.take(k as int));
            } else if n == all.len() {
                assert(all.take(n as int) =~= all);
                assert(p - offset == limit - offset);
            }
        }
        p
    }

    /// The boundary after the character at `offset`, or `offset` at the end.
    fn next_boundary(&self, offset: usize) -> (res: usize)
        requires
            self.wf(),
            offset <= self.content().len(),
            is_char_boundary(self.content(), offset as int),
        ensures
            res == next_b(self.content(), offset as int),
            offset <= res <= self.content().len(),
            is_char_boundary(self.content(), res as int),
            offset < self.content().len() ==> offset < res,
    {
        let ghost t = self.content();
        proof {
            encode_utf8_valid_utf8(self.chars());
        }
        let s = self.buffer.as_str();
        if offset >= s.as_bytes().len() {
            return offset;
        }
        proof {
            lemma_width_leading_byte(t, offset as int);
        }
        let mut i: usize = offset + 1;
        while !s.is_char_boundary(i)
            invariant
                s.spec_bytes() == t,
                valid_utf8(t),
                t.len() + 16 <= isize::MAX,
                offset < i <= offset + width_at(t, offset as int) <= t.len(),
                is_char_boundary(t, offset + width_at(t, offset as int)),
            decreases offset + width_at(t, offset as int) - i,
        {
            i = i + 1;
        }
        proof {
            if i < offset + width_at(t, offset as int) {
                lemma_inside_char(t, offset as int, i as int);
            }
        }
        i
    }

    /// The last boundary before `offset`, or 0.
    fn prev_boundary(&self, offset: usize) -> (res: usize)
        requires
            self.wf(),
            offset <= self.content().len(),
        ensures
            res == prev_b(self.content(), offset as int),
    {
        let ghost t = self.content();
        if offset == 0 {
            return offset;
        }
        proof {
            encode_utf8_valid_utf8(self.chars());
            is_char_boundary_start_end_of_seq(t);
        }
        let s = self.buffer.as_str();
        let mut i: usize = offset - 1;
        while !s.is_char_boundary(i)
            invariant
                s.spec_bytes() == t,
                valid_utf8(t),
                is_char_boundary(t, 0),
                i < offset <= t.len(),
                prev_b(t, offset as int) == prev_b(t, i + 1),
            decreases i,
        {
            i = i - 1;
        }
        i
    }

    /// A column counts no more characters than there are bytes before it.
    proof fn lemma_column_bound(&self, offset: int)
        requires
            self.wf(),
            0 <= offset <= self.content().len(),
            is_char_boundary(self.content(), offset),
        ensures
            decode_utf8(self.content().take(offset)).len() <= offset,
    {
        let t = self.content();
        encode_utf8_valid_utf8(self.chars());
        lemma_chars_encode(t, 0, offset);
        assert(t.subrange(0, offset) =~= t.take(offset));
        crate::rope::lemma_encode_len(decode_utf8(t.take(offset)));
    }

    /// After one character is cut at a boundary, the cut point is a boundary of the rest.
    proof fn lemma_cut(&self, t: Seq<u8>, start: int)
        requires
            valid_utf8(t),
            0 <= start < t.len(),
            is_char_boundary(t, start),
            self.content() == t.take(start) + t.skip(start + width_at(t, start)),
        ensures
            is_char_boundary(self.content(), start),
            self.content().len() < t.len(),
            next_b(t, start) == start + width_at(t, start),
    {
        lemma_width_leading_byte(t, start);
        let w = width_at(t, start);
        valid_utf8_split(t, start);
        valid_utf8_split(t, start + w);
        crate::utf8::lemma_boundary_concat(t.take(start), t.skip(start + w), start);
        is_char_boundary_start_end_of_seq(t.take(start));
    }
}

} // verus!
