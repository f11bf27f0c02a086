//! The text being edited: a rope, a cursor at a character boundary, the column
//! the cursor keeps when it moves up and down, and the window shown of the text.
use vstd::prelude::*;
use vstd::string::StringSliceAdditionalSpecFns;
use vstd::utf8::*;

use crate::lines::{
    advance, char_column, chars_between, count_newlines, is_word_at, word_char_rule, lemma_char_newlines,
    lemma_chars_encode, lemma_chars_split, lemma_chars_step, lemma_count_newlines_bound,
    lemma_count_newlines_concat, lemma_count_newlines_take, lemma_encode_scalar_newlines,
    lemma_count_newlines_none, lemma_count_newlines_single, lemma_inside_char,
    lemma_line_bounds_boundary, lemma_line_end, lemma_line_start, lemma_newline_boundary,
    lemma_prev_b, lemma_prev_b_bounds, line_end, line_number, line_start, newline, next_b,
    nth_line_start, prev_b, skip_back, skip_forward, word_left, word_right,
};
use crate::rope::Rope;
use crate::std_calls::{char_len_utf8, is_alphanumeric};
use crate::utf8::{char_at_spec, width_at};

verus! {

broadcast use vstd::seq::group_seq_axioms;

/// How many lines or columns the view keeps between the cursor and its edge.
pub const SCROLLOFF: usize = 4;

/// Where the view starts on one axis after scrolling so that `pos` stays
/// `SCROLLOFF` away from the edges of a view of `size` starting at `start`.
pub open spec fn scroll_axis(pos: int, start: int, size: int) -> int {
    let low = if pos >= 4 {
        pos - 4
    } else {
        0
    };
    if low < start {
        low
    } else if pos + 4 >= start + size {
        pos + 4 - size + 1
    } else {
        start
    }
}

/// The part of the line starting at `s` that a view `left` columns in and `cols`
/// columns wide shows: its start and end offsets.
pub open spec fn visible_part(t: Seq<u8>, s: int, left: nat, cols: nat) -> (int, int) {
    let e = line_end(t, s);
    let vs = advance(t, s, left, e);
    (vs, advance(t, vs, cols, e))
}

/// The column that moving up or down aims for: the kept one, else the cursor's.
pub open spec fn kept_col(t: Seq<u8>, c: int, pref: Option<usize>) -> nat {
    match pref {
        Some(k) => k as nat,
        None => char_column(t, c),
    }
}

/// Where moving up takes the cursor: the kept column on the line above, or as near
/// it as that line allows; from the first line, the start of the text.
pub open spec fn up_target(t: Seq<u8>, c: int, pref: Option<usize>) -> int {
    let start = line_start(t, c);
    if start == 0 {
        0
    } else {
        advance(t, line_start(t, start - 1), kept_col(t, c, pref), start - 1)
    }
}

/// Where moving down takes the cursor: the kept column on the line below, or as near
/// it as that line allows; from the last line, the end of the text.
pub open spec fn down_target(t: Seq<u8>, c: int, pref: Option<usize>) -> int {
    let end = line_end(t, c);
    if end == t.len() {
        end
    } else {
        advance(t, end + 1, kept_col(t, c, pref), line_end(t, end + 1))
    }
}

/// The column kept after moving up: unchanged from the first line, else the one aimed for.
pub open spec fn up_pref(t: Seq<u8>, c: int, pref: Option<usize>) -> Option<usize> {
    if line_start(t, c) == 0 {
        pref
    } else {
        Some(kept_col(t, c, pref) as usize)
    }
}

/// The column kept after moving down: unchanged from the last line, else the one aimed for.
pub open spec fn down_pref(t: Seq<u8>, c: int, pref: Option<usize>) -> Option<usize> {
    if line_end(t, c) == t.len() {
        pref
    } else {
        Some(kept_col(t, c, pref) as usize)
    }
}

/// The bytes that deleting the cursor's line removes: the line with the break after
/// it, or, on the last line, with the break before it.
pub open spec fn line_deletion(t: Seq<u8>, c: int) -> (int, int) {
    let start = line_start(t, c);
    let end = line_end(t, c);
    if end == t.len() {
        (if start > 0 {
            start - 1
        } else {
            0
        }, end)
    } else {
        (start, end + 1)
    }
}

/// What the view shows of line `k`: the characters of its visible part.
pub open spec fn visible_text(t: Seq<u8>, k: nat, left: nat, cols: nat) -> Seq<char> {
    let (vs, ve) = visible_part(t, nth_line_start(t, k), left, cols);
    decode_utf8(t.subrange(vs, ve))
}

/// `s` is what the view shows of line `k`, and line `k` exists.
pub open spec fn shows_line(t: Seq<u8>, k: nat, left: nat, cols: nat, s: Seq<char>) -> bool {
    &&& nth_line_start(t, k) <= t.len()
    &&& s == visible_text(t, k, left, cols)
}

pub struct Editor {
    buffer: Rope,
    cursor: usize,
    preferred_col: Option<usize>,
    line_count: usize,
    viewport_left: usize,
    viewport_top: usize,
    viewport_cols: usize,
    viewport_rows: usize,
}

impl Editor {
    /// The bytes of the text.
    pub closed spec fn content(self) -> Seq<u8> {
        self.buffer@
    }

    /// The cursor, a byte offset into the text.
    pub closed spec fn spec_cursor(self) -> int {
        self.cursor as int
    }

    /// The column that moving up and down keeps, once one such move has set it.
    pub closed spec fn spec_preferred_col(self) -> Option<usize> {
        self.preferred_col
    }

    /// The number of lines.
    pub closed spec fn spec_line_count(self) -> int {
        self.line_count as int
    }

    /// The view: first column, first line, width and height.
    pub closed spec fn spec_viewport(self) -> (usize, usize, usize, usize) {
        (self.viewport_left, self.viewport_top, self.viewport_cols, self.viewport_rows)
    }

    /// The rope is well-formed.
    pub closed spec fn buffer_ok(self) -> bool {
        self.buffer.wf()
    }

    /// A well-formed editor: the cursor is at a character boundary of the text, the
    /// line count is one more than the number of line breaks, and the text and the
    /// view fit well within the memory an allocation can have.
    pub open spec fn wf(self) -> bool {
        &&& self.buffer_ok()
        &&& valid_utf8(self.content())
        &&& 0 <= self.spec_cursor() <= self.content().len()
        &&& is_char_boundary(self.content(), self.spec_cursor())
        &&& self.spec_line_count() == count_newlines(self.content()) + 1
        &&& self.content().len() + 16 <= isize::MAX
        &&& self.spec_viewport().0 <= isize::MAX
        &&& self.spec_viewport().1 <= isize::MAX
        &&& self.spec_viewport().2 <= isize::MAX
        &&& self.spec_viewport().3 <= isize::MAX
    }

    /// An editor on `text`, with the cursor at its start.
    pub fn from_text(text: &str) -> (res: Self)
        requires
            text.spec_bytes().len() + 16 <= isize::MAX,
        ensures
            res.wf(),
            res.content() == text.spec_bytes(),
            res.spec_cursor() == 0,
            res.spec_preferred_col() is None,
            res.spec_viewport() == (0usize, 0usize, 0usize, 0usize),
    {
        let buffer = Rope::leaf(text);
        let count: usize = count_newline_bytes(text);
        proof {
            lemma_count_newlines_bound(text.spec_bytes());
            buffer.lemma_content_text();
            is_char_boundary_start_end_of_seq(buffer@);
        }
        Self {
            line_count: count + 1,
            buffer,
            cursor: 0,
            preferred_col: None,
            viewport_left: 0,
            viewport_top: 0,
            viewport_cols: 0,
            viewport_rows: 0,
        }
    }

    /// The text.
    pub fn text(&self) -> (res: String)
        requires
            self.wf(),
        ensures
            res@ == decode_utf8(self.content()),
    {
        self.buffer.to_string()
    }

    /// The length of the text in bytes.
    pub fn len(&self) -> (res: usize)
        requires
            self.wf(),
        ensures
            res == self.content().len(),
    {
        self.buffer.len()
    }

    /// Whether the text is empty.
    pub fn is_empty(&self) -> (res: bool)
        requires
            self.wf(),
        ensures
            res == (self.content().len() == 0),
    {
        self.buffer.is_empty()
    }

    /// The cursor's byte offset.
    pub fn cursor(&self) -> (res: usize)
        ensures
            res == self.spec_cursor(),
    {
        self.cursor
    }

    /// The cursor's column (in characters) and line, both counted from 0.
    pub fn cursor_pos(&self) -> (res: (usize, usize))
        requires
            self.wf(),
        ensures
            res.0 == char_column(self.content(), self.spec_cursor()),
            res.1 == line_number(self.content(), self.spec_cursor()),
    {
        (self.char_column(self.cursor), self.line_number(self.cursor))
    }

    /// The number of lines.
    pub fn line_count(&self) -> (res: usize)
        ensures
            res == self.spec_line_count(),
    {
        self.line_count
    }

    /// The view: first column, first line, width and height.
    pub fn viewport(&self) -> (res: (usize, usize, usize, usize))
        ensures
            res == self.spec_viewport(),
    {
        (self.viewport_left, self.viewport_top, self.viewport_cols, self.viewport_rows)
    }

    /// Sets the width and height of the view.
    pub fn set_viewport_size(&mut self, cols: usize, rows: usize)
        requires
            old(self).wf(),
            cols <= isize::MAX,
            rows <= isize::MAX,
        ensures
            final(self).wf(),
            final(self).content() == old(self).content(),
            final(self).spec_cursor() == old(self).spec_cursor(),
            final(self).spec_preferred_col() == old(self).spec_preferred_col(),
            final(self).spec_viewport() == (
                old(self).spec_viewport().0,
                old(self).spec_viewport().1,
                cols,
                rows,
            ),
    {
        self.viewport_cols = cols;
        self.viewport_rows = rows;
    }

    /// Moves the view so that the cursor stays `SCROLLOFF` columns and lines away from
    /// its edges where it can.
    pub fn scroll_to_cursor(&mut self)
        requires
            old(self).wf(),
        ensures
            final(self).wf(),
            final(self).content() == old(self).content(),
            final(self).spec_cursor() == old(self).spec_cursor(),
            final(self).spec_preferred_col() == old(self).spec_preferred_col(),
            final(self).spec_viewport().0 == scroll_axis(
                char_column(old(self).content(), old(self).spec_cursor()) as int,
                old(self).spec_viewport().0 as int,
                old(self).spec_viewport().2 as int,
            ),
            final(self).spec_viewport().1 == scroll_axis(
                line_number(old(self).content(), old(self).spec_cursor()) as int,
                old(self).spec_viewport().1 as int,
                old(self).spec_viewport().3 as int,
            ),
            final(self).spec_viewport().2 == old(self).spec_viewport().2,
            final(self).spec_viewport().3 == old(self).spec_viewport().3,
    {
        let col: usize = self.char_column(self.cursor);
        let row: usize = self.line_number(self.cursor);
        proof {
            let t = self.content();
            let c = self.spec_cursor();
            lemma_line_start(t, c);
            lemma_line_bounds_boundary(t, c);
            lemma_chars_encode(t, line_start(t, c), c);
            crate::rope::lemma_encode_len(chars_between(t, line_start(t, c), c));
            lemma_count_newlines_bound(t.take(c));
        }
        if col.saturating_sub(SCROLLOFF) < self.viewport_left {
            self.viewport_left = col.saturating_sub(SCROLLOFF);
        } else if col.saturating_add(SCROLLOFF) >= self.viewport_left + self.viewport_cols {
            self.viewport_left = col.saturating_add(SCROLLOFF) - self.viewport_cols + 1;
        }
        if row.saturating_sub(SCROLLOFF) < self.viewport_top {
            self.viewport_top = row.saturating_sub(SCROLLOFF);
        } else if row.saturating_add(SCROLLOFF) >= self.viewport_top + self.viewport_rows {
            self.viewport_top = row.saturating_add(SCROLLOFF) - self.viewport_rows + 1;
        }
    }

    /// Moves the cursor to the start of its line.
    pub fn move_home(&mut self)
        requires
            old(self).wf(),
        ensures
            final(self).wf(),
            final(self).content() == old(self).content(),
            final(self).spec_cursor() == line_start(old(self).content(), old(self).spec_cursor()),
            final(self).spec_preferred_col() is None,
            final(self).spec_viewport() == old(self).spec_viewport(),
    {
        proof {
            lemma_line_start(self.content(), self.spec_cursor());
            lemma_line_bounds_boundary(self.content(), self.spec_cursor());
        }
        self.cursor = self.line_start(self.cursor);
        self.preferred_col = None;
    }

    /// Moves the cursor to the end of its line.
    pub fn move_end(&mut self)
        requires
            old(self).wf(),
        ensures
            final(self).wf(),
            final(self).content() == old(self).content(),
            final(self).spec_cursor() == line_end(old(self).content(), old(self).spec_cursor()),
            final(self).spec_preferred_col() is None,
            final(self).spec_viewport() == old(self).spec_viewport(),
    {
        proof {
            lemma_line_end(self.content(), self.spec_cursor());
            lemma_line_bounds_boundary(self.content(), self.spec_cursor());
        }
        self.cursor = self.line_end(self.cursor);
        self.preferred_col = None;
    }

    /// Moves the cursor to the start of the text.
    pub fn move_home_full(&mut self)
        requires
            old(self).wf(),
        ensures
            final(self).wf(),
            final(self).content() == old(self).content(),
            final(self).spec_cursor() == 0,
            final(self).spec_preferred_col() is None,
            final(self).spec_viewport() == old(self).spec_viewport(),
    {
        proof {
            is_char_boundary_start_end_of_seq(self.content());
        }
        self.cursor = 0;
        self.preferred_col = None;
    }

    /// Moves the cursor to the end of the text.
    pub fn move_end_full(&mut self)
        requires
            old(self).wf(),
        ensures
            final(self).wf(),
            final(self).content() == old(self).content(),
            final(self).spec_cursor() == old(self).content().len(),
            final(self).spec_preferred_col() is None,
            final(self).spec_viewport() == old(self).spec_viewport(),
    {
        proof {
            is_char_boundary_start_end_of_seq(self.content());
        }
        self.cursor = self.buffer.len();
        self.preferred_col = None;
    }

    /// Moves the cursor back over one character.
    pub fn move_left(&mut self)
        requires
            old(self).wf(),
        ensures
            final(self).wf(),
            final(self).content() == old(self).content(),
            final(self).spec_cursor() == prev_b(old(self).content(), old(self).spec_cursor()),
            final(self).spec_preferred_col() is None,
            final(self).spec_viewport() == old(self).spec_viewport(),
    {
        proof {
            lemma_prev_b_bounds(self.content(), self.spec_cursor());
        }
        self.cursor = self.prev_boundary(self.cursor);
        self.preferred_col = None;
    }

    /// Moves the cursor forward over one character.
    pub fn move_right(&mut self)
        requires
            old(self).wf(),
        ensures
            final(self).wf(),
            final(self).content() == old(self).content(),
            final(self).spec_cursor() == next_b(old(self).content(), old(self).spec_cursor()),
            final(self).spec_preferred_col() is None,
            final(self).spec_viewport() == old(self).spec_viewport(),
    {
        self.cursor = self.next_boundary(self.cursor);
        self.preferred_col = None;
    }

    /// Moves the cursor to the line above, to the kept column or as near it as the
    /// line allows; on the first line, to the start of the text.
    pub fn move_up(&mut self)
        requires
            old(self).wf(),
        ensures
            final(self).wf(),
            final(self).content() == old(self).content(),
            final(self).spec_viewport() == old(self).spec_viewport(),
            final(self).spec_cursor() == up_target(
                old(self).content(),
                old(self).spec_cursor(),
                old(self).spec_preferred_col(),
            ),
            final(self).spec_preferred_col() == up_pref(
                old(self).content(),
                old(self).spec_cursor(),
                old(self).spec_preferred_col(),
            ),
    {
        let ghost t = self.content();
        proof {
            lemma_line_start(t, self.spec_cursor());
            lemma_line_bounds_boundary(t, self.spec_cursor());
        }
        let start: usize = self.line_start(self.cursor);
        if start == 0 {
            self.cursor = start;
            return ;
        }
        proof {
            lemma_newline_boundary(t, start - 1);
            lemma_line_start(t, start - 1);
            lemma_line_bounds_boundary(t, start - 1);
        }
        let prev_start: usize = self.line_start(start - 1);
        let prev_end: usize = start - 1;
        let col: usize = match self.preferred_col {
            Some(c) => c,
            None => {
                let c: usize = self.char_column(self.cursor);
                self.preferred_col = Some(c);
                c
            },
        };
        self.preferred_col = Some(col);
        self.cursor = self.advance_chars(prev_start, col, prev_end);
    }

    /// Moves the cursor to the line below, to the kept column or as near it as the
    /// line allows; on the last line, to the end of the text.
    pub fn move_down(&mut self)
        requires
            old(self).wf(),
        ensures
            final(self).wf(),
            final(self).content() == old(self).content(),
            final(self).spec_viewport() == old(self).spec_viewport(),
            final(self).spec_cursor() == down_target(
                old(self).content(),
                old(self).spec_cursor(),
                old(self).spec_preferred_col(),
            ),
            final(self).spec_preferred_col() == down_pref(
                old(self).content(),
                old(self).spec_cursor(),
                old(self).spec_preferred_col(),
            ),
    {
        let ghost t = self.content();
        proof {
            lemma_line_end(t, self.spec_cursor());
            lemma_line_bounds_boundary(t, self.spec_cursor());
        }
        let end: usize = self.line_end(self.cursor);
        if end == self.buffer.len() {
            self.cursor = end;
            return ;
        }
        proof {
            lemma_newline_boundary(t, end as int);
            lemma_line_end(t, end + 1);
            lemma_line_bounds_boundary(t, end + 1);
        }
        let next_start: usize = end + 1;
        let next_end: usize = self.line_end(next_start);
        let col: usize = match self.preferred_col {
            Some(c) => c,
            None => {
                let c: usize = self.char_column(self.cursor);
                self.preferred_col = Some(c);
                c
            },
        };
        self.preferred_col = Some(col);
        self.cursor = self.advance_chars(next_start, col, next_end);
    }

    /// Moves the cursor back over the non-word characters before it, then over the
    /// word before them.
    pub fn move_word_left(&mut self)
        requires
            old(self).wf(),
        ensures
            final(self).wf(),
            final(self).content() == old(self).content(),
            final(self).spec_cursor() == word_left(old(self).content(), old(self).spec_cursor()),
            final(self).spec_preferred_col() == old(self).spec_preferred_col(),
            final(self).spec_viewport() == old(self).spec_viewport(),
    {
        let ghost t = self.content();
        let ghost c0 = self.spec_cursor();
        proof {
            lemma_prev_b_bounds(t, self.spec_cursor());
        }
        let mut prev_offset: usize = self.prev_boundary(self.cursor);
        while self.cursor > 0 && !self.is_word_char(prev_offset)
            invariant
                self.wf(),
                self.content() == t,
                self.spec_preferred_col() == old(self).spec_preferred_col(),
                self.spec_viewport() == old(self).spec_viewport(),
                prev_offset == prev_b(t, self.spec_cursor()),
                skip_back(t, self.spec_cursor(), false) == skip_back(t, c0, false),
            decreases self.cursor,
        {
            proof {
                lemma_prev_b_bounds(t, self.spec_cursor());
                lemma_prev_b_bounds(t, prev_offset as int);
            }
            self.cursor = prev_offset;
            prev_offset = self.prev_boundary(self.cursor);
        }
        let ghost c1 = self.spec_cursor();
        proof {
            lemma_prev_b_bounds(t, self.spec_cursor());
        }
        while self.cursor > 0 && self.is_word_char(prev_offset)
            invariant
                self.wf(),
                self.content() == t,
                self.spec_preferred_col() == old(self).spec_preferred_col(),
                self.spec_viewport() == old(self).spec_viewport(),
                prev_offset == prev_b(t, self.spec_cursor()),
                skip_back(t, self.spec_cursor(), true) == skip_back(t, c1, true),
                c1 == skip_back(t, c0, false),
            decreases self.cursor,
        {
            proof {
                lemma_prev_b_bounds(t, self.spec_cursor());
                lemma_prev_b_bounds(t, prev_offset as int);
            }
            self.cursor = prev_offset;
            prev_offset = self.prev_boundary(self.cursor);
        }
    }

    /// Moves the cursor forward over the non-word characters at it, then over the
    /// word after them.
    pub fn move_word_right(&mut self)
        requires
            old(self).wf(),
        ensures
            final(self).wf(),
            final(self).content() == old(self).content(),
            final(self).spec_cursor() == word_right(old(self).content(), old(self).spec_cursor()),
            final(self).spec_preferred_col() == old(self).spec_preferred_col(),
            final(self).spec_viewport() == old(self).spec_viewport(),
    {
        let ghost t = self.content();
        let ghost c0 = self.spec_cursor();
        while self.cursor < self.buffer.len() && !self.is_word_char(self.cursor)
            invariant
                self.wf(),
                self.content() == t,
                self.spec_preferred_col() == old(self).spec_preferred_col(),
                self.spec_viewport() == old(self).spec_viewport(),
                skip_forward(t, self.spec_cursor(), false) == skip_forward(t, c0, false),
            decreases t.len() - self.cursor,
        {
            proof {
                crate::utf8::lemma_width_leading_byte(t, self.spec_cursor());
            }
            self.cursor = self.next_boundary(self.cursor);
        }
        let ghost c1 = self.spec_cursor();
        while self.cursor < self.buffer.len() && self.is_word_char(self.cursor)
            invariant
                self.wf(),
                self.content() == t,
                self.spec_preferred_col() == old(self).spec_preferred_col(),
                self.spec_viewport() == old(self).spec_viewport(),
                skip_forward(t, self.spec_cursor(), true) == skip_forward(t, c1, true),
                c1 == skip_forward(t, c0, false),
            decreases t.len() - self.cursor,
        {
            proof {
                crate::utf8::lemma_width_leading_byte(t, self.spec_cursor());
            }
            self.cursor = self.next_boundary(self.cursor);
        }
    }

    /// Inserts `c` at the cursor and moves the cursor past it.
    pub fn insert(&mut self, c: char)
        requires
            old(self).wf(),
            old(self).content().len() + 4 + 16 <= isize::MAX,
        ensures
            final(self).wf(),
            final(self).content() == old(self).content().take(old(self).spec_cursor())
                + encode_scalar(c as u32) + old(self).content().skip(old(self).spec_cursor()),
            final(self).spec_cursor() == old(self).spec_cursor() + encode_scalar(c as u32).len(),
            final(self).spec_preferred_col() is None,
            final(self).spec_viewport() == old(self).spec_viewport(),
    {
        let ghost t = self.content();
        let ghost cur = self.spec_cursor();
        proof {
            char_is_scalar(c);
            lemma_count_newlines_bound(t);
            let e = encode_scalar(c as u32);
            assert(seq![c].drop_first() =~= Seq::<char>::empty());
            assert(seq![c][0] == c);
            assert(encode_utf8(seq![c]) =~= e + encode_utf8(Seq::<char>::empty()));
            assert(e + encode_utf8(Seq::<char>::empty()) =~= e);
        }
        self.buffer = self.buffer.clone().insert_char(self.cursor, c);
        let w: usize = char_len_utf8(c);
        self.cursor = self.cursor + w;
        self.preferred_col = None;
        proof {
            let e = encode_scalar(c as u32);
            self.buffer.lemma_content_text();
            lemma_count_newlines_concat(t.take(cur), e);
            lemma_count_newlines_concat(t.take(cur) + e, t.skip(cur));
            lemma_count_newlines_concat(t.take(cur), t.skip(cur));
            assert(t.take(cur) + t.skip(cur) =~= t);
            lemma_encode_scalar_newlines(c);
            encode_utf8_valid_utf8(seq![c]);
            vstd::utf8::valid_utf8_split(t, cur);
            valid_utf8_concat(t.take(cur), e);
            crate::utf8::lemma_boundary_concat(t.take(cur) + e, t.skip(cur), cur + e.len());
            crate::utf8::lemma_boundary_concat(t.take(cur), e, cur + e.len());
            is_char_boundary_start_end_of_seq(e);
            crate::utf8::lemma_boundary_concat(t.take(cur), e, cur);
        }
        if c == '\n' {
            self.line_count = self.line_count + 1;
        }
    }

    /// Inserts `s` at the cursor and moves the cursor past it.
    pub fn insert_str(&mut self, s: &str)
        requires
            old(self).wf(),
            old(self).content().len() + s.spec_bytes().len() + 16 <= isize::MAX,
        ensures
            final(self).wf(),
            final(self).content() == old(self).content().take(old(self).spec_cursor())
                + s.spec_bytes() + old(self).content().skip(old(self).spec_cursor()),
            final(self).spec_cursor() == old(self).spec_cursor() + s.spec_bytes().len(),
            final(self).spec_preferred_col() is None,
            final(self).spec_viewport() == old(self).spec_viewport(),
    {
        let ghost t = self.content();
        let ghost cur = self.spec_cursor();
        let ghost e = s.spec_bytes();
        let n: usize = s.as_bytes().len();
        let count: usize = count_newline_bytes(s);
        proof {
            lemma_count_newlines_bound(t);
            lemma_count_newlines_bound(e);
        }
        self.buffer = self.buffer.clone().insert_str(self.cursor, s);
        self.cursor = self.cursor + n;
        self.preferred_col = None;
        proof {
            self.buffer.lemma_content_text();
            lemma_count_newlines_concat(t.take(cur), e);
            lemma_count_newlines_concat(t.take(cur) + e, t.skip(cur));
            lemma_count_newlines_concat(t.take(cur), t.skip(cur));
            assert(t.take(cur) + t.skip(cur) =~= t);
            encode_utf8_valid_utf8(s@);
            vstd::utf8::valid_utf8_split(t, cur);
            valid_utf8_concat(t.take(cur), e);
            crate::utf8::lemma_boundary_concat(t.take(cur) + e, t.skip(cur), cur + e.len());
            crate::utf8::lemma_boundary_concat(t.take(cur), e, cur + e.len());
            is_char_boundary_start_end_of_seq(e);
            lemma_count_newlines_bound(e);
        }
        self.line_count = self.line_count + count;
    }

    /// Deletes the character before the cursor, if any, and moves the cursor to where it
    /// started.
    pub fn delete_back(&mut self)
        requires
            old(self).wf(),
        ensures
            final(self).wf(),
            final(self).spec_viewport() == old(self).spec_viewport(),
            old(self).spec_cursor() == 0 ==> final(self).content() == old(self).content()
                && final(self).spec_cursor() == 0 && final(self).spec_preferred_col()
                == old(self).spec_preferred_col(),
            old(self).spec_cursor() > 0 ==> ({
                let t = old(self).content();
                let start = prev_b(t, old(self).spec_cursor());
                &&& final(self).content() == t.take(start) + t.skip(old(self).spec_cursor())
                &&& final(self).spec_cursor() == start
                &&& final(self).spec_preferred_col() is None
            }),
    {
        if self.cursor > 0 {
            let ghost t = self.content();
            let ghost cur = self.spec_cursor();
            proof {
                lemma_prev_b_bounds(t, cur);
            }
            let start: usize = self.prev_boundary(self.cursor);
            let byte = self.buffer.byte_at(start);
            proof {
                self.lemma_one_char(start as int, cur);
            }
            self.buffer = self.buffer.clone().remove(start, self.cursor - start);
            self.cursor = start;
            self.preferred_col = None;
            match byte {
                Some(b) => {
                    if b == 10 {
                        self.line_count = self.line_count - 1;
                    }
                },
                None => {},
            }
        }
    }

    /// Deletes the character at the cursor, if any.
    pub fn delete_forward(&mut self)
        requires
            old(self).wf(),
        ensures
            final(self).wf(),
            final(self).spec_viewport() == old(self).spec_viewport(),
            final(self).spec_cursor() == old(self).spec_cursor(),
            final(self).spec_preferred_col() == old(self).spec_preferred_col(),
            ({
                let t = old(self).content();
                let c = old(self).spec_cursor();
                final(self).content() == t.take(c) + t.skip(next_b(t, c))
            }),
    {
        let ghost t = self.content();
        let ghost cur = self.spec_cursor();
        if self.cursor < self.buffer.len() {
            let end: usize = self.next_boundary(self.cursor);
            let byte = self.buffer.byte_at(self.cursor);
            proof {
                crate::utf8::lemma_width_leading_byte(t, cur);
                crate::utf8::lemma_boundary_bytes(t, cur);
                let w = width_at(t, cur);
                assert forall|j: int| cur < j <= end - 1 implies !is_char_boundary(t, j) by {
                    lemma_inside_char(t, cur, j);
                }
                lemma_prev_b(t, end as int, cur);
                self.lemma_one_char(cur, end as int);
            }
            self.buffer = self.buffer.clone().remove(self.cursor, end - self.cursor);
            match byte {
                Some(b) => {
                    if b == 10 {
                        self.line_count = self.line_count - 1;
                    }
                },
                None => {},
            }
        } else {
            proof {
                assert(t.take(cur) + t.skip(cur) =~= t);
            }
        }
    }

    /// Deletes the cursor's line with its line break: the break after it, or, on the
    /// last line, the break before it; the cursor goes where the deleted text started.
    pub fn delete_line(&mut self)
        requires
            old(self).wf(),
        ensures
            final(self).wf(),
            final(self).spec_viewport() == old(self).spec_viewport(),
            final(self).spec_preferred_col() is None,
            ({
                let t = old(self).content();
                let (from, to) = line_deletion(t, old(self).spec_cursor());
                &&& final(self).content() == t.take(from) + t.skip(to)
                &&& final(self).spec_cursor() == from
            }),
    {
        let ghost t = self.content();
        let ghost cur = self.spec_cursor();
        proof {
            lemma_line_start(t, cur);
            lemma_line_end(t, cur);
            lemma_line_bounds_boundary(t, cur);
            is_char_boundary_start_end_of_seq(t);
        }
        let start: usize = self.line_start(self.cursor);
        let end: usize = self.line_end(self.cursor);
        if end == self.buffer.len() {
            let new_start: usize = start.saturating_sub(1);
            proof {
                lemma_count_newlines_none(t.subrange(start as int, end as int));
                if start > 0 {
                    lemma_newline_boundary(t, start - 1);
                    assert(t.subrange(start - 1, end as int) =~= seq![t[start - 1]] + t.subrange(
                        start as int,
                        end as int,
                    ));
                    lemma_count_newlines_single(t[start - 1]);
                    lemma_count_newlines_concat(seq![t[start - 1]], t.subrange(start as int, end as int));
                }
                self.lemma_remove_newlines(new_start as int, end as int, if start > 0 {
                    1nat
                } else {
                    0nat
                });
            }
            self.buffer = self.buffer.clone().remove(new_start, end - new_start);
            self.cursor = new_start;
            if start > 0 {
                self.line_count = self.line_count - 1;
            }
        } else {
            let new_end: usize = end + 1;
            proof {
                lemma_newline_boundary(t, end as int);
                lemma_count_newlines_none(t.subrange(start as int, end as int));
                assert(t.subrange(start as int, end + 1) =~= t.subrange(start as int, end as int)
                    + seq![t[end as int]]);
                lemma_count_newlines_single(t[end as int]);
                lemma_count_newlines_concat(t.subrange(start as int, end as int), seq![t[end as int]]);
                self.lemma_remove_newlines(start as int, new_end as int, 1);
            }
            self.buffer = self.buffer.clone().remove(start, new_end - start);
            self.cursor = start;
            self.line_count = self.line_count - 1;
        }
        self.preferred_col = None;
    }

    /// The lines that the view shows, each cut to the view's columns; fewer than the
    /// view's height when the text ends first.
    #[verifier::rlimit(30)]
    pub fn visible_lines(&self) -> (res: Vec<String>)
        requires
            self.wf(),
        ensures
            ({
                let t = self.content();
                let (left, top, cols, rows) = self.spec_viewport();
                &&& res@.len() <= rows
                &&& forall|i: int|
                    0 <= i < res@.len() ==> shows_line(
                        t,
                        (top + i) as nat,
                        left as nat,
                        cols as nat,
                        (#[trigger] res@[i])@,
                    )
                &&& res@.len() < rows ==> nth_line_start(t, (top + res@.len()) as nat) > t.len()
            }),
    {
        let ghost t = self.content();
        let n: usize = self.buffer.len();
        let top: usize = self.viewport_top;
        let rows: usize = self.viewport_rows;
        let left: usize = self.viewport_left;
        let cols: usize = self.viewport_cols;
        let mut out: Vec<String> = Vec::new();
        let mut curr_start: usize = 0;
        let mut curr_line: usize = 0;
        while curr_line < top && curr_start < n
            invariant
                self.wf(),
                t == self.content(),
                n == t.len(),
                top == self.spec_viewport().1,
                curr_line <= top,
                curr_start <= n + 1,
                curr_start == nth_line_start(t, curr_line as nat),
                curr_start <= n ==> is_char_boundary(t, curr_start as int),
            decreases top - curr_line,
        {
            proof {
                lemma_line_end(t, curr_start as int);
                lemma_line_bounds_boundary(t, curr_start as int);
                if line_end(t, curr_start as int) < n {
                    lemma_newline_boundary(t, line_end(t, curr_start as int));
                }
            }
            curr_start = self.line_end(curr_start) + 1;
            curr_line = curr_line + 1;
        }
        proof {
            if curr_line < top {
                lemma_nth_line_past_end(t, (curr_line + 1) as nat, top as nat);
            }
        }
        while curr_line >= top && curr_line < top + rows && curr_start <= n
            invariant
                self.wf(),
                t == self.content(),
                n == t.len(),
                self.spec_viewport() == (left, top, cols, rows),
                curr_line >= top ==> out@.len() == curr_line - top,
                curr_line < top ==> out@.len() == 0 && nth_line_start(t, top as nat) > n,
                curr_line <= top + rows,
                curr_start <= n + 1,
                curr_start == nth_line_start(t, curr_line as nat),
                curr_start <= n ==> is_char_boundary(t, curr_start as int),
                forall|i: int|
                    0 <= i < out@.len() ==> shows_line(
                        t,
                        (top + i) as nat,
                        left as nat,
                        cols as nat,
                        (#[trigger] out@[i])@,
                    ),
            decreases top + rows - curr_line,
        {
            proof {
                lemma_line_end(t, curr_start as int);
                lemma_line_bounds_boundary(t, curr_start as int);
                if line_end(t, curr_start as int) < n {
                    lemma_newline_boundary(t, line_end(t, curr_start as int));
                }
            }
            let curr_end: usize = self.line_end(curr_start);
            let start: usize = self.advance_chars(curr_start, left, curr_end);
            let end: usize = self.advance_chars(start, cols, curr_end);
            let s = self.buffer.slice_to_string(start, end - start);
            let ghost old_out = out@;
            proof {
                assert(s@ == visible_text(t, curr_line as nat, left as nat, cols as nat));
            }
            out.push(s);
            proof {
                assert forall|i: int| 0 <= i < out@.len() implies shows_line(
                    t,
                    (top + i) as nat,
                    left as nat,
                    cols as nat,
                    (#[trigger] out@[i])@,
                ) by {
                    if i < old_out.len() {
                        assert(out@[i] == old_out[i]);
                    } else {
                        assert(top + i == curr_line);
                    }
                }
            }
            curr_start = curr_end + 1;
            curr_line = curr_line + 1;
        }
        proof {
            if curr_line < top {
                assert(out@.len() == 0);
            } else if curr_line < top + rows {
                assert(curr_start > n);
                assert(top + out@.len() == curr_line);
            } else {
                assert(out@.len() == rows);
            }
        }
        out
    }

    /// Removing `[from, to)` keeps the rest well-formed when both are boundaries and the
    /// range holds `k` line breaks.
    proof fn lemma_remove_newlines(&self, from: int, to: int, k: nat)
        requires
            self.wf(),
            0 <= from <= to <= self.content().len(),
            is_char_boundary(self.content(), from),
            is_char_boundary(self.content(), to),
            count_newlines(self.content().subrange(from, to)) == k,
        ensures
            ({
                let t = self.content();
                let r = t.take(from) + t.skip(to);
                &&& count_newlines(r) + k == count_newlines(t)
                &&& valid_utf8(r)
                &&& is_char_boundary(r, from)
            }),
    {
        let t = self.content();
        assert(t =~= t.take(from) + t.subrange(from, to) + t.skip(to));
        lemma_count_newlines_concat(t.take(from), t.subrange(from, to));
        lemma_count_newlines_concat(t.take(from) + t.subrange(from, to), t.skip(to));
        lemma_count_newlines_concat(t.take(from), t.skip(to));
        crate::utf8::lemma_boundary_subrange_prefix(t, from, from);
        vstd::utf8::valid_utf8_split(t, to);
        crate::utf8::lemma_boundary_concat(t.take(from), t.skip(to), from);
        is_char_boundary_start_end_of_seq(t.take(from));
    }

    /// The character between two adjacent boundaries: its bytes hold a line break
    /// exactly when its first byte is one.
    proof fn lemma_one_char(&self, start: int, cur: int)
        requires
            self.wf(),
            0 <= start < cur <= self.content().len(),
            is_char_boundary(self.content(), start),
            is_char_boundary(self.content(), cur),
            prev_b(self.content(), cur) == start,
        ensures
            ({
                let t = self.content();
                let r = t.take(start) + t.skip(cur);
                &&& cur == start + width_at(t, start)
                &&& count_newlines(r) + (if t[start] == newline() {
                    1nat
                } else {
                    0nat
                }) == count_newlines(t)
                &&& valid_utf8(r)
                &&& is_char_boundary(r, start)
            }),
    {
        let t = self.content();
        crate::utf8::lemma_width_leading_byte(t, start);
        let w = width_at(t, start);
        if start + w < cur {
            lemma_prev_b_last(t, cur, start + w);
        }
        if cur < start + w {
            lemma_inside_char(t, start, cur);
        }
        assert(cur == start + w);
        lemma_char_newlines(t, start);
        self.lemma_remove_newlines(start, cur, if t[start] == newline() {
            1nat
        } else {
            0nat
        });
    }

    /// The column (in characters) of `offset` within its line.
    fn char_column(&self, offset: usize) -> (res: usize)
        requires
            self.wf(),
            offset <= self.content().len(),
            is_char_boundary(self.content(), offset as int),
        ensures
            res == char_column(self.content(), offset as int),
    {
        let ghost t = self.content();
        proof {
            lemma_line_start(t, offset as int);
            lemma_line_bounds_boundary(t, offset as int);
        }
        let start: usize = self.line_start(offset);
        let mut p: usize = start;
        let mut k: usize = 0;
        while p < offset
            invariant
                self.wf(),
                t == self.content(),
                start <= p <= offset <= t.len(),
                is_char_boundary(t, p as int),
                is_char_boundary(t, offset as int),
                is_char_boundary(t, start as int),
                k <= p - start,
                chars_between(t, start as int, offset as int).len() == k + chars_between(
                    t,
                    p as int,
                    offset as int,
                ).len(),
            decreases offset - p,
        {
            proof {
                lemma_chars_step(t, p as int, offset as int);
                crate::utf8::lemma_width_leading_byte(t, p as int);
            }
            p = self.next_boundary(p);
            k = k + 1;
        }
        proof {
            assert(t.subrange(offset as int, offset as int) =~= Seq::<u8>::empty());
        }
        k
    }

    /// The line (from 0) of `offset`: the number of line breaks before it.
    fn line_number(&self, offset: usize) -> (res: usize)
        requires
            self.wf(),
            offset <= self.content().len(),
        ensures
            res == line_number(self.content(), offset as int),
    {
        let ghost t = self.content();
        let mut i: usize = 0;
        let mut count: usize = 0;
        proof {
            assert(t.take(0) =~= Seq::<u8>::empty());
        }
        while i < offset
            invariant
                self.wf(),
                t == self.content(),
                i <= offset <= t.len(),
                count == count_newlines(t.take(i as int)),
                count <= i,
            decreases offset - i,
        {
            proof {
                lemma_count_newlines_take(t, i as int);
            }
            if self.is_newline_at(i) {
                count = count + 1;
            }
            i = i + 1;
        }
        count
    }

    /// The start of the line that holds `offset`.
    fn line_start(&self, offset: usize) -> (res: usize)
        requires
            self.wf(),
            offset <= self.content().len(),
        ensures
            res == line_start(self.content(), offset as int),
    {
        let ghost t = self.content();
        let mut i: usize = offset;
        while i > 0 && !self.is_newline_at(i - 1)
            invariant
                self.wf(),
                t == self.content(),
                i <= offset <= t.len(),
                line_start(t, i as int) == line_start(t, offset as int),
            decreases i,
        {
            i = i - 1;
        }
        i
    }

    /// The end of the line that holds `offset`.
    fn line_end(&self, offset: usize) -> (res: usize)
        requires
            self.wf(),
            offset <= self.content().len(),
        ensures
            res == line_end(self.content(), offset as int),
    {
        let ghost t = self.content();
        let n: usize = self.buffer.len();
        let mut i: usize = offset;
        while i < n && !self.is_newline_at(i)
            invariant
                self.wf(),
                t == self.content(),
                n == t.len(),
                offset <= i <= n,
                line_end(t, i as int) == line_end(t, offset as int),
            decreases n - i,
        {
            i = i + 1;
        }
        i
    }

    /// Whether the byte at `i` is a line break.
    fn is_newline_at(&self, i: usize) -> (res: bool)
        requires
            self.wf(),
            i < self.content().len(),
        ensures
            res == (self.content()[i as int] == newline()),
    {
        match self.buffer.byte_at(i) {
            Some(b) => b == 10,
            None => false,
        }
    }

    /// The offset reached from `offset` by stepping over `n` characters, stopping at `limit`.
    fn advance_chars(&self, offset: usize, n: usize, limit: usize) -> (res: usize)
        requires
            self.wf(),
            offset <= limit <= self.content().len(),
            is_char_boundary(self.content(), offset as int),
            is_char_boundary(self.content(), limit as int),
        ensures
            res == advance(self.content(), offset as int, n as nat, limit as int),
            offset <= res <= limit,
            is_char_boundary(self.content(), res as int),
    {
        let ghost t = self.content();
        if offset >= limit {
            return offset;
        }
        let mut p: usize = offset;
        let mut k: usize = 0;
        proof {
            lemma_chars_encode(t, offset as int, limit as int);
            assert(t.subrange(offset as int, offset as int) =~= Seq::<u8>::empty());
            assert(chars_between(t, offset as int, limit as int).take(0) =~= Seq::<char>::empty());
        }
        while k < n && p < limit
            invariant
                self.wf(),
                t == self.content(),
                offset <= p <= limit <= t.len(),
                is_char_boundary(t, p as int),
                is_char_boundary(t, offset as int),
                is_char_boundary(t, limit as int),
                k <= n,
                chars_between(t, offset as int, p as int) == chars_between(
                    t,
                    offset as int,
                    limit as int,
                ).take(k as int),
                k <= chars_between(t, offset as int, limit as int).len(),
            decreases limit - p,
        {
            proof {
                lemma_chars_step(t, p as int, limit as int);
                let w = width_at(t, p as int);
                lemma_chars_split(t, offset as int, p as int, limit as int);
                lemma_chars_split(t, offset as int, p as int, p + w);
                lemma_chars_step(t, p as int, p + w);
                assert(t.subrange(p + w, p + w) =~= Seq::<u8>::empty());
                assert(chars_between(t, offset as int, p + w) =~= chars_between(
                    t,
                    offset as int,
                    limit as int,
                ).take(k + 1));
            }
            p = self.next_boundary(p);
            k = k + 1;
        }
        proof {
            lemma_chars_encode(t, offset as int, p as int);
            lemma_chars_encode(t, offset as int, limit as int);
            let all = chars_between(t, offset as int, limit as int);
            if k < n {
                assert(p == limit);
                assert(all =~= all.take(k as int));
            } else if n == all.len() {
                assert(all.take(n as int) =~= all);
                assert(p - offset == limit - offset);
            }
        }
        p
    }

    /// The boundary after the character at `offset`, or the end of the text.
    fn next_boundary(&self, offset: usize) -> (res: usize)
        requires
            self.wf(),
            offset <= self.content().len(),
            is_char_boundary(self.content(), offset as int),
        ensures
            res == next_b(self.content(), offset as int),
            offset <= res <= self.content().len(),
            is_char_boundary(self.content(), res as int),
            offset < self.content().len() ==> offset < res,
    {
        proof {
            crate::utf8::lemma_boundary_bytes(self.content(), offset as int);
            is_char_boundary_start_end_of_seq(self.content());
        }
        match self.buffer.next_char_boundary(offset) {
            Some(i) => i,
            None => self.buffer.len(),
        }
    }

    /// The last boundary before `offset`, or 0.
    fn prev_boundary(&self, offset: usize) -> (res: usize)
        requires
            self.wf(),
            offset <= self.content().len(),
        ensures
            res == prev_b(self.content(), offset as int),
    {
        match self.buffer.prev_char_boundary(offset) {
            Some(i) => {
                proof {
                    lemma_prev_b(self.content(), offset as int, i as int);
                }
                i
            },
            None => 0,
        }
    }

    /// Whether a word character starts at `offset`.
    fn is_word_char(&self, offset: usize) -> (res: bool)
        requires
            self.wf(),
        ensures
            res == is_word_at(self.content(), offset as int),
    {
        match self.buffer.char_at(offset) {
            Some(c) => word_char(c, is_alphanumeric(c)),
            None => false,
        }
    }
}

/// Whether `c` counts for moving by words, given whether it is alphanumeric.
pub fn word_char(c: char, alphanumeric: bool) -> (res: bool)
    ensures
        res == word_char_rule(c, alphanumeric),
{
    alphanumeric || c == '_'
}

impl Default for Editor {
    /// An empty text, with one line and an empty view.
    fn default() -> (res: Self)
        ensures
            res.wf(),
            res.content() == Seq::<u8>::empty(),
            res.spec_cursor() == 0,
            res.spec_preferred_col() is None,
            res.spec_viewport() == (0usize, 0usize, 0usize, 0usize),
    {
        let buffer = Rope::default();
        proof {
            is_char_boundary_start_end_of_seq(buffer@);
            assert(count_newlines(Seq::<u8>::empty()) == 0);
        }
        Self {
            buffer,
            cursor: 0,
            preferred_col: None,
            line_count: 1,
            viewport_left: 0,
            viewport_top: 0,
            viewport_cols: 0,
            viewport_rows: 0,
        }
    }
}

/// The number of line breaks in `s`.
pub fn count_newline_bytes(s: &str) -> (res: usize)
    ensures
        res == count_newlines(s.spec_bytes()),
{
    let b = s.as_bytes();
    let mut i: usize = 0;
    let mut count: usize = 0;
    proof {
        assert(b@.take(0) =~= Seq::<u8>::empty());
    }
    while i < b.len()
        invariant
            b@ == s.spec_bytes(),
            i <= b@.len(),
            count == count_newlines(b@.take(i as int)),
            count <= i,
        decreases b@.len() - i,
    {
        proof {
            lemma_count_newlines_take(b@, i as int);
        }
        if b[i] == 10 {
            count = count + 1;
        }
        i = i + 1;
    }
    proof {
        assert(b@.take(b@.len() as int) =~= b@);
    }
    count
}

/// Past the end of the text, every later line start is past it too.
pub proof fn lemma_nth_line_past_end(t: Seq<u8>, k1: nat, k2: nat)
    requires
        k1 <= k2,
        nth_line_start(t, k1) > t.len(),
    ensures
        nth_line_start(t, k2) > t.len(),
    decreases k2,
{
    if k1 < k2 {
        lemma_nth_line_past_end(t, k1, (k2 - 1) as nat);
    }
}

/// `prev_b` of `c` is at least any boundary below `c`.
pub proof fn lemma_prev_b_last(t: Seq<u8>, c: int, j: int)
    requires
        valid_utf8(t),
        0 < j < c <= t.len(),
        is_char_boundary(t, j),
    ensures
        prev_b(t, c) >= j,
    decreases c,
{
    if !is_char_boundary(t, c - 1) {
        if j < c - 1 {
            lemma_prev_b_last(t, c - 1, j);
        }
    }
}

/// Deleting back after inserting a character removes exactly that character: the
/// cursor returns to where the character was inserted and the text is as before.
pub proof fn lemma_insert_then_delete_back(t: Seq<u8>, cur: int, c: char)
    requires
        valid_utf8(t),
        0 <= cur <= t.len(),
        is_char_boundary(t, cur),
    ensures
        ({
            let e = encode_scalar(c as u32);
            let t2 = t.take(cur) + e + t.skip(cur);
            &&& prev_b(t2, cur + e.len()) == cur
            &&& t2.take(cur) + t2.skip(cur + e.len()) == t
        }),
{
    let e = encode_scalar(c as u32);
    let t2 = t.take(cur) + e + t.skip(cur);
    char_is_scalar(c);
    assert(seq![c].drop_first() =~= Seq::<char>::empty());
    assert(seq![c][0] == c);
    assert(encode_utf8(seq![c]) =~= e + encode_utf8(Seq::<char>::empty()));
    assert(e + encode_utf8(Seq::<char>::empty()) =~= e);
    encode_utf8_valid_utf8(seq![c]);
    encode_utf8_first_scalar(seq![c]);
    valid_utf8_split(t, cur);
    valid_utf8_concat(t.take(cur), e);
    crate::utf8::lemma_boundary_concat(t.take(cur) + e, t.skip(cur), cur);
    crate::utf8::lemma_boundary_concat(t.take(cur), e, cur);
    crate::utf8::lemma_boundary_concat(t.take(cur) + e, t.skip(cur), cur + e.len());
    crate::utf8::lemma_boundary_concat(t.take(cur), e, cur + e.len());
    is_char_boundary_start_end_of_seq(e);
    is_char_boundary_start_end_of_seq(t.take(cur));
    assert(e.skip(0) =~= e);
    assert forall|j: int| cur < j <= cur + e.len() - 1 implies !is_char_boundary(t2, j) by {
        crate::utf8::lemma_boundary_concat(t.take(cur) + e, t.skip(cur), j);
        crate::utf8::lemma_boundary_concat(t.take(cur), e, j);
        lemma_inside_char(e, 0, j - cur);
    }
    lemma_prev_b(t2, cur + e.len(), cur);
    assert(t2.take(cur) =~= t.take(cur));
    assert(t2.skip(cur + e.len()) =~= t.skip(cur));
    assert(t.take(cur) + t.skip(cur) =~= t);
}

/// Moving left then right returns the cursor to where it was, except at the start.
pub proof fn lemma_left_then_right(t: Seq<u8>, c: int)
    requires
        valid_utf8(t),
        0 < c <= t.len(),
        is_char_boundary(t, c),
    ensures
        next_b(t, prev_b(t, c)) == c,
{
    lemma_prev_b_bounds(t, c);
    let p = prev_b(t, c);
    crate::utf8::lemma_width_leading_byte(t, p);
    let w = width_at(t, p);
    if p + w < c {
        lemma_prev_b_last(t, c, p + w);
    }
    if c < p + w {
        lemma_inside_char(t, p, c);
    }
}

/// Moving right then left returns the cursor to where it was, except at the end.
pub proof fn lemma_right_then_left(t: Seq<u8>, c: int)
    requires
        valid_utf8(t),
        0 <= c < t.len(),
        is_char_boundary(t, c),
    ensures
        prev_b(t, next_b(t, c)) == c,
{
    crate::utf8::lemma_width_leading_byte(t, c);
    let w = width_at(t, c);
    assert forall|j: int| c < j <= c + w - 1 implies !is_char_boundary(t, j) by {
        lemma_inside_char(t, c, j);
    }
    lemma_prev_b(t, c + w, c);
}

/// Going to the start of the line twice is going there once; likewise for the end.
pub proof fn lemma_home_end_idempotent(t: Seq<u8>, c: int)
    requires
        0 <= c <= t.len(),
    ensures
        line_start(t, line_start(t, c)) == line_start(t, c),
        line_end(t, line_end(t, c)) == line_end(t, c),
{
    lemma_line_start(t, c);
    lemma_line_end(t, c);
}

/// A line that starts at `m` and has no line break before `x` holds `x`.
proof fn lemma_line_start_at(t: Seq<u8>, m: int, x: int)
    requires
        0 <= m <= x <= t.len(),
        m == 0 || t[m - 1] == newline(),
        forall|k: int| m <= k < x ==> t[k] != newline(),
    ensures
        line_start(t, x) == m,
    decreases x,
{
    if x > m {
        lemma_line_start_at(t, m, x - 1);
    }
}

/// Stepping from `s` over as many characters as lie between `s` and `p` reaches `p`.
proof fn lemma_advance_to(t: Seq<u8>, s: int, p: int, e: int)
    requires
        valid_utf8(t),
        0 <= s <= p <= e <= t.len(),
        is_char_boundary(t, s),
        is_char_boundary(t, p),
        is_char_boundary(t, e),
    ensures
        advance(t, s, chars_between(t, s, p).len(), e) == p,
{
    let n = chars_between(t, s, p).len();
    let cs = chars_between(t, s, e);
    lemma_chars_split(t, s, p, e);
    if s < e {
        if n < cs.len() {
            assert(cs.take(n as int) =~= chars_between(t, s, p));
            lemma_chars_encode(t, s, p);
        } else if p < e {
            lemma_chars_step(t, p, e);
        }
    }
}

/// Over the text: aiming down and then up from `c` comes back to `c`.
proof fn lemma_down_then_up(t: Seq<u8>, c: int, pref: Option<usize>)
    requires
        valid_utf8(t),
        t.len() <= usize::MAX,
        0 <= c <= t.len(),
        is_char_boundary(t, c),
        line_end(t, c) < t.len(),
        kept_col(t, c, pref) == char_column(t, c),
    ensures
        up_target(t, down_target(t, c, pref), down_pref(t, c, pref)) == c,
{
    let ls = line_start(t, c);
    let end = line_end(t, c);
    let k = char_column(t, c);
    lemma_line_start(t, c);
    lemma_line_end(t, c);
    lemma_line_bounds_boundary(t, c);
    lemma_chars_encode(t, ls, c);
    crate::rope::lemma_encode_len(chars_between(t, ls, c));
    assert(k <= t.len());
    let ns = end + 1;
    let le2 = line_end(t, ns);
    lemma_line_end(t, ns);
    lemma_newline_boundary(t, end);
    lemma_line_bounds_boundary(t, ns);
    let c1 = down_target(t, c, pref);
    let cs = chars_between(t, ns, le2);
    if ns < le2 && k < cs.len() {
        assert(cs =~= cs.take(k as int) + cs.skip(k as int));
        crate::utf8::lemma_encode_concat(cs.take(k as int), cs.skip(k as int));
        lemma_chars_encode(t, ns, le2);
    }
    assert(ns <= c1 <= le2);
    lemma_line_start_at(t, ns, c1);
    lemma_line_start_at(t, ls, end);
    assert(kept_col(t, c1, down_pref(t, c, pref)) == k);
    lemma_advance_to(t, ls, c, end);
}

/// Moving down and then up returns the cursor to where it was, when it is not on the
/// last line and the column kept for moving is its own (as it is when none is kept):
/// `before` is the editor, `down` the editor after `move_down`, and `up` the editor
/// after `move_up` on that, as their contracts describe them.
pub proof fn lemma_move_down_then_up(before: Editor, down: Editor, up: Editor)
    requires
        before.wf(),
        line_end(before.content(), before.spec_cursor()) < before.content().len(),
        kept_col(before.content(), before.spec_cursor(), before.spec_preferred_col())
            == char_column(before.content(), before.spec_cursor()),
        down.content() == before.content(),
        down.spec_cursor() == down_target(
            before.content(),
            before.spec_cursor(),
            before.spec_preferred_col(),
        ),
        down.spec_preferred_col() == down_pref(
            before.content(),
            before.spec_cursor(),
            before.spec_preferred_col(),
        ),
        up.spec_cursor() == up_target(down.content(), down.spec_cursor(), down.spec_preferred_col()),
    ensures
        up.spec_cursor() == before.spec_cursor(),
{
    lemma_down_then_up(before.content(), before.spec_cursor(), before.spec_preferred_col());
}

/// Where scrolling puts the view's start on one axis (`scroll_axis`), for a cursor at
/// `pos` and a view of `size` starting at `start`: when the view is more than twice the
/// margin of 4 across, the cursor ends up inside it, at least 4 from its start (unless
/// the cursor is nearer than that to 0) and at least 4 before its end. The view moves only
/// as far as that needs: when it moves back it starts 4 before the cursor (or at 0), and
/// when it moves forward it ends 4 after the cursor.
pub proof fn lemma_scroll_axis(pos: int, start: int, size: int)
    requires
        pos >= 0,
        start >= 0,
        size >= 0,
    ensures
        scroll_axis(pos, start, size) >= 0,
        scroll_axis(pos, start, size) < start ==> scroll_axis(pos, start, size) == if pos >= 4 {
            pos - 4
        } else {
            0
        },
        scroll_axis(pos, start, size) > start ==> scroll_axis(pos, start, size) + size == pos + 5,
        size > 8 ==> scroll_axis(pos, start, size) <= pos < scroll_axis(pos, start, size) + size,
        size > 8 && pos >= 4 ==> scroll_axis(pos, start, size) <= pos - 4,
        size > 8 ==> pos + 4 < scroll_axis(pos, start, size) + size,
{
}

/// Scrolling the editor to its cursor: when the view is more than 8 lines tall and 8
/// columns wide, the cursor's line and column end up inside the view, 4 away from its
/// edges where the text allows, and the view moves no farther than that needs.
/// `before` is the editor and `after` the editor after `scroll_to_cursor`, as its
/// contract describes it.
pub proof fn lemma_scroll_keeps_cursor_in_view(before: Editor, after: Editor)
    requires
        before.wf(),
        after.spec_viewport().0 == scroll_axis(
            char_column(before.content(), before.spec_cursor()) as int,
            before.spec_viewport().0 as int,
            before.spec_viewport().2 as int,
        ),
        after.spec_viewport().1 == scroll_axis(
            line_number(before.content(), before.spec_cursor()) as int,
            before.spec_viewport().1 as int,
            before.spec_viewport().3 as int,
        ),
        after.spec_viewport().2 == before.spec_viewport().2,
        after.spec_viewport().3 == before.spec_viewport().3,
    ensures
        ({
            let col = char_column(before.content(), before.spec_cursor());
            let row = line_number(before.content(), before.spec_cursor());
            let (left, top, cols, rows) = after.spec_viewport();
            &&& rows > 8 ==> top <= row < top + rows && row + 4 < top + rows
            &&& rows > 8 && row >= 4 ==> top + 4 <= row
            &&& cols > 8 ==> left <= col < left + cols && col + 4 < left + cols
            &&& cols > 8 && col >= 4 ==> left + 4 <= col
            &&& top < before.spec_viewport().1 ==> top == if row >= 4 {
                row - 4
            } else {
                0
            }
            &&& top > before.spec_viewport().1 ==> top + rows == row + 5
            &&& left < before.spec_viewport().0 ==> left == if col >= 4 {
                col - 4
            } else {
                0
            }
            &&& left > before.spec_viewport().0 ==> left + cols == col + 5
        }),
{
    let col = char_column(before.content(), before.spec_cursor());
    let row = line_number(before.content(), before.spec_cursor());
    lemma_scroll_axis(col as int, before.spec_viewport().0 as int, before.spec_viewport().2 as int);
    lemma_scroll_axis(row as int, before.spec_viewport().1 as int, before.spec_viewport().3 as int);
}

/// The start of a line that exists is a character boundary.
proof fn lemma_nth_line_start_boundary(t: Seq<u8>, k: nat)
    requires
        valid_utf8(t),
        nth_line_start(t, k) <= t.len(),
    ensures
        0 <= nth_line_start(t, k),
        is_char_boundary(t, nth_line_start(t, k)),
    decreases k,
{
    is_char_boundary_start_end_of_seq(t);
    if k > 0 {
        let p = nth_line_start(t, (k - 1) as nat);
        if p > t.len() {
            assert(line_end(t, p) == t.len());
        } else {
            lemma_nth_line_start_boundary(t, (k - 1) as nat);
            lemma_line_end(t, p);
            lemma_newline_boundary(t, line_end(t, p));
        }
    }
}

/// Stepping over `n` characters from `s` towards `e` lands on a boundary that splits
/// the characters between them after the first `n` (or all of them).
proof fn lemma_advance_chars(t: Seq<u8>, s: int, n: nat, e: int)
    requires
        valid_utf8(t),
        0 <= s <= e <= t.len(),
        is_char_boundary(t, s),
        is_char_boundary(t, e),
    ensures
        ({
            let cs = chars_between(t, s, e);
            let m = if n < cs.len() {
                n as int
            } else {
                cs.len() as int
            };
            let a = advance(t, s, n, e);
            &&& s <= a <= e
            &&& is_char_boundary(t, a)
            &&& chars_between(t, s, a) == cs.take(m)
            &&& chars_between(t, a, e) == cs.skip(m)
        }),
{
    let cs = chars_between(t, s, e);
    lemma_chars_encode(t, s, e);
    if s == e {
        encode_utf8_decode_utf8(Seq::<char>::empty());
        assert(t.subrange(s, e) =~= Seq::<u8>::empty());
        assert(encode_utf8(Seq::<char>::empty()) =~= Seq::<u8>::empty());
        assert(cs =~= Seq::<char>::empty());
        assert(cs.take(0) =~= cs);
        assert(cs.skip(0) =~= cs);
    } else if n < cs.len() {
        let x = cs.take(n as int);
        let y = cs.skip(n as int);
        assert(cs =~= x + y);
        crate::utf8::lemma_encode_concat(x, y);
        let ex = encode_utf8(x);
        let ey = encode_utf8(y);
        let a = s + ex.len();
        assert(t.subrange(s, e) == ex + ey);
        assert(t.subrange(s, a) =~= ex);
        let whole = t.subrange(s, e);
        assert(whole.len() == ex.len() + ey.len());
        assert forall|i: int| 0 <= i < ey.len() implies t.subrange(a, e)[i] == ey[i] by {
            assert(whole[ex.len() + i] == (ex + ey)[ex.len() + i]);
            assert(whole[ex.len() + i] == t[s + ex.len() + i]);
        }
        assert(t.subrange(a, e) =~= ey);
        encode_utf8_decode_utf8(x);
        encode_utf8_decode_utf8(y);
        encode_utf8_valid_utf8(x);
        encode_utf8_valid_utf8(y);
        crate::utf8::lemma_boundary_concat(ex, ey, ex.len() as int);
        is_char_boundary_start_end_of_seq(ex);
        crate::utf8::lemma_boundary_subrange(t, s, e, a);
    } else {
        assert(cs.take(cs.len() as int) =~= cs);
        assert(t.subrange(e, e) =~= Seq::<u8>::empty());
        encode_utf8_decode_utf8(Seq::<char>::empty());
        assert(encode_utf8(Seq::<char>::empty()) =~= Seq::<u8>::empty());
        assert(cs.skip(cs.len() as int) =~= Seq::<char>::empty());
    }
}

/// What the view shows of an existing line `k` is that line's characters with the
/// first `left` dropped, then cut to `cols` characters.
pub proof fn lemma_visible_text_window(t: Seq<u8>, k: nat, left: nat, cols: nat)
    requires
        valid_utf8(t),
        nth_line_start(t, k) <= t.len(),
    ensures
        ({
            let s = nth_line_start(t, k);
            let line = chars_between(t, s, line_end(t, s));
            let rest = line.skip(if left < line.len() { left as int } else { line.len() as int });
            visible_text(t, k, left, cols) == rest.take(
                if cols < rest.len() {
                    cols as int
                } else {
                    rest.len() as int
                },
            )
        }),
{
    let s = nth_line_start(t, k);
    lemma_nth_line_start_boundary(t, k);
    lemma_line_bounds_boundary(t, s);
    lemma_line_end(t, s);
    let e = line_end(t, s);
    lemma_advance_chars(t, s, left, e);
    let vs = advance(t, s, left, e);
    lemma_advance_chars(t, vs, cols, e);
}

/// A segment whose only line break is its last byte holds one line break.
proof fn lemma_one_newline_at_end(x: Seq<u8>)
    requires
        x.len() > 0,
        x.last() == newline(),
        forall|k: int| 0 <= k < x.len() - 1 ==> x[k] != newline(),
    ensures
        count_newlines(x) == 1,
{
    lemma_count_newlines_none(x.drop_last());
}

/// Deleting the cursor's line takes out the whole line: a line that is not the last
/// goes with the line break that ends it, and the last line goes with the line break
/// before it (or the text becomes empty when it is the only line). Either way the text
/// has one line fewer, unless it had only one. `before` is the editor and `after` the
/// editor after `delete_line`, as its contract describes it.
#[verifier::rlimit(40)]
#[verifier::spinoff_prover]
pub proof fn lemma_delete_line_removes_the_line(before: Editor, after: Editor)
    requires
        before.wf(),
        after.wf(),
        after.content() == before.content().take(
            line_deletion(before.content(), before.spec_cursor()).0,
        ) + before.content().skip(line_deletion(before.content(), before.spec_cursor()).1),
        after.spec_cursor() == line_deletion(before.content(), before.spec_cursor()).0,
    ensures
        ({
            let t = before.content();
            let ls = line_start(t, before.spec_cursor());
            let le = line_end(t, before.spec_cursor());
            &&& le < t.len() ==> after.content() == t.take(ls) + t.skip(le + 1)
                && after.spec_cursor() == ls
            &&& le == t.len() && ls > 0 ==> after.content() == t.take(ls - 1)
                && after.spec_cursor() == ls - 1
            &&& le == t.len() && ls == 0 ==> after.content().len() == 0 && after.spec_cursor()
                == 0
            &&& before.spec_line_count() > 1 ==> after.spec_line_count()
                == before.spec_line_count() - 1
            &&& before.spec_line_count() == 1 ==> after.spec_line_count() == 1
        }),
{
    let t = before.content();
    let c = before.spec_cursor();
    let ls = line_start(t, c);
    let le = line_end(t, c);
    lemma_line_start(t, c);
    lemma_line_end(t, c);
    let (from, to) = line_deletion(t, c);
    let mid = t.subrange(from, to);
    assert(t =~= t.take(from) + mid + t.skip(to));
    lemma_count_newlines_concat(t.take(from) + mid, t.skip(to));
    lemma_count_newlines_concat(t.take(from), mid);
    lemma_count_newlines_concat(t.take(from), t.skip(to));
    if le < t.len() {
        lemma_one_newline_at_end(mid);
    } else if ls > 0 {
        assert(t.skip(le) =~= Seq::<u8>::empty());
        assert(t.take(ls - 1) + Seq::<u8>::empty() =~= t.take(ls - 1));
        assert(mid =~= seq![newline()] + t.subrange(ls, le));
        lemma_count_newlines_concat(seq![newline()], t.subrange(ls, le));
        lemma_count_newlines_single(newline());
        lemma_count_newlines_none(t.subrange(ls, le));
    } else {
        assert(mid =~= t);
        lemma_count_newlines_none(t);
        assert(after.content() =~= Seq::<u8>::empty());
        assert(count_newlines(Seq::<u8>::empty()) == 0);
    }
}

/// Skipping forward from a boundary stops at a boundary, after passing only
/// characters whose word-ness is `word`, and at a character whose word-ness is not.
proof fn lemma_skip_forward(t: Seq<u8>, c: int, word: bool)
    requires
        valid_utf8(t),
        0 <= c <= t.len(),
        is_char_boundary(t, c),
    ensures
        c <= skip_forward(t, c, word) <= t.len(),
        is_char_boundary(t, skip_forward(t, c, word)),
        forall|j: int|
            c <= j < skip_forward(t, c, word) && is_char_boundary(t, j) ==> #[trigger] is_word_at(
                t,
                j,
            ) == word,
        skip_forward(t, c, word) < t.len() ==> is_word_at(t, skip_forward(t, c, word)) != word,
    decreases t.len() - c,
{
    if c < t.len() {
        crate::utf8::lemma_width_leading_byte(t, c);
        let n = next_b(t, c);
        if is_word_at(t, c) == word {
            lemma_skip_forward(t, n, word);
            assert forall|j: int|
                c <= j < skip_forward(t, c, word) && is_char_boundary(t, j) implies #[trigger] is_word_at(
                t,
                j,
            ) == word by {
                if c < j && j < n {
                    lemma_inside_char(t, c, j);
                }
            }
        }
    }
}

/// Moving right by a word passes the characters that are not alphanumeric and not
/// `_`, then the run of characters that are alphanumeric or `_`, and stops at the next
/// character that is neither, or at the end of the text.
pub proof fn lemma_word_right_passes_one_word(t: Seq<u8>, c: int)
    requires
        valid_utf8(t),
        0 <= c <= t.len(),
        is_char_boundary(t, c),
    ensures
        ({
            let s = skip_forward(t, c, false);
            let w = word_right(t, c);
            &&& c <= s <= w <= t.len()
            &&& is_char_boundary(t, w)
            &&& forall|j: int|
                c <= j < s && is_char_boundary(t, j) ==> (#[trigger] char_at_spec(t, j) matches Some(
                    ch,
                ) && !crate::std_calls::char_is_alphanumeric(ch) && ch != '_')
            &&& forall|j: int|
                s <= j < w && is_char_boundary(t, j) ==> (#[trigger] char_at_spec(t, j) matches Some(
                    ch,
                ) && (crate::std_calls::char_is_alphanumeric(ch) || ch == '_'))
            &&& w < t.len() ==> (char_at_spec(t, w) matches Some(ch)
                && !crate::std_calls::char_is_alphanumeric(ch) && ch != '_')
        }),
{
    lemma_skip_forward(t, c, false);
    let s = skip_forward(t, c, false);
    lemma_skip_forward(t, s, true);
    let w = word_right(t, c);
    assert forall|j: int| c <= j < s && is_char_boundary(t, j) implies (#[trigger] char_at_spec(
        t,
        j,
    ) matches Some(ch) && !crate::std_calls::char_is_alphanumeric(ch) && ch != '_') by {
        assert(is_word_at(t, j) == false);
    }
    assert forall|j: int| s <= j < w && is_char_boundary(t, j) implies (#[trigger] char_at_spec(
        t,
        j,
    ) matches Some(ch) && (crate::std_calls::char_is_alphanumeric(ch) || ch == '_')) by {
        assert(is_word_at(t, j) == true);
    }
}

/// With no line break from `x` to `y`, both lie on the same line.
proof fn lemma_same_line(t: Seq<u8>, x: int, y: int)
    requires
        0 <= x <= y <= t.len(),
        forall|k: int| x <= k < y ==> t[k] != newline(),
    ensures
        count_newlines(t.take(x)) == count_newlines(t.take(y)),
    decreases y - x,
{
    if x < y {
        lemma_same_line(t, x, y - 1);
        lemma_count_newlines_take(t, y - 1);
    }
}

/// Moving up from any line but the first lands on the line above.
pub proof fn lemma_up_moves_one_line(t: Seq<u8>, c: int, pref: Option<usize>)
    requires
        valid_utf8(t),
        0 <= c <= t.len(),
        is_char_boundary(t, c),
        line_start(t, c) > 0,
    ensures
        line_number(t, up_target(t, c, pref)) + 1 == line_number(t, c),
{
    let ls = line_start(t, c);
    lemma_line_start(t, c);
    lemma_same_line(t, ls, c);
    lemma_count_newlines_take(t, ls - 1);
    let ps = line_start(t, ls - 1);
    lemma_line_start(t, ls - 1);
    lemma_line_bounds_boundary(t, ls - 1);
    lemma_newline_boundary(t, ls - 1);
    lemma_advance_chars(t, ps, kept_col(t, c, pref), ls - 1);
    let u = up_target(t, c, pref);
    lemma_same_line(t, u, ls - 1);
}

/// Moving down from any line but the last lands on the line below.
pub proof fn lemma_down_moves_one_line(t: Seq<u8>, c: int, pref: Option<usize>)
    requires
        valid_utf8(t),
        0 <= c <= t.len(),
        is_char_boundary(t, c),
        line_end(t, c) < t.len(),
    ensures
        line_number(t, down_target(t, c, pref)) == line_number(t, c) + 1,
{
    let le = line_end(t, c);
    lemma_line_end(t, c);
    lemma_same_line(t, c, le);
    lemma_count_newlines_take(t, le);
    let ns = le + 1;
    lemma_newline_boundary(t, le);
    lemma_line_end(t, ns);
    lemma_line_bounds_boundary(t, ns);
    lemma_advance_chars(t, ns, kept_col(t, c, pref), line_end(t, ns));
    let u = down_target(t, c, pref);
    lemma_same_line(t, ns, u);
}

/// Skipping back from a boundary stops at a boundary, after passing only characters
/// whose word-ness is `word`, and just after a character whose word-ness is not.
proof fn lemma_skip_back(t: Seq<u8>, c: int, word: bool)
    requires
        valid_utf8(t),
        0 <= c <= t.len(),
        is_char_boundary(t, c),
    ensures
        0 <= skip_back(t, c, word) <= c,
        is_char_boundary(t, skip_back(t, c, word)),
        forall|j: int|
            skip_back(t, c, word) <= j < c && is_char_boundary(t, j) ==> #[trigger] is_word_at(
                t,
                j,
            ) == word,
        skip_back(t, c, word) > 0 ==> is_word_at(t, prev_b(t, skip_back(t, c, word))) != word,
    decreases c,
{
    if c > 0 {
        lemma_prev_b_bounds(t, c);
        let p = prev_b(t, c);
        if is_word_at(t, p) == word {
            lemma_skip_back(t, p, word);
            assert forall|j: int|
                skip_back(t, c, word) <= j < c && is_char_boundary(t, j) implies #[trigger] is_word_at(
                t,
                j,
            ) == word by {
                if p < j && j < c {
                    lemma_prev_b_last(t, c, j);
                }
            }
        }
    }
}

/// Moving left by a word passes back over the characters that are not alphanumeric
/// and not `_`, then over the run of characters that are alphanumeric or `_`, and stops
/// just after the character before that run that is neither, or at the start.
pub proof fn lemma_word_left_passes_one_word(t: Seq<u8>, c: int)
    requires
        valid_utf8(t),
        0 <= c <= t.len(),
        is_char_boundary(t, c),
    ensures
        ({
            let s = skip_back(t, c, false);
            let w = word_left(t, c);
            &&& 0 <= w <= s <= c
            &&& is_char_boundary(t, w)
            &&& forall|j: int|
                s <= j < c && is_char_boundary(t, j) ==> (#[trigger] char_at_spec(t, j) matches Some(
                    ch,
                ) && !crate::std_calls::char_is_alphanumeric(ch) && ch != '_')
            &&& forall|j: int|
                w <= j < s && is_char_boundary(t, j) ==> (#[trigger] char_at_spec(t, j) matches Some(
                    ch,
                ) && (crate::std_calls::char_is_alphanumeric(ch) || ch == '_'))
            &&& w > 0 ==> (char_at_spec(t, prev_b(t, w)) matches Some(ch)
                && !crate::std_calls::char_is_alphanumeric(ch) && ch != '_')
        }),
{
    lemma_skip_back(t, c, false);
    let s = skip_back(t, c, false);
    lemma_skip_back(t, s, true);
    let w = word_left(t, c);
    if w > 0 {
        lemma_prev_b_bounds(t, w);
    }
    assert forall|j: int| s <= j < c && is_char_boundary(t, j) implies (#[trigger] char_at_spec(
        t,
        j,
    ) matches Some(ch) && !crate::std_calls::char_is_alphanumeric(ch) && ch != '_') by {
        assert(is_word_at(t, j) == false);
    }
    assert forall|j: int| w <= j < s && is_char_boundary(t, j) implies (#[trigger] char_at_spec(
        t,
        j,
    ) matches Some(ch) && (crate::std_calls::char_is_alphanumeric(ch) || ch == '_')) by {
        assert(is_word_at(t, j) == true);
    }
}

} // verus!
