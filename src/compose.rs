use vstd::prelude::*;

use crate::text::{trim, trim_chars, chars_of, is_whitespace, is_ws, lemma_line_end_bounds, line_end, find_line_end, string_of, strip_cr};
use crate::types::ComposeFocus;

verus! {

/// Row and column reached after walking the characters of `t`.
pub open spec fn line_col(t: Seq<char>) -> (nat, nat)
    decreases t.len(),
{
    if t.len() == 0 {
        (0, 0)
    } else {
        let p = line_col(t.drop_last());
        if t.last() == '\n' {
            (p.0 + 1, 0)
        } else {
            (p.0, p.1 + 1)
        }
    }
}

pub proof fn lemma_line_col_bound(t: Seq<char>)
    ensures
        line_col(t).0 <= t.len(),
        line_col(t).1 <= t.len(),
    decreases t.len(),
{
    if t.len() > 0 {
        lemma_line_col_bound(t.drop_last());
    }
}

pub open spec fn min_nat(a: int, b: int) -> int {
    if a <= b { a } else { b }
}

/// The end of the line starting at `start`, kept between `start` and the end of `t`.
pub open spec fn clamped_end(t: Seq<char>, start: int) -> int {
    if line_end(t, start) < start {
        start
    } else if line_end(t, start) > t.len() {
        t.len() as int
    } else {
        line_end(t, start)
    }
}

/// Character index of (`row`, `col`) when `t` is read as lines (a line's trailing carriage
/// return not counted, no empty line after a final newline), from the line at `start` whose
/// first index is `acc`; the column is cut to the line's length, and a row past the last line
/// gives the index after all lines (never past the largest `usize`).
pub open spec fn row_col_index(t: Seq<char>, start: int, acc: int, row: nat, col: nat) -> int
    decreases t.len() + 1 - start,
{
    if start < 0 || start >= t.len() {
        acc
    } else {
        let e = clamped_end(t, start);
        let l = strip_cr(t.subrange(start, e)).len() as int;
        if row == 0 {
            acc + min_nat(col as int, l)
        } else {
            row_col_index(t, e + 1, min_nat(acc + l + 1, usize::MAX as int), (row - 1) as nat, col)
        }
    }
}

/// The `row`-th piece of `t` split at every `'\n'`, from the piece at `start`.
pub open spec fn piece(t: Seq<char>, start: int, row: nat) -> Option<Seq<char>>
    decreases t.len() + 1 - start, row,
{
    if start < 0 || start > t.len() {
        None
    } else {
        let e = clamped_end(t, start);
        if row == 0 {
            Some(t.subrange(start, e))
        } else if e >= t.len() {
            None
        } else {
            piece(t, e + 1, (row - 1) as nat)
        }
    }
}

pub fn text_char_len(text: &str) -> (r: usize)
    ensures
        r == text@.len(),
{
    use_len(text)
}

fn use_len(text: &str) -> (r: usize)
    ensures
        r == text@.len(),
{
    chars_of(text).len()
}

pub fn clamp_cursor(cursor: usize, text: &str) -> (r: usize)
    ensures
        r == min_nat(cursor as int, text@.len() as int),
{
    let n = text_char_len(text);
    if cursor < n { cursor } else { n }
}

fn line_col_of(t: &[char], cursor: usize) -> (r: (usize, usize))
    ensures
        r.0 == line_col(t@.subrange(0, min_nat(cursor as int, t@.len() as int))).0,
        r.1 == line_col(t@.subrange(0, min_nat(cursor as int, t@.len() as int))).1,
{
    let max = if cursor < t.len() { cursor } else { t.len() };
    let mut line: usize = 0;
    let mut col: usize = 0;
    let mut i: usize = 0;
    while i < max
        invariant
            max <= t@.len(),
            i <= max,
            max == min_nat(cursor as int, t@.len() as int),
            line == line_col(t@.subrange(0, i as int)).0,
            col == line_col(t@.subrange(0, i as int)).1,
        decreases max - i,
    {
        proof {
            let s1 = t@.subrange(0, i as int + 1);
            assert(s1.drop_last() =~= t@.subrange(0, i as int));
            lemma_line_col_bound(t@.subrange(0, i as int));
        }
        if t[i] == '\n' {
            line += 1;
            col = 0;
        } else {
            col += 1;
        }
        i += 1;
    }
    (line, col)
}

/// Row and column of a cursor given as a character index (cut to the text).
pub fn cursor_line_col(text: &str, cursor: usize) -> (r: (usize, usize))
    ensures
        r.0 == line_col(text@.subrange(0, min_nat(cursor as int, text@.len() as int))).0,
        r.1 == line_col(text@.subrange(0, min_nat(cursor as int, text@.len() as int))).1,
{
    line_col_of(&chars_of(text), cursor)
}

pub fn cursor_from_char_index(text: &str, index: usize) -> (r: (usize, usize))
    ensures
        r.0 == line_col(text@.subrange(0, min_nat(index as int, text@.len() as int))).0,
        r.1 == line_col(text@.subrange(0, min_nat(index as int, text@.len() as int))).1,
{
    cursor_line_col(text, index)
}

fn index_of(t: &[char], row: usize, col: usize) -> (r: usize)
    ensures
        r as int == row_col_index(t@, 0, 0, row as nat, col as nat),
{
    let mut idx: usize = 0;
    let mut start: usize = 0;
    let mut r: usize = row;
    while start < t.len()
        invariant
            idx <= start <= t@.len(),
            row_col_index(t@, 0, 0, row as nat, col as nat) == row_col_index(t@, start as int, idx as int, r as nat, col as nat),
        decreases t.len() - start,
    {
        let e = find_line_end(t, start);
        proof {
            lemma_line_end_bounds(t@, start as int);
        }
        let mut l: usize = e - start;
        if l > 0 && t[e - 1] == '\r' {
            l = l - 1;
        }
        proof {
            assert(strip_cr(t@.subrange(start as int, e as int)).len() == l);
        }
        if r == 0 {
            let c = if col < l { col } else { l };
            return idx + c;
        }
        idx = if idx + l < usize::MAX { idx + l + 1 } else { usize::MAX };
        r = r - 1;
        if e >= t.len() {
            proof {
                assert(row_col_index(t@, e as int + 1, idx as int, r as nat, col as nat) == idx);
            }
            return idx;
        }
        start = e + 1;
    }
    idx
}

/// Character index of a row and column, reading the text as lines.
pub fn char_index_from_row_col(text: &str, row: usize, col: usize) -> (r: usize)
    ensures
        r as int == row_col_index(text@, 0, 0, row as nat, col as nat),
{
    index_of(&chars_of(text), row, col)
}

/// Removes the character at a character index; an index past the end changes nothing.
pub fn remove_char_at(text: &mut String, char_idx: usize)
    ensures
        char_idx < old(text)@.len() ==> final(text)@ == old(text)@.remove(char_idx as int),
        char_idx >= old(text)@.len() ==> final(text)@ == old(text)@,
{
    let mut t = chars_of(text.as_str());
    if char_idx < t.len() {
        t.remove(char_idx);
        *text = string_of(&t);
    }
}

/// `t` with the characters between `start` and `end` (both cut to the text) replaced.
pub open spec fn range_replaced(t: Seq<char>, start: int, end: int, rep: Seq<char>) -> Seq<char> {
    let s = min_nat(start, t.len() as int);
    let e = min_nat(end, t.len() as int);
    if s <= e {
        t.subrange(0, s) + rep + t.subrange(e, t.len() as int)
    } else {
        t
    }
}

/// Replaces a range of characters, both ends cut to the text; a reversed range changes nothing.
pub fn replace_range_chars(text: &mut String, start: usize, end: usize, replacement: &str)
    ensures
        final(text)@ == range_replaced(old(text)@, start as int, end as int, replacement@),
{
    let t = chars_of(text.as_str());
    let s = if start < t.len() { start } else { t.len() };
    let e = if end < t.len() { end } else { t.len() };
    if s <= e {
        let mut out = crate::text::slice_chars(&t, 0, s);
        crate::text::append_chars(&mut out, &chars_of(replacement));
        crate::text::append_chars(&mut out, &crate::text::slice_chars(&t, e, t.len()));
        *text = string_of(&out);
    }
}

pub fn move_cursor_left(text: &str, cursor: &mut usize)
    ensures
        *final(cursor) == if min_nat(*old(cursor) as int, text@.len() as int) > 0 {
            min_nat(*old(cursor) as int, text@.len() as int) - 1
        } else {
            0
        },
{
    let c = clamp_cursor(*cursor, text);
    *cursor = if c > 0 { c - 1 } else { 0 };
}

pub fn move_cursor_right(text: &str, cursor: &mut usize)
    ensures
        *final(cursor) == if min_nat(*old(cursor) as int, text@.len() as int) < text@.len() {
            min_nat(*old(cursor) as int, text@.len() as int) + 1
        } else {
            text@.len() as int
        },
{
    let n = text_char_len(text);
    let c = clamp_cursor(*cursor, text);
    *cursor = if c < n { c + 1 } else { n };
}

/// The next position in a list of `len` entries, wrapping to the start.
pub fn next_index(current: usize, len: usize) -> (r: usize)
    ensures
        len == 0 ==> r == 0,
        len > 0 ==> r == (current as int + 1) % (len as int),
{
    if len == 0 {
        0
    } else {
        ((current as u128 + 1) % (len as u128)) as usize
    }
}

/// The previous position in a list of `len` entries, wrapping to the end.
pub fn prev_index(current: usize, len: usize) -> (r: usize)
    ensures
        r == if len == 0 { 0 } else if current == 0 { len - 1 } else { current - 1 },
{
    if len == 0 {
        0
    } else if current == 0 {
        len - 1
    } else {
        current - 1
    }
}

pub fn compose_focus_next(current: ComposeFocus) -> (r: ComposeFocus)
    ensures
        r == match current {
            ComposeFocus::To => ComposeFocus::Cc,
            ComposeFocus::Cc => ComposeFocus::Bcc,
            ComposeFocus::Bcc => ComposeFocus::Subject,
            ComposeFocus::Subject => ComposeFocus::Body,
            ComposeFocus::Body => ComposeFocus::To,
        },
{
    match current {
        ComposeFocus::To => ComposeFocus::Cc,
        ComposeFocus::Cc => ComposeFocus::Bcc,
        ComposeFocus::Bcc => ComposeFocus::Subject,
        ComposeFocus::Subject => ComposeFocus::Body,
        ComposeFocus::Body => ComposeFocus::To,
    }
}

pub fn compose_focus_prev(current: ComposeFocus) -> (r: ComposeFocus)
    ensures
        r == match current {
            ComposeFocus::To => ComposeFocus::Body,
            ComposeFocus::Cc => ComposeFocus::To,
            ComposeFocus::Bcc => ComposeFocus::Cc,
            ComposeFocus::Subject => ComposeFocus::Bcc,
            ComposeFocus::Body => ComposeFocus::Subject,
        },
{
    match current {
        ComposeFocus::To => ComposeFocus::Body,
        ComposeFocus::Cc => ComposeFocus::To,
        ComposeFocus::Bcc => ComposeFocus::Cc,
        ComposeFocus::Subject => ComposeFocus::Bcc,
        ComposeFocus::Body => ComposeFocus::Subject,
    }
}

/// Whether `[start, end)` overlaps one of the ranges.
pub fn range_overlaps(ranges: &[(usize, usize)], start: usize, end: usize) -> (r: bool)
    ensures
        r == exists|k: int| 0 <= k < ranges@.len() && start < (#[trigger] ranges@[k]).1 && ranges@[k].0 < end,
{
    let mut k: usize = 0;
    while k < ranges.len()
        invariant
            k <= ranges@.len(),
            forall|j: int| 0 <= j < k ==> !(start < (#[trigger] ranges@[j]).1 && ranges@[j].0 < end),
        decreases ranges.len() - k,
    {
        if start < ranges[k].1 && ranges[k].0 < end {
            return true;
        }
        k += 1;
    }
    false
}

/// First position at or after `i` that holds whitespace, or the end.
pub open spec fn skip_word(t: Seq<char>, i: int) -> int
    decreases t.len() - i,
{
    if i < 0 || i >= t.len() || is_ws(t[i]) {
        i
    } else {
        skip_word(t, i + 1)
    }
}

/// First position at or after `i` that does not hold whitespace, or the end.
pub open spec fn skip_space(t: Seq<char>, i: int) -> int
    decreases t.len() - i,
{
    if i < 0 || i >= t.len() || !is_ws(t[i]) {
        i
    } else {
        skip_space(t, i + 1)
    }
}

/// Walks back from `i` over whitespace under the position.
pub open spec fn back_space(t: Seq<char>, i: int) -> int
    decreases i,
{
    if i <= 0 || i >= t.len() || !is_ws(t[i]) {
        i
    } else {
        back_space(t, i - 1)
    }
}

/// Walks back from `i` to the start of the word that ends there.
pub open spec fn back_word(t: Seq<char>, i: int) -> int
    decreases i,
{
    if i <= 0 || i > t.len() || is_ws(t[i - 1]) {
        i
    } else {
        back_word(t, i - 1)
    }
}

/// The editable body of a message being composed, with a cursor as a character index.
pub struct ComposeBuffer {
    pub text: Vec<char>,
    pub cursor: usize,
    pub tab_len: u8,
    pub scroll_top: usize,
}

/// The piece `row` of `t`, or nothing.
pub open spec fn piece_or_empty(t: Seq<char>, row: nat) -> Seq<char> {
    match piece(t, 0, row) {
        Some(l) => l,
        None => Seq::empty(),
    }
}

fn piece_bounds(t: &[char], row: usize) -> (r: Option<(usize, usize)>)
    ensures
        r is None <==> piece(t@, 0, row as nat) is None,
        r matches Some(b) ==> b.0 <= b.1 <= t@.len() && piece(t@, 0, row as nat) == Some(t@.subrange(b.0 as int, b.1 as int)),
        r matches Some(b) ==> b.1 as int == clamped_end(t@, b.0 as int),
{
    let mut start: usize = 0;
    let mut k: usize = row;
    loop
        invariant
            start <= t@.len(),
            piece(t@, 0, row as nat) == piece(t@, start as int, k as nat),
        decreases t.len() - start,
    {
        let e = find_line_end(t, start);
        proof {
            lemma_line_end_bounds(t@, start as int);
        }
        if k == 0 {
            return Some((start, e));
        }
        if e >= t.len() {
            return None;
        }
        start = e + 1;
        k = k - 1;
    }
}

impl ComposeBuffer {
    pub open spec fn pos(&self) -> int {
        min_nat(self.cursor as int, self.text@.len() as int)
    }

    /// Row and column of the cursor.
    pub open spec fn cursor_rc(&self) -> (nat, nat) {
        line_col(self.text@.subrange(0, self.pos()))
    }

    pub fn new(text: &str) -> (r: Self)
        ensures
            r.text@ == text@,
            r.cursor == 0,
            r.tab_len == 4,
            r.scroll_top == 0,
    {
        ComposeBuffer { text: chars_of(text), cursor: 0, tab_len: 4, scroll_top: 0 }
    }

    pub fn text(&self) -> (r: String)
        ensures
            r@ == self.text@,
    {
        string_of(&self.text)
    }

    pub fn is_empty(&self) -> (r: bool)
        ensures
            r == (self.text@.len() == 0),
    {
        self.text.len() == 0
    }

    /// Row and column of the cursor.
    pub fn cursor(&self) -> (r: (usize, usize))
        ensures
            r.0 == self.cursor_rc().0,
            r.1 == self.cursor_rc().1,
    {
        line_col_of(&self.text, self.cursor)
    }

    /// Puts the cursor at a row and column, reading the text as lines.
    pub fn set_cursor(&mut self, row: usize, col: usize)
        ensures
            final(self).text@ == old(self).text@,
            final(self).scroll_top == old(self).scroll_top,
            final(self).cursor as int == row_col_index(old(self).text@, 0, 0, row as nat, col as nat),
    {
        self.cursor = index_of(&self.text, row, col);
    }

    /// The text split at every newline.
    pub fn lines(&self) -> (r: Vec<String>)
        ensures
            forall|k: int| 0 <= k < r@.len() ==> piece(self.text@, 0, k as nat) == Some((#[trigger] r@[k])@),
            piece(self.text@, 0, r@.len() as nat) is None,
    {
        let mut out: Vec<String> = Vec::new();
        let mut start: usize = 0;
        loop
            invariant
                start <= self.text@.len(),
                forall|k: int| 0 <= k < out@.len() ==> piece(self.text@, 0, k as nat) == Some((#[trigger] out@[k])@),
                forall|k: nat| #[trigger] piece(self.text@, 0, out@.len() + k) == piece(self.text@, start as int, k),
            decreases self.text.len() - start,
        {
            let e = find_line_end(&self.text, start);
            proof {
                lemma_line_end_bounds(self.text@, start as int);
            }
            let seg = crate::text::slice_chars(&self.text, start, e);
            assert(clamped_end(self.text@, start as int) == e);
            let ghost n = out@.len();
            out.push(string_of(&seg));
            proof {
                assert(piece(self.text@, 0, n as nat + 0) == piece(self.text@, start as int, 0));
                assert forall|k: int| 0 <= k < out@.len() implies piece(self.text@, 0, k as nat) == Some((#[trigger] out@[k])@) by {
                    if k == n {
                        assert(piece(self.text@, 0, n as nat + 0) == Some(seg@));
                    }
                }
            }
            if e >= self.text.len() {
                proof {
                    assert(piece(self.text@, 0, n as nat + 1) == piece(self.text@, start as int, 1));
                    assert(piece(self.text@, start as int, 1) is None);
                    assert(out@.len() == n + 1);
                }
                return out;
            }
            proof {
                assert forall|k: nat| #[trigger] piece(self.text@, 0, out@.len() + k) == piece(self.text@, e as int + 1, k) by {
                    assert(piece(self.text@, 0, n as nat + (k + 1)) == piece(self.text@, start as int, k + 1));
                }
            }
            start = e + 1;
        }
    }

    /// Keeps the cursor row inside a window of `height` rows starting at `scroll_top`.
    pub fn update_scroll(&mut self, height: usize)
        ensures
            final(self).text@ == old(self).text@,
            final(self).cursor == old(self).cursor,
            final(self).scroll_top == if height == 0 {
                old(self).scroll_top as int
            } else if old(self).cursor_rc().0 < old(self).scroll_top {
                old(self).cursor_rc().0 as int
            } else if old(self).scroll_top + height <= old(self).cursor_rc().0 {
                old(self).cursor_rc().0 + 1 - height
            } else {
                old(self).scroll_top as int
            },
    {
        if height == 0 {
            return;
        }
        let (row, _col) = self.cursor();
        if row < self.scroll_top {
            self.scroll_top = row;
        } else if height <= row - self.scroll_top {
            self.scroll_top = row - height + 1;
        }
    }

    pub fn scroll_top(&self) -> (r: usize)
        ensures
            r == self.scroll_top,
    {
        self.scroll_top
    }

    /// Inserts a character at the cursor; a carriage return or newline inserts a newline.
    pub fn insert_char(&mut self, ch: char)
        ensures
            final(self).text@ == old(self).text@.insert(old(self).pos(), if ch == '\n' || ch == '\r' { '\n' } else { ch }),
            final(self).cursor == if old(self).cursor == usize::MAX { usize::MAX } else { (old(self).cursor + 1) as usize },
            final(self).scroll_top == old(self).scroll_top,
    {
        if ch == '\n' || ch == '\r' {
            self.insert_newline();
            return;
        }
        let p = if self.cursor < self.text.len() { self.cursor } else { self.text.len() };
        self.text.insert(p, ch);
        self.cursor = if self.cursor == usize::MAX { usize::MAX } else { self.cursor + 1 };
    }

    pub fn insert_newline(&mut self)
        ensures
            final(self).text@ == old(self).text@.insert(old(self).pos(), '\n'),
            final(self).cursor == if old(self).cursor == usize::MAX { usize::MAX } else { (old(self).cursor + 1) as usize },
            final(self).scroll_top == old(self).scroll_top,
    {
        let p = if self.cursor < self.text.len() { self.cursor } else { self.text.len() };
        self.text.insert(p, '\n');
        self.cursor = if self.cursor == usize::MAX { usize::MAX } else { self.cursor + 1 };
    }

    /// Deletes the character before the cursor.
    pub fn delete_prev_char(&mut self)
        ensures
            old(self).cursor == 0 ==> final(self).text@ == old(self).text@ && final(self).cursor == 0,
            old(self).cursor > 0 ==> final(self).cursor == old(self).cursor - 1 && final(self).text@ == if old(self).cursor - 1
                < old(self).text@.len() {
                old(self).text@.remove(old(self).cursor - 1)
            } else {
                old(self).text@
            },
            final(self).scroll_top == old(self).scroll_top,
    {
        if self.cursor == 0 {
            return;
        }
        let idx = self.cursor - 1;
        if idx < self.text.len() {
            self.text.remove(idx);
        }
        self.cursor = idx;
    }

    /// Deletes the character under the cursor.
    pub fn delete_next_char(&mut self)
        ensures
            final(self).cursor == old(self).cursor,
            final(self).text@ == if old(self).cursor < old(self).text@.len() {
                old(self).text@.remove(old(self).cursor as int)
            } else {
                old(self).text@
            },
            final(self).scroll_top == old(self).scroll_top,
    {
        if self.cursor >= self.text.len() {
            return;
        }
        self.text.remove(self.cursor);
    }

    pub fn move_cursor_back(&mut self)
        ensures
            final(self).text@ == old(self).text@,
            final(self).cursor == if old(self).cursor > 0 { old(self).cursor - 1 } else { 0 },
            final(self).scroll_top == old(self).scroll_top,
    {
        if self.cursor > 0 {
            self.cursor -= 1;
        }
    }

    pub fn move_cursor_forward(&mut self)
        ensures
            final(self).text@ == old(self).text@,
            final(self).cursor == if old(self).cursor < old(self).text@.len() { old(self).cursor + 1 } else { old(self).cursor as int },
            final(self).scroll_top == old(self).scroll_top,
    {
        if self.cursor < self.text.len() {
            self.cursor += 1;
        }
    }

    /// Moves the cursor to the start of its row.
    pub fn move_cursor_head(&mut self)
        ensures
            final(self).text@ == old(self).text@,
            final(self).cursor as int == row_col_index(old(self).text@, 0, 0, old(self).cursor_rc().0, 0),
            final(self).scroll_top == old(self).scroll_top,
    {
        let (row, _col) = self.cursor();
        self.cursor = index_of(&self.text, row, 0);
    }

    /// Moves the cursor to the end of its row.
    pub fn move_cursor_end(&mut self)
        ensures
            final(self).text@ == old(self).text@,
            final(self).cursor as int == row_col_index(
                old(self).text@,
                0,
                0,
                old(self).cursor_rc().0,
                piece_or_empty(old(self).text@, old(self).cursor_rc().0).len(),
            ),
            final(self).scroll_top == old(self).scroll_top,
    {
        let (row, _col) = self.cursor();
        let col = match piece_bounds(&self.text, row) {
            Some((a, b)) => b - a,
            None => 0,
        };
        self.cursor = index_of(&self.text, row, col);
    }

    /// Moves the cursor one row up, keeping its column where the row above allows.
    pub fn move_cursor_up(&mut self)
        ensures
            final(self).text@ == old(self).text@,
            old(self).cursor_rc().0 == 0 ==> final(self).cursor == old(self).cursor,
            old(self).cursor_rc().0 > 0 ==> final(self).cursor as int == row_col_index(
                old(self).text@,
                0,
                0,
                (old(self).cursor_rc().0 - 1) as nat,
                min_nat(
                    old(self).cursor_rc().1 as int,
                    piece_or_empty(old(self).text@, (old(self).cursor_rc().0 - 1) as nat).len() as int,
                ) as nat,
            ),
            final(self).scroll_top == old(self).scroll_top,
    {
        let (row, col) = self.cursor();
        if row == 0 {
            return;
        }
        let prev_len = match piece_bounds(&self.text, row - 1) {
            Some((a, b)) => b - a,
            None => 0,
        };
        let c = if col < prev_len { col } else { prev_len };
        self.cursor = index_of(&self.text, row - 1, c);
    }

    /// Moves the cursor past the rest of the current word and the whitespace after it.
    pub fn move_cursor_word_forward(&mut self)
        ensures
            final(self).text@ == old(self).text@,
            final(self).cursor as int == skip_space(old(self).text@, skip_word(old(self).text@, old(self).pos())),
            final(self).scroll_top == old(self).scroll_top,
    {
        let n = self.text.len();
        let mut idx: usize = if self.cursor < n { self.cursor } else { n };
        let ghost start_pos = idx as int;
        while idx < n && !is_whitespace(self.text[idx])
            invariant
                n == self.text@.len(),
                idx <= n,
                skip_word(self.text@, start_pos) == skip_word(self.text@, idx as int),
            decreases n - idx,
        {
            idx += 1;
        }
        let ghost after_run = idx as int;
        while idx < n && is_whitespace(self.text[idx])
            invariant
                n == self.text@.len(),
                idx <= n,
                after_run == skip_word(self.text@, start_pos),
                skip_space(self.text@, after_run) == skip_space(self.text@, idx as int),
            decreases n - idx,
        {
            idx += 1;
        }
        self.cursor = idx;
    }

    /// Moves the cursor back to the start of the previous word.
    pub fn move_cursor_word_back(&mut self)
        ensures
            final(self).text@ == old(self).text@,
            old(self).text@.len() == 0 ==> final(self).cursor == old(self).cursor,
            old(self).text@.len() > 0 ==> final(self).cursor as int == back_word(
                old(self).text@,
                back_space(old(self).text@, if old(self).pos() > 0 { old(self).pos() - 1 } else { 0 }),
            ),
            final(self).scroll_top == old(self).scroll_top,
    {
        let n = self.text.len();
        if n == 0 {
            return;
        }
        let mut idx: usize = if self.cursor < n { self.cursor } else { n };
        if idx > 0 {
            idx -= 1;
        }
        let ghost start_pos = idx as int;
        while idx > 0 && is_whitespace(self.text[idx])
            invariant
                n == self.text@.len(),
                idx < n,
                back_space(self.text@, start_pos) == back_space(self.text@, idx as int),
            decreases idx,
        {
            idx -= 1;
        }
        let ghost after_run = idx as int;
        while idx > 0 && !is_whitespace(self.text[idx - 1])
            invariant
                n == self.text@.len(),
                idx < n,
                after_run == back_space(self.text@, start_pos),
                back_word(self.text@, after_run) == back_word(self.text@, idx as int),
            decreases idx,
        {
            idx -= 1;
        }
        self.cursor = idx;
    }

    /// Deletes the cursor's row with its newline and puts the cursor where the row began.
    pub fn delete_line_by_end(&mut self)
        ensures
            ({
                let row = old(self).cursor_rc().0;
                let start = row_col_index(old(self).text@, 0, 0, row, 0);
                let end0 = min_nat(start + piece_or_empty(old(self).text@, row).len(), usize::MAX as int);
                let end = if end0 < old(self).text@.len() { end0 + 1 } else { end0 };
                &&& final(self).text@ == range_replaced(old(self).text@, start, end, Seq::empty())
                &&& final(self).cursor == if final(self).text@.len() == 0 { 0 } else { min_nat(start, final(self).text@.len() as int) }
            }),
            final(self).scroll_top == old(self).scroll_top,
    {
        let (row, _col) = self.cursor();
        let start = index_of(&self.text, row, 0);
        let l = match piece_bounds(&self.text, row) {
            Some((a, b)) => b - a,
            None => 0,
        };
        let mut end: usize = if start <= usize::MAX - l { start + l } else { usize::MAX };
        if end < self.text.len() {
            end = end + 1;
        }
        let t = &self.text;
        let s = if start < t.len() { start } else { t.len() };
        let e = if end < t.len() { end } else { t.len() };
        if s <= e {
            let mut out = crate::text::slice_chars(t, 0, s);
            crate::text::append_chars(&mut out, &crate::text::slice_chars(t, e, t.len()));
            self.text = out;
        }
        proof {
            assert(self.text@ =~= range_replaced(old(self).text@, start as int, end as int, Seq::empty()));
        }
        if self.text.len() == 0 {
            self.cursor = 0;
        } else {
            self.cursor = if start < self.text.len() { start } else { self.text.len() };
        }
    }

    /// The piece of the text at `row` when split at every newline.
    pub fn line_at(&self, row: usize) -> (r: Option<String>)
        ensures
            r is None <==> piece(self.text@, 0, row as nat) is None,
            r matches Some(l) ==> piece(self.text@, 0, row as nat) == Some(l@),
    {
        match piece_bounds(&self.text, row) {
            Some((a, b)) => Some(string_of(&crate::text::slice_chars(&self.text, a, b))),
            None => None,
        }
    }
}

/// A character that separates addresses in a recipient field.
pub open spec fn addr_sep(c: char) -> bool {
    c == ',' || c == ';' || is_ws(c)
}

/// Walks back from `i` over the characters of the address that ends there.
pub open spec fn token_start(t: Seq<char>, i: int) -> int
    decreases i,
{
    if i <= 0 || i > t.len() || addr_sep(t[i - 1]) {
        i
    } else {
        token_start(t, i - 1)
    }
}

/// Walks forward from `i` to the end of the address under it.
pub open spec fn token_end(t: Seq<char>, i: int) -> int
    decreases t.len() - i,
{
    if i < 0 || i >= t.len() || addr_sep(t[i]) {
        i
    } else {
        token_end(t, i + 1)
    }
}

/// The address being typed at the cursor: its start, its end and its text, when the cursor
/// stands at its end and it is not blank.
pub open spec fn token_at(t: Seq<char>, cursor: int) -> Option<(int, int, Seq<char>)> {
    if cursor > t.len() || token_end(t, cursor) != cursor || token_start(t, cursor) >= cursor
        || trim(t.subrange(token_start(t, cursor), cursor)).len() == 0 {
        None
    } else {
        Some((token_start(t, cursor), cursor, t.subrange(token_start(t, cursor), cursor)))
    }
}

pub fn compose_token_at_cursor(text: &str, cursor: usize) -> (r: Option<(usize, usize, String)>)
    ensures
        r is None <==> token_at(text@, cursor as int) is None,
        r matches Some(x) ==> token_at(text@, cursor as int) == Some((x.0 as int, x.1 as int, x.2@)),
{
    let t = chars_of(text);
    if cursor > t.len() {
        return None;
    }
    let mut start: usize = cursor;
    while start > 0 && !(t[start - 1] == ',' || t[start - 1] == ';' || is_whitespace(t[start - 1]))
        invariant
            start <= cursor <= t@.len(),
            t@ == text@,
            token_start(t@, cursor as int) == token_start(t@, start as int),
        decreases start,
    {
        start -= 1;
    }
    let mut end: usize = cursor;
    while end < t.len() && !(t[end] == ',' || t[end] == ';' || is_whitespace(t[end]))
        invariant
            cursor <= end <= t@.len(),
            t@ == text@,
            token_end(t@, cursor as int) == token_end(t@, end as int),
        decreases t.len() - end,
    {
        end += 1;
    }
    if cursor != end || start >= cursor {
        return None;
    }
    let token = crate::text::slice_chars(&t, start, cursor);
    if trim_chars(&token).len() == 0 {
        return None;
    }
    Some((start, end, string_of(&token)))
}

} // verus!
