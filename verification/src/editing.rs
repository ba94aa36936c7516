//! The single-line text-editing core: a text buffer of Unicode scalar
//! values addressed by byte offsets, the selection, and the click-escalation
//! counter, together with the command surface that mutates them.
//!
//! Every command is specified against `EditState`, the mathematical state of
//! a session, by a transition function; the well-formedness predicate
//! `wf_state` — both selection offsets on scalar-value boundaries, in order,
//! inside the text — is established by the constructor and preserved by
//! every command.

use vstd::prelude::*;

verus! {

use crate::segment::ByteRange;
use crate::segment::lemma_scan_valid;
use crate::segment::word_char_ranges;
use crate::segment::words_of;
use crate::unicode::byte_len;
use crate::unicode::byte_of;
use crate::unicode::char_len;
use crate::unicode::chars_of;
use crate::unicode::idx_of;
use crate::unicode::index_of_offset;
use crate::unicode::is_boundary;
use crate::unicode::lemma_byte_len_app;
use crate::unicode::lemma_byte_len_single;
use crate::unicode::lemma_byte_of_full;
use crate::unicode::lemma_byte_of_mono;
use crate::unicode::lemma_byte_of_prefix;
use crate::unicode::lemma_byte_of_zero;
use crate::unicode::lemma_idx_of;
use crate::unicode::offset_of_index;
use crate::unicode::snap;
use crate::unicode::snap_to_boundary;
use crate::unicode::splice;
use crate::unicode::string_from_chars;
use crate::unicode::utf8_byte_length;

/// The mathematical state of one editing session.
pub ghost struct EditState {
    /// The content, as a sequence of Unicode scalar values.
    pub text: Seq<char>,
    /// Start of the selection, a byte offset into the UTF-8 encoding.
    pub sel_start: int,
    /// End of the selection (half-open), a byte offset.
    pub sel_end: int,
    /// Word index of the most recent click.
    pub click_index: int,
    /// Click-escalation counter, 0 when idle.
    pub click_count: int,
}

/// Both selection offsets sit on scalar-value boundaries, in order; the
/// escalation counter is in its resting range; the encoding fits the
/// address space.
pub open spec fn wf_state(st: EditState) -> bool {
    &&& is_boundary(st.text, st.sel_start)
    &&& is_boundary(st.text, st.sel_end)
    &&& st.sel_start <= st.sel_end
    &&& 0 <= st.click_index
    &&& 0 <= st.click_count <= 3
    &&& byte_len(st.text) <= usize::MAX
}

/// A fresh session over `text`: caret collapsed at end-of-text, idle clicks.
pub open spec fn init_state(text: Seq<char>) -> EditState {
    EditState {
        text,
        sel_start: byte_len(text),
        sel_end: byte_len(text),
        click_index: 0,
        click_count: 0,
    }
}

/// The cleared session: empty text, caret at 0, idle clicks.
pub open spec fn reset_state() -> EditState {
    EditState { text: Seq::empty(), sel_start: 0, sel_end: 0, click_index: 0, click_count: 0 }
}

/// The scalar values the selection covers.
pub open spec fn selected_text(st: EditState) -> Seq<char> {
    st.text.subrange(idx_of(st.text, st.sel_start), idx_of(st.text, st.sel_end))
}

/// The selected scalars replaced by `s`, caret collapsed after the
/// insertion; a text mutation, so the click escalation goes idle.
pub open spec fn replace_selection(st: EditState, s: Seq<char>) -> EditState {
    let ci_s = idx_of(st.text, st.sel_start);
    let ci_e = idx_of(st.text, st.sel_end);
    let caret = st.sel_start + byte_len(s);
    EditState {
        text: st.text.take(ci_s) + s + st.text.skip(ci_e),
        sel_start: caret,
        sel_end: caret,
        click_index: 0,
        click_count: 0,
    }
}

pub open spec fn select_all_state(st: EditState) -> EditState {
    EditState { sel_start: 0, sel_end: byte_len(st.text), ..st }
}

pub open spec fn paste_state(st: EditState, clip: Option<Seq<char>>) -> EditState {
    match clip {
        Option::Some(t) => if t.len() == 0 {
            st
        } else {
            replace_selection(st, t)
        },
        Option::None => st,
    }
}

pub open spec fn cut_state(st: EditState) -> EditState {
    replace_selection(st, Seq::empty())
}

pub open spec fn newline_state(st: EditState) -> EditState {
    replace_selection(st, seq!['\n'])
}

/// A collapsed caret steps to the previous scalar-value boundary (no-op at
/// offset 0); an expanded selection collapses to its start.
pub open spec fn move_left_state(st: EditState) -> EditState {
    if st.sel_start == st.sel_end {
        if st.sel_start == 0 {
            st
        } else {
            let caret = byte_of(st.text, idx_of(st.text, st.sel_start) - 1);
            EditState { sel_start: caret, sel_end: caret, ..st }
        }
    } else {
        EditState { sel_end: st.sel_start, ..st }
    }
}

/// A collapsed caret steps to the next scalar-value boundary (no-op at
/// end-of-text); an expanded selection collapses to its end.
pub open spec fn move_right_state(st: EditState) -> EditState {
    if st.sel_start == st.sel_end {
        if st.sel_end == byte_len(st.text) {
            st
        } else {
            let caret = byte_of(st.text, idx_of(st.text, st.sel_end) + 1);
            EditState { sel_start: caret, sel_end: caret, ..st }
        }
    } else {
        EditState { sel_start: st.sel_end, ..st }
    }
}

/// A collapsed caret deletes the one scalar value before it (no-op at
/// offset 0); an expanded selection is deleted whole. Either way the click
/// escalation goes idle.
pub open spec fn backspace_state(st: EditState) -> EditState {
    if st.sel_start == st.sel_end {
        if st.sel_start == 0 {
            EditState { click_index: 0, click_count: 0, ..st }
        } else {
            let i = idx_of(st.text, st.sel_start);
            let caret = byte_of(st.text, i - 1);
            EditState {
                text: st.text.take(i - 1) + st.text.skip(i),
                sel_start: caret,
                sel_end: caret,
                click_index: 0,
                click_count: 0,
            }
        }
    } else {
        replace_selection(st, Seq::empty())
    }
}

/// The click-escalation machine. A click outside every word range is a
/// no-op. A click on a new word index restarts the count at 1 without
/// touching the selection; a repeated click escalates: 2 selects the word,
/// 3 is reserved (line selection is intentionally not implemented), 4
/// selects all and resets the count so the next click starts over.
pub open spec fn click_state(st: EditState, index: int) -> EditState {
    let wr = word_char_ranges(st.text);
    if !(0 <= index < wr.len()) {
        st
    } else {
        let count = if index == st.click_index {
            st.click_count + 1
        } else {
            1
        };
        if count == 2 {
            EditState {
                sel_start: byte_of(st.text, wr[index].0),
                sel_end: byte_of(st.text, wr[index].1),
                click_index: index,
                click_count: 2,
                ..st
            }
        } else if count == 4 {
            EditState {
                sel_start: 0,
                sel_end: byte_len(st.text),
                click_index: index,
                click_count: 0,
                ..st
            }
        } else {
            EditState { click_index: index, click_count: count, ..st }
        }
    }
}

/// Host-supplied offsets, clamped to the text and snapped backward to
/// scalar-value boundaries, in order.
pub open spec fn set_selection_state(st: EditState, p: int, q: int) -> EditState {
    let a = snap(st.text, p);
    let b = snap(st.text, q);
    if a <= b {
        EditState { sel_start: a, sel_end: b, ..st }
    } else {
        EditState { sel_start: b, sel_end: a, ..st }
    }
}

/// A movement request the core forwards to its host without touching the
/// buffer: line navigation is layout-dependent and out of the core's scope.
#[derive(Clone, Copy, PartialEq, Eq, Debug)]
pub enum TextMovement {
    Up,
    Down,
}

/// What the core emits to its host: a change notification carrying the new
/// text, or a movement signal.
#[derive(PartialEq, Debug)]
pub enum TextEvent {
    Input { text: String },
    Movement(TextMovement),
}

/// The editing session: the text, the selection as byte offsets into its
/// UTF-8 encoding, and the click-escalation pair (word index, count).
pub struct TextModel {
    pub text: Vec<char>,
    pub selection: ByteRange,
    pub word_click: (usize, u16),
}

impl View for TextModel {
    type V = EditState;

    open spec fn view(&self) -> EditState {
        EditState {
            text: self.text@,
            sel_start: self.selection.start as int,
            sel_end: self.selection.end as int,
            click_index: self.word_click.0 as int,
            click_count: self.word_click.1 as int,
        }
    }
}

impl TextModel {
    pub open spec fn well_formed(self) -> bool {
        wf_state(self@)
    }

    /// Start a session over `text`, caret collapsed at end-of-text.
    pub fn init(text: String) -> (m: TextModel)
        ensures
            m@ == init_state(text@),
            m.well_formed(),
    {
        let n = utf8_byte_length(text.as_str());
        let chars = chars_of(text.as_str());
        let m = TextModel {
            text: chars,
            selection: ByteRange { start: n, end: n },
            word_click: (0, 0),
        };
        proof {
            lemma_byte_of_full(m.text@);
            assert(is_boundary(m.text@, n as int));
        }
        m
    }

    /// Clear the text and collapse the selection to the origin.
    pub fn reset(&mut self)
        ensures
            final(self)@ == reset_state(),
            final(self).well_formed(),
    {
        self.text = Vec::new();
        self.selection = ByteRange { start: 0, end: 0 };
        self.word_click = (0, 0);
        proof {
            lemma_byte_of_zero(self.text@);
            assert(byte_len(self.text@) == 0);
            assert(is_boundary(self.text@, 0));
        }
    }

    /// The length of the text in bytes of its UTF-8 encoding: the upper
    /// bound of every byte offset, and what a caller checks an insertion
    /// against before asking for one.
    pub fn byte_length(&self) -> (n: usize)
        requires
            self.well_formed(),
        ensures
            n as int == byte_len(self@.text),
    {
        let n = offset_of_index(&self.text, self.text.len());
        proof {
            lemma_byte_of_full(self.text@);
        }
        n
    }

    /// The current text as a string.
    pub fn text_string(&self) -> (r: String)
        ensures
            r@ == self@.text,
    {
        string_from_chars(&self.text)
    }

    /// The change notification a mutating command hands to the host.
    pub fn change_event(&self) -> (e: TextEvent)
        ensures
            (match e {
                TextEvent::Input { text } => text@ == self@.text,
                _ => false,
            }),
    {
        TextEvent::Input { text: string_from_chars(&self.text) }
    }

    /// Forward an Up/Down request as a movement signal; the buffer is
    /// untouched.
    pub fn request_movement(&self, m: TextMovement) -> (e: TextEvent)
        ensures
            (match e {
                TextEvent::Movement(x) => x == m,
                _ => false,
            }),
    {
        TextEvent::Movement(m)
    }

    /// The word ranges of the current text, as byte-offset ranges.
    pub fn word_ranges(&self) -> (r: Vec<ByteRange>)
        requires
            self.well_formed(),
        ensures
            r@.len() == word_char_ranges(self@.text).len(),
            forall|k: int| 0 <= k < r@.len() ==> {
                let w = #[trigger] word_char_ranges(self@.text)[k];
                r@[k].start as int == byte_of(self@.text, w.0) && r@[k].end as int == byte_of(
                    self@.text,
                    w.1,
                )
            },
    {
        words_of(&self.text)
    }

    /// Select the whole text.
    pub fn select_all(&mut self)
        requires
            old(self).well_formed(),
        ensures
            final(self)@ == select_all_state(old(self)@),
            final(self).well_formed(),
    {
        let n = offset_of_index(&self.text, self.text.len());
        self.selection = ByteRange { start: 0, end: n };
        proof {
            lemma_byte_of_zero(self.text@);
            lemma_byte_of_full(self.text@);
            assert(is_boundary(self.text@, 0));
            assert(is_boundary(self.text@, n as int));
        }
    }

    /// The selected text, to hand to the clipboard.
    pub fn copy(&self) -> (r: String)
        requires
            self.well_formed(),
        ensures
            r@ == selected_text(self@),
    {
        proof {
            lemma_idx_of(self.text@, self.selection.start as int);
            lemma_idx_of(self.text@, self.selection.end as int);
        }
        let ci_s = index_of_offset(&self.text, self.selection.start);
        let ci_e = index_of_offset(&self.text, self.selection.end);
        proof {
            if ci_e < ci_s {
                lemma_byte_of_mono(self.text@, ci_e as int, ci_s as int);
            }
        }
        let mut sel: Vec<char> = Vec::new();
        let mut j: usize = ci_s;
        while j < ci_e
            invariant
                ci_s <= j <= ci_e <= self.text@.len(),
                sel@ == self.text@.subrange(ci_s as int, j as int),
            decreases ci_e - j,
        {
            sel.push(self.text[j]);
            proof {
                assert(self.text@.subrange(ci_s as int, j + 1) =~= self.text@.subrange(
                    ci_s as int,
                    j as int,
                ).push(self.text@[j as int]));
            }
            j = j + 1;
        }
        string_from_chars(&sel)
    }

    /// Replace the selected scalar range with `ins`, collapsing the caret
    /// after the insertion.
    fn replace_sel(&mut self, ins: &Vec<char>)
        requires
            old(self).well_formed(),
            byte_len(old(self)@.text) - (old(self)@.sel_end - old(self)@.sel_start) + byte_len(
                ins@,
            ) <= usize::MAX,
        ensures
            final(self)@ == replace_selection(old(self)@, ins@),
            final(self).well_formed(),
    {
        proof {
            lemma_idx_of(self.text@, self.selection.start as int);
            lemma_idx_of(self.text@, self.selection.end as int);
        }
        let ci_s = index_of_offset(&self.text, self.selection.start);
        let ci_e = index_of_offset(&self.text, self.selection.end);
        proof {
            if ci_e < ci_s {
                lemma_byte_of_mono(self.text@, ci_e as int, ci_s as int);
            }
        }
        let ghost s = self.text@;
        let ghost pre = s.take(ci_s as int);
        let ghost suf = s.skip(ci_e as int);
        let new_text = splice(&self.text, ci_s, ci_e, ins);
        proof {
            assert((pre + ins@) + suf =~= new_text@);
            lemma_byte_len_app(pre + ins@, suf);
            lemma_byte_len_app(pre, ins@);
            assert(s.take(ci_e as int) + suf =~= s);
            lemma_byte_len_app(s.take(ci_e as int), suf);
            assert(byte_len(new_text@) == byte_len(s) - (self.selection.end
                - self.selection.start) + byte_len(ins@));
        }
        let ins_b = offset_of_index(ins, ins.len());
        proof {
            lemma_byte_of_full(ins@);
        }
        let caret = self.selection.start + ins_b;
        self.text = new_text;
        self.selection = ByteRange { start: caret, end: caret };
        self.word_click = (0, 0);
        proof {
            assert(self.text@.take(ci_s + ins@.len()) =~= pre + ins@);
            assert(byte_of(self.text@, ci_s + ins@.len()) == caret as int);
            assert(is_boundary(self.text@, caret as int));
        }
    }

    /// Replace the selection with `s` and collapse the caret after it.
    pub fn insert_text(&mut self, s: &str)
        requires
            old(self).well_formed(),
            s@.len() > 0,
            byte_len(old(self)@.text) - (old(self)@.sel_end - old(self)@.sel_start) + byte_len(
                s@,
            ) <= usize::MAX,
        ensures
            final(self)@ == replace_selection(old(self)@, s@),
            final(self).well_formed(),
    {
        let ins = chars_of(s);
        self.replace_sel(&ins);
    }

    /// Paste the clipboard's text over the selection; an empty or
    /// unavailable clipboard is a no-op.
    pub fn paste(&mut self, clipboard: Option<String>)
        requires
            old(self).well_formed(),
            (match clipboard {
                Option::Some(t) => byte_len(old(self)@.text) - (old(self)@.sel_end
                    - old(self)@.sel_start) + byte_len(t@) <= usize::MAX,
                Option::None => true,
            }),
        ensures
            (match clipboard {
                Option::Some(t) => final(self)@ == paste_state(old(self)@, Option::Some(t@)),
                Option::None => final(self)@ == paste_state(old(self)@, Option::None),
            }),
            final(self).well_formed(),
    {
        match clipboard {
            Option::None => {},
            Option::Some(t) => {
                if !t.as_str().is_empty() {
                    let ins = chars_of(t.as_str());
                    self.replace_sel(&ins);
                }
            },
        }
    }

    /// Copy the selected text and delete it, collapsing the caret at the
    /// deletion point; with a collapsed selection the text is unchanged and
    /// the empty string is copied.
    pub fn cut(&mut self) -> (r: String)
        requires
            old(self).well_formed(),
        ensures
            r@ == selected_text(old(self)@),
            final(self)@ == cut_state(old(self)@),
            final(self).well_formed(),
    {
        let r = self.copy();
        let ins: Vec<char> = Vec::new();
        self.replace_sel(&ins);
        r
    }

    /// Replace the selection with a single line-break scalar value, caret
    /// collapsed one byte after it.
    pub fn insert_newline(&mut self)
        requires
            old(self).well_formed(),
            byte_len(old(self)@.text) - (old(self)@.sel_end - old(self)@.sel_start) + 1
                <= usize::MAX,
        ensures
            final(self)@ == newline_state(old(self)@),
            final(self).well_formed(),
    {
        let mut ins: Vec<char> = Vec::new();
        ins.push('\n');
        proof {
            assert(ins@ =~= seq!['\n']);
            lemma_byte_len_single('\n');
            assert(('\n' as u32) < 0x80);
            assert(char_len('\n') == 1);
        }
        self.replace_sel(&ins);
    }

    /// Collapsed caret: step to the previous scalar-value boundary, no-op
    /// at offset 0. Expanded selection: collapse to its start.
    pub fn move_left(&mut self)
        requires
            old(self).well_formed(),
        ensures
            final(self)@ == move_left_state(old(self)@),
            final(self).well_formed(),
    {
        if self.selection.start == self.selection.end {
            if self.selection.start > 0 {
                proof {
                    lemma_idx_of(self.text@, self.selection.start as int);
                }
                let i = index_of_offset(&self.text, self.selection.start);
                proof {
                    lemma_byte_of_zero(self.text@);
                    assert(i >= 1);
                }
                let nb = offset_of_index(&self.text, i - 1);
                self.selection = ByteRange { start: nb, end: nb };
                proof {
                    assert(is_boundary(self.text@, nb as int));
                }
            }
        } else {
            let p = self.selection.start;
            self.selection = ByteRange { start: p, end: p };
        }
    }

    /// Collapsed caret: step to the next scalar-value boundary, no-op at
    /// end-of-text. Expanded selection: collapse to its end.
    pub fn move_right(&mut self)
        requires
            old(self).well_formed(),
        ensures
            final(self)@ == move_right_state(old(self)@),
            final(self).well_formed(),
    {
        let n = offset_of_index(&self.text, self.text.len());
        proof {
            lemma_byte_of_full(self.text@);
            lemma_idx_of(self.text@, self.selection.end as int);
            lemma_byte_of_mono(
                self.text@,
                idx_of(self.text@, self.selection.end as int),
                self.text@.len() as int,
            );
        }
        if self.selection.start == self.selection.end {
            if self.selection.end < n {
                let i = index_of_offset(&self.text, self.selection.end);
                proof {
                    if i == self.text.len() {
                        assert(false);
                    }
                }
                let nb = offset_of_index(&self.text, i + 1);
                self.selection = ByteRange { start: nb, end: nb };
                proof {
                    assert(is_boundary(self.text@, nb as int));
                }
            }
        } else {
            let p = self.selection.end;
            self.selection = ByteRange { start: p, end: p };
        }
    }

    /// Collapsed caret: delete the one scalar value before it, never
    /// splitting a multi-byte encoding; no-op at offset 0. Expanded
    /// selection: delete it whole.
    pub fn backspace(&mut self)
        requires
            old(self).well_formed(),
        ensures
            final(self)@ == backspace_state(old(self)@),
            final(self).well_formed(),
    {
        if self.selection.start == self.selection.end {
            if self.selection.start == 0 {
                self.word_click = (0, 0);
            } else {
                proof {
                    lemma_idx_of(self.text@, self.selection.start as int);
                    lemma_byte_of_zero(self.text@);
                }
                let i = index_of_offset(&self.text, self.selection.start);
                proof {
                    assert(i >= 1);
                }
                let nb = offset_of_index(&self.text, i - 1);
                let ins: Vec<char> = Vec::new();
                let ghost s = self.text@;
                let new_text = splice(&self.text, i - 1, i, &ins);
                proof {
                    assert(s.take(i - 1) + ins@ + s.skip(i as int) =~= s.take(i - 1) + s.skip(
                        i as int,
                    ));
                    assert(new_text@.take(i - 1) =~= s.take(i - 1));
                    lemma_byte_of_prefix(new_text@, s, i - 1, i - 1);
                    assert(is_boundary(new_text@, nb as int));
                    assert(s.take(i as int) + s.skip(i as int) =~= s);
                    assert(s.take(i as int).take(i - 1) =~= s.take(i - 1));
                    assert(s.take(i as int).skip(i - 1) =~= s.subrange(i - 1, i as int));
                    assert(s.take(i - 1) + s.subrange(i - 1, i as int) =~= s.take(i as int));
                    lemma_byte_len_app(s.take(i as int), s.skip(i as int));
                    lemma_byte_len_app(s.take(i - 1), s.subrange(i - 1, i as int));
                    lemma_byte_len_app(s.take(i - 1), s.skip(i as int));
                    assert(byte_len(new_text@) <= byte_len(s));
                }
                self.text = new_text;
                self.selection = ByteRange { start: nb, end: nb };
                self.word_click = (0, 0);
            }
        } else {
            let ins: Vec<char> = Vec::new();
            self.replace_sel(&ins);
        }
    }

    /// One click, pre-resolved by the host to the word index it landed on;
    /// an index outside the current word ranges is a no-op.
    pub fn click_at_word(&mut self, index: usize)
        requires
            old(self).well_formed(),
        ensures
            final(self)@ == click_state(old(self)@, index as int),
            final(self).well_formed(),
    {
        let wr = self.word_ranges();
        if index < wr.len() {
            let last_index = self.word_click.0;
            let last_count = self.word_click.1;
            let count: u16 = if index == last_index {
                last_count + 1
            } else {
                1
            };
            if count == 2 {
                let w = wr[index];
                proof {
                    lemma_scan_valid(self.text@, 0, Option::None::<int>);
                    let wc = word_char_ranges(self.text@)[index as int];
                    lemma_byte_of_mono(self.text@, wc.0, wc.1);
                    assert(is_boundary(self.text@, w.start as int));
                    assert(is_boundary(self.text@, w.end as int));
                }
                self.selection = ByteRange { start: w.start, end: w.end };
                self.word_click = (index, 2);
            } else if count == 4 {
                let n = offset_of_index(&self.text, self.text.len());
                proof {
                    lemma_byte_of_zero(self.text@);
                    lemma_byte_of_full(self.text@);
                    assert(is_boundary(self.text@, 0));
                    assert(is_boundary(self.text@, n as int));
                }
                self.selection = ByteRange { start: 0, end: n };
                self.word_click = (index, 0);
            } else {
                self.word_click = (index, count);
            }
        }
    }

    /// Take host-supplied byte offsets (from hit-testing), clamp them to
    /// the text, snap each backward to the nearest scalar-value boundary,
    /// and select between them.
    pub fn set_selection(&mut self, start: usize, end: usize)
        requires
            old(self).well_formed(),
        ensures
            final(self)@ == set_selection_state(old(self)@, start as int, end as int),
            final(self).well_formed(),
    {
        let a = snap_to_boundary(&self.text, start);
        let b = snap_to_boundary(&self.text, end);
        if a <= b {
            self.selection = ByteRange { start: a, end: b };
        } else {
            self.selection = ByteRange { start: b, end: a };
        }
    }
}

/// Boundary invariant: in every well-formed state the selection offsets
/// land on scalar-value boundaries and satisfy
/// `0 <= start <= end <= byte_len(text)`; every command's contract
/// establishes `wf_state`, so this holds after any sequence of commands.
pub proof fn lemma_selection_in_bounds(st: EditState)
    requires
        wf_state(st),
    ensures
        0 <= st.sel_start <= st.sel_end <= byte_len(st.text),
        is_boundary(st.text, st.sel_start),
        is_boundary(st.text, st.sel_end),
{
    lemma_idx_of(st.text, st.sel_start);
    lemma_idx_of(st.text, st.sel_end);
    lemma_byte_of_zero(st.text);
    lemma_byte_of_full(st.text);
    lemma_byte_of_mono(st.text, 0, idx_of(st.text, st.sel_start));
    lemma_byte_of_mono(st.text, idx_of(st.text, st.sel_end), st.text.len() as int);
}

/// Inserting `s` into an empty buffer at caret 0, then selecting all,
/// yields a selection whose text is exactly `s`.
pub proof fn lemma_insert_select_copy(s: Seq<char>)
    ensures
        selected_text(select_all_state(replace_selection(init_state(Seq::empty()), s))) == s,
{
    let st0 = init_state(Seq::<char>::empty());
    assert(byte_len(Seq::<char>::empty()) == 0);
    lemma_byte_of_zero(Seq::<char>::empty());
    assert(is_boundary(Seq::<char>::empty(), 0));
    lemma_idx_of(Seq::<char>::empty(), 0);
    let st1 = replace_selection(st0, s);
    assert(st1.text =~= s);
    let st2 = select_all_state(st1);
    lemma_byte_of_zero(s);
    lemma_byte_of_full(s);
    assert(is_boundary(s, 0));
    assert(is_boundary(s, byte_len(s)));
    lemma_idx_of(s, 0);
    lemma_idx_of(s, byte_len(s));
    assert(idx_of(s, 0) == 0);
    assert(idx_of(s, byte_len(s)) == s.len());
    assert(selected_text(st2) =~= s);
}

/// Cut with a collapsed selection leaves the text unchanged, keeps the
/// caret where it was, and copies the empty string.
pub proof fn lemma_cut_collapsed(st: EditState)
    requires
        wf_state(st),
        st.sel_start == st.sel_end,
    ensures
        cut_state(st).text == st.text,
        cut_state(st).sel_start == st.sel_start,
        cut_state(st).sel_end == st.sel_start,
        selected_text(st) == Seq::<char>::empty(),
{
    lemma_idx_of(st.text, st.sel_start);
    let ci = idx_of(st.text, st.sel_start);
    assert(st.text.take(ci) + Seq::<char>::empty() + st.text.skip(ci) =~= st.text);
    assert(byte_len(Seq::<char>::empty()) == 0);
    assert(st.text.subrange(ci, ci) =~= Seq::<char>::empty());
}

/// Backspace with the caret at the end of non-empty text removes exactly
/// the last scalar value, never leaving a split encoding behind.
pub proof fn lemma_backspace_at_end(st: EditState)
    requires
        wf_state(st),
        st.text.len() > 0,
        st.sel_start == byte_len(st.text),
        st.sel_end == byte_len(st.text),
    ensures
        backspace_state(st).text == st.text.take(st.text.len() - 1),
        backspace_state(st).sel_start == byte_of(st.text, st.text.len() - 1),
        backspace_state(st).sel_end == byte_of(st.text, st.text.len() - 1),
{
    crate::unicode::lemma_byte_len_ge_len(st.text);
    lemma_byte_of_full(st.text);
    lemma_idx_of(st.text, st.sel_start);
    assert(idx_of(st.text, st.sel_start) == st.text.len());
    let i = st.text.len() as int;
    assert(st.text.take(i - 1) + st.text.skip(i) =~= st.text.take(i - 1));
}

/// Repeated clicks on one word index run the whole escalation cycle: the
/// first click only arms the counter, the second selects the clicked word,
/// the third keeps that selection (line selection is an intentional gap),
/// and the fourth selects the whole text and resets the counter, so a fifth
/// click starts over.
pub proof fn lemma_click_same_index_cycle(st: EditState, index: int)
    requires
        wf_state(st),
        0 <= index < word_char_ranges(st.text).len(),
        st.click_index == index,
        st.click_count == 0,
    ensures
        ({
            let w = word_char_ranges(st.text)[index];
            let st1 = click_state(st, index);
            let st2 = click_state(st1, index);
            let st3 = click_state(st2, index);
            let st4 = click_state(st3, index);
            &&& st1.click_count == 1 && st1.sel_start == st.sel_start && st1.sel_end == st.sel_end
            &&& st2.click_count == 2 && st2.sel_start == byte_of(st.text, w.0) && st2.sel_end
                == byte_of(st.text, w.1)
            &&& st3.click_count == 3 && st3.sel_start == st2.sel_start && st3.sel_end
                == st2.sel_end
            &&& st4.click_count == 0 && st4.sel_start == 0 && st4.sel_end == byte_len(st.text)
            &&& st4.text == st.text
        }),
{
}

/// A click on a word index other than the last-clicked one restarts the
/// escalation at a single click and leaves text and selection unchanged.
pub proof fn lemma_click_new_index(st: EditState, index: int)
    requires
        wf_state(st),
        0 <= index < word_char_ranges(st.text).len(),
        index != st.click_index,
    ensures
        click_state(st, index).click_count == 1,
        click_state(st, index).click_index == index,
        click_state(st, index).text == st.text,
        click_state(st, index).sel_start == st.sel_start,
        click_state(st, index).sel_end == st.sel_end,
{
}

} // verus!
