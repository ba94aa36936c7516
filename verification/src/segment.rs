//! Word segmentation: the maximal runs of word-forming scalar values
//! (alphanumeric or underscore), reported as half-open byte-offset ranges
//! into the UTF-8 encoding of the text, in left-to-right order.

use vstd::prelude::*;

verus! {

use crate::unicode::byte_len;
use crate::unicode::byte_of;
use crate::unicode::lemma_byte_of_full;
use crate::unicode::lemma_byte_of_mono;
use crate::unicode::lemma_byte_of_step;
use crate::unicode::lemma_byte_of_zero;
use crate::unicode::encoded_len;

/// A half-open range of byte offsets into the UTF-8 encoding of the text.
#[derive(Clone, Copy, PartialEq, Eq, Debug)]
pub struct ByteRange {
    pub start: usize,
    pub end: usize,
}

/// Whether the scalar value's Unicode general category is Letter or Number.
pub uninterp spec fn alphanumeric(c: char) -> bool;

/// Relies on `char::is_alphanumeric`: the classification of a scalar value
/// by its Unicode general category, a function of the scalar alone.
#[verifier::external_body]
fn char_is_alphanumeric(c: char) -> (r: bool)
    ensures
        r == alphanumeric(c),
{
    c.is_alphanumeric()
}

/// A word-forming scalar value: alphanumeric or the underscore.
pub open spec fn is_word_char(c: char) -> bool {
    alphanumeric(c) || c == '_'
}

fn word_char(c: char) -> (r: bool)
    ensures
        r == is_word_char(c),
{
    char_is_alphanumeric(c) || c == '_'
}

/// The word ranges of `s` from scalar index `j` on, as scalar-index pairs.
/// `cur` carries the start of the word run still open at `j`, if any.
pub open spec fn scan_words(s: Seq<char>, j: int, cur: Option<int>) -> Seq<(int, int)>
    decreases s.len() - j,
{
    if j < 0 || j >= s.len() {
        match cur {
            Option::Some(a) => seq![(a, s.len() as int)],
            Option::None => Seq::empty(),
        }
    } else if is_word_char(s[j]) {
        scan_words(
            s,
            j + 1,
            match cur {
                Option::Some(a) => Option::Some(a),
                Option::None => Option::Some(j),
            },
        )
    } else {
        match cur {
            Option::Some(a) => seq![(a, j)] + scan_words(s, j + 1, Option::None),
            Option::None => scan_words(s, j + 1, Option::None),
        }
    }
}

/// The word ranges of `s`, as scalar-index pairs, in left-to-right order.
pub open spec fn word_char_ranges(s: Seq<char>) -> Seq<(int, int)> {
    scan_words(s, 0, Option::None)
}

/// Every reported scalar-index range is non-empty and lies inside the text.
pub proof fn lemma_scan_valid(s: Seq<char>, j: int, cur: Option<int>)
    requires
        0 <= j <= s.len(),
        match cur {
            Option::Some(a) => 0 <= a < j,
            Option::None => true,
        },
    ensures
        forall|k: int| 0 <= k < scan_words(s, j, cur).len() ==> {
            let r = #[trigger] scan_words(s, j, cur)[k];
            0 <= r.0 < r.1 <= s.len()
        },
    decreases s.len() - j,
{
    if j >= s.len() {
        match cur {
            Option::Some(a) => {
                assert(scan_words(s, j, cur) == seq![(a, s.len() as int)]);
                assert(scan_words(s, j, cur)[0] == (a, s.len() as int));
            },
            Option::None => {
                assert(scan_words(s, j, cur) == Seq::<(int, int)>::empty());
            },
        }
    } else if is_word_char(s[j]) {
        let cur2 = match cur {
            Option::Some(a) => Option::Some(a),
            Option::None => Option::Some(j),
        };
        lemma_scan_valid(s, j + 1, cur2);
        assert(scan_words(s, j, cur) == scan_words(s, j + 1, cur2));
    } else {
        match cur {
            Option::Some(a) => {
                lemma_scan_valid(s, j + 1, Option::None::<int>);
                let head = seq![(a, j)];
                let rest = scan_words(s, j + 1, Option::None::<int>);
                assert(scan_words(s, j, cur) == head + rest);
                assert forall|k: int| 0 <= k < (head + rest).len() implies {
                    let r = #[trigger] (head + rest)[k];
                    0 <= r.0 < r.1 <= s.len()
                } by {
                    if k > 0 {
                        assert((head + rest)[k] == rest[k - 1]);
                    } else {
                        assert((head + rest)[0] == (a, j));
                    }
                }
            },
            Option::None => {
                lemma_scan_valid(s, j + 1, Option::None::<int>);
                assert(scan_words(s, j, cur) == scan_words(s, j + 1, Option::None::<int>));
            },
        }
    }
}

/// The word ranges of the text, `word_char_ranges` expressed in byte
/// offsets, as the segmentation pass computes them.
pub fn words_of(text: &Vec<char>) -> (r: Vec<ByteRange>)
    requires
        byte_len(text@) <= usize::MAX,
    ensures
        r@.len() == word_char_ranges(text@).len(),
        forall|k: int| 0 <= k < r@.len() ==> {
            let w = #[trigger] word_char_ranges(text@)[k];
            r@[k].start as int == byte_of(text@, w.0) && r@[k].end as int == byte_of(text@, w.1)
        },
{
    let ghost s = text@;
    let mut r: Vec<ByteRange> = Vec::new();
    let ghost mut emitted: Seq<(int, int)> = Seq::empty();
    let mut j: usize = 0;
    let mut b: usize = 0;
    let mut in_word = false;
    let mut start_byte: usize = 0;
    let ghost mut start_char: int = 0;
    proof {
        lemma_byte_of_zero(s);
        assert(emitted + scan_words(s, 0, Option::None::<int>) =~= scan_words(
            s,
            0,
            Option::None::<int>,
        ));
    }
    while j < text.len()
        invariant
            s == text@,
            j <= s.len(),
            byte_len(s) <= usize::MAX,
            b as int == byte_of(s, j as int),
            in_word ==> 0 <= start_char < j && start_byte as int == byte_of(s, start_char),
            word_char_ranges(s) == emitted + scan_words(
                s,
                j as int,
                (if in_word {
                    Option::Some(start_char)
                } else {
                    Option::None
                }),
            ),
            r@.len() == emitted.len(),
            forall|k: int| 0 <= k < emitted.len() ==> {
                let w = #[trigger] emitted[k];
                r@[k].start as int == byte_of(s, w.0) && r@[k].end as int == byte_of(s, w.1)
            },
        decreases s.len() - j,
    {
        let ghost cur: Option<int> = if in_word {
            Option::Some(start_char)
        } else {
            Option::None
        };
        let c = text[j];
        proof {
            lemma_byte_of_step(s, j as int);
            lemma_byte_of_mono(s, j as int + 1, s.len() as int);
            lemma_byte_of_full(s);
        }
        if word_char(c) {
            if !in_word {
                in_word = true;
                start_byte = b;
                proof {
                    start_char = j as int;
                }
            }
            proof {
                assert(scan_words(s, j as int, cur) == scan_words(
                    s,
                    j as int + 1,
                    Option::Some(start_char),
                ));
            }
        } else {
            if in_word {
                r.push(ByteRange { start: start_byte, end: b });
                proof {
                    assert(scan_words(s, j as int, cur) == seq![(start_char, j as int)]
                        + scan_words(s, j as int + 1, Option::None::<int>));
                    assert((emitted + seq![(start_char, j as int)]) + scan_words(
                        s,
                        j as int + 1,
                        Option::None::<int>,
                    ) =~= emitted + (seq![(start_char, j as int)] + scan_words(
                        s,
                        j as int + 1,
                        Option::None::<int>,
                    )));
                    emitted = emitted + seq![(start_char, j as int)];
                }
                in_word = false;
            } else {
                proof {
                    assert(scan_words(s, j as int, cur) == scan_words(
                        s,
                        j as int + 1,
                        Option::None::<int>,
                    ));
                }
            }
        }
        b = b + encoded_len(c);
        j = j + 1;
    }
    if in_word {
        r.push(ByteRange { start: start_byte, end: b });
        proof {
            assert(scan_words(s, j as int, Option::Some(start_char)) == seq![
                (start_char, s.len() as int),
            ]);
            emitted = emitted + seq![(start_char, s.len() as int)];
            assert(word_char_ranges(s) =~= emitted);
            lemma_byte_of_full(s);
        }
    } else {
        proof {
            assert(scan_words(s, j as int, Option::None::<int>) == Seq::<(int, int)>::empty());
            assert(word_char_ranges(s) =~= emitted);
        }
    }
    r
}

} // verus!
