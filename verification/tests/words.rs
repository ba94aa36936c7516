use editcore::editing::TextModel;
use editcore::segment::ByteRange;

fn ranges_of(text: &str) -> Vec<ByteRange> {
    TextModel::init(String::from(text)).word_ranges()
}

fn br(start: usize, end: usize) -> ByteRange {
    ByteRange { start, end }
}

#[test]
fn word_ranges_empty_text() {
    assert_eq!(ranges_of(""), vec![]);
}

#[test]
fn word_ranges_single_word() {
    assert_eq!(ranges_of("abc"), vec![br(0, 3)]);
}

#[test]
fn word_ranges_two_words() {
    assert_eq!(ranges_of("foo bar"), vec![br(0, 3), br(4, 7)]);
}

#[test]
fn word_ranges_only_spaces() {
    assert_eq!(ranges_of("  "), vec![]);
}

#[test]
fn word_ranges_underscore_and_digit() {
    assert_eq!(ranges_of("a_b2 c"), vec![br(0, 4), br(5, 6)]);
}

#[test]
fn word_ranges_multibyte_word() {
    // 'é' is alphanumeric and two bytes wide, so the offsets are byte offsets.
    assert_eq!(ranges_of("café bar"), vec![br(0, 5), br(6, 9)]);
}

#[test]
fn word_ranges_leading_and_trailing_boundaries() {
    assert_eq!(ranges_of(" one, two "), vec![br(1, 4), br(6, 9)]);
}

#[test]
fn word_ranges_punctuation_is_not_word_forming() {
    assert_eq!(ranges_of("a.b"), vec![br(0, 1), br(2, 3)]);
}
