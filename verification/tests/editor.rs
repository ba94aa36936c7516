use editcore::editing::TextEvent;
use editcore::editing::TextMovement;
use editcore::editing::TextModel;

fn sel(m: &TextModel) -> (usize, usize) {
    (m.selection.start, m.selection.end)
}

#[test]
fn init_places_caret_at_end() {
    let m = TextModel::init(String::from("hello"));
    assert_eq!(m.text_string(), "hello");
    assert_eq!(sel(&m), (5, 5));
    assert_eq!(m.word_click, (0, 0));
}

#[test]
fn init_caret_counts_bytes_not_chars() {
    // "café" is four scalar values but five bytes.
    let m = TextModel::init(String::from("café"));
    assert_eq!(sel(&m), (5, 5));
}

#[test]
fn reset_clears_text_and_selection() {
    let mut m = TextModel::init(String::from("hello"));
    m.select_all();
    m.reset();
    assert_eq!(m.text_string(), "");
    assert_eq!(sel(&m), (0, 0));
    assert_eq!(m.word_click, (0, 0));
}

#[test]
fn select_all_spans_the_text() {
    let mut m = TextModel::init(String::from("hello"));
    m.select_all();
    assert_eq!(sel(&m), (0, 5));
}

#[test]
fn insert_select_copy_round_trip() {
    let mut m = TextModel::init(String::new());
    m.insert_text("some words");
    m.select_all();
    assert_eq!(m.copy(), "some words");
}

#[test]
fn insert_text_in_the_middle() {
    let mut m = TextModel::init(String::from("ho"));
    m.set_selection(1, 1);
    m.insert_text("ell");
    assert_eq!(m.text_string(), "hello");
    assert_eq!(sel(&m), (4, 4));
}

#[test]
fn copy_returns_selected_substring() {
    let mut m = TextModel::init(String::from("hello"));
    m.set_selection(1, 4);
    assert_eq!(m.copy(), "ell");
}

#[test]
fn cut_on_collapsed_selection_copies_empty_and_keeps_text() {
    let mut m = TextModel::init(String::from("hello"));
    let copied = m.cut();
    assert_eq!(copied, "");
    assert_eq!(m.text_string(), "hello");
    assert_eq!(sel(&m), (5, 5));
}

#[test]
fn cut_removes_the_selection() {
    let mut m = TextModel::init(String::from("hello"));
    m.set_selection(1, 4);
    let copied = m.cut();
    assert_eq!(copied, "ell");
    assert_eq!(m.text_string(), "ho");
    assert_eq!(sel(&m), (1, 1));
}

#[test]
fn paste_replaces_selection() {
    let mut m = TextModel::init(String::from("hello"));
    m.set_selection(1, 4);
    m.paste(Some(String::from("XY")));
    assert_eq!(m.text_string(), "hXYo");
    assert_eq!(sel(&m), (3, 3));
}

#[test]
fn paste_of_nothing_is_a_no_op() {
    let mut m = TextModel::init(String::from("hello"));
    m.set_selection(1, 4);
    m.paste(None);
    assert_eq!(m.text_string(), "hello");
    assert_eq!(sel(&m), (1, 4));
    m.paste(Some(String::new()));
    assert_eq!(m.text_string(), "hello");
    assert_eq!(sel(&m), (1, 4));
}

#[test]
fn backspace_removes_one_multibyte_scalar() {
    let mut m = TextModel::init(String::from("café"));
    m.backspace();
    assert_eq!(m.text_string(), "caf");
    assert_eq!(sel(&m), (3, 3));
}

#[test]
fn backspace_deletes_expanded_selection() {
    let mut m = TextModel::init(String::from("hello"));
    m.set_selection(1, 4);
    m.backspace();
    assert_eq!(m.text_string(), "ho");
    assert_eq!(sel(&m), (1, 1));
}

#[test]
fn backspace_at_origin_is_a_no_op() {
    let mut m = TextModel::init(String::from("hi"));
    m.set_selection(0, 0);
    m.backspace();
    assert_eq!(m.text_string(), "hi");
    assert_eq!(sel(&m), (0, 0));
}

#[test]
fn insert_newline_replaces_selection() {
    let mut m = TextModel::init(String::from("hello"));
    m.set_selection(1, 4);
    m.insert_newline();
    assert_eq!(m.text_string(), "h\no");
    assert_eq!(sel(&m), (2, 2));
}

#[test]
fn move_left_steps_over_multibyte_scalars() {
    let mut m = TextModel::init(String::from("café"));
    m.move_left();
    assert_eq!(sel(&m), (3, 3));
    m.move_left();
    assert_eq!(sel(&m), (2, 2));
}

#[test]
fn move_left_collapses_expanded_selection_to_start() {
    let mut m = TextModel::init(String::from("hello"));
    m.set_selection(1, 4);
    m.move_left();
    assert_eq!(sel(&m), (1, 1));
}

#[test]
fn move_left_at_origin_is_a_no_op() {
    let mut m = TextModel::init(String::from("hi"));
    m.set_selection(0, 0);
    m.move_left();
    assert_eq!(sel(&m), (0, 0));
}

#[test]
fn move_right_steps_over_multibyte_scalars() {
    let mut m = TextModel::init(String::from("café"));
    m.set_selection(3, 3);
    m.move_right();
    assert_eq!(sel(&m), (5, 5));
    m.move_right();
    assert_eq!(sel(&m), (5, 5));
}

#[test]
fn move_right_collapses_expanded_selection_to_end() {
    let mut m = TextModel::init(String::from("hello"));
    m.set_selection(1, 4);
    m.move_right();
    assert_eq!(sel(&m), (4, 4));
}

#[test]
fn set_selection_snaps_inside_a_scalar_and_clamps() {
    // Boundaries of "café" are 0, 1, 2, 3 and 5; offset 4 splits 'é'.
    let mut m = TextModel::init(String::from("café"));
    m.set_selection(4, 100);
    assert_eq!(sel(&m), (3, 5));
}

#[test]
fn set_selection_orders_its_offsets() {
    let mut m = TextModel::init(String::from("hello"));
    m.set_selection(5, 1);
    assert_eq!(sel(&m), (1, 5));
}

#[test]
fn click_escalation_cycle() {
    let mut m = TextModel::init(String::from("hello world"));
    m.click_at_word(0);
    assert_eq!(sel(&m), (11, 11));
    assert_eq!(m.word_click, (0, 1));
    m.click_at_word(0);
    assert_eq!(sel(&m), (0, 5));
    assert_eq!(m.word_click, (0, 2));
    m.click_at_word(0);
    assert_eq!(sel(&m), (0, 5));
    assert_eq!(m.word_click, (0, 3));
    m.click_at_word(0);
    assert_eq!(sel(&m), (0, 11));
    assert_eq!(m.word_click, (0, 0));
    m.click_at_word(0);
    assert_eq!(sel(&m), (0, 11));
    assert_eq!(m.word_click, (0, 1));
}

#[test]
fn click_on_new_index_restarts_escalation() {
    let mut m = TextModel::init(String::from("hello world"));
    m.click_at_word(0);
    assert_eq!(m.word_click, (0, 1));
    m.click_at_word(1);
    assert_eq!(m.word_click, (1, 1));
    assert_eq!(sel(&m), (11, 11));
    m.click_at_word(1);
    assert_eq!(sel(&m), (6, 11));
    assert_eq!(m.word_click, (1, 2));
}

#[test]
fn click_outside_every_word_is_a_no_op() {
    let mut m = TextModel::init(String::from("hello"));
    m.click_at_word(3);
    assert_eq!(sel(&m), (5, 5));
    assert_eq!(m.word_click, (0, 0));
}

#[test]
fn text_mutation_resets_click_escalation() {
    let mut m = TextModel::init(String::from("hello world"));
    m.click_at_word(0);
    assert_eq!(m.word_click, (0, 1));
    m.insert_text("x");
    assert_eq!(m.word_click, (0, 0));
}

#[test]
fn change_event_carries_the_new_text() {
    let mut m = TextModel::init(String::from("hi"));
    m.insert_text("!");
    match m.change_event() {
        TextEvent::Input { text } => assert_eq!(text, "hi!"),
        other => panic!("expected an input event, got {:?}", other),
    }
}

#[test]
fn request_movement_signals_without_mutating() {
    let m = TextModel::init(String::from("hi"));
    match m.request_movement(TextMovement::Up) {
        TextEvent::Movement(TextMovement::Up) => {}
        other => panic!("expected an Up movement, got {:?}", other),
    }
    assert_eq!(m.text_string(), "hi");
    assert_eq!(sel(&m), (2, 2));
}
