use ratto::input::{InputApp, InputState};

#[test]
fn the_cursor_pos_tracks_the_caret_cell() {
    let mut state = InputState::new("abc".to_string(), false, 1000);
    state.cursor = 1;
    let app = InputApp {
        state,
        prompt: "> ".into(),
        placeholder: "type".into(),
        header: None,
    };
    // Prompt is 2 wide, caret at char 1: column 3, row 0.
    assert_eq!(app.cursor_pos(), Some((3, 0)));
}

#[test]
fn the_cursor_pos_starts_at_the_text_column_and_clears_a_header() {
    let app = InputApp {
        state: InputState::new(String::new(), false, 1000),
        prompt: "> ".into(),
        placeholder: "type".into(),
        header: Some("H".into()),
    };
    assert_eq!(app.cursor_pos(), Some((2, 1)));
}

#[test]
fn the_cursor_pos_counts_display_cells_not_chars() {
    let mut state = InputState::new("日本".to_string(), false, 1000);
    state.cursor = 1;
    let app = InputApp {
        state,
        prompt: "日 ".into(),
        placeholder: "type".into(),
        header: None,
    };
    // Prompt "日 " is 3 cells; the char before the caret is 2 cells.
    assert_eq!(app.cursor_pos(), Some((5, 0)));
    let app = InputApp {
        state: InputState::new(String::new(), false, 1000),
        prompt: "日 ".into(),
        placeholder: "type".into(),
        header: None,
    };
    assert_eq!(app.cursor_pos(), Some((3, 0)));
}

#[test]
fn a_new_state_puts_the_caret_at_the_end_and_masks_a_password() {
    let state = InputState::new("héllo".to_string(), true, 10);
    assert_eq!(state.cursor, 5);
    assert_eq!(state.display("type"), "*****");
    let empty = InputState::new(String::new(), false, 10);
    assert_eq!(empty.display("type"), "type");
    let app = InputApp {
        state: InputState::new("ab".to_string(), false, 10),
        prompt: "> ".into(),
        placeholder: "type".into(),
        header: Some("H".into()),
    };
    assert_eq!(app.cursor_pos_checked(), Some((4, 1)));
    assert_eq!(app.height(), 2);
}
