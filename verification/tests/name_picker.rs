use tnote::name_picker::{
    accepts_char, filtered_names, max_selectable_index, new_name_label, picker_frame, picker_step,
    PickerKey, PickerOptions, PickerOutcome, PickerState, Selection,
};

#[test]
fn filtered_names_matches_case_insensitively() {
    let note_names = vec![
        "Alpha".to_string(),
        "beta project".to_string(),
        "Gamma".to_string(),
    ];

    assert_eq!(
        filtered_names(&note_names, "PROJ"),
        vec!["beta project".to_string()]
    );
}

#[test]
fn filtered_names_returns_all_for_blank_filter() {
    let note_names = vec!["alpha".to_string(), "beta".to_string()];

    assert_eq!(filtered_names(&note_names, "  "), note_names);
}

#[test]
fn new_name_label_uses_trimmed_filter() {
    assert_eq!(new_name_label(""), "New name...");
    assert_eq!(new_name_label("  next note  "), "New name: next note");
}

#[test]
fn selection_clamps_to_new_name_when_filter_shrinks_list() {
    let mut state = PickerState {
        filter: "alpha".to_string(),
        selected: 3,
    };

    state.clamp_selection(1);

    assert_eq!(state.selected, 1);
    state.clamp_selection(0);
    assert_eq!(state.selected, 0);
}

#[test]
fn max_selectable_index_with_new_row_includes_the_extra_slot() {
    assert_eq!(max_selectable_index(2, true), 2);
    assert_eq!(max_selectable_index(0, true), 0);
}

#[test]
fn max_selectable_index_without_new_row_indexes_filtered_directly() {
    assert_eq!(max_selectable_index(2, false), 1);
    assert_eq!(max_selectable_index(0, false), 0);
}

#[test]
fn accepts_plain_and_shifted_characters_only() {
    assert!(accepts_char(0));
    assert!(accepts_char(1));
    assert!(!accepts_char(2));
    assert!(!accepts_char(3));
}

#[test]
fn picker_frame_lists_new_row_then_matches() {
    let names = vec!["alpha".to_string(), "beta".to_string()];
    let mut state = PickerState { filter: "al".to_string(), selected: 5 };
    let frame = picker_frame(&mut state, &names, true);
    assert_eq!(frame.items, vec!["New name: al".to_string(), "alpha".to_string()]);
    assert_eq!(frame.selected, 1);
    assert_eq!(state.selected, 1);
    let options = PickerOptions { title: "tnote name", header: "Pick a note", allow_new: false };
    let frame = picker_frame(&mut state, &names, options.allow_new);
    assert_eq!(frame.items, vec!["alpha".to_string()]);
    assert_eq!(frame.selected, 0);
}

#[test]
fn picker_step_moves_filters_and_selects() {
    let names = vec!["alpha".to_string(), "beta".to_string()];
    let mut state = PickerState::new();
    assert!(matches!(picker_step(&mut state, PickerKey::Down, &names, true), PickerOutcome::Continue));
    assert_eq!(state.selected, 1);
    assert!(matches!(picker_step(&mut state, PickerKey::Down, &names, true), PickerOutcome::Continue));
    assert!(matches!(picker_step(&mut state, PickerKey::Down, &names, true), PickerOutcome::Continue));
    assert_eq!(state.selected, 2);
    match picker_step(&mut state, PickerKey::Enter, &names, true) {
        PickerOutcome::Select(Selection::Existing(n)) => assert_eq!(n, "beta"),
        _ => panic!("expected beta"),
    }
    assert!(matches!(picker_step(&mut state, PickerKey::Up, &names, true), PickerOutcome::Continue));
    assert_eq!(state.selected, 1);
    assert!(matches!(picker_step(&mut state, PickerKey::Char('x', 0), &names, true), PickerOutcome::Continue));
    assert_eq!(state.filter, "x");
    assert_eq!(state.selected, 0);
    assert!(matches!(picker_step(&mut state, PickerKey::Char('y', 2), &names, true), PickerOutcome::Continue));
    assert_eq!(state.filter, "x");
    match picker_step(&mut state, PickerKey::Enter, &names, true) {
        PickerOutcome::Select(Selection::NewName(n)) => assert_eq!(n, "x"),
        _ => panic!("expected a new name"),
    }
    assert!(matches!(picker_step(&mut state, PickerKey::Backspace, &names, true), PickerOutcome::Continue));
    assert_eq!(state.filter, "");
    assert!(matches!(picker_step(&mut state, PickerKey::Esc, &names, true), PickerOutcome::Cancel));
}

#[test]
fn picker_enter_on_empty_list_continues() {
    let names: Vec<String> = vec![];
    let mut state = PickerState::new();
    assert!(matches!(picker_step(&mut state, PickerKey::Enter, &names, false), PickerOutcome::Continue));
}
