use scratchpick::chooser::{chooser_input, resolve_choice, UnmatchedSelection};
use scratchpick::command::reveal_command;
use scratchpick::select::SelectionEntry;

fn entry(id: u64, label: &str) -> SelectionEntry {
    SelectionEntry { id, label: label.to_string() }
}

#[test]
fn chooser_input_ends_every_label_with_a_newline() {
    let entries = vec![entry(11, "1:<No title>"), entry(13, "2:a"), entry(12, "3:b")];
    assert_eq!(chooser_input(&entries), "1:<No title>\n2:a\n3:b\n");
}

#[test]
fn chooser_input_of_one_entry() {
    assert_eq!(chooser_input(&vec![entry(42, "1:alpha")]), "1:alpha\n");
}

#[test]
fn chooser_input_of_no_entries_is_empty() {
    assert_eq!(chooser_input(&vec![]), "");
}

#[test]
fn empty_output_is_a_cancellation() {
    let offered = vec![entry(42, "1:alpha")];
    assert_eq!(resolve_choice(&offered, ""), Ok(None));
}

#[test]
fn an_offered_label_resolves_to_its_identifier() {
    let offered = vec![entry(42, "1:alpha")];
    assert_eq!(resolve_choice(&offered, "1:alpha"), Ok(Some(42)));
}

#[test]
fn other_text_is_an_unmatched_selection() {
    let offered = vec![entry(42, "1:alpha")];
    assert_eq!(resolve_choice(&offered, "bogus"), Err(UnmatchedSelection));
}

#[test]
fn output_is_trimmed_at_its_end_before_the_lookup() {
    let offered = vec![entry(7, "1:a"), entry(8, "2:b")];
    assert_eq!(resolve_choice(&offered, "2:b\n"), Ok(Some(8)));
    assert_eq!(resolve_choice(&offered, "1:a \t\r\n"), Ok(Some(7)));
    assert_eq!(resolve_choice(&offered, "\n"), Ok(None));
    assert_eq!(resolve_choice(&offered, "  \n\t "), Ok(None));
    assert_eq!(resolve_choice(&offered, " 2:b"), Err(UnmatchedSelection));
}

#[test]
fn the_lookup_is_exact() {
    let offered = vec![entry(7, "1:Alpha"), entry(8, "2:beta")];
    assert_eq!(resolve_choice(&offered, "1:alpha"), Err(UnmatchedSelection));
    assert_eq!(resolve_choice(&offered, "1:Alph"), Err(UnmatchedSelection));
    assert_eq!(resolve_choice(&offered, "2:beta2"), Err(UnmatchedSelection));
    assert_eq!(resolve_choice(&offered, "2"), Err(UnmatchedSelection));
}

#[test]
fn nothing_resolves_against_an_empty_list() {
    assert_eq!(resolve_choice(&vec![], "1:a"), Err(UnmatchedSelection));
    assert_eq!(resolve_choice(&vec![], ""), Ok(None));
}

#[test]
fn the_first_entry_of_a_label_wins() {
    let offered = vec![entry(1, "x"), entry(2, "y"), entry(3, "x")];
    assert_eq!(resolve_choice(&offered, "x"), Ok(Some(1)));
    assert_eq!(resolve_choice(&offered, "y"), Ok(Some(2)));
}

#[test]
fn a_label_that_ends_in_whitespace_cannot_be_chosen() {
    let offered = vec![entry(5, "1:padded ")];
    assert_eq!(resolve_choice(&offered, "1:padded \n"), Err(UnmatchedSelection));
}

#[test]
fn unmatched_selection_describes_itself() {
    assert_eq!(UnmatchedSelection.describe(), "the chooser returned a line that is no offered label");
}

#[test]
fn reveal_command_shows_then_tiles() {
    assert_eq!(reveal_command(42), "[id=42] scratchpad show; [id=42] floating disable");
}

#[test]
fn reveal_command_for_the_extreme_identifiers() {
    assert_eq!(reveal_command(0), "[id=0] scratchpad show; [id=0] floating disable");
    assert_eq!(
        reveal_command(u64::MAX),
        "[id=18446744073709551615] scratchpad show; [id=18446744073709551615] floating disable"
    );
}
