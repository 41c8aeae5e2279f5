use spreadsheet_ods::grammar::{Fault, QuoteState};
use spreadsheet_ods::refs::{
    parse_cellrange, parse_cellranges, parse_cellref, unquote, CellRange, CellRef,
};
use spreadsheet_ods::OdsError;

fn cell(table: Option<&str>, row: u32, col: u32, abs_row: bool, abs_col: bool) -> CellRef {
    CellRef { table: table.map(|t| t.to_string()), row, col, abs_row, abs_col }
}

#[test]
fn parse_cellref_without_sheet() {
    let mut pos = 0usize;
    let r = parse_cellref(".A1", &mut pos).unwrap();
    assert_eq!(r, cell(None, 0, 0, false, false));
    assert_eq!(pos, 3);
}

#[test]
fn parse_cellref_with_sheet_and_absolute_marks() {
    let mut pos = 0usize;
    let r = parse_cellref("Sheet1.$A$1", &mut pos).unwrap();
    assert_eq!(r, cell(Some("Sheet1"), 0, 0, true, true));
    assert_eq!(pos, 11);
}

#[test]
fn parse_cellref_with_one_absolute_mark() {
    let mut pos = 0usize;
    let r = parse_cellref(".$C7", &mut pos).unwrap();
    assert_eq!(r, cell(None, 6, 2, false, true));
    let mut pos = 0usize;
    let r = parse_cellref(".C$7", &mut pos).unwrap();
    assert_eq!(r, cell(None, 6, 2, true, false));
}

#[test]
fn parse_cellref_with_quoted_sheet() {
    let mut pos = 0usize;
    let r = parse_cellref("'My Sheet'.A1", &mut pos).unwrap();
    assert_eq!(r.table.as_deref(), Some("My Sheet"));
    assert_eq!(r.row, 0);
    assert_eq!(r.col, 0);
    assert_eq!(pos, 13);
}

#[test]
fn parse_cellref_with_dot_inside_quotes() {
    let mut pos = 0usize;
    let r = parse_cellref("'a.b'.B2", &mut pos).unwrap();
    assert_eq!(r, cell(Some("a.b"), 1, 1, false, false));
    assert_eq!(pos, 8);
}

#[test]
fn parse_cellref_with_doubled_quote() {
    let mut pos = 0usize;
    let r = parse_cellref("'It''s'.A1", &mut pos).unwrap();
    assert_eq!(r.table.as_deref(), Some("It's"));
    assert_eq!(pos, 10);
}

#[test]
fn parse_cellref_with_a_sheet_name_beyond_ascii() {
    let mut pos = 0usize;
    let r = parse_cellref("Übersicht€.AB12", &mut pos).unwrap();
    assert_eq!(r, cell(Some("Übersicht€"), 11, 27, false, false));
    assert_eq!(pos, "Übersicht€.AB12".len());
    let mut pos = 0usize;
    let r = parse_cellref("'Größe 1'.$Z$99 rest", &mut pos).unwrap();
    assert_eq!(r, cell(Some("Größe 1"), 98, 25, true, true));
    assert_eq!(pos, "'Größe 1'.$Z$99".len());
}

#[test]
fn parse_cellref_starts_at_the_position() {
    let text = "x Sheet1.B3:";
    let mut pos = 2usize;
    let r = parse_cellref(text, &mut pos).unwrap();
    assert_eq!(r, cell(Some("Sheet1"), 2, 1, false, false));
    assert_eq!(pos, 11);
}

#[test]
fn parse_cellref_of_only_quotes_names_an_empty_sheet() {
    let mut pos = 0usize;
    let r = parse_cellref("''.A1", &mut pos).unwrap();
    assert_eq!(r.table.as_deref(), Some(""));
}

#[test]
fn parse_cellref_without_separator_fails() {
    let mut pos = 0usize;
    let e = parse_cellref("A1", &mut pos).unwrap_err();
    assert_eq!(e, OdsError::MissingSeparator("A1".to_string()));
    assert_eq!(pos, 0);
    let mut pos = 0usize;
    let e = parse_cellref("", &mut pos).unwrap_err();
    assert_eq!(e, OdsError::MissingSeparator(String::new()));
}

#[test]
fn parse_cellref_with_separator_only_inside_quotes_fails() {
    let mut pos = 0usize;
    let e = parse_cellref("'a.b", &mut pos).unwrap_err();
    assert_eq!(e, OdsError::MissingSeparator("'a.b".to_string()));
    assert_eq!(pos, 0);
}

#[test]
fn parse_cellref_without_column_fails() {
    let mut pos = 0usize;
    let e = parse_cellref("Sheet1.1", &mut pos).unwrap_err();
    assert_eq!(e, OdsError::MissingColumn("1".to_string()));
    assert_eq!(pos, 7);
    let mut pos = 0usize;
    let e = parse_cellref(".$", &mut pos).unwrap_err();
    assert_eq!(e, OdsError::MissingColumn(String::new()));
    assert_eq!(pos, 2);
    let mut pos = 0usize;
    let e = parse_cellref(".a1", &mut pos).unwrap_err();
    assert_eq!(e, OdsError::MissingColumn("a1".to_string()));
}

#[test]
fn parse_cellref_without_row_fails() {
    let mut pos = 0usize;
    let e = parse_cellref(".A", &mut pos).unwrap_err();
    assert_eq!(e, OdsError::MissingRow(String::new()));
    assert_eq!(pos, 2);
    let mut pos = 0usize;
    let e = parse_cellref(".A$x", &mut pos).unwrap_err();
    assert_eq!(e, OdsError::MissingRow("x".to_string()));
    assert_eq!(pos, 3);
}

#[test]
fn parse_cellref_with_row_zero_fails() {
    let mut pos = 0usize;
    let e = parse_cellref(".A0", &mut pos).unwrap_err();
    assert_eq!(e, OdsError::MissingRow(String::new()));
    assert_eq!(pos, 3);
}

#[test]
fn parse_cellref_with_a_column_too_large_fails() {
    let mut pos = 0usize;
    let e = parse_cellref(".MWLQKWW1", &mut pos).unwrap_err();
    assert_eq!(e, OdsError::MissingColumn("1".to_string()));
    assert_eq!(pos, 8);
}

#[test]
fn parse_cellref_of_the_largest_indices() {
    let mut pos = 0usize;
    let r = parse_cellref(".MWLQKWV4294967296", &mut pos).unwrap();
    assert_eq!(r, cell(None, u32::MAX, u32::MAX, false, false));
}

#[test]
fn parse_cellrange_of_two_cells() {
    let mut pos = 0usize;
    let r = parse_cellrange("Sheet1.A1:Sheet1.B2", &mut pos).unwrap();
    assert_eq!(r.from, cell(Some("Sheet1"), 0, 0, false, false));
    assert_eq!(r.to, cell(Some("Sheet1"), 1, 1, false, false));
    assert_eq!(pos, 19);
}

#[test]
fn parse_cellrange_does_not_ask_for_order() {
    let mut pos = 0usize;
    let r = parse_cellrange(".C3:.A1", &mut pos).unwrap();
    assert_eq!(r.from, cell(None, 2, 2, false, false));
    assert_eq!(r.to, cell(None, 0, 0, false, false));
}

#[test]
fn parse_cellrange_without_colon_fails() {
    let mut pos = 0usize;
    let e = parse_cellrange(".A1 .B2", &mut pos).unwrap_err();
    assert_eq!(e, OdsError::MissingRangeColon(" .B2".to_string()));
    assert_eq!(pos, 3);
    let mut pos = 0usize;
    let e = parse_cellrange(".A1", &mut pos).unwrap_err();
    assert_eq!(e, OdsError::MissingRangeColon(String::new()));
    assert_eq!(pos, 3);
}

#[test]
fn parse_cellrange_passes_the_faults_of_its_cells_on() {
    let mut pos = 0usize;
    let e = parse_cellrange("A1:B2", &mut pos).unwrap_err();
    assert_eq!(e, OdsError::MissingSeparator("A1:B2".to_string()));
    let mut pos = 0usize;
    let e = parse_cellrange(".A1:B2", &mut pos).unwrap_err();
    assert_eq!(e, OdsError::MissingSeparator("B2".to_string()));
    assert_eq!(pos, 4);
    let mut pos = 0usize;
    let e = parse_cellrange(".A1:.2", &mut pos).unwrap_err();
    assert_eq!(e, OdsError::MissingColumn("2".to_string()));
    assert_eq!(pos, 5);
    let mut pos = 0usize;
    let e = parse_cellrange(".A1:.B", &mut pos).unwrap_err();
    assert_eq!(e, OdsError::MissingRow(String::new()));
    assert_eq!(pos, 6);
}

#[test]
fn parse_cellranges_of_two_ranges_in_order() {
    let text = ".A1:.B2 .C3:.D4";
    let mut pos = 0usize;
    let v = parse_cellranges(text, &mut pos).unwrap();
    assert_eq!(v.len(), 2);
    assert_eq!(v[0], CellRange { from: cell(None, 0, 0, false, false), to: cell(None, 1, 1, false, false) });
    assert_eq!(v[1], CellRange { from: cell(None, 2, 2, false, false), to: cell(None, 3, 3, false, false) });
    assert_eq!(pos, text.len());
}

#[test]
fn parse_cellranges_of_one_range() {
    let mut pos = 0usize;
    let v = parse_cellranges("S.A1:S.B2", &mut pos).unwrap();
    assert_eq!(v.len(), 1);
    assert_eq!(v[0].from.table.as_deref(), Some("S"));
    assert_eq!(pos, 9);
}

#[test]
fn parse_cellranges_without_blank_fails() {
    let mut pos = 0usize;
    let e = parse_cellranges(".A1:.B2.C3:.D4", &mut pos).unwrap_err();
    assert_eq!(e, OdsError::MissingListSeparator(".C3:.D4".to_string()));
    assert_eq!(e.kind(), Fault::MissingListSeparator);
    assert_eq!(pos, 7);
    let mut pos = 0usize;
    let e = parse_cellranges(".A1:.B2,.C3:.D4", &mut pos).unwrap_err();
    assert_eq!(e, OdsError::MissingListSeparator(",.C3:.D4".to_string()));
}

#[test]
fn parse_cellranges_without_separators_in_the_cells_fails() {
    let mut pos = 0usize;
    let e = parse_cellranges("A1:B2 C3:D4", &mut pos).unwrap_err();
    assert_eq!(e.kind(), Fault::MissingSeparator);
    let mut pos = 0usize;
    let e = parse_cellranges("A1:B2C3:D4", &mut pos).unwrap_err();
    assert_eq!(e.kind(), Fault::MissingSeparator);
}

#[test]
fn parse_cellranges_with_a_blank_at_the_end_fails() {
    let mut pos = 0usize;
    let e = parse_cellranges(".A1:.B2 ", &mut pos).unwrap_err();
    assert_eq!(e, OdsError::MissingSeparator(String::new()));
    assert_eq!(pos, 8);
}

#[test]
fn parse_cellranges_takes_a_second_blank_for_a_sheet_name() {
    let mut pos = 0usize;
    let v = parse_cellranges(".A1:.B2  .C3:.D4", &mut pos).unwrap();
    assert_eq!(v.len(), 2);
    assert_eq!(v[1].from, cell(Some(" "), 2, 2, false, false));
    assert_eq!(v[1].to, cell(None, 3, 3, false, false));
}

#[test]
fn parse_cellranges_of_nothing_fails() {
    let mut pos = 0usize;
    let e = parse_cellranges("", &mut pos).unwrap_err();
    assert_eq!(e, OdsError::MissingSeparator(String::new()));
    assert_eq!(pos, 0);
}

#[test]
fn try_from_reads_at_the_start() {
    let r = CellRef::try_from("Sheet1.B2 and more").unwrap();
    assert_eq!(r, cell(Some("Sheet1"), 1, 1, false, false));
    let e = CellRef::try_from("nothing").unwrap_err();
    assert_eq!(e.kind(), Fault::MissingSeparator);
    let r = CellRange::try_from(".A1:.C3").unwrap();
    assert_eq!(r.to, cell(None, 2, 2, false, false));
    let e = CellRange::try_from(".A1;.C3").unwrap_err();
    assert_eq!(e, OdsError::MissingRangeColon(";.C3".to_string()));
}

#[test]
fn unquote_drops_quotes_and_halves_doubled_ones() {
    assert_eq!(unquote("'My Sheet'"), "My Sheet");
    assert_eq!(unquote("'It''s'"), "It's");
    assert_eq!(unquote("plain"), "plain");
    assert_eq!(unquote("''"), "");
    assert_eq!(unquote(""), "");
    assert_eq!(unquote("'a''''b'"), "a''b");
    assert_eq!(unquote("'a'''b'"), "a''b");
    assert_eq!(unquote("'''a'"), "a");
    assert_eq!(unquote("a'b"), "a'b");
    assert_eq!(unquote("'ä''ö'"), "ä'ö");
}

#[test]
fn quote_state_changes_at_quotes_only() {
    assert_eq!(QuoteState::Outside.step(b'\''), QuoteState::Inside);
    assert_eq!(QuoteState::Inside.step(b'\''), QuoteState::Outside);
    assert_eq!(QuoteState::Outside.step(b'.'), QuoteState::Outside);
    assert_eq!(QuoteState::Inside.step(b'.'), QuoteState::Inside);
    assert_eq!(QuoteState::Inside.step(b'a'), QuoteState::Inside);
}

#[test]
fn error_messages_name_the_fault_and_the_rest() {
    let mut pos = 0usize;
    let e = parse_cellref("A1", &mut pos).unwrap_err();
    assert_eq!(e.message(), "No '.' in the cell reference A1");
    assert_eq!(e.remaining_input(), "A1");
    let mut pos = 0usize;
    let e = parse_cellref(".1", &mut pos).unwrap_err();
    assert_eq!(e.message(), "No colname in the cell reference 1");
    let mut pos = 0usize;
    let e = parse_cellref(".A-", &mut pos).unwrap_err();
    assert_eq!(e.message(), "No rowname in the cell reference -");
    let mut pos = 0usize;
    let e = parse_cellrange(".A1-.B1", &mut pos).unwrap_err();
    assert_eq!(e.message(), "No colon in cellrange -.B1");
    let mut pos = 0usize;
    let e = parse_cellranges(".A1:.B1-", &mut pos).unwrap_err();
    assert_eq!(e.message(), "No blank between cellranges -");
}

#[test]
fn errors_tell_their_kind() {
    assert_eq!(OdsError::MissingSeparator(String::new()).kind(), Fault::MissingSeparator);
    assert_eq!(OdsError::MissingColumn(String::new()).kind(), Fault::MissingColumn);
    assert_eq!(OdsError::MissingRow(String::new()).kind(), Fault::MissingRow);
    assert_eq!(OdsError::MissingRangeColon(String::new()).kind(), Fault::MissingRangeColon);
    assert_eq!(OdsError::MissingListSeparator("x".to_string()).kind(), Fault::MissingListSeparator);
    assert_eq!(OdsError::MissingListSeparator("x".to_string()).remaining_input(), "x");
}
