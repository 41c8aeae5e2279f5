use spreadsheet_ods::formula::{fcellref, fcellref_table, frangeref, frangeref_table};
use spreadsheet_ods::refs::{
    cellranges_to_string, parse_cellrange, parse_cellranges, parse_cellref, CellRange, CellRef,
    ColRange, RowRange,
};

#[test]
fn cellref_to_string_without_sheet() {
    assert_eq!(CellRef::simple(0, 0).to_string(), ".A1");
    assert_eq!(CellRef::simple(9, 26).to_string(), ".AA10");
}

#[test]
fn cellref_to_string_with_sheet() {
    assert_eq!(CellRef::table("Sheet1", 1, 1).to_string(), "Sheet1.B2");
}

#[test]
fn cellref_to_string_with_absolute_marks() {
    let mut c = CellRef::table("Sheet1", 0, 0);
    c.abs_col = true;
    assert_eq!(c.to_string(), "Sheet1.$A1");
    c.abs_row = true;
    assert_eq!(c.to_string(), "Sheet1.$A$1");
    c.abs_col = false;
    assert_eq!(c.to_string(), "Sheet1.A$1");
}

#[test]
fn cellref_to_string_adds_no_quotes() {
    assert_eq!(CellRef::table("My Sheet", 0, 0).to_string(), "My Sheet.A1");
    assert_eq!(CellRef::table("a.b", 0, 0).to_string(), "a.b.A1");
}

#[test]
fn cellref_to_formula_is_in_brackets() {
    assert_eq!(CellRef::simple(0, 0).to_formula(), "[.A1]");
    assert_eq!(CellRef::table("Sheet1", 4, 701).to_formula(), "[Sheet1.ZZ5]");
}

#[test]
fn cellref_names_of_row_and_column() {
    let c = CellRef::simple(9, 702);
    assert_eq!(c.colname(), "AAA");
    assert_eq!(c.rowname(), "10");
}

#[test]
fn cellref_constructors_mark_nothing_absolute() {
    let c = CellRef::simple(3, 4);
    assert_eq!(c.table, None);
    assert_eq!((c.row, c.col, c.abs_row, c.abs_col), (3, 4, false, false));
    let c = CellRef::table("T", 5, 6);
    assert_eq!(c.table.as_deref(), Some("T"));
    assert_eq!((c.row, c.col, c.abs_row, c.abs_col), (5, 6, false, false));
    assert_eq!(CellRef::default(), CellRef::simple(0, 0));
}

#[test]
fn cellrange_to_string_and_formula() {
    let r = CellRange::simple(0, 0, 1, 1);
    assert_eq!(r.to_string(), ".A1:.B2");
    assert_eq!(r.to_formula(), "[.A1:.B2]");
    let r = CellRange::table("Sheet1", 0, 0, 9, 25);
    assert_eq!(r.to_string(), "Sheet1.A1:Sheet1.Z10");
    assert_eq!(r.to_formula(), "[Sheet1.A1:Sheet1.Z10]");
}

#[test]
fn cellrange_constructors() {
    let r = CellRange::simple(1, 2, 3, 4);
    assert_eq!(r.from, CellRef::simple(1, 2));
    assert_eq!(r.to, CellRef::simple(3, 4));
    let r = CellRange::table("T", 1, 2, 1, 2);
    assert_eq!(r.from, CellRef::table("T", 1, 2));
    assert_eq!(r.to, CellRef::table("T", 1, 2));
    assert_eq!(CellRange::default(), CellRange::simple(0, 0, 0, 0));
}

#[test]
fn cellrange_from_origin_and_span() {
    let r = CellRange::origin_span(2, 3, (1, 1));
    assert_eq!(r, CellRange::simple(2, 3, 2, 3));
    let r = CellRange::origin_span(2, 3, (4, 2));
    assert_eq!(r, CellRange::simple(2, 3, 5, 4));
    let r = CellRange::origin_span(u32::MAX, 0, (1, 5));
    assert_eq!(r, CellRange::simple(u32::MAX, 0, u32::MAX, 4));
}

#[test]
fn cellrange_contains_its_cells() {
    let r = CellRange::simple(0, 0, 1, 1);
    assert!(r.contains(1, 1));
    assert!(r.contains(0, 0));
    assert!(r.contains(0, 1));
    assert!(!r.contains(2, 0));
    assert!(!r.contains(0, 2));
    let r = CellRange::simple(2, 3, 4, 5);
    assert!(!r.contains(1, 4));
    assert!(!r.contains(3, 2));
    assert!(r.contains(3, 4));
    assert!(!r.contains(5, 4));
    assert!(!r.contains(3, 6));
}

#[test]
fn cellrange_contains_does_not_look_at_the_sheet() {
    let r = CellRange::table("Other", 0, 0, 1, 1);
    assert!(r.contains(1, 0));
}

#[test]
fn cellrange_out_looped_after_the_last_cell() {
    let r = CellRange::simple(0, 0, 2, 3);
    assert!(!r.out_looped(2, 3));
    assert!(r.out_looped(2, 4));
    assert!(r.out_looped(3, 0));
    assert!(!r.out_looped(1, 9));
    assert!(!r.out_looped(0, 0));
}

#[test]
fn cellrange_out_looped_is_not_outside() {
    let r = CellRange::simple(1, 2, 3, 4);
    assert!(!r.contains(2, 0));
    assert!(!r.out_looped(2, 0));
    assert!(!r.contains(0, 9));
    assert!(!r.out_looped(0, 9));
}

#[test]
fn cellrange_out_looped_stays_once_reached() {
    let r = CellRange::simple(1, 1, 2, 2);
    let mut seen = false;
    for row in 0u32..5 {
        for col in 0u32..5 {
            let past = r.out_looped(row, col);
            if seen {
                assert!(past);
                assert!(!r.contains(row, col));
            }
            seen = seen || past;
        }
    }
    assert!(seen);
}

#[test]
fn colrange_and_rowrange() {
    let c = ColRange::new(2, 4);
    assert_eq!((c.from, c.to), (2, 4));
    assert!(!c.contains(1));
    assert!(c.contains(2));
    assert!(c.contains(3));
    assert!(c.contains(4));
    assert!(!c.contains(5));
    let r = RowRange::new(7, 7);
    assert_eq!((r.from, r.to), (7, 7));
    assert!(!r.contains(6));
    assert!(r.contains(7));
    assert!(!r.contains(8));
    assert_eq!(ColRange::default(), ColRange::new(0, 0));
    assert_eq!(RowRange::default(), RowRange::new(0, 0));
}

#[test]
fn cellranges_to_string_joins_with_blanks() {
    let v = vec![CellRange::simple(0, 0, 1, 1), CellRange::table("S", 2, 2, 3, 3), CellRange::simple(4, 4, 4, 4)];
    assert_eq!(cellranges_to_string(&v), ".A1:.B2 S.C3:S.D4 .E5:.E5");
    assert_eq!(cellranges_to_string(&vec![CellRange::simple(0, 0, 1, 1)]), ".A1:.B2");
    assert_eq!(cellranges_to_string(&Vec::new()), "");
}

#[test]
fn address_round_trip_on_samples() {
    let mut samples = Vec::new();
    for (row, col) in [(0u32, 0u32), (9, 25), (10, 26), (99, 701), (100, 702), (u32::MAX, u32::MAX)] {
        for table in [None, Some("Sheet1"), Some("My Sheet"), Some("Tabelle€"), Some("$1")] {
            for (abs_row, abs_col) in [(false, false), (true, false), (false, true), (true, true)] {
                samples.push(CellRef { table: table.map(|t| t.to_string()), row, col, abs_row, abs_col });
            }
        }
    }
    for c in samples {
        let text = c.to_string();
        let mut pos = 0usize;
        assert_eq!(parse_cellref(&text, &mut pos).unwrap(), c);
        assert_eq!(pos, text.len());
    }
}

#[test]
fn address_round_trip_fails_for_an_empty_sheet_name() {
    let c = CellRef::table("", 0, 0);
    let text = c.to_string();
    assert_eq!(text, ".A1");
    let mut pos = 0usize;
    assert_eq!(parse_cellref(&text, &mut pos).unwrap(), CellRef::simple(0, 0));
}

#[test]
fn quoting_round_trip() {
    let c = CellRef::table("My Sheet", 0, 0);
    let text = c.to_string();
    let (name, cell) = text.split_at("My Sheet".len());
    let quoted = format!("'{}'{}", name, cell);
    assert_eq!(quoted, "'My Sheet'.A1");
    let mut pos = 0usize;
    let back = parse_cellref(&quoted, &mut pos).unwrap();
    assert_eq!(back.table.as_deref(), Some("My Sheet"));
    assert_eq!(back, c);
}

#[test]
fn range_round_trip_on_samples() {
    for r in [
        CellRange::simple(0, 0, 1, 1),
        CellRange::table("Sheet1", 2, 3, 40, 50),
        CellRange { from: CellRef::table("A", 1, 1), to: CellRef::simple(0, 0) },
    ] {
        let text = r.to_string();
        let mut pos = 0usize;
        assert_eq!(parse_cellrange(&text, &mut pos).unwrap(), r);
        assert_eq!(pos, text.len());
    }
}

#[test]
fn list_round_trip_on_samples() {
    let v = vec![
        CellRange::simple(0, 0, 1, 1),
        CellRange::table("Sheet1", 2, 3, 40, 50),
        CellRange::table("Größe", 5, 5, 5, 5),
    ];
    let text = cellranges_to_string(&v);
    let mut pos = 0usize;
    assert_eq!(parse_cellranges(&text, &mut pos).unwrap(), v);
    assert_eq!(pos, text.len());
}

#[test]
fn formula_references() {
    assert_eq!(fcellref(0, 0), "[.A1]");
    assert_eq!(fcellref(11, 27), "[.AB12]");
    assert_eq!(fcellref_table("Sheet1", 1, 1), "[Sheet1.B2]");
    assert_eq!(frangeref(0, 0, 1, 1), "[.A1:.B2]");
    assert_eq!(frangeref(3, 3, 3, 3), "[.D4:.D4]");
    assert_eq!(frangeref_table("Sheet1", 0, 0, 1, 1), "[Sheet1.A1:Sheet1.B2]");
}

#[test]
fn cellref_in_numbers() {
    assert_eq!(CellRef::simple(0, 0).to_rc_string(), ".R0C0");
    assert_eq!(CellRef::table("Sheet1", 12, 345).to_rc_string(), "Sheet1.R12C345");
    let c = CellRef { table: None, row: 7, col: 10, abs_row: true, abs_col: false };
    assert_eq!(c.to_rc_string(), ".$R7C10");
    let c = CellRef { table: None, row: u32::MAX, col: 1, abs_row: false, abs_col: true };
    assert_eq!(c.to_rc_string(), ".R4294967295$C1");
}

#[test]
fn cellrange_in_numbers() {
    assert_eq!(CellRange::simple(0, 0, 1, 1).to_rc_string(), ".R0C0:.R1C1");
    assert_eq!(CellRange::table("S", 9, 99, 10, 100).to_rc_string(), "S.R9C99:S.R10C100");
}

#[test]
fn quoted_sheet_names_are_read_back() {
    for name in ["a.b", "My Sheet", "", "x.y.z", "Größe.1", "$A$1", "Sheet1.A1:Sheet1.B2"] {
        for (abs_row, abs_col) in [(false, false), (true, true)] {
            let c = CellRef { table: Some(name.to_string()), row: 41, col: 27, abs_row, abs_col };
            let plain = c.to_string();
            let quoted = format!("'{}'{}", name, &plain[name.len()..]);
            let mut pos = 0usize;
            assert_eq!(parse_cellref(&quoted, &mut pos).unwrap(), c);
            assert_eq!(pos, quoted.len());
        }
    }
}
