use offkilter::sheet::{escape, parts_list, PartsRow, SheetSize};

#[test]
fn sheet_sizes_parse_by_name() {
    assert_eq!(SheetSize::parse("A3"), Ok(SheetSize::A3));
    assert_eq!(SheetSize::parse("  letter "), Ok(SheetSize::Letter));
    assert_eq!(SheetSize::parse(""), Ok(SheetSize::A4));
    assert_eq!(SheetSize::parse("a2"), Ok(SheetSize::A2));
    assert_eq!(
        SheetSize::parse(" B5 ").unwrap_err(),
        "unknown sheet size \"b5\": use A4, A3, A2 or Letter"
    );
    for s in [SheetSize::A4, SheetSize::A3, SheetSize::A2, SheetSize::Letter] {
        assert_eq!(SheetSize::parse(s.name()), Ok(s));
    }
    assert_eq!(SheetSize::Letter.name(), "Letter");
}

#[test]
fn pdf_text_escapes_brackets_and_writes_latin1_in_octal() {
    assert_eq!(escape("a(b)c\\"), "a\\(b\\)c\\\\");
    assert_eq!(escape("Ø10×2·3°"), "\\33010\\3272\\2673\\260");
    assert_eq!(escape("é"), "\\351");
    assert_eq!(escape("€"), "?");
    assert_eq!(escape(""), "");
}

#[test]
fn the_parts_list_has_a_row_per_distinct_part_in_order() {
    let keys = vec![(2, 0), (3, 0), (2, 0), (3, 1), (3, 0), (3, 0)];
    let rows = parts_list(&keys, true);
    assert_eq!(
        rows,
        vec![
            PartsRow { item: 1, qty: 2, body: 0 },
            PartsRow { item: 2, qty: 3, body: 1 },
            PartsRow { item: 3, qty: 1, body: 3 },
        ]
    );
    assert!(parts_list(&keys, false).is_empty());
    assert!(parts_list(&vec![(1, 0)], true).is_empty());
}

#[test]
fn default_options_show_four_views_on_a4_with_a_parts_list() {
    let o = offkilter::sheet::Options::default();
    assert_eq!(o.views, vec!["front", "top", "right", "iso"]);
    assert_eq!(o.sheet, SheetSize::A4);
    assert!(o.title.is_empty() && o.note.is_empty());
    assert!(o.parts);
}

#[test]
fn every_sheet_size_reads_back_from_its_name() {
    for s in [SheetSize::A4, SheetSize::A3, SheetSize::A2, SheetSize::Letter] {
        assert_eq!(SheetSize::parse(s.name()), Ok(s));
    }
    assert_eq!(SheetSize::parse(""), Ok(SheetSize::A4));
    assert_eq!(SheetSize::parse(" a3 "), Ok(SheetSize::A3));
    assert_eq!(SheetSize::parse("LETTER"), Ok(SheetSize::Letter));
    assert!(SheetSize::parse("A5").is_err());
}
