use offkilter::step::{escape, refs, Cursor, Writer};

#[test]
fn numbers_and_strings_follow_part_21() {
    assert_eq!(escape("it's"), "it''s");
    assert_eq!(escape("é"), "\\X2\\00E9\\X0\\");
}

#[test]
fn escapes_cover_backslashes_and_wide_characters() {
    assert_eq!(escape("a\\b"), "a\\\\b");
    assert_eq!(escape("\n"), "\\X2\\000A\\X0\\");
    assert_eq!(escape("😀"), "\\X2\\1F600\\X0\\");
    assert_eq!(escape("plain text"), "plain text");
}

#[test]
fn the_writer_numbers_entities_from_one() {
    let mut w = Writer::new();
    assert_eq!(w.entity("CARTESIAN_POINT('',(0.,0.,0.))"), 1);
    assert_eq!(w.entity("DIRECTION('',(0.,0.,1.))"), 2);
    assert_eq!(
        w.data(),
        "#1=CARTESIAN_POINT('',(0.,0.,0.));\n#2=DIRECTION('',(0.,0.,1.));\n"
    );
    assert_eq!(refs(&[1, 20, 3]), "#1,#20,#3");
    assert_eq!(refs(&[]), "");
    assert_eq!(Writer::default().data(), "");
}

#[test]
fn the_cursor_skips_space_and_comments() {
    let s = b"  /* note */ FOO ( #1";
    let mut c = Cursor { s, at: 0 };
    assert_eq!(c.ident(), "FOO");
    assert!(c.expect(b'(').is_ok());
    assert_eq!(c.peek(), Some(b' '));
    assert_eq!(c.expect(b')').unwrap_err(), "expected ')' at byte 19 of the STEP file");
    let mut d = Cursor { s: b"/* open", at: 0 };
    d.skip_space();
    assert_eq!(d.at, 7);
    assert_eq!(d.peek(), None);
    assert_eq!(d.ident(), "");
}

#[test]
fn a_written_file_has_its_header_and_reads_back() {
    let mut w = Writer::new();
    w.entity("CARTESIAN_POINT('',(0.,0.,1.5))");
    w.entity("PRODUCT('it''s','x','',(#1))");
    let file = offkilter::step::step_file("it's", &w);
    assert!(file.starts_with(
        "ISO-10303-21;\nHEADER;\nFILE_DESCRIPTION(('it''s'),'2;1');\nFILE_NAME('it''s.step','',(''),(''),'offkilter','offkilter','');\n"
    ));
    assert!(file.ends_with("#2=PRODUCT('it''s','x','',(#1));\nENDSEC;\nEND-ISO-10303-21;\n"));
    let read = offkilter::step_read::parse(&file).unwrap();
    assert_eq!(read.entities.len(), 2);
    assert_eq!(read.parts(2).unwrap()[0].0, "PRODUCT");
}
