use offkilter::pdf::pdf_file;

fn objects_are_where_the_xref_says(pdf: &[u8]) {
    let text = String::from_utf8_lossy(pdf);
    let xref_at: usize = text
        .rsplit("startxref\n")
        .next()
        .unwrap()
        .lines()
        .next()
        .unwrap()
        .parse()
        .unwrap();
    assert!(text.as_bytes()[xref_at..].starts_with(b"xref\n"), "startxref points at the table");
    let table = String::from_utf8_lossy(&pdf[xref_at..]).to_string();
    let mut rows = 0;
    for (i, line) in table.lines().skip(2).take_while(|l| l.len() == 19).enumerate() {
        let offset: usize = line[..10].parse().unwrap();
        if i > 0 {
            assert!(
                pdf[offset..].starts_with(format!("{i} 0 obj").as_bytes()),
                "object {i} at {offset}"
            );
            rows += 1;
        }
    }
    assert_eq!(rows, 3);
}

#[test]
fn the_xref_table_points_at_every_object() {
    let bodies: Vec<Vec<u8>> = vec![
        b"<< /Type /Catalog /Pages 2 0 R >>".to_vec(),
        b"<< /Type /Pages /Kids [3 0 R] /Count 1 >>".to_vec(),
        b"<< /Length 3 >>\nstream\nabc\nendstream".to_vec(),
    ];
    let pdf = pdf_file(&bodies);
    assert!(pdf.starts_with(b"%PDF-1.4\n%\xc3\xa2\xc3\xa3\xc3\x8f\xc3\x93\n"));
    assert!(pdf.ends_with(b"\n%%EOF\n"));
    objects_are_where_the_xref_says(&pdf);
    let text = String::from_utf8_lossy(&pdf);
    assert!(text.contains("xref\n0 4\n0000000000 65535 f \n0000000019 00000 n \n"));
    assert!(text.contains("trailer\n<< /Size 4 /Root 1 0 R >>\nstartxref\n"));
}
