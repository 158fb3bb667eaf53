use offkilter::view::{section_fields, section_flip, view_request, Axis, NamedView, ViewRequest};

fn texts(v: &[&str]) -> Vec<String> {
    v.iter().map(|s| s.to_string()).collect()
}

#[test]
fn views_and_sections_parse() {
    assert_eq!(view_request("TOP"), ViewRequest::Named(NamedView::Top));
    assert_eq!(view_request(""), ViewRequest::Named(NamedView::Iso));
    assert_eq!(view_request("1,0,0"), ViewRequest::Direction(texts(&["1", "0", "0"])));
    assert_eq!(view_request("back"), ViewRequest::Direction(texts(&["back"])));
    let s = section_fields("X:-2.5:flip").unwrap();
    assert_eq!(s.axis, Axis::X);
    assert_eq!(s.offset, "-2.5");
    assert_eq!(section_flip(s.flag.as_deref()), Ok(true));
    assert!(section_fields("w:1").is_err());
}

#[test]
fn view_names_ignore_case_and_space() {
    assert_eq!(view_request("  Isometric "), ViewRequest::Named(NamedView::Iso));
    assert_eq!(view_request("front"), ViewRequest::Named(NamedView::Front));
    assert_eq!(view_request("Right"), ViewRequest::Named(NamedView::Right));
    assert_eq!(view_request(" 0.6, -0.7 ,0.5"), ViewRequest::Direction(texts(&["0.6", "-0.7", "0.5"])));
    assert_eq!(view_request("1,2"), ViewRequest::Direction(texts(&["1", "2"])));
}

#[test]
fn section_texts_are_checked_field_by_field() {
    assert_eq!(
        section_fields("z").err().unwrap(),
        "section \"z\": use axis:offset[:flip], e.g. z:10"
    );
    assert_eq!(
        section_fields("z:1:flip:x").err().unwrap(),
        "section \"z:1:flip:x\": use axis:offset[:flip], e.g. z:10"
    );
    assert_eq!(section_fields("W:1").err().unwrap(), "section axis \"w\": use x, y or z");
    let s = section_fields(" y : 10 ").unwrap();
    assert_eq!((s.axis, s.offset.as_str(), s.flag), (Axis::Y, "10", None));
    let s = section_fields("z:abc:nope").unwrap();
    assert_eq!(s.offset, "abc");
    assert_eq!(section_flip(s.flag.as_deref()).unwrap_err(), "section flag \"nope\": use flip");
    assert_eq!(section_flip(None), Ok(false));
    assert_eq!(section_flip(Some("TRUE")), Ok(true));
    assert_eq!(section_flip(Some("False")), Ok(false));
}
