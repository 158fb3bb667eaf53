use offkilter::step_read::{parse, Val};

#[test]
fn strings_numbers_and_complex_instances_parse() {
    let f = parse("DATA;\n#1 = FOO('it''s',1.5E-3,#2,.T.,$,(1,2),BAR(3));\n#2 = ( A(1) B('x') );\nENDSEC;").unwrap();
    let parts = f.parts(1).unwrap();
    let (kind, args) = &parts[0];
    assert_eq!(kind, "FOO");
    assert_eq!(args[0], Val::Str("it's".into()));
    match &args[1] {
        Val::Num(t) => assert_eq!(t.parse::<f64>().unwrap(), 1.5e-3),
        other => panic!("not a number: {other:?}"),
    }
    assert_eq!(args[2], Val::Ref(2));
    assert_eq!(args[3], Val::Enum("T".into()));
    assert_eq!(args[4], Val::Null);
    assert_eq!(args[5], Val::List(vec![Val::Num("1".into()), Val::Num("2".into())]));
    assert_eq!(args[6], Val::Typed("BAR".into(), vec![Val::Num("3".into())]));
    let kinds: Vec<&str> = f.parts(2).unwrap().iter().map(|(k, _)| k.as_str()).collect();
    assert_eq!(kinds, vec!["A", "B"]);
    assert!(parse("garbage").is_err());
}

#[test]
fn reading_errors_say_where_and_what() {
    assert_eq!(parse("no data here").unwrap_err(), "not a STEP file: no DATA section");
    assert_eq!(parse("DATA; #1 = X('open);").unwrap_err(), "unterminated string in STEP file");
    assert_eq!(parse("DATA; #1 = X(1.2.3);").unwrap_err(), "bad number \"1.2.3\" in STEP file");
    assert_eq!(parse("DATA; #1 = X(#);").unwrap_err(), "bad entity reference");
    assert_eq!(parse("DATA; #x = X();").unwrap_err(), "bad entity number");
    assert_eq!(parse("DATA; #1 = X(").unwrap_err(), "unexpected end of STEP file");
    assert_eq!(parse("DATA; #1 = X(?);").unwrap_err(), "unexpected '?' in STEP file");
    assert_eq!(parse("DATA; 1 = X();").unwrap_err(), "expected '#' at byte 6 of the STEP file");
    assert_eq!(parse("DATA; #1 = X()").unwrap_err(), "expected ';' at byte 14 of the STEP file");
    assert_eq!(parse("DATA; #1 = X(.T);").unwrap_err(), "unterminated enumeration in STEP file");
    assert_eq!(
        parse("DATA; #1 = X(#99999999999999999999999);").unwrap_err(),
        "bad entity reference"
    );
}

#[test]
fn comments_space_and_later_instances_are_handled() {
    let f = parse("ISO;DATA;/* c */ #7=P(-1.,+2E3,0.5,1.E-2);\n#7 = Q();\n").unwrap();
    assert_eq!(f.entities.len(), 2);
    assert_eq!(f.parts(7).unwrap()[0].0, "Q");
    assert!(f.parts(8).is_none());
    let first = &f.entities[0].1[0].1;
    assert_eq!(first.len(), 4);
    assert_eq!(first[0], Val::Num("-1.".into()));
    assert_eq!(first[2], Val::Num("0.5".into()));
    assert!(parse("DATA; ENDSEC; #1=junk").unwrap().entities.is_empty());
}

#[test]
fn written_strings_read_back() {
    for text in ["it's", "''", "plain text", "a(b),c;#1"] {
        let file = format!("DATA;#1=X('{}');", offkilter::step::escape(text));
        let f = parse(&file).unwrap();
        assert_eq!(f.parts(1).unwrap()[0].1[0], Val::Str(text.to_string()));
    }
}

#[test]
fn a_part_is_found_by_its_type() {
    let f = parse("DATA;#2=(A(1) B('x') B('y'));#3=C();").unwrap();
    assert_eq!(f.part(2, "B").unwrap()[0], Val::Str("x".into()));
    assert_eq!(f.part(2, "A").unwrap()[0], Val::Num("1".into()));
    assert!(f.part(2, "D").is_none());
    assert!(f.part(4, "A").is_none());
    assert!(f.part(3, "C").unwrap().is_empty());
}
