use jecs::errors::JecsDataError;
use jecs::types::JecsType;

fn scalar(text: &str) -> JecsType {
    JecsType::Value(String::from(text))
}

fn malformed_of(r: Result<impl std::fmt::Debug, JecsDataError>) -> (String, String) {
    match r {
        Err(JecsDataError::Malformed(e)) => (e.data_type, e.value),
        other => panic!("expected malformed data, got {:?}", other.is_ok()),
    }
}

#[test]
fn kind_names() {
    assert_eq!(JecsType::Any().name(), "Any");
    assert_eq!(scalar("x").name(), "Value");
    assert_eq!(JecsType::Mapping(Vec::new()).name(), "Map");
    assert_eq!(JecsType::List(Vec::new()).name(), "List");
}

#[test]
fn shape_predicates() {
    assert!(JecsType::Any().is_any());
    assert!(!scalar("x").is_any());
    assert!(scalar("x").is_value());
    assert!(JecsType::Any().is_map());
    assert!(JecsType::Mapping(Vec::new()).is_map());
    assert!(!scalar("x").is_map());
    assert!(JecsType::Any().is_list());
    assert!(JecsType::List(Vec::new()).is_list());
    assert!(!JecsType::Mapping(Vec::new()).is_list());
}

#[test]
fn getters() {
    assert_eq!(scalar("v").get_value(), Some("v"));
    assert_eq!(JecsType::Any().get_value(), None);
    assert!(JecsType::Mapping(Vec::new()).get_map().is_some());
    assert!(JecsType::Any().get_map().is_none());
    assert!(JecsType::List(Vec::new()).get_list().is_some());
    assert!(JecsType::Any().get_list().is_none());
}

#[test]
fn expect_shapes() {
    assert_eq!(JecsType::Any().expect_map().unwrap().len(), 0);
    assert_eq!(JecsType::Any().expect_list().unwrap().len(), 0);
    let e = scalar("x").expect_map().unwrap_err();
    assert_eq!(e.expected_type, "MAP");
    assert_eq!(e.encountered_type, "Value");
    let e = scalar("x").expect_list().unwrap_err();
    assert_eq!(e.expected_type, "LIST");
    assert_eq!(e.encountered_type, "Value");
    let e = JecsType::List(Vec::new()).expect_string().unwrap_err();
    assert_eq!(e.expected_type, "VALUE");
    assert_eq!(e.encountered_type, "List");
    assert_eq!(scalar("text").expect_string().unwrap(), "text");
}

#[test]
fn bool_coercion() {
    assert_eq!(scalar("yes").expect_bool().unwrap(), true);
    assert_eq!(scalar("true").expect_bool().unwrap(), true);
    assert_eq!(scalar("on").expect_bool().unwrap(), true);
    assert_eq!(scalar("y").expect_bool().unwrap(), true);
    assert_eq!(scalar("no").expect_bool().unwrap(), false);
    assert_eq!(scalar("false").expect_bool().unwrap(), false);
    assert_eq!(scalar("off").expect_bool().unwrap(), false);
    assert_eq!(scalar("n").expect_bool().unwrap(), false);
    let (kind, value) = malformed_of(scalar("maybe").expect_bool());
    assert_eq!(kind, "boolean");
    assert_eq!(value, "maybe");
    match JecsType::Any().expect_bool() {
        Err(JecsDataError::WrongType(e)) => {
            assert_eq!(e.expected_type, "bool");
            assert_eq!(e.encountered_type, "Any");
        }
        _ => panic!("expected a wrong-type error"),
    }
}

#[test]
fn color_coercion() {
    assert_eq!(scalar("FF00AA").expect_color().unwrap(), (255, 0, 170));
    assert_eq!(scalar("000000").expect_color().unwrap(), (0, 0, 0));
    assert_eq!(scalar("0A1B2C").expect_color().unwrap(), (10, 27, 44));
    let (kind, value) = malformed_of(scalar("ff00aa").expect_color());
    assert_eq!(kind, "color");
    assert_eq!(value, "ff00aa");
    malformed_of(scalar("FFF").expect_color());
    malformed_of(scalar("GG0000").expect_color());
    malformed_of(scalar("FF00AA0").expect_color());
}

#[test]
fn unsigned_coercion() {
    assert_eq!(scalar("42").expect_unsigned().unwrap(), 42);
    assert_eq!(scalar("+42").expect_unsigned().unwrap(), 42);
    assert_eq!(scalar("0").expect_unsigned().unwrap(), 0);
    assert_eq!(scalar("4294967295").expect_unsigned().unwrap(), 4294967295);
    let (kind, value) = malformed_of(scalar("4294967296").expect_unsigned());
    assert_eq!(kind, "unsigned");
    assert_eq!(value, "4294967296");
    malformed_of(scalar("abc").expect_unsigned());
    malformed_of(scalar("-1").expect_unsigned());
    malformed_of(scalar("4 2").expect_unsigned());
    malformed_of(scalar("+").expect_unsigned());
}

#[test]
fn component_address_coercion() {
    assert_eq!(scalar("C-42").expect_component_address().unwrap(), 42);
    assert_eq!(scalar("C-0").expect_component_address().unwrap(), 0);
    let (kind, value) = malformed_of(scalar("42").expect_component_address());
    assert_eq!(kind, "component address");
    assert_eq!(value, "42");
    let (kind, value) = malformed_of(scalar("C-x").expect_component_address());
    assert_eq!(kind, "component address");
    assert_eq!(value, "C-x");
    malformed_of(scalar("c-42").expect_component_address());
}
