use toro::toro::Command::{Cancel, Check, New, Yeet};
use toro::toro::Param::{Menu, MenuQuantities};
use toro::toro::{Command, Param, Toro, ToroError};

const NEW_ORDER: &str = "new order for table 1: a * 1, b * 2, c c c * 3";
const NEW_ORDER2: &str = "  new order  for table 1  :a* 1, b*2, c c c* 3";
const CANCEL: &str = "cancel for table 1: a * 1, b * 2";
const CHECK: &str = "check for table 1: a, b, c";
const CHECK_ALL: &str = "check for table 1";
const YEET: &str = "yeet";
const KRANGLED: &str = "what is this for table something: oh a semicolon;";

#[test]
fn test_bad_string() {
    assert!(Toro::from_toro_string(KRANGLED).is_err());
    assert!(Toro::from_toro_string("asdfasdfjklasjdflkjaskldjfkljasjdkf").is_err());
    assert!(Toro::from_toro_string("").is_err());
}

#[test]
fn test_command_tokens() {
    assert!(matches!(
        Toro::from_toro_string(NEW_ORDER).unwrap().command,
        New
    ));
    assert!(matches!(
        Toro::from_toro_string(NEW_ORDER2).unwrap().command,
        New
    ));
    assert!(matches!(
        Toro::from_toro_string(CANCEL).unwrap().command,
        Cancel
    ));
    assert!(matches!(
        Toro::from_toro_string(CHECK).unwrap().command,
        Check
    ));
    assert!(matches!(
        Toro::from_toro_string(CHECK_ALL).unwrap().command,
        Check
    ));
    assert!(matches!(Toro::from_toro_string(YEET).unwrap().command, Yeet));
}

#[test]
fn test_param_tokens() {
    let _expected = MenuQuantities(vec![("a".into(), 1), ("b".into(), 2), ("c c c".into(), 3)]);
    assert!(matches!(
        Toro::from_toro_string(NEW_ORDER).unwrap().param.unwrap(),
        _expected
    ));
    assert!(matches!(
        Toro::from_toro_string(NEW_ORDER2).unwrap().param.unwrap(),
        _expected
    ));
    let _expected = Menu(vec!["a".into(), "b".into(), "c".into()]);
    assert!(matches!(
        Toro::from_toro_string(CHECK).unwrap().param.unwrap(),
        _expected
    ));
    assert!(Toro::from_toro_string(CHECK_ALL).unwrap().param.is_none());
    assert!(Toro::from_toro_string(YEET).unwrap().param.is_none());
}

#[test]
fn test_serde() {
    let de_str = Toro::from_toro_string(NEW_ORDER).unwrap().to_toro_string();
    assert_eq!(NEW_ORDER, de_str);
    let de_str = Toro::from_toro_string(CANCEL).unwrap().to_toro_string();
    assert_eq!(CANCEL, de_str);
    let de_str = Toro::from_toro_string(CHECK).unwrap().to_toro_string();
    assert_eq!(CHECK, de_str);
    let de_str = Toro::from_toro_string(CHECK_ALL).unwrap().to_toro_string();
    assert_eq!(CHECK_ALL, de_str);
    let de_str = Toro::from_toro_string(YEET).unwrap().to_toro_string();
    assert_eq!(YEET, de_str);
}

#[test]
fn test_integrity_check() {
    assert!(Toro::from_toro_string("check: name").is_err());
    assert!(Toro::from_toro_string("new order: name").is_err());
    assert!(Toro::from_toro_string("cancel: name").is_err());
    assert!(Toro::from_toro_string("yeet for table 1: name").is_err());
}

// The exact parsed structure of a command, field by field.
#[test]
fn test_parsed_fields() {
    let t = Toro::from_toro_string(NEW_ORDER).unwrap();
    assert!(matches!(t.command, Command::New));
    assert_eq!(t.table_id, Some(1));
    match t.param {
        Some(Param::MenuQuantities(v)) => {
            assert_eq!(
                v,
                vec![
                    ("a".to_string(), 1),
                    ("b".to_string(), 2),
                    ("c c c".to_string(), 3)
                ]
            );
        }
        _ => panic!("expected quantity parameters"),
    }
}

// Each rejection comes back as its own error.
#[test]
fn test_error_variants() {
    assert_eq!(
        Toro::from_toro_string("waltz for table 1"),
        Err(ToroError::UnknownCommand)
    );
    assert_eq!(
        Toro::from_toro_string("check for table one"),
        Err(ToroError::BadTableNumber)
    );
    assert_eq!(
        Toro::from_toro_string("check for table 1:"),
        Err(ToroError::EmptyParam)
    );
    assert_eq!(
        Toro::from_toro_string("new order for table 1: a * 1, b"),
        Err(ToroError::InconsistentParams)
    );
    assert_eq!(
        Toro::from_toro_string("new order for table 1: a * one"),
        Err(ToroError::BadQuantity)
    );
    assert_eq!(
        Toro::from_toro_string("new order: a * 1"),
        Err(ToroError::MissingTableId)
    );
    assert_eq!(
        Toro::from_toro_string("new order for table 1"),
        Err(ToroError::MissingParam)
    );
    assert_eq!(
        Toro::from_toro_string("check for table 1: a * 1"),
        Err(ToroError::WrongParamKind)
    );
    assert_eq!(
        Toro::from_toro_string("new order for table 1: a"),
        Err(ToroError::WrongParamKind)
    );
    assert_eq!(
        Toro::from_toro_string("yeet for table 1"),
        Err(ToroError::YeetTakesNothing)
    );
}

// Round-trip through the canonical printer: parse, print, parse again.
#[test]
fn test_reparse_canonical() {
    for text in [
        NEW_ORDER,
        NEW_ORDER2,
        CANCEL,
        CHECK,
        CHECK_ALL,
        YEET,
        "cancel for table 007:  b  *  -4 ",
        "check for table 3: a:b, x y",
        "check for table 9: a,",
        "new order for table 1: * 2",
    ] {
        let parsed = Toro::from_toro_string(text).unwrap();
        let printed = parsed.to_toro_string();
        let reparsed = Toro::from_toro_string(&printed).unwrap();
        assert_eq!(printed, reparsed.to_toro_string());
        assert_eq!(parsed.table_id, reparsed.table_id);
    }
}

// Negative and signed quantities parse exactly.
#[test]
fn test_signed_quantities() {
    let t = Toro::from_toro_string("cancel for table 2: a * -3, b * +7").unwrap();
    match &t.param {
        Some(Param::MenuQuantities(v)) => {
            assert_eq!(v, &vec![("a".to_string(), -3), ("b".to_string(), 7)]);
        }
        _ => panic!("expected quantity parameters"),
    }
    assert_eq!(
        t.to_toro_string(),
        "cancel for table 2: a * -3, b * 7"
    );
}
