use mindtask::model::id::{ConceptId, IdParseError, TaskId};

#[test]
fn concept_id_display() {
    assert_eq!(ConceptId(1).to_string(), "c1");
    assert_eq!(ConceptId(42).to_string(), "c42");
}

#[test]
fn task_id_display() {
    assert_eq!(TaskId(1).to_string(), "t1");
    assert_eq!(TaskId(99).to_string(), "t99");
}

#[test]
fn concept_id_parse() {
    assert_eq!("c1".parse::<ConceptId>().unwrap(), ConceptId(1));
    assert_eq!("c42".parse::<ConceptId>().unwrap(), ConceptId(42));
}

#[test]
fn task_id_parse() {
    assert_eq!("t1".parse::<TaskId>().unwrap(), TaskId(1));
    assert_eq!("t99".parse::<TaskId>().unwrap(), TaskId(99));
}

#[test]
fn concept_id_parse_errors() {
    assert!("t1".parse::<ConceptId>().is_err());
    assert!("c".parse::<ConceptId>().is_err());
    assert!("c-1".parse::<ConceptId>().is_err());
    assert!("abc".parse::<ConceptId>().is_err());
    assert!("".parse::<ConceptId>().is_err());
}

#[test]
fn task_id_parse_errors() {
    assert!("c1".parse::<TaskId>().is_err());
    assert!("t".parse::<TaskId>().is_err());
    assert!("t-1".parse::<TaskId>().is_err());
    assert!("abc".parse::<TaskId>().is_err());
    assert!("".parse::<TaskId>().is_err());
}

#[test]
fn bare_numbers_parse_as_identifiers() {
    assert_eq!("7".parse::<ConceptId>().unwrap(), ConceptId(7));
    assert_eq!("7".parse::<TaskId>().unwrap(), TaskId(7));
}

#[test]
fn id_parse_error_messages() {
    let e = "x1".parse::<ConceptId>().unwrap_err();
    assert_eq!(e, IdParseError::InvalidConceptId("x1".to_string()));
    assert_eq!(e.message(), "invalid concept ID format: expected 'c<number>', got 'x1'");
    let e = "t".parse::<TaskId>().unwrap_err();
    assert_eq!(e.message(), "invalid task ID format: expected 't<number>', got 't'");
}

#[test]
fn display_then_parse_gives_the_identifier_back() {
    for n in [0u64, 1, 9, 10, 12345, u64::MAX] {
        assert_eq!(ConceptId(n).to_string().parse::<ConceptId>().unwrap(), ConceptId(n));
        assert_eq!(TaskId(n).to_string().parse::<TaskId>().unwrap(), TaskId(n));
    }
}
