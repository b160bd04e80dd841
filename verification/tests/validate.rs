use mindtask::model::project::ProjectError;
use mindtask::model::validate::validate_name;

#[test]
fn name_is_trimmed() {
    assert_eq!(validate_name("  Design API \n").unwrap(), "Design API");
}

#[test]
fn name_keeps_interior_spacing_and_unicode() {
    assert_eq!(validate_name("a  b — c 日本").unwrap(), "a  b — c 日本");
}

#[test]
fn empty_and_whitespace_only_names_are_rejected() {
    for bad in ["", "   ", "\t\n"] {
        assert!(matches!(validate_name(bad), Err(ProjectError::EmptyName)), "{bad:?}");
    }
}

#[test]
fn control_characters_inside_a_name_are_rejected() {
    for (bad, c) in [("line one\nline two", '\n'), ("tabs\there", '\t'), ("nul\0", '\0')] {
        match validate_name(bad) {
            Err(ProjectError::ControlCharInName(found)) => assert_eq!(found, c),
            other => panic!("{bad:?}: expected ControlCharInName, got {other:?}"),
        }
    }
}

#[test]
fn validating_a_validated_name_gives_it_back() {
    for raw in ["  spaced out \t", "plain", "\u{a0}nbsp\u{2003}"] {
        let once = validate_name(raw).unwrap();
        assert_eq!(validate_name(&once).unwrap(), once);
    }
}
