use musicos::instruments::{program_for_lowercase_name, program_for_name, PERCUSSION};

#[test]
fn names_map_to_gm_programs() {
    assert_eq!(program_for_name("guitar"), Some(25));
    assert_eq!(program_for_name("Electric Guitar"), Some(27));
    assert_eq!(program_for_name("piano"), Some(0));
    assert_eq!(program_for_name("drums"), Some(PERCUSSION));
    assert_eq!(program_for_name("33"), Some(33));
    assert_eq!(program_for_name("kazoo-orchestra"), None);
    assert_eq!(program_for_name("200"), None);
}

#[test]
fn names_are_trimmed_and_case_folded() {
    assert_eq!(program_for_name("  PIANO  "), Some(0));
    assert_eq!(program_for_name("127"), Some(127));
    assert_eq!(program_for_name("128"), Some(PERCUSSION));
    assert_eq!(program_for_name("129"), None);
    assert_eq!(program_for_lowercase_name("drums"), Some(PERCUSSION));
    assert_eq!(program_for_lowercase_name("Piano"), None);
}
