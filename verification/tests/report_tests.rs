use parmake::lifecycle::Phase;
use parmake::report::{indent_label, phase_position, phase_template};

#[test]
fn labels_carry_discovery_depth() {
    assert_eq!(indent_label(0, &"root".to_owned()), "root");
    assert_eq!(indent_label(1, &"child".to_owned()), "\u{21b1} child");
    assert_eq!(indent_label(3, &"deep".to_owned()), "  \u{21b1} deep");
}

#[test]
fn positions_follow_the_lifecycle() {
    assert_eq!(phase_position(Phase::Queued), 0);
    assert_eq!(phase_position(Phase::Running), 1);
    assert_eq!(phase_position(Phase::Completed), 2);
}

#[test]
fn templates_follow_the_lifecycle() {
    assert_eq!(phase_template(Phase::Queued), "\u{23f3}|   \u{22ef} | {prefix:20}");
    assert_eq!(
        phase_template(Phase::Running),
        "{spinner} | {elapsed:>03} | {prefix:20}"
    );
    assert_eq!(
        phase_template(Phase::Completed),
        "\u{2705}| {elapsed:>03} | {prefix:20}"
    );
}
