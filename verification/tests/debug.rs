//! What the debug log says, and when it is kept.

use isayes::debug::{detection_line, wanted, ENV_VAR, FILE_NAME};
use isayes::detector::Detection;

/// Unset, nothing is kept.
#[test]
fn disabled_by_default_and_inert() {
    assert_eq!(ENV_VAR, "ISAYES_DEBUG");
    assert!(!wanted(None));
    assert!(!wanted(Some("")));
    assert!(!wanted(Some("0")));
    assert!(!wanted(Some("11")));
    assert!(wanted(Some("1")));
}

#[test]
fn the_log_has_a_name_of_its_own() {
    let path = std::path::PathBuf::from("/home/someone").join(FILE_NAME);
    assert!(path.ends_with(".isayes-debug.log"), "got {path:?}");
}

/// A score of zero is ordinary output; logging it would bury the signal.
#[test]
fn a_zero_score_is_not_worth_a_line() {
    assert_eq!(
        detection_line(&Detection {
            detected: false,
            score: 0,
            hits: Vec::new(),
        }),
        None
    );
}

#[test]
fn a_verdict_says_why() {
    assert_eq!(
        detection_line(&Detection {
            detected: true,
            score: 9,
            hits: vec!["yes_no_buttons"],
        })
        .as_deref(),
        Some("DETECTED score=9 hits=[yes_no_buttons]")
    );
    assert_eq!(
        detection_line(&Detection {
            detected: false,
            score: 14,
            hits: vec!["permission_rule", "esc_to_cancel", "tab_to_amend"],
        })
        .as_deref(),
        Some("below    score=14 hits=[permission_rule,esc_to_cancel,tab_to_amend]")
    );
}
