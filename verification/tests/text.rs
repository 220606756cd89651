use squadreplay::text::{
    contains_ignore_ascii_case, decimal_string, lowercase_ends_with, starts_with_ignore_ascii_case,
};
use squadreplay::{infer_bundle_format, BundleFormat};

#[test]
fn keyword_search_ignores_ascii_case() {
    assert!(contains_ignore_ascii_case("BP_Soldier_RUS", "soldier"));
    assert!(contains_ignore_ascii_case("bp_soldier_rus", "SOLDIER"));
    assert!(contains_ignore_ascii_case("anything", ""));
    assert!(contains_ignore_ascii_case("", ""));
    assert!(!contains_ignore_ascii_case("", "a"));
    assert!(!contains_ignore_ascii_case("sold", "soldier"));
    assert!(contains_ignore_ascii_case("xxSOLDIER", "soldier"));
    assert!(!contains_ignore_ascii_case("ÉCOLE", "école"));
}

#[test]
fn prefix_search_ignores_ascii_case() {
    assert!(starts_with_ignore_ascii_case("BP_Emplaced_Kord", "bp_emplaced"));
    assert!(!starts_with_ignore_ascii_case("X_BP_Emplaced", "bp_emplaced"));
    assert!(!starts_with_ignore_ascii_case("BP", "bp_emplaced"));
    assert!(starts_with_ignore_ascii_case("anything", ""));
}

#[test]
fn decimal_text_matches_to_string() {
    for n in [0u64, 7, 10, 42, 754, 3334, 1_000_000, u32::MAX as u64, u64::MAX] {
        assert_eq!(decimal_string(n), n.to_string());
    }
}

#[test]
fn bundle_format_from_file_name() {
    assert_eq!(infer_bundle_format("match.sqrb"), Some(BundleFormat::Sqrb));
    assert_eq!(infer_bundle_format("MATCH.SQRB"), Some(BundleFormat::Sqrb));
    assert_eq!(infer_bundle_format("match.sqrj.json"), Some(BundleFormat::Sqrj));
    assert_eq!(infer_bundle_format("match.sqrj"), Some(BundleFormat::Sqrj));
    assert_eq!(infer_bundle_format("bundle.JSON"), Some(BundleFormat::Sqrj));
    assert_eq!(infer_bundle_format("match.replay"), None);
    assert_eq!(infer_bundle_format(""), None);
    assert!(lowercase_ends_with("A.SQRB", ".sqrb"));
    assert!(!lowercase_ends_with("sqrb", ".sqrb"));
}
