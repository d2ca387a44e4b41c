use tiplot::paths::get_model_path;
use tiplot::strutil::{fuzzy_match, sanitize_filename, str_eq, str_lt};
use tiplot::vehicle::VehicleType;

#[test]
fn fuzzy_match_reads_the_query_in_order() {
    assert!(fuzzy_match("vehicle_local_position", "vlp"));
    assert!(fuzzy_match("vehicle_local_position", ""));
    assert!(fuzzy_match("abc", "abc"));
    assert!(!fuzzy_match("abc", "acb"));
    assert!(!fuzzy_match("", "a"));
    assert!(!fuzzy_match("gyro", "gyros"));
    assert!(fuzzy_match("gyros", "gyro"));
}

#[test]
fn sanitize_filename_replaces_reserved_characters() {
    assert_eq!(sanitize_filename("a/b\\c:d*e?f\"g<h>i|j"), "a_b_c_d_e_f_g_h_i_j");
    assert_eq!(sanitize_filename("plain-name_1"), "plain-name_1");
    assert_eq!(sanitize_filename(""), "");
}

#[test]
fn string_order_helpers() {
    assert!(str_lt("abc", "abd"));
    assert!(str_lt("ab", "abc"));
    assert!(!str_lt("abc", "abc"));
    assert!(!str_lt("b", "abc"));
    assert!(str_eq("same", "same"));
    assert!(!str_eq("same", "samey"));
}

#[test]
fn model_paths() {
    assert_eq!(VehicleType::FixedWing.model_path(), "FixedWing");
    assert_eq!(VehicleType::QuadCopter.model_path(), "QuadCopter");
    assert_eq!(VehicleType::DeltaWing.model_path(), "DeltaWing");
    assert_eq!(get_model_path("/usr/share/assets", "QuadCopter"), "/usr/share/assets/models/QuadCopter");
}
