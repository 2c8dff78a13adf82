use mininet::profile_fields::{parse_profile_fields, ProfileFieldLimits};

const LIMITS: ProfileFieldLimits = ProfileFieldLimits {
    max_fields: 8,
    max_label_bytes: 32,
    max_value_bytes: 256,
};

#[test]
fn custom_profile_fields_are_parsed_without_fixed_platform_schema() {
    let fields = parse_profile_fields(
        "Pronouns: they/them\nWebsite: https://example.org/profile?q=one:two",
        LIMITS,
    )
    .unwrap();
    assert_eq!(fields.len(), 2);
    assert_eq!(fields[0].label, "Pronouns");
    assert_eq!(fields[0].value, "they/them");
    assert_eq!(fields[1].label, "Website");
    assert_eq!(fields[1].value, "https://example.org/profile?q=one:two");
}

#[test]
fn duplicate_or_malformed_custom_profile_fields_are_rejected() {
    assert!(parse_profile_fields("Website: one\nwebsite: two", LIMITS).is_err());
    assert!(parse_profile_fields("missing separator", LIMITS).is_err());
}

#[test]
fn profile_field_refusals_name_the_problem() {
    assert_eq!(parse_profile_fields("", LIMITS).unwrap(), vec![]);
    assert_eq!(parse_profile_fields("\n  \n", LIMITS).unwrap(), vec![]);
    assert_eq!(
        parse_profile_fields("  missing separator  ", LIMITS).unwrap_err(),
        "custom field must use Label: Value — missing separator"
    );
    assert_eq!(
        parse_profile_fields("Label:   ", LIMITS).unwrap_err(),
        "custom profile labels and values cannot be empty"
    );
    assert_eq!(
        parse_profile_fields("Website: one\nWEBSITE: two", LIMITS).unwrap_err(),
        "duplicate custom profile field: WEBSITE"
    );
    let long_label = "L".repeat(33);
    assert_eq!(
        parse_profile_fields(&format!("{long_label}: x"), LIMITS).unwrap_err(),
        format!("custom profile label exceeds 32 bytes: {long_label}")
    );
    assert_eq!(
        parse_profile_fields(&format!("Bio: {}", "v".repeat(257)), LIMITS).unwrap_err(),
        "custom profile value for Bio exceeds 256 bytes"
    );
    let many: Vec<String> = (0..9).map(|i| format!("F{i}: v")).collect();
    assert_eq!(
        parse_profile_fields(&many.join("\n"), LIMITS).unwrap_err(),
        "at most 8 custom public profile fields are supported"
    );
    let fields = parse_profile_fields(" Élan : x \r\nélan: y", LIMITS).unwrap();
    assert_eq!(fields.len(), 2, "only ASCII letters are folded");
    assert_eq!(fields[0].label, "Élan");
    assert_eq!(fields[0].value, "x");
}
