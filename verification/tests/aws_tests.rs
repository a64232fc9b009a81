use skit::aws::normalize_prefix;
use skit::aws::strip_parameter_prefix;

#[test]
fn test_key_stripping() {
    let prefix = "/myapp/dev/";
    let param_name = "/myapp/dev/API_KEY";

    let stripped = strip_parameter_prefix(param_name, prefix);

    assert_eq!(stripped, "API_KEY");
}

#[test]
fn test_nested_key_stripping() {
    let prefix = "/myapp/dev/";
    let param_name = "/myapp/dev/database/host";

    let stripped = strip_parameter_prefix(param_name, prefix);

    assert_eq!(stripped, "database/host");
}

#[test]
fn test_strip_foreign_name_untouched() {
    assert_eq!(strip_parameter_prefix("/other/app/KEY", "/myapp/dev/"), "/other/app/KEY");
}

#[test]
fn test_normalize_prefix_adds_slash() {
    assert_eq!(normalize_prefix("myapp/dev"), "/myapp/dev");
    assert_eq!(normalize_prefix("/myapp/dev"), "/myapp/dev");
}
