use ssm_fs::envfile::{env_assignment, env_file, env_names};

fn pair(name: &str, value: &str) -> (String, String) {
    (name.to_string(), value.to_string())
}

#[test]
fn variables_are_fetched_below_the_base() {
    let names = env_names("/base", &vec!["name".to_string(), "other".to_string()]);
    assert_eq!(names, vec!["/base/name".to_string(), "/base/other".to_string()]);
    assert_eq!(env_names("/base", &Vec::new()), Vec::<String>::new());
    assert_eq!(env_names("", &vec!["v".to_string()]), vec!["/v".to_string()]);
}

#[test]
fn the_key_is_the_last_component_in_upper_case() {
    assert_eq!(env_assignment("/base/name", "<value>"), "NAME=\"<value>\"");
    assert_eq!(env_assignment("/base/db_url2", "x"), "DB_URL2=\"x\"");
    assert_eq!(env_assignment("name", "x"), "NAME=\"x\"");
    assert_eq!(env_assignment("/base/", "x"), "=\"x\"");
}

#[test]
fn only_ascii_letters_are_raised() {
    assert_eq!(env_assignment("/base/straße", "x"), "STRAßE=\"x\"");
    assert_eq!(env_assignment("/base/az{`", "x"), "AZ{`=\"x\"");
}

#[test]
fn values_are_quoted_as_they_are() {
    assert_eq!(env_assignment("/b/k", "a \"quoted\" $value\\n"), "K=\"a \"quoted\" $value\\n\"");
    assert_eq!(env_assignment("/b/k", ""), "K=\"\"");
}

#[test]
fn the_file_has_one_assignment_per_line() {
    let text = env_file(&vec![pair("/base/name", "v1"), pair("/base/other", "v2"), pair("/base/x", "")]);
    assert_eq!(text, "NAME=\"v1\"\nOTHER=\"v2\"\nX=\"\"");
}

#[test]
fn the_file_of_one_parameter_is_one_line() {
    assert_eq!(env_file(&vec![pair("/base/name", "v")]), "NAME=\"v\"");
}

#[test]
fn the_file_of_no_parameters_is_empty() {
    assert_eq!(env_file(&Vec::new()), "");
}
