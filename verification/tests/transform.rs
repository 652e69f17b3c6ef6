use vrenv::arn::extract_secret_name_from_arn;
use vrenv::envfmt::{env_file_content, env_key, json_to_env_format, render_value};
use vrenv::errors::EnvError;
use vrenv::payload::JsonValue;

#[test]
fn test_extract_secret_name_from_arn() {
    let arn = "arn:aws:secretsmanager:us-west-2:123456789012:secret:MySecret-AbCdEf";
    assert_eq!(extract_secret_name_from_arn(arn), "MySecret");

    let arn_with_path =
        "arn:aws:secretsmanager:us-west-2:123456789012:secret:/my/custom/path/secret-AbCdEf";
    assert_eq!(extract_secret_name_from_arn(arn_with_path), "secret");
}

#[test]
fn test_json_to_env_format() {
    let json_str = "{\"database_url\": \"postgres://localhost\", \"api_key\": \"secret123\"}";
    let result = env_file_content(json_str).unwrap();

    assert!(result.contains("API_KEY=secret123"));
    assert!(result.contains("DATABASE_URL=postgres://localhost"));
}

#[test]
fn test_json_to_env_format_with_different_types() {
    let json_str = "{\"port\": 8080, \"debug\": true, \"timeout\": null}";
    let result = env_file_content(json_str).unwrap();

    assert!(result.contains("DEBUG=true"));
    assert!(result.contains("PORT=8080"));
    assert!(result.contains("TIMEOUT="));
}

#[test]
fn end_to_end_example_is_sorted_with_trailing_newline() {
    let result = env_file_content("{\"port\": 8080, \"debug\": true, \"timeout\": null}").unwrap();
    assert_eq!(result, "DEBUG=true\nPORT=8080\nTIMEOUT=\n");
}

#[test]
fn non_object_json_is_refused() {
    assert_eq!(
        env_file_content("[1,2,3]").unwrap_err(),
        EnvError::InvalidSecretFormat
    );
    assert_eq!(
        env_file_content("\"just a string\"").unwrap_err(),
        EnvError::InvalidSecretFormat
    );
    assert_eq!(
        env_file_content("42").unwrap_err(),
        EnvError::InvalidSecretFormat
    );
    assert_eq!(
        env_file_content("null").unwrap_err(),
        EnvError::InvalidSecretFormat
    );
}

#[test]
fn non_json_payload_becomes_single_opaque_line() {
    let result = env_file_content("not json at all").unwrap();
    assert_eq!(result, "SECRET_VALUE=not json at all\n");
}

#[test]
fn output_is_sorted_and_rerunning_is_byte_identical() {
    let payload = "{\"zeta\": \"1\", \"alpha\": \"2\", \"mid\": \"3\"}";
    let first = env_file_content(payload).unwrap();
    let second = env_file_content(payload).unwrap();
    assert_eq!(first, second);
    let lines: Vec<&str> = first.lines().collect();
    assert_eq!(lines, vec!["ALPHA=2", "MID=3", "ZETA=1"]);
    let mut resorted = lines.clone();
    resorted.sort();
    assert_eq!(lines, resorted);
}

#[test]
fn keys_are_uppercased_and_hyphens_and_spaces_become_underscores() {
    let result = env_file_content("{\"db-host name\": \"localhost\"}").unwrap();
    assert_eq!(result, "DB_HOST_NAME=localhost\n");
    assert_eq!(env_key("a-b c"), "A_B_C");
}

#[test]
fn compound_values_are_reserialized_on_one_line() {
    let result = env_file_content("{\"nested\": {\"a\": 1, \"b\": [true, null]}}").unwrap();
    assert_eq!(result, "NESTED={\"a\":1,\"b\":[true,null]}\n");
    let list = env_file_content("{\"list\": [1, 2, 3]}").unwrap();
    assert_eq!(list, "LIST=[1,2,3]\n");
}

#[test]
fn numbers_keep_their_decimal_text() {
    let result = env_file_content("{\"pi\": 3.14, \"neg\": -7}").unwrap();
    assert_eq!(result, "NEG=-7\nPI=3.14\n");
}

#[test]
fn sorting_compares_full_lines_not_just_keys() {
    let result = env_file_content("{\"a\": \"z\", \"ab\": \"a\"}").unwrap();
    assert_eq!(result, "A=z\nAB=a\n");
}

#[test]
fn empty_object_yields_single_newline() {
    let result = env_file_content("{}").unwrap();
    assert_eq!(result, "\n");
}

#[test]
fn unserializable_compound_reports_serialization_error() {
    let entries = vec![(String::from("bad"), JsonValue::Compound(None))];
    assert_eq!(json_to_env_format(&entries).unwrap_err(), EnvError::Serialization);
    assert_eq!(
        render_value(&JsonValue::Compound(None)).unwrap_err(),
        EnvError::Serialization
    );
}

#[test]
fn json_to_env_format_renders_each_type() {
    let entries = vec![
        (String::from("s"), JsonValue::Text(String::from("v"))),
        (String::from("n"), JsonValue::Number(String::from("12"))),
        (String::from("b"), JsonValue::Bool(false)),
        (String::from("z"), JsonValue::Null),
        (
            String::from("c"),
            JsonValue::Compound(Some(String::from("[1]"))),
        ),
    ];
    let text = json_to_env_format(&entries).unwrap();
    assert_eq!(text, "B=false\nC=[1]\nN=12\nS=v\nZ=\n");
}

#[test]
fn reparsing_rendered_lines_recovers_transformed_mapping() {
    let payload = "{\"a-key\": \"v1\", \"B key\": 2, \"c\": null}";
    let text = env_file_content(payload).unwrap();
    let mut pairs: Vec<(&str, &str)> = text
        .lines()
        .filter(|l| !l.is_empty())
        .map(|l| l.split_once('=').unwrap())
        .collect();
    pairs.sort();
    assert_eq!(pairs, vec![("A_KEY", "v1"), ("B_KEY", "2"), ("C", "")]);
}

#[test]
fn malformed_identifiers_fall_back_to_secret() {
    assert_eq!(extract_secret_name_from_arn(""), "secret");
    assert_eq!(extract_secret_name_from_arn("arn:aws:secretsmanager"), "secret");
    assert_eq!(extract_secret_name_from_arn("a:b:c:d:e:f"), "secret");
}

#[test]
fn stem_takes_first_hyphen_token_then_last_slash_component() {
    assert_eq!(
        extract_secret_name_from_arn("arn:aws:secretsmanager:r:a:secret:multi-part-name-XYZ"),
        "multi"
    );
    assert_eq!(
        extract_secret_name_from_arn("arn:aws:secretsmanager:r:a:secret:app/db-AbC"),
        "db"
    );
}
