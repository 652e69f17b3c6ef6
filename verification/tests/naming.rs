use vrenv::env_file_name;
use vrenv::errors::EnvError;
use vrenv::EnvFileConfig;

#[test]
fn explicit_file_name_overrides_the_derived_stem() {
    let config = EnvFileConfig {
        secret_arn: String::from("arn:aws:secretsmanager:us-west-2:123456789012:secret:MySecret-AbCdEf"),
        output_dir: String::from("/var/run"),
        file_name: Some(String::from("custom")),
    };
    assert_eq!(env_file_name(&config), "custom.env");
}

#[test]
fn missing_file_name_derives_the_stem_from_the_identifier() {
    let config = EnvFileConfig {
        secret_arn: String::from("arn:aws:secretsmanager:us-west-2:123456789012:secret:MySecret-AbCdEf"),
        output_dir: String::from("/var/run"),
        file_name: None,
    };
    assert_eq!(env_file_name(&config), "MySecret.env");
}

#[test]
fn error_messages_name_the_failure() {
    assert!(EnvError::InvalidSecretFormat.message().contains("JSON object"));
    assert!(EnvError::Serialization.message().contains("serialize"));
}
