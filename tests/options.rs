use kvtxn::options::{create_client_opts_from_arguments, generate_config_from_arguments, ClientOptions};

#[test]
fn default_client_options() {
    let o = ClientOptions::default();
    assert_eq!(o.logging, "info");
    assert!(!o.minify);
    assert_eq!(o.mode, "transaction");
    assert!(o.output_durations);
    assert_eq!(o.key_encoding, "utf-8");
    assert_eq!(o.value_encoding, "utf-8");
}

#[test]
fn arguments_override_defaults() {
    let o = create_client_opts_from_arguments(Some("debug".to_string()), true, Some("raw".to_string()), true, None, Some("hex".to_string()));
    assert_eq!(o.logging, "debug");
    assert!(o.minify);
    assert_eq!(o.mode, "raw");
    assert!(!o.output_durations);
    assert_eq!(o.key_encoding, "utf-8");
    assert_eq!(o.value_encoding, "hex");
    let d = create_client_opts_from_arguments(None, false, None, false, None, None);
    assert_eq!(d.logging, "info");
    assert_eq!(d.mode, "transaction");
    assert!(d.output_durations);
}

#[test]
fn config_security_follows_key_path() {
    let c = generate_config_from_arguments(vec!["localhost".to_string()], None, None, None);
    assert_eq!(c.endpoints, vec!["localhost".to_string()]);
    assert!(c.security.is_none());
    let c = generate_config_from_arguments(vec!["a".to_string(), "b".to_string()], Some("ca".to_string()), Some("cert".to_string()), Some("key".to_string()));
    assert_eq!(c.endpoints.len(), 2);
    let s = c.security.unwrap();
    assert_eq!(s.ca_path, "ca");
    assert_eq!(s.cert_path, "cert");
    assert_eq!(s.key_path, "key");
}
