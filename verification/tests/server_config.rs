use flowdb::server_config::{resolve_server_config, CliArgs};
use flowdb::ServerConfig;

#[test]
fn test_cli_defaults() {
    let cli = CliArgs::default();
    assert_eq!(cli.data_dir, "./data");
    assert_eq!(cli.http_addr, "0.0.0.0:8080");
    assert_eq!(cli.udp_addr, "0.0.0.0:9090");
    assert!(cli.api_key.is_none());
    assert!(cli.config.is_none());
}

#[test]
fn test_server_config_defaults() {
    let config = ServerConfig::default();
    assert_eq!(config.http_addr, "0.0.0.0:8080");
    assert_eq!(config.udp_addr, "0.0.0.0:9090");
    assert!(config.api_keys.is_empty());
    assert!(config.udp_api_key.is_none());
    assert_eq!(config.max_udp_packet_size, 1400);
}

#[test]
fn test_resolve_server_config_defaults() {
    let cfg = resolve_server_config(&CliArgs::default(), ServerConfig::default());
    assert_eq!(cfg.engine.data_dir, "./data");
    assert_eq!(cfg.http_addr, "0.0.0.0:8080");
    assert_eq!(cfg.udp_addr, "0.0.0.0:9090");
    assert!(cfg.api_keys.is_empty());
}

#[test]
fn test_resolve_server_config_overrides() {
    let cli = CliArgs {
        config: None,
        data_dir: "/tmp/db".to_string(),
        http_addr: "127.0.0.1:9000".to_string(),
        udp_addr: "127.0.0.1:9001".to_string(),
        api_key: Some("topsecret".to_string()),
    };
    let cfg = resolve_server_config(&cli, ServerConfig::default());
    assert_eq!(cfg.engine.data_dir, "/tmp/db");
    assert_eq!(cfg.http_addr, "127.0.0.1:9000");
    assert_eq!(cfg.udp_addr, "127.0.0.1:9001");
    assert_eq!(cfg.api_keys, vec!["topsecret".to_string()]);
}

#[test]
fn test_resolve_server_config_empty_data_dir_uses_default() {
    let cli = CliArgs { data_dir: "".to_string(), ..CliArgs::default() };
    let cfg = resolve_server_config(&cli, ServerConfig::default());
    assert_eq!(cfg.engine.data_dir, "./data");
}

#[test]
fn a_file_wins_over_default_arguments() {
    let mut file = ServerConfig::default();
    file.http_addr = "10.0.0.1:80".to_string();
    file.api_keys = vec!["a".to_string()];
    file.max_udp_packet_size = 9000;
    let cli = CliArgs { api_key: Some("b".to_string()), ..CliArgs::default() };
    let cfg = resolve_server_config(&cli, file);
    assert_eq!(cfg.http_addr, "10.0.0.1:80");
    assert_eq!(cfg.api_keys, vec!["a".to_string(), "b".to_string()]);
    assert_eq!(cfg.max_udp_packet_size, 9000);
}
