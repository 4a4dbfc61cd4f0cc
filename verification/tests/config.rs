use kit_panel::configuration;
use kit_panel::server_config;

#[test]
fn server_config_template_entry() {
    let info = server_config::ServerInfo::template();
    assert_eq!(info.id, "example".to_string());
    assert_eq!(info.display, "Example".to_string());
    assert_eq!(info.start_command, "example start command".to_string());
}

#[test]
fn configuration_template_entry() {
    let info = configuration::ServerInfo::template();
    assert_eq!(info.id, "Example".to_string());
    assert_eq!(info.start_command, "ExampleStartCommand".to_string());
}

#[test]
fn configuration_holds_its_servers() {
    let config = configuration::Configuration {
        base_directory: "servers".to_string(),
        servers: vec![configuration::ServerInfo::template()],
    };
    assert_eq!(config.servers.len(), 1);
}
