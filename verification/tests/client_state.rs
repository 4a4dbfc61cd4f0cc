use kit_panel::cache::Cache;
use kit_panel::components::{Status, Tab};
use kit_panel::models::{GlobalStatus, ServerStatus};
use kit_panel::servers::{Server, Servers};

fn status(id: &str, running: bool) -> ServerStatus {
    ServerStatus { id: id.to_string(), running }
}

#[test]
fn cache_keeps_the_given_fields() {
    let cache = Cache::new("panel.example:8080".to_string(), "admin".to_string());
    assert_eq!(cache.last_address, "panel.example:8080".to_string());
    assert_eq!(cache.last_username, "admin".to_string());
}

#[test]
fn status_lines_compare_by_content() {
    assert_eq!(Status::Clear, Status::Clear);
    assert_eq!(
        Status::Error("boom".to_string()),
        Status::Error("boom".to_string())
    );
    assert_ne!(Status::Error("boom".to_string()), Status::Clear);
}

#[test]
fn tab_builders_chain() {
    let tab: Tab<u32> = Tab::new("Console".to_string()).on_select(7).selected(true);
    // The builders are pure value transformers; cloning keeps the state.
    let _copy = tab.clone();
}

#[test]
fn servers_update_follows_the_report() {
    let mut servers = Servers::new();
    servers.update(GlobalStatus { servers: vec![status("alpha", true), status("beta", false)] });
    {
        let entries = servers.entries();
        assert_eq!(entries.len(), 2);
        assert_eq!(entries[0].id, "alpha".to_string());
        assert!(entries[0].running);
        assert_eq!(entries[1].id, "beta".to_string());
        assert!(!entries[1].running);
    }

    servers.set_output(&"alpha".to_string(), vec!["log line".to_string()]);
    // An unknown id is ignored.
    servers.set_output(&"gamma".to_string(), vec!["lost".to_string()]);

    // "beta" disappears from the report, "gamma" is new, "alpha" stops.
    servers.update(GlobalStatus { servers: vec![status("gamma", true), status("alpha", false)] });
    let entries = servers.entries();
    assert_eq!(entries.len(), 2);
    let alpha = entries.iter().find(|s| s.id == "alpha").unwrap();
    assert!(!alpha.running);
    // A kept server keeps its fetched output; a new one starts empty.
    assert_eq!(alpha.output, vec!["log line".to_string()]);
    let gamma = entries.iter().find(|s| s.id == "gamma").unwrap();
    assert!(gamma.running);
    assert!(gamma.output.is_empty());
    assert!(entries.iter().find(|s| s.id == "beta").is_none());
}

#[test]
fn servers_update_lets_the_last_duplicate_win() {
    let mut servers = Servers::new();
    servers.update(GlobalStatus { servers: vec![status("alpha", false), status("alpha", true)] });
    let entries = servers.entries();
    assert_eq!(entries.len(), 1);
    assert!(entries[0].running);
}

#[test]
fn server_update_changes_only_liveness() {
    let mut server = Server {
        id: "alpha".to_string(),
        running: false,
        output: vec!["old line".to_string()],
    };
    server.update(ServerStatus { id: "alpha".to_string(), running: true });
    assert_eq!(server.id, "alpha".to_string());
    assert!(server.running);
    assert_eq!(server.output, vec!["old line".to_string()]);
}
