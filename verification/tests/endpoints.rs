use kit_panel::authentication::{Authentication, Permissions, Scope, User};
use kit_panel::models::{InputCommandRequest, TokenRequest};
use kit_panel::server_config::{ServerConfig, ServerInfo};
use kit_panel::{
    auth, get_all_status, get_output, handle_input, handle_output, handle_start, handle_status,
    handle_stop, input, split_command, start, start_attach, stop, stop_finish, ProcessManager,
    StartDecision, StopDecision,
};

fn config() -> ServerConfig {
    ServerConfig {
        address: "0.0.0.0".to_string(),
        port: "8080".to_string(),
        server_directory: "servers".to_string(),
        servers: vec![
            ServerInfo {
                id: "alpha".to_string(),
                display: "Alpha".to_string(),
                start_command: "java -jar alpha.jar".to_string(),
            },
            ServerInfo {
                id: "beta".to_string(),
                display: "Beta".to_string(),
                start_command: "run beta".to_string(),
            },
            ServerInfo {
                id: "broken".to_string(),
                display: "Broken".to_string(),
                start_command: "   ".to_string(),
            },
        ],
    }
}

fn account(id: &str, password: &str, permissions: Permissions) -> User {
    User { user_id: id.to_string(), permissions, password: password.to_string() }
}

fn admin_store() -> Authentication {
    Authentication::from_users(vec![account(
        "admin",
        "password",
        Permissions::new(true, Scope::All, Scope::All, Scope::All),
    )])
}

#[test]
fn split_command_separates_words() {
    let words = split_command("java -jar alpha.jar");
    assert_eq!(
        words,
        vec!["java".to_string(), "-jar".to_string(), "alpha.jar".to_string()]
    );
}

#[test]
fn split_command_collapses_repeated_whitespace() {
    let words = split_command("  run \t beta  \n");
    assert_eq!(words, vec!["run".to_string(), "beta".to_string()]);
}

#[test]
fn split_command_of_blank_text_is_empty() {
    assert!(split_command("   ").is_empty());
    assert!(split_command("").is_empty());
}

#[test]
fn start_computes_the_spawn_plan() {
    let cfg = config();
    let running = ProcessManager::new();
    let decision = start(&cfg, &running, &Scope::All, &"alpha".to_string());
    match decision {
        StartDecision::Spawn { program, args, dir } => {
            assert_eq!(program, "java".to_string());
            assert_eq!(args, vec!["-jar".to_string(), "alpha.jar".to_string()]);
            assert_eq!(dir, "servers/alpha".to_string());
        }
        _ => panic!("expected a spawn decision"),
    }
}

#[test]
fn start_outside_scope_is_denied() {
    let cfg = config();
    let running = ProcessManager::new();
    let scope = Scope::Listed(vec!["beta".to_string()]);
    assert!(matches!(
        start(&cfg, &running, &scope, &"alpha".to_string()),
        StartDecision::Denied
    ));
}

#[test]
fn start_of_an_unknown_id_reports_404() {
    let cfg = config();
    let running = ProcessManager::new();
    assert!(matches!(
        start(&cfg, &running, &Scope::All, &"gamma".to_string()),
        StartDecision::UnknownId
    ));
}

#[test]
fn start_with_a_blank_command_is_invalid() {
    let cfg = config();
    let running = ProcessManager::new();
    assert!(matches!(
        start(&cfg, &running, &Scope::All, &"broken".to_string()),
        StartDecision::InvalidCommand
    ));
}

#[test]
fn failed_spawn_reports_500_and_changes_nothing() {
    let mut running = ProcessManager::new();
    assert_eq!(start_attach(&mut running, &"alpha".to_string(), false), 500);
    assert!(!running.is_running(&"alpha".to_string()));
}

#[test]
fn stop_of_a_never_started_server_is_idempotent_success() {
    let running = ProcessManager::new();
    assert_eq!(
        stop(&running, &Scope::All, &"alpha".to_string()),
        StopDecision::Finished
    );
}

#[test]
fn failed_kill_reports_500_and_keeps_the_handle_attached() {
    let mut running = ProcessManager::new();
    start_attach(&mut running, &"alpha".to_string(), true);
    assert_eq!(stop_finish(&mut running, &"alpha".to_string(), false), 500);
    assert_eq!(
        stop(&running, &Scope::All, &"alpha".to_string()),
        StopDecision::Kill
    );
}

#[test]
fn input_outside_scope_reports_401() {
    let mut running = ProcessManager::new();
    let scope = Scope::Listed(vec![]);
    let (status, payload) = input(
        &mut running,
        &scope,
        &"alpha".to_string(),
        InputCommandRequest { command: "say hi".to_string() },
        "admin".to_string(),
    );
    assert_eq!(status, 401);
    assert_eq!(payload, None);
}

#[test]
fn input_with_no_handle_still_reports_200() {
    let mut running = ProcessManager::new();
    let (status, payload) = input(
        &mut running,
        &Scope::All,
        &"alpha".to_string(),
        InputCommandRequest { command: "say hi".to_string() },
        "admin".to_string(),
    );
    assert_eq!(status, 200);
    assert_eq!(payload, None);
}

#[test]
fn get_output_outside_scope_is_denied() {
    let running = ProcessManager::new();
    let scope = Scope::Listed(vec![]);
    assert!(get_output(&running, &scope, &"alpha".to_string()).is_none());
}

#[test]
fn get_output_without_a_handle_reports_no_lines() {
    let running = ProcessManager::new();
    let out = get_output(&running, &Scope::All, &"alpha".to_string()).unwrap();
    assert!(out.output.is_none());
}

#[test]
fn login_with_bad_credentials_yields_no_token() {
    let mut store = admin_store();
    let response = auth(
        &mut store,
        &TokenRequest { username: "admin".to_string(), password: "wrong".to_string() },
        1000,
    );
    assert!(response.token.is_none());
}

#[test]
fn status_is_filtered_by_the_view_scope() {
    let cfg = config();
    let running = ProcessManager::new();
    let scope = Scope::Listed(vec!["alpha".to_string()]);
    let report = get_all_status(&cfg, &running, &scope);
    assert_eq!(report.servers.len(), 1);
    assert_eq!(report.servers[0].id, "alpha".to_string());
    assert!(!report.servers[0].running);
}

#[test]
fn admin_scenario_start_is_idempotent_and_output_echoes_commands() {
    let cfg = config();
    let mut store = admin_store();
    let mut running = ProcessManager::new();
    let alpha = "alpha".to_string();

    // Log in.
    let response = auth(
        &mut store,
        &TokenRequest { username: "admin".to_string(), password: "password".to_string() },
        1000,
    );
    let token = response.token.expect("login should issue a token");

    // First start: no handle yet, so a spawn is requested; attach succeeds.
    match handle_start(&store, Some(token), &cfg, &running, &alpha) {
        StartDecision::Spawn { .. } => {}
        _ => panic!("expected a spawn decision"),
    }
    assert_eq!(start_attach(&mut running, &alpha, true), 200);
    assert!(running.is_running(&alpha));

    // Second start: still success, and no second spawn is requested.
    assert!(matches!(
        handle_start(&store, Some(token), &cfg, &running, &alpha),
        StartDecision::AlreadyRunning
    ));

    // Console activity: a submitted command is echoed, output is drained.
    let (status, payload) = handle_input(
        &store,
        Some(token),
        &mut running,
        &alpha,
        InputCommandRequest { command: "say hi".to_string() },
    );
    assert_eq!(status, 200);
    assert_eq!(payload, Some("say hi\n".to_string()));
    running.pump_line(&alpha, "hi".to_string());

    // Stop: the child is killed, and the pump observing end-of-stream
    // eventually clears the liveness flag.
    assert_eq!(
        handle_stop(&store, Some(token), &running, &alpha),
        StopDecision::Kill
    );
    assert_eq!(stop_finish(&mut running, &alpha, true), 200);
    running.pump_eof(&alpha);
    assert!(!running.is_running(&alpha));

    // Output: newest first, command echo included.
    let out = handle_output(&store, Some(token), &running, &alpha).unwrap();
    let lines = out.output.expect("the handle persists after a stop");
    assert_eq!(
        lines,
        vec!["hi".to_string(), "[KitPanel - admin] say hi".to_string()]
    );
}

#[test]
fn viewer_scenario_control_is_denied_and_status_is_filtered() {
    let cfg = config();
    let mut store = Authentication::from_users(vec![account(
        "viewer",
        "secret",
        Permissions::new(
            false,
            Scope::Listed(vec![]),
            Scope::Listed(vec!["alpha".to_string()]),
            Scope::Listed(vec![]),
        ),
    )]);
    let running = ProcessManager::new();

    let response = auth(
        &mut store,
        &TokenRequest { username: "viewer".to_string(), password: "secret".to_string() },
        1000,
    );
    let token = response.token.expect("login should issue a token");

    // Control scope is empty: start is denied with the uniform 401.
    assert!(matches!(
        handle_start(&store, Some(token), &cfg, &running, &"alpha".to_string()),
        StartDecision::Denied
    ));

    // Status only shows "alpha", though "beta" is configured too.
    let report = handle_status(&store, Some(token), &cfg, &running).unwrap();
    assert_eq!(report.servers.len(), 1);
    assert_eq!(report.servers[0].id, "alpha".to_string());
}

#[test]
fn requests_without_a_resolvable_token_are_denied() {
    let cfg = config();
    let store = admin_store();
    let mut running = ProcessManager::new();
    let alpha = "alpha".to_string();

    assert!(matches!(
        handle_start(&store, None, &cfg, &running, &alpha),
        StartDecision::Denied
    ));
    assert!(matches!(
        handle_start(&store, Some(42), &cfg, &running, &alpha),
        StartDecision::Denied
    ));
    assert_eq!(
        handle_stop(&store, None, &running, &alpha),
        StopDecision::Denied
    );
    assert!(handle_status(&store, None, &cfg, &running).is_none());
    assert!(handle_output(&store, Some(42), &running, &alpha).is_none());
    let (status, payload) = handle_input(
        &store,
        None,
        &mut running,
        &alpha,
        InputCommandRequest { command: "say hi".to_string() },
    );
    assert_eq!(status, 401);
    assert_eq!(payload, None);
}

#[test]
fn expired_login_no_longer_authorizes_operations() {
    let cfg = config();
    let mut store = admin_store();
    let running = ProcessManager::new();

    let response = auth(
        &mut store,
        &TokenRequest { username: "admin".to_string(), password: "password".to_string() },
        1000,
    );
    let token = response.token.unwrap();
    store.clean(kit_panel::SESSION_LENGTH, 1000 + kit_panel::SESSION_LENGTH);
    assert!(matches!(
        handle_start(&store, Some(token), &cfg, &running, &"alpha".to_string()),
        StartDecision::Denied
    ));
}
