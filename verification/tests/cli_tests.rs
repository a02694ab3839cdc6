use lib::{plan_command, CliCommand, CliFailure};

fn args(list: &[&str]) -> Vec<String> {
    list.iter().map(|a| a.to_string()).collect()
}

fn failure(list: &[&str]) -> CliFailure {
    match plan_command(&args(list)) {
        Err(f) => f,
        Ok(c) => panic!("expected a refusal, got {c:?}"),
    }
}

#[test]
fn cli_health_command() {
    match plan_command(&args(&["rust-client", "health", "--server", "http://127.0.0.1:8080"])) {
        Ok(CliCommand::Health(client)) => {
            assert_eq!(client.host(), "127.0.0.1");
            assert_eq!(client.port(), 8080);
        }
        other => panic!("expected health, got {other:?}"),
    }
}

#[test]
fn cli_sync_command() {
    match plan_command(&args(&[
        "rust-client",
        "sync",
        "--server",
        "http://127.0.0.1:8080",
        "--path",
        "notes/todo.txt",
        "--hash",
        "abc123",
    ])) {
        Ok(CliCommand::Sync(client, request)) => {
            assert_eq!(client.port(), 8080);
            assert_eq!(request.path, "notes/todo.txt");
            assert_eq!(request.hash, "abc123");
        }
        other => panic!("expected sync, got {other:?}"),
    }
}

#[test]
fn cli_refusals() {
    let f = failure(&["rust-client", "health", "--server"]);
    assert_eq!(f.message, "missing required arguments");
    assert!(f.show_usage);

    let f = failure(&["rust-client", "health", "--host", "http://h"]);
    assert_eq!(f.message, "expected --server <URL>");
    assert!(!f.show_usage);

    let f = failure(&["rust-client", "health", "--server", "h:80"]);
    assert_eq!(f.message, "invalid base url: h:80");
    assert!(!f.show_usage);

    let f = failure(&["rust-client", "sync", "--server", "http://h", "--path", "p"]);
    assert_eq!(f.message, "sync requires --path and --hash");
    assert!(f.show_usage);

    let f = failure(&["rust-client", "sync", "--server", "http://h", "--hash", "p", "--path", "h"]);
    assert_eq!(f.message, "expected sync --server <URL> --path <PATH> --hash <HASH>");
    assert!(!f.show_usage);

    let f = failure(&["rust-client", "push", "--server", "http://h"]);
    assert_eq!(f.message, "unknown command: push");
    assert!(f.show_usage);
}

#[test]
fn cli_checks_server_before_command() {
    let f = failure(&["rust-client", "push", "--server", "bad"]);
    assert_eq!(f.message, "invalid base url: bad");
}
