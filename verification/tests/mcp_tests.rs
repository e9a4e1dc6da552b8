use hagi::config::config_file_name;
use hagi::json::JsonValue;
use hagi::json::json_eq;
use hagi::mcp::get_server_description;
use hagi::mcp::is_critical_server;
use hagi::mcp::is_server_disabled;
use hagi::mcp::needs_env_setup;
use hagi::mcp::partition_servers;
use hagi::mcp::toggle_server;

fn s(x: &str) -> String {
    x.to_string()
}

fn obj(pairs: Vec<(&str, JsonValue)>) -> JsonValue {
    JsonValue::Object(pairs.into_iter().map(|(k, v)| (s(k), v)).collect())
}

fn sample_config() -> JsonValue {
    obj(vec![(
        "mcpServers",
        obj(vec![
            ("git", obj(vec![("command", JsonValue::Str(s("mcp-git")))])),
            (
                "github",
                obj(vec![
                    ("command", JsonValue::Str(s("mcp-github"))),
                    ("disabled", JsonValue::Bool(true)),
                ]),
            ),
        ]),
    )])
}

#[test]
fn test_disable_server_sets_flag() {
    let config = sample_config();
    let updated = toggle_server(&config, "git", false).expect("server exists");

    let expected = obj(vec![(
        "mcpServers",
        obj(vec![
            (
                "git",
                obj(vec![
                    ("command", JsonValue::Str(s("mcp-git"))),
                    ("disabled", JsonValue::Bool(true)),
                ]),
            ),
            (
                "github",
                obj(vec![
                    ("command", JsonValue::Str(s("mcp-github"))),
                    ("disabled", JsonValue::Bool(true)),
                ]),
            ),
        ]),
    )]);
    assert!(json_eq(&updated, &expected));
}

#[test]
fn test_enable_server_removes_flag() {
    let config = sample_config();
    let updated = toggle_server(&config, "github", true).expect("server exists");

    let expected = obj(vec![(
        "mcpServers",
        obj(vec![
            ("git", obj(vec![("command", JsonValue::Str(s("mcp-git")))])),
            ("github", obj(vec![("command", JsonValue::Str(s("mcp-github")))])),
        ]),
    )]);
    assert!(json_eq(&updated, &expected));
}

#[test]
fn test_toggle_unknown_server_fails() {
    let config = sample_config();
    assert!(toggle_server(&config, "absent", true).is_none());
}

#[test]
fn test_toggle_without_server_table_fails() {
    let config = obj(vec![("other", JsonValue::Null)]);
    assert!(toggle_server(&config, "git", false).is_none());
}

#[test]
fn test_partition_servers_by_disabled_flag() {
    let config = sample_config();
    let (enabled, disabled) = partition_servers(&config).expect("server table exists");
    assert_eq!(enabled, vec![s("git")]);
    assert_eq!(disabled, vec![s("github")]);
}

#[test]
fn test_is_server_disabled_variants() {
    assert!(is_server_disabled(&obj(vec![("disabled", JsonValue::Bool(true))])));
    assert!(!is_server_disabled(&obj(vec![("disabled", JsonValue::Bool(false))])));
    assert!(!is_server_disabled(&obj(vec![("command", JsonValue::Str(s("x")))])));
    assert!(!is_server_disabled(&JsonValue::Null));
}

#[test]
fn test_server_descriptions() {
    assert_eq!(get_server_description("git"), "Git operations and repository management");
    assert_eq!(
        get_server_description("sequential-thinking"),
        "Structured thinking and problem-solving"
    );
    assert_eq!(get_server_description("anything-else"), "Custom MCP server");
}

#[test]
fn test_server_flags() {
    assert!(needs_env_setup("github"));
    assert!(!needs_env_setup("git"));
    assert!(is_critical_server("sequential-thinking"));
    assert!(is_critical_server("context7"));
    assert!(!is_critical_server("github"));
}

#[test]
fn test_config_file_name_dispatch() {
    assert_eq!(config_file_name("mcp"), Some("mcp.json"));
    assert_eq!(config_file_name("global"), Some("settings.json"));
    assert_eq!(config_file_name("hook"), None);
    assert_eq!(config_file_name("nonsense"), None);
}
