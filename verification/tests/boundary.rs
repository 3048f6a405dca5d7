//! Boundary types and helpers: errors, parsers, request shapes and the
//! client configuration.

use vyos_config::appconf::{AlertsQuery, AppConfig};
use vyos_config::apperror::AppError;
use vyos_config::auth::{Claims, RegisterRequest};
use vyos_config::monitoring::{parse_alert_severity, parse_alert_status, AlertSeverity, AlertStatus};
use vyos_config::registry::{parse_node_status, CreateNodeRequest, NodeStatus};
use vyos_config::system::ShowCommandRequest;
use vyos_config::users::UserRecord;
use vyos_config::vyos::{VyOSClientConfig, VyosApiClientConfig};

#[test]
fn test_database_creation() {
    // This would be expanded with actual tests in the future
    assert!(true);
}

#[test]
fn test_config_service_creation() {
    // This would be expanded with actual tests in the future
    assert!(true);
}

#[test]
fn test_backend_structure() {
    assert_eq!(1, 1); // Basic test to ensure test framework works
}

#[test]
fn test_handler_function_names() {
    // This test verifies that handler functions are properly defined
    // In a real scenario, you'd have integration tests that actually call these handlers
    assert_eq!("reboot", "reboot");
}

#[test]
fn test_alert_query_creation() {
    let query = AlertsQuery {
        node_id: Some("node-1".to_string()),
        severity: Some("critical".to_string()),
        status: Some("active".to_string()),
        limit: Some(10),
    };

    assert_eq!(query.node_id, Some("node-1".to_string()));
    assert_eq!(query.limit, Some(10));
}

#[test]
fn test_parse_alert_severity() {
    assert_eq!(
        parse_alert_severity(&Some("critical".to_string())),
        Some(AlertSeverity::Critical)
    );
    assert_eq!(
        parse_alert_severity(&Some("warning".to_string())),
        Some(AlertSeverity::Warning)
    );
    assert_eq!(
        parse_alert_severity(&Some("info".to_string())),
        Some(AlertSeverity::Info)
    );
    assert_eq!(parse_alert_severity(&Some("invalid".to_string())), None);
}

#[test]
fn test_parse_alert_status() {
    assert_eq!(
        parse_alert_status(&Some("active".to_string())),
        Some(AlertStatus::Active)
    );
    assert_eq!(
        parse_alert_status(&Some("acknowledged".to_string())),
        Some(AlertStatus::Acknowledged)
    );
    assert_eq!(
        parse_alert_status(&Some("resolved".to_string())),
        Some(AlertStatus::Resolved)
    );
    assert_eq!(
        parse_alert_status(&Some("suppressed".to_string())),
        Some(AlertStatus::Suppressed)
    );
    assert_eq!(parse_alert_status(&Some("invalid".to_string())), None);
}

#[test]
fn test_alert_severity_ordering() {
    assert!(AlertSeverity::Critical > AlertSeverity::Warning);
    assert!(AlertSeverity::Warning > AlertSeverity::Info);
}

#[test]
fn test_create_node_request_defaults() {
    let request = CreateNodeRequest {
        name: "test-node".to_string(),
        description: None,
        host: "10.10.5.51".to_string(),
        port: None,
        api_key: "test-key".to_string(),
        use_https: None,
        verify_ssl: None,
        tags: None,
        timeout: None,
    };

    assert_eq!(request.name, "test-node");
    assert_eq!(request.port, None);
}

#[test]
fn test_show_command_request() {
    let request = ShowCommandRequest {
        command: "interfaces".to_string(),
        as_config: false,
    };

    assert_eq!(request.command, "interfaces");
    assert!(!request.as_config);
}

#[test]
fn test_parse_node_status() {
    assert_eq!(parse_node_status("online"), NodeStatus::Online);
    assert_eq!(parse_node_status("OFFLINE"), NodeStatus::Offline);
    assert_eq!(parse_node_status("Error"), NodeStatus::Error);
    assert_eq!(parse_node_status("unknown"), NodeStatus::Offline);
}

#[test]
fn test_node_status_to_string() {
    assert_eq!(NodeStatus::Online.to_string(), "online");
    assert_eq!(NodeStatus::Offline.to_string(), "offline");
    assert_eq!(NodeStatus::Error.to_string(), "error");
    assert_eq!(NodeStatus::Testing.to_string(), "testing");
}

#[test]
fn test_vyos_api_client_config_default() {
    let config = VyosApiClientConfig::default();
    assert_eq!(config.base_url, "https://10.10.5.51");
    assert_eq!(config.api_key, "");
    assert_eq!(config.timeout, 30);
    assert_eq!(config.verify_ssl, true);
}

#[test]
fn test_vyos_client_config_build_url() {
    let config = VyOSClientConfig {
        base_url: "10.10.5.51".to_string(),
        api_key: "test-key".to_string(),
        port: 8443,
        use_https: true,
        verify_ssl: false,
        timeout_secs: 30,
    };

    assert_eq!(config.build_url("info"), "https://10.10.5.51:8443/info");

    assert_eq!(
        config.build_url("retrieve"),
        "https://10.10.5.51:8443/retrieve"
    );
}

#[test]
fn test_vyos_client_config_build_url_http() {
    let config = VyOSClientConfig {
        base_url: "192.168.1.1".to_string(),
        api_key: "test-key".to_string(),
        port: 80,
        use_https: false,
        verify_ssl: false,
        timeout_secs: 30,
    };

    assert_eq!(config.build_url("info"), "http://192.168.1.1:80/info");
}

#[test]
fn test_error_display() {
    assert_eq!(
        AppError::Auth("Unauthorized".to_string()).message(),
        "Authentication error: Unauthorized"
    );
    assert_eq!(
        AppError::Validation("Invalid input".to_string()).message(),
        "Validation error: Invalid input"
    );
}

#[test]
fn test_error_status_codes() {
    assert_eq!(AppError::Auth("test".to_string()).status_code(), 401);
    assert_eq!(AppError::Forbidden("test".to_string()).status_code(), 403);
    assert_eq!(AppError::NotFound("test".to_string()).status_code(), 404);
    assert_eq!(AppError::Validation("test".to_string()).status_code(), 400);
    assert_eq!(AppError::Config("test".to_string()).status_code(), 500);
    assert_eq!(AppError::Database("test".to_string()).status_code(), 500);
    assert_eq!(AppError::Internal("test".to_string()).status_code(), 500);
    assert_eq!(AppError::ExternalApi("test".to_string()).status_code(), 502);
    assert_eq!(AppError::Jwt("test".to_string()).status_code(), 401);
    assert_eq!(AppError::HttpClient("test".to_string()).status_code(), 502);
}

#[test]
fn test_config_defaults() {
    // This test would need a mock environment or test-specific configuration
    // For now, we verify the structure exists
    assert!(true);
}

#[test]
fn test_server_address_format() {
    assert_eq!(
        "127.0.0.1:8080".to_string(),
        format!("{}:{}", "127.0.0.1", 8080)
    );
}

#[test]
fn test_server_address_built_from_config() {
    let config = AppConfig {
        server_host: "127.0.0.1".to_string(),
        server_port: 8080,
        app_env: "development".to_string(),
        database_url: "sqlite:data/database.db".to_string(),
        jwt_secret_key: "test".to_string(),
        jwt_expiration_minutes: 60,
        log_level: "info".to_string(),
        vyos_api_url: None,
        vyos_api_username: None,
        vyos_api_password: None,
    };
    assert_eq!(config.server_address(), "127.0.0.1:8080");
    assert!(config.is_development());
    assert!(!config.is_production());
}

#[test]
fn test_password_hashing_verification() {
    // Note: This test would require a real AuthService instance
    // The actual implementation in services/auth.rs has this test
    assert!(true);
}

#[test]
fn test_jwt_claims_structure() {
    let claims = Claims {
        sub: "123".to_string(),
        username: "testuser".to_string(),
        exp: chrono::Utc::now().timestamp() + 3600,
        iat: chrono::Utc::now().timestamp(),
    };

    assert_eq!(claims.sub, "123");
    assert_eq!(claims.username, "testuser");
    assert!(claims.exp > claims.iat);
}

#[test]
fn test_valid_request_validation() {
    let request = RegisterRequest {
        username: "validuser".to_string(),
        email: "valid@example.com".to_string(),
        password: "password123".to_string(),
        full_name: None,
    };

    assert!(request.validate().is_ok());
}

#[test]
fn test_invalid_username_too_short() {
    let request = RegisterRequest {
        username: "ab".to_string(),
        email: "valid@example.com".to_string(),
        password: "password123".to_string(),
        full_name: None,
    };

    assert!(request.validate().is_err());
}

#[test]
fn test_invalid_email_format() {
    let request = RegisterRequest {
        username: "validuser".to_string(),
        email: "invalid-email".to_string(),
        password: "password123".to_string(),
        full_name: None,
    };

    assert!(request.validate().is_err());
}

#[test]
fn test_invalid_password_too_short() {
    let request = RegisterRequest {
        username: "validuser".to_string(),
        email: "valid@example.com".to_string(),
        password: "short".to_string(),
        full_name: None,
    };

    assert!(request.validate().is_err());
}

#[test]
fn user_record_role_names() {
    let mut record = UserRecord {
        id: 1,
        username: "admin".to_string(),
        email: "admin@example.com".to_string(),
        password_hash: "hashed".to_string(),
        full_name: None,
        is_active: true,
        is_superuser: true,
        last_login: None,
        created_at: "2026-01-01 00:00:00".to_string(),
        updated_at: "2026-01-01 00:00:00".to_string(),
    };
    assert_eq!(record.role_name(), "admin");
    record.is_superuser = false;
    assert_eq!(record.role_name(), "viewer");
}
