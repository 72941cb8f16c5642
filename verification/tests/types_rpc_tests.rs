//! Shared helpers and the request/reply address registry.

use chat_core::rpc::{bind_server, unbind_server, RpcError, RpcRegistry};
use chat_core::types::{is_admin_email, ApiError, Claims, PushKeys, PushMessage, PushSubscription, User};

#[test]
fn admin_email_compares_without_case() {
    assert!(is_admin_email("admin@example.com"));
    assert!(is_admin_email("ADMIN@EXAMPLE.COM"));
    assert!(is_admin_email("Admin@Example.Com"));
    assert!(!is_admin_email("admin@example.org"));
    assert!(!is_admin_email("someone@example.com"));
    assert!(!is_admin_email(""));
}

#[test]
fn binding_an_address_twice_is_refused() {
    let mut reg = RpcRegistry::new();
    assert!(bind_server(&mut reg, "inproc://svc").is_ok());
    assert_eq!(bind_server(&mut reg, "inproc://svc"), Err(RpcError::AddressInUse));
    assert!(bind_server(&mut reg, "inproc://other").is_ok());
}

#[test]
fn unbinding_frees_the_address() {
    let mut reg = RpcRegistry::new();
    assert!(!unbind_server(&mut reg, "inproc://svc"));
    bind_server(&mut reg, "inproc://svc").unwrap();
    assert!(unbind_server(&mut reg, "inproc://svc"));
    assert!(!unbind_server(&mut reg, "inproc://svc"));
    assert!(bind_server(&mut reg, "inproc://svc").is_ok());
}

#[test]
fn boundary_types_hold_their_fields() {
    let user = User { id: "u1".to_string(), name: "Someone".to_string() };
    assert_eq!(user.id, "u1");
    let claims = Claims {
        sub: "u1".to_string(),
        iat: 10,
        exp: 20,
        iss: Some("stack".to_string()),
        aud: None,
    };
    assert_eq!(claims.exp, 20);
    let err = ApiError { message: "missing authorization".to_string() };
    assert_eq!(err.message, "missing authorization");
    let sub = PushSubscription {
        endpoint: "https://push.example/ep".to_string(),
        expiration_time: None,
        keys: PushKeys { p256dh: "pk".to_string(), auth: "ak".to_string() },
    };
    assert_eq!(sub.keys.p256dh, "pk");
    let msg = PushMessage {
        title: Some("hi".to_string()),
        body: None,
        url: None,
        icon: None,
        badge: None,
    };
    assert_eq!(msg.title.as_deref(), Some("hi"));
}
