use wormhole_handshake::error::ErrorKind;
use wormhole_handshake::{AppConfig, WormholeError, WormholeWelcome};

#[test]
fn config_getters_and_setters() {
    let mut c = AppConfig::new("lothar.com/wormhole/text-or-file-xfer".to_string(), "ws://relay".to_string());
    assert_eq!(c.id(), "lothar.com/wormhole/text-or-file-xfer");
    assert_eq!(c.rendezvous_url(), "ws://relay");
    c.set_id("other".to_string());
    c.set_rendezvous_url("ws://elsewhere".to_string());
    assert_eq!(c.id(), "other");
    assert_eq!(c.rendezvous_url(), "ws://elsewhere");
}

#[test]
fn welcome_defaults_to_empty_text() {
    let w = WormholeWelcome::new(None, "4-purple-sausages".to_string());
    assert_eq!(w.welcome(), "");
    assert_eq!(w.code(), "4-purple-sausages");
    let w = WormholeWelcome::new(Some("hi".to_string()), "1-a".to_string());
    assert_eq!(w.welcome(), "hi");
}

#[test]
fn error_keeps_kind_and_message() {
    let e = WormholeError::new(ErrorKind::Authentication, "bad tag".to_string());
    assert_eq!(e.kind(), ErrorKind::Authentication);
    assert_eq!(e.message(), "bad tag");
}
