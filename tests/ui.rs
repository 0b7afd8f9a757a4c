use tiny::ui::{MsgSource, MsgTarget};

#[test]
fn sources_and_targets() {
    let s = MsgSource::Chan { serv_name: "a".to_owned(), chan_name: "#x".to_owned() };
    assert_eq!(s.serv_name(), "a");
    assert_eq!(s.visible_name(), "#x");
    assert!(matches!(s.to_target(), MsgTarget::Chan { serv_name: "a", chan_name: "#x" }));
    let u = MsgSource::User { serv_name: "a".to_owned(), nick: "bob".to_owned() };
    assert_eq!(u.visible_name(), "bob");
    assert!(matches!(u.to_target(), MsgTarget::User { serv_name: "a", nick: "bob" }));
    let v = MsgSource::Serv { serv_name: "a".to_owned() };
    assert_eq!(v.visible_name(), "a");
    assert!(matches!(v.to_target(), MsgTarget::Server { serv_name: "a" }));
}
