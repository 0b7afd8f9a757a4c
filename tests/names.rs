use tiny::names::MemberEv;
use tiny::names::NameList;

#[test]
fn membership_replay() {
    let mut n = NameList::new(10, 20);
    n.join("@Bob");
    n.join("alice");
    n.join("+carol");
    n.join("BOB");
    n.part("Carol");
    n.rename("alice", "alicia");
    n.rename("nobody", "x");
    assert!(n.has_nick("bob"));
    assert!(n.has_nick("ALICIA"));
    assert!(!n.has_nick("alice"));
    assert!(!n.has_nick("carol"));
    assert!(!n.has_nick("x"));
    n.set_presence("dave", "away");
    assert!(n.has_nick("dave"));
    n.clear();
    assert!(!n.has_nick("bob"));
}

#[test]
fn width_and_resize() {
    let mut n = NameList::new(10, 20);
    assert_eq!(n.width(), 10);
    n.resize(30, 5);
    assert_eq!(n.width(), 30);
}

#[test]
fn membership_from_events() {
    let evs = vec![
        MemberEv::Join("@Bob".to_owned()),
        MemberEv::Join("alice".to_owned()),
        MemberEv::Nick { old: "ALICE".to_owned(), new: "alicia".to_owned() },
        MemberEv::Join("carol".to_owned()),
        MemberEv::Quit("carol".to_owned()),
        MemberEv::Part("nobody".to_owned()),
    ];
    let n = tiny::names::NameList::from_events(&evs);
    assert!(n.has_nick("bob"));
    assert!(n.has_nick("Alicia"));
    assert!(!n.has_nick("alice"));
    assert!(!n.has_nick("carol"));
    assert_eq!(n.nicks_line(), "Bob alicia");
}
