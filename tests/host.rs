use terminal_chat::host::{Delivery, Host, HostEvent};
use terminal_chat::messages::{chat_line, greeting, join_notice, leave_notice, roster};
use terminal_chat::registry::{Participant, Registry};
use terminal_chat::session::{IdSource, Session};

fn texts_to(ds: &[Delivery], id: u32) -> Vec<String> {
    ds.iter().filter(|d| d.to == id).map(|d| d.text.clone()).collect()
}

fn joined(id: u32, name: &str) -> HostEvent {
    HostEvent::Joined { id, name: name.to_string() }
}

const LONELY: &str =
    "Oh no! It looks like you're the only one here... Don't worry, i'm sure more people will join soon!";

#[test]
fn headcount_greeting_scenario() {
    let mut host = Host::new();
    let a = host.handle(joined(0, "alice"));
    assert_eq!(texts_to(&a, 0), vec![LONELY.to_string()]);
    assert!(!texts_to(&a, 0)[0].starts_with("Joined server with"));
    let b = host.handle(joined(1, "bob"));
    assert_eq!(texts_to(&b, 0), vec!["bob has joined the server!".to_string()]);
    let to_bob = texts_to(&b, 1);
    assert_eq!(to_bob.len(), 1);
    assert!(to_bob[0].contains('2'));
    assert_eq!(to_bob[0], "Joined server with 2 people!");
}

#[test]
fn departure_scenario() {
    let mut host = Host::new();
    host.handle(joined(0, "alice"));
    host.handle(joined(1, "bob"));
    let out = host.handle(HostEvent::Exited { id: 1, name: "bob".to_string() });
    assert_eq!(out.len(), 1);
    assert_eq!(texts_to(&out, 0), vec!["bob has left the server :(".to_string()]);
    assert_eq!(host.count(), 1);
}

#[test]
fn joins_are_announced_in_order() {
    let names = ["ann", "ben", "cat", "dan"];
    let mut host = Host::new();
    let mut all = Vec::new();
    for (i, n) in names.iter().enumerate() {
        all.extend(host.handle(joined(i as u32, n)));
    }
    for i in 0..names.len() {
        let mut want = vec![if i == 0 { LONELY.to_string() } else { format!("Joined server with {} people!", i + 1) }];
        for later in &names[i + 1..] {
            want.push(format!("{later} has joined the server!"));
        }
        assert_eq!(texts_to(&all, i as u32), want);
    }
}

#[test]
fn chat_goes_to_everyone_but_the_sender() {
    let mut host = Host::new();
    host.handle(joined(0, "alice"));
    host.handle(joined(1, "bob"));
    host.handle(joined(2, "carol"));
    let out = host.handle(HostEvent::SentMessage { id: 1, name: "bob".to_string(), text: "hi all".to_string() });
    let tos: Vec<u32> = out.iter().map(|d| d.to).collect();
    assert_eq!(tos, vec![0, 2]);
    assert!(out.iter().all(|d| d.text == "bob: hi all"));
}

#[test]
fn connected_gets_roster_of_others() {
    let mut host = Host::new();
    host.handle(joined(0, "alice"));
    host.handle(joined(1, "bob"));
    let out = host.handle(HostEvent::Connected { id: 2 });
    assert_eq!(out.len(), 1);
    assert_eq!(out[0].to, 2);
    assert_eq!(out[0].text, "alice bob");
    let first = Host::new().handle(HostEvent::Connected { id: 0 });
    assert_eq!(first[0].text, "");
}

#[test]
fn duplicate_join_is_ignored() {
    let mut host = Host::new();
    host.handle(joined(0, "alice"));
    assert!(host.handle(joined(0, "again")).is_empty());
    assert_eq!(host.count(), 1);
}

#[test]
fn exit_of_unknown_id_still_announces() {
    let mut host = Host::new();
    host.handle(joined(0, "alice"));
    let out = host.handle(HostEvent::Exited { id: 7, name: "ghost".to_string() });
    assert_eq!(texts_to(&out, 0), vec!["ghost has left the server :(".to_string()]);
    assert_eq!(host.count(), 1);
}

#[test]
fn registry_excludes_exactly_one() {
    let mut r = Registry::new();
    for (id, n) in [(3u32, "a"), (5, "b"), (9, "c")] {
        r.add(Participant { id, name: n.to_string() });
    }
    assert_eq!(r.ids_except(5), vec![3, 9]);
    assert_eq!(r.ids_except(42), vec![3, 5, 9]);
    assert_eq!(r.names_except(3), vec!["b".to_string(), "c".to_string()]);
    assert_eq!(r.count(), 3);
    assert!(r.contains(9));
    r.remove(5);
    assert_eq!(r.ids_except(0), vec![3, 9]);
    r.remove(5);
    assert_eq!(r.count(), 2);
    assert!(!r.contains(5));
}

#[test]
fn session_handshake_then_chat() {
    let mut s = Session::new(4);
    assert_eq!(s.id(), 4);
    assert!(s.on_closed().is_none());
    match s.on_frame("zoe".to_string()) {
        HostEvent::Joined { id, name } => {
            assert_eq!(id, 4);
            assert_eq!(name, "zoe");
        }
        _ => panic!("first frame must be the name"),
    }
    match s.on_frame("hello".to_string()) {
        HostEvent::SentMessage { id, name, text } => {
            assert_eq!((id, name.as_str(), text.as_str()), (4, "zoe", "hello"));
        }
        _ => panic!("later frames are chat"),
    }
    match s.on_closed() {
        Some(HostEvent::Exited { id, name }) => assert_eq!((id, name.as_str()), (4, "zoe")),
        _ => panic!("closing after the handshake reports the exit"),
    }
}

#[test]
fn ids_start_at_zero_and_increase() {
    let mut ids = IdSource::new();
    assert_eq!(ids.next_id(), Some(0));
    assert_eq!(ids.next_id(), Some(1));
    assert_eq!(ids.next_id(), Some(2));
}

#[test]
fn message_texts() {
    assert_eq!(join_notice("ann"), "ann has joined the server!");
    assert_eq!(leave_notice("ann"), "ann has left the server :(");
    assert_eq!(chat_line("ann", "yo"), "ann: yo");
    assert_eq!(greeting(0), LONELY);
    assert_eq!(greeting(1), LONELY);
    assert_eq!(greeting(12), "Joined server with 12 people!");
    assert_eq!(roster(&vec![]), "");
    assert_eq!(roster(&vec!["x".to_string()]), "x");
    assert_eq!(roster(&vec!["x".to_string(), "y z".to_string()]), "x y z");
}
