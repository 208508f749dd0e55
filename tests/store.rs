use lsm_store::event::{choose_slot, Event, EventHandler, EventRes, WAL_LIMIT};
use lsm_store::protocol::{encode_response, Framer, Request};
use lsm_store::record::{decode_records, encode_record};
use lsm_store::trie::Trie;

fn b(s: &str) -> Vec<u8> {
    s.as_bytes().to_vec()
}

fn set_event(id: &str, key: &str, value: Option<&str>) -> Event {
    Event::SET { id: id.to_string(), key: b(key), value: value.map(b) }
}

fn get_event(id: &str, key: &str) -> Event {
    Event::GET { id: id.to_string(), key: b(key) }
}

#[test]
fn set_then_get_returns_value() {
    let mut t = Trie::new();
    t.set(b("foo"), Some(b("bar")));
    assert_eq!(t.get(b("foo")), Some(b("bar")));
    t.set(b("foo"), Some(b("baz")));
    assert_eq!(t.get(b("foo")), Some(b("baz")));
}

#[test]
fn get_before_set_is_none() {
    let mut t = Trie::new();
    assert_eq!(t.get(b("k")), None);
    t.set(b("kk"), Some(b("v")));
    t.set(b("a"), Some(b("v")));
    assert_eq!(t.get(b("k")), None);
    assert_eq!(t.get(b("")), None);
    assert_eq!(t.get(b("kkk")), None);
}

#[test]
fn tombstone_hides_value() {
    let mut t = Trie::new();
    t.set(b("k"), Some(b("v")));
    t.set(b("k"), None);
    assert_eq!(t.get(b("k")), None);
}

#[test]
fn empty_key_is_root_value() {
    let mut t = Trie::new();
    t.set(Vec::new(), Some(b("root")));
    assert_eq!(t.get(Vec::new()), Some(b("root")));
    assert_eq!(t.get(b("x")), None);
}

#[test]
fn empty_value_differs_from_absent() {
    let mut t = Trie::new();
    t.set(b("k"), Some(Vec::new()));
    assert_eq!(t.get(b("k")), Some(Vec::new()));
}

#[test]
fn disjoint_keys_do_not_interfere() {
    let mut t = Trie::new();
    t.set(b("a"), Some(b("1")));
    t.set(b("ab"), Some(b("2")));
    t.set(b("b"), Some(b("3")));
    t.set(b("ab"), None);
    t.set(b("abc"), Some(b("4")));
    assert_eq!(t.get(b("a")), Some(b("1")));
    assert_eq!(t.get(b("ab")), None);
    assert_eq!(t.get(b("b")), Some(b("3")));
    assert_eq!(t.get(b("abc")), Some(b("4")));
}

#[test]
fn clone_is_independent() {
    let mut t = Trie::new();
    t.set(b("k"), Some(b("v")));
    let c = t.clone();
    t.set(b("k"), Some(b("w")));
    assert_eq!(c.get(b("k")), Some(b("v")));
    assert_eq!(t.get(b("k")), Some(b("w")));
}

#[test]
fn save_writes_entries_in_key_order() {
    let mut t = Trie::new();
    t.set(b("b"), Some(b("2")));
    t.set(b("a"), Some(b("1")));
    t.set(b("ab"), Some(b("3")));
    t.set(b("c"), None);
    let bytes = t.save();
    let expected: Vec<u8> = vec![
        0, 1, b'a', 0, 1, b'1', 0, 2, b'a', b'b', 0, 1, b'3', 0, 1, b'b', 0, 1, b'2',
    ];
    assert_eq!(bytes, expected);
}

#[test]
fn snapshot_restores_store() {
    let mut t = Trie::new();
    t.set(b("x"), Some(b("1")));
    t.set(b("xy"), Some(Vec::new()));
    t.set(b("z"), Some(b("3")));
    t.set(b("z"), None);
    let snapshot = t.save();
    let mut h = EventHandler::new(Trie::new(), 0);
    h.load(&snapshot);
    let mut h2 = EventHandler::new(Trie::new(), 0);
    h2.load(&snapshot);
    h2.load(&snapshot);
    for h in [&mut h, &mut h2] {
        let r = h.handle(get_event("c", "x"));
        assert!(matches!(r.reply, EventRes::GET { value: Some(ref v), .. } if *v == b("1")));
        let r = h.handle(get_event("c", "xy"));
        assert!(matches!(r.reply, EventRes::GET { value: Some(ref v), .. } if v.is_empty()));
        let r = h.handle(get_event("c", "z"));
        assert!(matches!(r.reply, EventRes::GET { value: None, .. }));
    }
}

#[test]
fn record_encoding() {
    assert_eq!(encode_record(&b("ab"), &Some(b("c"))), vec![0, 2, b'a', b'b', 0, 1, b'c']);
    assert_eq!(encode_record(&b("ab"), &None), vec![0, 2, b'a', b'b', 0xff, 0xff]);
    let long = vec![7u8; 300];
    let enc = encode_record(&long, &None);
    assert_eq!(&enc[0..2], &[1u8, 44u8]);
    assert_eq!(enc.len(), 2 + 300 + 2);
}

#[test]
fn decode_drops_truncated_tail() {
    let mut buf = encode_record(&b("k1"), &Some(b("v1")));
    buf.extend(encode_record(&b("k2"), &None));
    let full = buf.len();
    buf.extend(encode_record(&b("k3"), &Some(b("value"))));
    buf.truncate(buf.len() - 2);
    let rs = decode_records(&buf);
    assert_eq!(rs.len(), 2);
    assert_eq!(rs[0].key, b("k1"));
    assert_eq!(rs[0].value, Some(b("v1")));
    assert_eq!(rs[1].key, b("k2"));
    assert_eq!(rs[1].value, None);
    assert_eq!(decode_records(&buf[..full]).len(), 2);
    assert_eq!(decode_records(&[0u8]).len(), 0);
    assert_eq!(decode_records(&[]).len(), 0);
}

#[test]
fn recovery_replays_inactive_slot_first() {
    let old_log = encode_record(&b("k"), &Some(b("old")));
    let old_wal = encode_record(&b("j"), &Some(b("1")));
    let new_log = encode_record(&b("k"), &Some(b("new")));
    let new_wal = encode_record(&b("j"), &None);
    // Slot 1 is active: slot 0 is replayed first.
    let logs = vec![old_log.clone(), new_log.clone()];
    let wals = vec![old_wal.clone(), new_wal.clone()];
    let mut h = EventHandler::new(Trie::new(), 1);
    h.recover(&logs, &wals);
    let r = h.handle(get_event("c", "k"));
    assert!(matches!(r.reply, EventRes::GET { value: Some(ref v), .. } if *v == b("new")));
    let r = h.handle(get_event("c", "j"));
    assert!(matches!(r.reply, EventRes::GET { value: None, .. }));
    // Recovering again onto the same store changes nothing.
    h.recover(&logs, &wals);
    let r = h.handle(get_event("c", "k"));
    assert!(matches!(r.reply, EventRes::GET { value: Some(ref v), .. } if *v == b("new")));
}

#[test]
fn slot_choice() {
    assert_eq!(choose_slot(Some(0)), (0, false));
    assert_eq!(choose_slot(Some(1)), (1, false));
    assert_eq!(choose_slot(Some(7)), (0, true));
    assert_eq!(choose_slot(None), (0, true));
    let (slot, _) = choose_slot(Some(9));
    assert_eq!(choose_slot(Some(slot)), (0, false));
}

#[test]
fn handle_set_logs_before_ack() {
    let mut h = EventHandler::new(Trie::new(), 0);
    let step = h.handle(set_event("peer", "foo", Some("bar")));
    assert_eq!(step.wal, Some(encode_record(&b("foo"), &Some(b("bar")))));
    assert!(matches!(step.reply, EventRes::SET { ref id } if id == "peer"));
    let step = h.handle(get_event("peer", "foo"));
    assert_eq!(step.wal, None);
    assert!(matches!(step.reply, EventRes::GET { ref id, value: Some(ref v) } if id == "peer" && *v == b("bar")));
}

#[test]
fn rotation_is_invisible() {
    let mut plain = EventHandler::new(Trie::new(), 0);
    let mut rotated = EventHandler::new(Trie::new(), 0);
    for h in [&mut plain, &mut rotated] {
        h.handle(set_event("c", "a", Some("1")));
        h.handle(set_event("c", "b", Some("2")));
    }
    assert!(plain.after_request(WAL_LIMIT).is_none());
    let rot = rotated.after_request(WAL_LIMIT + 1).expect("rotation");
    assert_eq!(rot.slot, 1);
    assert_eq!(rotated.slot(), 1);
    assert_eq!(rot.snapshot.get(b("a")), Some(b("1")));
    // A second rotation waits for the snapshot in flight.
    assert!(rotated.after_request(WAL_LIMIT + 1).is_none());
    rotated.snapshot_done();
    for h in [&mut plain, &mut rotated] {
        h.handle(set_event("c", "a", None));
        let r = h.handle(get_event("c", "a"));
        assert!(matches!(r.reply, EventRes::GET { value: None, .. }));
        let r = h.handle(get_event("c", "b"));
        assert!(matches!(r.reply, EventRes::GET { value: Some(ref v), .. } if *v == b("2")));
    }
    let again = rotated.after_request(WAL_LIMIT + 1).expect("rotation");
    assert_eq!(again.slot, 0);
}

#[test]
fn end_to_end_set_get_missing() {
    let mut h = EventHandler::new(Trie::new(), 0);
    let mut framer = Framer::new();
    framer.push(&[0xc2, 0, 3, b'f', b'o', b'o', 0, 3, b'b', b'a', b'r']);
    framer.push(&[0xc1, 0, 3, b'f', b'o', b'o']);
    framer.push(&[0xc1, 0, 7]);
    framer.push(b"missing");
    let mut out = Vec::new();
    while let Ok(Some(req)) = framer.next_request() {
        let event = match req {
            Request::Get { key } => Event::GET { id: "c".to_string(), key },
            Request::Put { key, value } => Event::SET { id: "c".to_string(), key, value },
        };
        let step = h.handle(event);
        out.push(encode_response(&step.reply));
    }
    assert_eq!(out.len(), 3);
    assert_eq!(out[0], vec![0x82]);
    assert_eq!(out[1], vec![0x81, 0x00, 0x03, b'b', b'a', b'r']);
    assert_eq!(out[2], vec![0x81, 0xff, 0xff]);
}

#[test]
fn end_to_end_empty_value() {
    let mut h = EventHandler::new(Trie::new(), 0);
    let mut framer = Framer::new();
    framer.push(&[0xc2, 0, 1, b'k', 0, 0, 0xc1, 0, 1, b'k']);
    let req = framer.next_request().unwrap().unwrap();
    match req {
        Request::Put { key, value } => {
            assert_eq!(key, b("k"));
            assert_eq!(value, Some(Vec::new()));
            h.handle(Event::SET { id: "c".to_string(), key, value });
        }
        Request::Get { .. } => panic!("expected a set"),
    }
    let req = framer.next_request().unwrap().unwrap();
    let key = match req {
        Request::Get { key } => key,
        Request::Put { .. } => panic!("expected a get"),
    };
    let step = h.handle(Event::GET { id: "c".to_string(), key });
    assert_eq!(encode_response(&step.reply), vec![0x81, 0x00, 0x00]);
}
