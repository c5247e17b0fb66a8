use line_kv::{new_shared_store, Command, Connection, Step, Store, KV};

fn s(t: &str) -> String {
    t.to_string()
}

#[test]
fn get_of_unwritten_key_is_empty() {
    let mut store = Store::new();
    assert_eq!(store.get(&s("k")), "");
    assert_eq!(store.apply(Command::Get(s("k"))), (s(""), true));
    assert_eq!(store.apply(Command::Get(s("k"))), (s(""), true));
    assert_eq!(store.len(), 0);
}

#[test]
fn set_returns_previous_value() {
    let mut store = Store::new();
    assert_eq!(store.set(s("k"), s("1")), "");
    assert_eq!(store.get(&s("k")), "1");
    assert_eq!(store.apply(Command::Put(s("k"), s("2"))), (s("1"), true));
    assert_eq!(store.get(&s("k")), "2");
    assert_eq!(store.len(), 1);
}

#[test]
fn quit_leaves_store_alone() {
    let mut store = Store::new();
    store.set(s("a"), s("x"));
    assert_eq!(store.apply(Command::Quit), (s(""), false));
    assert_eq!(store.get(&s("a")), "x");
}

#[test]
fn second_write_is_seen_by_other_connection() {
    let shared = new_shared_store();
    let first = KV::new(shared.clone());
    let second = KV::new(shared.clone());
    assert_eq!(first.call(Command::Put(s("k"), s("v1"))), (s(""), true));
    assert_eq!(first.call(Command::Put(s("k"), s("v2"))), (s("v1"), true));
    assert_eq!(second.call(Command::Get(s("k"))), (s("v2"), true));
}

#[test]
fn interleaved_writes_keep_one_submitted_value() {
    let shared = new_shared_store();
    let handlers: Vec<KV> = (0..5).map(|_| KV::new(shared.clone())).collect();
    let submitted: Vec<String> = (0..5).map(|i| format!("v{}", i)).collect();
    for round in 0..3 {
        for (i, kv) in handlers.iter().enumerate() {
            let prev = kv.call(Command::Put(s("k"), submitted[(i + round) % 5].clone())).0;
            assert!(prev.is_empty() || submitted.contains(&prev));
        }
    }
    let last = handlers[0].call(Command::Get(s("k"))).0;
    assert!(submitted.contains(&last));
    assert_eq!(last, submitted[(4 + 2) % 5]);
}

#[test]
fn connections_on_distinct_keys_do_not_interfere() {
    let shared = new_shared_store();
    let a = KV::new(shared.clone());
    let b = KV::new(shared.clone());
    a.call(Command::Put(s("ka"), s("1")));
    b.call(Command::Put(s("kb"), s("2")));
    a.call(Command::Put(s("ka"), s("3")));
    assert_eq!(b.call(Command::Get(s("kb"))), (s("2"), true));
    assert_eq!(a.call(Command::Get(s("ka"))), (s("3"), true));
    assert_eq!(b.call(Command::Put(s("kb"), s("4"))), (s("2"), true));
    assert_eq!(a.call(Command::Get(s("ka"))), (s("3"), true));
}

#[test]
fn quit_writes_nothing_and_closes() {
    let shared = new_shared_store();
    let kv = KV::new(shared.clone());
    let mut conn = Connection::new();
    let mut out = Vec::new();
    conn.receive(&b"quit\nset a b\n".to_vec());
    assert!(matches!(conn.step(&kv, &mut out), Step::Closed));
    assert!(out.is_empty());
    assert!(!conn.open());
    assert!(matches!(conn.step(&kv, &mut out), Step::Closed));
    conn.receive(&b"set c d\n".to_vec());
    assert!(matches!(conn.step(&kv, &mut out), Step::Closed));
    assert!(out.is_empty());
    let other = KV::new(shared);
    assert_eq!(other.call(Command::Get(s("a"))), (s(""), true));
    assert_eq!(other.call(Command::Get(s("c"))), (s(""), true));
}

#[test]
fn connection_answers_buffered_frames() {
    let kv = KV::new(new_shared_store());
    let mut conn = Connection::new();
    let mut out = Vec::new();
    conn.receive(&b"set a 1\nset a 2\nge".to_vec());
    assert!(matches!(conn.step(&kv, &mut out), Step::Responded));
    assert!(out.is_empty());
    assert!(matches!(conn.step(&kv, &mut out), Step::Responded));
    assert_eq!(out, b"1\n".to_vec());
    assert!(matches!(conn.step(&kv, &mut out), Step::NeedMore));
    conn.receive(&b"t a\n".to_vec());
    assert!(matches!(conn.step(&kv, &mut out), Step::Responded));
    assert_eq!(out, b"1\n2\n".to_vec());
    assert!(conn.open());
}

#[test]
fn decode_error_closes_connection() {
    let kv = KV::new(new_shared_store());
    let mut conn = Connection::new();
    let mut out = Vec::new();
    conn.receive(&b"bogus\nset a 1\n".to_vec());
    assert!(matches!(conn.step(&kv, &mut out), Step::Closed));
    assert!(!conn.open());
    assert!(out.is_empty());
    assert_eq!(kv.call(Command::Get(s("a"))), (s(""), true));
}

#[test]
fn closed_connection_after_end_of_input() {
    let kv = KV::new(new_shared_store());
    let mut conn = Connection::new();
    let mut out = Vec::new();
    conn.receive(&b"set a 1\n".to_vec());
    conn.close();
    assert!(matches!(conn.step(&kv, &mut out), Step::Closed));
    assert_eq!(kv.call(Command::Get(s("a"))), (s(""), true));
}
