use txn_verify::{check_update, hash_kv, verify_secure_update, Proof, VerifiableDB, Verdict};

fn pairs(items: &[(&str, &str)]) -> Vec<(String, String)> {
    items.iter().map(|(k, v)| (k.to_string(), v.to_string())).collect()
}

fn seeded(items: &[(&str, &str)]) -> VerifiableDB {
    let mut store = VerifiableDB::new(true);
    let mut t0 = store.begin();
    for (k, v) in items {
        t0.put(k, v);
    }
    t0.commit(&mut store);
    store
}

fn alice_update() -> Proof {
    let mut store = seeded(&[("alice", "100"), ("bob", "50")]);
    let mut txn = store.begin();
    assert_eq!(txn.get(&store, "alice").as_deref(), Some("100"));
    txn.put("alice", "200");
    txn.commit(&mut store).unwrap()
}

#[test]
fn test_secure_update_transition() {
    let mut store = VerifiableDB::new(true);

    let mut t0 = store.begin();
    t0.put("alice", "100");
    t0.put("bob", "50");
    t0.commit(&mut store);

    let mut txn = store.begin();

    let old_val = txn.get(&store, "alice").expect("Alice should exist");
    assert_eq!(old_val, "100");

    txn.put("alice", "200");
    let proof = txn.commit(&mut store).unwrap();

    let old_state = pairs(&[("alice", "100")]);
    let new_state = pairs(&[("alice", "200")]);

    let is_valid = verify_secure_update(&proof, &old_state, &new_state);

    assert!(is_valid, "The derived root should match the server's new root");
}

#[test]
fn test_blind_write_is_covered() {
    let mut store = VerifiableDB::new(true);

    let mut t0 = store.begin();
    t0.put("x", "10");
    t0.put("y", "20");
    t0.commit(&mut store);

    let mut txn = store.begin();
    txn.put("x", "99");
    let proof = txn.commit(&mut store).unwrap();

    let old_state = pairs(&[("x", "10")]);
    let new_state = pairs(&[("x", "99")]);

    let is_valid = verify_secure_update(&proof, &old_state, &new_state);
    assert!(is_valid);
}

#[test]
fn tampered_new_value_is_rejected() {
    let proof = alice_update();
    assert!(!verify_secure_update(&proof, &pairs(&[("alice", "100")]), &pairs(&[("alice", "201")])));
}

#[test]
fn stale_old_value_is_rejected() {
    let proof = alice_update();
    assert!(!verify_secure_update(&proof, &pairs(&[("alice", "99")]), &pairs(&[("alice", "200")])));
}

#[test]
fn claim_naming_a_key_twice_is_rejected() {
    let proof = alice_update();
    let old_state = pairs(&[("alice", "100"), ("alice", "100")]);
    assert!(!verify_secure_update(&proof, &old_state, &pairs(&[("alice", "200")])));
}

#[test]
fn affected_positions_follow_key_order() {
    let mut store = seeded(&[("c", "3"), ("a", "1"), ("b", "2")]);
    let mut txn = store.begin();
    assert_eq!(txn.get(&store, "c").as_deref(), Some("3"));
    txn.put("a", "10");
    let proof = txn.commit(&mut store).unwrap();
    assert_eq!(proof.affected_indices, vec![0, 2]);
    assert_eq!(proof.total_leaves_old, 3);
    let old_state = pairs(&[("c", "3"), ("a", "1")]);
    let new_state = pairs(&[("a", "10")]);
    assert!(verify_secure_update(&proof, &old_state, &new_state));
}

#[test]
fn blind_write_position_is_recorded() {
    let mut store = seeded(&[("x", "10"), ("y", "20")]);
    let mut txn = store.begin();
    txn.put("y", "21");
    let proof = txn.commit(&mut store).unwrap();
    assert_eq!(proof.affected_indices, vec![1]);
}

#[test]
fn empty_commit_keeps_the_root() {
    let mut store = seeded(&[("x", "10"), ("y", "20")]);
    let mut txn = store.begin();
    assert_eq!(txn.get(&store, "y").as_deref(), Some("20"));
    let proof = txn.commit(&mut store).unwrap();
    assert_eq!(proof.old_root, proof.new_root);
    assert!(verify_secure_update(&proof, &pairs(&[("y", "20")]), &pairs(&[])));
}

#[test]
fn reads_see_own_writes_and_absent_keys() {
    let mut store = seeded(&[("k", "1")]);
    let mut txn = store.begin();
    assert_eq!(txn.get(&store, "missing"), None);
    txn.put("k", "2");
    txn.put("k", "3");
    assert_eq!(txn.get(&store, "k").as_deref(), Some("3"));
    txn.commit(&mut store);
    let mut later = store.begin();
    assert_eq!(later.get(&store, "k").as_deref(), Some("3"));
    assert_eq!(store.get_db_size(), 1);
}

#[test]
fn uncommitted_writes_are_not_applied() {
    let store = seeded(&[("k", "1")]);
    let root = store.root();
    let mut txn = store.begin();
    txn.put("k", "2");
    drop(txn);
    let mut again = store.begin();
    assert_eq!(again.get(&store, "k").as_deref(), Some("1"));
    assert_eq!(store.root(), root);
}

#[test]
fn commit_without_verification_gives_no_proof() {
    let mut store = VerifiableDB::new(false);
    let mut txn = store.begin();
    txn.put("a", "1");
    assert!(txn.commit(&mut store).is_none());
    let mut check = store.begin();
    assert_eq!(check.get(&store, "a").as_deref(), Some("1"));
}

#[test]
fn empty_store_has_zero_root() {
    let store = VerifiableDB::new(true);
    assert_eq!(store.root(), [0u8; 32]);
    assert_eq!(store.begin().start_root(), [0u8; 32]);
}

#[test]
fn leaf_hash_is_sha256_of_key_then_value() {
    let expected: [u8; 32] = [
        30, 172, 198, 98, 103, 225, 106, 113, 92, 204, 86, 220, 108, 202, 181, 175, 91, 195, 119,
        136, 191, 32, 113, 0, 27, 103, 19, 72, 138, 100, 65, 200,
    ];
    assert_eq!(hash_kv("alice", "100"), expected);
    assert_eq!(hash_kv("alic", "e100"), expected);
}

#[test]
fn root_of_two_entries_combines_their_leaves() {
    let store = seeded(&[("bob", "50"), ("alice", "100")]);
    let expected: [u8; 32] = [
        224, 154, 67, 38, 115, 25, 157, 65, 139, 99, 147, 68, 171, 89, 111, 163, 55, 49, 187,
        123, 198, 170, 243, 47, 121, 9, 127, 70, 175, 57, 83, 57,
    ];
    assert_eq!(store.root(), expected);
}

#[test]
fn single_entry_root_is_its_leaf() {
    let store = seeded(&[("alice", "100")]);
    assert_eq!(store.root(), hash_kv("alice", "100"));
}

#[test]
fn verdict_names_the_failing_side() {
    let proof = alice_update();
    let old_ok = pairs(&[("alice", "100")]);
    let new_ok = pairs(&[("alice", "200")]);
    assert_eq!(check_update(&proof, &old_ok, &new_ok), Verdict::Accepted);
    assert_eq!(
        check_update(&proof, &pairs(&[("alice", "99")]), &new_ok),
        Verdict::PreStateInvalid
    );
    assert_eq!(
        check_update(&proof, &old_ok, &pairs(&[("alice", "201")])),
        Verdict::PostStateMismatch
    );
    assert_eq!(
        check_update(&proof, &old_ok, &pairs(&[("alice", "1"), ("alice", "2")])),
        Verdict::MalformedClaim
    );
}

#[test]
fn inserting_a_new_key_leaves_the_transition_unprovable() {
    let mut store = seeded(&[("x", "10")]);
    let mut txn = store.begin();
    txn.put("x", "11");
    txn.put("z", "1");
    let proof = txn.commit(&mut store).unwrap();
    assert_eq!(proof.affected_indices, vec![0]);
    assert_eq!(proof.total_leaves_old, 1);
    let old_state = pairs(&[("x", "10")]);
    let new_state = pairs(&[("x", "11"), ("z", "1")]);
    assert!(!verify_secure_update(&proof, &old_state, &new_state));
}
