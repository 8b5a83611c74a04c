use astraea::encrypted::{EncryptedLabel, EncryptedNode, EncryptedValue};
use astraea::engine::EncryptedQueryEngine;
use astraea::keys::{KeyPair, PublicKey, SecretKey};
use astraea::types::NodeId;

/// Encrypts a node given by id, labels and JSON properties.
fn encrypt_node(id: u64, labels: &[&str], properties: serde_json::Value, key: &SecretKey) -> EncryptedNode {
    let labels: Vec<String> = labels.iter().map(|s| s.to_string()).collect();
    let json = serde_json::to_string(&properties).unwrap();
    EncryptedNode::from_parts(NodeId(id), &labels, &json, key)
}

/// Decrypts a node to its labels and parsed JSON properties.
fn decrypt_node(node: &EncryptedNode, key: &SecretKey) -> (Vec<String>, serde_json::Value) {
    let (labels, json) = node.to_parts(key);
    let properties = serde_json::from_str(&json).unwrap_or(serde_json::Value::Null);
    (labels, properties)
}

/// Parses JSON text into a value.
fn json(text: &str) -> serde_json::Value {
    serde_json::from_str(text).unwrap()
}

fn make_node(id: u64, labels: &[&str], name: &str, key: &SecretKey) -> EncryptedNode {
    let mut m = serde_json::Map::new();
    m.insert("name".to_string(), serde_json::Value::String(name.to_string()));
    encrypt_node(id, labels, serde_json::Value::Object(m), key)
}

// ---- keys ----

#[test]
fn test_generate_key_pair() {
    let kp = KeyPair::generate();
    assert_eq!(kp.secret_key.as_bytes().len(), 32);
    assert_eq!(kp.public_key.as_bytes().len(), 32);
    assert!(kp.secret_key.as_bytes().iter().any(|&b| b != 0));
    assert!(kp.public_key.as_bytes().iter().any(|&b| b != 0));
}

#[test]
fn test_generate_produces_different_keys() {
    let kp1 = KeyPair::generate();
    let kp2 = KeyPair::generate();
    assert_ne!(kp1.secret_key.as_bytes(), kp2.secret_key.as_bytes());
}

#[test]
fn test_encrypt_decrypt_roundtrip() {
    let kp = KeyPair::generate();
    let plaintext = b"Hello, AstraeaDB!";
    let ciphertext = kp.secret_key.encrypt_bytes(plaintext);
    assert_ne!(&ciphertext, plaintext);
    let decrypted = kp.secret_key.decrypt_bytes(&ciphertext);
    assert_eq!(decrypted, plaintext);
}

#[test]
fn test_encrypt_decrypt_empty() {
    let kp = KeyPair::generate();
    let plaintext = b"";
    let ciphertext = kp.secret_key.encrypt_bytes(plaintext);
    assert!(ciphertext.is_empty());
    let decrypted = kp.secret_key.decrypt_bytes(&ciphertext);
    assert_eq!(decrypted, plaintext);
}

#[test]
fn test_encrypt_decrypt_long_data() {
    let kp = KeyPair::generate();
    let plaintext: Vec<u8> = (0..256).map(|i| (i % 256) as u8).collect();
    let ciphertext = kp.secret_key.encrypt_bytes(&plaintext);
    assert_ne!(ciphertext, plaintext);
    let decrypted = kp.secret_key.decrypt_bytes(&ciphertext);
    assert_eq!(decrypted, plaintext);
}

#[test]
fn test_deterministic_tag_consistency() {
    let kp = KeyPair::generate();
    let tag1 = kp.secret_key.deterministic_tag(b"Person");
    let tag2 = kp.secret_key.deterministic_tag(b"Person");
    assert_eq!(tag1, tag2);
}

#[test]
fn test_deterministic_tag_differs_for_different_input() {
    let kp = KeyPair::generate();
    let tag1 = kp.secret_key.deterministic_tag(b"Person");
    let tag2 = kp.secret_key.deterministic_tag(b"Company");
    assert_ne!(tag1, tag2);
}

#[test]
fn test_deterministic_tag_differs_for_different_keys() {
    let kp1 = KeyPair::generate();
    let kp2 = KeyPair::generate();
    let tag1 = kp1.secret_key.deterministic_tag(b"Person");
    let tag2 = kp2.secret_key.deterministic_tag(b"Person");
    assert_ne!(tag1, tag2);
}

#[test]
fn test_secret_key_from_bytes() {
    let bytes = vec![42u8; 32];
    let sk = SecretKey::from_bytes(bytes.clone());
    assert_eq!(sk.as_bytes(), &bytes[..]);
}

#[test]
fn test_public_key_from_bytes() {
    let bytes = vec![99u8; 32];
    let pk = PublicKey::from_bytes(bytes.clone());
    assert_eq!(pk.as_bytes(), &bytes[..]);
}

// ---- encrypted values, labels, nodes ----

#[test]
fn test_encrypted_value_roundtrip() {
    let kp = KeyPair::generate();
    let plaintext = b"test data for encryption";
    let ev = EncryptedValue::encrypt(plaintext, &kp.secret_key);
    assert!(!ev.ciphertext.is_empty());
    assert_eq!(ev.nonce.len(), 16);
    let decrypted = ev.decrypt(&kp.secret_key);
    assert_eq!(decrypted, plaintext);
}

#[test]
fn test_encrypted_value_randomized() {
    let kp = KeyPair::generate();
    let plaintext = b"same plaintext";
    let ev1 = EncryptedValue::encrypt(plaintext, &kp.secret_key);
    let ev2 = EncryptedValue::encrypt(plaintext, &kp.secret_key);
    assert_ne!(ev1.ciphertext, ev2.ciphertext);
    assert_eq!(ev1.decrypt(&kp.secret_key), ev2.decrypt(&kp.secret_key));
}

#[test]
fn test_encrypted_label_roundtrip() {
    let kp = KeyPair::generate();
    let label = "Person";
    let el = EncryptedLabel::encrypt(label, &kp.secret_key);
    let decrypted = el.decrypt(&kp.secret_key);
    assert_eq!(decrypted, label);
}

#[test]
fn test_encrypted_label_same_plaintext_matches() {
    let kp = KeyPair::generate();
    let el1 = EncryptedLabel::encrypt("Person", &kp.secret_key);
    let el2 = EncryptedLabel::encrypt("Person", &kp.secret_key);
    assert!(el1.matches(&el2));
    assert_ne!(el1.encrypted_value.ciphertext, el2.encrypted_value.ciphertext);
}

#[test]
fn test_encrypted_label_different_plaintext_no_match() {
    let kp = KeyPair::generate();
    let el1 = EncryptedLabel::encrypt("Person", &kp.secret_key);
    let el2 = EncryptedLabel::encrypt("Company", &kp.secret_key);
    assert!(!el1.matches(&el2));
}

#[test]
fn test_encrypted_label_different_keys_no_match() {
    let kp1 = KeyPair::generate();
    let kp2 = KeyPair::generate();
    let el1 = EncryptedLabel::encrypt("Person", &kp1.secret_key);
    let el2 = EncryptedLabel::encrypt("Person", &kp2.secret_key);
    assert!(!el1.matches(&el2));
}

#[test]
fn test_encrypted_node_roundtrip() {
    let kp = KeyPair::generate();
    let encrypted = encrypt_node(
        42,
        &["Person", "Employee"],
        json(r#"{"name": "Alice", "age": 30, "active": true}"#),
        &kp.secret_key,
    );
    assert_eq!(encrypted.id, NodeId(42));
    assert_eq!(encrypted.encrypted_labels.len(), 2);
    let (labels, properties) = decrypt_node(&encrypted, &kp.secret_key);
    assert_eq!(encrypted.id, NodeId(42));
    assert_eq!(labels, vec!["Person", "Employee"]);
    assert_eq!(properties["name"], "Alice");
    assert_eq!(properties["age"], 30);
    assert_eq!(properties["active"], true);
}

#[test]
fn test_encrypted_node_has_label() {
    let kp = KeyPair::generate();
    let encrypted = encrypt_node(1, &["Person", "Employee"], json("{}"), &kp.secret_key);
    let query_person = EncryptedLabel::encrypt("Person", &kp.secret_key);
    let query_company = EncryptedLabel::encrypt("Company", &kp.secret_key);
    let query_employee = EncryptedLabel::encrypt("Employee", &kp.secret_key);
    assert!(encrypted.has_encrypted_label(&query_person));
    assert!(encrypted.has_encrypted_label(&query_employee));
    assert!(!encrypted.has_encrypted_label(&query_company));
}

#[test]
fn test_encrypted_node_empty_properties() {
    let kp = KeyPair::generate();
    let encrypted = encrypt_node(99, &[], json("{}"), &kp.secret_key);
    let (labels, properties) = decrypt_node(&encrypted, &kp.secret_key);
    assert_eq!(encrypted.id, NodeId(99));
    assert!(labels.is_empty());
    assert_eq!(properties, json("{}"));
}

#[test]
fn test_encrypted_node_complex_properties() {
    let kp = KeyPair::generate();
    let encrypted = encrypt_node(
        7,
        &["Document"],
        json(
            r#"{
            "title": "Secret Report",
            "tags": ["classified", "internal"],
            "metadata": {"pages": 42, "author": "Bob"}
        }"#,
        ),
        &kp.secret_key,
    );
    let (_, properties) = decrypt_node(&encrypted, &kp.secret_key);
    assert_eq!(properties["title"], "Secret Report");
    assert_eq!(properties["tags"][0], "classified");
    assert_eq!(properties["metadata"]["pages"], 42);
    assert_eq!(properties["metadata"]["author"], "Bob");
}

// ---- engine ----

#[test]
fn test_engine_new_is_empty() {
    let engine = EncryptedQueryEngine::new();
    assert!(engine.is_empty());
    assert_eq!(engine.len(), 0);
}

#[test]
fn test_engine_insert_and_get() {
    let kp = KeyPair::generate();
    let mut engine = EncryptedQueryEngine::new();
    engine.insert(make_node(1, &["Person"], "Alice", &kp.secret_key));
    assert_eq!(engine.len(), 1);
    assert!(!engine.is_empty());
    let retrieved = engine.get(NodeId(1));
    assert!(retrieved.is_some());
    assert_eq!(retrieved.unwrap().id, NodeId(1));
}

#[test]
fn test_engine_get_nonexistent() {
    let engine = EncryptedQueryEngine::new();
    assert!(engine.get(NodeId(999)).is_none());
}

#[test]
fn test_engine_find_by_encrypted_label() {
    let kp = KeyPair::generate();
    let mut engine = EncryptedQueryEngine::new();
    engine.insert(make_node(1, &["Person", "Employee"], "Alice", &kp.secret_key));
    engine.insert(make_node(2, &["Person"], "Bob", &kp.secret_key));
    engine.insert(make_node(3, &["Company"], "ACME Corp", &kp.secret_key));
    assert_eq!(engine.len(), 3);

    let query_person = EncryptedLabel::encrypt("Person", &kp.secret_key);
    let mut person_results = engine.find_by_encrypted_label(&query_person);
    person_results.sort();
    assert_eq!(person_results, vec![NodeId(1), NodeId(2)]);

    let query_company = EncryptedLabel::encrypt("Company", &kp.secret_key);
    let company_results = engine.find_by_encrypted_label(&query_company);
    assert_eq!(company_results, vec![NodeId(3)]);

    let query_employee = EncryptedLabel::encrypt("Employee", &kp.secret_key);
    let employee_results = engine.find_by_encrypted_label(&query_employee);
    assert_eq!(employee_results, vec![NodeId(1)]);
}

#[test]
fn test_engine_find_by_label_no_match() {
    let kp = KeyPair::generate();
    let mut engine = EncryptedQueryEngine::new();
    engine.insert(make_node(1, &["Person"], "Alice", &kp.secret_key));
    let query = EncryptedLabel::encrypt("NonExistent", &kp.secret_key);
    let results = engine.find_by_encrypted_label(&query);
    assert!(results.is_empty());
}

#[test]
fn test_engine_find_different_key_no_match() {
    let kp1 = KeyPair::generate();
    let kp2 = KeyPair::generate();
    let mut engine = EncryptedQueryEngine::new();
    engine.insert(make_node(1, &["Person"], "Alice", &kp1.secret_key));
    let query = EncryptedLabel::encrypt("Person", &kp2.secret_key);
    let results = engine.find_by_encrypted_label(&query);
    assert!(results.is_empty());
}

#[test]
fn test_engine_remove() {
    let kp = KeyPair::generate();
    let mut engine = EncryptedQueryEngine::new();
    engine.insert(make_node(1, &["Person"], "Alice", &kp.secret_key));
    assert_eq!(engine.len(), 1);
    let removed = engine.remove(NodeId(1));
    assert!(removed.is_some());
    assert_eq!(removed.unwrap().id, NodeId(1));
    assert!(engine.is_empty());
    assert!(engine.remove(NodeId(1)).is_none());
}

#[test]
fn test_engine_overwrite() {
    let kp = KeyPair::generate();
    let mut engine = EncryptedQueryEngine::new();
    engine.insert(make_node(1, &["Person"], "Alice", &kp.secret_key));
    engine.insert(make_node(1, &["Company"], "ACME", &kp.secret_key));
    assert_eq!(engine.len(), 1);
    let query_company = EncryptedLabel::encrypt("Company", &kp.secret_key);
    let query_person = EncryptedLabel::encrypt("Person", &kp.secret_key);
    assert_eq!(engine.find_by_encrypted_label(&query_company), vec![NodeId(1)]);
    assert!(engine.find_by_encrypted_label(&query_person).is_empty());
}

#[test]
fn test_engine_node_ids() {
    let kp = KeyPair::generate();
    let mut engine = EncryptedQueryEngine::new();
    engine.insert(make_node(10, &["A"], "a", &kp.secret_key));
    engine.insert(make_node(20, &["B"], "b", &kp.secret_key));
    engine.insert(make_node(30, &["C"], "c", &kp.secret_key));
    let mut ids = engine.node_ids();
    ids.sort();
    assert_eq!(ids, vec![NodeId(10), NodeId(20), NodeId(30)]);
}

#[test]
fn test_engine_default() {
    let engine = EncryptedQueryEngine::default();
    assert!(engine.is_empty());
}

#[test]
fn test_full_workflow_encrypt_store_search_decrypt() {
    let client_keys = KeyPair::generate();
    let enc_alice = encrypt_node(
        1,
        &["Person", "Developer"],
        json(r#"{"name": "Alice", "clearance": "top-secret"}"#),
        &client_keys.secret_key,
    );
    let enc_bob = encrypt_node(
        2,
        &["Person", "Manager"],
        json(r#"{"name": "Bob", "clearance": "secret"}"#),
        &client_keys.secret_key,
    );
    let enc_acme = encrypt_node(3, &["Organization"], json(r#"{"name": "ACME Corp"}"#), &client_keys.secret_key);

    let mut server_engine = EncryptedQueryEngine::new();
    server_engine.insert(enc_alice);
    server_engine.insert(enc_bob);
    server_engine.insert(enc_acme);

    let query = EncryptedLabel::encrypt("Person", &client_keys.secret_key);
    let mut matching_ids = server_engine.find_by_encrypted_label(&query);
    matching_ids.sort();
    assert_eq!(matching_ids, vec![NodeId(1), NodeId(2)]);

    for id in &matching_ids {
        let enc_node = server_engine.get(*id).unwrap();
        let (labels, properties) = decrypt_node(enc_node, &client_keys.secret_key);
        assert!(labels.contains(&"Person".to_string()));
        assert!(properties["name"].is_string());
    }
}

// ---- further cases ----

#[test]
fn xor_with_known_key_is_exact() {
    let sk = SecretKey::from_bytes(vec![0x0f, 0xf0]);
    assert_eq!(sk.encrypt_bytes(&[0x00, 0x00, 0xff]), vec![0x0f, 0xf0, 0xf0]);
}

#[test]
fn deterministic_tag_known_value() {
    // key [1], plaintext [2]: slot 0 gets 2 + 1 + 0 = 3; the cascade then
    // carries 3 into every later slot.
    let sk = SecretKey::from_bytes(vec![1]);
    let tag = sk.deterministic_tag(&[2]);
    assert_eq!(tag.len(), 32);
    assert!(tag.iter().all(|&b| b == 3));
}

#[test]
fn encrypt_with_nonce_is_exact_and_roundtrips() {
    let sk = SecretKey::from_bytes(vec![0xff]);
    let ev = EncryptedValue::encrypt_with_nonce(b"\x01", &sk, vec![0x00, 0x10]);
    assert_eq!(ev.nonce, vec![0x00, 0x10]);
    assert_eq!(ev.ciphertext, vec![0xff, 0xef, 0xfe]);
    assert_eq!(ev.decrypt(&sk), vec![0x01]);
}

#[test]
fn decrypt_of_empty_plaintext_is_empty() {
    let sk = SecretKey::from_bytes(vec![7, 8]);
    let ev = EncryptedValue::encrypt_with_nonce(b"", &sk, vec![1, 2, 3]);
    assert!(ev.decrypt(&sk).is_empty());
}

#[test]
fn label_with_invalid_utf8_decrypts_to_empty() {
    let sk = SecretKey::from_bytes(vec![5]);
    let value = EncryptedValue::encrypt_with_nonce(&[0xff, 0xfe], &sk, vec![0; 16]);
    let label = EncryptedLabel { deterministic_tag: vec![], encrypted_value: value };
    assert_eq!(label.decrypt(&sk), "");
}

#[test]
fn node_properties_invalid_utf8_decrypt_to_empty_object() {
    let sk = SecretKey::from_bytes(vec![9]);
    let node = EncryptedNode {
        id: NodeId(5),
        encrypted_labels: vec![],
        encrypted_properties: EncryptedValue::encrypt_with_nonce(&[0xc3], &sk, vec![0; 16]),
    };
    let (labels, json) = node.to_parts(&sk);
    assert!(labels.is_empty());
    assert_eq!(json, "{}");
}
