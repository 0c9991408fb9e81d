use radiumical_core::secure_env::{derive_key, deserialize_env, serialize_env, xor_obfuscate, EnvPayload};
use std::collections::HashMap;

/// The stored map of a payload, as the environment store reads it.
fn read_map(payload: EnvPayload) -> Option<HashMap<String, String>> {
    match payload {
        EnvPayload::Framed(json) | EnvPayload::Legacy(json) => serde_json::from_slice(&json).ok(),
        EnvPayload::Invalid => None,
    }
}

#[test]
fn test_xor_roundtrip() {
    let key = derive_key("test-machine-id");
    let data = b"sk-1234567890abcdef";
    let obfuscated = xor_obfuscate(data, &key);
    assert_ne!(obfuscated, data);
    let restored = xor_obfuscate(&obfuscated, &key);
    assert_eq!(restored, data);
}

#[test]
fn test_serialize_deserialize_roundtrip() {
    let key = derive_key("test-id");
    let mut map = HashMap::new();
    map.insert("OPENAI_API_KEY".to_string(), "sk-abc123".to_string());
    map.insert("DEEPSEEK_API_KEY".to_string(), "sk-def456".to_string());
    let json = serde_json::to_vec(&map).unwrap();
    let serialized = serialize_env(&json, &key);
    let deserialized = read_map(deserialize_env(&serialized, &key)).unwrap();
    assert_eq!(deserialized.get("OPENAI_API_KEY").unwrap(), "sk-abc123");
    assert_eq!(deserialized.get("DEEPSEEK_API_KEY").unwrap(), "sk-def456");
}

#[test]
fn test_different_keys_fail() {
    let key1 = derive_key("machine-a");
    let key2 = derive_key("machine-b");
    let mut map = HashMap::new();
    map.insert("SECRET".to_string(), "value".to_string());
    let json = serde_json::to_vec(&map).unwrap();
    let serialized = serialize_env(&json, &key1);
    let result = read_map(deserialize_env(&serialized, &key2));
    // Should NOT decrypt correctly with different key
    assert!(result.is_none() || result.unwrap().get("SECRET") != Some(&"value".to_string()));
}

#[test]
fn test_derive_key_is_32_bytes_and_deterministic() {
    let a = derive_key("machine");
    assert_eq!(a.len(), 32);
    assert_eq!(a, derive_key("machine"));
    // Byte i is the wrapping sum of byte j times (i + j).
    let bytes = b"ab";
    let k = derive_key("ab");
    for i in 0..32u8 {
        let mut b = 0u8;
        for (j, &c) in bytes.iter().enumerate() {
            b = b.wrapping_add(c.wrapping_mul(i.wrapping_add(j as u8)));
        }
        assert_eq!(k[i as usize], b);
    }
    assert_eq!(derive_key(""), vec![0u8; 32]);
}

#[test]
fn test_file_layout() {
    let key = derive_key("m");
    let framed = serialize_env(b"{}", &key);
    assert_eq!(&framed[..5], b"RENV\x01");
    assert_eq!(framed.len(), 7);
    assert!(matches!(deserialize_env(b"RENV", &key), EnvPayload::Invalid));
    assert!(matches!(deserialize_env(b"RENV\x02xx", &key), EnvPayload::Invalid));
    match deserialize_env(b"{\"A\":\"b\"}", &key) {
        EnvPayload::Legacy(v) => assert_eq!(v, b"{\"A\":\"b\"}"),
        other => panic!("expected legacy, got {other:?}"),
    }
    match deserialize_env(&framed, &key) {
        EnvPayload::Framed(v) => assert_eq!(v, b"{}"),
        other => panic!("expected framed, got {other:?}"),
    }
}
