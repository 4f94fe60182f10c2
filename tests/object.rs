use ithos::encoding::{write_len_field, write_varint, write_varint_field};
use ithos::object::{CipherSuite, DigestAlgorithm, DomainEntry, Object, RootEntry, System, TypeId};

#[test]
fn system_username_accessors() {
    let mut s = System::new();
    assert!(!s.has_username());
    assert_eq!(s.get_username(), "");
    s.set_username(String::from("manager"));
    assert!(s.has_username());
    assert_eq!(s.get_username(), "manager");
    s.mut_username().push_str("2");
    assert_eq!(s.get_username(), "manager2");
    assert_eq!(s.take_username(), "manager2");
    assert!(!s.has_username());
    assert_eq!(s.take_username(), "");
    s.mut_username().push_str("x");
    assert_eq!(s.get_username(), "x");
    s.clear_username();
    assert!(!s.has_username());
}

#[test]
fn varint_vectors() {
    let mut out = Vec::new();
    write_varint(&mut out, 1);
    write_varint(&mut out, 300);
    write_varint(&mut out, 127);
    write_varint(&mut out, 128);
    assert_eq!(out, vec![0x01, 0xac, 0x02, 0x7f, 0x80, 0x01]);
    let mut big = Vec::new();
    write_varint(&mut big, u64::MAX);
    assert_eq!(big, vec![0xff, 0xff, 0xff, 0xff, 0xff, 0xff, 0xff, 0xff, 0xff, 0x01]);
}

#[test]
fn field_vectors() {
    let mut out = Vec::new();
    write_varint_field(&mut out, 2, 150);
    write_len_field(&mut out, 4, b"hi");
    assert_eq!(out, vec![0x10, 0x96, 0x01, 0x22, 0x02, b'h', b'i']);
}

#[test]
fn object_encodings_and_type_ids() {
    let root = Object::Root(RootEntry { digest_alg: CipherSuite::Ed25519Aes256GcmSha256.digest_alg() });
    assert_eq!(root.type_id(), TypeId::Root);
    assert_eq!(root.encode(), vec![0x0a, 0x02, 0x08, 0x01]);
    let domain = Object::Domain(DomainEntry { description: Some(String::from("d")) });
    assert_eq!(domain.type_id(), TypeId::Domain);
    assert_eq!(domain.encode(), vec![0x12, 0x03, 0x0a, 0x01, b'd']);
    let bare = Object::Domain(DomainEntry { description: None });
    assert_eq!(bare.encode(), vec![0x12, 0x00]);
    let mut user = System::new();
    user.set_username(String::from("u"));
    let system = Object::System(user);
    assert_eq!(system.type_id(), TypeId::System);
    assert_eq!(system.encode(), vec![0x22, 0x03, 0x0a, 0x01, b'u']);
    assert_ne!(domain.objecthash(), bare.objecthash());
    assert_eq!(DigestAlgorithm::Sha256, CipherSuite::Ed25519Aes256GcmSha256.digest_alg());
}
