use ithos::block::{Block, Body, Id};
use ithos::object::{
    CipherSuite, CredentialEntry, DigestAlgorithm, DomainEntry, EncryptionAlg, Object, OrgUnitEntry,
    RootEntry, SignatureAlgorithm, System,
};
use ithos::op::{Op, Type};
use ithos::path::PathBuf;
use ring::signature::Ed25519KeyPair;

fn sample_body() -> Body {
    let mut user = System::new();
    user.set_username(String::from("manager"));
    let mut p = PathBuf::new();
    let mut ops = vec![Op::new(
        Type::Add,
        p.clone(),
        Object::Root(RootEntry { digest_alg: DigestAlgorithm::Sha256 }),
    )];
    p.push("global");
    ops.push(Op::new(
        Type::Add,
        p.clone(),
        Object::Domain(DomainEntry { description: Some(String::from("héllo wörld")) }),
    ));
    p.push("users");
    ops.push(Op::new(Type::Add, p.clone(), Object::OrgUnit(OrgUnitEntry { description: None })));
    p.push("manager");
    ops.push(Op::new(Type::Add, p.clone(), Object::System(user)));
    p.push("signing");
    ops.push(Op::new(
        Type::Add,
        p,
        Object::Credential(CredentialEntry {
            signature_alg: SignatureAlgorithm::Ed25519,
            encryption_alg: EncryptionAlg::Aes256Gcm,
            sealed_keypair: vec![1, 2, 3],
            salt: b"NaCl".to_vec(),
            public_key: vec![9; 32],
            created_at: 1_000,
            expires_at: u64::MAX,
            description: Some(String::from("Root signing key")),
        }),
    ));
    Body {
        parent_id: Id::from_bytes(&[3u8; 32]).unwrap(),
        timestamp: 1_500_000_000_000_000_000,
        ops,
        comment: String::from("a comment"),
    }
}

#[test]
fn body_round_trip() {
    let body = sample_body();
    let decoded = Body::decode(&body.encode()).unwrap();
    assert_eq!(decoded, body);
    assert_eq!(decoded.objecthash(), body.objecthash());
}

#[test]
fn block_round_trip() {
    let kp = Ed25519KeyPair::from_seed_unchecked(&[5u8; 32]).unwrap();
    let block = Block::new(sample_body(), &kp);
    let decoded = Block::decode(&block.encode()).unwrap();
    assert_eq!(decoded, block);
    assert_eq!(decoded.id(), block.id());
    assert!(decoded.verify_witness());
}

#[test]
fn genesis_round_trip() {
    let kp = Ed25519KeyPair::from_seed_unchecked(&[5u8; 32]).unwrap();
    let block = Block::create_initial_at(
        CipherSuite::Ed25519Aes256GcmSha256,
        "manager",
        &kp,
        b"placeholder",
        b"NaCl",
        "The tree of a thousand users begins with a single block",
        42,
    );
    assert_eq!(Block::decode(&block.encode()).unwrap(), block);
}

#[test]
fn malformed_bytes_are_refused() {
    let body = sample_body();
    let bytes = body.encode();
    assert!(Body::decode(&bytes[..bytes.len() - 1]).is_none());
    assert!(Body::decode(&[]).is_none());
    let mut extra = bytes.clone();
    extra.push(0);
    assert!(Body::decode(&extra).is_none());
    assert!(Block::decode(&bytes).is_none());
}
