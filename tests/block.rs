use ithos::block::{Block, Body, Id};
use ithos::error::Error;
use ithos::object::{CipherSuite, DigestAlgorithm, DomainEntry, Object, OrgUnitEntry, RootEntry, TypeId};
use ithos::op::{Op, Type};
use ithos::path::{Path, PathBuf};
use ithos::store::MemoryAdapter;
use ring::signature::{Ed25519KeyPair, KeyPair};

const ADMIN_USERNAME: &'static str = "manager";
const ADMIN_KEYPAIR_SEALED: &'static [u8] = b"placeholder";
const ADMIN_KEYPAIR_SALT: &'static [u8] = b"NaCl";
const COMMENT: &'static str = "The tree of a thousand users begins with a single block";
const TIMESTAMP: u64 = 1_500_000_000_000_000_000;

fn hex(b: &[u8]) -> String {
    b.iter().map(|x| format!("{:02x}", x)).collect()
}

fn keypair() -> Ed25519KeyPair {
    Ed25519KeyPair::from_seed_unchecked(&[7u8; 32]).unwrap()
}

fn path(s: &str) -> PathBuf {
    let mut p = PathBuf::new();
    for c in s.split('/').filter(|c| !c.is_empty()) {
        p.push(c);
    }
    p
}

fn add(p: &str, object: Object) -> Op {
    Op::new(Type::Add, path(p), object)
}

fn domain() -> Object {
    Object::Domain(DomainEntry { description: Some(String::from("a domain")) })
}

fn ou() -> Object {
    Object::OrgUnit(OrgUnitEntry { description: None })
}

fn root() -> Object {
    Object::Root(RootEntry { digest_alg: DigestAlgorithm::Sha256 })
}

fn body(parent_id: Id, ops: Vec<Op>, comment: &str) -> Body {
    Body { parent_id, timestamp: TIMESTAMP, ops, comment: String::from(comment) }
}

fn example_block() -> Block {
    Block::create_initial_at(
        CipherSuite::Ed25519Aes256GcmSha256,
        ADMIN_USERNAME,
        &keypair(),
        ADMIN_KEYPAIR_SEALED,
        ADMIN_KEYPAIR_SALT,
        COMMENT,
        TIMESTAMP,
    )
}

#[test]
fn test_proto_serialization() {
    let block = example_block();
    let bytes = block.encode();
    assert!(!bytes.is_empty());
    assert_eq!(bytes[0], 0x0a);
}

#[test]
fn genesis_block_layout() {
    let block = example_block();
    assert_eq!(block.parent_id(), Id::zero());
    let paths: Vec<String> =
        block.body.ops.iter().map(|op| op.path.as_path().as_str().to_string()).collect();
    assert_eq!(
        paths,
        vec![
            "/",
            "/global",
            "/global/users",
            "/global/users/manager",
            "/global/users/manager/keys",
            "/global/users/manager/keys/signing",
        ]
    );
    assert_eq!(block.body.comment, COMMENT);
    assert!(block.verify_witness());
    assert_eq!(block.id(), example_block().id());
    assert_eq!(block.id().as_bytes(), &block.objecthash()[..]);
}

#[test]
fn genesis_credential_holds_admin_key() {
    let block = example_block();
    match &block.body.ops[5].objectclass {
        Object::Credential(c) => {
            assert_eq!(c.public_key, keypair().public_key().as_ref().to_vec());
            assert_eq!(c.sealed_keypair, ADMIN_KEYPAIR_SEALED.to_vec());
            assert_eq!(c.salt, ADMIN_KEYPAIR_SALT.to_vec());
            assert_eq!(c.created_at, TIMESTAMP);
            assert_eq!(c.expires_at, TIMESTAMP + 315_532_800_000_000_000);
        }
        other => panic!("unexpected object {:?}", other),
    }
}

#[test]
fn create_initial_signs_its_own_body() {
    let block = Block::create_initial(
        CipherSuite::Ed25519Aes256GcmSha256,
        ADMIN_USERNAME,
        &keypair(),
        ADMIN_KEYPAIR_SEALED,
        ADMIN_KEYPAIR_SALT,
        COMMENT,
    );
    assert!(block.verify_witness());
    assert_eq!(block.body.ops.len(), 6);
}

#[test]
fn tampered_block_fails_verification() {
    let mut block = example_block();
    block.body.comment.push('!');
    assert!(!block.verify_witness());

    let mut block = example_block();
    block.witness.signatures[0].value[0] ^= 1;
    assert!(!block.verify_witness());

    let mut block = example_block();
    block.witness.signatures.clear();
    assert!(!block.verify_witness());
}

#[test]
fn signatures_take_part_in_block_id() {
    let block = example_block();
    let other = Block::new(block.body.clone(), &Ed25519KeyPair::from_seed_unchecked(&[9u8; 32]).unwrap());
    assert_eq!(block.body.objecthash(), other.body.objecthash());
    assert_ne!(block.id(), other.id());
}

#[test]
fn apply_genesis() {
    let mut adapter = MemoryAdapter::new();
    let block = example_block();
    let mut txn = adapter.rw_transaction();
    assert_eq!(block.apply(&adapter, &mut txn), Ok(()));
    adapter.commit(txn);

    let txn = adapter.ro_transaction();
    let entry = adapter
        .find_direntry(&txn, &Path::new("/global/users/manager/keys/signing").unwrap())
        .unwrap();
    assert_eq!(entry.type_id, TypeId::Credential);
    assert_eq!(entry.payload, block.body.ops[5].objectclass.encode());
    assert_eq!(entry.metadata.block_id, block.id());
    let public_key = keypair().public_key().as_ref().to_vec();
    assert!(entry.payload.windows(public_key.len()).any(|w| w == &public_key[..]));

    let users = adapter.find_direntry(&txn, &Path::new("/global/users").unwrap()).unwrap();
    let manager = adapter.find_direntry(&txn, &Path::new("/global/users/manager").unwrap()).unwrap();
    assert_eq!(manager.parent_id, users.id);
    assert_eq!(manager.name, "manager");
    assert_eq!(manager.type_id, TypeId::System);
    assert_eq!(
        adapter.find_direntry(&txn, &Path::new("/global/nobody").unwrap()),
        Err(Error::DirectoryNotFound)
    );
}

#[test]
fn duplicate_name_is_rejected() {
    let kp = keypair();
    let mut adapter = MemoryAdapter::new();
    let first = Block::new(
        body(Id::zero(), vec![add("/", root()), add("/x", domain()), add("/x/y", ou())], "first"),
        &kp,
    );
    let mut txn = adapter.rw_transaction();
    assert_eq!(first.apply(&adapter, &mut txn), Ok(()));
    adapter.commit(txn);

    let second = Block::new(body(first.id(), vec![add("/x/y", ou())], "second"), &kp);
    let mut txn = adapter.rw_transaction();
    assert_eq!(second.apply(&adapter, &mut txn), Err(Error::EntryAlreadyExists));
    drop(txn);

    let txn = adapter.ro_transaction();
    assert_eq!(adapter.next_free_entry_id(&txn).0, 4);
    assert!(adapter.find_direntry(&txn, &Path::new("/x/y").unwrap()).is_ok());
}

#[test]
fn intra_block_parent_resolution() {
    let kp = keypair();
    let mut adapter = MemoryAdapter::new();
    let block = Block::new(
        body(Id::zero(), vec![add("/", root()), add("/a", domain()), add("/a/b", ou())], "one"),
        &kp,
    );
    let mut txn = adapter.rw_transaction();
    assert_eq!(block.apply(&adapter, &mut txn), Ok(()));
    adapter.commit(txn);
    let txn = adapter.ro_transaction();
    let a = adapter.find_direntry(&txn, &Path::new("/a").unwrap()).unwrap();
    let b = adapter.find_direntry(&txn, &Path::new("/a/b").unwrap()).unwrap();
    assert_eq!(b.parent_id, a.id);
    assert_eq!(b.type_id, TypeId::OrgUnit);
}

#[test]
fn missing_parent_is_rejected() {
    let kp = keypair();
    let adapter = MemoryAdapter::new();
    let block = Block::new(body(Id::zero(), vec![add("/", root()), add("/a/b", ou())], "orphan"), &kp);
    let mut txn = adapter.rw_transaction();
    assert_eq!(block.apply(&adapter, &mut txn), Err(Error::DirectoryNotFound));
}

#[test]
fn same_block_cannot_be_stored_twice() {
    let kp = keypair();
    let mut adapter = MemoryAdapter::new();
    let block = Block::new(body(Id::zero(), vec![add("/", root())], "once"), &kp);
    let mut txn = adapter.rw_transaction();
    assert_eq!(block.apply(&adapter, &mut txn), Ok(()));
    adapter.commit(txn);
    let mut txn = adapter.rw_transaction();
    assert_eq!(block.apply(&adapter, &mut txn), Err(Error::StorageFailure));
}

#[test]
fn entry_ids_increase_and_skip_root() {
    let kp = keypair();
    let mut adapter = MemoryAdapter::new();
    let txn = adapter.ro_transaction();
    assert_eq!(adapter.next_free_entry_id(&txn).0, 1);
    let block = Block::new(body(Id::zero(), vec![add("/", root()), add("/a", domain())], "ids"), &kp);
    let mut txn = adapter.rw_transaction();
    block.apply(&adapter, &mut txn).unwrap();
    adapter.commit(txn);
    let txn = adapter.ro_transaction();
    assert_eq!(adapter.next_free_entry_id(&txn).0, 3);
    let root_entry = adapter.find_direntry(&txn, &Path::root()).unwrap();
    assert_eq!(root_entry.id.0, 1);
    assert_eq!(root_entry.parent_id, ithos::store::EntryId::root());
}

#[test]
fn replay_is_deterministic() {
    let block = example_block();
    let mut rows = Vec::new();
    for _ in 0..2 {
        let mut adapter = MemoryAdapter::new();
        let mut txn = adapter.rw_transaction();
        block.apply(&adapter, &mut txn).unwrap();
        adapter.commit(txn);
        let txn = adapter.ro_transaction();
        rows.push(adapter.find_direntry(&txn, &Path::new("/global/users/manager/keys").unwrap()).unwrap());
    }
    assert_eq!(rows[0], rows[1]);
}

#[test]
fn body_digest_is_stable() {
    let first = body(Id::zero(), vec![add("/", root())], "genesis");
    let second = body(Id::zero(), vec![add("/", root())], "genesis");
    assert_eq!(first.objecthash(), second.objecthash());
    assert_eq!(first.encode(), second.encode());
    assert_eq!(
        hex(&first.objecthash()),
        "f43bfbe6bdecb232431a2a14c69afe823491438cf4463e98af88e146c236ea3a"
    );
}

#[test]
fn op_encoding_vector() {
    assert_eq!(
        add("/", root()).encode(),
        vec![0x08, 0x01, 0x12, 0x01, 0x2f, 0x1a, 0x04, 0x0a, 0x02, 0x08, 0x01]
    );
}

#[test]
fn id_from_bytes_needs_32_bytes() {
    assert_eq!(Id::from_bytes(&[0u8; 31]), Err(Error::Parse));
    assert_eq!(Id::from_bytes(&[0u8; 33]), Err(Error::Parse));
    assert_eq!(Id::from_bytes(&[]), Err(Error::Parse));
    assert_eq!(Id::from_bytes(&[0u8; 32]), Ok(Id::zero()));
    assert_eq!(Id::from_bytes(&[5u8; 32]).unwrap().as_bytes(), &[5u8; 32][..]);
}

#[test]
fn replaying_a_chain_twice_gives_the_same_directory() {
    let kp = keypair();
    let genesis = example_block();
    let next = Block::new(body(genesis.id(), vec![add("/global/extra", ou())], "next"), &kp);
    let chain = vec![genesis, next];
    let mut a1 = MemoryAdapter::new();
    let mut a2 = MemoryAdapter::new();
    assert_eq!(ithos::block::replay(&mut a1, &chain), Ok(()));
    assert_eq!(ithos::block::replay(&mut a2, &chain), Ok(()));
    let (t1, t2) = (a1.ro_transaction(), a2.ro_transaction());
    let p = Path::new("/global/extra").unwrap();
    assert_eq!(a1.find_direntry(&t1, &p), a2.find_direntry(&t2, &p));
    assert_eq!(a1.next_free_entry_id(&t1), a2.next_free_entry_id(&t2));
    assert_eq!(a1.next_free_entry_id(&t1).0, 8);
    let bad = vec![Block::new(body(Id::zero(), vec![add("/a/b", ou())], "orphan"), &kp)];
    assert_eq!(ithos::block::replay(&mut a1, &bad), Err(Error::DirectoryNotFound));
}
