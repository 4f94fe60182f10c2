//! Blocks: signed bodies of operations, chained by the digest of their parent.
use vstd::prelude::*;

use crate::crypto::{ed25519_public_key, ed25519_sign, ed25519_valid, ed25519_verify};
use crate::encoding::{spec_len_field, spec_varint_field, write_len_field, write_varint_field};
use crate::error::Error;
use crate::hashing::{
    hash_bytes, hash_list, hash_str, hash_struct, hash_time, member, push_member,
    spec_hash_bytes, spec_hash_list, spec_hash_str, spec_hash_struct, spec_hash_time, spec_member,
    utf8, utf8_bytes, DIGEST_SIZE,
};
use crate::object::{
    opt_view, spec_encode_object, spec_type_id, CipherSuite, CredentialEntry, DigestAlgorithm,
    DomainEntry, EncryptionAlg, Object, OrgUnitEntry, RootEntry, SignatureAlgorithm, System,
};
use crate::op::{
    entries_resolve, lemma_add_step_found, spec_add_step, spec_encode_op, spec_hash_op, Op, State,
    StateView, Type,
};
use crate::path::{root_seq, spec_components, spec_push, valid_component, valid_path, PathBuf};
use crate::store::{
    has_block, resolve, EntryView, MemoryAdapter, StoreView, Transaction, ROOT_ENTRY_ID,
};

verus! {

/// Length of a block identifier.
pub const ID_SIZE: usize = 32;

/// A block identifier: the 32-byte digest of a block.
#[derive(Debug, Eq, PartialEq, Copy, Clone)]
pub struct Id([u8; 32]);

impl View for Id {
    type V = Seq<u8>;

    closed spec fn view(&self) -> Seq<u8> {
        self.0@
    }
}

impl Id {
    /// The parent identifier of the first block: 256 zero bits.
    pub fn zero() -> (r: Id)
        ensures
            r@ == Seq::new(32, |_i: int| 0u8),
    {
        let r = Id([0u8; 32]);
        assert(r@ =~= Seq::new(32, |_i: int| 0u8));
        r
    }

    /// An identifier from exactly 32 bytes.
    pub fn from_bytes(bytes: &[u8]) -> (r: Result<Id, Error>)
        ensures
            r.is_ok() == (bytes@.len() == ID_SIZE),
            r.is_ok() ==> r.unwrap()@ == bytes@,
            r.is_err() ==> r == Err::<Id, Error>(Error::Parse),
    {
        if bytes.len() != ID_SIZE {
            return Err(Error::Parse);
        }
        let mut id = [0u8; 32];
        let mut i: usize = 0;
        while i < ID_SIZE
            invariant
                bytes@.len() == ID_SIZE,
                i <= ID_SIZE,
                id@.len() == ID_SIZE,
                forall|k: int| 0 <= k < i ==> id@[k] == bytes@[k],
            decreases ID_SIZE - i,
        {
            id[i] = bytes[i];
            i = i + 1;
        }
        assert(id@ =~= bytes@);
        Ok(Id(id))
    }

    /// Every identifier is 32 bytes long.
    pub proof fn lemma_len(&self)
        ensures
            self@.len() == ID_SIZE,
    {
    }

    /// The bytes of this identifier.
    pub fn as_bytes(&self) -> (r: &[u8])
        ensures
            r@ == self@,
            r@.len() == ID_SIZE,
    {
        self.0.as_slice()
    }
}


/// A signature over a block body, with the public key it verifies under.
#[derive(Debug, Eq, PartialEq, Clone)]
pub struct Signature {
    pub public_key: Vec<u8>,
    pub value: Vec<u8>,
}

/// The signatures attesting to a body.
#[derive(Debug, Eq, PartialEq, Clone)]
pub struct Witness {
    pub signatures: Vec<Signature>,
}

/// The unsigned content of a block.
#[derive(Debug, Eq, PartialEq, Clone)]
pub struct Body {
    pub parent_id: Id,
    /// Nanoseconds since the Unix epoch.
    pub timestamp: u64,
    pub ops: Vec<Op>,
    pub comment: String,
}

/// A body and the signatures over it.
#[derive(Debug, Eq, PartialEq, Clone)]
pub struct Block {
    pub body: Body,
    pub witness: Witness,
}

/// Validity of the initial administrator key: ten years, in nanoseconds.
pub const ADMIN_KEYPAIR_LIFETIME: u64 = 315_532_800_000_000_000;

/// The prefix of the string a body's signatures are made over.
pub open spec fn signing_prefix() -> Seq<char> {
    "ithos.block.body.ni:///sha-256;"@
}

/// URL-safe base64, without padding.
pub uninterp spec fn base64url(b: Seq<u8>) -> Seq<char>;

/// Relies on rustc_serialize's ToBase64 with the URL_SAFE configuration: the
/// text depends on the bytes alone.
#[verifier::external_body]
fn to_base64url(b: &[u8]) -> (r: String)
    ensures
        r@ == base64url(b@),
{
    rustc_serialize::base64::ToBase64::to_base64(b, rustc_serialize::base64::URL_SAFE)
}

pub open spec fn spec_encode_ops(ops: Seq<Op>) -> Seq<u8>
    decreases ops.len(),
{
    if ops.len() == 0 {
        seq![]
    } else {
        spec_encode_ops(ops.drop_last()) + spec_len_field(3, spec_encode_op(ops.last()))
    }
}

/// The canonical encoding of a body.
pub open spec fn spec_encode_body(b: Body) -> Seq<u8> {
    spec_len_field(1, b.parent_id@) + (spec_varint_field(2, b.timestamp as nat) + (spec_encode_ops(
        b.ops@,
    ) + spec_len_field(4, utf8(b.comment@))))
}

pub open spec fn spec_encode_signature(s: Signature) -> Seq<u8> {
    spec_len_field(1, s.public_key@) + spec_len_field(2, s.value@)
}

pub open spec fn spec_encode_signatures(sigs: Seq<Signature>) -> Seq<u8>
    decreases sigs.len(),
{
    if sigs.len() == 0 {
        seq![]
    } else {
        spec_encode_signatures(sigs.drop_last()) + spec_len_field(
            1,
            spec_encode_signature(sigs.last()),
        )
    }
}

/// The canonical encoding of a block.
pub open spec fn spec_encode_block(b: Block) -> Seq<u8> {
    spec_len_field(1, spec_encode_body(b.body)) + spec_len_field(
        2,
        spec_encode_signatures(b.witness.signatures@),
    )
}

/// The digest of a body.
pub open spec fn spec_hash_body(b: Body) -> Seq<u8> {
    spec_hash_struct(
        seq![
            spec_member("parent"@, spec_hash_bytes(b.parent_id@)),
            spec_member("timestamp"@, spec_hash_time(b.timestamp)),
            spec_member("ops"@, spec_hash_list(b.ops@.map_values(|o: Op| spec_hash_op(o)))),
            spec_member("comment"@, spec_hash_str(b.comment@)),
        ],
    )
}

pub open spec fn spec_hash_signature(s: Signature) -> Seq<u8> {
    spec_hash_struct(
        seq![
            spec_member("public_key"@, spec_hash_bytes(s.public_key@)),
            spec_member("value"@, spec_hash_bytes(s.value@)),
        ],
    )
}

pub open spec fn spec_hash_witness(w: Witness) -> Seq<u8> {
    spec_hash_struct(
        seq![
            spec_member(
                "signatures"@,
                spec_hash_list(w.signatures@.map_values(|s: Signature| spec_hash_signature(s))),
            ),
        ],
    )
}

/// The digest of a block, which is its identifier.
pub open spec fn spec_hash_block(b: Block) -> Seq<u8> {
    spec_hash_struct(
        seq![
            spec_member("body"@, spec_hash_body(b.body)),
            spec_member("witness"@, spec_hash_witness(b.witness)),
        ],
    )
}

/// The bytes a body's signatures are made over: the prefix, then the
/// URL-safe base64 of the body's digest.
pub open spec fn spec_signing_message(b: Body) -> Seq<u8> {
    utf8(signing_prefix() + base64url(spec_hash_body(b)))
}

/// Whether a witness holds at least one signature, and every one of its
/// signatures verifies over the body.
pub open spec fn spec_witness_valid(b: Block) -> bool {
    &&& b.witness.signatures@.len() > 0
    &&& forall|i: int|
        0 <= i < b.witness.signatures@.len() ==> ed25519_valid(
            (#[trigger] b.witness.signatures@[i]).public_key@,
            spec_signing_message(b.body),
            b.witness.signatures@[i].value@,
        )
}

/// Every operation of a body names a valid path.
pub open spec fn ops_valid(ops: Seq<Op>) -> bool {
    forall|i: int| 0 <= i < ops.len() ==> valid_path((#[trigger] ops[i]).path@)
}

/// The effect of applying operations in order, from `store` and `st`.
pub open spec fn spec_apply_ops(
    store: StoreView,
    st: StateView,
    ops: Seq<Op>,
    bid: Seq<u8>,
    ts: u64,
) -> Result<(StoreView, StateView), Error>
    decreases ops.len(),
{
    if ops.len() == 0 {
        Ok((store, st))
    } else {
        match spec_apply_ops(store, st, ops.drop_last(), bid, ts) {
            Ok((s, t)) => spec_add_step(s, t, ops.last().path@, ops.last().objectclass, bid, ts),
            Err(e) => Err(e),
        }
    }
}

/// The effect of applying a block: it is stored under its identifier, then
/// its operations run in order with entry identifiers allocated from the
/// store's next free one.
pub open spec fn spec_apply_block(store: StoreView, b: Block) -> Result<StoreView, Error> {
    let bid = spec_hash_block(b);
    if has_block(store.blocks, bid) {
        Err(Error::StorageFailure)
    } else {
        let stored = StoreView { blocks: store.blocks.push((bid, spec_encode_block(b))), ..store };
        match spec_apply_ops(
            stored,
            StateView { next_id: store.next_id, new_entries: Seq::empty() },
            b.body.ops@,
            bid,
            b.body.timestamp,
        ) {
            Ok((s, _)) => Ok(s),
            Err(e) => Err(e),
        }
    }
}

fn encode_ops(out: &mut Vec<u8>, ops: &Vec<Op>)
    ensures
        final(out)@ == old(out)@ + spec_encode_ops(ops@),
{
    let mut i: usize = 0;
    assert(ops@.subrange(0, 0) =~= Seq::<Op>::empty());
    assert(out@ =~= old(out)@ + spec_encode_ops(ops@.subrange(0, 0)));
    while i < ops.len()
        invariant
            i <= ops.len(),
            out@ == old(out)@ + spec_encode_ops(ops@.subrange(0, i as int)),
        decreases ops.len() - i,
    {
        let e = ops[i].encode();
        write_len_field(out, 3, e.as_slice());
        let ghost pre = ops@.subrange(0, i + 1);
        assert(pre.drop_last() =~= ops@.subrange(0, i as int));
        assert(pre.last() == ops@[i as int]);
        assert(out@ =~= old(out)@ + spec_encode_ops(pre));
        i = i + 1;
    }
    assert(ops@.subrange(0, ops.len() as int) =~= ops@);
}

fn encode_signature(s: &Signature) -> (r: Vec<u8>)
    ensures
        r@ == spec_encode_signature(*s),
{
    let mut out: Vec<u8> = Vec::new();
    write_len_field(&mut out, 1, s.public_key.as_slice());
    write_len_field(&mut out, 2, s.value.as_slice());
    assert(out@ =~= spec_encode_signature(*s));
    out
}

fn encode_signatures(sigs: &Vec<Signature>) -> (r: Vec<u8>)
    ensures
        r@ == spec_encode_signatures(sigs@),
{
    let mut out: Vec<u8> = Vec::new();
    let mut i: usize = 0;
    assert(out@ =~= spec_encode_signatures(sigs@.subrange(0, 0)));
    while i < sigs.len()
        invariant
            i <= sigs.len(),
            out@ == spec_encode_signatures(sigs@.subrange(0, i as int)),
        decreases sigs.len() - i,
    {
        let e = encode_signature(&sigs[i]);
        write_len_field(&mut out, 1, e.as_slice());
        let ghost pre = sigs@.subrange(0, i + 1);
        assert(pre.drop_last() =~= sigs@.subrange(0, i as int));
        assert(pre.last() == sigs@[i as int]);
        i = i + 1;
    }
    assert(sigs@.subrange(0, sigs.len() as int) =~= sigs@);
    out
}

fn hash_signature(s: &Signature) -> (r: Vec<u8>)
    ensures
        r@ == spec_hash_signature(*s),
{
    let mut members: Vec<Vec<u8>> = Vec::new();
    let h1 = hash_bytes(s.public_key.as_slice());
    push_member(&mut members, member("public_key", &h1));
    let h2 = hash_bytes(s.value.as_slice());
    push_member(&mut members, member("value", &h2));
    assert(members.deep_view() =~= seq![
        spec_member("public_key"@, spec_hash_bytes(s.public_key@)),
        spec_member("value"@, spec_hash_bytes(s.value@)),
    ]);
    hash_struct(members)
}

impl Body {
    /// The canonical encoding of this body.
    pub fn encode(&self) -> (r: Vec<u8>)
        ensures
            r@ == spec_encode_body(*self),
    {
        let mut out: Vec<u8> = Vec::new();
        write_len_field(&mut out, 1, self.parent_id.as_bytes());
        write_varint_field(&mut out, 2, self.timestamp);
        encode_ops(&mut out, &self.ops);
        let c = utf8_bytes(self.comment.as_str());
        write_len_field(&mut out, 4, c.as_slice());
        assert(out@ =~= spec_encode_body(*self));
        out
    }

    /// The digest of this body.
    pub fn objecthash(&self) -> (r: Vec<u8>)
        ensures
            r@ == spec_hash_body(*self),
            r@.len() == DIGEST_SIZE,
    {
        let mut hashes: Vec<Vec<u8>> = Vec::new();
        let mut i: usize = 0;
        while i < self.ops.len()
            invariant
                i <= self.ops.len(),
                hashes.deep_view() =~= self.ops@.subrange(0, i as int).map_values(
                    |o: Op| spec_hash_op(o),
                ),
            decreases self.ops.len() - i,
        {
            let h = self.ops[i].objecthash();
            push_member(&mut hashes, h);
            i = i + 1;
        }
        assert(self.ops@.subrange(0, self.ops.len() as int) =~= self.ops@);
        let mut members: Vec<Vec<u8>> = Vec::new();
        let h1 = hash_bytes(self.parent_id.as_bytes());
        push_member(&mut members, member("parent", &h1));
        let h2 = hash_time(self.timestamp);
        push_member(&mut members, member("timestamp", &h2));
        let h3 = hash_list(&hashes);
        push_member(&mut members, member("ops", &h3));
        let h4 = hash_str(self.comment.as_str());
        push_member(&mut members, member("comment", &h4));
        assert(members.deep_view() =~= seq![
            spec_member("parent"@, spec_hash_bytes(self.parent_id@)),
            spec_member("timestamp"@, spec_hash_time(self.timestamp)),
            spec_member("ops"@, spec_hash_list(self.ops@.map_values(|o: Op| spec_hash_op(o)))),
            spec_member("comment"@, spec_hash_str(self.comment@)),
        ]);
        hash_struct(members)
    }

    /// The bytes the signatures over this body are made over.
    pub fn signing_message(&self) -> (r: Vec<u8>)
        ensures
            r@ == spec_signing_message(*self),
    {
        let digest = self.objecthash();
        let mut message = String::from_str("ithos.block.body.ni:///sha-256;");
        let b64 = to_base64url(digest.as_slice());
        message.append(b64.as_str());
        proof {
            reveal_strlit("ithos.block.body.ni:///sha-256;");
        }
        utf8_bytes(message.as_str())
    }
}

/// The operations of the first block, in order: the root, `/global`,
/// `/global/users`, the administrator, the administrator's keys, and the
/// administrator's signing credential.
pub open spec fn genesis_paths(admin: Seq<char>) -> Seq<Seq<char>> {
    let root = root_seq();
    let global = spec_push(root, "global"@);
    let users = spec_push(global, "users"@);
    let user = spec_push(users, admin);
    let keys = spec_push(user, "keys"@);
    let signing = spec_push(keys, "signing"@);
    seq![root, global, users, user, keys, signing]
}

/// Whether `o` is an object of the given variant with the given description
/// (for those variants that carry one).
pub open spec fn genesis_object_ok(i: int, o: Object, admin: Seq<char>, cred: CredentialEntry) -> bool {
    if i == 0 {
        o == Object::Root(RootEntry { digest_alg: DigestAlgorithm::Sha256 })
    } else if i == 1 {
        o matches Object::Domain(d) && opt_view(d.description) == Some(
            "Global system users and config"@,
        )
    } else if i == 2 {
        o matches Object::OrgUnit(u) && opt_view(u.description) == Some("Core system users"@)
    } else if i == 3 {
        o matches Object::System(s) && s.spec_username() == Some(admin)
    } else if i == 4 {
        o matches Object::OrgUnit(u) && opt_view(u.description) == Some("Admin credentials"@)
    } else {
        o == Object::Credential(cred)
    }
}

/// The genesis credential: the ciphersuite's algorithms, a 32-byte public
/// key, the sealed key pair and its salt, valid for ten years from `ts`
/// (saturating at the largest time).
pub open spec fn genesis_credential_ok(
    c: CredentialEntry,
    sealed: Seq<u8>,
    salt: Seq<u8>,
    ts: u64,
) -> bool {
    &&& c.signature_alg == SignatureAlgorithm::Ed25519
    &&& c.encryption_alg == EncryptionAlg::Aes256Gcm
    &&& c.public_key@.len() == 32
    &&& c.sealed_keypair@ == sealed
    &&& c.salt@ == salt
    &&& c.created_at == ts
    &&& c.expires_at == if ts <= u64::MAX - ADMIN_KEYPAIR_LIFETIME {
        (ts + ADMIN_KEYPAIR_LIFETIME) as u64
    } else {
        u64::MAX
    }
    &&& opt_view(c.description) == Some("Root signing key"@)
}

/// The first block of a chain: parent zero, the six operations that build
/// the administrator's part of the tree with their objects, and one
/// signature that verifies over the body.
pub open spec fn genesis_block_ok(
    r: Block,
    admin: Seq<char>,
    comment: Seq<char>,
    sealed: Seq<u8>,
    salt: Seq<u8>,
    ts: u64,
) -> bool {
    &&& r.body.parent_id@ == Seq::new(32, |_i: int| 0u8)
    &&& r.body.timestamp == ts
    &&& r.body.comment@ == comment
    &&& r.body.ops@.len() == 6
    &&& ops_valid(r.body.ops@)
    &&& r.body.ops@[5].objectclass is Credential
    &&& forall|i: int|
        0 <= i < 6 ==> (#[trigger] r.body.ops@[i]).path@ == genesis_paths(admin)[i]
            && r.body.ops@[i].optype == Type::Add && genesis_object_ok(
            i,
            r.body.ops@[i].objectclass,
            admin,
            r.body.ops@[5].objectclass->Credential_0,
        )
    &&& genesis_credential_ok(r.body.ops@[5].objectclass->Credential_0, sealed, salt, ts)
    &&& r.witness.signatures@.len() == 1
    &&& spec_witness_valid(r)
}

fn push_op(ops: &mut Vec<Op>, path: &PathBuf, object: Object)
    ensures
        final(ops)@.len() == old(ops)@.len() + 1,
        forall|i: int| 0 <= i < old(ops)@.len() ==> final(ops)@[i] == old(ops)@[i],
        final(ops)@.last().optype == Type::Add,
        final(ops)@.last().path@ == path@,
        final(ops)@.last().objectclass == object,
{
    ops.push(Op::new(Type::Add, path.clone_path(), object));
}

impl Body {
    /// The body of the first block of a chain: parent zero, and the
    /// operations that build the administrator's part of the tree.
    pub fn create_initial(
        digest_alg: DigestAlgorithm,
        admin_username: &str,
        admin_signing_credential: CredentialEntry,
        timestamp: u64,
        comment: &str,
    ) -> (r: Body)
        requires
            valid_component(admin_username@),
        ensures
            r.parent_id@ == Seq::new(32, |_i: int| 0u8),
            r.timestamp == timestamp,
            r.comment@ == comment@,
            r.ops@.len() == 6,
            forall|i: int|
                0 <= i < 6 ==> (#[trigger] r.ops@[i]).path@ == genesis_paths(admin_username@)[i]
                    && r.ops@[i].optype == Type::Add && genesis_object_ok(
                    i,
                    r.ops@[i].objectclass,
                    admin_username@,
                    admin_signing_credential,
                ),
            ops_valid(r.ops@),
    {
        match digest_alg {
            DigestAlgorithm::Sha256 => {},
        }
        proof {
            reveal_strlit("global");
            reveal_strlit("users");
            reveal_strlit("keys");
            reveal_strlit("signing");
        }
        let ghost cred = admin_signing_credential;
        let ghost paths = genesis_paths(admin_username@);
        let mut ops: Vec<Op> = Vec::new();
        let mut path = PathBuf::new();
        push_op(&mut ops, &path, Object::Root(RootEntry { digest_alg: DigestAlgorithm::Sha256 }));
        path.push("global");
        push_op(
            &mut ops,
            &path,
            Object::Domain(
                DomainEntry { description: Some(String::from_str("Global system users and config")) },
            ),
        );
        path.push("users");
        push_op(
            &mut ops,
            &path,
            Object::OrgUnit(OrgUnitEntry { description: Some(String::from_str("Core system users")) }),
        );
        let mut admin = System::new();
        admin.set_username(String::from_str(admin_username));
        path.push(admin_username);
        push_op(&mut ops, &path, Object::System(admin));
        path.push("keys");
        push_op(
            &mut ops,
            &path,
            Object::OrgUnit(OrgUnitEntry { description: Some(String::from_str("Admin credentials")) }),
        );
        path.push("signing");
        push_op(&mut ops, &path, Object::Credential(admin_signing_credential));
        proof {
            crate::path::lemma_push_parent_name(paths[0], "global"@);
            crate::path::lemma_push_parent_name(paths[1], "users"@);
            crate::path::lemma_push_parent_name(paths[2], admin_username@);
            crate::path::lemma_push_parent_name(paths[3], "keys"@);
            crate::path::lemma_push_parent_name(paths[4], "signing"@);
            assert forall|i: int| 0 <= i < 6 implies valid_path((#[trigger] ops@[i]).path@) by {}
        }
        Body { parent_id: Id::zero(), timestamp, ops, comment: String::from_str(comment) }
    }
}

impl Block {
    /// A block over `body`, witnessed by one signature made with `keypair`.
    pub fn new(body: Body, keypair: &ring::signature::Ed25519KeyPair) -> (r: Block)
        ensures
            r.body == body,
            r.witness.signatures@.len() == 1,
            r.witness.signatures@[0].public_key@.len() == 32,
            ed25519_valid(
                r.witness.signatures@[0].public_key@,
                spec_signing_message(body),
                r.witness.signatures@[0].value@,
            ),
            spec_witness_valid(r),
    {
        let message = body.signing_message();
        let (public_key, value) = ed25519_sign(keypair, message.as_slice());
        let mut signatures: Vec<Signature> = Vec::new();
        signatures.push(Signature { public_key, value });
        let r = Block { body, witness: Witness { signatures } };
        assert(r.witness.signatures@[0].public_key@ == public_key@);
        r
    }

    /// The canonical encoding of this block.
    pub fn encode(&self) -> (r: Vec<u8>)
        ensures
            r@ == spec_encode_block(*self),
    {
        let b = self.body.encode();
        let w = encode_signatures(&self.witness.signatures);
        let mut out: Vec<u8> = Vec::new();
        write_len_field(&mut out, 1, b.as_slice());
        write_len_field(&mut out, 2, w.as_slice());
        assert(out@ =~= spec_encode_block(*self));
        out
    }

    /// The digest of this block.
    pub fn objecthash(&self) -> (r: Vec<u8>)
        ensures
            r@ == spec_hash_block(*self),
            r@.len() == DIGEST_SIZE,
    {
        let sigs = &self.witness.signatures;
        let mut hashes: Vec<Vec<u8>> = Vec::new();
        let mut i: usize = 0;
        while i < sigs.len()
            invariant
                i <= sigs.len(),
                hashes.deep_view() =~= sigs@.subrange(0, i as int).map_values(
                    |s: Signature| spec_hash_signature(s),
                ),
            decreases sigs.len() - i,
        {
            let h = hash_signature(&sigs[i]);
            push_member(&mut hashes, h);
            i = i + 1;
        }
        assert(sigs@.subrange(0, sigs.len() as int) =~= sigs@);
        assert(hashes.deep_view() =~= sigs@.map_values(|s: Signature| spec_hash_signature(s)));
        let hl = hash_list(&hashes);
        assert(hl@ == spec_hash_list(sigs@.map_values(|s: Signature| spec_hash_signature(s))));
        let mut wm: Vec<Vec<u8>> = Vec::new();
        push_member(&mut wm, member("signatures", &hl));
        assert(wm.deep_view() =~= seq![
            spec_member(
                "signatures"@,
                spec_hash_list(sigs@.map_values(|s: Signature| spec_hash_signature(s))),
            ),
        ]);
        let hw = hash_struct(wm);
        let hb = self.body.objecthash();
        let mut members: Vec<Vec<u8>> = Vec::new();
        push_member(&mut members, member("body", &hb));
        push_member(&mut members, member("witness", &hw));
        assert(members.deep_view() =~= seq![
            spec_member("body"@, spec_hash_body(self.body)),
            spec_member("witness"@, spec_hash_witness(self.witness)),
        ]);
        hash_struct(members)
    }

    /// The identifier of this block: its digest.
    pub fn id(&self) -> (r: Id)
        ensures
            r@ == spec_hash_block(*self),
    {
        let h = self.objecthash();
        match Id::from_bytes(h.as_slice()) {
            Ok(id) => id,
            Err(_) => {
                assert(false);
                Id::zero()
            },
        }
    }

    /// The identifier of this block's parent.
    pub fn parent_id(&self) -> (r: Id)
        ensures
            r == self.body.parent_id,
    {
        self.body.parent_id
    }

    /// Whether the witness holds at least one signature and every one of
    /// them verifies over this block's body.
    pub fn verify_witness(&self) -> (r: bool)
        ensures
            r == spec_witness_valid(*self),
    {
        let sigs = &self.witness.signatures;
        if sigs.len() == 0 {
            return false;
        }
        let message = self.body.signing_message();
        let mut i: usize = 0;
        while i < sigs.len()
            invariant
                i <= sigs.len(),
                message@ == spec_signing_message(self.body),
                sigs == &self.witness.signatures,
                forall|k: int|
                    0 <= k < i ==> ed25519_valid(
                        (#[trigger] sigs@[k]).public_key@,
                        spec_signing_message(self.body),
                        sigs@[k].value@,
                    ),
            decreases sigs.len() - i,
        {
            if !ed25519_verify(
                sigs[i].public_key.as_slice(),
                message.as_slice(),
                sigs[i].value.as_slice(),
            ) {
                return false;
            }
            i = i + 1;
        }
        true
    }

    /// Stores this block in `txn` and applies its operations in order. On an
    /// error the transaction is to be dropped.
    pub fn apply(&self, adapter: &MemoryAdapter, txn: &mut Transaction) -> (r: Result<(), Error>)
        requires
            ops_valid(self.body.ops@),
        ensures
            match spec_apply_block(old(txn)@, *self) {
                Ok(s) => r.is_ok() && final(txn)@ == s,
                Err(e) => r == Err::<(), Error>(e),
            },
    {
        let block_id = self.id();
        let mut state = State::new(adapter.next_free_entry_id(txn));
        let ghost st0 = state@;
        assert(st0.new_entries =~= Seq::<(Seq<char>, u64)>::empty());
        assert(st0 == StateView { next_id: old(txn)@.next_id, new_entries: Seq::empty() });
        let data = self.encode();
        match adapter.add_block(txn, block_id, data) {
            Ok(()) => {},
            Err(e) => {
                return Err(e);
            },
        }
        let ghost stored = txn@;
        assert(!has_block(old(txn)@.blocks, spec_hash_block(*self)));
        assert(stored == StoreView {
            blocks: old(txn)@.blocks.push((spec_hash_block(*self), spec_encode_block(*self))),
            ..old(txn)@
        });
        let ops = &self.body.ops;
        let mut i: usize = 0;
        assert(ops@.subrange(0, 0) =~= Seq::<Op>::empty());
        while i < ops.len()
            invariant
                i <= ops.len(),
                ops == &self.body.ops,
                ops_valid(ops@),
                block_id@ == spec_hash_block(*self),
                st0 == (StateView { next_id: old(txn)@.next_id, new_entries: Seq::empty() }),
                !has_block(old(txn)@.blocks, spec_hash_block(*self)),
                stored == (StoreView {
                    blocks: old(txn)@.blocks.push((spec_hash_block(*self), spec_encode_block(*self))),
                    ..old(txn)@
                }),
                spec_apply_ops(stored, st0, ops@.subrange(0, i as int), block_id@, self.body.timestamp)
                    == Ok::<(StoreView, StateView), Error>((txn@, state@)),
            decreases ops.len() - i,
        {
            let ghost pre = ops@.subrange(0, i + 1);
            assert(pre.drop_last() =~= ops@.subrange(0, i as int));
            assert(pre.last() == ops@[i as int]);
            let res = ops[i].apply(adapter, txn, &mut state, block_id, self.body.timestamp);
            match res {
                Ok(()) => {},
                Err(e) => {
                    proof {
                        assert(spec_apply_ops(stored, st0, pre, block_id@, self.body.timestamp)
                            == Err::<(StoreView, StateView), Error>(e));
                        lemma_apply_ops_err(stored, st0, ops@, i as int, block_id@, self.body.timestamp, e);
                        assert(spec_apply_ops(stored, st0, self.body.ops@, block_id@, self.body.timestamp)
                            == Err::<(StoreView, StateView), Error>(e));
                    }
                    return Err(e);
                },
            }
            i = i + 1;
        }
        assert(ops@.subrange(0, ops.len() as int) =~= ops@);
        Ok(())
    }

    /// The first block of a chain, made at `timestamp` and signed with the
    /// administrator's key, which the block itself introduces.
    pub fn create_initial_at(
        ciphersuite: CipherSuite,
        admin_username: &str,
        admin_keypair: &ring::signature::Ed25519KeyPair,
        admin_keypair_sealed: &[u8],
        admin_keypair_salt: &[u8],
        comment: &str,
        timestamp: u64,
    ) -> (r: Block)
        requires
            valid_component(admin_username@),
        ensures
            genesis_block_ok(
                r,
                admin_username@,
                comment@,
                admin_keypair_sealed@,
                admin_keypair_salt@,
                timestamp,
            ),
    {
        let expires_at = if timestamp <= u64::MAX - ADMIN_KEYPAIR_LIFETIME {
            timestamp + ADMIN_KEYPAIR_LIFETIME
        } else {
            u64::MAX
        };
        let credential = CredentialEntry {
            signature_alg: ciphersuite.signature_alg(),
            encryption_alg: ciphersuite.encryption_alg(),
            sealed_keypair: slice_to_vec(admin_keypair_sealed),
            salt: slice_to_vec(admin_keypair_salt),
            public_key: ed25519_public_key(admin_keypair),
            created_at: timestamp,
            expires_at,
            description: Some(String::from_str("Root signing key")),
        };
        proof {
            reveal_strlit("Root signing key");
        }
        let body = Body::create_initial(
            ciphersuite.digest_alg(),
            admin_username,
            credential,
            timestamp,
            comment,
        );
        Block::new(body, admin_keypair)
    }

    /// The first block of a chain, made now.
    pub fn create_initial(
        ciphersuite: CipherSuite,
        admin_username: &str,
        admin_keypair: &ring::signature::Ed25519KeyPair,
        admin_keypair_sealed: &[u8],
        admin_keypair_salt: &[u8],
        comment: &str,
    ) -> (r: Block)
        requires
            valid_component(admin_username@),
        ensures
            genesis_block_ok(
                r,
                admin_username@,
                comment@,
                admin_keypair_sealed@,
                admin_keypair_salt@,
                r.body.timestamp,
            ),
    {
        let timestamp = now_nanos();
        Block::create_initial_at(
            ciphersuite,
            admin_username,
            admin_keypair,
            admin_keypair_sealed,
            admin_keypair_salt,
            comment,
            timestamp,
        )
    }
}

/// Two operations are logically equal: same type, same path, same object.
pub open spec fn op_equiv(a: Op, b: Op) -> bool {
    &&& a.optype == b.optype
    &&& a.path@ == b.path@
    &&& a.objectclass == b.objectclass
}

/// Two bodies are logically equal: same parent, time and comment, and
/// pairwise equal operations.
pub open spec fn body_equiv(a: Body, b: Body) -> bool {
    &&& a.parent_id@ == b.parent_id@
    &&& a.timestamp == b.timestamp
    &&& a.comment@ == b.comment@
    &&& a.ops@.len() == b.ops@.len()
    &&& forall|i: int| 0 <= i < a.ops@.len() ==> op_equiv(#[trigger] a.ops@[i], b.ops@[i])
}

proof fn lemma_encode_ops_equiv(a: Seq<Op>, b: Seq<Op>)
    requires
        a.len() == b.len(),
        forall|i: int| 0 <= i < a.len() ==> op_equiv(#[trigger] a[i], b[i]),
    ensures
        spec_encode_ops(a) == spec_encode_ops(b),
    decreases a.len(),
{
    if a.len() > 0 {
        assert forall|i: int| 0 <= i < a.drop_last().len() implies op_equiv(
            #[trigger] a.drop_last()[i],
            b.drop_last()[i],
        ) by {
            assert(op_equiv(a[i], b[i]));
        }
        lemma_encode_ops_equiv(a.drop_last(), b.drop_last());
        assert(op_equiv(a[a.len() - 1], b[b.len() - 1]));
    }
}

/// Logically equal bodies have byte-identical encodings and equal digests.
pub proof fn lemma_body_canonical(a: Body, b: Body)
    requires
        body_equiv(a, b),
    ensures
        spec_encode_body(a) == spec_encode_body(b),
        spec_hash_body(a) == spec_hash_body(b),
        spec_signing_message(a) == spec_signing_message(b),
{
    lemma_encode_ops_equiv(a.ops@, b.ops@);
    assert(a.ops@.map_values(|o: Op| spec_hash_op(o)) =~= b.ops@.map_values(
        |o: Op| spec_hash_op(o),
    )) by {
        assert forall|i: int| 0 <= i < a.ops@.len() implies spec_hash_op(#[trigger] a.ops@[i])
            == spec_hash_op(b.ops@[i]) by {
            assert(op_equiv(a.ops@[i], b.ops@[i]));
        }
    }
}

/// The directory after replaying blocks in order from `store`.
pub open spec fn spec_replay(store: StoreView, blocks: Seq<Block>) -> Result<StoreView, Error>
    decreases blocks.len(),
{
    if blocks.len() == 0 {
        Ok(store)
    } else {
        match spec_replay(store, blocks.drop_last()) {
            Ok(s) => spec_apply_block(s, blocks.last()),
            Err(e) => Err(e),
        }
    }
}

/// Replaying the same chain from stores with the same contents gives the
/// same directory, row for row and byte for byte; `replay` and
/// `Block::apply` reach exactly the stores this function names.
pub proof fn lemma_replay_deterministic(s1: StoreView, s2: StoreView, blocks: Seq<Block>)
    requires
        s1 == s2,
    ensures
        spec_replay(s1, blocks) == spec_replay(s2, blocks),
{
}

/// Applying operations keeps the store's next free identifier equal to the
/// block's, and moves it one step for each operation.
pub proof fn lemma_apply_ops_next_id(
    store: StoreView,
    st: StateView,
    ops: Seq<Op>,
    bid: Seq<u8>,
    ts: u64,
)
    requires
        st.next_id == store.next_id,
    ensures
        spec_apply_ops(store, st, ops, bid, ts) matches Ok((s, t)) ==> s.next_id == t.next_id
            && s.next_id == store.next_id + ops.len(),
    decreases ops.len(),
{
    if ops.len() > 0 {
        lemma_apply_ops_next_id(store, st, ops.drop_last(), bid, ts);
        if let Ok((s, t)) = spec_apply_ops(store, st, ops.drop_last(), bid, ts) {
            if spec_add_step(s, t, ops.last().path@, ops.last().objectclass, bid, ts).is_ok() {
                crate::op::lemma_add_step_next_id(
                    s,
                    t,
                    ops.last().path@,
                    ops.last().objectclass,
                    bid,
                    ts,
                );
            }
        }
    }
}

/// The next free entry identifier only grows: applying a block moves it
/// past every identifier the block allocated, strictly where the block has
/// operations, and never to the root sentinel.
pub proof fn lemma_apply_block_next_id(store: StoreView, b: Block)
    requires
        store.next_id > ROOT_ENTRY_ID,
    ensures
        spec_apply_block(store, b) matches Ok(s) ==> s.next_id == store.next_id + b.body.ops@.len()
            && s.next_id > ROOT_ENTRY_ID && (b.body.ops@.len() > 0 ==> s.next_id > store.next_id),
{
    let bid = spec_hash_block(b);
    let stored = StoreView { blocks: store.blocks.push((bid, spec_encode_block(b))), ..store };
    lemma_apply_ops_next_id(
        stored,
        StateView { next_id: store.next_id, new_entries: Seq::empty() },
        b.body.ops@,
        bid,
        b.body.timestamp,
    );
}

/// The operation's path leads, in `rows`, to a row that holds the
/// operation's object, written by block `bid` at time `ts`.
pub open spec fn op_found(rows: Seq<EntryView>, op: Op, bid: Seq<u8>, ts: u64) -> bool {
    let r = resolve(rows, spec_components(op.path@));
    &&& r.is_some()
    &&& rows[r->Some_0].payload == spec_encode_object(op.objectclass)
    &&& rows[r->Some_0].type_id == spec_type_id(op.objectclass)
    &&& rows[r->Some_0].block_id == bid
    &&& rows[r->Some_0].timestamp == ts
}

/// After operations apply, every one of them can be found by its path, and
/// every lookup that succeeded before still gives the same row.
pub proof fn lemma_apply_ops_found(
    store: StoreView,
    st: StateView,
    ops: Seq<Op>,
    bid: Seq<u8>,
    ts: u64,
)
    requires
        ops_valid(ops),
        entries_resolve(store.rows, st.new_entries),
    ensures
        spec_apply_ops(store, st, ops, bid, ts) matches Ok((s, t)) ==> {
            &&& entries_resolve(s.rows, t.new_entries)
            &&& s.rows.len() >= store.rows.len()
            &&& s.rows.subrange(0, store.rows.len() as int) == store.rows
            &&& forall|k: int| 0 <= k < ops.len() ==> op_found(s.rows, #[trigger] ops[k], bid, ts)
            &&& forall|c: Seq<Seq<char>>|
                resolve(store.rows, c).is_some() ==> #[trigger] resolve(s.rows, c) == resolve(
                    store.rows,
                    c,
                )
        },
    decreases ops.len(),
{
    if ops.len() == 0 {
        assert(store.rows.subrange(0, store.rows.len() as int) =~= store.rows);
    } else {
        let init = ops.drop_last();
        assert forall|k: int| 0 <= k < init.len() implies valid_path((#[trigger] init[k]).path@) by {
            assert(init[k] == ops[k]);
        }
        lemma_apply_ops_found(store, st, init, bid, ts);
        if let Ok((s1, t1)) = spec_apply_ops(store, st, init, bid, ts) {
            let last = ops.last();
            assert(valid_path(ops[ops.len() - 1].path@));
            if spec_add_step(s1, t1, last.path@, last.objectclass, bid, ts).is_ok() {
                lemma_add_step_found(s1, t1, last.path@, last.objectclass, bid, ts);
                let (s, t) = spec_add_step(s1, t1, last.path@, last.objectclass, bid, ts)->Ok_0;
                assert(s.rows.subrange(0, store.rows.len() as int) =~= s1.rows.subrange(
                    0,
                    store.rows.len() as int,
                ));
                assert forall|k: int| 0 <= k < ops.len() implies op_found(
                    s.rows,
                    #[trigger] ops[k],
                    bid,
                    ts,
                ) by {
                    if k < ops.len() - 1 {
                        assert(ops[k] == init[k]);
                        assert(op_found(s1.rows, init[k], bid, ts));
                        let c = spec_components(ops[k].path@);
                        crate::store::lemma_resolve_bounds(s1.rows, c);
                        assert(resolve(s.rows, c) == resolve(s1.rows, c));
                        assert(s.rows[resolve(s1.rows, c)->Some_0] == s1.rows[resolve(
                            s1.rows,
                            c,
                        )->Some_0]);
                    } else {
                        assert(ops[k] == last);
                    }
                }
                assert forall|c: Seq<Seq<char>>| resolve(store.rows, c).is_some() implies #[trigger] resolve(
                    s.rows,
                    c,
                ) == resolve(store.rows, c) by {
                    assert(resolve(s1.rows, c) == resolve(store.rows, c));
                }
            }
        }
    }
}

/// After a block applies, every path it adds leads to a row holding the
/// object that was added there.
pub proof fn lemma_apply_block_found(store: StoreView, b: Block)
    requires
        ops_valid(b.body.ops@),
    ensures
        spec_apply_block(store, b) matches Ok(s) ==> forall|k: int|
            0 <= k < b.body.ops@.len() ==> op_found(
                s.rows,
                #[trigger] b.body.ops@[k],
                spec_hash_block(b),
                b.body.timestamp,
            ),
{
    let bid = spec_hash_block(b);
    let stored = StoreView { blocks: store.blocks.push((bid, spec_encode_block(b))), ..store };
    let st = StateView { next_id: store.next_id, new_entries: Seq::empty() };
    lemma_apply_ops_found(stored, st, b.body.ops@, bid, b.body.timestamp);
}

/// Where a block of a chain fails, replaying the whole chain fails with its
/// error.
proof fn lemma_replay_err(store: StoreView, blocks: Seq<Block>, i: int, e: Error)
    requires
        0 <= i < blocks.len(),
        spec_replay(store, blocks.subrange(0, i + 1)) == Err::<StoreView, Error>(e),
    ensures
        spec_replay(store, blocks) == Err::<StoreView, Error>(e),
    decreases blocks.len() - i,
{
    if i + 1 < blocks.len() {
        let pre = blocks.subrange(0, i + 2);
        assert(pre.drop_last() =~= blocks.subrange(0, i + 1));
        lemma_replay_err(store, blocks, i + 1, e);
    } else {
        assert(blocks.subrange(0, i + 1) =~= blocks);
    }
}

/// Applies a chain of blocks in order, each in a transaction of its own
/// that is committed once the block applies. It stops at the first block
/// that fails, whose writes are dropped; the blocks before it stay.
pub fn replay(adapter: &mut MemoryAdapter, blocks: &Vec<Block>) -> (r: Result<(), Error>)
    requires
        forall|i: int| 0 <= i < blocks@.len() ==> ops_valid((#[trigger] blocks@[i]).body.ops@),
    ensures
        match spec_replay(old(adapter)@, blocks@) {
            Ok(s) => r.is_ok() && final(adapter)@ == s,
            Err(e) => r == Err::<(), Error>(e),
        },
{
    let mut i: usize = 0;
    assert(blocks@.subrange(0, 0) =~= Seq::<Block>::empty());
    while i < blocks.len()
        invariant
            i <= blocks.len(),
            forall|k: int| 0 <= k < blocks@.len() ==> ops_valid((#[trigger] blocks@[k]).body.ops@),
            spec_replay(old(adapter)@, blocks@.subrange(0, i as int)) == Ok::<StoreView, Error>(
                adapter@,
            ),
        decreases blocks.len() - i,
    {
        let ghost pre = blocks@.subrange(0, i + 1);
        assert(pre.drop_last() =~= blocks@.subrange(0, i as int));
        assert(pre.last() == blocks@[i as int]);
        let mut txn = adapter.rw_transaction();
        match blocks[i].apply(adapter, &mut txn) {
            Ok(()) => {
                adapter.commit(txn);
            },
            Err(e) => {
                proof {
                    lemma_replay_err(old(adapter)@, blocks@, i as int, e);
                }
                return Err(e);
            },
        }
        i = i + 1;
    }
    assert(blocks@.subrange(0, blocks.len() as int) =~= blocks@);
    Ok(())
}

/// Where an operation fails, the whole sequence fails with its error.
proof fn lemma_apply_ops_err(
    store: StoreView,
    st: StateView,
    ops: Seq<Op>,
    i: int,
    bid: Seq<u8>,
    ts: u64,
    e: Error,
)
    requires
        0 <= i < ops.len(),
        spec_apply_ops(store, st, ops.subrange(0, i + 1), bid, ts) == Err::<(StoreView, StateView), Error>(e),
    ensures
        spec_apply_ops(store, st, ops, bid, ts) == Err::<(StoreView, StateView), Error>(e),
    decreases ops.len() - i,
{
    if i + 1 < ops.len() {
        let pre = ops.subrange(0, i + 2);
        assert(pre.drop_last() =~= ops.subrange(0, i + 1));
        lemma_apply_ops_err(store, st, ops, i + 1, bid, ts, e);
    } else {
        assert(ops.subrange(0, i + 1) =~= ops);
    }
}

/// Relies on std::time::SystemTime::now: the current time, in nanoseconds
/// since the Unix epoch (zero before it, saturated past u64).
#[verifier::external_body]
fn now_nanos() -> (r: u64) {
    match std::time::SystemTime::now().duration_since(std::time::UNIX_EPOCH) {
        Ok(d) => u64::try_from(d.as_nanos()).unwrap_or(u64::MAX),
        Err(_) => 0,
    }
}

fn slice_to_vec(s: &[u8]) -> (r: Vec<u8>)
    ensures
        r@ == s@,
{
    let mut v: Vec<u8> = Vec::new();
    v.extend_from_slice(s);
    assert(v@ =~= s@);
    v
}

} // verus!
