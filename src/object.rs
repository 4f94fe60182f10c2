//! The typed payloads stored at directory entries, with their canonical
//! encodings and digests.
use vstd::prelude::*;
use vstd::string::*;

use crate::encoding::{spec_len_field, spec_varint_field, write_len_field, write_varint_field};
use crate::hashing::{
    hash_bytes, hash_str, hash_struct, push_member, hash_time, hash_u64, member, spec_hash_bytes, spec_hash_str,
    spec_hash_struct, spec_hash_time, spec_hash_u64, spec_member, utf8, utf8_bytes, DIGEST_SIZE,
};

verus! {

/// Digest algorithms for the object hash; SHA-256 is the only one.
#[derive(Debug, Eq, PartialEq, Copy, Clone)]
pub enum DigestAlgorithm {
    Sha256,
}

/// Signature algorithms for credentials; Ed25519 is the only one.
#[derive(Debug, Eq, PartialEq, Copy, Clone)]
pub enum SignatureAlgorithm {
    Ed25519,
}

/// Authenticated encryption algorithms; AES-256-GCM is the only one.
#[derive(Debug, Eq, PartialEq, Copy, Clone)]
pub enum EncryptionAlg {
    Aes256Gcm,
}

/// The algorithms a chain is built with.
#[derive(Debug, Eq, PartialEq, Copy, Clone)]
pub enum CipherSuite {
    Ed25519Aes256GcmSha256,
}

impl CipherSuite {
    pub fn digest_alg(&self) -> (r: DigestAlgorithm)
        ensures
            r == DigestAlgorithm::Sha256,
    {
        DigestAlgorithm::Sha256
    }

    pub fn signature_alg(&self) -> (r: SignatureAlgorithm)
        ensures
            r == SignatureAlgorithm::Ed25519,
    {
        SignatureAlgorithm::Ed25519
    }

    pub fn encryption_alg(&self) -> (r: EncryptionAlg)
        ensures
            r == EncryptionAlg::Aes256Gcm,
    {
        EncryptionAlg::Aes256Gcm
    }
}

/// The number each algorithm is written as.
pub open spec fn digest_alg_code(a: DigestAlgorithm) -> nat {
    1
}

pub open spec fn signature_alg_code(a: SignatureAlgorithm) -> nat {
    1
}

pub open spec fn encryption_alg_code(a: EncryptionAlg) -> nat {
    1
}

/// The root of the tree: names the chain's digest algorithm.
#[derive(Debug, Eq, PartialEq, Clone)]
pub struct RootEntry {
    pub digest_alg: DigestAlgorithm,
}

/// A domain: a top-level grouping of entries.
#[derive(Debug, Eq, PartialEq, Clone)]
pub struct DomainEntry {
    pub description: Option<String>,
}

/// An organizational unit within a domain.
#[derive(Debug, Eq, PartialEq, Clone)]
pub struct OrgUnitEntry {
    pub description: Option<String>,
}

/// A system user.
#[derive(Debug, Eq, PartialEq, Clone, Default)]
pub struct System {
    username: Option<String>,
}

/// A credential: a signing key pair whose private half is sealed.
#[derive(Debug, Eq, PartialEq, Clone)]
pub struct CredentialEntry {
    pub signature_alg: SignatureAlgorithm,
    pub encryption_alg: EncryptionAlg,
    pub sealed_keypair: Vec<u8>,
    pub salt: Vec<u8>,
    pub public_key: Vec<u8>,
    /// Validity start, in nanoseconds since the Unix epoch.
    pub created_at: u64,
    /// Validity end, in nanoseconds since the Unix epoch.
    pub expires_at: u64,
    pub description: Option<String>,
}

/// The payload of an entry.
#[derive(Debug, Eq, PartialEq, Clone)]
pub enum Object {
    Root(RootEntry),
    Domain(DomainEntry),
    OrgUnit(OrgUnitEntry),
    System(System),
    Credential(CredentialEntry),
}

/// The discriminator stored with each entry row.
#[derive(Debug, Eq, PartialEq, Structural, Copy, Clone)]
pub enum TypeId {
    Root,
    Domain,
    OrgUnit,
    System,
    Credential,
}

impl System {
    /// The username, if one is set.
    pub closed spec fn spec_username(&self) -> Option<Seq<char>> {
        match self.username {
            Some(s) => Some(s@),
            None => None,
        }
    }

    /// A system user with no username set.
    pub fn new() -> (r: System)
        ensures
            r.spec_username().is_none(),
    {
        System { username: None }
    }

    pub fn clear_username(&mut self)
        ensures
            final(self).spec_username().is_none(),
    {
        self.username = None;
    }

    pub fn has_username(&self) -> (r: bool)
        ensures
            r == self.spec_username().is_some(),
    {
        self.username.is_some()
    }

    pub fn set_username(&mut self, v: String)
        ensures
            final(self).spec_username() == Some(v@),
    {
        self.username = Some(v);
    }

    /// The username, for changing in place; set to empty first where none
    /// is set.
    pub fn mut_username(&mut self) -> (r: &mut String)
        ensures
            old(self).spec_username().is_some() ==> r@ == old(self).spec_username().unwrap(),
            old(self).spec_username().is_none() ==> r@ == Seq::<char>::empty(),
            final(self).spec_username() == Some(final(r)@),
    {
        if self.username.is_none() {
            self.username = Some(String::new());
        }
        self.username.as_mut().unwrap()
    }

    /// Removes the username and returns it; empty where none was set.
    pub fn take_username(&mut self) -> (r: String)
        ensures
            final(self).spec_username().is_none(),
            r@ == match old(self).spec_username() {
                Some(s) => s,
                None => Seq::<char>::empty(),
            },
    {
        let u = self.username.take();
        match u {
            Some(s) => s,
            None => String::new(),
        }
    }

    /// The username; empty where none is set.
    pub fn get_username(&self) -> (r: &str)
        ensures
            r@ == match self.spec_username() {
                Some(s) => s,
                None => Seq::<char>::empty(),
            },
    {
        match &self.username {
            Some(v) => v.as_str(),
            None => {
                proof {
                    reveal_strlit("");
                }
                ""
            },
        }
    }
}

/// An optional string field: absent when unset.
pub open spec fn spec_opt_str_field(field: nat, s: Option<Seq<char>>) -> Seq<u8> {
    match s {
        Some(v) => spec_len_field(field, utf8(v)),
        None => seq![],
    }
}

pub open spec fn opt_view(s: Option<String>) -> Option<Seq<char>> {
    match s {
        Some(v) => Some(v@),
        None => None,
    }
}

pub open spec fn spec_encode_root(r: RootEntry) -> Seq<u8> {
    spec_varint_field(1, digest_alg_code(r.digest_alg))
}

pub open spec fn spec_encode_credential(c: CredentialEntry) -> Seq<u8> {
    spec_varint_field(1, signature_alg_code(c.signature_alg)) + (spec_varint_field(
        2,
        encryption_alg_code(c.encryption_alg),
    ) + (spec_len_field(3, c.sealed_keypair@) + (spec_len_field(4, c.salt@) + (spec_len_field(
        5,
        c.public_key@,
    ) + (spec_varint_field(6, c.created_at as nat) + (spec_varint_field(7, c.expires_at as nat)
        + spec_opt_str_field(8, opt_view(c.description))))))))
}

/// The encoding of an object's own fields.
pub open spec fn spec_encode_fields(o: Object) -> Seq<u8> {
    match o {
        Object::Root(r) => spec_encode_root(r),
        Object::Domain(d) => spec_opt_str_field(1, opt_view(d.description)),
        Object::OrgUnit(u) => spec_opt_str_field(1, opt_view(u.description)),
        Object::System(s) => spec_opt_str_field(1, s.spec_username()),
        Object::Credential(c) => spec_encode_credential(c),
    }
}

/// The field number that tells the variants apart.
pub open spec fn variant_field(o: Object) -> nat {
    match o {
        Object::Root(_) => 1,
        Object::Domain(_) => 2,
        Object::OrgUnit(_) => 3,
        Object::System(_) => 4,
        Object::Credential(_) => 5,
    }
}

/// The canonical encoding of an object: its fields, wrapped in the field
/// that names its variant.
pub open spec fn spec_encode_object(o: Object) -> Seq<u8> {
    spec_len_field(variant_field(o), spec_encode_fields(o))
}

pub open spec fn spec_type_id(o: Object) -> TypeId {
    match o {
        Object::Root(_) => TypeId::Root,
        Object::Domain(_) => TypeId::Domain,
        Object::OrgUnit(_) => TypeId::OrgUnit,
        Object::System(_) => TypeId::System,
        Object::Credential(_) => TypeId::Credential,
    }
}

/// Members for an optional string: none when unset.
pub open spec fn opt_str_members(name: Seq<char>, s: Option<Seq<char>>) -> Seq<Seq<u8>> {
    match s {
        Some(v) => seq![spec_member(name, spec_hash_str(v))],
        None => seq![],
    }
}

pub open spec fn spec_hash_credential(c: CredentialEntry) -> Seq<u8> {
    spec_hash_struct(
        seq![
            spec_member("signature_alg"@, spec_hash_u64(signature_alg_code(c.signature_alg) as u64)),
            spec_member("encryption_alg"@, spec_hash_u64(encryption_alg_code(c.encryption_alg) as u64)),
            spec_member("sealed_keypair"@, spec_hash_bytes(c.sealed_keypair@)),
            spec_member("salt"@, spec_hash_bytes(c.salt@)),
            spec_member("public_key"@, spec_hash_bytes(c.public_key@)),
            spec_member("created_at"@, spec_hash_time(c.created_at)),
            spec_member("expires_at"@, spec_hash_time(c.expires_at)),
        ] + opt_str_members("description"@, opt_view(c.description)),
    )
}

/// The digest of an object's own fields.
pub open spec fn spec_hash_fields(o: Object) -> Seq<u8> {
    match o {
        Object::Root(r) => spec_hash_struct(
            seq![spec_member("digest_alg"@, spec_hash_u64(digest_alg_code(r.digest_alg) as u64))],
        ),
        Object::Domain(d) => spec_hash_struct(
            opt_str_members("description"@, opt_view(d.description)),
        ),
        Object::OrgUnit(u) => spec_hash_struct(
            opt_str_members("description"@, opt_view(u.description)),
        ),
        Object::System(s) => spec_hash_struct(opt_str_members("username"@, s.spec_username())),
        Object::Credential(c) => spec_hash_credential(c),
    }
}

pub open spec fn variant_name(o: Object) -> Seq<char> {
    match o {
        Object::Root(_) => "root"@,
        Object::Domain(_) => "domain"@,
        Object::OrgUnit(_) => "ou"@,
        Object::System(_) => "system"@,
        Object::Credential(_) => "credential"@,
    }
}

/// The digest of an object: a struct with one member, named after its variant.
pub open spec fn spec_hash_object(o: Object) -> Seq<u8> {
    spec_hash_struct(seq![spec_member(variant_name(o), spec_hash_fields(o))])
}

fn write_opt_str_field(out: &mut Vec<u8>, field: u64, s: &Option<String>)
    requires
        field < 0x1000_0000,
    ensures
        final(out)@ == old(out)@ + spec_opt_str_field(field as nat, opt_view(*s)),
{
    match s {
        Some(v) => {
            let b = utf8_bytes(v.as_str());
            write_len_field(out, field, b.as_slice());
        },
        None => {
            assert(out@ =~= old(out)@ + spec_opt_str_field(field as nat, opt_view(*s)));
        },
    }
}

fn push_opt_str_member(members: &mut Vec<Vec<u8>>, name: &str, s: &Option<String>)
    ensures
        final(members).deep_view() == old(members).deep_view() + opt_str_members(
            name@,
            opt_view(*s),
        ),
{
    match s {
        Some(v) => {
            let h = hash_str(v.as_str());
            let m = member(name, &h);
            push_member(members, m);
            assert(members.deep_view() =~= old(members).deep_view() + opt_str_members(
                name@,
                opt_view(*s),
            ));
        },
        None => {
            assert(members.deep_view() =~= old(members).deep_view() + opt_str_members(
                name@,
                opt_view(*s),
            ));
        },
    }
}

impl Object {
    /// The row discriminator of this object.
    pub fn type_id(&self) -> (r: TypeId)
        ensures
            r == spec_type_id(*self),
    {
        match self {
            Object::Root(_) => TypeId::Root,
            Object::Domain(_) => TypeId::Domain,
            Object::OrgUnit(_) => TypeId::OrgUnit,
            Object::System(_) => TypeId::System,
            Object::Credential(_) => TypeId::Credential,
        }
    }

    fn encode_fields(&self) -> (r: Vec<u8>)
        ensures
            r@ == spec_encode_fields(*self),
    {
        let mut out: Vec<u8> = Vec::new();
        match self {
            Object::Root(_) => {
                write_varint_field(&mut out, 1, 1);
            },
            Object::Domain(d) => {
                write_opt_str_field(&mut out, 1, &d.description);
            },
            Object::OrgUnit(u) => {
                write_opt_str_field(&mut out, 1, &u.description);
            },
            Object::System(s) => {
                write_opt_str_field(&mut out, 1, &s.username);
                assert(opt_view(s.username) == s.spec_username());
            },
            Object::Credential(c) => {
                write_varint_field(&mut out, 1, 1);
                write_varint_field(&mut out, 2, 1);
                write_len_field(&mut out, 3, c.sealed_keypair.as_slice());
                write_len_field(&mut out, 4, c.salt.as_slice());
                write_len_field(&mut out, 5, c.public_key.as_slice());
                write_varint_field(&mut out, 6, c.created_at);
                write_varint_field(&mut out, 7, c.expires_at);
                write_opt_str_field(&mut out, 8, &c.description);
            },
        }
        assert(out@ =~= spec_encode_fields(*self));
        out
    }

    /// The canonical encoding of this object.
    pub fn encode(&self) -> (r: Vec<u8>)
        ensures
            r@ == spec_encode_object(*self),
    {
        let fields = self.encode_fields();
        let field: u64 = match self {
            Object::Root(_) => 1,
            Object::Domain(_) => 2,
            Object::OrgUnit(_) => 3,
            Object::System(_) => 4,
            Object::Credential(_) => 5,
        };
        let mut out: Vec<u8> = Vec::new();
        write_len_field(&mut out, field, fields.as_slice());
        assert(out@ =~= spec_encode_object(*self));
        out
    }

    fn hash_fields(&self) -> (r: Vec<u8>)
        ensures
            r@ == spec_hash_fields(*self),
    {
        let mut members: Vec<Vec<u8>> = Vec::new();
        match self {
            Object::Root(_) => {
                let h = hash_u64(1);
                push_member(&mut members, member("digest_alg", &h));
            },
            Object::Domain(d) => {
                push_opt_str_member(&mut members, "description", &d.description);
            },
            Object::OrgUnit(u) => {
                push_opt_str_member(&mut members, "description", &u.description);
            },
            Object::System(s) => {
                push_opt_str_member(&mut members, "username", &s.username);
                assert(opt_view(s.username) == s.spec_username());
            },
            Object::Credential(c) => {
                let h1 = hash_u64(1);
                push_member(&mut members, member("signature_alg", &h1));
                let h2 = hash_u64(1);
                push_member(&mut members, member("encryption_alg", &h2));
                let h3 = hash_bytes(c.sealed_keypair.as_slice());
                push_member(&mut members, member("sealed_keypair", &h3));
                let h4 = hash_bytes(c.salt.as_slice());
                push_member(&mut members, member("salt", &h4));
                let h5 = hash_bytes(c.public_key.as_slice());
                push_member(&mut members, member("public_key", &h5));
                let h6 = hash_time(c.created_at);
                push_member(&mut members, member("created_at", &h6));
                let h7 = hash_time(c.expires_at);
                push_member(&mut members, member("expires_at", &h7));
                push_opt_str_member(&mut members, "description", &c.description);
            },
        }
        proof {
            let e: Seq<Seq<u8>> = seq![];
            assert(e + seq![] =~= e);
        }
        assert(members.deep_view() =~= match *self {
            Object::Root(r) => seq![
                spec_member("digest_alg"@, spec_hash_u64(digest_alg_code(r.digest_alg) as u64)),
            ],
            Object::Domain(d) => opt_str_members("description"@, opt_view(d.description)),
            Object::OrgUnit(u) => opt_str_members("description"@, opt_view(u.description)),
            Object::System(s) => opt_str_members("username"@, s.spec_username()),
            Object::Credential(c) => seq![
                spec_member("signature_alg"@, spec_hash_u64(signature_alg_code(c.signature_alg) as u64)),
                spec_member("encryption_alg"@, spec_hash_u64(encryption_alg_code(c.encryption_alg) as u64)),
                spec_member("sealed_keypair"@, spec_hash_bytes(c.sealed_keypair@)),
                spec_member("salt"@, spec_hash_bytes(c.salt@)),
                spec_member("public_key"@, spec_hash_bytes(c.public_key@)),
                spec_member("created_at"@, spec_hash_time(c.created_at)),
                spec_member("expires_at"@, spec_hash_time(c.expires_at)),
            ] + opt_str_members("description"@, opt_view(c.description)),
        });
        hash_struct(members)
    }

    /// The digest of this object.
    pub fn objecthash(&self) -> (r: Vec<u8>)
        ensures
            r@ == spec_hash_object(*self),
            r@.len() == DIGEST_SIZE,
    {
        let inner = self.hash_fields();
        let name: &str = match self {
            Object::Root(_) => "root",
            Object::Domain(_) => "domain",
            Object::OrgUnit(_) => "ou",
            Object::System(_) => "system",
            Object::Credential(_) => "credential",
        };
        proof {
            reveal_strlit("root");
            reveal_strlit("domain");
            reveal_strlit("ou");
            reveal_strlit("system");
            reveal_strlit("credential");
        }
        assert(name@ == variant_name(*self));
        let m = member(name, &inner);
        let mut members: Vec<Vec<u8>> = Vec::new();
        push_member(&mut members, m);
        assert(members.deep_view() =~= seq![spec_member(variant_name(*self), spec_hash_fields(*self))]);
        hash_struct(members)
    }
}

} // verus!
