//! Decoding of the canonical wire encoding.
use vstd::prelude::*;

use crate::block::{
    spec_encode_block, spec_encode_body, spec_encode_ops, spec_encode_signature, spec_hash_body,
    spec_encode_signatures, Block, Body, Id, Signature, Witness,
};
use crate::encoding::{spec_key, spec_len_field, spec_varint, spec_varint_field, WIRE_LEN, WIRE_VARINT};
use crate::hashing::utf8;
use vstd::utf8::{decode_utf8, encode_utf8_decode_utf8, encode_utf8_valid_utf8, valid_utf8};
use crate::object::{
    opt_str_members, opt_view, spec_encode_credential, spec_hash_object, spec_encode_fields, spec_encode_object, spec_opt_str_field,
    variant_field, CredentialEntry, DigestAlgorithm, DomainEntry, Object, OrgUnitEntry, RootEntry,
    System,
};
use crate::op::{spec_encode_op, spec_hash_op, Op, Type};
use crate::path::{valid_path, Path};

verus! {

/// Reads a varint from the front of `s`: its value and what follows it.
pub open spec fn spec_read_varint(s: Seq<u8>) -> Option<(nat, Seq<u8>)>
    decreases s.len(),
{
    if s.len() == 0 {
        None
    } else if s[0] < 128 {
        Some((s[0] as nat, s.drop_first()))
    } else {
        match spec_read_varint(s.drop_first()) {
            Some((v, r)) => Some(((s[0] - 128) as nat + 128 * v, r)),
            None => None,
        }
    }
}

/// Reads the key of field `f` with wire type `w`: what follows it.
pub open spec fn spec_read_key(s: Seq<u8>, f: nat, w: nat) -> Option<Seq<u8>> {
    match spec_read_varint(s) {
        Some((k, r)) => if k == f * 8 + w {
            Some(r)
        } else {
            None
        },
        None => None,
    }
}

/// Reads varint field `f`: its value and what follows it.
pub open spec fn spec_read_varint_field(s: Seq<u8>, f: nat) -> Option<(nat, Seq<u8>)> {
    match spec_read_key(s, f, WIRE_VARINT as nat) {
        Some(r) => spec_read_varint(r),
        None => None,
    }
}

/// Reads length-delimited field `f`: its payload and what follows it.
pub open spec fn spec_read_len_field(s: Seq<u8>, f: nat) -> Option<(Seq<u8>, Seq<u8>)> {
    match spec_read_key(s, f, WIRE_LEN as nat) {
        Some(r) => match spec_read_varint(r) {
            Some((n, r2)) => if n <= r2.len() {
                Some((r2.subrange(0, n as int), r2.subrange(n as int, r2.len() as int)))
            } else {
                None
            },
            None => None,
        },
        None => None,
    }
}

/// A varint reads back as the value it was written from.
pub proof fn lemma_read_varint(n: nat, rest: Seq<u8>)
    ensures
        spec_read_varint(spec_varint(n) + rest) == Some((n, rest)),
    decreases n,
{
    let s = spec_varint(n) + rest;
    if n < 128 {
        assert(s.drop_first() =~= rest);
    } else {
        let hi = n / 128;
        assert(s.drop_first() =~= spec_varint(hi) + rest);
        lemma_read_varint(hi, rest);
        assert(((n % 128) + 128) as u8 - 128 == n % 128);
        assert(n == n % 128 + 128 * hi);
    }
}

/// What follows a varint is shorter than what it was read from.
pub proof fn lemma_read_varint_shorter(s: Seq<u8>)
    ensures
        spec_read_varint(s) matches Some((_, r)) ==> r.len() < s.len(),
    decreases s.len(),
{
    if s.len() > 0 && s[0] >= 128 {
        lemma_read_varint_shorter(s.drop_first());
    }
}

/// A varint field reads back as the value it was written from.
pub proof fn lemma_read_varint_field(f: nat, v: nat, rest: Seq<u8>)
    ensures
        spec_read_varint_field(spec_varint_field(f, v) + rest, f) == Some((v, rest)),
{
    lemma_read_varint(f * 8 + WIRE_VARINT as nat, spec_varint(v) + rest);
    assert(spec_varint_field(f, v) + rest =~= spec_key(f, WIRE_VARINT as nat) + (spec_varint(v)
        + rest));
    lemma_read_varint(v, rest);
}

/// A length-delimited field reads back as the payload it was written from.
pub proof fn lemma_read_len_field(f: nat, p: Seq<u8>, rest: Seq<u8>)
    ensures
        spec_read_len_field(spec_len_field(f, p) + rest, f) == Some((p, rest)),
{
    let after_key = spec_varint(p.len()) + (p + rest);
    lemma_read_varint(f * 8 + WIRE_LEN as nat, after_key);
    assert(spec_len_field(f, p) + rest =~= spec_key(f, WIRE_LEN as nat) + after_key);
    lemma_read_varint(p.len(), p + rest);
    assert((p + rest).subrange(0, p.len() as int) =~= p);
    assert((p + rest).subrange(p.len() as int, (p + rest).len() as int) =~= rest);
}

/// A credential as its encoding records it.
pub struct CredentialRecord {
    pub sealed_keypair: Seq<u8>,
    pub salt: Seq<u8>,
    pub public_key: Seq<u8>,
    pub created_at: nat,
    pub expires_at: nat,
    pub description: Option<Seq<char>>,
}

/// An object as its encoding records it: its fields, as values.
pub enum ObjectRecord {
    Root,
    Domain(Option<Seq<char>>),
    OrgUnit(Option<Seq<char>>),
    System(Option<Seq<char>>),
    Credential(CredentialRecord),
}

/// An operation as its encoding records it.
pub struct OpRecord {
    pub path: Seq<char>,
    pub object: ObjectRecord,
}

/// A body as its encoding records it.
pub struct BodyRecord {
    pub parent_id: Seq<u8>,
    pub timestamp: nat,
    pub ops: Seq<OpRecord>,
    pub comment: Seq<char>,
}

/// A signature as its encoding records it.
pub struct SignatureRecord {
    pub public_key: Seq<u8>,
    pub value: Seq<u8>,
}

/// A block as its encoding records it.
pub struct BlockRecord {
    pub body: BodyRecord,
    pub signatures: Seq<SignatureRecord>,
}

pub open spec fn credential_record(c: CredentialEntry) -> CredentialRecord {
    CredentialRecord {
        sealed_keypair: c.sealed_keypair@,
        salt: c.salt@,
        public_key: c.public_key@,
        created_at: c.created_at as nat,
        expires_at: c.expires_at as nat,
        description: opt_view(c.description),
    }
}

pub open spec fn object_record(o: Object) -> ObjectRecord {
    match o {
        Object::Root(_) => ObjectRecord::Root,
        Object::Domain(d) => ObjectRecord::Domain(opt_view(d.description)),
        Object::OrgUnit(u) => ObjectRecord::OrgUnit(opt_view(u.description)),
        Object::System(s) => ObjectRecord::System(s.spec_username()),
        Object::Credential(c) => ObjectRecord::Credential(credential_record(c)),
    }
}

pub open spec fn op_record(op: Op) -> OpRecord {
    OpRecord { path: op.path@, object: object_record(op.objectclass) }
}

pub open spec fn body_record(b: Body) -> BodyRecord {
    BodyRecord {
        parent_id: b.parent_id@,
        timestamp: b.timestamp as nat,
        ops: b.ops@.map_values(|o: Op| op_record(o)),
        comment: b.comment@,
    }
}

pub open spec fn signature_record(s: Signature) -> SignatureRecord {
    SignatureRecord { public_key: s.public_key@, value: s.value@ }
}

pub open spec fn block_record(b: Block) -> BlockRecord {
    BlockRecord {
        body: body_record(b.body),
        signatures: b.witness.signatures@.map_values(|s: Signature| signature_record(s)),
    }
}

/// An optional text field that ends a message: absent where nothing is left.
pub open spec fn parse_opt_str(s: Seq<u8>, f: nat) -> Option<Option<Seq<char>>> {
    if s.len() == 0 {
        Some(None)
    } else {
        match spec_read_len_field(s, f) {
            Some((p, r)) => if r.len() == 0 && valid_utf8(p) {
                Some(Some(decode_utf8(p)))
            } else {
                None
            },
            None => None,
        }
    }
}

pub open spec fn parse_credential_times(
    s5: Seq<u8>,
    sk: Seq<u8>,
    salt: Seq<u8>,
    pk: Seq<u8>,
) -> Option<CredentialRecord> {
    match spec_read_varint_field(s5, 6) {
        Some((c, s6)) => match spec_read_varint_field(s6, 7) {
            Some((x, s7)) => match parse_opt_str(s7, 8) {
                Some(d) => Some(
                    CredentialRecord {
                        sealed_keypair: sk,
                        salt,
                        public_key: pk,
                        created_at: c,
                        expires_at: x,
                        description: d,
                    },
                ),
                None => None,
            },
            None => None,
        },
        None => None,
    }
}

pub open spec fn parse_credential_keys(s2: Seq<u8>) -> Option<CredentialRecord> {
    match spec_read_len_field(s2, 3) {
        Some((sk, s3)) => match spec_read_len_field(s3, 4) {
            Some((salt, s4)) => match spec_read_len_field(s4, 5) {
                Some((pk, s5)) => parse_credential_times(s5, sk, salt, pk),
                None => None,
            },
            None => None,
        },
        None => None,
    }
}

pub open spec fn parse_credential(s: Seq<u8>) -> Option<CredentialRecord> {
    match spec_read_varint_field(s, 1) {
        Some((a, s1)) => if a != 1 {
            None
        } else {
            match spec_read_varint_field(s1, 2) {
                Some((e, s2)) => if e != 1 {
                    None
                } else {
                    parse_credential_keys(s2)
                },
                None => None,
            }
        },
        None => None,
    }
}

/// The fields of an object of the variant numbered `v`.
pub open spec fn parse_fields(v: nat, p: Seq<u8>) -> Option<ObjectRecord> {
    if v == 1 {
        match spec_read_varint_field(p, 1) {
            Some((a, r)) => if a == 1 && r.len() == 0 {
                Some(ObjectRecord::Root)
            } else {
                None
            },
            None => None,
        }
    } else if v == 2 {
        match parse_opt_str(p, 1) {
            Some(d) => Some(ObjectRecord::Domain(d)),
            None => None,
        }
    } else if v == 3 {
        match parse_opt_str(p, 1) {
            Some(d) => Some(ObjectRecord::OrgUnit(d)),
            None => None,
        }
    } else if v == 4 {
        match parse_opt_str(p, 1) {
            Some(d) => Some(ObjectRecord::System(d)),
            None => None,
        }
    } else if v == 5 {
        match parse_credential(p) {
            Some(c) => Some(ObjectRecord::Credential(c)),
            None => None,
        }
    } else {
        None
    }
}

/// An object: one length-delimited field whose number names the variant.
pub open spec fn parse_object(s: Seq<u8>) -> Option<ObjectRecord> {
    match spec_read_varint(s) {
        Some((k, _)) => if k % 8 == 2 && 1 <= k / 8 <= 5 {
            match spec_read_len_field(s, k / 8) {
                Some((p, r)) => if r.len() == 0 {
                    parse_fields(k / 8, p)
                } else {
                    None
                },
                None => None,
            }
        } else {
            None
        },
        None => None,
    }
}

pub open spec fn parse_op(s: Seq<u8>) -> Option<OpRecord> {
    match spec_read_varint_field(s, 1) {
        Some((t, s1)) => if t != 1 {
            None
        } else {
            match spec_read_len_field(s1, 2) {
                Some((path, s2)) => match spec_read_len_field(s2, 3) {
                    Some((o, s3)) => if s3.len() != 0 || !valid_utf8(path) {
                        None
                    } else {
                        match parse_object(o) {
                            Some(obj) => Some(OpRecord { path: decode_utf8(path), object: obj }),
                            None => None,
                        }
                    },
                    None => None,
                },
                None => None,
            }
        },
        None => None,
    }
}

/// Operations, as long as fields numbered 3 follow: them and what follows.
pub open spec fn parse_ops(s: Seq<u8>) -> Option<(Seq<OpRecord>, Seq<u8>)>
    decreases s.len(),
{
    match spec_read_len_field(s, 3) {
        Some((p, r)) => if r.len() < s.len() {
            match parse_op(p) {
                Some(o) => match parse_ops(r) {
                    Some((os, rest)) => Some((seq![o] + os, rest)),
                    None => None,
                },
                None => None,
            }
        } else {
            None
        },
        None => Some((seq![], s)),
    }
}

pub open spec fn parse_body(s: Seq<u8>) -> Option<BodyRecord> {
    match spec_read_len_field(s, 1) {
        Some((parent, s1)) => match spec_read_varint_field(s1, 2) {
            Some((ts, s2)) => match parse_ops(s2) {
                Some((ops, s3)) => match spec_read_len_field(s3, 4) {
                    Some((c, s4)) => if s4.len() == 0 && valid_utf8(c) {
                        Some(
                            BodyRecord {
                                parent_id: parent,
                                timestamp: ts,
                                ops,
                                comment: decode_utf8(c),
                            },
                        )
                    } else {
                        None
                    },
                    None => None,
                },
                None => None,
            },
            None => None,
        },
        None => None,
    }
}

pub open spec fn parse_signature(s: Seq<u8>) -> Option<SignatureRecord> {
    match spec_read_len_field(s, 1) {
        Some((pk, s1)) => match spec_read_len_field(s1, 2) {
            Some((v, s2)) => if s2.len() == 0 {
                Some(SignatureRecord { public_key: pk, value: v })
            } else {
                None
            },
            None => None,
        },
        None => None,
    }
}

/// Signatures, each a field numbered 1, up to the end.
pub open spec fn parse_signatures(s: Seq<u8>) -> Option<Seq<SignatureRecord>>
    decreases s.len(),
{
    if s.len() == 0 {
        Some(seq![])
    } else {
        match spec_read_len_field(s, 1) {
            Some((p, r)) => if r.len() < s.len() {
                match parse_signature(p) {
                    Some(sig) => match parse_signatures(r) {
                        Some(sigs) => Some(seq![sig] + sigs),
                        None => None,
                    },
                    None => None,
                }
            } else {
                None
            },
            None => None,
        }
    }
}

pub open spec fn parse_block(s: Seq<u8>) -> Option<BlockRecord> {
    match spec_read_len_field(s, 1) {
        Some((b, s1)) => match spec_read_len_field(s1, 2) {
            Some((w, s2)) => if s2.len() != 0 {
                None
            } else {
                match parse_body(b) {
                    Some(body) => match parse_signatures(w) {
                        Some(sigs) => Some(BlockRecord { body, signatures: sigs }),
                        None => None,
                    },
                    None => None,
                }
            },
            None => None,
        },
        None => None,
    }
}

/// A length-delimited field cannot be read as a field of another number.
proof fn lemma_read_len_field_other(f: nat, g: nat, p: Seq<u8>, rest: Seq<u8>)
    requires
        f != g,
    ensures
        spec_read_len_field(spec_len_field(f, p) + rest, g).is_none(),
{
    let after_key = spec_varint(p.len()) + (p + rest);
    lemma_read_varint(f * 8 + WIRE_LEN as nat, after_key);
    assert(spec_len_field(f, p) + rest =~= spec_key(f, WIRE_LEN as nat) + after_key);
}

proof fn lemma_len_field_nonempty(f: nat, p: Seq<u8>)
    ensures
        spec_len_field(f, p).len() > 0,
{
    assert(spec_varint(f * 8 + WIRE_LEN as nat).len() > 0);
}

proof fn lemma_parse_opt_str(f: nat, s: Option<Seq<char>>)
    ensures
        parse_opt_str(spec_opt_str_field(f, s), f) == Some(s),
{
    if let Some(v) = s {
        encode_utf8_valid_utf8(v);
        encode_utf8_decode_utf8(v);
        lemma_read_len_field(f, utf8(v), seq![]);
        assert(spec_len_field(f, utf8(v)) + seq![] =~= spec_len_field(f, utf8(v)));
        lemma_len_field_nonempty(f, utf8(v));
    }
}

proof fn lemma_parse_credential_times(c: CredentialEntry)
    ensures
        parse_credential_times(
            spec_varint_field(6, c.created_at as nat) + (spec_varint_field(7, c.expires_at as nat)
                + spec_opt_str_field(8, opt_view(c.description))),
            c.sealed_keypair@,
            c.salt@,
            c.public_key@,
        ) == Some(credential_record(c)),
{
    let f7 = spec_varint_field(7, c.expires_at as nat);
    let f8 = spec_opt_str_field(8, opt_view(c.description));
    lemma_read_varint_field(6, c.created_at as nat, f7 + f8);
    lemma_read_varint_field(7, c.expires_at as nat, f8);
    lemma_parse_opt_str(8, opt_view(c.description));
}

proof fn lemma_parse_credential_keys(c: CredentialEntry)
    ensures
        parse_credential_keys(
            spec_len_field(3, c.sealed_keypair@) + (spec_len_field(4, c.salt@) + (spec_len_field(
                5,
                c.public_key@,
            ) + (spec_varint_field(6, c.created_at as nat) + (spec_varint_field(
                7,
                c.expires_at as nat,
            ) + spec_opt_str_field(8, opt_view(c.description)))))),
        ) == Some(credential_record(c)),
{
    let f4 = spec_len_field(4, c.salt@);
    let f5 = spec_len_field(5, c.public_key@);
    let s5 = spec_varint_field(6, c.created_at as nat) + (spec_varint_field(7, c.expires_at as nat)
        + spec_opt_str_field(8, opt_view(c.description)));
    lemma_read_len_field(3, c.sealed_keypair@, f4 + (f5 + s5));
    lemma_read_len_field(4, c.salt@, f5 + s5);
    lemma_read_len_field(5, c.public_key@, s5);
    lemma_parse_credential_times(c);
}

proof fn lemma_parse_credential(c: CredentialEntry)
    ensures
        parse_credential(spec_encode_credential(c)) == Some(credential_record(c)),
{
    let f1 = spec_varint_field(1, 1);
    let f2 = spec_varint_field(2, 1);
    let s2 = spec_len_field(3, c.sealed_keypair@) + (spec_len_field(4, c.salt@) + (spec_len_field(
        5,
        c.public_key@,
    ) + (spec_varint_field(6, c.created_at as nat) + (spec_varint_field(7, c.expires_at as nat)
        + spec_opt_str_field(8, opt_view(c.description))))));
    lemma_read_varint_field(1, 1, f2 + s2);
    lemma_read_varint_field(2, 1, s2);
    lemma_parse_credential_keys(c);
}

/// An object's encoding parses back to its record.
pub proof fn lemma_parse_object(o: Object)
    ensures
        parse_object(spec_encode_object(o)) == Some(object_record(o)),
{
    let v = variant_field(o);
    let p = spec_encode_fields(o);
    let s = spec_encode_object(o);
    lemma_read_len_field(v, p, seq![]);
    assert(s + seq![] =~= s);
    let after_key = spec_varint(p.len()) + p;
    lemma_read_varint(v * 8 + WIRE_LEN as nat, after_key);
    assert(s =~= spec_key(v, WIRE_LEN as nat) + after_key);
    assert((v * 8 + 2) % 8 == 2 && (v * 8 + 2) / 8 == v) by (nonlinear_arith)
        requires
            1 <= v <= 5,
    ;
    match o {
        Object::Root(r) => {
            lemma_read_varint_field(1, 1, seq![]);
            assert(spec_varint_field(1, 1) + seq![] =~= spec_varint_field(1, 1));
        },
        Object::Domain(d) => {
            lemma_parse_opt_str(1, opt_view(d.description));
        },
        Object::OrgUnit(u) => {
            lemma_parse_opt_str(1, opt_view(u.description));
        },
        Object::System(sy) => {
            lemma_parse_opt_str(1, sy.spec_username());
        },
        Object::Credential(c) => {
            lemma_parse_credential(c);
        },
    }
}

/// An operation's encoding parses back to its record.
pub proof fn lemma_parse_op(op: Op)
    ensures
        parse_op(spec_encode_op(op)) == Some(op_record(op)),
{
    let f1 = spec_varint_field(1, 1);
    let f2 = spec_len_field(2, utf8(op.path@));
    let f3 = spec_len_field(3, spec_encode_object(op.objectclass));
    lemma_read_varint_field(1, 1, f2 + f3);
    lemma_read_len_field(2, utf8(op.path@), f3);
    encode_utf8_valid_utf8(op.path@);
    encode_utf8_decode_utf8(op.path@);
    lemma_read_len_field(3, spec_encode_object(op.objectclass), seq![]);
    assert(f3 + seq![] =~= f3);
    lemma_parse_object(op.objectclass);
}

proof fn lemma_encode_ops_front(ops: Seq<Op>)
    requires
        ops.len() > 0,
    ensures
        spec_encode_ops(ops) == spec_len_field(3, spec_encode_op(ops[0])) + spec_encode_ops(
            ops.drop_first(),
        ),
    decreases ops.len(),
{
    if ops.len() == 1 {
        assert(ops.drop_last() =~= Seq::<Op>::empty());
        assert(ops.drop_first() =~= Seq::<Op>::empty());
        assert(ops.last() == ops[0]);
        assert(spec_encode_ops(ops.drop_last()) =~= Seq::<u8>::empty());
        assert(spec_encode_ops(ops.drop_first()) =~= Seq::<u8>::empty());
        assert(spec_encode_ops(ops) =~= spec_len_field(3, spec_encode_op(ops[0])));
    } else {
        lemma_encode_ops_front(ops.drop_last());
        assert(ops.drop_last().drop_first() =~= ops.drop_first().drop_last());
        assert(ops.drop_first().last() == ops.last());
        assert(ops.drop_last()[0] == ops[0]);
    }
}

/// Encoded operations followed by anything but another operation parse
/// back to their records.
#[verifier::rlimit(100)]
proof fn lemma_parse_ops(ops: Seq<Op>, tail: Seq<u8>)
    requires
        spec_read_len_field(tail, 3).is_none(),
    ensures
        parse_ops(spec_encode_ops(ops) + tail) == Some(
            (ops.map_values(|o: Op| op_record(o)), tail),
        ),
    decreases ops.len(),
{
    if ops.len() == 0 {
        assert(spec_encode_ops(ops) + tail =~= tail);
        assert(ops.map_values(|o: Op| op_record(o)) =~= Seq::<OpRecord>::empty());
    } else {
        lemma_encode_ops_front(ops);
        let head = spec_len_field(3, spec_encode_op(ops[0]));
        let rest = spec_encode_ops(ops.drop_first()) + tail;
        assert(spec_encode_ops(ops) + tail =~= head + rest);
        lemma_read_len_field(3, spec_encode_op(ops[0]), rest);
        lemma_len_field_nonempty(3, spec_encode_op(ops[0]));
        lemma_parse_op(ops[0]);
        lemma_parse_ops(ops.drop_first(), tail);
        let s = head + rest;
        assert(spec_read_len_field(s, 3) == Some((spec_encode_op(ops[0]), rest)));
        assert(parse_ops(s) == match parse_ops(rest) {
            Some((os, r)) => Some((seq![op_record(ops[0])] + os, r)),
            None => None,
        });
        assert(seq![op_record(ops[0])] + ops.drop_first().map_values(|o: Op| op_record(o))
            =~= ops.map_values(|o: Op| op_record(o)));
    }
}

/// A body's encoding parses back to its record.
pub proof fn lemma_parse_body(b: Body)
    ensures
        parse_body(spec_encode_body(b)) == Some(body_record(b)),
{
    let f1 = spec_len_field(1, b.parent_id@);
    let f2 = spec_varint_field(2, b.timestamp as nat);
    let fo = spec_encode_ops(b.ops@);
    let f4 = spec_len_field(4, utf8(b.comment@));
    lemma_read_len_field(1, b.parent_id@, f2 + (fo + f4));
    lemma_read_varint_field(2, b.timestamp as nat, fo + f4);
    lemma_read_len_field_other(4, 3, utf8(b.comment@), seq![]);
    assert(f4 + seq![] =~= f4);
    lemma_parse_ops(b.ops@, f4);
    lemma_read_len_field(4, utf8(b.comment@), seq![]);
    encode_utf8_valid_utf8(b.comment@);
    encode_utf8_decode_utf8(b.comment@);
}

proof fn lemma_encode_signatures_front(sigs: Seq<Signature>)
    requires
        sigs.len() > 0,
    ensures
        spec_encode_signatures(sigs) == spec_len_field(1, spec_encode_signature(sigs[0]))
            + spec_encode_signatures(sigs.drop_first()),
    decreases sigs.len(),
{
    if sigs.len() == 1 {
        assert(sigs.drop_last() =~= Seq::<Signature>::empty());
        assert(sigs.drop_first() =~= Seq::<Signature>::empty());
        assert(sigs.last() == sigs[0]);
        assert(spec_encode_signatures(sigs.drop_last()) =~= Seq::<u8>::empty());
        assert(spec_encode_signatures(sigs.drop_first()) =~= Seq::<u8>::empty());
        assert(spec_encode_signatures(sigs) =~= spec_len_field(1, spec_encode_signature(sigs[0])));
    } else {
        lemma_encode_signatures_front(sigs.drop_last());
        assert(sigs.drop_last().drop_first() =~= sigs.drop_first().drop_last());
        assert(sigs.drop_first().last() == sigs.last());
        assert(sigs.drop_last()[0] == sigs[0]);
    }
}

proof fn lemma_parse_signatures(sigs: Seq<Signature>)
    ensures
        parse_signatures(spec_encode_signatures(sigs)) == Some(
            sigs.map_values(|s: Signature| signature_record(s)),
        ),
    decreases sigs.len(),
{
    if sigs.len() == 0 {
        assert(sigs.map_values(|s: Signature| signature_record(s)) =~= Seq::<SignatureRecord>::empty());
    } else {
        lemma_encode_signatures_front(sigs);
        let sig = sigs[0];
        let head = spec_len_field(1, spec_encode_signature(sig));
        let rest = spec_encode_signatures(sigs.drop_first());
        lemma_read_len_field(1, spec_encode_signature(sig), rest);
        lemma_len_field_nonempty(1, spec_encode_signature(sig));
        let g1 = spec_len_field(1, sig.public_key@);
        let g2 = spec_len_field(2, sig.value@);
        assert(spec_encode_signature(sig) =~= g1 + g2);
        lemma_read_len_field(1, sig.public_key@, g2);
        lemma_read_len_field(2, sig.value@, seq![]);
        assert(g2 + seq![] =~= g2);
        lemma_parse_signatures(sigs.drop_first());
        assert(seq![signature_record(sig)] + sigs.drop_first().map_values(
            |s: Signature| signature_record(s),
        ) =~= sigs.map_values(|s: Signature| signature_record(s)));
    }
}

/// A block's encoding parses back to its record.
pub proof fn lemma_parse_block(b: Block)
    ensures
        parse_block(spec_encode_block(b)) == Some(block_record(b)),
{
    let eb = spec_encode_body(b.body);
    let ew = spec_encode_signatures(b.witness.signatures@);
    let f2 = spec_len_field(2, ew);
    lemma_read_len_field(1, eb, f2);
    lemma_read_len_field(2, ew, seq![]);
    assert(f2 + seq![] =~= f2);
    lemma_parse_body(b.body);
    lemma_parse_signatures(b.witness.signatures@);
}

/// Reads a varint at `pos`: its value and the position after it. Values
/// past `u64` are refused.
pub fn read_varint(data: &[u8], pos: usize) -> (r: Option<(u64, usize)>)
    requires
        pos <= data@.len(),
    ensures
        r matches Some((v, next)) ==> pos < next <= data@.len() && spec_read_varint(
            data@.subrange(pos as int, data@.len() as int),
        ) == Some((v as nat, data@.subrange(next as int, data@.len() as int))),
        (spec_read_varint(data@.subrange(pos as int, data@.len() as int)) matches Some((v, _))
            && v <= u64::MAX) ==> r.is_some(),
    decreases data@.len() - pos,
{
    let ghost s = data@.subrange(pos as int, data@.len() as int);
    if pos >= data.len() {
        return None;
    }
    let b = data[pos];
    assert(s[0] == b);
    assert(s.drop_first() =~= data@.subrange(pos + 1, data@.len() as int));
    if b < 128 {
        Some((b as u64, pos + 1))
    } else {
        let lo: u64 = (b - 128) as u64;
        match read_varint(data, pos + 1) {
            Some((v, next)) => {
                if v > (u64::MAX - lo) / 128 {
                    proof {
                        assert(lo + 128 * v > u64::MAX) by (nonlinear_arith)
                            requires
                                v > (u64::MAX - lo) / 128,
                                lo < 128,
                        ;
                    }
                    None
                } else {
                    proof {
                        assert(lo + 128 * v <= u64::MAX) by (nonlinear_arith)
                            requires
                                v <= (u64::MAX - lo) / 128,
                                lo < 128,
                        ;
                    }
                    Some((lo + 128 * v, next))
                }
            },
            None => {
                proof {
                    if let Some((w, _)) = spec_read_varint(s.drop_first()) {
                        if w <= u64::MAX {
                        } else {
                            assert(lo + 128 * w > u64::MAX) by (nonlinear_arith)
                                requires
                                    w > u64::MAX,
                            ;
                        }
                    }
                }
                None
            },
        }
    }
}

/// Reads the key of field `f` with wire type `w` at `pos`: the position
/// after it.
pub fn read_key(data: &[u8], pos: usize, f: u64, w: u64) -> (r: Option<usize>)
    requires
        pos <= data@.len(),
        f < 0x1000_0000,
        w < 8,
    ensures
        r matches Some(next) ==> pos < next <= data@.len() && spec_read_key(
            data@.subrange(pos as int, data@.len() as int),
            f as nat,
            w as nat,
        ) == Some(data@.subrange(next as int, data@.len() as int)),
        r.is_none() ==> spec_read_key(
            data@.subrange(pos as int, data@.len() as int),
            f as nat,
            w as nat,
        ).is_none(),
{
    match read_varint(data, pos) {
        Some((k, next)) => if k == f * 8 + w {
            Some(next)
        } else {
            None
        },
        None => None,
    }
}

/// Reads varint field `f` at `pos`: its value and the position after it.
pub fn read_varint_field(data: &[u8], pos: usize, f: u64) -> (r: Option<(u64, usize)>)
    requires
        pos <= data@.len(),
        f < 0x1000_0000,
    ensures
        r matches Some((v, next)) ==> next <= data@.len() && spec_read_varint_field(
            data@.subrange(pos as int, data@.len() as int),
            f as nat,
        ) == Some((v as nat, data@.subrange(next as int, data@.len() as int))),
        (spec_read_varint_field(data@.subrange(pos as int, data@.len() as int), f as nat) matches Some(
            (v, _),
        ) && v <= u64::MAX) ==> r.is_some(),
{
    match read_key(data, pos, f, WIRE_VARINT) {
        Some(next) => read_varint(data, next),
        None => None,
    }
}

/// Reads length-delimited field `f` at `pos`: where its payload starts and
/// ends.
pub fn read_len_field(data: &[u8], pos: usize, f: u64) -> (r: Option<(usize, usize)>)
    requires
        pos <= data@.len(),
        f < 0x1000_0000,
    ensures
        r matches Some((start, end)) ==> pos < start <= end <= data@.len() && spec_read_len_field(
            data@.subrange(pos as int, data@.len() as int),
            f as nat,
        ) == Some(
            (
                data@.subrange(start as int, end as int),
                data@.subrange(end as int, data@.len() as int),
            ),
        ),
        r.is_none() ==> spec_read_len_field(
            data@.subrange(pos as int, data@.len() as int),
            f as nat,
        ).is_none(),
{
    let dl = data.len();
    match read_key(data, pos, f, WIRE_LEN) {
        Some(next) => {
            let ghost r2 = data@.subrange(next as int, data@.len() as int);
            match read_varint(data, next) {
                Some((n, start)) => {
                    let ghost r3 = data@.subrange(start as int, data@.len() as int);
                    assert(r3.len() == dl - start);
                    assert(spec_read_varint(r2) == Some((n as nat, r3)));
                    if n <= (dl - start) as u64 {
                        let end = start + n as usize;
                        assert(r3.subrange(0, n as int) =~= data@.subrange(start as int, end as int));
                        assert(r3.subrange(n as int, r3.len() as int) =~= data@.subrange(
                            end as int,
                            data@.len() as int,
                        ));
                        Some((start, end))
                    } else {
                        None
                    }
                },
                None => {
                    proof {
                        if let Some((n, _)) = spec_read_varint(r2) {
                            lemma_read_varint_shorter(r2);
                            assert(r2.len() <= dl);
                            assert(n > u64::MAX);
                        }
                    }
                    None
                },
            }
        },
        None => None,
    }
}


pub open spec fn cred_ok(c: CredentialRecord) -> bool {
    &&& c.created_at <= u64::MAX
    &&& c.expires_at <= u64::MAX
}

pub open spec fn object_text_ok(o: ObjectRecord) -> bool {
    match o {
        ObjectRecord::Root => true,
        ObjectRecord::Domain(_) => true,
        ObjectRecord::OrgUnit(_) => true,
        ObjectRecord::System(_) => true,
        ObjectRecord::Credential(c) => cred_ok(c),
    }
}

/// The record's path is a valid path, and its times fit in 64 bits.
pub open spec fn op_text_ok(o: OpRecord) -> bool {
    &&& valid_path(o.path)
    &&& object_text_ok(o.object)
}

pub open spec fn ops_text_ok(ops: Seq<OpRecord>) -> bool {
    forall|i: int| 0 <= i < ops.len() ==> op_text_ok(#[trigger] ops[i])
}

/// What a decoder needs beyond the structure: valid paths, times that fit
/// in 64 bits, and a 32-byte parent identifier.
pub open spec fn body_text_ok(b: BodyRecord) -> bool {
    &&& b.parent_id.len() == 32
    &&& b.timestamp <= u64::MAX
    &&& ops_text_ok(b.ops)
}

/// Relies on String::from_utf8: it accepts exactly the valid UTF-8 byte
/// strings, and gives the characters they encode.
#[verifier::external_body]
fn string_from_utf8(b: Vec<u8>) -> (r: Option<String>)
    ensures
        r.is_some() == valid_utf8(b@),
        r matches Some(s) ==> s@ == decode_utf8(b@),
{
    String::from_utf8(b).ok()
}

/// The bytes of `data` from `from` up to `to`.
fn copy_range(data: &[u8], from: usize, to: usize) -> (r: Vec<u8>)
    requires
        from <= to <= data@.len(),
    ensures
        r@ == data@.subrange(from as int, to as int),
{
    let mut out: Vec<u8> = Vec::new();
    let mut i: usize = from;
    while i < to
        invariant
            from <= i <= to,
            to <= data@.len(),
            out@ == data@.subrange(from as int, i as int),
        decreases to - i,
    {
        out.push(data[i]);
        assert(data@.subrange(from as int, i + 1) =~= data@.subrange(from as int, i as int).push(
            data@[i as int],
        ));
        i = i + 1;
    }
    out
}

fn decode_text(data: &[u8], from: usize, to: usize) -> (r: Option<String>)
    requires
        from <= to <= data@.len(),
    ensures
        r.is_some() == valid_utf8(data@.subrange(from as int, to as int)),
        r matches Some(s) ==> s@ == decode_utf8(data@.subrange(from as int, to as int)),
{
    let b = copy_range(data, from, to);
    string_from_utf8(b)
}

/// An optional text field `f` that ends the message at `pos`.
fn decode_opt_str(data: &[u8], pos: usize, f: u64) -> (r: Option<Option<String>>)
    requires
        pos <= data@.len(),
        f < 0x1000_0000,
    ensures
        r matches Some(d) ==> parse_opt_str(data@.subrange(pos as int, data@.len() as int), f as nat)
            == Some(opt_view(d)),
        parse_opt_str(data@.subrange(pos as int, data@.len() as int), f as nat).is_some()
            ==> r.is_some(),
{
    if pos == data.len() {
        assert(data@.subrange(pos as int, data@.len() as int).len() == 0);
        return Some(None);
    }
    match read_len_field(data, pos, f) {
        Some((start, end)) => {
            if end != data.len() {
                return None;
            }
            match decode_text(data, start, end) {
                Some(s) => Some(Some(s)),
                None => None,
            }
        },
        None => None,
    }
}

/// The credential encoded in the whole of `data`.
#[verifier::rlimit(100)]
fn decode_credential(data: &[u8]) -> (r: Option<CredentialEntry>)
    ensures
        r matches Some(c) ==> parse_credential(data@) == Some(credential_record(c)),
        (parse_credential(data@) matches Some(c) && cred_ok(c)) ==> r.is_some(),
{
    let ghost s = data@;
    assert(data@.subrange(0, data@.len() as int) =~= data@);
    let (a, p1) = match read_varint_field(data, 0, 1) {
        Some(x) => x,
        None => {
            return None;
        },
    };
    if a != 1 {
        return None;
    }
    let (e, p2) = match read_varint_field(data, p1, 2) {
        Some(x) => x,
        None => {
            return None;
        },
    };
    if e != 1 {
        return None;
    }
    let (s3, e3) = match read_len_field(data, p2, 3) {
        Some(x) => x,
        None => {
            return None;
        },
    };
    let (s4, e4) = match read_len_field(data, e3, 4) {
        Some(x) => x,
        None => {
            return None;
        },
    };
    let (s5, e5) = match read_len_field(data, e4, 5) {
        Some(x) => x,
        None => {
            return None;
        },
    };
    let (created, p6) = match read_varint_field(data, e5, 6) {
        Some(x) => x,
        None => {
            proof {
                if let Some((c, _)) = spec_read_varint_field(
                    data@.subrange(e5 as int, data@.len() as int),
                    6,
                ) {
                    assert(c > u64::MAX);
                }
            }
            return None;
        },
    };
    let (expires, p7) = match read_varint_field(data, p6, 7) {
        Some(x) => x,
        None => {
            proof {
                if let Some((c, _)) = spec_read_varint_field(
                    data@.subrange(p6 as int, data@.len() as int),
                    7,
                ) {
                    assert(c > u64::MAX);
                }
            }
            return None;
        },
    };
    let description = match decode_opt_str(data, p7, 8) {
        Some(d) => d,
        None => {
            return None;
        },
    };
    let c = CredentialEntry {
        signature_alg: crate::object::SignatureAlgorithm::Ed25519,
        encryption_alg: crate::object::EncryptionAlg::Aes256Gcm,
        sealed_keypair: copy_range(data, s3, e3),
        salt: copy_range(data, s4, e4),
        public_key: copy_range(data, s5, e5),
        created_at: created,
        expires_at: expires,
        description,
    };
    assert(opt_view(c.description) == opt_view(description));
    Some(c)
}


/// Objects with the same record have the same encoding and digest.
pub proof fn lemma_object_record_determines(x: Object, y: Object)
    requires
        object_record(x) == object_record(y),
    ensures
        spec_encode_object(x) == spec_encode_object(y),
        spec_hash_object(x) == spec_hash_object(y),
{
    match (x, y) {
        (Object::Domain(a), Object::Domain(b)) => {
        },
        (Object::OrgUnit(a), Object::OrgUnit(b)) => {
        },
        (Object::System(a), Object::System(b)) => {
        },
        (Object::Credential(a), Object::Credential(b)) => {
        },
        _ => {},
    }
}

/// Operations with the same record have the same encoding and digest.
pub proof fn lemma_op_record_determines(x: Op, y: Op)
    requires
        op_record(x) == op_record(y),
    ensures
        spec_encode_op(x) == spec_encode_op(y),
        spec_hash_op(x) == spec_hash_op(y),
{
    lemma_object_record_determines(x.objectclass, y.objectclass);
}

proof fn lemma_ops_record_determines(a: Seq<Op>, b: Seq<Op>)
    requires
        op_records(a) == op_records(b),
    ensures
        spec_encode_ops(a) == spec_encode_ops(b),
        a.map_values(|o: Op| spec_hash_op(o)) == b.map_values(|o: Op| spec_hash_op(o)),
    decreases a.len(),
{
    assert(op_records(a).len() == a.len() && op_records(b).len() == b.len());
    assert forall|i: int| 0 <= i < a.len() implies spec_encode_op(#[trigger] a[i])
        == spec_encode_op(b[i]) && spec_hash_op(a[i]) == spec_hash_op(b[i]) by {
        assert(op_records(a)[i] == op_records(b)[i]);
        assert(op_records(a)[i] == op_record(a[i]));
        assert(op_records(b)[i] == op_record(b[i]));
        lemma_op_record_determines(a[i], b[i]);
    }
    assert(a.map_values(|o: Op| spec_hash_op(o)) =~= b.map_values(|o: Op| spec_hash_op(o)));
    if a.len() > 0 {
        assert(op_records(a.drop_last()) =~= op_records(a).drop_last());
        assert(op_records(b.drop_last()) =~= op_records(b).drop_last());
        lemma_ops_record_determines(a.drop_last(), b.drop_last());
        assert(spec_encode_op(a[a.len() - 1]) == spec_encode_op(b[b.len() - 1]));
    }
}

/// Bodies with the same record have the same canonical encoding and the
/// same digest: a decoded body is, to the chain, the body that was encoded.
pub proof fn lemma_body_record_determines(a: Body, b: Body)
    requires
        body_record(a) == body_record(b),
    ensures
        spec_encode_body(a) == spec_encode_body(b),
        spec_hash_body(a) == spec_hash_body(b),
{
    assert(body_record(a).ops == op_records(a.ops@));
    assert(body_record(b).ops == op_records(b.ops@));
    lemma_ops_record_determines(a.ops@, b.ops@);
}

/// Two bodies agree field by field: parent, time, comment, and each
/// operation's type, path and object fields.
pub open spec fn body_fields_equal(a: Body, b: Body) -> bool {
    &&& a.parent_id@ == b.parent_id@
    &&& a.timestamp == b.timestamp
    &&& a.comment@ == b.comment@
    &&& a.ops@.len() == b.ops@.len()
    &&& forall|i: int|
        0 <= i < a.ops@.len() ==> (#[trigger] a.ops@[i]).optype == b.ops@[i].optype
            && a.ops@[i].path@ == b.ops@[i].path@ && object_record(a.ops@[i].objectclass)
            == object_record(b.ops@[i].objectclass)
}

/// Bodies with the same record agree field by field.
pub proof fn lemma_record_fields(a: Body, b: Body)
    requires
        body_record(a) == body_record(b),
    ensures
        body_fields_equal(a, b),
{
    let ra = op_records(a.ops@);
    let rb = op_records(b.ops@);
    assert(body_record(a).ops == ra && body_record(b).ops == rb);
    assert(ra.len() == a.ops@.len() && rb.len() == b.ops@.len());
    assert forall|i: int| 0 <= i < a.ops@.len() implies (#[trigger] a.ops@[i]).optype
        == b.ops@[i].optype && a.ops@[i].path@ == b.ops@[i].path@ && object_record(
        a.ops@[i].objectclass,
    ) == object_record(b.ops@[i].objectclass) by {
        assert(ra[i] == rb[i]);
        assert(ra[i] == op_record(a.ops@[i]));
        assert(rb[i] == op_record(b.ops@[i]));
    }
}

proof fn lemma_object_text_ok(o: Object)
    ensures
        object_text_ok(object_record(o)),
{
}

/// The record of a body whose operations name valid paths meets what a
/// decoder needs.
pub proof fn lemma_body_text_ok(b: Body)
    requires
        crate::block::ops_valid(b.ops@),
    ensures
        body_text_ok(body_record(b)),
{
    b.parent_id.lemma_len();
    let recs = b.ops@.map_values(|o: Op| op_record(o));
    assert forall|i: int| 0 <= i < recs.len() implies op_text_ok(#[trigger] recs[i]) by {
        let op = b.ops@[i];
        assert(recs[i] == op_record(op));
        assert(valid_path(op.path@));
        assert(op.path@ == recs[i].path);
        lemma_object_text_ok(op.objectclass);
    }
}

fn decode_object(data: &[u8]) -> (r: Option<Object>)
    ensures
        r matches Some(o) ==> parse_object(data@) == Some(object_record(o)),
        (parse_object(data@) matches Some(rec) && object_text_ok(rec)) ==> r.is_some(),
{
    let ghost s = data@;
    assert(data@.subrange(0, data@.len() as int) =~= data@);
    let k = match read_varint(data, 0) {
        Some((k, _)) => k,
        None => {
            return None;
        },
    };
    if k % 8 != 2 || k / 8 < 1 || k / 8 > 5 {
        return None;
    }
    let f = k / 8;
    let (start, end) = match read_len_field(data, 0, f) {
        Some(x) => x,
        None => {
            return None;
        },
    };
    if end != data.len() {
        return None;
    }
    let p = copy_range(data, start, end);
    assert(p@.subrange(0, p@.len() as int) =~= p@);
    if f == 1 {
        match read_varint_field(p.as_slice(), 0, 1) {
            Some((a, n)) => {
                if a == 1 && n == p.len() {
                    Some(Object::Root(RootEntry { digest_alg: DigestAlgorithm::Sha256 }))
                } else {
                    None
                }
            },
            None => None,
        }
    } else if f == 5 {
        match decode_credential(p.as_slice()) {
            Some(c) => Some(Object::Credential(c)),
            None => None,
        }
    } else {
        let d = match decode_opt_str(p.as_slice(), 0, 1) {
            Some(d) => d,
            None => {
                return None;
            },
        };
        if f == 2 {
            let o = Object::Domain(DomainEntry { description: d });
            Some(o)
        } else if f == 3 {
            let o = Object::OrgUnit(OrgUnitEntry { description: d });
            Some(o)
        } else {
            let mut sys = System::new();
            match d {
                Some(u) => {
                    sys.set_username(u);
                },
                None => {},
            }
            Some(Object::System(sys))
        }
    }
}

fn decode_op(data: &[u8]) -> (r: Option<Op>)
    ensures
        r matches Some(o) ==> valid_path(o.path@) && parse_op(data@) == Some(op_record(o)),
        (parse_op(data@) matches Some(rec) && op_text_ok(rec)) ==> r.is_some(),
{
    assert(data@.subrange(0, data@.len() as int) =~= data@);
    let (t, p1) = match read_varint_field(data, 0, 1) {
        Some(x) => x,
        None => {
            return None;
        },
    };
    if t != 1 {
        return None;
    }
    let (ps, pe) = match read_len_field(data, p1, 2) {
        Some(x) => x,
        None => {
            return None;
        },
    };
    let (os, oe) = match read_len_field(data, pe, 3) {
        Some(x) => x,
        None => {
            return None;
        },
    };
    if oe != data.len() {
        return None;
    }
    let text = match decode_text(data, ps, pe) {
        Some(t) => t,
        None => {
            return None;
        },
    };
    let path = match Path::new(text.as_str()) {
        Some(p) => p,
        None => {
            proof {
                if let Some(rec) = parse_op(data@) {
                    if op_text_ok(rec) {
                        assert(text@ == rec.path);
                    }
                }
            }
            return None;
        },
    };
    let ob = copy_range(data, os, oe);
    let object = match decode_object(ob.as_slice()) {
        Some(o) => o,
        None => {
            return None;
        },
    };
    Some(Op { optype: Type::Add, path: path.to_path_buf(), objectclass: object })
}

fn decode_signature(data: &[u8]) -> (r: Option<Signature>)
    ensures
        r matches Some(sig) ==> parse_signature(data@) == Some(signature_record(sig)),
        parse_signature(data@).is_some() ==> r.is_some(),
{
    assert(data@.subrange(0, data@.len() as int) =~= data@);
    let (ks, ke) = match read_len_field(data, 0, 1) {
        Some(x) => x,
        None => {
            return None;
        },
    };
    let (vs, ve) = match read_len_field(data, ke, 2) {
        Some(x) => x,
        None => {
            return None;
        },
    };
    if ve != data.len() {
        return None;
    }
    Some(Signature { public_key: copy_range(data, ks, ke), value: copy_range(data, vs, ve) })
}

pub open spec fn sig_records(sigs: Seq<Signature>) -> Seq<SignatureRecord> {
    sigs.map_values(|s: Signature| signature_record(s))
}

pub open spec fn op_records(ops: Seq<Op>) -> Seq<OpRecord> {
    ops.map_values(|o: Op| op_record(o))
}

fn decode_signatures(data: &[u8]) -> (r: Option<Vec<Signature>>)
    ensures
        r matches Some(sigs) ==> parse_signatures(data@) == Some(sig_records(sigs@)),
        parse_signatures(data@).is_some() ==> r.is_some(),
{
    let mut sigs: Vec<Signature> = Vec::new();
    let mut pos: usize = 0;
    assert(data@.subrange(0, data@.len() as int) =~= data@);
    assert(sig_records(sigs@) =~= Seq::<SignatureRecord>::empty());
    while pos < data.len()
        invariant
            pos <= data@.len(),
            parse_signatures(data@) == match parse_signatures(
                data@.subrange(pos as int, data@.len() as int),
            ) {
                Some(rest) => Some(sig_records(sigs@) + rest),
                None => None::<Seq<SignatureRecord>>,
            },
        decreases data@.len() - pos,
    {
        let ghost sub = data@.subrange(pos as int, data@.len() as int);
        let (s, e) = match read_len_field(data, pos, 1) {
            Some(x) => x,
            None => {
                return None;
            },
        };
        let pb = copy_range(data, s, e);
        let sig = match decode_signature(pb.as_slice()) {
            Some(x) => x,
            None => {
                return None;
            },
        };
        let ghost before = sigs@;
        sigs.push(sig);
        proof {
            assert(sig_records(sigs@) =~= sig_records(before).push(signature_record(sig)));
            let rest = data@.subrange(e as int, data@.len() as int);
            assert(rest.len() < sub.len());
            match parse_signatures(rest) {
                Some(rs) => {
                    assert(seq![signature_record(sig)] + rs == seq![signature_record(sig)] + rs);
                    assert(sig_records(before) + (seq![signature_record(sig)] + rs) =~= sig_records(
                        sigs@,
                    ) + rs);
                },
                None => {},
            }
        }
        pos = e;
    }
    assert(data@.subrange(pos as int, data@.len() as int).len() == 0);
    assert(sig_records(sigs@) + Seq::<SignatureRecord>::empty() =~= sig_records(sigs@));
    Some(sigs)
}

pub open spec fn prepend_ops(
    prefix: Seq<OpRecord>,
    x: Option<(Seq<OpRecord>, Seq<u8>)>,
) -> Option<(Seq<OpRecord>, Seq<u8>)> {
    match x {
        Some((os, r)) => Some((prefix + os, r)),
        None => None,
    }
}

pub open spec fn ops_ok(x: Option<(Seq<OpRecord>, Seq<u8>)>) -> bool {
    x matches Some((os, _)) && ops_text_ok(os)
}

proof fn lemma_parse_ops_step(sub: Seq<u8>, ob: Seq<u8>, rest: Seq<u8>)
    requires
        spec_read_len_field(sub, 3) == Some((ob, rest)),
        rest.len() < sub.len(),
    ensures
        parse_ops(sub) == match parse_op(ob) {
            Some(o) => prepend_ops(seq![o], parse_ops(rest)),
            None => None,
        },
        ops_ok(parse_ops(sub)) ==> (parse_op(ob) matches Some(o) && op_text_ok(o) && ops_ok(
            parse_ops(rest),
        )),
{
    if ops_ok(parse_ops(sub)) {
        let o = parse_op(ob)->Some_0;
        let (rs, _) = parse_ops(rest)->Some_0;
        let os = seq![o] + rs;
        assert(os[0] == o);
        assert forall|i: int| 0 <= i < rs.len() implies op_text_ok(#[trigger] rs[i]) by {
            assert(os[i + 1] == rs[i]);
        }
    }
}

/// Operations, as long as fields numbered 3 follow `start`: them and the
/// position after them.
fn decode_ops(data: &[u8], start: usize) -> (r: Option<(Vec<Op>, usize)>)
    requires
        start <= data@.len(),
    ensures
        r matches Some((ops, next)) ==> next <= data@.len() && crate::block::ops_valid(ops@)
            && parse_ops(data@.subrange(start as int, data@.len() as int)) == Some(
            (op_records(ops@), data@.subrange(next as int, data@.len() as int)),
        ),
        ops_ok(parse_ops(data@.subrange(start as int, data@.len() as int))) ==> r.is_some(),
{
    let ghost start_ops = data@.subrange(start as int, data@.len() as int);
    let mut ops: Vec<Op> = Vec::new();
    let mut pos: usize = start;
    let mut done = false;
    assert(op_records(ops@) =~= Seq::<OpRecord>::empty());
    assert(prepend_ops(Seq::<OpRecord>::empty(), parse_ops(start_ops)) == parse_ops(start_ops)) by {
        if let Some((os, r)) = parse_ops(start_ops) {
            assert(Seq::<OpRecord>::empty() + os =~= os);
        }
    }
    while !done
        invariant
            start <= pos <= data@.len(),
            start_ops == data@.subrange(start as int, data@.len() as int),
            crate::block::ops_valid(ops@),
            parse_ops(start_ops) == prepend_ops(
                op_records(ops@),
                parse_ops(data@.subrange(pos as int, data@.len() as int)),
            ),
            ops_ok(parse_ops(start_ops)) ==> ops_ok(
                parse_ops(data@.subrange(pos as int, data@.len() as int)),
            ),
            done ==> spec_read_len_field(data@.subrange(pos as int, data@.len() as int), 3).is_none(),
        decreases data@.len() - pos + (if done {
            0int
        } else {
            1int
        }),
    {
        let ghost sub = data@.subrange(pos as int, data@.len() as int);
        match read_len_field(data, pos, 3) {
            Some((s, e)) => {
                let ob = copy_range(data, s, e);
                let ghost rest = data@.subrange(e as int, data@.len() as int);
                proof {
                    lemma_parse_ops_step(sub, ob@, rest);
                }
                let obs = ob.as_slice();
                assert(obs@ == ob@);
                let op = match decode_op(obs) {
                    Some(x) => x,
                    None => {
                        proof {
                            if ops_ok(parse_ops(start_ops)) {
                                assert(ops_ok(parse_ops(sub)));
                                let o = parse_op(ob@)->Some_0;
                                assert(op_text_ok(o));
                                assert(parse_op(ob@) == Some(o));
                            }
                        }
                        return None;
                    },
                };
                let ghost before = ops@;
                ops.push(op);
                proof {
                    assert(op_records(ops@) =~= op_records(before).push(op_record(op)));
                    assert forall|i: int| 0 <= i < ops@.len() implies valid_path(
                        (#[trigger] ops@[i]).path@,
                    ) by {
                        if i < before.len() {
                            assert(ops@[i] == before[i]);
                        }
                    }
                    if let Some((rs, r2)) = parse_ops(rest) {
                        assert(op_records(before) + (seq![op_record(op)] + rs) =~= op_records(ops@)
                            + rs);
                    }
                }
                pos = e;
            },
            None => {
                done = true;
            },
        }
    }
    let ghost ops_rest = data@.subrange(pos as int, data@.len() as int);
    assert(parse_ops(ops_rest) == Some((Seq::<OpRecord>::empty(), ops_rest)));
    assert(op_records(ops@) + Seq::<OpRecord>::empty() =~= op_records(ops@));
    Some((ops, pos))
}

impl Body {
    /// Decodes the canonical encoding of a body.
    ///
    /// What it gives parses from the input, and the encoding of any body
    /// whose operations name valid paths decodes to a body equal to it field
    /// by field.
    pub fn decode(data: &[u8]) -> (r: Option<Body>)
        ensures
            r matches Some(b) ==> parse_body(data@) == Some(body_record(b)) && crate::block::ops_valid(b.ops@),
            (parse_body(data@) matches Some(rec) && body_text_ok(rec)) ==> r.is_some(),
            forall|b: Body|
                #![trigger spec_encode_body(b)]
                data@ == spec_encode_body(b) && crate::block::ops_valid(b.ops@) ==> (r matches Some(
                    b2,
                ) && body_fields_equal(b2, b)),
    {
        let r = Body::decode_record(data);
        proof {
            assert forall|b: Body|
                #![trigger spec_encode_body(b)]
                data@ == spec_encode_body(b) && crate::block::ops_valid(b.ops@) implies (r matches Some(
                b2,
            ) && body_fields_equal(b2, b)) by {
                lemma_parse_body(b);
                lemma_body_text_ok(b);
                lemma_record_fields(r->Some_0, b);
            }
        }
        r
    }

    fn decode_record(data: &[u8]) -> (r: Option<Body>)
        ensures
            r matches Some(b) ==> parse_body(data@) == Some(body_record(b)) && crate::block::ops_valid(b.ops@),
            (parse_body(data@) matches Some(rec) && body_text_ok(rec)) ==> r.is_some(),
    {
        assert(data@.subrange(0, data@.len() as int) =~= data@);
        let (ps, pe) = match read_len_field(data, 0, 1) {
            Some(x) => x,
            None => {
                return None;
            },
        };
        let (ts, p2) = match read_varint_field(data, pe, 2) {
            Some(x) => x,
            None => {
                proof {
                    if let Some((v, _)) = spec_read_varint_field(
                        data@.subrange(pe as int, data@.len() as int),
                        2,
                    ) {
                        assert(v > u64::MAX);
                    }
                }
                return None;
            },
        };
        let (ops, pos) = match decode_ops(data, p2) {
            Some(x) => x,
            None => {
                return None;
            },
        };
        let (cs, ce) = match read_len_field(data, pos, 4) {
            Some(x) => x,
            None => {
                return None;
            },
        };
        if ce != data.len() {
            return None;
        }
        let comment = match decode_text(data, cs, ce) {
            Some(c) => c,
            None => {
                return None;
            },
        };
        let parent_bytes = copy_range(data, ps, pe);
        let parent_id = match Id::from_bytes(parent_bytes.as_slice()) {
            Ok(id) => id,
            Err(_) => {
                return None;
            },
        };
        let b = Body { parent_id, timestamp: ts, ops, comment };
        assert(body_record(b).ops =~= op_records(b.ops@));
        Some(b)
    }
}

impl Block {
    /// Decodes the canonical encoding of a block.
    pub fn decode(data: &[u8]) -> (r: Option<Block>)
        ensures
            r matches Some(b) ==> parse_block(data@) == Some(block_record(b)) && crate::block::ops_valid(b.body.ops@),
            (parse_block(data@) matches Some(rec) && body_text_ok(rec.body)) ==> r.is_some(),
            forall|b: Block|
                #![trigger spec_encode_block(b)]
                data@ == spec_encode_block(b) && crate::block::ops_valid(b.body.ops@) ==> (r matches Some(
                    b2,
                ) && body_fields_equal(b2.body, b.body) && b2.witness.signatures@.len()
                    == b.witness.signatures@.len() && forall|i: int|
                    0 <= i < b.witness.signatures@.len() ==> (#[trigger] b2.witness.signatures@[i]).public_key@
                        == b.witness.signatures@[i].public_key@
                        && b2.witness.signatures@[i].value@ == b.witness.signatures@[i].value@),
    {
        let r = Block::decode_record(data);
        proof {
            assert forall|b: Block|
                #![trigger spec_encode_block(b)]
                data@ == spec_encode_block(b) && crate::block::ops_valid(b.body.ops@) implies (r matches Some(
                b2,
            ) && body_fields_equal(b2.body, b.body) && b2.witness.signatures@.len()
                == b.witness.signatures@.len() && forall|i: int|
                0 <= i < b.witness.signatures@.len() ==> (#[trigger] b2.witness.signatures@[i]).public_key@
                    == b.witness.signatures@[i].public_key@
                    && b2.witness.signatures@[i].value@ == b.witness.signatures@[i].value@) by {
                lemma_parse_block(b);
                lemma_body_text_ok(b.body);
                let b2 = r->Some_0;
                lemma_record_fields(b2.body, b.body);
                let s2 = b2.witness.signatures@;
                let s1 = b.witness.signatures@;
                assert(sig_records(s2) == sig_records(s1));
                assert(s2.len() == sig_records(s2).len() && s1.len() == sig_records(s1).len());
                assert forall|i: int| 0 <= i < s1.len() implies (#[trigger] s2[i]).public_key@
                    == s1[i].public_key@ && s2[i].value@ == s1[i].value@ by {
                    assert(sig_records(s2)[i] == sig_records(s1)[i]);
                    assert(sig_records(s2)[i] == signature_record(s2[i]));
                    assert(sig_records(s1)[i] == signature_record(s1[i]));
                }
            }
        }
        r
    }

    fn decode_record(data: &[u8]) -> (r: Option<Block>)
        ensures
            r matches Some(b) ==> parse_block(data@) == Some(block_record(b)) && crate::block::ops_valid(b.body.ops@),
            (parse_block(data@) matches Some(rec) && body_text_ok(rec.body)) ==> r.is_some(),
    {
        assert(data@.subrange(0, data@.len() as int) =~= data@);
        let (bs, be) = match read_len_field(data, 0, 1) {
            Some(x) => x,
            None => {
                return None;
            },
        };
        let (ws, we) = match read_len_field(data, be, 2) {
            Some(x) => x,
            None => {
                return None;
            },
        };
        if we != data.len() {
            return None;
        }
        let bb = copy_range(data, bs, be);
        let body = match Body::decode(bb.as_slice()) {
            Some(b) => b,
            None => {
                return None;
            },
        };
        let wb = copy_range(data, ws, we);
        let signatures = match decode_signatures(wb.as_slice()) {
            Some(s) => s,
            None => {
                return None;
            },
        };
        let b = Block { body, witness: Witness { signatures } };
        assert(block_record(b).signatures =~= sig_records(signatures@));
        Some(b)
    }
}

} // verus!
