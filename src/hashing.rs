//! Canonical digests of structured values.
//!
//! Every value hashes to a 32-byte SHA-256 digest of a one-byte type tag
//! followed by its content. A list's content is the concatenation of its
//! children's digests; a struct's is the concatenation of
//! `H(field name) || H(field value)` pairs in ascending byte order, so that
//! the order in which fields are listed does not matter.
use vstd::prelude::*;
use vstd::relations::*;
use vstd::seq_lib::*;
use vstd::string::*;
use vstd::utf8::encode_utf8;

verus! {

pub const TAG_BOOL: u8 = 0x62;  // 'b'

pub const TAG_UINT: u8 = 0x75;  // 'u'

pub const TAG_STR: u8 = 0x73;  // 's'

pub const TAG_RAW: u8 = 0x72;  // 'r'

pub const TAG_TIME: u8 = 0x64;  // 'd'

pub const TAG_LIST: u8 = 0x6c;  // 'l'

pub const TAG_STRUCT: u8 = 0x6f;  // 'o'

/// Length of every digest.
pub const DIGEST_SIZE: usize = 32;

/// SHA-256 of a byte string.
pub uninterp spec fn sha256(b: Seq<u8>) -> Seq<u8>;

/// The UTF-8 encoding of a string.
pub open spec fn utf8(s: Seq<char>) -> Seq<u8> {
    encode_utf8(s)
}

/// Relies on ring::digest::digest with SHA256: a 32-byte digest that depends
/// on the input bytes alone.
#[verifier::external_body]
fn sha256_digest(data: &[u8]) -> (r: Vec<u8>)
    ensures
        r@ == sha256(data@),
        r@.len() == DIGEST_SIZE,
{
    ring::digest::digest(&ring::digest::SHA256, data).as_ref().to_vec()
}

/// The UTF-8 bytes of `s`.
pub(crate) fn utf8_bytes(s: &str) -> (r: Vec<u8>)
    ensures
        r@ == utf8(s@),
{
    s.as_bytes_vec()
}

/// The digest of a tagged primitive.
pub open spec fn tagged(tag: u8, content: Seq<u8>) -> Seq<u8> {
    sha256(seq![tag] + content)
}

/// The `k` low-order bytes of `n`, most significant first.
pub open spec fn be_bytes(n: nat, k: nat) -> Seq<u8>
    decreases k,
{
    if k == 0 {
        seq![]
    } else {
        be_bytes(n / 256, (k - 1) as nat).push((n % 256) as u8)
    }
}

pub open spec fn spec_hash_u64(n: u64) -> Seq<u8> {
    tagged(TAG_UINT, be_bytes(n as nat, 8))
}

pub open spec fn spec_hash_bool(b: bool) -> Seq<u8> {
    tagged(TAG_BOOL, seq![if b { 1u8 } else { 0u8 }])
}

pub open spec fn spec_hash_str(s: Seq<char>) -> Seq<u8> {
    tagged(TAG_STR, utf8(s))
}

pub open spec fn spec_hash_bytes(b: Seq<u8>) -> Seq<u8> {
    tagged(TAG_RAW, b)
}

/// A point in time, as nanoseconds since the Unix epoch.
pub open spec fn spec_hash_time(nanos: u64) -> Seq<u8> {
    tagged(TAG_TIME, be_bytes(nanos as nat, 8))
}

/// Concatenation of a sequence of byte strings, in order.
pub open spec fn concat_all(s: Seq<Seq<u8>>) -> Seq<u8>
    decreases s.len(),
{
    if s.len() == 0 {
        seq![]
    } else {
        concat_all(s.drop_last()) + s.last()
    }
}

pub open spec fn spec_hash_list(children: Seq<Seq<u8>>) -> Seq<u8> {
    tagged(TAG_LIST, concat_all(children))
}

/// Lexicographic order on byte strings.
pub open spec fn lex_le(a: Seq<u8>, b: Seq<u8>) -> bool
    decreases a.len(),
{
    if a.len() == 0 {
        true
    } else if b.len() == 0 {
        false
    } else if a[0] != b[0] {
        a[0] < b[0]
    } else {
        lex_le(a.drop_first(), b.drop_first())
    }
}

pub open spec fn lex_order() -> spec_fn(Seq<u8>, Seq<u8>) -> bool {
    |a: Seq<u8>, b: Seq<u8>| lex_le(a, b)
}

/// One struct member: the digest of its name followed by that of its value.
pub open spec fn spec_member(name: Seq<char>, value: Seq<u8>) -> Seq<u8> {
    spec_hash_str(name) + value
}

/// The digest of a struct, given its members in any order.
pub open spec fn spec_hash_struct(members: Seq<Seq<u8>>) -> Seq<u8> {
    tagged(TAG_STRUCT, concat_all(members.sort_by(lex_order())))
}

proof fn lemma_lex_reflexive(a: Seq<u8>)
    ensures
        lex_le(a, a),
    decreases a.len(),
{
    if a.len() > 0 {
        lemma_lex_reflexive(a.drop_first());
    }
}

proof fn lemma_lex_antisymmetric(a: Seq<u8>, b: Seq<u8>)
    requires
        lex_le(a, b),
        lex_le(b, a),
    ensures
        a == b,
    decreases a.len(),
{
    if a.len() > 0 && b.len() > 0 {
        lemma_lex_antisymmetric(a.drop_first(), b.drop_first());
        assert(a =~= seq![a[0]] + a.drop_first());
        assert(b =~= seq![b[0]] + b.drop_first());
    } else {
        assert(a.len() == 0 && b.len() == 0);
        assert(a =~= b);
    }
}

proof fn lemma_lex_transitive(a: Seq<u8>, b: Seq<u8>, c: Seq<u8>)
    requires
        lex_le(a, b),
        lex_le(b, c),
    ensures
        lex_le(a, c),
    decreases a.len(),
{
    if a.len() > 0 && b.len() > 0 && c.len() > 0 && a[0] == b[0] && b[0] == c[0] {
        lemma_lex_transitive(a.drop_first(), b.drop_first(), c.drop_first());
    }
}

proof fn lemma_lex_connected(a: Seq<u8>, b: Seq<u8>)
    ensures
        lex_le(a, b) || lex_le(b, a),
    decreases a.len(),
{
    if a.len() > 0 && b.len() > 0 && a[0] == b[0] {
        lemma_lex_connected(a.drop_first(), b.drop_first());
    }
}

/// Lexicographic order is a total order.
pub proof fn lemma_lex_total()
    ensures
        total_ordering(lex_order()),
{
    assert forall|a: Seq<u8>| #[trigger] lex_order()(a, a) by {
        lemma_lex_reflexive(a);
    }
    assert forall|a: Seq<u8>, b: Seq<u8>|
        #[trigger] lex_order()(a, b) && #[trigger] lex_order()(b, a) implies a == b by {
        lemma_lex_antisymmetric(a, b);
    }
    assert forall|a: Seq<u8>, b: Seq<u8>, c: Seq<u8>|
        #[trigger] lex_order()(a, b) && #[trigger] lex_order()(b, c) implies lex_order()(
        a,
        c,
    ) by {
        lemma_lex_transitive(a, b, c);
    }
    assert forall|a: Seq<u8>, b: Seq<u8>|
        #[trigger] lex_order()(a, b) || #[trigger] lex_order()(b, a) by {
        lemma_lex_connected(a, b);
    }
}

/// A struct's digest does not depend on the order in which its members are
/// given: any two member lists holding the same members hash alike.
pub proof fn lemma_struct_order_independent(m1: Seq<Seq<u8>>, m2: Seq<Seq<u8>>)
    requires
        m1.to_multiset() == m2.to_multiset(),
    ensures
        spec_hash_struct(m1) == spec_hash_struct(m2),
{
    lemma_lex_total();
    m1.lemma_sort_by_ensures(lex_order());
    m2.lemma_sort_by_ensures(lex_order());
    lemma_sorted_unique(m1.sort_by(lex_order()), m2.sort_by(lex_order()), lex_order());
}

/// Digest of a tagged primitive.
fn hash_tagged(tag: u8, content: &[u8]) -> (r: Vec<u8>)
    ensures
        r@ == tagged(tag, content@),
        r@.len() == DIGEST_SIZE,
{
    let mut buf: Vec<u8> = Vec::new();
    buf.push(tag);
    buf.extend_from_slice(content);
    assert(buf@ =~= seq![tag] + content@);
    sha256_digest(buf.as_slice())
}

/// The `k` low-order bytes of `n`, most significant first.
fn to_be_bytes(n: u64) -> (r: Vec<u8>)
    ensures
        r@ == be_bytes(n as nat, 8),
{
    let mut out: Vec<u8> = vec![0u8, 0u8, 0u8, 0u8, 0u8, 0u8, 0u8, 0u8];
    let mut v: u64 = n;
    let mut i: usize = 8;
    while i > 0
        invariant
            out@.len() == 8,
            i <= 8,
            be_bytes(n as nat, 8) == be_bytes(v as nat, i as nat) + out@.subrange(i as int, 8),
        decreases i,
    {
        let ghost old_out = out@;
        out.set(i - 1, (v % 256) as u8);
        proof {
            assert(out@.subrange(i - 1, 8) =~= seq![(v % 256) as u8] + old_out.subrange(
                i as int,
                8,
            ));
            assert(be_bytes(v as nat, i as nat) == be_bytes((v / 256) as nat, (i - 1) as nat).push(
                (v % 256) as u8,
            ));
            assert(be_bytes(v as nat, i as nat) + old_out.subrange(i as int, 8) =~= be_bytes(
                (v / 256) as nat,
                (i - 1) as nat,
            ) + out@.subrange(i - 1, 8));
        }
        v = v / 256;
        i = i - 1;
    }
    assert(out@.subrange(0, 8) =~= out@);
    assert(be_bytes(v as nat, 0) =~= seq![]);
    assert(be_bytes(n as nat, 8) =~= out@);
    out
}

/// Digest of an unsigned integer: tag `u`, then its 8 big-endian bytes.
pub fn hash_u64(n: u64) -> (r: Vec<u8>)
    ensures
        r@ == spec_hash_u64(n),
        r@.len() == DIGEST_SIZE,
{
    let b = to_be_bytes(n);
    hash_tagged(TAG_UINT, b.as_slice())
}

/// Digest of a boolean: tag `b`, then one byte, 1 for true.
pub fn hash_bool(b: bool) -> (r: Vec<u8>)
    ensures
        r@ == spec_hash_bool(b),
        r@.len() == DIGEST_SIZE,
{
    let mut content: Vec<u8> = Vec::new();
    content.push(if b { 1u8 } else { 0u8 });
    assert(content@ =~= seq![if b { 1u8 } else { 0u8 }]);
    hash_tagged(TAG_BOOL, content.as_slice())
}

/// Digest of a string: tag `s`, then its UTF-8 bytes.
pub fn hash_str(s: &str) -> (r: Vec<u8>)
    ensures
        r@ == spec_hash_str(s@),
        r@.len() == DIGEST_SIZE,
{
    let b = utf8_bytes(s);
    hash_tagged(TAG_STR, b.as_slice())
}

/// Digest of raw bytes: tag `r`, then the bytes.
pub fn hash_bytes(b: &[u8]) -> (r: Vec<u8>)
    ensures
        r@ == spec_hash_bytes(b@),
        r@.len() == DIGEST_SIZE,
{
    hash_tagged(TAG_RAW, b)
}

/// Digest of a point in time in nanoseconds since the epoch: tag `d`, then
/// the 8 big-endian bytes of the count.
pub fn hash_time(nanos: u64) -> (r: Vec<u8>)
    ensures
        r@ == spec_hash_time(nanos),
        r@.len() == DIGEST_SIZE,
{
    let b = to_be_bytes(nanos);
    hash_tagged(TAG_TIME, b.as_slice())
}

/// Concatenation of byte strings, in order.
pub fn concat(parts: &Vec<Vec<u8>>) -> (r: Vec<u8>)
    ensures
        r@ == concat_all(parts.deep_view()),
{
    let mut out: Vec<u8> = Vec::new();
    let mut i: usize = 0;
    while i < parts.len()
        invariant
            i <= parts.len(),
            out@ == concat_all(parts.deep_view().subrange(0, i as int)),
        decreases parts.len() - i,
    {
        out.extend_from_slice(parts[i].as_slice());
        proof {
            let s = parts.deep_view().subrange(0, i + 1);
            assert(s.drop_last() =~= parts.deep_view().subrange(0, i as int));
            assert(s.last() == parts[i as int]@);
        }
        i = i + 1;
    }
    assert(parts.deep_view().subrange(0, parts.len() as int) =~= parts.deep_view());
    out
}

/// Digest of a list, given the digests of its children in order.
pub fn hash_list(children: &Vec<Vec<u8>>) -> (r: Vec<u8>)
    ensures
        r@ == spec_hash_list(children.deep_view()),
        r@.len() == DIGEST_SIZE,
{
    let c = concat(children);
    hash_tagged(TAG_LIST, c.as_slice())
}

/// Compares two byte strings lexicographically.
pub fn lex_le_exec(a: &Vec<u8>, b: &Vec<u8>) -> (r: bool)
    ensures
        r == lex_le(a@, b@),
{
    let mut i: usize = 0;
    assert(a@.subrange(0, a@.len() as int) =~= a@);
    assert(b@.subrange(0, b@.len() as int) =~= b@);
    while i < a.len() && i < b.len() && a[i] == b[i]
        invariant
            i <= a.len(),
            i <= b.len(),
            lex_le(a@, b@) == lex_le(a@.subrange(i as int, a@.len() as int), b@.subrange(
                i as int,
                b@.len() as int,
            )),
        decreases a.len() - i,
    {
        proof {
            let sa = a@.subrange(i as int, a@.len() as int);
            let sb = b@.subrange(i as int, b@.len() as int);
            assert(sa.drop_first() =~= a@.subrange(i + 1, a@.len() as int));
            assert(sb.drop_first() =~= b@.subrange(i + 1, b@.len() as int));
        }
        i = i + 1;
    }
    proof {
        let sa = a@.subrange(i as int, a@.len() as int);
        let sb = b@.subrange(i as int, b@.len() as int);
        if i < a.len() && i < b.len() {
            assert(sa[0] == a@[i as int] && sb[0] == b@[i as int]);
        }
    }
    if i == a.len() {
        true
    } else if i == b.len() {
        false
    } else {
        a[i] < b[i]
    }
}

/// Sorts byte strings into ascending lexicographic order.
pub fn sort_lex(items: Vec<Vec<u8>>) -> (r: Vec<Vec<u8>>)
    ensures
        r.deep_view() == items.deep_view().sort_by(lex_order()),
{
    let mut out: Vec<Vec<u8>> = Vec::new();
    let mut i: usize = 0;
    proof {
        lemma_lex_total();
        assert(out.deep_view() =~= items.deep_view().subrange(0, 0));
    }
    while i < items.len()
        invariant
            i <= items.len(),
            total_ordering(lex_order()),
            sorted_by(out.deep_view(), lex_order()),
            out.deep_view().to_multiset() == items.deep_view().subrange(0, i as int).to_multiset(),
        decreases items.len() - i,
    {
        let x = items[i].clone();
        assert(x@ =~= items[i as int]@);
        assert(items.deep_view()[i as int] == items[i as int]@);
        let mut j: usize = 0;
        while j < out.len() && lex_le_exec(&out[j], &x)
            invariant
                j <= out.len(),
                forall|k: int| 0 <= k < j ==> lex_le(#[trigger] out.deep_view()[k], x@),
            decreases out.len() - j,
        {
            assert(out.deep_view()[j as int] == out[j as int]@);
            j = j + 1;
        }
        let ghost before = out.deep_view();
        let ghost before_v = out@;
        proof {
            if j < out.len() {
                assert(out.deep_view()[j as int] == out[j as int]@);
                lemma_lex_connected(x@, out.deep_view()[j as int]);
            }
        }
        out.insert(j, x);
        proof {
            let now = out.deep_view();
            assert(out@ == before_v.insert(j as int, x));
            assert forall|k: int| 0 <= k < now.len() implies now[k] == before.insert(
                j as int,
                x@,
            )[k] by {
                if k < j {
                    assert(out@[k] == before_v[k]);
                } else if k > j {
                    assert(out@[k] == before_v[k - 1]);
                }
            }
            assert(now =~= before.insert(j as int, x@));
            assert forall|a: int, b: int| 0 <= a < b < now.len() implies #[trigger] lex_order()(
                now[a],
                now[b],
            ) by {
                if b < j {
                    assert(lex_order()(before[a], before[b]));
                } else if b == j {
                } else if a < j {
                    assert(lex_le(before[a], x@));
                    assert(lex_le(x@, before[j as int]));
                    assert(lex_order()(before[j as int], before[b - 1])) by {
                        if j < b - 1 {
                            assert(lex_order()(before[j as int], before[b - 1]));
                        } else {
                            lemma_lex_reflexive(before[j as int]);
                        }
                    }
                    lemma_lex_transitive(x@, before[j as int], before[b - 1]);
                    lemma_lex_transitive(before[a], x@, before[b - 1]);
                } else if a == j {
                    if j < b - 1 {
                        assert(lex_order()(before[j as int], before[b - 1]));
                        lemma_lex_transitive(x@, before[j as int], before[b - 1]);
                    }
                } else {
                    assert(lex_order()(before[a - 1], before[b - 1]));
                }
            }
            let s = items.deep_view().subrange(0, i + 1);
            assert(s =~= items.deep_view().subrange(0, i as int).push(x@));
            to_multiset_insert(before, j as int, x@);
            to_multiset_build(items.deep_view().subrange(0, i as int), x@);
            assert(now.to_multiset() == before.to_multiset().insert(x@));
            assert(s.to_multiset() == items.deep_view().subrange(0, i as int).to_multiset().insert(
                x@,
            ));
        }
        i = i + 1;
    }
    proof {
        assert(items.deep_view().subrange(0, items.len() as int) =~= items.deep_view());
        items.deep_view().lemma_sort_by_ensures(lex_order());
        lemma_sorted_unique(out.deep_view(), items.deep_view().sort_by(lex_order()), lex_order());
    }
    out
}

/// One struct member: the digest of its name followed by that of its value.
pub fn member(name: &str, value: &Vec<u8>) -> (r: Vec<u8>)
    ensures
        r@ == spec_member(name@, value@),
{
    let mut r = hash_str(name);
    r.extend_from_slice(value.as_slice());
    r
}

/// Appends a member to a member list.
pub fn push_member(members: &mut Vec<Vec<u8>>, m: Vec<u8>)
    ensures
        final(members).deep_view() == old(members).deep_view().push(m@),
{
    let ghost mv = m@;
    members.push(m);
    assert forall|k: int| 0 <= k < members.len() implies #[trigger] members.deep_view()[k]
        == old(members).deep_view().push(mv)[k] by {
        if k < old(members).len() {
            assert(members@[k] == old(members)@[k]);
        }
    }
    assert(members.deep_view() =~= old(members).deep_view().push(mv));
}

/// Digest of a struct, given its members in any order.
pub fn hash_struct(members: Vec<Vec<u8>>) -> (r: Vec<u8>)
    ensures
        r@ == spec_hash_struct(members.deep_view()),
        r@.len() == DIGEST_SIZE,
{
    let sorted = sort_lex(members);
    let c = concat(&sorted);
    hash_tagged(TAG_STRUCT, c.as_slice())
}

} // verus!
