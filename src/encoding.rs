//! Canonical wire encoding: numbered fields written in ascending order, each
//! as a key (field number and wire type) followed by its payload.
use vstd::prelude::*;

verus! {

/// Wire type of a varint field.
pub const WIRE_VARINT: u64 = 0;

/// Wire type of a length-delimited field.
pub const WIRE_LEN: u64 = 2;

/// Base-128 varint: seven bits per byte, least significant group first, the
/// high bit set on every byte but the last.
pub open spec fn spec_varint(n: nat) -> Seq<u8>
    decreases n,
{
    if n < 128 {
        seq![n as u8]
    } else {
        seq![((n % 128) + 128) as u8] + spec_varint(n / 128)
    }
}

/// The key of a field.
pub open spec fn spec_key(field: nat, wire: nat) -> Seq<u8> {
    spec_varint(field * 8 + wire)
}

/// A varint field.
pub open spec fn spec_varint_field(field: nat, v: nat) -> Seq<u8> {
    spec_key(field, WIRE_VARINT as nat) + spec_varint(v)
}

/// A length-delimited field.
pub open spec fn spec_len_field(field: nat, payload: Seq<u8>) -> Seq<u8> {
    spec_key(field, WIRE_LEN as nat) + spec_varint(payload.len()) + payload
}

/// Appends the varint of `n` to `out`.
pub fn write_varint(out: &mut Vec<u8>, n: u64)
    ensures
        final(out)@ == old(out)@ + spec_varint(n as nat),
{
    let mut v: u64 = n;
    while v >= 128
        invariant
            old(out)@ + spec_varint(n as nat) == out@ + spec_varint(v as nat),
        decreases v,
    {
        let ghost before = out@;
        out.push(((v % 128) + 128) as u8);
        proof {
            assert(spec_varint(v as nat) == seq![((v % 128) + 128) as u8] + spec_varint(
                (v / 128) as nat,
            ));
            assert(out@ + spec_varint((v / 128) as nat) =~= before + spec_varint(v as nat));
        }
        v = v / 128;
    }
    out.push(v as u8);
    assert(out@ =~= old(out)@ + spec_varint(n as nat));
}

/// Appends a varint field.
pub fn write_varint_field(out: &mut Vec<u8>, field: u64, v: u64)
    requires
        field < 0x1000_0000,
    ensures
        final(out)@ == old(out)@ + spec_varint_field(field as nat, v as nat),
{
    write_varint(out, field * 8 + WIRE_VARINT);
    write_varint(out, v);
    assert(out@ =~= old(out)@ + spec_varint_field(field as nat, v as nat));
}

/// Appends a length-delimited field.
pub fn write_len_field(out: &mut Vec<u8>, field: u64, payload: &[u8])
    requires
        field < 0x1000_0000,
    ensures
        final(out)@ == old(out)@ + spec_len_field(field as nat, payload@),
{
    write_varint(out, field * 8 + WIRE_LEN);
    write_varint(out, payload.len() as u64);
    out.extend_from_slice(payload);
    assert(out@ =~= old(out)@ + spec_len_field(field as nat, payload@));
}

} // verus!
