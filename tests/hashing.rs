use ithos::hashing::{hash_bool, hash_bytes, hash_list, hash_str, hash_struct, hash_time, hash_u64, member};

fn hex(b: &[u8]) -> String {
    b.iter().map(|x| format!("{:02x}", x)).collect()
}

#[test]
fn integer_digest_vector() {
    assert_eq!(
        hex(&hash_u64(1000)),
        "a543f21d22f99a98422e3eed5febdf5caf04e785e40ffb4200e67df66a248198"
    );
}

#[test]
fn string_digest_vector() {
    assert_eq!(
        hex(&hash_str("foo")),
        "d9c7fae2a04e047164936265ba33cf801e4026d0c537dd9eb0fe7713266fb8cc"
    );
}

#[test]
fn bytes_digest_vector() {
    assert_eq!(
        hex(&hash_bytes(&[1, 2, 3])),
        "739edfa3d569de4535d27cf5633516b0ef6a500171077b274a2ebcdacb837764"
    );
}

#[test]
fn bool_digest_vector() {
    assert_eq!(
        hex(&hash_bool(true)),
        "0ffaac099f9b22205f96928a311ab077b5b9a4fdecc11660663ddf04b19493d5"
    );
}

#[test]
fn time_digest_vector() {
    assert_eq!(
        hex(&hash_time(1)),
        "4ecd2d6ea6fac4b3e31a7b41fbf74c05a552da9388f7c1e5c3d1cebd4625b29b"
    );
}

#[test]
fn list_digest_vector() {
    let children = vec![hash_str("a"), hash_str("b")];
    assert_eq!(
        hex(&hash_list(&children)),
        "981b73b4ec5378856d033399070a8172e6b4ba1e5450c8f00ba7a81c7962ff4c"
    );
}

#[test]
fn struct_digest_ignores_member_order() {
    let x = member("x", &hash_u64(1));
    let y = member("y", &hash_u64(2));
    let forward = hash_struct(vec![x.clone(), y.clone()]);
    let backward = hash_struct(vec![y, x]);
    assert_eq!(forward, backward);
    assert_eq!(
        hex(&forward),
        "c588baceed81a38e0b38bcea63ebfe2a455b6a0ecd741d6045540e7637c654a8"
    );
}

#[test]
fn distinct_values_hash_apart() {
    assert_ne!(hash_u64(1), hash_u64(2));
    assert_ne!(hash_str("1"), hash_bytes(b"1"));
    assert_eq!(hash_str("foo").len(), 32);
}
