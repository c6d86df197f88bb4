use vl1::address::Address;
use vl1::codec::{read_varint, write_varint, WireError};
use vl1::endpoint::Endpoint;
use vl1::identity::Identity;
use vl1::locator::Locator;

fn ident(addr: u64) -> Identity {
    Identity::new(Address::new(addr).unwrap(), true)
}

fn eps(list: &[(u8, u64)]) -> Vec<Endpoint> {
    let mut v = Vec::new();
    for (k, val) in list {
        v.push(Endpoint::new(*k, *val));
    }
    v
}

#[test]
fn address_validation() {
    assert!(Address::new(0).is_none());
    assert!(Address::new(0xff_0000_0001).is_none());
    assert!(Address::new(1u64 << 40).is_none());
    let a = Address::new(0x11_2233_4455).unwrap();
    assert_eq!(a.to_u64(), 0x11_2233_4455);
}

#[test]
fn varint_roundtrip_values() {
    for x in [0u64, 1, 127, 128, 300, 0xffff, u64::MAX] {
        let mut buf: Vec<u8> = Vec::new();
        write_varint(&mut buf, x);
        let (v, j) = read_varint(&buf, 0).unwrap();
        assert_eq!(v, x);
        assert_eq!(j, buf.len());
    }
}

#[test]
fn create_normalizes_endpoints() {
    let id = ident(0x01_0000_0001);
    let loc = Locator::create(
        &id,
        id.address(),
        42,
        &eps(&[(2, 99), (1, 7), (2, 99), (1, 7)]),
    )
    .unwrap();
    let got = loc.endpoints();
    assert_eq!(got.len(), 2);
    assert_eq!(got[0], Endpoint::new(1, 7));
    assert_eq!(got[1], Endpoint::new(2, 99));
}

#[test]
fn marshal_unmarshal_roundtrip() {
    let id = ident(0x01_0000_0001);
    let subject = Address::new(0x02_0000_0002).unwrap();
    let loc = Locator::create(&id, subject, 123456789, &eps(&[(3, 5), (1, 9)])).unwrap();
    let bytes = loc.marshal().unwrap();
    let mut cursor: usize = 0;
    let back = Locator::unmarshal(&bytes, &mut cursor).unwrap();
    assert_eq!(cursor, bytes.len());
    assert_eq!(back.subject(), loc.subject());
    assert_eq!(back.signer(), loc.signer());
    assert_eq!(back.timestamp(), loc.timestamp());
    assert_eq!(back.endpoints(), loc.endpoints());
    assert_eq!(back.signature, loc.signature);
    assert!(back == loc);
}

#[test]
fn marshal_unmarshal_negative_timestamp() {
    let id = ident(0x01_0000_0001);
    let loc = Locator::create(&id, id.address(), -5, &eps(&[(1, 1)])).unwrap();
    let bytes = loc.marshal().unwrap();
    let mut cursor: usize = 0;
    let back = Locator::unmarshal(&bytes, &mut cursor).unwrap();
    assert_eq!(back.timestamp(), -5);
}

#[test]
fn unmarshal_skips_extension_field() {
    // Hand-build a wire image with a non-empty reserved extension field:
    // a parser must skip it, not reject it.
    let id = ident(0x01_0000_0001);
    let loc = Locator::create(&id, id.address(), 7, &eps(&[])).unwrap();
    let bytes = loc.marshal().unwrap();
    // payload: 5 + 5 + 8 + 1 (count 0) = 19 bytes, then ext-len varint at 19.
    assert_eq!(bytes[19], 0);
    let mut patched = bytes.clone();
    patched[19] = 2;
    patched.insert(20, 0xaa);
    patched.insert(21, 0xbb);
    let mut cursor: usize = 0;
    let back = Locator::unmarshal(&patched, &mut cursor).unwrap();
    assert_eq!(cursor, patched.len());
    assert_eq!(back.timestamp(), 7);
    assert_eq!(back.signature, loc.signature);
}

#[test]
fn create_without_secret_fails() {
    let id = Identity::new(Address::new(0x01_0000_0001).unwrap(), false);
    assert!(Locator::create(&id, id.address(), 1, &eps(&[(1, 1)])).is_none());
}

#[test]
fn marshal_overflow_on_huge_endpoint_list() {
    let id = ident(0x01_0000_0001);
    let mut many = Vec::new();
    for i in 0..2000u64 {
        many.push(Endpoint::new(1, i));
    }
    // Serializing a value whose payload cannot fit the wire capacity
    // reports the overflow.
    let loc = Locator {
        subject: id.address(),
        signer: id.address(),
        timestamp: 1,
        endpoints: many,
        signature: Vec::new(),
    };
    assert_eq!(loc.marshal(), Err(WireError::Overflow));
}

#[test]
fn unmarshal_error_truncated() {
    let buf: Vec<u8> = vec![1, 2, 3];
    let mut cursor: usize = 0;
    assert_eq!(
        Locator::unmarshal(&buf, &mut cursor),
        Err(WireError::Truncated)
    );
    assert_eq!(cursor, 0);

    let id = ident(0x01_0000_0001);
    let loc = Locator::create(&id, id.address(), 9, &eps(&[(1, 1)])).unwrap();
    let mut bytes = loc.marshal().unwrap();
    bytes.pop();
    let mut c2: usize = 0;
    assert_eq!(
        Locator::unmarshal(&bytes, &mut c2),
        Err(WireError::Truncated)
    );
}

#[test]
fn unmarshal_error_invalid_address() {
    // A zero subject address is structurally invalid.
    let buf: Vec<u8> = vec![0; 40];
    let mut cursor: usize = 0;
    assert_eq!(
        Locator::unmarshal(&buf, &mut cursor),
        Err(WireError::InvalidAddress)
    );
}

#[test]
fn unmarshal_error_varint_overflow() {
    let id = ident(0x01_0000_0001);
    let loc = Locator::create(&id, id.address(), 9, &eps(&[])).unwrap();
    let bytes = loc.marshal().unwrap();
    // Replace the endpoint-count varint (offset 18) with an encoding whose
    // value exceeds 64 bits.
    let mut patched: Vec<u8> = bytes[..18].to_vec();
    for _ in 0..10 {
        patched.push(0xff);
    }
    patched.push(0x7f);
    let mut cursor: usize = 0;
    assert_eq!(
        Locator::unmarshal(&patched, &mut cursor),
        Err(WireError::Overflow)
    );
}

#[test]
fn unmarshal_error_not_canonical() {
    let id = ident(0x01_0000_0001);
    let loc = Locator::create(&id, id.address(), 9, &eps(&[(1, 1), (2, 2)])).unwrap();
    let bytes = loc.marshal().unwrap();
    // The two nine-byte endpoint encodings sit at 19..28 and 28..37,
    // after subject, signer, timestamp and the count varint.
    let mut swapped = bytes.clone();
    for k in 0..9 {
        swapped[19 + k] = bytes[28 + k];
        swapped[28 + k] = bytes[19 + k];
    }
    let mut cursor: usize = 0;
    assert_eq!(
        Locator::unmarshal(&swapped, &mut cursor),
        Err(WireError::NotCanonical)
    );
    assert_eq!(cursor, 0);

    // A duplicated endpoint is rejected the same way.
    let mut duplicated = bytes.clone();
    for k in 0..9 {
        duplicated[28 + k] = bytes[19 + k];
    }
    let mut c2: usize = 0;
    assert_eq!(
        Locator::unmarshal(&duplicated, &mut c2),
        Err(WireError::NotCanonical)
    );
}

#[test]
fn verify_signature_of_created_locator() {
    let id = ident(0x01_0000_0001);
    let loc = Locator::create(&id, id.address(), 55, &eps(&[(1, 2), (3, 4)])).unwrap();
    assert!(loc.verify_signature(&id));
}

#[test]
fn verify_signature_rejects_mutation() {
    let id = ident(0x01_0000_0001);
    let loc = Locator::create(&id, id.address(), 55, &eps(&[(1, 2), (3, 4)])).unwrap();

    let mut tampered_ts = Locator {
        subject: loc.subject(),
        signer: loc.signer(),
        timestamp: loc.timestamp() + 1,
        endpoints: loc.endpoints().clone(),
        signature: loc.signature.clone(),
    };
    assert!(!tampered_ts.verify_signature(&id));
    tampered_ts.timestamp -= 1;
    assert!(tampered_ts.verify_signature(&id));

    let mut tampered_ep = Locator {
        subject: loc.subject(),
        signer: loc.signer(),
        timestamp: loc.timestamp(),
        endpoints: loc.endpoints().clone(),
        signature: loc.signature.clone(),
    };
    tampered_ep.endpoints[0] = Endpoint::new(1, 3);
    assert!(!tampered_ep.verify_signature(&id));

    let tampered_subject = Locator {
        subject: Address::new(0x02_0000_0002).unwrap(),
        signer: loc.signer(),
        timestamp: loc.timestamp(),
        endpoints: loc.endpoints().clone(),
        signature: loc.signature.clone(),
    };
    assert!(!tampered_subject.verify_signature(&id));
}

#[test]
fn verify_signature_rejects_wrong_identity() {
    let id = ident(0x01_0000_0001);
    let other = ident(0x02_0000_0002);
    let loc = Locator::create(&id, id.address(), 55, &eps(&[(1, 2)])).unwrap();
    assert!(!loc.verify_signature(&other));
}

#[test]
fn should_replace_trust_hierarchy() {
    let subject = Address::new(0x0a_0000_000a).unwrap();
    let node = Identity::new(subject, true);
    let root = ident(0x0b_0000_000b);

    let self_old = Locator::create(&node, subject, 0, &eps(&[(1, 1)])).unwrap();
    let proxy_new = Locator::create(&root, subject, i64::MAX, &eps(&[(1, 1)])).unwrap();
    assert!(self_old.should_replace(&proxy_new));
    assert!(!proxy_new.should_replace(&self_old));

    let self_a = Locator::create(&node, subject, 10, &eps(&[(1, 1)])).unwrap();
    let self_b = Locator::create(&node, subject, 20, &eps(&[(1, 1)])).unwrap();
    assert!(self_b.should_replace(&self_a));
    assert!(!self_a.should_replace(&self_b));

    let self_c = Locator::create(&node, subject, 10, &eps(&[(2, 2)])).unwrap();
    assert!(!self_a.should_replace(&self_c));
    assert!(!self_c.should_replace(&self_a));

    let proxy_a = Locator::create(&root, subject, 10, &eps(&[(1, 1)])).unwrap();
    let proxy_b = Locator::create(&root, subject, 20, &eps(&[(1, 1)])).unwrap();
    assert!(proxy_b.should_replace(&proxy_a));
    assert!(!proxy_a.should_replace(&proxy_b));
}

#[test]
fn natural_order_and_canonical_equality() {
    let id = ident(0x01_0000_0001);
    let s1 = Address::new(0x02_0000_0002).unwrap();
    let s2 = Address::new(0x03_0000_0003).unwrap();

    let a = Locator::create(&id, s1, 5, &eps(&[(1, 1)])).unwrap();
    let b = Locator::create(&id, s1, 9, &eps(&[(1, 1)])).unwrap();
    let c = Locator::create(&id, s2, 1, &eps(&[(1, 1)])).unwrap();
    assert_eq!(a.order_cmp(&b), std::cmp::Ordering::Less);
    assert_eq!(b.order_cmp(&a), std::cmp::Ordering::Greater);
    assert_eq!(b.order_cmp(&c), std::cmp::Ordering::Less);
    assert_eq!(a.order_cmp(&c), std::cmp::Ordering::Less);

    // Same endpoints in a different input order construct an equal locator.
    let x = Locator::create(&id, s1, 5, &eps(&[(2, 9), (1, 7)])).unwrap();
    let y = Locator::create(&id, s1, 5, &eps(&[(1, 7), (2, 9), (1, 7)])).unwrap();
    assert!(x == y);
    assert_eq!(x.order_cmp(&y), std::cmp::Ordering::Equal);
}

#[test]
fn identity_hash_bytes_uses_signature_when_present() {
    let id = ident(0x01_0000_0001);
    let loc = Locator::create(&id, id.address(), 3, &eps(&[(1, 1)])).unwrap();
    assert_eq!(loc.identity_hash_bytes(), loc.signature);

    let unsigned = Locator {
        subject: loc.subject(),
        signer: loc.signer(),
        timestamp: loc.timestamp(),
        endpoints: loc.endpoints().clone(),
        signature: Vec::new(),
    };
    let key = unsigned.identity_hash_bytes();
    // signer (5) + timestamp (8) + one endpoint (9)
    assert_eq!(key.len(), 22);
}
