//! Tests of the primitive types and the strong byte containers.

use staking_engine::bytes::{CodeBytes, NameBytes, TagBytes, UriBytes};
use staking_engine::primitives::{Beneficiary, IdentityId, PosRatio, TransactionError};

#[test]
fn vec_strong_typed() {
    let text1 = &b"Lorem Ipsum ";
    let text2 = &b"dolor sit amet";

    // Constructors.
    let mut a1 = NameBytes::from_slice(&text1[..]);
    let a2 = NameBytes::from_slice(&text1[..]);
    let _b1 = UriBytes::from_vec(text2.to_vec());
    let _b2 = UriBytes::from_vec(text2.to_vec());

    // Contents and in-place update.
    assert_eq!(a1.as_slice(), &text1[..]);
    a1.set(6, b'i');
    assert_eq!(a1.as_slice(), &b"Lorem ipsum "[..]);

    // Other methods.
    assert_eq!(a2.len(), text1.len());
    assert_eq!(a2.as_slice(), &text1[..]);
    assert_eq!(a2.as_vec().clone(), text1.to_vec());

    // Strong types are not equal: a `UriBytes` cannot stand in for a
    // `NameBytes`; the line below does not compile.
    // let a3: NameBytes = _b1;
}

#[test]
fn slice_strong_typed() {
    let text1 = &b"lorem Ipsum ";
    let text2 = &b"dolor sit amet";

    // Constructors.
    let mut c1 = CodeBytes::from_slice(&text1[..]);
    let c2 = CodeBytes::from_slice(&text1[..]);
    let _d1 = TagBytes::from_vec(text2.to_vec());
    let _d2 = TagBytes::from_vec(text2.to_vec());

    // Contents are padded to the fixed width, and update in place.
    let text1_with_zeros = &b"lorem Ipsum \0\0\0\0";
    assert_eq!(c1.as_slice(), &text1_with_zeros[..]);
    c1.set(6, b'i');
    assert_eq!(c1.as_slice(), &b"lorem ipsum \0\0\0\0"[..]);

    // Other methods.
    assert_eq!(c2.len(), text1_with_zeros.len());
    assert_eq!(c2.as_slice(), &text1_with_zeros[..]);

    // Strong types are not equal: a `TagBytes` cannot stand in for a
    // `CodeBytes`; the line below does not compile.
    // let c3: CodeBytes = _d1;
}

#[test]
fn identity_id_from_number() {
    let id = IdentityId::from(7u128);
    assert_eq!(id.lo, 7);
    assert_eq!(id.hi, 0);
    assert_eq!(IdentityId::default(), IdentityId::from(0u128));
}

#[test]
fn pos_ratio_defaults_and_from() {
    let d = PosRatio::default();
    assert_eq!((d.0, d.1), (1, 1));
    let r = PosRatio::from((3, 4));
    assert_eq!((r.0, r.1), (3, 4));
}

#[test]
fn beneficiary_holds_its_fields() {
    let b = Beneficiary::<u128> { id: IdentityId::from(9u128), amount: 55 };
    assert_eq!(b.id.lo, 9);
    assert_eq!(b.amount, 55);
    assert_ne!(TransactionError::ZeroTip, TransactionError::CddRequired);
}
