use cbfr::errors::{InvalidIndex, NotEnoughCapacity};
use cbfr::helper;

#[test]
fn messages_name_the_numbers() {
    assert_eq!(
        "Capacity of buffer is 256 but trying to store 300",
        helper::not_enough_capacity(256, 300)
    );
    assert_eq!(
        "Buffer len is 0 but trying to access index at 10",
        helper::not_valid_index(0, 10)
    );
}

#[test]
fn from_copies_text() {
    let mut arr = [9u8; 6];
    helper::from("abc", &mut arr);
    assert_eq!([b'a', b'b', b'c', 9, 9, 9], arr);
    helper::from_slice(&[1, 2], &mut arr);
    assert_eq!([1, 2, b'c', 9, 9, 9], arr);
}

#[test]
fn eq_and_ne() {
    let a = [1u8, 2, 3];
    let b = [1u8, 2, 3, 4];
    assert!(helper::eq(&3, &a, &3, &b));
    assert!(!helper::eq(&3, &a, &2, &b));
    assert!(!helper::eq(&3, &[1, 2, 4], &3, &b));
    assert!(helper::ne(&3, &a, &2, &b));
    assert!(!helper::ne(&3, &a, &3, &b));
}

#[test]
fn append_ch_helpers() {
    let mut arr = [0u8; 4];
    let mut len = 0usize;
    helper::append_ch_unchecked(&mut len, &mut arr, 'a');
    assert_eq!(1, len);
    helper::append_ch(&mut len, &mut arr, 'b').unwrap();
    assert_eq!(2, len);
    helper::append_ch(&mut len, &mut arr, 'é').unwrap();
    assert_eq!(4, len);
    assert_eq!("abé".as_bytes(), &arr[..]);
    assert_eq!(Err(NotEnoughCapacity::throw(4, 5)), helper::append_ch(&mut len, &mut arr, 'c'));
}

#[test]
fn checksum_sums_bytes() {
    assert_eq!(0, helper::checksum(&[]));
    assert_eq!(97 + 98 + 99, helper::checksum(b"abc"));
}

#[test]
fn errors_convert_both_ways() {
    let i = InvalidIndex::throw(3, 7);
    let n: NotEnoughCapacity = i.into();
    assert_eq!(NotEnoughCapacity::throw(3, 7), n);
    let back: InvalidIndex = n.into();
    assert_eq!(InvalidIndex::throw(3, 7), back);
    assert_eq!(3, back.len());
    assert_eq!(7, back.index());
}
