use cbfr::errors::NotEnoughCapacity;
use cbfr::CBfr;

#[test]
fn cbfr_append_ch() {
    let mut buffer = [0u8; 512];
    let mut b = CBfr::new(&mut buffer);
    for c in ['H', 'e', 'l', 'l', 'o'] {
        b.append_ch(c);
    }
    assert_eq!("Hello", b.to_string());
    assert_eq!(5, b.len());
}

#[test]
fn cbfr_capacity_queries() {
    let mut buffer = [0u8; 3];
    let mut b = CBfr::new(&mut buffer);
    assert_eq!(3, b.cap());
    assert_eq!(3, b.available());
    b.append_str("Abc");
    assert!(b.is_full());
    assert_eq!(0, b.available());
}

#[test]
fn cbfr_clone_counts_nonzero() {
    let mut buffer1 = [0u8; 256];
    let mut b1 = CBfr::new(&mut buffer1);
    b1.append_str("Hello World");
    drop(b1);
    let mut buffer2 = buffer1;
    let mut b2 = CBfr::clone(&mut buffer2);
    b2.append_ch('!');
    assert_eq!("Hello World!", b2.to_string());
}

#[test]
fn cbfr_clear() {
    let mut buffer = [0u8; 8];
    let mut b = CBfr::new(&mut buffer);
    b.append_str("Hello");
    b.clear();
    assert_eq!("", b.to_string());
    assert_eq!(0, b.len());
    drop(b);
    assert_eq!([0u8; 8], buffer);
}

#[test]
fn cbfr_append_buffer() {
    let mut buffer1 = [0u8; 256];
    let mut buffer2 = [0u8; 256];
    let mut b1 = CBfr::new(&mut buffer1);
    let mut b2 = CBfr::new(&mut buffer2);
    b1.append_str("Hello");
    b2.append_str("World");
    b1.append_ch(' ');
    b1.append(b2);
    assert_eq!("Hello World", b1.to_string());
    assert_eq!(11, b1.len());
}

#[test]
fn cbfr_rshift_fills() {
    let mut buffer = [0u8; 256];
    let mut b = CBfr::new(&mut buffer);
    b.append_str("Amazing");
    b.rshift(2, 3, '#');
    assert_eq!("Am###azing", b.to_string());
    assert_eq!(10, b.len());
    let mut small = [0u8; 8];
    let mut bag = CBfr::new(&mut small);
    bag.append_str("Wow");
    bag.rshift(1, 2, '#');
    assert_eq!("W##ow", bag.to_string());
    bag.rshift(0, 3, '@');
    assert_eq!("@@@W##ow", bag.to_string());
    assert!(bag.is_full());
}

#[test]
fn cbfr_lshift_removes() {
    let mut buffer = [0u8; 256];
    let mut b = CBfr::new(&mut buffer);
    b.append_str("Amazing");
    b.lshift(2, 3);
    assert_eq!("Amng", b.to_string());
    assert_eq!(4, b.len());
    drop(b);
    assert_eq!(b"Amng\0\0\0\0", &buffer[0..8]);
}

#[test]
fn cbfr_prepends() {
    let mut buffer = [0u8; 256];
    let mut b = CBfr::new(&mut buffer);
    b.append_str("Amazing");
    b.prepend_ch('M');
    assert_eq!("MAmazing", b.to_string());
    let mut buffer2 = [0u8; 256];
    let mut w = CBfr::new(&mut buffer2);
    w.append_str("World");
    w.prepend_ch(' ');
    w.prepend_str("Hello");
    assert_eq!("Hello World", w.to_string());
    let mut buffer3 = [0u8; 16];
    let mut x = CBfr::new(&mut buffer3);
    x.append_str(">");
    w.prepend(x);
    assert_eq!(">Hello World", w.to_string());
}

#[test]
fn cbfr_take_returns_text() {
    let mut buffer = [0u8; 256];
    let mut b = CBfr::new(&mut buffer);
    b.append_str("Amazing");
    assert_eq!("azi", b.take(2, 3));
    assert_eq!("Amng", b.to_string());
}

#[test]
fn cbfr_inserts() {
    let mut buffer = [0u8; 256];
    let mut b = CBfr::new(&mut buffer);
    b.append_str("Hllo");
    b.insert_ch(1, 'e');
    assert_eq!("Hello", b.to_string());
    b.insert_str(5, " World");
    assert_eq!("Hello World", b.to_string());
    let mut buffer2 = [0u8; 8];
    let mut o = CBfr::new(&mut buffer2);
    o.append_str(",");
    b.insert(5, o);
    assert_eq!("Hello, World", b.to_string());
}

#[test]
fn cbfr_reverse_and_sort() {
    let mut buffer = [0u8; 16];
    let mut b = CBfr::new(&mut buffer);
    b.append_str("cgahb");
    b.sort();
    assert_eq!("abcgh", b.to_string());
    b.sort_desc();
    assert_eq!("hgcba", b.to_string());
    b.reverse();
    assert_eq!("abcgh", b.to_string());
}

#[test]
fn cbfr_trims() {
    let mut buffer = [0u8; 32];
    let mut b = CBfr::new(&mut buffer);
    b.append_str("   a  b    c  ");
    b.trimall();
    assert_eq!("a b c", b.to_string());
    let mut buffer2 = [0u8; 32];
    let mut c = CBfr::new(&mut buffer2);
    c.append_str("  x  ");
    c.ltrim();
    assert_eq!("x  ", c.to_string());
    c.rtrim();
    assert_eq!("x", c.to_string());
    let mut buffer3 = [0u8; 32];
    let mut d = CBfr::new(&mut buffer3);
    d.append_str(" y ");
    d.trim();
    assert_eq!("y", d.to_string());
}

#[test]
fn cbfr_iterates() {
    let mut buffer = [0u8; 16];
    let mut b = CBfr::new(&mut buffer);
    b.append_str("abc");
    assert_eq!(vec!['a', 'b', 'c'], b.iter());
    assert_eq!(vec![b'a', b'b', b'c'], b.bytes());
}

#[test]
fn cbfr_from_text() {
    let mut buffer = [7u8; 8];
    let b = CBfr::from_text(&mut buffer, "Hello").unwrap();
    assert_eq!("Hello", b.to_string());
    assert_eq!(5, b.len());
    drop(b);
    assert_eq!(b"Hello\x07\x07\x07", &buffer);
    let mut small = [0u8; 5];
    let e = CBfr::from_text(&mut small, "123456").map(|_| ()).unwrap_err();
    assert_eq!(NotEnoughCapacity::throw(5, 6), e);
}
