use cbfr::b8kb::{B8KB, MAX};

fn kb(s: &str) -> B8KB {
    B8KB::from_text(s).unwrap()
}

#[test]
fn b8kb_new_and_capacity() {
    let b = B8KB::new();
    assert_eq!(0, b.len());
    assert_eq!(8192, b.capacity());
    assert_eq!(MAX, b.capacity());
    assert_eq!("", b.to_string());
}

#[test]
fn b8kb_from_text_too_long() {
    let long = "x".repeat(8193);
    let e = B8KB::from_text(&long).unwrap_err();
    assert_eq!("Capacity of buffer is 8192 but trying to store 8193", e);
    let exact = "y".repeat(8192);
    assert_eq!(8192, B8KB::from_text(&exact).unwrap().len());
}

#[test]
fn b8kb_append_and_prepend() {
    let mut b = kb("World");
    b.prepend_str("Hello ").unwrap();
    b.append_ch('!').unwrap();
    b.append_str("!").unwrap();
    assert_eq!("Hello World!!", b.to_string());
    b.append(kb(" ok")).unwrap();
    b.prepend(kb(">")).unwrap();
    assert_eq!(">Hello World!! ok", b.to_string());
}

#[test]
fn b8kb_append_overflow_message() {
    let mut b = B8KB::from_text(&"a".repeat(8190)).unwrap();
    let e = b.append_str("abc").unwrap_err();
    assert_eq!("Capacity of buffer is 8192 but trying to store 8193", e);
    assert_eq!(8190, b.len());
}

#[test]
fn b8kb_shifts_and_take() {
    let mut b = kb("Amazing");
    b.rshift(6).unwrap();
    assert_eq!("Amazingg", b.to_string());
    b.lshift(0).unwrap();
    assert_eq!("mazingg", b.to_string());
    assert_eq!(Some(b'm'), b.take(0));
    let e = b.rshift(20).unwrap_err();
    assert_eq!("Buffer len is 6 but trying to access index at 20", e);
    let e = b.lshift(6).unwrap_err();
    assert_eq!("Buffer len is 6 but trying to access index at 6", e);
}

#[test]
fn b8kb_insert() {
    let mut b = kb("I you");
    b.insert(kb("love "), 2).unwrap();
    assert_eq!("I love you", b.to_string());
    b.insert_ch('!', 9).unwrap();
    assert_eq!("I love yo!u", b.to_string());
    assert_eq!(
        "Buffer len is 11 but trying to access index at 11",
        b.insert_ch('x', 11).unwrap_err()
    );
    assert_eq!(
        "Buffer len is 11 but trying to access index at 50",
        b.insert(B8KB::new(), 50).unwrap_err()
    );
    b.insert(B8KB::new(), 3).unwrap();
    assert_eq!("I love yo!u", b.to_string());
    let mut fresh = B8KB::new();
    assert!(fresh.insert(B8KB::new(), 5).is_err());
}

#[test]
fn b8kb_order_and_case() {
    let mut b = kb("cgahb");
    b.sort();
    assert_eq!("abcgh", b.to_string());
    b.sort_desc();
    assert_eq!("hgcba", b.to_string());
    b.reverse();
    assert_eq!("abcgh", b.to_string());
    let mut p = kb("damN i loVe iNdoNESia");
    p.to_proper();
    assert_eq!("Damn I Love Indonesia", p.to_string());
    p.to_upper();
    assert_eq!("DAMN I LOVE INDONESIA", p.to_string());
    p.to_lower();
    assert_eq!("damn i love indonesia", p.to_string());
    p.to_title();
    assert_eq!("Damn i love indonesia", p.to_string());
}

#[test]
fn b8kb_trim_checksum_last_clear() {
    let mut b = kb("  ab  ");
    b.trim();
    assert_eq!("ab", b.to_string());
    assert_eq!(195, b.checksum());
    assert_eq!('b', b.last());
    b.ltrim();
    b.rtrim();
    b.clear();
    assert_eq!(0, b.len());
    assert_eq!('\0', b.last());
}
