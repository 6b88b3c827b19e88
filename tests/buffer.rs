use cbfr::cb::{BFRDYN, DEFCAPACITY};
use cbfr::errors::{InvalidIndex, NotEnoughCapacity};
use cbfr::split::SplitRule;

fn buf(s: &str) -> BFRDYN<256> {
    BFRDYN::<256>::from_text(s).unwrap()
}

#[test]
fn new_is_empty() {
    let b = BFRDYN::<256>::new();
    assert_eq!("", b.to_string());
    assert_eq!(0, b.len());
    assert_eq!(256, b.capacity());
}

#[test]
fn def_has_default_capacity() {
    let mut b = BFRDYN::def();
    assert_eq!(DEFCAPACITY, b.capacity());
    b.append_str("more string").unwrap();
    assert_eq!("more string", b.to_string());
}

#[test]
fn withcap_sets_capacity() {
    let b = BFRDYN::withcap::<64>();
    assert_eq!(64, b.capacity());
    assert_eq!(0, b.len());
}

#[test]
fn from_text_round_trip() {
    for s in ["", "some string", "héllo wörld", "日本語"] {
        let b = buf(s);
        assert_eq!(s, b.to_string());
        assert_eq!(s.len(), b.len());
    }
}

#[test]
fn from_text_at_capacity_boundary() {
    let exact = "abcd";
    let b = BFRDYN::<4>::from_text(exact).unwrap();
    assert_eq!("abcd", b.to_string());
    let over = BFRDYN::<4>::from_text("abcde");
    assert_eq!(Err(NotEnoughCapacity::throw(4, 5)), over.map(|_| ()));
}

#[test]
fn from_slice_copies_bytes() {
    let b = BFRDYN::<8>::from_slice(b"wow").unwrap();
    assert_eq!("wow", b.to_string());
    assert!(BFRDYN::<2>::from_slice(b"wow").is_err());
}

#[test]
fn append_str_twice_equals_once() {
    let mut a = BFRDYN::<256>::new();
    a.append_str("a").unwrap();
    a.append_str("b").unwrap();
    let mut b = BFRDYN::<256>::new();
    b.append_str("ab").unwrap();
    assert_eq!(a.to_string(), b.to_string());
    assert_eq!(a.len(), b.len());
    assert!(a == b);
}

#[test]
fn append_str_overflow_leaves_buffer() {
    let mut b = BFRDYN::<5>::from_text("Hello").unwrap();
    let e = b.append_str("!").unwrap_err();
    assert_eq!(NotEnoughCapacity::throw(5, 6), e);
    assert_eq!(5, e.buffer());
    assert_eq!(6, e.value());
    assert_eq!("Hello", b.to_string());
}

#[test]
fn append_other_buffer() {
    let mut b3 = buf("cbr");
    let b4 = buf("eda");
    b3.append(b4).unwrap();
    assert_eq!("cbreda", b3.to_string());
    let mut small = BFRDYN::<4>::from_text("abc").unwrap();
    let other = BFRDYN::<4>::from_text("de").unwrap();
    assert_eq!(Err(NotEnoughCapacity::throw(4, 5)), small.append(other));
    assert_eq!("abc", small.to_string());
}

#[test]
fn append_ch_writes_utf8() {
    let mut b = buf("ab");
    b.append_ch('x').unwrap();
    assert_eq!("abx", b.to_string());
    b.append_ch('é').unwrap();
    assert_eq!("abxé", b.to_string());
    assert_eq!(5, b.len());
    let mut full = BFRDYN::<2>::from_text("ab").unwrap();
    assert_eq!(Err(NotEnoughCapacity::throw(2, 3)), full.append_ch('c'));
}

#[test]
fn prepend_str_and_buffer() {
    let mut b = buf("World");
    b.prepend_str(" ").unwrap();
    b.prepend_str("Hello").unwrap();
    assert_eq!("Hello World", b.to_string());
    let mut c = buf("you");
    c.prepend(buf("I love ")).unwrap();
    assert_eq!("I love you", c.to_string());
    let mut small = BFRDYN::<4>::from_text("abc").unwrap();
    assert_eq!(Err(NotEnoughCapacity::throw(4, 5)), small.prepend_str("xy"));
    assert_eq!("abc", small.to_string());
}

#[test]
fn prepend_unchecked_swaps_contents() {
    let mut a = buf("World");
    let mut b = buf("Hello ");
    a.prepend_unchecked(&mut b);
    assert_eq!("Hello World", a.to_string());
    assert_eq!("World", b.to_string());
}

#[test]
fn rshift_doubles_byte() {
    let mut b = buf("Amazing");
    b.rshift(6).unwrap();
    assert_eq!("Amazingg", b.to_string());
    assert_eq!(8, b.len());
}

#[test]
fn rshift_rejects_bad_index() {
    let mut b = buf("Amazing");
    assert_eq!(Err(InvalidIndex::throw(7, 7)), b.rshift(7));
    let mut full = BFRDYN::<3>::from_text("abc").unwrap();
    assert_eq!(Err(InvalidIndex::throw(3, 0)), full.rshift(0));
    assert_eq!("abc", full.to_string());
}

#[test]
fn lshift_removes_byte() {
    let mut b = buf("Amazing");
    b.lshift(0).unwrap();
    assert_eq!("mazing", b.to_string());
    assert_eq!(6, b.len());
    let e = b.lshift(6).unwrap_err();
    assert_eq!(6, e.len());
    assert_eq!(6, e.index());
}

#[test]
fn lshift_on_full_buffer() {
    let mut b = BFRDYN::<3>::from_text("abc").unwrap();
    b.lshift(2).unwrap();
    assert_eq!("ab", b.to_string());
}

#[test]
fn take_returns_byte() {
    let mut b = buf("Amazing");
    assert_eq!(Some(b'z'), b.take(3));
    assert_eq!("Amaing", b.to_string());
    assert_eq!(None, b.take(6));
}

#[test]
fn insert_buffer_at_position() {
    let mut b = buf("I you");
    b.insert(buf("love "), 2).unwrap();
    assert_eq!("I love you", b.to_string());
    assert_eq!(Err(NotEnoughCapacity::throw(10, 10)), b.insert(buf("xy"), 10));
    let mut small = BFRDYN::<4>::from_text("abc").unwrap();
    let two = BFRDYN::<4>::from_text("de").unwrap();
    assert_eq!(Err(NotEnoughCapacity::throw(4, 5)), small.insert(two, 0));
    assert_eq!("abc", small.to_string());
}

#[test]
fn insert_ch_at_position() {
    let mut b = buf("Hllo");
    b.insert_ch('e', 1).unwrap();
    assert_eq!("Hello", b.to_string());
    assert_eq!(Err(NotEnoughCapacity::throw(5, 9)), b.insert_ch('x', 9));
    let mut full = BFRDYN::<2>::from_text("ab").unwrap();
    assert_eq!(Err(NotEnoughCapacity::throw(2, 3)), full.insert_ch('x', 0));
}

#[test]
fn reverse_twice_restores() {
    let mut b = buf("I love ..");
    b.reverse();
    assert_eq!(".. evol I", b.to_string());
    b.reverse();
    assert_eq!("I love ..", b.to_string());
    let mut e = BFRDYN::<4>::new();
    e.reverse();
    assert_eq!("", e.to_string());
}

#[test]
fn sort_both_ways() {
    let mut b = buf("cgahb");
    b.sort();
    assert_eq!("abcgh", b.to_string());
    b.sort_desc();
    assert_eq!("hgcba", b.to_string());
}

#[test]
fn sort_desc_is_reverse_of_sort() {
    let mut asc = buf("ziA4xaij7M23sjK08u1)");
    asc.sort();
    let mut desc = asc.clone();
    desc.sort_desc();
    let mut rev = asc.clone();
    rev.reverse();
    assert_eq!(rev.to_string(), desc.to_string());
    let mut e = BFRDYN::<4>::new();
    e.sort();
    e.sort_desc();
    assert_eq!(0, e.len());
}

#[test]
fn trims_remove_spaces() {
    let mut b = buf("   hi there  ");
    b.ltrim();
    assert_eq!("hi there  ", b.to_string());
    b.rtrim();
    assert_eq!("hi there", b.to_string());
    let mut c = buf("  both  ");
    c.trim();
    assert_eq!("both", c.to_string());
}

#[test]
fn trim_keeps_one_byte() {
    let mut b = buf("    ");
    b.trim();
    assert_eq!(" ", b.to_string());
    let mut e = BFRDYN::<4>::new();
    e.trim();
    assert_eq!("", e.to_string());
}

#[test]
fn lower_and_upper() {
    let mut b = buf("Hello World 1!");
    b.lower();
    assert_eq!("hello world 1!", b.to_string());
    b.upper();
    assert_eq!("HELLO WORLD 1!", b.to_string());
}

#[test]
fn title_case() {
    let mut b = buf("hELLO wORLD");
    b.title();
    assert_eq!("Hello world", b.to_string());
    let mut d = buf("1abc");
    d.title();
    assert_eq!("1abc", d.to_string());
}

#[test]
fn proper_case() {
    let mut b = buf("damN i loVe iNdoNESia");
    b.proper();
    assert_eq!("Damn I Love Indonesia", b.to_string());
    let mut c = buf("a  b");
    c.proper();
    assert_eq!("A  B", c.to_string());
}

#[test]
fn checksum_and_order() {
    let a = buf("string");
    let b = buf("some string");
    assert_eq!(663, a.checksum());
    assert!(a.checksum() < b.checksum());
    assert_eq!(std::cmp::Ordering::Less, a.by_checksum(&b));
    assert_eq!(std::cmp::Ordering::Equal, buf("ab").by_checksum(&buf("ba")));
}

#[test]
fn last_byte_and_char() {
    let b = buf("abc");
    assert_eq!(b'c', b.last());
    assert_eq!('c', b.last_char());
    let e = BFRDYN::<4>::new();
    assert_eq!(0, e.last());
    assert_eq!('\0', e.last_char());
}

#[test]
fn clear_empties() {
    let mut b = buf("abc");
    b.clear();
    assert_eq!(0, b.len());
    assert_eq!([0u8; 256], b.as_bytes());
}

#[test]
fn as_bytes_and_take_inner() {
    let b = BFRDYN::<4>::from_text("ab").unwrap();
    assert_eq!([b'a', b'b', 0, 0], b.as_bytes());
    assert_eq!([b'a', b'b', 0, 0], b.take_inner());
}

#[test]
fn get_slice_checks_bounds() {
    let b = buf("I love you so much");
    assert_eq!(b"love", b.get_slice(2, 6).unwrap());
    assert_eq!(Err(InvalidIndex::throw(17, 18)), b.get_slice(17, 18));
    assert_eq!(Err(InvalidIndex::throw(3, 2)), b.get_slice(3, 2));
    assert_eq!(Err(InvalidIndex::throw(0, 19)), b.get_slice(0, 19));
    assert!(BFRDYN::<4>::new().get_slice(0, 0).is_err());
    assert_eq!(b"love", b.get_slice_unchecked(2, 6));
}

#[test]
fn split_excluding_delimiter() {
    let b = buf("I,love,you");
    assert_eq!(vec!["I", "love", "you"], b.to_vec(','));
    assert_eq!(vec!["a", "", ""], buf("a,,").to_vec(','));
    assert_eq!(vec![""], BFRDYN::<4>::new().to_vec(','));
}

#[test]
fn split_keeping_delimiter_right() {
    let b = buf("I, love, you");
    assert_eq!(vec!["I", ", love", ", you"], b.to_vecir(','));
}

#[test]
fn split_keeping_delimiter_left() {
    let b = buf("I, love, you");
    assert_eq!(vec!["I,", " love,", " you"], b.to_vecil(','));
}

#[test]
fn split_by_text() {
    let b = buf("I,,will,always,,remember,you");
    assert_eq!(vec!["I", "will,always", "remember,you"], b.to_vec2(",,"));
    assert_eq!(vec!["", "a"], buf("aaa").to_vec2("aa"));
    assert_eq!(vec!["", "a", "b", "c", ""], buf("abc").to_vec2(""));
    assert_eq!(vec!["", ""], BFRDYN::<4>::new().to_vec2(""));
}

#[test]
fn split_by_text_unless_sentinel() {
    let b = buf(r#""id":"123","model": "davinci""#);
    assert_eq!(vec![r#""id":"123"#, r#""model": "davinci""#], b.to_vecr("\",", '#'));
    assert_eq!(vec!["a,#b"], buf("a,#b").to_vecr(",", '#'));
    assert_eq!(vec!["", "a#", "b", ""], buf("a#b").to_vecr("", '#'));
}

#[test]
fn split_between_sentinels() {
    let b = buf(r#""id":"123","name":"Bill""#);
    assert_eq!(vec![r#""id":"123""#, r#""name":"Bill""#], b.to_veclr(',', '"', '"'));
}

#[test]
fn equality_compares_content() {
    let a = buf("some string");
    let mut b = buf("some string");
    assert!(a == b);
    b.append_ch('x').unwrap();
    assert!(a != b);
}

#[test]
fn len_never_exceeds_capacity() {
    let mut b = BFRDYN::<6>::new();
    for _ in 0..10 {
        let _ = b.append_ch('a');
        assert!(b.len() <= b.capacity());
    }
    let _ = b.prepend_str("xyz");
    assert!(b.len() <= b.capacity());
    let _ = b.rshift(0);
    assert!(b.len() <= b.capacity());
    let _ = b.insert_ch('q', 1);
    assert!(b.len() <= b.capacity());
    let _ = b.append(BFRDYN::<6>::from_text("zz").unwrap());
    assert_eq!(6, b.len());
    assert!(b.len() <= b.capacity());
}

#[test]
fn from_text_boundary_default_capacity() {
    let exact = "a".repeat(256);
    let b = BFRDYN::<256>::from_text(&exact).unwrap();
    assert_eq!(256, b.len());
    assert_eq!(exact, b.to_string());
    let over = "a".repeat(257);
    let e = BFRDYN::<256>::from_text(&over).map(|_| ()).unwrap_err();
    assert_eq!(NotEnoughCapacity::throw(256, 257), e);
}

#[test]
fn split_bytes_keeps_raw_segments() {
    let b = buf("a,b,,c");
    let segs = b.split_bytes(SplitRule::Drop, b",", 0, 0);
    assert_eq!(vec![b"a".to_vec(), b"b".to_vec(), Vec::new(), b"c".to_vec()], segs);
    let left = b.split_bytes(SplitRule::KeepLeft, b",", 0, 0);
    assert_eq!(vec![b"a,".to_vec(), b"b,".to_vec(), b",".to_vec(), b"c".to_vec()], left);
}

#[test]
fn checksum_arithmetic() {
    let a = buf("ab");
    let b = buf("a");
    assert_eq!(195 + 97, a.checksum_add(&b));
    assert_eq!(98, a.checksum_sub(&b));
    assert_eq!(195 * 97, a.checksum_mul(&b));
}

#[test]
fn replace_storage_takes_given_length() {
    let mut b = BFRDYN::<4>::from_text("ab").unwrap();
    b.replace_storage([b'x', b'y', b'z', b'w'], 3).unwrap();
    assert_eq!("xyz", b.to_string());
    assert_eq!([b'x', b'y', b'z', 0], b.as_bytes());
    assert_eq!(Err(InvalidIndex::throw(4, 5)), b.replace_storage([0; 4], 5));
    assert_eq!("xyz", b.to_string());
}
