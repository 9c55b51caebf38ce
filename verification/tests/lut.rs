use puzzles::common::lut::{u8_to_index, AsciiLut};

#[test]
pub fn test_lut() {
    let lut = AsciiLut::from_alphabet("abc");

    assert_eq!(lut.decode('a'), Some(0));
    assert_eq!(lut.decode('b'), Some(1));
    assert_eq!(lut.decode('c'), Some(2));
    assert_eq!(lut.decode('A'), None);
    assert_eq!(lut.decode('\u{2014}'), None);

    assert_eq!(lut.encode(0), Some('a'));
    assert_eq!(lut.encode(1), Some('b'));
    assert_eq!(lut.encode(2), Some('c'));
    assert_eq!(lut.encode(3), None);
    assert_eq!(lut.encode(128), None);
}

#[test]
pub fn test_lut_case_insensitive() {
    let lut = AsciiLut::from_alphabet_case_insensitive("abc");

    assert_eq!(lut.decode('a'), Some(0));
    assert_eq!(lut.decode('b'), Some(1));
    assert_eq!(lut.decode('c'), Some(2));
    assert_eq!(lut.decode('A'), Some(0));
    assert_eq!(lut.decode('\u{2014}'), None);

    assert_eq!(lut.encode(0), Some('a'));
    assert_eq!(lut.encode(1), Some('b'));
    assert_eq!(lut.encode(2), Some('c'));
    assert_eq!(lut.encode(3), None);
    assert_eq!(lut.encode(128), None);
}

#[test]
fn lut_gives_a_repeated_character_its_last_position() {
    let lut = AsciiLut::from_alphabet("abca");
    assert_eq!(lut.decode('a'), Some(3));
    assert_eq!(lut.encode(0), Some('a'));
    assert_eq!(lut.encode(3), Some('a'));
}

#[test]
fn lut_case_insensitive_keeps_letters_as_written() {
    let lut = AsciiLut::from_alphabet_case_insensitive("0aB");
    assert_eq!(lut.decode('0'), Some(0));
    assert_eq!(lut.decode('A'), Some(1));
    assert_eq!(lut.decode('b'), Some(2));
    assert_eq!(lut.encode(1), Some('a'));
    assert_eq!(lut.encode(2), Some('B'));
}

#[test]
fn u8_to_index_keeps_last_positions() {
    let t = u8_to_index(&[7, 3, 7]);
    assert_eq!(t[7], Some(2));
    assert_eq!(t[3], Some(1));
    assert_eq!(t[0], None);
    assert_eq!(t[255], None);
}
