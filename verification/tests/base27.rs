use puzzles::common::base27::{ib3_to_sb27be, sb27be_to_ib3};

fn chars(s: &str) -> Vec<char> {
    s.chars().collect()
}

#[test]
fn base27_test_encode() {
    assert_eq!(ib3_to_sb27be(&[0, 1, 0, 0, 2, 0]), Ok("36".to_owned()));
}

#[test]
fn base27_test_decode() {
    assert_eq!(sb27be_to_ib3(&chars("36")), Ok(vec![0, 1, 0, 0, 2, 0]));
    assert_eq!(sb27be_to_ib3(&chars("Ab")), Ok(vec![1, 0, 1, 1, 0, 2]));
}

#[test]
fn base27_rejects_a_digit_above_two() {
    assert_eq!(ib3_to_sb27be(&[0, 1, 3]), Err("invalid digit in input"));
}

#[test]
fn base27_rejects_a_character_outside_the_alphabet() {
    assert_eq!(sb27be_to_ib3(&chars("3r")), Err("invalid character in input"));
    assert_eq!(sb27be_to_ib3(&chars("R")), Err("invalid character in input"));
}

#[test]
fn base27_fills_the_last_group_with_zeros() {
    assert_eq!(ib3_to_sb27be(&[1]), Ok("9".to_owned()));
    assert_eq!(ib3_to_sb27be(&[2, 2, 2, 0, 1]), Ok("q3".to_owned()));
    assert_eq!(ib3_to_sb27be(&[]), Ok("".to_owned()));
}

#[test]
fn base27_round_trips() {
    let digits = vec![2, 0, 1, 1, 2];
    let text = ib3_to_sb27be(&digits).unwrap();
    let back = sb27be_to_ib3(&chars(&text)).unwrap();
    assert_eq!(back, vec![2, 0, 1, 1, 2, 0]);
    assert_eq!(ib3_to_sb27be(&sb27be_to_ib3(&chars("aQ0")).unwrap()), Ok("aq0".to_owned()));
}
