use rust_utils::char_iter::CharIter;

#[test]
fn prev_char() {
    assert_eq!('A', CharIter::prev_char('B'))
}

#[test]
fn next_char() {
    assert_eq!('B', CharIter::next_char('A'))
}

#[test]
fn construct_exclusive() {
    let actual = CharIter::new('A'..'E');

    assert_eq!(actual.start(), 'A' as u32);
    assert_eq!(actual.end(), 'D' as u32);
}

#[test]
fn construct_inclusive() {
    let actual = CharIter::new('A'..='E');

    assert_eq!(actual.start(), 'A' as u32);
    assert_eq!(actual.end(), 'E' as u32);
}

#[test]
fn a_to_e() {
    let expected = vec!['A', 'B', 'C', 'D', 'E'];
    let mut it = CharIter::new('A'..='E');
    let mut actual = Vec::new();
    while let Some(c) = it.next() {
        actual.push(c);
    }

    assert_eq!(expected, actual);
}

#[test]
fn e_to_a() {
    let expected = vec!['E', 'D', 'C', 'B', 'A'];
    let mut it = CharIter::new('A'..='E');
    let mut actual = Vec::new();
    while let Some(c) = it.next_back() {
        actual.push(c);
    }

    assert_eq!(expected, actual);
}

#[test]
fn steps_over_surrogates() {
    assert_eq!(CharIter::prev_char('\u{E000}'), '\u{D7FF}');
    assert_eq!(CharIter::next_char('\u{D7FF}'), '\u{E000}');
}

#[test]
fn empty_exclusive_range() {
    let mut it = CharIter::new('A'..'A');

    assert_eq!(it.next(), None);
    assert_eq!(it.next_back(), None);
}

#[test]
fn both_ends_meet() {
    let mut it = CharIter::new('a'..'d');

    assert_eq!(it.next(), Some('a'));
    assert_eq!(it.next_back(), Some('c'));
    assert_eq!(it.next(), Some('b'));
    assert_eq!(it.next(), None);
    assert_eq!(it.next_back(), None);
}
