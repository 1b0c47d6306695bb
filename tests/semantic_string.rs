use rust_utils::semantic_string::{SemanticString, SemanticStringError};
use std::cmp::Ordering;

fn sorted<'a>(strings: &[&'a str]) -> Vec<&'a str> {
    let mut sem_strings: Vec<SemanticString<'a>> =
        strings.iter().map(|x| SemanticString::new(x).unwrap()).collect();
    sem_strings.sort_by(|a, b| a.cmp(b));
    sem_strings.iter().map(|x| x.raw()).collect()
}

#[test]
fn mixed() {
    let strings = ["foo11bar", "foo2bar"];
    let orig = sorted(&strings);

    assert_eq!(orig, vec!["foo2bar", "foo11bar"]);
}

#[test]
fn text() {
    let strings = ["foo", "bar"];
    let orig = sorted(&strings);

    assert_eq!(orig, vec!["bar", "foo"]);
}

#[test]
fn numbers() {
    let strings = ["2", "10", "1"];
    let orig = sorted(&strings);

    assert_eq!(orig, vec!["1", "2", "10"]);
}

#[test]
fn mixed_2() {
    let strings = ["test", "2"];
    let orig = sorted(&strings);

    assert_eq!(orig, vec!["2", "test"]);
}

#[test]
fn empty() {
    let string = "";
    let sem_string = SemanticString::new(string).unwrap();

    assert_eq!(string, sem_string.raw());
}

#[test]
fn empty_has_no_parts() {
    let sem_string = SemanticString::new("").unwrap();

    assert_eq!(sem_string.part_count(), 0);
    assert_eq!(sem_string.raw(), "");
}

#[test]
fn length_decides_first() {
    let strings = ["item11", "item2"];

    assert_eq!(sorted(&strings), vec!["item2", "item11"]);
}

#[test]
fn equal_length_numbers_decide() {
    let strings = ["foo9xbar", "foo10bar"];
    let a = SemanticString::new(strings[0]).unwrap();
    let b = SemanticString::new(strings[1]).unwrap();

    assert_eq!(a.cmp(&b), Ordering::Less);
    assert_eq!(b.cmp(&a), Ordering::Greater);
}

#[test]
fn equal_length_compares_numbers_by_value() {
    let a = SemanticString::new("a9b").unwrap();
    let b = SemanticString::new("a10").unwrap();
    let c = SemanticString::new("x90").unwrap();
    let d = SemanticString::new("x100").unwrap();

    assert_eq!(a.cmp(&b), Ordering::Less);
    let e = SemanticString::new("x89").unwrap();
    assert_eq!(e.cmp(&c), Ordering::Less);
    assert_eq!(c.cmp(&d), Ordering::Less);
}

#[test]
fn text_before_number_at_same_position() {
    let a = SemanticString::new("a1").unwrap();
    let b = SemanticString::new("1a").unwrap();

    assert_eq!(a.cmp(&b), Ordering::Less);
    assert_eq!(b.cmp(&a), Ordering::Greater);
}

#[test]
fn parts_count_runs() {
    assert_eq!(SemanticString::new("foo11bar").unwrap().part_count(), 3);
    assert_eq!(SemanticString::new("12ab3").unwrap().part_count(), 3);
    assert_eq!(SemanticString::new("abc").unwrap().part_count(), 1);
    assert_eq!(SemanticString::new("0042").unwrap().part_count(), 1);
}

#[test]
fn non_ascii_digits_are_text() {
    let s = SemanticString::new("x\u{0663}y").unwrap();

    assert_eq!(s.part_count(), 1);
    assert_eq!(s.raw(), "x\u{0663}y");
}

#[test]
fn largest_number_fits() {
    let s = SemanticString::new("n18446744073709551615").unwrap();

    assert_eq!(s.part_count(), 2);
}

#[test]
fn overflow_is_an_error() {
    let r = SemanticString::new("n18446744073709551616");

    assert_eq!(r.err(), Some(SemanticStringError::NumberOverflow));
}

#[test]
fn leading_zeros_compare_by_value() {
    let a = SemanticString::new("x007").unwrap();
    let b = SemanticString::new("x010").unwrap();

    assert_eq!(a.cmp(&b), Ordering::Less);
}

#[test]
fn same_string_compares_equal() {
    let a = SemanticString::new("ab12cd").unwrap();
    let b = SemanticString::new("ab12cd").unwrap();

    assert_eq!(a.cmp(&b), Ordering::Equal);
    assert_eq!(a.cmp(&a), Ordering::Equal);
    assert_eq!(a.part_count(), b.part_count());
}

#[test]
fn order_is_transitive_on_sample() {
    let raws = ["b2", "a10", "a9", "10", "z", "a1b", "9"];
    let parsed: Vec<SemanticString> =
        raws.iter().map(|x| SemanticString::new(x).unwrap()).collect();
    for a in &parsed {
        for b in &parsed {
            assert_eq!(a.cmp(b), b.cmp(a).reverse());
            for c in &parsed {
                if a.cmp(b) != Ordering::Greater && b.cmp(c) != Ordering::Greater {
                    assert_ne!(a.cmp(c), Ordering::Greater);
                }
            }
        }
    }
}

#[test]
fn byte_length_counts_utf8_bytes() {
    let a = SemanticString::new("\u{e9}").unwrap();
    let b = SemanticString::new("zz").unwrap();
    let c = SemanticString::new("zzz").unwrap();
    let d = SemanticString::new("z").unwrap();

    assert_eq!(a.cmp(&b), Ordering::Greater);
    assert_eq!(a.cmp(&c), Ordering::Less);
    assert_eq!(a.cmp(&d), Ordering::Greater);
}

#[test]
fn leading_zeros_can_tie_different_strings() {
    let a = SemanticString::new("001").unwrap();
    let b = SemanticString::new("1ab").unwrap();

    assert_eq!(a.cmp(&b), Ordering::Equal);
    assert_ne!(a.raw(), b.raw());
}

#[test]
fn equality_is_raw_string_equality() {
    let a = SemanticString::new("ab12").unwrap();
    let b = SemanticString::new("ab12").unwrap();
    let c = SemanticString::new("ab012").unwrap();
    let d = SemanticString::new("001").unwrap();
    let e = SemanticString::new("1ab").unwrap();

    assert!(a == b);
    assert!(a != c);
    assert!(d != e);
}
