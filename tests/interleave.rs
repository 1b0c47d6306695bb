use rust_utils::interleave::{Interleave, InterleaveIters};

fn drain(mut it: InterleaveIters<char>) -> Vec<char> {
    let mut out = Vec::new();
    while let Some(c) = it.next() {
        out.push(c);
    }
    out
}

#[test]
fn interleave_same_len() {
    let a = vec!['a', 'b'];
    let b = vec!['1', '2'];
    let c: Vec<_> = drain(a.interleave(b));

    let expected = vec!['a', '1', 'b', '2'];

    assert_eq!(c, expected);
}

#[test]
fn interleave_a_longer() {
    let a = vec!['a', 'b', 'c'];
    let b = vec!['1', '2'];
    let c: Vec<_> = drain(a.interleave(b));

    let expected = vec!['a', '1', 'b', '2', 'c'];

    assert_eq!(c, expected);
}

#[test]
fn interleave_b_longer() {
    let a = vec!['a', 'b'];
    let b = vec!['1', '2', '3'];
    let c: Vec<_> = drain(a.interleave(b));

    let expected = vec!['a', '1', 'b', '2'];

    assert_eq!(c, expected);
}

#[test]
fn interleave_empty_first() {
    let a: Vec<char> = vec![];
    let b = vec!['1'];

    assert_eq!(drain(a.interleave(b)), Vec::<char>::new());
}

#[test]
fn stays_finished() {
    let mut it = vec!['a'].interleave(vec![]);

    assert_eq!(it.next(), Some('a'));
    assert_eq!(it.next(), None);
    assert_eq!(it.next(), None);
}
