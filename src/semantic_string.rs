use vstd::prelude::*;

use itertools::Itertools;
use std::cmp::Ordering;
use vstd::string::StringSliceAdditionalSpecFns;
use vstd::utf8::{encode_scalar, encode_utf8, is_char_boundary};

use crate::order_laws::lemma_char_seq_cmp_equal;

verus! {

/// The character class that splits a string into runs: an ASCII decimal digit.
pub open spec fn is_digit(c: char) -> bool {
    '0' <= c && c <= '9'
}

/// Whether `c` is a numeric character within the ASCII range.
pub fn is_ascii_digit(c: char) -> (r: bool)
    ensures
        r == is_digit(c),
{
    '0' <= c && c <= '9'
}

/// The runs, concatenated in order.
pub open spec fn concat(runs: Seq<Seq<char>>) -> Seq<char>
    decreases runs.len(),
{
    if runs.len() == 0 {
        seq![]
    } else {
        concat(runs.drop_last()) + runs.last()
    }
}

/// `runs` cuts `s` into maximal non-empty runs of one character class.
pub open spec fn is_run_split(s: Seq<char>, runs: Seq<Seq<char>>) -> bool {
    &&& concat(runs) == s
    &&& forall|i: int| 0 <= i < runs.len() ==> #[trigger] runs[i].len() > 0
    &&& forall|i: int, j: int|
        0 <= i < runs.len() && 0 <= j < runs[i].len() ==> is_digit(#[trigger] runs[i][j])
            == is_digit(runs[i][0])
    &&& forall|i: int|
        0 <= i < runs.len() - 1 ==> is_digit(#[trigger] runs[i][0]) != is_digit(runs[i + 1][0])
}

/// The maximal runs of `s`, built from the left one character at a time.
pub open spec fn runs_of(s: Seq<char>) -> Seq<Seq<char>>
    decreases s.len(),
{
    if s.len() == 0 {
        seq![]
    } else {
        let r = runs_of(s.drop_last());
        if r.len() > 0 && is_digit(r.last().last()) == is_digit(s.last()) {
            r.drop_last().push(r.last().push(s.last()))
        } else {
            r.push(seq![s.last()])
        }
    }
}

proof fn lemma_concat_push(runs: Seq<Seq<char>>, x: Seq<char>)
    ensures
        concat(runs.push(x)) == concat(runs) + x,
{
    assert(runs.push(x).drop_last() =~= runs);
}

/// The runs of a string, concatenated in order, give back exactly that string; each run
/// is non-empty and of one character class, and neighbouring runs differ in class.
pub proof fn lemma_runs_of_split(s: Seq<char>)
    ensures
        is_run_split(s, runs_of(s)),
    decreases s.len(),
{
    if s.len() > 0 {
        let p = s.drop_last();
        let c = s.last();
        lemma_runs_of_split(p);
        let r = runs_of(p);
        assert(s =~= p.push(c));
        if r.len() > 0 && is_digit(r.last().last()) == is_digit(c) {
            let l = r.last();
            let r0 = r.drop_last();
            assert(r =~= r0.push(l));
            lemma_concat_push(r0, l);
            lemma_concat_push(r0, l.push(c));
            assert(concat(r0) + l.push(c) =~= concat(r0) + l + seq![c]);
            let n = runs_of(s);
            assert(n =~= r0.push(l.push(c)));
            assert(concat(n) == concat(r0) + l.push(c));
            assert(concat(r) == concat(r0) + l);
            assert(concat(n) =~= s);
            assert forall|i: int| 0 <= i < n.len() implies #[trigger] n[i].len() > 0 by {
                if i < n.len() - 1 {
                    assert(n[i] == r[i]);
                }
            }
            assert forall|i: int, j: int|
                0 <= i < n.len() && 0 <= j < n[i].len() implies is_digit(#[trigger] n[i][j])
                == is_digit(n[i][0]) by {
                if i < n.len() - 1 {
                    assert(n[i] == r[i]);
                } else if j < l.len() {
                    assert(n[i][j] == r[i][j]);
                    assert(n[i][0] == r[i][0]);
                } else {
                    assert(n[i][0] == r[i][0]);
                    assert(is_digit(l[l.len() - 1]) == is_digit(l[0]));
                }
            }
            assert forall|i: int| 0 <= i < n.len() - 1 implies is_digit(#[trigger] n[i][0])
                != is_digit(n[i + 1][0]) by {
                assert(n[i] == r[i]);
                assert(n[i + 1][0] == r[i + 1][0]);
            }
        } else {
            lemma_concat_push(r, seq![c]);
            let n = runs_of(s);
            assert(n =~= r.push(seq![c]));
            assert(concat(r) + seq![c] =~= s);
            assert(concat(n) =~= s);
            assert forall|i: int| 0 <= i < n.len() implies #[trigger] n[i].len() > 0 by {
                if i < n.len() - 1 {
                    assert(n[i] == r[i]);
                }
            }
            assert forall|i: int, j: int|
                0 <= i < n.len() && 0 <= j < n[i].len() implies is_digit(#[trigger] n[i][j])
                == is_digit(n[i][0]) by {
                if i < n.len() - 1 {
                    assert(n[i] == r[i]);
                }
            }
            assert forall|i: int| 0 <= i < n.len() - 1 implies is_digit(#[trigger] n[i][0])
                != is_digit(n[i + 1][0]) by {
                assert(n[i] == r[i]);
                if i < n.len() - 2 {
                    assert(n[i + 1] == r[i + 1]);
                } else {
                    let l = r.last();
                    assert(is_digit(l[l.len() - 1]) == is_digit(l[0]));
                }
            }
        }
    } else {
        assert(s =~= seq![]);
    }
}

/// A string has one split into maximal runs and no other, so tokenizing the same string
/// twice gives the same tokens.
pub proof fn lemma_run_split_unique(s: Seq<char>, runs: Seq<Seq<char>>)
    requires
        is_run_split(s, runs),
    ensures
        runs == runs_of(s),
    decreases s.len(),
{
    if runs.len() == 0 {
        assert(s.len() == 0);
    } else {
        let l = runs.last();
        let r0 = runs.drop_last();
        assert(runs =~= r0.push(l));
        lemma_concat_push(r0, l);
        assert(l.len() > 0);
        let c = l.last();
        let p = s.drop_last();
        assert(s.last() == c);
        if l.len() == 1 {
            assert(concat(r0) =~= p);
            lemma_run_split_unique(p, r0);
            if r0.len() > 0 {
                let k = r0.last();
                assert(k.len() > 0);
                assert(is_digit(k[k.len() - 1]) == is_digit(k[0]));
                assert(runs[r0.len() - 1] == k);
                assert(is_digit(k[0]) != is_digit(l[0]));
            }
            assert(l =~= seq![c]);
        } else {
            let l0 = l.drop_last();
            let q = r0.push(l0);
            lemma_concat_push(r0, l0);
            assert(concat(r0) + l =~= concat(r0) + l0 + seq![c]);
            assert(concat(q) =~= p);
            assert forall|i: int, j: int|
                0 <= i < q.len() && 0 <= j < q[i].len() implies is_digit(#[trigger] q[i][j])
                == is_digit(q[i][0]) by {
                if i == q.len() - 1 {
                    assert(q[i][j] == runs[i][j]);
                    assert(q[i][0] == runs[i][0]);
                } else {
                    assert(q[i] == runs[i]);
                }
            }
            assert forall|i: int| 0 <= i < q.len() - 1 implies is_digit(#[trigger] q[i][0])
                != is_digit(q[i + 1][0]) by {
                assert(q[i] == runs[i]);
                assert(q[i + 1][0] == runs[i + 1][0]);
            }
            assert forall|i: int| 0 <= i < q.len() implies #[trigger] q[i].len() > 0 by {
                if i < q.len() - 1 {
                    assert(q[i] == runs[i]);
                }
            }
            lemma_run_split_unique(p, q);
            assert(q.last() == l0);
            assert(is_digit(l0[l0.len() - 1]) == is_digit(l[0]));
            assert(is_digit(c) == is_digit(l[0]));
            assert(q.drop_last() =~= r0);
            assert(l0.push(c) =~= l);
        }
    }
}

pub(crate) proof fn lemma_concat_append(a: Seq<Seq<char>>, b: Seq<Seq<char>>)
    ensures
        concat(a + b) == concat(a) + concat(b),
    decreases b.len(),
{
    if b.len() == 0 {
        assert(a + b =~= a);
        assert(concat(a) + concat(b) =~= concat(a));
    } else {
        assert((a + b).drop_last() =~= a + b.drop_last());
        lemma_concat_append(a, b.drop_last());
        assert((a + b).last() == b.last());
        assert(concat(a) + concat(b.drop_last()) + b.last() =~= concat(a) + (concat(
            b.drop_last(),
        ) + b.last()));
    }
}

proof fn lemma_run_at(s: Seq<char>, runs: Seq<Seq<char>>, i: int)
    requires
        concat(runs) == s,
        0 <= i < runs.len(),
    ensures
        concat(runs.take(i + 1)) == concat(runs.take(i)) + runs[i],
        concat(runs.take(i)).len() + runs[i].len() <= s.len(),
        s.subrange(concat(runs.take(i)).len() as int, concat(runs.take(i)).len() + runs[i].len() as int)
            == runs[i],
{
    let a = runs.take(i);
    let b = runs.take(i + 1);
    assert(b.drop_last() =~= a);
    assert(runs =~= b + runs.skip(i + 1));
    lemma_concat_append(b, runs.skip(i + 1));
    assert(s == concat(a) + runs[i] + concat(runs.skip(i + 1)));
    assert(s.subrange(concat(a).len() as int, concat(a).len() + runs[i].len() as int) =~= runs[i]);
}

/// The value of a run of decimal digits.
pub open spec fn decimal_value(ds: Seq<char>) -> nat
    decreases ds.len(),
{
    if ds.len() == 0 {
        0
    } else {
        decimal_value(ds.drop_last()) * 10 + (ds.last() as nat - '0' as nat) as nat
    }
}

/// Every character of `ds` is a digit.
pub open spec fn all_digits(ds: Seq<char>) -> bool {
    forall|i: int| 0 <= i < ds.len() ==> is_digit(#[trigger] ds[i])
}

pub(crate) proof fn lemma_decimal_prefix_le(ds: Seq<char>, k: int)
    requires
        0 <= k <= ds.len(),
        all_digits(ds),
    ensures
        decimal_value(ds.take(k)) <= decimal_value(ds),
    decreases ds.len(),
{
    if k < ds.len() {
        let p = ds.drop_last();
        assert(all_digits(p)) by {
            assert forall|i: int| 0 <= i < p.len() implies is_digit(#[trigger] p[i]) by {
                assert(p[i] == ds[i]);
            }
        }
        lemma_decimal_prefix_le(p, k);
        assert(p.take(k) =~= ds.take(k));
    } else {
        assert(ds.take(k) =~= ds);
    }
}

proof fn lemma_run_all_digits(s: Seq<char>, runs: Seq<Seq<char>>, i: int)
    requires
        is_run_split(s, runs),
        0 <= i < runs.len(),
        is_digit(runs[i][0]),
    ensures
        all_digits(runs[i]),
{
    assert forall|j: int| 0 <= j < runs[i].len() implies is_digit(#[trigger] runs[i][j]) by {
        assert(is_digit(runs[i][j]) == is_digit(runs[i][0]));
    }
}

pub(crate) proof fn lemma_encode_append(x: Seq<char>, y: Seq<char>)
    ensures
        encode_utf8(x + y) == encode_utf8(x) + encode_utf8(y),
    decreases x.len(),
{
    if x.len() == 0 {
        assert(x + y =~= y);
        assert(encode_utf8(x) + encode_utf8(y) =~= encode_utf8(y));
    } else {
        assert((x + y).drop_first() =~= x.drop_first() + y);
        assert((x + y)[0] == x[0]);
        lemma_encode_append(x.drop_first(), y);
        let h = vstd::utf8::encode_scalar(x[0] as u32);
        assert(h + (encode_utf8(x.drop_first()) + encode_utf8(y)) =~= h + encode_utf8(
            x.drop_first(),
        ) + encode_utf8(y));
    }
}

/// In the encoding of `p + q`, the end of `p`'s bytes is a char boundary.
proof fn lemma_boundary_after(p: Seq<char>, q: Seq<char>)
    ensures
        is_char_boundary(encode_utf8(p + q), encode_utf8(p).len() as int),
    decreases p.len(),
{
    broadcast use vstd::utf8::encode_utf8_valid_utf8;

    lemma_encode_append(p, q);
    if p.len() > 0 {
        let s = p + q;
        let bytes = encode_utf8(s);
        vstd::utf8::encode_utf8_first_scalar(s);
        assert(s[0] == p[0]);
        assert(s.drop_first() =~= p.drop_first() + q);
        assert(vstd::utf8::pop_first_scalar(bytes) =~= encode_utf8(s.drop_first()));
        lemma_boundary_after(p.drop_first(), q);
    }
}

/// The number of bytes in the UTF-8 encoding of `c`.
fn utf8_width(c: char) -> (r: usize)
    ensures
        r == encode_scalar(c as u32).len(),
{
    proof {
        vstd::utf8::char_is_scalar(c);
    }
    let v = c as u32;
    if v < 0x80 {
        1
    } else if v < 0x800 {
        2
    } else if v < 0x10000 {
        3
    } else {
        4
    }
}

/// The number of bytes in the UTF-8 encoding of a run.
fn run_byte_len(run: &Vec<char>) -> (r: usize)
    requires
        encode_utf8(run@).len() <= usize::MAX,
    ensures
        r == encode_utf8(run@).len(),
{
    let mut total: usize = 0;
    let mut i: usize = 0;
    while i < run.len()
        invariant
            i <= run@.len(),
            total == encode_utf8(run@.take(i as int)).len(),
            encode_utf8(run@).len() <= usize::MAX,
        decreases run@.len() - i,
    {
        let w = utf8_width(run[i]);
        proof {
            let c = run@[i as int];
            lemma_encode_append(run@.take(i as int), seq![c]);
            assert(run@.take(i + 1) =~= run@.take(i as int) + seq![c]);
            assert(seq![c].drop_first() =~= Seq::<char>::empty());
            assert(encode_utf8(Seq::<char>::empty()) =~= Seq::<u8>::empty());
            assert(encode_utf8(seq![c]) == encode_scalar(seq![c][0] as u32) + encode_utf8(
                seq![c].drop_first(),
            ));
            assert(encode_utf8(seq![c]) =~= encode_scalar(c as u32));
            lemma_encode_append(run@.take(i + 1), run@.skip(i + 1));
            assert(run@ =~= run@.take(i + 1) + run@.skip(i + 1));
        }
        total = total + w;
        i = i + 1;
    }
    assert(run@.take(i as int) =~= run@);
    total
}

/// Splits the run at the front of `s` from what follows it.
fn split_run<'b>(s: &'b str, run: &Vec<char>) -> (r: (&'b str, &'b str))
    requires
        run@.len() <= s@.len(),
        s@.subrange(0, run@.len() as int) == run@,
    ensures
        r.0@ == run@,
        r.1@ == s@.subrange(run@.len() as int, s@.len() as int),
{
    let ghost after = s@.subrange(run@.len() as int, s@.len() as int);
    let total = s.as_bytes().len();
    proof {
        assert(s@ =~= run@ + after);
        lemma_encode_append(run@, after);
        lemma_boundary_after(run@, after);
        assert(total == encode_utf8(s@).len());
    }
    let b = run_byte_len(run);
    let (head, tail) = s.split_at(b);
    proof {
        let bytes = encode_utf8(run@) + encode_utf8(after);
        assert(head.spec_bytes() =~= bytes.subrange(0, b as int));
        assert(encode_utf8(head@) =~= encode_utf8(run@));
        assert(encode_utf8(tail@) =~= encode_utf8(after));
        vstd::utf8::encode_utf8_decode_utf8(head@);
        vstd::utf8::encode_utf8_decode_utf8(run@);
        vstd::utf8::encode_utf8_decode_utf8(tail@);
        vstd::utf8::encode_utf8_decode_utf8(after);
    }
    (head, tail)
}

/// Reads a run of decimal digits as a `u64`; `None` where its value does not fit.
fn parse_decimal(ds: &Vec<char>) -> (r: Option<u64>)
    requires
        all_digits(ds@),
    ensures
        match r {
            Some(v) => v as nat == decimal_value(ds@),
            None => decimal_value(ds@) > u64::MAX,
        },
{
    let mut acc: u64 = 0;
    let mut i: usize = 0;
    while i < ds.len()
        invariant
            i <= ds@.len(),
            all_digits(ds@),
            acc as nat == decimal_value(ds@.take(i as int)),
        decreases ds@.len() - i,
    {
        let c = ds[i];
        assert(is_digit(ds@[i as int]));
        let d = (c as u32 - '0' as u32) as u64;
        assert(ds@.take(i + 1).drop_last() =~= ds@.take(i as int));
        assert(ds@.take(i + 1).last() == c);
        match acc.checked_mul(10) {
            Some(m) => match m.checked_add(d) {
                Some(v) => {
                    acc = v;
                },
                None => {
                    proof {
                        lemma_decimal_prefix_le(ds@, i + 1);
                    }
                    return None;
                },
            },
            None => {
                proof {
                    lemma_decimal_prefix_le(ds@, i + 1);
                }
                return None;
            },
        }
        i = i + 1;
    }
    assert(ds@.take(i as int) =~= ds@);
    Some(acc)
}

/// Relies on itertools' `Itertools::group_by`, applied to `str::chars`: consecutive
/// characters with the same key form one non-empty group, and the groups come in order.
#[verifier::external_body]
fn group_runs(s: &str) -> (r: Vec<(bool, Vec<char>)>)
    ensures
        is_run_split(s@, r@.map_values(|g: (bool, Vec<char>)| g.1@)),
        forall|i: int| 0 <= i < r@.len() ==> #[trigger] r@[i].0 == is_digit(r@[i].1@[0]),
{
    let groups = s.chars().group_by(|c: &char| is_ascii_digit(*c));
    let runs: Vec<(bool, Vec<char>)> = (&groups).into_iter().map(|(k, g)| (k, g.collect())).collect();
    runs
}

/// A token as a value: a run of text, or the number that a run of digits spells.
pub enum Part {
    Text(Seq<char>),
    Number(nat),
}

/// The token that one run stands for.
pub open spec fn part_of(run: Seq<char>) -> Part {
    if is_digit(run[0]) {
        Part::Number(decimal_value(run))
    } else {
        Part::Text(run)
    }
}

/// The tokens of a string, in order.
pub open spec fn parts_of(s: Seq<char>) -> Seq<Part> {
    runs_of(s).map_values(|r: Seq<char>| part_of(r))
}

/// Every run of digits in `s` has a value that fits in a `u64`.
pub open spec fn numbers_fit(s: Seq<char>) -> bool {
    forall|i: int|
        0 <= i < runs_of(s).len() && is_digit(runs_of(s)[i][0]) ==> decimal_value(
            #[trigger] runs_of(s)[i],
        ) <= u64::MAX
}

/// Lexicographic order of two character sequences, character by character.
pub open spec fn char_seq_cmp(a: Seq<char>, b: Seq<char>) -> Ordering
    decreases a.len(),
{
    if a.len() == 0 {
        if b.len() == 0 {
            Ordering::Equal
        } else {
            Ordering::Less
        }
    } else if b.len() == 0 {
        Ordering::Greater
    } else if a[0] < b[0] {
        Ordering::Less
    } else if a[0] > b[0] {
        Ordering::Greater
    } else {
        char_seq_cmp(a.drop_first(), b.drop_first())
    }
}

/// Order of two tokens: text by text, numbers by value, and text before any number.
pub open spec fn part_cmp(a: Part, b: Part) -> Ordering {
    match (a, b) {
        (Part::Text(x), Part::Text(y)) => char_seq_cmp(x, y),
        (Part::Number(x), Part::Number(y)) => if x < y {
            Ordering::Less
        } else if x > y {
            Ordering::Greater
        } else {
            Ordering::Equal
        },
        (Part::Text(_), Part::Number(_)) => Ordering::Less,
        (Part::Number(_), Part::Text(_)) => Ordering::Greater,
    }
}

/// Order of two token sequences, walked in lock-step: the first pair that differs
/// decides; where the shorter one runs out first the two are equal.
pub open spec fn parts_cmp(a: Seq<Part>, b: Seq<Part>) -> Ordering
    decreases a.len(),
{
    if a.len() == 0 || b.len() == 0 {
        Ordering::Equal
    } else if part_cmp(a[0], b[0]) != Ordering::Equal {
        part_cmp(a[0], b[0])
    } else {
        parts_cmp(a.drop_first(), b.drop_first())
    }
}

/// The length of a string in bytes, as `str::len` gives it.
pub open spec fn byte_len(s: Seq<char>) -> usize {
    encode_utf8(s).len() as usize
}

/// Order of two strings: the shorter in bytes first; at equal byte lengths, their
/// tokens decide.
pub open spec fn semantic_cmp(a: Seq<char>, b: Seq<char>) -> Ordering {
    if byte_len(a) < byte_len(b) {
        Ordering::Less
    } else if byte_len(a) > byte_len(b) {
        Ordering::Greater
    } else {
        parts_cmp(parts_of(a), parts_of(b))
    }
}

/// Relies on `Ord for str`: strings are ordered lexicographically, which orders
/// their characters by code point.
#[verifier::external_body]
fn str_cmp(a: &str, b: &str) -> (r: Ordering)
    ensures
        r == char_seq_cmp(a@, b@),
{
    a.cmp(b)
}

/// Why a string could not be parsed.
#[derive(Debug, Clone, Copy, PartialEq, Eq)]
pub enum SemanticStringError {
    /// A run of digits has a value beyond `u64::MAX`.
    NumberOverflow,
}

#[derive(Debug)]
enum StringPart<'a> {
    Text(&'a str),
    Number(u64),
}

impl<'a> View for StringPart<'a> {
    type V = Part;

    closed spec fn view(&self) -> Part {
        match self {
            StringPart::Text(t) => Part::Text(t@),
            StringPart::Number(n) => Part::Number(*n as nat),
        }
    }
}

impl<'a> StringPart<'a> {
    fn cmp(&self, other: &Self) -> (r: Ordering)
        ensures
            r == part_cmp(self@, other@),
    {
        match (self, other) {
            (StringPart::Text(a), StringPart::Text(b)) => str_cmp(a, b),
            (StringPart::Number(a), StringPart::Number(b)) => {
                if a < b {
                    Ordering::Less
                } else if a > b {
                    Ordering::Greater
                } else {
                    Ordering::Equal
                }
            },
            (StringPart::Text(_), StringPart::Number(_)) => Ordering::Less,
            (StringPart::Number(_), StringPart::Text(_)) => Ordering::Greater,
        }
    }
}

/// A string together with its tokens: runs of text and numbers, in order.
#[derive(Debug)]
pub struct SemanticString<'a> {
    raw: &'a str,
    parts: Vec<StringPart<'a>>,
}

impl<'a> View for SemanticString<'a> {
    type V = Seq<char>;

    closed spec fn view(&self) -> Seq<char> {
        self.raw@
    }
}

/// Two parsed strings are equal where their strings are.
impl<'a> PartialEq for SemanticString<'a> {
    fn eq(&self, other: &Self) -> (r: bool) {
        let c = str_cmp(self.raw, other.raw);
        proof {
            lemma_char_seq_cmp_equal(self@, other@);
        }
        match c {
            Ordering::Equal => true,
            _ => false,
        }
    }
}

impl<'a> vstd::std_specs::cmp::PartialEqSpecImpl for SemanticString<'a> {
    open spec fn obeys_eq_spec() -> bool {
        true
    }

    open spec fn eq_spec(&self, other: &Self) -> bool {
        self@ == other@
    }
}

impl<'a> Eq for SemanticString<'a> {

}

impl<'a> SemanticString<'a> {
    #[verifier::type_invariant]
    spec fn parts_match(&self) -> bool {
        self.parts@.map_values(|p: StringPart<'a>| p@) == parts_of(self.raw@)
    }

    /// Parses `raw` into its tokens; fails exactly where a run of digits overflows a `u64`.
    pub fn new(raw: &'a str) -> (r: Result<SemanticString<'a>, SemanticStringError>)
        ensures
            r is Ok <==> numbers_fit(raw@),
            match r {
                Ok(s) => s@ == raw@,
                Err(e) => e == SemanticStringError::NumberOverflow,
            },
    {
        let groups = group_runs(raw);
        let ghost runs = groups@.map_values(|g: (bool, Vec<char>)| g.1@);
        proof {
            lemma_run_split_unique(raw@, runs);
        }
        let mut parts: Vec<StringPart<'a>> = Vec::new();
        let mut rest: &'a str = raw;
        let ghost mut pos: int = 0;
        let mut i: usize = 0;
        while i < groups.len()
            invariant
                i <= groups@.len(),
                runs == groups@.map_values(|g: (bool, Vec<char>)| g.1@),
                runs == runs_of(raw@),
                is_run_split(raw@, runs),
                forall|k: int| 0 <= k < groups@.len() ==> #[trigger] groups@[k].0 == is_digit(groups@[k].1@[0]),
                pos == concat(runs.take(i as int)).len(),
                pos <= raw@.len(),
                rest@ == raw@.subrange(pos, raw@.len() as int),
                parts@.len() == i,
                forall|k: int| 0 <= k < i ==> #[trigger] parts@[k]@ == part_of(runs[k]),
                forall|k: int|
                    0 <= k < i && is_digit(runs[k][0]) ==> decimal_value(#[trigger] runs[k])
                        <= u64::MAX,
            decreases groups@.len() - i,
        {
            let g = &groups[i];
            let ghost run = runs[i as int];
            proof {
                lemma_run_at(raw@, runs, i as int);
                assert(g.1@ == run);
                assert(rest@.subrange(0, run.len() as int) =~= run);
            }
            let (head, tail) = split_run(rest, &g.1);
            if g.0 {
                proof {
                    lemma_run_all_digits(raw@, runs, i as int);
                }
                match parse_decimal(&g.1) {
                    Some(v) => {
                        parts.push(StringPart::Number(v));
                    },
                    None => {
                        assert(!numbers_fit(raw@)) by {
                            assert(is_digit(runs_of(raw@)[i as int][0]));
                        }
                        return Err(SemanticStringError::NumberOverflow);
                    },
                }
            } else {
                parts.push(StringPart::Text(head));
            }
            rest = tail;
            proof {
                pos = pos + run.len();
                assert(rest@ =~= raw@.subrange(pos, raw@.len() as int));
            }
            i = i + 1;
        }
        assert(parts@.map_values(|p: StringPart<'a>| p@) =~= parts_of(raw@));
        Ok(SemanticString { raw, parts })
    }

    /// The string that was parsed.
    pub fn raw(&self) -> (r: &'a str)
        ensures
            r@ == self@,
    {
        self.raw
    }

    /// The number of tokens.
    pub fn part_count(&self) -> (r: usize)
        ensures
            r == parts_of(self@).len(),
    {
        proof {
            use_type_invariant(self);
        }
        self.parts.len()
    }

    /// Compares by byte length first and, at equal lengths, token by token.
    pub fn cmp(&self, other: &Self) -> (r: Ordering)
        ensures
            r == semantic_cmp(self@, other@),
    {
        proof {
            use_type_invariant(self);
            use_type_invariant(other);
        }
        let la = self.raw.len();
        let lb = other.raw.len();
        if la < lb {
            return Ordering::Less;
        } else if la > lb {
            return Ordering::Greater;
        }
        let ghost pa = self.parts@.map_values(|p: StringPart<'a>| p@);
        let ghost pb = other.parts@.map_values(|p: StringPart<'a>| p@);
        assert(pa.skip(0) =~= pa);
        assert(pb.skip(0) =~= pb);
        assert(semantic_cmp(self@, other@) == parts_cmp(pa, pb));
        let mut i: usize = 0;
        while i < self.parts.len() && i < other.parts.len()
            invariant
                i <= self.parts@.len(),
                i <= other.parts@.len(),
                pa == self.parts@.map_values(|p: StringPart<'a>| p@),
                pb == other.parts@.map_values(|p: StringPart<'a>| p@),
                parts_cmp(pa, pb) == parts_cmp(pa.skip(i as int), pb.skip(i as int)),
                semantic_cmp(self@, other@) == parts_cmp(pa, pb),
            decreases self.parts@.len() - i,
        {
            let c = self.parts[i].cmp(&other.parts[i]);
            assert(pa.skip(i as int)[0] == pa[i as int]);
            assert(pb.skip(i as int)[0] == pb[i as int]);
            match c {
                Ordering::Equal => {},
                _ => {
                    assert(parts_cmp(pa.skip(i as int), pb.skip(i as int)) == c);
                    return c;
                },
            }
            assert(pa.skip(i as int).drop_first() =~= pa.skip(i + 1));
            assert(pb.skip(i as int).drop_first() =~= pb.skip(i + 1));
            i = i + 1;
        }
        Ordering::Equal
    }
}

} // verus!
