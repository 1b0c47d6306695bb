use vstd::prelude::*;

use std::cmp::Ordering;

use vstd::utf8::encode_utf8;

use crate::semantic_string::{
    all_digits, byte_len, char_seq_cmp, concat, decimal_value, is_digit, lemma_concat_append,
    lemma_encode_append,
    lemma_decimal_prefix_le, lemma_runs_of_split, part_cmp, part_of, parts_cmp, parts_of,
    runs_of, semantic_cmp, Part,
};

verus! {

/// The opposite outcome of a comparison.
pub open spec fn flip(o: Ordering) -> Ordering {
    match o {
        Ordering::Less => Ordering::Greater,
        Ordering::Equal => Ordering::Equal,
        Ordering::Greater => Ordering::Less,
    }
}

proof fn lemma_char_seq_cmp_flip(a: Seq<char>, b: Seq<char>)
    ensures
        char_seq_cmp(a, b) == flip(char_seq_cmp(b, a)),
    decreases a.len(),
{
    if a.len() > 0 && b.len() > 0 && a[0] == b[0] {
        lemma_char_seq_cmp_flip(a.drop_first(), b.drop_first());
    }
}

pub(crate) proof fn lemma_char_seq_cmp_equal(a: Seq<char>, b: Seq<char>)
    ensures
        char_seq_cmp(a, b) == Ordering::Equal <==> a == b,
    decreases a.len(),
{
    if a.len() > 0 && b.len() > 0 && a[0] == b[0] {
        lemma_char_seq_cmp_equal(a.drop_first(), b.drop_first());
        if a.drop_first() == b.drop_first() {
            assert(a =~= seq![a[0]] + a.drop_first());
            assert(b =~= seq![b[0]] + b.drop_first());
        }
        if a == b {
            assert(a.drop_first() == b.drop_first());
        }
    } else if a.len() == 0 && b.len() == 0 {
        assert(a =~= b);
    } else if a.len() > 0 && b.len() > 0 {
        assert(a[0] != b[0]);
    } else {
        assert(a.len() != b.len());
    }
}

proof fn lemma_char_seq_cmp_less_trans(a: Seq<char>, b: Seq<char>, c: Seq<char>)
    requires
        char_seq_cmp(a, b) == Ordering::Less,
        char_seq_cmp(b, c) == Ordering::Less,
    ensures
        char_seq_cmp(a, c) == Ordering::Less,
    decreases a.len(),
{
    if a.len() > 0 && b.len() > 0 && c.len() > 0 && a[0] == b[0] && b[0] == c[0] {
        lemma_char_seq_cmp_less_trans(a.drop_first(), b.drop_first(), c.drop_first());
    }
}

proof fn lemma_part_cmp_flip(a: Part, b: Part)
    ensures
        part_cmp(a, b) == flip(part_cmp(b, a)),
{
    if let (Part::Text(x), Part::Text(y)) = (a, b) {
        lemma_char_seq_cmp_flip(x, y);
    }
}

proof fn lemma_part_cmp_equal(a: Part, b: Part)
    ensures
        part_cmp(a, b) == Ordering::Equal <==> a == b,
{
    if let (Part::Text(x), Part::Text(y)) = (a, b) {
        lemma_char_seq_cmp_equal(x, y);
    }
}

proof fn lemma_part_cmp_less_trans(a: Part, b: Part, c: Part)
    requires
        part_cmp(a, b) == Ordering::Less,
        part_cmp(b, c) == Ordering::Less,
    ensures
        part_cmp(a, c) == Ordering::Less,
{
    if let (Part::Text(x), Part::Text(y), Part::Text(z)) = (a, b, c) {
        lemma_char_seq_cmp_less_trans(x, y, z);
    }
}

proof fn lemma_parts_cmp_flip(a: Seq<Part>, b: Seq<Part>)
    ensures
        parts_cmp(a, b) == flip(parts_cmp(b, a)),
    decreases a.len(),
{
    if a.len() > 0 && b.len() > 0 {
        lemma_part_cmp_flip(a[0], b[0]);
        lemma_parts_cmp_flip(a.drop_first(), b.drop_first());
    }
}

proof fn lemma_parts_cmp_refl(a: Seq<Part>)
    ensures
        parts_cmp(a, a) == Ordering::Equal,
    decreases a.len(),
{
    if a.len() > 0 {
        lemma_part_cmp_equal(a[0], a[0]);
        lemma_parts_cmp_refl(a.drop_first());
    }
}

proof fn lemma_parts_cmp_less_trans(a: Seq<Part>, b: Seq<Part>, c: Seq<Part>)
    requires
        parts_cmp(a, b) == Ordering::Less,
        parts_cmp(b, c) == Ordering::Less,
    ensures
        parts_cmp(a, c) == Ordering::Less,
    decreases a.len(),
{
    lemma_part_cmp_equal(a[0], b[0]);
    lemma_part_cmp_equal(b[0], c[0]);
    if part_cmp(a[0], b[0]) == Ordering::Equal && part_cmp(b[0], c[0]) == Ordering::Equal {
        lemma_parts_cmp_less_trans(a.drop_first(), b.drop_first(), c.drop_first());
    } else if part_cmp(a[0], b[0]) == Ordering::Equal {
        assert(a[0] == b[0]);
    } else if part_cmp(b[0], c[0]) == Ordering::Equal {
        assert(b[0] == c[0]);
    } else {
        lemma_part_cmp_less_trans(a[0], b[0], c[0]);
    }
}

proof fn lemma_parts_cmp_equal_pointwise(a: Seq<Part>, b: Seq<Part>, k: int)
    requires
        parts_cmp(a, b) == Ordering::Equal,
        0 <= k < a.len(),
        k < b.len(),
    ensures
        a[k] == b[k],
    decreases k,
{
    lemma_part_cmp_equal(a[0], b[0]);
    if k > 0 {
        lemma_parts_cmp_equal_pointwise(a.drop_first(), b.drop_first(), k - 1);
    }
}

/// No run of digits in `s` starts with a zero, but a lone zero.
pub open spec fn no_leading_zeros(s: Seq<char>) -> bool {
    forall|i: int|
        #![trigger runs_of(s)[i]]
        0 <= i < runs_of(s).len() && is_digit(runs_of(s)[i][0]) && runs_of(s)[i].len() > 1
            ==> runs_of(s)[i][0] != '0'
}

proof fn lemma_decimal_at_least_ten(y: Seq<char>)
    requires
        all_digits(y),
        y.len() > 1,
        y[0] != '0',
    ensures
        decimal_value(y) >= 10,
{
    lemma_decimal_prefix_le(y, 2);
    let t = y.take(2);
    assert(t.drop_last() =~= y.take(1));
    assert(y.take(1).drop_last() =~= Seq::<char>::empty());
    assert(is_digit(y[0]));
    assert(y.take(1).last() == y[0]);
    assert(decimal_value(Seq::<char>::empty()) == 0);
    assert(decimal_value(y.take(1)) == (y[0] as nat - '0' as nat) as nat);
}

proof fn lemma_decimal_injective(x: Seq<char>, y: Seq<char>)
    requires
        all_digits(x),
        all_digits(y),
        x.len() > 0,
        y.len() > 0,
        x.len() > 1 ==> x[0] != '0',
        y.len() > 1 ==> y[0] != '0',
        decimal_value(x) == decimal_value(y),
    ensures
        x == y,
    decreases x.len(),
{
    let xp = x.drop_last();
    let yp = y.drop_last();
    assert(is_digit(x[x.len() - 1]));
    assert(is_digit(y[y.len() - 1]));
    if x.len() == 1 && y.len() == 1 {
        assert(xp =~= Seq::<char>::empty());
        assert(yp =~= Seq::<char>::empty());
        assert(decimal_value(Seq::<char>::empty()) == 0);
        assert(x[0] as nat == y[0] as nat);
        assert(x =~= y);
    } else if x.len() == 1 {
        assert(xp =~= Seq::<char>::empty());
        assert(decimal_value(Seq::<char>::empty()) == 0);
        assert(decimal_value(x) < 10);
        lemma_decimal_at_least_ten(y);
    } else if y.len() == 1 {
        lemma_decimal_at_least_ten(x);
        assert(yp =~= Seq::<char>::empty());
        assert(decimal_value(Seq::<char>::empty()) == 0);
        assert(decimal_value(y) < 10);
    } else {
        let dx = (x.last() as nat - '0' as nat) as nat;
        let dy = (y.last() as nat - '0' as nat) as nat;
        let vx = decimal_value(xp);
        let vy = decimal_value(yp);
        assert(vx * 10 + dx == vy * 10 + dy);
        assert(dx < 10 && dy < 10);
        assert(vx == vy && dx == dy) by (nonlinear_arith)
            requires
                vx * 10 + dx == vy * 10 + dy,
                dx < 10,
                dy < 10,
        ;
        assert(all_digits(xp)) by {
            assert forall|i: int| 0 <= i < xp.len() implies is_digit(#[trigger] xp[i]) by {
                assert(xp[i] == x[i]);
            }
        }
        assert(all_digits(yp)) by {
            assert forall|i: int| 0 <= i < yp.len() implies is_digit(#[trigger] yp[i]) by {
                assert(yp[i] == y[i]);
            }
        }
        lemma_decimal_injective(xp, yp);
        assert(x.last() as nat == y.last() as nat);
        assert(x =~= xp.push(x.last()));
        assert(y =~= yp.push(y.last()));
        assert(x.last() == y.last());
        assert(x =~= y);
    }
}

proof fn lemma_concat_nonempty(runs: Seq<Seq<char>>)
    requires
        runs.len() > 0,
        runs.last().len() > 0,
    ensures
        concat(runs).len() > 0,
{
}

/// Where no run of digits has a leading zero, strings of one byte length whose tokens
/// compare equal are the same string.
proof fn lemma_equal_parts_same(a: Seq<char>, b: Seq<char>)
    requires
        no_leading_zeros(a),
        no_leading_zeros(b),
        encode_utf8(a).len() == encode_utf8(b).len(),
        parts_cmp(parts_of(a), parts_of(b)) == Ordering::Equal,
    ensures
        a == b,
{
    lemma_runs_of_split(a);
    lemma_runs_of_split(b);
    let ra = runs_of(a);
    let rb = runs_of(b);
    assert forall|k: int| 0 <= k < ra.len() && k < rb.len() implies #[trigger] ra[k] == rb[k] by {
        lemma_parts_cmp_equal_pointwise(parts_of(a), parts_of(b), k);
        assert(parts_of(a)[k] == part_of(ra[k]));
        assert(parts_of(b)[k] == part_of(rb[k]));
        if is_digit(ra[k][0]) {
            assert(all_digits(ra[k])) by {
                assert forall|j: int| 0 <= j < ra[k].len() implies is_digit(#[trigger] ra[k][j]) by {
                    assert(is_digit(ra[k][j]) == is_digit(ra[k][0]));
                }
            }
            assert(all_digits(rb[k])) by {
                assert forall|j: int| 0 <= j < rb[k].len() implies is_digit(#[trigger] rb[k][j]) by {
                    assert(is_digit(rb[k][j]) == is_digit(rb[k][0]));
                }
            }
            lemma_decimal_injective(ra[k], rb[k]);
        }
    }
    if ra.len() < rb.len() {
        lemma_rest_longer(a, b, ra, rb);
    } else if rb.len() < ra.len() {
        lemma_rest_longer(b, a, rb, ra);
    } else {
        assert(ra =~= rb);
    }
}

proof fn lemma_rest_longer(a: Seq<char>, b: Seq<char>, ra: Seq<Seq<char>>, rb: Seq<Seq<char>>)
    requires
        ra == runs_of(a),
        rb == runs_of(b),
        concat(ra) == a,
        concat(rb) == b,
        forall|i: int| 0 <= i < rb.len() ==> #[trigger] rb[i].len() > 0,
        ra.len() < rb.len(),
        forall|k: int| 0 <= k < ra.len() && k < rb.len() ==> #[trigger] ra[k] == rb[k],
    ensures
        encode_utf8(a).len() < encode_utf8(b).len(),
{
    let n = ra.len() as int;
    assert(rb.take(n) =~= ra);
    assert(rb =~= rb.take(n) + rb.skip(n));
    lemma_concat_append(rb.take(n), rb.skip(n));
    let rest = concat(rb.skip(n));
    assert(rb.skip(n).last() == rb[rb.len() - 1]);
    lemma_concat_nonempty(rb.skip(n));
    lemma_encode_append(a, rest);
    assert(encode_utf8(rest).len() > 0);
}

/// Every string compares equal to itself.
pub proof fn lemma_semantic_cmp_reflexive(a: Seq<char>)
    ensures
        semantic_cmp(a, a) == Ordering::Equal,
{
    lemma_parts_cmp_refl(parts_of(a));
}

/// Swapping the two strings swaps the outcome: `a < b` exactly when `b > a`.
pub proof fn lemma_semantic_cmp_antisymmetric(a: Seq<char>, b: Seq<char>)
    ensures
        semantic_cmp(a, b) == flip(semantic_cmp(b, a)),
{
    lemma_parts_cmp_flip(parts_of(a), parts_of(b));
}

/// Where no run of digits has a leading zero, two strings that compare equal are the
/// same string.
pub proof fn lemma_semantic_cmp_equal_same(a: Seq<char>, b: Seq<char>)
    requires
        no_leading_zeros(a),
        no_leading_zeros(b),
        encode_utf8(a).len() <= usize::MAX,
        encode_utf8(b).len() <= usize::MAX,
        semantic_cmp(a, b) == Ordering::Equal,
    ensures
        a == b,
{
    assert(byte_len(a) == byte_len(b));
    lemma_equal_parts_same(a, b);
}

/// "Less than" is transitive.
pub proof fn lemma_semantic_cmp_less_transitive(a: Seq<char>, b: Seq<char>, c: Seq<char>)
    requires
        semantic_cmp(a, b) == Ordering::Less,
        semantic_cmp(b, c) == Ordering::Less,
    ensures
        semantic_cmp(a, c) == Ordering::Less,
{
    if byte_len(a) == byte_len(c) {
        lemma_parts_cmp_less_trans(parts_of(a), parts_of(b), parts_of(c));
    }
}

/// Where no run of digits has a leading zero, "less than or equal" is transitive.
pub proof fn lemma_semantic_cmp_transitive(a: Seq<char>, b: Seq<char>, c: Seq<char>)
    requires
        no_leading_zeros(a),
        no_leading_zeros(b),
        no_leading_zeros(c),
        encode_utf8(a).len() <= usize::MAX,
        encode_utf8(b).len() <= usize::MAX,
        encode_utf8(c).len() <= usize::MAX,
        semantic_cmp(a, b) != Ordering::Greater,
        semantic_cmp(b, c) != Ordering::Greater,
    ensures
        semantic_cmp(a, c) != Ordering::Greater,
{
    if semantic_cmp(a, b) == Ordering::Equal {
        lemma_semantic_cmp_equal_same(a, b);
    } else if semantic_cmp(b, c) == Ordering::Equal {
        lemma_semantic_cmp_equal_same(b, c);
    } else {
        lemma_semantic_cmp_less_transitive(a, b, c);
    }
}

} // verus!
