//! Lexicographic order on strings, compared code point by code point.
//!
//! The registry keeps its nodes sorted by id with this order, which matches
//! the order `String` values sort in: UTF-8 byte order agrees with code-point
//! order.

use vstd::prelude::*;
use vstd::string::StrSliceExecFns;

verus! {

/// Strict lexicographic order on character sequences by code point:
/// a proper prefix comes first, otherwise the first differing position decides.
pub open spec fn seq_char_lt(a: Seq<char>, b: Seq<char>) -> bool
    decreases a.len(),
{
    if b.len() == 0 {
        false
    } else if a.len() == 0 {
        true
    } else if a[0] == b[0] {
        seq_char_lt(a.drop_first(), b.drop_first())
    } else {
        (a[0] as u32) < (b[0] as u32)
    }
}

/// Distinct characters have distinct code points.
proof fn lemma_char_cast_injective(a: char, b: char)
    requires
        a as u32 == b as u32,
    ensures
        a == b,
{
}

pub proof fn lemma_seq_char_lt_irreflexive(a: Seq<char>)
    ensures
        !seq_char_lt(a, a),
    decreases a.len(),
{
    if a.len() > 0 {
        lemma_seq_char_lt_irreflexive(a.drop_first());
    }
}

pub proof fn lemma_seq_char_lt_transitive(a: Seq<char>, b: Seq<char>, c: Seq<char>)
    requires
        seq_char_lt(a, b),
        seq_char_lt(b, c),
    ensures
        seq_char_lt(a, c),
    decreases a.len(),
{
    if a.len() > 0 && b.len() > 0 && c.len() > 0 {
        if a[0] == b[0] && b[0] == c[0] {
            lemma_seq_char_lt_transitive(a.drop_first(), b.drop_first(), c.drop_first());
        }
    }
}

/// The order is asymmetric, and related values are distinct.
pub proof fn lemma_seq_char_lt_asymmetric(a: Seq<char>, b: Seq<char>)
    requires
        seq_char_lt(a, b),
    ensures
        !seq_char_lt(b, a),
        a != b,
{
    if seq_char_lt(b, a) {
        lemma_seq_char_lt_transitive(a, b, a);
        lemma_seq_char_lt_irreflexive(a);
    }
    if a == b {
        lemma_seq_char_lt_irreflexive(a);
    }
}

/// Dropping an equal prefix of both sequences does not change how they compare.
proof fn lemma_seq_char_lt_skip_common_prefix(a: Seq<char>, b: Seq<char>, i: int)
    requires
        0 <= i <= a.len(),
        i <= b.len(),
        forall|j: int| 0 <= j < i ==> a[j] == b[j],
    ensures
        seq_char_lt(a, b) == seq_char_lt(a.skip(i), b.skip(i)),
        (a == b) == (a.skip(i) == b.skip(i) && a.len() - i == b.len() - i),
    decreases i,
{
    if i == 0 {
        assert(a.skip(0) =~= a);
        assert(b.skip(0) =~= b);
    } else {
        assert(a[0] == b[0]);
        assert(a.drop_first().skip(i - 1) =~= a.skip(i));
        assert(b.drop_first().skip(i - 1) =~= b.skip(i));
        assert(forall|j: int| 0 <= j < i - 1 ==> a.drop_first()[j] == b.drop_first()[j]);
        lemma_seq_char_lt_skip_common_prefix(a.drop_first(), b.drop_first(), i - 1);
        if a.drop_first() == b.drop_first() && a.len() == b.len() {
            assert forall|k: int| 0 <= k < a.len() implies a[k] == b[k] by {
                if k > 0 {
                    assert(a[k] == a.drop_first()[k - 1]);
                    assert(b[k] == b.drop_first()[k - 1]);
                }
            }
            assert(a =~= b);
        }
        if a == b {
            assert(a.drop_first() =~= b.drop_first());
        }
    }
}

/// Two strictly sorted sequences of strings that hold the same values are
/// equal: sorting makes the arrangement canonical.
pub proof fn lemma_sorted_distinct_same_set(x: Seq<Seq<char>>, y: Seq<Seq<char>>)
    requires
        forall|i: int, j: int| 0 <= i < j < x.len() ==> seq_char_lt(#[trigger] x[i], #[trigger] x[j]),
        forall|i: int, j: int| 0 <= i < j < y.len() ==> seq_char_lt(#[trigger] y[i], #[trigger] y[j]),
        forall|v: Seq<char>| #![trigger x.contains(v)] #![trigger y.contains(v)]
            x.contains(v) <==> y.contains(v),
    ensures
        x =~= y,
    decreases x.len(),
{
    if x.len() == 0 && y.len() > 0 {
        assert(x.contains(y[0]));
        assert(false);
    } else if x.len() > 0 && y.len() == 0 {
        assert(y.contains(x[0]));
        assert(false);
    } else if x.len() > 0 && y.len() > 0 {
        assert(x.contains(x[0]));
        let j = choose|j: int| 0 <= j < y.len() && y[j] == x[0];
        assert(y[j] == x[0]);
        assert(y.contains(y[0]));
        let i = choose|i: int| 0 <= i < x.len() && x[i] == y[0];
        assert(x[i] == y[0]);
        if i > 0 && j > 0 {
            assert(seq_char_lt(x[0], x[i]));
            assert(seq_char_lt(y[0], y[j]));
            lemma_seq_char_lt_asymmetric(x[0], x[i]);
        }
        assert(x[0] == y[0]);
        let xt = x.drop_first();
        let yt = y.drop_first();
        assert forall|p: int, q: int|
            0 <= p < q < xt.len() implies seq_char_lt(#[trigger] xt[p], #[trigger] xt[q]) by {
            assert(xt[p] == x[p + 1]);
            assert(xt[q] == x[q + 1]);
        }
        assert forall|p: int, q: int|
            0 <= p < q < yt.len() implies seq_char_lt(#[trigger] yt[p], #[trigger] yt[q]) by {
            assert(yt[p] == y[p + 1]);
            assert(yt[q] == y[q + 1]);
        }
        assert forall|v: Seq<char>| #![trigger xt.contains(v)] #![trigger yt.contains(v)]
            xt.contains(v) <==> yt.contains(v) by {
            if xt.contains(v) {
                let k = choose|k: int| 0 <= k < xt.len() && xt[k] == v;
                assert(x[k + 1] == v);
                assert(x.contains(v));
                let m = choose|m: int| 0 <= m < y.len() && y[m] == v;
                assert(seq_char_lt(x[0], x[k + 1]));
                lemma_seq_char_lt_asymmetric(x[0], x[k + 1]);
                assert(m != 0);
                assert(yt[m - 1] == v);
                assert(yt.contains(v));
            }
            if yt.contains(v) {
                let k = choose|k: int| 0 <= k < yt.len() && yt[k] == v;
                assert(y[k + 1] == v);
                assert(y.contains(v));
                let m = choose|m: int| 0 <= m < x.len() && x[m] == v;
                assert(seq_char_lt(y[0], y[k + 1]));
                lemma_seq_char_lt_asymmetric(y[0], y[k + 1]);
                assert(m != 0);
                assert(xt[m - 1] == v);
                assert(xt.contains(v));
            }
        }
        lemma_sorted_distinct_same_set(xt, yt);
        assert forall|k: int| 0 <= k < x.len() implies x[k] == y[k] by {
            if k > 0 {
                assert(x[k] == xt[k - 1]);
                assert(y[k] == yt[k - 1]);
            }
        }
    }
}

/// Result of a three-way string comparison.
pub enum StrOrder {
    Less,
    Equal,
    Greater,
}

/// Three-way comparison of two strings under `seq_char_lt`.
pub fn str_cmp(a: &str, b: &str) -> (r: StrOrder)
    ensures
        r matches StrOrder::Less <==> seq_char_lt(a@, b@),
        r matches StrOrder::Equal <==> a@ == b@,
        r matches StrOrder::Greater <==> seq_char_lt(b@, a@),
{
    let a_len: usize = a.unicode_len();
    let b_len: usize = b.unicode_len();
    let mut i: usize = 0;
    loop
        invariant
            0 <= i <= a_len,
            i <= b_len,
            a_len == a@.len(),
            b_len == b@.len(),
            forall|j: int| 0 <= j < i ==> a@[j] == b@[j],
        decreases a_len - i,
    {
        if i == a_len || i == b_len {
            proof {
                lemma_seq_char_lt_skip_common_prefix(a@, b@, i as int);
                lemma_seq_char_lt_skip_common_prefix(b@, a@, i as int);
            }
            if a_len == b_len {
                proof {
                    assert(a@.skip(i as int) =~= b@.skip(i as int));
                    lemma_seq_char_lt_irreflexive(a@.skip(i as int));
                }
                return StrOrder::Equal;
            } else if i == a_len {
                proof {
                    assert(a@.skip(i as int).len() == 0);
                    assert(b@.skip(i as int).len() > 0);
                }
                return StrOrder::Less;
            } else {
                proof {
                    assert(b@.skip(i as int).len() == 0);
                    assert(a@.skip(i as int).len() > 0);
                }
                return StrOrder::Greater;
            }
        }
        let ca: char = a.get_char(i);
        let cb: char = b.get_char(i);
        if ca != cb {
            proof {
                lemma_seq_char_lt_skip_common_prefix(a@, b@, i as int);
                lemma_seq_char_lt_skip_common_prefix(b@, a@, i as int);
                assert(a@.skip(i as int)[0] == ca);
                assert(b@.skip(i as int)[0] == cb);
                assert(a@.skip(i as int) != b@.skip(i as int));
            }
            if (ca as u32) < (cb as u32) {
                return StrOrder::Less;
            } else {
                return StrOrder::Greater;
            }
        }
        i = i + 1;
    }
}

/// Whether two strings hold the same characters.
pub fn str_eq(a: &str, b: &str) -> (r: bool)
    ensures
        r == (a@ == b@),
{
    match str_cmp(a, b) {
        StrOrder::Equal => true,
        _ => false,
    }
}

} // verus!
