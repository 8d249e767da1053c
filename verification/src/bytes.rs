//! Byte strings: lexicographic order (the order of Rust's `String` and `[u8]`).
use vstd::prelude::*;

verus! {

/// Three-way lexicographic comparison of byte strings: -1, 0 or 1.
pub open spec fn lex_order(a: Seq<u8>, b: Seq<u8>) -> int
    decreases a.len(),
{
    if a.len() == 0 {
        if b.len() == 0 {
            0
        } else {
            -1
        }
    } else if b.len() == 0 {
        1
    } else if a[0] < b[0] {
        -1
    } else if a[0] > b[0] {
        1
    } else {
        lex_order(a.drop_first(), b.drop_first())
    }
}

/// `a` sorts strictly before `b`.
pub open spec fn bytes_lt(a: Seq<u8>, b: Seq<u8>) -> bool {
    lex_order(a, b) < 0
}

pub proof fn lemma_lex_order_antisymmetric(a: Seq<u8>, b: Seq<u8>)
    ensures
        lex_order(a, b) == -lex_order(b, a),
        -1 <= lex_order(a, b) <= 1,
        lex_order(a, b) == 0 <==> a == b,
    decreases a.len(),
{
    if a.len() > 0 && b.len() > 0 && a[0] == b[0] {
        lemma_lex_order_antisymmetric(a.drop_first(), b.drop_first());
        if a.drop_first() == b.drop_first() {
            assert(a =~= seq![a[0]] + a.drop_first());
            assert(b =~= seq![b[0]] + b.drop_first());
        }
    }
    if a.len() == 0 && b.len() == 0 {
        assert(a =~= b);
    }
}

pub proof fn lemma_bytes_lt_transitive(a: Seq<u8>, b: Seq<u8>, c: Seq<u8>)
    requires
        bytes_lt(a, b),
        bytes_lt(b, c),
    ensures
        bytes_lt(a, c),
    decreases a.len(),
{
    if a.len() > 0 && b.len() > 0 && c.len() > 0 && a[0] == b[0] && b[0] == c[0] {
        lemma_bytes_lt_transitive(a.drop_first(), b.drop_first(), c.drop_first());
    }
}

/// `a` comes before `b` in the usual lexicographic order of byte strings:
/// `a` is a proper prefix of `b`, or at the first position where the two
/// differ, `a` has the smaller byte.
pub open spec fn lex_before(a: Seq<u8>, b: Seq<u8>) -> bool {
    ||| (a.len() < b.len() && a == b.subrange(0, a.len() as int))
    ||| exists|k: int|
        0 <= k < a.len() && k < b.len() && a.subrange(0, k) == b.subrange(0, k) && a[k] < b[k]
}

proof fn lemma_lex_before_tail(a: Seq<u8>, b: Seq<u8>)
    requires
        a.len() > 0,
        b.len() > 0,
        a[0] == b[0],
    ensures
        lex_before(a, b) <==> lex_before(a.drop_first(), b.drop_first()),
        a == b <==> a.drop_first() == b.drop_first(),
{
    let x = a.drop_first();
    let y = b.drop_first();
    assert(a =~= seq![a[0]] + x);
    assert(b =~= seq![b[0]] + y);
    if a.len() < b.len() && a == b.subrange(0, a.len() as int) {
        assert(x =~= y.subrange(0, x.len() as int));
    }
    if x.len() < y.len() && x == y.subrange(0, x.len() as int) {
        assert(a =~= b.subrange(0, a.len() as int));
    }
    if exists|k: int| 0 <= k < a.len() && k < b.len() && a.subrange(0, k) == b.subrange(0, k) && a[k] < b[k] {
        let k = choose|k: int|
            0 <= k < a.len() && k < b.len() && a.subrange(0, k) == b.subrange(0, k) && a[k] < b[k];
        assert(k != 0);
        assert(x.subrange(0, k - 1) =~= a.subrange(0, k).drop_first());
        assert(y.subrange(0, k - 1) =~= b.subrange(0, k).drop_first());
        assert(x[k - 1] == a[k] && y[k - 1] == b[k]);
    }
    if exists|k: int| 0 <= k < x.len() && k < y.len() && x.subrange(0, k) == y.subrange(0, k) && x[k] < y[k] {
        let k = choose|k: int|
            0 <= k < x.len() && k < y.len() && x.subrange(0, k) == y.subrange(0, k) && x[k] < y[k];
        assert(a.subrange(0, k + 1) =~= seq![a[0]] + x.subrange(0, k));
        assert(b.subrange(0, k + 1) =~= seq![b[0]] + y.subrange(0, k));
        assert(a[k + 1] == x[k] && b[k + 1] == y[k]);
    }
    if x == y {
        assert(a =~= b);
    }
}

/// The order of byte strings is the usual lexicographic order (that of
/// Rust's `[u8]`): a proper prefix sorts first, otherwise the first
/// differing byte decides.
pub proof fn law_lex_order_standard(a: Seq<u8>, b: Seq<u8>)
    ensures
        lex_order(a, b) < 0 <==> lex_before(a, b),
        lex_order(a, b) > 0 <==> lex_before(b, a),
        lex_order(a, b) == 0 <==> a == b,
    decreases a.len(),
{
    lemma_lex_order_antisymmetric(a, b);
    if a.len() == 0 || b.len() == 0 {
        if a.len() == 0 && b.len() == 0 {
            assert(a =~= b);
        }
        if a.len() == 0 {
            assert(a =~= b.subrange(0, 0));
        }
        if b.len() == 0 {
            assert(b =~= a.subrange(0, 0));
        }
    } else if a[0] != b[0] {
        assert(a.subrange(0, 0) =~= b.subrange(0, 0));
        if a.len() < b.len() && a == b.subrange(0, a.len() as int) {
            assert(a[0] == b.subrange(0, a.len() as int)[0]);
        }
        if b.len() < a.len() && b == a.subrange(0, b.len() as int) {
            assert(b[0] == a.subrange(0, b.len() as int)[0]);
        }
        assert forall|k: int| 0 < k < a.len() && k < b.len() implies a.subrange(0, k) != b.subrange(0, k) by {
            assert(a.subrange(0, k)[0] == a[0]);
            assert(b.subrange(0, k)[0] == b[0]);
        }
    } else {
        law_lex_order_standard(a.drop_first(), b.drop_first());
        lemma_lex_before_tail(a, b);
        lemma_lex_before_tail(b, a);
    }
}


/// Three-way lexicographic comparison of byte strings.
pub fn compare_bytes(a: &[u8], b: &[u8]) -> (r: i8)
    ensures
        r as int == lex_order(a@, b@),
{
    let mut i: usize = 0;
    assert(a@.subrange(0, a.len() as int) =~= a@);
    assert(b@.subrange(0, b.len() as int) =~= b@);
    assert(a@.subrange(0, 0) =~= b@.subrange(0, 0));
    while i < a.len() && i < b.len()
        invariant
            i <= a.len(),
            i <= b.len(),
            a@.subrange(0, i as int) == b@.subrange(0, i as int),
            lex_order(a@, b@) == lex_order(a@.subrange(i as int, a.len() as int), b@.subrange(
                i as int,
                b.len() as int,
            )),
        decreases a.len() - i,
    {
        let x = a[i];
        let y = b[i];
        let ghost sa = a@.subrange(i as int, a.len() as int);
        let ghost sb = b@.subrange(i as int, b.len() as int);
        assert(sa[0] == x && sb[0] == y);
        if x < y {
            return -1;
        }
        if x > y {
            return 1;
        }
        assert(sa.drop_first() =~= a@.subrange(i + 1, a.len() as int));
        assert(sb.drop_first() =~= b@.subrange(i + 1, b.len() as int));
        assert(a@.subrange(0, i + 1) =~= a@.subrange(0, i as int).push(x));
        assert(b@.subrange(0, i + 1) =~= b@.subrange(0, i as int).push(y));
        i = i + 1;
    }
    if i < a.len() {
        1
    } else if i < b.len() {
        -1
    } else {
        0
    }
}

/// Byte-wise equality.
pub fn bytes_equal(a: &[u8], b: &[u8]) -> (r: bool)
    ensures
        r == (a@ == b@),
{
    proof {
        lemma_lex_order_antisymmetric(a@, b@);
    }
    compare_bytes(a, b) == 0
}

/// A copy of a byte slice.
pub fn copy_bytes(a: &[u8]) -> (r: Vec<u8>)
    ensures
        r@ == a@,
{
    let mut r: Vec<u8> = Vec::new();
    let mut i: usize = 0;
    while i < a.len()
        invariant
            i <= a.len(),
            r@ == a@.subrange(0, i as int),
        decreases a.len() - i,
    {
        r.push(a[i]);
        assert(a@.subrange(0, i + 1) =~= a@.subrange(0, i as int).push(a@[i as int]));
        i = i + 1;
    }
    assert(a@.subrange(0, a.len() as int) =~= a@);
    r
}

/// Appends the bytes of `a` to `out`.
pub fn push_bytes(out: &mut Vec<u8>, a: &[u8])
    ensures
        final(out)@ == old(out)@ + a@,
{
    let mut i: usize = 0;
    while i < a.len()
        invariant
            i <= a.len(),
            out@ == old(out)@ + a@.subrange(0, i as int),
        decreases a.len() - i,
    {
        out.push(a[i]);
        assert(a@.subrange(0, i + 1) =~= a@.subrange(0, i as int).push(a@[i as int]));
        i = i + 1;
    }
    assert(a@.subrange(0, a.len() as int) =~= a@);
}

} // verus!
