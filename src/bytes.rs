//! Byte-string helpers: shared prefixes, lexicographic order, copying.
use vstd::prelude::*;

verus! {

/// Length of the longest common prefix of `a` and `b`, counted from index `i`.
pub open spec fn common_prefix_from(a: Seq<u8>, b: Seq<u8>, i: nat) -> nat
    decreases a.len() - i,
{
    if i < a.len() && i < b.len() && a[i as int] == b[i as int] {
        common_prefix_from(a, b, i + 1)
    } else {
        i
    }
}

/// Length of the longest common prefix of `a` and `b`.
pub open spec fn common_prefix_len(a: Seq<u8>, b: Seq<u8>) -> nat {
    common_prefix_from(a, b, 0)
}

/// Lexicographic order on byte strings: at the first differing byte, or by
/// length when one is a prefix of the other.
pub open spec fn lex_lt(a: Seq<u8>, b: Seq<u8>) -> bool {
    let i = common_prefix_len(a, b);
    if i < a.len() && i < b.len() {
        a[i as int] < b[i as int]
    } else {
        a.len() < b.len()
    }
}

proof fn lemma_common_prefix_from(a: Seq<u8>, b: Seq<u8>, i: nat)
    requires
        i <= a.len(),
        i <= b.len(),
        forall|k: int| 0 <= k < i ==> a[k] == b[k],
    ensures
        i <= common_prefix_from(a, b, i) <= a.len(),
        common_prefix_from(a, b, i) <= b.len(),
        forall|k: int| 0 <= k < common_prefix_from(a, b, i) ==> a[k] == b[k],
        ({
            let n = common_prefix_from(a, b, i);
            n < a.len() && n < b.len() ==> a[n as int] != b[n as int]
        }),
    decreases a.len() - i,
{
    if i < a.len() && i < b.len() && a[i as int] == b[i as int] {
        lemma_common_prefix_from(a, b, i + 1);
    }
}

/// The common prefix is a prefix of both, and no longer one is.
pub proof fn lemma_common_prefix(a: Seq<u8>, b: Seq<u8>)
    ensures
        common_prefix_len(a, b) <= a.len(),
        common_prefix_len(a, b) <= b.len(),
        a.subrange(0, common_prefix_len(a, b) as int) == b.subrange(0, common_prefix_len(a, b) as int),
        ({
            let n = common_prefix_len(a, b);
            n < a.len() && n < b.len() ==> a[n as int] != b[n as int]
        }),
{
    lemma_common_prefix_from(a, b, 0);
    let n = common_prefix_len(a, b);
    assert(a.subrange(0, n as int) =~= b.subrange(0, n as int));
}

/// The length of the common prefix of `left` and `right`.
pub fn slice_shared_offset(left: &[u8], right: &[u8]) -> (r: usize)
    ensures
        r == common_prefix_len(left@, right@),
{
    let mut i: usize = 0;
    while i < left.len() && i < right.len() && left[i] == right[i]
        invariant
            i <= left@.len(),
            i <= right@.len(),
            common_prefix_from(left@, right@, i as nat) == common_prefix_len(left@, right@),
        decreases left@.len() - i,
    {
        i = i + 1;
    }
    i
}

/// Whether `a` sorts strictly before `b`.
pub fn bytes_lt(a: &[u8], b: &[u8]) -> (r: bool)
    ensures
        r == lex_lt(a@, b@),
{
    let i = slice_shared_offset(a, b);
    if i < a.len() && i < b.len() {
        a[i] < b[i]
    } else {
        a.len() < b.len()
    }
}

/// Whether `a` and `b` hold the same bytes.
pub fn bytes_eq(a: &[u8], b: &[u8]) -> (r: bool)
    ensures
        r == (a@ == b@),
{
    let i = slice_shared_offset(a, b);
    proof {
        lemma_common_prefix(a@, b@);
        if i == a.len() && i == b.len() {
            assert(a@ =~= a@.subrange(0, i as int));
            assert(b@ =~= b@.subrange(0, i as int));
        }
        if a@ == b@ {
            assert(i == a.len());
        }
    }
    i == a.len() && i == b.len()
}

/// Appends `src[from..to]` to `out`.
pub fn extend_from_range(out: &mut Vec<u8>, src: &[u8], from: usize, to: usize)
    requires
        from <= to <= src@.len(),
    ensures
        final(out)@ == old(out)@ + src@.subrange(from as int, to as int),
{
    let ghost start = out@;
    let mut i: usize = from;
    while i < to
        invariant
            from <= i <= to,
            to <= src@.len(),
            out@ == start + src@.subrange(from as int, i as int),
        decreases to - i,
    {
        out.push(src[i]);
        assert(out@ =~= start + src@.subrange(from as int, i + 1));
        i = i + 1;
    }
}

/// A fresh vector holding `src[from..to]`.
pub fn copy_range(src: &[u8], from: usize, to: usize) -> (r: Vec<u8>)
    requires
        from <= to <= src@.len(),
    ensures
        r@ == src@.subrange(from as int, to as int),
{
    let mut out: Vec<u8> = Vec::new();
    extend_from_range(&mut out, src, from, to);
    assert(out@ =~= src@.subrange(from as int, to as int));
    out
}

/// No byte string sorts before itself.
pub proof fn lemma_lex_lt_irreflexive(a: Seq<u8>)
    ensures
        !lex_lt(a, a),
{
    lemma_common_prefix(a, a);
}

/// The order on byte strings is transitive.
pub proof fn lemma_lex_lt_transitive(a: Seq<u8>, b: Seq<u8>, c: Seq<u8>)
    requires
        lex_lt(a, b),
        lex_lt(b, c),
    ensures
        lex_lt(a, c),
{
    lemma_common_prefix(a, b);
    lemma_common_prefix(b, c);
    lemma_common_prefix(a, c);
    let i = common_prefix_len(a, b);
    let j = common_prefix_len(b, c);
    let k = common_prefix_len(a, c);
    assert forall|t: int| 0 <= t < i implies a[t] == b[t] by {
        assert(a.subrange(0, i as int)[t] == b.subrange(0, i as int)[t]);
    }
    assert forall|t: int| 0 <= t < j implies b[t] == c[t] by {
        assert(b.subrange(0, j as int)[t] == c.subrange(0, j as int)[t]);
    }
    assert forall|t: int| 0 <= t < k implies a[t] == c[t] by {
        assert(a.subrange(0, k as int)[t] == c.subrange(0, k as int)[t]);
    }
    let m = if i < j { i } else { j };
    assert forall|t: int| 0 <= t < m implies a[t] == c[t] by {
    }
    // The common prefix of a and c is at least m long.
    if k < m {
        assert(k < a.len() && k < c.len());
        assert(a[k as int] == c[k as int]);
    }
    assert(k >= m);
    if i < j {
        if i < a.len() {
            assert(a[i as int] < b[i as int]);
            assert(b[i as int] == c[i as int]);
            assert(k == i);
        } else {
            assert(k == a.len());
        }
    } else if j < i {
        assert(j < b.len());
        if j < c.len() {
            assert(b[j as int] < c[j as int]);
            assert(a[j as int] == b[j as int]);
            assert(k == j);
        }
    } else {
        if i < a.len() && i < b.len() {
            assert(a[i as int] < b[i as int]);
            if j < c.len() {
                assert(b[j as int] < c[j as int]);
                assert(k == i);
            }
        } else if i == a.len() {
            if j < c.len() && j < b.len() {
                assert(k == a.len());
            }
        }
    }
}

/// The order on byte strings is asymmetric.
pub proof fn lemma_lex_lt_asymmetric(a: Seq<u8>, b: Seq<u8>)
    requires
        lex_lt(a, b),
    ensures
        !lex_lt(b, a),
{
    if lex_lt(b, a) {
        lemma_lex_lt_transitive(a, b, a);
        lemma_lex_lt_irreflexive(a);
    }
}

/// Any two byte strings are equal or one sorts before the other.
pub proof fn lemma_lex_lt_total(a: Seq<u8>, b: Seq<u8>)
    ensures
        lex_lt(a, b) || lex_lt(b, a) || a == b,
{
    lemma_common_prefix(a, b);
    lemma_common_prefix(b, a);
    let i = common_prefix_len(a, b);
    let j = common_prefix_len(b, a);
    assert forall|t: int| 0 <= t < i implies a[t] == b[t] by {
        assert(a.subrange(0, i as int)[t] == b.subrange(0, i as int)[t]);
    }
    assert forall|t: int| 0 <= t < j implies b[t] == a[t] by {
        assert(b.subrange(0, j as int)[t] == a.subrange(0, j as int)[t]);
    }
    if i < j {
        assert(a[i as int] == b[i as int]);
    }
    if j < i {
        assert(a[j as int] == b[j as int]);
    }
    assert(i == j);
    if i == a.len() && i == b.len() {
        assert(a =~= b);
    }
}

} // verus!
