//! Byte-lexicographic order on byte sequences: the order in which the storage
//! engine keeps and iterates keys. A shorter sequence that is a prefix of a
//! longer one sorts first; otherwise the first differing byte decides.

use vstd::prelude::*;

verus! {

/// `a` sorts at or before `b` in byte-lexicographic order.
pub open spec fn lex_le(a: Seq<u8>, b: Seq<u8>) -> bool
    decreases a.len(),
{
    if a.len() == 0 {
        true
    } else if b.len() == 0 {
        false
    } else if a[0] < b[0] {
        true
    } else if a[0] > b[0] {
        false
    } else {
        lex_le(a.skip(1), b.skip(1))
    }
}

/// `a` sorts strictly before `b`.
pub open spec fn lex_lt(a: Seq<u8>, b: Seq<u8>) -> bool {
    lex_le(a, b) && a != b
}

pub proof fn lemma_lex_le_refl(a: Seq<u8>)
    ensures
        lex_le(a, a),
    decreases a.len(),
{
    if a.len() > 0 {
        lemma_lex_le_refl(a.skip(1));
    }
}

pub proof fn lemma_lex_le_total(a: Seq<u8>, b: Seq<u8>)
    ensures
        lex_le(a, b) || lex_le(b, a),
    decreases a.len(),
{
    if a.len() > 0 && b.len() > 0 && a[0] == b[0] {
        lemma_lex_le_total(a.skip(1), b.skip(1));
    }
}

pub proof fn lemma_lex_le_antisym(a: Seq<u8>, b: Seq<u8>)
    requires
        lex_le(a, b),
        lex_le(b, a),
    ensures
        a == b,
    decreases a.len(),
{
    if a.len() == 0 {
        assert(b.len() == 0);
        assert(a =~= b);
    } else {
        assert(a[0] == b[0]);
        lemma_lex_le_antisym(a.skip(1), b.skip(1));
        assert(a =~= seq![a[0]] + a.skip(1));
        assert(b =~= seq![b[0]] + b.skip(1));
        assert(a =~= b);
    }
}

pub proof fn lemma_lex_le_trans(a: Seq<u8>, b: Seq<u8>, c: Seq<u8>)
    requires
        lex_le(a, b),
        lex_le(b, c),
    ensures
        lex_le(a, c),
    decreases a.len(),
{
    if a.len() > 0 && b.len() > 0 && c.len() > 0 && a[0] == b[0] && b[0] == c[0] {
        lemma_lex_le_trans(a.skip(1), b.skip(1), c.skip(1));
    }
}

/// Strictly before and at-or-before compose to strictly before.
pub proof fn lemma_lex_lt_le_trans(a: Seq<u8>, b: Seq<u8>, c: Seq<u8>)
    requires
        lex_lt(a, b),
        lex_le(b, c),
    ensures
        lex_lt(a, c),
{
    lemma_lex_le_trans(a, b, c);
    if a == c {
        lemma_lex_le_antisym(b, c);
    }
}

/// At-or-before and strictly-before compose to strictly before.
pub proof fn lemma_lex_le_lt_trans(a: Seq<u8>, b: Seq<u8>, c: Seq<u8>)
    requires
        lex_le(a, b),
        lex_lt(b, c),
    ensures
        lex_lt(a, c),
{
    lemma_lex_le_trans(a, b, c);
    if a == c {
        lemma_lex_le_antisym(a, b);
    }
}

/// Appending a zero byte yields the immediate successor: everything strictly
/// after `a` is at or after `a` with a zero byte appended.
pub proof fn lemma_lex_successor(a: Seq<u8>, b: Seq<u8>)
    requires
        lex_lt(a, b),
    ensures
        lex_le(a.push(0), b),
    decreases a.len(),
{
    if a.len() == 0 {
        assert(b.len() > 0) by {
            if b.len() == 0 {
                assert(a =~= b);
            }
        }
        assert(a.push(0) =~= seq![0u8]);
        assert(a.push(0)[0] == 0);
        if b[0] == 0 {
            assert(lex_le(a.push(0).skip(1), b.skip(1))) by {
                assert(a.push(0).skip(1) =~= Seq::<u8>::empty());
            }
        }
    } else {
        assert(b.len() > 0);
        if a[0] == b[0] {
            assert(lex_lt(a.skip(1), b.skip(1))) by {
                if a.skip(1) == b.skip(1) {
                    assert(a =~= seq![a[0]] + a.skip(1));
                    assert(b =~= seq![b[0]] + b.skip(1));
                    assert(a =~= b);
                }
            }
            lemma_lex_successor(a.skip(1), b.skip(1));
            assert(a.push(0).skip(1) =~= a.skip(1).push(0));
            assert(a.push(0)[0] == a[0]);
        }
    }
}

/// A sequence sorts strictly before itself with a zero byte appended.
pub proof fn lemma_lex_push_gt(a: Seq<u8>)
    ensures
        lex_lt(a, a.push(0)),
    decreases a.len(),
{
    if a.len() == 0 {
        assert(a.push(0).len() == 1);
        assert(a != a.push(0));
    } else {
        lemma_lex_push_gt(a.skip(1));
        assert(a.push(0)[0] == a[0]);
        assert(a.push(0).skip(1) =~= a.skip(1).push(0));
        assert(a != a.push(0));
    }
}

} // verus!
