//! Lexicographic order on character sequences, and a verified three-way
//! comparison of string slices.  Entry names in an archive are kept in this
//! order.

use vstd::prelude::*;
use vstd::string::StrSliceExecFns;

verus! {

/// Strict lexicographic order on sequences of characters: `a` comes before
/// `b` when, at the first position where they differ, `a` has the smaller
/// character, or when `a` is a proper prefix of `b`.
pub open spec fn lex_lt(a: Seq<char>, b: Seq<char>) -> bool
    decreases b.len(),
{
    b.len() > 0 && (a.len() == 0 || a[0] < b[0] || (a[0] == b[0] && lex_lt(
        a.skip(1),
        b.skip(1),
    )))
}

/// No sequence comes before itself.
pub proof fn lemma_lex_irrefl(a: Seq<char>)
    ensures
        !lex_lt(a, a),
    decreases a.len(),
{
    if a.len() > 0 {
        lemma_lex_irrefl(a.skip(1));
    }
}

/// The order is transitive.
pub proof fn lemma_lex_trans(a: Seq<char>, b: Seq<char>, c: Seq<char>)
    requires
        lex_lt(a, b),
        lex_lt(b, c),
    ensures
        lex_lt(a, c),
    decreases b.len(),
{
    if a.len() > 0 && a[0] == b[0] && b[0] == c[0] {
        lemma_lex_trans(a.skip(1), b.skip(1), c.skip(1));
    }
}

/// Comparing two sequences that agree on their first `i` characters comes
/// down to comparing what remains after those characters.
pub proof fn lemma_lex_prefix_skip(a: Seq<char>, b: Seq<char>, i: int)
    requires
        0 <= i <= a.len(),
        i <= b.len(),
        a.subrange(0, i) == b.subrange(0, i),
    ensures
        lex_lt(a, b) == lex_lt(a.skip(i), b.skip(i)),
    decreases i,
{
    if i == 0 {
        assert(a.skip(0) =~= a);
        assert(b.skip(0) =~= b);
    } else {
        assert(a[0] == a.subrange(0, i)[0]);
        assert(b[0] == b.subrange(0, i)[0]);
        assert(a.skip(1).subrange(0, i - 1) =~= b.skip(1).subrange(0, i - 1)) by {
            assert forall|j: int| 0 <= j < i - 1 implies #[trigger] a.skip(1).subrange(0, i - 1)[j]
                == b.skip(1).subrange(0, i - 1)[j] by {
                assert(a.skip(1).subrange(0, i - 1)[j] == a.subrange(0, i)[j + 1]);
                assert(b.skip(1).subrange(0, i - 1)[j] == b.subrange(0, i)[j + 1]);
            }
        }
        lemma_lex_prefix_skip(a.skip(1), b.skip(1), i - 1);
        assert(a.skip(1).skip(i - 1) =~= a.skip(i));
        assert(b.skip(1).skip(i - 1) =~= b.skip(i));
    }
}

/// Result of a three-way comparison of two strings.
pub enum CmpRes {
    Less,
    Equal,
    Greater,
}

/// Three-way comparison of two string slices in lexicographic order on their
/// characters.
pub fn str_compare(a: &str, b: &str) -> (r: CmpRes)
    ensures
        (r is Less) == lex_lt(a@, b@),
        (r is Equal) == (a@ == b@),
        (r is Greater) == lex_lt(b@, a@),
{
    let alen = a.unicode_len();
    let blen = b.unicode_len();
    let mut i: usize = 0;
    proof {
        assert(a@.subrange(0, 0) =~= b@.subrange(0, 0));
    }
    while i < alen && i < blen
        invariant
            i <= alen,
            i <= blen,
            alen == a@.len(),
            blen == b@.len(),
            a@.subrange(0, i as int) == b@.subrange(0, i as int),
        decreases alen - i,
    {
        let ca = a.get_char(i);
        let cb = b.get_char(i);
        if ca == cb {
            proof {
                assert(a@.subrange(0, i + 1) =~= b@.subrange(0, i + 1)) by {
                    assert forall|j: int| 0 <= j < i + 1 implies #[trigger] a@.subrange(0, i + 1)[j]
                        == b@.subrange(0, i + 1)[j] by {
                        if j < i {
                            assert(a@.subrange(0, i as int)[j] == b@.subrange(0, i as int)[j]);
                        }
                    }
                }
            }
            i = i + 1;
        } else if ca < cb {
            proof {
                lemma_lex_prefix_skip(a@, b@, i as int);
                assert(b@.subrange(0, i as int) == a@.subrange(0, i as int));
                lemma_lex_prefix_skip(b@, a@, i as int);
                assert(a@.skip(i as int)[0] == ca);
                assert(b@.skip(i as int)[0] == cb);
                assert(a@[i as int] != b@[i as int]);
            }
            return CmpRes::Less;
        } else {
            proof {
                lemma_lex_prefix_skip(a@, b@, i as int);
                assert(b@.subrange(0, i as int) == a@.subrange(0, i as int));
                lemma_lex_prefix_skip(b@, a@, i as int);
                assert(a@.skip(i as int)[0] == ca);
                assert(b@.skip(i as int)[0] == cb);
                assert(a@[i as int] != b@[i as int]);
            }
            return CmpRes::Greater;
        }
    }
    if alen == blen {
        proof {
            assert forall|j: int| 0 <= j < alen implies a@[j] == b@[j] by {
                assert(a@.subrange(0, alen as int)[j] == b@.subrange(0, alen as int)[j]);
            }
            assert(a@ =~= b@);
            lemma_lex_irrefl(a@);
        }
        CmpRes::Equal
    } else if alen < blen {
        proof {
            lemma_lex_prefix_skip(a@, b@, alen as int);
            assert(b@.subrange(0, alen as int) == a@.subrange(0, alen as int));
            lemma_lex_prefix_skip(b@, a@, alen as int);
            assert(a@.skip(alen as int).len() == 0);
            assert(b@.skip(alen as int).len() > 0);
        }
        CmpRes::Less
    } else {
        proof {
            assert(b@.subrange(0, blen as int) == a@.subrange(0, blen as int));
            lemma_lex_prefix_skip(a@, b@, blen as int);
            lemma_lex_prefix_skip(b@, a@, blen as int);
            assert(b@.skip(blen as int).len() == 0);
            assert(a@.skip(blen as int).len() > 0);
        }
        CmpRes::Greater
    }
}

} // verus!
