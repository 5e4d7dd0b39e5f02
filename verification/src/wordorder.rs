//! Lexicographic order on words, used to canonicalize guess word lists.

use vstd::prelude::*;
use vstd::relations::{sorted_by, total_ordering};
use vstd::string::StrSliceExecFns;

verus! {

broadcast use vstd::utf8::char_u32_cast;

/// Lexicographic "less than or equal" on character sequences, by code
/// point, with a prefix ranking below every extension of it.
pub open spec fn lex_le(a: Seq<char>, b: Seq<char>) -> bool
    decreases a.len(),
{
    if a.len() == 0 {
        true
    } else if b.len() == 0 {
        false
    } else if a[0] == b[0] {
        lex_le(a.drop_first(), b.drop_first())
    } else {
        (a[0] as u32) < (b[0] as u32)
    }
}

/// The lexicographic order as a relation value, for the sorting lemmas.
pub open spec fn lex_leq() -> spec_fn(Seq<char>, Seq<char>) -> bool {
    |a: Seq<char>, b: Seq<char>| lex_le(a, b)
}

/// A list of words in nondecreasing lexicographic order.
pub open spec fn lex_sorted(s: Seq<Seq<char>>) -> bool {
    forall|i: int, j: int| 0 <= i < j < s.len() ==> lex_le(s[i], s[j])
}

/// Every word ranks at or below itself.
proof fn lemma_lex_refl(a: Seq<char>)
    ensures
        lex_le(a, a),
    decreases a.len(),
{
    if a.len() > 0 {
        lemma_lex_refl(a.drop_first());
    }
}

/// Words that rank at or below each other are equal.
proof fn lemma_lex_antisym(a: Seq<char>, b: Seq<char>)
    requires
        lex_le(a, b),
        lex_le(b, a),
    ensures
        a == b,
    decreases a.len(),
{
    if a.len() == 0 {
        assert(b.len() == 0);
        assert(a =~= b);
    } else {
        assert(b.len() > 0);
        if a[0] == b[0] {
            lemma_lex_antisym(a.drop_first(), b.drop_first());
            assert(a.drop_first() == b.drop_first());
            assert(a.drop_first().len() == a.len() - 1);
            assert(b.drop_first().len() == b.len() - 1);
            assert(a.len() == b.len());
            assert forall|i: int| 0 <= i < a.len() implies a[i] == b[i] by {
                if i > 0 {
                    assert(a.drop_first()[i - 1] == b.drop_first()[i - 1]);
                }
            }
            assert(a =~= b);
        }
    }
}

/// The order is transitive.
proof fn lemma_lex_trans(a: Seq<char>, b: Seq<char>, c: Seq<char>)
    requires
        lex_le(a, b),
        lex_le(b, c),
    ensures
        lex_le(a, c),
    decreases a.len(),
{
    if a.len() > 0 && b.len() > 0 && c.len() > 0 {
        if a[0] == b[0] && b[0] == c[0] {
            lemma_lex_trans(a.drop_first(), b.drop_first(), c.drop_first());
        }
    }
}

/// Any two words are comparable.
proof fn lemma_lex_connected(a: Seq<char>, b: Seq<char>)
    ensures
        lex_le(a, b) || lex_le(b, a),
    decreases a.len(),
{
    if a.len() > 0 && b.len() > 0 {
        if a[0] == b[0] {
            lemma_lex_connected(a.drop_first(), b.drop_first());
        } else {
            if (a[0] as u32) == (b[0] as u32) {
                vstd::utf8::char_u32_cast(a[0], a[0] as u32);
                vstd::utf8::char_u32_cast(b[0], b[0] as u32);
            }
        }
    }
}

/// The lexicographic order is a total order on words.
pub proof fn lemma_lex_total()
    ensures
        total_ordering(lex_leq()),
        forall|s: Seq<Seq<char>>| sorted_by(s, lex_leq()) <==> #[trigger] lex_sorted(s),
{
    assert forall|a: Seq<char>| #[trigger] lex_leq()(a, a) by {
        lemma_lex_refl(a);
    }
    assert forall|a: Seq<char>, b: Seq<char>|
        #[trigger] lex_leq()(a, b) && #[trigger] lex_leq()(b, a) implies a == b by {
        lemma_lex_antisym(a, b);
    }
    assert forall|a: Seq<char>, b: Seq<char>, c: Seq<char>|
        #[trigger] lex_leq()(a, b) && #[trigger] lex_leq()(b, c) implies lex_leq()(a, c) by {
        lemma_lex_trans(a, b, c);
    }
    assert forall|a: Seq<char>, b: Seq<char>| #[trigger] lex_leq()(a, b) || #[trigger] lex_leq()(
        b,
        a,
    ) by {
        lemma_lex_connected(a, b);
    }
    assert forall|s: Seq<Seq<char>>| sorted_by(s, lex_leq()) <==> #[trigger] lex_sorted(s) by {
        if sorted_by(s, lex_leq()) {
            assert forall|i: int, j: int| 0 <= i < j < s.len() implies lex_le(s[i], s[j]) by {
                assert(lex_leq()(s[i], s[j]));
            }
        }
        if lex_sorted(s) {
            assert forall|i: int, j: int| 0 <= i < j < s.len() implies #[trigger] lex_leq()(
                s[i],
                s[j],
            ) by {
                assert(lex_le(s[i], s[j]));
            }
        }
    }
}

/// Comparing two words is decided by their first differing position.
proof fn lemma_lex_common_prefix(a: Seq<char>, b: Seq<char>, i: int)
    requires
        0 <= i <= a.len(),
        i <= b.len(),
        forall|j: int| 0 <= j < i ==> a[j] == b[j],
    ensures
        lex_le(a, b) == lex_le(a.skip(i), b.skip(i)),
    decreases i,
{
    if i > 0 {
        assert(a.len() > 0 && b.len() > 0);
        assert(a[0] == b[0]);
        assert(a.drop_first().skip(i - 1) =~= a.skip(i));
        assert(b.drop_first().skip(i - 1) =~= b.skip(i));
        assert forall|j: int| 0 <= j < i - 1 implies a.drop_first()[j] == b.drop_first()[j] by {
            assert(a[j + 1] == b[j + 1]);
        }
        lemma_lex_common_prefix(a.drop_first(), b.drop_first(), i - 1);
    } else {
        assert(a.skip(0) =~= a);
        assert(b.skip(0) =~= b);
    }
}

/// Compare two words lexicographically.
pub fn str_le(a: &str, b: &str) -> (r: bool)
    ensures
        r == lex_le(a@, b@),
{
    let an = a.unicode_len();
    let bn = b.unicode_len();
    let mut i: usize = 0;
    while i < an && i < bn
        invariant
            i <= an,
            i <= bn,
            an == a@.len(),
            bn == b@.len(),
            forall|j: int| 0 <= j < i ==> a@[j] == b@[j],
        decreases an - i,
    {
        let ca = a.get_char(i);
        let cb = b.get_char(i);
        if ca != cb {
            proof {
                lemma_lex_common_prefix(a@, b@, i as int);
                assert(a@.skip(i as int)[0] == a@[i as int]);
                assert(b@.skip(i as int)[0] == b@[i as int]);
                assert(a@.skip(i as int).len() > 0 && b@.skip(i as int).len() > 0);
            }
            return (ca as u32) < (cb as u32);
        }
        i = i + 1;
    }
    proof {
        lemma_lex_common_prefix(a@, b@, i as int);
        if an <= bn {
            assert(a@.skip(i as int).len() == 0);
        } else {
            assert(b@.skip(i as int).len() == 0);
            assert(a@.skip(i as int).len() > 0);
        }
    }
    an <= bn
}

} // verus!
