//! Small sequence helpers used to state what the tree mutations do to
//! children lists.

use vstd::prelude::*;

verus! {

/// `s` with its first occurrence of `x` removed; `s` itself when `x` does
/// not occur.
pub open spec fn seq_remove_first<A>(s: Seq<A>, x: A) -> Seq<A>
    decreases s.len(),
{
    if s.len() == 0 {
        s
    } else if s[0] == x {
        s.drop_first()
    } else {
        seq![s[0]] + seq_remove_first(s.drop_first(), x)
    }
}

pub proof fn lemma_remove_first_len<A>(s: Seq<A>, x: A)
    ensures
        s.contains(x) ==> seq_remove_first(s, x).len() == s.len() - 1,
        !s.contains(x) ==> seq_remove_first(s, x) == s,
    decreases s.len(),
{
    if s.len() == 0 {
    } else if s[0] == x {
        assert(s.contains(x));
    } else {
        lemma_remove_first_len(s.drop_first(), x);
        if s.contains(x) {
            let i = choose|i: int| 0 <= i < s.len() && s[i] == x;
            assert(s.drop_first()[i - 1] == x);
            assert(s.drop_first().contains(x));
        } else {
            assert(!s.drop_first().contains(x)) by {
                if s.drop_first().contains(x) {
                    let i = choose|i: int| 0 <= i < s.drop_first().len() && s.drop_first()[i] == x;
                    assert(s[i + 1] == x);
                }
            }
            assert(seq_remove_first(s, x) =~= s);
        }
    }
}

/// Removing the first occurrence keeps every other element's membership.
pub proof fn lemma_remove_first_contains<A>(s: Seq<A>, x: A, y: A)
    requires
        y != x,
    ensures
        seq_remove_first(s, x).contains(y) == s.contains(y),
    decreases s.len(),
{
    if s.len() == 0 {
    } else if s[0] == x {
        assert(seq_remove_first(s, x) == s.drop_first());
        assert(s.drop_first().contains(y) == s.contains(y)) by {
            if s.contains(y) {
                let i = choose|i: int| 0 <= i < s.len() && s[i] == y;
                assert(i != 0);
                assert(s.drop_first()[i - 1] == y);
            }
            if s.drop_first().contains(y) {
                let i = choose|i: int| 0 <= i < s.drop_first().len() && s.drop_first()[i] == y;
                assert(s[i + 1] == y);
            }
        }
    } else {
        lemma_remove_first_contains(s.drop_first(), x, y);
        let r = seq![s[0]] + seq_remove_first(s.drop_first(), x);
        assert(seq_remove_first(s, x) == r);
        if s.contains(y) {
            let i = choose|i: int| 0 <= i < s.len() && s[i] == y;
            if i == 0 {
                assert(r[0] == y);
            } else {
                assert(s.drop_first()[i - 1] == y);
                assert(s.drop_first().contains(y));
                let j = choose|j: int|
                    0 <= j < seq_remove_first(s.drop_first(), x).len()
                        && seq_remove_first(s.drop_first(), x)[j] == y;
                assert(r[j + 1] == y);
            }
            assert(r.contains(y));
        }
        if r.contains(y) {
            let i = choose|i: int| 0 <= i < r.len() && r[i] == y;
            if i == 0 {
                assert(s[0] == y);
            } else {
                assert(seq_remove_first(s.drop_first(), x)[i - 1] == y);
                assert(seq_remove_first(s.drop_first(), x).contains(y));
                assert(s.drop_first().contains(y));
                let j = choose|j: int|
                    0 <= j < s.drop_first().len() && s.drop_first()[j] == y;
                assert(s[j + 1] == y);
            }
            assert(s.contains(y));
        }
    }
}

/// On a duplicate-free sequence, removing the first occurrence removes the
/// element entirely and keeps the rest duplicate-free.
pub proof fn lemma_remove_first_distinct<A>(s: Seq<A>, x: A)
    requires
        s.no_duplicates(),
    ensures
        seq_remove_first(s, x).no_duplicates(),
        !seq_remove_first(s, x).contains(x),
    decreases s.len(),
{
    if s.len() == 0 {
    } else if s[0] == x {
        assert(seq_remove_first(s, x) == s.drop_first());
        assert(s.drop_first().no_duplicates());
        if s.drop_first().contains(x) {
            let i = choose|i: int| 0 <= i < s.drop_first().len() && s.drop_first()[i] == x;
            assert(s[i + 1] == x && s[0] == x);
        }
    } else {
        assert(s.drop_first().no_duplicates());
        lemma_remove_first_distinct(s.drop_first(), x);
        let rest = seq_remove_first(s.drop_first(), x);
        let r = seq![s[0]] + rest;
        assert(seq_remove_first(s, x) == r);
        assert forall|i: int, j: int| 0 <= i < j < r.len() implies r[i] != r[j] by {
            if i == 0 {
                assert(rest[j - 1] == r[j]);
                assert(rest.contains(rest[j - 1]));
                lemma_remove_first_contains(s.drop_first(), x, rest[j - 1]);
                if r[0] == r[j] {
                    assert(s.drop_first().contains(s[0]));
                    let k = choose|k: int|
                        0 <= k < s.drop_first().len() && s.drop_first()[k] == s[0];
                    assert(s[k + 1] == s[0]);
                }
            } else {
                assert(r[i] == rest[i - 1] && r[j] == rest[j - 1]);
            }
        }
        if r.contains(x) {
            let i = choose|i: int| 0 <= i < r.len() && r[i] == x;
            assert(i != 0);
            assert(rest[i - 1] == x);
            assert(rest.contains(x));
        }
    }
}

/// Removing at the index of the first occurrence is removing the first
/// occurrence.
pub proof fn lemma_remove_at_first_index<A>(s: Seq<A>, x: A, j: int)
    requires
        0 <= j < s.len(),
        s[j] == x,
        forall|k: int| 0 <= k < j ==> s[k] != x,
    ensures
        s.remove(j) == seq_remove_first(s, x),
    decreases s.len(),
{
    if j == 0 {
        assert(s.remove(0) =~= s.drop_first());
    } else {
        assert(s[0] != x);
        assert(s.drop_first()[j - 1] == x);
        assert(forall|k: int| 0 <= k < j - 1 ==> s.drop_first()[k] == s[k + 1]);
        lemma_remove_at_first_index(s.drop_first(), x, j - 1);
        assert(s.remove(j) =~= seq![s[0]] + s.drop_first().remove(j - 1));
    }
}

} // verus!
