//! Removing a set of ids from a sequence while keeping the order of the rest.
use crate::entities::EntityId;
use vstd::prelude::*;

verus! {

/// `s` without the elements in `gone`, in the order of `s`.
pub open spec fn without(s: Seq<EntityId>, gone: Set<EntityId>) -> Seq<EntityId>
    decreases s.len(),
{
    if s.len() == 0 {
        s
    } else if gone.contains(s[0]) {
        without(s.drop_first(), gone)
    } else {
        seq![s[0]] + without(s.drop_first(), gone)
    }
}

/// An element stays exactly when it was in `s` and is not in `gone`.
pub proof fn lemma_without_contains(s: Seq<EntityId>, gone: Set<EntityId>, x: EntityId)
    ensures
        without(s, gone).contains(x) == (s.contains(x) && !gone.contains(x)),
    decreases s.len(),
{
    if s.len() > 0 {
        lemma_without_contains(s.drop_first(), gone, x);
        let rest = without(s.drop_first(), gone);
        if s.contains(x) && !gone.contains(x) {
            if s[0] != x {
                let i = choose|i: int| 0 <= i < s.len() && s[i] == x;
                assert(s.drop_first()[i - 1] == x);
                let j = choose|j: int| 0 <= j < rest.len() && rest[j] == x;
                if !gone.contains(s[0]) {
                    assert((seq![s[0]] + rest)[j + 1] == x);
                }
            } else {
                assert((seq![s[0]] + rest)[0] == x);
            }
        }
        if without(s, gone).contains(x) {
            let j = choose|j: int| 0 <= j < without(s, gone).len() && without(s, gone)[j] == x;
            if !gone.contains(s[0]) && j == 0 {
                assert(s[0] == x);
            } else if !gone.contains(s[0]) {
                assert(rest[j - 1] == x);
                let k = choose|k: int| 0 <= k < s.drop_first().len() && s.drop_first()[k] == x;
                assert(s[k + 1] == x);
            } else {
                assert(rest[j] == x);
                let k = choose|k: int| 0 <= k < s.drop_first().len() && s.drop_first()[k] == x;
                assert(s[k + 1] == x);
            }
        }
    }
}

/// Removing elements keeps a sequence free of duplicates.
pub proof fn lemma_without_no_duplicates(s: Seq<EntityId>, gone: Set<EntityId>)
    requires
        s.no_duplicates(),
    ensures
        without(s, gone).no_duplicates(),
    decreases s.len(),
{
    if s.len() > 0 {
        let t = s.drop_first();
        assert(t.no_duplicates()) by {
            assert forall|i: int, j: int| 0 <= i < t.len() && 0 <= j < t.len() && i != j implies t[i]
                != t[j] by {
                assert(t[i] == s[i + 1] && t[j] == s[j + 1]);
            }
        }
        lemma_without_no_duplicates(t, gone);
        let rest = without(t, gone);
        if !gone.contains(s[0]) {
            lemma_without_contains(t, gone, s[0]);
            assert(!t.contains(s[0])) by {
                if t.contains(s[0]) {
                    let k = choose|k: int| 0 <= k < t.len() && t[k] == s[0];
                    assert(s[k + 1] == s[0]);
                }
            }
            let w = seq![s[0]] + rest;
            assert forall|i: int, j: int| 0 <= i < w.len() && 0 <= j < w.len() && i != j implies w[i]
                != w[j] by {
                if i == 0 {
                    assert(w[j] == rest[j - 1]);
                } else if j == 0 {
                    assert(w[i] == rest[i - 1]);
                } else {
                    assert(w[i] == rest[i - 1] && w[j] == rest[j - 1]);
                }
            }
        }
    }
}

/// Only the elements of `s` matter to what `gone` removes.
pub proof fn lemma_without_congruent(s: Seq<EntityId>, a: Set<EntityId>, b: Set<EntityId>)
    requires
        forall|i: int| 0 <= i < s.len() ==> a.contains(#[trigger] s[i]) == b.contains(s[i]),
    ensures
        without(s, a) == without(s, b),
    decreases s.len(),
{
    if s.len() > 0 {
        assert(a.contains(s[0]) == b.contains(s[0]));
        assert forall|i: int| 0 <= i < s.drop_first().len() implies a.contains(
            #[trigger] s.drop_first()[i],
        ) == b.contains(s.drop_first()[i]) by {
            assert(s.drop_first()[i] == s[i + 1]);
        }
        lemma_without_congruent(s.drop_first(), a, b);
    }
}

/// Removing one more element `x`, at index `j` of what remained, takes it out at `j`.
pub proof fn lemma_without_remove_one(
    s: Seq<EntityId>,
    gone: Set<EntityId>,
    x: EntityId,
    j: int,
)
    requires
        s.no_duplicates(),
        0 <= j < without(s, gone).len(),
        without(s, gone)[j] == x,
    ensures
        without(s, gone.insert(x)) == without(s, gone).remove(j),
    decreases s.len(),
{
    let t = s.drop_first();
    assert(t.no_duplicates()) by {
        assert forall|i: int, k: int| 0 <= i < t.len() && 0 <= k < t.len() && i != k implies t[i]
            != t[k] by {
            assert(t[i] == s[i + 1] && t[k] == s[k + 1]);
        }
    }
    let rest = without(t, gone);
    if gone.contains(s[0]) {
        assert(without(s, gone) == rest);
        lemma_without_remove_one(t, gone, x, j);
        assert(gone.insert(x).contains(s[0]));
    } else if j == 0 {
        assert(s[0] == x);
        assert(!t.contains(x)) by {
            if t.contains(x) {
                let k = choose|k: int| 0 <= k < t.len() && t[k] == x;
                assert(s[k + 1] == s[0]);
            }
        }
        assert forall|i: int| 0 <= i < t.len() implies gone.contains(#[trigger] t[i])
            == gone.insert(x).contains(t[i]) by {
            assert(t[i] != x);
        }
        lemma_without_congruent(t, gone, gone.insert(x));
        assert(without(s, gone).remove(j) =~= rest);
    } else {
        assert(without(s, gone) == seq![s[0]] + rest);
        assert(rest[j - 1] == x);
        lemma_without_remove_one(t, gone, x, j - 1);
        assert(s[0] != x) by {
            lemma_without_contains(t, gone, x);
            assert(rest.contains(x));
            let k = choose|k: int| 0 <= k < t.len() && t[k] == x;
            assert(s[k + 1] == x);
        }
        assert(without(s, gone.insert(x)) == seq![s[0]] + without(t, gone.insert(x)));
        assert((seq![s[0]] + rest).remove(j) =~= seq![s[0]] + rest.remove(j - 1));
    }
}

/// Removing elements that are not there changes nothing.
pub proof fn lemma_without_nothing(s: Seq<EntityId>, gone: Set<EntityId>)
    requires
        forall|i: int| 0 <= i < s.len() ==> !gone.contains(#[trigger] s[i]),
    ensures
        without(s, gone) == s,
    decreases s.len(),
{
    if s.len() > 0 {
        assert forall|i: int| 0 <= i < s.drop_first().len() implies !gone.contains(
            #[trigger] s.drop_first()[i],
        ) by {
            assert(s.drop_first()[i] == s[i + 1]);
        }
        lemma_without_nothing(s.drop_first(), gone);
        assert(!gone.contains(s[0]));
        assert(seq![s[0]] + s.drop_first() =~= s);
    }
}

} // verus!
