//! Facts about order-tracking sequences.
//!
//! Both caches keep their live keys in a duplicate-free sequence, oldest
//! first. The lemmas here describe how pushing a fresh key, dropping the
//! oldest key, and excising a key at a known position act on that sequence
//! and on the set of keys it holds.

use vstd::prelude::*;

verus! {

/// Pushing a key that is not yet tracked keeps the order sequence
/// duplicate-free and adds exactly that key to the tracked set.
pub(crate) proof fn lemma_order_push(s: Seq<u64>, k: u64)
    requires
        s.no_duplicates(),
        !s.contains(k),
    ensures
        s.push(k).no_duplicates(),
        s.push(k).to_set() == s.to_set().insert(k),
{
    assert forall|i: int, j: int|
        0 <= i < s.push(k).len() && 0 <= j < s.push(k).len() && i != j implies s.push(k)[i]
        != s.push(k)[j] by {
        if i < s.len() && j < s.len() {
            assert(s[i] != s[j]);
        } else if i < s.len() {
            assert(s.contains(s[i]));
        } else {
            assert(s.contains(s[j]));
        }
    }
    assert forall|x: u64| s.push(k).to_set().contains(x) implies s.to_set().insert(k).contains(
        x,
    ) by {
        let i = choose|i: int| 0 <= i < s.push(k).len() && s.push(k)[i] == x;
        if i < s.len() {
            assert(s.contains(x));
        }
    }
    assert forall|x: u64| s.to_set().insert(k).contains(x) implies s.push(k).to_set().contains(
        x,
    ) by {
        if x == k {
            assert(s.push(k)[s.len() as int] == k);
        } else {
            let i = choose|i: int| 0 <= i < s.len() && s[i] == x;
            assert(s.push(k)[i] == x);
        }
    }
    assert(s.push(k).to_set() =~= s.to_set().insert(k));
}

/// Dropping the oldest key from a duplicate-free order sequence removes
/// exactly that key from the tracked set and keeps the rest untouched.
pub(crate) proof fn lemma_order_drop_first(s: Seq<u64>)
    requires
        s.len() >= 1,
        s.no_duplicates(),
    ensures
        s.drop_first().no_duplicates(),
        !s.drop_first().contains(s[0]),
        s.drop_first().to_set() == s.to_set().remove(s[0]),
{
    assert forall|x: u64| s.drop_first().to_set().contains(x) implies s.to_set().remove(
        s[0],
    ).contains(x) by {
        let i = choose|i: int| 0 <= i < s.drop_first().len() && s.drop_first()[i] == x;
        assert(s[i + 1] == x);
        assert(x != s[0]);
    }
    assert forall|x: u64| s.to_set().remove(s[0]).contains(x) implies s.drop_first(
    ).to_set().contains(x) by {
        let i = choose|i: int| 0 <= i < s.len() && s[i] == x;
        assert(i != 0);
        assert(s.drop_first()[i - 1] == x);
    }
    assert(s.drop_first().to_set() =~= s.to_set().remove(s[0]));
    assert forall|i: int| 0 <= i < s.drop_first().len() implies s.drop_first()[i] != s[0] by {
        assert(s.drop_first()[i] == s[i + 1]);
    }
}

/// Excising the key at a known position of a duplicate-free order sequence
/// removes exactly that key from the tracked set, and is the same sequence
/// that excising the key by value yields.
pub(crate) proof fn lemma_order_remove_at(s: Seq<u64>, i: int)
    requires
        s.no_duplicates(),
        0 <= i < s.len(),
    ensures
        s.remove(i).no_duplicates(),
        s.remove(i).to_set() == s.to_set().remove(s[i]),
        s.remove_value(s[i]) == s.remove(i),
{
    s.remove_ensures(i);
    assert forall|p: int, q: int|
        0 <= p < s.remove(i).len() && 0 <= q < s.remove(i).len() && p != q implies s.remove(i)[p]
        != s.remove(i)[q] by {
        let p0: int = if p < i {
            p
        } else {
            p + 1
        };
        let q0: int = if q < i {
            q
        } else {
            q + 1
        };
        assert(s.remove(i)[p] == s[p0]);
        assert(s.remove(i)[q] == s[q0]);
    }
    assert forall|x: u64| s.remove(i).to_set().contains(x) implies s.to_set().remove(
        s[i],
    ).contains(x) by {
        let p = choose|p: int| 0 <= p < s.remove(i).len() && s.remove(i)[p] == x;
        let p0: int = if p < i {
            p
        } else {
            p + 1
        };
        assert(s[p0] == x);
        assert(p0 != i);
    }
    assert forall|x: u64| s.to_set().remove(s[i]).contains(x) implies s.remove(i).to_set().contains(
        x,
    ) by {
        let p = choose|p: int| 0 <= p < s.len() && s[p] == x;
        assert(p != i);
        if p < i {
            assert(s.remove(i)[p] == x);
        } else {
            assert(s.remove(i)[p - 1] == x);
        }
    }
    assert(s.remove(i).to_set() =~= s.to_set().remove(s[i]));
    s.index_of_first_ensures(s[i]);
    match s.index_of_first(s[i]) {
        Some(j) => {
            assert(s[j] == s[i]);
            assert(j == i);
        },
        None => {
            assert(s.contains(s[i]));
        },
    }
}

} // verus!
