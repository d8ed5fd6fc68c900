//! The order of variable names, and sets of names kept in that order.

use vstd::prelude::*;

verus! {

/// `k` is the first position at which `a` and `b` part, and `a` is the lesser
/// there: it has ended, or its character is the smaller one.
pub open spec fn parts_at(a: Seq<char>, b: Seq<char>, k: int) -> bool {
    &&& 0 <= k <= a.len()
    &&& k < b.len()
    &&& forall|j: int| 0 <= j < k ==> a[j] == b[j]
    &&& k < a.len() ==> (a[k] as int) < (b[k] as int)
}

/// Lexicographic order of names by character.
pub open spec fn name_lt(a: Seq<char>, b: Seq<char>) -> bool {
    exists|k: int| #[trigger] parts_at(a, b, k)
}

/// Each name precedes every later one.
pub open spec fn strictly_sorted(names: Seq<Seq<char>>) -> bool {
    forall|i: int, j: int| 0 <= i < j < names.len() ==> name_lt(names[i], names[j])
}

/// No name precedes itself.
pub proof fn lemma_name_lt_irreflexive(a: Seq<char>)
    ensures
        !name_lt(a, a),
{
}

/// The order of names is transitive.
pub proof fn lemma_name_lt_transitive(a: Seq<char>, b: Seq<char>, c: Seq<char>)
    requires
        name_lt(a, b),
        name_lt(b, c),
    ensures
        name_lt(a, c),
{
    let k1 = choose|k: int| #[trigger] parts_at(a, b, k);
    let k2 = choose|k: int| #[trigger] parts_at(b, c, k);
    let k = if k1 <= k2 { k1 } else { k2 };
    assert(parts_at(a, c, k));
}

/// Where two names agree on their first `i` characters, they are equal or one
/// precedes the other.
proof fn lemma_total_from(a: Seq<char>, b: Seq<char>, i: int)
    requires
        0 <= i <= a.len(),
        i <= b.len(),
        forall|j: int| 0 <= j < i ==> a[j] == b[j],
    ensures
        a == b || name_lt(a, b) || name_lt(b, a),
    decreases a.len() - i,
{
    if i == a.len() {
        if i == b.len() {
            assert(a =~= b);
        } else {
            assert(parts_at(a, b, i));
        }
    } else if i == b.len() {
        assert(parts_at(b, a, i));
    } else if a[i] == b[i] {
        lemma_total_from(a, b, i + 1);
    } else if (a[i] as int) < (b[i] as int) {
        assert(parts_at(a, b, i));
    } else {
        assert(parts_at(b, a, i));
    }
}

/// The order of names is total.
pub proof fn lemma_name_lt_total(a: Seq<char>, b: Seq<char>)
    ensures
        a == b || name_lt(a, b) || name_lt(b, a),
{
    lemma_total_from(a, b, 0);
}

/// A strictly sorted sequence of names holds no name twice.
pub proof fn lemma_sorted_no_duplicates(names: Seq<Seq<char>>)
    requires
        strictly_sorted(names),
    ensures
        names.no_duplicates(),
{
    assert forall|i: int, j: int| 0 <= i < names.len() && 0 <= j < names.len() && i != j implies names[i]
        != names[j] by {
        if i < j {
            assert(name_lt(names[i], names[j]));
        } else {
            assert(name_lt(names[j], names[i]));
        }
    }
}

/// A set of names has one strictly sorted arrangement at most.
pub proof fn lemma_sorted_unique(a: Seq<Seq<char>>, b: Seq<Seq<char>>)
    requires
        strictly_sorted(a),
        strictly_sorted(b),
        a.to_set() == b.to_set(),
    ensures
        a == b,
{
    lemma_sorted_no_duplicates(a);
    lemma_sorted_no_duplicates(b);
    a.unique_seq_to_set();
    b.unique_seq_to_set();
    lemma_sorted_agree(a, b, a.len() as int);
    assert(a =~= b);
}

/// Two strictly sorted arrangements of one set agree on their first `n` names.
proof fn lemma_sorted_agree(a: Seq<Seq<char>>, b: Seq<Seq<char>>, n: int)
    requires
        strictly_sorted(a),
        strictly_sorted(b),
        a.to_set() == b.to_set(),
        a.len() == b.len(),
        0 <= n <= a.len(),
    ensures
        forall|j: int| 0 <= j < n ==> a[j] == b[j],
    decreases n,
{
    if n > 0 {
        lemma_sorted_agree(a, b, n - 1);
        let i = n - 1;
        assert(a.to_set().contains(a[i])) by {
            assert(a.contains(a[i]));
        }
        assert(b.to_set().contains(b[i])) by {
            assert(b.contains(b[i]));
        }
        assert(b.contains(a[i]));
        assert(a.contains(b[i]));
        let k = choose|k: int| 0 <= k < b.len() && b[k] == a[i];
        let m = choose|m: int| 0 <= m < a.len() && a[m] == b[i];
        lemma_name_lt_irreflexive(a[i]);
        if k < i {
            assert(name_lt(a[k], a[i]));
        } else if k > i {
            assert(name_lt(b[i], b[k]));
            if m < i {
                assert(name_lt(b[m], b[i]));
                lemma_name_lt_irreflexive(b[i]);
            } else if m > i {
                assert(name_lt(a[i], a[m]));
                lemma_name_lt_transitive(a[i], b[i], a[i]);
            }
        }
    }
}

/// Whether `a` comes before `b` in the order of names.
pub fn precedes(a: &str, b: &str) -> (r: bool)
    ensures
        r == name_lt(a@, b@),
{
    let la = a.unicode_len();
    let lb = b.unicode_len();
    let mut i: usize = 0;
    while i < la && i < lb
        invariant
            la == a@.len(),
            lb == b@.len(),
            i <= la,
            i <= lb,
            forall|j: int| 0 <= j < i ==> a@[j] == b@[j],
        decreases la - i,
    {
        let ca = a.get_char(i);
        let cb = b.get_char(i);
        if ca != cb {
            let less = (ca as u32) < (cb as u32);
            proof {
                if less {
                    assert(parts_at(a@, b@, i as int));
                } else {
                    assert forall|k: int| !#[trigger] parts_at(a@, b@, k) by {
                        if parts_at(a@, b@, k) {
                            if k > i {
                                assert(a@[i as int] == b@[i as int]);
                            }
                        }
                    }
                }
            }
            return less;
        }
        i += 1;
    }
    proof {
        if la < lb {
            assert(parts_at(a@, b@, i as int));
        } else {
            assert forall|k: int| !#[trigger] parts_at(a@, b@, k) by {}
        }
    }
    la < lb
}

/// Puts `name` into the sorted set `names`, which keeps it once.
pub fn insert_name(names: &mut Vec<String>, name: &str)
    requires
        strictly_sorted(old(names).deep_view()),
    ensures
        strictly_sorted(final(names).deep_view()),
        final(names).deep_view().to_set() == old(names).deep_view().to_set().insert(name@),
{
    let ghost before = names.deep_view();
    let mut i: usize = 0;
    while i < names.len() && precedes(names[i].as_str(), name)
        invariant
            i <= names.len(),
            names.deep_view() == before,
            forall|j: int| 0 <= j < i ==> name_lt(before[j], name@),
        decreases names.len() - i,
    {
        i += 1;
    }
    if i < names.len() && !precedes(name, names[i].as_str()) {
        proof {
            lemma_name_lt_total(before[i as int], name@);
            assert(before.to_set().insert(name@) =~= before.to_set());
        }
        return ;
    }
    names.insert(i, name.to_owned());
    proof {
        let after = names.deep_view();
        assert(after =~= before.insert(i as int, name@));
        assert forall|p: int, q: int| 0 <= p < q < after.len() implies name_lt(
            after[p],
            after[q],
        ) by {
            if q < i {
            } else if q == i {
            } else if p == i {
                if q - 1 > i {
                    assert(name_lt(before[i as int], before[q - 1]));
                    lemma_name_lt_transitive(name@, before[i as int], before[q - 1]);
                }
            } else if p < i {
                assert(name_lt(before[p], name@));
                if q - 1 > i {
                    assert(name_lt(before[i as int], before[q - 1]));
                    lemma_name_lt_transitive(name@, before[i as int], before[q - 1]);
                }
                lemma_name_lt_transitive(before[p], name@, before[q - 1]);
            } else {
                assert(name_lt(before[p - 1], before[q - 1]));
            }
        }
        assert forall|x: Seq<char>| after.to_set().contains(x) <==> before.to_set().insert(
            name@,
        ).contains(x) by {
            if after.contains(x) {
                let k = choose|k: int| 0 <= k < after.len() && after[k] == x;
                if k < i {
                    assert(before[k] == x);
                } else if k > i {
                    assert(before[k - 1] == x);
                }
            }
            if before.contains(x) {
                let k = choose|k: int| 0 <= k < before.len() && before[k] == x;
                if k < i {
                    assert(after[k] == x);
                } else {
                    assert(after[k + 1] == x);
                }
            }
            if x == name@ {
                assert(after[i as int] == x);
            }
        }
        assert(after.to_set() =~= before.to_set().insert(name@));
    }
}

} // verus!
