//! The order in which files are packed: by their names' bytes.
use vstd::prelude::*;

verus! {

/// Lexicographic order of byte strings (a prefix comes first).
pub open spec fn bytes_le(a: Seq<u8>, b: Seq<u8>) -> bool
    decreases a.len(),
{
    if a.len() == 0 {
        true
    } else if b.len() == 0 {
        false
    } else if a[0] != b[0] {
        a[0] < b[0]
    } else {
        bytes_le(a.drop_first(), b.drop_first())
    }
}

pub proof fn lemma_bytes_le_total(a: Seq<u8>, b: Seq<u8>)
    ensures
        bytes_le(a, b) || bytes_le(b, a),
    decreases a.len(),
{
    if a.len() > 0 && b.len() > 0 && a[0] == b[0] {
        lemma_bytes_le_total(a.drop_first(), b.drop_first());
    }
}

pub proof fn lemma_bytes_le_transitive(a: Seq<u8>, b: Seq<u8>, c: Seq<u8>)
    requires
        bytes_le(a, b),
        bytes_le(b, c),
    ensures
        bytes_le(a, c),
    decreases a.len(),
{
    if a.len() > 0 && b.len() > 0 && c.len() > 0 && a[0] == b[0] && b[0] == c[0] {
        lemma_bytes_le_transitive(a.drop_first(), b.drop_first(), c.drop_first());
    }
}

pub proof fn lemma_bytes_le_antisymmetric(a: Seq<u8>, b: Seq<u8>)
    requires
        bytes_le(a, b),
        bytes_le(b, a),
    ensures
        a == b,
    decreases a.len(),
{
    if a.len() > 0 && b.len() > 0 {
        lemma_bytes_le_antisymmetric(a.drop_first(), b.drop_first());
        assert(a =~= seq![a[0]] + a.drop_first());
        assert(b =~= seq![b[0]] + b.drop_first());
    } else {
        assert(a =~= b);
    }
}

/// Whether `a` comes before `b` or equals it, byte by byte.
pub fn bytes_less_eq(a: &[u8], b: &[u8]) -> (r: bool)
    ensures
        r == bytes_le(a@, b@),
{
    let mut i: usize = 0;
    assert(a@.skip(0) =~= a@);
    assert(b@.skip(0) =~= b@);
    while i < a.len() && i < b.len() && a[i] == b[i]
        invariant
            i <= a@.len(),
            i <= b@.len(),
            bytes_le(a@, b@) == bytes_le(a@.skip(i as int), b@.skip(i as int)),
        decreases a@.len() - i,
    {
        assert(a@.skip(i as int).drop_first() =~= a@.skip(i + 1));
        assert(b@.skip(i as int).drop_first() =~= b@.skip(i + 1));
        i = i + 1;
    }
    if i == a.len() {
        true
    } else if i == b.len() {
        false
    } else {
        a[i] < b[i]
    }
}

/// `order` lists each index below `n` exactly once.
pub open spec fn is_permutation(order: Seq<usize>, n: nat) -> bool {
    &&& order.len() == n
    &&& forall|k: int| 0 <= k < order.len() ==> #[trigger] order[k] < n
    &&& forall|j: int, k: int| 0 <= j < k < order.len() ==> order[j] != order[k]
    &&& forall|m: int| 0 <= m < n ==> #[trigger] lists(order, m)
}

/// `order` holds the index `m`.
pub open spec fn lists(order: Seq<usize>, m: int) -> bool {
    exists|k: int| 0 <= k < order.len() && order[k] == m
}

/// The keys taken in the order `order` never go down.
pub open spec fn sorted_by(keys: Seq<Vec<u8>>, order: Seq<usize>) -> bool {
    forall|j: int, k: int|
        0 <= j < k < order.len() ==> bytes_le(keys[order[j] as int]@, keys[order[k] as int]@)
}

/// The order in which to pack files with these names (as bytes): the
/// indices sorted by name, byte by byte.
pub fn pack_order(keys: &[Vec<u8>]) -> (order: Vec<usize>)
    ensures
        is_permutation(order@, keys@.len()),
        sorted_by(keys@, order@),
{
    let n = keys.len();
    let mut order: Vec<usize> = Vec::new();
    let mut i: usize = 0;
    while i < n
        invariant
            n == keys@.len(),
            i <= n,
            is_permutation(order@, i as nat),
            sorted_by(keys@, order@),
        decreases n - i,
    {
        let mut p = order.len();
        while p > 0 && !bytes_less_eq(keys[order[p - 1]].as_slice(), keys[i].as_slice())
            invariant
                n == keys@.len(),
                i < n,
                p <= order@.len(),
                is_permutation(order@, i as nat),
                forall|k: int|
                    p <= k < order@.len() ==> !bytes_le(
                        keys@[order@[k] as int]@,
                        keys@[i as int]@,
                    ),
            decreases p,
        {
            p = p - 1;
        }
        let ghost old_order = order@;
        proof {
            assert forall|k: int| 0 <= k < p implies bytes_le(
                keys@[old_order[k] as int]@,
                keys@[i as int]@,
            ) by {
                if k < p - 1 {
                    lemma_bytes_le_transitive(
                        keys@[old_order[k] as int]@,
                        keys@[old_order[p - 1] as int]@,
                        keys@[i as int]@,
                    );
                }
            }
            assert forall|k: int| p <= k < old_order.len() implies bytes_le(
                keys@[i as int]@,
                keys@[old_order[k] as int]@,
            ) by {
                lemma_bytes_le_total(keys@[i as int]@, keys@[old_order[k] as int]@);
            }
        }
        order.insert(p, i);
        proof {
            assert(order@ =~= old_order.insert(p as int, i));
            assert forall|j: int, k: int| 0 <= j < k < order@.len() implies order@[j]
                != order@[k] by {
                if j < p && k < p {
                } else if j < p && k == p {
                } else if j < p {
                    assert(order@[k] == old_order[k - 1]);
                } else if j == p {
                    assert(order@[k] == old_order[k - 1]);
                } else {
                    assert(order@[j] == old_order[j - 1]);
                    assert(order@[k] == old_order[k - 1]);
                }
            }
            assert forall|m: int| 0 <= m < i + 1 implies #[trigger] lists(order@, m) by {
                if m == i {
                    assert(order@[p as int] == m);
                } else {
                    assert(lists(old_order, m));
                    let k0 = choose|k: int| 0 <= k < old_order.len() && old_order[k] == m;
                    if k0 < p {
                        assert(order@[k0] == m);
                    } else {
                        assert(order@[k0 + 1] == m);
                    }
                }
            }
            assert forall|j: int, k: int| 0 <= j < k < order@.len() implies bytes_le(
                keys@[order@[j] as int]@,
                keys@[order@[k] as int]@,
            ) by {
                if j < p && k < p {
                } else if j < p && k == p {
                } else if j < p {
                    assert(order@[k] == old_order[k - 1]);
                } else if j == p {
                    assert(order@[k] == old_order[k - 1]);
                } else {
                    assert(order@[j] == old_order[j - 1]);
                    assert(order@[k] == old_order[k - 1]);
                }
            }
        }
        i = i + 1;
    }
    order
}

/// No two keys are the same.
pub open spec fn distinct_keys(keys: Seq<Vec<u8>>) -> bool {
    forall|j: int, k: int| 0 <= j < k < keys.len() ==> keys[j]@ != keys[k]@
}

/// Every key of `a` is a key of `b`.
pub open spec fn keys_within(a: Seq<Vec<u8>>, b: Seq<Vec<u8>>) -> bool {
    forall|i: int| 0 <= i < a.len() ==> has_key(b, #[trigger] a[i]@)
}

/// `x` is one of the keys.
pub open spec fn has_key(keys: Seq<Vec<u8>>, x: Seq<u8>) -> bool {
    exists|j: int| 0 <= j < keys.len() && #[trigger] keys[j]@ == x
}

/// The keys taken in the order `order`.
pub open spec fn ordered_keys(keys: Seq<Vec<u8>>, order: Seq<usize>) -> Seq<Seq<u8>> {
    Seq::new(order.len(), |k: int| keys[order[k] as int]@)
}

/// `s` goes up strictly.
pub open spec fn strictly_sorted(s: Seq<Seq<u8>>) -> bool {
    forall|j: int, k: int|
        0 <= j < k < s.len() ==> bytes_le(#[trigger] s[j], #[trigger] s[k]) && s[j] != s[k]
}

/// `x` is an element of `s`.
pub open spec fn occurs(x: Seq<u8>, s: Seq<Seq<u8>>) -> bool {
    exists|j: int| 0 <= j < s.len() && #[trigger] s[j] == x
}

/// Every element of `a` is an element of `b`.
pub open spec fn all_occur(a: Seq<Seq<u8>>, b: Seq<Seq<u8>>) -> bool {
    forall|i: int| 0 <= i < a.len() ==> occurs(#[trigger] a[i], b)
}

/// Two strictly sorted sequences that hold the same elements agree on
/// their first `m` places.
proof fn lemma_sorted_prefix_equal(s1: Seq<Seq<u8>>, s2: Seq<Seq<u8>>, m: int)
    requires
        s1.len() == s2.len(),
        0 <= m <= s1.len(),
        strictly_sorted(s1),
        strictly_sorted(s2),
        all_occur(s1, s2),
        all_occur(s2, s1),
    ensures
        forall|k: int| 0 <= k < m ==> s1[k] == s2[k],
    decreases m,
{
    if m > 0 {
        let p = m - 1;
        lemma_sorted_prefix_equal(s1, s2, p);
        let a = s1[p];
        let b = s2[p];
        assert(occurs(a, s2));
        assert(occurs(b, s1));
        let j = choose|j: int| 0 <= j < s2.len() && #[trigger] s2[j] == a;
        let i = choose|j: int| 0 <= j < s1.len() && #[trigger] s1[j] == b;
        if j < p {
            assert(s1[j] == s2[j]);
            assert(s1[j] != s1[p]);
        }
        if i < p {
            assert(s1[i] == s2[i]);
            assert(s2[i] != s2[p]);
        }
        if j > p && i > p {
            assert(bytes_le(s2[p], s2[j]));
            assert(bytes_le(s1[p], s1[i]));
            lemma_bytes_le_antisymmetric(a, b);
        }
    }
}

/// Packing does not depend on the order in which the files were listed:
/// two lists of the same distinct names, in any order, sorted as
/// `pack_order` sorts them, give the names in one and the same order.
pub proof fn lemma_pack_order_unique(
    keys1: Seq<Vec<u8>>,
    order1: Seq<usize>,
    keys2: Seq<Vec<u8>>,
    order2: Seq<usize>,
)
    requires
        is_permutation(order1, keys1.len()),
        sorted_by(keys1, order1),
        is_permutation(order2, keys2.len()),
        sorted_by(keys2, order2),
        keys1.len() == keys2.len(),
        distinct_keys(keys1),
        distinct_keys(keys2),
        keys_within(keys1, keys2),
        keys_within(keys2, keys1),
    ensures
        ordered_keys(keys1, order1) == ordered_keys(keys2, order2),
{
    let s1 = ordered_keys(keys1, order1);
    let s2 = ordered_keys(keys2, order2);
    assert(strictly_sorted(s1)) by {
        assert forall|j: int, k: int| 0 <= j < k < s1.len() implies bytes_le(
            #[trigger] s1[j],
            #[trigger] s1[k],
        ) && s1[j] != s1[k] by {
            if order1[j] < order1[k] {
            } else {
            }
        }
    }
    assert(strictly_sorted(s2)) by {
        assert forall|j: int, k: int| 0 <= j < k < s2.len() implies bytes_le(
            #[trigger] s2[j],
            #[trigger] s2[k],
        ) && s2[j] != s2[k] by {
            if order2[j] < order2[k] {
            } else {
            }
        }
    }
    assert(all_occur(s1, s2)) by {
        assert forall|i: int| 0 <= i < s1.len() implies occurs(#[trigger] s1[i], s2) by {
            let x = order1[i] as int;
            assert(has_key(keys2, keys1[x]@));
            let y = choose|y: int| 0 <= y < keys2.len() && #[trigger] keys2[y]@ == keys1[x]@;
            assert(lists(order2, y));
            let k = choose|k: int| 0 <= k < order2.len() && order2[k] == y;
            assert(s2[k] == s1[i]);
        }
    }
    assert(all_occur(s2, s1)) by {
        assert forall|i: int| 0 <= i < s2.len() implies occurs(#[trigger] s2[i], s1) by {
            let x = order2[i] as int;
            assert(has_key(keys1, keys2[x]@));
            let y = choose|y: int| 0 <= y < keys1.len() && #[trigger] keys1[y]@ == keys2[x]@;
            assert(lists(order1, y));
            let k = choose|k: int| 0 <= k < order1.len() && order1[k] == y;
            assert(s1[k] == s2[i]);
        }
    }
    lemma_sorted_prefix_equal(s1, s2, s1.len() as int);
    assert(s1 =~= s2);
}

} // verus!
