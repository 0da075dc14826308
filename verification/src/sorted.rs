use vstd::prelude::*;

verus! {

/// Keys in non-decreasing order.
pub open spec fn sorted(s: Seq<u64>) -> bool {
    forall|i: int, j: int| 0 <= i <= j < s.len() ==> s[i] <= s[j]
}

/// 32-bit values in non-decreasing order.
pub open spec fn sorted32(s: Seq<u32>) -> bool {
    forall|i: int, j: int| 0 <= i <= j < s.len() ==> s[i] <= s[j]
}

/// The position at which `k` enters the sorted sequence `s` in front of every key equal
/// to it: the number of keys below `k`.
pub open spec fn lb(s: Seq<u64>, k: u64) -> int
    decreases s.len(),
{
    if s.len() == 0 {
        0
    } else if s.last() < k {
        s.len() as int
    } else {
        lb(s.drop_last(), k)
    }
}

/// The keys of a sequence of key-value entries.
pub open spec fn keys_of<V>(e: Seq<(u64, V)>) -> Seq<u64> {
    e.map_values(|x: (u64, V)| x.0)
}

/// In a sorted sequence, `lb` splits the keys below `k` from the others.
pub proof fn lemma_lb(s: Seq<u64>, k: u64)
    requires
        sorted(s),
    ensures
        0 <= lb(s, k) <= s.len(),
        forall|i: int| 0 <= i < lb(s, k) ==> s[i] < k,
        forall|i: int| lb(s, k) <= i < s.len() ==> s[i] >= k,
    decreases s.len(),
{
    if s.len() > 0 {
        if s.last() < k {
            assert forall|i: int| 0 <= i < lb(s, k) implies s[i] < k by {
                assert(s[i] <= s[s.len() - 1]);
            }
        } else {
            let t = s.drop_last();
            assert(sorted(t));
            lemma_lb(t, k);
            assert forall|i: int| lb(s, k) <= i < s.len() implies s[i] >= k by {
                if i < s.len() - 1 {
                    assert(t[i] == s[i]);
                }
            }
            assert forall|i: int| 0 <= i < lb(s, k) implies s[i] < k by {
                assert(t[i] == s[i]);
            }
        }
    }
}

/// A position that splits the keys below `k` from the others is `lb`.
pub proof fn lemma_lb_unique(s: Seq<u64>, k: u64, p: int)
    requires
        sorted(s),
        0 <= p <= s.len(),
        forall|i: int| 0 <= i < p ==> s[i] < k,
        forall|i: int| p <= i < s.len() ==> s[i] >= k,
    ensures
        p == lb(s, k),
{
    lemma_lb(s, k);
    if p < lb(s, k) {
        assert(s[p] >= k);
    } else if p > lb(s, k) {
        assert(s[lb(s, k)] < k);
    }
}

/// Inserting a key at its `lb` position keeps the keys sorted.
pub proof fn lemma_sorted_insert(s: Seq<u64>, k: u64)
    requires
        sorted(s),
    ensures
        sorted(s.insert(lb(s, k), k)),
        s.insert(lb(s, k), k).len() == s.len() + 1,
{
    lemma_lb(s, k);
    let p = lb(s, k);
    let t = s.insert(p, k);
    assert forall|i: int, j: int| 0 <= i <= j < t.len() implies t[i] <= t[j] by {
        if i < p {
            assert(t[i] == s[i]);
            if j < p {
                assert(t[j] == s[j]);
            } else if j > p {
                assert(t[j] == s[j - 1]);
            }
        } else if i == p {
            if j > p {
                assert(t[j] == s[j - 1]);
            }
        } else {
            assert(t[i] == s[i - 1]);
            assert(t[j] == s[j - 1]);
        }
    }
}

/// `lb` is a position of the sequence.
pub proof fn lemma_lb_range(s: Seq<u64>, k: u64)
    ensures
        0 <= lb(s, k) <= s.len(),
    decreases s.len(),
{
    if s.len() > 0 && s.last() >= k {
        lemma_lb_range(s.drop_last(), k);
    }
}

/// Inserting a key between its neighbours keeps the keys sorted.
pub proof fn lemma_sorted_insert_between(s: Seq<u64>, p: int, k: u64)
    requires
        sorted(s),
        0 <= p <= s.len(),
        p > 0 ==> s[p - 1] <= k,
        p < s.len() ==> k <= s[p],
    ensures
        sorted(s.insert(p, k)),
{
    let t = s.insert(p, k);
    assert forall|i: int, j: int| 0 <= i <= j < t.len() implies t[i] <= t[j] by {
        if i < p {
            assert(t[i] == s[i]);
            assert(s[i] <= s[p - 1]);
            if j < p {
                assert(t[j] == s[j]);
            } else if j > p {
                assert(t[j] == s[j - 1]);
            }
        } else if i == p {
            if j > p {
                assert(t[j] == s[j - 1]);
                assert(s[p] <= s[j - 1]);
            }
        } else {
            assert(t[i] == s[i - 1]);
            assert(t[j] == s[j - 1]);
        }
    }
}

/// Both parts of a sorted sequence are sorted.
pub proof fn lemma_sorted_parts(s: Seq<u64>, m: int)
    requires
        sorted(s),
        0 <= m <= s.len(),
    ensures
        sorted(s.subrange(0, m)),
        sorted(s.subrange(m, s.len() as int)),
        forall|i: int, j: int| 0 <= i < m <= j < s.len() ==> s[i] <= s[j],
{
}

/// The first position in the sorted keys whose key is not below `key`.
pub fn lower_bound(keys: &Vec<u64>, key: u64) -> (p: usize)
    requires
        sorted(keys@),
    ensures
        p == lb(keys@, key),
        p <= keys@.len(),
        forall|i: int| 0 <= i < p ==> keys@[i] < key,
        forall|i: int| p <= i < keys@.len() ==> keys@[i] >= key,
{
    let mut lo: usize = 0;
    let mut hi: usize = keys.len();
    while lo < hi
        invariant
            0 <= lo <= hi <= keys@.len(),
            sorted(keys@),
            forall|i: int| 0 <= i < lo ==> keys@[i] < key,
            forall|i: int| hi <= i < keys@.len() ==> keys@[i] >= key,
        decreases hi - lo,
    {
        let mid: usize = lo + (hi - lo) / 2;
        if keys[mid] < key {
            lo = mid + 1;
        } else {
            hi = mid;
        }
    }
    proof {
        lemma_lb_unique(keys@, key, lo as int);
    }
    lo
}

} // verus!
