//! The order in which keys are kept: byte sequences compared position by
//! position, a proper prefix sorting before every sequence that extends it.

use vstd::prelude::*;

verus! {

/// `a` and `b` hold the same bytes at every position below `k`.
pub open spec fn agree_below(a: Seq<u8>, b: Seq<u8>, k: int) -> bool {
    &&& 0 <= k <= a.len()
    &&& k <= b.len()
    &&& forall|j: int| 0 <= j < k ==> a[j] == b[j]
}

/// Position `k` decides that `a` sorts before `b`: they agree below `k`, and
/// there either `a` ends while `b` goes on, or `a` holds the smaller byte.
pub open spec fn precedes_at(a: Seq<u8>, b: Seq<u8>, k: int) -> bool {
    &&& agree_below(a, b, k)
    &&& (k == a.len() && k < b.len()) || (k < a.len() && k < b.len() && a[k] < b[k])
}

/// `a` sorts strictly before `b`.
pub open spec fn precedes(a: Seq<u8>, b: Seq<u8>) -> bool {
    exists|k: int| precedes_at(a, b, k)
}

/// Every key sorts strictly before all the keys that follow it.
pub open spec fn is_increasing(keys: Seq<Seq<u8>>) -> bool {
    forall|i: int, j: int| 0 <= i < j < keys.len() ==> precedes(#[trigger] keys[i], #[trigger] keys[j])
}

/// The byte sequences held by a vector of keys.
pub open spec fn key_seq(keys: Seq<Vec<u8>>) -> Seq<Seq<u8>> {
    keys.map_values(|k: Vec<u8>| k@)
}

/// How one key stands to another.
#[derive(Clone, Copy, Debug, PartialEq, Eq, Structural)]
pub enum KeyOrder {
    Before,
    Same,
    After,
}

/// The position that decides between two keys is unique.
pub proof fn lemma_decided_once(a: Seq<u8>, b: Seq<u8>, k: int, l: int)
    requires
        precedes_at(a, b, k) || (agree_below(a, b, k) && k == a.len() && k == b.len()),
        precedes_at(b, a, l) || precedes_at(a, b, l),
    ensures
        k == l,
        precedes_at(a, b, l),
{
    if k < l {
        assert(a[k] == b[k]);
    } else if l < k {
        assert(a[l] == b[l]);
    }
}

/// No key sorts before itself, and of two keys at most one sorts before the
/// other.
pub proof fn lemma_precedes_asymmetric(a: Seq<u8>, b: Seq<u8>)
    requires
        precedes(a, b),
    ensures
        a != b,
        !precedes(b, a),
{
    let k = choose|k: int| precedes_at(a, b, k);
    if a == b {
        assert(!(k < a.len() && a[k] < b[k]));
    }
    if precedes(b, a) {
        let l = choose|l: int| precedes_at(b, a, l);
        lemma_decided_once(a, b, k, l);
    }
}

pub proof fn lemma_precedes_transitive(a: Seq<u8>, b: Seq<u8>, c: Seq<u8>)
    requires
        precedes(a, b),
        precedes(b, c),
    ensures
        precedes(a, c),
{
    let k = choose|k: int| precedes_at(a, b, k);
    let l = choose|l: int| precedes_at(b, c, l);
    let m = if k <= l { k } else { l };
    assert forall|j: int| 0 <= j < m implies a[j] == c[j] by {
        assert(a[j] == b[j]);
        assert(b[j] == c[j]);
    }
    if k < l {
        assert(b[k] == c[k]);
    } else if l < k {
        assert(a[l] == b[l]);
    }
    assert(precedes_at(a, c, m));
}

/// Two different keys are ordered one way or the other.
pub proof fn lemma_precedes_total(a: Seq<u8>, b: Seq<u8>)
    ensures
        a == b || precedes(a, b) || precedes(b, a),
{
    lemma_decide_from(a, b, 0);
}

proof fn lemma_decide_from(a: Seq<u8>, b: Seq<u8>, k: int)
    requires
        agree_below(a, b, k),
    ensures
        a == b || precedes(a, b) || precedes(b, a),
    decreases a.len() - k,
{
    if k == a.len() && k == b.len() {
        assert(a =~= b);
    } else if k == a.len() {
        assert(precedes_at(a, b, k));
    } else if k == b.len() {
        assert(precedes_at(b, a, k));
    } else if a[k] < b[k] {
        assert(precedes_at(a, b, k));
    } else if b[k] < a[k] {
        assert(precedes_at(b, a, k));
    } else {
        lemma_decide_from(a, b, k + 1);
    }
}

/// A strictly increasing sequence holds no key twice.
pub proof fn lemma_increasing_distinct(keys: Seq<Seq<u8>>, i: int, j: int)
    requires
        is_increasing(keys),
        0 <= i < keys.len(),
        0 <= j < keys.len(),
        keys[i] == keys[j],
    ensures
        i == j,
{
    if i < j {
        lemma_precedes_asymmetric(keys[i], keys[j]);
    } else if j < i {
        lemma_precedes_asymmetric(keys[j], keys[i]);
    }
}

/// Compares two keys byte by byte.
pub fn compare_keys(a: &[u8], b: &[u8]) -> (r: KeyOrder)
    ensures
        r == KeyOrder::Before <==> precedes(a@, b@),
        r == KeyOrder::Same <==> a@ == b@,
        r == KeyOrder::After <==> precedes(b@, a@),
{
    let mut i: usize = 0;
    while i < a.len() && i < b.len()
        invariant
            agree_below(a@, b@, i as int),
        decreases a.len() - i,
    {
        if a[i] < b[i] {
            proof {
                assert(precedes_at(a@, b@, i as int));
                lemma_precedes_asymmetric(a@, b@);
            }
            return KeyOrder::Before;
        }
        if b[i] < a[i] {
            proof {
                assert(precedes_at(b@, a@, i as int));
                lemma_precedes_asymmetric(b@, a@);
            }
            return KeyOrder::After;
        }
        i += 1;
    }
    if i < b.len() {
        proof {
            assert(precedes_at(a@, b@, i as int));
            lemma_precedes_asymmetric(a@, b@);
        }
        KeyOrder::Before
    } else if i < a.len() {
        proof {
            assert(precedes_at(b@, a@, i as int));
            lemma_precedes_asymmetric(b@, a@);
        }
        KeyOrder::After
    } else {
        proof {
            assert(a@ =~= b@);
            if precedes(a@, b@) {
                lemma_precedes_asymmetric(a@, b@);
            }
        }
        KeyOrder::Same
    }
}

/// Where `key` stands among the sorted `keys`: whether it is there, and the
/// position at which it is, or at which it would have to be put.
pub open spec fn is_place_of(keys: Seq<Seq<u8>>, key: Seq<u8>, found: bool, pos: int) -> bool {
    &&& 0 <= pos <= keys.len()
    &&& found ==> pos < keys.len() && keys[pos] == key
    &&& !found ==> {
        &&& forall|i: int| 0 <= i < pos ==> precedes(#[trigger] keys[i], key)
        &&& forall|i: int| pos <= i < keys.len() ==> precedes(key, #[trigger] keys[i])
    }
}

/// Finds `key` among sorted keys by halving.
pub fn search(keys: &Vec<Vec<u8>>, key: &[u8]) -> (r: (bool, usize))
    requires
        is_increasing(key_seq(keys@)),
    ensures
        is_place_of(key_seq(keys@), key@, r.0, r.1 as int),
{
    let ghost ks = key_seq(keys@);
    let mut lo: usize = 0;
    let mut hi: usize = keys.len();
    while lo < hi
        invariant
            ks == key_seq(keys@),
            is_increasing(ks),
            0 <= lo <= hi <= keys.len(),
            forall|i: int| 0 <= i < lo ==> precedes(#[trigger] ks[i], key@),
            forall|i: int| hi <= i < ks.len() ==> precedes(key@, #[trigger] ks[i]),
        decreases hi - lo,
    {
        let mid: usize = lo + (hi - lo) / 2;
        assert(ks[mid as int] == keys@[mid as int]@);
        match compare_keys(keys[mid].as_slice(), key) {
            KeyOrder::Same => {
                return (true, mid);
            },
            KeyOrder::Before => {
                proof {
                    assert forall|i: int| 0 <= i < mid + 1 implies precedes(#[trigger] ks[i], key@) by {
                        if i < mid {
                            lemma_precedes_transitive(ks[i], ks[mid as int], key@);
                        }
                    }
                }
                lo = mid + 1;
            },
            KeyOrder::After => {
                proof {
                    assert forall|i: int| mid <= i < ks.len() implies precedes(key@, #[trigger] ks[i]) by {
                        if mid < i {
                            lemma_precedes_transitive(key@, ks[mid as int], ks[i]);
                        }
                    }
                }
                hi = mid;
            },
        }
    }
    (false, lo)
}

/// A key that is not among sorted keys may be put at its place, and the keys
/// stay sorted.
pub proof fn lemma_insert_keeps_increasing(keys: Seq<Seq<u8>>, key: Seq<u8>, pos: int)
    requires
        is_increasing(keys),
        is_place_of(keys, key, false, pos),
    ensures
        is_increasing(keys.insert(pos, key)),
{
    let after = keys.insert(pos, key);
    assert forall|i: int, j: int| 0 <= i < j < after.len() implies precedes(
        #[trigger] after[i],
        #[trigger] after[j],
    ) by {
        if i < pos && j > pos {
            assert(after[i] == keys[i]);
            assert(after[j] == keys[j - 1]);
        } else if i < pos && j < pos {
            assert(after[i] == keys[i]);
            assert(after[j] == keys[j]);
        } else if i > pos {
            assert(after[i] == keys[i - 1]);
            assert(after[j] == keys[j - 1]);
        } else if i == pos {
            assert(after[j] == keys[j - 1]);
        } else {
            assert(after[i] == keys[i]);
        }
    }
}

/// `s` lists exactly the keys of the set, in increasing order.
pub open spec fn lists(s: Seq<Seq<u8>>, keys: Set<Seq<u8>>) -> bool {
    &&& is_increasing(s)
    &&& forall|k: Seq<u8>| s.contains(k) <==> keys.contains(k)
}

/// The keys of a finite set in increasing order.
pub open spec fn sorted_keys(keys: Set<Seq<u8>>) -> Seq<Seq<u8>> {
    choose|s: Seq<Seq<u8>>| lists(s, keys)
}

/// A set of keys has one increasing order only.
pub proof fn lemma_lists_once(s: Seq<Seq<u8>>, t: Seq<Seq<u8>>, keys: Set<Seq<u8>>)
    requires
        lists(s, keys),
        lists(t, keys),
    ensures
        s == t,
    decreases s.len(),
{
    if s.len() == 0 {
        if t.len() > 0 {
            assert(t.contains(t[0]));
            assert(s.contains(t[0]));
        }
        assert(s =~= t);
    } else if t.len() == 0 {
        assert(s.contains(s[0]));
        assert(t.contains(s[0]));
    } else {
        let a = s.last();
        let b = t.last();
        assert(s.contains(a));
        assert(t.contains(b));
        assert(t.contains(a));
        assert(s.contains(b));
        let j = t.index_of(a);
        let i = s.index_of(b);
        if a != b {
            assert(precedes(t[j], b));
            assert(precedes(s[i], a));
            lemma_precedes_asymmetric(a, b);
        }
        let rest = keys.remove(a);
        lemma_drop_last_lists(s, keys);
        lemma_drop_last_lists(t, keys);
        lemma_lists_once(s.drop_last(), t.drop_last(), rest);
        assert(s =~= s.drop_last().push(a));
        assert(t =~= t.drop_last().push(b));
    }
}

/// Without its last key, an increasing list lists the set without that key.
pub proof fn lemma_drop_last_lists(s: Seq<Seq<u8>>, keys: Set<Seq<u8>>)
    requires
        lists(s, keys),
        s.len() > 0,
    ensures
        lists(s.drop_last(), keys.remove(s.last())),
{
    let head = s.drop_last();
    let last = s.len() - 1;
    assert forall|i: int, j: int| 0 <= i < j < head.len() implies precedes(
        #[trigger] head[i],
        #[trigger] head[j],
    ) by {
        assert(head[i] == s[i] && head[j] == s[j]);
    }
    assert forall|k: Seq<u8>| head.contains(k) <==> keys.remove(s.last()).contains(k) by {
        if head.contains(k) {
            let i = head.index_of(k);
            assert(s[i] == k);
            assert(s.contains(k));
            assert(precedes(s[i], s[last]));
            lemma_precedes_asymmetric(s[i], s[last]);
        }
        if keys.remove(s.last()).contains(k) {
            assert(s.contains(k));
            let i = s.index_of(k);
            assert(head[i] == k);
        }
    }
}

/// An increasing list of a set's keys is the sorted order of the set.
pub proof fn lemma_sorted_keys(s: Seq<Seq<u8>>, keys: Set<Seq<u8>>)
    requires
        lists(s, keys),
    ensures
        sorted_keys(keys) == s,
{
    lemma_lists_once(sorted_keys(keys), s, keys);
}

} // verus!
