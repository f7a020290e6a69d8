//! Dense ids in order of first appearance.

use std::collections::HashMap;
use vstd::prelude::*;

verus! {

broadcast use vstd::std_specs::hash::group_hash_axioms;

/// The positions at which a key appears for the first time, in order.
pub open spec fn first_positions<K>(keys: Seq<K>) -> Seq<int>
    decreases keys.len(),
{
    if keys.len() == 0 {
        Seq::empty()
    } else {
        let before = first_positions(keys.drop_last());
        if appears(keys, before, keys.last()) {
            before
        } else {
            before.push(keys.len() - 1)
        }
    }
}

/// `key` stands at one of the given positions.
pub open spec fn appears<K>(keys: Seq<K>, positions: Seq<int>, key: K) -> bool {
    exists|k: int| 0 <= k < positions.len() && keys[#[trigger] positions[k]] == key
}

/// The key at position `i` stands at one of the given positions, at `i` or
/// before.
pub open spec fn listed_by<K>(keys: Seq<K>, positions: Seq<int>, i: int) -> bool {
    exists|k: int| 0 <= k < positions.len() && #[trigger] positions[k] <= i && keys[positions[k]] == keys[i]
}

/// The id of a key: which of the distinct keys it is, by first appearance.
pub open spec fn id_of<K>(keys: Seq<K>, key: K) -> int {
    choose|k: int| 0 <= k < first_positions(keys).len() && keys[#[trigger] first_positions(keys)[k]] == key
}

/// First positions are increasing, hold distinct keys, and hold every key at
/// or before each of its occurrences.
pub proof fn lemma_first_positions<K>(keys: Seq<K>)
    ensures
        ({
            let f = first_positions(keys);
            &&& f.len() <= keys.len()
            &&& forall|k: int| 0 <= k < f.len() ==> 0 <= (#[trigger] f[k]) < keys.len()
            &&& forall|k: int, l: int| 0 <= k < l < f.len() ==> #[trigger] f[k] < #[trigger] f[l]
            &&& forall|k: int, l: int|
                0 <= k < f.len() && 0 <= l < f.len() && keys[#[trigger] f[k]] == keys[#[trigger] f[l]]
                    ==> k == l
            &&& forall|i: int| 0 <= i < keys.len() ==> #[trigger] listed_by(keys, f, i)
        }),
    decreases keys.len(),
{
    if keys.len() > 0 {
        let rest = keys.drop_last();
        lemma_first_positions(rest);
        let f0 = first_positions(rest);
        let f = first_positions(keys);
        assert forall|k: int| 0 <= k < f0.len() implies rest[#[trigger] f0[k]] == keys[f0[k]] by {}
        assert forall|k: int, l: int| 0 <= k < f.len() && 0 <= l < f.len() && keys[#[trigger] f[k]]
            == keys[#[trigger] f[l]] implies k == l by {
            if k < f0.len() && l < f0.len() {
                assert(f[k] == f0[k] && f[l] == f0[l]);
                assert(rest[f0[k]] == rest[f0[l]]);
            } else if k < f0.len() {
                assert(keys[f0[k]] == keys.last());
            } else if l < f0.len() {
                assert(keys[f0[l]] == keys.last());
            }
        }
        assert forall|k: int, l: int| 0 <= k < l < f.len() implies #[trigger] f[k] < #[trigger] f[l] by {
            assert(f[k] == f0[k]);
            if l < f0.len() {
                assert(f[l] == f0[l]);
            }
        }
        assert forall|i: int| 0 <= i < keys.len() implies #[trigger] listed_by(keys, f, i) by {
            if i < rest.len() {
                assert(rest[i] == keys[i]);
                assert(listed_by(rest, f0, i));
                let k = choose|k: int| 0 <= k < f0.len() && #[trigger] f0[k] <= i && rest[f0[k]] == rest[i];
                assert(f[k] == f0[k]);
            } else if appears(keys, f0, keys.last()) {
                let k = choose|k: int| 0 <= k < f0.len() && keys[#[trigger] f0[k]] == keys.last();
                assert(f[k] <= i);
            } else {
                assert(f[f0.len() as int] == i);
            }
        }
    }
}

/// What [`id_of`] gives for the keys of the list.
pub proof fn lemma_id_of<K>(keys: Seq<K>, i: int)
    requires
        0 <= i < keys.len(),
    ensures
        0 <= id_of(keys, keys[i]) < first_positions(keys).len(),
        keys[first_positions(keys)[id_of(keys, keys[i])]] == keys[i],
        first_positions(keys)[id_of(keys, keys[i])] <= i,
{
    lemma_first_positions(keys);
    let f = first_positions(keys);
    assert(listed_by(keys, f, i));
    let k = choose|k: int| 0 <= k < f.len() && #[trigger] f[k] <= i && keys[f[k]] == keys[i];
    assert(keys[f[k]] == keys[i]);
    let m = id_of(keys, keys[i]);
    assert(keys[f[m]] == keys[f[k]]);
}

/// The id of a key is the only place among the first positions that holds
/// it.
pub proof fn lemma_id_unique<K>(keys: Seq<K>, k: int)
    requires
        0 <= k < first_positions(keys).len(),
    ensures
        id_of(keys, keys[first_positions(keys)[k]]) == k,
{
    lemma_first_positions(keys);
    let f = first_positions(keys);
    let m = id_of(keys, keys[f[k]]);
    assert(keys[f[m]] == keys[f[k]]);
}

/// Two positions have one id exactly where their keys are equal.
pub proof fn law_ids_tell_keys_apart<K>(keys: Seq<K>, i: int, j: int)
    requires
        0 <= i < keys.len(),
        0 <= j < keys.len(),
    ensures
        id_of(keys, keys[i]) == id_of(keys, keys[j]) <==> keys[i] == keys[j],
{
    lemma_id_of(keys, i);
    lemma_id_of(keys, j);
}

/// Ids are handed out in order: before a position with id `m`, every smaller
/// id has occurred.
pub proof fn law_ids_appear_in_order<K>(keys: Seq<K>, i: int, k: int)
    requires
        0 <= i < keys.len(),
        0 <= k < id_of(keys, keys[i]),
    ensures
        exists|j: int| 0 <= j < i && id_of(keys, #[trigger] keys[j]) == k,
{
    lemma_first_positions(keys);
    lemma_id_of(keys, i);
    let f = first_positions(keys);
    let m = id_of(keys, keys[i]);
    assert(f[k] < f[m]);
    lemma_id_unique(keys, k);
    let j = f[k];
    assert(id_of(keys, keys[j]) == k);
}

/// Keys that are equal at the same places have the same first positions and
/// the same ids.
pub proof fn lemma_same_pattern<K, L>(a: Seq<K>, b: Seq<L>)
    requires
        a.len() == b.len(),
        forall|i: int, j: int|
            0 <= i < a.len() && 0 <= j < a.len() ==> (#[trigger] a[i] == #[trigger] a[j] <==> b[i] == b[j]),
    ensures
        first_positions(a) == first_positions(b),
        forall|i: int| 0 <= i < a.len() ==> id_of(a, #[trigger] a[i]) == id_of(b, b[i]),
{
    lemma_same_first_positions(a, b);
    let f = first_positions(a);
    assert forall|i: int| 0 <= i < a.len() implies id_of(a, #[trigger] a[i]) == id_of(b, b[i]) by {
        lemma_id_of(a, i);
        lemma_first_positions(a);
        let k = id_of(a, a[i]);
        assert(a[f[k]] == a[i]);
        assert(b[f[k]] == b[i]);
        lemma_id_unique(b, k);
    }
}

proof fn lemma_same_first_positions<K, L>(a: Seq<K>, b: Seq<L>)
    requires
        a.len() == b.len(),
        forall|i: int, j: int|
            0 <= i < a.len() && 0 <= j < a.len() ==> (#[trigger] a[i] == #[trigger] a[j] <==> b[i] == b[j]),
    ensures
        first_positions(a) == first_positions(b),
    decreases a.len(),
{
    if a.len() > 0 {
        let (a0, b0) = (a.drop_last(), b.drop_last());
        assert forall|i: int, j: int| 0 <= i < a0.len() && 0 <= j < a0.len() implies (#[trigger] a0[i]
            == #[trigger] a0[j] <==> b0[i] == b0[j]) by {
            assert(a0[i] == a[i] && a0[j] == a[j]);
        }
        lemma_same_first_positions(a0, b0);
        lemma_first_positions(a0);
        let f = first_positions(a0);
        let n = a.len() - 1;
        assert(appears(a, f, a.last()) <==> appears(b, f, b.last())) by {
            if appears(a, f, a.last()) {
                let k = choose|k: int| 0 <= k < f.len() && a[#[trigger] f[k]] == a.last();
                assert(a[f[k]] == a[n]);
                assert(b[f[k]] == b.last());
            }
            if appears(b, f, b.last()) {
                let k = choose|k: int| 0 <= k < f.len() && b[#[trigger] f[k]] == b.last();
                assert(b[f[k]] == b[n]);
                assert(a[f[k]] == a[n]);
                assert(a[f[k]] == a.last());
            }
        }
    }
}

/// Ids of a list of keys, and the position at which each id appears first.
pub struct Numbering {
    pub ids: Vec<usize>,
    pub firsts: Vec<usize>,
}

impl Numbering {
    pub open spec fn numbers<K>(self, keys: Seq<K>) -> bool {
        &&& self.ids@.len() == keys.len()
        &&& self.firsts@.len() == first_positions(keys).len()
        &&& forall|k: int| 0 <= k < self.firsts@.len() ==> #[trigger] self.firsts@[k] == first_positions(keys)[k]
        &&& forall|i: int| 0 <= i < keys.len() ==> #[trigger] self.ids@[i] == id_of(keys, keys[i])
    }
}

/// Numbers the keys: equal keys get one id, ids are `0, 1, ..` by first
/// appearance.
pub fn number(keys: &Vec<u128>) -> (res: Numbering)
    ensures
        res.numbers(keys@),
{
    let mut map: HashMap<u128, usize> = HashMap::new();
    let mut ids: Vec<usize> = Vec::new();
    let mut firsts: Vec<usize> = Vec::new();
    let mut i: usize = 0;
    proof {
        assert(keys@.subrange(0, 0) =~= Seq::empty());
    }
    while i < keys.len()
        invariant
            i <= keys@.len(),
            ids@.len() == i,
            firsts@.len() == first_positions(keys@.subrange(0, i as int)).len(),
            firsts@.len() <= i,
            forall|k: int|
                0 <= k < firsts@.len() ==> #[trigger] firsts@[k] == first_positions(keys@.subrange(0, i as int))[k],
            forall|k: int| 0 <= k < firsts@.len() ==> (#[trigger] firsts@[k]) < i,
            forall|x: u128| #[trigger]
                map@.contains_key(x) ==> map@[x] < firsts@.len() && keys@[firsts@[map@[x] as int] as int] == x,
            forall|k: int|
                0 <= k < firsts@.len() ==> map@.contains_key(keys@[#[trigger] firsts@[k] as int]),
            forall|j: int|
                0 <= j < i ==> (#[trigger] ids@[j]) < firsts@.len() && keys@[firsts@[ids@[j] as int] as int] == keys@[j],
        decreases keys@.len() - i,
    {
        let key: u128 = keys[i];
        let ghost prefix = keys@.subrange(0, i as int);
        let ghost longer = keys@.subrange(0, i + 1);
        let ghost f0 = first_positions(prefix);
        proof {
            assert(longer.drop_last() =~= prefix);
            assert(longer.last() == key);
            lemma_first_positions(prefix);
        }
        let known: Option<usize> = match map.get(&key) {
            Some(id) => Some(*id),
            None => None,
        };
        match known {
            Some(id) => {
                proof {
                    assert(map@.contains_key(key));
                    assert(longer[f0[id as int]] == longer.last());
                    assert(appears(longer, f0, longer.last()));
                }
                ids.push(id);
            },
            None => {
                proof {
                    assert(!map@.contains_key(key));
                    if appears(longer, f0, longer.last()) {
                        let k = choose|k: int| 0 <= k < f0.len() && longer[#[trigger] f0[k]] == longer.last();
                        assert(map@.contains_key(keys@[firsts@[k] as int]));
                    }
                }
                let id: usize = firsts.len();
                let ghost map0 = map@;
                let ghost firsts0 = firsts@;
                map.insert(key, id);
                firsts.push(i);
                ids.push(id);
                proof {
                    assert forall|x: u128| #[trigger] map@.contains_key(x) implies map@[x] < firsts@.len()
                        && keys@[firsts@[map@[x] as int] as int] == x by {
                        if x != key {
                            assert(map0.contains_key(x));
                            assert(firsts@[map0[x] as int] == firsts0[map0[x] as int]);
                        }
                    }
                }
            },
        }
        i += 1;
    }
    proof {
        assert(keys@.subrange(0, i as int) =~= keys@);
        let f = first_positions(keys@);
        assert forall|j: int| 0 <= j < keys@.len() implies #[trigger] ids@[j] == id_of(keys@, keys@[j]) by {
            let k = ids@[j] as int;
            assert(firsts@[k] == f[k]);
            lemma_id_unique(keys@, k);
        }
    }
    Numbering { ids, firsts }
}

/// A numbering gives equal keys equal numbers and no others, and knows of each
/// number where it came first.
pub proof fn law_numbering_tells_keys_apart<K>(n: Numbering, keys: Seq<K>, i: int, j: int)
    requires
        n.numbers(keys),
        0 <= i < keys.len(),
        0 <= j < keys.len(),
    ensures
        n.ids@.len() == keys.len(),
        n.ids@[i] == n.ids@[j] <==> keys[i] == keys[j],
        n.ids@[i] < n.firsts@.len(),
        n.firsts@[n.ids@[i] as int] <= i,
        keys[n.firsts@[n.ids@[i] as int] as int] == keys[i],
        j < n.firsts@[n.ids@[i] as int] ==> keys[j] != keys[i],
{
    law_ids_tell_keys_apart(keys, i, j);
    lemma_id_of(keys, i);
    lemma_id_of(keys, j);
    assert(n.ids@[i] == id_of(keys, keys[i]) && n.ids@[j] == id_of(keys, keys[j]));
}

} // verus!
