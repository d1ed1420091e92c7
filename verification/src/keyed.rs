//! Association lists with unique keys: the shared spec machinery behind the
//! component, resource and value registries, which all hold their entries in
//! a vector of key/value pairs.

use vstd::prelude::*;

verus! {

/// The position of the first pair in `s` whose key is `t`, or -1.
pub open spec fn key_index<K, V>(s: Seq<(K, V)>, t: K) -> int
    decreases s.len(),
{
    if s.len() == 0 {
        -1
    } else if s[0].0 == t {
        0
    } else if key_index(s.drop_first(), t) < 0 {
        -1
    } else {
        key_index(s.drop_first(), t) + 1
    }
}

/// `key_index` finds the first occurrence of a key, and -1 means absence.
pub proof fn lemma_key_index<K, V>(s: Seq<(K, V)>, t: K)
    ensures
        key_index(s, t) >= 0 ==> 0 <= key_index(s, t) < s.len() && s[key_index(s, t)].0 == t,
        key_index(s, t) < 0 ==> forall|k: int| 0 <= k < s.len() ==> (#[trigger] s[k]).0 != t,
        forall|k: int| 0 <= k < key_index(s, t) ==> (#[trigger] s[k]).0 != t,
    decreases s.len(),
{
    if s.len() != 0 && s[0].0 != t {
        lemma_key_index(s.drop_first(), t);
        assert forall|k: int| 0 <= k < s.len() && key_index(s, t) < 0 implies (
        #[trigger] s[k]).0 != t by {
            if k > 0 {
                assert(s.drop_first()[k - 1] == s[k]);
            }
        }
        assert forall|k: int| 0 <= k < key_index(s, t) implies (#[trigger] s[k]).0 != t by {
            if k > 0 {
                assert(s.drop_first()[k - 1] == s[k]);
            }
        }
    }
}

/// Two sequences with the same keys position every key identically.
pub proof fn lemma_key_index_same_keys<K, V>(s1: Seq<(K, V)>, s2: Seq<(K, V)>, t: K)
    requires
        s1.len() == s2.len(),
        forall|k: int| 0 <= k < s1.len() ==> (#[trigger] s1[k]).0 == (#[trigger] s2[k]).0,
    ensures
        key_index(s1, t) == key_index(s2, t),
    decreases s1.len(),
{
    if s1.len() != 0 {
        assert forall|k: int|
            0 <= k < s1.drop_first().len() implies (#[trigger] s1.drop_first()[k]).0 == (
        #[trigger] s2.drop_first()[k]).0 by {
            assert(s1.drop_first()[k] == s1[k + 1]);
            assert(s2.drop_first()[k] == s2[k + 1]);
        }
        lemma_key_index_same_keys(s1.drop_first(), s2.drop_first(), t);
    }
}

/// Appending a pair leaves every present key in place and positions a fresh
/// key at the end.
pub proof fn lemma_key_index_push<K, V>(s: Seq<(K, V)>, p: (K, V), t: K)
    ensures
        key_index(s, t) >= 0 ==> key_index(s.push(p), t) == key_index(s, t),
        key_index(s, t) < 0 && p.0 == t ==> key_index(s.push(p), t) == s.len(),
        key_index(s, t) < 0 && p.0 != t ==> key_index(s.push(p), t) < 0,
    decreases s.len(),
{
    reveal_with_fuel(key_index, 3);
    if s.len() == 0 {
        assert(s.push(p)[0] == p);
        assert(s.push(p).len() == 1);
        if p.0 != t {
            assert(s.push(p).drop_first() =~= Seq::<(K, V)>::empty());
            assert(key_index(s.push(p).drop_first(), t) == -1);
        }
    } else {
        assert(s.push(p)[0] == s[0]);
        assert(s.push(p).drop_first() =~= s.drop_first().push(p));
        lemma_key_index_push(s.drop_first(), p, t);
        if key_index(s, t) < 0 && p.0 != t {
            assert(s[0].0 != t);
            assert(key_index(s.drop_first(), t) < 0);
            assert(key_index(s.push(p).drop_first(), t) < 0);
            assert(key_index(s.push(p), t) < 0);
        }
    }
}

/// Swap-removing the position of key `t` from a unique-key sequence removes
/// exactly that key: afterwards no pair carries it, every other key keeps
/// its value.
pub proof fn lemma_key_index_swap_remove<K, V>(s: Seq<(K, V)>, j: int, t: K)
    requires
        0 <= j < s.len(),
        s[j].0 == t,
        forall|a: int, b: int| 0 <= a < b < s.len() ==> (#[trigger] s[a]).0 != (#[trigger] s[b]).0,
    ensures
        forall|k: int|
            0 <= k < s.update(j, s[s.len() - 1]).drop_last().len() ==> (#[trigger] s.update(
                j,
                s[s.len() - 1],
            ).drop_last()[k]).0 != t,
        forall|a: int, b: int|
            0 <= a < b < s.update(j, s[s.len() - 1]).drop_last().len() ==> (#[trigger] s.update(
                j,
                s[s.len() - 1],
            ).drop_last()[a]).0 != (#[trigger] s.update(j, s[s.len() - 1]).drop_last()[b]).0,
{
    let u = s.update(j, s[s.len() - 1]).drop_last();
    assert forall|k: int| 0 <= k < u.len() implies (#[trigger] u[k]).0 != t by {
        if k == j {
            assert(u[k] == s[s.len() - 1]);
            if s.len() - 1 != j {
                assert(s[s.len() - 1].0 != s[j].0);
            }
        } else {
            assert(u[k] == s[k]);
            assert(s[k].0 != s[j].0);
        }
    }
    assert forall|a: int, b: int| 0 <= a < b < u.len() implies (#[trigger] u[a]).0 != (
    #[trigger] u[b]).0 by {
        if a == j {
            assert(u[a] == s[s.len() - 1]);
            assert(u[b] == s[b]);
            assert(b != s.len() - 1);
        } else if b == j {
            assert(u[b] == s[s.len() - 1]);
            assert(u[a] == s[a]);
            assert(a != s.len() - 1);
        } else {
            assert(u[a] == s[a] && u[b] == s[b]);
        }
    }
}

/// The entries of a unique-key association list, as a map.
pub open spec fn assoc_view<K, V>(s: Seq<(K, V)>) -> Map<K, V> {
    Map::new(|t: K| key_index(s, t) >= 0, |t: K| s[key_index(s, t)].1)
}

/// Replacing the value at key `p.0`'s position updates the map at that key.
pub proof fn lemma_assoc_view_update<K, V>(s: Seq<(K, V)>, j: int, p: (K, V))
    requires
        0 <= j < s.len(),
        s[j].0 == p.0,
        forall|a: int, b: int| 0 <= a < b < s.len() ==> (#[trigger] s[a]).0 != (#[trigger] s[b]).0,
    ensures
        assoc_view(s.update(j, p)) == assoc_view(s).insert(p.0, p.1),
{
    let u = s.update(j, p);
    assert forall|x: K| #![trigger key_index(u, x)] key_index(u, x) == key_index(s, x) by {
        lemma_key_index_same_keys(s, u, x);
    }
    lemma_key_index(s, p.0);
    assert(key_index(s, p.0) == j) by {
        if key_index(s, p.0) < 0 {
            assert(s[j].0 != p.0);
        } else if key_index(s, p.0) < j {
            assert(s[key_index(s, p.0)].0 != s[j].0);
        } else if key_index(s, p.0) > j {
            assert(s[j].0 != p.0);
        }
    }
    assert forall|x: K| x != p.0 && key_index(s, x) >= 0 implies u[key_index(s, x)].1
        == s[key_index(s, x)].1 by {
        lemma_key_index(s, x);
        assert(key_index(s, x) != j);
    }
    assert(assoc_view(u) =~= assoc_view(s).insert(p.0, p.1));
}

/// Appending a pair with a fresh key inserts it into the map.
pub proof fn lemma_assoc_view_push<K, V>(s: Seq<(K, V)>, p: (K, V))
    requires
        key_index(s, p.0) < 0,
    ensures
        assoc_view(s.push(p)) == assoc_view(s).insert(p.0, p.1),
{
    let u = s.push(p);
    lemma_key_index_push(s, p, p.0);
    assert(u[key_index(u, p.0)].1 == p.1);
    assert forall|x: K| #![trigger key_index(u, x)] x != p.0 implies key_index(u, x) == key_index(
        s,
        x,
    ) && (key_index(s, x) >= 0 ==> u[key_index(s, x)].1 == s[key_index(s, x)].1) by {
        lemma_key_index_push(s, p, x);
        lemma_key_index(s, x);
    }
    assert(assoc_view(u) =~= assoc_view(s).insert(p.0, p.1));
}

/// Swap-removing the position of a key removes exactly that key from the
/// map.
pub proof fn lemma_assoc_view_swap_remove<K, V>(s: Seq<(K, V)>, j: int)
    requires
        0 <= j < s.len(),
        forall|a: int, b: int| 0 <= a < b < s.len() ==> (#[trigger] s[a]).0 != (#[trigger] s[b]).0,
    ensures
        assoc_view(s.update(j, s[s.len() - 1]).drop_last()) == assoc_view(s).remove(s[j].0),
{
    let t = s[j].0;
    let u = s.update(j, s[s.len() - 1]).drop_last();
    lemma_key_index_swap_remove(s, j, t);
    lemma_key_index(u, t);
    assert(key_index(u, t) < 0) by {
        if key_index(u, t) >= 0 {
            assert(u[key_index(u, t)].0 != t);
        }
    }
    assert forall|x: K|
        #![trigger key_index(u, x)]
        x != t implies ((key_index(u, x) >= 0) == (key_index(s, x) >= 0)) && (key_index(s, x) >= 0
        ==> u[key_index(u, x)].1 == s[key_index(s, x)].1) by {
        lemma_key_index(u, x);
        lemma_key_index(s, x);
        if key_index(s, x) >= 0 {
            let ks = key_index(s, x);
            assert(ks != j);
            if ks < s.len() - 1 {
                assert(u[ks].0 == x);
            } else {
                assert(u[j] == s[s.len() - 1]);
                assert(u[j].0 == x);
            }
            assert(key_index(u, x) >= 0) by {
                if key_index(u, x) < 0 {
                    if ks < s.len() - 1 {
                        assert(u[ks].0 != x);
                    } else {
                        assert(u[j].0 != x);
                    }
                }
            }
            let ku = key_index(u, x);
            assert(u[ku].0 == x);
            if ku == j {
                assert(u[ku] == s[s.len() - 1]);
                assert(s[s.len() - 1].0 == x);
                assert(s.len() - 1 == ks) by {
                    if ks < s.len() - 1 {
                        assert(s[ks].0 != s[s.len() - 1].0);
                    }
                }
            } else {
                assert(u[ku] == s[ku]);
                assert(ku == ks) by {
                    if ku < ks {
                        assert(s[ku].0 != s[ks].0);
                    }
                    if ks < ku {
                        assert(s[ks].0 != s[ku].0);
                    }
                }
            }
        } else {
            assert(key_index(u, x) < 0) by {
                if key_index(u, x) >= 0 {
                    let ku = key_index(u, x);
                    assert(u[ku].0 == x);
                    if ku == j {
                        assert(s[s.len() - 1].0 == x);
                    } else {
                        assert(s[ku].0 == x);
                    }
                }
            }
        }
    }
    assert(assoc_view(u) =~= assoc_view(s).remove(t));
}

/// The key map of an association list is finite.
pub proof fn lemma_assoc_view_dom_finite<K, V>(s: Seq<(K, V)>)
    ensures
        assoc_view(s).dom().finite(),
{
    broadcast use vstd::seq_lib::seq_to_set_is_finite;

    let keys = Seq::new(s.len(), |i: int| s[i].0);
    assert(assoc_view(s).dom() =~= keys.to_set()) by {
        assert forall|t: K| assoc_view(s).dom().contains(t) implies keys.to_set().contains(t) by {
            lemma_key_index(s, t);
            assert(keys[key_index(s, t)] == t);
        }
        assert forall|t: K| keys.to_set().contains(t) implies assoc_view(s).dom().contains(t) by {
            if key_index(s, t) < 0 {
                lemma_key_index(s, t);
                assert forall|i: int| 0 <= i < keys.len() implies keys[i] != t by {
                    assert(s[i].0 != t);
                }
                assert(!keys.contains(t));
            }
        }
    }
}

} // verus!
