//! Where tracks meet: points of different tracks that snap to the same grid
//! cell. The caller hands in one cell key per point (track by track); this
//! module groups the tracks by key.
use vstd::prelude::*;
use std::collections::HashMap;

verus! {

broadcast use vstd::std_specs::hash::group_hash_axioms;

/// The indices, in increasing order, of the tracks before track `t` that
/// have a point with key `k`.
pub open spec fn tracks_containing(keys: Seq<Seq<u64>>, t: int, k: u64) -> Seq<u32>
    decreases t,
{
    if t <= 0 {
        Seq::empty()
    } else {
        let prev = tracks_containing(keys, t - 1, k);
        if keys[t - 1].contains(k) {
            prev.push((t - 1) as u32)
        } else {
            prev
        }
    }
}

/// The indices, in increasing order, of all tracks that have a point with key `k`.
pub open spec fn intersection_tracks(keys: Seq<Seq<u64>>, k: u64) -> Seq<u32> {
    tracks_containing(keys, keys.len() as int, k)
}

/// Point keys as sequences.
pub open spec fn point_keys_view(keys: Seq<Vec<u64>>) -> Seq<Seq<u64>> {
    keys.map_values(|v: Vec<u64>| v@)
}

/// Whether `s` is strictly increasing.
pub open spec fn increasing_u32(s: Seq<u32>) -> bool {
    forall|a: int, b: int| 0 <= a < b < s.len() ==> s[a] < s[b]
}

proof fn lemma_tracks_containing(keys: Seq<Seq<u64>>, t: int, k: u64)
    requires
        0 <= t <= keys.len(),
        keys.len() <= 0x1_0000_0000,
    ensures
        increasing_u32(tracks_containing(keys, t, k)),
        forall|x: u32|
            #![trigger tracks_containing(keys, t, k).contains(x)]
            tracks_containing(keys, t, k).contains(x) <==> (x < t && keys[x as int].contains(k)),
    decreases t,
{
    if t > 0 {
        lemma_tracks_containing(keys, t - 1, k);
        let prev = tracks_containing(keys, t - 1, k);
        let cur = tracks_containing(keys, t, k);
        if keys[t - 1].contains(k) {
            let y = (t - 1) as u32;
            assert(y as int == t - 1);
            assert forall|a: int, b: int| 0 <= a < b < cur.len() implies cur[a] < cur[b] by {
                if b < prev.len() {
                    assert(cur[a] == prev[a] && cur[b] == prev[b]);
                } else {
                    assert(cur[a] == prev[a]);
                    assert(prev.contains(prev[a]));
                }
            }
            assert forall|x: u32| #[trigger] cur.contains(x) <==> (x < t && keys[x as int].contains(k)) by {
                if cur.contains(x) {
                    let j = choose|j: int| 0 <= j < cur.len() && cur[j] == x;
                    if j < prev.len() {
                        assert(prev[j] == x);
                        assert(prev.contains(x));
                    }
                }
                if x < t && keys[x as int].contains(k) {
                    if x == y {
                        assert(cur[prev.len() as int] == y);
                    } else {
                        assert(prev.contains(x));
                        let j = choose|j: int| 0 <= j < prev.len() && prev[j] == x;
                        assert(cur[j] == x);
                    }
                }
            }
        } else {
            assert forall|x: u32| #[trigger] cur.contains(x) <==> (x < t && keys[x as int].contains(k)) by {
                if x < t && keys[x as int].contains(k) {
                    assert(x != t - 1);
                }
            }
        }
    }
}

/// The tracks through a key are the tracks that have a point with that key,
/// each once, in increasing order; so a key lists two tracks or more exactly
/// when two different tracks have a point with it.
pub proof fn lemma_intersection_tracks(keys: Seq<Seq<u64>>, k: u64)
    requires
        keys.len() <= 0x1_0000_0000,
    ensures
        increasing_u32(intersection_tracks(keys, k)),
        forall|x: u32|
            #![trigger intersection_tracks(keys, k).contains(x)]
            intersection_tracks(keys, k).contains(x) <==> (x < keys.len() && keys[x as int].contains(
                k,
            )),
        intersection_tracks(keys, k).len() >= 2 <==> exists|a: u32, b: u32|
            a < b < keys.len() && #[trigger] keys[a as int].contains(k) && #[trigger] keys[b as int].contains(
                k,
            ),
{
    let s = intersection_tracks(keys, k);
    lemma_tracks_containing(keys, keys.len() as int, k);
    if s.len() >= 2 {
        assert(s.contains(s[0]) && s.contains(s[1]));
        assert(s[0] < s[1]);
        assert(keys[s[0] as int].contains(k) && keys[s[1] as int].contains(k));
    }
    if exists|a: u32, b: u32|
        a < b < keys.len() && #[trigger] keys[a as int].contains(k) && #[trigger] keys[b as int].contains(
            k,
        ) {
        let (a, b) = choose|a: u32, b: u32|
            a < b < keys.len() && #[trigger] keys[a as int].contains(k) && #[trigger] keys[b as int].contains(
                k,
            );
        assert(s.contains(a) && s.contains(b));
        if s.len() < 2 {
            let ja = choose|j: int| 0 <= j < s.len() && s[j] == a;
            let jb = choose|j: int| 0 <= j < s.len() && s[j] == b;
            assert(ja == jb);
        }
    }
}

/// The tracks through `k` while point `p` of track `i` is next.
spec fn tracks_so_far(keys: Seq<Seq<u64>>, i: int, p: int, k: u64) -> Seq<u32> {
    tracks_containing(keys, i, k) + if keys[i].take(p).contains(k) {
        seq![i as u32]
    } else {
        Seq::empty()
    }
}

/// The cell keys shared by at least two tracks, each with the indices of the
/// tracks that pass through it, in increasing order. `point_keys[i]` holds
/// the key of every point of track `i`; the order of the result is not
/// specified.
pub fn find_track_intersections(point_keys: &Vec<Vec<u64>>) -> (r: Vec<(u64, Vec<u32>)>)
    requires
        point_keys@.len() <= 0x1_0000_0000,
    ensures
        forall|e: int|
            #![trigger r@[e]]
            0 <= e < r@.len() ==> {
                &&& r@[e].1@ == intersection_tracks(point_keys_view(point_keys@), r@[e].0)
                &&& r@[e].1@.len() >= 2
                &&& increasing_u32(r@[e].1@)
                &&& forall|x: u32|
                    #![trigger r@[e].1@.contains(x)]
                    r@[e].1@.contains(x) <==> (x < point_keys@.len() && point_keys@[x as int]@.contains(
                        r@[e].0,
                    ))
            },
        forall|a: int, b: int| 0 <= a < b < r@.len() ==> r@[a].0 != r@[b].0,
        forall|k: u64|
            (exists|e: int| 0 <= e < r@.len() && #[trigger] r@[e].0 == k) <==> intersection_tracks(
                point_keys_view(point_keys@),
                k,
            ).len() >= 2,
{
    let ghost keys = point_keys_view(point_keys@);
    let n = point_keys.len();
    let mut members: HashMap<u64, Vec<u32>> = HashMap::new();
    let mut order: Vec<u64> = Vec::new();
    let mut i: usize = 0;
    while i < n
        invariant
            keys == point_keys_view(point_keys@),
            n == keys.len(),
            n <= 0x1_0000_0000,
            i <= n,
            forall|k: u64|
                #![trigger members@.contains_key(k)]
                {
                    &&& members@.contains_key(k) <==> tracks_containing(keys, i as int, k).len() > 0
                    &&& members@.contains_key(k) ==> members@[k]@ == tracks_containing(keys, i as int, k)
                },
            forall|a: int, b: int| 0 <= a < b < order@.len() ==> order@[a] != order@[b],
            forall|k: u64| #[trigger] order@.contains(k) <==> members@.contains_key(k),
        decreases n - i,
    {
        let track = &point_keys[i];
        assert(track@ == keys[i as int]);
        let mut p: usize = 0;
        assert(keys[i as int].take(0) =~= Seq::<u64>::empty());
        proof {
            assert forall|k: u64| #![trigger members@.contains_key(k)] true implies tracks_so_far(
                keys,
                i as int,
                0,
                k,
            ) == tracks_containing(keys, i as int, k) by {
                assert(tracks_so_far(keys, i as int, 0, k) =~= tracks_containing(keys, i as int, k));
            }
        }
        while p < track.len()
            invariant
                keys == point_keys_view(point_keys@),
                n == keys.len(),
                n <= 0x1_0000_0000,
                i < n,
                track@ == keys[i as int],
                p <= track@.len(),
                forall|k: u64|
                    #![trigger members@.contains_key(k)]
                    {
                        &&& members@.contains_key(k) <==> tracks_so_far(keys, i as int, p as int, k).len()
                            > 0
                        &&& members@.contains_key(k) ==> members@[k]@ == tracks_so_far(
                            keys,
                            i as int,
                            p as int,
                            k,
                        )
                    },
                forall|a: int, b: int| 0 <= a < b < order@.len() ==> order@[a] != order@[b],
                forall|k: u64| #[trigger] order@.contains(k) <==> members@.contains_key(k),
            decreases track@.len() - p,
        {
            let key = track[p];
            let ghost t = keys[i as int];
            proof {
                lemma_tracks_containing(keys, i as int, key);
                assert(t.take(p + 1) =~= t.take(p as int).push(key));
                assert forall|k: u64| #![trigger members@.contains_key(k)] k != key implies tracks_so_far(
                    keys,
                    i as int,
                    p + 1,
                    k,
                ) == tracks_so_far(keys, i as int, p as int, k) by {
                    if t.take(p + 1).contains(k) {
                        let j = choose|j: int| 0 <= j < p + 1 && #[trigger] t.take(p + 1)[j] == k;
                        assert(t.take(p as int)[j] == k);
                    }
                    if t.take(p as int).contains(k) {
                        let j = choose|j: int| 0 <= j < p && #[trigger] t.take(p as int)[j] == k;
                        assert(t.take(p + 1)[j] == k);
                    }
                }
                assert(t.take(p + 1)[p as int] == key);
                assert(t.take(p + 1).contains(key));
            }
            let ghost prefix = tracks_containing(keys, i as int, key);
            let ghost expected = prefix.push(i as u32);
            assert(tracks_so_far(keys, i as int, p + 1, key) =~= expected);
            let ghost members0 = members@;
            let ghost order0 = order@;
            match members.remove(&key) {
                Some(list) => {
                    let mut list = list;
                    let len = list.len();
                    if list[len - 1] != i as u32 {
                        proof {
                            if t.take(p as int).contains(key) {
                                assert(list@ =~= expected);
                            }
                            assert(list@ =~= prefix);
                        }
                        list.push(i as u32);
                    } else {
                        proof {
                            if !t.take(p as int).contains(key) {
                                assert(list@ =~= prefix);
                                assert(prefix.contains(list@[len - 1]));
                            }
                            assert(list@ =~= expected);
                        }
                    }
                    members.insert(key, list);
                },
                None => {
                    proof {
                        assert(!members0.contains_key(key));
                        assert(!order0.contains(key));
                        assert(tracks_so_far(keys, i as int, p as int, key).len() == 0);
                        assert(prefix.len() == 0);
                    }
                    let mut list: Vec<u32> = Vec::new();
                    list.push(i as u32);
                    assert(list@ =~= expected);
                    members.insert(key, list);
                    order.push(key);
                    proof {
                        assert(order@ == order0.push(key));
                        assert forall|a: int, b: int| 0 <= a < b < order@.len() implies order@[a]
                            != order@[b] by {
                            if b == order@.len() - 1 {
                                assert(order@[a] == order0[a]);
                                assert(order0.contains(order0[a]));
                            } else {
                                assert(order@[a] == order0[a] && order@[b] == order0[b]);
                            }
                        }
                        assert forall|k: u64| #[trigger] order@.contains(k) <==> members@.contains_key(
                            k,
                        ) by {
                            if order@.contains(k) && k != key {
                                let j = choose|j: int| 0 <= j < order@.len() && #[trigger] order@[j] == k;
                                assert(order0[j] == k);
                                assert(order0.contains(k));
                                assert(members0.contains_key(k));
                            }
                            if members@.contains_key(k) && k != key {
                                assert(members0.contains_key(k));
                                assert(order0.contains(k));
                                let j = choose|j: int| 0 <= j < order0.len() && #[trigger] order0[j] == k;
                                assert(order@[j] == k);
                            }
                            if k == key {
                                assert(order@[order@.len() - 1] == key);
                            }
                        }
                    }
                },
            }
            p = p + 1;
        }
        proof {
            assert(keys[i as int].take(p as int) =~= keys[i as int]);
            assert forall|k: u64| #![trigger members@.contains_key(k)] true implies tracks_so_far(
                keys,
                i as int,
                p as int,
                k,
            ) == tracks_containing(keys, i + 1, k) by {
                assert(tracks_so_far(keys, i as int, p as int, k) =~= tracks_containing(
                    keys,
                    i + 1,
                    k,
                ));
            }
        }
        i = i + 1;
    }
    assert(keys.len() == i);
    proof {
        assert forall|j: int| 0 <= j < order@.len() implies members@.contains_key(#[trigger] order@[j])
            && members@[order@[j]]@ == intersection_tracks(keys, order@[j]) by {
            assert(order@.contains(order@[j]));
            assert(members@.contains_key(order@[j]));
        }
        assert forall|k: u64| #![trigger intersection_tracks(keys, k)] intersection_tracks(keys, k).len() > 0 implies order@.contains(k) by {
            assert(members@.contains_key(k) <==> tracks_containing(keys, n as int, k).len() > 0);
        }
    }
    let mut r: Vec<(u64, Vec<u32>)> = Vec::new();
    let mut q: usize = 0;
    while q < order.len()
        invariant
            keys == point_keys_view(point_keys@),
            n == keys.len(),
            n <= 0x1_0000_0000,
            q <= order@.len(),
            forall|a: int, b: int| 0 <= a < b < order@.len() ==> order@[a] != order@[b],
            forall|j: int|
                q <= j < order@.len() ==> members@.contains_key(#[trigger] order@[j])
                    && members@[order@[j]]@ == intersection_tracks(keys, order@[j]),
            forall|k: u64|
                #![trigger intersection_tracks(keys, k)]
                intersection_tracks(keys, k).len() > 0 ==> order@.contains(k),
            forall|e: int|
                #![trigger r@[e]]
                0 <= e < r@.len() ==> {
                    &&& r@[e].1@ == intersection_tracks(keys, r@[e].0)
                    &&& r@[e].1@.len() >= 2
                    &&& order@.take(q as int).contains(r@[e].0)
                },
            forall|a: int, b: int| 0 <= a < b < r@.len() ==> r@[a].0 != r@[b].0,
            forall|j: int|
                0 <= j < q && #[trigger] intersection_tracks(keys, order@[j]).len() >= 2 ==> exists|
                    e: int,
                | 0 <= e < r@.len() && #[trigger] r@[e].0 == order@[j],
        decreases order@.len() - q,
    {
        let key = order[q];
        proof {
            assert(order@.take(q + 1) =~= order@.take(q as int).push(key));
        }
        let ghost old_r = r@;
        let ghost members0 = members@;
        proof {
            assert(members0.contains_key(key) && members0[key]@ == intersection_tracks(keys, key));
        }
        match members.remove(&key) {
            Some(list) => {
                assert(list@ == intersection_tracks(keys, key));
                if list.len() >= 2 {
                    proof {
                        assert forall|e: int| 0 <= e < old_r.len() implies old_r[e].0 != key by {
                            let j = choose|j: int| 0 <= j < q && #[trigger] order@.take(q as int)[j] == old_r[e].0;
                            assert(order@[j] == old_r[e].0);
                        }
                    }
                    r.push((key, list));
                    proof {
                        assert(r@[old_r.len() as int].0 == key);
                    }
                }
            },
            None => {},
        }
        proof {
            assert forall|j: int| q + 1 <= j < order@.len() implies members@.contains_key(#[trigger] order@[j])
                && members@[order@[j]]@ == intersection_tracks(keys, order@[j]) by {
                assert(order@[q as int] != order@[j]);
            }
            assert forall|e: int| #![trigger r@[e]] 0 <= e < r@.len() implies order@.take(q + 1).contains(
                r@[e].0,
            ) by {
                if e < old_r.len() {
                    assert(r@[e] == old_r[e]);
                    let j = choose|j: int| 0 <= j < q && #[trigger] order@.take(q as int)[j] == old_r[e].0;
                    assert(order@.take(q + 1)[j] == old_r[e].0);
                } else {
                    assert(order@.take(q + 1)[q as int] == key);
                }
            }
            assert forall|j: int|
                0 <= j < q + 1 && #[trigger] intersection_tracks(keys, order@[j]).len() >= 2 implies exists|
                e: int,
            | 0 <= e < r@.len() && #[trigger] r@[e].0 == order@[j] by {
                if j < q {
                    let e = choose|e: int| 0 <= e < old_r.len() && #[trigger] old_r[e].0 == order@[j];
                    assert(r@[e] == old_r[e]);
                } else {
                    assert(r@[old_r.len() as int].0 == key);
                }
            }
        }
        q = q + 1;
    }
    proof {
        assert forall|e: int|
            #![trigger r@[e]]
            0 <= e < r@.len() implies {
                &&& increasing_u32(r@[e].1@)
                &&& forall|x: u32|
                    #![trigger r@[e].1@.contains(x)]
                    r@[e].1@.contains(x) <==> (x < point_keys@.len() && point_keys@[x as int]@.contains(
                        r@[e].0,
                    ))
            } by {
            lemma_intersection_tracks(keys, r@[e].0);
            assert forall|x: u32| x < point_keys@.len() implies #[trigger] point_keys@[x as int]@ == keys[x as int] by {}
        }
        assert forall|k: u64|
            (exists|e: int| 0 <= e < r@.len() && #[trigger] r@[e].0 == k) <==> intersection_tracks(
                keys,
                k,
            ).len() >= 2 by {
            if intersection_tracks(keys, k).len() >= 2 {
                assert(order@.contains(k));
                let j = choose|j: int| 0 <= j < order@.len() && order@[j] == k;
                assert(intersection_tracks(keys, order@[j]).len() >= 2);
            }
        }
    }
    r
}

} // verus!
