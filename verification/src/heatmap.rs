//! Route density: how often the segments of each track are used across all
//! tracks. A segment is a pair of consecutive points; segments that snap to
//! the same grid cells share a key, and the caller hands in one key per
//! segment (track by track, segment by segment).
use vstd::prelude::*;
use std::collections::HashMap;

verus! {

broadcast use vstd::std_specs::hash::group_hash_axioms;

/// A track with the frequency of its route.
pub struct HeatmapTrack<T> {
    pub coordinates: Vec<T>,
    pub frequency: u32,
}

/// The tracks of a heatmap with the largest frequency among them.
pub struct HeatmapResult<T> {
    pub tracks: Vec<HeatmapTrack<T>>,
    pub max_frequency: u32,
}

/// How many times `k` occurs in `s`.
pub open spec fn occurrences(s: Seq<u64>, k: u64) -> nat
    decreases s.len(),
{
    if s.len() == 0 {
        0
    } else {
        occurrences(s.drop_last(), k) + if s.last() == k {
            1nat
        } else {
            0nat
        }
    }
}

/// How many segments, over all tracks, have key `k`.
pub open spec fn segment_count(keys: Seq<Seq<u64>>, k: u64) -> nat
    decreases keys.len(),
{
    if keys.len() == 0 {
        0
    } else {
        segment_count(keys.drop_last(), k) + occurrences(keys.last(), k)
    }
}

/// The summed use counts of the segments `segs`.
pub open spec fn track_usage(keys: Seq<Seq<u64>>, segs: Seq<u64>) -> nat
    decreases segs.len(),
{
    if segs.len() == 0 {
        0
    } else {
        track_usage(keys, segs.drop_last()) + segment_count(keys, segs.last())
    }
}

/// The frequency of a track with segments `segs`: the mean use count of its
/// segments, rounded half away from zero (the mean, taken in `f64`, is never
/// close enough to a half to round otherwise).
pub open spec fn track_frequency(keys: Seq<Seq<u64>>, segs: Seq<u64>) -> nat {
    let n = segs.len();
    if n == 0 {
        1
    } else {
        (2 * track_usage(keys, segs) + n) / (2 * n)
    }
}

/// Whether the counters fit: the use counts summed for every track fit in a
/// `u32`, the type in which they are counted and summed, and the number of
/// segments of every track in an `i32`, the type in which they are counted.
pub open spec fn usage_fits(keys: Seq<Seq<u64>>) -> bool {
    forall|t: int|
        0 <= t < keys.len() ==> #[trigger] track_usage(keys, keys[t]) <= u32::MAX && keys[t].len()
            <= i32::MAX
}

/// Per-track keys as sequences.
pub open spec fn keys_view(keys: Seq<Vec<u64>>) -> Seq<Seq<u64>> {
    keys.map_values(|k: Vec<u64>| k@)
}

/// Whether every track of `n` points comes with one key per segment.
pub open spec fn keys_match<T>(tracks: Seq<Seq<T>>, keys: Seq<Seq<u64>>) -> bool {
    &&& tracks.len() == keys.len()
    &&& forall|t: int|
        0 <= t < tracks.len() ==> (#[trigger] keys[t]).len() + 1 == tracks[t].len() || (
        keys[t].len() == 0 && tracks[t].len() == 0)
}

/// The heatmap tracks: every track of at least two points, in order, with
/// its frequency computed over all keys `all`.
pub open spec fn heatmap_tracks<T>(
    tracks: Seq<Seq<T>>,
    keys: Seq<Seq<u64>>,
    all: Seq<Seq<u64>>,
) -> Seq<(Seq<T>, nat)>
    decreases tracks.len(),
{
    if tracks.len() == 0 || keys.len() == 0 {
        Seq::empty()
    } else {
        let rest = heatmap_tracks(tracks.drop_first(), keys.drop_first(), all);
        if tracks[0].len() >= 2 {
            seq![(tracks[0], track_frequency(all, keys[0]))] + rest
        } else {
            rest
        }
    }
}

/// The largest frequency of `hs`, or 1 when there is none.
pub open spec fn max_frequency<T>(hs: Seq<(Seq<T>, nat)>) -> nat
    decreases hs.len(),
{
    if hs.len() == 0 {
        1
    } else if hs.len() == 1 {
        hs[0].1
    } else {
        let m = max_frequency(hs.drop_last());
        if hs.last().1 > m {
            hs.last().1
        } else {
            m
        }
    }
}

/// A heatmap track as plain values.
pub open spec fn track_view<T>(h: HeatmapTrack<T>) -> (Seq<T>, nat) {
    (h.coordinates@, h.frequency as nat)
}

/// Tracks as sequences.
pub open spec fn tracks_view<T>(tracks: Seq<Vec<T>>) -> Seq<Seq<T>> {
    tracks.map_values(|v: Vec<T>| v@)
}

// ---------------------------------------------------------------------------
// Counting facts
// ---------------------------------------------------------------------------

proof fn lemma_occurrences_take(s: Seq<u64>, i: int, k: u64)
    requires
        0 <= i <= s.len(),
    ensures
        occurrences(s.take(i), k) <= occurrences(s, k),
    decreases s.len(),
{
    if i < s.len() {
        assert(s.drop_last().take(i) =~= s.take(i));
        lemma_occurrences_take(s.drop_last(), i, k);
    } else {
        assert(s.take(i) =~= s);
    }
}

proof fn lemma_occurrences_take_step(s: Seq<u64>, i: int, k: u64)
    requires
        0 <= i < s.len(),
    ensures
        occurrences(s.take(i + 1), k) == occurrences(s.take(i), k) + if s[i] == k {
            1nat
        } else {
            0nat
        },
{
    assert(s.take(i + 1).drop_last() =~= s.take(i));
}

proof fn lemma_occurrences_present(s: Seq<u64>, i: int)
    requires
        0 <= i < s.len(),
    ensures
        occurrences(s, s[i]) >= 1,
    decreases s.len(),
{
    if i < s.len() - 1 {
        lemma_occurrences_present(s.drop_last(), i);
    }
}

proof fn lemma_segment_count_take(keys: Seq<Seq<u64>>, t: int, k: u64)
    requires
        0 <= t <= keys.len(),
    ensures
        segment_count(keys.take(t), k) <= segment_count(keys, k),
    decreases keys.len(),
{
    if t < keys.len() {
        assert(keys.drop_last().take(t) =~= keys.take(t));
        lemma_segment_count_take(keys.drop_last(), t, k);
    } else {
        assert(keys.take(t) =~= keys);
    }
}

proof fn lemma_segment_count_take_step(keys: Seq<Seq<u64>>, t: int, k: u64)
    requires
        0 <= t < keys.len(),
    ensures
        segment_count(keys.take(t + 1), k) == segment_count(keys.take(t), k) + occurrences(
            keys[t],
            k,
        ),
{
    assert(keys.take(t + 1).drop_last() =~= keys.take(t));
}

proof fn lemma_usage_take(keys: Seq<Seq<u64>>, segs: Seq<u64>, i: int)
    requires
        0 <= i <= segs.len(),
    ensures
        track_usage(keys, segs.take(i)) <= track_usage(keys, segs),
    decreases segs.len(),
{
    if i < segs.len() {
        assert(segs.drop_last().take(i) =~= segs.take(i));
        lemma_usage_take(keys, segs.drop_last(), i);
    } else {
        assert(segs.take(i) =~= segs);
    }
}

proof fn lemma_usage_take_step(keys: Seq<Seq<u64>>, segs: Seq<u64>, i: int)
    requires
        0 <= i < segs.len(),
    ensures
        track_usage(keys, segs.take(i + 1)) == track_usage(keys, segs.take(i)) + segment_count(
            keys,
            segs[i],
        ),
{
    assert(segs.take(i + 1).drop_last() =~= segs.take(i));
}

proof fn lemma_usage_covers(keys: Seq<Seq<u64>>, segs: Seq<u64>, i: int)
    requires
        0 <= i < segs.len(),
    ensures
        segment_count(keys, segs[i]) <= track_usage(keys, segs),
    decreases segs.len(),
{
    if i < segs.len() - 1 {
        lemma_usage_covers(keys, segs.drop_last(), i);
    }
}

/// The count of a key seen at segment `w` of track `t`, before that segment
/// is counted, is less than the usage of track `t`.
proof fn lemma_count_below_usage(keys: Seq<Seq<u64>>, t: int, w: int)
    requires
        0 <= t < keys.len(),
        0 <= w < keys[t].len(),
    ensures
        segment_count(keys.take(t), keys[t][w]) + occurrences(keys[t].take(w), keys[t][w]) + 1
            <= track_usage(keys, keys[t]),
{
    let k = keys[t][w];
    lemma_occurrences_take_step(keys[t], w, k);
    lemma_occurrences_take(keys[t], w + 1, k);
    lemma_segment_count_take_step(keys, t, k);
    lemma_segment_count_take(keys, t + 1, k);
    lemma_usage_covers(keys, keys[t], w);
}


proof fn lemma_segment_count_present(keys: Seq<Seq<u64>>, t: int, w: int)
    requires
        0 <= t < keys.len(),
        0 <= w < keys[t].len(),
    ensures
        segment_count(keys, keys[t][w]) >= 1,
{
    let k = keys[t][w];
    lemma_occurrences_present(keys[t], w);
    lemma_segment_count_take_step(keys, t, k);
    lemma_segment_count_take(keys, t + 1, k);
}

/// Counts every key over all tracks; `None` when a count outgrows `u32`.
fn count_segments(segment_keys: &Vec<Vec<u64>>) -> (res: Option<HashMap<u64, u32>>)
    ensures
        match res {
            Some(m) => forall|k: u64|
                #![trigger m@.contains_key(k)]
                {
                    &&& m@.contains_key(k) <==> segment_count(keys_view(segment_keys@), k) > 0
                    &&& m@.contains_key(k) ==> m@[k] == segment_count(keys_view(segment_keys@), k)
                },
            None => !usage_fits(keys_view(segment_keys@)),
        },
{
    let ghost keys = keys_view(segment_keys@);
    let mut usage: HashMap<u64, u32> = HashMap::new();
    let mut t: usize = 0;
    while t < segment_keys.len()
        invariant
            keys == keys_view(segment_keys@),
            t <= keys.len(),
            forall|k: u64|
                #![trigger usage@.contains_key(k)]
                {
                    &&& usage@.contains_key(k) <==> segment_count(keys.take(t as int), k) > 0
                    &&& usage@.contains_key(k) ==> usage@[k] == segment_count(keys.take(t as int), k)
                },
        decreases keys.len() - t,
    {
        let track_keys = &segment_keys[t];
        assert(track_keys@ == keys[t as int]);
        let mut w: usize = 0;
        assert(keys[t as int].take(0) =~= Seq::<u64>::empty());
        while w < track_keys.len()
            invariant
                keys == keys_view(segment_keys@),
                t < keys.len(),
                track_keys@ == keys[t as int],
                w <= track_keys@.len(),
                forall|k: u64|
                    #![trigger usage@.contains_key(k)]
                    {
                        let c = segment_count(keys.take(t as int), k) + occurrences(
                            keys[t as int].take(w as int),
                            k,
                        );
                        &&& usage@.contains_key(k) <==> c > 0
                        &&& usage@.contains_key(k) ==> usage@[k] == c
                    },
            decreases track_keys@.len() - w,
        {
            let key = track_keys[w];
            proof {
                lemma_occurrences_take_step(keys[t as int], w as int, key);
                lemma_count_below_usage(keys, t as int, w as int);
            }
            let current: u32 = match usage.get(&key) {
                Some(c) => *c,
                None => 0,
            };
            if current == u32::MAX {
                assert(track_usage(keys, keys[t as int]) > u32::MAX);
                return None;
            }
            usage.insert(key, current + 1);
            proof {
                assert forall|k: u64| #![trigger usage@.contains_key(k)] k != key implies occurrences(
                    keys[t as int].take(w + 1),
                    k,
                ) == occurrences(keys[t as int].take(w as int), k) by {
                    lemma_occurrences_take_step(keys[t as int], w as int, k);
                }
            }
            w = w + 1;
        }
        proof {
            assert(keys[t as int].take(w as int) =~= keys[t as int]);
            assert forall|k: u64| #![trigger usage@.contains_key(k)] true implies segment_count(
                keys.take(t + 1),
                k,
            ) == segment_count(keys.take(t as int), k) + occurrences(keys[t as int], k) by {
                lemma_segment_count_take_step(keys, t as int, k);
            }
        }
        t = t + 1;
    }
    assert(keys.take(t as int) =~= keys);
    Some(usage)
}


/// The frequency of one track from the counts `usage`; `None` when its
/// summed counts outgrow `u32` or its segments outgrow `i32`.
fn track_frequency_of(
    usage: &HashMap<u64, u32>,
    track_keys: &Vec<u64>,
    keys: Ghost<Seq<Seq<u64>>>,
    t: Ghost<int>,
) -> (res: Option<u32>)
    requires
        0 <= t@ < keys@.len(),
        keys@[t@] == track_keys@,
        track_keys@.len() >= 1,
        forall|k: u64|
            #![trigger usage@.contains_key(k)]
            {
                &&& usage@.contains_key(k) <==> segment_count(keys@, k) > 0
                &&& usage@.contains_key(k) ==> usage@[k] == segment_count(keys@, k)
            },
    ensures
        match res {
            Some(f) => {
                &&& f == track_frequency(keys@, track_keys@)
                &&& track_usage(keys@, track_keys@) <= u32::MAX
                &&& track_keys@.len() <= i32::MAX
            },
            None => track_usage(keys@, track_keys@) > u32::MAX || track_keys@.len() > i32::MAX,
        },
{
    let ghost segs = track_keys@;
    let mut total_usage: u32 = 0;
    let mut segments_seen: i32 = 0;
    let mut w: usize = 0;
    assert(segs.take(0) =~= Seq::<u64>::empty());
    while w < track_keys.len()
        invariant
            segs == track_keys@,
            0 <= t@ < keys@.len(),
            keys@[t@] == segs,
            w <= segs.len(),
            segments_seen == w,
            total_usage == track_usage(keys@, segs.take(w as int)),
            forall|k: u64|
                #![trigger usage@.contains_key(k)]
                {
                    &&& usage@.contains_key(k) <==> segment_count(keys@, k) > 0
                    &&& usage@.contains_key(k) ==> usage@[k] == segment_count(keys@, k)
                },
        decreases segs.len() - w,
    {
        let key = track_keys[w];
        proof {
            lemma_segment_count_present(keys@, t@, w as int);
            lemma_usage_take_step(keys@, segs, w as int);
            lemma_usage_take(keys@, segs, w + 1);
        }
        if let Some(u) = usage.get(&key) {
            let u = *u;
            if total_usage > u32::MAX - u {
                return None;
            }
            if segments_seen == i32::MAX {
                return None;
            }
            total_usage = total_usage + u;
            segments_seen = segments_seen + 1;
        }
        w = w + 1;
    }
    assert(segs.take(w as int) =~= segs);
    let n = segments_seen as u128;
    let u = total_usage as u128;
    assert((2 * u + n) / (2 * n) <= u) by (nonlinear_arith)
        requires
            n >= 1,
    ;
    let frequency = ((2 * u + n) / (2 * n)) as u32;
    Some(frequency)
}

/// The route heatmap of `all_tracks`, given one key per segment of every
/// track (`segment_keys[t][w]` for the points `w` and `w + 1` of track `t`;
/// equal keys for segments that snap to the same cells). Every track of at
/// least two points is kept, with the mean use count of its segments over
/// all tracks, rounded; the largest of those (1 without any track) is the
/// maximum frequency. `None` when the counters would overflow (see
/// `usage_fits`).
pub fn try_create_heatmap_from_tracks<T>(
    all_tracks: Vec<Vec<T>>,
    segment_keys: &Vec<Vec<u64>>,
) -> (res: Option<HeatmapResult<T>>)
    requires
        keys_match(tracks_view(all_tracks@), keys_view(segment_keys@)),
    ensures
        res is Some <==> usage_fits(keys_view(segment_keys@)),
        res matches Some(r) ==> {
            let expected = heatmap_tracks(
                tracks_view(all_tracks@),
                keys_view(segment_keys@),
                keys_view(segment_keys@),
            );
            &&& r.tracks@.map_values(|h: HeatmapTrack<T>| track_view(h)) == expected
            &&& r.max_frequency == max_frequency(expected)
        },
{
    let ghost keys = keys_view(segment_keys@);
    let ghost tracks = tracks_view(all_tracks@);
    let ghost expected = heatmap_tracks(tracks, keys, keys);
    let usage = match count_segments(segment_keys) {
        Some(u) => u,
        None => {
            return None;
        },
    };
    let n = all_tracks.len();
    // Reverse the tracks onto a stack so that they come off in order.
    let mut remaining = all_tracks;
    let mut stack: Vec<Vec<T>> = Vec::new();
    while remaining.len() > 0
        invariant
            tracks.len() == n,
            remaining@.len() + stack@.len() == n,
            forall|i: int| 0 <= i < remaining@.len() ==> #[trigger] remaining@[i]@ == tracks[i],
            forall|i: int| 0 <= i < stack@.len() ==> #[trigger] stack@[i]@ == tracks[n - 1 - i],
        decreases remaining@.len(),
    {
        let track = remaining.pop().unwrap();
        stack.push(track);
    }
    let mut heatmap_tracks_out: Vec<HeatmapTrack<T>> = Vec::new();
    let mut t: usize = 0;
    assert(tracks.skip(0) =~= tracks);
    assert(keys.skip(0) =~= keys);
    while t < n
        invariant
            tracks.len() == n,
            keys.len() == n,
            keys == keys_view(segment_keys@),
            keys_match(tracks, keys),
            t <= n,
            stack@.len() == n - t,
            forall|i: int| 0 <= i < stack@.len() ==> #[trigger] stack@[i]@ == tracks[n - 1 - i],
            forall|k: u64|
                #![trigger usage@.contains_key(k)]
                {
                    &&& usage@.contains_key(k) <==> segment_count(keys, k) > 0
                    &&& usage@.contains_key(k) ==> usage@[k] == segment_count(keys, k)
                },
            forall|i: int| 0 <= i < t ==> #[trigger] track_usage(keys, keys[i]) <= u32::MAX
                && keys[i].len() <= i32::MAX,
            expected == heatmap_tracks(tracks, keys, keys),
            expected == heatmap_tracks_out@.map_values(|h: HeatmapTrack<T>| track_view(h))
                + heatmap_tracks(tracks.skip(t as int), keys.skip(t as int), keys),
        decreases n - t,
    {
        let track = stack.pop().unwrap();
        assert(track@ == tracks[t as int]);
        let ghost before = heatmap_tracks_out@.map_values(|h: HeatmapTrack<T>| track_view(h));
        let ghost rest = heatmap_tracks(tracks.skip(t + 1), keys.skip(t + 1), keys);
        assert(tracks.skip(t as int).drop_first() =~= tracks.skip(t + 1));
        assert(keys.skip(t as int).drop_first() =~= keys.skip(t + 1));
        assert(tracks.skip(t as int)[0] == tracks[t as int]);
        assert(keys.skip(t as int)[0] == keys[t as int]);
        if track.len() < 2 {
            assert(keys[t as int].len() == 0);
            assert(track_usage(keys, keys[t as int]) == 0);
        } else {
            let track_keys = &segment_keys[t];
            assert(track_keys@ == keys[t as int]);
            let frequency = match track_frequency_of(&usage, track_keys, Ghost(keys), Ghost(t as int)) {
                Some(f) => f,
                None => {
                    return None;
                },
            };
            heatmap_tracks_out.push(HeatmapTrack { coordinates: track, frequency });
            assert(heatmap_tracks_out@.map_values(|h: HeatmapTrack<T>| track_view(h)) =~= before
                + seq![(tracks[t as int], track_frequency(keys, keys[t as int]))]);
        }
        t = t + 1;
    }
    assert(tracks.skip(t as int).len() == 0);
    assert(expected =~= heatmap_tracks_out@.map_values(|h: HeatmapTrack<T>| track_view(h)));
    // The largest frequency, or 1 without any track.
    let mut max_frequency_found: u32 = 1;
    let mut i: usize = 0;
    while i < heatmap_tracks_out.len()
        invariant
            expected == heatmap_tracks_out@.map_values(|h: HeatmapTrack<T>| track_view(h)),
            i <= expected.len(),
            i > 0 ==> max_frequency_found == max_frequency(expected.take(i as int)),
            i == 0 ==> max_frequency_found == 1,
        decreases expected.len() - i,
    {
        let f = heatmap_tracks_out[i].frequency;
        assert(expected[i as int].1 == f);
        assert(expected.take(i + 1).drop_last() =~= expected.take(i as int));
        if i == 0 || f > max_frequency_found {
            max_frequency_found = f;
        }
        i = i + 1;
    }
    if i > 0 {
        assert(expected.take(i as int) =~= expected);
    } else {
        assert(expected.len() == 0);
    }
    assert(max_frequency_found == max_frequency(expected));
    assert(expected == heatmap_tracks(tracks, keys, keys));
    Some(HeatmapResult { tracks: heatmap_tracks_out, max_frequency: max_frequency_found })
}

/// The route heatmap of `all_tracks` (see `try_create_heatmap_from_tracks`),
/// on inputs whose counters fit.
pub fn create_heatmap_from_tracks<T>(all_tracks: Vec<Vec<T>>, segment_keys: &Vec<Vec<u64>>) -> (r:
    HeatmapResult<T>)
    requires
        keys_match(tracks_view(all_tracks@), keys_view(segment_keys@)),
        usage_fits(keys_view(segment_keys@)),
    ensures
        ({
            let expected = heatmap_tracks(
                tracks_view(all_tracks@),
                keys_view(segment_keys@),
                keys_view(segment_keys@),
            );
            &&& r.tracks@.map_values(|h: HeatmapTrack<T>| track_view(h)) == expected
            &&& r.max_frequency == max_frequency(expected)
        }),
{
    match try_create_heatmap_from_tracks(all_tracks, segment_keys) {
        Some(r) => r,
        None => HeatmapResult { tracks: Vec::new(), max_frequency: 1 },
    }
}


// ---------------------------------------------------------------------------
// What every heatmap satisfies
// ---------------------------------------------------------------------------

proof fn lemma_usage_at_least(keys: Seq<Seq<u64>>, t: int, w: int)
    requires
        0 <= t < keys.len(),
        0 <= w <= keys[t].len(),
    ensures
        track_usage(keys, keys[t].take(w)) >= w,
    decreases w,
{
    if w > 0 {
        lemma_usage_at_least(keys, t, w - 1);
        lemma_usage_take_step(keys, keys[t], w - 1);
        lemma_segment_count_present(keys, t, w - 1);
    }
}

proof fn lemma_frequency_at_least_one(keys: Seq<Seq<u64>>, t: int)
    requires
        0 <= t < keys.len(),
    ensures
        track_frequency(keys, keys[t]) >= 1,
{
    let segs = keys[t];
    let n = segs.len();
    if n > 0 {
        lemma_usage_at_least(keys, t, n as int);
        assert(segs.take(n as int) =~= segs);
        let u = track_usage(keys, segs);
        assert((2 * u + n) / (2 * n) >= 1) by (nonlinear_arith)
            requires
                u >= n,
                n >= 1,
        ;
    }
}

proof fn lemma_max_frequency<T>(hs: Seq<(Seq<T>, nat)>)
    ensures
        forall|i: int| 0 <= i < hs.len() ==> #[trigger] hs[i].1 <= max_frequency(hs),
        hs.len() > 0 ==> exists|i: int| 0 <= i < hs.len() && #[trigger] hs[i].1 == max_frequency(hs),
    decreases hs.len(),
{
    if hs.len() > 1 {
        let init = hs.drop_last();
        lemma_max_frequency(init);
        assert forall|i: int| 0 <= i < hs.len() implies #[trigger] hs[i].1 <= max_frequency(hs) by {
            if i < hs.len() - 1 {
                assert(hs[i] == init[i]);
            }
        }
        if hs.last().1 <= max_frequency(init) {
            let j = choose|j: int| 0 <= j < init.len() && #[trigger] init[j].1 == max_frequency(init);
            assert(hs[j] == init[j]);
        } else {
            assert(hs[hs.len() - 1].1 == max_frequency(hs));
        }
    } else if hs.len() == 1 {
        assert(hs[0].1 == max_frequency(hs));
    }
}

proof fn lemma_heatmap_tracks_from<T>(tracks: Seq<Seq<T>>, all: Seq<Seq<u64>>, k: int)
    requires
        keys_match(tracks, all),
        0 <= k <= tracks.len(),
    ensures
        ({
            let hs = heatmap_tracks(tracks.skip(k), all.skip(k), all);
            forall|i: int|
                0 <= i < hs.len() ==> (#[trigger] hs[i]).0.len() >= 2 && hs[i].1 >= 1
        }),
    decreases tracks.len() - k,
{
    let hs = heatmap_tracks(tracks.skip(k), all.skip(k), all);
    if k < tracks.len() {
        lemma_heatmap_tracks_from(tracks, all, k + 1);
        assert(tracks.skip(k).drop_first() =~= tracks.skip(k + 1));
        assert(all.skip(k).drop_first() =~= all.skip(k + 1));
        let rest = heatmap_tracks(tracks.skip(k + 1), all.skip(k + 1), all);
        lemma_frequency_at_least_one(all, k);
        if tracks[k].len() >= 2 {
            assert forall|i: int| 0 <= i < hs.len() implies (#[trigger] hs[i]).0.len() >= 2
                && hs[i].1 >= 1 by {
                if i > 0 {
                    assert(hs[i] == rest[i - 1]);
                }
            }
        }
    }
}

/// Every heatmap track has at least two points and a frequency of at least 1
/// (each of its segments counts itself), and the maximum frequency is the
/// largest track frequency: no track exceeds it, and some track attains it
/// when there is any.
pub proof fn lemma_heatmap_frequencies<T>(tracks: Seq<Seq<T>>, keys: Seq<Seq<u64>>)
    requires
        keys_match(tracks, keys),
    ensures
        ({
            let hs = heatmap_tracks(tracks, keys, keys);
            &&& forall|i: int|
                0 <= i < hs.len() ==> (#[trigger] hs[i]).0.len() >= 2 && 1 <= hs[i].1
                    <= max_frequency(hs)
            &&& hs.len() > 0 ==> exists|i: int|
                0 <= i < hs.len() && #[trigger] hs[i].1 == max_frequency(hs)
        }),
{
    lemma_heatmap_tracks_from(tracks, keys, 0);
    assert(tracks.skip(0) =~= tracks);
    assert(keys.skip(0) =~= keys);
    let hs = heatmap_tracks(tracks, keys, keys);
    lemma_max_frequency(hs);
}

proof fn lemma_usage_grows(all: Seq<Seq<u64>>, kt: Seq<u64>, segs: Seq<u64>)
    ensures
        track_usage(all.push(kt), segs) >= track_usage(all, segs),
    decreases segs.len(),
{
    if segs.len() > 0 {
        lemma_usage_grows(all, kt, segs.drop_last());
        assert(all.push(kt).drop_last() =~= all);
    }
}

proof fn lemma_frequency_grows(all: Seq<Seq<u64>>, kt: Seq<u64>, segs: Seq<u64>)
    ensures
        track_frequency(all.push(kt), segs) >= track_frequency(all, segs),
{
    lemma_usage_grows(all, kt, segs);
    let n = segs.len();
    if n > 0 {
        let u1 = track_usage(all, segs);
        let u2 = track_usage(all.push(kt), segs);
        assert((2 * u1 + n) / (2 * n) <= (2 * u2 + n) / (2 * n)) by (nonlinear_arith)
            requires
                u1 <= u2,
                n >= 1,
        ;
    }
}

proof fn lemma_heatmap_all_grows<T>(
    tracks: Seq<Seq<T>>,
    keys: Seq<Seq<u64>>,
    all: Seq<Seq<u64>>,
    kt: Seq<u64>,
)
    ensures
        ({
            let h1 = heatmap_tracks(tracks, keys, all);
            let h2 = heatmap_tracks(tracks, keys, all.push(kt));
            &&& h2.len() == h1.len()
            &&& forall|i: int|
                0 <= i < h1.len() ==> (#[trigger] h2[i]).0 == h1[i].0 && h2[i].1 >= h1[i].1
        }),
    decreases tracks.len(),
{
    if tracks.len() > 0 && keys.len() > 0 {
        lemma_heatmap_all_grows(tracks.drop_first(), keys.drop_first(), all, kt);
        lemma_frequency_grows(all, kt, keys[0]);
        let h1 = heatmap_tracks(tracks, keys, all);
        let h2 = heatmap_tracks(tracks, keys, all.push(kt));
        let r1 = heatmap_tracks(tracks.drop_first(), keys.drop_first(), all);
        let r2 = heatmap_tracks(tracks.drop_first(), keys.drop_first(), all.push(kt));
        if tracks[0].len() >= 2 {
            assert forall|i: int| 0 <= i < h1.len() implies (#[trigger] h2[i]).0 == h1[i].0
                && h2[i].1 >= h1[i].1 by {
                if i > 0 {
                    assert(h1[i] == r1[i - 1]);
                    assert(h2[i] == r2[i - 1]);
                }
            }
        }
    }
}

proof fn lemma_heatmap_append<T>(
    tracks: Seq<Seq<T>>,
    keys: Seq<Seq<u64>>,
    t: Seq<T>,
    kt: Seq<u64>,
    all: Seq<Seq<u64>>,
)
    requires
        tracks.len() == keys.len(),
    ensures
        heatmap_tracks(tracks.push(t), keys.push(kt), all) == heatmap_tracks(tracks, keys, all) + if t.len()
            >= 2 {
            seq![(t, track_frequency(all, kt))]
        } else {
            Seq::empty()
        },
    decreases tracks.len(),
{
    let tail: Seq<(Seq<T>, nat)> = if t.len() >= 2 {
        seq![(t, track_frequency(all, kt))]
    } else {
        Seq::empty()
    };
    if tracks.len() == 0 {
        assert(tracks.push(t).drop_first() =~= Seq::<Seq<T>>::empty());
        assert(keys.push(kt).drop_first() =~= Seq::<Seq<u64>>::empty());
        assert(tracks.push(t)[0] == t);
        assert(keys.push(kt)[0] == kt);
        assert(heatmap_tracks(tracks.push(t).drop_first(), keys.push(kt).drop_first(), all)
            == Seq::<(Seq<T>, nat)>::empty());
        assert(heatmap_tracks(tracks, keys, all) == Seq::<(Seq<T>, nat)>::empty());
        assert(Seq::<(Seq<T>, nat)>::empty() + tail =~= tail);
        assert(tail + Seq::<(Seq<T>, nat)>::empty() =~= tail);
    } else {
        assert(tracks.push(t).drop_first() =~= tracks.drop_first().push(t));
        assert(keys.push(kt).drop_first() =~= keys.drop_first().push(kt));
        assert(tracks.push(t)[0] == tracks[0]);
        assert(keys.push(kt)[0] == keys[0]);
        lemma_heatmap_append(tracks.drop_first(), keys.drop_first(), t, kt, all);
        let rest = heatmap_tracks(tracks.drop_first(), keys.drop_first(), all);
        let head = seq![(tracks[0], track_frequency(all, keys[0]))];
        assert(heatmap_tracks(tracks.push(t).drop_first(), keys.push(kt).drop_first(), all) == rest
            + tail);
        assert(head + (rest + tail) =~= (head + rest) + tail);
    }
}

/// Adding one track to the input keeps the heatmap of the earlier tracks:
/// each of them keeps its place and its coordinates, none of their
/// frequencies goes down, and neither does the maximum frequency.
pub proof fn lemma_heatmap_append_monotone<T>(
    tracks: Seq<Seq<T>>,
    keys: Seq<Seq<u64>>,
    t: Seq<T>,
    kt: Seq<u64>,
)
    requires
        keys_match(tracks.push(t), keys.push(kt)),
    ensures
        ({
            let h1 = heatmap_tracks(tracks, keys, keys);
            let h2 = heatmap_tracks(tracks.push(t), keys.push(kt), keys.push(kt));
            &&& h2.len() >= h1.len()
            &&& forall|i: int|
                0 <= i < h1.len() ==> (#[trigger] h2[i]).0 == h1[i].0 && h2[i].1 >= h1[i].1
            &&& max_frequency(h2) >= max_frequency(h1)
        }),
{
    let all = keys.push(kt);
    assert forall|i: int| 0 <= i < tracks.len() implies (#[trigger] keys[i]).len() + 1
        == tracks[i].len() || (keys[i].len() == 0 && tracks[i].len() == 0) by {
        assert(tracks.push(t)[i] == tracks[i]);
        assert(all[i] == keys[i]);
    }
    assert(keys_match(tracks, keys));
    let h1 = heatmap_tracks(tracks, keys, keys);
    let hm = heatmap_tracks(tracks, keys, all);
    let h2 = heatmap_tracks(tracks.push(t), all, all);
    lemma_heatmap_all_grows(tracks, keys, keys, kt);
    lemma_heatmap_append(tracks, keys, t, kt, all);
    assert forall|i: int| 0 <= i < h1.len() implies (#[trigger] h2[i]).0 == h1[i].0 && h2[i].1
        >= h1[i].1 by {
        assert(h2[i] == hm[i]);
    }
    lemma_heatmap_frequencies(tracks.push(t), all);
    lemma_max_frequency(h1);
    if h1.len() > 0 {
        let j = choose|j: int| 0 <= j < h1.len() && #[trigger] h1[j].1 == max_frequency(h1);
        assert(h2[j].1 >= h1[j].1);
    } else if h2.len() > 0 {
        assert(h2[0].1 >= 1);
    }
}

} // verus!
