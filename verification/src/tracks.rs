//! Splitting, merging and clustering tracks. The geometric tests (distance
//! between neighbouring points, likeness of two tracks) are made by the
//! caller and handed in as booleans; these functions decide what to keep.
use vstd::prelude::*;

verus! {

/// A copy of a track.
fn copy_track<T: Copy>(track: &Vec<T>) -> (copy: Vec<T>)
    ensures
        copy@ == track@,
{
    let mut copy: Vec<T> = Vec::new();
    let mut i: usize = 0;
    while i < track.len()
        invariant
            i <= track@.len(),
            copy@ == track@.take(i as int),
        decreases track@.len() - i,
    {
        copy.push(track[i]);
        i = i + 1;
        assert(copy@ =~= track@.take(i as int));
    }
    assert(track@.take(i as int) =~= track@);
    copy
}

// ---------------------------------------------------------------------------
// Splitting at gaps
// ---------------------------------------------------------------------------

/// The pieces that remain of `coords` from window `i` on (the window joining
/// points `i` and `i + 1`), `current` being the piece under way: a window
/// within the gap extends the piece, a longer one closes it and starts a new
/// piece at point `i + 1`; pieces of a single point are dropped.
pub open spec fn split_from<T>(coords: Seq<T>, within: Seq<bool>, i: int, current: Seq<T>) -> Seq<
    Seq<T>,
>
    decreases coords.len() - i,
{
    if i < 0 || i + 1 >= coords.len() {
        if current.len() > 1 {
            seq![current]
        } else {
            Seq::empty()
        }
    } else if within[i] {
        split_from(coords, within, i + 1, current.push(coords[i + 1]))
    } else {
        (if current.len() > 1 {
            seq![current]
        } else {
            Seq::empty()
        }) + split_from(coords, within, i + 1, seq![coords[i + 1]])
    }
}

/// A track split where neighbouring points are too far apart: `within[i]`
/// tells whether points `i` and `i + 1` are within the allowed gap. A track
/// of fewer than two points comes back whole, as the only piece.
pub open spec fn split_by_gaps<T>(coords: Seq<T>, within: Seq<bool>) -> Seq<Seq<T>> {
    if coords.len() < 2 {
        seq![coords]
    } else {
        split_from(coords, within, 0, seq![coords[0]])
    }
}

/// Splits a track into the pieces joined by short enough steps; see `split_by_gaps`.
pub fn split_track_by_gaps_rust<T: Copy>(coords: &[T], within_gap: &[bool]) -> (tracks: Vec<Vec<T>>)
    requires
        coords@.len() >= 2 ==> within_gap@.len() + 1 == coords@.len(),
    ensures
        tracks@.map_values(|t: Vec<T>| t@) == split_by_gaps(coords@, within_gap@),
{
    let ghost c = coords@;
    let ghost w = within_gap@;
    let mut tracks: Vec<Vec<T>> = Vec::new();
    if coords.len() < 2 {
        let mut whole: Vec<T> = Vec::new();
        let mut k: usize = 0;
        while k < coords.len()
            invariant
                k <= c.len(),
                c == coords@,
                whole@ == c.take(k as int),
            decreases c.len() - k,
        {
            whole.push(coords[k]);
            k = k + 1;
            assert(whole@ =~= c.take(k as int));
        }
        assert(c.take(k as int) =~= c);
        tracks.push(whole);
        assert(tracks@.map_values(|t: Vec<T>| t@) =~= seq![c]);
        return tracks;
    }
    let mut current: Vec<T> = Vec::new();
    current.push(coords[0]);
    let mut i: usize = 0;
    assert(current@ =~= seq![c[0]]);
    while i < coords.len() - 1
        invariant
            c == coords@,
            w == within_gap@,
            c.len() >= 2,
            w.len() + 1 == c.len(),
            i < c.len(),
            split_by_gaps(c, w) == tracks@.map_values(|t: Vec<T>| t@) + split_from(
                c,
                w,
                i as int,
                current@,
            ),
        decreases c.len() - i,
    {
        let ghost before = tracks@.map_values(|t: Vec<T>| t@);
        let next = coords[i + 1];
        if within_gap[i] {
            current.push(next);
        } else {
            let ghost closed = current@;
            let mut fresh: Vec<T> = Vec::new();
            fresh.push(next);
            if current.len() > 1 {
                tracks.push(current);
                assert(tracks@.map_values(|t: Vec<T>| t@) =~= before + seq![closed]);
                assert(before + (seq![closed] + split_from(c, w, i + 1, seq![next])) =~= before
                    + seq![closed] + split_from(c, w, i + 1, seq![next]));
            } else {
                assert(before + (Seq::<Seq<T>>::empty() + split_from(c, w, i + 1, seq![next]))
                    =~= before + split_from(c, w, i + 1, seq![next]));
            }
            current = fresh;
            assert(current@ =~= seq![next]);
        }
        i = i + 1;
    }
    let ghost before = tracks@.map_values(|t: Vec<T>| t@);
    if current.len() > 1 {
        let ghost last = current@;
        tracks.push(current);
        assert(tracks@.map_values(|t: Vec<T>| t@) =~= before + seq![last]);
    } else {
        assert(before + Seq::<Seq<T>>::empty() =~= before);
    }
    tracks
}


/// A piece of at least two points that is a stretch of `coords` whose every
/// step lies within the gap.
pub open spec fn is_run<T>(coords: Seq<T>, within: Seq<bool>, p: Seq<T>) -> bool {
    &&& p.len() >= 2
    &&& exists|a: int|
        #![trigger coords.subrange(a, a + p.len())]
        0 <= a && a + p.len() <= coords.len() && p == coords.subrange(a, a + p.len()) && forall|
            j: int,
        | a <= j < a + p.len() - 1 ==> #[trigger] within[j]
}

proof fn lemma_split_from_runs<T>(
    coords: Seq<T>,
    within: Seq<bool>,
    i: int,
    s: int,
    current: Seq<T>,
)
    requires
        within.len() + 1 == coords.len(),
        0 <= s <= i < coords.len(),
        current == coords.subrange(s, i + 1),
        forall|j: int| s <= j < i ==> #[trigger] within[j],
    ensures
        forall|k: int|
            0 <= k < split_from(coords, within, i, current).len() ==> is_run(
                coords,
                within,
                #[trigger] split_from(coords, within, i, current)[k],
            ),
    decreases coords.len() - i,
{
    let r = split_from(coords, within, i, current);
    if current.len() > 1 {
        assert(current == coords.subrange(s, s + current.len()));
        assert(is_run(coords, within, current));
    }
    if i + 1 >= coords.len() {
        if current.len() > 1 {
            assert(r == seq![current]);
            assert(r[0] == current);
            assert forall|k: int| 0 <= k < r.len() implies is_run(coords, within, #[trigger] r[k]) by {
                assert(k == 0);
            }
        } else {
            assert(r.len() == 0);
        }
    } else if within[i] {
        assert(current.push(coords[i + 1]) == coords.subrange(s, i + 2));
        lemma_split_from_runs(coords, within, i + 1, s, current.push(coords[i + 1]));
        assert(r == split_from(coords, within, i + 1, current.push(coords[i + 1])));
    } else {
        let fresh = seq![coords[i + 1]];
        assert(fresh == coords.subrange(i + 1, i + 2));
        lemma_split_from_runs(coords, within, i + 1, i + 1, fresh);
        let rest = split_from(coords, within, i + 1, fresh);
        let head: Seq<Seq<T>> = if current.len() > 1 {
            seq![current]
        } else {
            Seq::empty()
        };
        assert(r == head + rest);
        assert forall|k: int| 0 <= k < r.len() implies is_run(coords, within, #[trigger] r[k]) by {
            if k < head.len() {
                assert(r[k] == current);
            } else {
                assert(r[k] == rest[k - head.len()]);
            }
        }
    }
}

/// Splitting a track of at least two points yields pieces of at least two
/// points, each a stretch of the track whose every step lies within the gap.
pub proof fn lemma_split_pieces_are_runs<T>(coords: Seq<T>, within: Seq<bool>)
    requires
        coords.len() >= 2,
        within.len() + 1 == coords.len(),
    ensures
        forall|k: int|
            0 <= k < split_by_gaps(coords, within).len() ==> is_run(
                coords,
                within,
                #[trigger] split_by_gaps(coords, within)[k],
            ),
{
    assert(seq![coords[0]] == coords.subrange(0, 1));
    lemma_split_from_runs(coords, within, 0, 0, seq![coords[0]]);
}

/// Whether point `p` of a track of `n` points has a step within the gap on
/// one side or the other.
pub open spec fn in_run(within: Seq<bool>, n: int, p: int) -> bool {
    (p + 1 < n && within[p]) || (p > 0 && within[p - 1])
}

/// The points of `coords` from index `lo` on that have a step within the gap
/// on one side or the other, in order.
pub open spec fn run_points<T>(coords: Seq<T>, within: Seq<bool>, lo: int) -> Seq<T>
    decreases coords.len() - lo,
{
    if lo < 0 || lo >= coords.len() {
        Seq::empty()
    } else {
        (if in_run(within, coords.len() as int, lo) {
            seq![coords[lo]]
        } else {
            Seq::empty()
        }) + run_points(coords, within, lo + 1)
    }
}

/// Pieces laid end to end.
pub open spec fn concat_pieces<T>(pieces: Seq<Seq<T>>) -> Seq<T>
    decreases pieces.len(),
{
    if pieces.len() == 0 {
        Seq::empty()
    } else {
        pieces[0] + concat_pieces(pieces.drop_first())
    }
}

proof fn lemma_concat_single<T>(x: Seq<T>, rest: Seq<Seq<T>>)
    ensures
        concat_pieces(seq![x] + rest) == x + concat_pieces(rest),
{
    assert((seq![x] + rest).drop_first() =~= rest);
    assert((seq![x] + rest)[0] == x);
}

proof fn lemma_run_points_block<T>(coords: Seq<T>, within: Seq<bool>, s: int, e: int)
    requires
        0 <= s <= e <= coords.len(),
        forall|k: int| s <= k < e ==> #[trigger] in_run(within, coords.len() as int, k),
    ensures
        run_points(coords, within, s) == coords.subrange(s, e) + run_points(coords, within, e),
    decreases e - s,
{
    if s < e {
        lemma_run_points_block(coords, within, s + 1, e);
        assert(in_run(within, coords.len() as int, s));
        assert(seq![coords[s]] + (coords.subrange(s + 1, e) + run_points(coords, within, e))
            =~= coords.subrange(s, e) + run_points(coords, within, e));
    } else {
        assert(coords.subrange(s, e) =~= Seq::<T>::empty());
        assert(Seq::<T>::empty() + run_points(coords, within, e) =~= run_points(coords, within, e));
    }
}

proof fn lemma_split_from_concat<T>(
    coords: Seq<T>,
    within: Seq<bool>,
    i: int,
    s: int,
    current: Seq<T>,
)
    requires
        within.len() + 1 == coords.len(),
        0 <= s <= i < coords.len(),
        current == coords.subrange(s, i + 1),
        forall|j: int| s <= j < i ==> #[trigger] within[j],
        s == 0 || !within[s - 1],
    ensures
        concat_pieces(split_from(coords, within, i, current)) == run_points(coords, within, s),
    decreases coords.len() - i,
{
    let n = coords.len() as int;
    let empty = Seq::<Seq<T>>::empty();
    assert(concat_pieces(empty) == Seq::<T>::empty());
    if i + 1 >= n {
        assert(run_points(coords, within, n) == Seq::<T>::empty());
        if i > s {
            assert forall|k: int| s <= k < n implies #[trigger] in_run(within, n, k) by {
                if k < i {
                    assert(within[k]);
                } else {
                    assert(within[k - 1]);
                }
            }
            lemma_run_points_block(coords, within, s, n);
            lemma_concat_single(current, empty);
            assert(seq![current] + empty =~= seq![current]);
            assert(current + Seq::<T>::empty() =~= current);
        } else {
            assert(!in_run(within, n, s));
            assert(Seq::<T>::empty() + run_points(coords, within, s + 1) =~= Seq::<T>::empty());
        }
    } else if within[i] {
        assert(current.push(coords[i + 1]) =~= coords.subrange(s, i + 2));
        lemma_split_from_concat(coords, within, i + 1, s, current.push(coords[i + 1]));
    } else {
        let fresh = seq![coords[i + 1]];
        assert(fresh =~= coords.subrange(i + 1, i + 2));
        lemma_split_from_concat(coords, within, i + 1, i + 1, fresh);
        let rest = split_from(coords, within, i + 1, fresh);
        if i > s {
            assert forall|k: int| s <= k < i + 1 implies #[trigger] in_run(within, n, k) by {
                if k < i {
                    assert(within[k]);
                } else {
                    assert(within[k - 1]);
                }
            }
            lemma_run_points_block(coords, within, s, i + 1);
            lemma_concat_single(current, rest);
        } else {
            assert(!in_run(within, n, s));
            assert(Seq::<T>::empty() + run_points(coords, within, s + 1) =~= run_points(
                coords,
                within,
                s + 1,
            ));
            assert(empty + rest =~= rest);
        }
    }
}

/// Splitting loses no point of a run and adds none: laid end to end, the
/// pieces are exactly the points of the track that have a step within the
/// gap on one side or the other, in their order.
pub proof fn lemma_split_keeps_run_points<T>(coords: Seq<T>, within: Seq<bool>)
    requires
        coords.len() >= 2,
        within.len() + 1 == coords.len(),
    ensures
        concat_pieces(split_by_gaps(coords, within)) == run_points(coords, within, 0),
{
    assert(seq![coords[0]] =~= coords.subrange(0, 1));
    lemma_split_from_concat(coords, within, 0, 0, seq![coords[0]]);
}

proof fn lemma_split_from_no_gap<T>(coords: Seq<T>, within: Seq<bool>, i: int)
    requires
        within.len() + 1 == coords.len(),
        0 <= i < coords.len(),
        forall|j: int| 0 <= j < within.len() ==> #[trigger] within[j],
    ensures
        i > 0 ==> split_from(coords, within, i, coords.subrange(0, i + 1)) == seq![coords],
        i == 0 && coords.len() >= 2 ==> split_from(coords, within, i, coords.subrange(0, i + 1))
            == seq![coords],
    decreases coords.len() - i,
{
    if i + 1 >= coords.len() {
        assert(coords.subrange(0, i + 1) =~= coords);
    } else {
        assert(within[i]);
        assert(coords.subrange(0, i + 1).push(coords[i + 1]) =~= coords.subrange(0, i + 2));
        lemma_split_from_no_gap(coords, within, i + 1);
    }
}

/// A track of at least two points with no gap comes back as one piece: the
/// whole track.
pub proof fn lemma_split_without_gap<T>(coords: Seq<T>, within: Seq<bool>)
    requires
        coords.len() >= 2,
        within.len() + 1 == coords.len(),
        forall|j: int| 0 <= j < within.len() ==> #[trigger] within[j],
    ensures
        split_by_gaps(coords, within) == seq![coords],
{
    assert(seq![coords[0]] =~= coords.subrange(0, 1));
    lemma_split_from_no_gap(coords, within, 0);
}

// ---------------------------------------------------------------------------
// Merging alike tracks
// ---------------------------------------------------------------------------

/// Whether `similar` holds a verdict for every ordered pair of `n` tracks.
pub open spec fn square<T>(similar: Seq<Seq<T>>, n: nat) -> bool {
    &&& similar.len() == n
    &&& forall|a: int| 0 <= a < n ==> (#[trigger] similar[a]).len() == n
}

/// Of two alike tracks the merge keeps the longer one, the first on a tie.
pub open spec fn merge_choice<T>(tracks: Seq<Seq<T>>, c: int, j: int) -> int {
    if tracks[c].len() >= tracks[j].len() {
        c
    } else {
        j
    }
}

/// Grows the group of track `c` over the tracks from `j` on: every track not
/// yet used that is alike to the group's current track joins it (and is
/// used), the group's track becoming the longer of the two.
pub open spec fn merge_scan<T>(
    tracks: Seq<Seq<T>>,
    similar: Seq<Seq<bool>>,
    j: int,
    c: int,
    used: Seq<bool>,
) -> (int, Seq<bool>)
    decreases tracks.len() - j,
{
    if j < 0 || j >= tracks.len() {
        (c, used)
    } else if used[j] {
        merge_scan(tracks, similar, j + 1, c, used)
    } else if similar[c][j] {
        merge_scan(tracks, similar, j + 1, merge_choice(tracks, c, j), used.update(j, true))
    } else {
        merge_scan(tracks, similar, j + 1, c, used)
    }
}

/// The merged tracks from track `i` on: each track not yet used starts a
/// group and stands for it with the track the group ends with.
pub open spec fn merge_from<T>(tracks: Seq<Seq<T>>, similar: Seq<Seq<bool>>, i: int, used: Seq<
    bool,
>) -> Seq<Seq<T>>
    decreases tracks.len() - i,
{
    if i < 0 || i >= tracks.len() {
        Seq::empty()
    } else if used[i] {
        merge_from(tracks, similar, i + 1, used)
    } else {
        let r = merge_scan(tracks, similar, i + 1, i, used.update(i, true));
        seq![tracks[r.0]] + merge_from(tracks, similar, i + 1, r.1)
    }
}

/// Nearby tracks merged, `similar[a][b]` telling whether tracks `a` and `b`
/// start and end close enough to each other.
pub open spec fn merge_nearby<T>(tracks: Seq<Seq<T>>, similar: Seq<Seq<bool>>) -> Seq<Seq<T>> {
    merge_from(tracks, similar, 0, Seq::new(tracks.len(), |k: int| false))
}

proof fn lemma_merge_scan_in_range<T>(
    tracks: Seq<Seq<T>>,
    similar: Seq<Seq<bool>>,
    j: int,
    c: int,
    used: Seq<bool>,
)
    requires
        0 <= c < tracks.len(),
        used.len() == tracks.len(),
        square(similar, tracks.len()),
    ensures
        0 <= merge_scan(tracks, similar, j, c, used).0 < tracks.len(),
        merge_scan(tracks, similar, j, c, used).1.len() == tracks.len(),
    decreases tracks.len() - j,
{
    if 0 <= j < tracks.len() {
        if used[j] {
            lemma_merge_scan_in_range(tracks, similar, j + 1, c, used);
        } else if similar[c][j] {
            lemma_merge_scan_in_range(
                tracks,
                similar,
                j + 1,
                merge_choice(tracks, c, j),
                used.update(j, true),
            );
        } else {
            lemma_merge_scan_in_range(tracks, similar, j + 1, c, used);
        }
    }
}

proof fn lemma_merge_from_inputs<T>(
    tracks: Seq<Seq<T>>,
    similar: Seq<Seq<bool>>,
    i: int,
    used: Seq<bool>,
)
    requires
        0 <= i <= tracks.len(),
        used.len() == tracks.len(),
        square(similar, tracks.len()),
    ensures
        merge_from(tracks, similar, i, used).len() <= tracks.len() - i,
        forall|k: int|
            0 <= k < merge_from(tracks, similar, i, used).len() ==> exists|t: int|
                0 <= t < tracks.len() && #[trigger] merge_from(tracks, similar, i, used)[k]
                    == tracks[t],
    decreases tracks.len() - i,
{
    if i < tracks.len() {
        if used[i] {
            lemma_merge_from_inputs(tracks, similar, i + 1, used);
        } else {
            let r = merge_scan(tracks, similar, i + 1, i, used.update(i, true));
            lemma_merge_scan_in_range(tracks, similar, i + 1, i, used.update(i, true));
            lemma_merge_from_inputs(tracks, similar, i + 1, r.1);
            let rest = merge_from(tracks, similar, i + 1, r.1);
            let m = merge_from(tracks, similar, i, used);
            assert(m == seq![tracks[r.0]] + rest);
            assert forall|k: int| 0 <= k < m.len() implies exists|t: int|
                0 <= t < tracks.len() && #[trigger] m[k] == tracks[t] by {
                if k == 0 {
                    assert(m[0] == tracks[r.0]);
                } else {
                    assert(m[k] == rest[k - 1]);
                }
            }
        }
    }
}

/// Merging never yields more tracks than it is given, and every merged track
/// is one of the given tracks, unchanged.
pub proof fn lemma_merged_tracks_are_inputs<T>(tracks: Seq<Seq<T>>, similar: Seq<Seq<bool>>)
    requires
        square(similar, tracks.len()),
    ensures
        merge_nearby(tracks, similar).len() <= tracks.len(),
        forall|k: int|
            0 <= k < merge_nearby(tracks, similar).len() ==> exists|t: int|
                0 <= t < tracks.len() && #[trigger] merge_nearby(tracks, similar)[k] == tracks[t],
{
    lemma_merge_from_inputs(tracks, similar, 0, Seq::new(tracks.len(), |k: int| false));
}

/// The track that stands for a merged group is the first of the longest in
/// the group. Scanning from track `j` with the group's track `c` (which
/// precedes every track still to be scanned) and the tracks already used:
/// the track that ends up standing for the group is `c` or a track that
/// joined it; it is at least as long as `c`, and is `c` itself when it is
/// no longer than `c`; and it is at least as long as every track that
/// joined, and precedes each one as long as itself. Tracks once used stay
/// used.
pub proof fn lemma_merge_keeps_first_longest<T>(
    tracks: Seq<Seq<T>>,
    similar: Seq<Seq<bool>>,
    j: int,
    c: int,
    used: Seq<bool>,
)
    requires
        used.len() == tracks.len(),
        0 <= c < j,
        c < tracks.len(),
    ensures
        ({
            let r = merge_scan(tracks, similar, j, c, used);
            &&& r.1.len() == tracks.len()
            &&& forall|k: int| 0 <= k < tracks.len() && used[k] ==> #[trigger] r.1[k]
            &&& r.0 == c || (j <= r.0 < tracks.len() && !used[r.0] && r.1[r.0])
            &&& tracks[r.0].len() >= tracks[c].len()
            &&& (tracks[r.0].len() == tracks[c].len() ==> r.0 == c)
            &&& forall|k: int|
                0 <= k < tracks.len() && #[trigger] r.1[k] && !used[k] ==> tracks[k].len()
                    <= tracks[r.0].len() && (tracks[k].len() == tracks[r.0].len() ==> r.0 <= k)
        }),
    decreases tracks.len() - j,
{
    if j < tracks.len() {
        if used[j] || !similar[c][j] {
            lemma_merge_keeps_first_longest(tracks, similar, j + 1, c, used);
        } else {
            let c2 = merge_choice(tracks, c, j);
            let used2 = used.update(j, true);
            lemma_merge_keeps_first_longest(tracks, similar, j + 1, c2, used2);
            let r = merge_scan(tracks, similar, j + 1, c2, used2);
            assert(r == merge_scan(tracks, similar, j, c, used));
            assert(used2[j]);
            assert(r.1[j]);
            assert forall|k: int| 0 <= k < tracks.len() && used[k] implies #[trigger] r.1[k] by {
                assert(used2[k]);
            }
            assert forall|k: int|
                0 <= k < tracks.len() && #[trigger] r.1[k] && !used[k] implies tracks[k].len()
                    <= tracks[r.0].len() && (tracks[k].len() == tracks[r.0].len() ==> r.0 <= k) by {
                if k != j {
                    assert(!used2[k]);
                }
            }
        }
    }
}

/// Merges nearby tracks; see `merge_nearby`.
pub fn merge_nearby_tracks_rust<T: Copy>(tracks: &Vec<Vec<T>>, similar: &Vec<Vec<bool>>) -> (merged:
    Vec<Vec<T>>)
    requires
        square(similar@.map_values(|r: Vec<bool>| r@), tracks@.len()),
    ensures
        merged@.map_values(|t: Vec<T>| t@) == merge_nearby(
            tracks@.map_values(|t: Vec<T>| t@),
            similar@.map_values(|r: Vec<bool>| r@),
        ),
{
    let ghost ts = tracks@.map_values(|t: Vec<T>| t@);
    let ghost sim = similar@.map_values(|r: Vec<bool>| r@);
    let n = tracks.len();
    let mut used: Vec<bool> = Vec::new();
    while used.len() < n
        invariant
            used@.len() <= n,
            forall|k: int| 0 <= k < used@.len() ==> !used@[k],
        decreases n - used@.len(),
    {
        used.push(false);
    }
    assert(used@ =~= Seq::new(ts.len(), |k: int| false));
    let mut merged: Vec<Vec<T>> = Vec::new();
    let mut i: usize = 0;
    while i < n
        invariant
            n == ts.len(),
            ts == tracks@.map_values(|t: Vec<T>| t@),
            sim == similar@.map_values(|r: Vec<bool>| r@),
            square(sim, n as nat),
            i <= n,
            used@.len() == n,
            merge_nearby(ts, sim) == merged@.map_values(|t: Vec<T>| t@) + merge_from(
                ts,
                sim,
                i as int,
                used@,
            ),
        decreases n - i,
    {
        let ghost before = merged@.map_values(|t: Vec<T>| t@);
        if used[i] {
            i = i + 1;
            continue;
        }
        used.set(i, true);
        let ghost start = used@;
        let mut current: usize = i;
        let mut j: usize = i + 1;
        while j < n
            invariant
                n == ts.len(),
                ts == tracks@.map_values(|t: Vec<T>| t@),
                sim == similar@.map_values(|r: Vec<bool>| r@),
                square(sim, n as nat),
                i < j <= n,
                current < n,
                used@.len() == n,
                merge_scan(ts, sim, i + 1, i as int, start) == merge_scan(
                    ts,
                    sim,
                    j as int,
                    current as int,
                    used@,
                ),
            decreases n - j,
        {
            if !used[j] {
                assert(sim[current as int][j as int] == similar[current as int]@[j as int]);
                if similar[current][j] {
                    if tracks[current].len() < tracks[j].len() {
                        current = j;
                    }
                    used.set(j, true);
                }
            }
            j = j + 1;
        }
        let ghost r = merge_scan(ts, sim, i + 1, i as int, start);
        let kept = copy_track(&tracks[current]);
        merged.push(kept);
        assert(merged@.map_values(|t: Vec<T>| t@) =~= before + seq![ts[r.0]]);
        assert(before + (seq![ts[r.0]] + merge_from(ts, sim, i + 1, r.1)) =~= before + seq![
            ts[r.0],
        ] + merge_from(ts, sim, i + 1, r.1));
        i = i + 1;
    }
    assert(merged@.map_values(|t: Vec<T>| t@) + Seq::<Seq<T>>::empty() =~= merged@.map_values(
        |t: Vec<T>| t@,
    ));
    merged
}

// ---------------------------------------------------------------------------
// Clustering alike tracks
// ---------------------------------------------------------------------------

/// Collects into the cluster of track `i` every track from `j` on that is
/// not yet assigned and alike to track `i` (and assigns it).
pub open spec fn cluster_scan(
    similar: Seq<Seq<bool>>,
    i: int,
    j: int,
    members: Seq<u32>,
    assigned: Seq<bool>,
) -> (Seq<u32>, Seq<bool>)
    decreases similar.len() - j,
{
    if j < 0 || j >= similar.len() {
        (members, assigned)
    } else if assigned[j] {
        cluster_scan(similar, i, j + 1, members, assigned)
    } else if similar[i][j] {
        cluster_scan(similar, i, j + 1, members.push(j as u32), assigned.update(j, true))
    } else {
        cluster_scan(similar, i, j + 1, members, assigned)
    }
}

/// The clusters from track `i` on: each track not yet assigned leads a
/// cluster of itself and the later tracks alike to it.
pub open spec fn cluster_from<T>(
    tracks: Seq<Seq<T>>,
    similar: Seq<Seq<bool>>,
    i: int,
    assigned: Seq<bool>,
) -> Seq<(Seq<T>, Seq<u32>)>
    decreases tracks.len() - i,
{
    if i < 0 || i >= tracks.len() {
        Seq::empty()
    } else if assigned[i] {
        cluster_from(tracks, similar, i + 1, assigned)
    } else {
        let r = cluster_scan(similar, i, i + 1, seq![i as u32], assigned.update(i, true));
        seq![(tracks[i], r.0)] + cluster_from(tracks, similar, i + 1, r.1)
    }
}

/// Tracks clustered by likeness, `similar[a][b]` telling whether track `b`
/// is alike enough to track `a`: each cluster's leading track and the indices
/// of its members, the leader first.
pub open spec fn cluster_by_similarity<T>(tracks: Seq<Seq<T>>, similar: Seq<Seq<bool>>) -> Seq<
    (Seq<T>, Seq<u32>),
> {
    cluster_from(tracks, similar, 0, Seq::new(tracks.len(), |k: int| false))
}

/// A cluster as plain values.
pub open spec fn cluster_view<T>(c: (Vec<T>, Vec<u32>)) -> (Seq<T>, Seq<u32>) {
    (c.0@, c.1@)
}

/// How many times `x` occurs in `s`.
pub open spec fn count_of(s: Seq<u32>, x: u32) -> nat
    decreases s.len(),
{
    if s.len() == 0 {
        0
    } else {
        count_of(s.drop_last(), x) + if s.last() == x {
            1nat
        } else {
            0nat
        }
    }
}

/// The members of all clusters, cluster after cluster.
pub open spec fn all_members<T>(clusters: Seq<(Seq<T>, Seq<u32>)>) -> Seq<u32>
    decreases clusters.len(),
{
    if clusters.len() == 0 {
        Seq::empty()
    } else {
        clusters[0].1 + all_members(clusters.drop_first())
    }
}

proof fn lemma_count_of_add(a: Seq<u32>, b: Seq<u32>, x: u32)
    ensures
        count_of(a + b, x) == count_of(a, x) + count_of(b, x),
    decreases b.len(),
{
    if b.len() > 0 {
        assert((a + b).drop_last() =~= a + b.drop_last());
        lemma_count_of_add(a, b.drop_last(), x);
    } else {
        assert(a + b =~= a);
    }
}

proof fn lemma_count_of_single(v: u32, x: u32)
    ensures
        count_of(seq![v], x) == if v == x {
            1nat
        } else {
            0nat
        },
{
    assert(seq![v].drop_last() =~= Seq::<u32>::empty());
    assert(count_of(Seq::<u32>::empty(), x) == 0);
}

/// Whether `k` joins the cluster of track `i` in a scan from `j` on.
pub open spec fn joins(similar: Seq<Seq<bool>>, i: int, j: int, assigned: Seq<bool>, k: int) -> bool {
    j <= k < similar.len() && !assigned[k] && similar[i][k]
}

proof fn lemma_cluster_scan_counts(
    similar: Seq<Seq<bool>>,
    i: int,
    j: int,
    members: Seq<u32>,
    assigned: Seq<bool>,
)
    requires
        square(similar, similar.len()),
        0 <= i < similar.len(),
        0 <= j,
        similar.len() <= 0x1_0000_0000,
        assigned.len() == similar.len(),
    ensures
        ({
            let r = cluster_scan(similar, i, j, members, assigned);
            &&& r.1.len() == assigned.len()
            &&& forall|k: int|
                0 <= k < similar.len() ==> #[trigger] r.1[k] == (assigned[k] || joins(
                    similar,
                    i,
                    j,
                    assigned,
                    k,
                ))
            &&& forall|k: int|
                0 <= k < similar.len() ==> #[trigger] count_of(r.0, k as u32) == count_of(
                    members,
                    k as u32,
                ) + if joins(similar, i, j, assigned, k) {
                    1nat
                } else {
                    0nat
                }
            &&& forall|x: u32| x >= similar.len() ==> #[trigger] count_of(r.0, x) == count_of(
                members,
                x,
            )
        }),
    decreases similar.len() - j,
{
    let n = similar.len() as int;
    if j < n {
        if !assigned[j] && similar[i][j] {
            let m2 = members.push(j as u32);
            let a2 = assigned.update(j, true);
            lemma_cluster_scan_counts(similar, i, j + 1, m2, a2);
            assert(m2.drop_last() == members);
            assert forall|k: int| 0 <= k < n implies #[trigger] count_of(m2, k as u32) == count_of(
                members,
                k as u32,
            ) + if k == j {
                1nat
            } else {
                0nat
            } by {
                if k != j {
                    assert((k as u32) != (j as u32));
                }
            }
        } else {
            lemma_cluster_scan_counts(similar, i, j + 1, members, assigned);
        }
    }
}

proof fn lemma_cluster_from_partition<T>(
    tracks: Seq<Seq<T>>,
    similar: Seq<Seq<bool>>,
    i: int,
    assigned: Seq<bool>,
)
    requires
        square(similar, tracks.len()),
        tracks.len() <= 0x1_0000_0000,
        0 <= i <= tracks.len(),
        assigned.len() == tracks.len(),
    ensures
        forall|k: int|
            0 <= k < tracks.len() ==> #[trigger] count_of(
                all_members(cluster_from(tracks, similar, i, assigned)),
                k as u32,
            ) == if k >= i && !assigned[k] {
                1nat
            } else {
                0nat
            },
        forall|x: u32|
            x >= tracks.len() ==> #[trigger] count_of(
                all_members(cluster_from(tracks, similar, i, assigned)),
                x,
            ) == 0,
    decreases tracks.len() - i,
{
    let n = tracks.len() as int;
    let cs = cluster_from(tracks, similar, i, assigned);
    if i == n {
        assert(cs.len() == 0);
        assert(all_members(cs) =~= Seq::<u32>::empty());
        assert forall|x: u32| true implies #[trigger] count_of(all_members(cs), x) == 0 by {
            assert(all_members(cs).len() == 0);
        }
    } else if assigned[i] {
        lemma_cluster_from_partition(tracks, similar, i + 1, assigned);
        assert(cs == cluster_from(tracks, similar, i + 1, assigned));
    } else {
        let a1 = assigned.update(i, true);
        let start = seq![i as u32];
        let r = cluster_scan(similar, i, i + 1, start, a1);
        lemma_cluster_scan_counts(similar, i, i + 1, start, a1);
        lemma_cluster_from_partition(tracks, similar, i + 1, r.1);
        let rest = cluster_from(tracks, similar, i + 1, r.1);
        assert(cs == seq![(tracks[i], r.0)] + rest);
        assert(cs.drop_first() =~= rest);
        assert(all_members(cs) == r.0 + all_members(rest));
        assert(start.drop_last() =~= Seq::<u32>::empty());
        assert forall|k: int| 0 <= k < n implies #[trigger] count_of(all_members(cs), k as u32) == if k
            >= i && !assigned[k] {
            1nat
        } else {
            0nat
        } by {
            lemma_count_of_add(r.0, all_members(rest), k as u32);
            if k != i {
                assert((k as u32) != (i as u32));
            }
            lemma_count_of_single(i as u32, k as u32);
            assert(count_of(start, k as u32) == if k == i {
                1nat
            } else {
                0nat
            });
            let c0 = count_of(r.0, k as u32);
            let c1 = count_of(all_members(rest), k as u32);
            let b = r.1[k];
            assert(a1[k] == (k == i || assigned[k]));
        }
        assert forall|x: u32| x >= n implies #[trigger] count_of(all_members(cs), x) == 0 by {
            lemma_count_of_add(r.0, all_members(rest), x);
            lemma_count_of_single(i as u32, x);
            assert(count_of(start, x) == 0);
            let c0 = count_of(r.0, x);
            let c1 = count_of(all_members(rest), x);
        }
    }
}

/// Clustering places every track in exactly one cluster: each track index
/// occurs exactly once among the members of all clusters, and nothing else
/// does (for at most 2^32 tracks, whose indices fit in a `u32`).
pub proof fn lemma_clusters_partition<T>(tracks: Seq<Seq<T>>, similar: Seq<Seq<bool>>)
    requires
        square(similar, tracks.len()),
        tracks.len() <= 0x1_0000_0000,
    ensures
        forall|k: int|
            0 <= k < tracks.len() ==> #[trigger] count_of(
                all_members(cluster_by_similarity(tracks, similar)),
                k as u32,
            ) == 1,
        forall|x: u32|
            x >= tracks.len() ==> #[trigger] count_of(
                all_members(cluster_by_similarity(tracks, similar)),
                x,
            ) == 0,
{
    lemma_cluster_from_partition(tracks, similar, 0, Seq::new(tracks.len(), |k: int| false));
}

proof fn lemma_cluster_scan_keeps_first(
    similar: Seq<Seq<bool>>,
    i: int,
    j: int,
    members: Seq<u32>,
    assigned: Seq<bool>,
)
    requires
        members.len() >= 1,
    ensures
        cluster_scan(similar, i, j, members, assigned).0.len() >= 1,
        cluster_scan(similar, i, j, members, assigned).0[0] == members[0],
    decreases similar.len() - j,
{
    if 0 <= j < similar.len() {
        if !assigned[j] && similar[i][j] {
            lemma_cluster_scan_keeps_first(
                similar,
                i,
                j + 1,
                members.push(j as u32),
                assigned.update(j, true),
            );
        } else {
            lemma_cluster_scan_keeps_first(similar, i, j + 1, members, assigned);
        }
    }
}

proof fn lemma_cluster_from_leaders<T>(
    tracks: Seq<Seq<T>>,
    similar: Seq<Seq<bool>>,
    i: int,
    assigned: Seq<bool>,
)
    requires
        0 <= i,
        tracks.len() <= 0x1_0000_0000,
    ensures
        forall|c: int|
            0 <= c < cluster_from(tracks, similar, i, assigned).len() ==> {
                let e = #[trigger] cluster_from(tracks, similar, i, assigned)[c];
                &&& e.1.len() >= 1
                &&& 0 <= e.1[0] < tracks.len()
                &&& e.0 == tracks[e.1[0] as int]
            },
    decreases tracks.len() - i,
{
    if i < tracks.len() {
        if assigned[i] {
            lemma_cluster_from_leaders(tracks, similar, i + 1, assigned);
            assert(cluster_from(tracks, similar, i, assigned) == cluster_from(
                tracks,
                similar,
                i + 1,
                assigned,
            ));
        } else {
            let r = cluster_scan(similar, i, i + 1, seq![i as u32], assigned.update(i, true));
            lemma_cluster_scan_keeps_first(
                similar,
                i,
                i + 1,
                seq![i as u32],
                assigned.update(i, true),
            );
            lemma_cluster_from_leaders(tracks, similar, i + 1, r.1);
            let rest = cluster_from(tracks, similar, i + 1, r.1);
            let cs = cluster_from(tracks, similar, i, assigned);
            assert(cs == seq![(tracks[i], r.0)] + rest);
            assert forall|c: int| 0 <= c < cs.len() implies {
                let e = #[trigger] cs[c];
                &&& e.1.len() >= 1
                &&& 0 <= e.1[0] < tracks.len()
                &&& e.0 == tracks[e.1[0] as int]
            } by {
                if c > 0 {
                    assert(cs[c] == rest[c - 1]);
                } else {
                    assert(cs[0] == (tracks[i], r.0));
                    assert(r.0[0] == i as u32);
                    assert((i as u32) as int == i);
                }
            }
        }
    }
}

/// Every cluster is led by a track: its first member is that track's index,
/// and the cluster carries that track.
pub proof fn lemma_cluster_leaders<T>(tracks: Seq<Seq<T>>, similar: Seq<Seq<bool>>)
    requires
        tracks.len() <= 0x1_0000_0000,
    ensures
        forall|c: int|
            0 <= c < cluster_by_similarity(tracks, similar).len() ==> {
                let e = #[trigger] cluster_by_similarity(tracks, similar)[c];
                &&& e.1.len() >= 1
                &&& 0 <= e.1[0] < tracks.len()
                &&& e.0 == tracks[e.1[0] as int]
            },
{
    lemma_cluster_from_leaders(tracks, similar, 0, Seq::new(tracks.len(), |k: int| false));
}

/// Clusters tracks by likeness; see `cluster_by_similarity`.
pub fn cluster_tracks_by_similarity_rust<T: Copy>(
    tracks: &Vec<Vec<T>>,
    similar: &Vec<Vec<bool>>,
) -> (clusters: Vec<(Vec<T>, Vec<u32>)>)
    requires
        square(similar@.map_values(|r: Vec<bool>| r@), tracks@.len()),
    ensures
        clusters@.map_values(|c: (Vec<T>, Vec<u32>)| cluster_view(c)) == cluster_by_similarity(
            tracks@.map_values(|t: Vec<T>| t@),
            similar@.map_values(|r: Vec<bool>| r@),
        ),
{
    let ghost ts = tracks@.map_values(|t: Vec<T>| t@);
    let ghost sim = similar@.map_values(|r: Vec<bool>| r@);
    let n = tracks.len();
    let mut assigned: Vec<bool> = Vec::new();
    while assigned.len() < n
        invariant
            assigned@.len() <= n,
            forall|k: int| 0 <= k < assigned@.len() ==> !assigned@[k],
        decreases n - assigned@.len(),
    {
        assigned.push(false);
    }
    assert(assigned@ =~= Seq::new(ts.len(), |k: int| false));
    let mut clusters: Vec<(Vec<T>, Vec<u32>)> = Vec::new();
    let mut i: usize = 0;
    while i < n
        invariant
            n == ts.len(),
            ts == tracks@.map_values(|t: Vec<T>| t@),
            sim == similar@.map_values(|r: Vec<bool>| r@),
            square(sim, n as nat),
            i <= n,
            assigned@.len() == n,
            cluster_by_similarity(ts, sim) == clusters@.map_values(
                |c: (Vec<T>, Vec<u32>)| cluster_view(c),
            ) + cluster_from(ts, sim, i as int, assigned@),
        decreases n - i,
    {
        let ghost before = clusters@.map_values(|c: (Vec<T>, Vec<u32>)| cluster_view(c));
        if assigned[i] {
            i = i + 1;
            continue;
        }
        let mut members: Vec<u32> = Vec::new();
        members.push(i as u32);
        assigned.set(i, true);
        let ghost start = assigned@;
        assert(members@ =~= seq![i as u32]);
        let mut j: usize = i + 1;
        while j < n
            invariant
                n == ts.len(),
                n == sim.len(),
                sim == similar@.map_values(|r: Vec<bool>| r@),
                square(sim, n as nat),
                i < j <= n,
                assigned@.len() == n,
                cluster_scan(sim, i as int, i + 1, seq![i as u32], start) == cluster_scan(
                    sim,
                    i as int,
                    j as int,
                    members@,
                    assigned@,
                ),
            decreases n - j,
        {
            if !assigned[j] {
                assert(sim[i as int][j as int] == similar[i as int]@[j as int]);
                if similar[i][j] {
                    members.push(j as u32);
                    assigned.set(j, true);
                }
            }
            j = j + 1;
        }
        let ghost r = cluster_scan(sim, i as int, i + 1, seq![i as u32], start);
        let leader = copy_track(&tracks[i]);
        let ghost entry = (ts[i as int], r.0);
        clusters.push((leader, members));
        assert(clusters@.map_values(|c: (Vec<T>, Vec<u32>)| cluster_view(c)) =~= before + seq![
            entry,
        ]);
        assert(before + (seq![entry] + cluster_from(ts, sim, i + 1, r.1)) =~= before + seq![entry]
            + cluster_from(ts, sim, i + 1, r.1));
        i = i + 1;
    }
    assert(clusters@.map_values(|c: (Vec<T>, Vec<u32>)| cluster_view(c)) + Seq::<
        (Seq<T>, Seq<u32>),
    >::empty() =~= clusters@.map_values(|c: (Vec<T>, Vec<u32>)| cluster_view(c)));
    clusters
}

} // verus!
