//! What a track file is and what it holds: GPX files are read by the `gpx`
//! crate, FIT files by this library's own reader.
use vstd::prelude::*;
use crate::fit::{fit_parse, fit_signature, is_fit_file, FitParser, FitParserView};

verus! {

/// One track of a GPX file: its name, its description, and the number of
/// points of each of its segments.
pub struct GpxTrack {
    pub name: Option<String>,
    pub description: Option<String>,
    pub segment_sizes: Vec<usize>,
}

/// What this library reads of a GPX file: the creator, the version (as
/// `GpxVersion` prints with `{:?}`), and the tracks.
pub struct GpxSummary {
    pub creator: Option<String>,
    pub version: String,
    pub tracks: Vec<GpxTrack>,
}

/// A GPX track as plain values: name, description, points per segment.
pub type GpxTrackView = (Option<Seq<char>>, Option<Seq<char>>, Seq<nat>);

/// A GPX file as plain values: creator, version, tracks.
pub type GpxSummaryView = (Option<Seq<char>>, Seq<char>, Seq<GpxTrackView>);

/// An optional string as an optional sequence of characters.
pub open spec fn opt_text(o: Option<String>) -> Option<Seq<char>> {
    match o {
        Some(s) => Some(s@),
        None => None,
    }
}

impl View for GpxTrack {
    type V = GpxTrackView;

    open spec fn view(&self) -> GpxTrackView {
        (
            opt_text(self.name),
            opt_text(self.description),
            self.segment_sizes@.map_values(|n: usize| n as nat),
        )
    }
}

impl View for GpxSummary {
    type V = GpxSummaryView;

    open spec fn view(&self) -> GpxSummaryView {
        (opt_text(self.creator), self.version@, self.tracks@.map_values(|t: GpxTrack| t@))
    }
}

/// What `gpx::read` makes of a byte buffer, or `None` where it fails.
pub uninterp spec fn spec_gpx_read(bytes: Seq<u8>) -> Option<GpxSummaryView>;

/// Reads a GPX document with `gpx::read`. The contract claims that the
/// result is `Some` exactly when `gpx::read` returns `Ok`, and that it is
/// then the creator, the version formatted with `{:?}`, and for each track
/// its name, its description and `points.len()` of each segment; the parse
/// itself is named `spec_gpx_read` and not described.
#[verifier::external_body]
fn read_gpx(bytes: &[u8]) -> (r: Option<GpxSummary>)
    ensures
        r is Some <==> spec_gpx_read(bytes@) is Some,
        r matches Some(s) ==> s@ == spec_gpx_read(bytes@)->0,
{
    match ::gpx::read(bytes) {
        Ok(g) => Some(GpxSummary {
            creator: g.creator,
            version: format!("{:?}", g.version),
            tracks: g.tracks.into_iter().map(|t| GpxTrack {
                name: t.name,
                description: t.description,
                segment_sizes: t.segments.iter().map(|s| s.points.len()).collect(),
            }).collect(),
        }),
        Err(_) => None,
    }
}

/// The kind of a track file.
#[derive(Clone, Copy, Debug, PartialEq, Eq, Structural)]
pub enum FileFormat {
    Gpx,
    Fit,
    Unknown,
}

/// A summary of a track file.
#[derive(Clone, Copy, Debug, PartialEq, Eq, Structural)]
pub struct FileInfo {
    pub format: FileFormat,
    pub track_count: u32,
    pub point_count: u32,
    pub valid: bool,
    pub file_size: u32,
}

/// The points of a track, each segment counted as its size cut to 32 bits.
pub open spec fn segment_points(sizes: Seq<nat>) -> int
    decreases sizes.len(),
{
    if sizes.len() == 0 {
        0
    } else {
        segment_points(sizes.drop_last()) + (sizes.last() as u32) as int
    }
}

/// The points of all tracks.
pub open spec fn gpx_points(tracks: Seq<GpxTrackView>) -> int
    decreases tracks.len(),
{
    if tracks.len() == 0 {
        0
    } else {
        gpx_points(tracks.drop_last()) + segment_points(tracks.last().2)
    }
}

/// The summary of a GPX file with these tracks and this size.
pub open spec fn gpx_info(tracks: Seq<GpxTrackView>, file_size: u32) -> FileInfo {
    FileInfo {
        format: FileFormat::Gpx,
        track_count: #[verifier::truncate] (tracks.len() as u32),
        point_count: gpx_points(tracks) as u32,
        valid: true,
        file_size,
    }
}

/// A reader at the start of `data`, with no definitions.
pub open spec fn fresh_reader(data: Seq<u8>) -> FitParserView {
    FitParserView { data, pos: 0, defs: Map::empty() }
}

/// The summary of a file that `gpx::read` refused.
pub open spec fn non_gpx_info(data: Seq<u8>) -> FileInfo {
    if fit_signature(data) {
        FileInfo {
            format: FileFormat::Fit,
            track_count: 1,
            point_count: fit_parse(fresh_reader(data)).0.len() as u32,
            valid: true,
            file_size: data.len() as u32,
        }
    } else {
        FileInfo {
            format: FileFormat::Unknown,
            track_count: 0,
            point_count: 0,
            valid: false,
            file_size: data.len() as u32,
        }
    }
}

proof fn lemma_segment_points_nonneg(s: Seq<nat>)
    ensures
        segment_points(s) >= 0,
    decreases s.len(),
{
    if s.len() > 0 {
        lemma_segment_points_nonneg(s.drop_last());
    }
}

proof fn lemma_segment_points_step(s: Seq<nat>, j: int)
    requires
        0 <= j < s.len(),
    ensures
        segment_points(s.take(j + 1)) == segment_points(s.take(j)) + (s[j] as u32) as int,
{
    assert(s.take(j + 1).drop_last() =~= s.take(j));
}

proof fn lemma_segment_points_prefix(s: Seq<nat>, j: int)
    requires
        0 <= j <= s.len(),
    ensures
        segment_points(s.take(j)) <= segment_points(s),
    decreases s.len() - j,
{
    if j < s.len() {
        lemma_segment_points_step(s, j);
        lemma_segment_points_prefix(s, j + 1);
    } else {
        assert(s.take(j) =~= s);
    }
}

proof fn lemma_gpx_points_step(ts: Seq<GpxTrackView>, i: int)
    requires
        0 <= i < ts.len(),
    ensures
        gpx_points(ts.take(i + 1)) == gpx_points(ts.take(i)) + segment_points(ts[i].2),
{
    assert(ts.take(i + 1).drop_last() =~= ts.take(i));
}

proof fn lemma_gpx_points_prefix(ts: Seq<GpxTrackView>, i: int)
    requires
        0 <= i <= ts.len(),
    ensures
        gpx_points(ts.take(i)) <= gpx_points(ts),
    decreases ts.len() - i,
{
    if i < ts.len() {
        lemma_gpx_points_step(ts, i);
        lemma_segment_points_nonneg(ts[i].2);
        lemma_gpx_points_prefix(ts, i + 1);
    } else {
        assert(ts.take(i) =~= ts);
    }
}

/// The summary of a GPX file read as `summary`: its tracks, and all their
/// points; `None` where the point count passes `u32::MAX`.
pub fn gpx_file_info(summary: &GpxSummary, file_size: u32) -> (r: Option<FileInfo>)
    ensures
        r is None <==> gpx_points(summary@.2) > u32::MAX,
        r matches Some(info) ==> info == gpx_info(summary@.2, file_size),
{
    let tracks = &summary.tracks;
    let ghost ts = summary@.2;
    let mut total: u32 = 0;
    let mut i: usize = 0;
    while i < tracks.len()
        invariant
            ts == summary@.2,
            ts == tracks@.map_values(|t: GpxTrack| t@),
            i <= ts.len(),
            total == gpx_points(ts.take(i as int)),
        decreases ts.len() - i,
    {
        let sizes = &tracks[i].segment_sizes;
        let ghost s = ts[i as int].2;
        assert(s == sizes@.map_values(|n: usize| n as nat));
        let mut j: usize = 0;
        while j < sizes.len()
            invariant
                ts == summary@.2,
                ts == tracks@.map_values(|t: GpxTrack| t@),
                i < ts.len(),
                s == ts[i as int].2,
                s == sizes@.map_values(|n: usize| n as nat),
                j <= s.len(),
                total == gpx_points(ts.take(i as int)) + segment_points(s.take(j as int)),
            decreases s.len() - j,
        {
            let n = #[verifier::truncate] (sizes[j] as u32);
            proof {
                assert(s[j as int] == sizes@[j as int] as nat);
                lemma_segment_points_step(s, j as int);
            }
            match total.checked_add(n) {
                Some(t) => {
                    total = t;
                },
                None => {
                    proof {
                        lemma_segment_points_prefix(s, j + 1);
                        lemma_gpx_points_step(ts, i as int);
                        lemma_gpx_points_prefix(ts, i + 1);
                    }
                    return None;
                },
            }
            j = j + 1;
        }
        proof {
            assert(s.take(j as int) =~= s);
            lemma_gpx_points_step(ts, i as int);
        }
        i = i + 1;
    }
    proof {
        assert(ts.take(i as int) =~= ts);
    }
    Some(FileInfo {
        format: FileFormat::Gpx,
        track_count: #[verifier::truncate] (tracks.len() as u32),
        point_count: total,
        valid: true,
        file_size,
    })
}

/// The kind, track count, point count, validity and size of a track file.
/// A file that `gpx::read` accepts is GPX; else one with the FIT signature
/// is FIT, with one track of the positions the FIT reader finds; else it is
/// unknown and not valid. `None` where the GPX point count passes `u32::MAX`.
pub fn get_file_info(file_bytes: Vec<u8>) -> (r: Option<FileInfo>)
    ensures
        match spec_gpx_read(file_bytes@) {
            Some(g) => {
                &&& r is None <==> gpx_points(g.2) > u32::MAX
                &&& r matches Some(info) ==> info == gpx_info(g.2, file_bytes@.len() as u32)
            },
            None => r == Some(non_gpx_info(file_bytes@)),
        },
{
    let file_size = file_bytes.len() as u32;
    match read_gpx(file_bytes.as_slice()) {
        Some(summary) => gpx_file_info(&summary, file_size),
        None => {
            if is_fit_file(file_bytes.as_slice()) {
                let ghost data = file_bytes@;
                let mut parser = FitParser::new(file_bytes);
                assert(parser@ == fresh_reader(data));
                let coordinates = parser.parse_gps_coordinates();
                Some(FileInfo {
                    format: FileFormat::Fit,
                    track_count: 1,
                    point_count: coordinates.len() as u32,
                    valid: true,
                    file_size,
                })
            } else {
                Some(FileInfo {
                    format: FileFormat::Unknown,
                    track_count: 0,
                    point_count: 0,
                    valid: false,
                    file_size,
                })
            }
        },
    }
}

/// The name, description and segment count of one GPX track; a missing name
/// or description is empty.
#[derive(Debug, PartialEq)]
pub struct TrackMetadata {
    pub name: String,
    pub description: String,
    pub segment_count: usize,
}

/// What a track file says of itself.
#[derive(Debug, PartialEq)]
pub enum FileMetadata {
    Gpx { creator: String, version: String, tracks: Vec<TrackMetadata> },
    Fit { file_size: usize },
    Unknown,
}

/// A text, or the empty text where there is none.
pub open spec fn text_or_empty(o: Option<Seq<char>>) -> Seq<char> {
    match o {
        Some(s) => s,
        None => Seq::empty(),
    }
}

/// Whether `m` describes the GPX track `t`.
pub open spec fn describes_track(m: TrackMetadata, t: GpxTrackView) -> bool {
    &&& m.name@ == text_or_empty(t.0)
    &&& m.description@ == text_or_empty(t.1)
    &&& m.segment_count == t.2.len()
}

/// Whether `m` describes the GPX file `g`: creator (empty where missing),
/// version, and each track in order.
pub open spec fn describes_gpx(m: FileMetadata, g: GpxSummaryView) -> bool {
    match m {
        FileMetadata::Gpx { creator, version, tracks } => {
            &&& creator@ == text_or_empty(g.0)
            &&& version@ == g.1
            &&& tracks@.len() == g.2.len()
            &&& forall|i: int| 0 <= i < g.2.len() ==> #[trigger] describes_track(tracks@[i], g.2[i])
        },
        _ => false,
    }
}

fn text_or_empty_of(o: &Option<String>) -> (s: String)
    ensures
        s@ == text_or_empty(opt_text(*o)),
{
    match o {
        Some(t) => t.clone(),
        None => String::new(),
    }
}

/// The metadata of a GPX file read as `summary`.
pub fn gpx_metadata(summary: &GpxSummary) -> (m: FileMetadata)
    ensures
        describes_gpx(m, summary@),
{
    let ghost g = summary@;
    let mut tracks: Vec<TrackMetadata> = Vec::new();
    let mut i: usize = 0;
    while i < summary.tracks.len()
        invariant
            g == summary@,
            i <= summary.tracks@.len(),
            tracks@.len() == i,
            forall|k: int| 0 <= k < i ==> #[trigger] describes_track(tracks@[k], g.2[k]),
        decreases summary.tracks@.len() - i,
    {
        let t = &summary.tracks[i];
        assert(g.2[i as int] == t@);
        let name = text_or_empty_of(&t.name);
        let description = text_or_empty_of(&t.description);
        tracks.push(TrackMetadata { name, description, segment_count: t.segment_sizes.len() });
        assert(describes_track(tracks@[i as int], g.2[i as int]));
        i = i + 1;
    }
    FileMetadata::Gpx {
        creator: text_or_empty_of(&summary.creator),
        version: summary.version.clone(),
        tracks,
    }
}

/// What a track file says of itself: for a file that `gpx::read` accepts,
/// its creator, version and tracks; else, for one with the FIT signature,
/// its size; else nothing.
pub fn extract_file_metadata(file_bytes: Vec<u8>) -> (m: FileMetadata)
    ensures
        match spec_gpx_read(file_bytes@) {
            Some(g) => describes_gpx(m, g),
            None => if fit_signature(file_bytes@) {
                m matches FileMetadata::Fit { file_size } && file_size == file_bytes@.len()
            } else {
                m is Unknown
            },
        },
{
    match read_gpx(file_bytes.as_slice()) {
        Some(summary) => gpx_metadata(&summary),
        None => {
            if is_fit_file(file_bytes.as_slice()) {
                FileMetadata::Fit { file_size: file_bytes.len() }
            } else {
                FileMetadata::Unknown
            }
        },
    }
}

} // verus!
