//! Reader for the positions in FIT activity files.
//!
//! A FIT file is a header followed by records. A definition record fixes,
//! for one of sixteen local message types, the global message number and the
//! list of fields (number, size, base type); a data record carries the field
//! values of a previously defined local type. Positions come as signed 32-bit
//! semicircles (2^31 semicircles = 180 degrees); this reader hands them out
//! as such.
use vstd::prelude::*;
use std::collections::HashMap;

verus! {

broadcast use vstd::std_specs::hash::group_hash_axioms;

/// One field of a message definition: field number, size in bytes, base type.
#[derive(Clone, Copy)]
pub struct FieldDefinition {
    field_def_num: u8,
    size: u8,
    _base_type: u8,
}

/// The layout of the data records of one local message type.
#[derive(Clone)]
pub struct MessageDefinition {
    global_message_number: u16,
    fields: Vec<FieldDefinition>,
}

/// A message definition as plain values: global message number and the
/// fields as (field number, size, base type).
pub struct DefinitionView {
    pub global: u16,
    pub fields: Seq<(u8, u8, u8)>,
}

impl View for FieldDefinition {
    type V = (u8, u8, u8);

    closed spec fn view(&self) -> (u8, u8, u8) {
        (self.field_def_num, self.size, self._base_type)
    }
}

impl View for MessageDefinition {
    type V = DefinitionView;

    closed spec fn view(&self) -> DefinitionView {
        DefinitionView {
            global: self.global_message_number,
            fields: self.fields@.map_values(|f: FieldDefinition| f@),
        }
    }
}

/// A FIT reader over a byte buffer: the buffer, the read position and the
/// definitions seen so far, by local message type.
pub struct FitParser {
    data: Vec<u8>,
    pos: usize,
    message_definitions: HashMap<u8, MessageDefinition>,
}

/// A reader's state as plain values.
pub struct FitParserView {
    pub data: Seq<u8>,
    pub pos: int,
    pub defs: Map<u8, DefinitionView>,
}

impl View for FitParser {
    type V = FitParserView;

    closed spec fn view(&self) -> FitParserView {
        FitParserView {
            data: self.data@,
            pos: self.pos as int,
            defs: self.message_definitions@.map_values(|d: MessageDefinition| d@),
        }
    }
}

/// Whether bytes 8 to 11 of a buffer are ".FIT", the signature of a FIT header.
pub open spec fn fit_signature(data: Seq<u8>) -> bool {
    data.len() >= 12 && data[8] == 0x2e && data[9] == 0x46 && data[10] == 0x49 && data[11] == 0x54
}

/// Whether a byte buffer carries the ".FIT" signature at bytes 8 to 11 of a FIT header.
pub fn is_fit_file(data: &[u8]) -> (res: bool)
    ensures
        res == fit_signature(data@),
{
    data.len() >= 12 && data[8] == 0x2e && data[9] == 0x46 && data[10] == 0x49 && data[11] == 0x54
}

// ---------------------------------------------------------------------------
// Reading little-endian values
// ---------------------------------------------------------------------------

/// A byte read at `pos`, or 0 (and no move) past the end.
pub open spec fn spec_read_u8(data: Seq<u8>, pos: int) -> (int, int) {
    if 0 <= pos < data.len() {
        (data[pos] as int, pos + 1)
    } else {
        (0, pos)
    }
}

/// A little-endian `u16` read at `pos`, or 0 (and no move) when two bytes do not remain.
pub open spec fn spec_read_u16_le(data: Seq<u8>, pos: int) -> (int, int) {
    if 0 <= pos && pos + 1 < data.len() {
        (data[pos] + 256 * data[pos + 1], pos + 2)
    } else {
        (0, pos)
    }
}

/// The little-endian `u32` stored at `pos`.
pub open spec fn le_u32(data: Seq<u8>, pos: int) -> int {
    data[pos] + 256 * data[pos + 1] + 65536 * data[pos + 2] + 16777216 * data[pos + 3]
}

/// A little-endian `u32` read at `pos`, or 0 (and no move) when four bytes do not remain.
pub open spec fn spec_read_u32_le(data: Seq<u8>, pos: int) -> (int, int) {
    if 0 <= pos && pos + 3 < data.len() {
        (le_u32(data, pos), pos + 4)
    } else {
        (0, pos)
    }
}

/// The little-endian `i32` stored at `pos` (two's complement).
pub open spec fn le_i32(data: Seq<u8>, pos: int) -> int {
    let u = le_u32(data, pos);
    if u >= 0x8000_0000 {
        u - 0x1_0000_0000
    } else {
        u
    }
}

fn read_u8(data: &[u8], pos: usize) -> (r: (u8, usize))
    ensures
        (r.0 as int, r.1 as int) == spec_read_u8(data@, pos as int),
{
    if pos < data.len() {
        (data[pos], pos + 1)
    } else {
        (0, pos)
    }
}

fn read_u16_le(data: &[u8], pos: usize) -> (r: (u16, usize))
    ensures
        (r.0 as int, r.1 as int) == spec_read_u16_le(data@, pos as int),
{
    if pos < data.len() && data.len() - pos > 1 {
        ((data[pos] as u16) + 256 * (data[pos + 1] as u16), pos + 2)
    } else {
        (0, pos)
    }
}

fn read_u32_le(data: &[u8], pos: usize) -> (r: (u32, usize))
    ensures
        (r.0 as int, r.1 as int) == spec_read_u32_le(data@, pos as int),
{
    if pos < data.len() && data.len() - pos > 3 {
        let v: u32 = (data[pos] as u32) + 256 * (data[pos + 1] as u32) + 65536 * (data[pos
            + 2] as u32) + 16777216 * (data[pos + 3] as u32);
        (v, pos + 4)
    } else {
        (0, pos)
    }
}

fn read_i32_le(data: &[u8], pos: usize) -> (r: i32)
    requires
        pos + 4 <= data@.len(),
    ensures
        r as int == le_i32(data@, pos as int),
{
    let u: u64 = (data[pos] as u64) + 256 * (data[pos + 1] as u64) + 65536 * (data[pos
        + 2] as u64) + 16777216 * (data[pos + 3] as u64);
    let v: i64 = if u >= 0x8000_0000 {
        u as i64 - 0x1_0000_0000
    } else {
        u as i64
    };
    v as i32
}


// ---------------------------------------------------------------------------
// Definition records
// ---------------------------------------------------------------------------

/// Reads `remaining` field definitions of three bytes each from `p`: the
/// position reached and the fields, or `None` when three bytes do not
/// remain or a field is larger than 100 bytes (its three bytes consumed).
pub open spec fn spec_parse_fields(data: Seq<u8>, p: int, remaining: nat) -> (int, Option<
    Seq<(u8, u8, u8)>,
>)
    decreases remaining,
{
    if remaining == 0 {
        (p, Some(Seq::empty()))
    } else if p < 0 || p + 3 > data.len() {
        (p, None)
    } else {
        let f = (data[p], data[p + 1], data[p + 2]);
        if f.1 > 100 {
            (p + 3, None)
        } else {
            prepend_fields(seq![f], spec_parse_fields(data, p + 3, (remaining - 1) as nat))
        }
    }
}

/// Puts `acc` in front of the fields of a field-reading outcome.
pub open spec fn prepend_fields(acc: Seq<(u8, u8, u8)>, r: (int, Option<Seq<(u8, u8, u8)>>)) -> (
    int,
    Option<Seq<(u8, u8, u8)>>,
) {
    (
        r.0,
        match r.1 {
            Some(fs) => Some(acc + fs),
            None => None,
        },
    )
}

/// Reads the body of a definition record at `pos` (after its header byte):
/// reserved byte, architecture byte, little-endian global message number,
/// field count, then the fields. `None` when fewer than five bytes remain
/// (nothing consumed), when there are more than 100 fields or the fields do
/// not fit in the buffer (five bytes consumed), or when a field is too large.
pub open spec fn spec_parse_definition(data: Seq<u8>, pos: int) -> (int, Option<DefinitionView>) {
    if pos < 0 || pos + 5 > data.len() {
        (pos, None)
    } else {
        let global = data[pos + 2] + 256 * data[pos + 3];
        let num = data[pos + 4];
        let p = pos + 5;
        if num > 100 {
            (p, None)
        } else if p + 3 * num > data.len() {
            (p, None)
        } else {
            let r = spec_parse_fields(data, p, num as nat);
            (
                r.0,
                match r.1 {
                    Some(fs) => Some(DefinitionView { global: global as u16, fields: fs }),
                    None => None,
                },
            )
        }
    }
}

proof fn lemma_parse_fields_bounds(data: Seq<u8>, p: int, remaining: nat)
    requires
        0 <= p <= data.len(),
    ensures
        p <= spec_parse_fields(data, p, remaining).0 <= data.len(),
    decreases remaining,
{
    if remaining > 0 && p + 3 <= data.len() {
        lemma_parse_fields_bounds(data, p + 3, (remaining - 1) as nat);
    }
}

// ---------------------------------------------------------------------------
// Data records carrying positions
// ---------------------------------------------------------------------------

/// Whether a field of `size` bytes can be read at `pos`.
pub open spec fn field_fits(data: Seq<u8>, pos: int, size: int) -> bool {
    size != 0 && pos < data.len() && pos + size <= data.len()
}

/// The position after skipping `size` bytes at `pos`, stopping at the end.
pub open spec fn skip_within(data: Seq<u8>, pos: int, size: int) -> int {
    if data.len() - pos < size {
        data.len() as int
    } else {
        pos + size
    }
}

/// A semicircle value that stands for a position: neither the "invalid"
/// marker 0x7FFFFFFF nor zero.
pub open spec fn is_position_value(raw: int) -> bool {
    raw != 0x7fff_ffff && raw != 0
}

/// A semicircle value whose angle (raw × 180 / 2^31 degrees, exact in `f64`)
/// is at most 90 degrees in magnitude.
pub open spec fn within_latitude(raw: int) -> bool {
    -0x4000_0000 <= raw <= 0x4000_0000
}

/// Walks the fields of a "record" message from `pos`: field 0 of four bytes
/// is the latitude, field 1 of four bytes the longitude, each taken when it
/// is a position value (and, for the latitude, within ±90 degrees); every
/// other field is skipped, and a field that does not fit is skipped up to
/// the end of the buffer.
pub open spec fn spec_record_fields(
    data: Seq<u8>,
    pos: int,
    fields: Seq<(u8, u8, u8)>,
    lat: Option<i32>,
    lon: Option<i32>,
) -> (int, Option<i32>, Option<i32>)
    decreases fields.len(),
{
    if fields.len() == 0 {
        (pos, lat, lon)
    } else {
        let f = fields[0];
        let size = f.1 as int;
        let step: (int, Option<i32>, Option<i32>) = if !field_fits(data, pos, size) {
            (skip_within(data, pos, size), lat, lon)
        } else if f.0 == 0 && size == 4 {
            let raw = le_i32(data, pos);
            (
                pos + 4,
                if is_position_value(raw) && within_latitude(raw) {
                    Some(raw as i32)
                } else {
                    lat
                },
                lon,
            )
        } else if f.0 == 1 && size == 4 {
            let raw = le_i32(data, pos);
            (
                pos + 4,
                lat,
                if is_position_value(raw) {
                    Some(raw as i32)
                } else {
                    lon
                },
            )
        } else {
            (pos + size, lat, lon)
        };
        spec_record_fields(data, step.0, fields.drop_first(), step.1, step.2)
    }
}

/// Both coordinates when both are present.
pub open spec fn both(lat: Option<i32>, lon: Option<i32>) -> Option<(i32, i32)> {
    match (lat, lon) {
        (Some(a), Some(b)) => Some((a, b)),
        _ => None,
    }
}

/// A "record" message (global number 20) at `pos`: the position reached and
/// the (latitude, longitude) pair in semicircles when both were found.
pub open spec fn spec_record_message(data: Seq<u8>, pos: int, fields: Seq<(u8, u8, u8)>) -> (
    int,
    Option<(i32, i32)>,
) {
    let r = spec_record_fields(data, pos, fields, None, None);
    (r.0, both(r.1, r.2))
}

/// Walks the fields of a message of unknown layout: every four-byte field
/// that holds a position value is collected, other fields are skipped.
pub open spec fn spec_flexible_fields(
    data: Seq<u8>,
    pos: int,
    fields: Seq<(u8, u8, u8)>,
    found: Seq<i32>,
) -> (int, Seq<i32>)
    decreases fields.len(),
{
    if fields.len() == 0 {
        (pos, found)
    } else {
        let f = fields[0];
        let size = f.1 as int;
        let step: (int, Seq<i32>) = if !field_fits(data, pos, size) {
            (skip_within(data, pos, size), found)
        } else if size == 4 {
            let raw = le_i32(data, pos);
            (
                pos + 4,
                if is_position_value(raw) {
                    found.push(raw as i32)
                } else {
                    found
                },
            )
        } else {
            (pos + size, found)
        };
        spec_flexible_fields(data, step.0, fields.drop_first(), step.1)
    }
}

/// Picks a latitude and a longitude from candidate values in order: the
/// first candidate within ±90 degrees becomes the latitude; a candidate that
/// is not taken as latitude becomes the longitude when none is set yet and it
/// differs from the latitude chosen so far.
pub open spec fn spec_pick_position(found: Seq<i32>, lat: Option<i32>, lon: Option<i32>) -> (
    Option<i32>,
    Option<i32>,
)
    decreases found.len(),
{
    if found.len() == 0 {
        (lat, lon)
    } else {
        let c = found[0];
        let (lat2, lon2) = if within_latitude(c as int) && lat is None {
            (Some(c), lon)
        } else if lon is None && lat != Some(c) {
            (lat, Some(c))
        } else {
            (lat, lon)
        };
        spec_pick_position(found.drop_first(), lat2, lon2)
    }
}

/// A "GPS metadata" or "course point" like message (global number 18 or 19)
/// at `pos`: the position reached and the pair picked from its values.
pub open spec fn spec_flexible_message(data: Seq<u8>, pos: int, fields: Seq<(u8, u8, u8)>) -> (
    int,
    Option<(i32, i32)>,
) {
    let r = spec_flexible_fields(data, pos, fields, Seq::empty());
    let picked = spec_pick_position(r.1, None, None);
    (r.0, both(picked.0, picked.1))
}

impl FitParser {
    /// Every reader stands within its buffer and holds only definitions whose
    /// fields the scan can add up.
    #[verifier::type_invariant]
    spec fn well_formed(self) -> bool {
        &&& self@.pos <= self@.data.len()
        &&& definitions_bounded(self@.defs)
    }

    /// Reads a definition record body at `pos`.
    fn parse_definition_message(data: &[u8], pos: usize) -> (r: (usize, Option<MessageDefinition>))
        requires
            pos <= data@.len(),
        ensures
            r.0 == spec_parse_definition(data@, pos as int).0,
            match r.1 {
                Some(d) => spec_parse_definition(data@, pos as int).1 == Some(d@),
                None => spec_parse_definition(data@, pos as int).1 is None,
            },
    {
        if data.len() - pos < 5 {
            return (pos, None);
        }
        let global_message_number: u16 = (data[pos + 2] as u16) + 256 * (data[pos + 3] as u16);
        let num_fields = data[pos + 4];
        let mut p = pos + 5;
        if num_fields > 100 {
            return (p, None);
        }
        if data.len() - p < 3 * (num_fields as usize) {
            return (p, None);
        }
        let ghost p0 = p as int;
        let mut fields: Vec<FieldDefinition> = Vec::new();
        let mut k: u8 = 0;
        while k < num_fields
            invariant
                pos + 5 == p0 <= p <= data@.len(),
                k <= num_fields,
                num_fields == data@[pos + 4],
                num_fields <= 100,
                p0 + 3 * num_fields <= data@.len(),
                global_message_number == data@[pos + 2] + 256 * data@[pos + 3],
                spec_parse_fields(data@, p0, num_fields as nat) == prepend_fields(
                    fields@.map_values(|f: FieldDefinition| f@),
                    spec_parse_fields(data@, p as int, (num_fields - k) as nat),
                ),
            decreases num_fields - k,
        {
            let ghost acc = fields@.map_values(|f: FieldDefinition| f@);
            if data.len() - p < 3 {
                assert(spec_parse_fields(data@, p as int, (num_fields - k) as nat) == (
                    p as int,
                    None::<Seq<(u8, u8, u8)>>,
                ));
                return (p, None);
            }
            let ghost old_p = p as int;
            let f = FieldDefinition {
                field_def_num: data[p],
                size: data[p + 1],
                _base_type: data[p + 2],
            };
            p = p + 3;
            if f.size > 100 {
                assert(spec_parse_fields(data@, old_p, (num_fields - k) as nat) == (
                    p as int,
                    None::<Seq<(u8, u8, u8)>>,
                ));
                return (p, None);
            }
            fields.push(f);
            assert(fields@.map_values(|f: FieldDefinition| f@) =~= acc + seq![f@]);
            let ghost r = spec_parse_fields(data@, p as int, (num_fields - k - 1) as nat);
            assert(prepend_fields(acc, prepend_fields(seq![f@], r)) == prepend_fields(
                acc + seq![f@],
                r,
            )) by {
                match r.1 {
                    Some(fs) => {
                        assert(acc + (seq![f@] + fs) =~= acc + seq![f@] + fs);
                    },
                    None => {},
                }
            }
            k = k + 1;
        }
        assert(fields@.map_values(|f: FieldDefinition| f@) + Seq::<(u8, u8, u8)>::empty()
            =~= fields@.map_values(|f: FieldDefinition| f@));
        let d = MessageDefinition { global_message_number, fields };
        (p, Some(d))
    }
}


impl FitParser {
    /// Reads the fields of a "record" message at `pos`.
    fn parse_record_message(data: &[u8], start: usize, definition: &MessageDefinition) -> (r: (
        usize,
        Option<(i32, i32)>,
    ))
        requires
            start <= data@.len(),
        ensures
            (r.0 as int, r.1) == spec_record_message(data@, start as int, definition@.fields),
            r.0 <= data@.len(),
    {
        let ghost all = definition@.fields;
        let mut pos = start;
        let mut lat: Option<i32> = None;
        let mut lon: Option<i32> = None;
        let mut i: usize = 0;
        let n = definition.fields.len();
        assert(all.skip(0) =~= all);
        while i < n
            invariant
                n == definition.fields@.len(),
                all == definition@.fields,
                all.len() == n,
                i <= n,
                pos <= data@.len(),
                spec_record_fields(data@, start as int, all, None, None) == spec_record_fields(
                    data@,
                    pos as int,
                    all.skip(i as int),
                    lat,
                    lon,
                ),
            decreases n - i,
        {
            let f = definition.fields[i];
            assert(all.skip(i as int)[0] == f@);
            assert(all.skip(i as int).drop_first() =~= all.skip(i + 1));
            let size = f.size as usize;
            if f.size == 0 || pos >= data.len() || data.len() - pos < size {
                let remaining = data.len() - pos;
                pos = if remaining < size {
                    data.len()
                } else {
                    pos + size
                };
            } else if f.field_def_num == 0 && f.size == 4 {
                let raw = read_i32_le(data, pos);
                pos = pos + 4;
                if raw != 0x7fff_ffff && raw != 0 && -0x4000_0000 <= raw && raw <= 0x4000_0000 {
                    lat = Some(raw);
                }
            } else if f.field_def_num == 1 && f.size == 4 {
                let raw = read_i32_le(data, pos);
                pos = pos + 4;
                if raw != 0x7fff_ffff && raw != 0 {
                    lon = Some(raw);
                }
            } else {
                pos = pos + size;
            }
            i = i + 1;
        }
        let coord = match (lat, lon) {
            (Some(a), Some(b)) => Some((a, b)),
            _ => None,
        };
        (pos, coord)
    }

    /// Reads the fields of a message of unknown layout at `pos` and picks a
    /// latitude and a longitude from its four-byte values.
    fn parse_flexible_gps_message(data: &[u8], start: usize, definition: &MessageDefinition) -> (r: (
        usize,
        Option<(i32, i32)>,
    ))
        requires
            start <= data@.len(),
        ensures
            (r.0 as int, r.1) == spec_flexible_message(data@, start as int, definition@.fields),
            r.0 <= data@.len(),
    {
        let ghost all = definition@.fields;
        let mut pos = start;
        let mut potential_coords: Vec<i32> = Vec::new();
        let mut i: usize = 0;
        let n = definition.fields.len();
        assert(all.skip(0) =~= all);
        while i < n
            invariant
                n == definition.fields@.len(),
                all == definition@.fields,
                all.len() == n,
                i <= n,
                pos <= data@.len(),
                spec_flexible_fields(data@, start as int, all, Seq::empty())
                    == spec_flexible_fields(data@, pos as int, all.skip(i as int), potential_coords@),
            decreases n - i,
        {
            let f = definition.fields[i];
            assert(all.skip(i as int)[0] == f@);
            assert(all.skip(i as int).drop_first() =~= all.skip(i + 1));
            let size = f.size as usize;
            if f.size == 0 || pos >= data.len() || data.len() - pos < size {
                let remaining = data.len() - pos;
                pos = if remaining < size {
                    data.len()
                } else {
                    pos + size
                };
            } else if f.size == 4 {
                let raw = read_i32_le(data, pos);
                pos = pos + 4;
                if raw != 0x7fff_ffff && raw != 0 {
                    potential_coords.push(raw);
                }
            } else {
                pos = pos + size;
            }
            i = i + 1;
        }
        let ghost found = potential_coords@;
        let mut lat: Option<i32> = None;
        let mut lon: Option<i32> = None;
        let mut j: usize = 0;
        assert(found.skip(0) =~= found);
        while j < potential_coords.len()
            invariant
                found == potential_coords@,
                j <= found.len(),
                spec_pick_position(found, None, None) == spec_pick_position(
                    found.skip(j as int),
                    lat,
                    lon,
                ),
            decreases found.len() - j,
        {
            let c = potential_coords[j];
            assert(found.skip(j as int)[0] == c);
            assert(found.skip(j as int).drop_first() =~= found.skip(j + 1));
            if -0x4000_0000 <= c && c <= 0x4000_0000 && lat.is_none() {
                lat = Some(c);
            } else if lon.is_none() && !(lat == Some(c)) {
                lon = Some(c);
            }
            j = j + 1;
        }
        let coord = match (lat, lon) {
            (Some(a), Some(b)) => Some((a, b)),
            _ => None,
        };
        (pos, coord)
    }
}


// ---------------------------------------------------------------------------
// Scanning records
// ---------------------------------------------------------------------------

/// Sum of the field sizes of a definition: the length of its data records.
pub open spec fn total_size(fields: Seq<(u8, u8, u8)>) -> int
    decreases fields.len(),
{
    if fields.len() == 0 {
        0
    } else {
        fields[0].1 + total_size(fields.drop_first())
    }
}

proof fn lemma_total_size_nonneg(fields: Seq<(u8, u8, u8)>)
    ensures
        total_size(fields) >= 0,
    decreases fields.len(),
{
    if fields.len() > 0 {
        lemma_total_size_nonneg(fields.drop_first());
    }
}

/// Definitions as the reader makes them: at most 100 fields of at most 100 bytes.
pub open spec fn definitions_bounded(defs: Map<u8, DefinitionView>) -> bool {
    forall|k: u8|
        #![trigger defs[k]]
        defs.contains_key(k) ==> {
            &&& defs[k].fields.len() <= 100
            &&& forall|i: int| 0 <= i < defs[k].fields.len() ==> #[trigger] defs[k].fields[i].1 <= 100
        }
}

/// A position that coordinate validation keeps once both values are turned
/// into degrees and rounded to five decimals: not both of them rounding to
/// zero, which is the case exactly when both lie strictly within ±60
/// semicircles (59 semicircles round to 0.00000°, 60 to 0.00001°).
pub open spec fn fit_point_kept(p: (i32, i32)) -> bool {
    !(-60 < p.0 < 60 && -60 < p.1 < 60)
}

/// `coords` with the message's position appended when there is one and it is kept.
pub open spec fn add_point(coords: Seq<(i32, i32)>, c: Option<(i32, i32)>) -> Seq<(i32, i32)> {
    match c {
        Some(p) => if fit_point_kept(p) {
            coords.push(p)
        } else {
            coords
        },
        None => coords,
    }
}

/// The state of the record scan: read position, definitions, positions found,
/// consecutive failures, and where progress was last noted.
pub struct ScanState {
    pub pos: int,
    pub defs: Map<u8, DefinitionView>,
    pub coords: Seq<(i32, i32)>,
    pub errors: int,
    pub progress: int,
}

/// After a record that could not be used: one more consecutive failure; at
/// 100 the scan stops when fewer than 100 positions were found, and otherwise
/// goes on with the count set back to 50. The flag tells whether the scan stops.
pub open spec fn after_failure(st: ScanState) -> (ScanState, bool) {
    let e = st.errors + 1;
    let next = |errors: int|
        ScanState {
            pos: st.pos,
            defs: st.defs,
            coords: st.coords,
            errors: errors,
            progress: st.progress,
        };
    if e >= 100 {
        if st.coords.len() < 100 {
            (next(e), true)
        } else {
            (next(50), false)
        }
    } else {
        (next(e), false)
    }
}

/// One record of the scan at `st.pos` (which lies before the last byte), and
/// whether the scan stops after it. Every 10000 bytes of progress the
/// position is noted, and, past byte 50000 with more than 100 positions
/// found, the failure count is cleared. A header byte with bit 0x40 starts a
/// definition record for local type `header & 0x0f`; other records are data
/// records of that local type: those of global number 20 and of 18 or 19 are
/// read for a position, other records up to 1000 bytes are skipped, and a
/// record that runs past the buffer, or a longer unknown one, ends the scan.
pub open spec fn scan_step(data: Seq<u8>, st: ScanState) -> (ScanState, bool) {
    let noted = st.pos - st.progress > 10000;
    let progress = if noted {
        st.pos
    } else {
        st.progress
    };
    let errors = if noted && st.coords.len() > 100 && st.pos > 50000 {
        0
    } else {
        st.errors
    };
    let header = data[st.pos];
    let pos = st.pos + 1;
    let local = header & 0x0f;
    let at = |p: int, defs: Map<u8, DefinitionView>, coords: Seq<(i32, i32)>, e: int|
        ScanState { pos: p, defs: defs, coords: coords, errors: e, progress: progress };
    if header & 0x40 != 0 {
        let (p2, d) = spec_parse_definition(data, pos);
        match d {
            Some(def) => (at(p2, st.defs.insert(local, def), st.coords, 0), false),
            None => after_failure(at(p2, st.defs, st.coords, errors)),
        }
    } else if st.defs.contains_key(local) {
        let def = st.defs[local];
        let total = total_size(def.fields);
        if pos + total > data.len() {
            (
                at(
                    if total < 1000 {
                        data.len() as int
                    } else {
                        pos
                    },
                    st.defs,
                    st.coords,
                    errors,
                ),
                true,
            )
        } else if def.global == 20 {
            let (p2, c) = spec_record_message(data, pos, def.fields);
            (at(p2, st.defs, add_point(st.coords, c), 0), false)
        } else if def.global == 19 || def.global == 18 {
            let (p2, c) = spec_flexible_message(data, pos, def.fields);
            (at(p2, st.defs, add_point(st.coords, c), 0), false)
        } else if total < 1000 {
            (at(pos + total, st.defs, st.coords, 0), false)
        } else {
            (at(data.len() as int, st.defs, st.coords, errors), true)
        }
    } else {
        after_failure(at(pos, st.defs, st.coords, errors))
    }
}

proof fn lemma_record_fields_bounds(
    data: Seq<u8>,
    pos: int,
    fields: Seq<(u8, u8, u8)>,
    lat: Option<i32>,
    lon: Option<i32>,
)
    requires
        0 <= pos <= data.len(),
    ensures
        pos <= spec_record_fields(data, pos, fields, lat, lon).0 <= data.len(),
    decreases fields.len(),
{
    if fields.len() > 0 {
        let f = fields[0];
        let size = f.1 as int;
        let p2 = if !field_fits(data, pos, size) {
            skip_within(data, pos, size)
        } else if (f.0 == 0 || f.0 == 1) && size == 4 {
            pos + 4
        } else {
            pos + size
        };
        let r = if !field_fits(data, pos, size) {
            (skip_within(data, pos, size), lat, lon)
        } else if f.0 == 0 && size == 4 {
            let raw = le_i32(data, pos);
            (
                pos + 4,
                if is_position_value(raw) && within_latitude(raw) {
                    Some(raw as i32)
                } else {
                    lat
                },
                lon,
            )
        } else if f.0 == 1 && size == 4 {
            let raw = le_i32(data, pos);
            (
                pos + 4,
                lat,
                if is_position_value(raw) {
                    Some(raw as i32)
                } else {
                    lon
                },
            )
        } else {
            (pos + size, lat, lon)
        };
        lemma_record_fields_bounds(data, r.0, fields.drop_first(), r.1, r.2);
    }
}

proof fn lemma_flexible_fields_bounds(
    data: Seq<u8>,
    pos: int,
    fields: Seq<(u8, u8, u8)>,
    found: Seq<i32>,
)
    requires
        0 <= pos <= data.len(),
    ensures
        pos <= spec_flexible_fields(data, pos, fields, found).0 <= data.len(),
    decreases fields.len(),
{
    if fields.len() > 0 {
        let f = fields[0];
        let size = f.1 as int;
        let r: (int, Seq<i32>) = if !field_fits(data, pos, size) {
            (skip_within(data, pos, size), found)
        } else if size == 4 {
            let raw = le_i32(data, pos);
            (
                pos + 4,
                if is_position_value(raw) {
                    found.push(raw as i32)
                } else {
                    found
                },
            )
        } else {
            (pos + size, found)
        };
        lemma_flexible_fields_bounds(data, r.0, fields.drop_first(), r.1);
    }
}

pub proof fn lemma_scan_step_advances(data: Seq<u8>, st: ScanState)
    requires
        0 <= st.pos < data.len(),
    ensures
        st.pos < scan_step(data, st).0.pos <= data.len(),
{
    let pos = st.pos + 1;
    if pos + 5 <= data.len() && data[pos + 4] <= 100 && pos + 5 + 3 * data[pos + 4] <= data.len() {
        lemma_parse_fields_bounds(data, pos + 5, data[pos + 4] as nat);
    }
    let header = data[st.pos];
    let local = header & 0x0f;
    if st.defs.contains_key(local) {
        let fields = st.defs[local].fields;
        lemma_total_size_nonneg(fields);
        lemma_record_fields_bounds(data, pos, fields, None, None);
        lemma_flexible_fields_bounds(data, pos, fields, Seq::empty());
    }
}

/// The record scan from `st` while the position lies before `data_end` and
/// before the last byte of the buffer, up to a record that stops it.
pub open spec fn scan(data: Seq<u8>, data_end: int, st: ScanState) -> ScanState
    decreases data.len() - st.pos,
{
    if st.pos < 0 || !(st.pos < data_end && st.pos + 1 < data.len()) {
        st
    } else {
        let r = scan_step(data, st);
        proof {
            lemma_scan_step_advances(data, st);
        }
        if r.1 {
            r.0
        } else {
            scan(data, data_end, r.0)
        }
    }
}

/// Reading a FIT buffer from the reader's state: unless the buffer is
/// shorter than 14 bytes, read the header size (at least 12), protocol and
/// profile versions, the little-endian data size and the ".FIT" signature;
/// with a 14-byte header skip its checksum; then scan records up to the
/// larger of (start + data size, capped at the buffer's end) and the
/// buffer's end less its two-byte checksum. The positions found (semicircles,
/// latitude first) and the reader's state afterwards.
pub open spec fn fit_parse(v: FitParserView) -> (Seq<(i32, i32)>, FitParserView) {
    let data = v.data;
    let len = data.len() as int;
    let none = Seq::<(i32, i32)>::empty();
    let moved = |p: int| FitParserView { data: data, pos: p, defs: v.defs };
    if len < 14 {
        (none, v)
    } else {
        let (header_size, p1) = spec_read_u8(data, v.pos);
        if header_size < 12 {
            (none, moved(p1))
        } else {
            let (_, p2) = spec_read_u8(data, p1);
            let (_, p3) = spec_read_u16_le(data, p2);
            let (data_size, p4) = spec_read_u32_le(data, p3);
            let (s0, p5) = spec_read_u8(data, p4);
            let (s1, p6) = spec_read_u8(data, p5);
            let (s2, p7) = spec_read_u8(data, p6);
            let (s3, p8) = spec_read_u8(data, p7);
            if !(s0 == 0x2e && s1 == 0x46 && s2 == 0x49 && s3 == 0x54) {
                (none, moved(p8))
            } else {
                let p9 = if header_size == 14 {
                    if len - p8 < 2 {
                        len
                    } else {
                        p8 + 2
                    }
                } else {
                    p8
                };
                let capped = if p9 + data_size < len {
                    p9 + data_size
                } else {
                    len
                };
                let data_end = if capped > len - 2 {
                    capped
                } else {
                    len - 2
                };
                let fin = scan(
                    data,
                    data_end,
                    ScanState { pos: p9, defs: v.defs, coords: none, errors: 0, progress: p9 },
                );
                (fin.coords, FitParserView { data: data, pos: fin.pos, defs: fin.defs })
            }
        }
    }
}


proof fn lemma_parse_fields_bounded(data: Seq<u8>, p: int, remaining: nat)
    ensures
        spec_parse_fields(data, p, remaining).1 matches Some(fs) ==> {
            &&& fs.len() == remaining
            &&& forall|i: int| 0 <= i < fs.len() ==> #[trigger] fs[i].1 <= 100
        },
    decreases remaining,
{
    if remaining > 0 && 0 <= p && p + 3 <= data.len() {
        lemma_parse_fields_bounded(data, p + 3, (remaining - 1) as nat);
        let f = (data[p], data[p + 1], data[p + 2]);
        if let Some(fs) = spec_parse_fields(data, p, remaining).1 {
            let rest = spec_parse_fields(data, p + 3, (remaining - 1) as nat).1->0;
            assert(fs == seq![f] + rest);
            assert forall|i: int| 0 <= i < fs.len() implies #[trigger] fs[i].1 <= 100 by {
                if i > 0 {
                    assert(fs[i] == rest[i - 1]);
                }
            }
        }
    }
}

/// The definitions of a reader, as plain values.
pub open spec fn definitions_view(m: Map<u8, MessageDefinition>) -> Map<u8, DefinitionView> {
    m.map_values(|d: MessageDefinition| d@)
}

/// The scan state that the reader's loop variables stand for.
spec fn scan_state_of(
    pos: usize,
    defs: Map<u8, MessageDefinition>,
    coords: Seq<(i32, i32)>,
    errors: usize,
    progress: usize,
) -> ScanState {
    ScanState {
        pos: pos as int,
        defs: definitions_view(defs),
        coords: coords,
        errors: errors as int,
        progress: progress as int,
    }
}

/// The length of the data records of a definition.
fn total_field_size(definition: &MessageDefinition) -> (total: usize)
    requires
        definition@.fields.len() <= 100,
        forall|i: int| 0 <= i < definition@.fields.len() ==> #[trigger] definition@.fields[i].1 <= 100,
    ensures
        total == total_size(definition@.fields),
{
    let ghost all = definition@.fields;
    let n = definition.fields.len();
    let mut total: usize = 0;
    let mut i: usize = 0;
    assert(all.skip(0) =~= all);
    while i < n
        invariant
            n == all.len(),
            all == definition@.fields,
            n <= 100,
            forall|k: int| 0 <= k < all.len() ==> #[trigger] all[k].1 <= 100,
            i <= n,
            total <= 100 * i,
            total + total_size(all.skip(i as int)) == total_size(all),
        decreases n - i,
    {
        let f = definition.fields[i];
        assert(all[i as int] == f@);
        assert(all.skip(i as int)[0] == f@);
        assert(all.skip(i as int).drop_first() =~= all.skip(i + 1));
        total = total + f.size as usize;
        i = i + 1;
    }
    assert(all.skip(i as int).len() == 0);
    total
}

impl FitParser {
    /// A reader at the start of `data`, with no definitions.
    pub fn new(data: Vec<u8>) -> (parser: Self)
        ensures
            parser@.data == data@,
            parser@.pos == 0,
            parser@.defs == Map::<u8, DefinitionView>::empty(),
    {
        let parser = FitParser { data, pos: 0, message_definitions: HashMap::new() };
        assert(parser@.defs =~= Map::<u8, DefinitionView>::empty());
        parser
    }

    /// Reads the positions of a FIT buffer from the reader's state, as
    /// (latitude, longitude) in semicircles, and leaves the reader where the
    /// scan stopped, with the definitions it read. See `fit_parse`.
    pub fn parse_gps_coordinates(&mut self) -> (coordinates: Vec<(i32, i32)>)
        ensures
            coordinates@ == fit_parse(old(self)@).0,
            final(self)@.data == fit_parse(old(self)@).1.data,
            final(self)@.pos == fit_parse(old(self)@).1.pos,
            final(self)@.defs == fit_parse(old(self)@).1.defs,
            final(self)@.pos <= final(self)@.data.len(),
            definitions_bounded(final(self)@.defs),
    {
        proof {
            use_type_invariant(&*self);
        }
        let mut coordinates: Vec<(i32, i32)> = Vec::new();
        let len = self.data.len();
        if len < 14 {
            return coordinates;
        }
        let (header_size, p) = read_u8(self.data.as_slice(), self.pos);
        self.pos = p;
        if header_size < 12 {
            return coordinates;
        }
        let (_protocol_version, p) = read_u8(self.data.as_slice(), self.pos);
        let (_profile_version, p) = read_u16_le(self.data.as_slice(), p);
        let (data_size, p) = read_u32_le(self.data.as_slice(), p);
        let (s0, p) = read_u8(self.data.as_slice(), p);
        let (s1, p) = read_u8(self.data.as_slice(), p);
        let (s2, p) = read_u8(self.data.as_slice(), p);
        let (s3, p) = read_u8(self.data.as_slice(), p);
        self.pos = p;
        if !(s0 == 0x2e && s1 == 0x46 && s2 == 0x49 && s3 == 0x54) {
            return coordinates;
        }
        if header_size == 14 {
            self.pos = if len - self.pos < 2 {
                len
            } else {
                self.pos + 2
            };
        }
        let end_by_size: u128 = self.pos as u128 + data_size as u128;
        let capped: usize = if end_by_size < len as u128 {
            end_by_size as usize
        } else {
            len
        };
        let file_data_end = len - 2;
        let data_end = if capped > file_data_end {
            capped
        } else {
            file_data_end
        };
        let ghost d = self.data@;
        let ghost target = scan(
            d,
            data_end as int,
            scan_state_of(self.pos, self.message_definitions@, Seq::empty(), 0, self.pos),
        );
        assert(fit_parse(old(self)@).0 == target.coords);
        let mut pos = self.pos;
        let mut defs: HashMap<u8, MessageDefinition> = HashMap::new();
        proof {
            assert(definitions_view(defs@) =~= Map::<u8, DefinitionView>::empty());
        }
        std::mem::swap(&mut defs, &mut self.message_definitions);
        let mut consecutive_errors: usize = 0;
        let mut last_progress_pos = pos;
        loop
            invariant_except_break
                consecutive_errors < 100,
                scan(
                    d,
                    data_end as int,
                    scan_state_of(
                        pos,
                        defs@,
                        coordinates@,
                        consecutive_errors,
                        last_progress_pos,
                    ),
                ) == target,
            invariant
                self.data@ == d,
                len == d.len(),
                len >= 14,
                pos <= len,
                last_progress_pos <= pos,
                consecutive_errors <= 100,
                definitions_bounded(definitions_view(defs@)),
            ensures
                scan_state_of(
                    pos,
                    defs@,
                    coordinates@,
                    consecutive_errors,
                    last_progress_pos,
                ) == target,
            decreases len - pos,
        {
            if !(pos < data_end && pos < len && pos + 1 < len) {
                break;
            }
            let ghost prev = scan_state_of(
                pos,
                defs@,
                coordinates@,
                consecutive_errors,
                last_progress_pos,
            );
            let ghost step = scan_step(d, prev);
            proof {
                lemma_scan_step_advances(d, prev);
            }
            if pos - last_progress_pos > 10000 {
                last_progress_pos = pos;
                if coordinates.len() > 100 && pos > 50000 {
                    consecutive_errors = 0;
                }
            }
            let record_header = self.data[pos];
            pos = pos + 1;
            let is_definition = (record_header & 0x40) != 0;
            let local_message_type = record_header & 0x0f;
            let parse_success: bool;
            if is_definition {
                let ghost def_pos = pos as int;
                let (p2, definition) = Self::parse_definition_message(self.data.as_slice(), pos);
                pos = p2;
                match definition {
                    Some(definition) => {
                        proof {
                            lemma_parse_fields_bounded(d, def_pos + 5, d[def_pos + 4] as nat);
                        }
                        let ghost dv = definition@;
                        defs.insert(local_message_type, definition);
                        assert(definitions_view(defs@) =~= prev.defs.insert(
                            local_message_type,
                            dv,
                        ));
                        parse_success = true;
                    },
                    None => {
                        parse_success = false;
                    },
                }
            } else {
                match defs.get(&local_message_type) {
                    Some(definition) => {
                        assert(prev.defs.contains_key(local_message_type));
                        assert(prev.defs[local_message_type] == definition@);
                        let total_size = total_field_size(definition);
                        if total_size > len - pos {
                            if total_size < 1000 {
                                pos = len;
                            }
                            break;
                        }
                        if definition.global_message_number == 20 {
                            let (p2, coord) = Self::parse_record_message(
                                self.data.as_slice(),
                                pos,
                                definition,
                            );
                            pos = p2;
                            if let Some(c) = coord {
                                if !(-60 < c.0 && c.0 < 60 && -60 < c.1 && c.1 < 60) {
                                    coordinates.push(c);
                                }
                            }
                            parse_success = true;
                        } else if definition.global_message_number == 19
                            || definition.global_message_number == 18 {
                            let (p2, coord) = Self::parse_flexible_gps_message(
                                self.data.as_slice(),
                                pos,
                                definition,
                            );
                            pos = p2;
                            if let Some(c) = coord {
                                if !(-60 < c.0 && c.0 < 60 && -60 < c.1 && c.1 < 60) {
                                    coordinates.push(c);
                                }
                            }
                            parse_success = true;
                        } else {
                            if total_size < 1000 {
                                pos = pos + total_size;
                            } else {
                                pos = len;
                                break;
                            }
                            parse_success = true;
                        }
                    },
                    None => {
                        parse_success = false;
                    },
                }
            }
            if parse_success {
                consecutive_errors = 0;
            } else {
                consecutive_errors = consecutive_errors + 1;
                if consecutive_errors >= 100 {
                    if coordinates.len() < 100 {
                        break;
                    } else {
                        consecutive_errors = 50;
                    }
                }
            }
        }
        self.message_definitions = defs;
        self.pos = pos;
        coordinates
    }
}


// ---------------------------------------------------------------------------
// How records are read
// ---------------------------------------------------------------------------

/// A definition record replaces whatever its local message type meant
/// before: once it is read, the type stands for the definition just read,
/// so the data records of that type that follow are decoded with it; the
/// other local types keep their definitions, and the scan goes on.
pub proof fn lemma_definition_replaces(data: Seq<u8>, st: ScanState)
    requires
        0 <= st.pos < data.len(),
        data[st.pos] & 0x40 != 0,
        spec_parse_definition(data, st.pos + 1).1 is Some,
    ensures
        ({
            let def = spec_parse_definition(data, st.pos + 1).1->0;
            let local = data[st.pos] & 0x0f;
            let next = scan_step(data, st);
            &&& !next.1
            &&& next.0.pos == spec_parse_definition(data, st.pos + 1).0
            &&& next.0.coords == st.coords
            &&& next.0.defs.contains_key(local)
            &&& next.0.defs[local] == def
            &&& forall|k: u8|
                k != local ==> (#[trigger] next.0.defs.contains_key(k) == st.defs.contains_key(k)
                    && (st.defs.contains_key(k) ==> next.0.defs[k] == st.defs[k]))
        }),
{
}

/// The scan state `st` with local type `local` standing for a message of
/// global number `global` and the same fields.
pub open spec fn with_global(st: ScanState, local: u8, global: u16) -> ScanState {
    ScanState {
        pos: st.pos,
        defs: st.defs.insert(local, DefinitionView { global, fields: st.defs[local].fields }),
        coords: st.coords,
        errors: st.errors,
        progress: st.progress,
    }
}

/// A data record of global message number 19 is read for a position exactly
/// as one of number 18: same positions found, same place reached, same
/// failure count, and the scan stops after one exactly when after the other.
pub proof fn lemma_lap_read_as_gps_metadata(data: Seq<u8>, st: ScanState)
    requires
        0 <= st.pos < data.len(),
        data[st.pos] & 0x40 == 0,
        st.defs.contains_key(data[st.pos] & 0x0f),
        st.defs[data[st.pos] & 0x0f].global == 19,
    ensures
        ({
            let local = data[st.pos] & 0x0f;
            let a = scan_step(data, st);
            let b = scan_step(data, with_global(st, local, 18));
            &&& a.0.coords == b.0.coords
            &&& a.0.pos == b.0.pos
            &&& a.0.errors == b.0.errors
            &&& a.0.progress == b.0.progress
            &&& a.1 == b.1
        }),
{
    let local = data[st.pos] & 0x0f;
    assert(with_global(st, local, 18).defs[local].fields == st.defs[local].fields);
}

/// A data record of global message number 18 or 19 that fits in the buffer
/// adds the position that its four-byte values give (see
/// `spec_flexible_message`) when there is one and it is kept, and the scan
/// goes on; one of number 20 does so with the record layout.
pub proof fn lemma_position_records_read(data: Seq<u8>, st: ScanState)
    requires
        0 <= st.pos < data.len(),
        data[st.pos] & 0x40 == 0,
        st.defs.contains_key(data[st.pos] & 0x0f),
        st.pos + 1 + total_size(st.defs[data[st.pos] & 0x0f].fields) <= data.len(),
    ensures
        ({
            let def = st.defs[data[st.pos] & 0x0f];
            let next = scan_step(data, st);
            &&& (def.global == 18 || def.global == 19) ==> {
                &&& !next.1
                &&& next.0.coords == add_point(
                    st.coords,
                    spec_flexible_message(data, st.pos + 1, def.fields).1,
                )
                &&& next.0.pos == spec_flexible_message(data, st.pos + 1, def.fields).0
            }
            &&& def.global == 20 ==> {
                &&& !next.1
                &&& next.0.coords == add_point(
                    st.coords,
                    spec_record_message(data, st.pos + 1, def.fields).1,
                )
                &&& next.0.pos == spec_record_message(data, st.pos + 1, def.fields).0
            }
        }),
{
}

// ---------------------------------------------------------------------------
// What every position found satisfies
// ---------------------------------------------------------------------------

/// A position as the reader hands it out: both values are position values,
/// the latitude lies within ±90 degrees, and the pair is not at the origin
/// once rounded.
pub open spec fn fit_position_ok(p: (i32, i32)) -> bool {
    &&& fit_point_kept(p)
    &&& within_latitude(p.0 as int)
    &&& is_position_value(p.0 as int)
    &&& is_position_value(p.1 as int)
}

spec fn lat_ok(lat: Option<i32>) -> bool {
    lat matches Some(a) ==> within_latitude(a as int) && is_position_value(a as int)
}

spec fn lon_ok(lon: Option<i32>) -> bool {
    lon matches Some(b) ==> is_position_value(b as int)
}

proof fn lemma_record_fields_ok(
    data: Seq<u8>,
    pos: int,
    fields: Seq<(u8, u8, u8)>,
    lat: Option<i32>,
    lon: Option<i32>,
)
    requires
        lat_ok(lat),
        lon_ok(lon),
    ensures
        lat_ok(spec_record_fields(data, pos, fields, lat, lon).1),
        lon_ok(spec_record_fields(data, pos, fields, lat, lon).2),
    decreases fields.len(),
{
    if fields.len() > 0 {
        let f = fields[0];
        let size = f.1 as int;
        let step: (int, Option<i32>, Option<i32>) = if !field_fits(data, pos, size) {
            (skip_within(data, pos, size), lat, lon)
        } else if f.0 == 0 && size == 4 {
            let raw = le_i32(data, pos);
            (
                pos + 4,
                if is_position_value(raw) && within_latitude(raw) {
                    Some(raw as i32)
                } else {
                    lat
                },
                lon,
            )
        } else if f.0 == 1 && size == 4 {
            let raw = le_i32(data, pos);
            (
                pos + 4,
                lat,
                if is_position_value(raw) {
                    Some(raw as i32)
                } else {
                    lon
                },
            )
        } else {
            (pos + size, lat, lon)
        };
        if field_fits(data, pos, size) && size == 4 {
            let raw = le_i32(data, pos);
            assert(-0x8000_0000 <= raw < 0x8000_0000);
        }
        lemma_record_fields_ok(data, step.0, fields.drop_first(), step.1, step.2);
    }
}

proof fn lemma_flexible_fields_ok(
    data: Seq<u8>,
    pos: int,
    fields: Seq<(u8, u8, u8)>,
    found: Seq<i32>,
)
    requires
        forall|i: int| 0 <= i < found.len() ==> is_position_value(#[trigger] found[i] as int),
    ensures
        forall|i: int|
            0 <= i < spec_flexible_fields(data, pos, fields, found).1.len() ==> is_position_value(
                #[trigger] spec_flexible_fields(data, pos, fields, found).1[i] as int,
            ),
    decreases fields.len(),
{
    if fields.len() > 0 {
        let f = fields[0];
        let size = f.1 as int;
        let step: (int, Seq<i32>) = if !field_fits(data, pos, size) {
            (skip_within(data, pos, size), found)
        } else if size == 4 {
            let raw = le_i32(data, pos);
            (
                pos + 4,
                if is_position_value(raw) {
                    found.push(raw as i32)
                } else {
                    found
                },
            )
        } else {
            (pos + size, found)
        };
        if field_fits(data, pos, size) && size == 4 {
            let raw = le_i32(data, pos);
            assert(-0x8000_0000 <= raw < 0x8000_0000);
            assert forall|i: int| 0 <= i < step.1.len() implies is_position_value(
                #[trigger] step.1[i] as int,
            ) by {
                if i < found.len() {
                    assert(step.1[i] == found[i]);
                }
            }
        }
        lemma_flexible_fields_ok(data, step.0, fields.drop_first(), step.1);
        assert(spec_flexible_fields(data, pos, fields, found) == spec_flexible_fields(
            data,
            step.0,
            fields.drop_first(),
            step.1,
        ));
    }
}

proof fn lemma_pick_ok(found: Seq<i32>, lat: Option<i32>, lon: Option<i32>)
    requires
        forall|i: int| 0 <= i < found.len() ==> is_position_value(#[trigger] found[i] as int),
        lat_ok(lat),
        lon_ok(lon),
    ensures
        lat_ok(spec_pick_position(found, lat, lon).0),
        lon_ok(spec_pick_position(found, lat, lon).1),
    decreases found.len(),
{
    if found.len() > 0 {
        let c = found[0];
        assert(is_position_value(found[0] as int));
        let (lat2, lon2) = if within_latitude(c as int) && lat is None {
            (Some(c), lon)
        } else if lon is None && lat != Some(c) {
            (lat, Some(c))
        } else {
            (lat, lon)
        };
        assert forall|i: int| 0 <= i < found.drop_first().len() implies is_position_value(
            #[trigger] found.drop_first()[i] as int,
        ) by {
            assert(found.drop_first()[i] == found[i + 1]);
        }
        lemma_pick_ok(found.drop_first(), lat2, lon2);
    }
}

spec fn positions_ok(coords: Seq<(i32, i32)>) -> bool {
    forall|i: int| 0 <= i < coords.len() ==> fit_position_ok(#[trigger] coords[i])
}

proof fn lemma_add_point_ok(coords: Seq<(i32, i32)>, c: Option<(i32, i32)>)
    requires
        positions_ok(coords),
        c matches Some(p) ==> within_latitude(p.0 as int) && is_position_value(p.0 as int)
            && is_position_value(p.1 as int),
    ensures
        positions_ok(add_point(coords, c)),
{
    if let Some(p) = c {
        if fit_point_kept(p) {
            assert forall|i: int| 0 <= i < coords.push(p).len() implies fit_position_ok(
                #[trigger] coords.push(p)[i],
            ) by {
                if i < coords.len() {
                    assert(coords.push(p)[i] == coords[i]);
                }
            }
        }
    }
}

proof fn lemma_scan_step_ok(data: Seq<u8>, st: ScanState)
    requires
        0 <= st.pos < data.len(),
        positions_ok(st.coords),
    ensures
        positions_ok(scan_step(data, st).0.coords),
{
    let pos = st.pos + 1;
    let header = data[st.pos];
    let local = header & 0x0f;
    if header & 0x40 == 0 && st.defs.contains_key(local) {
        let fields = st.defs[local].fields;
        lemma_record_fields_ok(data, pos, fields, None, None);
        lemma_flexible_fields_ok(data, pos, fields, Seq::empty());
        let found = spec_flexible_fields(data, pos, fields, Seq::empty()).1;
        lemma_pick_ok(found, None, None);
        lemma_add_point_ok(st.coords, spec_record_message(data, pos, fields).1);
        lemma_add_point_ok(st.coords, spec_flexible_message(data, pos, fields).1);
    }
}

proof fn lemma_scan_ok(data: Seq<u8>, data_end: int, st: ScanState)
    requires
        positions_ok(st.coords),
    ensures
        positions_ok(scan(data, data_end, st).coords),
    decreases data.len() - st.pos,
{
    if !(st.pos < 0 || !(st.pos < data_end && st.pos + 1 < data.len())) {
        lemma_scan_step_advances(data, st);
        lemma_scan_step_ok(data, st);
        let r = scan_step(data, st);
        if !r.1 {
            lemma_scan_ok(data, data_end, r.0);
        }
    }
}

/// Every position that reading a FIT buffer yields holds two position values
/// (neither the "invalid" marker nor zero), a latitude within ±90 degrees,
/// and is not at the origin once rounded to five decimals.
pub proof fn lemma_fit_positions_valid(v: FitParserView)
    ensures
        forall|i: int|
            0 <= i < fit_parse(v).0.len() ==> fit_position_ok(#[trigger] fit_parse(v).0[i]),
{
    let data = v.data;
    let len = data.len() as int;
    if len >= 14 {
        let (header_size, p1) = spec_read_u8(data, v.pos);
        if header_size >= 12 {
            let (_, p2) = spec_read_u8(data, p1);
            let (_, p3) = spec_read_u16_le(data, p2);
            let (data_size, p4) = spec_read_u32_le(data, p3);
            let (s0, p5) = spec_read_u8(data, p4);
            let (s1, p6) = spec_read_u8(data, p5);
            let (s2, p7) = spec_read_u8(data, p6);
            let (s3, p8) = spec_read_u8(data, p7);
            let p9 = if header_size == 14 {
                if len - p8 < 2 {
                    len
                } else {
                    p8 + 2
                }
            } else {
                p8
            };
            let capped = if p9 + data_size < len {
                p9 + data_size
            } else {
                len
            };
            let data_end = if capped > len - 2 {
                capped
            } else {
                len - 2
            };
            lemma_scan_ok(
                data,
                data_end,
                ScanState {
                    pos: p9,
                    defs: v.defs,
                    coords: Seq::empty(),
                    errors: 0,
                    progress: p9,
                },
            );
        }
    }
}

} // verus!
