//! Encoded polyline format: coordinates in fixed point (degrees × 100000),
//! stored as zig-zag deltas split into 5-bit groups, each group written as
//! one printable character (value + 63, with 0x20 marking "more follows").
use vstd::prelude::*;
use vstd::string::StringSliceAdditionalSpecFns;
use vstd::string::StringExecFns;
use vstd::utf8::encode_utf8;
use vstd::utf8::is_ascii_chars;

verus! {

// ---------------------------------------------------------------------------
// Reading: bytes to fixed-point coordinates
// ---------------------------------------------------------------------------

/// The five payload bits that one byte of an encoded value carries:
/// `(byte - 63) & 0x1f`, which is `(byte + 1) mod 32`.
pub open spec fn chunk_value(b: u8) -> nat {
    ((b as nat) + 1) % 32
}

/// A byte whose value minus 63 is at least 0x20 announces that the value goes on.
pub open spec fn continues(b: u8) -> bool {
    b >= 95
}

/// Number of bytes that the first encoded value of `s` occupies: up to and
/// including the first byte that does not announce a continuation, or all of `s`.
pub open spec fn group_len(s: Seq<u8>) -> nat
    decreases s.len(),
{
    if s.len() == 0 {
        0
    } else if !continues(s[0]) {
        1
    } else {
        1 + group_len(s.drop_first())
    }
}

/// The unsigned number that the first encoded value of `s` spells out,
/// least significant 5-bit group first.
pub open spec fn group_raw(s: Seq<u8>) -> nat
    decreases s.len(),
{
    if s.len() == 0 {
        0
    } else if !continues(s[0]) {
        chunk_value(s[0])
    } else {
        chunk_value(s[0]) + 32 * group_raw(s.drop_first())
    }
}

/// Zig-zag decoding of the low 32 bits of `u`, read as a signed 32-bit word:
/// an even word `w` stands for `w >> 1`, an odd one for `!(w >> 1)`,
/// the shift being arithmetic.
pub open spec fn zigzag_decode(u: nat) -> int {
    let w = u % 0x1_0000_0000;
    let h = w / 2;
    let s: int = if h >= 0x4000_0000 {
        h - 0x8000_0000
    } else {
        h as int
    };
    if w % 2 == 0 {
        s
    } else {
        -s - 1
    }
}

pub proof fn lemma_group_len_bound(s: Seq<u8>)
    ensures
        group_len(s) <= s.len(),
        s.len() > 0 ==> group_len(s) >= 1,
    decreases s.len(),
{
    if s.len() > 0 {
        lemma_group_len_bound(s.drop_first());
    }
}

/// Every point that the encoded bytes `s` describe, starting from the running
/// position (`lat`, `lng`): each point reads a latitude delta and then a
/// longitude delta (zero when the input ends first) and adds them up.
pub open spec fn polyline_points(s: Seq<u8>, lat: int, lng: int) -> Seq<(int, int)>
    decreases s.len(),
{
    if s.len() == 0 {
        Seq::empty()
    } else {
        let n1 = group_len(s);
        let t = s.skip(n1 as int);
        let n2 = group_len(t);
        let u = t.skip(n2 as int);
        let p = (lat + zigzag_decode(group_raw(s)), lng + zigzag_decode(group_raw(t)));
        proof {
            lemma_group_len_bound(s);
            lemma_group_len_bound(t);
        }
        seq![p] + polyline_points(u, p.0, p.1)
    }
}

/// Whether decoding `s` from (`lat`, `lng`) stays within what the decoder
/// handles: no value longer than seven bytes (an eighth group would be
/// shifted past 32 bits) and every running coordinate within `i32`.
pub open spec fn polyline_fits(s: Seq<u8>, lat: int, lng: int) -> bool
    decreases s.len(),
{
    if s.len() == 0 {
        true
    } else {
        let n1 = group_len(s);
        let t = s.skip(n1 as int);
        let n2 = group_len(t);
        let u = t.skip(n2 as int);
        let p = (lat + zigzag_decode(group_raw(s)), lng + zigzag_decode(group_raw(t)));
        proof {
            lemma_group_len_bound(s);
            lemma_group_len_bound(t);
        }
        &&& n1 <= 7
        &&& n2 <= 7
        &&& i32::MIN <= p.0 <= i32::MAX
        &&& i32::MIN <= p.1 <= i32::MAX
        &&& polyline_fits(u, p.0, p.1)
    }
}

/// A fixed-point coordinate that coordinate validation accepts once scaled
/// to degrees: the scaled latitude within ±90 and longitude within ±180
/// (in `f64`, 9000000 × 1e-5 already exceeds 90, so the bounds are strict),
/// and not the origin (0, 0).
pub open spec fn is_valid_fixed(p: (int, int)) -> bool {
    &&& -9_000_000 < p.0 < 9_000_000
    &&& -18_000_000 < p.1 < 18_000_000
    &&& !(p.0 == 0 && p.1 == 0)
}

/// The points of `ps` that `is_valid_fixed` accepts, in order.
pub open spec fn valid_points(ps: Seq<(int, int)>) -> Seq<(int, int)>
    decreases ps.len(),
{
    if ps.len() == 0 {
        Seq::empty()
    } else if is_valid_fixed(ps[0]) {
        seq![ps[0]] + valid_points(ps.drop_first())
    } else {
        valid_points(ps.drop_first())
    }
}

/// What decoding the polyline bytes `s` yields: its valid points.
pub open spec fn decoded_polyline(s: Seq<u8>) -> Seq<(int, int)> {
    valid_points(polyline_points(s, 0, 0))
}

/// Fixed-point pairs read as mathematical integers.
pub open spec fn fixed_view(v: Seq<(i32, i32)>) -> Seq<(int, int)> {
    v.map_values(|p: (i32, i32)| (p.0 as int, p.1 as int))
}

pub open spec fn pow32(k: nat) -> nat
    decreases k,
{
    if k == 0 {
        1
    } else {
        32 * pow32((k - 1) as nat)
    }
}

proof fn lemma_pow32_small(k: nat)
    requires
        k <= 7,
    ensures
        1 <= pow32(k) <= 0x8_0000_0000,
        pow32(7) == 0x8_0000_0000,
{
    assert(pow32(0) == 1);
    assert(pow32(1) == 32);
    assert(pow32(2) == 1024);
    assert(pow32(3) == 32768);
    assert(pow32(4) == 1048576);
    assert(pow32(5) == 33554432);
    assert(pow32(6) == 1073741824);
    assert(pow32(7) == 0x8_0000_0000);
}

proof fn lemma_skip_step(s: Seq<u8>, i: int)
    requires
        0 <= i < s.len(),
    ensures
        s.skip(i).len() > 0,
        s.skip(i)[0] == s[i],
        s.skip(i).drop_first() == s.skip(i + 1),
{
    assert(s.skip(i).drop_first() =~= s.skip(i + 1));
}

/// Reads the encoded value that starts at `start`: its unsigned number and
/// the index just past it; `None` when the value runs past seven bytes.
fn decode_group(bytes: &[u8], start: usize) -> (res: Option<(u64, usize)>)
    requires
        start <= bytes@.len(),
    ensures
        match res {
            Some((raw, end)) => {
                &&& group_len(bytes@.skip(start as int)) <= 7
                &&& raw == group_raw(bytes@.skip(start as int))
                &&& end == start + group_len(bytes@.skip(start as int))
            },
            None => group_len(bytes@.skip(start as int)) > 7,
        },
{
    let ghost s0 = bytes@.skip(start as int);
    let mut i = start;
    let mut acc: u64 = 0;
    let mut mult: u64 = 1;
    loop
        invariant
            start <= i <= bytes@.len(),
            i - start <= 7,
            s0 == bytes@.skip(start as int),
            mult == pow32((i - start) as nat),
            acc < mult,
            group_raw(s0) == acc + mult * group_raw(bytes@.skip(i as int)),
            group_len(s0) == (i - start) + group_len(bytes@.skip(i as int)),
        decreases bytes@.len() - i,
    {
        proof {
            lemma_pow32_small((i - start) as nat);
        }
        if i >= bytes.len() {
            assert(bytes@.skip(i as int).len() == 0);
            assert(group_raw(bytes@.skip(i as int)) == 0);
            assert(mult * 0 == 0) by (nonlinear_arith);
            return Some((acc, i));
        }
        if i - start == 7 {
            proof {
                lemma_skip_step(bytes@, i as int);
                lemma_group_len_bound(bytes@.skip(i as int));
            }
            return None;
        }
        let b = bytes[i];
        let c: u64 = ((b as u64) + 1) % 32;
        proof {
            lemma_skip_step(bytes@, i as int);
        }
        let ghost old_acc = acc;
        let ghost r1 = group_raw(bytes@.skip(i as int + 1));
        assert(c * mult <= 31 * mult) by (nonlinear_arith)
            requires
                c <= 31,
        ;
        acc = acc + c * mult;
        i = i + 1;
        if b < 95 {
            assert(group_raw(bytes@.skip(i - 1)) == c);
            assert(mult * c == c * mult) by (nonlinear_arith);
            return Some((acc, i));
        }
        assert(group_raw(bytes@.skip(i - 1)) == c + 32 * r1);
        assert(mult * (c + 32 * r1) == c * mult + (mult * 32) * r1) by (nonlinear_arith);
        mult = mult * 32;
        proof {
            assert(pow32((i - start) as nat) == 32 * pow32((i - 1 - start) as nat));
        }
    }
}

/// The signed delta that an encoded unsigned number stands for.
fn zigzag_to_i64(raw: u64) -> (d: i64)
    ensures
        d == zigzag_decode(raw as nat),
        -0x8000_0000 <= d < 0x8000_0000,
{
    let w = raw % 0x1_0000_0000;
    let h = w / 2;
    let s: i64 = if h >= 0x4000_0000 {
        h as i64 - 0x8000_0000
    } else {
        h as i64
    };
    if w % 2 == 0 {
        s
    } else {
        -s - 1
    }
}

/// Decodes an encoded polyline into its valid fixed-point coordinates
/// (degrees × 100000, latitude first), in order.
pub fn decode_polyline_internal(encoded: &str) -> (coords: Vec<(i32, i32)>)
    requires
        polyline_fits(encoded.spec_bytes(), 0, 0),
    ensures
        fixed_view(coords@) == decoded_polyline(encoded.spec_bytes()),
{
    match try_decode_polyline(encoded) {
        Some(coords) => coords,
        None => Vec::new(),
    }
}

/// Whether a fixed-point coordinate is kept by the decoder.
fn keep_fixed(lat: i32, lng: i32) -> (res: bool)
    ensures
        res == is_valid_fixed((lat as int, lng as int)),
{
    -9_000_000 < lat && lat < 9_000_000 && -18_000_000 < lng && lng < 18_000_000 && !(lat == 0
        && lng == 0)
}

/// Decodes an encoded polyline into its valid fixed-point coordinates,
/// or returns `None` where decoding would leave the decoder's range
/// (see `polyline_fits`).
pub fn try_decode_polyline(encoded: &str) -> (res: Option<Vec<(i32, i32)>>)
    ensures
        res is Some <==> polyline_fits(encoded.spec_bytes(), 0, 0),
        res matches Some(v) ==> fixed_view(v@) == decoded_polyline(encoded.spec_bytes()),
{
    let bytes = encoded.as_bytes();
    let ghost all = bytes@;
    let mut coords: Vec<(i32, i32)> = Vec::new();
    let mut lat: i32 = 0;
    let mut lng: i32 = 0;
    let mut index: usize = 0;
    assert(all.skip(0) =~= all);
    while index < bytes.len()
        invariant
            all == bytes@,
            all == encoded.spec_bytes(),
            index <= all.len(),
            polyline_fits(all, 0, 0) == polyline_fits(all.skip(index as int), lat as int, lng as int),
            decoded_polyline(all) == fixed_view(coords@) + valid_points(
                polyline_points(all.skip(index as int), lat as int, lng as int),
            ),
        decreases all.len() - index,
    {
        let ghost s = all.skip(index as int);
        proof {
            lemma_group_len_bound(s);
        }
        let (raw_lat, mid) = match decode_group(bytes, index) {
            Some(r) => r,
            None => {
                return None;
            },
        };
        assert(s.skip(group_len(s) as int) =~= all.skip(mid as int));
        let ghost t = all.skip(mid as int);
        proof {
            lemma_group_len_bound(t);
        }
        let (raw_lng, end) = match decode_group(bytes, mid) {
            Some(r) => r,
            None => {
                return None;
            },
        };
        assert(t.skip(group_len(t) as int) =~= all.skip(end as int));
        let ghost old_lat = lat as int;
        let ghost old_lng = lng as int;
        let new_lat = lat as i64 + zigzag_to_i64(raw_lat);
        let new_lng = lng as i64 + zigzag_to_i64(raw_lng);
        if new_lat < -0x8000_0000 || new_lat > 0x7fff_ffff || new_lng < -0x8000_0000 || new_lng
            > 0x7fff_ffff {
            return None;
        }
        lat = new_lat as i32;
        lng = new_lng as i32;
        let ghost p = (lat as int, lng as int);
        let ghost before = fixed_view(coords@);
        if keep_fixed(lat, lng) {
            coords.push((lat, lng));
            assert(fixed_view(coords@) =~= before + seq![p]);
        }
        let ghost rest = polyline_points(all.skip(end as int), lat as int, lng as int);
        assert(polyline_points(s, old_lat, old_lng) == seq![p] + rest);
        assert((seq![p] + rest).drop_first() =~= rest);
        assert(valid_points(seq![p] + rest) == if is_valid_fixed(p) {
            seq![p] + valid_points(rest)
        } else {
            valid_points(rest)
        });
        assert(polyline_fits(s, old_lat, old_lng) == polyline_fits(
            all.skip(end as int),
            lat as int,
            lng as int,
        ));
        index = end;
    }
    assert(all.skip(index as int).len() == 0);
    assert(fixed_view(coords@) + Seq::<(int, int)>::empty() =~= fixed_view(coords@));
    Some(coords)
}


// ---------------------------------------------------------------------------
// Writing: fixed-point coordinates to characters
// ---------------------------------------------------------------------------

/// Zig-zag encoding of a signed delta: non-negative `d` becomes `2d`,
/// negative `d` becomes `-2d - 1`.
pub open spec fn zigzag_encode(d: int) -> nat {
    if d >= 0 {
        (2 * d) as nat
    } else {
        (-2 * d - 1) as nat
    }
}

/// The characters of an unsigned number, least significant 5-bit group first,
/// each group plus 63, with 0x20 added to every group but the last.
pub open spec fn value_chars_small(z: nat) -> Seq<char>
    decreases z,
{
    if z < 32 {
        seq![((z + 63) as u8) as char]
    } else {
        seq![((z % 32 + 95) as u8) as char] + value_chars_small(z / 32)
    }
}

/// The characters written for a zig-zag word `z` (below 2^32). The encoder
/// works on the word as a signed 32-bit integer: a word of 2^31 or more is
/// negative there, so no group is split off and a single character, the low
/// byte of the word plus 63, is written.
pub open spec fn value_chars(z: nat) -> Seq<char> {
    if z >= 0x8000_0000 {
        seq![(((z + 63) % 256) as u8) as char]
    } else {
        value_chars_small(z)
    }
}

/// Whether every latitude and longitude delta along `points`, starting from
/// (`lat`, `lng`), is an `i32`: the encoder subtracts in `i32`.
pub open spec fn deltas_fit(points: Seq<(i32, i32)>, lat: int, lng: int) -> bool
    decreases points.len(),
{
    if points.len() == 0 {
        true
    } else {
        let p = points[0];
        &&& i32::MIN <= p.0 - lat <= i32::MAX
        &&& i32::MIN <= p.1 - lng <= i32::MAX
        &&& deltas_fit(points.drop_first(), p.0 as int, p.1 as int)
    }
}

/// The encoding of `points` as deltas from (`lat`, `lng`) and then from each
/// previous point: latitude delta, then longitude delta, point by point.
pub open spec fn polyline_encoding(points: Seq<(i32, i32)>, lat: int, lng: int) -> Seq<char>
    decreases points.len(),
{
    if points.len() == 0 {
        Seq::empty()
    } else {
        let p = points[0];
        value_chars(zigzag_encode(p.0 - lat)) + value_chars(zigzag_encode(p.1 - lng))
            + polyline_encoding(points.drop_first(), p.0 as int, p.1 as int)
    }
}

/// `String::push` from std: appends the character `c` at the end of `s`.
#[verifier::external_body]
fn push_char(s: &mut String, c: char)
    ensures
        final(s)@ == old(s)@.push(c),
{
    s.push(c);
}

/// The characters of one delta.
fn encode_number(num: i32) -> (encoded: String)
    ensures
        encoded@ == value_chars(zigzag_encode(num as int)),
{
    let n: i64 = num as i64;
    let z: u32 = if n < 0 {
        (0 - 2 * n - 1) as u32
    } else {
        (2 * n) as u32
    };
    let mut encoded = String::new();
    if z >= 0x8000_0000 {
        let c: u8 = ((z as u64 + 63) % 256) as u8;
        push_char(&mut encoded, c as char);
        assert(encoded@ =~= seq![c as char]);
        return encoded;
    }
    let mut value = z;
    while value >= 32
        invariant
            value < 0x8000_0000,
            z < 0x8000_0000,
            value_chars_small(z as nat) == encoded@ + value_chars_small(value as nat),
        decreases value,
    {
        let c: u8 = (value % 32 + 95) as u8;
        let ghost before = encoded@;
        push_char(&mut encoded, c as char);
        assert(value_chars_small(value as nat) == seq![c as char] + value_chars_small(
            (value / 32) as nat,
        ));
        assert(before + (seq![c as char] + value_chars_small((value / 32) as nat)) =~= encoded@
            + value_chars_small((value / 32) as nat));
        value = value / 32;
    }
    let c: u8 = (value + 63) as u8;
    let ghost before = encoded@;
    push_char(&mut encoded, c as char);
    assert(value_chars_small(value as nat) == seq![c as char]);
    assert(before + seq![c as char] =~= encoded@);
    encoded
}

/// Encodes fixed-point coordinates (degrees × 100000) as a polyline, each
/// point written as its deltas from the previous one (the first from (0, 0)).
pub fn coordinates_to_polyline_rust(coords: &[(i32, i32)]) -> (encoded: String)
    requires
        deltas_fit(coords@, 0, 0),
    ensures
        encoded@ == polyline_encoding(coords@, 0, 0),
{
    let ghost all = coords@;
    let mut encoded = String::new();
    let mut prev_lat: i32 = 0;
    let mut prev_lng: i32 = 0;
    let mut i: usize = 0;
    assert(all.skip(0) =~= all);
    while i < coords.len()
        invariant
            all == coords@,
            i <= all.len(),
            deltas_fit(all.skip(i as int), prev_lat as int, prev_lng as int),
            polyline_encoding(all, 0, 0) == encoded@ + polyline_encoding(
                all.skip(i as int),
                prev_lat as int,
                prev_lng as int,
            ),
        decreases all.len() - i,
    {
        let (lat, lng) = coords[i];
        let ghost rest = all.skip(i as int);
        assert(rest[0] == (lat, lng));
        assert(rest.drop_first() =~= all.skip(i + 1));
        let d_lat = lat - prev_lat;
        let d_lng = lng - prev_lng;
        let a = encode_number(d_lat);
        let b = encode_number(d_lng);
        let ghost before = encoded@;
        encoded.append(a.as_str());
        encoded.append(b.as_str());
        assert(before + (a@ + b@ + polyline_encoding(all.skip(i + 1), lat as int, lng as int))
            =~= encoded@ + polyline_encoding(all.skip(i + 1), lat as int, lng as int));
        prev_lat = lat;
        prev_lng = lng;
        i = i + 1;
    }
    assert(all.skip(i as int).len() == 0);
    assert(encoded@ + Seq::<char>::empty() =~= encoded@);
    encoded
}


// ---------------------------------------------------------------------------
// Reading back what was written
// ---------------------------------------------------------------------------

/// Whether every delta along `points` from (`lat`, `lng`) lies in
/// [-2^30, 2^30), the range whose zig-zag words stay below 2^31.
pub open spec fn deltas_small(points: Seq<(i32, i32)>, lat: int, lng: int) -> bool
    decreases points.len(),
{
    if points.len() == 0 {
        true
    } else {
        let p = points[0];
        &&& -0x4000_0000 <= p.0 - lat < 0x4000_0000
        &&& -0x4000_0000 <= p.1 - lng < 0x4000_0000
        &&& deltas_small(points.drop_first(), p.0 as int, p.1 as int)
    }
}

/// The bytes of a character sequence whose characters are all ASCII.
pub open spec fn char_bytes(cs: Seq<char>) -> Seq<u8> {
    cs.map_values(|c: char| c as u8)
}

proof fn lemma_char_bytes_add(a: Seq<char>, b: Seq<char>)
    ensures
        char_bytes(a + b) == char_bytes(a) + char_bytes(b),
{
    assert(char_bytes(a + b) =~= char_bytes(a) + char_bytes(b));
}

proof fn lemma_zigzag_roundtrip(d: int)
    requires
        -0x4000_0000 <= d < 0x4000_0000,
    ensures
        zigzag_encode(d) < 0x8000_0000,
        zigzag_decode(zigzag_encode(d)) == d,
{
}

proof fn lemma_value_len(z: nat, k: nat)
    requires
        k >= 1,
        z < pow32(k),
    ensures
        value_chars_small(z).len() <= k,
    decreases z,
{
    if z >= 32 {
        assert(pow32(k) == 32 * pow32((k - 1) as nat));
        assert(z / 32 < pow32((k - 1) as nat));
        if k == 1 {
            assert(pow32(0) == 1);
        }
        lemma_value_len(z / 32, (k - 1) as nat);
    }
}

/// One written value reads back as the same number and takes exactly its
/// own characters, whatever follows it.
proof fn lemma_value_roundtrip(z: nat, tail: Seq<u8>)
    ensures
        value_chars_small(z).len() >= 1,
        is_ascii_chars(value_chars_small(z)),
        group_len(char_bytes(value_chars_small(z)) + tail) == value_chars_small(z).len(),
        group_raw(char_bytes(value_chars_small(z)) + tail) == z,
    decreases z,
{
    let v = char_bytes(value_chars_small(z)) + tail;
    if z < 32 {
        let c = ((z + 63) as u8) as char;
        assert(v[0] == (z + 63) as u8);
    } else {
        let c = ((z % 32 + 95) as u8) as char;
        let r = value_chars_small(z / 32);
        lemma_value_roundtrip(z / 32, tail);
        lemma_char_bytes_add(seq![c], r);
        assert(v[0] == (z % 32 + 95) as u8);
        assert(v.drop_first() =~= char_bytes(r) + tail);
        assert(is_ascii_chars(seq![c] + r)) by {
            assert forall|i| 0 <= i < (seq![c] + r).len() implies '\0' <= #[trigger] (seq![c]
                + r)[i] <= '\u{7f}' by {
                if i > 0 {
                    assert((seq![c] + r)[i] == r[i - 1]);
                }
            }
        }
    }
}

/// Reading back an encoding gives the encoded points, and stays in range.
proof fn lemma_points_roundtrip(points: Seq<(i32, i32)>, lat: int, lng: int)
    requires
        deltas_small(points, lat, lng),
    ensures
        is_ascii_chars(polyline_encoding(points, lat, lng)),
        polyline_points(char_bytes(polyline_encoding(points, lat, lng)), lat, lng) == fixed_view(
            points,
        ),
        polyline_fits(char_bytes(polyline_encoding(points, lat, lng)), lat, lng),
    decreases points.len(),
{
    let enc = polyline_encoding(points, lat, lng);
    let b = char_bytes(enc);
    if points.len() == 0 {
        assert(b.len() == 0);
        assert(fixed_view(points) =~= Seq::<(int, int)>::empty());
    } else {
        let p = points[0];
        let rest = points.drop_first();
        let z1 = zigzag_encode(p.0 - lat);
        let z2 = zigzag_encode(p.1 - lng);
        lemma_zigzag_roundtrip(p.0 - lat);
        lemma_zigzag_roundtrip(p.1 - lng);
        let a1 = value_chars_small(z1);
        let a2 = value_chars_small(z2);
        let r = polyline_encoding(rest, p.0 as int, p.1 as int);
        lemma_points_roundtrip(rest, p.0 as int, p.1 as int);
        assert(enc == a1 + a2 + r);
        lemma_char_bytes_add(a1 + a2, r);
        lemma_char_bytes_add(a1, a2);
        let b1 = char_bytes(a1);
        let b2 = char_bytes(a2);
        let br = char_bytes(r);
        assert(b =~= b1 + (b2 + br));
        lemma_value_roundtrip(z1, b2 + br);
        lemma_value_roundtrip(z2, br);
        lemma_pow32_small(7);
        lemma_value_len(z1, 7);
        lemma_value_len(z2, 7);
        assert(b.skip(b1.len() as int) =~= b2 + br);
        assert((b2 + br).skip(b2.len() as int) =~= br);
        assert(is_ascii_chars(a1 + a2)) by {
            vstd::utf8::is_ascii_chars_concat(a1 + a2, a1, a2);
        }
        assert(is_ascii_chars(enc)) by {
            vstd::utf8::is_ascii_chars_concat(enc, a1 + a2, r);
        }
        assert(fixed_view(points) =~= seq![(p.0 as int, p.1 as int)] + fixed_view(rest));
    }
}

proof fn lemma_valid_points_valid(ps: Seq<(int, int)>)
    ensures
        forall|i: int| 0 <= i < valid_points(ps).len() ==> is_valid_fixed(#[trigger] valid_points(ps)[i]),
        valid_points(ps).len() <= ps.len(),
    decreases ps.len(),
{
    if ps.len() > 0 {
        let rest = valid_points(ps.drop_first());
        lemma_valid_points_valid(ps.drop_first());
        if is_valid_fixed(ps[0]) {
            assert forall|i: int| 0 <= i < valid_points(ps).len() implies is_valid_fixed(
                #[trigger] valid_points(ps)[i],
            ) by {
                if i > 0 {
                    assert(valid_points(ps)[i] == rest[i - 1]);
                }
            }
        }
    }
}

/// Decoding yields only valid coordinates (latitude within ±90°, longitude
/// within ±180°, not the origin), never more than the input describes.
pub proof fn lemma_decoded_polyline_valid(s: Seq<u8>)
    ensures
        forall|i: int|
            0 <= i < decoded_polyline(s).len() ==> is_valid_fixed(#[trigger] decoded_polyline(s)[i]),
        decoded_polyline(s).len() <= polyline_points(s, 0, 0).len(),
{
    lemma_valid_points_valid(polyline_points(s, 0, 0));
}

/// Polyline round trip: decoding the encoding of fixed-point coordinates whose
/// deltas lie in [-2^30, 2^30) never leaves the decoder's range and gives back
/// exactly those of the coordinates that the decoder keeps (the valid ones).
pub proof fn lemma_polyline_roundtrip(points: Seq<(i32, i32)>)
    requires
        deltas_small(points, 0, 0),
    ensures
        polyline_fits(encode_utf8(polyline_encoding(points, 0, 0)), 0, 0),
        decoded_polyline(encode_utf8(polyline_encoding(points, 0, 0))) == valid_points(
            fixed_view(points),
        ),
{
    let enc = polyline_encoding(points, 0, 0);
    lemma_points_roundtrip(points, 0, 0);
    vstd::utf8::is_ascii_chars_encode_utf8(enc);
    assert(encode_utf8(enc) =~= char_bytes(enc));
}

} // verus!
