use vstd::prelude::*;

use vstd::string::StringSliceAdditionalSpecFns;

use crate::format::ShapeFormat;
use crate::point::{in_bounds, lat_in_bounds, lon_in_bounds, ShapePoint};

verus! {

/// Why an encoded shape could not be decoded.
#[derive(Debug, Clone, Copy, PartialEq, Eq, Structural)]
pub enum DecodeError {
    /// The encoded string holds no bytes.
    EmptyInput,
    /// A byte lies outside the printable range 63..=126 that the encoding uses.
    InvalidCharacter,
    /// The input ends while a field still announces more bytes.
    TruncatedField,
    /// A decoded coordinate falls outside the accepted bounds.
    CoordinateOutOfRange,
    /// The shape is declared in a format that has no decoder here.
    UnsupportedFormat,
}

/// The offset added to each six-bit value so that it is written as a
/// printable byte.
pub const GROUP_OFFSET: u8 = 63;

/// 2^35: a raw field value this large is a delta of at least 2^34
/// microdegrees, more than any step from a point in bounds to another.
pub const OVERSIZED_RAW: u64 = 0x8_0000_0000;

/// A byte that can stand in an encoded shape: a six-bit value plus 63.
pub open spec fn is_encoded_byte(b: u8) -> bool {
    63 <= b <= 126
}

/// The five data bits of an encoded byte: the low bits of the byte minus 63.
pub open spec fn group_of(b: u8) -> int {
    (b - 63) % 32
}

/// Whether another byte of the same field follows this one: bit 0x20 of the
/// byte minus 63 is set.
pub open spec fn has_more(b: u8) -> bool {
    b - 63 >= 32
}

/// The field that starts at index `i` of `s`: its raw value and the index
/// just past its last byte.
///
/// Each byte minus 63 holds five data bits and, in bit 0x20, the flag that
/// another byte of the field follows. The groups are read least significant
/// first. A byte outside 63..=126 is refused before any bit of it is used.
pub open spec fn field_at(s: Seq<u8>, i: int) -> Result<(int, int), DecodeError>
    decreases s.len() - i,
{
    if i >= s.len() || i < 0 {
        Err(DecodeError::TruncatedField)
    } else if !is_encoded_byte(s[i]) {
        Err(DecodeError::InvalidCharacter)
    } else {
        let g = group_of(s[i]);
        if !has_more(s[i]) {
            Ok((g, i + 1))
        } else {
            match field_at(s, i + 1) {
                Ok((rest, next)) => Ok((g + 32 * rest, next)),
                Err(e) => Err(e),
            }
        }
    }
}

/// The signed delta that a raw field value stands for: the low bit holds the
/// sign, and a negative delta is the complement of the remaining bits.
pub open spec fn zigzag(raw: int) -> int {
    if raw % 2 == 1 {
        -(raw / 2) - 1
    } else {
        raw / 2
    }
}

/// The points, as `(lon, lat)` in microdegrees, encoded from index `i` of `s`
/// on, where `lat` and `lon` are the coordinates of the point before them.
///
/// Each point is a latitude field then a longitude field, each a delta from
/// the point before.
pub open spec fn points_from(s: Seq<u8>, i: int, lat: int, lon: int) -> Result<
    Seq<(int, int)>,
    DecodeError,
>
    decreases s.len() - i,
{
    if i >= s.len() {
        Ok(Seq::empty())
    } else {
        match field_at(s, i) {
            Err(e) => Err(e),
            Ok((raw_lat, j)) => match field_at(s, j) {
                Err(e) => Err(e),
                Ok((raw_lon, k)) => {
                    let p = (lon + zigzag(raw_lon), lat + zigzag(raw_lat));
                    if !in_bounds(p) {
                        Err(DecodeError::CoordinateOutOfRange)
                    } else {
                        proof {
                            lemma_field_advances(s, i);
                            lemma_field_advances(s, j);
                        }
                        prepend(seq![p], points_from(s, k, p.1, p.0))
                    }
                },
            },
        }
    }
}

/// `res` with `front` put before its points; an error stays as it is.
pub open spec fn prepend(front: Seq<(int, int)>, res: Result<Seq<(int, int)>, DecodeError>) -> Result<
    Seq<(int, int)>,
    DecodeError,
> {
    match res {
        Ok(rest) => Ok(front + rest),
        Err(e) => Err(e),
    }
}

/// What decoding the bytes `s` of a polyline6 shape gives: its points as
/// `(lon, lat)` in microdegrees, or the first error met from left to right.
pub open spec fn decoded(s: Seq<u8>) -> Result<Seq<(int, int)>, DecodeError> {
    if s.len() == 0 {
        Err(DecodeError::EmptyInput)
    } else {
        points_from(s, 0, 0, 0)
    }
}

/// The views of a sequence of points.
pub open spec fn points_view(v: Seq<ShapePoint>) -> Seq<(int, int)> {
    v.map_values(|p: ShapePoint| p@)
}

/// A field that ends ends after its start and within the input.
pub proof fn lemma_field_advances(s: Seq<u8>, i: int)
    ensures
        field_at(s, i) matches Ok((r, n)) ==> i < n <= s.len() && r >= 0,
    decreases s.len() - i,
{
    if 0 <= i < s.len() && is_encoded_byte(s[i]) && has_more(s[i]) {
        lemma_field_advances(s, i + 1);
    }
}

/// One field read from the input.
struct Field {
    /// The raw value, exact when `oversized` is false.
    raw: u64,
    /// Whether the raw value is at least `OVERSIZED_RAW`.
    oversized: bool,
    /// The index just past the field's last byte.
    next: usize,
}

/// The field that `f` stands for in `res`, given the field at the same place.
spec fn field_matches(f: Field, r: int, n: int) -> bool {
    &&& f.next == n
    &&& f.oversized == (r >= OVERSIZED_RAW)
    &&& !f.oversized ==> f.raw == r
}

/// `res` after the groups already read: `acc` below them, scaled by `scale`.
spec fn lift(res: Result<(int, int), DecodeError>, acc: int, scale: int) -> Result<
    (int, int),
    DecodeError,
> {
    match res {
        Ok((r, n)) => Ok((acc + scale * r, n)),
        Err(e) => Err(e),
    }
}

/// Reads the field that starts at `start`, checking each byte and the end of
/// the input before it is read.
///
/// A value that would not fit is not kept: it is only flagged as oversized,
/// which is enough to know that the coordinate it makes is out of bounds.
fn read_field(bytes: &[u8], start: usize) -> (res: Result<Field, DecodeError>)
    ensures
        match field_at(bytes@, start as int) {
            Ok((r, n)) => res matches Ok(f) && field_matches(f, r, n),
            Err(e) => res == Err::<Field, DecodeError>(e),
        },
{
    let mut i: usize = start;
    let mut acc: u64 = 0;
    let mut oversized: bool = false;
    let mut mult: u64 = 1;
    let ghost mut acc_math: int = 0;
    let ghost mut scale: int = 1;
    loop
        invariant
            start <= i,
            field_at(bytes@, start as int) == lift(field_at(bytes@, i as int), acc_math, scale),
            0 <= acc_math < scale,
            mult == 1 || mult == 0x20 || mult == 0x400 || mult == 0x8000 || mult == 0x10_0000
                || mult == 0x200_0000 || mult == 0x4000_0000 || mult == 0x8_0000_0000,
            mult < OVERSIZED_RAW ==> scale == mult,
            mult == OVERSIZED_RAW ==> scale >= OVERSIZED_RAW,
            oversized == (acc_math >= OVERSIZED_RAW),
            !oversized ==> acc == acc_math,
        decreases bytes@.len() - i,
    {
        if i >= bytes.len() {
            return Err(DecodeError::TruncatedField);
        }
        let b = bytes[i];
        if b < GROUP_OFFSET || b > 126 {
            return Err(DecodeError::InvalidCharacter);
        }
        let v: u8 = b - GROUP_OFFSET;
        let more: bool = v >= 32;
        let group: u8 = if more { v - 32 } else { v };
        proof {
            assert(0 <= group * scale <= 31 * scale) by (nonlinear_arith)
                requires 0 <= group <= 31, scale >= 1;
        }
        if !oversized {
            if mult < OVERSIZED_RAW {
                assert(group as u64 * mult <= 31 * 0x4000_0000) by (nonlinear_arith)
                    requires group <= 31, mult <= 0x4000_0000;
                acc = acc + group as u64 * mult;
            } else if group != 0 {
                assert(group * scale >= OVERSIZED_RAW) by (nonlinear_arith)
                    requires group >= 1, scale >= OVERSIZED_RAW;
                oversized = true;
            }
        }
        let ghost old_acc = acc_math;
        proof {
            acc_math = acc_math + group * scale;
            assert(scale * group == group * scale) by (nonlinear_arith);
        }
        i = i + 1;
        if !more {
            return Ok(Field { raw: acc, oversized, next: i });
        }
        proof {
            let rest = field_at(bytes@, i as int);
            if let Ok((r, n)) = rest {
                assert(old_acc + scale * (group + 32 * r) == acc_math + (32 * scale) * r)
                    by (nonlinear_arith)
                    requires acc_math == old_acc + group * scale;
            }
            scale = 32 * scale;
        }
        if mult < OVERSIZED_RAW {
            mult = mult * 32;
        }
    }
}

/// The delta that a raw field value below `OVERSIZED_RAW` stands for.
fn zigzag_delta(raw: u64) -> (d: i64)
    requires
        raw < OVERSIZED_RAW,
    ensures
        d == zigzag(raw as int),
{
    let half: i64 = (raw / 2) as i64;
    if raw % 2 == 1 {
        -half - 1
    } else {
        half
    }
}

/// An oversized raw value moves any coordinate in bounds out of them.
proof fn lemma_oversized_out_of_bounds(raw: int, prev: int)
    requires
        raw >= OVERSIZED_RAW,
        lon_in_bounds(prev),
    ensures
        !lon_in_bounds(prev + zigzag(raw)),
        !lat_in_bounds(prev + zigzag(raw)),
{
}

/// Putting `p` after `front` and then the points of `res` is putting
/// `front` before `p` and the points of `res`.
proof fn lemma_prepend_step(
    front: Seq<(int, int)>,
    p: (int, int),
    res: Result<Seq<(int, int)>, DecodeError>,
)
    ensures
        prepend(front, prepend(seq![p], res)) == prepend(front.push(p), res),
{
    if let Ok(rest) = res {
        assert(front + (seq![p] + rest) =~= front.push(p) + rest);
    }
}

/// Reading a field never reports an empty input.
proof fn lemma_field_error(s: Seq<u8>, i: int)
    ensures
        field_at(s, i) != Err::<(int, int), DecodeError>(DecodeError::EmptyInput),
    decreases s.len() - i,
{
    if 0 <= i < s.len() && is_encoded_byte(s[i]) && has_more(s[i]) {
        lemma_field_error(s, i + 1);
    }
}

/// Decoding the points after the first byte never reports an empty input.
proof fn lemma_points_error(s: Seq<u8>, i: int, lat: int, lon: int)
    ensures
        points_from(s, i, lat, lon) != Err::<Seq<(int, int)>, DecodeError>(
            DecodeError::EmptyInput,
        ),
    decreases s.len() - i,
{
    if i < s.len() {
        lemma_field_error(s, i);
        lemma_field_advances(s, i);
        if let Ok((raw_lat, j)) = field_at(s, i) {
            lemma_field_error(s, j);
            lemma_field_advances(s, j);
            if let Ok((raw_lon, k)) = field_at(s, j) {
                lemma_points_error(s, k, lat + zigzag(raw_lat), lon + zigzag(raw_lon));
            }
        }
    }
}

/// Whether `r` is what decoding the bytes `s` gives, points seen as
/// microdegrees.
pub open spec fn is_decoding_of(s: Seq<u8>, r: Result<Seq<ShapePoint>, DecodeError>) -> bool {
    match decoded(s) {
        Ok(pts) => r matches Ok(v) && points_view(v) == pts,
        Err(e) => r == Err::<Seq<ShapePoint>, DecodeError>(e),
    }
}

/// The points of a decoding result as a sequence.
pub open spec fn result_view(r: Result<Vec<ShapePoint>, DecodeError>) -> Result<
    Seq<ShapePoint>,
    DecodeError,
> {
    match r {
        Ok(v) => Ok(v@),
        Err(e) => Err(e),
    }
}

/// Decoding is deterministic: two decodings of the same bytes give the same
/// points, in the same order, or the same error.
pub proof fn lemma_decode_deterministic(
    s1: Seq<u8>,
    s2: Seq<u8>,
    r1: Result<Seq<ShapePoint>, DecodeError>,
    r2: Result<Seq<ShapePoint>, DecodeError>,
)
    requires
        s1 == s2,
        is_decoding_of(s1, r1),
        is_decoding_of(s2, r2),
    ensures
        r1 == r2,
{
    if let Ok(v1) = r1 {
        if let Ok(v2) = r2 {
            assert(points_view(v1) == points_view(v2));
            assert(v1.len() == points_view(v1).len() == v2.len());
            assert forall|k: int| 0 <= k < v1.len() implies v1[k] == v2[k] by {
                assert(points_view(v1)[k] == v1[k]@);
                assert(points_view(v2)[k] == v2[k]@);
            }
            assert(v1 =~= v2);
        }
    }
}

/// The last byte of a field that ends announces no further byte.
proof fn lemma_field_last_byte(s: Seq<u8>, i: int)
    ensures
        field_at(s, i) matches Ok((r, n)) ==> 0 < n <= s.len() && !has_more(s[n - 1]),
    decreases s.len() - i,
{
    if 0 <= i < s.len() && is_encoded_byte(s[i]) && has_more(s[i]) {
        lemma_field_last_byte(s, i + 1);
    }
}

/// From any index before the end, bytes whose last one announces another
/// byte give an error.
proof fn lemma_points_cut(s: Seq<u8>, i: int, lat: int, lon: int)
    requires
        0 <= i < s.len(),
        has_more(s[s.len() - 1]),
    ensures
        points_from(s, i, lat, lon) is Err,
    decreases s.len() - i,
{
    lemma_field_advances(s, i);
    lemma_field_last_byte(s, i);
    if let Ok((raw_lat, j)) = field_at(s, i) {
        lemma_field_advances(s, j);
        lemma_field_last_byte(s, j);
        if let Ok((raw_lon, k)) = field_at(s, j) {
            let p = (lon + zigzag(raw_lon), lat + zigzag(raw_lat));
            if in_bounds(p) {
                lemma_points_cut(s, k, p.1, p.0);
            }
        }
    }
}

/// A shape cut inside a field is never accepted: when the last byte announces
/// another byte of its field, decoding gives an error and no points.
pub proof fn lemma_cut_field_rejected(s: Seq<u8>)
    requires
        s.len() > 0,
        has_more(s.last()),
    ensures
        decoded(s) is Err,
{
    lemma_points_cut(s, 0, 0, 0);
}

/// Decodes a polyline6 shape into its points, in the order in which they are
/// encoded.
///
/// Every byte is checked before it is read: an empty input, a byte outside
/// the encoding's range, a field cut off by the end of the input and a point
/// outside the open coordinate bounds are each reported, whichever comes
/// first from left to right.
pub fn decode_shape_polyline6(encoded: &str) -> (res: Result<Vec<ShapePoint>, DecodeError>)
    ensures
        is_decoding_of(encoded.spec_bytes(), result_view(res)),
        encoded.spec_bytes().len() == 0 <==> res == Err::<Vec<ShapePoint>, DecodeError>(
            DecodeError::EmptyInput,
        ),
        res matches Ok(v) ==> forall|k: int| 0 <= k < v@.len() ==> in_bounds(#[trigger] v@[k]@),
{
    let bytes: &[u8] = encoded.as_bytes();
    if bytes.len() == 0 {
        return Err(DecodeError::EmptyInput);
    }
    let mut out: Vec<ShapePoint> = Vec::new();
    let mut i: usize = 0;
    let mut lat: i64 = 0;
    let mut lon: i64 = 0;
    proof {
        lemma_points_error(bytes@, 0, 0, 0);
        if let Ok(rest) = points_from(bytes@, 0, 0, 0) {
            assert(Seq::<(int, int)>::empty() + rest =~= rest);
        }
        assert(points_view(out@) =~= Seq::<(int, int)>::empty());
    }
    while i < bytes.len()
        invariant
            bytes@ == encoded.spec_bytes(),
            bytes@.len() > 0,
            decoded(bytes@) != Err::<Seq<(int, int)>, DecodeError>(DecodeError::EmptyInput),
            decoded(bytes@) == prepend(points_view(out@), points_from(bytes@, i as int, lat as int, lon as int)),
            lon_in_bounds(lon as int),
            lat_in_bounds(lat as int),
            forall|k: int| 0 <= k < out@.len() ==> in_bounds(#[trigger] out@[k]@),
        decreases bytes@.len() - i,
    {
        proof {
            lemma_field_advances(bytes@, i as int);
        }
        let f_lat = match read_field(bytes, i) {
            Ok(f) => f,
            Err(e) => return Err(e),
        };
        proof {
            lemma_field_advances(bytes@, f_lat.next as int);
        }
        let f_lon = match read_field(bytes, f_lat.next) {
            Ok(f) => f,
            Err(e) => return Err(e),
        };
        proof {
            if let Ok((raw_lat, _)) = field_at(bytes@, i as int) {
                if raw_lat >= OVERSIZED_RAW {
                    lemma_oversized_out_of_bounds(raw_lat, lat as int);
                }
            }
            if let Ok((raw_lon, _)) = field_at(bytes@, f_lat.next as int) {
                if raw_lon >= OVERSIZED_RAW {
                    lemma_oversized_out_of_bounds(raw_lon, lon as int);
                }
            }
        }
        if f_lat.oversized || f_lon.oversized {
            return Err(DecodeError::CoordinateOutOfRange);
        }
        let new_lat: i64 = lat + zigzag_delta(f_lat.raw);
        let new_lon: i64 = lon + zigzag_delta(f_lon.raw);
        if !(-180_000_000 < new_lon && new_lon < 180_000_000 && -90_000_000 < new_lat && new_lat
            < 90_000_000) {
            return Err(DecodeError::CoordinateOutOfRange);
        }
        let p = ShapePoint { lon_e6: new_lon as i32, lat_e6: new_lat as i32 };
        proof {
            lemma_prepend_step(
                points_view(out@),
                p@,
                points_from(bytes@, f_lon.next as int, new_lat as int, new_lon as int),
            );
            assert(points_view(out@.push(p)) =~= points_view(out@).push(p@));
        }
        out.push(p);
        lat = new_lat;
        lon = new_lon;
        i = f_lon.next;
    }
    proof {
        assert(points_view(out@) + Seq::<(int, int)>::empty() =~= points_view(out@));
    }
    Ok(out)
}

/// Decodes a shape declared in `format`; only polyline6 has a decoder, and
/// every other format is refused.
pub fn decode_shape(format: ShapeFormat, encoded: &str) -> (res: Result<
    Vec<ShapePoint>,
    DecodeError,
>)
    ensures
        format != ShapeFormat::Polyline6 ==> res == Err::<Vec<ShapePoint>, DecodeError>(
            DecodeError::UnsupportedFormat,
        ),
        format == ShapeFormat::Polyline6 ==> is_decoding_of(
            encoded.spec_bytes(),
            result_view(res),
        ),
{
    match format {
        ShapeFormat::Polyline6 => decode_shape_polyline6(encoded),
        _ => Err(DecodeError::UnsupportedFormat),
    }
}

} // verus!
