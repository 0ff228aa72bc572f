//! Byte-plane splitting for numeric arrays.
//!
//! Elements of two or four bytes are split by byte position: the exponent bytes of
//! floats cluster and compress well, the mantissa bytes are stored raw.
//!
//! Layout: `[width: u8] [plane_flags: u8] [plane_size: u32 LE]... [plane]... [tail]`,
//! where bit `i` of the flags tells that plane `i` is range coded.
//!
//! Entropies, in bits per byte, and differences of entropies are passed as the bit
//! patterns of doubles read as signed integers: for values that are not NaN, patterns of
//! one sign compare as the values do, and those of negative values are negative.

use crate::bytes::{
    copy_of, le_bytes, le_value, lemma_le_bytes_len, lemma_le_round_trip, lemma_pow256_values,
    push_all, push_le, read_le,
};
use crate::coding::rans::{
    decode_block, decode_outcome, encode_block, encode_outcome, range_coding_round_trips,
};
use crate::entropy::traits::{resets_to, tables_valid, ProbabilityPredictor};
use crate::error::{same_bytes, AetherError, ErrorModel, Result};
use crate::format::MAX_DECOMPRESSED_BLOCK_SIZE;
use crate::text::{append_decimal, decimal, text_around_numbers, text_with_number};
use vstd::prelude::*;
use vstd::slice::slice_subrange;
use vstd::string::*;

verus! {

/// Minimum chunk size to attempt byte-plane splitting.
pub const MIN_BYTEPLANE_SIZE: usize = 64;

/// The bit pattern of 7.0: planes with an entropy below it are range coded.
pub const PLANE_COMPRESS_THRESHOLD: i64 = 0x401C_0000_0000_0000;

/// The bit pattern of 1.5: a plane must have an entropy lower than the whole by more.
pub const MIN_ENTROPY_GAIN: i64 = 0x3FF8_0000_0000_0000;

/// Fewest elements for which splitting is considered.
pub const MIN_ELEMENTS: usize = 32;

/// Most elements whose first bytes are sampled.
pub const MAX_SAMPLE: usize = 1024;

/// Element width for byte-plane splitting.
#[derive(Debug, Clone, Copy, PartialEq, Eq, Structural)]
pub enum BytePlaneWidth {
    /// 2-byte elements (BF16, FP16, i16, u16).
    Two,
    /// 4-byte elements (FP32, i32, u32).
    Four,
}

impl BytePlaneWidth {
    /// The number of bytes of an element.
    pub open spec fn number(self) -> nat {
        match self {
            BytePlaneWidth::Two => 2,
            BytePlaneWidth::Four => 4,
        }
    }

    /// The width stored as `v`.
    pub fn from_u8(v: u8) -> (r: Option<BytePlaneWidth>)
        ensures
            match r {
                Some(w) => w.number() == v,
                None => v != 2 && v != 4,
            },
    {
        match v {
            2 => Some(BytePlaneWidth::Two),
            4 => Some(BytePlaneWidth::Four),
            _ => None,
        }
    }

    /// Number of byte planes.
    pub fn planes(self) -> (n: usize)
        ensures
            n == self.number(),
    {
        match self {
            BytePlaneWidth::Two => 2,
            BytePlaneWidth::Four => 4,
        }
    }
}

/// Plane `j` of `data` in elements of `w` bytes.
pub open spec fn plane_of(data: Seq<u8>, w: nat, j: int) -> Seq<u8> {
    Seq::new(data.len() / w, |k: int| data[k * w + j])
}

/// All planes of `data`.
pub open spec fn planes_of(data: Seq<u8>, w: nat) -> Seq<Seq<u8>> {
    Seq::new(w, |j: int| plane_of(data, w, j))
}

/// The bytes after the last whole element.
pub open spec fn tail_of(data: Seq<u8>, w: nat) -> Seq<u8> {
    data.skip((data.len() / w * w) as int)
}

/// The contents of a list of byte vectors.
pub open spec fn contents(planes: Seq<Vec<u8>>) -> Seq<Seq<u8>> {
    planes.map_values(|p: Vec<u8>| p@)
}

/// Element `i`, one byte of each plane.
pub open spec fn element(planes: Seq<Seq<u8>>, i: int) -> Seq<u8> {
    Seq::new(planes.len(), |j: int| planes[j][i])
}

/// The first `n` elements one after the other.
pub open spec fn elements(planes: Seq<Seq<u8>>, n: nat) -> Seq<u8>
    decreases n,
{
    if n == 0 {
        Seq::empty()
    } else {
        elements(planes, (n - 1) as nat) + element(planes, n - 1)
    }
}

/// The planes merged, followed by `tail`.
pub open spec fn merged(planes: Seq<Seq<u8>>, tail: Seq<u8>) -> Seq<u8> {
    if planes.len() == 0 {
        tail
    } else {
        elements(planes, planes[0].len()) + tail
    }
}

proof fn lemma_element_bound(len: nat, w: nat, k: int, j: int)
    requires
        w > 0,
        0 <= k < len / w,
        0 <= j < w,
    ensures
        0 <= k * w,
        k * w + j < len / w * w <= len,
        k * w + w <= len / w * w,
{
    let n = len / w;
    assert(n * w <= len) by (nonlinear_arith)
        requires
            n == len / w,
            w > 0,
    ;
    assert(k * w + w <= n * w) by (nonlinear_arith)
        requires
            k + 1 <= n,
            w > 0,
    ;
    assert(0 <= k * w) by (nonlinear_arith)
        requires
            0 <= k,
            w > 0,
    ;
}

/// Splits `data` into its planes and the bytes after the last whole element.
pub fn byteplane_split(data: &[u8], width: BytePlaneWidth) -> (r: (Vec<Vec<u8>>, Vec<u8>))
    ensures
        contents(r.0@) == planes_of(data@, width.number()),
        r.1@ == tail_of(data@, width.number()),
{
    let w: usize = width.planes();
    let n_elements: usize = data.len() / w;
    let mut planes: Vec<Vec<u8>> = Vec::new();
    let mut j: usize = 0;
    while j < w
        invariant
            0 < w == width.number(),
            n_elements == data@.len() / w as nat,
            j <= w,
            planes@.len() == j,
            forall|i: int| 0 <= i < j ==> (#[trigger] planes@[i])@ == plane_of(data@, w as nat, i),
        decreases w - j,
    {
        let mut plane: Vec<u8> = Vec::new();
        let mut k: usize = 0;
        while k < n_elements
            invariant
                0 < w == width.number(),
                j < w,
                n_elements == data@.len() / w as nat,
                k <= n_elements,
                plane@ == plane_of(data@, w as nat, j as int).take(k as int),
            decreases n_elements - k,
        {
            proof {
                lemma_element_bound(data@.len(), w as nat, k as int, j as int);
                assert(data.len() == data@.len());
            }
            plane.push(data[k * w + j]);
            k = k + 1;
            assert(plane@ =~= plane_of(data@, w as nat, j as int).take(k as int));
        }
        assert(plane@ =~= plane_of(data@, w as nat, j as int));
        planes.push(plane);
        j = j + 1;
    }
    proof {
        assert(n_elements * w <= data@.len()) by (nonlinear_arith)
            requires
                n_elements == data@.len() / w as nat,
                w > 0,
        ;
        assert(data.len() == data@.len());
    }
    let tail = copy_of(slice_subrange(data, n_elements * w, data.len()));
    assert(tail@ =~= tail_of(data@, w as nat));
    assert(contents(planes@) =~= planes_of(data@, w as nat));
    (planes, tail)
}

proof fn lemma_elements_len(planes: Seq<Seq<u8>>, n: nat)
    ensures
        elements(planes, n).len() == n * planes.len(),
    decreases n,
{
    if n > 0 {
        lemma_elements_len(planes, (n - 1) as nat);
        let w = planes.len();
        assert((n - 1) * w + w == n * w) by (nonlinear_arith);
    } else {
        assert(0 * planes.len() == 0);
    }
}

/// Merges the planes and appends the tail.
pub fn byteplane_merge(planes: &[Vec<u8>], tail: &[u8]) -> (data: Vec<u8>)
    requires
        forall|j: int| 0 <= j < planes@.len() ==> (#[trigger] planes@[j])@.len()
            >= planes@[0]@.len(),
    ensures
        data@ == merged(contents(planes@), tail@),
{
    let mut data: Vec<u8> = Vec::new();
    if planes.len() == 0 {
        return copy_of(tail);
    }
    let n_elements: usize = planes[0].len();
    let w: usize = planes.len();
    let ghost all = contents(planes@);
    let mut i: usize = 0;
    while i < n_elements
        invariant
            i <= n_elements,
            0 < w == planes@.len(),
            all == contents(planes@),
            forall|j: int| 0 <= j < w ==> (#[trigger] planes@[j])@.len() >= n_elements,
            data@ == elements(all, i as nat),
        decreases n_elements - i,
    {
        let ghost before = data@;
        let mut j: usize = 0;
        while j < w
            invariant
                i < n_elements,
                j <= w == planes@.len(),
                all == contents(planes@),
                forall|k: int| 0 <= k < w ==> (#[trigger] planes@[k])@.len() >= n_elements,
                data@ == before + element(all, i as int).take(j as int),
            decreases w - j,
        {
            let byte: u8 = planes[j][i];
            data.push(byte);
            j = j + 1;
            assert(data@ =~= before + element(all, i as int).take(j as int));
        }
        assert(element(all, i as int).take(w as int) =~= element(all, i as int));
        i = i + 1;
    }
    push_all(&mut data, tail);
    data
}

proof fn lemma_elements_of_planes(data: Seq<u8>, w: nat, n: nat)
    requires
        w > 0,
        n <= data.len() / w,
    ensures
        n * w <= data.len(),
        elements(planes_of(data, w), n) == data.take((n * w) as int),
    decreases n,
{
    let planes = planes_of(data, w);
    if n == 0 {
        assert(0 * w == 0);
        assert(elements(planes, 0) =~= data.take(0));
    } else {
        let m = (n - 1) as nat;
        lemma_elements_of_planes(data, w, m);
        lemma_element_bound(data.len(), w, m as int, 0);
        assert(m * w + w == n * w) by (nonlinear_arith)
            requires
                m + 1 == n,
        ;
        let row = element(planes, m as int);
        assert forall|j: int| 0 <= j < w implies row[j] == data[m * w + j] by {
            assert(planes[j] == plane_of(data, w, j));
        }
        assert(data.take((m * w) as int) + row =~= data.take((n * w) as int));
    }
}

/// Merging the planes of `data` and its tail gives `data`.
pub proof fn split_merge_round_trips(data: Seq<u8>, width: BytePlaneWidth)
    ensures
        merged(planes_of(data, width.number()), tail_of(data, width.number())) == data,
{
    let w = width.number();
    let n = data.len() / w;
    lemma_elements_of_planes(data, w, n);
    let planes = planes_of(data, w);
    assert(planes[0].len() == n);
    assert(data.take((n * w) as int) + data.skip((n * w) as int) =~= data);
}

// Decisions by entropy.

/// The first bytes of the first elements, at most [`MAX_SAMPLE`] of them.
pub open spec fn first_plane_sample(data: Seq<u8>, w: nat) -> Seq<u8> {
    let n = data.len() / w;
    plane_of(data, w, 0).take(
        if n < MAX_SAMPLE {
            n as int
        } else {
            MAX_SAMPLE as int
        },
    )
}

/// The first bytes of the first elements, whose entropy is compared with that of `data`.
pub fn plane_sample(data: &[u8], width: BytePlaneWidth) -> (sample: Vec<u8>)
    ensures
        sample@ == first_plane_sample(data@, width.number()),
{
    let w: usize = width.planes();
    let n_elements: usize = data.len() / w;
    let sample_size: usize = if n_elements < MAX_SAMPLE {
        n_elements
    } else {
        MAX_SAMPLE
    };
    let mut sample: Vec<u8> = Vec::new();
    let mut k: usize = 0;
    while k < sample_size
        invariant
            0 < w == width.number(),
            n_elements == data@.len() / w as nat,
            k <= sample_size <= n_elements,
            sample@ == plane_of(data@, w as nat, 0).take(k as int),
        decreases sample_size - k,
    {
        proof {
            lemma_element_bound(data@.len(), w as nat, k as int, 0);
            assert(data.len() == data@.len());
        }
        sample.push(data[k * w]);
        k = k + 1;
        assert(sample@ =~= plane_of(data@, w as nat, 0).take(k as int));
    }
    sample
}

/// `data` has enough elements of `w` bytes for splitting.
pub open spec fn enough_elements(data: Seq<u8>, w: nat) -> bool {
    data.len() >= MIN_BYTEPLANE_SIZE && data.len() / w >= MIN_ELEMENTS
}

/// Tells whether splitting helps, where the entropy of `data` exceeds that of its
/// [`plane_sample`] by `gain`.
pub fn is_byteplane_beneficial(data: &[u8], width: BytePlaneWidth, gain: i64) -> (r: bool)
    ensures
        r == (enough_elements(data@, width.number()) && gain > MIN_ENTROPY_GAIN),
{
    if data.len() < MIN_BYTEPLANE_SIZE {
        return false;
    }
    if data.len() / width.planes() < MIN_ELEMENTS {
        return false;
    }
    gain > MIN_ENTROPY_GAIN
}

/// The width of the elements of `data`, where its entropy exceeds that of its
/// [`plane_sample`] by `gain_four` for four-byte and by `gain_two` for two-byte elements:
/// the one with the larger gain, four-byte elements where the gains are equal.
pub fn detect_numeric_width(data: &[u8], gain_four: i64, gain_two: i64) -> (r: Option<
    BytePlaneWidth,
>)
    ensures
        ({
            let four = enough_elements(data@, 4) && gain_four > MIN_ENTROPY_GAIN;
            let two = enough_elements(data@, 2) && gain_two > MIN_ENTROPY_GAIN;
            r == if four && !(two && gain_two > gain_four) {
                Some(BytePlaneWidth::Four)
            } else if two {
                Some(BytePlaneWidth::Two)
            } else {
                None
            }
        }),
{
    let four = is_byteplane_beneficial(data, BytePlaneWidth::Four, gain_four);
    let two = is_byteplane_beneficial(data, BytePlaneWidth::Two, gain_two);
    if four && !(two && gain_two > gain_four) {
        Some(BytePlaneWidth::Four)
    } else if two {
        Some(BytePlaneWidth::Two)
    } else {
        None
    }
}

/// Bit `i` of `flags` is set.
pub open spec fn has_flag(flags: u8, i: int) -> bool {
    (flags >> (i as u8)) & 1 == 1
}

/// The byte whose lowest bits are `bits`, the first one lowest.
pub open spec fn flags_of(bits: Seq<bool>) -> u8
    decreases bits.len(),
{
    if bits.len() == 0 {
        0
    } else if bits.last() {
        flags_of(bits.drop_last()) | (1u8 << ((bits.len() - 1) as u8))
    } else {
        flags_of(bits.drop_last())
    }
}

proof fn lemma_flag_bits(flags: u8, i: u8, j: u8)
    requires
        i < 8,
        j < 8,
    ensures
        (((flags | (1u8 << i)) >> j) & 1 == 1) == (i == j || ((flags >> j) & 1 == 1)),
        (0u8 >> j) & 1 == 0,
{
    assert((((flags | (1u8 << i)) >> j) & 1 == 1) == (i == j || ((flags >> j) & 1 == 1)))
        by (bit_vector)
        requires
            i < 8,
            j < 8,
    ;
    assert((0u8 >> j) & 1 == 0) by (bit_vector)
        requires
            j < 8,
    ;
}

proof fn lemma_flags_of(bits: Seq<bool>, i: int)
    requires
        bits.len() <= 8,
        0 <= i < 8,
    ensures
        has_flag(flags_of(bits), i) == (i < bits.len() && bits[i]),
    decreases bits.len(),
{
    if bits.len() == 0 {
        lemma_flag_bits(0, 0, i as u8);
    } else {
        lemma_flags_of(bits.drop_last(), i);
        lemma_flag_bits(flags_of(bits.drop_last()), (bits.len() - 1) as u8, i as u8);
    }
}

/// The planes to range code: those that are not empty and have an entropy below 7.0.
pub fn classify_planes(planes: &[Vec<u8>], entropies: &[i64]) -> (flags: u8)
    requires
        planes@.len() == entropies@.len() <= 8,
    ensures
        flags == flags_of(
            Seq::new(
                planes@.len(),
                |i: int| planes@[i]@.len() > 0 && entropies@[i] < PLANE_COMPRESS_THRESHOLD,
            ),
        ),
{
    let ghost bits = Seq::new(
        planes@.len(),
        |i: int| planes@[i]@.len() > 0 && entropies@[i] < PLANE_COMPRESS_THRESHOLD,
    );
    let mut flags: u8 = 0;
    let mut i: usize = 0;
    assert(bits.take(0) =~= Seq::<bool>::empty());
    while i < planes.len()
        invariant
            i <= planes@.len() == entropies@.len() <= 8,
            bits == Seq::new(
                planes@.len(),
                |i: int| planes@[i]@.len() > 0 && entropies@[i] < PLANE_COMPRESS_THRESHOLD,
            ),
            flags == flags_of(bits.take(i as int)),
        decreases planes@.len() - i,
    {
        assert(bits.take(i + 1).drop_last() =~= bits.take(i as int));
        if planes[i].len() != 0 && entropies[i] < PLANE_COMPRESS_THRESHOLD {
            flags = flags | (1u8 << (i as u8));
        }
        i = i + 1;
    }
    assert(bits.take(i as int) =~= bits);
    flags
}

// Payloads.

/// Whether a plane is written range coded: it is to be, the coding succeeds, and it is
/// smaller than the plane.
pub open spec fn plane_coded<P: ProbabilityPredictor>(
    m: P::Model,
    plane: Seq<u8>,
    flagged: bool,
) -> bool {
    flagged && (encode_outcome::<P>(m, plane) matches Ok(coded) && coded.len() < plane.len())
}

/// The bytes written for a plane.
pub open spec fn plane_bytes<P: ProbabilityPredictor>(
    m: P::Model,
    plane: Seq<u8>,
    flagged: bool,
) -> Seq<u8> {
    if plane_coded::<P>(m, plane, flagged) {
        encode_outcome::<P>(m, plane)->Ok_0
    } else {
        plane
    }
}

/// The bytes written for each plane.
pub open spec fn written_planes<P: ProbabilityPredictor>(
    m: P::Model,
    planes: Seq<Seq<u8>>,
    flags: u8,
) -> Seq<Seq<u8>> {
    Seq::new(planes.len(), |i: int| plane_bytes::<P>(m, planes[i], has_flag(flags, i)))
}

/// Which planes are written range coded.
pub open spec fn coded_planes<P: ProbabilityPredictor>(
    m: P::Model,
    planes: Seq<Seq<u8>>,
    flags: u8,
) -> Seq<bool> {
    Seq::new(planes.len(), |i: int| plane_coded::<P>(m, planes[i], has_flag(flags, i)))
}

/// The sizes of `parts`, four bytes each.
pub open spec fn size_table(parts: Seq<Seq<u8>>) -> Seq<u8>
    decreases parts.len(),
{
    if parts.len() == 0 {
        Seq::empty()
    } else {
        size_table(parts.drop_last()) + le_bytes(parts.last().len(), 4)
    }
}

/// All `parts` one after the other.
pub open spec fn joined(parts: Seq<Seq<u8>>) -> Seq<u8>
    decreases parts.len(),
{
    if parts.len() == 0 {
        Seq::empty()
    } else {
        joined(parts.drop_last()) + parts.last()
    }
}

/// The payload for `data`, with the planes in `flags` to be range coded.
pub open spec fn byteplane_payload<P: ProbabilityPredictor>(
    m: P::Model,
    data: Seq<u8>,
    w: nat,
    flags: u8,
) -> Seq<u8> {
    let planes = planes_of(data, w);
    let written = written_planes::<P>(m, planes, flags);
    seq![w as u8, flags_of(coded_planes::<P>(m, planes, flags))] + size_table(written) + joined(
        written,
    ) + tail_of(data, w)
}

proof fn lemma_size_table_len(parts: Seq<Seq<u8>>)
    ensures
        size_table(parts).len() == 4 * parts.len(),
    decreases parts.len(),
{
    if parts.len() > 0 {
        lemma_size_table_len(parts.drop_last());
        lemma_le_bytes_len(parts.last().len(), 4);
    }
}

/// Encodes `data` in elements of `width`, range coding the planes in `plane_flags` (see
/// [`classify_planes`]) where that makes them smaller.
///
/// Gives nothing where no plane is to be coded, where the payload is not smaller than
/// `data`, and where `data` is too small or too large.
pub fn byteplane_encode<P: ProbabilityPredictor>(
    data: &[u8],
    width: BytePlaneWidth,
    plane_flags: u8,
    predictor: &mut P,
) -> (r: Option<Vec<u8>>)
    requires
        resets_to::<P>(P::reset_of(old(predictor).model())),
    ensures
        ({
            let m = P::reset_of(old(predictor).model());
            let payload = byteplane_payload::<P>(m, data@, width.number(), plane_flags);
            let owed = MIN_BYTEPLANE_SIZE <= data@.len() <= MAX_DECOMPRESSED_BLOCK_SIZE
                && plane_flags != 0 && payload.len() < data@.len();
            match r {
                Some(v) => owed && v@ == payload && forall|i: int|
                    0 <= i < width.number() && has_flag(plane_flags, i) ==> #[trigger] tables_valid::<
                        P,
                    >(m, plane_of(data@, width.number(), i)),
                None => !owed,
            }
        }),
{
    let ghost m = P::reset_of(predictor.model());
    if data.len() < MIN_BYTEPLANE_SIZE || data.len() > MAX_DECOMPRESSED_BLOCK_SIZE {
        return None;
    }
    let (planes, tail) = byteplane_split(data, width);
    if plane_flags == 0 {
        return None;
    }
    let w: usize = width.planes();
    let ghost all = planes_of(data@, w as nat);
    let ghost written = written_planes::<P>(m, all, plane_flags);
    let ghost coded = coded_planes::<P>(m, all, plane_flags);
    let mut flags: u8 = 0;
    let mut sizes: Vec<u8> = Vec::new();
    let mut bodies: Vec<u8> = Vec::new();
    let mut i: usize = 0;
    assert(written.take(0) =~= Seq::<Seq<u8>>::empty());
    assert(coded.take(0) =~= Seq::<bool>::empty());
    proof {
        assert(contents(planes@).len() == w);
    }
    while i < w
        invariant
            i <= w <= 4,
            w == width.number(),
            MIN_BYTEPLANE_SIZE <= data@.len() <= MAX_DECOMPRESSED_BLOCK_SIZE,
            planes@.len() == w,
            all == planes_of(data@, w as nat),
            contents(planes@) == all,
            written == written_planes::<P>(m, all, plane_flags),
            coded == coded_planes::<P>(m, all, plane_flags),
            resets_to::<P>(m),
            flags == flags_of(coded.take(i as int)),
            sizes@ == size_table(written.take(i as int)),
            bodies@ == joined(written.take(i as int)),
            forall|k: int|
                0 <= k < i && has_flag(plane_flags, k) ==> #[trigger] tables_valid::<P>(
                    m,
                    plane_of(data@, w as nat, k),
                ),
        decreases w - i,
    {
        proof {
            assert(contents(planes@)[i as int] == planes@[i as int]@);
            assert(planes@[i as int]@ == plane_of(data@, w as nat, i as int));
            assert(written.take(i + 1).drop_last() =~= written.take(i as int));
            assert(coded.take(i + 1).drop_last() =~= coded.take(i as int));
            assert(P::reset_of(predictor.model()) == m);
            assert(data@.len() / w as nat <= data@.len()) by (nonlinear_arith)
                requires
                    w > 0,
            ;
            assert(data@.len() / w as nat > 0);
        }
        let plane = &planes[i];
        let mut part: Option<Vec<u8>> = None;
        if (plane_flags >> (i as u8)) & 1 == 1 {
            match encode_block(plane.as_slice(), predictor) {
                Ok(rc_bytes) => {
                    if rc_bytes.len() < plane.len() {
                        part = Some(rc_bytes);
                    }
                },
                Err(_) => {},
            }
        }
        match part {
            Some(rc_bytes) => {
                flags = flags | (1u8 << (i as u8));
                push_le(&mut sizes, rc_bytes.len() as u64, 4);
                push_all(&mut bodies, rc_bytes.as_slice());
            },
            None => {
                push_le(&mut sizes, plane.len() as u64, 4);
                push_all(&mut bodies, plane.as_slice());
            },
        }
        i = i + 1;
    }
    proof {
        assert(written.take(i as int) =~= written);
        assert(coded.take(i as int) =~= coded);
        lemma_size_table_len(written);
        lemma_written_len::<P>(m, data@, w as nat, plane_flags);
    }
    let total_size: usize = 2 + sizes.len() + bodies.len() + tail.len();
    if total_size >= data.len() {
        return None;
    }
    let mut payload: Vec<u8> = Vec::with_capacity(total_size);
    payload.push(w as u8);
    payload.push(flags);
    push_all(&mut payload, sizes.as_slice());
    push_all(&mut payload, bodies.as_slice());
    push_all(&mut payload, tail.as_slice());
    assert(payload@ =~= byteplane_payload::<P>(m, data@, w as nat, plane_flags));
    Some(payload)
}

/// The planes as written are no larger than the data.
proof fn lemma_written_len<P: ProbabilityPredictor>(m: P::Model, data: Seq<u8>, w: nat, flags: u8)
    requires
        w == 2 || w == 4,
    ensures
        joined(written_planes::<P>(m, planes_of(data, w), flags)).len() + tail_of(data, w).len()
            <= data.len(),
{
    let written = written_planes::<P>(m, planes_of(data, w), flags);
    let n = data.len() / w;
    lemma_joined_bound(written, n);
    if w == 2 {
        assert(n * w == 2 * n);
    } else {
        assert(n * w == 4 * n);
    }
}

proof fn lemma_joined_bound(parts: Seq<Seq<u8>>, n: nat)
    requires
        forall|i: int| 0 <= i < parts.len() ==> (#[trigger] parts[i]).len() <= n,
    ensures
        joined(parts).len() <= n * parts.len(),
    decreases parts.len(),
{
    if parts.len() > 0 {
        lemma_joined_bound(parts.drop_last(), n);
        let k = (parts.len() - 1) as nat;
        assert(n * k + n == n * (k + 1)) by (nonlinear_arith);
    } else {
        assert(n * 0 == 0);
    }
}

/// The size of plane `i` in the table of a payload.
pub open spec fn plane_size(payload: Seq<u8>, i: int) -> nat {
    le_value(payload.subrange(2 + 4 * i, 6 + 4 * i))
}

/// The first plane from `i` on whose size is above the limit.
pub open spec fn oversized_plane(payload: Seq<u8>, w: nat, i: nat) -> Option<nat>
    decreases w - i,
{
    if i >= w {
        None
    } else if plane_size(payload, i as int) > MAX_DECOMPRESSED_BLOCK_SIZE {
        Some(i)
    } else {
        oversized_plane(payload, w, i + 1)
    }
}

/// Where plane `i` starts: after the header and the planes before it.
pub open spec fn plane_start(payload: Seq<u8>, w: nat, i: nat) -> nat
    decreases i,
{
    if i == 0 {
        2 + 4 * w
    } else {
        plane_start(payload, w, (i - 1) as nat) + plane_size(payload, i - 1)
    }
}

/// What reading plane `i` of `n` bytes gives.
pub open spec fn plane_read<P: ProbabilityPredictor>(
    m: P::Model,
    payload: Seq<u8>,
    w: nat,
    n: nat,
    i: nat,
) -> std::result::Result<Seq<u8>, ErrorModel> {
    let size = plane_size(payload, i as int);
    let start = plane_start(payload, w, i) as int;
    let part = payload.subrange(start, (start + size) as int);
    if has_flag(payload[1], i as int) {
        decode_outcome::<P>(m, part, n)
    } else if size != n {
        Err(
            ErrorModel::Decompression(
                "BytePlane raw plane "@ + decimal(i) + " size mismatch: "@ + decimal(size)
                    + " vs expected "@ + decimal(n),
            ),
        )
    } else {
        Ok(part)
    }
}

/// What reading the planes from `i` on gives after `planes`.
pub open spec fn planes_read<P: ProbabilityPredictor>(
    m: P::Model,
    payload: Seq<u8>,
    w: nat,
    n: nat,
    planes: Seq<Seq<u8>>,
    i: nat,
) -> std::result::Result<Seq<Seq<u8>>, ErrorModel>
    decreases w - i,
{
    if i >= w {
        Ok(planes)
    } else {
        match plane_read::<P>(m, payload, w, n, i) {
            Err(e) => Err(e),
            Ok(plane) => planes_read::<P>(m, payload, w, n, planes.push(plane), i + 1),
        }
    }
}

/// What decoding a payload into `size` bytes gives.
pub open spec fn byteplane_decode_outcome<P: ProbabilityPredictor>(
    m: P::Model,
    payload: Seq<u8>,
    size: nat,
) -> std::result::Result<Seq<u8>, ErrorModel> {
    if payload.len() < 2 {
        Err(ErrorModel::Decompression("BytePlane payload too short: missing header"@))
    } else if payload[0] != 2 && payload[0] != 4 {
        Err(
            ErrorModel::Decompression(
                "BytePlane: invalid width byte "@ + decimal(payload[0] as nat),
            ),
        )
    } else {
        let w = payload[0] as nat;
        let n = size / w;
        let tail_start = plane_start(payload, w, w);
        let needed = tail_start + size % w;
        if payload.len() < 2 + 4 * w {
            Err(
                ErrorModel::Decompression(
                    "BytePlane payload too short for "@ + decimal(w) + " plane sizes: "@ + decimal(
                        payload.len(),
                    ) + " bytes"@,
                ),
            )
        } else if oversized_plane(payload, w, 0) is Some {
            let i = oversized_plane(payload, w, 0)->0;
            Err(
                ErrorModel::ResourceLimitExceeded(
                    "BytePlane plane "@ + decimal(i) + " size "@ + decimal(
                        plane_size(payload, i as int),
                    ) + " exceeds safety limit "@ + decimal(MAX_DECOMPRESSED_BLOCK_SIZE as nat),
                ),
            )
        } else if payload.len() < needed {
            Err(
                ErrorModel::Decompression(
                    "BytePlane payload too short: need "@ + decimal(needed) + " bytes, have "@
                        + decimal(payload.len()) + ""@,
                ),
            )
        } else {
            match planes_read::<P>(m, payload, w, n, Seq::empty(), 0) {
                Err(e) => Err(e),
                Ok(planes) => Ok(
                    merged(planes, payload.subrange(tail_start as int, needed as int)),
                ),
            }
        }
    }
}

/// `prefix`, `a`, `first`, `b`, `second`, then `c`, the numbers in decimal.
fn text_of_three(prefix: &str, a: u64, first: &str, b: u64, second: &str, c: u64) -> (s: String)
    ensures
        s@ == prefix@ + decimal(a as nat) + first@ + decimal(b as nat) + second@ + decimal(c as nat),
{
    let mut s = text_around_numbers(prefix, a, first, b, second);
    append_decimal(&mut s, c);
    s
}

/// Reads the sizes of the planes; an error names the first one above the limit.
fn read_plane_sizes(payload: &[u8], w: usize) -> (r: Result<Vec<usize>>)
    requires
        w == 2 || w == 4,
        payload@.len() >= 2 + 4 * w,
    ensures
        match r {
            Ok(sizes) => {
                &&& oversized_plane(payload@, w as nat, 0) is None
                &&& sizes@.len() == w
                &&& forall|i: int|
                    0 <= i < w ==> #[trigger] sizes@[i] == plane_size(payload@, i) && sizes@[i]
                        <= MAX_DECOMPRESSED_BLOCK_SIZE
            },
            Err(e) => oversized_plane(payload@, w as nat, 0) matches Some(i) && e@
                == ErrorModel::ResourceLimitExceeded(
                "BytePlane plane "@ + decimal(i) + " size "@ + decimal(
                    plane_size(payload@, i as int),
                ) + " exceeds safety limit "@ + decimal(MAX_DECOMPRESSED_BLOCK_SIZE as nat),
            ),
        },
{
    let mut sizes: Vec<usize> = Vec::new();
    let mut i: usize = 0;
    while i < w
        invariant
            i <= w <= 4,
            payload@.len() >= 2 + 4 * w,
            sizes@.len() == i,
            oversized_plane(payload@, w as nat, 0) == oversized_plane(payload@, w as nat, i as nat),
            forall|k: int|
                0 <= k < i ==> #[trigger] sizes@[k] == plane_size(payload@, k) && sizes@[k]
                    <= MAX_DECOMPRESSED_BLOCK_SIZE,
        decreases w - i,
    {
        let size: u64 = read_le(payload, 2 + 4 * i, 4);
        if size > MAX_DECOMPRESSED_BLOCK_SIZE as u64 {
            return Err(
                AetherError::ResourceLimitExceeded(
                    text_of_three(
                        "BytePlane plane ",
                        i as u64,
                        " size ",
                        size,
                        " exceeds safety limit ",
                        MAX_DECOMPRESSED_BLOCK_SIZE as u64,
                    ),
                ),
            );
        }
        sizes.push(size as usize);
        i = i + 1;
    }
    Ok(sizes)
}

/// Decodes a payload into `uncompressed_size` bytes.
pub fn byteplane_decode<P: ProbabilityPredictor>(
    payload: &[u8],
    uncompressed_size: usize,
    predictor: &mut P,
) -> (r: Result<Vec<u8>>)
    requires
        resets_to::<P>(P::reset_of(old(predictor).model())),
    ensures
        same_bytes(
            r,
            byteplane_decode_outcome::<P>(
                P::reset_of(old(predictor).model()),
                payload@,
                uncompressed_size as nat,
            ),
        ),
{
    let ghost m = P::reset_of(predictor.model());
    if payload.len() < 2 {
        return Err(
            AetherError::Decompression("BytePlane payload too short: missing header".to_string()),
        );
    }
    let w: usize = match BytePlaneWidth::from_u8(payload[0]) {
        Some(width) => width.planes(),
        None => {
            return Err(
                AetherError::Decompression(
                    text_with_number("BytePlane: invalid width byte ", payload[0] as u64),
                ),
            );
        },
    };
    if payload.len() < 2 + 4 * w {
        return Err(
            AetherError::Decompression(
                text_around_numbers(
                    "BytePlane payload too short for ",
                    w as u64,
                    " plane sizes: ",
                    payload.len() as u64,
                    " bytes",
                ),
            ),
        );
    }
    let sizes = match read_plane_sizes(payload, w) {
        Ok(sizes) => sizes,
        Err(e) => {
            return Err(e);
        },
    };
    let n_elements: usize = uncompressed_size / w;
    let tail_len: usize = uncompressed_size % w;
    let mut tail_start: usize = 2 + 4 * w;
    let mut i: usize = 0;
    while i < w
        invariant
            i <= w <= 4,
            sizes@.len() == w,
            forall|k: int|
                0 <= k < w ==> #[trigger] sizes@[k] == plane_size(payload@, k) && sizes@[k]
                    <= MAX_DECOMPRESSED_BLOCK_SIZE,
            tail_start == plane_start(payload@, w as nat, i as nat),
            tail_start <= 18 + i * MAX_DECOMPRESSED_BLOCK_SIZE,
        decreases w - i,
    {
        tail_start = tail_start + sizes[i];
        i = i + 1;
    }
    let needed: usize = tail_start + tail_len;
    if payload.len() < needed {
        return Err(
            AetherError::Decompression(
                text_around_numbers(
                    "BytePlane payload too short: need ",
                    needed as u64,
                    " bytes, have ",
                    payload.len() as u64,
                    "",
                ),
            ),
        );
    }
    let plane_flags: u8 = payload[1];
    let mut planes: Vec<Vec<u8>> = Vec::new();
    let mut offset: usize = 2 + 4 * w;
    let ghost outcome = planes_read::<P>(
        m,
        payload@,
        w as nat,
        n_elements as nat,
        Seq::empty(),
        0,
    );
    let ghost whole = byteplane_decode_outcome::<P>(m, payload@, uncompressed_size as nat);
    i = 0;
    assert(contents(planes@) =~= Seq::<Seq<u8>>::empty());
    while i < w
        invariant
            i <= w <= 4,
            payload@.len() >= 2,
            plane_flags == payload@[1],
            sizes@.len() == w,
            planes@.len() == i,
            resets_to::<P>(m),
            forall|k: int|
                0 <= k < w ==> #[trigger] sizes@[k] == plane_size(payload@, k) && sizes@[k]
                    <= MAX_DECOMPRESSED_BLOCK_SIZE,
            offset == plane_start(payload@, w as nat, i as nat),
            plane_start(payload@, w as nat, w as nat) <= payload@.len(),
            outcome == planes_read::<P>(
                m,
                payload@,
                w as nat,
                n_elements as nat,
                contents(planes@),
                i as nat,
            ),
            outcome matches Err(e) ==> whole == Err::<Seq<u8>, ErrorModel>(e),
            whole == byteplane_decode_outcome::<P>(
                P::reset_of(old(predictor).model()),
                payload@,
                uncompressed_size as nat,
            ),
            forall|k: int| 0 <= k < i ==> (#[trigger] planes@[k])@.len() == n_elements,
        decreases w - i,
    {
        proof {
            lemma_plane_start_monotone(payload@, w as nat, (i + 1) as nat, w as nat);
            assert(P::reset_of(predictor.model()) == m);
            assert(payload.len() == payload@.len());
        }
        let psize: usize = sizes[i];
        let plane_data = slice_subrange(payload, offset, offset + psize);
        let ghost before = planes@;
        if (plane_flags >> (i as u8)) & 1 == 1 {
            match decode_block(plane_data, n_elements, predictor) {
                Ok(decoded) => {
                    proof {
                        lemma_decoded_len::<P>(m, plane_data@, n_elements as nat);
                    }
                    planes.push(decoded);
                },
                Err(e) => {
                    return Err(e);
                },
            }
        } else {
            if psize != n_elements {
                return Err(
                    AetherError::Decompression(
                        text_of_three(
                            "BytePlane raw plane ",
                            i as u64,
                            " size mismatch: ",
                            psize as u64,
                            " vs expected ",
                            n_elements as u64,
                        ),
                    ),
                );
            }
            planes.push(copy_of(plane_data));
        }
        assert(contents(planes@) =~= contents(before).push(planes@[i as int]@));
        offset = offset + psize;
        i = i + 1;
    }
    let tail = slice_subrange(payload, tail_start, needed);
    Ok(byteplane_merge(planes.as_slice(), tail))
}

proof fn lemma_plane_start_monotone(payload: Seq<u8>, w: nat, i: nat, j: nat)
    requires
        i <= j,
    ensures
        plane_start(payload, w, i) <= plane_start(payload, w, j),
    decreases j,
{
    if i < j {
        lemma_plane_start_monotone(payload, w, i, (j - 1) as nat);
    }
}

proof fn lemma_decoded_len<P: ProbabilityPredictor>(m: P::Model, input: Seq<u8>, n: nat)
    ensures
        decode_outcome::<P>(m, input, n) matches Ok(data) ==> data.len() == n,
{
    crate::coding::rans::lemma_decode_from_len::<P>(
        crate::coding::rans::DecoderModel::start(input),
        m,
        input,
        n,
    );
}

/// Where the parts of a payload stand.
proof fn lemma_payload_parts(
    payload: Seq<u8>,
    head: Seq<u8>,
    parts: Seq<Seq<u8>>,
    tail: Seq<u8>,
    i: nat,
)
    requires
        head.len() == 2,
        payload == head + size_table(parts) + joined(parts) + tail,
        i <= parts.len(),
        forall|k: int|
            0 <= k < parts.len() ==> (#[trigger] parts[k]).len() <= MAX_DECOMPRESSED_BLOCK_SIZE,
    ensures
        plane_start(payload, parts.len(), i) == 2 + 4 * parts.len() + joined(
            parts.take(i as int),
        ).len(),
        forall|k: int| 0 <= k < i ==> #[trigger] plane_size(payload, k) == parts[k].len(),
    decreases i,
{
    lemma_size_table_len(parts);
    if i == 0 {
        assert(joined(parts.take(0)).len() == 0);
    } else {
        let k = i - 1;
        lemma_payload_parts(payload, head, parts, tail, k as nat);
        lemma_table_entry(parts, k);
        assert(payload.subrange(2 + 4 * k, 6 + 4 * k) =~= size_table(parts).subrange(
            4 * k,
            4 * k + 4,
        ));
        lemma_pow256_values();
        lemma_le_round_trip(parts[k].len(), 4);
        assert(parts.take(i as int).drop_last() =~= parts.take(k));
    }
}

/// The entry of part `k` in the size table.
proof fn lemma_table_entry(parts: Seq<Seq<u8>>, k: int)
    requires
        0 <= k < parts.len(),
    ensures
        size_table(parts).len() == 4 * parts.len(),
        size_table(parts).subrange(4 * k, 4 * k + 4) == le_bytes(parts[k].len(), 4),
    decreases parts.len(),
{
    lemma_size_table_len(parts);
    lemma_size_table_len(parts.drop_last());
    lemma_le_bytes_len(parts.last().len(), 4);
    let table = size_table(parts);
    if k == parts.len() - 1 {
        assert(table.subrange(4 * k, 4 * k + 4) =~= le_bytes(parts[k].len(), 4));
    } else {
        lemma_table_entry(parts.drop_last(), k);
        assert(table.subrange(4 * k, 4 * k + 4) =~= size_table(parts.drop_last()).subrange(
            4 * k,
            4 * k + 4,
        ));
    }
}

/// Part `k` stands behind the parts before it.
proof fn lemma_joined_part(parts: Seq<Seq<u8>>, k: int)
    requires
        0 <= k < parts.len(),
    ensures
        joined(parts.take(k)).len() + parts[k].len() <= joined(parts).len(),
        joined(parts).subrange(
            joined(parts.take(k)).len() as int,
            (joined(parts.take(k)).len() + parts[k].len()) as int,
        ) == parts[k],
    decreases parts.len(),
{
    let last = parts.len() - 1;
    if k == last {
        assert(parts.take(k) =~= parts.drop_last());
        assert(joined(parts).subrange(
            joined(parts.take(k)).len() as int,
            (joined(parts.take(k)).len() + parts[k].len()) as int,
        ) =~= parts[k]);
    } else {
        lemma_joined_part(parts.drop_last(), k);
        assert(parts.drop_last().take(k) =~= parts.take(k));
        let start = joined(parts.take(k)).len() as int;
        let end = start + parts[k].len();
        assert(joined(parts).subrange(start, end) =~= joined(parts.drop_last()).subrange(
            start,
            end,
        ));
    }
}

proof fn lemma_no_oversized_plane(payload: Seq<u8>, w: nat, i: nat)
    requires
        forall|k: int|
            0 <= k < w ==> #[trigger] plane_size(payload, k) <= MAX_DECOMPRESSED_BLOCK_SIZE,
    ensures
        oversized_plane(payload, w, i) is None,
    decreases w - i,
{
    if i < w {
        lemma_no_oversized_plane(payload, w, i + 1);
    }
}

/// Planes that are each read back are read back together.
proof fn lemma_planes_read<P: ProbabilityPredictor>(
    m: P::Model,
    payload: Seq<u8>,
    w: nat,
    n: nat,
    all: Seq<Seq<u8>>,
    i: nat,
)
    requires
        all.len() == w,
        i <= w,
        forall|k: nat|
            k < w ==> #[trigger] plane_read::<P>(m, payload, w, n, k) == Ok::<Seq<u8>, ErrorModel>(
                all[k as int],
            ),
    ensures
        planes_read::<P>(m, payload, w, n, all.take(i as int), i) == Ok::<
            Seq<Seq<u8>>,
            ErrorModel,
        >(all),
    decreases w - i,
{
    if i < w {
        lemma_planes_read::<P>(m, payload, w, n, all, i + 1);
        assert(plane_read::<P>(m, payload, w, n, i) is Ok);
        assert(all.take(i as int).push(all[i as int]) =~= all.take((i + 1) as int));
    } else {
        assert(all.take(i as int) =~= all);
    }
}

/// Decoding the payload of `data` gives `data`, when the planes to be range coded have
/// well-formed frequency tables.
#[verifier::rlimit(60)]
pub proof fn byteplane_round_trips<P: ProbabilityPredictor>(
    m: P::Model,
    data: Seq<u8>,
    width: BytePlaneWidth,
    flags: u8,
)
    requires
        data.len() <= MAX_DECOMPRESSED_BLOCK_SIZE,
        forall|i: int|
            0 <= i < width.number() && has_flag(flags, i) ==> #[trigger] tables_valid::<P>(
                m,
                plane_of(data, width.number(), i),
            ),
    ensures
        byteplane_decode_outcome::<P>(
            m,
            byteplane_payload::<P>(m, data, width.number(), flags),
            data.len(),
        ) == Ok::<Seq<u8>, ErrorModel>(data),
{
    let w = width.number();
    let n = data.len() / w;
    let planes = planes_of(data, w);
    let parts = written_planes::<P>(m, planes, flags);
    let coded = coded_planes::<P>(m, planes, flags);
    let tail = tail_of(data, w);
    let head = seq![w as u8, flags_of(coded)];
    let payload = byteplane_payload::<P>(m, data, w, flags);
    lemma_size_table_len(parts);
    assert forall|k: int| 0 <= k < parts.len() implies (#[trigger] parts[k]).len()
        <= MAX_DECOMPRESSED_BLOCK_SIZE by {
        assert(planes[k].len() == n);
    }
    lemma_payload_parts(payload, head, parts, tail, w);
    assert(parts.take(w as int) =~= parts);
    assert forall|k: int| 0 <= k < w implies #[trigger] plane_size(payload, k)
        <= MAX_DECOMPRESSED_BLOCK_SIZE by {
        assert(parts[k].len() <= MAX_DECOMPRESSED_BLOCK_SIZE);
    }
    lemma_no_oversized_plane(payload, w, 0);
    assert(tail.len() == data.len() % w);
    assert forall|k: nat| k < w implies #[trigger] plane_read::<P>(m, payload, w, n, k) == Ok::<
        Seq<u8>,
        ErrorModel,
    >(planes[k as int]) by {
        let i = k as int;
        lemma_payload_parts(payload, head, parts, tail, k);
        lemma_joined_part(parts, i);
        let start = plane_start(payload, w, k) as int;
        let part = payload.subrange(start, (start + plane_size(payload, i)) as int);
        assert(plane_size(payload, i) == parts[i].len());
        let base = joined(parts.take(i)).len() as int;
        assert(part =~= joined(parts).subrange(base, (base + parts[i].len()) as int));
        lemma_flags_of(coded, i);
        assert(payload[1] == flags_of(coded));
        if coded[i] {
            assert(planes[i] == plane_of(data, w, i));
            assert(tables_valid::<P>(m, plane_of(data, w, i)));
            range_coding_round_trips::<P>(m, planes[i]);
        }
    }
    lemma_planes_read::<P>(m, payload, w, n, planes, 0);
    assert(planes.take(0) =~= Seq::<Seq<u8>>::empty());
    let tail_start = plane_start(payload, w, w) as int;
    assert(payload.subrange(tail_start, (tail_start + data.len() % w) as int) =~= tail);
    split_merge_round_trips(data, width);
}

// What splitting is for.

/// What [`byteplane_split`] gives: plane `j` holds byte `j` of every element, in order, and
/// the tail what is left behind the last whole one.
pub proof fn planes_hold_the_bytes_of_elements(
    data: &[u8],
    width: BytePlaneWidth,
    r: (Vec<Vec<u8>>, Vec<u8>),
    j: int,
    k: int,
)
    requires
        call_ensures(byteplane_split, (data, width), r),
        0 <= j < width.number(),
        0 <= k,
        (k + 1) * width.number() <= data@.len(),
    ensures
        width.number() == 2 || width.number() == 4,
        width == BytePlaneWidth::Two <==> width.number() == 2,
        r.0@.len() == width.number(),
        r.0@[j]@.len() * width.number() + r.1@.len() == data@.len(),
        r.1@.len() < width.number(),
        r.0@[j]@[k] == data@[k * width.number() + j],
        r.1@ == data@.skip(data@.len() - r.1@.len()),
{
    let w = width.number();
    let n = data@.len() / w;
    assert(contents(r.0@).len() == r.0@.len());
    assert(planes_of(data@, w).len() == w);
    assert(contents(r.0@)[j] == r.0@[j]@);
    assert(planes_of(data@, w)[j] == plane_of(data@, w, j));
    assert(k < n) by (nonlinear_arith)
        requires
            (k + 1) * w <= data@.len(),
            n == data@.len() / w,
            w > 0,
    ;
    vstd::arithmetic::div_mod::lemma_fundamental_div_mod(data@.len() as int, w as int);
    vstd::arithmetic::div_mod::lemma_mod_bound(data@.len() as int, w as int);
    assert(w * n == n * w) by (nonlinear_arith);
    assert(r.1@ =~= data@.skip(data@.len() - r.1@.len()));
}

/// What [`byteplane_merge`] gives for what [`byteplane_split`] gave: the data.
pub proof fn merging_undoes_splitting(
    data: &[u8],
    width: BytePlaneWidth,
    r: (Vec<Vec<u8>>, Vec<u8>),
    planes: &[Vec<u8>],
    tail: &[u8],
    merged_data: Vec<u8>,
)
    requires
        call_ensures(byteplane_split, (data, width), r),
        planes@ == r.0@,
        tail@ == r.1@,
        call_ensures(byteplane_merge, (planes, tail), merged_data),
    ensures
        merged_data@ == data@,
{
    split_merge_round_trips(data@, width);
}

/// What [`plane_sample`] gives: the first byte of each element, of at most 1024.
pub proof fn samples_are_first_bytes(
    data: &[u8],
    width: BytePlaneWidth,
    sample: Vec<u8>,
    k: int,
)
    requires
        call_ensures(plane_sample, (data, width), sample),
    ensures
        0 <= k < sample@.len() ==> sample@[k] == data@[k * width.number()],
        sample@.len() == if data@.len() / width.number() < 1024 {
            (data@.len() / width.number()) as int
        } else {
            1024
        },
{
}

/// What [`is_byteplane_beneficial`] and [`detect_numeric_width`] give: splitting needs 64
/// bytes, 32 elements and a gain above 1.5 bits per byte, and the width with the larger gain
/// is taken, four bytes where they are equal.
pub proof fn widths_are_chosen_by_gain(
    data: &[u8],
    four: i64,
    two: i64,
    r: Option<BytePlaneWidth>,
    helps_four: bool,
    helps_two: bool,
)
    requires
        call_ensures(detect_numeric_width, (data, four, two), r),
        call_ensures(is_byteplane_beneficial, (data, BytePlaneWidth::Four, four), helps_four),
        call_ensures(is_byteplane_beneficial, (data, BytePlaneWidth::Two, two), helps_two),
    ensures
        helps_four <==> data@.len() >= 128 && four > 0x3FF8_0000_0000_0000,
        helps_two <==> data@.len() >= 64 && two > 0x3FF8_0000_0000_0000,
        r is None <==> !helps_four && !helps_two,
        r == Some(BytePlaneWidth::Four) ==> helps_four && (!helps_two || two <= four),
        r == Some(BytePlaneWidth::Two) ==> helps_two && (!helps_four || two > four),
{
    assert(BytePlaneWidth::Two.number() == 2 && BytePlaneWidth::Four.number() == 4);
    let n = data@.len();
    assert(n / 2 >= 32 <==> n >= 64);
    assert(n / 4 >= 32 <==> n >= 128);
}

/// What [`classify_planes`] gives: bit `i` is set exactly where plane `i` is there, is not
/// empty and has an entropy below 7 bits per byte.
pub proof fn planes_are_flagged_by_entropy(
    planes: &[Vec<u8>],
    entropies: &[i64],
    flags: u8,
    i: int,
)
    requires
        call_ensures(classify_planes, (planes, entropies), flags),
        planes@.len() == entropies@.len() <= 8,
        0 <= i < 8,
    ensures
        has_flag(flags, i) <==> i < planes@.len() && planes@[i]@.len() > 0 && entropies@[i]
            < 0x401C_0000_0000_0000,
{
    let bits = Seq::new(
        planes@.len(),
        |i: int| planes@[i]@.len() > 0 && entropies@[i] < PLANE_COMPRESS_THRESHOLD,
    );
    lemma_flags_of(bits, i);
}

/// Bit `i` of a byte counts 2 to the power of `i`.
pub proof fn flags_are_bits(flags: u8)
    ensures
        flags == (if has_flag(flags, 0) {
            1int
        } else {
            0
        }) + (if has_flag(flags, 1) {
            2int
        } else {
            0
        }) + (if has_flag(flags, 2) {
            4int
        } else {
            0
        }) + (if has_flag(flags, 3) {
            8int
        } else {
            0
        }) + 16 * (flags / 16),
{
    assert(flags == ((flags >> 0u8) & 1) + 2 * ((flags >> 1u8) & 1) + 4 * ((flags >> 2u8) & 1) + 8
        * ((flags >> 3u8) & 1) + 16 * (flags / 16) && ((flags >> 0u8) & 1) <= 1 && ((flags >> 1u8)
        & 1) <= 1 && ((flags >> 2u8) & 1) <= 1 && ((flags >> 3u8) & 1) <= 1) by (bit_vector);
}

/// A plane is written in the smaller of its forms: range coded where it is flagged, that
/// succeeds and is smaller, and else as it is.
pub proof fn planes_take_their_smaller_form<P: ProbabilityPredictor>(
    m: P::Model,
    plane: Seq<u8>,
    flagged: bool,
)
    ensures
        plane_bytes::<P>(m, plane, flagged).len() <= plane.len(),
        !flagged ==> plane_bytes::<P>(m, plane, flagged) == plane,
        flagged && encode_outcome::<P>(m, plane) is Ok ==> plane_bytes::<P>(m, plane, flagged).len()
            <= encode_outcome::<P>(m, plane)->Ok_0.len(),
        plane_bytes::<P>(m, plane, flagged) == plane || encode_outcome::<P>(m, plane) == Ok::<
            Seq<u8>,
            ErrorModel,
        >(plane_bytes::<P>(m, plane, flagged)),
{
}

/// What [`byteplane_encode`] and [`byteplane_decode`] give, one after the other.
pub proof fn split_data_is_restored<P: ProbabilityPredictor>(
    data: &[u8],
    width: BytePlaneWidth,
    flags: u8,
    writer: &mut P,
    r: Option<Vec<u8>>,
    payload: &[u8],
    reader: &mut P,
    back: Result<Vec<u8>>,
)
    requires
        call_ensures(byteplane_encode::<P>, (data, width, flags, writer), r),
        r is Some,
        payload@ == r->0@,
        call_ensures(byteplane_decode::<P>, (payload, data.len(), reader), back),
        P::reset_of(old(reader).model()) == P::reset_of(old(writer).model()),
    ensures
        payload@.len() < data@.len(),
        back is Ok && back->Ok_0@ == data@,
        64 <= data@.len() <= 67_108_864,
        payload@[0] == width.number(),
{
    byteplane_round_trips::<P>(P::reset_of(old(writer).model()), data@, width, flags);
}

proof fn lemma_read_planes_len<P: ProbabilityPredictor>(
    m: P::Model,
    payload: Seq<u8>,
    w: nat,
    n: nat,
    planes: Seq<Seq<u8>>,
    i: nat,
)
    requires
        i <= w,
        planes.len() == i,
        forall|k: int| 0 <= k < planes.len() ==> (#[trigger] planes[k]).len() == n,
        planes_read::<P>(m, payload, w, n, planes, i) is Ok,
        plane_start(payload, w, w) <= payload.len(),
    ensures
        ({
            let all = planes_read::<P>(m, payload, w, n, planes, i)->Ok_0;
            all.len() == w && forall|k: int| 0 <= k < w ==> (#[trigger] all[k]).len() == n
        }),
    decreases w - i,
{
    if i < w {
        let plane = plane_read::<P>(m, payload, w, n, i)->Ok_0;
        let size = plane_size(payload, i as int);
        let start = plane_start(payload, w, i) as int;
        let part = payload.subrange(start, (start + size) as int);
        crate::coding::rans::lemma_decode_from_len::<P>(
            crate::coding::rans::DecoderModel::start(part),
            m,
            part,
            n,
        );
        lemma_starts_grow(payload, w, i + 1, w);
        assert(plane_start(payload, w, i + 1) == start + size);
        lemma_read_planes_len::<P>(m, payload, w, n, planes.push(plane), i + 1);
    }
}

proof fn lemma_starts_grow(payload: Seq<u8>, w: nat, i: nat, j: nat)
    requires
        i <= j,
    ensures
        plane_start(payload, w, i) <= plane_start(payload, w, j),
    decreases j,
{
    if i < j {
        lemma_starts_grow(payload, w, i, (j - 1) as nat);
    }
}

/// What decodes has the expected size.
pub proof fn merged_data_has_the_expected_size<P: ProbabilityPredictor>(
    m: P::Model,
    payload: Seq<u8>,
    size: nat,
)
    requires
        byteplane_decode_outcome::<P>(m, payload, size) is Ok,
    ensures
        byteplane_decode_outcome::<P>(m, payload, size)->Ok_0.len() == size,
        payload[0] == 2 || payload[0] == 4,
{
    let w = payload[0] as nat;
    let n = size / w;
    let planes = planes_read::<P>(m, payload, w, n, Seq::empty(), 0)->Ok_0;
    lemma_read_planes_len::<P>(m, payload, w, n, Seq::empty(), 0);
    lemma_elements_len(planes, n);
    assert(planes[0].len() == n);
    assert(size == n * w + size % w) by {
        vstd::arithmetic::div_mod::lemma_fundamental_div_mod(size as int, w as int);
        assert(w * n == n * w) by (nonlinear_arith);
    }
}

} // verus!
