//! Burrows-Wheeler transform, move-to-front and zero-run coding.
//!
//! The Burrows-Wheeler transform sorts the rotations of the input and keeps their
//! last bytes; move-to-front turns the clustered bytes into small ranks; the zero
//! runs among the ranks are then written in bijective base 2.
//!
//! Layout of the combined output: `[primary_index: u32 LE] [ranks...]`.

use crate::bytes::{
    le_bytes, le_value, lemma_le_round_trip, lemma_pow256_values, push_all, push_le, read_le,
};
use crate::error::{same_bytes, AetherError, ErrorModel, Result};
use crate::format::MAX_DECOMPRESSED_BLOCK_SIZE;
use crate::text::{decimal, text_around_numbers};
use vstd::prelude::*;
use vstd::set_lib::*;
use vstd::slice::slice_subrange;
use vstd::string::*;

verus! {

/// Maximum input size for the Burrows-Wheeler transform (8 MiB).
pub const MAX_BWT_INPUT_SIZE: usize = 8_388_608;

// Order of byte strings.

/// `a` comes before `b` in lexicographic order, by their bytes at `k`.
pub open spec fn precedes_at(a: Seq<u8>, b: Seq<u8>, k: int) -> bool {
    &&& 0 <= k <= a.len()
    &&& k < b.len()
    &&& forall|i: int| 0 <= i < k ==> a[i] == b[i]
    &&& k == a.len() || a[k] < b[k]
}

/// `a` comes strictly before `b` in lexicographic order.
pub open spec fn precedes(a: Seq<u8>, b: Seq<u8>) -> bool {
    exists|k: int| precedes_at(a, b, k)
}

/// `order` lists the positions of `text` by the lexicographic order of the suffixes
/// that start there.
pub open spec fn is_suffix_order(text: Seq<u8>, order: Seq<i32>) -> bool {
    &&& order.len() == text.len()
    &&& forall|i: int| 0 <= i < order.len() ==> 0 <= #[trigger] order[i] < text.len()
    &&& forall|p: i32| 0 <= p < text.len() ==> #[trigger] order.contains(p)
    &&& forall|i: int, j: int|
        0 <= i < j < order.len() ==> #[trigger] precedes(
            text.skip(order[i] as int),
            #[trigger] text.skip(order[j] as int),
        )
}

/// The suffix order of `text`, by `divsufsort::sort_in_place`, which stores the
/// lexicographic order of the suffixes. It panics on texts of `i32::MAX` bytes and more.
#[verifier::external_body]
fn suffix_order(text: &[u8]) -> (order: Vec<i32>)
    requires
        text@.len() < i32::MAX,
    ensures
        is_suffix_order(text@, order@),
{
    let mut order = vec![0i32; text.len()];
    divsufsort::sort_in_place(text, &mut order);
    order
}

// The Burrows-Wheeler transform.

/// The byte before position `p` in `data`, cyclically.
pub open spec fn byte_before(data: Seq<u8>, p: int) -> u8 {
    data[(p + data.len() - 1) % (data.len() as int)]
}

/// `rows` lists the positions of `data` by the order of the rotations that start there:
/// by the suffixes of `data` written twice.
pub open spec fn is_rotation_order(data: Seq<u8>, rows: Seq<int>) -> bool {
    &&& rows.len() == data.len()
    &&& rows.no_duplicates()
    &&& forall|i: int| 0 <= i < rows.len() ==> 0 <= #[trigger] rows[i] < data.len()
    &&& forall|p: int| 0 <= p < data.len() ==> #[trigger] rows.contains(p)
    &&& forall|i: int, j: int|
        0 <= i < j < rows.len() ==> #[trigger] precedes(
            (data + data).skip(rows[i]),
            #[trigger] (data + data).skip(rows[j]),
        )
}

/// `bwt` holds the last bytes of the sorted rotations of `data`, and the unrotated
/// `data` is the one at `primary`.
pub open spec fn is_bwt_by(data: Seq<u8>, bwt: Seq<u8>, primary: int, rows: Seq<int>) -> bool {
    &&& is_rotation_order(data, rows)
    &&& bwt == rows.map_values(|p: int| byte_before(data, p))
    &&& 0 <= primary < rows.len()
    &&& rows[primary] == 0
}

/// `bwt` and `primary` are the Burrows-Wheeler transform of `data`.
pub open spec fn is_bwt(data: Seq<u8>, bwt: Seq<u8>, primary: int) -> bool {
    if data.len() == 0 {
        bwt.len() == 0 && primary == 0
    } else {
        exists|rows: Seq<int>| #[trigger] is_bwt_by(data, bwt, primary, rows)
    }
}

/// The position `p` is among the first `i` of `order`.
spec fn seen(order: Seq<i32>, i: int, p: int) -> bool {
    exists|j: int| 0 <= j < i && #[trigger] order[j] == p
}

/// Computes the Burrows-Wheeler transform of `data` and the row of `data` itself.
pub fn bwt_encode(data: &[u8]) -> (r: std::result::Result<(Vec<u8>, u32), &'static str>)
    ensures
        match r {
            Ok((bwt, primary)) => data@.len() <= MAX_BWT_INPUT_SIZE && is_bwt(
                data@,
                bwt@,
                primary as int,
            ),
            Err(text) => data@.len() > MAX_BWT_INPUT_SIZE && text@
                == "BWT input exceeds MAX_BWT_INPUT_SIZE"@,
        },
{
    let n: usize = data.len();
    if n == 0 {
        return Ok((Vec::new(), 0));
    }
    if n > MAX_BWT_INPUT_SIZE {
        return Err("BWT input exceeds MAX_BWT_INPUT_SIZE");
    }
    let mut doubled: Vec<u8> = Vec::with_capacity(2 * n);
    push_all(&mut doubled, data);
    push_all(&mut doubled, data);
    assert(doubled@ =~= data@ + data@);
    let order = suffix_order(doubled.as_slice());
    let mut bwt: Vec<u8> = Vec::with_capacity(n);
    let mut primary: u32 = 0;
    let ghost mut rows: Seq<int> = Seq::empty();
    let mut i: usize = 0;
    while i < order.len()
        invariant
            i <= order@.len(),
            n == data@.len(),
            0 < n <= MAX_BWT_INPUT_SIZE,
            is_suffix_order(data@ + data@, order@),
            rows.len() <= i,
            rows.len() == bwt@.len(),
            rows.no_duplicates(),
            forall|k: int| 0 <= k < rows.len() ==> 0 <= #[trigger] rows[k] < n,
            forall|k: int|
                0 <= k < i && order@[k] < n ==> rows.contains(#[trigger] order@[k] as int),
            forall|k: int| 0 <= k < rows.len() ==> seen(order@, i as int, #[trigger] rows[k]),
            forall|k: int, l: int|
                0 <= k < l < rows.len() ==> #[trigger] precedes(
                    (data@ + data@).skip(rows[k]),
                    #[trigger] (data@ + data@).skip(rows[l]),
                ),
            bwt@ == rows.map_values(|p: int| byte_before(data@, p)),
            rows.contains(0) ==> primary < rows.len() && rows[primary as int] == 0,
        decreases order@.len() - i,
    {
        let pos: usize = order[i] as usize;
        let ghost before = rows;
        if pos < n {
            proof {
                lemma_new_row(data@, order@, i as int, rows);
                rows = rows.push(pos as int);
                assert(rows[before.len() as int] == pos);
            }
            if pos == 0 {
                primary = bwt.len() as u32;
            }
            let byte: u8 = data[(pos + n - 1) % n];
            bwt.push(byte);
            assert(bwt@ =~= rows.map_values(|p: int| byte_before(data@, p)));
        }
        proof {
            assert forall|k: int| 0 <= k < rows.len() implies seen(
                order@,
                i + 1,
                #[trigger] rows[k],
            ) by {
                if k < before.len() {
                    assert(seen(order@, i as int, before[k]));
                } else {
                    assert(order@[i as int] == rows[k]);
                }
            }
            assert forall|k: int| 0 <= k < i + 1 && order@[k] < n implies rows.contains(
                #[trigger] order@[k] as int,
            ) by {
                if k < i {
                    assert(before.contains(order@[k] as int));
                    let l = before.index_of(order@[k] as int);
                    assert(rows[l] == order@[k]);
                }
            }
        }
        i = i + 1;
    }
    proof {
        assert forall|p: int| 0 <= p < n implies #[trigger] rows.contains(p) by {
            assert(order@.contains(p as i32));
        }
        lemma_rows_complete(rows, n as int);
        assert(is_bwt_by(data@, bwt@, primary as int, rows));
    }
    Ok((bwt, primary))
}

/// A position of the suffix order is not among the rows taken before it, and comes
/// after all of them.
proof fn lemma_new_row(data: Seq<u8>, order: Seq<i32>, i: int, rows: Seq<int>)
    requires
        is_suffix_order(data + data, order),
        0 <= i < order.len(),
        forall|k: int| 0 <= k < rows.len() ==> seen(order, i, #[trigger] rows[k]),
    ensures
        !rows.contains(order[i] as int),
        forall|k: int|
            0 <= k < rows.len() ==> #[trigger] precedes(
                (data + data).skip(rows[k]),
                (data + data).skip(order[i] as int),
            ),
{
    let text = data + data;
    assert forall|k: int| 0 <= k < rows.len() implies #[trigger] rows[k] != order[i] && precedes(
        text.skip(rows[k]),
        text.skip(order[i] as int),
    ) by {
        assert(seen(order, i, rows[k]));
        let j = choose|j: int| 0 <= j < i && #[trigger] order[j] == rows[k];
        assert(precedes(text.skip(order[j] as int), text.skip(order[i] as int)));
        lemma_precedes_irreflexive(text.skip(order[i] as int));
    }
}

proof fn lemma_precedes_irreflexive(a: Seq<u8>)
    ensures
        !precedes(a, a),
{
    if precedes(a, a) {
        let k = choose|k: int| precedes_at(a, a, k);
        assert(precedes_at(a, a, k));
    }
}

/// Distinct positions below `n` that include all of them are `n` many.
proof fn lemma_rows_complete(rows: Seq<int>, n: int)
    requires
        0 <= n,
        rows.no_duplicates(),
        forall|k: int| 0 <= k < rows.len() ==> 0 <= #[trigger] rows[k] < n,
        forall|p: int| 0 <= p < n ==> #[trigger] rows.contains(p),
    ensures
        rows.len() == n,
{
    rows.unique_seq_to_set();
    lemma_int_range(0, n);
    assert(rows.to_set() =~= set_int_range(0, n));
}

/// How many of the first `i` bytes of `s` are `c`.
pub open spec fn occurrences(s: Seq<u8>, c: int, i: int) -> int
    decreases i,
{
    if i <= 0 {
        0
    } else {
        occurrences(s, c, i - 1) + (if s[i - 1] == c {
            1int
        } else {
            0
        })
    }
}

/// How many of the first `i` bytes of `s` are below `c`.
pub open spec fn smaller(s: Seq<u8>, c: int, i: int) -> int
    decreases i,
{
    if i <= 0 {
        0
    } else {
        smaller(s, c, i - 1) + (if s[i - 1] < c {
            1int
        } else {
            0
        })
    }
}

/// The row of the rotation one byte before that of row `i`: the bytes of the transform
/// sorted, equal ones in the order in which they stand.
pub open spec fn previous_row(bwt: Seq<u8>, i: int) -> int {
    smaller(bwt, bwt[i] as int, bwt.len() as int) + occurrences(bwt, bwt[i] as int, i)
}

/// The row reached from `start` by going back `steps` bytes.
pub open spec fn row_walk(bwt: Seq<u8>, start: int, steps: nat) -> int
    decreases steps,
{
    if steps == 0 {
        start
    } else {
        previous_row(bwt, row_walk(bwt, start, (steps - 1) as nat))
    }
}

/// The bytes met by going back from row `primary`, in their original order.
pub open spec fn bwt_inverse(bwt: Seq<u8>, primary: int) -> Seq<u8> {
    Seq::new(bwt.len(), |i: int| bwt[row_walk(bwt, primary, (bwt.len() - 1 - i) as nat)])
}

proof fn lemma_smaller_zero(s: Seq<u8>, i: int)
    ensures
        smaller(s, 0, i) == 0,
    decreases i,
{
    if i > 0 {
        lemma_smaller_zero(s, i - 1);
    }
}

proof fn lemma_smaller_step(s: Seq<u8>, c: int, i: int)
    ensures
        smaller(s, c + 1, i) == smaller(s, c, i) + occurrences(s, c, i),
    decreases i,
{
    if i > 0 {
        lemma_smaller_step(s, c, i - 1);
    }
}

proof fn lemma_occurrences_bounds(s: Seq<u8>, c: int, i: int, j: int)
    requires
        0 <= i <= j <= s.len(),
    ensures
        0 <= occurrences(s, c, i) <= occurrences(s, c, j) <= j,
        0 <= smaller(s, c, j) <= j,
        i < j && s[i] == c ==> occurrences(s, c, i) < occurrences(s, c, j),
    decreases j,
{
    if i < j {
        lemma_occurrences_bounds(s, c, i, j - 1);
    } else if i > 0 {
        lemma_occurrences_bounds(s, c, i - 1, i - 1);
    }
}

/// Going back leads to a row.
proof fn lemma_previous_row_bounds(bwt: Seq<u8>, i: int)
    requires
        0 <= i < bwt.len(),
    ensures
        0 <= previous_row(bwt, i) < bwt.len(),
{
    let n = bwt.len() as int;
    let c = bwt[i] as int;
    lemma_occurrences_bounds(bwt, c, i, n);
    lemma_smaller_step(bwt, c, n);
    lemma_occurrences_bounds(bwt, c + 1, n, n);
}

proof fn lemma_row_walk_bounds(bwt: Seq<u8>, start: int, steps: nat)
    requires
        0 <= start < bwt.len(),
    ensures
        0 <= row_walk(bwt, start, steps) < bwt.len(),
    decreases steps,
{
    if steps > 0 {
        lemma_row_walk_bounds(bwt, start, (steps - 1) as nat);
        lemma_previous_row_bounds(bwt, row_walk(bwt, start, (steps - 1) as nat));
    }
}

/// Inverts the Burrows-Wheeler transform.
pub fn bwt_decode(bwt: &[u8], primary_index: u32) -> (r: std::result::Result<
    Vec<u8>,
    &'static str,
>)
    requires
        bwt@.len() <= u32::MAX,
    ensures
        match r {
            Ok(data) => (bwt@.len() == 0 || primary_index < bwt@.len()) && data@ == bwt_inverse(
                bwt@,
                primary_index as int,
            ),
            Err(text) => 0 < bwt@.len() <= primary_index && text@
                == "BWT primary index out of bounds"@,
        },
{
    let n: usize = bwt.len();
    if n == 0 {
        assert(bwt_inverse(bwt@, primary_index as int) =~= Seq::<u8>::empty());
        return Ok(Vec::new());
    }
    if primary_index as usize >= n {
        return Err("BWT primary index out of bounds");
    }
    let mut count: [u32; 256] = [0;256];
    let mut i: usize = 0;
    while i < n
        invariant
            i <= n == bwt@.len() <= u32::MAX,
            forall|c: int| 0 <= c < 256 ==> #[trigger] count@[c] == occurrences(bwt@, c, i as int),
        decreases n - i,
    {
        let c: usize = bwt[i] as usize;
        proof {
            lemma_occurrences_bounds(bwt@, c as int, i as int, i as int);
        }
        count[c] = count[c] + 1;
        i = i + 1;
    }
    let mut cumul: [u32; 256] = [0;256];
    let mut sum: u32 = 0;
    let mut c: usize = 0;
    proof {
        lemma_smaller_zero(bwt@, n as int);
    }
    while c < 256
        invariant
            c <= 256,
            n == bwt@.len() <= u32::MAX,
            forall|d: int| 0 <= d < 256 ==> #[trigger] count@[d] == occurrences(bwt@, d, n as int),
            forall|d: int| 0 <= d < c ==> #[trigger] cumul@[d] == smaller(bwt@, d, n as int),
            sum == smaller(bwt@, c as int, n as int),
        decreases 256 - c,
    {
        proof {
            lemma_smaller_step(bwt@, c as int, n as int);
            lemma_occurrences_bounds(bwt@, c + 1, n as int, n as int);
            lemma_occurrences_bounds(bwt@, c as int, n as int, n as int);
        }
        cumul[c] = sum;
        sum = sum + count[c];
        c = c + 1;
    }
    let mut lf: Vec<u32> = Vec::with_capacity(n);
    let mut occ: [u32; 256] = [0;256];
    i = 0;
    while i < n
        invariant
            i <= n == bwt@.len() <= u32::MAX,
            lf@.len() == i,
            forall|d: int| 0 <= d < 256 ==> #[trigger] cumul@[d] == smaller(bwt@, d, n as int),
            forall|d: int| 0 <= d < 256 ==> #[trigger] occ@[d] == occurrences(bwt@, d, i as int),
            forall|k: int| 0 <= k < i ==> #[trigger] lf@[k] == previous_row(bwt@, k),
        decreases n - i,
    {
        let c: usize = bwt[i] as usize;
        proof {
            lemma_occurrences_bounds(bwt@, c as int, i as int, i as int);
            lemma_previous_row_bounds(bwt@, i as int);
        }
        lf.push(cumul[c] + occ[c]);
        occ[c] = occ[c] + 1;
        i = i + 1;
    }
    let mut output: Vec<u8> = vec![0;n];
    let mut idx: usize = primary_index as usize;
    i = n;
    while i > 0
        invariant
            i <= n == bwt@.len() == lf@.len() == output@.len(),
            primary_index < n,
            idx < n,
            idx == row_walk(bwt@, primary_index as int, (n - i) as nat),
            forall|k: int| 0 <= k < n ==> #[trigger] lf@[k] == previous_row(bwt@, k),
            forall|k: int|
                i <= k < n ==> #[trigger] output@[k] == bwt@[row_walk(
                    bwt@,
                    primary_index as int,
                    (n - 1 - k) as nat,
                )],
        decreases i,
    {
        i = i - 1;
        output[i] = bwt[idx];
        proof {
            lemma_row_walk_bounds(bwt@, primary_index as int, (n - i) as nat);
        }
        idx = lf[idx] as usize;
    }
    assert(output@ =~= bwt_inverse(bwt@, primary_index as int));
    Ok(output)
}

// The inverse of the transform is the data.

/// A position at most `n` too far, taken round.
spec fn wrap(n: int, x: int) -> int {
    if x < n {
        x
    } else {
        x - n
    }
}

/// The rotation of `data` that starts at `p`.
spec fn rotation(data: Seq<u8>, p: int) -> Seq<u8> {
    Seq::new(data.len(), |k: int| data[wrap(data.len() as int, p + k)])
}

/// The position before `p`, cyclically.
spec fn before(n: int, p: int) -> int {
    if p == 0 {
        n - 1
    } else {
        p - 1
    }
}

proof fn lemma_byte_before(data: Seq<u8>, p: int)
    requires
        0 <= p < data.len(),
    ensures
        byte_before(data, p) == data[before(data.len() as int, p)],
        byte_before(data, p) == rotation(data, p)[data.len() - 1],
        byte_before(data, p) == rotation(data, before(data.len() as int, p))[0],
{
    let n = data.len() as int;
    if p == 0 {
        assert((n - 1) % n == n - 1) by (nonlinear_arith)
            requires
                n > 0,
        ;
    } else {
        assert((p + n - 1) % n == p - 1) by (nonlinear_arith)
            requires
                0 < p < n,
        ;
    }
}

/// Distinct strings of one length differ somewhere first.
proof fn lemma_precedes_total(a: Seq<u8>, b: Seq<u8>, k: int)
    requires
        a.len() == b.len(),
        0 <= k <= a.len(),
        forall|i: int| 0 <= i < k ==> a[i] == b[i],
        a != b,
    ensures
        precedes(a, b) || precedes(b, a),
    decreases a.len() - k,
{
    if k == a.len() {
        assert(a =~= b);
    } else if a[k] == b[k] {
        lemma_precedes_total(a, b, k + 1);
    } else if a[k] < b[k] {
        assert(precedes_at(a, b, k));
    } else {
        assert(precedes_at(b, a, k));
    }
}

proof fn lemma_precedes_transitive(a: Seq<u8>, b: Seq<u8>, c: Seq<u8>)
    requires
        precedes(a, b),
        precedes(b, c),
    ensures
        precedes(a, c),
{
    let j = choose|k: int| precedes_at(a, b, k);
    let k = choose|k: int| precedes_at(b, c, k);
    assert(precedes_at(a, c, if j < k {
        j
    } else {
        k
    }));
}

/// Rows are in the order of their rotations.
proof fn lemma_rows_sorted(data: Seq<u8>, rows: Seq<int>, i: int, j: int)
    requires
        is_rotation_order(data, rows),
        0 <= i <= j < rows.len(),
    ensures
        !precedes(rotation(data, rows[j]), rotation(data, rows[i])),
{
    let n = data.len() as int;
    let a = rotation(data, rows[i]);
    let b = rotation(data, rows[j]);
    if precedes(b, a) {
        let q = choose|q: int| precedes_at(b, a, q);
        if i == j {
            assert(false);
        }
        let u = (data + data).skip(rows[i]);
        let v = (data + data).skip(rows[j]);
        assert(precedes(u, v));
        let k = choose|k: int| precedes_at(u, v, k);
        assert forall|x: int| 0 <= x < n implies u[x] == #[trigger] a[x] && v[x] == b[x] by {
            assert(u[x] == (data + data)[rows[i] + x]);
            assert(v[x] == (data + data)[rows[j] + x]);
        }
        assert(u[q] == a[q] && v[q] == b[q]);
        if k < q {
            assert(u[k] == a[k] && v[k] == b[k]);
        }
    }
}

/// The bytes in column one and two of sorted rows decide which of two comes first.
proof fn lemma_shifted_order(data: Seq<u8>, bwt: Seq<u8>, rows: Seq<int>, i: int, j: int)
    requires
        is_rotation_order(data, rows),
        bwt == rows.map_values(|p: int| byte_before(data, p)),
        0 <= i < rows.len(),
        0 <= j < rows.len(),
        precedes(
            rotation(data, before(data.len() as int, rows[j])),
            rotation(data, before(data.len() as int, rows[i])),
        ),
    ensures
        bwt[j] < bwt[i] || (bwt[j] == bwt[i] && j < i),
{
    let n = data.len() as int;
    let a = rotation(data, before(n, rows[j]));
    let b = rotation(data, before(n, rows[i]));
    let ra = rotation(data, rows[j]);
    let rb = rotation(data, rows[i]);
    lemma_byte_before(data, rows[i]);
    lemma_byte_before(data, rows[j]);
    let q = choose|q: int| precedes_at(a, b, q);
    assert(a[0] == bwt[j] && b[0] == bwt[i]);
    if q > 0 {
        assert forall|x: int| 0 < x < n implies #[trigger] a[x] == ra[x - 1] && b[x] == rb[x
            - 1] by {}
        assert forall|x: int| 0 <= x < q - 1 implies ra[x] == rb[x] by {
            assert(a[x + 1] == b[x + 1]);
        }
        assert(a[q] == ra[q - 1] && b[q] == rb[q - 1]);
        assert(precedes_at(ra, rb, q - 1));
        if i <= j {
            lemma_rows_sorted(data, rows, i, j);
        }
    }
}

/// The rows that stand before row `i` when the bytes of the transform are sorted.
spec fn earlier_rows(bwt: Seq<u8>, i: int) -> Set<int> {
    set_int_range(0, bwt.len() as int).filter(
        |j: int| bwt[j] < bwt[i] || (bwt[j] == bwt[i] && j < i),
    )
}

proof fn lemma_count_smaller(bwt: Seq<u8>, c: int, m: int)
    requires
        0 <= m <= bwt.len(),
    ensures
        set_int_range(0, m).filter(|j: int| bwt[j] < c).finite(),
        set_int_range(0, m).filter(|j: int| bwt[j] < c).len() == smaller(bwt, c, m),
    decreases m,
{
    let f = |j: int| bwt[j] < c;
    lemma_int_range(0, m);
    if m > 0 {
        lemma_count_smaller(bwt, c, m - 1);
        let prev = set_int_range(0, m - 1).filter(f);
        if bwt[m - 1] < c {
            assert(set_int_range(0, m).filter(f) =~= prev.insert(m - 1));
        } else {
            assert(set_int_range(0, m).filter(f) =~= prev);
        }
    } else {
        assert(set_int_range(0, m).filter(f) =~= Set::empty());
    }
}

proof fn lemma_count_occurrences(bwt: Seq<u8>, c: int, m: int)
    requires
        0 <= m <= bwt.len(),
    ensures
        set_int_range(0, m).filter(|j: int| bwt[j] == c).finite(),
        set_int_range(0, m).filter(|j: int| bwt[j] == c).len() == occurrences(bwt, c, m),
    decreases m,
{
    let f = |j: int| bwt[j] == c;
    lemma_int_range(0, m);
    if m > 0 {
        lemma_count_occurrences(bwt, c, m - 1);
        let prev = set_int_range(0, m - 1).filter(f);
        if bwt[m - 1] == c {
            assert(set_int_range(0, m).filter(f) =~= prev.insert(m - 1));
        } else {
            assert(set_int_range(0, m).filter(f) =~= prev);
        }
    } else {
        assert(set_int_range(0, m).filter(f) =~= Set::empty());
    }
}

proof fn lemma_earlier_rows_count(bwt: Seq<u8>, i: int)
    requires
        0 <= i < bwt.len(),
    ensures
        earlier_rows(bwt, i).finite(),
        earlier_rows(bwt, i).len() == previous_row(bwt, i),
{
    let n = bwt.len() as int;
    let c = bwt[i] as int;
    lemma_count_smaller(bwt, c, n);
    lemma_count_occurrences(bwt, c, i);
    let a = set_int_range(0, n).filter(|j: int| bwt[j] < c);
    let b = set_int_range(0, i).filter(|j: int| bwt[j] == c);
    assert(earlier_rows(bwt, i) =~= a.union(b));
    assert(a.disjoint(b));
    lemma_set_disjoint_lens(a, b);
}

/// The row whose rotation starts at `p`.
spec fn row_of(rows: Seq<int>, p: int) -> int {
    choose|k: int| 0 <= k < rows.len() && #[trigger] rows[k] == p
}

proof fn lemma_row_of(data: Seq<u8>, rows: Seq<int>, p: int)
    requires
        is_rotation_order(data, rows),
        0 <= p < data.len(),
    ensures
        0 <= row_of(rows, p) < rows.len(),
        rows[row_of(rows, p)] == p,
{
    assert(rows.contains(p));
}

/// The position after `p`, cyclically.
spec fn after(n: int, p: int) -> int {
    if p == n - 1 {
        0
    } else {
        p + 1
    }
}

/// Going back one row goes back one byte.
proof fn lemma_previous_row_rotation(data: Seq<u8>, bwt: Seq<u8>, rows: Seq<int>, i: int)
    requires
        is_rotation_order(data, rows),
        bwt == rows.map_values(|p: int| byte_before(data, p)),
        0 <= i < rows.len(),
    ensures
        0 <= previous_row(bwt, i) < rows.len(),
        rotation(data, rows[previous_row(bwt, i)]) == rotation(
            data,
            before(data.len() as int, rows[i]),
        ),
{
    let n = data.len() as int;
    let target = rotation(data, before(n, rows[i]));
    let lf = previous_row(bwt, i);
    let earlier = earlier_rows(bwt, i);
    lemma_previous_row_bounds(bwt, i);
    lemma_earlier_rows_count(bwt, i);
    lemma_int_range(0, n);
    let reached = rotation(data, rows[lf]);
    if reached != target {
        lemma_precedes_total(reached, target, 0);
        if precedes(reached, target) {
            // Rows 0..=lf all come before the target; their successors' rows are earlier.
            lemma_int_range(0, lf + 1);
            let few = set_int_range(0, lf + 1);
            let f = |k: int| row_of(rows, after(n, rows[k]));
            assert forall|k: int| #[trigger] few.contains(k) implies earlier.contains(f(k)) by {
                let j = f(k);
                lemma_row_of(data, rows, after(n, rows[k]));
                assert(before(n, rows[j]) == rows[k]);
                if k < lf {
                    lemma_rows_sorted(data, rows, k, lf);
                    if rotation(data, rows[k]) != reached {
                        lemma_precedes_total(rotation(data, rows[k]), reached, 0);
                        lemma_precedes_transitive(rotation(data, rows[k]), reached, target);
                    }
                }
                lemma_shifted_order(data, bwt, rows, i, j);
            }
            assert forall|k: int, l: int|
                few.contains(k) && few.contains(l) && #[trigger] f(k) == #[trigger] f(
                    l,
                ) implies k == l by {
                lemma_row_of(data, rows, after(n, rows[k]));
                lemma_row_of(data, rows, after(n, rows[l]));
                assert(rows[k] == rows[l]);
            }
            lemma_injection_bound(few, earlier, f);
        } else {
            // Rows lf.. all come after the target, so the earlier rows and row i itself
            // have their predecessors among rows 0..lf.
            let many = earlier.insert(i);
            assert(!earlier.contains(i));
            lemma_int_range(0, lf);
            let few = set_int_range(0, lf);
            let f = |j: int| row_of(rows, before(n, rows[j]));
            assert forall|j: int| #[trigger] many.contains(j) implies few.contains(f(j)) by {
                let k = f(j);
                lemma_row_of(data, rows, before(n, rows[j]));
                assert(rows[k] == before(n, rows[j]));
                let shifted = rotation(data, rows[k]);
                if k >= lf {
                    lemma_rows_sorted(data, rows, lf, k);
                    if shifted != reached {
                        lemma_precedes_total(shifted, reached, 0);
                        lemma_precedes_transitive(target, reached, shifted);
                    }
                    if j == i {
                        lemma_precedes_irreflexive(target);
                    } else {
                        lemma_shifted_order(data, bwt, rows, j, i);
                    }
                }
            }
            assert forall|j: int, l: int|
                many.contains(j) && many.contains(l) && #[trigger] f(j) == #[trigger] f(
                    l,
                ) implies j == l by {
                lemma_row_of(data, rows, before(n, rows[j]));
                lemma_row_of(data, rows, before(n, rows[l]));
                assert(rows[j] == rows[l]);
            }
            lemma_injection_bound(many, few, f);
        }
    }
}

/// A set mapped one to one into a finite set is no larger.
proof fn lemma_injection_bound(a: Set<int>, b: Set<int>, f: spec_fn(int) -> int)
    requires
        a.finite(),
        b.finite(),
        forall|x: int| #[trigger] a.contains(x) ==> b.contains(f(x)),
        forall|x: int, y: int|
            a.contains(x) && a.contains(y) && #[trigger] f(x) == #[trigger] f(y) ==> x == y,
    ensures
        a.len() <= b.len(),
    decreases a.len(),
{
    if a.len() > 0 {
        let x = a.choose();
        assert(a.contains(x));
        let a2 = a.remove(x);
        let b2 = b.remove(f(x));
        assert forall|y: int| #[trigger] a2.contains(y) implies b2.contains(f(y)) by {
            assert(a.contains(y));
            assert(f(y) != f(x));
        }
        lemma_injection_bound(a2, b2, f);
    }
}

/// Row by row, going back from the unrotated data meets its bytes from last to first.
proof fn lemma_walk_rotation(
    data: Seq<u8>,
    bwt: Seq<u8>,
    primary: int,
    rows: Seq<int>,
    steps: nat,
)
    requires
        is_bwt_by(data, bwt, primary, rows),
        steps < data.len(),
    ensures
        0 <= row_walk(bwt, primary, steps) < rows.len(),
        rotation(data, rows[row_walk(bwt, primary, steps)]) == rotation(
            data,
            if steps == 0 {
                0
            } else {
                data.len() - steps
            },
        ),
    decreases steps,
{
    let n = data.len() as int;
    if steps > 0 {
        let prev = (steps - 1) as nat;
        lemma_walk_rotation(data, bwt, primary, rows, prev);
        let i = row_walk(bwt, primary, prev);
        lemma_previous_row_rotation(data, bwt, rows, i);
        let p = if prev == 0 {
            0
        } else {
            n - prev
        };
        let a = rotation(data, before(n, rows[i]));
        let b = rotation(data, before(n, p));
        assert forall|x: int| 0 <= x < n implies a[x] == b[x] by {
            if x == 0 {
                assert(rotation(data, rows[i])[n - 1] == rotation(data, p)[n - 1]);
            } else {
                assert(rotation(data, rows[i])[x - 1] == rotation(data, p)[x - 1]);
            }
        }
        assert(a =~= b);
    }
}

/// The inverse of a Burrows-Wheeler transform is the transformed data.
pub proof fn bwt_round_trips(data: Seq<u8>, bwt: Seq<u8>, primary: int)
    requires
        is_bwt(data, bwt, primary),
    ensures
        bwt.len() == data.len(),
        data.len() > 0 ==> 0 <= primary < data.len(),
        bwt_inverse(bwt, primary) == data,
{
    if data.len() == 0 {
        assert(bwt_inverse(bwt, primary) =~= data);
    } else {
        let n = data.len() as int;
        let rows = choose|rows: Seq<int>| #[trigger] is_bwt_by(data, bwt, primary, rows);
        assert forall|i: int| 0 <= i < n implies bwt_inverse(bwt, primary)[i] == data[i] by {
            let steps = (n - 1 - i) as nat;
            lemma_walk_rotation(data, bwt, primary, rows, steps);
            let row = row_walk(bwt, primary, steps);
            lemma_byte_before(data, rows[row]);
            let p = if steps == 0 {
                0
            } else {
                n - steps
            };
            assert(bwt[row] == rotation(data, rows[row])[n - 1]);
            assert(rotation(data, rows[row])[n - 1] == rotation(data, p)[n - 1]);
        }
        assert(bwt_inverse(bwt, primary) =~= data);
    }
}

// Move-to-front.

/// The list in which every byte stands at its own value.
pub open spec fn identity_list() -> Seq<u8> {
    Seq::new(256, |i: int| i as u8)
}

/// The list with the entry at `rank` moved to the front.
pub open spec fn moved_to_front(list: Seq<u8>, rank: int) -> Seq<u8> {
    seq![list[rank]] + list.remove(rank)
}

/// The ranks of the bytes of `data`, each in the list that the bytes before it left.
pub open spec fn mtf_ranks(list: Seq<u8>, data: Seq<u8>) -> Seq<u8>
    decreases data.len(),
{
    if data.len() == 0 {
        Seq::empty()
    } else {
        let rank = list.index_of(data[0]);
        seq![rank as u8] + mtf_ranks(moved_to_front(list, rank), data.drop_first())
    }
}

/// The bytes at the given ranks, each in the list that the ranks before it left.
pub open spec fn mtf_bytes(list: Seq<u8>, ranks: Seq<u8>) -> Seq<u8>
    decreases ranks.len(),
{
    if ranks.len() == 0 {
        Seq::empty()
    } else {
        let rank = ranks[0] as int;
        seq![list[rank]] + mtf_bytes(moved_to_front(list, rank), ranks.drop_first())
    }
}

/// A list of all 256 bytes.
spec fn is_byte_list(list: Seq<u8>) -> bool {
    &&& list.len() == 256
    &&& list.no_duplicates()
    &&& forall|b: u8| #[trigger] list.contains(b)
}

proof fn lemma_identity_list()
    ensures
        is_byte_list(identity_list()),
{
    let list = identity_list();
    assert forall|b: u8| #[trigger] list.contains(b) by {
        assert(list[b as int] == b);
    }
}

proof fn lemma_moved_is_byte_list(list: Seq<u8>, rank: int)
    requires
        is_byte_list(list),
        0 <= rank < 256,
    ensures
        is_byte_list(moved_to_front(list, rank)),
        forall|k: int|
            0 <= k < 256 ==> #[trigger] moved_to_front(list, rank)[k] == if k == 0 {
                list[rank]
            } else if k <= rank {
                list[k - 1]
            } else {
                list[k]
            },
{
    let moved = moved_to_front(list, rank);
    assert forall|b: u8| #[trigger] moved.contains(b) by {
        assert(list.contains(b));
        let k = list.index_of(b);
        if k < rank {
            assert(moved[k + 1] == b);
        } else if k == rank {
            assert(moved[0] == b);
        } else {
            assert(moved[k] == b);
        }
    }
}

/// `pos` gives the rank of every byte of `list`.
spec fn is_rank_table(list: Seq<u8>, pos: Seq<u8>) -> bool {
    &&& pos.len() == 256
    &&& forall|k: int| 0 <= k < 256 ==> pos[#[trigger] list[k] as int] == k
    &&& forall|b: int| 0 <= b < 256 ==> list[#[trigger] pos[b] as int] == b
}

/// Replaces every byte by its rank in a list in which used bytes move to the front.
pub fn mtf_encode(data: &[u8]) -> (ranks: Vec<u8>)
    ensures
        ranks@ == mtf_ranks(identity_list(), data@),
{
    let mut list: [u8; 256] = [0;256];
    let mut pos: [u8; 256] = [0;256];
    let mut i: usize = 0;
    while i < 256
        invariant
            i <= 256,
            forall|k: int| 0 <= k < i ==> #[trigger] list@[k] == k,
            forall|k: int| 0 <= k < i ==> #[trigger] pos@[k] == k,
        decreases 256 - i,
    {
        list[i] = i as u8;
        pos[i] = i as u8;
        i = i + 1;
    }
    proof {
        lemma_identity_list();
        assert(list@ =~= identity_list());
    }
    let mut output: Vec<u8> = Vec::with_capacity(data.len());
    i = 0;
    assert(data@.subrange(0, data@.len() as int) =~= data@);
    while i < data.len()
        invariant
            i <= data@.len(),
            is_byte_list(list@),
            is_rank_table(list@, pos@),
            mtf_ranks(identity_list(), data@) == output@ + mtf_ranks(
                list@,
                data@.subrange(i as int, data@.len() as int),
            ),
        decreases data@.len() - i,
    {
        let ghost rest = data@.subrange(i as int, data@.len() as int);
        let byte: u8 = data[i];
        let rank: u8 = pos[byte as usize];
        let ghost list0 = list@;
        let ghost pos0 = pos@;
        proof {
            assert(list0[rank as int] == byte);
            assert(list0.contains(byte));
            assert(list0.index_of(byte) == rank);
            lemma_moved_is_byte_list(list0, rank as int);
        }
        output.push(rank);
        if rank > 0 {
            let mut k: usize = rank as usize;
            while k > 0
                invariant
                    k <= rank,
                    list@.len() == 256,
                    pos@.len() == 256,
                    is_byte_list(list0),
                    is_rank_table(list0, pos0),
                    forall|x: int|
                        0 <= x < 256 ==> #[trigger] list@[x] == if k < x <= rank {
                            list0[x - 1]
                        } else {
                            list0[x]
                        },
                    forall|b: int|
                        0 <= b < 256 ==> #[trigger] pos@[b] == if k <= pos0[b] < rank {
                            pos0[b] + 1
                        } else {
                            pos0[b] as int
                        },
                decreases k,
            {
                let b: u8 = list[k - 1];
                assert(pos0[list0[k - 1] as int] == k - 1);
                list[k] = b;
                pos[b as usize] = k as u8;
                k = k - 1;
            }
            list[0] = byte;
            pos[byte as usize] = 0;
        }
        proof {
            let moved = moved_to_front(list0, rank as int);
            assert(list@ =~= moved);
            assert forall|b: int| 0 <= b < 256 implies list@[#[trigger] pos@[b] as int] == b by {
                assert(list0[pos0[b] as int] == b);
            }
            assert forall|x: int| 0 <= x < 256 implies pos@[#[trigger] list@[x] as int] == x by {
                let y = if x == 0 {
                    rank as int
                } else if x <= rank {
                    x - 1
                } else {
                    x
                };
                assert(list@[x] == list0[y]);
                assert(pos0[list0[y] as int] == y);
                assert(pos0[byte as int] == rank);
            }
            assert(rest.drop_first() =~= data@.subrange(i + 1, data@.len() as int));
            let tail = mtf_ranks(moved, rest.drop_first());
            assert(output@ + tail =~= (output@.drop_last() + (seq![rank] + tail)));
        }
        i = i + 1;
    }
    assert(output@ =~= mtf_ranks(identity_list(), data@));
    output
}

/// Replaces every rank by the byte at it in a list in which used bytes move to the front.
pub fn mtf_decode(data: &[u8]) -> (bytes: Vec<u8>)
    ensures
        bytes@ == mtf_bytes(identity_list(), data@),
{
    let mut list: [u8; 256] = [0;256];
    let mut i: usize = 0;
    while i < 256
        invariant
            i <= 256,
            forall|k: int| 0 <= k < i ==> #[trigger] list@[k] == k,
        decreases 256 - i,
    {
        list[i] = i as u8;
        i = i + 1;
    }
    assert(list@ =~= identity_list());
    let mut output: Vec<u8> = Vec::with_capacity(data.len());
    i = 0;
    assert(data@.subrange(0, data@.len() as int) =~= data@);
    while i < data.len()
        invariant
            i <= data@.len(),
            list@.len() == 256,
            mtf_bytes(identity_list(), data@) == output@ + mtf_bytes(
                list@,
                data@.subrange(i as int, data@.len() as int),
            ),
        decreases data@.len() - i,
    {
        let ghost rest = data@.subrange(i as int, data@.len() as int);
        let rank: u8 = data[i];
        let byte: u8 = list[rank as usize];
        let ghost list0 = list@;
        output.push(byte);
        if rank > 0 {
            let mut k: usize = rank as usize;
            while k > 0
                invariant
                    k <= rank,
                    list@.len() == 256,
                    forall|x: int|
                        0 <= x < 256 ==> #[trigger] list@[x] == if k < x <= rank {
                            list0[x - 1]
                        } else {
                            list0[x]
                        },
                decreases k,
            {
                list[k] = list[k - 1];
                k = k - 1;
            }
            list[0] = byte;
        }
        proof {
            let moved = moved_to_front(list0, rank as int);
            assert(list@ =~= moved);
            assert(rest.drop_first() =~= data@.subrange(i + 1, data@.len() as int));
            let tail = mtf_bytes(moved, rest.drop_first());
            assert(output@ + tail =~= (output@.drop_last() + (seq![byte] + tail)));
        }
        i = i + 1;
    }
    assert(output@ =~= mtf_bytes(identity_list(), data@));
    output
}

proof fn lemma_mtf_round_trips(list: Seq<u8>, data: Seq<u8>)
    requires
        is_byte_list(list),
    ensures
        mtf_ranks(list, data).len() == data.len(),
        mtf_bytes(list, mtf_ranks(list, data)) == data,
    decreases data.len(),
{
    let ranks = mtf_ranks(list, data);
    if data.len() == 0 {
        assert(mtf_bytes(list, ranks) =~= data);
    } else {
        assert(list.contains(data[0]));
        let rank = list.index_of(data[0]);
        lemma_moved_is_byte_list(list, rank);
        lemma_mtf_round_trips(moved_to_front(list, rank), data.drop_first());
        assert(ranks.drop_first() =~= mtf_ranks(moved_to_front(list, rank), data.drop_first()));
        assert(mtf_bytes(list, ranks) =~= data);
    }
}

/// Decoding the ranks of `data` gives `data`.
pub proof fn mtf_round_trips(data: Seq<u8>)
    ensures
        mtf_ranks(identity_list(), data).len() == data.len(),
        mtf_bytes(identity_list(), mtf_ranks(identity_list(), data)) == data,
{
    lemma_identity_list();
    lemma_mtf_round_trips(identity_list(), data);
}

// Zero runs.

/// How many zeros `data` starts with.
pub open spec fn zero_run(data: Seq<u8>) -> nat
    decreases data.len(),
{
    if data.len() == 0 || data[0] != 0 {
        0
    } else {
        1 + zero_run(data.drop_first())
    }
}

/// `n` in bijective base 2, least significant digit first; the digits 1 and 2 are
/// written as 0 and 1.
pub open spec fn run_digits(n: nat) -> Seq<u8>
    decreases n,
{
    if n == 0 {
        Seq::empty()
    } else {
        seq![((n - 1) % 2) as u8] + run_digits(((n - 1) / 2) as nat)
    }
}

/// The number that `digits` write in bijective base 2.
pub open spec fn run_value(digits: Seq<u8>) -> nat
    decreases digits.len(),
{
    if digits.len() == 0 {
        0
    } else {
        digits[0] as nat + 1 + 2 * run_value(digits.drop_first())
    }
}

pub proof fn lemma_zero_run_bound(data: Seq<u8>)
    ensures
        zero_run(data) <= data.len(),
        data.len() > 0 && data[0] == 0 ==> zero_run(data) > 0,
    decreases data.len(),
{
    if data.len() > 0 {
        lemma_zero_run_bound(data.drop_first());
    }
}

/// Zero runs of `data` written as their lengths, the other values raised by one.
pub open spec fn rle_symbols(data: Seq<u8>) -> Seq<u8>
    decreases data.len(),
{
    if data.len() == 0 {
        Seq::empty()
    } else if data[0] == 0 {
        proof {
            lemma_zero_run_bound(data);
        }
        run_digits(zero_run(data)) + rle_symbols(data.skip(zero_run(data) as int))
    } else {
        seq![(data[0] + 1) as u8] + rle_symbols(data.drop_first())
    }
}

/// Writes the zero runs of `mtf_data` as their lengths in bijective base 2.
///
/// Gives nothing when a value is 255, which cannot be raised by one.
pub fn rle_encode(mtf_data: &[u8]) -> (r: Option<Vec<u8>>)
    ensures
        match r {
            Some(symbols) => !mtf_data@.contains(255) && symbols@ == rle_symbols(mtf_data@),
            None => mtf_data@.contains(255),
        },
{
    let mut i: usize = 0;
    while i < mtf_data.len()
        invariant
            i <= mtf_data@.len(),
            forall|k: int| 0 <= k < i ==> mtf_data@[k] != 255,
        decreases mtf_data@.len() - i,
    {
        if mtf_data[i] == 255 {
            assert(mtf_data@[i as int] == 255);
            return None;
        }
        i = i + 1;
    }
    let mut output: Vec<u8> = Vec::with_capacity(mtf_data.len());
    i = 0;
    assert(mtf_data@.skip(0) =~= mtf_data@);
    while i < mtf_data.len()
        invariant
            i <= mtf_data@.len(),
            forall|k: int| 0 <= k < mtf_data@.len() ==> mtf_data@[k] != 255,
            rle_symbols(mtf_data@) == output@ + rle_symbols(mtf_data@.skip(i as int)),
        decreases mtf_data@.len() - i,
    {
        let ghost rest = mtf_data@.skip(i as int);
        let ghost before = output@;
        let ghost start = i;
        if mtf_data[i] == 0 {
            let mut run_len: usize = 0;
            while i < mtf_data.len() && mtf_data[i] == 0
                invariant
                    start <= i <= mtf_data@.len(),
                    run_len == i - start,
                    rest == mtf_data@.skip(start as int),
                    zero_run(rest) == run_len + zero_run(mtf_data@.skip(i as int)),
                decreases mtf_data@.len() - i,
            {
                assert(mtf_data@.skip(i as int).drop_first() =~= mtf_data@.skip(i + 1));
                run_len = run_len + 1;
                i = i + 1;
            }
            encode_run_length(&mut output, run_len);
            proof {
                lemma_zero_run_bound(rest);
                assert(zero_run(rest) == run_len);
                assert(rest.skip(run_len as int) =~= mtf_data@.skip(i as int));
                let tail = rle_symbols(mtf_data@.skip(i as int));
                assert(before + (run_digits(run_len as nat) + tail) =~= output@ + tail);
            }
        } else {
            output.push(mtf_data[i] + 1);
            i = i + 1;
            proof {
                assert(rest.drop_first() =~= mtf_data@.skip(i as int));
                let tail = rle_symbols(mtf_data@.skip(i as int));
                assert(before + (seq![(rest[0] + 1) as u8] + tail) =~= output@ + tail);
            }
        }
    }
    assert(output@ =~= rle_symbols(mtf_data@));
    Some(output)
}

/// Appends `n` in bijective base 2.
fn encode_run_length(output: &mut Vec<u8>, n: usize)
    ensures
        final(output)@ == old(output)@ + run_digits(n as nat),
{
    let mut n: usize = n;
    let ghost all = run_digits(n as nat);
    while n > 0
        invariant
            old(output)@ + all == output@ + run_digits(n as nat),
        decreases n,
    {
        let ghost before = output@;
        let ghost m = n;
        n = n - 1;
        output.push((n % 2) as u8);
        n = n / 2;
        proof {
            let tail = run_digits(n as nat);
            assert(before + (seq![((m - 1) % 2) as u8] + tail) =~= output@ + tail);
        }
    }
    assert(output@ =~= old(output)@ + all);
}

/// How many run digits `data` starts with.
pub open spec fn digit_run(data: Seq<u8>) -> nat
    decreases data.len(),
{
    if data.len() == 0 || data[0] > 1 {
        0
    } else {
        1 + digit_run(data.drop_first())
    }
}

pub proof fn lemma_digit_run_bound(data: Seq<u8>)
    ensures
        digit_run(data) <= data.len(),
        data.len() > 0 && data[0] <= 1 ==> digit_run(data) > 0,
    decreases data.len(),
{
    if data.len() > 0 {
        lemma_digit_run_bound(data.drop_first());
    }
}

/// `n` zeros.
pub open spec fn zeros(n: nat) -> Seq<u8> {
    Seq::new(n, |i: int| 0u8)
}

/// What decoding `rest`, the symbols from position `pos` on, gives after `out`.
pub open spec fn rle_decode_rest(
    rest: Seq<u8>,
    pos: nat,
    out: Seq<u8>,
    expected: nat,
) -> std::result::Result<Seq<u8>, ErrorModel>
    decreases rest.len(),
{
    if rest.len() == 0 {
        if out.len() == expected {
            Ok(out)
        } else {
            Err(
                ErrorModel::Decompression(
                    "RLE decode size mismatch: got "@ + decimal(out.len()) + ", expected "@
                        + decimal(expected) + ""@,
                ),
            )
        }
    } else if rest[0] <= 1 {
        let k = digit_run(rest);
        let run = run_value(rest.take(k as int));
        let shown = if run > u64::MAX {
            u64::MAX as nat
        } else {
            run
        };
        proof {
            lemma_digit_run_bound(rest);
        }
        if run > expected - out.len() {
            Err(
                ErrorModel::Decompression(
                    "RLE zero-run length "@ + decimal(shown)
                        + " exceeds remaining output capacity "@ + decimal(
                        (expected - out.len()) as nat,
                    ) + ""@,
                ),
            )
        } else {
            rle_decode_rest(rest.skip(k as int), pos + k, out + zeros(run), expected)
        }
    } else if out.len() >= expected {
        Err(
            ErrorModel::Decompression(
                "RLE decode: non-zero symbol at position "@ + decimal(pos)
                    + " would exceed expected size "@ + decimal(expected) + ""@,
            ),
        )
    } else {
        rle_decode_rest(rest.drop_first(), pos + 1, out.push((rest[0] - 1) as u8), expected)
    }
}

/// Twice `power`, or the largest number where that does not fit.
fn doubled_power(power: u64) -> (r: u64)
    ensures
        r == if 2 * power > u64::MAX {
            u64::MAX as int
        } else {
            2 * power
        },
{
    match power.checked_mul(2) {
        Some(p) => p,
        None => u64::MAX,
    }
}

/// `2` to the power `k`.
spec fn power_of_two(k: nat) -> nat
    decreases k,
{
    if k == 0 {
        1
    } else {
        2 * power_of_two((k - 1) as nat)
    }
}

/// `n`, or the largest 64-bit number where `n` does not fit.
spec fn capped(n: nat) -> nat {
    if n > u64::MAX {
        u64::MAX as nat
    } else {
        n
    }
}

proof fn lemma_power_of_two_pos(k: nat)
    ensures
        power_of_two(k) > 0,
    decreases k,
{
    if k > 0 {
        lemma_power_of_two_pos((k - 1) as nat);
    }
}

proof fn lemma_run_value_push(digits: Seq<u8>, d: u8)
    ensures
        run_value(digits.push(d)) == run_value(digits) + (d + 1) * power_of_two(digits.len()),
    decreases digits.len(),
{
    if digits.len() == 0 {
        assert(digits.push(d).drop_first() =~= Seq::<u8>::empty());
        reveal_with_fuel(run_value, 2);
        assert((d + 1) * 1 == d + 1);
    } else {
        assert(digits.push(d).drop_first() =~= digits.drop_first().push(d));
        lemma_run_value_push(digits.drop_first(), d);
        let p = power_of_two((digits.len() - 1) as nat);
        assert(2 * ((d + 1) * p) == (d + 1) * (2 * p)) by (nonlinear_arith);
    }
}

/// Reads the number at the start of `data`, up to the largest 64-bit number.
fn read_run(data: &[u8], start: usize) -> (r: (u64, usize))
    requires
        start <= data@.len(),
    ensures
        r.0 == capped(run_value(data@.skip(start as int).take(r.1 - start))),
        r.1 == start + digit_run(data@.skip(start as int)),
        start <= r.1 <= data@.len(),
{
    let ghost rest = data@.skip(start as int);
    let mut run_len: u64 = 0;
    let mut power: u64 = 1;
    let mut i: usize = start;
    assert(rest.take(0) =~= Seq::<u8>::empty());
    while i < data.len() && data[i] <= 1
        invariant
            start <= i <= data@.len(),
            rest == data@.skip(start as int),
            digit_run(rest) == (i - start) + digit_run(data@.skip(i as int)),
            run_len == capped(run_value(rest.take(i - start))),
            power == capped(power_of_two((i - start) as nat)),
        decreases data@.len() - i,
    {
        let digit: u64 = data[i] as u64 + 1;
        proof {
            assert(data@.skip(i as int).drop_first() =~= data@.skip(i + 1));
            assert(rest.take(i + 1 - start) =~= rest.take(i - start).push(data@[i as int]));
            lemma_run_value_push(rest.take(i - start), data@[i as int]);
            let p = power_of_two((i - start) as nat);
            assert(1 * p == p && 2 * p == p + p);
            lemma_power_of_two_pos((i - start) as nat);
        }
        let double: u64 = doubled_power(power);
        let term: u64 = if digit == 1 {
            power
        } else {
            double
        };
        run_len = run_len.saturating_add(term);
        power = double;
        i = i + 1;
    }
    (run_len, i)
}

/// Decodes zero-run coded data of `expected_size` values.
pub fn rle_decode(rle_data: &[u8], expected_size: usize) -> (r: Result<Vec<u8>>)
    requires
        expected_size <= isize::MAX,
    ensures
        same_bytes(r, rle_decode_rest(rle_data@, 0, Seq::empty(), expected_size as nat)),
{
    let mut output: Vec<u8> = Vec::new();
    let mut i: usize = 0;
    let ghost outcome = rle_decode_rest(rle_data@, 0, Seq::empty(), expected_size as nat);
    assert(rle_data@.skip(0) =~= rle_data@);
    while i < rle_data.len()
        invariant
            i <= rle_data@.len(),
            expected_size <= isize::MAX,
            output@.len() <= expected_size,
            outcome == rle_decode_rest(rle_data@, 0, Seq::empty(), expected_size as nat),
            outcome == rle_decode_rest(
                rle_data@.skip(i as int),
                i as nat,
                output@,
                expected_size as nat,
            ),
        decreases rle_data@.len() - i,
    {
        let ghost rest = rle_data@.skip(i as int);
        if rle_data[i] <= 1 {
            let (run_len, next) = read_run(rle_data, i);
            let remaining: usize = expected_size - output.len();
            proof {
                lemma_digit_run_bound(rest);
            }
            if run_len > remaining as u64 {
                return Err(
                    AetherError::Decompression(
                        text_around_numbers(
                            "RLE zero-run length ",
                            run_len,
                            " exceeds remaining output capacity ",
                            remaining as u64,
                            "",
                        ),
                    ),
                );
            }
            let ghost before = output@;
            let mut k: u64 = 0;
            while k < run_len
                invariant
                    k <= run_len,
                    output@ == before + zeros(k as nat),
                decreases run_len - k,
            {
                output.push(0);
                k = k + 1;
                assert(output@ =~= before + zeros(k as nat));
            }
            assert(before + zeros(0) =~= before);
            assert(rest.skip(next - i) =~= rle_data@.skip(next as int));
            i = next;
        } else {
            if output.len() >= expected_size {
                return Err(
                    AetherError::Decompression(
                        text_around_numbers(
                            "RLE decode: non-zero symbol at position ",
                            i as u64,
                            " would exceed expected size ",
                            expected_size as u64,
                            "",
                        ),
                    ),
                );
            }
            output.push(rle_data[i] - 1);
            i = i + 1;
            assert(rest.drop_first() =~= rle_data@.skip(i as int));
        }
    }
    if output.len() != expected_size {
        return Err(
            AetherError::Decompression(
                text_around_numbers(
                    "RLE decode size mismatch: got ",
                    output.len() as u64,
                    ", expected ",
                    expected_size as u64,
                    "",
                ),
            ),
        );
    }
    Ok(output)
}

proof fn lemma_run_digits(n: nat, tail: Seq<u8>)
    requires
        tail.len() > 0 ==> tail[0] > 1,
    ensures
        run_value(run_digits(n)) == n,
        digit_run(run_digits(n) + tail) == run_digits(n).len(),
        n > 0 ==> run_digits(n).len() > 0 && run_digits(n)[0] <= 1,
    decreases n,
{
    let digits = run_digits(n);
    if n > 0 {
        let rest = run_digits(((n - 1) / 2) as nat);
        lemma_run_digits(((n - 1) / 2) as nat, tail);
        assert(digits.drop_first() =~= rest);
        assert((digits + tail).drop_first() =~= rest + tail);
    } else {
        assert(digits + tail =~= tail);
    }
}

proof fn lemma_zero_run(data: Seq<u8>)
    ensures
        zero_run(data) <= data.len(),
        data.take(zero_run(data) as int) == zeros(zero_run(data)),
        zero_run(data) < data.len() ==> data[zero_run(data) as int] != 0,
    decreases data.len(),
{
    if data.len() > 0 && data[0] == 0 {
        lemma_zero_run(data.drop_first());
        let k = zero_run(data);
        assert forall|i: int| 0 <= i < k implies data[i] == 0 by {
            if i > 0 {
                assert(data.drop_first().take(k - 1)[i - 1] == zeros((k - 1) as nat)[i - 1]);
            }
        }
    }
    assert(data.take(zero_run(data) as int) =~= zeros(zero_run(data)));
}

proof fn lemma_rle_round_trips(data: Seq<u8>, pos: nat, out: Seq<u8>)
    requires
        !data.contains(255),
    ensures
        rle_decode_rest(rle_symbols(data), pos, out, out.len() + data.len()) == Ok::<
            Seq<u8>,
            ErrorModel,
        >(out + data),
        data.len() > 0 && data[0] != 0 ==> rle_symbols(data).len() > 0 && rle_symbols(data)[0] > 1,
    decreases data.len(),
{
    let symbols = rle_symbols(data);
    if data.len() == 0 {
        assert(out + data =~= out);
    } else if data[0] == 0 {
        lemma_zero_run_bound(data);
        lemma_zero_run(data);
        let k = zero_run(data);
        let rest = data.skip(k as int);
        assert forall|i: int| 0 <= i < rest.len() implies rest[i] != 255 by {
            assert(data.contains(data[i + k]));
        }
        let digits = run_digits(k);
        let tail = rle_symbols(rest);
        lemma_rle_round_trips(rest, pos + digits.len(), out + zeros(k));
        lemma_run_digits(k, tail);
        assert(symbols.take(digits.len() as int) =~= digits);
        assert(symbols.skip(digits.len() as int) =~= tail);
        assert((out + zeros(k)) + rest =~= out + data) by {
            assert(data =~= data.take(k as int) + rest);
        }
    } else {
        let rest = data.drop_first();
        assert(data.contains(data[0]));
        assert forall|i: int| 0 <= i < rest.len() implies rest[i] != 255 by {
            assert(data.contains(data[i + 1]));
        }
        lemma_rle_round_trips(rest, pos + 1, out.push(data[0]));
        assert(symbols.drop_first() =~= rle_symbols(rest));
        assert(out.push(data[0]) + rest =~= out + data);
    }
}

/// Decoding the zero-run code of `data` gives `data`.
pub proof fn rle_round_trips(data: Seq<u8>)
    requires
        !data.contains(255),
    ensures
        rle_decode_rest(rle_symbols(data), 0, Seq::empty(), data.len()) == Ok::<
            Seq<u8>,
            ErrorModel,
        >(data),
{
    lemma_rle_round_trips(data, 0, Seq::empty());
    assert(Seq::<u8>::empty() + data =~= data);
}

proof fn lemma_digit_run(data: Seq<u8>)
    ensures
        digit_run(data) <= data.len(),
        run_digits(run_value(data.take(digit_run(data) as int))) == data.take(
            digit_run(data) as int,
        ),
        digit_run(data) < data.len() ==> data[digit_run(data) as int] > 1,
        digit_run(data) > 0 ==> run_value(data.take(digit_run(data) as int)) > 0,
    decreases data.len(),
{
    let digits = data.take(digit_run(data) as int);
    if data.len() == 0 || data[0] > 1 {
        assert(digits =~= Seq::<u8>::empty());
        assert(run_digits(0) =~= digits);
    } else {
        lemma_digit_run(data.drop_first());
        let rest = data.drop_first().take(digit_run(data.drop_first()) as int);
        assert(digits.drop_first() =~= rest);
        let n = run_value(digits);
        assert((n - 1) / 2 == run_value(rest));
        assert((n - 1) % 2 == digits[0]);
        assert(run_digits(n) =~= digits);
    }
}

proof fn lemma_zero_run_of_zeros(n: nat, tail: Seq<u8>)
    requires
        tail.len() > 0 ==> tail[0] != 0,
    ensures
        zero_run(zeros(n) + tail) == n,
        (zeros(n) + tail).skip(n as int) == tail,
    decreases n,
{
    assert((zeros(n) + tail).skip(n as int) =~= tail);
    if n > 0 {
        lemma_zero_run_of_zeros((n - 1) as nat, tail);
        assert((zeros(n) + tail).drop_first() =~= zeros((n - 1) as nat) + tail);
    } else {
        assert(zeros(0) + tail =~= tail);
    }
}

/// What comes out behind `out` when `rest` is decoded has `rest` as its code.
proof fn lemma_rle_accepted(rest: Seq<u8>, pos: nat, out: Seq<u8>, expected: nat) -> (tail: Seq<u8>)
    requires
        rle_decode_rest(rest, pos, out, expected) is Ok,
    ensures
        rle_decode_rest(rest, pos, out, expected) == Ok::<Seq<u8>, ErrorModel>(out + tail),
        out.len() + tail.len() == expected,
        !tail.contains(255),
        rle_symbols(tail) == rest,
        tail.len() > 0 && tail[0] == 0 ==> rest.len() > 0 && rest[0] <= 1,
        tail.len() == 0 ==> rest.len() == 0,
    decreases rest.len(),
{
    if rest.len() == 0 {
        let tail = Seq::<u8>::empty();
        assert(out + tail =~= out);
        assert(rle_symbols(tail) =~= rest);
        tail
    } else if rest[0] <= 1 {
        lemma_digit_run_bound(rest);
        lemma_digit_run(rest);
        let k = digit_run(rest);
        let run = run_value(rest.take(k as int));
        let next = lemma_rle_accepted(rest.skip(k as int), pos + k, out + zeros(run), expected);
        lemma_zero_run_of_zeros(run, next);
        let tail = zeros(run) + next;
        assert(out + zeros(run) + next =~= out + tail);
        assert forall|i: int| 0 <= i < tail.len() implies tail[i] != 255 by {
            if i >= run {
                assert(next.contains(next[i - run]));
            }
        }
        assert(rest =~= rest.take(k as int) + rest.skip(k as int));
        tail
    } else {
        let b = (rest[0] - 1) as u8;
        let next = lemma_rle_accepted(rest.drop_first(), pos + 1, out.push(b), expected);
        let tail = seq![b] + next;
        assert(out.push(b) + next =~= out + tail);
        assert(tail.drop_first() =~= next);
        assert forall|i: int| 0 <= i < tail.len() implies tail[i] != 255 by {
            if i > 0 {
                assert(next.contains(next[i - 1]));
            }
        }
        assert(rest =~= seq![rest[0]] + rest.drop_first());
        tail
    }
}

/// The zero-run code is bijective: symbols that decode to `data` are the code of `data`,
/// and `data` has the expected size and a code.
pub proof fn rle_code_is_unique(symbols: Seq<u8>, expected: nat, data: Seq<u8>)
    requires
        rle_decode_rest(symbols, 0, Seq::empty(), expected) == Ok::<Seq<u8>, ErrorModel>(data),
    ensures
        data.len() == expected,
        !data.contains(255),
        rle_symbols(data) == symbols,
{
    let tail = lemma_rle_accepted(symbols, 0, Seq::empty(), expected);
    assert(Seq::<u8>::empty() + tail =~= tail);
}

// The combined transform.

/// `ranks` are the move-to-front ranks of the Burrows-Wheeler transform of `data`.
pub open spec fn is_bwt_mtf(data: Seq<u8>, primary: int, ranks: Seq<u8>) -> bool {
    exists|bwt: Seq<u8>| #[trigger]
        is_bwt(data, bwt, primary) && ranks == mtf_ranks(identity_list(), bwt)
}

/// Transforms `data`; gives the row of `data` itself and the ranks.
pub fn bwt_mtf_encode_parts(data: &[u8]) -> (r: Result<(u32, Vec<u8>)>)
    ensures
        match r {
            Ok((primary, ranks)) => data@.len() <= MAX_BWT_INPUT_SIZE && is_bwt_mtf(
                data@,
                primary as int,
                ranks@,
            ),
            Err(e) => data@.len() > MAX_BWT_INPUT_SIZE && e@ == ErrorModel::ResourceLimitExceeded(
                "BWT input exceeds MAX_BWT_INPUT_SIZE"@,
            ),
        },
{
    match bwt_encode(data) {
        Ok((bwt, primary)) => {
            let ranks = mtf_encode(bwt.as_slice());
            assert(is_bwt(data@, bwt@, primary as int));
            Ok((primary, ranks))
        },
        Err(text) => Err(AetherError::ResourceLimitExceeded(text.to_string())),
    }
}

/// Transforms `data` into `[primary_index: u32 LE] [ranks...]`.
pub fn bwt_mtf_encode(data: &[u8]) -> (r: Result<Vec<u8>>)
    ensures
        match r {
            Ok(v) => data@.len() <= MAX_BWT_INPUT_SIZE && exists|primary: u32, ranks: Seq<u8>|
                #[trigger] is_bwt_mtf(data@, primary as int, ranks) && v@ == le_bytes(
                    primary as nat,
                    4,
                ) + ranks,
            Err(e) => data@.len() > MAX_BWT_INPUT_SIZE && e@ == ErrorModel::ResourceLimitExceeded(
                "BWT input exceeds MAX_BWT_INPUT_SIZE"@,
            ),
        },
{
    match bwt_mtf_encode_parts(data) {
        Ok((primary, ranks)) => {
            let mut output: Vec<u8> = Vec::new();
            push_le(&mut output, primary as u64, 4);
            push_all(&mut output, ranks.as_slice());
            assert(output@ =~= le_bytes(primary as nat, 4) + ranks@);
            assert(is_bwt_mtf(data@, primary as int, ranks@));
            Ok(output)
        },
        Err(e) => Err(e),
    }
}

/// The text of the failure of a size above the limit.
pub open spec fn bwt_limit_text(expected: nat) -> Seq<char> {
    "BWT+MTF decode size "@ + decimal(expected) + " exceeds safety limit "@ + decimal(
        MAX_DECOMPRESSED_BLOCK_SIZE as nat,
    ) + ""@
}

/// What inverting the transform of `ranks` gives.
pub open spec fn bwt_mtf_decode_parts_outcome(
    primary: int,
    ranks: Seq<u8>,
    expected: nat,
) -> std::result::Result<Seq<u8>, ErrorModel> {
    if expected > MAX_DECOMPRESSED_BLOCK_SIZE {
        Err(ErrorModel::Decompression(bwt_limit_text(expected)))
    } else if 0 < ranks.len() <= primary {
        Err(
            ErrorModel::Decompression(
                "BWT decode failed: "@ + "BWT primary index out of bounds"@,
            ),
        )
    } else if ranks.len() != expected {
        Err(
            ErrorModel::Decompression(
                "BWT+MTF decode size mismatch: got "@ + decimal(ranks.len()) + ", expected "@
                    + decimal(expected) + ""@,
            ),
        )
    } else {
        Ok(bwt_inverse(mtf_bytes(identity_list(), ranks), primary))
    }
}

proof fn lemma_mtf_bytes_len(list: Seq<u8>, ranks: Seq<u8>)
    ensures
        mtf_bytes(list, ranks).len() == ranks.len(),
    decreases ranks.len(),
{
    if ranks.len() > 0 {
        lemma_mtf_bytes_len(moved_to_front(list, ranks[0] as int), ranks.drop_first());
    }
}

fn parts_size_error(got: usize, expected: usize) -> (e: AetherError)
    ensures
        e@ == ErrorModel::Decompression(
            "BWT+MTF decode size mismatch: got "@ + decimal(got as nat) + ", expected "@ + decimal(
                expected as nat,
            ) + ""@,
        ),
{
    AetherError::Decompression(
        text_around_numbers(
            "BWT+MTF decode size mismatch: got ",
            got as u64,
            ", expected ",
            expected as u64,
            "",
        ),
    )
}

/// Inverts the transform, given the row of the data and the ranks.
pub fn bwt_mtf_decode_parts(primary_index: u32, mtf_data: &[u8], expected_size: usize) -> (r:
    Result<Vec<u8>>)
    ensures
        same_bytes(
            r,
            bwt_mtf_decode_parts_outcome(
                primary_index as int,
                mtf_data@,
                expected_size as nat,
            ),
        ),
{
    if expected_size > MAX_DECOMPRESSED_BLOCK_SIZE {
        return Err(
            AetherError::Decompression(
                text_around_numbers(
                    "BWT+MTF decode size ",
                    expected_size as u64,
                    " exceeds safety limit ",
                    MAX_DECOMPRESSED_BLOCK_SIZE as u64,
                    "",
                ),
            ),
        );
    }
    if mtf_data.len() > 0xFFFF_FFFF {
        return Err(parts_size_error(mtf_data.len(), expected_size));
    }
    let bwt = mtf_decode(mtf_data);
    proof {
        lemma_mtf_bytes_len(identity_list(), mtf_data@);
    }
    match bwt_decode(bwt.as_slice(), primary_index) {
        Ok(original) => {
            if original.len() != expected_size {
                return Err(parts_size_error(original.len(), expected_size));
            }
            Ok(original)
        },
        Err(text) => {
            let mut message = String::from_str("BWT decode failed: ");
            message.append(text);
            Err(AetherError::Decompression(message))
        },
    }
}

/// What inverting the transform of `encoded` gives.
pub open spec fn bwt_mtf_decode_outcome(encoded: Seq<u8>, expected: nat) -> std::result::Result<
    Seq<u8>,
    ErrorModel,
> {
    if expected > MAX_DECOMPRESSED_BLOCK_SIZE {
        Err(ErrorModel::Decompression(bwt_limit_text(expected)))
    } else if encoded.len() < 4 {
        Err(ErrorModel::Decompression("BWT+MTF data too short for primary index"@))
    } else if encoded.len() - 4 != expected {
        Err(
            ErrorModel::Decompression(
                "BWT+MTF size mismatch: got "@ + decimal((encoded.len() - 4) as nat)
                    + ", expected "@ + decimal(expected) + ""@,
            ),
        )
    } else {
        bwt_mtf_decode_parts_outcome(
            le_value(encoded.subrange(0, 4)) as int,
            encoded.subrange(4, encoded.len() as int),
            expected,
        )
    }
}

/// Inverts the transform of `[primary_index: u32 LE] [ranks...]`.
pub fn bwt_mtf_decode(encoded: &[u8], expected_size: usize) -> (r: Result<Vec<u8>>)
    ensures
        same_bytes(r, bwt_mtf_decode_outcome(encoded@, expected_size as nat)),
{
    if expected_size > MAX_DECOMPRESSED_BLOCK_SIZE {
        return Err(
            AetherError::Decompression(
                text_around_numbers(
                    "BWT+MTF decode size ",
                    expected_size as u64,
                    " exceeds safety limit ",
                    MAX_DECOMPRESSED_BLOCK_SIZE as u64,
                    "",
                ),
            ),
        );
    }
    if encoded.len() < 4 {
        return Err(
            AetherError::Decompression("BWT+MTF data too short for primary index".to_string()),
        );
    }
    proof {
        lemma_pow256_values();
    }
    let primary_index: u32 = read_le(encoded, 0, 4) as u32;
    let mtf_data = slice_subrange(encoded, 4, encoded.len());
    if mtf_data.len() != expected_size {
        return Err(
            AetherError::Decompression(
                text_around_numbers(
                    "BWT+MTF size mismatch: got ",
                    mtf_data.len() as u64,
                    ", expected ",
                    expected_size as u64,
                    "",
                ),
            ),
        );
    }
    bwt_mtf_decode_parts(primary_index, mtf_data, expected_size)
}

/// Inverting a transform gives the data it was made of.
pub proof fn bwt_mtf_parts_round_trip(data: Seq<u8>, primary: int, ranks: Seq<u8>)
    requires
        is_bwt_mtf(data, primary, ranks),
        data.len() <= MAX_BWT_INPUT_SIZE,
    ensures
        ranks.len() == data.len(),
        bwt_mtf_decode_parts_outcome(primary, ranks, data.len()) == Ok::<Seq<u8>, ErrorModel>(data),
{
    let bwt = choose|bwt: Seq<u8>| #[trigger]
        is_bwt(data, bwt, primary) && ranks == mtf_ranks(identity_list(), bwt);
    bwt_round_trips(data, bwt, primary);
    mtf_round_trips(bwt);
}

/// Inverting an encoded transform gives the data it was made of; the encoding is four
/// bytes longer than the data.
pub proof fn bwt_mtf_round_trips(data: Seq<u8>, primary: u32, ranks: Seq<u8>)
    requires
        is_bwt_mtf(data, primary as int, ranks),
        data.len() <= MAX_BWT_INPUT_SIZE,
    ensures
        (le_bytes(primary as nat, 4) + ranks).len() == data.len() + 4,
        bwt_mtf_decode_outcome(le_bytes(primary as nat, 4) + ranks, data.len()) == Ok::<
            Seq<u8>,
            ErrorModel,
        >(data),
{
    bwt_mtf_parts_round_trip(data, primary as int, ranks);
    lemma_pow256_values();
    lemma_le_round_trip(primary as nat, 4);
    let head = le_bytes(primary as nat, 4);
    let encoded = head + ranks;
    assert(encoded.subrange(0, 4) =~= head);
    assert(encoded.subrange(4, encoded.len() as int) =~= ranks);
}

/// The whole chain is reversible: where the ranks of a transform can be run-length coded,
/// decoding the symbols and inverting the transform gives the data.
pub proof fn transformed_stream_round_trips(data: Seq<u8>, primary: int, ranks: Seq<u8>)
    requires
        is_bwt_mtf(data, primary, ranks),
        data.len() <= MAX_BWT_INPUT_SIZE,
        !ranks.contains(255),
    ensures
        rle_decode_rest(rle_symbols(ranks), 0, Seq::empty(), data.len()) == Ok::<
            Seq<u8>,
            ErrorModel,
        >(ranks),
        bwt_mtf_decode_parts_outcome(primary, ranks, data.len()) == Ok::<Seq<u8>, ErrorModel>(data),
{
    bwt_mtf_parts_round_trip(data, primary, ranks);
    rle_round_trips(ranks);
}

// What the transforms are for.

/// The list after the first `n` bytes of `data` moved to the front.
spec fn list_after(list: Seq<u8>, data: Seq<u8>, n: nat) -> Seq<u8>
    decreases n,
{
    if n == 0 {
        list
    } else {
        list_after(moved_to_front(list, list.index_of(data[0])), data.drop_first(), (n - 1) as nat)
    }
}

proof fn lemma_rank_in_list(list: Seq<u8>, data: Seq<u8>, i: int)
    requires
        is_byte_list(list),
        0 <= i < data.len(),
    ensures
        mtf_ranks(list, data).len() == data.len(),
        is_byte_list(list_after(list, data, i as nat)),
        mtf_ranks(list, data)[i] == list_after(list, data, i as nat).index_of(data[i]),
    decreases data.len(),
{
    lemma_ranks_len(list, data);
    assert(list.contains(data[0]));
    let rank = list.index_of(data[0]);
    let moved = moved_to_front(list, rank);
    lemma_moved_is_byte_list(list, rank);
    if i > 0 {
        lemma_rank_in_list(moved, data.drop_first(), i - 1);
    }
}

proof fn lemma_ranks_len(list: Seq<u8>, data: Seq<u8>)
    ensures
        mtf_ranks(list, data).len() == data.len(),
    decreases data.len(),
{
    if data.len() > 0 {
        lemma_ranks_len(moved_to_front(list, list.index_of(data[0])), data.drop_first());
    }
}

/// A byte moves back by one place at most for each byte that comes after it.
proof fn lemma_place(list: Seq<u8>, data: Seq<u8>, n: nat, b: u8, k: int)
    requires
        is_byte_list(list),
        n <= data.len(),
        0 <= k < 256,
        list[k] == b,
        k + n < 256,
    ensures
        list_after(list, data, n).index_of(b) <= k + n,
    decreases n,
{
    if n == 0 {
        lemma_index_in_list(list, k);
    } else {
        assert(list.contains(data[0]));
        let rank = list.index_of(data[0]);
        let moved = moved_to_front(list, rank);
        lemma_moved_is_byte_list(list, rank);
        let next = if rank == k {
            0
        } else if k < rank {
            k + 1
        } else {
            k
        };
        assert(moved[next] == b);
        lemma_place(moved, data.drop_first(), (n - 1) as nat, b, next);
    }
}

proof fn lemma_index_in_list(list: Seq<u8>, k: int)
    requires
        is_byte_list(list),
        0 <= k < 256,
    ensures
        list.index_of(list[k]) == k,
{
    assert(list.contains(list[k]));
    let j = list.index_of(list[k]);
    assert(list[j] == list[k]);
}

proof fn lemma_list_step(list: Seq<u8>, data: Seq<u8>, n: nat)
    requires
        is_byte_list(list),
        n < data.len(),
    ensures
        is_byte_list(list_after(list, data, n)),
        list_after(list, data, n + 1) == moved_to_front(
            list_after(list, data, n),
            list_after(list, data, n).index_of(data[n as int]),
        ),
    decreases n,
{
    assert(list.contains(data[0]));
    let rank = list.index_of(data[0]);
    lemma_moved_is_byte_list(list, rank);
    reveal_with_fuel(list_after, 2);
    if n > 0 {
        lemma_list_step(moved_to_front(list, rank), data.drop_first(), (n - 1) as nat);
    }
}

/// Bytes that came lately have small ranks: a byte that came `i - j` places before has a rank
/// below that, and rank 0 exactly where it came just before. At the start every byte has
/// itself for a rank.
pub proof fn late_bytes_have_small_ranks(data: Seq<u8>, i: int, j: int)
    requires
        0 <= j < i < data.len(),
    ensures
        mtf_ranks(identity_list(), data).len() == data.len(),
        data[j] == data[i] ==> mtf_ranks(identity_list(), data)[i] < i - j,
        mtf_ranks(identity_list(), data)[i] == 0 <==> data[i] == data[i - 1],
        mtf_ranks(identity_list(), data)[0] == data[0],
{
    let list = identity_list();
    lemma_identity_list();
    lemma_rank_in_list(list, data, i);
    lemma_rank_in_list(list, data, 0);
    lemma_index_in_list(list, data[0] as int);
    lemma_list_step(list, data, (i - 1) as nat);
    let before = list_after(list, data, (i - 1) as nat);
    assert(before.contains(data[i - 1]));
    lemma_moved_is_byte_list(before, before.index_of(data[i - 1]));
    let now = list_after(list, data, i as nat);
    assert(now[0] == data[i - 1]);
    assert(now.contains(data[i]));
    lemma_index_in_list(now, 0);
    if data[j] == data[i] && i - j < 256 {
        lemma_list_step(list, data, j as nat);
        let at = list_after(list, data, j as nat);
        assert(at.contains(data[j]));
        lemma_moved_is_byte_list(at, at.index_of(data[j]));
        let there = list_after(list, data, (j + 1) as nat);
        assert(there[0] == data[j]);
        lemma_list_append(list, data, (j + 1) as nat, (i - j - 1) as nat);
        lemma_place(there, data.skip(j + 1), (i - j - 1) as nat, data[i], 0);
    }
}

proof fn lemma_list_append(list: Seq<u8>, data: Seq<u8>, a: nat, b: nat)
    requires
        a + b <= data.len(),
    ensures
        list_after(list, data, a + b) == list_after(
            list_after(list, data, a),
            data.skip(a as int),
            b,
        ),
    decreases a,
{
    if a == 0 {
        assert(data.skip(0) =~= data);
    } else {
        lemma_list_append(
            moved_to_front(list, list.index_of(data[0])),
            data.drop_first(),
            (a - 1) as nat,
            b,
        );
        assert(data.drop_first().skip(a - 1) =~= data.skip(a as int));
    }
}

/// A run of zeros of twice the length takes one symbol more: the symbols are the digits of
/// the length in base 2, with the values 1 and 2.
pub proof fn runs_take_few_symbols(n: nat)
    ensures
        run_digits(0).len() == 0,
        run_digits(2 * n + 1) == seq![0u8] + run_digits(n),
        run_digits(2 * n + 2) == seq![1u8] + run_digits(n),
        run_digits(n).len() <= n,
{
    lemma_run_len(n);
}

proof fn lemma_run_len(n: nat)
    ensures
        run_digits(n).len() <= n,
    decreases n,
{
    if n > 0 {
        lemma_run_len(((n - 1) / 2) as nat);
    }
}

/// What the symbols of a stream are: those of its zero runs, and each other value plus one.
/// There are never more of them than values.
pub proof fn symbols_are_runs_and_values(n: nat, x: u8, rest: Seq<u8>)
    requires
        rest.len() > 0 ==> rest[0] != 0,
        0 < x < 255,
    ensures
        n > 0 ==> rle_symbols(zeros(n) + rest) == run_digits(n) + rle_symbols(rest),
        rle_symbols(seq![x] + rest) == seq![(x + 1) as u8] + rle_symbols(rest),
        rle_symbols(Seq::empty()).len() == 0,
        rle_symbols(rest).len() <= rest.len(),
{
    lemma_zero_run_of_zeros(n, rest);
    assert((seq![x] + rest).drop_first() =~= rest);
    lemma_symbols_len(rest);
}

proof fn lemma_symbols_len(data: Seq<u8>)
    ensures
        rle_symbols(data).len() <= data.len(),
    decreases data.len(),
{
    if data.len() > 0 {
        if data[0] == 0 {
            lemma_zero_run_bound(data);
            lemma_run_len(zero_run(data));
            lemma_symbols_len(data.skip(zero_run(data) as int));
        } else {
            lemma_symbols_len(data.drop_first());
        }
    }
}

/// The transform brings bytes together that stand before the same ones: its rows list every
/// position of the data once, by the bytes that stand there, and each row holds the byte
/// before its position.
pub proof fn transforms_sort_by_what_follows(data: Seq<u8>, bwt: Seq<u8>, primary: int)
    requires
        is_bwt(data, bwt, primary),
        data.len() > 0,
    ensures
        exists|rows: Seq<int>|
            {
                &&& #[trigger] rows.len() == data.len()
                &&& rows.no_duplicates()
                &&& rows[primary] == 0
                &&& forall|i: int|
                    0 <= i < rows.len() ==> 0 <= #[trigger] rows[i] < data.len() && bwt[i] == data[
                    if rows[i] == 0 {
                        data.len() - 1
                    } else {
                        rows[i] - 1
                    }]
                &&& forall|i: int, j: int|
                    0 <= i < j < rows.len() ==> data[#[trigger] rows[i]] <= data[#[trigger] rows[j]]
            },
        bwt.len() == data.len(),
{
    let rows = choose|rows: Seq<int>| #[trigger] is_bwt_by(data, bwt, primary, rows);
    let twice = data + data;
    assert forall|i: int, j: int| 0 <= i < j < rows.len() implies data[#[trigger] rows[i]]
        <= data[#[trigger] rows[j]] by {
        let a = twice.skip(rows[i]);
        let b = twice.skip(rows[j]);
        assert(precedes(a, b));
        let k = choose|k: int| precedes_at(a, b, k);
        assert(a[0] == data[rows[i]] && b[0] == data[rows[j]]);
        if k > 0 {
            assert(a[0] == b[0]);
        }
    }
    assert forall|i: int| 0 <= i < rows.len() implies 0 <= #[trigger] rows[i] < data.len() && bwt[i]
        == data[
    if rows[i] == 0 {
        data.len() - 1
    } else {
        rows[i] - 1
    }] by {
        let n = data.len() as int;
        let p = rows[i];
        assert(bwt[i] == byte_before(data, p));
        if p == 0 {
            assert((n - 1) % n == n - 1) by (nonlinear_arith)
                requires
                    n > 0,
            ;
        } else {
            assert((p + n - 1) % n == p - 1) by (nonlinear_arith)
                requires
                    0 < p < n,
            ;
        }
    }
    assert(rows.len() == data.len());
}

/// What the functions give, one after the other: encoding and decoding of each stage gives
/// the data back, and the decoded data has the size asked for.
pub proof fn stages_are_undone(
    data: &[u8],
    r: Result<Vec<u8>>,
    encoded: &[u8],
    expected: usize,
    back: Result<Vec<u8>>,
)
    requires
        call_ensures(bwt_mtf_decode, (encoded, expected), back),
    ensures
        back is Ok ==> back->Ok_0@.len() == expected && encoded@.len() == expected + 4,
        call_ensures(bwt_mtf_encode, (data,), r) && r is Ok && encoded@ == r->Ok_0@ && expected
            == data@.len() ==> back is Ok && back->Ok_0@ == data@,
        call_ensures(bwt_mtf_encode, (data,), r) ==> (r is Ok <==> data@.len() <= 8_388_608),
{
    if call_ensures(bwt_mtf_encode, (data,), r) && r is Ok {
        let (primary, ranks) = choose|primary: u32, ranks: Seq<u8>| #[trigger]
            is_bwt_mtf(data@, primary as int, ranks) && r->Ok_0@ == le_bytes(primary as nat, 4)
                + ranks;
        bwt_mtf_round_trips(data@, primary, ranks);
    }
    if back is Ok {
        lemma_mtf_bytes_len(identity_list(), encoded@.subrange(4, encoded@.len() as int));
    }
}

/// What [`mtf_encode`], [`mtf_decode`], [`rle_encode`] and [`rle_decode`] give one after the
/// other.
pub proof fn ranks_and_runs_are_undone(
    data: &[u8],
    ranks: Vec<u8>,
    given: &[u8],
    bytes: Vec<u8>,
    r: Option<Vec<u8>>,
    symbols: &[u8],
    back: Result<Vec<u8>>,
)
    ensures
        call_ensures(mtf_encode, (data,), ranks) && given@ == ranks@ && call_ensures(
            mtf_decode,
            (given,),
            bytes,
        ) ==> bytes@ == data@ && ranks@.len() == data@.len(),
        call_ensures(rle_encode, (data,), r) ==> (r is None <==> data@.contains(255)),
        call_ensures(rle_encode, (data,), r) && r is Some && symbols@ == r->0@ && call_ensures(
            rle_decode,
            (symbols, data.len()),
            back,
        ) ==> back is Ok && back->Ok_0@ == data@,
{
    mtf_round_trips(data@);
    lemma_ranks_len(identity_list(), data@);
    if !data@.contains(255) {
        rle_round_trips(data@);
    }
}

/// What [`bwt_encode`] and [`bwt_decode`] give, one after the other; a row that is not there
/// is refused.
pub proof fn transforms_are_undone(
    data: &[u8],
    bwt: Vec<u8>,
    primary: u32,
    given: &[u8],
    row: u32,
    back: std::result::Result<Vec<u8>, &'static str>,
)
    requires
        call_ensures(
            bwt_encode,
            (data,),
            Ok::<(Vec<u8>, u32), &'static str>((bwt, primary)),
        ),
        given@ == bwt@,
        call_ensures(bwt_decode, (given, row), back),
    ensures
        bwt@.len() == data@.len(),
        row == primary ==> back is Ok && back->Ok_0@ == data@,
        data@.len() > 0 ==> primary < data@.len() && (back is Err <==> row >= data@.len()),
{
    bwt_round_trips(data@, bwt@, primary as int);
}

} // verus!
