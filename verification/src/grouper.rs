//! Semantic solid grouping.
//!
//! Groups files by content type so that similar files are compressed together in the same
//! solid block, maximizing cross-file redundancy.

use crate::analyzer::{method_for, recommend_method_for, RecommendedMethod};
use crate::format::ContentType;
use crate::strings::{after_last_dot, chars_of, extension_of};
use vstd::prelude::*;
use vstd::relations::{sorted_by, total_ordering};
use vstd::seq_lib::{group_to_multiset_ensures, lemma_multiset_commutative, lemma_sorted_unique};

verus! {

/// Maximum total size of files in a single solid group (256 MiB).
pub const MAX_SOLID_GROUP_SIZE: u64 = 268_435_456;

/// How many content types there are.
pub const CONTENT_TYPES: u16 = 7;

/// A solid group: files of similar content type to be compressed together.
#[derive(Debug)]
pub struct SolidGroup {
    /// Unique group identifier.
    pub group_id: u32,
    /// Content type shared by all files in this group.
    pub content_type: ContentType,
    /// Recommended compression method for this group's blocks.
    pub recommended_method: RecommendedMethod,
    /// Indices into the original file list.
    pub file_indices: Vec<usize>,
    /// Total uncompressed size of all files in this group.
    pub total_size: u64,
}

/// The value of a [`SolidGroup`].
pub struct GroupModel {
    pub group_id: int,
    pub content_type: ContentType,
    pub recommended_method: RecommendedMethod,
    pub file_indices: Seq<usize>,
    pub total_size: int,
}

impl View for SolidGroup {
    type V = GroupModel;

    open spec fn view(&self) -> GroupModel {
        GroupModel {
            group_id: self.group_id as int,
            content_type: self.content_type,
            recommended_method: self.recommended_method,
            file_indices: self.file_indices@,
            total_size: self.total_size as int,
        }
    }
}

/// Metadata about one file to be grouped.
#[derive(Debug, Clone)]
pub struct FileInfo {
    /// File path (used for extension-based sorting within groups).
    pub path: String,
    /// File size in bytes.
    pub size: u64,
    /// Detected content type.
    pub content_type: ContentType,
    /// Mean Shannon entropy of the file's chunks (bits per byte), as the bit pattern of
    /// an `f64`.
    pub mean_entropy: i64,
}

// The order of files.

/// `a` is not after `b` in the order of texts by their characters.
pub open spec fn text_at_most(a: Seq<char>, b: Seq<char>) -> bool
    decreases a.len(),
{
    a.len() == 0 || (b.len() > 0 && (a[0] < b[0] || (a[0] == b[0] && text_at_most(
        a.drop_first(),
        b.drop_first(),
    ))))
}

/// The extension that a file is sorted by.
pub open spec fn sort_extension(f: FileInfo) -> Seq<char> {
    after_last_dot(f.path@)
}

/// File `i` stands before file `j` in a bucket, or is the same: by extension, then by
/// size, then by place in the list.
pub open spec fn not_after(files: Seq<FileInfo>, i: usize, j: usize) -> bool {
    let a = files[i as int];
    let b = files[j as int];
    if sort_extension(a) != sort_extension(b) {
        text_at_most(sort_extension(a), sort_extension(b))
    } else if a.size != b.size {
        a.size < b.size
    } else {
        i <= j
    }
}

/// [`not_after`] as a relation.
pub open spec fn bucket_order(files: Seq<FileInfo>) -> spec_fn(usize, usize) -> bool {
    |i: usize, j: usize| not_after(files, i, j)
}

/// The files among the first `n` that have the content type with the given number.
pub open spec fn indices_of_type(files: Seq<FileInfo>, number: int, n: nat) -> Seq<usize>
    decreases n,
{
    if n == 0 {
        Seq::empty()
    } else {
        let before = indices_of_type(files, number, (n - 1) as nat);
        if files[n - 1].content_type.number() == number {
            before.push((n - 1) as usize)
        } else {
            before
        }
    }
}

/// The bucket of a content type: its files, sorted.
pub open spec fn bucket(files: Seq<FileInfo>, number: int) -> Seq<usize> {
    indices_of_type(files, number, files.len()).sort_by(bucket_order(files))
}

// Splitting into groups.

/// The total size of the given files.
pub open spec fn size_of(files: Seq<FileInfo>, indices: Seq<usize>) -> int
    decreases indices.len(),
{
    if indices.len() == 0 {
        0
    } else {
        size_of(files, indices.drop_last()) + files[indices.last() as int].size
    }
}

/// A bucket cut into parts: each file joins the last part, unless that would grow beyond
/// the limit.
pub open spec fn parts_of(files: Seq<FileInfo>, order: Seq<usize>) -> Seq<Seq<usize>>
    decreases order.len(),
{
    if order.len() == 0 {
        Seq::empty()
    } else {
        let before = parts_of(files, order.drop_last());
        let next = order.last();
        if before.len() == 0 || size_of(files, before.last()) + files[next as int].size
            > MAX_SOLID_GROUP_SIZE {
            before.push(seq![next])
        } else {
            before.drop_last().push(before.last().push(next))
        }
    }
}

/// The group made of a part.
pub open spec fn group_of(
    files: Seq<FileInfo>,
    part: Seq<usize>,
    number: int,
    entropy: i64,
    id: int,
) -> GroupModel {
    let content_type = ContentType::of_number(number as u16).unwrap();
    GroupModel {
        group_id: id,
        content_type,
        recommended_method: method_for(entropy, content_type),
        file_indices: part,
        total_size: size_of(files, part),
    }
}

/// The groups made of parts, numbered from `first` on.
pub open spec fn groups_of(
    files: Seq<FileInfo>,
    parts: Seq<Seq<usize>>,
    number: int,
    entropy: i64,
    first: int,
) -> Seq<GroupModel> {
    Seq::new(parts.len(), |i: int| group_of(files, parts[i], number, entropy, first + i))
}

/// The groups of the first `n` content types, where `entropies` are the mean entropies of
/// their buckets.
pub open spec fn groups_below(files: Seq<FileInfo>, entropies: Seq<i64>, n: nat) -> Seq<GroupModel>
    decreases n,
{
    if n == 0 {
        Seq::empty()
    } else {
        let before = groups_below(files, entropies, (n - 1) as nat);
        before + groups_of(
            files,
            parts_of(files, bucket(files, n - 1)),
            n - 1,
            entropies[n - 1],
            before.len() as int,
        )
    }
}

// The order is total.

proof fn lemma_text_reflexive(a: Seq<char>)
    ensures
        text_at_most(a, a),
    decreases a.len(),
{
    if a.len() > 0 {
        lemma_text_reflexive(a.drop_first());
    }
}

proof fn lemma_text_total(a: Seq<char>, b: Seq<char>)
    ensures
        text_at_most(a, b) || text_at_most(b, a),
        text_at_most(a, b) && text_at_most(b, a) ==> a == b,
    decreases a.len(),
{
    if a.len() > 0 && b.len() > 0 {
        lemma_text_total(a.drop_first(), b.drop_first());
        if a.drop_first() == b.drop_first() && a[0] == b[0] {
            assert(a =~= seq![a[0]] + a.drop_first());
            assert(b =~= seq![b[0]] + b.drop_first());
        }
    } else {
        assert(a.len() == 0 && b.len() == 0 ==> a =~= b);
    }
}

proof fn lemma_text_transitive(a: Seq<char>, b: Seq<char>, c: Seq<char>)
    requires
        text_at_most(a, b),
        text_at_most(b, c),
    ensures
        text_at_most(a, c),
    decreases a.len(),
{
    if a.len() > 0 && a[0] == b[0] && b[0] == c[0] {
        lemma_text_transitive(a.drop_first(), b.drop_first(), c.drop_first());
    }
}

proof fn lemma_bucket_order(files: Seq<FileInfo>)
    ensures
        total_ordering(bucket_order(files)),
{
    let r = bucket_order(files);
    assert forall|i: usize, j: usize| #[trigger] r(i, j) || #[trigger] r(j, i) by {
        lemma_text_total(sort_extension(files[i as int]), sort_extension(files[j as int]));
    }
    assert forall|i: usize, j: usize| #[trigger] r(i, j) && #[trigger] r(j, i) implies i == j by {
        lemma_text_total(sort_extension(files[i as int]), sort_extension(files[j as int]));
    }
    assert forall|i: usize, j: usize, k: usize| #[trigger] r(i, j) && #[trigger] r(j, k) implies r(
        i,
        k,
    ) by {
        let a = sort_extension(files[i as int]);
        let b = sort_extension(files[j as int]);
        let c = sort_extension(files[k as int]);
        lemma_text_total(a, b);
        lemma_text_total(b, c);
        lemma_text_total(a, c);
        if text_at_most(a, b) && text_at_most(b, c) {
            lemma_text_transitive(a, b, c);
        }
        if a == c && a != b {
            assert(text_at_most(a, b) && text_at_most(b, a));
        }
    }
}

/// Tells whether `a` is not after `b`, and whether they are equal.
fn order_texts(a: &[char], b: &[char]) -> (r: (bool, bool))
    ensures
        r.0 == text_at_most(a@, b@),
        r.1 == (a@ == b@),
{
    let mut i: usize = 0;
    assert(a@.skip(0) =~= a@);
    assert(b@.skip(0) =~= b@);
    while i < a.len() && i < b.len()
        invariant
            i <= a@.len(),
            i <= b@.len(),
            a@.take(i as int) == b@.take(i as int),
            text_at_most(a@, b@) == text_at_most(a@.skip(i as int), b@.skip(i as int)),
        decreases a@.len() - i,
    {
        if a[i] != b[i] {
            return (a[i] < b[i], false);
        }
        assert(a@.skip(i as int).drop_first() =~= a@.skip(i + 1));
        assert(b@.skip(i as int).drop_first() =~= b@.skip(i + 1));
        assert(a@.take(i + 1) =~= a@.take(i as int).push(a@[i as int]));
        assert(b@.take(i + 1) =~= b@.take(i as int).push(b@[i as int]));
        i = i + 1;
    }
    proof {
        if a@.len() == b@.len() {
            assert(a@.take(i as int) =~= a@);
            assert(b@.take(i as int) =~= b@);
        }
    }
    (i == a.len(), a.len() == b.len())
}

/// The extensions of all files.
fn extensions(files: &[FileInfo]) -> (exts: Vec<Vec<char>>)
    ensures
        are_extensions(exts@, files@),
{
    let mut exts: Vec<Vec<char>> = Vec::new();
    let mut i: usize = 0;
    while i < files.len()
        invariant
            i <= files@.len(),
            exts@.len() == i,
            forall|k: int| 0 <= k < i ==> (#[trigger] exts@[k])@ == sort_extension(files@[k]),
        decreases files@.len() - i,
    {
        exts.push(chars_of(extension_of(files[i].path.as_str())));
        i = i + 1;
    }
    exts
}

spec fn are_extensions(exts: Seq<Vec<char>>, files: Seq<FileInfo>) -> bool {
    &&& exts.len() == files.len()
    &&& forall|k: int| 0 <= k < exts.len() ==> (#[trigger] exts[k])@ == sort_extension(files[k])
}

/// Tells whether file `i` stands before file `j`, or is the same.
fn stands_first(files: &[FileInfo], exts: &[Vec<char>], i: usize, j: usize) -> (r: bool)
    requires
        are_extensions(exts@, files@),
        i < files@.len(),
        j < files@.len(),
    ensures
        r == not_after(files@, i, j),
{
    let (at_most, equal) = order_texts(exts[i].as_slice(), exts[j].as_slice());
    if !equal {
        at_most
    } else if files[i].size != files[j].size {
        files[i].size < files[j].size
    } else {
        i <= j
    }
}

// Sorting.

/// `s` lists files among `n`.
spec fn lists_files(s: Seq<usize>, n: nat) -> bool {
    forall|k: int| 0 <= k < s.len() ==> #[trigger] s[k] < n
}

proof fn lemma_push_sorted(files: Seq<FileInfo>, out: Seq<usize>, x: usize)
    requires
        sorted_by(out, bucket_order(files)),
        forall|k: int| 0 <= k < out.len() ==> not_after(files, #[trigger] out[k], x),
    ensures
        sorted_by(out.push(x), bucket_order(files)),
{
}

/// Merges two sorted lists.
fn merge(files: &[FileInfo], exts: &[Vec<char>], a: &[usize], b: &[usize]) -> (out: Vec<usize>)
    requires
        are_extensions(exts@, files@),
        lists_files(a@, files@.len()),
        lists_files(b@, files@.len()),
        sorted_by(a@, bucket_order(files@)),
        sorted_by(b@, bucket_order(files@)),
    ensures
        sorted_by(out@, bucket_order(files@)),
        out@.to_multiset() == a@.to_multiset().add(b@.to_multiset()),
        lists_files(out@, files@.len()),
{
    let ghost r = bucket_order(files@);
    proof {
        lemma_bucket_order(files@);
    }
    let mut out: Vec<usize> = Vec::new();
    let mut i: usize = 0;
    let mut j: usize = 0;
    proof {
        broadcast use group_to_multiset_ensures;

        assert(a@.take(0) =~= Seq::empty());
        assert(b@.take(0) =~= Seq::empty());
        assert(out@ =~= Seq::empty());
        assert(out@.to_multiset() =~= a@.take(0).to_multiset().add(b@.take(0).to_multiset()));
    }
    while i < a.len() || j < b.len()
        invariant
            are_extensions(exts@, files@),
            lists_files(a@, files@.len()),
            lists_files(b@, files@.len()),
            sorted_by(a@, bucket_order(files@)),
            sorted_by(b@, bucket_order(files@)),
            r == bucket_order(files@),
            total_ordering(r),
            i <= a@.len(),
            j <= b@.len(),
            lists_files(out@, files@.len()),
            sorted_by(out@, bucket_order(files@)),
            forall|p: int, q: int|
                0 <= p < out@.len() && i <= q < a@.len() ==> #[trigger] not_after(
                    files@,
                    out@[p],
                    a@[q],
                ),
            forall|p: int, q: int|
                0 <= p < out@.len() && j <= q < b@.len() ==> #[trigger] not_after(
                    files@,
                    out@[p],
                    b@[q],
                ),
            out@.to_multiset() == a@.take(i as int).to_multiset().add(
                b@.take(j as int).to_multiset(),
            ),
        decreases a@.len() - i + b@.len() - j,
    {
        let from_a = j >= b.len() || (i < a.len() && stands_first(files, exts, a[i], b[j]));
        let ghost before = out@;
        if from_a {
            let x: usize = a[i];
            proof {
                broadcast use group_to_multiset_ensures;

                lemma_push_sorted(files@, out@, x);
                assert(a@.take(i + 1) =~= a@.take(i as int).push(x));
                assert forall|q: int| i + 1 <= q < a@.len() implies not_after(
                    files@,
                    x,
                    #[trigger] a@[q],
                ) by {
                    assert(r(a@[i as int], a@[q]));
                }
                assert forall|q: int| j <= q < b@.len() implies not_after(
                    files@,
                    x,
                    #[trigger] b@[q],
                ) by {
                    assert(r(x, b@[j as int]));
                    if q > j {
                        assert(r(b@[j as int], b@[q]));
                    } else {
                        assert(r(x, b@[q]));
                    }
                    assert(r(x, b@[q]));
                }
            }
            out.push(x);
            i = i + 1;
            proof {
                broadcast use group_to_multiset_ensures;

                assert(out@.to_multiset() =~= a@.take(i as int).to_multiset().add(
                    b@.take(j as int).to_multiset(),
                ));
            }
        } else {
            let x: usize = b[j];
            proof {
                broadcast use group_to_multiset_ensures;

                lemma_push_sorted(files@, out@, x);
                assert(b@.take(j + 1) =~= b@.take(j as int).push(x));
                assert forall|q: int| j + 1 <= q < b@.len() implies not_after(
                    files@,
                    x,
                    #[trigger] b@[q],
                ) by {
                    assert(r(b@[j as int], b@[q]));
                }
                assert forall|q: int| i <= q < a@.len() implies not_after(
                    files@,
                    x,
                    #[trigger] a@[q],
                ) by {
                    assert(!r(a@[i as int], x));
                    assert(r(x, a@[i as int]));
                    if q > i {
                        assert(r(a@[i as int], a@[q]));
                    }
                    assert(r(x, a@[q]));
                }
            }
            out.push(x);
            j = j + 1;
            proof {
                broadcast use group_to_multiset_ensures;

                assert(out@.to_multiset() =~= a@.take(i as int).to_multiset().add(
                    b@.take(j as int).to_multiset(),
                ));
            }
        }
    }
    assert(a@.take(i as int) =~= a@);
    assert(b@.take(j as int) =~= b@);
    out
}

/// Sorts a list of files.
fn merge_sort(files: &[FileInfo], exts: &[Vec<char>], v: &[usize]) -> (out: Vec<usize>)
    requires
        are_extensions(exts@, files@),
        lists_files(v@, files@.len()),
    ensures
        sorted_by(out@, bucket_order(files@)),
        out@.to_multiset() == v@.to_multiset(),
        lists_files(out@, files@.len()),
    decreases v@.len(),
{
    if v.len() < 2 {
        let mut out: Vec<usize> = Vec::new();
        if v.len() == 1 {
            out.push(v[0]);
        }
        assert(out@ =~= v@);
        return out;
    }
    let middle: usize = v.len() / 2;
    let left = vstd::slice::slice_subrange(v, 0, middle);
    let right = vstd::slice::slice_subrange(v, middle, v.len());
    let a = merge_sort(files, exts, left);
    let b = merge_sort(files, exts, right);
    proof {
        assert(left@ + right@ =~= v@);
        lemma_multiset_commutative(left@, right@);
    }
    merge(files, exts, a.as_slice(), b.as_slice())
}

proof fn lemma_indices_of_type(files: Seq<FileInfo>, number: int, n: nat)
    requires
        n <= files.len() <= usize::MAX,
    ensures
        lists_files(indices_of_type(files, number, n), n),
        indices_of_type(files, number, n).no_duplicates(),
        forall|i: usize|
            #[trigger] indices_of_type(files, number, n).contains(i) <==> i < n
                && files[i as int].content_type.number() == number,
    decreases n,
{
    if n > 0 {
        let m = (n - 1) as nat;
        lemma_indices_of_type(files, number, m);
        let before = indices_of_type(files, number, m);
        let all = indices_of_type(files, number, n);
        if files[m as int].content_type.number() == number {
            assert(all == before.push(m as usize));
            assert forall|i: usize| #[trigger] all.contains(i) <==> i < n
                && files[i as int].content_type.number() == number by {
                if i < n && files[i as int].content_type.number() == number {
                    if i == m {
                        assert(all[before.len() as int] == i);
                    } else {
                        assert(before.contains(i));
                        let k = before.index_of(i);
                        assert(all[k] == i);
                    }
                }
                if all.contains(i) {
                    let k = all.index_of(i);
                    if k < before.len() {
                        assert(before[k] == i);
                        assert(before.contains(i));
                    }
                }
            }
        } else {
            assert forall|i: usize| #[trigger] all.contains(i) <==> i < n
                && files[i as int].content_type.number() == number by {
                assert(before.contains(i) == all.contains(i));
            }
        }
    }
}

/// The files with the content type that has the given number, in the order in which they
/// are compressed.
pub fn bucket_indices(files: &[FileInfo], number: u16) -> (out: Vec<usize>)
    ensures
        out@ == bucket(files@, number as int),
        forall|k: int| 0 <= k < out@.len() ==> #[trigger] out@[k] < files@.len(),
{
    let exts = extensions(files);
    let mut chosen: Vec<usize> = Vec::new();
    let mut i: usize = 0;
    while i < files.len()
        invariant
            i <= files@.len(),
            lists_files(chosen@, files@.len()),
            chosen@ == indices_of_type(files@, number as int, i as nat),
        decreases files@.len() - i,
    {
        if files[i].content_type.to_u16() == number {
            chosen.push(i);
        }
        i = i + 1;
    }
    let out = merge_sort(files, exts.as_slice(), chosen.as_slice());
    proof {
        lemma_bucket_order(files@);
        chosen@.lemma_sort_by_ensures(bucket_order(files@));
        lemma_sorted_unique(out@, bucket(files@, number as int), bucket_order(files@));
    }
    out
}

// Grouping.

/// The values of some groups.
pub open spec fn values(groups: Seq<SolidGroup>) -> Seq<GroupModel> {
    groups.map_values(|g: SolidGroup| g@)
}

/// How many of the first `n` files have a content type with a number below `number`.
spec fn count_below(files: Seq<FileInfo>, number: int, n: nat) -> nat
    decreases n,
{
    if n == 0 {
        0
    } else {
        count_below(files, number, (n - 1) as nat) + if files[n - 1].content_type.number()
            < number {
            1nat
        } else {
            0nat
        }
    }
}

proof fn lemma_count_below(files: Seq<FileInfo>, number: int, n: nat)
    ensures
        count_below(files, number + 1, n) == count_below(files, number, n) + indices_of_type(
            files,
            number,
            n,
        ).len(),
        count_below(files, number, n) <= n,
    decreases n,
{
    if n > 0 {
        lemma_count_below(files, number, (n - 1) as nat);
    }
}

proof fn lemma_bucket_len(files: Seq<FileInfo>, number: int)
    ensures
        bucket(files, number).len() == indices_of_type(files, number, files.len()).len(),
{
    broadcast use group_to_multiset_ensures;

    let s = indices_of_type(files, number, files.len());
    lemma_bucket_order(files);
    s.lemma_sort_by_ensures(bucket_order(files));
    assert(s.to_multiset().len() == s.sort_by(bucket_order(files)).to_multiset().len());
}

proof fn lemma_parts_len(files: Seq<FileInfo>, order: Seq<usize>)
    ensures
        parts_of(files, order).len() <= order.len(),
        order.len() > 0 ==> parts_of(files, order).len() > 0,
        forall|i: int|
            0 <= i < parts_of(files, order).len() ==> #[trigger] parts_of(files, order)[i].len()
                > 0,
    decreases order.len(),
{
    if order.len() > 0 {
        lemma_parts_len(files, order.drop_last());
    }
}

proof fn lemma_group_count(files: Seq<FileInfo>, entropies: Seq<i64>, n: nat)
    ensures
        groups_below(files, entropies, n).len() <= count_below(files, n as int, files.len()),
    decreases n,
{
    if n > 0 {
        lemma_group_count(files, entropies, (n - 1) as nat);
        lemma_count_below(files, n - 1, files.len());
        lemma_bucket_len(files, n - 1);
        lemma_parts_len(files, bucket(files, n - 1));
    }
}

/// There are no more groups than files, so few enough files have few enough groups.
pub proof fn groups_are_no_more_than_files(files: Seq<FileInfo>, entropies: Seq<i64>)
    ensures
        groups_below(files, entropies, CONTENT_TYPES as nat).len() <= files.len(),
{
    lemma_group_count(files, entropies, CONTENT_TYPES as nat);
    lemma_count_below(files, CONTENT_TYPES as int, files.len());
}

/// The first files of a bucket have no more parts than all of it.
proof fn lemma_parts_grow(files: Seq<FileInfo>, order: Seq<usize>, i: int)
    requires
        0 <= i <= order.len(),
    ensures
        parts_of(files, order.take(i)).len() <= parts_of(files, order).len(),
    decreases order.len(),
{
    if i == order.len() {
        assert(order.take(i) =~= order);
    } else {
        lemma_parts_grow(files, order.drop_last(), i);
        assert(order.drop_last().take(i) =~= order.take(i));
    }
}

/// The first content types have no more groups than all of them.
proof fn lemma_groups_grow(files: Seq<FileInfo>, entropies: Seq<i64>, n: nat, m: nat)
    requires
        n <= m,
    ensures
        groups_below(files, entropies, n).len() <= groups_below(files, entropies, m).len(),
    decreases m,
{
    if n < m {
        lemma_groups_grow(files, entropies, n, (m - 1) as nat);
    }
}

/// Adds the groups of one bucket.
fn add_groups(
    groups: &mut Vec<SolidGroup>,
    files: &[FileInfo],
    order: &[usize],
    content_type: ContentType,
    entropy: i64,
)
    requires
        lists_files(order@, files@.len()),
        old(groups)@.len() + parts_of(files@, order@).len() <= u32::MAX,
    ensures
        values(final(groups)@) == values(old(groups)@) + groups_of(
            files@,
            parts_of(files@, order@),
            content_type.number() as int,
            entropy,
            old(groups)@.len() as int,
        ),
{
    let recommended_method = recommend_method_for(entropy, content_type);
    let first: usize = groups.len();
    let ghost number = content_type.number() as int;
    let mut current: Vec<usize> = Vec::new();
    let mut current_size: u64 = 0;
    let mut i: usize = 0;
    proof {
        assert(order@.take(0) =~= Seq::empty());
        assert(values(groups@) =~= values(old(groups)@) + groups_of(
            files@,
            seq![],
            number,
            entropy,
            first as int,
        ));
    }
    while i < order.len()
        invariant
            lists_files(order@, files@.len()),
            i <= order@.len(),
            first == old(groups)@.len(),
            first + parts_of(files@, order@).len() <= u32::MAX,
            number == content_type.number(),
            recommended_method == method_for(entropy, content_type),
            current_size == size_of(files@, current@),
            i == 0 <==> current@.len() == 0,
            ({
                let parts = parts_of(files@, order@.take(i as int));
                let done = if i == 0 {
                    parts
                } else {
                    parts.drop_last()
                };
                &&& i > 0 ==> parts.len() > 0 && parts.last() == current@
                &&& values(groups@) == values(old(groups)@) + groups_of(
                    files@,
                    done,
                    number,
                    entropy,
                    first as int,
                )
            }),
        decreases order@.len() - i,
    {
        let next: usize = order[i];
        let size: u64 = files[next].size;
        let ghost parts = parts_of(files@, order@.take(i as int));
        proof {
            assert(order@.take(i + 1).drop_last() =~= order@.take(i as int));
            lemma_parts_grow(files@, order@, i as int);
            assert(values(groups@).len() == groups@.len());
        }
        let ghost taken = current@;
        if current.len() > 0 && (current_size > MAX_SOLID_GROUP_SIZE || size > MAX_SOLID_GROUP_SIZE
            - current_size) {
            let ghost before = groups@;
            let mut flushed: Vec<usize> = Vec::new();
            std::mem::swap(&mut flushed, &mut current);
            groups.push(
                SolidGroup {
                    group_id: groups.len() as u32,
                    content_type,
                    recommended_method,
                    file_indices: flushed,
                    total_size: current_size,
                },
            );
            current_size = 0;
            proof {
                assert(values(groups@) =~= values(before).push(groups@.last()@));
                assert(ContentType::of_number(number as u16).unwrap() == content_type);
                assert(groups@.last()@ == group_of(
                    files@,
                    parts.last(),
                    number,
                    entropy,
                    first + parts.len() - 1,
                ));
                assert(values(groups@) =~= values(old(groups)@) + groups_of(
                    files@,
                    parts,
                    number,
                    entropy,
                    first as int,
                ));
            }
        }
        let ghost base = current@;
        assert(current_size == size_of(files@, base));
        current.push(next);
        current_size = current_size + size;
        proof {
            assert(current@.drop_last() =~= base);
            assert(base =~= taken || current@ =~= seq![next]);
            let grown = parts_of(files@, order@.take(i + 1));
            if grown == parts.push(seq![next]) {
                assert(grown.drop_last() =~= parts);
            } else {
                assert(grown.drop_last() =~= parts.drop_last());
            }
        }
        i = i + 1;
    }
    assert(order@.take(i as int) =~= order@);
    let ghost parts = parts_of(files@, order@);
    if current.len() > 0 {
        let ghost before = groups@;
        proof {
            lemma_parts_len(files@, order@);
            assert(values(groups@).len() == groups@.len());
        }
        groups.push(
            SolidGroup {
                group_id: groups.len() as u32,
                content_type,
                recommended_method,
                file_indices: current,
                total_size: current_size,
            },
        );
        proof {
            assert(values(groups@) =~= values(before).push(groups@.last()@));
            assert(ContentType::of_number(number as u16).unwrap() == content_type);
            assert(groups@.last()@ == group_of(
                files@,
                parts.last(),
                number,
                entropy,
                first + parts.len() - 1,
            ));
            assert(values(groups@) =~= values(old(groups)@) + groups_of(
                files@,
                parts,
                number,
                entropy,
                first as int,
            ));
        }
    }
}

/// Groups files by content type for solid archiving.
///
/// Within each type bucket, files are sorted by extension then size to maximize locality
/// of similar content. Large buckets are split into sub-groups of at most
/// [`MAX_SOLID_GROUP_SIZE`]. `entropies` holds, by the number of the content type, the
/// mean entropy of the files of its [`bucket`](bucket_indices). Groups are numbered with 32
/// bits, so there must not be more of them.
pub fn group_files(files: &[FileInfo], entropies: &[i64; 7]) -> (groups: Vec<SolidGroup>)
    requires
        groups_below(files@, entropies@, CONTENT_TYPES as nat).len() <= u32::MAX,
    ensures
        values(groups@) == groups_below(files@, entropies@, CONTENT_TYPES as nat),
{
    let mut groups: Vec<SolidGroup> = Vec::new();
    let mut number: u16 = 0;
    assert(values(groups@) =~= groups_below(files@, entropies@, 0));
    while number < CONTENT_TYPES
        invariant
            number <= CONTENT_TYPES,
            groups_below(files@, entropies@, CONTENT_TYPES as nat).len() <= u32::MAX,
            values(groups@) == groups_below(files@, entropies@, number as nat),
        decreases CONTENT_TYPES - number,
    {
        proof {
            lemma_groups_grow(files@, entropies@, (number + 1) as nat, CONTENT_TYPES as nat);
            assert(values(groups@).len() == groups@.len());
        }
        let order = bucket_indices(files, number);
        if let Ok(content_type) = ContentType::from_u16(number) {
            add_groups(
                &mut groups,
                files,
                order.as_slice(),
                content_type,
                entropies[number as usize],
            );
        }
        number = number + 1;
    }
    groups
}

// What grouping keeps.

/// The files of some groups, one after another.
pub open spec fn grouped(groups: Seq<GroupModel>) -> Seq<usize>
    decreases groups.len(),
{
    if groups.len() == 0 {
        Seq::empty()
    } else {
        grouped(groups.drop_last()) + groups.last().file_indices
    }
}

proof fn lemma_grouped_append(a: Seq<GroupModel>, b: Seq<GroupModel>)
    ensures
        grouped(a + b) == grouped(a) + grouped(b),
    decreases b.len(),
{
    if b.len() == 0 {
        assert(a + b =~= a);
        assert(grouped(a) + grouped(b) =~= grouped(a));
    } else {
        lemma_grouped_append(a, b.drop_last());
        assert((a + b).drop_last() =~= a + b.drop_last());
        assert(grouped(a) + grouped(b.drop_last()) + b.last().file_indices =~= grouped(a)
            + grouped(b));
    }
}

/// The parts of a bucket, one after another, are the bucket.
proof fn lemma_grouped_parts(
    files: Seq<FileInfo>,
    order: Seq<usize>,
    number: int,
    entropy: i64,
    first: int,
)
    ensures
        grouped(groups_of(files, parts_of(files, order), number, entropy, first)) == order,
    decreases order.len(),
{
    let parts = parts_of(files, order);
    let groups = groups_of(files, parts, number, entropy, first);
    if order.len() == 0 {
        assert(grouped(groups) =~= order);
    } else {
        let before = parts_of(files, order.drop_last());
        let groups_before = groups_of(files, before, number, entropy, first);
        lemma_grouped_parts(files, order.drop_last(), number, entropy, first);
        assert(order.drop_last().push(order.last()) =~= order);
        if before.len() == 0 || parts == before.push(seq![order.last()]) {
            assert(groups.drop_last() =~= groups_before);
            assert(grouped(groups_before) + seq![order.last()] =~= order);
        } else {
            assert(groups.drop_last() =~= groups_before.drop_last());
            assert(grouped(groups_before.drop_last()) + before.last().push(order.last()) =~= (
            grouped(groups_before.drop_last()) + before.last()).push(order.last()));
            assert(grouped(groups) =~= order);
        }
    }
}

/// A bucket holds each file of its type once.
proof fn lemma_bucket(files: Seq<FileInfo>, number: int)
    requires
        files.len() <= usize::MAX,
    ensures
        bucket(files, number).no_duplicates(),
        forall|i: usize|
            #[trigger] bucket(files, number).contains(i) <==> i < files.len()
                && files[i as int].content_type.number() == number,
{
    broadcast use group_to_multiset_ensures;

    let s = indices_of_type(files, number, files.len());
    let b = bucket(files, number);
    lemma_indices_of_type(files, number, files.len());
    lemma_bucket_order(files);
    s.lemma_sort_by_ensures(bucket_order(files));
    s.lemma_multiset_has_no_duplicates();
    b.lemma_multiset_has_no_duplicates_conv();
    assert forall|i: usize| #[trigger] b.contains(i) <==> i < files.len()
        && files[i as int].content_type.number() == number by {
        assert(b.contains(i) <==> b.to_multiset().count(i) > 0);
        assert(s.contains(i) <==> s.to_multiset().count(i) > 0);
    }
}

proof fn lemma_grouped(files: Seq<FileInfo>, entropies: Seq<i64>, n: nat)
    requires
        files.len() <= usize::MAX,
    ensures
        grouped(groups_below(files, entropies, n)).no_duplicates(),
        forall|i: usize|
            #[trigger] grouped(groups_below(files, entropies, n)).contains(i) <==> i < files.len()
                && files[i as int].content_type.number() < n,
    decreases n,
{
    if n > 0 {
        let m = (n - 1) as nat;
        let before = groups_below(files, entropies, m);
        let b = bucket(files, m as int);
        let parts = parts_of(files, b);
        let added = groups_of(files, parts, m as int, entropies[m as int], before.len() as int);
        lemma_grouped(files, entropies, m);
        lemma_bucket(files, m as int);
        lemma_grouped_parts(files, b, m as int, entropies[m as int], before.len() as int);
        lemma_grouped_append(before, added);
        let x = grouped(before);
        let all = x + b;
        assert(grouped(groups_below(files, entropies, n)) == all);
        assert forall|i: usize| #[trigger] all.contains(i) <==> x.contains(i) || b.contains(i) by {
            if x.contains(i) {
                assert(all[x.index_of(i)] == i);
            }
            if b.contains(i) {
                assert(all[x.len() + b.index_of(i)] == i);
            }
            if all.contains(i) {
                let k = all.index_of(i);
                if k < x.len() {
                    assert(x[k] == i);
                } else {
                    assert(b[k - x.len()] == i);
                }
            }
        }
        assert forall|p: int, q: int|
            0 <= p < all.len() && 0 <= q < all.len() && p != q implies all[p] != all[q] by {
            if p < x.len() && q >= x.len() {
                assert(x.contains(x[p]));
                assert(b.contains(b[q - x.len()]));
            }
            if q < x.len() && p >= x.len() {
                assert(x.contains(x[q]));
                assert(b.contains(b[p - x.len()]));
            }
        }
    }
}

/// Every file is in exactly one group, once: the groups' lists of files, one after
/// another, hold each index into the list of files, and none twice.
pub proof fn every_file_is_grouped_once(files: Seq<FileInfo>, entropies: Seq<i64>)
    requires
        files.len() <= usize::MAX,
    ensures
        ({
            let all = grouped(groups_below(files, entropies, CONTENT_TYPES as nat));
            &&& all.no_duplicates()
            &&& forall|i: usize| #[trigger] all.contains(i) <==> i < files.len()
        }),
{
    lemma_grouped(files, entropies, CONTENT_TYPES as nat);
}

/// A group as it should be.
pub open spec fn sound_group(files: Seq<FileInfo>, g: GroupModel) -> bool {
    &&& g.file_indices.len() > 0
    &&& forall|k: int| 0 <= k < g.file_indices.len() ==> files[(#[trigger] g.file_indices[k]) as
        int].content_type == g.content_type
    &&& g.total_size == size_of(files, g.file_indices)
    &&& g.total_size <= MAX_SOLID_GROUP_SIZE || g.file_indices.len() == 1
}

proof fn lemma_part(files: Seq<FileInfo>, order: Seq<usize>, i: int)
    requires
        0 <= i < parts_of(files, order).len(),
    ensures
        parts_of(files, order)[i].len() > 0,
        size_of(files, parts_of(files, order)[i]) <= MAX_SOLID_GROUP_SIZE || parts_of(
            files,
            order,
        )[i].len() == 1,
        forall|k: int|
            0 <= k < parts_of(files, order)[i].len() ==> order.contains(
                #[trigger] parts_of(files, order)[i][k],
            ),
    decreases order.len(),
{
    let part = parts_of(files, order)[i];
    let before = parts_of(files, order.drop_last());
    let x = order.last();
    assert(order[order.len() - 1] == x);
    if i < before.len() {
        lemma_part(files, order.drop_last(), i);
        assert forall|k: int| 0 <= k < part.len() implies order.contains(#[trigger] part[k]) by {
            if k < before[i].len() && part[k] == before[i][k] {
                assert(order.drop_last().contains(before[i][k]));
                let p = order.drop_last().index_of(part[k]);
                assert(order[p] == part[k]);
            }
        }
        if part != before[i] {
            assert(part == before[i].push(x));
            assert(part.drop_last() =~= before[i]);
        }
    } else {
        assert(part == seq![x]);
    }
}

proof fn lemma_sound_groups(files: Seq<FileInfo>, entropies: Seq<i64>, n: nat, i: int)
    requires
        files.len() <= usize::MAX,
        n <= CONTENT_TYPES,
        0 <= i < groups_below(files, entropies, n).len(),
    ensures
        sound_group(files, groups_below(files, entropies, n)[i]),
        groups_below(files, entropies, n)[i].group_id == i,
    decreases n,
{
    let m = (n - 1) as nat;
    let before = groups_below(files, entropies, m);
    if i < before.len() {
        lemma_sound_groups(files, entropies, m, i);
    } else {
        let b = bucket(files, m as int);
        let k = i - before.len();
        lemma_part(files, b, k);
        lemma_bucket(files, m as int);
        let g = groups_below(files, entropies, n)[i];
        assert(g.file_indices == parts_of(files, b)[k]);
        assert forall|j: int| 0 <= j < g.file_indices.len() implies files[(
        #[trigger] g.file_indices[j]) as int].content_type == g.content_type by {
            assert(b.contains(parts_of(files, b)[k][j]));
        }
    }
}

/// Groups are numbered from 0 on; none is empty; all files of a group have its content
/// type; its size is that of its files, and above the limit only where it is a single
/// file.
pub proof fn groups_are_sound(files: Seq<FileInfo>, entropies: Seq<i64>, i: int)
    requires
        files.len() <= usize::MAX,
        0 <= i < groups_below(files, entropies, CONTENT_TYPES as nat).len(),
    ensures
        sound_group(files, groups_below(files, entropies, CONTENT_TYPES as nat)[i]),
        groups_below(files, entropies, CONTENT_TYPES as nat)[i].group_id == i,
{
    lemma_sound_groups(files, entropies, CONTENT_TYPES as nat, i);
}

/// Files of a bucket are sorted by extension, those with the same one by size, and those of
/// the same size by their place in the list.
pub proof fn buckets_are_sorted(files: Seq<FileInfo>, number: int, a: int, b: int)
    requires
        files.len() <= usize::MAX,
        0 <= a < b < bucket(files, number).len(),
    ensures
        ({
            let i = bucket(files, number)[a];
            let j = bucket(files, number)[b];
            let x = files[i as int];
            let y = files[j as int];
            let ext_x = after_last_dot(x.path@);
            let ext_y = after_last_dot(y.path@);
            &&& i < files.len() && x.content_type.number() == number
            &&& ext_x != ext_y ==> text_at_most(ext_x, ext_y)
            &&& ext_x == ext_y ==> x.size < y.size || (x.size == y.size && i < j)
        }),
{
    let s = indices_of_type(files, number, files.len());
    let order = bucket(files, number);
    lemma_bucket_order(files);
    s.lemma_sort_by_ensures(bucket_order(files));
    lemma_bucket(files, number);
    let r = bucket_order(files);
    assert(r(order[a], order[b]));
    assert(order.contains(order[a]));
    assert(order[a] != order[b]);
}

/// Texts are ordered by the first character in which they differ; one that is the start of
/// another comes before it.
pub proof fn texts_are_ordered_by_their_first_difference(
    start: Seq<char>,
    x: char,
    y: char,
    a: Seq<char>,
    b: Seq<char>,
)
    requires
        x != y,
    ensures
        text_at_most(start + seq![x] + a, start + seq![y] + b) <==> x < y,
        text_at_most(start, start + a),
    decreases start.len(),
{
    let s = start + seq![x] + a;
    let t = start + seq![y] + b;
    if start.len() > 0 {
        let rest = start.drop_first();
        assert(s.drop_first() =~= rest + seq![x] + a);
        assert(t.drop_first() =~= rest + seq![y] + b);
        assert((start + a).drop_first() =~= rest + a);
        texts_are_ordered_by_their_first_difference(rest, x, y, a, b);
    }
}

/// Parts are as large as they may be: the first file of the next one would not have fitted.
proof fn lemma_parts_full(files: Seq<FileInfo>, order: Seq<usize>, i: int)
    requires
        0 <= i,
        i + 1 < parts_of(files, order).len(),
    ensures
        parts_of(files, order)[i + 1].len() > 0,
        size_of(files, parts_of(files, order)[i]) + files[parts_of(files, order)[i + 1][0] as int].size
            > 268_435_456,
    decreases order.len(),
{
    let parts = parts_of(files, order);
    let before = parts_of(files, order.drop_last());
    if i + 1 < before.len() {
        lemma_parts_full(files, order.drop_last(), i);
        lemma_part(files, order.drop_last(), i + 1);
        assert(parts[i] == before[i]);
        assert(parts[i + 1][0] == before[i + 1][0]);
    } else {
        assert(parts == before.push(seq![order.last()]));
    }
}

/// A group of the first `n` content types is a part of its bucket, and the next group is the
/// next part or belongs to a later type.
proof fn lemma_group_places(files: Seq<FileInfo>, entropies: Seq<i64>, n: nat, i: int)
    requires
        n <= CONTENT_TYPES,
        0 <= i < groups_below(files, entropies, n).len(),
    ensures
        ({
            let groups = groups_below(files, entropies, n);
            let t = groups[i].content_type;
            &&& t.number() < n
            &&& groups[i].recommended_method == method_for(entropies[t.number() as int], t)
            &&& i + 1 < groups.len() ==> t.number() <= groups[i + 1].content_type.number()
            &&& i + 1 < groups.len() && t == groups[i + 1].content_type ==> exists|k: int| #[trigger]
                part_pair(files, t.number() as int, k, groups[i], groups[i + 1])
        }),
    decreases n,
{
    let m = (n - 1) as nat;
    let before = groups_below(files, entropies, m);
    let groups = groups_below(files, entropies, n);
    if i < before.len() {
        lemma_group_places(files, entropies, m, i);
        if i + 1 == before.len() && i + 1 < groups.len() {
            assert(groups[i + 1].content_type.number() == m);
        }
    } else {
        let k = i - before.len();
        assert(groups[i].content_type.number() == m);
        if i + 1 < groups.len() {
            assert(part_pair(files, m as int, k, groups[i], groups[i + 1]));
        }
    }
}

/// Two groups are the parts `k` and `k + 1` of the bucket of a content type.
pub open spec fn part_pair(
    files: Seq<FileInfo>,
    number: int,
    k: int,
    a: GroupModel,
    b: GroupModel,
) -> bool {
    let parts = parts_of(files, bucket(files, number));
    0 <= k && k + 1 < parts.len() && a.file_indices == parts[k] && b.file_indices == parts[k + 1]
}

/// What [`group_files`] gives: groups numbered from 0 on, in the order of their content
/// types, each with files of its type alone, their size, and the method that the entropy of
/// the type calls for. Where two of the same type follow each other, the first file of the
/// second would have made the first larger than 256 MiB. Together they hold every file once.
pub proof fn files_are_grouped(
    files: &[FileInfo],
    entropies: &[i64; 7],
    groups: Vec<SolidGroup>,
    i: int,
)
    requires
        call_ensures(group_files, (files, entropies), groups),
        0 <= i < groups@.len(),
    ensures
        ({
            let g = groups@[i];
            &&& g.group_id == i
            &&& g.file_indices@.len() > 0
            &&& forall|k: int|
                0 <= k < g.file_indices@.len() ==> files@[(#[trigger] g.file_indices@[k]) as int].content_type
                    == g.content_type
            &&& g.total_size == size_of(files@, g.file_indices@)
            &&& g.total_size <= 268_435_456 || g.file_indices@.len() == 1
            &&& g.recommended_method == method_for(
                entropies@[g.content_type.number() as int],
                g.content_type,
            )
            &&& i + 1 < groups@.len() ==> {
                let next = groups@[i + 1];
                &&& g.content_type.number() <= next.content_type.number()
                &&& g.content_type == next.content_type ==> g.total_size
                    + files@[next.file_indices@[0] as int].size > 268_435_456
            }
        }),
        grouped(values(groups@)).no_duplicates(),
        forall|k: usize| #[trigger] grouped(values(groups@)).contains(k) <==> k < files@.len(),
{
    let all = groups_below(files@, entropies@, CONTENT_TYPES as nat);
    assert(files@.len() == files.len());
    assert(values(groups@).len() == groups@.len());
    assert(values(groups@)[i] == groups@[i]@);
    groups_are_sound(files@, entropies@, i);
    every_file_is_grouped_once(files@, entropies@);
    lemma_group_places(files@, entropies@, CONTENT_TYPES as nat, i);
    if i + 1 < groups@.len() {
        assert(values(groups@)[i + 1] == groups@[i + 1]@);
        let t = all[i].content_type;
        if t == all[i + 1].content_type {
            let k = choose|k: int| #[trigger]
                part_pair(files@, t.number() as int, k, all[i], all[i + 1]);
            lemma_parts_full(files@, bucket(files@, t.number() as int), k);
        }
    }
}

/// The size of files is the sum of their sizes.
pub proof fn sizes_add_up(files: Seq<FileInfo>, indices: Seq<usize>, next: usize)
    ensures
        size_of(files, indices.push(next)) == size_of(files, indices) + files[next as int].size,
        size_of(files, Seq::empty()) == 0,
{
    assert(indices.push(next).drop_last() =~= indices);
}

/// What [`bucket_indices`] gives: every file of the content type once and no other, sorted by
/// extension, then by size, then by place.
pub proof fn buckets_hold_their_type(
    files: &[FileInfo],
    number: u16,
    out: Vec<usize>,
    a: int,
    b: int,
    i: usize,
)
    requires
        call_ensures(bucket_indices, (files, number), out),
        0 <= a < b < out@.len(),
    ensures
        out@.no_duplicates(),
        out@.contains(i) <==> i < files@.len() && files@[i as int].content_type.number() == number,
        ({
            let x = files@[out@[a] as int];
            let y = files@[out@[b] as int];
            let ext_x = after_last_dot(x.path@);
            let ext_y = after_last_dot(y.path@);
            &&& ext_x != ext_y ==> text_at_most(ext_x, ext_y)
            &&& ext_x == ext_y ==> x.size < y.size || (x.size == y.size && out@[a] < out@[b])
        }),
{
    assert(files@.len() == files.len());
    buckets_are_sorted(files@, number as int, a, b);
    lemma_bucket(files@, number as int);
}

} // verus!
