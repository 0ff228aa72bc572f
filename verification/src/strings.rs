//! Texts as character sequences.

use vstd::prelude::*;

verus! {

/// `hay` holds `needle` at `i`.
pub open spec fn holds_text(hay: Seq<char>, needle: Seq<char>, i: int) -> bool {
    0 <= i && i + needle.len() <= hay.len() && hay.subrange(i, i + needle.len()) == needle
}

/// `hay` holds `needle` somewhere.
pub open spec fn contains_text(hay: Seq<char>, needle: Seq<char>) -> bool {
    exists|i: int| holds_text(hay, needle, i)
}

/// The first place from `i` on at which `hay` holds `needle`.
pub open spec fn find_from(hay: Seq<char>, needle: Seq<char>, i: int) -> Option<int>
    decreases hay.len() - i,
{
    if i < 0 || i + needle.len() > hay.len() || i >= hay.len() {
        None
    } else if holds_text(hay, needle, i) {
        Some(i)
    } else {
        find_from(hay, needle, i + 1)
    }
}

/// An ASCII capital letter in lower case, any other character as it is.
pub open spec fn lower_char(c: char) -> char {
    if 'A' <= c <= 'Z' {
        (c as u32 + 32) as char
    } else {
        c
    }
}

/// `s` with its ASCII capital letters in lower case.
pub open spec fn lower_text(s: Seq<char>) -> Seq<char> {
    s.map_values(|c: char| lower_char(c))
}

/// An ASCII lower-case letter.
pub open spec fn is_lower(c: char) -> bool {
    'a' <= c <= 'z'
}

/// An ASCII upper-case letter.
pub open spec fn is_upper(c: char) -> bool {
    'A' <= c <= 'Z'
}

/// An ASCII digit.
pub open spec fn is_digit(c: char) -> bool {
    '0' <= c <= '9'
}

/// The characters of `s`.
pub fn chars_of(s: &str) -> (v: Vec<char>)
    ensures
        v@ == s@,
{
    let mut v: Vec<char> = Vec::new();
    for c in it: s.chars()
        invariant
            it.seq() == s@,
            v@ == s@.take(it.index()),
    {
        v.push(c);
        assert(v@ =~= s@.take(it.index() + 1));
    }
    assert(v@ =~= s@);
    v
}

/// Tells whether `hay` holds `needle` at `i`.
fn holds_at(hay: &[char], needle: &[char], i: usize) -> (r: bool)
    requires
        i + needle@.len() <= hay@.len(),
    ensures
        r == holds_text(hay@, needle@, i as int),
{
    assert(hay.len() == hay@.len());
    let ghost part = hay@.subrange(i as int, i + needle@.len());
    let mut k: usize = 0;
    while k < needle.len()
        invariant
            k <= needle@.len(),
            i + needle@.len() <= hay@.len() <= usize::MAX,
            part == hay@.subrange(i as int, i + needle@.len()),
            forall|x: int| 0 <= x < k ==> part[x] == needle@[x],
        decreases needle@.len() - k,
    {
        if hay[i + k] != needle[k] {
            assert(part[k as int] != needle@[k as int]);
            return false;
        }
        k = k + 1;
    }
    assert(part =~= needle@);
    true
}

/// The first place at which `hay` holds the text `needle`.
pub fn find_text(hay: &[char], needle: &str) -> (r: Option<usize>)
    requires
        needle@.len() > 0,
    ensures
        match r {
            Some(i) => find_from(hay@, needle@, 0) == Some(i as int) && i + needle@.len()
                <= hay@.len(),
            None => find_from(hay@, needle@, 0) is None,
        },
        r is Some == contains_text(hay@, needle@),
{
    let pattern = chars_of(needle);
    let mut i: usize = 0;
    while i < hay.len() && pattern.len() <= hay.len() - i
        invariant
            i <= hay@.len(),
            pattern@ == needle@,
            needle@.len() > 0,
            find_from(hay@, needle@, 0) == find_from(hay@, needle@, i as int),
            forall|x: int| 0 <= x < i ==> !holds_text(hay@, needle@, x),
        decreases hay@.len() - i,
    {
        if holds_at(hay, pattern.as_slice(), i) {
            assert(holds_text(hay@, needle@, i as int));
            return Some(i);
        }
        i = i + 1;
    }
    None
}

/// Tells whether `hay` holds the text `needle`.
pub fn has_text(hay: &[char], needle: &str) -> (r: bool)
    ensures
        r == contains_text(hay@, needle@),
{
    if needle.is_empty() {
        assert(hay@.subrange(0, 0) =~= needle@);
        assert(holds_text(hay@, needle@, 0));
        return true;
    }
    find_text(hay, needle).is_some()
}

/// Tells whether `hay` holds the character `c`.
pub fn has_char(hay: &[char], c: char) -> (r: bool)
    ensures
        r == hay@.contains(c),
{
    let mut i: usize = 0;
    while i < hay.len()
        invariant
            i <= hay@.len(),
            forall|x: int| 0 <= x < i ==> hay@[x] != c,
        decreases hay@.len() - i,
    {
        if hay[i] == c {
            assert(hay@[i as int] == c);
            return true;
        }
        i = i + 1;
    }
    false
}

/// The characters with ASCII capital letters in lower case.
pub fn lower_chars(s: &[char]) -> (v: Vec<char>)
    ensures
        v@ == lower_text(s@),
{
    let mut v: Vec<char> = Vec::new();
    let mut i: usize = 0;
    while i < s.len()
        invariant
            i <= s@.len(),
            v@ == lower_text(s@).take(i as int),
        decreases s@.len() - i,
    {
        let c: char = s[i];
        let l: char = if 'A' <= c && c <= 'Z' {
            (c as u8 + 32) as char
        } else {
            c
        };
        v.push(l);
        i = i + 1;
        assert(v@ =~= lower_text(s@).take(i as int));
    }
    assert(v@ =~= lower_text(s@));
    v
}

/// Tells whether two texts are equal.
pub fn same_text(a: &str, b: &str) -> (r: bool)
    ensures
        r == (a@ == b@),
{
    let x = chars_of(a);
    let y = chars_of(b);
    if x.len() != y.len() {
        return false;
    }
    let mut i: usize = 0;
    while i < x.len()
        invariant
            i <= x@.len() == y@.len(),
            x@ == a@,
            y@ == b@,
            forall|k: int| 0 <= k < i ==> x@[k] == y@[k],
        decreases x@.len() - i,
    {
        if x[i] != y[i] {
            return false;
        }
        i = i + 1;
    }
    assert(x@ =~= y@);
    true
}

/// What follows the last dot of `s`, or all of it where it has none.
pub open spec fn after_last_dot(s: Seq<char>) -> Seq<char>
    decreases s.len(),
{
    if s.len() == 0 {
        s
    } else if s.last() == '.' {
        Seq::empty()
    } else {
        after_last_dot(s.drop_last()).push(s.last())
    }
}

/// The part of a text that [`after_last_dot`] gives starts behind a dot, or at its start.
proof fn lemma_after_last_dot(s: Seq<char>, i: int)
    requires
        0 <= i <= s.len(),
        i == 0 || s[i - 1] == '.',
        forall|k: int| i <= k < s.len() ==> s[k] != '.',
    ensures
        after_last_dot(s) == s.skip(i),
    decreases s.len(),
{
    if s.len() == i {
        assert(s.skip(i) =~= Seq::empty());
    } else {
        lemma_after_last_dot(s.drop_last(), i);
        assert(s.drop_last().skip(i).push(s.last()) =~= s.skip(i));
    }
}

/// Where what follows the last dot of `s` starts.
fn extension_start(s: &[char]) -> (i: usize)
    ensures
        i <= s@.len(),
        after_last_dot(s@) == s@.skip(i as int),
{
    let mut i: usize = s.len();
    while i > 0 && s[i - 1] != '.'
        invariant
            i <= s@.len(),
            forall|k: int| i <= k < s@.len() ==> s@[k] != '.',
        decreases i,
    {
        i = i - 1;
    }
    proof {
        lemma_after_last_dot(s@, i as int);
    }
    i
}

/// What follows the last dot of `s`, or all of it where it has none.
pub fn extension_of(s: &str) -> (ext: &str)
    ensures
        ext@ == after_last_dot(s@),
{
    let chars = chars_of(s);
    let i: usize = extension_start(chars.as_slice());
    let ext = s.substring_char(i, chars.len());
    assert(s@.subrange(i as int, s@.len() as int) =~= s@.skip(i as int));
    ext
}

/// The extension of a path is what stands behind its last dot: for any stem, a dot and a text
/// without dots it is that text, and a path without dots is its own extension.
pub proof fn extensions_follow_the_last_dot(stem: Seq<char>, ext: Seq<char>)
    requires
        !ext.contains('.'),
    ensures
        after_last_dot(stem + seq!['.'] + ext) == ext,
        after_last_dot(ext) == ext,
{
    let s = stem + seq!['.'] + ext;
    let i = stem.len() as int + 1;
    assert forall|k: int| i <= k < s.len() implies s[k] != '.' by {
        assert(s[k] == ext[k - i]);
        assert(ext.contains(ext[k - i]));
    }
    lemma_after_last_dot(s, i);
    assert(s.skip(i) =~= ext);
    assert forall|k: int| 0 <= k < ext.len() implies ext[k] != '.' by {
        assert(ext.contains(ext[k]));
    }
    lemma_after_last_dot(ext, 0);
    assert(ext.skip(0) =~= ext);
}

/// Lower case changes capital letters alone, each into its small form, and the length not at
/// all; in lower case already nothing changes.
pub proof fn lower_case_changes_capitals(s: Seq<char>, i: int)
    requires
        0 <= i < s.len(),
    ensures
        lower_text(s).len() == s.len(),
        'A' <= s[i] <= 'Z' ==> lower_text(s)[i] as u32 == s[i] as u32 + 32 && 'a' <= lower_text(
            s,
        )[i] <= 'z',
        !('A' <= s[i] <= 'Z') ==> lower_text(s)[i] == s[i],
        lower_text(lower_text(s)) == lower_text(s),
{
    assert forall|k: int| 0 <= k < s.len() implies lower_text(lower_text(s))[k] == lower_text(
        s,
    )[k] by {}
    assert(lower_text(lower_text(s)) =~= lower_text(s));
}

/// A place that is found holds the text, none before it does, and none is found only where
/// the text stands nowhere.
pub proof fn first_places_are_found(hay: Seq<char>, needle: Seq<char>, i: int)
    requires
        needle.len() > 0,
    ensures
        find_from(hay, needle, 0) matches Some(k) ==> 0 <= k && k + needle.len() <= hay.len()
            && hay.subrange(k, k + needle.len()) == needle && (0 <= i < k ==> !(i + needle.len()
            <= hay.len() && hay.subrange(i, i + needle.len()) == needle)),
        find_from(hay, needle, 0) is None && 0 <= i && i + needle.len() <= hay.len()
            ==> hay.subrange(i, i + needle.len()) != needle,
{
    lemma_first_place(hay, needle, 0, i);
}

proof fn lemma_first_place(hay: Seq<char>, needle: Seq<char>, from: int, i: int)
    requires
        needle.len() > 0,
        0 <= from,
    ensures
        find_from(hay, needle, from) matches Some(k) ==> from <= k && holds_text(hay, needle, k)
            && (from <= i < k ==> !holds_text(hay, needle, i)),
        find_from(hay, needle, from) is None && from <= i ==> !holds_text(hay, needle, i),
    decreases hay.len() - from,
{
    if from + needle.len() > hay.len() || from >= hay.len() {
    } else if holds_text(hay, needle, from) {
    } else {
        lemma_first_place(hay, needle, from + 1, i);
    }
}

} // verus!
