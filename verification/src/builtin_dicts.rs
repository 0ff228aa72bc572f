//! Selection among built-in dictionaries.
//!
//! The compressor selects one by detected content type; the decompressor finds it by the
//! hash of its state, which the archive records. The caller hands over the dictionaries
//! as the bytes that are embedded in the program.

use crate::bytes::{same_slice, ByteReader};
use crate::dictionary::{Dictionary, DictionaryModel};
use crate::format::ContentType;
use vstd::prelude::*;

verus! {

/// The dictionary in `bytes`, if they hold one.
pub open spec fn embedded(bytes: Seq<u8>) -> Option<DictionaryModel> {
    match DictionaryModel::read_outcome(bytes) {
        Ok(d) => Some(d),
        Err(_) => None,
    }
}

/// A dictionary, if there is one.
pub open spec fn same_option(r: Option<Dictionary>, m: Option<DictionaryModel>) -> bool {
    match (r, m) {
        (Some(d), Some(v)) => d@ == v,
        (None, None) => true,
        _ => false,
    }
}

/// The first of the dictionaries that has the given hash.
pub open spec fn resolved(all: Seq<Vec<u8>>, hash: Seq<u8>) -> Option<DictionaryModel>
    decreases all.len(),
{
    if all.len() == 0 {
        None
    } else {
        match embedded(all[0]@) {
            Some(d) => if d.hash == hash {
                Some(d)
            } else {
                resolved(all.drop_first(), hash)
            },
            None => resolved(all.drop_first(), hash),
        }
    }
}

fn read_embedded(bytes: &[u8]) -> (r: Option<Dictionary>)
    ensures
        same_option(r, embedded(bytes@)),
{
    let mut reader = ByteReader::new(bytes);
    match Dictionary::read_from(&mut reader) {
        Ok(d) => Some(d),
        Err(_) => None,
    }
}

/// The built-in dictionary suited to `ct`, if one exists, where `text` is the one for
/// text. Other types have none.
pub fn for_content_type(ct: ContentType, text: &[u8]) -> (r: Option<Dictionary>)
    ensures
        same_option(
            r,
            if ct is Text {
                embedded(text@)
            } else {
                None
            },
        ),
{
    match ct {
        ContentType::Text => read_embedded(text),
        _ => None,
    }
}

/// The built-in dictionary among `all` with the given state hash, for transparent
/// extraction.
pub fn by_hash(hash: &[u8; 32], all: &[Vec<u8>]) -> (r: Option<Dictionary>)
    ensures
        same_option(r, resolved(all@, hash@)),
{
    let mut i: usize = 0;
    assert(all@.skip(0) =~= all@);
    while i < all.len()
        invariant
            i <= all@.len(),
            resolved(all@, hash@) == resolved(all@.skip(i as int), hash@),
        decreases all@.len() - i,
    {
        assert(all@.skip(i as int).drop_first() =~= all@.skip(i + 1));
        if let Some(d) = read_embedded(all[i].as_slice()) {
            if same_slice(d.hash.as_slice(), hash.as_slice()) {
                return Some(d);
            }
        }
        i = i + 1;
    }
    assert(all@.skip(i as int) =~= Seq::empty());
    None
}

/// The dictionary selected for text is found again by its hash: the one found has that
/// hash.
pub proof fn selected_dictionary_is_resolvable(text: Vec<u8>, all: Seq<Vec<u8>>)
    requires
        embedded(text@) is Some,
        all.contains(text),
    ensures
        resolved(all, embedded(text@).unwrap().hash) matches Some(d) && d.hash == embedded(
            text@,
        ).unwrap().hash,
    decreases all.len(),
{
    if all[0] != text && !(embedded(all[0]@) is Some && embedded(all[0]@).unwrap().hash
        == embedded(text@).unwrap().hash) {
        let k = all.index_of(text);
        assert(all.drop_first()[k - 1] == text);
        selected_dictionary_is_resolvable(text, all.drop_first());
    }
}

/// What [`by_hash`] finds: a dictionary among those given with exactly that hash; nothing only
/// where none has it. What [`for_content_type`] gives: the one for text to text, and nothing
/// to anything else.
pub proof fn dictionaries_are_found_by_hash(
    hash: &[u8; 32],
    all: &[Vec<u8>],
    r: Option<Dictionary>,
    ct: ContentType,
    text: &[u8],
    chosen: Option<Dictionary>,
    i: int,
)
    requires
        call_ensures(by_hash, (hash, all), r),
        call_ensures(for_content_type, (ct, text), chosen),
    ensures
        r is Some ==> r->0@.hash == hash@ && exists|k: int|
            0 <= k < all@.len() && #[trigger] embedded(all@[k]@) == Some(r->0@),
        r is None && 0 <= i < all@.len() && embedded(all@[i]@) is Some ==> embedded(
            all@[i]@,
        )->0.hash != hash@,
        chosen is Some ==> ct is Text && embedded(text@) == Some(chosen->0@),
        chosen is None && ct is Text ==> embedded(text@) is None,
{
    lemma_resolved(all@, hash@, i);
}

proof fn lemma_resolved(all: Seq<Vec<u8>>, hash: Seq<u8>, i: int)
    ensures
        resolved(all, hash) matches Some(d) ==> d.hash == hash && exists|k: int|
            0 <= k < all.len() && #[trigger] embedded(all[k]@) == Some(d),
        resolved(all, hash) is None && 0 <= i < all.len() && embedded(all[i]@) is Some ==> embedded(
            all[i]@,
        )->0.hash != hash,
    decreases all.len(),
{
    if all.len() > 0 {
        let rest = all.drop_first();
        lemma_resolved(rest, hash, i - 1);
        if 0 < i < all.len() {
            assert(rest[i - 1] == all[i]);
        }
        if let Some(d) = resolved(all, hash) {
            if embedded(all[0]@) != Some(d) {
                let k = choose|k: int|
                    0 <= k < rest.len() && #[trigger] embedded(rest[k]@) == Some(d);
                assert(embedded(all[k + 1]@) == Some(d));
            }
        }
    }
}

} // verus!
