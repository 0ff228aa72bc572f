//! Dictionary pretraining for domain-specific compression.
//!
//! A dictionary captures the learned state of a predictor after processing a training
//! corpus. It is stored as the magic number `AEDX`, a version byte, the predictor's number
//! (two bytes), the length of the state (four bytes), the state, and its BLAKE3 hash.

use crate::bytes::{
    copy_of, is_rest_of, le_bytes, le_value, lemma_pow256_values, push_all, push_le, same_slice, ByteReader,
};
use crate::chunker::{
    chunk_data, chunk_fixed, content_lengths, cut_up, fixed_lengths, Chunk, ChunkModel,
    AVG_CHUNK_SIZE, MAX_CHUNK_SIZE, MIN_CHUNK_SIZE,
};
use crate::coding::bwt_preprocess::{
    bwt_mtf_encode_parts, is_bwt_mtf, rle_decode_rest, rle_encode, rle_round_trips, rle_symbols,
    MAX_BWT_INPUT_SIZE,
};
use crate::entropy::traits::{coded, coded_all, coding_continues, ProbabilityPredictor};
use crate::error::{eof_model, AetherError, ErrorModel, Result};
use crate::format::PredictorId;
use crate::hashing::{blake3_hash, blake3_of};
use crate::header::{lemma_field, lemma_number_at, number_at};
use crate::text::{append_hex, decimal, hex, text_around_numbers};
use vstd::prelude::*;
use vstd::string::*;

verus! {

/// Magic bytes identifying a dictionary file.
pub const DICT_MAGIC: [u8; 4] = [0x41, 0x45, 0x44, 0x58];

/// Current dictionary format version.
pub const DICT_VERSION: u8 = 1;

/// Maximum dictionary state size (64 MiB), enforced when writing and when reading.
pub const MAX_DICT_STATE_SIZE: usize = 67_108_864;

/// A trained dictionary that can initialize a predictor with pretrained state.
#[derive(Clone)]
pub struct Dictionary {
    /// Which predictor this dictionary was trained for.
    pub predictor_id: PredictorId,
    /// Serialized predictor state.
    pub state: Vec<u8>,
    /// BLAKE3 hash of the state bytes (for integrity and archive matching).
    pub hash: [u8; 32],
}

/// The value of a [`Dictionary`].
pub struct DictionaryModel {
    pub predictor_id: PredictorId,
    pub state: Seq<u8>,
    pub hash: Seq<u8>,
}

impl View for Dictionary {
    type V = DictionaryModel;

    open spec fn view(&self) -> DictionaryModel {
        DictionaryModel {
            predictor_id: self.predictor_id,
            state: self.state@,
            hash: self.hash@,
        }
    }
}

/// The text of a state that is too large.
pub open spec fn state_size_text(n: nat) -> Seq<char> {
    "Dictionary state size "@ + decimal(n) + " exceeds "@ + decimal(MAX_DICT_STATE_SIZE as nat)
        + " byte limit"@
}

/// A byte in hexadecimal, without leading zeros.
pub open spec fn short_hex(b: u8) -> Seq<char> {
    if b < 16 {
        hex(b as nat, 1)
    } else {
        hex(b as nat, 2)
    }
}

/// The first four bytes of a hash, as a list in hexadecimal.
pub open spec fn hash_text(hash: Seq<u8>) -> Seq<char> {
    "["@ + short_hex(hash[0]) + ", "@ + short_hex(hash[1]) + ", "@ + short_hex(hash[2]) + ", "@
        + short_hex(hash[3]) + "]"@
}

/// The name of a predictor's identifier.
pub open spec fn id_text(id: PredictorId) -> Seq<char> {
    match id {
        PredictorId::Order0 => "Order0"@,
        PredictorId::ContextMixer => "ContextMixer"@,
        PredictorId::NeuralSsm => "NeuralSsm"@,
        PredictorId::ContextMixerLight => "ContextMixerLight"@,
        PredictorId::Lz4Aware => "Lz4Aware"@,
        PredictorId::Rle => "Rle"@,
        PredictorId::Mtf => "Mtf"@,
        PredictorId::ZstdOnly => "ZstdOnly"@,
    }
}

fn id_name(id: PredictorId) -> (s: &'static str)
    ensures
        s@ == id_text(id),
{
    match id {
        PredictorId::Order0 => "Order0",
        PredictorId::ContextMixer => "ContextMixer",
        PredictorId::NeuralSsm => "NeuralSsm",
        PredictorId::ContextMixerLight => "ContextMixerLight",
        PredictorId::Lz4Aware => "Lz4Aware",
        PredictorId::Rle => "Rle",
        PredictorId::Mtf => "Mtf",
        PredictorId::ZstdOnly => "ZstdOnly",
    }
}

fn append_short_hex(s: &mut String, b: u8)
    ensures
        final(s)@ == old(s)@ + short_hex(b),
{
    if b < 16 {
        append_hex(s, b as u64, 1);
    } else {
        append_hex(s, b as u64, 2);
    }
}

fn hash_start(hash: &[u8]) -> (s: String)
    requires
        hash@.len() >= 4,
    ensures
        s@ == hash_text(hash@),
{
    let mut s = String::from_str("[");
    append_short_hex(&mut s, hash[0]);
    s.append(", ");
    append_short_hex(&mut s, hash[1]);
    s.append(", ");
    append_short_hex(&mut s, hash[2]);
    s.append(", ");
    append_short_hex(&mut s, hash[3]);
    s.append("]");
    s
}

fn state_size_error(n: usize) -> (e: AetherError)
    ensures
        e@ == ErrorModel::ResourceLimitExceeded(state_size_text(n as nat)),
{
    AetherError::ResourceLimitExceeded(
        text_around_numbers(
            "Dictionary state size ",
            n as u64,
            " exceeds ",
            MAX_DICT_STATE_SIZE as u64,
            " byte limit",
        ),
    )
}

impl DictionaryModel {
    /// The dictionary as stored.
    pub open spec fn bytes(self) -> Seq<u8> {
        DICT_MAGIC@ + seq![DICT_VERSION] + le_bytes(self.predictor_id.number() as nat, 2)
            + le_bytes(self.state.len(), 4) + self.state + self.hash
    }

    /// What reading a dictionary from `s` gives.
    pub open spec fn read_outcome(s: Seq<u8>) -> std::result::Result<DictionaryModel, ErrorModel> {
        let id = number_at(s, 5, 2) as u16;
        let n = number_at(s, 7, 4) as int;
        let state = s.subrange(11, 11 + n);
        let hash = s.subrange(11 + n, 43 + n);
        if s.len() < 4 {
            Err(eof_model())
        } else if s.take(4) != DICT_MAGIC@ {
            Err(ErrorModel::InvalidMagic)
        } else if s.len() < 5 {
            Err(eof_model())
        } else if s[4] != DICT_VERSION {
            Err(
                ErrorModel::Decompression(
                    "Unsupported dictionary version "@ + decimal(s[4] as nat) + " (expected "@
                        + decimal(DICT_VERSION as nat) + ")"@,
                ),
            )
        } else if s.len() < 7 {
            Err(eof_model())
        } else if PredictorId::of_number(id) is None {
            Err(ErrorModel::UnknownPredictorId(id))
        } else if s.len() < 11 {
            Err(eof_model())
        } else if n > MAX_DICT_STATE_SIZE {
            Err(ErrorModel::ResourceLimitExceeded(state_size_text(n as nat)))
        } else if s.len() < 43 + n {
            Err(eof_model())
        } else if blake3_of(state)@ != hash {
            Err(
                ErrorModel::ChecksumMismatch {
                    block_id: 0,
                    expected: hash_text(hash),
                    actual: hash_text(blake3_of(state)@),
                },
            )
        } else {
            Ok(
                DictionaryModel {
                    predictor_id: PredictorId::of_number(id).unwrap(),
                    state,
                    hash,
                },
            )
        }
    }
}

// Training.

/// The state after some files were coded, one after another.
pub open spec fn trained_on<P: ProbabilityPredictor>(
    m: P::Model,
    files: Seq<Vec<u8>>,
) -> P::Model
    decreases files.len(),
{
    if files.len() == 0 {
        m
    } else {
        coded_all::<P>(trained_on::<P>(m, files.drop_last()), files.last()@)
    }
}

/// The dictionary made of a trained state.
pub open spec fn dictionary_outcome<P: ProbabilityPredictor>(m: P::Model) -> std::result::Result<
    DictionaryModel,
    ErrorModel,
> {
    match P::saved(m) {
        None => Err(
            ErrorModel::Compression(
                "Predictor '"@ + P::name_of(m) + "' does not support dictionary pretraining"@,
            ),
        ),
        Some(state) => Ok(
            DictionaryModel { predictor_id: P::id_of(m), state, hash: blake3_of(state)@ },
        ),
    }
}

/// A dictionary, or the error that stands for it.
pub open spec fn same_dictionary(
    r: Result<Dictionary>,
    m: std::result::Result<DictionaryModel, ErrorModel>,
) -> bool {
    match (r, m) {
        (Ok(d), Ok(v)) => d@ == v,
        (Err(e), Err(v)) => e@ == v,
        _ => false,
    }
}

/// Codes all of `data` without writing anything.
fn feed<P: ProbabilityPredictor>(predictor: &mut P, data: &[u8])
    ensures
        final(predictor).model() == coded_all::<P>(old(predictor).model(), data@),
{
    let mut i: usize = 0;
    assert(data@.skip(0) =~= data@);
    while i < data.len()
        invariant
            i <= data@.len(),
            coded_all::<P>(predictor.model(), data@.skip(i as int)) == coded_all::<P>(
                old(predictor).model(),
                data@,
            ),
        decreases data@.len() - i,
    {
        assert(data@.skip(i as int).drop_first() =~= data@.skip(i + 1));
        let _ = predictor.predict_cdf();
        predictor.update(data[i]);
        i = i + 1;
    }
    assert(data@.skip(i as int) =~= Seq::empty());
}

/// The dictionary that holds the state of `predictor`.
fn dictionary_of<P: ProbabilityPredictor>(predictor: &P) -> (r: Result<Dictionary>)
    ensures
        same_dictionary(r, dictionary_outcome::<P>(predictor.model())),
{
    let state = match predictor.save_state() {
        Some(s) => s,
        None => {
            let mut text = String::from_str("Predictor '");
            text.append(predictor.name());
            text.append("' does not support dictionary pretraining");
            return Err(AetherError::Compression(text));
        },
    };
    let hash = blake3_hash(state.as_slice());
    Ok(Dictionary { predictor_id: predictor.predictor_id(), state, hash })
}

/// A chunk of a training file, and whether its entropy is so high that the transform is
/// skipped.
pub struct TrainingChunk {
    pub data: Vec<u8>,
    pub high_entropy: bool,
}

/// The chunks that a training file is cut into.
pub open spec fn training_cut(data: Seq<u8>) -> Seq<ChunkModel> {
    if data.len() < MIN_CHUNK_SIZE {
        cut_up(data, fixed_lengths(data.len() as int, AVG_CHUNK_SIZE as usize))
    } else {
        cut_up(data, content_lengths(data, MIN_CHUNK_SIZE, AVG_CHUNK_SIZE, MAX_CHUNK_SIZE))
    }
}

/// Cuts a training file into chunks: small ones in one piece, others by their content.
pub fn training_chunks(data: &[u8]) -> (chunks: Vec<Chunk>)
    ensures
        crate::chunker::values(chunks@) == training_cut(data@),
{
    if data.len() < MIN_CHUNK_SIZE as usize {
        chunk_fixed(data, AVG_CHUNK_SIZE as usize)
    } else {
        chunk_data(data)
    }
}

/// A chunk that training passes over.
pub open spec fn passed_over(c: TrainingChunk) -> bool {
    c.data@.len() < 8 || c.high_entropy || c.data@.len() > MAX_BWT_INPUT_SIZE
}

/// `stream` is what the predictor is fed for a chunk: its ranks, run-length coded where
/// that is possible.
pub open spec fn is_training_stream(c: TrainingChunk, stream: Seq<u8>) -> bool {
    if passed_over(c) {
        stream.len() == 0
    } else {
        exists|primary: int, ranks: Seq<u8>| #[trigger]
            is_bwt_mtf(c.data@, primary, ranks) && stream == if ranks.contains(255) {
                ranks
            } else {
                rle_symbols(ranks)
            }
    }
}

/// The state after some streams were coded, one after another.
pub open spec fn trained_on_streams<P: ProbabilityPredictor>(
    m: P::Model,
    streams: Seq<Seq<u8>>,
) -> P::Model
    decreases streams.len(),
{
    if streams.len() == 0 {
        m
    } else {
        coded_all::<P>(trained_on_streams::<P>(m, streams.drop_last()), streams.last())
    }
}

/// `streams` are what the predictor is fed for `chunks`.
pub open spec fn are_training_streams(
    chunks: Seq<TrainingChunk>,
    streams: Seq<Seq<u8>>,
) -> bool {
    &&& streams.len() == chunks.len()
    &&& forall|i: int|
        0 <= i < chunks.len() ==> is_training_stream(chunks[i], #[trigger] streams[i])
}

/// What the predictor is fed for a chunk.
fn training_stream(c: &TrainingChunk) -> (stream: Vec<u8>)
    ensures
        is_training_stream(*c, stream@),
{
    if c.data.len() < 8 || c.high_entropy {
        return Vec::new();
    }
    match bwt_mtf_encode_parts(c.data.as_slice()) {
        Err(_) => Vec::new(),
        Ok((primary, ranks)) => {
            let ghost g = ranks@;
            assert(is_bwt_mtf(c.data@, primary as int, g));
            match rle_encode(ranks.as_slice()) {
                Some(symbols) => symbols,
                None => ranks,
            }
        },
    }
}

impl Dictionary {
    /// Trains a dictionary by feeding all files through a predictor, as compression
    /// would, and saving the learned state.
    pub fn train<P: ProbabilityPredictor>(predictor: &mut P, training_files: &[Vec<u8>]) -> (r:
        Result<Dictionary>)
        ensures
            final(predictor).model() == trained_on::<P>(old(predictor).model(), training_files@),
            same_dictionary(r, dictionary_outcome::<P>(final(predictor).model())),
    {
        let mut i: usize = 0;
        assert(training_files@.take(0) =~= Seq::empty());
        while i < training_files.len()
            invariant
                i <= training_files@.len(),
                predictor.model() == trained_on::<P>(
                    old(predictor).model(),
                    training_files@.take(i as int),
                ),
            decreases training_files@.len() - i,
        {
            assert(training_files@.take(i + 1).drop_last() =~= training_files@.take(i as int));
            feed(predictor, training_files[i].as_slice());
            i = i + 1;
        }
        assert(training_files@.take(i as int) =~= training_files@);
        dictionary_of(predictor)
    }

    /// Trains a dictionary on the transformed stream: the ranks of the Burrows-Wheeler
    /// transform of each chunk, run-length coded, as the high-ratio coding path feeds
    /// them to its predictor. The state accumulates over the whole corpus.
    pub fn train_transformed<P: ProbabilityPredictor>(
        predictor: &mut P,
        chunks: &[TrainingChunk],
    ) -> (r: Result<Dictionary>)
        ensures
            exists|streams: Seq<Seq<u8>>| #[trigger]
                are_training_streams(chunks@, streams) && final(predictor).model()
                    == trained_on_streams::<P>(old(predictor).model(), streams),
            same_dictionary(r, dictionary_outcome::<P>(final(predictor).model())),
    {
        let ghost mut streams: Seq<Seq<u8>> = Seq::empty();
        let mut i: usize = 0;
        while i < chunks.len()
            invariant
                i <= chunks@.len(),
                streams.len() == i,
                forall|k: int|
                    0 <= k < i ==> is_training_stream(chunks@[k], #[trigger] streams[k]),
                predictor.model() == trained_on_streams::<P>(old(predictor).model(), streams),
            decreases chunks@.len() - i,
        {
            let stream = training_stream(&chunks[i]);
            feed(predictor, stream.as_slice());
            proof {
                assert(streams.push(stream@).drop_last() =~= streams);
                streams = streams.push(stream@);
            }
            i = i + 1;
        }
        assert(are_training_streams(chunks@, streams));
        dictionary_of(predictor)
    }

    /// Appends the dictionary. Fails, having written nothing, where the state is too
    /// large.
    pub fn write_to(&self, w: &mut Vec<u8>) -> (r: Result<()>)
        ensures
            match r {
                Ok(()) => self@.state.len() <= MAX_DICT_STATE_SIZE && final(w)@ == old(w)@
                    + self@.bytes(),
                Err(e) => self@.state.len() > MAX_DICT_STATE_SIZE && final(w)@ == old(w)@ && e@
                    == ErrorModel::ResourceLimitExceeded(state_size_text(self@.state.len())),
            },
    {
        if self.state.len() > MAX_DICT_STATE_SIZE {
            return Err(state_size_error(self.state.len()));
        }
        push_all(w, DICT_MAGIC.as_slice());
        w.push(DICT_VERSION);
        push_le(w, self.predictor_id.to_u16() as u64, 2);
        push_le(w, self.state.len() as u64, 4);
        push_all(w, self.state.as_slice());
        push_all(w, self.hash.as_slice());
        assert(w@ =~= old(w)@ + self@.bytes());
        Ok(())
    }

    /// Reads a dictionary, checking its hash.
    pub fn read_from(r: &mut ByteReader) -> (result: Result<Dictionary>)
        ensures
            same_dictionary(result, DictionaryModel::read_outcome(old(r)@)),
            result matches Ok(d) ==> final(r)@ == old(r)@.skip(43 + d@.state.len() as int),
            is_rest_of(final(r)@, old(r)@),
    {
        let ghost s = r@;
        proof {
            lemma_pow256_values();
            assert(s.skip(0) =~= s);
        }
        let magic = match r.take_bytes(4) {
            Ok(v) => v,
            Err(e) => {
                return Err(e);
            },
        };
        if !same_slice(magic, DICT_MAGIC.as_slice()) {
            return Err(AetherError::InvalidMagic);
        }
        let version: u8 = match r.take_u8() {
            Ok(v) => v,
            Err(e) => {
                return Err(e);
            },
        };
        assert(s.skip(4).skip(1) =~= s.skip(5));
        if version != DICT_VERSION {
            return Err(
                AetherError::Decompression(
                    text_around_numbers(
                        "Unsupported dictionary version ",
                        version as u64,
                        " (expected ",
                        DICT_VERSION as u64,
                        ")",
                    ),
                ),
            );
        }
        let id: u16 = match r.take_u16() {
            Ok(v) => v,
            Err(e) => {
                return Err(e);
            },
        };
        assert(s.skip(5).take(2) =~= s.subrange(5, 7));
        assert(s.skip(5).skip(2) =~= s.skip(7));
        let predictor_id = match PredictorId::from_u16(id) {
            Ok(p) => p,
            Err(e) => {
                return Err(e);
            },
        };
        let state_len: usize = match r.take_u32() {
            Ok(v) => v as usize,
            Err(e) => {
                return Err(e);
            },
        };
        assert(s.skip(7).take(4) =~= s.subrange(7, 11));
        assert(s.skip(7).skip(4) =~= s.skip(11));
        if state_len > MAX_DICT_STATE_SIZE {
            return Err(state_size_error(state_len));
        }
        let state = match r.take_bytes(state_len) {
            Ok(v) => v,
            Err(e) => {
                return Err(e);
            },
        };
        assert(state@ =~= s.subrange(11, 11 + state_len));
        assert(s.skip(11).skip(state_len as int) =~= s.skip(11 + state_len));
        let hash = match r.take_32() {
            Ok(v) => v,
            Err(e) => {
                return Err(e);
            },
        };
        assert(hash@ =~= s.subrange(11 + state_len, 43 + state_len));
        assert(s.skip(11 + state_len).skip(32) =~= s.skip(43 + state_len));
        let computed = blake3_hash(state);
        if !same_slice(computed.as_slice(), hash.as_slice()) {
            return Err(
                AetherError::ChecksumMismatch {
                    block_id: 0,
                    expected: hash_start(hash.as_slice()),
                    actual: hash_start(computed.as_slice()),
                },
            );
        }
        Ok(Dictionary { predictor_id, state: copy_of(state), hash })
    }

    /// Applies the dictionary state to a predictor. Fails, leaving the predictor as it
    /// is, where it is of another kind or does not accept the state.
    pub fn apply<P: ProbabilityPredictor>(&self, predictor: &mut P) -> (r: Result<()>)
        ensures
            ({
                let m = old(predictor).model();
                let loaded = P::loaded(m, self@.state);
                if P::id_of(m) != self@.predictor_id {
                    final(predictor).model() == m && (r matches Err(e) && e@
                        == ErrorModel::Decompression(
                        "Dictionary was trained for predictor "@ + id_text(self@.predictor_id)
                            + ", but applied to '"@ + id_text(P::id_of(m)) + "'"@,
                    ))
                } else if loaded is None {
                    final(predictor).model() == m && (r matches Err(e) && e@
                        == ErrorModel::Decompression(
                        "Failed to load dictionary state into predictor '"@ + P::name_of(m)
                            + "'"@,
                    ))
                } else {
                    r is Ok && final(predictor).model() == loaded.unwrap()
                }
            }),
    {
        let id = predictor.predictor_id();
        if id != self.predictor_id {
            let mut text = String::from_str("Dictionary was trained for predictor ");
            text.append(id_name(self.predictor_id));
            text.append(", but applied to '");
            text.append(id_name(id));
            text.append("'");
            return Err(AetherError::Decompression(text));
        }
        if !predictor.load_state(self.state.as_slice()) {
            let mut text = String::from_str("Failed to load dictionary state into predictor '");
            text.append(predictor.name());
            text.append("'");
            return Err(AetherError::Decompression(text));
        }
        Ok(())
    }
}

/// A dictionary of a state within the limit, with its hash, is read back from the bytes
/// written for it, whatever follows them.
pub proof fn dictionary_round_trips(d: DictionaryModel, tail: Seq<u8>)
    requires
        d.state.len() <= MAX_DICT_STATE_SIZE,
        d.hash == blake3_of(d.state)@,
    ensures
        DictionaryModel::read_outcome(d.bytes() + tail) == Ok::<DictionaryModel, ErrorModel>(d),
{
    let n = d.state.len() as int;
    lemma_field(d.predictor_id.number() as nat, 2);
    lemma_field(d.state.len(), 4);
    let s = d.bytes() + tail;
    assert(s.take(4) =~= DICT_MAGIC@);
    assert(s[4] == DICT_VERSION);
    assert(s.subrange(5, 7) =~= le_bytes(d.predictor_id.number() as nat, 2));
    assert(s.subrange(7, 11) =~= le_bytes(d.state.len(), 4));
    assert(s.subrange(11, 11 + n) =~= d.state);
    assert(s.subrange(11 + n, 43 + n) =~= d.hash);
}

/// A trained dictionary can be written where its state is within the limit: its hash is
/// that of its state.
pub proof fn trained_dictionary_is_readable<P: ProbabilityPredictor>(m: P::Model, tail: Seq<u8>)
    requires
        dictionary_outcome::<P>(m) matches Ok(d) && d.state.len() <= MAX_DICT_STATE_SIZE,
    ensures
        dictionary_outcome::<P>(m) matches Ok(d) && DictionaryModel::read_outcome(d.bytes() + tail)
            == Ok::<DictionaryModel, ErrorModel>(d),
{
    let d = dictionary_outcome::<P>(m)->Ok_0;
    dictionary_round_trips(d, tail);
}

/// The bytes of all files, one after another.
pub open spec fn corpus(files: Seq<Vec<u8>>) -> Seq<u8>
    decreases files.len(),
{
    if files.len() == 0 {
        Seq::empty()
    } else {
        files[0]@ + corpus(files.drop_first())
    }
}

/// The bytes of all streams, one after another.
pub open spec fn joined_streams(streams: Seq<Seq<u8>>) -> Seq<u8>
    decreases streams.len(),
{
    if streams.len() == 0 {
        Seq::empty()
    } else {
        streams[0] + joined_streams(streams.drop_first())
    }
}

proof fn lemma_corpus_push(files: Seq<Vec<u8>>, file: Vec<u8>)
    ensures
        corpus(files.push(file)) == corpus(files) + file@,
    decreases files.len(),
{
    if files.len() == 0 {
        assert(files.push(file).drop_first() =~= Seq::empty());
        reveal_with_fuel(corpus, 2);
        assert(corpus(files.push(file)) =~= corpus(files) + file@);
    } else {
        assert(files.push(file).drop_first() =~= files.drop_first().push(file));
        lemma_corpus_push(files.drop_first(), file);
        assert(corpus(files.push(file)) =~= corpus(files) + file@);
    }
}

proof fn lemma_streams_push(streams: Seq<Seq<u8>>, stream: Seq<u8>)
    ensures
        joined_streams(streams.push(stream)) == joined_streams(streams) + stream,
    decreases streams.len(),
{
    if streams.len() == 0 {
        assert(streams.push(stream).drop_first() =~= Seq::empty());
        reveal_with_fuel(joined_streams, 2);
        assert(joined_streams(streams.push(stream)) =~= joined_streams(streams) + stream);
    } else {
        assert(streams.push(stream).drop_first() =~= streams.drop_first().push(stream));
        lemma_streams_push(streams.drop_first(), stream);
        assert(joined_streams(streams.push(stream)) =~= joined_streams(streams) + stream);
    }
}

/// Training is coding the whole corpus: the state is the one that coding the bytes of all
/// files in order leads to.
pub proof fn training_codes_the_corpus<P: ProbabilityPredictor>(m: P::Model, files: Seq<Vec<u8>>)
    ensures
        trained_on::<P>(m, files) == coded_all::<P>(m, corpus(files)),
    decreases files.len(),
{
    if files.len() > 0 {
        let before = files.drop_last();
        training_codes_the_corpus::<P>(m, before);
        lemma_corpus_push(before, files.last());
        assert(before.push(files.last()) =~= files);
        coding_continues::<P>(m, corpus(before), files.last()@, 0);
    }
}

/// One more file continues the training on its bytes, from the state reached so far.
pub proof fn training_continues<P: ProbabilityPredictor>(
    m: P::Model,
    files: Seq<Vec<u8>>,
    file: Vec<u8>,
)
    ensures
        trained_on::<P>(m, files.push(file)) == coded_all::<P>(trained_on::<P>(m, files), file@),
        trained_on::<P>(m, Seq::empty()) == m,
{
    assert(files.push(file).drop_last() =~= files);
}

/// Training on transformed chunks is coding all their streams in order, and one more stream
/// continues from the state reached so far.
pub proof fn transformed_training_codes_all_streams<P: ProbabilityPredictor>(
    m: P::Model,
    streams: Seq<Seq<u8>>,
    stream: Seq<u8>,
)
    ensures
        trained_on_streams::<P>(m, streams) == coded_all::<P>(m, joined_streams(streams)),
        trained_on_streams::<P>(m, streams.push(stream)) == coded_all::<P>(
            trained_on_streams::<P>(m, streams),
            stream,
        ),
    decreases streams.len(),
{
    assert(streams.push(stream).drop_last() =~= streams);
    if streams.len() > 0 {
        let before = streams.drop_last();
        transformed_training_codes_all_streams::<P>(m, before, stream);
        lemma_streams_push(before, streams.last());
        assert(before.push(streams.last()) =~= streams);
        coding_continues::<P>(m, joined_streams(before), streams.last(), 0);
    }
}

/// A chunk of 8 bytes up to the limit of the transform is learned, unless its entropy is
/// high: what the predictor is fed are the ranks of its transform, either as they are or in
/// a form from which they are read back. All other chunks are passed over.
pub proof fn training_streams_hold_the_chunks(c: TrainingChunk, stream: Seq<u8>)
    requires
        is_training_stream(c, stream),
    ensures
        c.data@.len() < 8 || c.high_entropy || c.data@.len() > MAX_BWT_INPUT_SIZE ==> stream.len()
            == 0,
        8 <= c.data@.len() <= MAX_BWT_INPUT_SIZE && !c.high_entropy ==> exists|
            primary: int,
            ranks: Seq<u8>,
        | #[trigger]
            is_bwt_mtf(c.data@, primary, ranks) && (if ranks.contains(255) {
                stream == ranks
            } else {
                rle_decode_rest(stream, 0, Seq::empty(), ranks.len()) == Ok::<
                    Seq<u8>,
                    ErrorModel,
                >(ranks)
            }),
{
    if 8 <= c.data@.len() <= MAX_BWT_INPUT_SIZE && !c.high_entropy {
        let (primary, ranks) = choose|primary: int, ranks: Seq<u8>| #[trigger]
            is_bwt_mtf(c.data@, primary, ranks) && stream == if ranks.contains(255) {
                ranks
            } else {
                rle_symbols(ranks)
            };
        assert(is_bwt_mtf(c.data@, primary, ranks));
        if !ranks.contains(255) {
            rle_round_trips(ranks);
        }
    }
}

/// A dictionary made of a trained predictor holds its saved state, its kind and the hash of
/// the state; there is none exactly where the predictor saves nothing.
pub proof fn dictionaries_hold_the_state<P: ProbabilityPredictor>(m: P::Model)
    ensures
        match (dictionary_outcome::<P>(m), P::saved(m)) {
            (Ok(d), Some(state)) => d.state == state && d.predictor_id == P::id_of(m) && d.hash
                == blake3_of(state)@,
            (Err(_), None) => true,
            _ => false,
        },
{
}

/// Where the parts of a stored dictionary stand: the letters `AEDX`, the version 1, the kind
/// of predictor, the length of the state, the state, and its hash.
pub proof fn dictionary_layout(d: DictionaryModel, s: Seq<u8>)
    requires
        DictionaryModel::read_outcome(s) == Ok::<DictionaryModel, ErrorModel>(d),
    ensures
        s.len() >= 43 + d.state.len(),
        s[0] == 0x41 && s[1] == 0x45 && s[2] == 0x44 && s[3] == 0x58 && s[4] == 1,
        s[5] + 256 * s[6] == d.predictor_id.number(),
        le_value(s.subrange(7, 11)) == d.state.len() <= 67_108_864,
        d.state == s.subrange(11, 11 + d.state.len() as int),
        d.hash == s.subrange(11 + d.state.len() as int, 43 + d.state.len() as int),
        d.hash == blake3_of(d.state)@,
{
    assert(s.take(4)[0] == s[0] && s.take(4)[1] == s[1] && s.take(4)[2] == s[2] && s.take(4)[3]
        == s[3]);
    let id = s.subrange(5, 7);
    assert(le_value(id) == s[5] + 256 * s[6]) by {
        reveal_with_fuel(le_value, 3);
        assert(id.drop_first()[0] == s[6]);
    }
    lemma_number_at(s, 7, 4);
    lemma_number_at(s, 5, 2);
}

/// What [`Dictionary::train`] does: the predictor ends as if it had coded all files, joined,
/// and the dictionary holds what it then saves.
pub proof fn trained_dictionaries_hold_the_corpus<P: ProbabilityPredictor>(
    predictor: &mut P,
    files: &[Vec<u8>],
    r: Result<Dictionary>,
)
    requires
        call_ensures(Dictionary::train::<P>, (predictor, files), r),
    ensures
        final(predictor).model() == coded_all::<P>(old(predictor).model(), corpus(files@)),
        match (r, P::saved(coded_all::<P>(old(predictor).model(), corpus(files@)))) {
            (Ok(d), Some(state)) => d@.state == state && d@.hash == blake3_of(state)@
                && d@.predictor_id == P::id_of(final(predictor).model()),
            (Err(_), None) => true,
            _ => false,
        },
{
    training_codes_the_corpus::<P>(old(predictor).model(), files@);
    dictionaries_hold_the_state::<P>(final(predictor).model());
}

/// What [`Dictionary::apply`] does after [`Dictionary::train`]: a predictor of the same kind
/// that loads what another saved ends in the state that the other had.
pub proof fn applied_dictionaries_restore_the_training<P: ProbabilityPredictor>(
    d: Dictionary,
    predictor: &mut P,
    trained: P::Model,
    r: Result<()>,
)
    requires
        dictionary_outcome::<P>(trained) == Ok::<DictionaryModel, ErrorModel>(d@),
        P::id_of(old(predictor).model()) == P::id_of(trained),
        P::loaded(old(predictor).model(), d@.state) == Some(trained),
        call_ensures(Dictionary::apply::<P>, (&d, predictor), r),
    ensures
        r is Ok,
        final(predictor).model() == trained,
{
}

/// What [`Dictionary::write_to`] and [`Dictionary::read_from`] do, one after the other, for a
/// dictionary with the hash of its state: up to 64 MiB of state are written and read back.
pub proof fn dictionaries_are_read_back(
    d: Dictionary,
    w: &mut Vec<u8>,
    written: Result<()>,
    r: &mut ByteReader<'_>,
    result: Result<Dictionary>,
    tail: Seq<u8>,
)
    requires
        call_ensures(Dictionary::write_to, (&d, w), written),
        d@.hash == blake3_of(d@.state)@,
    ensures
        written is Ok <==> d@.state.len() <= 67_108_864,
        written is Err ==> final(w)@ == old(w)@,
        written is Ok ==> final(w)@ == old(w)@ + d@.bytes(),
        (written is Ok && old(r)@ == d@.bytes() + tail && call_ensures(
            Dictionary::read_from,
            (r,),
            result,
        )) ==> (result is Ok && result->Ok_0@ == d@ && final(r)@ == tail),
{
    if d@.state.len() <= 67_108_864 {
        dictionary_round_trips(d@, tail);
        lemma_field(d@.predictor_id.number() as nat, 2);
        lemma_field(d@.state.len(), 4);
        let n = 43 + d@.state.len() as int;
        assert(d@.bytes().len() == n);
        assert((d@.bytes() + tail).skip(n) =~= tail);
    }
}

/// What [`Dictionary::train_transformed`] does: the predictor ends as if it had coded, joined,
/// one stream for each chunk, which holds the chunk transformed, or nothing where the chunk is
/// passed over.
pub proof fn transformed_dictionaries_hold_the_chunks<P: ProbabilityPredictor>(
    predictor: &mut P,
    chunks: &[TrainingChunk],
    r: Result<Dictionary>,
)
    requires
        call_ensures(Dictionary::train_transformed::<P>, (predictor, chunks), r),
    ensures
        exists|streams: Seq<Seq<u8>>| #[trigger]
            are_training_streams(chunks@, streams) && final(predictor).model() == coded_all::<P>(
                old(predictor).model(),
                joined_streams(streams),
            ),
        same_dictionary(r, dictionary_outcome::<P>(final(predictor).model())),
{
    let m = old(predictor).model();
    let streams = choose|streams: Seq<Seq<u8>>| #[trigger]
        are_training_streams(chunks@, streams) && final(predictor).model()
            == trained_on_streams::<P>(m, streams);
    transformed_training_codes_all_streams::<P>(m, streams, Seq::empty());
}

/// What [`training_chunks`] gives: pieces of the file that lie one after another and make it
/// up.
pub proof fn training_chunks_make_up_the_file(data: &[u8], chunks: Vec<Chunk>, i: int)
    requires
        call_ensures(training_chunks, (data,), chunks),
        0 <= i < chunks@.len(),
        data@.len() < 16_384,
    ensures
        crate::chunker::is_piece(data@, chunks@, i),
{
    crate::chunker::lemma_fixed_pieces(data@, AVG_CHUNK_SIZE as usize, chunks@, i);
}

/// What [`Dictionary::apply`] refuses: a predictor of another kind, or one that does not load
/// the state; either stays as it is. Otherwise the predictor loads the state.
pub proof fn applied_dictionaries_are_loaded<P: ProbabilityPredictor>(
    d: Dictionary,
    predictor: &mut P,
    r: Result<()>,
)
    requires
        call_ensures(Dictionary::apply::<P>, (&d, predictor), r),
    ensures
        r is Ok <==> P::id_of(old(predictor).model()) == d.predictor_id && P::loaded(
            old(predictor).model(),
            d.state@,
        ) is Some,
        r is Ok ==> P::loaded(old(predictor).model(), d.state@) == Some(final(predictor).model()),
        r is Err ==> final(predictor).model() == old(predictor).model(),
{
}

/// What [`Dictionary::read_from`] accepts: the letters and the version, a known predictor, a
/// state of at most 64 MiB, and its hash.
pub proof fn accepted_dictionaries_are_checked(r: &mut ByteReader<'_>, result: Result<Dictionary>)
    requires
        call_ensures(Dictionary::read_from, (r,), result),
        result is Ok,
    ensures
        ({
            let s = old(r)@;
            let d = result->Ok_0;
            let n = d.state@.len() as int;
            &&& s.len() >= 43 + n
            &&& s[0] == 0x41 && s[1] == 0x45 && s[2] == 0x44 && s[3] == 0x58 && s[4] == 1
            &&& s[5] + 256 * s[6] == d.predictor_id.number()
            &&& n <= 67_108_864
            &&& d.state@ == s.subrange(11, 11 + n)
            &&& d.hash@ == s.subrange(11 + n, 43 + n)
            &&& d.hash@ == blake3_of(d.state@)@
            &&& final(r)@ == s.skip(43 + n)
        }),
{
    dictionary_layout(result->Ok_0@, old(r)@);
}

} // verus!
