//! Rules of the command line: names of predictors and ciphers, limits, passwords, and the
//! place that an archive entry is extracted to.

use crate::crypto::CipherId;
use crate::format::PredictorId;
use crate::strings::{chars_of, is_digit, is_lower, is_upper, same_text};
use crate::text::{decimal, text_around_number, text_around_numbers};
use vstd::prelude::*;
use vstd::set_lib::*;
use vstd::string::*;
use vstd::utf8::encode_utf8;

verus! {

// Names.

/// The predictor that a name stands for.
pub open spec fn named_predictor(name: Seq<char>) -> Option<PredictorId> {
    if name == "order0"@ || name == "o0"@ {
        Some(PredictorId::Order0)
    } else if name == "cm"@ || name == "context-mixer"@ {
        Some(PredictorId::ContextMixer)
    } else if name == "cm-light"@ {
        Some(PredictorId::ContextMixerLight)
    } else if name == "lz4"@ || name == "lz4-aware"@ {
        Some(PredictorId::Lz4Aware)
    } else if name == "ssm"@ || name == "neural-ssm"@ {
        Some(PredictorId::NeuralSsm)
    } else if name == "rle"@ {
        Some(PredictorId::Rle)
    } else {
        None
    }
}

/// Finds the predictor that a name stands for.
pub fn predictor_for_name(name: &str) -> (r: Result<PredictorId, String>)
    ensures
        match r {
            Ok(id) => named_predictor(name@) == Some(id),
            Err(text) => named_predictor(name@) is None && text@ == "Unknown predictor: "@ + name@
                + ". Use: order0, cm, cm-light, lz4-aware, ssm, rle"@,
        },
{
    if same_text(name, "order0") || same_text(name, "o0") {
        return Ok(PredictorId::Order0);
    }
    if same_text(name, "cm") || same_text(name, "context-mixer") {
        return Ok(PredictorId::ContextMixer);
    }
    if same_text(name, "cm-light") {
        return Ok(PredictorId::ContextMixerLight);
    }
    if same_text(name, "lz4") || same_text(name, "lz4-aware") {
        return Ok(PredictorId::Lz4Aware);
    }
    if same_text(name, "ssm") || same_text(name, "neural-ssm") {
        return Ok(PredictorId::NeuralSsm);
    }
    if same_text(name, "rle") {
        return Ok(PredictorId::Rle);
    }
    let mut text = String::from_str("Unknown predictor: ");
    text.append(name);
    text.append(". Use: order0, cm, cm-light, lz4-aware, ssm, rle");
    Err(text)
}

/// The predictor that reads an archive with the given identifier: one without a predictor
/// gets the simplest, and one that names no predictor of its own the best general one.
pub open spec fn running_predictor(id: PredictorId) -> PredictorId {
    match id {
        PredictorId::ZstdOnly => PredictorId::Order0,
        PredictorId::Mtf => PredictorId::NeuralSsm,
        _ => id,
    }
}

/// Finds the predictor that reads an archive with the given identifier.
pub fn predictor_for_id(id: PredictorId) -> (r: PredictorId)
    ensures
        r == running_predictor(id),
{
    match id {
        PredictorId::ZstdOnly => PredictorId::Order0,
        PredictorId::Mtf => PredictorId::NeuralSsm,
        _ => id,
    }
}

/// A dictionary for this predictor is trained on transformed data.
pub fn trains_transformed(id: PredictorId) -> (r: bool)
    ensures
        r == (id == PredictorId::NeuralSsm),
{
    match id {
        PredictorId::NeuralSsm => true,
        _ => false,
    }
}

/// The cipher that a name stands for.
pub open spec fn named_cipher(name: Seq<char>) -> Option<CipherId> {
    if name == "aes"@ || name == "aes-gcm"@ || name == "aes256"@ || name == "aes256gcm"@ {
        Some(CipherId::Aes256Gcm)
    } else if name == "chacha"@ || name == "chacha20"@ {
        Some(CipherId::ChaCha20Poly1305)
    } else {
        None
    }
}

/// Finds the cipher that a name stands for.
pub fn cipher_for_name(name: &str) -> (r: Result<CipherId, String>)
    ensures
        match r {
            Ok(c) => named_cipher(name@) == Some(c),
            Err(text) => named_cipher(name@) is None && text@ == "Unknown cipher: "@ + name@
                + ". Use: aes, chacha"@,
        },
{
    if same_text(name, "aes") || same_text(name, "aes-gcm") || same_text(name, "aes256")
        || same_text(name, "aes256gcm") {
        return Ok(CipherId::Aes256Gcm);
    }
    if same_text(name, "chacha") || same_text(name, "chacha20") {
        return Ok(CipherId::ChaCha20Poly1305);
    }
    let mut text = String::from_str("Unknown cipher: ");
    text.append(name);
    text.append(". Use: aes, chacha");
    Err(text)
}

/// The input is a stream.
pub fn is_streaming(input: &str) -> (r: bool)
    ensures
        r == (input@ == "-"@),
{
    same_text(input, "-")
}

// Limits.

/// Maximum number of files to collect for compression.
pub const MAX_COLLECT_FILES: usize = 1_000_000;

/// Maximum thread count for parallel decompression.
pub const MAX_THREADS: usize = 1024;

/// Maximum depth of directories.
pub const MAX_DIR_DEPTH: usize = 256;

/// Checks how many files were collected.
pub fn check_file_count(count: usize) -> (r: Result<(), String>)
    ensures
        match r {
            Ok(()) => count <= MAX_COLLECT_FILES,
            Err(text) => count > MAX_COLLECT_FILES && text@ == "Too many files (>"@ + decimal(
                MAX_COLLECT_FILES as nat,
            ) + "). Use smaller input sets or archive in batches."@,
        },
{
    if count > MAX_COLLECT_FILES {
        return Err(
            text_around_number(
                "Too many files (>",
                MAX_COLLECT_FILES as u64,
                "). Use smaller input sets or archive in batches.",
            ),
        );
    }
    Ok(())
}

/// Checks how deep a directory lies below the input.
pub fn check_depth(depth: usize, dir: &str) -> (r: Result<(), String>)
    ensures
        match r {
            Ok(()) => depth <= MAX_DIR_DEPTH,
            Err(text) => depth > MAX_DIR_DEPTH && text@ == "Directory recursion depth exceeded ("@
                + decimal(MAX_DIR_DEPTH as nat)
                + "). Possible circular directory structure at: "@ + dir@,
        },
{
    if depth > MAX_DIR_DEPTH {
        let mut text = text_around_number(
            "Directory recursion depth exceeded (",
            MAX_DIR_DEPTH as u64,
            "). Possible circular directory structure at: ",
        );
        text.append(dir);
        return Err(text);
    }
    Ok(())
}

/// Checks the number of threads; 0 stands for all cores.
pub fn check_threads(threads: usize) -> (r: Result<(), String>)
    ensures
        match r {
            Ok(()) => threads <= MAX_THREADS,
            Err(text) => threads > MAX_THREADS && text@ == "Thread count "@ + decimal(
                threads as nat,
            ) + " exceeds maximum ("@ + decimal(MAX_THREADS as nat)
                + "). Use 0 for all cores or a reasonable value."@,
        },
{
    if threads > MAX_THREADS {
        return Err(
            text_around_numbers(
                "Thread count ",
                threads as u64,
                " exceeds maximum (",
                MAX_THREADS as u64,
                "). Use 0 for all cores or a reasonable value.",
            ),
        );
    }
    Ok(())
}

// Inputs.

/// What is done with an input.
#[derive(Debug, Clone, Copy, PartialEq, Eq, Structural)]
pub enum InputAction {
    /// It is taken.
    Take,
    /// What it holds is looked at.
    Descend,
    /// It is passed over with a warning.
    SkipLink,
    /// It is passed over.
    Ignore,
    /// It is an error.
    Refuse,
}

/// Decides what is done with an input: symbolic links are never followed; what is neither
/// a file nor a directory is an error where it was `named`, and passed over in a directory.
pub fn input_action(is_symlink: bool, is_file: bool, is_dir: bool, named: bool) -> (a: InputAction)
    ensures
        a == if is_symlink {
            InputAction::SkipLink
        } else if is_file {
            InputAction::Take
        } else if is_dir {
            InputAction::Descend
        } else if named {
            InputAction::Refuse
        } else {
            InputAction::Ignore
        },
{
    if is_symlink {
        InputAction::SkipLink
    } else if is_file {
        InputAction::Take
    } else if is_dir {
        InputAction::Descend
    } else if named {
        InputAction::Refuse
    } else {
        InputAction::Ignore
    }
}

// Passwords.

/// Minimum password length for encryption, in bytes.
pub const MIN_PASSWORD_LENGTH: usize = 8;

/// Minimum number of distinct characters in a password.
pub const MIN_PASSWORD_DISTINCT_CHARS: usize = 5;

/// Minimum number of character classes in a password.
pub const MIN_PASSWORD_CHAR_CLASSES: usize = 2;

/// Neither a letter nor a digit of ASCII.
pub open spec fn is_symbol(c: char) -> bool {
    !is_lower(c) && !is_upper(c) && !is_digit(c)
}

/// One for a class that occurs.
pub open spec fn one_if(b: bool) -> int {
    if b {
        1
    } else {
        0
    }
}

/// Some character of `pw` is in a class.
pub open spec fn has_class(pw: Seq<char>, class: spec_fn(char) -> bool) -> bool {
    exists|i: int| 0 <= i < pw.len() && #[trigger] class(pw[i])
}

/// How many of the four character classes occur: lower case, upper case, digits, others.
pub open spec fn class_count(pw: Seq<char>) -> int {
    one_if(has_class(pw, |c: char| is_lower(c))) + one_if(has_class(pw, |c: char| is_upper(c)))
        + one_if(has_class(pw, |c: char| is_digit(c))) + one_if(
        has_class(pw, |c: char| is_symbol(c)),
    )
}

/// What is wrong with a password, if anything.
pub open spec fn password_fault(pw: Seq<char>) -> Option<Seq<char>> {
    if pw.len() == 0 {
        Some("Password cannot be empty"@)
    } else if encode_utf8(pw).len() < MIN_PASSWORD_LENGTH {
        Some(
            "Password too short (minimum "@ + decimal(MIN_PASSWORD_LENGTH as nat)
                + " characters). Use a stronger password for meaningful encryption."@,
        )
    } else if pw.to_set().len() < MIN_PASSWORD_DISTINCT_CHARS {
        Some(
            "Password too weak: use at least "@ + decimal(MIN_PASSWORD_DISTINCT_CHARS as nat)
                + " distinct characters for meaningful encryption."@,
        )
    } else if class_count(pw) < MIN_PASSWORD_CHAR_CLASSES {
        Some(
            "Password too weak: use at least "@ + decimal(MIN_PASSWORD_CHAR_CLASSES as nat)
                + " character classes (lowercase, uppercase, digits, symbols) for meaningful encryption."@,
        )
    } else {
        None
    }
}

proof fn lemma_to_set_push(s: Seq<char>, c: char)
    ensures
        s.push(c).to_set() == s.to_set().insert(c),
{
    let all = s.push(c);
    assert forall|x: char| #[trigger] all.to_set().contains(x) == s.to_set().insert(c).contains(
        x,
    ) by {
        if all.contains(x) {
            let k = all.index_of(x);
            if k < s.len() {
                assert(s[k] == x);
            }
        }
        if s.contains(x) {
            assert(all[s.index_of(x)] == x);
        }
        assert(all[s.len() as int] == c);
    }
    assert(all.to_set() =~= s.to_set().insert(c));
}

/// How many distinct characters there are.
fn distinct_chars(pw: &[char]) -> (n: usize)
    ensures
        n == pw@.to_set().len(),
{
    let mut n: usize = 0;
    let mut i: usize = 0;
    assert(pw@.take(0).to_set() =~= Set::empty());
    while i < pw.len()
        invariant
            i <= pw@.len(),
            n <= i,
            pw@.take(i as int).to_set().finite(),
            n == pw@.take(i as int).to_set().len(),
        decreases pw@.len() - i,
    {
        let c = pw[i];
        let mut seen = false;
        let mut j: usize = 0;
        while j < i
            invariant
                j <= i <= pw@.len(),
                seen == exists|k: int| 0 <= k < j && #[trigger] pw@[k] == c,
            decreases i - j,
        {
            if pw[j] == c {
                seen = true;
            }
            j = j + 1;
        }
        proof {
            let before = pw@.take(i as int).to_set();
            let after = pw@.take(i + 1).to_set();
            assert(pw@.take(i + 1) =~= pw@.take(i as int).push(c));
            lemma_to_set_push(pw@.take(i as int), c);
            if seen {
                let k = choose|k: int| 0 <= k < i && #[trigger] pw@[k] == c;
                assert(pw@.take(i as int)[k] == c);
                assert(before.contains(c));
                assert(after =~= before);
            } else {
                if before.contains(c) {
                    let k = pw@.take(i as int).index_of(c);
                    assert(pw@[k] == c);
                }
            }
        }
        if !seen {
            n = n + 1;
        }
        i = i + 1;
    }
    assert(pw@.take(i as int) =~= pw@);
    n
}

/// How many of the four character classes occur.
fn count_classes(pw: &[char]) -> (n: usize)
    ensures
        n == class_count(pw@),
{
    let mut lower = false;
    let mut upper = false;
    let mut digit = false;
    let mut symbol = false;
    let mut i: usize = 0;
    while i < pw.len()
        invariant
            i <= pw@.len(),
            lower == exists|k: int| 0 <= k < i && is_lower(#[trigger] pw@[k]),
            upper == exists|k: int| 0 <= k < i && is_upper(#[trigger] pw@[k]),
            digit == exists|k: int| 0 <= k < i && is_digit(#[trigger] pw@[k]),
            symbol == exists|k: int| 0 <= k < i && is_symbol(#[trigger] pw@[k]),
        decreases pw@.len() - i,
    {
        let c = pw[i];
        if 'a' <= c && c <= 'z' {
            lower = true;
        } else if 'A' <= c && c <= 'Z' {
            upper = true;
        } else if '0' <= c && c <= '9' {
            digit = true;
        } else {
            symbol = true;
        }
        i = i + 1;
    }
    proof {
        lemma_has_class(pw@, |c: char| is_lower(c), lower);
        lemma_has_class(pw@, |c: char| is_upper(c), upper);
        lemma_has_class(pw@, |c: char| is_digit(c), digit);
        lemma_has_class(pw@, |c: char| is_symbol(c), symbol);
    }
    let mut n: usize = 0;
    if lower {
        n = n + 1;
    }
    if upper {
        n = n + 1;
    }
    if digit {
        n = n + 1;
    }
    if symbol {
        n = n + 1;
    }
    n
}

proof fn lemma_has_class(pw: Seq<char>, class: spec_fn(char) -> bool, found: bool)
    requires
        found == exists|k: int| 0 <= k < pw.len() && class(#[trigger] pw[k]),
    ensures
        found == has_class(pw, class),
{
    if found {
        let k = choose|k: int| 0 <= k < pw.len() && class(#[trigger] pw[k]);
        assert(class(pw[k]));
    } else if has_class(pw, class) {
        let k = choose|k: int| 0 <= k < pw.len() && #[trigger] class(pw[k]);
        assert(class(pw[k]));
    }
}

/// Checks the strength of a password: its length, its distinct characters and its
/// character classes.
pub fn validate_password(pw: &str) -> (r: Result<(), String>)
    ensures
        match (r, password_fault(pw@)) {
            (Ok(()), None) => true,
            (Err(text), Some(fault)) => text@ == fault,
            _ => false,
        },
{
    let chars = chars_of(pw);
    if chars.len() == 0 {
        return Err("Password cannot be empty".to_string());
    }
    if pw.as_bytes().len() < MIN_PASSWORD_LENGTH {
        return Err(
            text_around_number(
                "Password too short (minimum ",
                MIN_PASSWORD_LENGTH as u64,
                " characters). Use a stronger password for meaningful encryption.",
            ),
        );
    }
    if distinct_chars(chars.as_slice()) < MIN_PASSWORD_DISTINCT_CHARS {
        return Err(
            text_around_number(
                "Password too weak: use at least ",
                MIN_PASSWORD_DISTINCT_CHARS as u64,
                " distinct characters for meaningful encryption.",
            ),
        );
    }
    if count_classes(chars.as_slice()) < MIN_PASSWORD_CHAR_CLASSES {
        return Err(
            text_around_number(
                "Password too weak: use at least ",
                MIN_PASSWORD_CHAR_CLASSES as u64,
                " character classes (lowercase, uppercase, digits, symbols) for meaningful encryption.",
            ),
        );
    }
    Ok(())
}

/// Where a password comes from.
#[derive(Debug, Clone, Copy, PartialEq, Eq, Structural)]
pub enum PasswordSource {
    /// There is none.
    Absent,
    /// The argument on the command line.
    Argument,
    /// The environment.
    Environment,
    /// A prompt.
    Prompt,
}

/// Where a password comes from: an empty argument asks for the environment, and where
/// that has none, for a prompt.
pub open spec fn source_of(argument: Option<Seq<char>>, environment: Option<Seq<char>>) ->
    PasswordSource {
    match argument {
        None => PasswordSource::Absent,
        Some(text) => if text.len() > 0 {
            PasswordSource::Argument
        } else {
            match environment {
                Some(value) => if value.len() > 0 {
                    PasswordSource::Environment
                } else {
                    PasswordSource::Prompt
                },
                None => PasswordSource::Prompt,
            }
        },
    }
}

/// A text that may be missing, as characters.
pub open spec fn optional_text(s: Option<&str>) -> Option<Seq<char>> {
    match s {
        Some(t) => Some(t@),
        None => None,
    }
}

/// Decides where a password comes from.
pub fn password_source(argument: Option<&str>, environment: Option<&str>) -> (s: PasswordSource)
    ensures
        s == source_of(optional_text(argument), optional_text(environment)),
{
    match argument {
        None => PasswordSource::Absent,
        Some(text) => if !text.is_empty() {
            PasswordSource::Argument
        } else {
            match environment {
                Some(value) => if !value.is_empty() {
                    PasswordSource::Environment
                } else {
                    PasswordSource::Prompt
                },
                None => PasswordSource::Prompt,
            }
        },
    }
}

// Extraction.

/// A component of a path.
pub enum PathPart {
    /// A drive.
    Prefix(String),
    /// The root of a file system.
    Root,
    /// The current directory.
    Current,
    /// The parent directory.
    Parent,
    /// A name.
    Name(String),
}

/// The value of a [`PathPart`].
pub enum PartModel {
    Prefix(Seq<char>),
    Root,
    Current,
    Parent,
    Name(Seq<char>),
}

impl View for PathPart {
    type V = PartModel;

    open spec fn view(&self) -> PartModel {
        match self {
            PathPart::Prefix(s) => PartModel::Prefix(s@),
            PathPart::Root => PartModel::Root,
            PathPart::Current => PartModel::Current,
            PathPart::Parent => PartModel::Parent,
            PathPart::Name(s) => PartModel::Name(s@),
        }
    }
}

/// The values of some components.
pub open spec fn part_values(parts: Seq<PathPart>) -> Seq<PartModel> {
    parts.map_values(|p: PathPart| p@)
}

/// A path without its last name, where it ends in one.
pub open spec fn without_last(path: Seq<PartModel>) -> Option<Seq<PartModel>> {
    if path.len() > 0 && path.last() is Name {
        Some(path.drop_last())
    } else {
        None
    }
}

/// The path that some components lead to, `..` taken literally. Where a `..` has no name
/// to leave, there is none; if `lenient`, it is passed over instead.
pub open spec fn resolved(parts: Seq<PartModel>, lenient: bool) -> Option<Seq<PartModel>>
    decreases parts.len(),
{
    if parts.len() == 0 {
        Some(Seq::empty())
    } else {
        match resolved(parts.drop_last(), lenient) {
            None => None,
            Some(before) => match parts.last() {
                PartModel::Current => Some(before),
                PartModel::Parent => match without_last(before) {
                    Some(shorter) => Some(shorter),
                    None => if lenient {
                        Some(before)
                    } else {
                        None
                    },
                },
                _ => Some(before.push(parts.last())),
            },
        }
    }
}

/// The path leads to a root or a drive of its own.
pub open spec fn is_absolute(parts: Seq<PartModel>) -> bool {
    exists|i: int| 0 <= i < parts.len() && (#[trigger] parts[i] is Root || parts[i] is Prefix)
}

/// `path` starts with `start`.
pub open spec fn is_below(path: Seq<PartModel>, start: Seq<PartModel>) -> bool {
    path.len() >= start.len() && path.take(start.len() as int) == start
}

/// Where an entry is extracted to below an output directory, or the text of its refusal.
pub open spec fn join_outcome(
    output: Seq<PartModel>,
    output_text: Seq<char>,
    entry: Seq<PartModel>,
    entry_text: Seq<char>,
) -> Result<Seq<PartModel>, Seq<char>> {
    if is_absolute(entry) {
        Err(
            "Path traversal detected: \""@ + entry_text
                + "\" contains an absolute path component"@,
        )
    } else {
        match resolved(output + entry, false) {
            None => Err(
                "Path traversal detected: \""@ + entry_text + "\" escapes output directory"@,
            ),
            Some(path) => if is_below(path, resolved(output, true).unwrap()) {
                Ok(path)
            } else {
                Err(
                    "Path traversal detected: \""@ + entry_text
                        + "\" escapes output directory \""@ + output_text + "\""@,
                )
            },
        }
    }
}

fn copy_part(p: &PathPart) -> (r: PathPart)
    ensures
        r@ == p@,
{
    match p {
        PathPart::Prefix(s) => PathPart::Prefix(String::from_str(s.as_str())),
        PathPart::Root => PathPart::Root,
        PathPart::Current => PathPart::Current,
        PathPart::Parent => PathPart::Parent,
        PathPart::Name(s) => PathPart::Name(String::from_str(s.as_str())),
    }
}

/// Moves on by one component; tells whether that was possible.
fn follow(path: &mut Vec<PathPart>, part: &PathPart, lenient: bool) -> (r: bool)
    ensures
        ({
            let before = part_values(old(path)@);
            let after = part_values(final(path)@);
            match part@ {
                PartModel::Current => r && after == before,
                PartModel::Parent => match without_last(before) {
                    Some(shorter) => r && after == shorter,
                    None => r == lenient && after == before,
                },
                _ => r && after == before.push(part@),
            }
        }),
{
    let ghost before = part_values(path@);
    match part {
        PathPart::Current => true,
        PathPart::Parent => {
            let n: usize = path.len();
            if n == 0 {
                return lenient;
            }
            assert(before.last() == path@.last()@);
            let is_name = match path[n - 1] {
                PathPart::Name(_) => true,
                _ => false,
            };
            if is_name {
                let _ = path.pop();
                assert(part_values(path@) =~= before.drop_last());
                true
            } else {
                lenient
            }
        },
        _ => {
            path.push(copy_part(part));
            assert(part_values(path@) =~= before.push(part@));
            true
        },
    }
}

/// Follows all components of a path.
fn follow_all(path: &mut Vec<PathPart>, parts: &[PathPart], lenient: bool, done: Ghost<
    Seq<PartModel>,
>) -> (r: bool)
    requires
        resolved(done@, lenient) == Some(part_values(old(path)@)),
    ensures
        match resolved(done@ + part_values(parts@), lenient) {
            Some(p) => r && part_values(final(path)@) == p,
            None => !r,
        },
{
    let ghost all = part_values(parts@);
    let mut i: usize = 0;
    assert(done@ + all.take(0) =~= done@);
    while i < parts.len()
        invariant
            i <= parts@.len(),
            all == part_values(parts@),
            resolved(done@ + all.take(i as int), lenient) == Some(part_values(path@)),
        decreases parts@.len() - i,
    {
        let ghost next = done@ + all.take(i + 1);
        assert(next.drop_last() =~= done@ + all.take(i as int));
        assert(next.last() == parts@[i as int]@);
        if !follow(path, &parts[i], lenient) {
            proof {
                lemma_unresolved(done@, all, lenient, i + 1, all.len() as int);
                assert(all.take(all.len() as int) =~= all);
            }
            return false;
        }
        i = i + 1;
    }
    assert(all.take(i as int) =~= all);
    true
}

/// What leads nowhere leads nowhere with more components.
proof fn lemma_unresolved(done: Seq<PartModel>, all: Seq<PartModel>, lenient: bool, i: int, j: int)
    requires
        0 <= i <= j <= all.len(),
        resolved(done + all.take(i), lenient) is None,
    ensures
        resolved(done + all.take(j), lenient) is None,
    decreases j,
{
    if i < j {
        lemma_unresolved(done, all, lenient, i, j - 1);
        assert((done + all.take(j)).drop_last() =~= done + all.take(j - 1));
    }
}

/// Being lenient always leads somewhere.
proof fn lemma_lenient(parts: Seq<PartModel>)
    ensures
        resolved(parts, true) is Some,
    decreases parts.len(),
{
    if parts.len() > 0 {
        lemma_lenient(parts.drop_last());
    }
}

fn same_part(a: &PathPart, b: &PathPart) -> (r: bool)
    ensures
        r == (a@ == b@),
{
    match (a, b) {
        (PathPart::Prefix(s), PathPart::Prefix(t)) => same_text(s.as_str(), t.as_str()),
        (PathPart::Root, PathPart::Root) => true,
        (PathPart::Current, PathPart::Current) => true,
        (PathPart::Parent, PathPart::Parent) => true,
        (PathPart::Name(s), PathPart::Name(t)) => same_text(s.as_str(), t.as_str()),
        _ => false,
    }
}

fn starts_below(path: &[PathPart], start: &[PathPart]) -> (r: bool)
    ensures
        r == is_below(part_values(path@), part_values(start@)),
{
    let ghost p = part_values(path@);
    let ghost s = part_values(start@);
    if path.len() < start.len() {
        return false;
    }
    let mut i: usize = 0;
    while i < start.len()
        invariant
            i <= start@.len() <= path@.len(),
            p == part_values(path@),
            s == part_values(start@),
            forall|k: int| 0 <= k < i ==> p[k] == s[k],
        decreases start@.len() - i,
    {
        if !same_part(&path[i], &start[i]) {
            assert(p.take(s.len() as int)[i as int] != s[i as int]);
            return false;
        }
        i = i + 1;
    }
    assert(p.take(s.len() as int) =~= s);
    true
}

fn has_absolute_part(parts: &[PathPart]) -> (r: bool)
    ensures
        r == is_absolute(part_values(parts@)),
{
    let ghost all = part_values(parts@);
    let mut i: usize = 0;
    while i < parts.len()
        invariant
            i <= parts@.len(),
            all == part_values(parts@),
            forall|k: int| 0 <= k < i ==> !(#[trigger] all[k] is Root || all[k] is Prefix),
        decreases parts@.len() - i,
    {
        let absolute = match parts[i] {
            PathPart::Root => true,
            PathPart::Prefix(_) => true,
            _ => false,
        };
        assert(all[i as int] == parts@[i as int]@);
        if absolute {
            return true;
        }
        i = i + 1;
    }
    false
}

fn refusal(entry_text: &str, reason: &str) -> (s: String)
    ensures
        s@ == "Path traversal detected: \""@ + entry_text@ + reason@,
{
    let mut s = String::from_str("Path traversal detected: \"");
    s.append(entry_text);
    s.append(reason);
    s
}

/// Finds the path that an archive entry is extracted to, below the output directory.
/// Refuses entries that lead out of it. The result holds names only where the entry adds
/// to the output directory; no component of it is `.` or `..`.
pub fn safe_join(
    output: &[PathPart],
    output_text: &str,
    entry: &[PathPart],
    entry_text: &str,
) -> (r: Result<Vec<PathPart>, String>)
    ensures
        match (
            r,
            join_outcome(
                part_values(output@),
                output_text@,
                part_values(entry@),
                entry_text@,
            ),
        ) {
            (Ok(path), Ok(p)) => part_values(path@) == p,
            (Err(text), Err(t)) => text@ == t,
            _ => false,
        },
{
    let ghost out = part_values(output@);
    let ghost ent = part_values(entry@);
    if has_absolute_part(entry) {
        return Err(refusal(entry_text, "\" contains an absolute path component"));
    }
    let mut path: Vec<PathPart> = Vec::new();
    proof {
        assert(part_values(path@) =~= Seq::empty());
        assert(Seq::<PartModel>::empty() + out =~= out);
    }
    let inside = follow_all(&mut path, output, false, Ghost(Seq::empty()));
    if !inside {
        proof {
            lemma_unresolved(out, ent, false, 0, ent.len() as int);
            assert(out + ent.take(0) =~= out);
            assert(ent.take(ent.len() as int) =~= ent);
        }
        return Err(refusal(entry_text, "\" escapes output directory"));
    }
    if !follow_all(&mut path, entry, false, Ghost(out)) {
        return Err(refusal(entry_text, "\" escapes output directory"));
    }
    let mut base: Vec<PathPart> = Vec::new();
    proof {
        assert(part_values(base@) =~= Seq::empty());
        lemma_lenient(out);
    }
    let _ = follow_all(&mut base, output, true, Ghost(Seq::empty()));
    if !starts_below(path.as_slice(), base.as_slice()) {
        let mut text = refusal(entry_text, "\" escapes output directory \"");
        text.append(output_text);
        text.append("\"");
        return Err(text);
    }
    Ok(path)
}

/// No component is `.` or `..`.
pub open spec fn is_plain(path: Seq<PartModel>) -> bool {
    forall|i: int| 0 <= i < path.len() ==> !(#[trigger] path[i] is Current || path[i] is Parent)
}

proof fn lemma_plain(parts: Seq<PartModel>, lenient: bool)
    ensures
        resolved(parts, lenient) matches Some(path) ==> is_plain(path),
    decreases parts.len(),
{
    if parts.len() > 0 {
        lemma_plain(parts.drop_last(), lenient);
    }
}

/// An extracted entry stays below the output directory: its path starts with that of the
/// directory, and holds no `.` or `..` that could lead out again.
pub proof fn extraction_stays_inside(
    output: Seq<PartModel>,
    output_text: Seq<char>,
    entry: Seq<PartModel>,
    entry_text: Seq<char>,
)
    ensures
        join_outcome(output, output_text, entry, entry_text) matches Ok(path) ==> is_plain(path)
            && is_below(path, resolved(output, true).unwrap()),
{
    lemma_plain(output + entry, false);
}

proof fn lemma_names(output: Seq<PartModel>, entry: Seq<PartModel>, n: int)
    requires
        0 <= n <= entry.len(),
        forall|i: int| 0 <= i < entry.len() ==> #[trigger] entry[i] is Name,
        resolved(output, false) is Some,
    ensures
        resolved(output + entry.take(n), false) == Some(
            resolved(output, false).unwrap() + entry.take(n),
        ),
    decreases n,
{
    let base = resolved(output, false).unwrap();
    if n == 0 {
        assert(output + entry.take(0) =~= output);
        assert(base + entry.take(0) =~= base);
    } else {
        lemma_names(output, entry, n - 1);
        assert((output + entry.take(n)).drop_last() =~= output + entry.take(n - 1));
        assert((output + entry.take(n)).last() == entry[n - 1]);
        assert((base + entry.take(n - 1)).push(entry[n - 1]) =~= base + entry.take(n));
    }
}

proof fn lemma_strict_is_lenient(parts: Seq<PartModel>)
    requires
        resolved(parts, false) is Some,
    ensures
        resolved(parts, true) == resolved(parts, false),
    decreases parts.len(),
{
    if parts.len() > 0 {
        lemma_strict_is_lenient(parts.drop_last());
    }
}

/// An entry of plain names is extracted under these names below the output directory,
/// where that can be resolved.
pub proof fn plain_entries_are_extracted(
    output: Seq<PartModel>,
    output_text: Seq<char>,
    entry: Seq<PartModel>,
    entry_text: Seq<char>,
)
    requires
        forall|i: int| 0 <= i < entry.len() ==> #[trigger] entry[i] is Name,
        resolved(output, false) is Some,
    ensures
        join_outcome(output, output_text, entry, entry_text) == Ok::<Seq<PartModel>, Seq<char>>(
            resolved(output, false).unwrap() + entry,
        ),
{
    let base = resolved(output, false).unwrap();
    lemma_names(output, entry, entry.len() as int);
    lemma_strict_is_lenient(output);
    assert(entry.take(entry.len() as int) =~= entry);
    assert((base + entry).take(base.len() as int) =~= base);
}

// What the functions decide.

/// What [`predictor_for_name`] knows, and that it knows nothing else.
pub proof fn predictor_names(name: &str, r: Result<PredictorId, String>)
    requires
        call_ensures(predictor_for_name, (name,), r),
    ensures
        name@ == "order0"@ || name@ == "o0"@ ==> r is Ok && r->Ok_0 == PredictorId::Order0,
        name@ == "cm"@ || name@ == "context-mixer"@ ==> r is Ok && r->Ok_0
            == PredictorId::ContextMixer,
        name@ == "cm-light"@ ==> r is Ok && r->Ok_0 == PredictorId::ContextMixerLight,
        name@ == "lz4"@ || name@ == "lz4-aware"@ ==> r is Ok && r->Ok_0 == PredictorId::Lz4Aware,
        name@ == "ssm"@ || name@ == "neural-ssm"@ ==> r is Ok && r->Ok_0 == PredictorId::NeuralSsm,
        name@ == "rle"@ ==> r is Ok && r->Ok_0 == PredictorId::Rle,
        r is Ok ==> name@ == "order0"@ || name@ == "o0"@ || name@ == "cm"@ || name@
            == "context-mixer"@ || name@ == "cm-light"@ || name@ == "lz4"@ || name@ == "lz4-aware"@
            || name@ == "ssm"@ || name@ == "neural-ssm"@ || name@ == "rle"@,
{
    reveal_strlit("order0");
    reveal_strlit("o0");
    reveal_strlit("cm");
    reveal_strlit("context-mixer");
    reveal_strlit("cm-light");
    reveal_strlit("lz4");
    reveal_strlit("lz4-aware");
    reveal_strlit("ssm");
    reveal_strlit("neural-ssm");
    reveal_strlit("rle");
    assert("order0"@[0] == 'o' && "cm"@[0] == 'c' && "context-mixer"@[0] == 'c' && "cm-light"@[0]
        == 'c' && "lz4"@[0] == 'l' && "lz4-aware"@[0] == 'l' && "ssm"@[0] == 's' && "neural-ssm"@[0]
        == 'n' && "rle"@[0] == 'r' && "o0"@[0] == 'o');
    assert("order0"@.len() == 6 && "o0"@.len() == 2 && "cm"@.len() == 2 && "context-mixer"@.len()
        == 13 && "cm-light"@.len() == 8);
}

/// What [`cipher_for_name`] knows, and that it knows nothing else.
pub proof fn cipher_names(name: &str, r: Result<CipherId, String>)
    requires
        call_ensures(cipher_for_name, (name,), r),
    ensures
        name@ == "aes"@ || name@ == "aes-gcm"@ || name@ == "aes256"@ || name@ == "aes256gcm"@ ==> r
            is Ok && r->Ok_0 == CipherId::Aes256Gcm,
        name@ == "chacha"@ || name@ == "chacha20"@ ==> r is Ok && r->Ok_0
            == CipherId::ChaCha20Poly1305,
        r is Ok ==> name@ == "aes"@ || name@ == "aes-gcm"@ || name@ == "aes256"@ || name@
            == "aes256gcm"@ || name@ == "chacha"@ || name@ == "chacha20"@,
{
    reveal_strlit("aes");
    reveal_strlit("aes-gcm");
    reveal_strlit("aes256");
    reveal_strlit("aes256gcm");
    reveal_strlit("chacha");
    reveal_strlit("chacha20");
    assert("aes"@[0] == 'a' && "aes-gcm"@[0] == 'a' && "aes256"@[0] == 'a' && "aes256gcm"@[0] == 'a'
        && "chacha"@[0] == 'c' && "chacha20"@[0] == 'c');
}

/// What [`predictor_for_id`], [`trains_transformed`] and [`is_streaming`] decide: every
/// predictor reads its own archives, but those without one go to the simplest and those of
/// the transform to the neural one, which alone trains on transformed data; a single dash is
/// a stream.
pub proof fn predictors_read_their_archives(
    id: PredictorId,
    r: PredictorId,
    transformed: bool,
    input: &str,
    streaming: bool,
)
    requires
        call_ensures(predictor_for_id, (id,), r),
        call_ensures(trains_transformed, (id,), transformed),
        call_ensures(is_streaming, (input,), streaming),
    ensures
        id == PredictorId::ZstdOnly ==> r == PredictorId::Order0,
        id == PredictorId::Mtf ==> r == PredictorId::NeuralSsm,
        id != PredictorId::ZstdOnly && id != PredictorId::Mtf ==> r == id,
        transformed <==> id == PredictorId::NeuralSsm,
        streaming <==> input@.len() == 1 && input@[0] == '-',
{
    reveal_strlit("-");
    if input@.len() == 1 && input@[0] == '-' {
        assert(input@ =~= "-"@);
    }
}

/// What [`check_file_count`], [`check_depth`] and [`check_threads`] let pass: a million files,
/// 256 directories deep, 1024 threads.
pub proof fn limits_let_pass(
    n: usize,
    dir: &str,
    files: Result<(), String>,
    depth: Result<(), String>,
    threads: Result<(), String>,
)
    requires
        call_ensures(check_file_count, (n,), files),
        call_ensures(check_depth, (n, dir), depth),
        call_ensures(check_threads, (n,), threads),
    ensures
        files is Ok <==> n <= 1_000_000,
        depth is Ok <==> n <= 256,
        threads is Ok <==> n <= 1024,
{
}

/// What [`input_action`] decides: links are passed over whatever they lead to, files taken,
/// directories looked into, and anything else is an error only where it was named.
pub proof fn inputs_are_sorted(
    is_symlink: bool,
    is_file: bool,
    is_dir: bool,
    named: bool,
    a: InputAction,
)
    requires
        call_ensures(input_action, (is_symlink, is_file, is_dir, named), a),
    ensures
        a == InputAction::SkipLink <==> is_symlink,
        a == InputAction::Take <==> !is_symlink && is_file,
        a == InputAction::Descend <==> !is_symlink && !is_file && is_dir,
        a == InputAction::Refuse <==> !is_symlink && !is_file && !is_dir && named,
        a == InputAction::Ignore <==> !is_symlink && !is_file && !is_dir && !named,
{
}

/// The class of a character: small letter, capital letter, digit, or any other.
pub open spec fn class_of(c: char) -> int {
    if 'a' <= c <= 'z' {
        0
    } else if 'A' <= c <= 'Z' {
        1
    } else if '0' <= c <= '9' {
        2
    } else {
        3
    }
}

/// Which passwords [`validate_password`] lets pass: those of eight bytes and five distinct
/// characters, not all of one class.
pub proof fn strong_passwords_pass(pw: &str, r: Result<(), String>)
    requires
        call_ensures(validate_password, (pw,), r),
    ensures
        r is Ok <==> encode_utf8(pw@).len() >= 8 && pw@.to_set().len() >= 5 && exists|i: int, j: int|
            0 <= i < pw@.len() && 0 <= j < pw@.len() && class_of(#[trigger] pw@[i]) != class_of(
                #[trigger] pw@[j],
            ),
{
    let s = pw@;
    let lower = |c: char| is_lower(c);
    let upper = |c: char| is_upper(c);
    let digit = |c: char| is_digit(c);
    let other = |c: char| is_symbol(c);
    if class_count(s) >= 2 {
        let a = if has_class(s, lower) {
            choose|i: int| 0 <= i < s.len() && #[trigger] lower(s[i])
        } else if has_class(s, upper) {
            choose|i: int| 0 <= i < s.len() && #[trigger] upper(s[i])
        } else {
            choose|i: int| 0 <= i < s.len() && #[trigger] digit(s[i])
        };
        let b = if has_class(s, other) {
            choose|i: int| 0 <= i < s.len() && #[trigger] other(s[i])
        } else if has_class(s, digit) {
            choose|i: int| 0 <= i < s.len() && #[trigger] digit(s[i])
        } else {
            choose|i: int| 0 <= i < s.len() && #[trigger] upper(s[i])
        };
        assert(class_of(s[a]) != class_of(s[b]));
    }
    if exists|i: int, j: int|
        0 <= i < s.len() && 0 <= j < s.len() && class_of(#[trigger] s[i]) != class_of(#[trigger] s[j]) {
        let (i, j) = choose|i: int, j: int|
            0 <= i < s.len() && 0 <= j < s.len() && class_of(#[trigger] s[i]) != class_of(
                #[trigger] s[j],
            );
        lemma_class_occurs(s, i);
        lemma_class_occurs(s, j);
    }
}

proof fn lemma_class_occurs(s: Seq<char>, i: int)
    requires
        0 <= i < s.len(),
    ensures
        class_of(s[i]) == 0 ==> has_class(s, |c: char| is_lower(c)),
        class_of(s[i]) == 1 ==> has_class(s, |c: char| is_upper(c)),
        class_of(s[i]) == 2 ==> has_class(s, |c: char| is_digit(c)),
        class_of(s[i]) == 3 ==> has_class(s, |c: char| is_symbol(c)),
{
    let lower = |c: char| is_lower(c);
    let upper = |c: char| is_upper(c);
    let digit = |c: char| is_digit(c);
    let other = |c: char| is_symbol(c);
    assert(class_of(s[i]) == 0 ==> lower(s[i]));
    assert(class_of(s[i]) == 1 ==> upper(s[i]));
    assert(class_of(s[i]) == 2 ==> digit(s[i]));
    assert(class_of(s[i]) == 3 ==> other(s[i]));
}

/// Where [`password_source`] takes a password from: from nowhere without the argument, from
/// the argument where it says one, else from the environment where that has one, else from a
/// prompt.
pub proof fn passwords_have_one_source(
    argument: Option<&str>,
    environment: Option<&str>,
    s: PasswordSource,
)
    requires
        call_ensures(password_source, (argument, environment), s),
    ensures
        s == PasswordSource::Absent <==> argument is None,
        s == PasswordSource::Argument <==> argument is Some && argument->0@.len() > 0,
        s == PasswordSource::Environment <==> argument is Some && argument->0@.len() == 0
            && environment is Some && environment->0@.len() > 0,
        s == PasswordSource::Prompt <==> argument is Some && argument->0@.len() == 0 && !(environment
            is Some && environment->0@.len() > 0),
{
}

proof fn lemma_plain_stays(parts: Seq<PartModel>, lenient: bool)
    requires
        is_plain(parts),
    ensures
        resolved(parts, lenient) == Some(parts),
    decreases parts.len(),
{
    if parts.len() > 0 {
        let before = parts.drop_last();
        assert forall|i: int| 0 <= i < before.len() implies !(#[trigger] before[i] is Current
            || before[i] is Parent) by {
            assert(parts[i] == before[i]);
        }
        lemma_plain_stays(before, lenient);
        assert(before.push(parts.last()) =~= parts);
    } else {
        assert(parts =~= Seq::empty());
    }
}

/// What is resolved: a name and a `..` behind it cancel out, a `.` changes nothing, and
/// components without either stay as they are.
pub proof fn dots_are_resolved(parts: Seq<PartModel>, name: Seq<char>, lenient: bool)
    ensures
        resolved(parts.push(PartModel::Current), lenient) == resolved(parts, lenient),
        resolved(parts.push(PartModel::Name(name)).push(PartModel::Parent), lenient) == resolved(
            parts,
            lenient,
        ),
        is_plain(parts) ==> resolved(parts, lenient) == Some(parts),
        resolved(seq![PartModel::Parent], false) is None,
{
    let named = parts.push(PartModel::Name(name));
    assert(parts.push(PartModel::Current).drop_last() =~= parts);
    assert(named.push(PartModel::Parent).drop_last() =~= named);
    assert(named.drop_last() =~= parts);
    if let Some(before) = resolved(parts, lenient) {
        assert(before.push(PartModel::Name(name)).drop_last() =~= before);
    }
    if is_plain(parts) {
        lemma_plain_stays(parts, lenient);
    }
    assert(seq![PartModel::Parent].drop_last() =~= Seq::empty());
    reveal_with_fuel(resolved, 2);
}

/// What [`safe_join`] gives below an output directory without `.` and `..`: a path that
/// starts with the directory and holds neither. An entry of names is extracted under these
/// names; one with a root or a drive is refused, and so is one that leaves the directory.
pub proof fn entries_are_extracted_below(
    output: &[PathPart],
    output_text: &str,
    entry: &[PathPart],
    entry_text: &str,
    r: Result<Vec<PathPart>, String>,
)
    requires
        call_ensures(safe_join, (output, output_text, entry, entry_text), r),
        is_plain(part_values(output@)),
    ensures
        ({
            let out = part_values(output@);
            let ent = part_values(entry@);
            &&& r is Ok ==> {
                let path = part_values(r->Ok_0@);
                &&& path.len() >= out.len()
                &&& path.take(out.len() as int) == out
                &&& forall|i: int|
                    0 <= i < path.len() ==> !(#[trigger] path[i] is Current || path[i] is Parent)
                &&& resolved(out + ent, false) == Some(path)
            }
            &&& (forall|i: int| 0 <= i < ent.len() ==> #[trigger] ent[i] is Name) ==> r is Ok
                && part_values(r->Ok_0@) == out + ent
            &&& (exists|i: int| 0 <= i < ent.len() && (#[trigger] ent[i] is Root || ent[i]
                is Prefix)) ==> r is Err
            &&& ent.len() > 0 && ent[0] is Parent && ent.len() == 1 && out.len() > 0 ==> r is Err
        }),
{
    let out = part_values(output@);
    let ent = part_values(entry@);
    lemma_plain_stays(out, true);
    lemma_plain_stays(out, false);
    extraction_stays_inside(out, output_text@, ent, entry_text@);
    if forall|i: int| 0 <= i < ent.len() ==> #[trigger] ent[i] is Name {
        plain_entries_are_extracted(out, output_text@, ent, entry_text@);
    }
    if ent.len() == 1 && ent[0] is Parent {
        assert((out + ent).drop_last() =~= out);
        assert((out + ent).last() is Parent);
    }
}

} // verus!
