use aether_core::commands::{
    check_depth, check_file_count, check_threads, cipher_for_name, input_action, is_streaming,
    password_source, predictor_for_id, predictor_for_name, safe_join, trains_transformed,
    validate_password, InputAction, PasswordSource, PathPart,
};
use aether_core::crypto::CipherId;
use aether_core::PredictorId;

/// The components of a path with forward slashes.
fn parts(path: &str) -> Vec<PathPart> {
    let mut v = Vec::new();
    if path.starts_with('/') {
        v.push(PathPart::Root);
    }
    for name in path.split('/') {
        match name {
            "" => {}
            "." => v.push(PathPart::Current),
            ".." => v.push(PathPart::Parent),
            _ => v.push(PathPart::Name(name.to_string())),
        }
    }
    v
}

fn text(parts: &[PathPart]) -> String {
    let mut s = String::new();
    for p in parts {
        match p {
            PathPart::Prefix(n) => s.push_str(n),
            PathPart::Root => s.push('/'),
            PathPart::Current => s.push('.'),
            PathPart::Parent => s.push_str(".."),
            PathPart::Name(n) => {
                if !s.is_empty() && !s.ends_with('/') {
                    s.push('/');
                }
                s.push_str(n);
            }
        }
    }
    s
}

fn join(output: &str, entry: &str) -> Result<String, String> {
    safe_join(&parts(output), output, &parts(entry), entry).map(|p| text(&p))
}

#[test]
fn entries_are_joined_below_the_output() {
    assert_eq!(join("out", "a/b.txt").unwrap(), "out/a/b.txt");
    assert_eq!(join("/srv/out", "./a").unwrap(), "/srv/out/a");
    assert_eq!(join("out", "a/../b").unwrap(), "out/b");
    assert_eq!(join(".", "a").unwrap(), "a");
    assert_eq!(join("x/../out", "a").unwrap(), "out/a");
}

#[test]
fn entries_that_escape_are_refused() {
    assert_eq!(
        join("out", "/etc/passwd").unwrap_err(),
        "Path traversal detected: \"/etc/passwd\" contains an absolute path component"
    );
    assert_eq!(
        join("out", "../../etc/passwd").unwrap_err(),
        "Path traversal detected: \"../../etc/passwd\" escapes output directory"
    );
    assert_eq!(
        join("out", "../other").unwrap_err(),
        "Path traversal detected: \"../other\" escapes output directory \"out\""
    );
    assert!(join("/srv/out", "../../../x").is_err());
    assert!(safe_join(
        &parts("out"),
        "out",
        &[PathPart::Prefix("C:".to_string())],
        "C:"
    )
    .is_err());
}

#[test]
fn passwords_need_length_variety_and_classes() {
    assert_eq!(
        validate_password("").unwrap_err(),
        "Password cannot be empty"
    );
    assert!(validate_password("aB3$xyz")
        .unwrap_err()
        .starts_with("Password too short (minimum 8 characters)"));
    assert!(validate_password("abababab")
        .unwrap_err()
        .starts_with("Password too weak: use at least 5 distinct characters"));
    assert!(validate_password("abcdefgh")
        .unwrap_err()
        .starts_with("Password too weak: use at least 2 character classes"));
    assert!(validate_password("abcdefg1").is_ok());
    assert!(validate_password("abcd-efgh").is_ok());
    // Four characters of three bytes each are long enough, but too few.
    assert!(validate_password("\u{4e00}\u{4e01}\u{4e02}\u{4e03}")
        .unwrap_err()
        .contains("distinct"));
}

#[test]
fn password_sources() {
    assert_eq!(password_source(None, Some("env")), PasswordSource::Absent);
    assert_eq!(
        password_source(Some("arg"), Some("env")),
        PasswordSource::Argument
    );
    assert_eq!(
        password_source(Some(""), Some("env")),
        PasswordSource::Environment
    );
    assert_eq!(
        password_source(Some(""), Some("")),
        PasswordSource::Prompt
    );
    assert_eq!(password_source(Some(""), None), PasswordSource::Prompt);
}

#[test]
fn names_of_predictors_and_ciphers() {
    assert_eq!(predictor_for_name("o0").unwrap(), PredictorId::Order0);
    assert_eq!(predictor_for_name("cm").unwrap(), PredictorId::ContextMixer);
    assert_eq!(
        predictor_for_name("cm-light").unwrap(),
        PredictorId::ContextMixerLight
    );
    assert_eq!(
        predictor_for_name("lz4-aware").unwrap(),
        PredictorId::Lz4Aware
    );
    assert_eq!(predictor_for_name("ssm").unwrap(), PredictorId::NeuralSsm);
    assert_eq!(predictor_for_name("rle").unwrap(), PredictorId::Rle);
    assert_eq!(
        predictor_for_name("mtf").unwrap_err(),
        "Unknown predictor: mtf. Use: order0, cm, cm-light, lz4-aware, ssm, rle"
    );
    assert_eq!(predictor_for_id(PredictorId::ZstdOnly), PredictorId::Order0);
    assert_eq!(predictor_for_id(PredictorId::Mtf), PredictorId::NeuralSsm);
    assert_eq!(predictor_for_id(PredictorId::Rle), PredictorId::Rle);
    assert!(trains_transformed(PredictorId::NeuralSsm));
    assert!(!trains_transformed(PredictorId::Rle));
    assert_eq!(cipher_for_name("aes256").unwrap(), CipherId::Aes256Gcm);
    assert_eq!(cipher_for_name("aes256gcm").unwrap(), CipherId::Aes256Gcm);
    assert_eq!(
        cipher_for_name("chacha").unwrap(),
        CipherId::ChaCha20Poly1305
    );
    assert_eq!(
        cipher_for_name("des").unwrap_err(),
        "Unknown cipher: des. Use: aes, chacha"
    );
    assert!(is_streaming("-"));
    assert!(!is_streaming("archive.aet"));
}

#[test]
fn links_are_not_followed() {
    assert_eq!(
        input_action(true, true, false, true),
        InputAction::SkipLink
    );
    assert_eq!(input_action(false, true, false, true), InputAction::Take);
    assert_eq!(
        input_action(false, false, true, false),
        InputAction::Descend
    );
    assert_eq!(
        input_action(false, false, false, true),
        InputAction::Refuse
    );
    assert_eq!(
        input_action(false, false, false, false),
        InputAction::Ignore
    );
}

#[test]
fn limits_of_the_command_line() {
    assert!(check_file_count(1_000_000).is_ok());
    assert_eq!(
        check_file_count(1_000_001).unwrap_err(),
        "Too many files (>1000000). Use smaller input sets or archive in batches."
    );
    assert!(check_depth(256, "d").is_ok());
    assert_eq!(
        check_depth(257, "deep").unwrap_err(),
        "Directory recursion depth exceeded (256). Possible circular directory structure at: deep"
    );
    assert!(check_threads(0).is_ok());
    assert!(check_threads(1024).is_ok());
    assert_eq!(
        check_threads(1025).unwrap_err(),
        "Thread count 1025 exceeds maximum (1024). Use 0 for all cores or a reasonable value."
    );
}
