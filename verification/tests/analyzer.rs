use aether_core::analyzer::{
    detect_content_type, recommend_method, recommend_method_for, RecommendedMethod,
};
use aether_core::ContentType;

fn bits(entropy: f64) -> i64 {
    entropy.to_bits() as i64
}

#[test]
fn detect_elf() {
    let data = b"\x7fELF\x02\x01\x01\x00";
    assert_eq!(detect_content_type("binary", data), ContentType::Executable);
}

#[test]
fn detect_jpeg() {
    let data = [0xFF, 0xD8, 0xFF, 0xE0, 0x00, 0x10];
    assert_eq!(detect_content_type("photo.jpg", &data), ContentType::Image);
}

#[test]
fn detect_png() {
    let data = [0x89, 0x50, 0x4E, 0x47, 0x0D, 0x0A, 0x1A, 0x0A];
    assert_eq!(detect_content_type("icon.png", &data), ContentType::Image);
}

#[test]
fn detect_text_from_content() {
    let data = b"Hello, world! This is a plain text file.\nWith multiple lines.\n";
    assert_eq!(detect_content_type("unknown.dat", data), ContentType::Text);
}

#[test]
fn detect_from_ext() {
    assert_eq!(detect_content_type("main.rs", &[0u8; 4]), ContentType::Text);
    assert_eq!(
        detect_content_type("data.zip", &[0u8; 4]),
        ContentType::BinaryRandom
    );
    assert_eq!(
        detect_content_type("program.exe", &[0u8; 4]),
        ContentType::Executable
    );
}

#[test]
fn routing_thresholds() {
    assert_eq!(recommend_method(bits(3.0)), RecommendedMethod::PredictorRans);
    assert_eq!(recommend_method(bits(7.0)), RecommendedMethod::PredictorRans);
    assert_eq!(recommend_method(bits(7.6)), RecommendedMethod::Zstd);
    assert_eq!(recommend_method(bits(7.96)), RecommendedMethod::Store);
}

#[test]
fn routing_already_compressed() {
    // JPEG with high entropy -> store
    assert_eq!(
        recommend_method_for(bits(7.8), ContentType::Image),
        RecommendedMethod::Store
    );
    // ZIP data -> zstd (might still compress slightly)
    assert_eq!(
        recommend_method_for(bits(7.0), ContentType::BinaryRandom),
        RecommendedMethod::Zstd
    );
    // Text -> predictor
    assert_eq!(
        recommend_method_for(bits(4.5), ContentType::Text),
        RecommendedMethod::PredictorRans
    );
}

#[test]
fn detect_more_magic() {
    let path = "file.xyz";
    assert_eq!(
        detect_content_type(path, b"\x93NUMPY\x01\x00"),
        ContentType::NumericData
    );
    assert_eq!(
        detect_content_type(path, &[16, 0, 0, 0, 0, 0, 0, 0, b'{', b'"']),
        ContentType::NumericData
    );
    assert_eq!(detect_content_type(path, b"GGUF"), ContentType::NumericData);
    assert_eq!(detect_content_type(path, b"MZ\0\0"), ContentType::Executable);
    assert_eq!(
        detect_content_type(path, b"RIFF\0\0\0\0WEBP"),
        ContentType::Image
    );
    assert_eq!(
        detect_content_type(path, b"%PDF-1.7"),
        ContentType::BinaryStructured
    );
    assert_eq!(
        detect_content_type(path, &[0x1F, 0x8B, 8, 0]),
        ContentType::BinaryRandom
    );
    assert_eq!(
        detect_content_type(path, &[0xCF, 0xFA, 0xED, 0xFE]),
        ContentType::Executable
    );
    // Too short for magic: the extension decides, whatever its case.
    assert_eq!(detect_content_type("A.B.PNG", b"abc"), ContentType::Image);
    assert_eq!(detect_content_type("Makefile", b""), ContentType::Mixed);
    assert_eq!(
        detect_content_type("x.SQLITE3", &[0; 8]),
        ContentType::BinaryStructured
    );
    assert_eq!(detect_content_type("txt", &[0; 8]), ContentType::Text);
    assert_eq!(
        detect_content_type("\u{dc}BER.TXT", &[0; 8]),
        ContentType::Text
    );
}

#[test]
fn entropy_that_is_no_number_goes_to_the_predictor() {
    assert_eq!(
        recommend_method(bits(f64::NAN)),
        RecommendedMethod::PredictorRans
    );
    assert_eq!(
        recommend_method(bits(f64::INFINITY)),
        RecommendedMethod::Store
    );
    assert_eq!(
        recommend_method(bits(-1.0)),
        RecommendedMethod::PredictorRans
    );
    assert_eq!(
        recommend_method(bits(7.5)),
        RecommendedMethod::PredictorRans
    );
    assert_eq!(recommend_method(bits(7.95)), RecommendedMethod::Zstd);
    assert_eq!(
        recommend_method_for(bits(0.0), ContentType::BinaryRandom),
        RecommendedMethod::Zstd
    );
}
