use aether_core::cloud::azure::AzureBackend;
use aether_core::cloud::gcs::GcsBackend;

#[test]
fn accepts_valid_account_name() {
    assert!(AzureBackend::new("mystorageaccount1").is_ok());
}

#[test]
fn rejects_short_account_name() {
    assert!(AzureBackend::new("ab").is_err());
}

#[test]
fn rejects_long_account_name() {
    let long_name = "a".repeat(25);
    assert!(AzureBackend::new(&long_name).is_err());
}

#[test]
fn rejects_uppercase_account_name() {
    assert!(AzureBackend::new("MyStorage").is_err());
}

#[test]
fn rejects_hyphens_in_account_name() {
    // Azure storage accounts do not allow hyphens
    assert!(AzureBackend::new("my-storage").is_err());
}

#[test]
fn rejects_special_chars_in_account_name() {
    assert!(AzureBackend::new("my_storage!").is_err());
    assert!(AzureBackend::new("my storage").is_err());
    assert!(AzureBackend::new("my.storage").is_err());
}

#[test]
fn accepts_boundary_lengths() {
    // Exactly 3 characters (minimum)
    assert!(AzureBackend::new("abc").is_ok());
    // Exactly 24 characters (maximum)
    let name_24 = "a".repeat(24);
    assert!(AzureBackend::new(&name_24).is_ok());
}

#[test]
fn accepts_valid_project_id() {
    assert!(GcsBackend::new(Some("my-project-123".into())).is_ok());
}

#[test]
fn accepts_no_project_id() {
    assert!(GcsBackend::new(None).is_ok());
}

#[test]
fn rejects_short_project_id() {
    assert!(GcsBackend::new(Some("short".into())).is_err());
}

#[test]
fn rejects_long_project_id() {
    let long_id = "a".repeat(31);
    assert!(GcsBackend::new(Some(long_id)).is_err());
}

#[test]
fn rejects_uppercase_project_id() {
    assert!(GcsBackend::new(Some("My-Project".into())).is_err());
}

#[test]
fn rejects_project_id_not_starting_with_letter() {
    assert!(GcsBackend::new(Some("123-project".into())).is_err());
    assert!(GcsBackend::new(Some("-my-project".into())).is_err());
}

#[test]
fn rejects_project_id_ending_with_hyphen() {
    assert!(GcsBackend::new(Some("my-project-".into())).is_err());
}

#[test]
fn rejects_project_id_with_special_chars() {
    assert!(GcsBackend::new(Some("my_project!".into())).is_err());
    assert!(GcsBackend::new(Some("my project".into())).is_err());
}
