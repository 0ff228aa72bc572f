use aether_core::grouper::{
    bucket_indices, group_files, FileInfo, SolidGroup, MAX_SOLID_GROUP_SIZE,
};
use aether_core::ContentType;

/// The mean entropies of all buckets, by the number of their content type.
fn bucket_entropies(files: &[FileInfo]) -> [i64; 7] {
    let mut means = [0i64; 7];
    for (number, mean) in means.iter_mut().enumerate() {
        let bucket = bucket_indices(files, number as u16);
        let sum: f64 = bucket
            .iter()
            .map(|&i| f64::from_bits(files[i].mean_entropy as u64))
            .sum();
        if !bucket.is_empty() {
            *mean = (sum / bucket.len() as f64).to_bits() as i64;
        }
    }
    means
}

fn grouped(files: &[FileInfo]) -> Vec<SolidGroup> {
    group_files(files, &bucket_entropies(files))
}

fn make_file(path: &str, size: u64, ct: ContentType, entropy: f64) -> FileInfo {
    FileInfo {
        path: path.into(),
        size,
        content_type: ct,
        mean_entropy: entropy.to_bits() as i64,
    }
}

#[test]
fn empty_input() {
    assert!(grouped(&[]).is_empty());
}

#[test]
fn groups_by_type() {
    let files = vec![
        make_file("a.txt", 100, ContentType::Text, 4.0),
        make_file("b.jpg", 5000, ContentType::Image, 7.8),
        make_file("c.rs", 200, ContentType::Text, 4.2),
        make_file("d.png", 3000, ContentType::Image, 7.9),
    ];

    let groups = grouped(&files);
    // Should have 2 groups: Text and Image
    assert_eq!(groups.len(), 2);

    let text_group = groups
        .iter()
        .find(|g| g.content_type == ContentType::Text)
        .unwrap();
    assert_eq!(text_group.file_indices.len(), 2);

    let image_group = groups
        .iter()
        .find(|g| g.content_type == ContentType::Image)
        .unwrap();
    assert_eq!(image_group.file_indices.len(), 2);
}

#[test]
fn splits_large_groups() {
    // Create files that exceed MAX_SOLID_GROUP_SIZE
    let big = MAX_SOLID_GROUP_SIZE / 2 + 1;
    let files = vec![
        make_file("a.txt", big, ContentType::Text, 4.0),
        make_file("b.txt", big, ContentType::Text, 4.0),
        make_file("c.txt", big, ContentType::Text, 4.0),
    ];

    let groups = grouped(&files);
    // Should be split into 2 groups (a+b wouldn't fit, so a alone, then b alone, then c alone - or a, then b+c if b+c fits)
    assert!(
        groups.len() >= 2,
        "Expected at least 2 groups, got {}",
        groups.len()
    );
}

#[test]
fn unique_group_ids() {
    let files = vec![
        make_file("a.txt", 100, ContentType::Text, 4.0),
        make_file("b.exe", 200, ContentType::Executable, 6.0),
        make_file("c.jpg", 300, ContentType::Image, 7.8),
    ];

    let groups = grouped(&files);
    let ids: Vec<u32> = groups.iter().map(|g| g.group_id).collect();
    let unique: std::collections::HashSet<u32> = ids.iter().cloned().collect();
    assert_eq!(ids.len(), unique.len(), "Group IDs must be unique");
}

#[test]
fn files_are_ordered_by_extension_then_size() {
    let files = vec![
        make_file("z.txt", 5, ContentType::Text, 4.0),
        make_file("a.rs", 9, ContentType::Text, 4.0),
        make_file("b.rs", 2, ContentType::Text, 4.0),
        make_file("c.rs", 2, ContentType::Text, 4.0),
        make_file("photo.jpg", 7, ContentType::Image, 7.9),
    ];
    let groups = grouped(&files);
    assert_eq!(groups.len(), 2);
    assert_eq!(groups[0].group_id, 0);
    assert_eq!(groups[0].content_type, ContentType::Text);
    assert_eq!(groups[0].file_indices, vec![2, 3, 1, 0]);
    assert_eq!(groups[0].total_size, 18);
    assert_eq!(groups[1].file_indices, vec![4]);
    assert_eq!(groups[1].group_id, 1);
    let all: usize = groups.iter().map(|g| g.file_indices.len()).sum();
    assert_eq!(all, files.len());
}

#[test]
fn large_files_stand_alone() {
    let files = vec![
        make_file("a.bin", u64::MAX, ContentType::Mixed, 1.0),
        make_file("b.bin", 1, ContentType::Mixed, 1.0),
        make_file("c.bin", MAX_SOLID_GROUP_SIZE - 1, ContentType::Mixed, 1.0),
    ];
    let groups = grouped(&files);
    assert_eq!(groups.len(), 2);
    assert_eq!(groups[0].file_indices, vec![1, 2]);
    assert_eq!(groups[0].total_size, MAX_SOLID_GROUP_SIZE);
    assert_eq!(groups[1].file_indices, vec![0]);
}
