use photo_organizer::files::{is_supported_image, resolve_conflict, split_name};

fn owned(names: &[&str]) -> Vec<String> {
    names.iter().map(|s| s.to_string()).collect()
}

#[test]
fn recognizes_supported_extensions() {
    assert!(is_supported_image("holiday.jpg"));
    assert!(is_supported_image("holiday.JPG"));
    assert!(is_supported_image("scan.TIFF"));
    assert!(is_supported_image("raw.cr2"));
    assert!(is_supported_image("raw.Nef"));
    assert!(is_supported_image("a.b.heic"));
}

#[test]
fn rejects_other_names() {
    assert!(!is_supported_image("notes.txt"));
    assert!(!is_supported_image("archive.tar.gz"));
    assert!(!is_supported_image("noextension"));
    assert!(!is_supported_image(".jpg"));
    assert!(!is_supported_image("photo."));
    assert!(!is_supported_image(""));
}

#[test]
fn splits_stem_and_extension() {
    assert_eq!(split_name("photo.jpg"), ("photo", "jpg"));
    assert_eq!(split_name("archive.tar.gz"), ("archive.tar", "gz"));
    assert_eq!(split_name("noext"), ("noext", ""));
    assert_eq!(split_name(".hidden"), (".hidden", ""));
    assert_eq!(split_name("dotted."), ("dotted", ""));
}

#[test]
fn unconflicted_name_is_unchanged() {
    let existing = owned(&["other.jpg"]);
    assert_eq!(resolve_conflict(&existing, "photo.jpg", 7), "photo.jpg");
    let empty: Vec<String> = Vec::new();
    assert_eq!(resolve_conflict(&empty, "photo.jpg", 7), "photo.jpg");
}

#[test]
fn first_conflict_gets_suffix_one() {
    let existing = owned(&["photo.jpg"]);
    assert_eq!(resolve_conflict(&existing, "photo.jpg", 7), "photo_1.jpg");
}

#[test]
fn second_conflict_gets_suffix_two() {
    let existing = owned(&["photo.jpg", "photo_1.jpg"]);
    assert_eq!(resolve_conflict(&existing, "photo.jpg", 7), "photo_2.jpg");
}

#[test]
fn gaps_in_suffixes_are_reused() {
    let existing = owned(&["photo.jpg", "photo_2.jpg"]);
    assert_eq!(resolve_conflict(&existing, "photo.jpg", 7), "photo_1.jpg");
}

#[test]
fn extensionless_names_get_plain_suffix() {
    let existing = owned(&["notes"]);
    assert_eq!(resolve_conflict(&existing, "notes", 7), "notes_1");
}

#[test]
fn exhausted_probing_falls_back_to_tag() {
    let mut existing = vec!["p.jpg".to_string()];
    for i in 1..10000 {
        existing.push(format!("p_{}.jpg", i));
    }
    assert_eq!(resolve_conflict(&existing, "p.jpg", 1717171717), "p.jpg_1717171717");
}
