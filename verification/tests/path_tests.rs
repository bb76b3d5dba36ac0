use openbim_mmc::path::{collision_key, validate_archive_path};

#[test]
fn rejects_windows_and_unicode_ambiguity() {
    assert!(validate_archive_path("C:/escape").is_err());
    assert_eq!(collision_key("CAFÉ.ifc"), collision_key("cafe\u{301}.ifc"));
}
