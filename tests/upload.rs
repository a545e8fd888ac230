use monster_arena::monster::Monster;
use monster_arena::upload::{
    check_upload, check_upload_lowered, file_extension, is_model_file, has_suffix, is_allowed_mime, sanitize_filename, storage_path,
    UploadError, MAX_FILE_SIZE,
};

#[test]
fn sanitize_drops_path_characters() {
    assert_eq!(sanitize_filename("../../etc/passwd"), "....etcpasswd");
    assert_eq!(sanitize_filename("my model_v2-final.glb"), "mymodel_v2-final.glb");
    assert_eq!(sanitize_filename("ドラゴン.glb"), "ドラゴン.glb");
    assert_eq!(sanitize_filename(""), "");
}

#[test]
fn upload_checks() {
    assert_eq!(check_upload("dragon.glb", "text/plain", 10, true), Ok(()));
    assert_eq!(check_upload("DRAGON.GLTF", "", 10, true), Ok(()));
    assert_eq!(check_upload("dragon.bin", "model/gltf-binary", 10, true), Ok(()));
    assert_eq!(
        check_upload("dragon.png", "image/png", 10, true),
        Err(UploadError::InvalidFileType)
    );
    assert_eq!(check_upload("", "model/gltf-binary", 10, true), Err(UploadError::NoFile));
    assert_eq!(
        check_upload("dragon.glb", "", 10, false),
        Err(UploadError::NoMonsterData)
    );
    assert_eq!(
        check_upload("dragon.glb", "", MAX_FILE_SIZE + 1, true),
        Err(UploadError::PayloadTooLarge)
    );
    assert_eq!(check_upload("dragon.glb", "", MAX_FILE_SIZE, true), Ok(()));
}

#[test]
fn mime_and_suffix() {
    assert!(is_allowed_mime("application/octet-stream"));
    assert!(is_allowed_mime("model/gltf+json"));
    assert!(!is_allowed_mime("model/gltf"));
    assert!(has_suffix("a.glb", ".glb"));
    assert!(!has_suffix("glb", ".glb"));
}

#[test]
fn extensions_and_paths() {
    assert_eq!(file_extension("dragon.glb"), Some("glb".to_string()));
    assert_eq!(file_extension("a.b.gltf"), Some("gltf".to_string()));
    assert_eq!(file_extension(".glb"), None);
    assert_eq!(file_extension("dragon"), None);
    assert_eq!(file_extension(".."), None);
    assert_eq!(file_extension("a."), Some("".to_string()));
    assert_eq!(storage_path("id1", "dragon.glb"), "uploads/models/id1.glb");
    assert_eq!(storage_path("id2", "dragon"), "uploads/models/id2.bin");
}

#[test]
fn new_monster_is_unused() {
    let m = Monster::new(
        "id".to_string(),
        "Dragon".to_string(),
        100,
        10,
        5,
        3,
        2,
        4,
        1,
        "large".to_string(),
        "dragon.glb".to_string(),
        "uploads/models/id.glb".to_string(),
        1024,
        "model/gltf-binary".to_string(),
    );
    assert!(!m.is_used);
    assert_eq!(m.max_hp, 100);
    assert_eq!(m.file_path, "uploads/models/id.glb");
    assert!(!m.uploaded_at.is_empty());
}

#[test]
fn checks_on_lowered_name() {
    assert!(is_model_file("a.gltf", "text/plain"));
    assert!(!is_model_file("a.GLB", "text/plain"));
    assert_eq!(check_upload_lowered("a.glb", 5, "", 1, true), Ok(()));
    assert_eq!(
        check_upload_lowered("a.png", 5, "", 1, true),
        Err(UploadError::InvalidFileType)
    );
    assert_eq!(check_upload_lowered("", 0, "", 1, true), Err(UploadError::NoFile));
}

#[test]
fn extension_of_last_segment() {
    assert_eq!(file_extension("dir.v2/dragon.glb"), Some("glb".to_string()));
    assert_eq!(file_extension("dir.v2/dragon"), None);
    assert_eq!(file_extension("a/.glb"), None);
    assert_eq!(file_extension("a/.."), None);
    assert_eq!(file_extension("a/b."), Some("".to_string()));
    assert_eq!(storage_path("id3", "x.y/model.gltf"), "uploads/models/id3.gltf");
    assert_eq!(storage_path("id4", "x.y/"), "uploads/models/id4.bin");
}

#[test]
fn sanitized_names_hold_no_separator() {
    assert_eq!(sanitize_filename("a\\b:c/d.glb"), "abcd.glb");
}
