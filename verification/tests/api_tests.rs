use image_enhancer::api::{api_result, normalize_separators, upload_extension, upload_path};
use image_enhancer::pipeline::{derived_output_path, output_file_name, ProcessResult};

#[test]
fn output_file_name_inserts_the_tag() {
    assert_eq!(output_file_name("photo", "_restored", "png"), "photo_restored.png");
    assert_eq!(output_file_name("", "_upscaled", ""), "_upscaled.");
}

#[test]
fn derived_output_path_stays_in_the_image_directory() {
    assert_eq!(derived_output_path("uploads/abc.jpg", "_restored"), "uploads/abc_restored.jpg");
    assert_eq!(derived_output_path("photo.jpeg", "_upscaled"), "photo_upscaled.jpeg");
    assert_eq!(derived_output_path("/tmp/a.b.png", "_restored"), "/tmp/a.b_restored.png");
    assert_eq!(derived_output_path("dir/noext", "_restored"), "dir/noext_restored.");
}

#[test]
fn upload_extension_is_the_part_after_the_last_dot() {
    assert_eq!(upload_extension(Some("photo.png")), "png");
    assert_eq!(upload_extension(Some("archive.tar.gz")), "gz");
    assert_eq!(upload_extension(Some("noext")), "noext");
    assert_eq!(upload_extension(Some("trailing.")), "");
    assert_eq!(upload_extension(Some(".hidden")), "hidden");
    assert_eq!(upload_extension(Some("fotografia.jpeg")), "jpeg");
    assert_eq!(upload_extension(None), "jpg");
}

#[test]
fn upload_path_is_under_uploads() {
    assert_eq!(upload_path("123e4567", "png"), "uploads/123e4567.png");
}

#[test]
fn normalize_separators_turns_backslashes_into_slashes() {
    assert_eq!(normalize_separators("uploads\\a\\b_upscaled.png"), "uploads/a/b_upscaled.png");
    assert_eq!(normalize_separators("já/está"), "já/está");
    assert!(!normalize_separators("\\\\x\\").contains('\\'));
}

#[test]
fn api_result_reports_the_upscaled_path() {
    let res = ProcessResult {
        success: true,
        original_path: "uploads\\x.png".to_string(),
        restored_path: Some("uploads\\x_restored.png".to_string()),
        upscaled_path: Some("uploads\\x_upscaled.png".to_string()),
        message: "ok".to_string(),
    };
    let api = api_result(res);
    assert!(api.success);
    assert_eq!(api.original_path, "uploads\\x.png");
    assert_eq!(api.result_path, Some("uploads/x_upscaled.png".to_string()));
    assert_eq!(api.message, "ok");
    let none = api_result(ProcessResult {
        success: false,
        original_path: String::new(),
        restored_path: None,
        upscaled_path: None,
        message: String::new(),
    });
    assert_eq!(none.result_path, None);
}


#[test]
fn law_extension_has_no_dot_scenario() {
    for name in ["a.b.c", "...", "x.", ".y", "plain", "dots.in.the.name.webp"] {
        assert!(!upload_extension(Some(name)).contains('.'), "{}", name);
    }
}

#[test]
fn law_normalized_has_no_backslash_scenario() {
    for path in ["\\", "a\\\\b", "C:\\Users\\x\\y.png", "já\\está"] {
        assert!(!normalize_separators(path).contains('\\'), "{}", path);
    }
}

#[test]
fn law_distinct_ids_give_distinct_paths_scenario() {
    let ids = ["a", "a.b", "a.", "", "550e8400-e29b-41d4-a716-446655440000"];
    let names = [Some("x.png"), Some("b.png"), Some("noext"), None];
    let mut paths = Vec::new();
    for id in ids {
        for name in names {
            paths.push((id, upload_extension(name), upload_path(id, &upload_extension(name))));
        }
    }
    for (id1, ext1, p1) in &paths {
        for (id2, ext2, p2) in &paths {
            if id1 != id2 {
                assert_ne!(p1, p2, "{} {} / {} {}", id1, ext1, id2, ext2);
            }
        }
    }
}
