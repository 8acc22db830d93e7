use texio::paths::{normalize_tex_path, try_normalize_tex_path};

#[test]
fn test_try_normalize_tex_path() {
    // edge cases
    assert_eq!(try_normalize_tex_path(""), Some("".into()));
    assert_eq!(try_normalize_tex_path("/"), Some("/".into()));
    assert_eq!(try_normalize_tex_path("//"), Some("/".into()));
    assert_eq!(try_normalize_tex_path("."), Some(".".into()));
    assert_eq!(try_normalize_tex_path("./"), Some(".".into()));
    assert_eq!(try_normalize_tex_path(".."), Some("..".into()));
    assert_eq!(try_normalize_tex_path("././/./"), Some(".".into()));
    assert_eq!(try_normalize_tex_path("/././/."), Some("/".into()));

    assert_eq!(
        try_normalize_tex_path("my/path/file.txt"),
        Some("my/path/file.txt".into())
    );
    // preserve spaces
    assert_eq!(
        try_normalize_tex_path("  my/pa  th/file .txt "),
        Some("  my/pa  th/file .txt ".into())
    );
    assert_eq!(
        try_normalize_tex_path("/my/path/file.txt"),
        Some("/my/path/file.txt".into())
    );
    assert_eq!(
        try_normalize_tex_path("./my///path/././file.txt"),
        Some("my/path/file.txt".into())
    );
    assert_eq!(
        try_normalize_tex_path("./../my/../../../file.txt"),
        Some("../../../file.txt".into())
    );
    assert_eq!(
        try_normalize_tex_path("././my//../path/../here/file.txt"),
        Some("here/file.txt".into())
    );
    assert_eq!(
        try_normalize_tex_path("./my/.././/path/../../here//file.txt"),
        Some("../here/file.txt".into())
    );

    assert_eq!(try_normalize_tex_path("/my/../../file.txt"), None);
    assert_eq!(
        try_normalize_tex_path("/my/./.././path//../../file.txt"),
        None
    );
}

#[test]
fn normalize_falls_back_to_original_on_failure() {
    assert_eq!(normalize_tex_path("/my/../../file.txt"), "/my/../../file.txt");
    assert_eq!(
        normalize_tex_path("/my/./.././path//../../file.txt"),
        "/my/./.././path//../../file.txt"
    );
}

#[test]
fn normalize_passes_successful_results_through() {
    assert_eq!(normalize_tex_path("./my///path/././file.txt"), "my/path/file.txt");
    assert_eq!(normalize_tex_path(""), "");
    assert_eq!(normalize_tex_path("//"), "/");
}

#[test]
fn normalize_is_idempotent_on_samples() {
    let samples = [
        "",
        "/",
        "//",
        ".",
        "./",
        "..",
        "  my/pa  th/file .txt ",
        "./../my/../../../file.txt",
        "/my/path/file.txt",
        "a//b/./c/../d",
    ];
    for s in samples {
        if let Some(t) = try_normalize_tex_path(s) {
            assert_eq!(try_normalize_tex_path(&t), Some(t.clone()));
        }
    }
}

#[test]
fn unicode_segments_survive() {
    assert_eq!(
        try_normalize_tex_path("hall\u{f6}chen \u{1f428} welt \u{1f30d}.tex"),
        Some("hall\u{f6}chen \u{1f428} welt \u{1f30d}.tex".into())
    );
    assert_eq!(
        try_normalize_tex_path("./\u{e9}t\u{e9}//.././\u{1f4c1}/x"),
        Some("\u{1f4c1}/x".into())
    );
}

#[test]
fn relative_ascent_accumulates() {
    assert_eq!(try_normalize_tex_path("../.."), Some("../..".into()));
    assert_eq!(try_normalize_tex_path("../x/../.."), Some("../..".into()));
}
