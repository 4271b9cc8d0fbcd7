use dirsize::path_norm::normalize_path_string;

#[test]
fn normalize_collapses_double_separators() {
    assert_eq!(normalize_path_string("a//b"), "a/b");
    assert_eq!(normalize_path_string("a///b"), "a/b");
}

#[test]
fn normalize_drops_trailing_separator() {
    assert_eq!(normalize_path_string("a/b/"), "a/b");
    assert_eq!(normalize_path_string("a/b//"), "a/b");
}

#[test]
fn normalize_same_key_for_different_spellings() {
    let k1 = normalize_path_string("a//b/");
    let k2 = normalize_path_string("a/b");
    assert_eq!(k1, k2);
}

#[test]
fn normalize_keeps_absolute_paths_absolute() {
    assert_eq!(normalize_path_string("/a//b/"), "/a/b");
    assert_eq!(normalize_path_string("/"), "/");
    assert_eq!(normalize_path_string("//x"), "/x");
}

#[test]
fn normalize_is_purely_syntactic() {
    assert_eq!(normalize_path_string(""), "");
    assert_eq!(normalize_path_string("abc"), "abc");
    // `.` and `..` components are not collapsed
    assert_eq!(normalize_path_string("./a"), "./a");
    assert_eq!(normalize_path_string("a/../b"), "a/../b");
}

#[test]
fn normalize_handles_multibyte_characters() {
    assert_eq!(normalize_path_string("é//ü/"), "é/ü");
    assert_eq!(normalize_path_string("/数//据"), "/数/据");
}
