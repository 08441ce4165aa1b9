use makefile_lsp::paths::{forward_slashes, path_to_file_uri};

#[test]
fn forward_slashes_replaces_backslashes() {
    assert_eq!(forward_slashes("a\\b/c\\"), "a/b/c/");
    assert_eq!(forward_slashes("plain"), "plain");
    assert_eq!(forward_slashes(""), "");
    assert_eq!(forward_slashes("é\\ü"), "é/ü");
}

#[test]
fn file_uri_of_absolute_unix_path() {
    assert_eq!(path_to_file_uri("/home/user/project"), "file:///home/user/project");
    assert_eq!(path_to_file_uri("/"), "file:///");
}

#[test]
fn file_uri_of_windows_path() {
    assert_eq!(path_to_file_uri("C:\\work\\proj"), "file:///C:/work/proj");
    assert_eq!(path_to_file_uri("\\\\server\\share"), "file:////server/share");
}

#[test]
fn file_uri_of_relative_path() {
    assert_eq!(path_to_file_uri("proj/sub"), "file:///proj/sub");
    assert_eq!(path_to_file_uri(""), "file:///");
}
