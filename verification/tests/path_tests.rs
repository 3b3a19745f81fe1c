use std::path::Path;
use unique_rename::path::{extension, file_name, file_stem, join, parent, with_extension};

fn samples() -> Vec<&'static str> {
    vec![
        "",
        "/",
        "//",
        "///",
        ".",
        "..",
        "...",
        "./",
        "../",
        "./.",
        "/.",
        "/..",
        "/./",
        "a",
        "a/",
        "a//",
        "a/.",
        "a/./",
        "a/..",
        "a/b",
        "a/b/",
        "a//b",
        "a/./b",
        "a/../b",
        "/a",
        "/a/",
        "/a/b",
        "//a",
        "//a//b//",
        "/./a",
        "/a/.",
        "./a",
        "./a/b",
        ".//a",
        "././a",
        "./.a",
        ".a",
        ".a/b",
        ".a.b",
        "..a",
        "a.",
        "a..",
        "a.b",
        "a.b.c",
        "a.b.",
        ".bashrc",
        ".bashrc.bak",
        "README",
        "photo.jpg",
        "photo.JPG",
        "dir/photo.jpg",
        "dir/sub/photo.tar.gz",
        "dir.d/photo",
        "dir.d/photo.jpg/",
        "dir.d/photo.jpg/.",
        "dir.d/photo.jpg/./",
        "dir.d/.hidden",
        "/tmp/x/y.z",
        "/tmp/x/y.z//",
        "a b/c d.e f",
        "d\u{e9}j\u{e0}/vu.\u{e9}t\u{e9}",
        "\u{65e5}\u{672c}/\u{8a9e}.txt",
        "a\\b/c.d",
        "x/.",
        "x/..",
        "x/...",
        "x/.../y",
        "-/-",
        "a/b/c/d/e/f.g",
    ]
}

fn text<'a, T: AsRef<Path> + ?Sized>(part: Option<&'a T>) -> Option<&'a str> {
    part.map(|p| p.as_ref().to_str().unwrap())
}

#[test]
fn file_name_agrees_with_the_standard_library() {
    for path in samples() {
        assert_eq!(file_name(path), text(Path::new(path).file_name()), "{:?}", path);
    }
}

#[test]
fn parent_agrees_with_the_standard_library() {
    for path in samples() {
        let expected = Path::new(path).parent().map(|p| p.to_str().unwrap());
        assert_eq!(parent(path), expected, "{:?}", path);
    }
}

#[test]
fn extension_agrees_with_the_standard_library() {
    for path in samples() {
        assert_eq!(extension(path), text(Path::new(path).extension()), "{:?}", path);
    }
}

#[test]
fn file_stem_agrees_with_the_standard_library() {
    for path in samples() {
        assert_eq!(file_stem(path), text(Path::new(path).file_stem()), "{:?}", path);
    }
}

#[test]
fn join_agrees_with_the_standard_library() {
    for base in samples() {
        for path in samples() {
            let expected = Path::new(base).join(path);
            assert_eq!(join(base, path), expected.to_str().unwrap(), "{:?} {:?}", base, path);
        }
    }
}

#[test]
fn with_extension_agrees_with_the_standard_library() {
    for path in samples() {
        for ext in ["", "txt", "JPG", "tar", "\u{e9}t\u{e9}", "a b"] {
            let expected = Path::new(path).with_extension(ext);
            assert_eq!(
                with_extension(path, ext),
                expected.to_str().unwrap(),
                "{:?} {:?}",
                path,
                ext
            );
        }
    }
}

#[test]
fn file_name_of_plain_paths() {
    assert_eq!(file_name("dir/photo.jpg"), Some("photo.jpg"));
    assert_eq!(file_name("README"), Some("README"));
    assert_eq!(file_name("dir/sub/"), Some("sub"));
    assert_eq!(file_name("dir/.."), None);
    assert_eq!(file_name("/"), None);
    assert_eq!(file_name(""), None);
}

#[test]
fn parent_of_plain_paths() {
    assert_eq!(parent("dir/photo.jpg"), Some("dir"));
    assert_eq!(parent("dir/sub/photo.jpg"), Some("dir/sub"));
    assert_eq!(parent("README"), Some(""));
    assert_eq!(parent("/README"), Some("/"));
    assert_eq!(parent("./README"), Some("."));
    assert_eq!(parent("dir//sub//"), Some("dir"));
    assert_eq!(parent("/"), None);
    assert_eq!(parent(""), None);
}

#[test]
fn extension_of_plain_paths() {
    assert_eq!(extension("dir/photo.jpg"), Some("jpg"));
    assert_eq!(extension("photo.JPG"), Some("JPG"));
    assert_eq!(extension("archive.tar.gz"), Some("gz"));
    assert_eq!(extension("README"), None);
    assert_eq!(extension(".bashrc"), None);
    assert_eq!(extension("name."), Some(""));
    assert_eq!(extension("dir.d/name"), None);
}

#[test]
fn file_stem_of_plain_paths() {
    assert_eq!(file_stem("dir/photo.jpg"), Some("photo"));
    assert_eq!(file_stem("archive.tar.gz"), Some("archive.tar"));
    assert_eq!(file_stem(".bashrc"), Some(".bashrc"));
    assert_eq!(file_stem("README"), Some("README"));
    assert_eq!(file_stem(".."), None);
}

#[test]
fn join_puts_one_separator_between() {
    assert_eq!(join("dir", "name"), "dir/name");
    assert_eq!(join("dir/", "name"), "dir/name");
    assert_eq!(join("", "name"), "name");
    assert_eq!(join("/", "name"), "/name");
    assert_eq!(join("dir", "/name"), "/name");
    assert_eq!(join("dir", ""), "dir/");
}

#[test]
fn with_extension_replaces_adds_and_removes() {
    assert_eq!(with_extension("dir/photo.jpg", "png"), "dir/photo.png");
    assert_eq!(with_extension("dir/photo", "png"), "dir/photo.png");
    assert_eq!(with_extension("dir/photo.jpg", ""), "dir/photo");
    assert_eq!(with_extension("dir/photo.tar.gz", "xz"), "dir/photo.tar.xz");
    assert_eq!(with_extension("dir/photo.jpg/", "png"), "dir/photo.png");
    assert_eq!(with_extension("..", "png"), "..");
    assert_eq!(with_extension("", "png"), "");
}
