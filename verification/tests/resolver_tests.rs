use oxide::resolver::{dir_allowed, file_allowed};

#[test]
fn resolver_filters_the_directory_sample() {
    // a.png: known binary extension; .git: pruned directory; README:
    // denylisted name; main.ext: eligible
    assert!(!file_allowed(b"a.png"));
    assert!(!dir_allowed(b".git"));
    assert!(!file_allowed(b"README"));
    assert!(file_allowed(b"main.ext"));
}

#[test]
fn ordinary_directories_are_entered() {
    assert!(dir_allowed(b"src"));
    assert!(dir_allowed(b".github"));
}

#[test]
fn denylisted_names_and_extensions() {
    assert!(!file_allowed(b"package-lock.json"));
    assert!(!file_allowed(b"style.css"));
    assert!(!file_allowed(b"app.min.map"));
    assert!(!file_allowed(b"font.woff2"));
}

#[test]
fn files_without_an_extension_are_scanned() {
    // only the three denylists exclude a file; having no extension does not
    assert!(file_allowed(b"Makefile"));
    assert!(file_allowed(b".env"));
}

#[test]
fn eligible_source_files() {
    assert!(file_allowed(b"index.html"));
    assert!(file_allowed(b"app.tsx"));
    assert!(file_allowed(b".hidden.html"));
}
