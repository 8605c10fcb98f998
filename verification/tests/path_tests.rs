use fbuilder::paths::{file_name, nth_component, parent};
use fbuilder::utils::{extract_directory, DirError};
use std::path::Path;

#[test]
fn test_extract_directory() {
    assert!(extract_directory("./target", true).is_err());
    assert!(extract_directory("./target/CACHEDIR.TAG", false).is_ok());
}

#[test]
fn extract_directory_values() {
    assert_eq!(extract_directory("./target/CACHEDIR.TAG", false), Ok("./target"));
    assert_eq!(extract_directory("./target", true), Err(DirError::IsADirectory));
    assert_eq!(extract_directory("/", false), Err(DirError::NotFound));
    assert_eq!(extract_directory("", false), Err(DirError::NotFound));
    assert_eq!(extract_directory("file", false), Ok(""));
}

const SAMPLES: [&str; 24] = [
    "", "/", "//", ".", "..", "./", "./.", "a", "a/", "a/b", "a/b/", "a//b", "a/./b", "a/b/.",
    "/foo", "/etc/passwd", "/etc//x/y", "/etc/../x", "./target/CACHEDIR.TAG", "/usr/bin/top",
    "/bin/..", "/usr/bin/.", "../x", ".hidden/a",
];

#[test]
fn parent_as_std() {
    for s in SAMPLES {
        let expected = Path::new(s).parent().map(|p| p.to_str().unwrap());
        assert_eq!(parent(s), expected, "{:?}", s);
    }
}

#[test]
fn file_name_as_std() {
    for s in SAMPLES {
        let expected = Path::new(s).file_name().map(|p| p.to_str().unwrap());
        assert_eq!(file_name(s), expected, "{:?}", s);
    }
    assert_eq!(file_name("/usr/bin/top"), Some("top"));
    assert_eq!(file_name("/bin/.."), None);
}

#[test]
fn nth_component_as_std() {
    for s in SAMPLES {
        for k in 0..5 {
            let expected = Path::new(s)
                .components()
                .nth(k)
                .map(|c| c.as_os_str().to_string_lossy().into_owned());
            assert_eq!(nth_component(s, k), expected, "{:?} {}", s, k);
        }
    }
    assert_eq!(nth_component("/etc/passwd", 2), Some("passwd".to_string()));
    assert_eq!(nth_component("/etc", 2), None);
}
