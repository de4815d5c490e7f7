use jmake::fingerprint::{create_hash, u64_to_hex};
use jmake::packages::{init_pkg_contents, package_to_path, validate_package, PathType};
use jmake::stale::{artifact_path, check_incremental, is_stale};
use jmake::strutil::{file_stem, str_ends_with, str_starts_with};
use jmake::config::{JvmVersion, CONFIG};

fn defaults() -> CONFIG {
    CONFIG {
        pre: Vec::new(),
        bin: "bin".to_string(),
        src: "src".to_string(),
        test: "test".to_string(),
        lib: "lib".to_string(),
        classpath: "bin:lib".to_string(),
        post: Vec::new(),
        comp_flags: String::new(),
        run_args: Vec::new(),
        cache: "cache".to_string(),
        threads: 2,
        jvm_version: JvmVersion::V8,
        jvm_options: Vec::new(),
    }
}

#[test]
fn fingerprint_of_nothing() {
    let files: Vec<Vec<u8>> = Vec::new();
    assert_eq!(create_hash(&files), "cbf29ce484222325");
}

#[test]
fn fingerprint_exact_value() {
    let files = vec![b"hello".to_vec()];
    assert_eq!(create_hash(&files), "6bc4fe25da25b846");
}

#[test]
fn fingerprint_deterministic() {
    let files = vec![b"one".to_vec(), b"two".to_vec()];
    assert_eq!(create_hash(&files), create_hash(&files));
}

#[test]
fn fingerprint_is_order_sensitive() {
    // same contents, reordered files: different artifact names
    let bac = vec![b"bbb".to_vec(), b"aaa".to_vec(), b"ccc".to_vec()];
    let abc = vec![b"aaa".to_vec(), b"bbb".to_vec(), b"ccc".to_vec()];
    assert_eq!(create_hash(&bac), "bee71639c7277b20");
    assert_eq!(create_hash(&abc), "bc099e386311f92");
    assert_ne!(create_hash(&bac), create_hash(&abc));
}

struct Lcg(u64);

impl Lcg {
    fn next(&mut self) -> u64 {
        self.0 = self.0.wrapping_mul(6364136223846793005).wrapping_add(1442695040888963407);
        self.0 >> 33
    }
}

#[test]
fn fingerprint_sensitive_to_single_byte_changes() {
    let base: Vec<u8> = (0u16..512).map(|x| (x % 251) as u8).collect();
    let base_hash = create_hash(&vec![base.clone()]);
    let mut rng = Lcg(42);
    for _ in 0..100 {
        let pos = (rng.next() as usize) % base.len();
        let delta = 1 + (rng.next() as u8) % 254;
        let mut mutated = base.clone();
        mutated[pos] = mutated[pos].wrapping_add(delta);
        assert_ne!(create_hash(&vec![mutated]), base_hash);
    }
}

#[test]
fn hex_formatting() {
    assert_eq!(u64_to_hex(0), "0");
    assert_eq!(u64_to_hex(255), "ff");
    assert_eq!(u64_to_hex(0xcbf29ce484222325), "cbf29ce484222325");
}

#[test]
fn staleness_decisions() {
    // missing artifact: stale
    assert!(is_stale(false, Some(10), Some(20)));
    // source newer than artifact: stale
    assert!(is_stale(true, Some(10), Some(9)));
    // artifact newer than source: not stale
    assert!(!is_stale(true, Some(10), Some(11)));
    // equal times: not stale (the source is not strictly newer)
    assert!(!is_stale(true, Some(10), Some(10)));
    // unreadable times: stale
    assert!(is_stale(true, None, Some(5)));
    assert!(is_stale(true, Some(5), None));
}

#[test]
fn incremental_check_can_be_off() {
    assert!(check_incremental(false, true, Some(10), Some(11)));
    assert!(!check_incremental(true, true, Some(10), Some(11)));
}

#[test]
fn artifact_paths() {
    assert_eq!(artifact_path("src/pkg/Main.java", "src", "bin"), "bin/pkg/Main.class");
    assert_eq!(artifact_path("src/Main.java", "src", "bin"), "bin/Main.class");
    // a file outside the source root keeps its place
    assert_eq!(artifact_path("other/Main.java", "src", "bin"), "other/Main.class");
    // a component without an extension gains one
    assert_eq!(artifact_path("src/Main", "src", "bin"), "bin/Main.class");
}

#[test]
fn package_name_validation() {
    assert!(validate_package(""));
    assert!(validate_package("a.b.c"));
    assert!(!validate_package(".a"));
    assert!(!validate_package("a."));
    assert!(!validate_package("a b"));
    assert!(!validate_package("a..b"));
    assert!(!validate_package("a. b"));
}

#[test]
fn package_paths() {
    let conf = defaults();
    assert_eq!(package_to_path("a.b", PathType::SRC, &conf), "src/a/b");
    assert_eq!(package_to_path("a.b", PathType::CLASS, &conf), "bin/a/b");
    assert_eq!(package_to_path("a.b", PathType::TESTS, &conf), "test/a/b");
    assert_eq!(package_to_path("", PathType::SRC, &conf), "src/");
}

#[test]
fn file_stems() {
    assert_eq!(file_stem("src/Main.java"), "Main");
    assert_eq!(file_stem("Main.java"), "Main");
    assert_eq!(file_stem("a/b.tar.gz"), "b.tar");
    assert_eq!(file_stem("a/.bashrc"), ".bashrc");
    assert_eq!(file_stem("plain"), "plain");
}

#[test]
fn prefix_and_suffix_checks() {
    assert!(str_starts_with("src/Main.java", "src"));
    assert!(!str_starts_with("sr", "src"));
    assert!(str_ends_with("Main.java", ".java"));
    assert!(!str_ends_with("Main.jav", ".java"));
}

#[test]
fn starter_file_contents() {
    let plain = init_pkg_contents("");
    assert!(plain.starts_with("public class Main"));
    let pkg = init_pkg_contents("my.pkg");
    assert!(pkg.starts_with("package my.pkg;\npublic class Main"));
    assert!(pkg.ends_with("}"));
}
