//! File names, links and headers.

use std::cell::RefCell;
use std::collections::HashSet;

use mdm::engine::system_proxy;
use mdm::names::{extension, free_name, nth_candidate, part_path, reserve_path, sanitize_filename, sidecar_path, Created, FilePath};
use mdm::url::{content_range_total, filename_from_disposition, filename_from_url, host_of, is_decodable, is_disposition_decodable, percent_decode, unescape};

#[test]
fn sanitize() {
    assert_eq!(sanitize_filename("a<b>c:d.zip"), "a_b_c_d.zip");
    assert_eq!(sanitize_filename("..."), "download");
    assert_eq!(sanitize_filename("ok name.iso"), "ok name.iso");
}

#[test]
fn sanitize_reserved_dos_names() {
    // on Windows these are no files: without a prefix they cannot be created
    assert_eq!(sanitize_filename("CON"), "_CON");
    assert_eq!(sanitize_filename("con.zip"), "_con.zip");
    assert_eq!(sanitize_filename("LPT9.tar.gz"), "_LPT9.tar.gz");
    // like them, but legitimate
    assert_eq!(sanitize_filename("CONSOLE.zip"), "CONSOLE.zip");
    assert_eq!(sanitize_filename("COM10.bin"), "COM10.bin");
}

#[test]
fn sanitizing_twice_changes_nothing() {
    for name in ["CON", " . a/b\\c . ", "..", "\u{7}bell", "nul.txt", "x|y?z*", "é.zip", "COM0", "LPT1"] {
        let once = sanitize_filename(name);
        assert_eq!(sanitize_filename(&once), once);
        assert!(!once.is_empty());
    }
    assert_eq!(sanitize_filename("\u{1f}x"), "_x");
    assert_eq!(sanitize_filename("COM0"), "COM0");
    assert_eq!(sanitize_filename("LPT1"), "_LPT1");
}

fn named(p: FilePath) -> String {
    format!("{}/{}", p.dir, p.name)
}

#[test]
fn candidates_numbered() {
    let p = FilePath::new("/d", "file.zip");
    assert_eq!(named(nth_candidate(&p, 0)), "/d/file.zip");
    assert_eq!(named(nth_candidate(&p, 2)), "/d/file (2).zip");
    assert_eq!(named(nth_candidate(&FilePath::new("/d", "noext"), 1)), "/d/noext (1)");
}

#[test]
fn candidates_keep_extensions_and_differ() {
    assert_eq!(nth_candidate(&FilePath::new("", "a.tar.gz"), 10).name, "a.tar (10).gz");
    assert_eq!(nth_candidate(&FilePath::new("", ".bashrc"), 1).name, ".bashrc (1)");
    assert_eq!(nth_candidate(&FilePath::new("", "dot."), 1).name, "dot (1).");
    for nameless in ["", ".", ".."] {
        assert_eq!(nth_candidate(&FilePath::new("/d", nameless), 0).name, nameless);
        assert_eq!(nth_candidate(&FilePath::new("/d", nameless), 1).name, " (1)");
        assert_eq!(extension(nameless), "");
    }
    assert_eq!(nth_candidate(&FilePath::new("/d", "..."), 1).name, ".. (1).");
    assert_eq!(extension("a.tar.gz"), ".gz");
    assert_eq!(extension(".part"), "");
    let all: HashSet<String> = (0..300).map(|i| nth_candidate(&FilePath::new("", "x (1).y"), i).name).collect();
    assert_eq!(all.len(), 300);
}

#[test]
fn reserve_locks_the_name() {
    let disk: RefCell<HashSet<String>> = RefCell::new(HashSet::new());
    let there = |p: &FilePath| disk.borrow().contains(&p.name);
    let create = |p: &FilePath| {
        if disk.borrow_mut().insert(p.name.clone()) {
            Created::Made
        } else {
            Created::Taken
        }
    };
    let target = FilePath::new("d", "f.zip");
    // the first takes f.zip and claims its part file
    let a = reserve_path(&target, there, create).unwrap();
    assert_eq!(a.name, "f.zip");
    assert!(disk.borrow().contains(&part_path(&a).name));
    // the second cannot have the same name
    let b = reserve_path(&target, there, create).unwrap();
    assert_eq!(b.name, "f (1).zip");
    // a name taken by a real file is stepped over
    disk.borrow_mut().insert("f (2).zip".to_string());
    assert_eq!(reserve_path(&target, there, create).unwrap().name, "f (3).zip");
}

#[test]
fn reserving_fails_loudly() {
    let target = FilePath::new("d", "f.zip");
    let e = reserve_path(&target, |_: &FilePath| true, |_: &FilePath| Created::Made).unwrap_err();
    assert_eq!(e, "troppi file con lo stesso nome in Downloads");
    let e = reserve_path(&target, |_: &FilePath| false, |_: &FilePath| Created::Failed("disco pieno".to_string()))
        .unwrap_err();
    assert_eq!(e, "creazione del file .part: disco pieno");
}

#[test]
fn free_names_are_free() {
    let taken = ["f.zip", "f (1).zip"];
    let free = free_name(&FilePath::new("d", "f.zip"), |p: &FilePath| taken.contains(&p.name.as_str()));
    assert_eq!(free.name, "f (2).zip");
    assert_eq!(free_name(&FilePath::new("d", "g"), |_: &FilePath| false).name, "g");
}

#[test]
fn part_and_sidecar_have_their_names() {
    let part = part_path(&FilePath::new("/d", "f.zip"));
    assert_eq!(named(sidecar_path(&part)), "/d/f.zip.part.mdm.json");
    assert_eq!(named(part), "/d/f.zip.part");
}

#[test]
fn content_range() {
    assert_eq!(content_range_total("bytes 0-0/104857600"), Some(104857600));
    assert_eq!(content_range_total("bytes 0-0/*"), None);
    assert_eq!(content_range_total("bytes 0-0/0"), None);
    assert_eq!(content_range_total(" 7\u{a0}"), Some(7));
    assert_eq!(content_range_total("bytes 0-0/18446744073709551615"), Some(u64::MAX));
    assert_eq!(content_range_total("bytes 0-0/18446744073709551616"), None);
}

#[test]
fn url_names() {
    assert_eq!(filename_from_url("https://x.it/a/file%20v2.zip?tok=1"), "file v2.zip");
    assert_eq!(filename_from_url("https://x.it/"), "x.it");
    assert_eq!(filename_from_url("///"), "download");
    assert_eq!(filename_from_url("https://x.it/a#b/c"), "a");
}

#[test]
fn percent_decoding() {
    assert_eq!(percent_decode("niente"), "niente");
    assert_eq!(percent_decode("%41%62%"), "Ab%");
    assert_eq!(percent_decode("100%zz"), "100%zz");
    assert_eq!(percent_decode("%C3%A8"), "è");
    assert_eq!(percent_decode("%+fx"), "\u{f}x");
    assert_eq!(percent_decode("%ff"), "\u{fffd}");
    assert_eq!(percent_decode("perché"), "perché");
    assert_eq!(unescape(b"%fF%00"), vec![255, 0]);
    // the two bytes behind the sign must not end inside a character
    assert!(!is_decodable("%a€"));
    assert!(is_decodable("%a"));
    assert!(is_decodable("%éa"));
}

#[test]
fn disposition_names() {
    assert_eq!(filename_from_disposition(r#"attachment; filename="a b.zip""#), Some("a b.zip".into()));
    assert_eq!(filename_from_disposition("attachment; filename*=UTF-8''a%20b.zip"), Some("a b.zip".into()));
    // a language is thrown away, not glued to the name
    assert_eq!(
        filename_from_disposition("attachment; filename*=UTF-8'it'relazione%202024.pdf"),
        Some("relazione 2024.pdf".into())
    );
    assert_eq!(filename_from_disposition("attachment; filename*=iso-8859-1'en'file.zip"), Some("file.zip".into()));
    assert_eq!(filename_from_disposition("inline"), None);
    assert_eq!(filename_from_disposition("filename*=a'b"), Some("b".into()));
    assert!(!is_disposition_decodable("filename*=%a€"));
    assert!(is_disposition_decodable("filename=%a€"));
}

#[test]
fn hosts() {
    assert_eq!(host_of("https://a.b.c/x/y?z=1"), "a.b.c");
    assert_eq!(host_of("http://h:8080/f.zip"), "h:8080");
    assert_eq!(host_of("senza/schema"), "senza");
    assert_eq!(host_of("a://b://c"), "b");
}

#[test]
fn proxies() {
    let p = |s: &str| system_proxy(Some(1), Some(s.to_string()));
    assert_eq!(p("h:80"), Some("http://h:80".to_string()));
    assert_eq!(p("socks://h:80"), Some("socks://h:80".to_string()));
    assert_eq!(p("http=a:1;https=b:2"), Some("http://b:2".to_string()));
    assert_eq!(p("ftp=x;http=a:1"), Some("http://a:1".to_string()));
    assert_eq!(p("ftp=x"), None);
    assert_eq!(p(""), None);
    assert_eq!(system_proxy(Some(0), Some("h:80".to_string())), None);
    assert_eq!(system_proxy(None, Some("h:80".to_string())), None);
    assert_eq!(system_proxy(Some(1), None), None);
}
