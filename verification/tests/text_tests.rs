use universal_converter::package::{count_file_size, Package, PackageError, MAX_PACKAGE_BYTES};
use universal_converter::paths::{ext_of, file_name_exec, file_stem_or};
use universal_converter::rtf::{rtf_is_readable, rtf_to_text, RtfError};
use universal_converter::text::{dec_string, parse_u64_exec, replace_all_exec, split_exec, trim_exec, words_exec};

fn chars(s: &str) -> Vec<char> {
    s.chars().collect()
}

fn text(v: &[char]) -> String {
    v.iter().collect()
}

#[test]
fn numbers() {
    assert_eq!(text(&dec_string(0)), "0");
    assert_eq!(text(&dec_string(18446744073709551615)), "18446744073709551615");
    assert_eq!(parse_u64_exec(&chars("+42")), Some(42));
    assert_eq!(parse_u64_exec(&chars("18446744073709551616")), None);
    assert_eq!(parse_u64_exec(&chars("")), None);
}

#[test]
fn strings() {
    assert_eq!(text(&trim_exec(&chars("  a b \n"))), "a b");
    assert_eq!(text(&replace_all_exec(&chars("a,b,c"), &chars(","), &chars("--"))), "a--b--c");
    let parts: Vec<String> = split_exec(&chars("a//b"), &chars("/")).iter().map(|p| text(p)).collect();
    assert_eq!(parts, vec!["a", "", "b"]);
    let words: Vec<String> = words_exec(&chars(" x  y\tz ")).iter().map(|p| text(p)).collect();
    assert_eq!(words, vec!["x", "y", "z"]);
}

#[test]
fn paths() {
    assert_eq!(ext_of("/a/b.TXT"), "txt");
    assert_eq!(ext_of("/a/.bashrc"), "");
    assert_eq!(file_stem_or("/a/b.tar.gz", "x"), "b.tar");
    assert_eq!(file_stem_or("/", "x"), "x");
    assert_eq!(file_name_exec(&chars("/a/b/.")).map(|v| text(&v)), Some("b".to_string()));
    assert_eq!(file_name_exec(&chars("/a/..")), None);
}

#[test]
fn package_keeps_order_and_replaces() {
    let mut p = Package::new();
    p.put("b", b"1".to_vec());
    p.put("a", b"2".to_vec());
    p.put("b", b"3".to_vec());
    assert_eq!(p.order, vec!["b".to_string(), "a".to_string()]);
    assert_eq!(p.get("b"), Some(&b"3".to_vec()));
    assert_eq!(p.text("a").as_deref(), Some("2"));
    assert_eq!(p.text("z"), None);
    p.put("bin", vec![0xff, b'x']);
    assert_eq!(p.text("bin").as_deref(), Some("\u{fffd}x"));
}

#[test]
fn rtf_text() {
    let rtf = "{\\rtf1\\ansi{\\fonttbl{\\f0 Arial;}}\\pard Caf\\'e9 \\u233? \\{x\\}\\par Fin}";
    assert!(rtf_is_readable(rtf));
    assert_eq!(rtf_to_text(rtf).unwrap(), "Café é {x}\nFin");
    assert_eq!(rtf_to_text("pas du rtf"), Err(RtfError::MissingHeader));
    assert_eq!(RtfError::MissingHeader.message(), "Fichier RTF invalide (en-tête absent)");
    assert!(rtf_is_readable("pas du rtf"));
    assert!(rtf_is_readable("{\\rtf1 \\'e9é}"));
    assert!(!rtf_is_readable("{\\rtf1 \\'eé}"));
}

#[test]
fn package_size_cap() {
    assert_eq!(count_file_size(0, 10).unwrap(), 10);
    assert_eq!(count_file_size(10, MAX_PACKAGE_BYTES - 10).unwrap(), MAX_PACKAGE_BYTES);
    assert!(matches!(count_file_size(10, MAX_PACKAGE_BYTES - 9), Err(PackageError::TooLarge)));
    assert!(matches!(count_file_size(5, u64::MAX), Err(PackageError::TooLarge)));
    assert_eq!(PackageError::TooLarge.message(), "Document trop volumineux une fois décompressé");
    let _ = Package::new();
}
