use universal_converter::archive::{
    archive_input, archive_output, convert_archive, pack_entry_name, sanitize_entry_name, scan_step, ArchiveError,
    ArchiveInput, ArchiveOutput, Entry, EntryHead, Scan, ScanRule, ScanStep, MAX_ENTRIES, MAX_TOTAL_BYTES,
};

fn head(name: &str, is_file: bool, size: u64) -> EntryHead {
    EntryHead { name: name.to_string(), is_file, size }
}

#[test]
fn sanitize_removes_dangerous_segments() {
    assert_eq!(sanitize_entry_name("../../etc/passwd").as_deref(), Some("etc/passwd"));
    assert_eq!(sanitize_entry_name("a\\..\\b\\.\\c.txt").as_deref(), Some("a/b/c.txt"));
    assert_eq!(sanitize_entry_name("/abs//x/").as_deref(), Some("abs/x"));
    assert_eq!(sanitize_entry_name("sous/b.bin").as_deref(), Some("sous/b.bin"));
}

#[test]
fn sanitize_refuses_empty_and_drive_names() {
    assert_eq!(sanitize_entry_name(""), None);
    assert_eq!(sanitize_entry_name("../.."), None);
    assert_eq!(sanitize_entry_name("C:\\Windows\\x"), None);
}

#[test]
fn sanitize_is_idempotent_on_examples() {
    for n in ["../a/./b", "x\\y", "a:b/c", "ok.txt", "//"] {
        if let Some(s) = sanitize_entry_name(n) {
            assert_eq!(sanitize_entry_name(&s), Some(s.clone()));
            assert!(!s.split('/').any(|p| p.is_empty() || p == "." || p == ".."));
        }
    }
}

#[test]
fn scan_skips_folders_and_bad_names() {
    let st = Scan::new();
    let (st, step) = scan_step(ScanRule::CountKept, st, &head("dir/", false, 0));
    assert!(matches!(step, ScanStep::Skip));
    let (st, step) = scan_step(ScanRule::CountKept, st, &head("..", true, 10));
    assert!(matches!(step, ScanStep::Skip));
    let (st, step) = scan_step(ScanRule::CountKept, st, &head("../a.txt", true, 10));
    assert!(matches!(step, ScanStep::Keep(ref n) if n == "a.txt"));
    assert_eq!(st, Scan { seen: 3, kept: 1, total: 10 });
}

#[test]
fn scan_refuses_a_bomb() {
    let st = Scan::new();
    let (st, step) = scan_step(ScanRule::FirstEntries, st, &head("a", true, MAX_TOTAL_BYTES));
    assert!(matches!(step, ScanStep::Keep(_)));
    let (_, step) = scan_step(ScanRule::FirstEntries, st, &head("b", true, 1));
    assert!(matches!(step, ScanStep::TooLarge));
    let (_, step) = scan_step(ScanRule::CountKept, Scan::new(), &head("c", true, u64::MAX));
    assert!(matches!(step, ScanStep::TooLarge));
}

#[test]
fn scan_counts_entries() {
    let full = Scan { seen: MAX_ENTRIES, kept: MAX_ENTRIES, total: 0 };
    let (_, step) = scan_step(ScanRule::CountKept, full, &head("x", true, 1));
    assert!(matches!(step, ScanStep::TooLarge));
    let (same, step) = scan_step(ScanRule::FirstEntries, full, &head("x", true, 1));
    assert!(matches!(step, ScanStep::Stop));
    assert_eq!(same, full);
}

#[test]
fn formats_are_recognized() {
    assert_eq!(archive_input("zip"), Ok(ArchiveInput::Zip));
    assert_eq!(archive_input("gz"), Ok(ArchiveInput::Tgz));
    assert_eq!(archive_input("tgz"), Ok(ArchiveInput::Tgz));
    assert_eq!(archive_input("7z"), Ok(ArchiveInput::SevenZ));
    assert_eq!(archive_input("rar"), Err(ArchiveError::UnsupportedInput("rar".to_string())));
    assert_eq!(archive_output("tar"), Ok(ArchiveOutput::Tar));
    assert_eq!(archive_output("7z"), Err(ArchiveError::UnsupportedOutput("7z".to_string())));
    assert_eq!(ArchiveInput::Zip.scan_rule(), ScanRule::FirstEntries);
    assert_eq!(ArchiveInput::Tar.scan_rule(), ScanRule::CountKept);
}

#[test]
fn convert_needs_entries_then_a_format() {
    assert_eq!(convert_archive(&[], "zip"), Err(ArchiveError::Empty));
    let e = vec![Entry { name: "a.txt".to_string(), data: b"alpha".to_vec() }];
    assert_eq!(convert_archive(&e, "tgz"), Ok(ArchiveOutput::Tgz));
    assert_eq!(convert_archive(&e, "rar"), Err(ArchiveError::UnsupportedOutput("rar".to_string())));
}

#[test]
fn pack_names_are_checked() {
    assert_eq!(pack_entry_name("sous/../b.bin"), Ok("sous/b.bin".to_string()));
    assert_eq!(pack_entry_name(".."), Err(ArchiveError::InvalidName("..".to_string())));
}

#[test]
fn archive_messages() {
    assert_eq!(ArchiveError::Empty.message(), "Archive vide ou entrées toutes invalides");
    assert_eq!(ArchiveError::TooLarge.message(), "Archive trop volumineuse une fois décompressée (> 512 MB)");
    assert_eq!(ArchiveError::UnsupportedOutput("rar".into()).message(), "Format d'archive de sortie non supporté: rar");
    assert_eq!(ArchiveError::UnsupportedInput("rar".into()).message(), "Format d'archive non supporté: rar");
    assert_eq!(ArchiveError::InvalidName("..".into()).message(), "Nom d'entrée invalide : ..");
}
