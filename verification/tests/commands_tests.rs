use universal_converter::commands::{
    check_asset, check_pack_paths, check_split_pages, merge_mode, path_within_exec, MergeMode, check_input_size, check_layers, check_output_request, plan_conversion, validate_output_dir, validate_output_path,
    watermark_output_name, watermark_output_path, watermark_target, CommandError, Route, WatermarkTarget, MAX_FILE_SIZE,
};

#[test]
fn routes() {
    assert_eq!(plan_conversion("png", "jpg").unwrap(), Route::ImageToImage);
    assert_eq!(plan_conversion("png", "pdf").unwrap(), Route::ImageToPdf);
    assert_eq!(plan_conversion("md", "html").unwrap(), Route::MdToHtml);
    assert_eq!(plan_conversion("json", "csv").unwrap(), Route::JsonToCsv);
    assert_eq!(plan_conversion("srt", "vtt").unwrap(), Route::SrtToVtt);
    assert_eq!(plan_conversion("zip", "tgz").unwrap(), Route::Archive);
    assert_eq!(plan_conversion("mp3", "wav").unwrap(), Route::Audio);
    assert!(matches!(plan_conversion("exe", "pdf"), Err(CommandError::Unsupported(e, f)) if e == "exe" && f == "pdf"));
}

#[test]
fn output_directories() {
    assert!(validate_output_dir("/home/u/out").is_ok());
    assert!(matches!(validate_output_dir("\\\\srv\\share"), Err(CommandError::UncDir)));
    assert!(matches!(validate_output_dir("//srv/share"), Err(CommandError::UncDir)));
    assert!(matches!(validate_output_dir("/a/../b"), Err(CommandError::ParentDirInDir)));
    assert!(validate_output_dir("/a/..b/c").is_ok());
}

#[test]
fn output_paths() {
    assert!(validate_output_path("/home/u/x.pdf", Some("/home/u")).is_ok());
    assert!(matches!(validate_output_path("//srv/x.pdf", None), Err(CommandError::UncPath)));
    assert!(matches!(validate_output_path("/a/../x.pdf", None), Err(CommandError::ParentDirInPath)));
    assert!(matches!(
        validate_output_path("C:\\Windows\\x.pdf", Some("C:\\Windows")),
        Err(CommandError::SystemZone(c)) if c == "C:\\Windows"
    ));
}

#[test]
fn output_requests() {
    assert!(check_output_request(None, Some("rapport")).is_ok());
    assert!(matches!(check_output_request(None, Some("a/b")), Err(CommandError::InvalidOutputName)));
    assert!(matches!(check_output_request(None, Some("..x")), Err(CommandError::InvalidOutputName)));
    assert!(matches!(check_output_request(Some("//srv"), Some("a/b")), Err(CommandError::UncDir)));
}

#[test]
fn input_sizes() {
    assert!(check_input_size(MAX_FILE_SIZE).is_ok());
    assert!(matches!(check_input_size(MAX_FILE_SIZE + 1), Err(CommandError::TooLarge(s)) if s == MAX_FILE_SIZE + 1));
}

#[test]
fn watermark_names() {
    assert_eq!(watermark_output_name("/d/photo.png", None), "photo_filigrane");
    assert_eq!(watermark_output_name("/d/photo.png", Some("  ")), "photo_filigrane");
    assert_eq!(watermark_output_name("/d/photo.png", Some("final")), "final");
    assert_eq!(watermark_output_path("/d/photo.png", 10, None, None).unwrap(), "photo_filigrane");
    assert!(matches!(watermark_output_path("/d/p.png", 10, Some("/a/../b"), None), Err(CommandError::ParentDirInDir)));
    assert!(matches!(watermark_output_path("/d/p.png", 10, None, Some("a\\b")), Err(CommandError::InvalidOutputName)));
    assert!(matches!(
        watermark_output_path("/d/p.png", MAX_FILE_SIZE + 5, None, None),
        Err(CommandError::TooLarge(s)) if s == MAX_FILE_SIZE + 5
    ));
}

#[test]
fn watermark_targets() {
    assert_eq!(watermark_target("/d/a.docx", "docx").unwrap(), WatermarkTarget::Document);
    assert_eq!(watermark_target("/d/a.pdf", "pdf").unwrap(), WatermarkTarget::Pdf);
    assert_eq!(watermark_target("/d/a.png", "jpg").unwrap(), WatermarkTarget::Image);
    assert!(matches!(watermark_target("/d/a.docx", "pptx"), Err(CommandError::FormatKept(..))));
    assert!(check_layers(1).is_ok());
    assert!(matches!(check_layers(0), Err(CommandError::NoLayer)));
}

#[test]
fn packing_stays_in_the_work_folder() {
    assert!(path_within_exec("/tmp/w/a.txt", "/tmp/w"));
    assert!(path_within_exec("/tmp/w/./a", "/tmp//w/"));
    assert!(!path_within_exec("/tmp/wx/a", "/tmp/w"));
    assert!(!path_within_exec("tmp/w/a", "/tmp/w"));
    let paths = vec!["a".to_string(), "b".to_string(), "c".to_string()];
    let ok = vec![Some("/tmp/w/a".to_string()), Some("/tmp/w/s/b".to_string()), Some("/tmp/w/c".to_string())];
    assert!(check_pack_paths(&paths, &ok, "/tmp/w").is_ok());
    let bad = vec![Some("/tmp/w/a".to_string()), None, Some("/etc/c".to_string())];
    assert!(matches!(check_pack_paths(&paths, &bad, "/tmp/w"), Err(CommandError::OutsideWorkDir(p)) if p == "b"));
}

#[test]
fn assets_are_whitelisted() {
    assert!(check_asset("/f/police.WOFF2").is_ok());
    assert!(check_asset("/f/doc.pdf").is_ok());
    assert!(matches!(check_asset("/etc/passwd"), Err(CommandError::AssetRefused(e)) if e.is_empty()));
    assert!(matches!(check_asset("/f/a.exe"), Err(CommandError::AssetRefused(e)) if e == "exe"));
}

#[test]
fn split_pages_and_merge_modes() {
    assert!(matches!(check_split_pages(&vec![], 3), Err(CommandError::NoPageSelected)));
    assert!(check_split_pages(&vec![1, 3, 2], 3).is_ok());
    assert!(matches!(check_split_pages(&vec![2, 0, 9], 3), Err(CommandError::PageOutOfRange(0, 3))));
    assert!(matches!(check_split_pages(&vec![2, 9], 3), Err(CommandError::PageOutOfRange(9, 3))));
    assert_eq!(merge_mode("pages").unwrap(), MergeMode::Pages);
    assert_eq!(merge_mode("single").unwrap(), MergeMode::Single);
    assert!(matches!(merge_mode("tout"), Err(CommandError::UnknownMergeMode(m)) if m == "tout"));
}

#[test]
fn command_error_messages() {
    assert_eq!(CommandError::InvalidOutputName.message(), "Nom de sortie invalide : caractères interdits détectés");
    assert_eq!(CommandError::ParentDirInDir.message(), "Répertoire de sortie invalide : séquence '..' interdite");
    assert_eq!(CommandError::UncDir.message(), "Répertoire UNC refusé");
    assert_eq!(
        CommandError::SystemZone("C:\\Windows\\Temp".to_string()).message(),
        "Chemin refusé : écriture interdite dans une zone système protégée (C:\\Windows\\Temp)"
    );
    assert_eq!(
        CommandError::Unsupported("mp3".to_string(), "pdf".to_string()).message(),
        "Conversion .mp3 → pdf non supportée"
    );
    assert_eq!(CommandError::PageOutOfRange(9, 3).message(), "Page 9 hors limites (1–3)");
    // The size is shown as `{:.1}` of the size in MB, ties to the even tenth included.
    for size in [524288001u64, 524550144, 524812288, 600_000_000, 1_073_741_824, 987_654_321_000, 524_340_000] {
        let expected = format!("Fichier trop volumineux ({:.1} MB). Limite : 500 MB.", size as f64 / (1024.0 * 1024.0));
        assert_eq!(CommandError::TooLarge(size).message(), expected);
    }
    assert!(matches!(check_input_size(MAX_FILE_SIZE + 1), Err(e) if e.message().starts_with("Fichier trop volumineux (500.0 MB)")));
}
