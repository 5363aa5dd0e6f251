use universal_converter::subtitles::{
    cue_text, is_timestamp_line_exec, srt_numbers_fit_exec, srt_to_vtt, subtitles_to_text, vtt_to_srt,
    watermark_subtitles, SubtitleError,
};

fn chars(s: &str) -> Vec<char> {
    s.chars().collect()
}

#[test]
fn srt_ajoute_un_cue_et_renumerote() {
    let src = "1\n00:00:01,000 --> 00:00:02,000\nBonjour\n\n2\n00:00:03,000 --> 00:00:04,000\n12\n";
    assert!(srt_numbers_fit_exec(src));
    let out = watermark_subtitles(src, "srt", "© Moi\n\nligne 2", "3", "90", "90").unwrap();
    assert!(out.starts_with("1\n00:00:00,000 --> 99:59:59,999\n{\\an3}© Moi\nligne 2\n\n2\n"), "{out}");
    assert!(out.contains("\n3\n00:00:03,000"), "renumérotation: {out}");
    assert!(out.trim_end().ends_with("\n12"), "texte numérique modifié: {out}");
}

#[test]
fn vtt_insere_apres_l_en_tete() {
    let src = "WEBVTT\nKind: captions\n\n00:01.000 --> 00:02.000\nSalut\n";
    let out = watermark_subtitles(src, "vtt", "WM", "8", "10", "50").unwrap();
    assert!(out.starts_with("WEBVTT\nKind: captions\n\n00:00:00.000 --> 99:59:59.999 line:10% position:50% align:center\nWM\n"), "{out}");
    assert!(out.contains("00:01.000 --> 00:02.000\nSalut"), "{out}");
    assert!(watermark_subtitles("pas du vtt", "vtt", "x", "5", "50", "50").is_err());
}

#[test]
fn watermark_subtitles_errors() {
    assert!(matches!(watermark_subtitles("x", "vtt", "x", "5", "50", "50"), Err(SubtitleError::MissingVttHeader)));
    assert!(matches!(watermark_subtitles("x", "ass", "x", "5", "50", "50"), Err(SubtitleError::Unsupported(e)) if e == "ass"));
}

#[test]
fn cue_number_overflow_is_detected() {
    let src = "18446744073709551615\n00:00:01,000 --> 00:00:02,000\nx\n";
    assert!(!srt_numbers_fit_exec(src));
    assert!(srt_numbers_fit_exec("18446744073709551615\nplain text\n"));
}

#[test]
fn cue_text_drops_blank_lines_and_arrows() {
    let c: String = cue_text(" a --> b \n\n c ").into_iter().collect();
    assert_eq!(c, "a -> b\nc");
    let empty: String = cue_text("  \n ").into_iter().collect();
    assert_eq!(empty, "©");
}

#[test]
fn timestamp_lines() {
    assert!(is_timestamp_line_exec(&chars("00:00:01,000 --> 00:00:02,000")));
    assert!(!is_timestamp_line_exec(&chars("Bonjour")));
}

#[test]
fn srt_vers_vtt() {
    let out = srt_to_vtt("1\n00:00:01,000 --> 00:00:02,500\nSalut\n");
    assert!(out.starts_with("WEBVTT\n\n"), "{out}");
    assert!(out.contains("00:00:01.000 --> 00:00:02.500"), "{out}");
    assert!(out.contains("Salut"));
}

#[test]
fn vtt_vers_srt() {
    let out = vtt_to_srt("WEBVTT\n\n00:00:01.000 --> 00:00:02.500\nSalut\n");
    assert!(out.starts_with("1\n"), "{out}");
    assert!(out.contains("00:00:01,000 --> 00:00:02,500"), "{out}");
    assert!(out.contains("Salut"));
}

#[test]
fn sous_titres_en_texte() {
    let out = subtitles_to_text("1\n00:00:01,000 --> 00:00:02,000\nBonjour\n\n2\n00:00:03,000 --> 00:00:04,000\nAu revoir\n");
    assert!(out.contains("Bonjour"), "{out}");
    assert!(out.contains("Au revoir"), "{out}");
    assert!(!out.contains("-->"), "{out}");
}

#[test]
fn cue_text_replaces_arrows_left_to_right() {
    let c: String = cue_text("x ---> y").into_iter().collect();
    assert_eq!(c, "x --> y");
    let d: String = cue_text("a-->b-->c").into_iter().collect();
    assert_eq!(d, "a->b->c");
}
