use universal_converter::docs::{
    body_cuttable_exec, docx_document, epub_chapter, epub_to_html, epub_to_text, epub_xhtml,
    html_to_md, md_docx_paragraphs, md_to_html, md_to_txt, strip_html_tags_exec,
    txt_docx_paragraphs, txt_to_docx, txt_to_epub, txt_to_html, ChapterKind, DocError, DocxPara,
};
use universal_converter::layout::{create_pdf_from_text, extract_text_from_html, html_to_pdf, lines_per_page, md_to_pdf, wrap_text};

fn chars(s: &str) -> Vec<char> {
    s.chars().collect()
}

#[test]
fn txt_becomes_html_paragraphs() {
    let html = txt_to_html("a\nb\n\n<c>", "t&t");
    assert_eq!(
        html,
        "<!DOCTYPE html>\n<html><head><meta charset=\"utf-8\"><title>t&amp;t</title></head><body>\n<p>a<br>\nb</p>\n<p>&lt;c&gt;</p>\n</body></html>\n"
    );
}

#[test]
fn epub_chapters_to_html_and_text() {
    let chapters = vec![
        "<html><head><title>x</title></head><BODY class=\"c\"><p>Un</p></BODY></html>".to_string(),
        "<p>Deux &amp; trois</p>".to_string(),
    ];
    for c in &chapters {
        assert!(body_cuttable_exec(c));
    }
    let html = epub_to_html(&chapters, "livre").unwrap();
    assert!(html.contains("<p>Un</p>\n<hr>\n"), "{html}");
    assert!(html.ends_with("\n<hr>\n</body></html>\n"));
    let text = epub_to_text(&chapters).unwrap();
    assert_eq!(text, "Un\n\n\n\nDeux & trois");
    assert!(matches!(epub_to_text(&vec![]), Err(DocError::EmptyEpub)));
}

#[test]
fn body_tag_closing_after_end_is_detected() {
    assert!(!body_cuttable_exec("<body x=\"</body>\""));
}

#[test]
fn strip_tags_skips_scripts() {
    let out: String = strip_html_tags_exec(&chars("<p>a</p><script>x</script><div>b&lt;</div>")).into_iter().collect();
    assert_eq!(out, "\na\n\nb<\n");
}

#[test]
fn markdown_conversions() {
    assert!(md_to_html("# T\n\n*e*").contains("<body>\n<h1>T</h1>\n<p><em>e</em></p>\n\n</body>"));
    let page = md_to_html("x");
    assert!(page.starts_with("<!DOCTYPE html>\n<html>\n<head><meta charset=\"UTF-8\">"), "{page}");
    assert!(page.ends_with("<p>x</p>\n\n</body>\n</html>"), "{page}");
    assert_eq!(md_to_txt("# Titre\n\nUn `code`\n\n- a\n- b\n"), "Titre\n\nUn code\n\na\nb");
}

#[test]
fn html_to_markdown() {
    let md = html_to_md("<h1>T</h1><p>a <b>b</b></p>").unwrap();
    assert!(md.contains("# T"), "{md}");
    assert!(md.contains("**b**"), "{md}");
}

#[test]
fn docx_paragraphs() {
    let p = txt_docx_paragraphs("a\n\nb");
    assert_eq!(p.len(), 3);
    assert_eq!(p[0].text, "a");
    let m = md_docx_paragraphs("# Titre\n\ntexte");
    assert!(m.iter().any(|q| q.text == "Titre" && q.bold));
    assert!(m.iter().any(|q| q.text == "texte" && !q.bold));
}

#[test]
fn epub_is_a_zip_with_mimetype_first() {
    let bytes = txt_to_epub("Chapitre unique", "c").unwrap();
    assert_eq!(&bytes[..2], b"PK");
    let mut archive = zip::ZipArchive::new(std::io::Cursor::new(bytes)).unwrap();
    assert_eq!(archive.by_index(0).unwrap().name(), "mimetype");
}

#[test]
fn wrapping() {
    assert_eq!(wrap_text("abc def ghi", 7), vec!["abc", "def ghi"]);
    assert_eq!(wrap_text("abcdefghij", 4), vec!["abcd", "efgh", "ij"]);
    assert_eq!(wrap_text("", 4), Vec::<String>::new());
    assert_eq!(lines_per_page(), 52);
}

#[test]
fn pdf_pages() {
    let text: String = (0..60).map(|i| format!("l{i}\n")).collect();
    let pages = create_pdf_from_text(&text);
    assert_eq!(pages.len(), 2);
    assert_eq!(pages[0].len(), 52);
    assert_eq!(pages[1].len(), 8);
    assert_eq!(create_pdf_from_text("").len(), 1);
    assert_eq!(md_to_pdf("# a\n\nb")[0], vec!["a", "", "b"]);
    assert_eq!(html_to_pdf("<p>x</p>")[0], vec!["x"]);
}

#[test]
fn html_text_extraction() {
    let t = extract_text_from_html("<head><title>no</title></head><body><h1>Titre</h1><p>un   deux</p><script>x</script></body>");
    assert_eq!(t, "Titre\nun deux");
}

#[test]
fn doc_error_messages() {
    assert_eq!(DocError::EmptyEpub.message(), "EPUB sans contenu lisible");
    assert_eq!(DocError::HtmlToMarkdown("x".to_string()).message(), "HTML → Markdown: x");
    assert!(matches!(epub_to_text(&vec![]), Err(DocError::EmptyEpub)));
}

#[test]
fn epub_chapter_fixes_what_the_builder_gets() {
    let c = epub_chapter("Mon titre", "<p>corps</p>");
    assert_eq!(c.title, "Mon titre");
    assert_eq!(c.author, "UniversalConverter");
    assert_eq!(c.file, "content.xhtml");
    assert_eq!(c.xhtml, epub_xhtml("Mon titre", "<p>corps</p>"));
    assert!(c.xhtml.contains("<p>corps</p>"));
    assert!(matches!(c.kind, ChapterKind::Text));
}

#[test]
fn docx_document_holds_one_run_per_paragraph() {
    let paras = vec![
        DocxPara { text: "Titre".to_string(), size: Some(36), bold: true },
        DocxPara { text: "a\nb".to_string(), size: None, bold: false },
    ];
    let d = docx_document(&paras);
    let children = &d.document.children;
    assert_eq!(children.len(), 2);
    let texts: Vec<(String, bool, bool)> = children
        .iter()
        .map(|c| match c {
            docx_rs::DocumentChild::Paragraph(p) => {
                assert_eq!(p.children.len(), 1);
                match &p.children[0] {
                    docx_rs::ParagraphChild::Run(r) => {
                        let t: String = r
                            .children
                            .iter()
                            .map(|rc| match rc {
                                docx_rs::RunChild::Text(t) => t.text.clone(),
                                _ => String::new(),
                            })
                            .collect();
                        (t, r.run_property.sz.is_some(), r.run_property.bold.is_some())
                    }
                    _ => panic!("not a run"),
                }
            }
            _ => panic!("not a paragraph"),
        })
        .collect();
    assert_eq!(texts[0], ("Titre".to_string(), true, true));
    assert_eq!(texts[1], ("ab".to_string(), false, false));
}

#[test]
fn txt_docx_is_a_zip() {
    let bytes = txt_to_docx("ligne un\nligne deux").unwrap();
    assert_eq!(&bytes[..2], b"PK");
}
