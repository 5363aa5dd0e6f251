use std::io::Read;

use universal_converter::docs::txt_to_docx;
use universal_converter::package::Package;
use universal_converter::rtf::rtf_to_text;
use universal_converter::wmdocs::{
    add_relationship, apply_visual, visual_kind, VisualKind, apply_textual, data_url, docx, docx_safe_exec, ensure_ns, epub, html_with_overlay, odf_page_background,
    odp, open_tag, pptx, rels_of, svg_area, svg_insert, xlsx, SvgArea, WmDocError,
};

fn png() -> Vec<u8> {
    vec![0x89, b'P', b'N', b'G', 0x0d, 0x0a, 0x1a, 0x0a, 1, 2, 3]
}

fn unzip(bytes: &[u8]) -> Package {
    let mut archive = zip::ZipArchive::new(std::io::Cursor::new(bytes)).unwrap();
    let mut pkg = Package::new();
    for i in 0..archive.len() {
        let mut f = archive.by_index(i).unwrap();
        if f.is_dir() {
            continue;
        }
        let mut data = Vec::new();
        f.read_to_end(&mut data).unwrap();
        let name = f.name().to_string();
        pkg.put(&name, data);
    }
    pkg
}

fn pkg_of(files: &[(&str, &str)]) -> Package {
    let mut pkg = Package::new();
    for (n, d) in files {
        pkg.put(n, d.as_bytes().to_vec());
    }
    pkg
}

#[test]
fn open_tag_ne_confond_pas_les_prefixes() {
    let xml = "<w:pgSzX a=\"1\"/><w:pgSz w:w=\"12240\" w:h=\"15840\"/>";
    assert_eq!(open_tag(xml, "<w:pgSz").as_deref(), Some("<w:pgSz w:w=\"12240\" w:h=\"15840\"/>"));
}

#[test]
fn open_tag_absent() {
    assert_eq!(open_tag("<a/><bb/>", "<b"), None);
    assert_eq!(open_tag("<b x=\"1\">", "<b").as_deref(), Some("<b x=\"1\">"));
}

#[test]
fn formats_texte() {
    let xml = apply_textual("<?xml version=\"1.0\"?>\n<r/>", "xml", "© Moi -- 2026").unwrap();
    assert_eq!(xml, "<?xml version=\"1.0\"?>\n<!-- © Moi — 2026 -->\n<r/>");

    let yaml = apply_textual("a: 1\n", "yaml", "WM\nligne").unwrap();
    assert_eq!(yaml, "# WM\n# ligne\na: 1\n");

    let rtf = apply_textual("{\\rtf1\\ansi{\\fonttbl{\\f0 Arial;}}\\pard Bonjour\\par}", "rtf", "Été {x}").unwrap();
    assert!(rtf.contains("\\pard\\qc\\b \\u201?t\\u233? \\{x\\}\\b0\\par\\pard \\pard Bonjour"), "{rtf}");
    assert_eq!(rtf_to_text(&rtf).unwrap().contains("Bonjour"), true);
}

#[test]
fn textual_errors() {
    assert!(matches!(apply_textual("x", "xml", "  \n "), Err(WmDocError::EmptyText)));
    assert!(matches!(apply_textual("x", "pdf", "WM"), Err(WmDocError::TextUnsupported(e)) if e == "pdf"));
    assert!(matches!(apply_textual("pas du rtf", "rtf", "WM"), Err(WmDocError::InvalidRtf)));
}

#[test]
fn svg_et_html_gardent_leur_format() {
    let src = "<svg xmlns=\"http://www.w3.org/2000/svg\" viewBox=\"10 20 300 100\"><rect/></svg>";
    match svg_area(src).unwrap() {
        SvgArea::ViewBox(v) => assert_eq!(v, "10 20 300 100"),
        SvgArea::Size(..) => panic!("viewBox attendu"),
    }
    let img = "<image x=\"10\" y=\"20\" width=\"300\" height=\"100\" style=\"mix-blend-mode:multiply\"/>";
    let svg = svg_insert(src, img).unwrap();
    assert!(svg.contains("x=\"10\" y=\"20\" width=\"300\" height=\"100\"") && svg.contains("mix-blend-mode:multiply"), "{svg}");
    assert!(svg.ends_with("</svg>"));
    let html = html_with_overlay("<html><BODY><p>x</p></BODY></html>", &png(), "overlay");
    assert!(html.contains("<p>x</p><img") && html.ends_with("</BODY></html>"), "{html}");
}

#[test]
fn svg_sans_viewbox_ni_fin() {
    match svg_area("<svg width=\"40\" height=\"30\"></svg>").unwrap() {
        SvgArea::Size(w, h) => {
            assert_eq!(w.as_deref(), Some("40"));
            assert_eq!(h.as_deref(), Some("30"));
        },
        SvgArea::ViewBox(_) => panic!("taille attendue"),
    }
    assert!(matches!(svg_area("<html/>"), Err(WmDocError::NoSvgElement)));
    assert!(matches!(svg_insert("<svg>", "<g/>"), Err(WmDocError::NoSvgEnd)));
}

#[test]
fn html_sans_body_recoit_le_calque_a_la_fin() {
    let html = html_with_overlay("<p>a</p>", &png(), "normal");
    assert!(html.starts_with("<p>a</p><img"), "{html}");
    assert!(html.contains(&data_url(&png())));
}

#[test]
fn data_url_encode_en_base64() {
    assert_eq!(data_url(b"abc"), "data:image/png;base64,YWJj");
    assert_eq!(data_url(b"Ma"), "data:image/png;base64,TWE=");
    assert_eq!(data_url(&[0xff]), "data:image/png;base64,/w==");
    assert_eq!(data_url(&[0xfb, 0xef, 0xbe, 0x00]), "data:image/png;base64,++++AA==");
    assert_eq!(data_url(b""), "data:image/png;base64,");
}

#[test]
fn relation_sur_racine_auto_fermante_retrouvee() {
    let mut pkg = Package::new();
    pkg.put("word/_rels/document.xml.rels", b"<?xml version=\"1.0\"?><Relationships xmlns=\"x\"/>".to_vec());
    let ty = "a \"Target=\"m.png\" b";
    let id1 = add_relationship(&mut pkg, "word/_rels/document.xml.rels", ty, "m.png");
    assert_eq!(id1, "rIdUCWM1");
    let after = pkg.text("word/_rels/document.xml.rels").unwrap();
    assert_eq!(
        after,
        "<?xml version=\"1.0\"?><Relationships xmlns=\"x\"><Relationship Id=\"rIdUCWM1\" Type=\"a \"Target=\"m.png\" b\" Target=\"m.png\"/></Relationships>"
    );
    let id2 = add_relationship(&mut pkg, "word/_rels/document.xml.rels", ty, "m.png");
    assert_eq!(id2, id1);
    assert_eq!(pkg.text("word/_rels/document.xml.rels").unwrap(), after);
}

#[test]
fn rels_of_vise_le_dossier_rels() {
    assert_eq!(rels_of("word/document.xml"), "word/_rels/document.xml.rels");
    assert_eq!(rels_of("a.xml"), "/_rels/a.xml.rels");
}

#[test]
fn ensure_ns_ajoute_une_seule_fois() {
    let xml: Vec<char> = "<p:sld xmlns:p=\"u\"><x/></p:sld>".chars().collect();
    let once = ensure_ns(&xml, "<p:sld", "r", "urn:r");
    let s: String = once.iter().collect();
    assert!(s.starts_with("<p:sld xmlns:r=\"urn:r\""), "{s}");
    let twice = ensure_ns(&once, "<p:sld", "r", "urn:r");
    assert_eq!(twice, once);
}

#[test]
fn docx_garde_son_format_et_son_texte() {
    let bytes = txt_to_docx("Bonjour le monde\nDeuxième ligne").unwrap();
    let mut pkg = unzip(&bytes);
    assert!(docx_safe_exec(&pkg));
    docx(&mut pkg, &png()).unwrap();
    assert_eq!(pkg.get("word/media/ucwm.png"), Some(&png()));
    let doc = pkg.text("word/document.xml").unwrap();
    let hdr = pkg.text("word/headerUCWM.xml").unwrap();
    assert!(doc.contains("Bonjour le monde"), "texte perdu: {doc}");
    assert!(doc.contains("<w:headerReference w:type=\"default\""), "référence d'en-tête absente");
    assert!(hdr.contains("r:embed=\"rIdUCWM1\""), "{hdr}");
    assert!(pkg.text("word/_rels/headerUCWM.xml.rels").unwrap().contains("media/ucwm.png"));
    assert!(pkg.text("[Content_Types].xml").unwrap().contains("headerUCWM.xml"));
}

#[test]
fn docx_sans_document_refuse() {
    let mut pkg = pkg_of(&[("a.txt", "x")]);
    assert!(matches!(docx(&mut pkg, &png()), Err(WmDocError::MissingPart(p)) if p == "word/document.xml"));
}

#[test]
fn xlsx_recoit_une_image_de_fond() {
    let mut pkg = pkg_of(&[
        ("[Content_Types].xml", "<Types xmlns=\"http://schemas.openxmlformats.org/package/2006/content-types\"><Default Extension=\"xml\" ContentType=\"application/xml\"/></Types>"),
        ("xl/workbook.xml", "<workbook/>"),
        ("xl/worksheets/sheet1.xml", "<worksheet><sheetData><row r=\"1\"><c r=\"A1\" t=\"inlineStr\"><is><t>beta</t></is></c></row></sheetData></worksheet>"),
    ]);
    xlsx(&mut pkg, &png()).unwrap();
    let sheet = pkg.text("xl/worksheets/sheet1.xml").unwrap();
    assert!(sheet.contains("<picture r:id="), "{sheet}");
    assert!(sheet.contains("beta"));
    assert_eq!(pkg.get("xl/media/ucwm.png"), Some(&png()));
    assert!(pkg.text("[Content_Types].xml").unwrap().contains("Extension=\"png\""));
}

#[test]
fn pptx_et_odp_restent_lisibles() {
    let mut pkg = pkg_of(&[
        ("[Content_Types].xml", "<?xml version=\"1.0\"?><Types xmlns=\"http://schemas.openxmlformats.org/package/2006/content-types\"><Default Extension=\"xml\" ContentType=\"application/xml\"/></Types>"),
        ("ppt/presentation.xml", "<p:presentation xmlns:p=\"http://schemas.openxmlformats.org/presentationml/2006/main\"><p:sldSz cx=\"9144000\" cy=\"5143500\"/></p:presentation>"),
        ("ppt/slides/slide1.xml", "<p:sld xmlns:a=\"http://schemas.openxmlformats.org/drawingml/2006/main\" xmlns:p=\"http://schemas.openxmlformats.org/presentationml/2006/main\"><p:cSld><p:spTree><p:sp><p:txBody><a:p><a:r><a:t>Diapo un</a:t></a:r></a:p></p:txBody></p:sp></p:spTree></p:cSld></p:sld>"),
    ]);
    pptx(&mut pkg, &png()).unwrap();
    let slide = pkg.text("ppt/slides/slide1.xml").unwrap();
    assert!(slide.contains("Diapo un"), "{slide}");
    assert!(slide.contains("<a:ext cx=\"9144000\" cy=\"5143500\"/>") && slide.contains("xmlns:r="), "{slide}");
    assert!(pkg.text("ppt/slides/_rels/slide1.xml.rels").unwrap().contains("../media/ucwm.png"));
    assert!(pkg.text("[Content_Types].xml").unwrap().contains("Extension=\"png\""));

    let mut opkg = pkg_of(&[
        ("mimetype", "application/vnd.oasis.opendocument.presentation"),
        ("META-INF/manifest.xml", "<manifest:manifest xmlns:manifest=\"urn:oasis:names:tc:opendocument:xmlns:manifest:1.0\"></manifest:manifest>"),
        ("styles.xml", "<office:document-styles xmlns:office=\"urn:oasis:names:tc:opendocument:xmlns:office:1.0\" xmlns:style=\"urn:oasis:names:tc:opendocument:xmlns:style:1.0\" xmlns:fo=\"urn:oasis:names:tc:opendocument:xmlns:xsl-fo-compatible:1.0\"><office:automatic-styles><style:page-layout style:name=\"PM1\"><style:page-layout-properties fo:page-width=\"28cm\" fo:page-height=\"15.75cm\"/></style:page-layout></office:automatic-styles></office:document-styles>"),
        ("content.xml", "<office:document-content xmlns:office=\"urn:oasis:names:tc:opendocument:xmlns:office:1.0\" xmlns:draw=\"urn:oasis:names:tc:opendocument:xmlns:drawing:1.0\" xmlns:text=\"urn:oasis:names:tc:opendocument:xmlns:text:1.0\" xmlns:presentation=\"urn:oasis:names:tc:opendocument:xmlns:presentation:1.0\"><office:body><office:presentation><draw:page draw:name=\"p1\"><draw:frame><draw:text-box><text:p>Diapo ODP</text:p></draw:text-box></draw:frame><presentation:notes><text:p>note</text:p></presentation:notes></draw:page><draw:page draw:name=\"p2\"/></office:presentation></office:body></office:document-content>"),
    ]);
    odp(&mut opkg, &png()).unwrap();
    let content = opkg.text("content.xml").unwrap();
    assert!(content.contains("Diapo ODP"), "{content}");
    assert!(content.contains("</draw:frame><draw:frame draw:name=\"UC Filigrane\""), "cadre avant les notes: {content}");
    assert!(content.contains("svg:width=\"28cm\""), "{content}");
    assert_eq!(content.matches("draw:name=\"UC Filigrane\"").count(), 2, "chaque diapositive, y compris vide: {content}");
    assert!(opkg.text("META-INF/manifest.xml").unwrap().contains("Pictures/ucwm.png"));
    assert_eq!(opkg.order[0], "mimetype");
}

#[test]
fn odt_recoit_un_fond_de_page() {
    let mut pkg = pkg_of(&[
        ("mimetype", "application/vnd.oasis.opendocument.text"),
        ("META-INF/manifest.xml", "<manifest:manifest xmlns:manifest=\"urn:oasis:names:tc:opendocument:xmlns:manifest:1.0\"></manifest:manifest>"),
        ("styles.xml", "<office:document-styles xmlns:office=\"urn:oasis:names:tc:opendocument:xmlns:office:1.0\"><office:styles/></office:document-styles>"),
        ("content.xml", "<office:document-content><office:body><office:text><text:p>Texte ODT</text:p></office:text></office:body></office:document-content>"),
    ]);
    odf_page_background(&mut pkg, &png()).unwrap();
    let styles = pkg.text("styles.xml").unwrap();
    assert!(styles.contains("xlink:href=\"Pictures/ucwm.png\""), "{styles}");
    assert!(styles.contains("<style:master-page style:name=\"Standard\" style:page-layout-name=\"UCWMLayout\"/>"), "{styles}");
    assert!(styles.contains("xmlns:style="), "espace de noms style manquant: {styles}");
    assert!(pkg.text("META-INF/manifest.xml").unwrap().contains("Pictures/ucwm.png"));
}

#[test]
fn epub_chapitres_recoivent_le_fond() {
    let mut pkg = pkg_of(&[
        ("mimetype", "application/epub+zip"),
        ("META-INF/container.xml", "<container><rootfiles><rootfile full-path=\"OEBPS/content.opf\" media-type=\"application/oebps-package+xml\"/></rootfiles></container>"),
        ("OEBPS/content.opf", "<package><manifest><item id=\"c1\" href=\"text/ch1.xhtml\" media-type=\"application/xhtml+xml\"/><item id=\"css\" href=\"s.css\" media-type=\"text/css\"/></manifest></package>"),
        ("OEBPS/text/ch1.xhtml", "<html><head><title>t</title></head><body><p>Chapitre unique</p></body></html>"),
    ]);
    epub(&mut pkg, &png()).unwrap();
    assert_eq!(pkg.get("OEBPS/ucwm.png"), Some(&png()));
    let opf = pkg.text("OEBPS/content.opf").unwrap();
    assert!(opf.contains("<item id=\"uc-filigrane\" href=\"ucwm.png\" media-type=\"image/png\"/></manifest>"), "{opf}");
    let ch = pkg.text("OEBPS/text/ch1.xhtml").unwrap();
    assert!(ch.contains("url(\"../ucwm.png\")"), "{ch}");
    assert!(ch.contains("Chapitre unique"));
    assert_eq!(pkg.order[0], "mimetype", "mimetype doit rester en tête");
}

#[test]
fn epub_sans_chapitre_refuse() {
    let mut pkg = pkg_of(&[
        ("META-INF/container.xml", "<container><rootfile full-path=\"content.opf\"/></container>"),
        ("content.opf", "<package><manifest></manifest></package>"),
    ]);
    assert!(matches!(epub(&mut pkg, &png()), Err(WmDocError::NoXhtmlChapter)));
}

#[test]
fn visual_dispatch() {
    assert_eq!(visual_kind("htm").unwrap(), VisualKind::Html);
    assert_eq!(visual_kind("svg").unwrap(), VisualKind::Svg);
    assert_eq!(visual_kind("ods").unwrap(), VisualKind::Package);
    assert!(matches!(visual_kind("pdf"), Err(WmDocError::VisualUnsupported(e)) if e == "pdf"));
    let mut pkg = pkg_of(&[("a", "b")]);
    assert!(matches!(apply_visual(&mut pkg, "txt", &png()), Err(WmDocError::VisualUnsupported(e)) if e == "txt"));
    assert_eq!(pkg.order.len(), 1);
    assert!(matches!(apply_visual(&mut pkg, "pptx", &png()), Err(WmDocError::MissingPart(_))));
}

#[test]
fn package_write_order() {
    let mut pkg = pkg_of(&[("content.xml", "c"), ("mimetype", "m"), ("Pictures/ucwm.png", "p")]);
    pkg.put("styles.xml", b"s".to_vec());
    let entries = pkg.save_entries();
    assert_eq!(
        entries,
        vec![
            ("mimetype".to_string(), true),
            ("content.xml".to_string(), false),
            ("Pictures/ucwm.png".to_string(), true),
            ("styles.xml".to_string(), false),
        ]
    );
}

#[test]
fn document_error_messages() {
    assert_eq!(WmDocError::MissingPart("word/document.xml".to_string()).message(), "DOCX sans document.xml");
    assert_eq!(WmDocError::MissingPart("META-INF/container.xml".to_string()).message(), "EPUB sans container.xml");
    assert_eq!(WmDocError::MissingOpf("OEBPS/content.opf".to_string()).message(), "EPUB : OEBPS/content.opf absent");
    assert_eq!(WmDocError::InvalidSlide("ppt/slides/slide1.xml".to_string()).message(), "Diapositive invalide: ppt/slides/slide1.xml");
    assert_eq!(WmDocError::TextUnsupported("pdf".to_string()).message(), "Filigrane texte non disponible pour .pdf");
    assert_eq!(WmDocError::NoSlide.message(), "Présentation sans diapositive");
    let mut pkg = Package::new();
    let err = docx(&mut pkg, &png()).unwrap_err();
    assert_eq!(err.message(), "DOCX sans document.xml");
}

#[test]
fn relationship_added_once() {
    let mut pkg = Package::new();
    pkg.put(
        "word/_rels/document.xml.rels",
        b"<Relationships xmlns=\"x\"><Relationship Id=\"rIdUCWM1\" Type=\"a\" Target=\"b.xml\"/></Relationships>".to_vec(),
    );
    let ty = "http://schemas.openxmlformats.org/officeDocument/2006/relationships/image";
    let id1 = add_relationship(&mut pkg, "word/_rels/document.xml.rels", ty, "media/ucwm.png");
    assert_eq!(id1, "rIdUCWM2");
    let after = pkg.text("word/_rels/document.xml.rels").unwrap();
    assert!(after.contains("<Relationship Id=\"rIdUCWM2\" Type=\"http://schemas.openxmlformats.org/officeDocument/2006/relationships/image\" Target=\"media/ucwm.png\"/></Relationships>"));
    let id2 = add_relationship(&mut pkg, "word/_rels/document.xml.rels", ty, "media/ucwm.png");
    assert_eq!(id2, id1);
    assert_eq!(pkg.text("word/_rels/document.xml.rels").unwrap(), after);
    let id3 = add_relationship(&mut pkg, "ppt/slides/_rels/slide1.xml.rels", "t", "../media/ucwm.png");
    assert_eq!(id3, "rIdUCWM1");
}
