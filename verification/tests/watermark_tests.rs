use universal_converter::watermark::{layer_targets, overlay_png_bytes, stamp_plan, Blend, Layer, OverlayError, StampError};

#[test]
fn blend_names_round_trip() {
    for name in [
        "normal", "multiply", "screen", "overlay", "darken", "lighten", "color-dodge", "color-burn", "hard-light",
        "soft-light", "difference", "exclusion",
    ] {
        assert_eq!(Blend::from_str(name).css_name(), name);
    }
    assert_eq!(Blend::from_str("inconnu"), Blend::Normal);
    assert_eq!(Blend::Multiply.pdf_name(), "Multiply");
    assert_eq!(Blend::ColorDodge.pdf_name(), "ColorDodge");
    assert_eq!(Blend::from_str("soft-light").pdf_name(), "SoftLight");
}

#[test]
fn overlay_from_data_url() {
    // "\x89PNG" in base64 is "iVBORw==".
    assert_eq!(overlay_png_bytes("data:image/png;base64, iVBORw== ").unwrap(), vec![0x89, b'P', b'N', b'G']);
    assert_eq!(overlay_png_bytes("iVBORw==").unwrap(), vec![0x89, b'P', b'N', b'G']);
    assert!(matches!(overlay_png_bytes("YWJj"), Err(OverlayError::NotPng)));
    assert!(matches!(overlay_png_bytes("@@@"), Err(OverlayError::Base64(_))));
    assert_eq!(OverlayError::NotPng.message(), "Calque filigrane illisible : PNG attendu");
    assert_eq!(
        OverlayError::Base64("x".to_string()).message(),
        "Calque filigrane illisible (base64): x"
    );
}

#[test]
fn layer_pages() {
    let all = vec![1, 2, 3, 4];
    assert_eq!(layer_targets(&all, &vec![]), vec![1, 2, 3, 4]);
    assert_eq!(layer_targets(&all, &vec![4, 2, 9]), vec![2, 4]);
}

#[test]
fn stamp_plan_per_layer_and_refusal() {
    let layer = |pages: Vec<u32>| Layer { overlay: String::new(), pages };
    let drawable = vec![1, 2, 4];
    let plan = stamp_plan(&drawable, &vec![layer(vec![2, 3]), layer(vec![]), layer(vec![9])]).unwrap();
    assert_eq!(plan, vec![vec![2], vec![1, 2, 4], vec![]]);
    let refused = stamp_plan(&drawable, &vec![layer(vec![3]), layer(vec![5])]);
    assert!(matches!(refused, Err(StampError::NoPageTargeted)));
    assert_eq!(StampError::NoPageTargeted.message(), "Aucune page ciblée par le filigrane");
    assert!(matches!(stamp_plan(&vec![], &vec![layer(vec![])]), Err(StampError::NoPageTargeted)));
}
