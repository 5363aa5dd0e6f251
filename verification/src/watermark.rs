//! The watermark layer: blend modes and their CSS and PDF names, the PNG
//! layer carried as base64, the pages a layer goes on, and free resource
//! names in a PDF page.
use vstd::prelude::*;
use base64::engine::general_purpose::STANDARD;
use base64::Engine;
use crate::naming::{distinct_candidates, first_free, lemma_all_taken_impossible};
use crate::text::{chars_of, dec_str, is_lit, lemma_dec_str_injective, occurs_at, push_all, rfind, rfind_exec, string_of, trim, trim_exec};

verus! {

// ── Blend modes ──────────────────────────────────────────────────────────────

/// How the layer mixes with what is under it (W3C compositing modes).
#[derive(PartialEq, Eq, Structural, Clone, Copy, Debug)]
pub enum Blend {
    Normal,
    Multiply,
    Screen,
    Overlay,
    Darken,
    Lighten,
    ColorDodge,
    ColorBurn,
    HardLight,
    SoftLight,
    Difference,
    Exclusion,
}

/// The CSS `mix-blend-mode` name of a mode.
pub open spec fn css_spec(b: Blend) -> Seq<char> {
    match b {
        Blend::Normal => "normal"@,
        Blend::Multiply => "multiply"@,
        Blend::Screen => "screen"@,
        Blend::Overlay => "overlay"@,
        Blend::Darken => "darken"@,
        Blend::Lighten => "lighten"@,
        Blend::ColorDodge => "color-dodge"@,
        Blend::ColorBurn => "color-burn"@,
        Blend::HardLight => "hard-light"@,
        Blend::SoftLight => "soft-light"@,
        Blend::Difference => "difference"@,
        Blend::Exclusion => "exclusion"@,
    }
}

/// The PDF name of a mode (`/BM` of a graphics state).
pub open spec fn pdf_spec(b: Blend) -> Seq<char> {
    match b {
        Blend::Normal => "Normal"@,
        Blend::Multiply => "Multiply"@,
        Blend::Screen => "Screen"@,
        Blend::Overlay => "Overlay"@,
        Blend::Darken => "Darken"@,
        Blend::Lighten => "Lighten"@,
        Blend::ColorDodge => "ColorDodge"@,
        Blend::ColorBurn => "ColorBurn"@,
        Blend::HardLight => "HardLight"@,
        Blend::SoftLight => "SoftLight"@,
        Blend::Difference => "Difference"@,
        Blend::Exclusion => "Exclusion"@,
    }
}

/// The mode a CSS name stands for; anything unknown is `Normal`.
pub open spec fn blend_of(s: Seq<char>) -> Blend {
    if s == "multiply"@ {
        Blend::Multiply
    } else if s == "screen"@ {
        Blend::Screen
    } else if s == "overlay"@ {
        Blend::Overlay
    } else if s == "darken"@ {
        Blend::Darken
    } else if s == "lighten"@ {
        Blend::Lighten
    } else if s == "color-dodge"@ {
        Blend::ColorDodge
    } else if s == "color-burn"@ {
        Blend::ColorBurn
    } else if s == "hard-light"@ {
        Blend::HardLight
    } else if s == "soft-light"@ {
        Blend::SoftLight
    } else if s == "difference"@ {
        Blend::Difference
    } else if s == "exclusion"@ {
        Blend::Exclusion
    } else {
        Blend::Normal
    }
}

impl Blend {
    /// The mode named by a CSS name (`Normal` for any other text).
    pub fn from_str(s: &str) -> (r: Blend)
        ensures
            r == blend_of(s@),
    {
        let c = chars_of(s);
        let c = c.as_slice();
        if is_lit(c, "multiply") {
            Blend::Multiply
        } else if is_lit(c, "screen") {
            Blend::Screen
        } else if is_lit(c, "overlay") {
            Blend::Overlay
        } else if is_lit(c, "darken") {
            Blend::Darken
        } else if is_lit(c, "lighten") {
            Blend::Lighten
        } else if is_lit(c, "color-dodge") {
            Blend::ColorDodge
        } else if is_lit(c, "color-burn") {
            Blend::ColorBurn
        } else if is_lit(c, "hard-light") {
            Blend::HardLight
        } else if is_lit(c, "soft-light") {
            Blend::SoftLight
        } else if is_lit(c, "difference") {
            Blend::Difference
        } else if is_lit(c, "exclusion") {
            Blend::Exclusion
        } else {
            Blend::Normal
        }
    }

    /// The CSS name of the mode (`mix-blend-mode`), for HTML and SVG.
    pub fn css_name(&self) -> (r: &'static str)
        ensures
            r@ == css_spec(*self),
    {
        match self {
            Blend::Normal => "normal",
            Blend::Multiply => "multiply",
            Blend::Screen => "screen",
            Blend::Overlay => "overlay",
            Blend::Darken => "darken",
            Blend::Lighten => "lighten",
            Blend::ColorDodge => "color-dodge",
            Blend::ColorBurn => "color-burn",
            Blend::HardLight => "hard-light",
            Blend::SoftLight => "soft-light",
            Blend::Difference => "difference",
            Blend::Exclusion => "exclusion",
        }
    }

    /// The PDF name of the mode (`/BM` of an ExtGState).
    pub fn pdf_name(&self) -> (r: &'static str)
        ensures
            r@ == pdf_spec(*self),
    {
        match self {
            Blend::Normal => "Normal",
            Blend::Multiply => "Multiply",
            Blend::Screen => "Screen",
            Blend::Overlay => "Overlay",
            Blend::Darken => "Darken",
            Blend::Lighten => "Lighten",
            Blend::ColorDodge => "ColorDodge",
            Blend::ColorBurn => "ColorBurn",
            Blend::HardLight => "HardLight",
            Blend::SoftLight => "SoftLight",
            Blend::Difference => "Difference",
            Blend::Exclusion => "Exclusion",
        }
    }
}

/// Every mode is read back from its CSS name.
pub proof fn lemma_css_name_roundtrip(b: Blend)
    ensures
        blend_of(css_spec(b)) == b,
{
    reveal_strlit("normal");
    reveal_strlit("multiply");
    reveal_strlit("screen");
    reveal_strlit("overlay");
    reveal_strlit("darken");
    reveal_strlit("lighten");
    reveal_strlit("color-dodge");
    reveal_strlit("color-burn");
    reveal_strlit("hard-light");
    reveal_strlit("soft-light");
    reveal_strlit("difference");
    reveal_strlit("exclusion");
    assert("multiply"@[0] == 'm' && "screen"@[0] == 's' && "overlay"@[0] == 'o');
    assert("darken"@[0] == 'd' && "lighten"@[0] == 'l' && "color-dodge"@[0] == 'c');
    assert("color-burn"@[0] == 'c' && "hard-light"@[0] == 'h' && "soft-light"@[0] == 's');
    assert("difference"@[0] == 'd' && "exclusion"@[0] == 'e' && "normal"@[0] == 'n');
    match b {
        Blend::Normal => {
            assert("normal"@.len() != "multiply"@.len());
            assert("normal"@ != "multiply"@);
            assert("normal"@[0] != "screen"@[0]);
            assert("normal"@ != "screen"@);
            assert("normal"@.len() != "overlay"@.len());
            assert("normal"@ != "overlay"@);
            assert("normal"@[0] != "darken"@[0]);
            assert("normal"@ != "darken"@);
            assert("normal"@.len() != "lighten"@.len());
            assert("normal"@ != "lighten"@);
            assert("normal"@.len() != "color-dodge"@.len());
            assert("normal"@ != "color-dodge"@);
            assert("normal"@.len() != "color-burn"@.len());
            assert("normal"@ != "color-burn"@);
            assert("normal"@.len() != "hard-light"@.len());
            assert("normal"@ != "hard-light"@);
            assert("normal"@.len() != "soft-light"@.len());
            assert("normal"@ != "soft-light"@);
            assert("normal"@.len() != "difference"@.len());
            assert("normal"@ != "difference"@);
            assert("normal"@.len() != "exclusion"@.len());
            assert("normal"@ != "exclusion"@);
        },
        Blend::Multiply => {
        },
        Blend::Screen => {
            assert("screen"@.len() != "multiply"@.len());
            assert("screen"@ != "multiply"@);
        },
        Blend::Overlay => {
            assert("overlay"@.len() != "multiply"@.len());
            assert("overlay"@ != "multiply"@);
            assert("overlay"@.len() != "screen"@.len());
            assert("overlay"@ != "screen"@);
        },
        Blend::Darken => {
            assert("darken"@.len() != "multiply"@.len());
            assert("darken"@ != "multiply"@);
            assert("darken"@[0] != "screen"@[0]);
            assert("darken"@ != "screen"@);
            assert("darken"@.len() != "overlay"@.len());
            assert("darken"@ != "overlay"@);
        },
        Blend::Lighten => {
            assert("lighten"@.len() != "multiply"@.len());
            assert("lighten"@ != "multiply"@);
            assert("lighten"@.len() != "screen"@.len());
            assert("lighten"@ != "screen"@);
            assert("lighten"@[0] != "overlay"@[0]);
            assert("lighten"@ != "overlay"@);
            assert("lighten"@.len() != "darken"@.len());
            assert("lighten"@ != "darken"@);
        },
        Blend::ColorDodge => {
            assert("color-dodge"@.len() != "multiply"@.len());
            assert("color-dodge"@ != "multiply"@);
            assert("color-dodge"@.len() != "screen"@.len());
            assert("color-dodge"@ != "screen"@);
            assert("color-dodge"@.len() != "overlay"@.len());
            assert("color-dodge"@ != "overlay"@);
            assert("color-dodge"@.len() != "darken"@.len());
            assert("color-dodge"@ != "darken"@);
            assert("color-dodge"@.len() != "lighten"@.len());
            assert("color-dodge"@ != "lighten"@);
        },
        Blend::ColorBurn => {
            assert("color-burn"@.len() != "multiply"@.len());
            assert("color-burn"@ != "multiply"@);
            assert("color-burn"@.len() != "screen"@.len());
            assert("color-burn"@ != "screen"@);
            assert("color-burn"@.len() != "overlay"@.len());
            assert("color-burn"@ != "overlay"@);
            assert("color-burn"@.len() != "darken"@.len());
            assert("color-burn"@ != "darken"@);
            assert("color-burn"@.len() != "lighten"@.len());
            assert("color-burn"@ != "lighten"@);
            assert("color-burn"@.len() != "color-dodge"@.len());
            assert("color-burn"@ != "color-dodge"@);
        },
        Blend::HardLight => {
            assert("hard-light"@.len() != "multiply"@.len());
            assert("hard-light"@ != "multiply"@);
            assert("hard-light"@.len() != "screen"@.len());
            assert("hard-light"@ != "screen"@);
            assert("hard-light"@.len() != "overlay"@.len());
            assert("hard-light"@ != "overlay"@);
            assert("hard-light"@.len() != "darken"@.len());
            assert("hard-light"@ != "darken"@);
            assert("hard-light"@.len() != "lighten"@.len());
            assert("hard-light"@ != "lighten"@);
            assert("hard-light"@.len() != "color-dodge"@.len());
            assert("hard-light"@ != "color-dodge"@);
            assert("hard-light"@[0] != "color-burn"@[0]);
            assert("hard-light"@ != "color-burn"@);
        },
        Blend::SoftLight => {
            assert("soft-light"@.len() != "multiply"@.len());
            assert("soft-light"@ != "multiply"@);
            assert("soft-light"@.len() != "screen"@.len());
            assert("soft-light"@ != "screen"@);
            assert("soft-light"@.len() != "overlay"@.len());
            assert("soft-light"@ != "overlay"@);
            assert("soft-light"@.len() != "darken"@.len());
            assert("soft-light"@ != "darken"@);
            assert("soft-light"@.len() != "lighten"@.len());
            assert("soft-light"@ != "lighten"@);
            assert("soft-light"@.len() != "color-dodge"@.len());
            assert("soft-light"@ != "color-dodge"@);
            assert("soft-light"@[0] != "color-burn"@[0]);
            assert("soft-light"@ != "color-burn"@);
            assert("soft-light"@[0] != "hard-light"@[0]);
            assert("soft-light"@ != "hard-light"@);
        },
        Blend::Difference => {
            assert("difference"@.len() != "multiply"@.len());
            assert("difference"@ != "multiply"@);
            assert("difference"@.len() != "screen"@.len());
            assert("difference"@ != "screen"@);
            assert("difference"@.len() != "overlay"@.len());
            assert("difference"@ != "overlay"@);
            assert("difference"@.len() != "darken"@.len());
            assert("difference"@ != "darken"@);
            assert("difference"@.len() != "lighten"@.len());
            assert("difference"@ != "lighten"@);
            assert("difference"@.len() != "color-dodge"@.len());
            assert("difference"@ != "color-dodge"@);
            assert("difference"@[0] != "color-burn"@[0]);
            assert("difference"@ != "color-burn"@);
            assert("difference"@[0] != "hard-light"@[0]);
            assert("difference"@ != "hard-light"@);
            assert("difference"@[0] != "soft-light"@[0]);
            assert("difference"@ != "soft-light"@);
        },
        Blend::Exclusion => {
            assert("exclusion"@.len() != "multiply"@.len());
            assert("exclusion"@ != "multiply"@);
            assert("exclusion"@.len() != "screen"@.len());
            assert("exclusion"@ != "screen"@);
            assert("exclusion"@.len() != "overlay"@.len());
            assert("exclusion"@ != "overlay"@);
            assert("exclusion"@.len() != "darken"@.len());
            assert("exclusion"@ != "darken"@);
            assert("exclusion"@.len() != "lighten"@.len());
            assert("exclusion"@ != "lighten"@);
            assert("exclusion"@.len() != "color-dodge"@.len());
            assert("exclusion"@ != "color-dodge"@);
            assert("exclusion"@.len() != "color-burn"@.len());
            assert("exclusion"@ != "color-burn"@);
            assert("exclusion"@.len() != "hard-light"@.len());
            assert("exclusion"@ != "hard-light"@);
            assert("exclusion"@.len() != "soft-light"@.len());
            assert("exclusion"@ != "soft-light"@);
            assert("exclusion"@.len() != "difference"@.len());
            assert("exclusion"@ != "difference"@);
        },
    }
}

/// Distinct modes have distinct PDF names.
pub proof fn lemma_pdf_names_distinct(a: Blend, b: Blend)
    requires
        a != b,
    ensures
        pdf_spec(a) != pdf_spec(b),
{
    reveal_strlit("Normal");
    reveal_strlit("Multiply");
    reveal_strlit("Screen");
    reveal_strlit("Overlay");
    reveal_strlit("Darken");
    reveal_strlit("Lighten");
    reveal_strlit("ColorDodge");
    reveal_strlit("ColorBurn");
    reveal_strlit("HardLight");
    reveal_strlit("SoftLight");
    reveal_strlit("Difference");
    reveal_strlit("Exclusion");
    if pdf_spec(a) == pdf_spec(b) {
        assert(pdf_spec(a).len() == pdf_spec(b).len());
        assert(pdf_spec(a)[0] == pdf_spec(b)[0]);
        assert(pdf_spec(a)[2] == pdf_spec(b)[2]);
        assert(pdf_spec(a)[5] == pdf_spec(b)[5]);
    }
}

// ── The layer ────────────────────────────────────────────────────────────────

/// A reduced preview of an image and the image's real size.
#[derive(Debug)]
pub struct Preview {
    pub data_url: String,
    pub width: u32,
    pub height: u32,
}

/// A layer (PNG, base64) and the 1-based PDF pages it goes on; no page
/// means every page.
#[derive(Debug)]
pub struct Layer {
    pub overlay: String,
    pub pages: Vec<u32>,
}

/// Why a layer was refused.
#[derive(Debug)]
pub enum OverlayError {
    /// The base64 decoder's message.
    Base64(String),
    /// The bytes are not a PNG.
    NotPng,
}

impl OverlayError {
    /// The message shown for the error.
    pub fn message(&self) -> (r: String)
        ensures
            r@ == match *self {
                OverlayError::Base64(m) => "Calque filigrane illisible (base64): "@ + m@,
                OverlayError::NotPng => "Calque filigrane illisible : PNG attendu"@,
            },
    {
        match self {
            OverlayError::Base64(m) => {
                let mut out = chars_of("Calque filigrane illisible (base64): ");
                crate::text::push_str(&mut out, m.as_str());
                string_of(out.as_slice())
            },
            OverlayError::NotPng => String::from_str("Calque filigrane illisible : PNG attendu"),
        }
    }
}

/// What `base64::engine::general_purpose::STANDARD.decode` returns for a
/// text: the bytes, or the text of its error.
pub uninterp spec fn b64_decode(s: Seq<char>) -> Result<Seq<u8>, Seq<char>>;

/// Standard base64 decoding with padding (`STANDARD.decode`). Its result is
/// a function of the text alone.
#[verifier::external_body]
fn base64_decode(s: &str) -> (r: Result<Vec<u8>, String>)
    ensures
        match r {
            Ok(b) => b64_decode(s@) == Ok::<Seq<u8>, Seq<char>>(b@),
            Err(e) => b64_decode(s@) == Err::<Seq<u8>, Seq<char>>(e@),
        },
{
    STANDARD.decode(s).map_err(|e| e.to_string())
}

/// The base64 text of a layer: after the last `base64,` (a `data:` URL), or
/// all of it, trimmed.
pub open spec fn overlay_payload(s: Seq<char>) -> Seq<char> {
    match rfind(s, "base64,"@) {
        Some(i) => trim(s.skip(i + 7)),
        None => trim(s),
    }
}

/// Whether bytes start with the PNG signature `\x89PNG`.
pub open spec fn png_magic(b: Seq<u8>) -> bool {
    b.len() >= 4 && b[0] == 0x89 && b[1] == 0x50 && b[2] == 0x4e && b[3] == 0x47
}

/// The PNG bytes of a layer given in base64, with or without a `data:`
/// prefix (`overlay_png_bytes`).
pub fn overlay_png_bytes(b64: &str) -> (r: Result<Vec<u8>, OverlayError>)
    ensures
        match b64_decode(overlay_payload(b64@)) {
            Err(e) => r matches Err(OverlayError::Base64(m)) && m@ == e,
            Ok(b) => if png_magic(b) {
                r matches Ok(v) && v@ == b
            } else {
                r matches Err(OverlayError::NotPng)
            },
        },
{
    let c = chars_of(b64);
    let key = chars_of("base64,");
    proof {
        reveal_strlit("base64,");
        crate::text::lemma_rfind(c@, key@);
        assert(key@.len() == 7);
    }
    let payload = match rfind_exec(c.as_slice(), key.as_slice()) {
        Some(i) => {
            let rest = crate::text::slice_copy(c.as_slice(), i + 7, c.len());
            assert(rest@ =~= c@.skip(i + 7));
            trim_exec(rest.as_slice())
        },
        None => trim_exec(c.as_slice()),
    };
    let text = string_of(payload.as_slice());
    let bytes = match base64_decode(text.as_str()) {
        Ok(b) => b,
        Err(e) => {
            return Err(OverlayError::Base64(e));
        },
    };
    if bytes.len() >= 4 && bytes[0] == 0x89 && bytes[1] == 0x50 && bytes[2] == 0x4e && bytes[3] == 0x47 {
        Ok(bytes)
    } else {
        Err(OverlayError::NotPng)
    }
}

/// The pages, in order, that a layer goes on: those listed, or all.
pub open spec fn targets_spec(all: Seq<u32>, wanted: Seq<u32>) -> Seq<u32> {
    all.filter(|n: u32| wanted.len() == 0 || wanted.contains(n))
}

/// The document's page numbers (in order) that a layer targets.
pub fn layer_targets(all_pages: &Vec<u32>, wanted: &Vec<u32>) -> (r: Vec<u32>)
    ensures
        r@ == targets_spec(all_pages@, wanted@),
{
    let ghost pred = |n: u32| wanted@.len() == 0 || wanted@.contains(n);
    let mut r: Vec<u32> = Vec::new();
    let mut i: usize = 0;
    assert(all_pages@.take(0).filter(pred) =~= Seq::<u32>::empty()) by {
        reveal(Seq::filter);
    }
    while i < all_pages.len()
        invariant
            i <= all_pages.len(),
            pred == (|n: u32| wanted@.len() == 0 || wanted@.contains(n)),
            r@ == all_pages@.take(i as int).filter(pred),
        decreases all_pages.len() - i,
    {
        let n = all_pages[i];
        let mut hit = wanted.len() == 0;
        let mut k: usize = 0;
        while !hit && k < wanted.len()
            invariant
                k <= wanted.len(),
                pred == (|n: u32| wanted@.len() == 0 || wanted@.contains(n)),
                hit ==> pred(n),
                !hit ==> wanted@.len() > 0 && forall|j: int| 0 <= j < k ==> wanted@[j] != n,
            decreases wanted.len() - k,
        {
            if wanted[k] == n {
                hit = true;
                assert(wanted@.contains(n));
            }
            k += 1;
        }
        proof {
            if !hit {
                assert(!wanted@.contains(n));
            }
            assert(all_pages@.take(i + 1) =~= all_pages@.take(i as int).push(n));
            all_pages@.take(i as int).lemma_filter_push(n, pred);
        }
        if hit {
            r.push(n);
        }
        i += 1;
    }
    assert(all_pages@.take(i as int) =~= all_pages@);
    r
}

/// Why no layer was stamped on a PDF.
#[derive(Debug)]
pub enum StampError {
    /// No targeted page has a visible area to draw on.
    NoPageTargeted,
}

impl StampError {
    pub fn message(&self) -> (r: String)
        ensures
            r@ == "Aucune page ciblée par le filigrane"@,
    {
        String::from_str("Aucune page ciblée par le filigrane")
    }
}

/// For each layer, the pages it is stamped on: the pages it targets among
/// `drawable`, the document's pages (in order) whose visible area is at
/// least one point wide and high. Refused when no page at all gets a layer.
pub fn stamp_plan(drawable: &Vec<u32>, layers: &Vec<Layer>) -> (r: Result<Vec<Vec<u32>>, StampError>)
    ensures
        match r {
            Ok(v) => {
                &&& v@.len() == layers@.len()
                &&& forall|l: int| 0 <= l < v@.len() ==> (#[trigger] v@[l])@ == targets_spec(drawable@, layers@[l].pages@)
                &&& exists|l: int| 0 <= l < layers@.len() && #[trigger] targets_spec(drawable@, layers@[l].pages@).len() > 0
            },
            Err(StampError::NoPageTargeted) => forall|l: int|
                0 <= l < layers@.len() ==> #[trigger] targets_spec(drawable@, layers@[l].pages@).len() == 0,
        },
{
    let mut plan: Vec<Vec<u32>> = Vec::new();
    let mut any = false;
    let mut l: usize = 0;
    while l < layers.len()
        invariant
            l <= layers.len(),
            plan@.len() == l,
            forall|k: int| 0 <= k < l ==> (#[trigger] plan@[k])@ == targets_spec(drawable@, layers@[k].pages@),
            any <==> exists|k: int| 0 <= k < l && #[trigger] targets_spec(drawable@, layers@[k].pages@).len() > 0,
        decreases layers.len() - l,
    {
        let t = layer_targets(drawable, &layers[l].pages);
        if t.len() > 0 {
            any = true;
        }
        plan.push(t);
        l += 1;
    }
    if any {
        Ok(plan)
    } else {
        Err(StampError::NoPageTargeted)
    }
}

/// The name `UCWm<i>` of a layer image in a page's resources.
pub open spec fn xobject_name(i: nat) -> Seq<char> {
    "UCWm"@ + crate::text::dec_str(i)
}

/// The first of `UCWm0` … `UCWm999` not already used, else `UCWmX`.
pub open spec fn free_xobject_spec(existing: Seq<Seq<char>>, i: nat) -> Seq<char>
    decreases 1000 - i,
{
    if i >= 1000 {
        "UCWmX"@
    } else if !existing.contains(xobject_name(i)) {
        xobject_name(i)
    } else {
        free_xobject_spec(existing, i + 1)
    }
}

fn contains_string(v: &Vec<String>, k: &Vec<char>) -> (b: bool)
    ensures
        b == v@.map_values(|s: String| s@).contains(k@),
{
    let ghost vv = v@.map_values(|s: String| s@);
    let mut i: usize = 0;
    while i < v.len()
        invariant
            i <= v.len(),
            vv == v@.map_values(|s: String| s@),
            forall|j: int| 0 <= j < i ==> vv[j] != k@,
        decreases v.len() - i,
    {
        if crate::text::eq_chars(chars_of(v[i].as_str()).as_slice(), k.as_slice()) {
            assert(vv[i as int] == k@);
            return true;
        }
        i += 1;
    }
    false
}

/// A free name for the layer image among a page's existing image names
/// (`free_xobject_name`).
pub fn free_xobject_name(existing: &Vec<String>) -> (r: String)
    ensures
        r@ == free_xobject_spec(existing@.map_values(|s: String| s@), 0),
{
    let ghost ev = existing@.map_values(|s: String| s@);
    let mut i: u64 = 0;
    while i < 1000
        invariant
            i <= 1000,
            ev == existing@.map_values(|s: String| s@),
            free_xobject_spec(ev, i as nat) == free_xobject_spec(ev, 0),
        decreases 1000 - i,
    {
        let mut name = chars_of("UCWm");
        let d = crate::text::dec_string(i);
        push_all(&mut name, d.as_slice());
        if !contains_string(existing, &name) {
            return string_of(name.as_slice());
        }
        i += 1;
    }
    String::from_str("UCWmX")
}

/// The `n`-th name tried for the blend state of a page.
pub open spec fn gs_candidate(n: nat) -> Seq<char> {
    "UCGs"@ + dec_str(n)
}

pub open spec fn gs_candidates() -> spec_fn(nat) -> Seq<char> {
    |n: nat| gs_candidate(n)
}

proof fn lemma_gs_candidates_distinct()
    ensures
        distinct_candidates(gs_candidates()),
{
    reveal_strlit("UCGs");
    let f = gs_candidates();
    assert forall|a: nat, b: nat| #[trigger] f(a) == #[trigger] f(b) implies a == b by {
        if f(a) == f(b) {
            assert(f(a) == "UCGs"@ + dec_str(a));
            assert(f(b) == "UCGs"@ + dec_str(b));
            assert(dec_str(a) =~= f(a).skip(4));
            assert(dec_str(b) =~= f(b).skip(4));
            lemma_dec_str_injective(a, b);
        }
    }
}

/// The name of the blend state added to a page, among the page's existing
/// graphics-state names: the first of `UCGs0`, `UCGs1`, … not taken (the
/// naming step of `register_blend_state`).
pub fn free_gs_name(existing: &Vec<String>) -> (r: String)
    requires
        existing@.len() < usize::MAX,
    ensures
        exists|k: nat| #![trigger gs_candidate(k)]
            first_free(gs_candidates(), existing@.map_values(|s: String| s@), k) && r@ == gs_candidate(k),
{
    let ghost ev = existing@.map_values(|s: String| s@);
    proof {
        reveal_strlit("UCGs");
        lemma_gs_candidates_distinct();
    }
    let mut n: usize = 0;
    loop
        invariant
            n <= ev.len(),
            ev.len() < usize::MAX,
            ev == existing@.map_values(|s: String| s@),
            distinct_candidates(gs_candidates()),
            "UCGs"@.len() == 4,
            forall|j: nat| j < n ==> ev.contains(#[trigger] gs_candidate(j)),
        decreases ev.len() - n,
    {
        let mut name = chars_of("UCGs");
        let d = crate::text::dec_string(n as u64);
        push_all(&mut name, d.as_slice());
        assert(name@ == gs_candidate(n as nat));
        if !contains_string(existing, &name) {
            assert(first_free(gs_candidates(), ev, n as nat));
            return string_of(name.as_slice());
        }
        if n == existing.len() {
            proof {
                assert forall|j: nat| j <= ev.len() implies ev.contains(#[trigger] gs_candidates()(j)) by {
                    assert(gs_candidates()(j) == gs_candidate(j));
                }
                lemma_all_taken_impossible(gs_candidates(), ev);
            }
        }
        n += 1;
    }
}

/// Index of the first entry that already refers to the layer image.
pub open spec fn first_ref(refs: Seq<bool>, i: int) -> Option<int>
    decreases refs.len() - i,
{
    if i < 0 || i >= refs.len() {
        None
    } else if refs[i] {
        Some(i)
    } else {
        first_ref(refs, i + 1)
    }
}

/// The name under which a page's resources show the layer image (the
/// naming step of `register_xobject`): the first existing entry that
/// already refers to it keeps its name, otherwise a free name is taken.
/// `refs_layer[i]` tells whether entry `names[i]` refers to the layer.
pub fn xobject_name_for(names: &Vec<String>, refs_layer: &Vec<bool>) -> (r: String)
    requires
        names@.len() == refs_layer@.len(),
    ensures
        match first_ref(refs_layer@, 0) {
            Some(i) => r@ == names@[i]@,
            None => r@ == free_xobject_spec(names@.map_values(|s: String| s@), 0),
        },
{
    let mut i: usize = 0;
    while i < refs_layer.len()
        invariant
            i <= refs_layer.len(),
            names@.len() == refs_layer@.len(),
            first_ref(refs_layer@, i as int) == first_ref(refs_layer@, 0),
        decreases refs_layer.len() - i,
    {
        if refs_layer[i] {
            return names[i].clone();
        }
        i += 1;
    }
    free_xobject_name(names)
}

} // verus!
