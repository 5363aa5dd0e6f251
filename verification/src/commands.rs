//! Request-level rules of the converter: which route a conversion takes,
//! which output locations and names are refused, and how watermark requests
//! are dispatched.
use vstd::prelude::*;
use crate::paths::{ext_of, ext_of_spec, file_stem, file_stem_or};
use crate::text::{chars_of, split, split_exec, views, join, contains, contains_exec, is_lit, lowercase, matches_at, occurs_at, starts_with, starts_with_at0, to_lowercase, trim, trim_exec};

verus! {

/// How a conversion request is carried out.
#[derive(Clone, Copy, Debug, PartialEq, Eq, Structural)]
pub enum Route {
    ImageToImage,
    ImageToPdf,
    SvgToImage,
    SvgToPdf,
    PdfToTxt,
    PdfToHtml,
    TxtToPdf,
    MdToHtml,
    MdToTxt,
    MdToPdf,
    HtmlToTxt,
    HtmlToPdf,
    DocxToTxt,
    DocxToHtml,
    DocxToPdf,
    PptxToTxt,
    PptxToPdf,
    ExcelToCsv,
    ExcelToJson,
    ExcelToTxt,
    ExcelToPdf,
    CsvToJson,
    CsvToXlsx,
    CsvToTxt,
    CsvToPdf,
    JsonToCsv,
    JsonToTxt,
    JsonToPdf,
    Data,
    CsvToMd,
    CsvToHtml,
    ExcelToYaml,
    ExcelToHtml,
    ExcelToMd,
    PdfToMd,
    PdfToDocx,
    PdfToEpub,
    TxtToHtml,
    TxtToMd,
    TxtToDocx,
    TxtToEpub,
    MdToDocx,
    MdToEpub,
    HtmlToMd,
    HtmlToDocx,
    HtmlToEpub,
    DocxToMd,
    DocxToEpub,
    PptxToMd,
    RtfToTxt,
    RtfToPdf,
    RtfToDocx,
    RtfToHtml,
    EpubToTxt,
    EpubToHtml,
    EpubToMd,
    EpubToPdf,
    SrtToVtt,
    VttToSrt,
    SubtitlesToTxt,
    Archive,
    Audio,
    ExcelToData,
    ToXlsx,
    DataToPdf,
    Documents,
}

pub open spec fn in_raster_in(e: Seq<char>) -> bool {
    e == "png"@
    || e == "jpg"@
    || e == "jpeg"@
    || e == "webp"@
    || e == "bmp"@
    || e == "gif"@
    || e == "tiff"@
    || e == "tif"@
    || e == "tga"@
    || e == "pnm"@
    || e == "ppm"@
    || e == "hdr"@
    || e == "ico"@
    || e == "qoi"@
    || e == "exr"@
    || e == "dds"@
    || e == "ff"@
}

fn is_raster_in(e: &[char]) -> (b: bool)
    ensures
        b == in_raster_in(e@),
{
    is_lit(e, "png")
        || is_lit(e, "jpg")
        || is_lit(e, "jpeg")
        || is_lit(e, "webp")
        || is_lit(e, "bmp")
        || is_lit(e, "gif")
        || is_lit(e, "tiff")
        || is_lit(e, "tif")
        || is_lit(e, "tga")
        || is_lit(e, "pnm")
        || is_lit(e, "ppm")
        || is_lit(e, "hdr")
        || is_lit(e, "ico")
        || is_lit(e, "qoi")
        || is_lit(e, "exr")
        || is_lit(e, "dds")
        || is_lit(e, "ff")
}

pub open spec fn in_raster_out(e: Seq<char>) -> bool {
    e == "png"@
    || e == "jpg"@
    || e == "jpeg"@
    || e == "webp"@
    || e == "bmp"@
    || e == "gif"@
    || e == "tiff"@
    || e == "tga"@
    || e == "ico"@
    || e == "avif"@
    || e == "qoi"@
    || e == "exr"@
    || e == "ppm"@
    || e == "ff"@
}

fn is_raster_out(e: &[char]) -> (b: bool)
    ensures
        b == in_raster_out(e@),
{
    is_lit(e, "png")
        || is_lit(e, "jpg")
        || is_lit(e, "jpeg")
        || is_lit(e, "webp")
        || is_lit(e, "bmp")
        || is_lit(e, "gif")
        || is_lit(e, "tiff")
        || is_lit(e, "tga")
        || is_lit(e, "ico")
        || is_lit(e, "avif")
        || is_lit(e, "qoi")
        || is_lit(e, "exr")
        || is_lit(e, "ppm")
        || is_lit(e, "ff")
}

pub open spec fn in_svg_out(e: Seq<char>) -> bool {
    e == "png"@
    || e == "jpg"@
    || e == "jpeg"@
    || e == "webp"@
    || e == "bmp"@
    || e == "avif"@
    || e == "qoi"@
}

fn is_svg_out(e: &[char]) -> (b: bool)
    ensures
        b == in_svg_out(e@),
{
    is_lit(e, "png")
        || is_lit(e, "jpg")
        || is_lit(e, "jpeg")
        || is_lit(e, "webp")
        || is_lit(e, "bmp")
        || is_lit(e, "avif")
        || is_lit(e, "qoi")
}

pub open spec fn in_markdown(e: Seq<char>) -> bool {
    e == "md"@
    || e == "markdown"@
}

fn is_markdown(e: &[char]) -> (b: bool)
    ensures
        b == in_markdown(e@),
{
    is_lit(e, "md")
        || is_lit(e, "markdown")
}

pub open spec fn in_html(e: Seq<char>) -> bool {
    e == "html"@
    || e == "htm"@
}

fn is_html(e: &[char]) -> (b: bool)
    ensures
        b == in_html(e@),
{
    is_lit(e, "html")
        || is_lit(e, "htm")
}

pub open spec fn in_word(e: Seq<char>) -> bool {
    e == "docx"@
    || e == "doc"@
}

fn is_word(e: &[char]) -> (b: bool)
    ensures
        b == in_word(e@),
{
    is_lit(e, "docx")
        || is_lit(e, "doc")
}

pub open spec fn in_slides(e: Seq<char>) -> bool {
    e == "pptx"@
    || e == "ppt"@
}

fn is_slides(e: &[char]) -> (b: bool)
    ensures
        b == in_slides(e@),
{
    is_lit(e, "pptx")
        || is_lit(e, "ppt")
}

pub open spec fn in_sheet(e: Seq<char>) -> bool {
    e == "xlsx"@
    || e == "xls"@
    || e == "ods"@
}

fn is_sheet(e: &[char]) -> (b: bool)
    ensures
        b == in_sheet(e@),
{
    is_lit(e, "xlsx")
        || is_lit(e, "xls")
        || is_lit(e, "ods")
}

pub open spec fn in_data_in(e: Seq<char>) -> bool {
    e == "json"@
    || e == "yaml"@
    || e == "yml"@
    || e == "toml"@
    || e == "xml"@
    || e == "csv"@
}

fn is_data_in(e: &[char]) -> (b: bool)
    ensures
        b == in_data_in(e@),
{
    is_lit(e, "json")
        || is_lit(e, "yaml")
        || is_lit(e, "yml")
        || is_lit(e, "toml")
        || is_lit(e, "xml")
        || is_lit(e, "csv")
}

pub open spec fn in_data_out(e: Seq<char>) -> bool {
    e == "json"@
    || e == "yaml"@
    || e == "toml"@
    || e == "xml"@
    || e == "csv"@
    || e == "txt"@
}

fn is_data_out(e: &[char]) -> (b: bool)
    ensures
        b == in_data_out(e@),
{
    is_lit(e, "json")
        || is_lit(e, "yaml")
        || is_lit(e, "toml")
        || is_lit(e, "xml")
        || is_lit(e, "csv")
        || is_lit(e, "txt")
}

pub open spec fn in_archive_in(e: Seq<char>) -> bool {
    e == "zip"@
    || e == "tar"@
    || e == "tgz"@
    || e == "gz"@
    || e == "7z"@
}

fn is_archive_in(e: &[char]) -> (b: bool)
    ensures
        b == in_archive_in(e@),
{
    is_lit(e, "zip")
        || is_lit(e, "tar")
        || is_lit(e, "tgz")
        || is_lit(e, "gz")
        || is_lit(e, "7z")
}

pub open spec fn in_archive_out(e: Seq<char>) -> bool {
    e == "zip"@
    || e == "tar"@
    || e == "tgz"@
}

fn is_archive_out(e: &[char]) -> (b: bool)
    ensures
        b == in_archive_out(e@),
{
    is_lit(e, "zip")
        || is_lit(e, "tar")
        || is_lit(e, "tgz")
}

pub open spec fn in_audio_in(e: Seq<char>) -> bool {
    e == "mp3"@
    || e == "ogg"@
    || e == "m4a"@
    || e == "aac"@
    || e == "wav"@
    || e == "flac"@
}

fn is_audio_in(e: &[char]) -> (b: bool)
    ensures
        b == in_audio_in(e@),
{
    is_lit(e, "mp3")
        || is_lit(e, "ogg")
        || is_lit(e, "m4a")
        || is_lit(e, "aac")
        || is_lit(e, "wav")
        || is_lit(e, "flac")
}

pub open spec fn in_audio_out(e: Seq<char>) -> bool {
    e == "wav"@
    || e == "flac"@
}

fn is_audio_out(e: &[char]) -> (b: bool)
    ensures
        b == in_audio_out(e@),
{
    is_lit(e, "wav")
        || is_lit(e, "flac")
}

pub open spec fn in_doc_in(e: Seq<char>) -> bool {
    e == "pdf"@
    || e == "txt"@
    || e == "md"@
    || e == "markdown"@
    || e == "html"@
    || e == "htm"@
    || e == "docx"@
    || e == "doc"@
    || e == "rtf"@
    || e == "epub"@
    || e == "odt"@
    || e == "pptx"@
    || e == "ppt"@
    || e == "odp"@
}

fn is_doc_in(e: &[char]) -> (b: bool)
    ensures
        b == in_doc_in(e@),
{
    is_lit(e, "pdf")
        || is_lit(e, "txt")
        || is_lit(e, "md")
        || is_lit(e, "markdown")
        || is_lit(e, "html")
        || is_lit(e, "htm")
        || is_lit(e, "docx")
        || is_lit(e, "doc")
        || is_lit(e, "rtf")
        || is_lit(e, "epub")
        || is_lit(e, "odt")
        || is_lit(e, "pptx")
        || is_lit(e, "ppt")
        || is_lit(e, "odp")
}

pub open spec fn in_doc_out(e: Seq<char>) -> bool {
    e == "txt"@
    || e == "md"@
    || e == "html"@
    || e == "pdf"@
    || e == "docx"@
    || e == "epub"@
    || e == "rtf"@
    || e == "odt"@
}

fn is_doc_out(e: &[char]) -> (b: bool)
    ensures
        b == in_doc_out(e@),
{
    is_lit(e, "txt")
        || is_lit(e, "md")
        || is_lit(e, "html")
        || is_lit(e, "pdf")
        || is_lit(e, "docx")
        || is_lit(e, "epub")
        || is_lit(e, "rtf")
        || is_lit(e, "odt")
}

pub open spec fn in_subtitles(e: Seq<char>) -> bool {
    e == "srt"@
    || e == "vtt"@
}

fn is_subtitles(e: &[char]) -> (b: bool)
    ensures
        b == in_subtitles(e@),
{
    is_lit(e, "srt")
        || is_lit(e, "vtt")
}

pub open spec fn in_toml_xml(e: Seq<char>) -> bool {
    e == "toml"@
    || e == "xml"@
}

fn is_toml_xml(e: &[char]) -> (b: bool)
    ensures
        b == in_toml_xml(e@),
{
    is_lit(e, "toml")
        || is_lit(e, "xml")
}

pub open spec fn in_xls_ods(e: Seq<char>) -> bool {
    e == "xls"@
    || e == "ods"@
}

fn is_xls_ods(e: &[char]) -> (b: bool)
    ensures
        b == in_xls_ods(e@),
{
    is_lit(e, "xls")
        || is_lit(e, "ods")
}

pub open spec fn in_text_data(e: Seq<char>) -> bool {
    e == "json"@
    || e == "yaml"@
    || e == "yml"@
    || e == "toml"@
    || e == "xml"@
}

fn is_text_data(e: &[char]) -> (b: bool)
    ensures
        b == in_text_data(e@),
{
    is_lit(e, "json")
        || is_lit(e, "yaml")
        || is_lit(e, "yml")
        || is_lit(e, "toml")
        || is_lit(e, "xml")
}

pub open spec fn in_markup_data(e: Seq<char>) -> bool {
    e == "yaml"@
    || e == "yml"@
    || e == "toml"@
    || e == "xml"@
}

fn is_markup_data(e: &[char]) -> (b: bool)
    ensures
        b == in_markup_data(e@),
{
    is_lit(e, "yaml")
        || is_lit(e, "yml")
        || is_lit(e, "toml")
        || is_lit(e, "xml")
}

/// The route that a conversion from extension `ext` to format `fmt` takes, if any.
pub open spec fn route_of(ext: Seq<char>, fmt: Seq<char>) -> Option<Route> {
    if in_raster_in(ext) && in_raster_out(fmt) {
        Some(Route::ImageToImage)
    } else if in_raster_in(ext) && fmt == "pdf"@ {
        Some(Route::ImageToPdf)
    } else if ext == "svg"@ && in_svg_out(fmt) {
        Some(Route::SvgToImage)
    } else if ext == "svg"@ && fmt == "pdf"@ {
        Some(Route::SvgToPdf)
    } else if ext == "pdf"@ && fmt == "txt"@ {
        Some(Route::PdfToTxt)
    } else if ext == "pdf"@ && fmt == "html"@ {
        Some(Route::PdfToHtml)
    } else if ext == "txt"@ && fmt == "pdf"@ {
        Some(Route::TxtToPdf)
    } else if in_markdown(ext) && fmt == "html"@ {
        Some(Route::MdToHtml)
    } else if in_markdown(ext) && fmt == "txt"@ {
        Some(Route::MdToTxt)
    } else if in_markdown(ext) && fmt == "pdf"@ {
        Some(Route::MdToPdf)
    } else if in_html(ext) && fmt == "txt"@ {
        Some(Route::HtmlToTxt)
    } else if in_html(ext) && fmt == "pdf"@ {
        Some(Route::HtmlToPdf)
    } else if in_word(ext) && fmt == "txt"@ {
        Some(Route::DocxToTxt)
    } else if in_word(ext) && fmt == "html"@ {
        Some(Route::DocxToHtml)
    } else if in_word(ext) && fmt == "pdf"@ {
        Some(Route::DocxToPdf)
    } else if in_slides(ext) && fmt == "txt"@ {
        Some(Route::PptxToTxt)
    } else if in_slides(ext) && fmt == "pdf"@ {
        Some(Route::PptxToPdf)
    } else if in_sheet(ext) && fmt == "csv"@ {
        Some(Route::ExcelToCsv)
    } else if in_sheet(ext) && fmt == "json"@ {
        Some(Route::ExcelToJson)
    } else if in_sheet(ext) && fmt == "txt"@ {
        Some(Route::ExcelToTxt)
    } else if in_sheet(ext) && fmt == "pdf"@ {
        Some(Route::ExcelToPdf)
    } else if ext == "csv"@ && fmt == "json"@ {
        Some(Route::CsvToJson)
    } else if ext == "csv"@ && fmt == "xlsx"@ {
        Some(Route::CsvToXlsx)
    } else if ext == "csv"@ && fmt == "txt"@ {
        Some(Route::CsvToTxt)
    } else if ext == "csv"@ && fmt == "pdf"@ {
        Some(Route::CsvToPdf)
    } else if ext == "json"@ && fmt == "csv"@ {
        Some(Route::JsonToCsv)
    } else if ext == "json"@ && fmt == "txt"@ {
        Some(Route::JsonToTxt)
    } else if ext == "json"@ && fmt == "pdf"@ {
        Some(Route::JsonToPdf)
    } else if in_data_in(ext) && in_data_out(fmt) {
        Some(Route::Data)
    } else if ext == "csv"@ && fmt == "md"@ {
        Some(Route::CsvToMd)
    } else if ext == "csv"@ && fmt == "html"@ {
        Some(Route::CsvToHtml)
    } else if in_sheet(ext) && fmt == "yaml"@ {
        Some(Route::ExcelToYaml)
    } else if in_sheet(ext) && fmt == "html"@ {
        Some(Route::ExcelToHtml)
    } else if in_sheet(ext) && fmt == "md"@ {
        Some(Route::ExcelToMd)
    } else if ext == "pdf"@ && fmt == "md"@ {
        Some(Route::PdfToMd)
    } else if ext == "pdf"@ && fmt == "docx"@ {
        Some(Route::PdfToDocx)
    } else if ext == "pdf"@ && fmt == "epub"@ {
        Some(Route::PdfToEpub)
    } else if ext == "txt"@ && fmt == "html"@ {
        Some(Route::TxtToHtml)
    } else if ext == "txt"@ && fmt == "md"@ {
        Some(Route::TxtToMd)
    } else if ext == "txt"@ && fmt == "docx"@ {
        Some(Route::TxtToDocx)
    } else if ext == "txt"@ && fmt == "epub"@ {
        Some(Route::TxtToEpub)
    } else if in_markdown(ext) && fmt == "docx"@ {
        Some(Route::MdToDocx)
    } else if in_markdown(ext) && fmt == "epub"@ {
        Some(Route::MdToEpub)
    } else if in_html(ext) && fmt == "md"@ {
        Some(Route::HtmlToMd)
    } else if in_html(ext) && fmt == "docx"@ {
        Some(Route::HtmlToDocx)
    } else if in_html(ext) && fmt == "epub"@ {
        Some(Route::HtmlToEpub)
    } else if in_word(ext) && fmt == "md"@ {
        Some(Route::DocxToMd)
    } else if in_word(ext) && fmt == "epub"@ {
        Some(Route::DocxToEpub)
    } else if in_slides(ext) && fmt == "md"@ {
        Some(Route::PptxToMd)
    } else if ext == "rtf"@ && fmt == "txt"@ {
        Some(Route::RtfToTxt)
    } else if ext == "rtf"@ && fmt == "pdf"@ {
        Some(Route::RtfToPdf)
    } else if ext == "rtf"@ && fmt == "docx"@ {
        Some(Route::RtfToDocx)
    } else if ext == "rtf"@ && fmt == "html"@ {
        Some(Route::RtfToHtml)
    } else if ext == "epub"@ && fmt == "txt"@ {
        Some(Route::EpubToTxt)
    } else if ext == "epub"@ && fmt == "html"@ {
        Some(Route::EpubToHtml)
    } else if ext == "epub"@ && fmt == "md"@ {
        Some(Route::EpubToMd)
    } else if ext == "epub"@ && fmt == "pdf"@ {
        Some(Route::EpubToPdf)
    } else if ext == "srt"@ && fmt == "vtt"@ {
        Some(Route::SrtToVtt)
    } else if ext == "vtt"@ && fmt == "srt"@ {
        Some(Route::VttToSrt)
    } else if in_subtitles(ext) && fmt == "txt"@ {
        Some(Route::SubtitlesToTxt)
    } else if in_archive_in(ext) && in_archive_out(fmt) {
        Some(Route::Archive)
    } else if in_audio_in(ext) && in_audio_out(fmt) {
        Some(Route::Audio)
    } else if in_sheet(ext) && in_toml_xml(fmt) {
        Some(Route::ExcelToData)
    } else if in_xls_ods(ext) && fmt == "xlsx"@ {
        Some(Route::ToXlsx)
    } else if in_text_data(ext) && fmt == "xlsx"@ {
        Some(Route::ToXlsx)
    } else if in_markup_data(ext) && fmt == "pdf"@ {
        Some(Route::DataToPdf)
    } else if in_doc_in(ext) && in_doc_out(fmt) {
        Some(Route::Documents)
    } else {
        None
    }
}

/// The input extensions a route's reader takes.
pub open spec fn route_reads(r: Route, ext: Seq<char>) -> bool {
    match r {
        Route::ImageToImage | Route::ImageToPdf => in_raster_in(ext),
        Route::SvgToImage | Route::SvgToPdf => ext == "svg"@,
        Route::PdfToTxt | Route::PdfToHtml | Route::PdfToMd | Route::PdfToDocx | Route::PdfToEpub => ext == "pdf"@,
        Route::TxtToPdf | Route::TxtToHtml | Route::TxtToMd | Route::TxtToDocx | Route::TxtToEpub => ext == "txt"@,
        Route::MdToHtml | Route::MdToTxt | Route::MdToPdf | Route::MdToDocx | Route::MdToEpub => in_markdown(ext),
        Route::HtmlToTxt | Route::HtmlToPdf | Route::HtmlToMd | Route::HtmlToDocx | Route::HtmlToEpub => in_html(ext),
        Route::DocxToTxt | Route::DocxToHtml | Route::DocxToPdf | Route::DocxToMd | Route::DocxToEpub => in_word(ext),
        Route::PptxToTxt | Route::PptxToPdf | Route::PptxToMd => in_slides(ext),
        Route::ExcelToCsv | Route::ExcelToJson | Route::ExcelToTxt | Route::ExcelToPdf | Route::ExcelToYaml
        | Route::ExcelToHtml | Route::ExcelToMd | Route::ExcelToData => in_sheet(ext),
        Route::CsvToJson | Route::CsvToXlsx | Route::CsvToTxt | Route::CsvToPdf | Route::CsvToMd | Route::CsvToHtml => ext
            == "csv"@,
        Route::JsonToCsv | Route::JsonToTxt | Route::JsonToPdf => ext == "json"@,
        Route::Data => in_data_in(ext),
        Route::RtfToTxt | Route::RtfToPdf | Route::RtfToDocx | Route::RtfToHtml => ext == "rtf"@,
        Route::EpubToTxt | Route::EpubToHtml | Route::EpubToMd | Route::EpubToPdf => ext == "epub"@,
        Route::SrtToVtt => ext == "srt"@,
        Route::VttToSrt => ext == "vtt"@,
        Route::SubtitlesToTxt => in_subtitles(ext),
        Route::Archive => in_archive_in(ext),
        Route::Audio => in_audio_in(ext),
        Route::ToXlsx => in_xls_ods(ext) || in_text_data(ext),
        Route::DataToPdf => in_markup_data(ext),
        Route::Documents => in_doc_in(ext),
    }
}

/// The output formats a route's writer produces.
pub open spec fn route_writes(r: Route, fmt: Seq<char>) -> bool {
    match r {
        Route::ImageToImage => in_raster_out(fmt),
        Route::SvgToImage => in_svg_out(fmt),
        Route::ImageToPdf | Route::SvgToPdf | Route::TxtToPdf | Route::MdToPdf | Route::HtmlToPdf | Route::DocxToPdf
        | Route::PptxToPdf | Route::ExcelToPdf | Route::CsvToPdf | Route::JsonToPdf | Route::RtfToPdf
        | Route::EpubToPdf | Route::DataToPdf => fmt == "pdf"@,
        Route::PdfToTxt | Route::MdToTxt | Route::HtmlToTxt | Route::DocxToTxt | Route::PptxToTxt | Route::ExcelToTxt
        | Route::CsvToTxt | Route::JsonToTxt | Route::RtfToTxt | Route::EpubToTxt | Route::SubtitlesToTxt => fmt
            == "txt"@,
        Route::PdfToHtml | Route::MdToHtml | Route::DocxToHtml | Route::CsvToHtml | Route::ExcelToHtml
        | Route::TxtToHtml | Route::RtfToHtml | Route::EpubToHtml => fmt == "html"@,
        Route::CsvToMd | Route::ExcelToMd | Route::PdfToMd | Route::TxtToMd | Route::HtmlToMd | Route::DocxToMd
        | Route::PptxToMd | Route::EpubToMd => fmt == "md"@,
        Route::PdfToDocx | Route::TxtToDocx | Route::MdToDocx | Route::HtmlToDocx | Route::RtfToDocx => fmt
            == "docx"@,
        Route::PdfToEpub | Route::TxtToEpub | Route::MdToEpub | Route::HtmlToEpub | Route::DocxToEpub => fmt
            == "epub"@,
        Route::ExcelToCsv | Route::JsonToCsv => fmt == "csv"@,
        Route::ExcelToJson | Route::CsvToJson => fmt == "json"@,
        Route::CsvToXlsx | Route::ToXlsx => fmt == "xlsx"@,
        Route::ExcelToYaml => fmt == "yaml"@,
        Route::SrtToVtt => fmt == "vtt"@,
        Route::VttToSrt => fmt == "srt"@,
        Route::Data => in_data_out(fmt),
        Route::Archive => in_archive_out(fmt),
        Route::Audio => in_audio_out(fmt),
        Route::ExcelToData => in_toml_xml(fmt),
        Route::Documents => in_doc_out(fmt),
    }
}

/// A conversion is never routed to a reader that does not take the input
/// or to a writer that produces another format than the one asked for.
pub proof fn lemma_route_fits(ext: Seq<char>, fmt: Seq<char>)
    ensures
        route_of(ext, fmt) matches Some(r) ==> route_reads(r, ext) && route_writes(r, fmt),
{
}

/// Every pair that some route can serve gets a route.
pub proof fn lemma_route_found(ext: Seq<char>, fmt: Seq<char>, r: Route)
    requires
        route_reads(r, ext),
        route_writes(r, fmt),
    ensures
        route_of(ext, fmt) is Some,
{
}

/// Chooses the conversion route for a lower-cased input extension and output format.
pub fn conversion_route(ext: &[char], fmt: &[char]) -> (r: Option<Route>)
    ensures
        r == route_of(ext@, fmt@),
{
    if is_raster_in(ext) && is_raster_out(fmt) {
        Some(Route::ImageToImage)
    } else if is_raster_in(ext) && is_lit(fmt, "pdf") {
        Some(Route::ImageToPdf)
    } else if is_lit(ext, "svg") && is_svg_out(fmt) {
        Some(Route::SvgToImage)
    } else if is_lit(ext, "svg") && is_lit(fmt, "pdf") {
        Some(Route::SvgToPdf)
    } else if is_lit(ext, "pdf") && is_lit(fmt, "txt") {
        Some(Route::PdfToTxt)
    } else if is_lit(ext, "pdf") && is_lit(fmt, "html") {
        Some(Route::PdfToHtml)
    } else if is_lit(ext, "txt") && is_lit(fmt, "pdf") {
        Some(Route::TxtToPdf)
    } else if is_markdown(ext) && is_lit(fmt, "html") {
        Some(Route::MdToHtml)
    } else if is_markdown(ext) && is_lit(fmt, "txt") {
        Some(Route::MdToTxt)
    } else if is_markdown(ext) && is_lit(fmt, "pdf") {
        Some(Route::MdToPdf)
    } else if is_html(ext) && is_lit(fmt, "txt") {
        Some(Route::HtmlToTxt)
    } else if is_html(ext) && is_lit(fmt, "pdf") {
        Some(Route::HtmlToPdf)
    } else if is_word(ext) && is_lit(fmt, "txt") {
        Some(Route::DocxToTxt)
    } else if is_word(ext) && is_lit(fmt, "html") {
        Some(Route::DocxToHtml)
    } else if is_word(ext) && is_lit(fmt, "pdf") {
        Some(Route::DocxToPdf)
    } else if is_slides(ext) && is_lit(fmt, "txt") {
        Some(Route::PptxToTxt)
    } else if is_slides(ext) && is_lit(fmt, "pdf") {
        Some(Route::PptxToPdf)
    } else if is_sheet(ext) && is_lit(fmt, "csv") {
        Some(Route::ExcelToCsv)
    } else if is_sheet(ext) && is_lit(fmt, "json") {
        Some(Route::ExcelToJson)
    } else if is_sheet(ext) && is_lit(fmt, "txt") {
        Some(Route::ExcelToTxt)
    } else if is_sheet(ext) && is_lit(fmt, "pdf") {
        Some(Route::ExcelToPdf)
    } else if is_lit(ext, "csv") && is_lit(fmt, "json") {
        Some(Route::CsvToJson)
    } else if is_lit(ext, "csv") && is_lit(fmt, "xlsx") {
        Some(Route::CsvToXlsx)
    } else if is_lit(ext, "csv") && is_lit(fmt, "txt") {
        Some(Route::CsvToTxt)
    } else if is_lit(ext, "csv") && is_lit(fmt, "pdf") {
        Some(Route::CsvToPdf)
    } else if is_lit(ext, "json") && is_lit(fmt, "csv") {
        Some(Route::JsonToCsv)
    } else if is_lit(ext, "json") && is_lit(fmt, "txt") {
        Some(Route::JsonToTxt)
    } else if is_lit(ext, "json") && is_lit(fmt, "pdf") {
        Some(Route::JsonToPdf)
    } else if is_data_in(ext) && is_data_out(fmt) {
        Some(Route::Data)
    } else if is_lit(ext, "csv") && is_lit(fmt, "md") {
        Some(Route::CsvToMd)
    } else if is_lit(ext, "csv") && is_lit(fmt, "html") {
        Some(Route::CsvToHtml)
    } else if is_sheet(ext) && is_lit(fmt, "yaml") {
        Some(Route::ExcelToYaml)
    } else if is_sheet(ext) && is_lit(fmt, "html") {
        Some(Route::ExcelToHtml)
    } else if is_sheet(ext) && is_lit(fmt, "md") {
        Some(Route::ExcelToMd)
    } else if is_lit(ext, "pdf") && is_lit(fmt, "md") {
        Some(Route::PdfToMd)
    } else if is_lit(ext, "pdf") && is_lit(fmt, "docx") {
        Some(Route::PdfToDocx)
    } else if is_lit(ext, "pdf") && is_lit(fmt, "epub") {
        Some(Route::PdfToEpub)
    } else if is_lit(ext, "txt") && is_lit(fmt, "html") {
        Some(Route::TxtToHtml)
    } else if is_lit(ext, "txt") && is_lit(fmt, "md") {
        Some(Route::TxtToMd)
    } else if is_lit(ext, "txt") && is_lit(fmt, "docx") {
        Some(Route::TxtToDocx)
    } else if is_lit(ext, "txt") && is_lit(fmt, "epub") {
        Some(Route::TxtToEpub)
    } else if is_markdown(ext) && is_lit(fmt, "docx") {
        Some(Route::MdToDocx)
    } else if is_markdown(ext) && is_lit(fmt, "epub") {
        Some(Route::MdToEpub)
    } else if is_html(ext) && is_lit(fmt, "md") {
        Some(Route::HtmlToMd)
    } else if is_html(ext) && is_lit(fmt, "docx") {
        Some(Route::HtmlToDocx)
    } else if is_html(ext) && is_lit(fmt, "epub") {
        Some(Route::HtmlToEpub)
    } else if is_word(ext) && is_lit(fmt, "md") {
        Some(Route::DocxToMd)
    } else if is_word(ext) && is_lit(fmt, "epub") {
        Some(Route::DocxToEpub)
    } else if is_slides(ext) && is_lit(fmt, "md") {
        Some(Route::PptxToMd)
    } else if is_lit(ext, "rtf") && is_lit(fmt, "txt") {
        Some(Route::RtfToTxt)
    } else if is_lit(ext, "rtf") && is_lit(fmt, "pdf") {
        Some(Route::RtfToPdf)
    } else if is_lit(ext, "rtf") && is_lit(fmt, "docx") {
        Some(Route::RtfToDocx)
    } else if is_lit(ext, "rtf") && is_lit(fmt, "html") {
        Some(Route::RtfToHtml)
    } else if is_lit(ext, "epub") && is_lit(fmt, "txt") {
        Some(Route::EpubToTxt)
    } else if is_lit(ext, "epub") && is_lit(fmt, "html") {
        Some(Route::EpubToHtml)
    } else if is_lit(ext, "epub") && is_lit(fmt, "md") {
        Some(Route::EpubToMd)
    } else if is_lit(ext, "epub") && is_lit(fmt, "pdf") {
        Some(Route::EpubToPdf)
    } else if is_lit(ext, "srt") && is_lit(fmt, "vtt") {
        Some(Route::SrtToVtt)
    } else if is_lit(ext, "vtt") && is_lit(fmt, "srt") {
        Some(Route::VttToSrt)
    } else if is_subtitles(ext) && is_lit(fmt, "txt") {
        Some(Route::SubtitlesToTxt)
    } else if is_archive_in(ext) && is_archive_out(fmt) {
        Some(Route::Archive)
    } else if is_audio_in(ext) && is_audio_out(fmt) {
        Some(Route::Audio)
    } else if is_sheet(ext) && is_toml_xml(fmt) {
        Some(Route::ExcelToData)
    } else if is_xls_ods(ext) && is_lit(fmt, "xlsx") {
        Some(Route::ToXlsx)
    } else if is_text_data(ext) && is_lit(fmt, "xlsx") {
        Some(Route::ToXlsx)
    } else if is_markup_data(ext) && is_lit(fmt, "pdf") {
        Some(Route::DataToPdf)
    } else if is_doc_in(ext) && is_doc_out(fmt) {
        Some(Route::Documents)
    } else {
        None
    }
}

/// Largest input file accepted, in bytes.
pub const MAX_FILE_SIZE: u64 = 524288000;

/// Why a request is refused before any conversion work.
#[derive(Debug)]
pub enum CommandError {
    /// Custom output directory on a network share.
    UncDir,
    /// Custom output directory with a `..` component.
    ParentDirInDir,
    /// Output file on a network share.
    UncPath,
    /// Output file path with a `..` component.
    ParentDirInPath,
    /// Output file inside a protected system directory (the canonical directory).
    SystemZone(String),
    /// Output name with `/`, `\`, `..` or a NUL character.
    InvalidOutputName,
    /// Input larger than [`MAX_FILE_SIZE`] (its size in bytes).
    TooLarge(u64),
    /// No conversion route from this extension to this format.
    Unsupported(String, String),
    /// A watermark request without any layer.
    NoLayer,
    /// A document watermark asked to change the document's format.
    FormatKept(String, String),
    /// A file outside the working folder given to pack (its path).
    OutsideWorkDir(String),
    /// A file type that is not served as a watermark asset (its extension).
    AssetRefused(String),
    /// A split asked for no page.
    NoPageSelected,
    /// A split asked for a page outside `1..=total` (the page, the total).
    PageOutOfRange(u32, u32),
    /// A merge mode other than `pages` and `single`.
    UnknownMergeMode(String),
}

/// Path on a network share (`\\server\share` or `//server/share`).
pub open spec fn is_unc(s: Seq<char>) -> bool {
    starts_with(s, "\\\\"@) || starts_with(s, "//"@)
}

/// A `..` component starts at index `i`.
pub open spec fn parent_component_at(s: Seq<char>, i: int) -> bool {
    &&& occurs_at(s, ".."@, i)
    &&& (i == 0 || s[i - 1] == '/')
    &&& (i + 2 == s.len() || s[i + 2] == '/')
}

/// The path has a `..` component (`Component::ParentDir`).
pub open spec fn has_parent_component(s: Seq<char>) -> bool {
    exists|i: int| parent_component_at(s, i)
}

fn is_unc_exec(s: &[char]) -> (b: bool)
    ensures
        b == is_unc(s@),
{
    let a = chars_of("\\\\");
    let b = chars_of("//");
    starts_with_at0(s, a.as_slice()) || starts_with_at0(s, b.as_slice())
}

fn has_parent_component_exec(s: &[char]) -> (b: bool)
    ensures
        b == has_parent_component(s@),
{
    let dots = chars_of("..");
    proof {
        reveal_strlit("..");
    }
    let mut i: usize = 0;
    while i < s.len()
        invariant
            i <= s.len(),
            dots@ == ".."@,
            dots@.len() == 2,
            forall|j: int| 0 <= j < i ==> !parent_component_at(s@, j),
        decreases s.len() - i,
    {
        if matches_at(s, dots.as_slice(), i) && (i == 0 || s[i - 1] == '/') && (i + 2 == s.len()
            || s[i + 2] == '/') {
            assert(parent_component_at(s@, i as int));
            return true;
        }
        i += 1;
    }
    assert forall|j: int| !parent_component_at(s@, j) by {
        if j >= s@.len() && parent_component_at(s@, j) {
            assert(occurs_at(s@, ".."@, j));
        }
    }
    false
}

/// Refuses a custom output directory on a network share or with `..`.
pub fn validate_output_dir(dir: &str) -> (r: Result<(), CommandError>)
    ensures
        match r {
            Ok(()) => !is_unc(dir@) && !has_parent_component(dir@),
            Err(CommandError::UncDir) => is_unc(dir@),
            Err(CommandError::ParentDirInDir) => !is_unc(dir@) && has_parent_component(dir@),
            Err(_) => false,
        },
{
    let d = chars_of(dir);
    if is_unc_exec(d.as_slice()) {
        return Err(CommandError::UncDir);
    }
    if has_parent_component_exec(d.as_slice()) {
        return Err(CommandError::ParentDirInDir);
    }
    Ok(())
}

/// Lower-cased canonical directory inside a protected Windows system area.
pub open spec fn is_system_zone(canonical: Seq<char>) -> bool {
    let l = lowercase(canonical);
    ||| starts_with(l, "c:\\windows"@)
    ||| starts_with(l, "c:\\program files"@)
    ||| starts_with(l, "c:\\program files (x86)"@)
    ||| starts_with(l, "c:\\programdata"@)
    ||| starts_with(l, "c:\\system"@)
}

fn is_system_zone_exec(canonical: &str) -> (b: bool)
    ensures
        b == is_system_zone(canonical@),
{
    let c = chars_of(canonical);
    let l = to_lowercase(c.as_slice());
    let ls = l.as_slice();
    starts_with_at0(ls, chars_of("c:\\windows").as_slice()) || starts_with_at0(
        ls,
        chars_of("c:\\program files").as_slice(),
    ) || starts_with_at0(ls, chars_of("c:\\program files (x86)").as_slice())
        || starts_with_at0(ls, chars_of("c:\\programdata").as_slice()) || starts_with_at0(
        ls,
        chars_of("c:\\system").as_slice(),
    )
}

/// Refuses an output file path on a network share, with `..`, or whose
/// parent directory resolves (`canonical_parent`) into a system area.
pub fn validate_output_path(path: &str, canonical_parent: Option<&str>) -> (r: Result<
    (),
    CommandError,
>)
    ensures
        match r {
            Ok(()) => !is_unc(path@) && !has_parent_component(path@) && (canonical_parent matches Some(
                c,
            ) ==> !is_system_zone(c@)),
            Err(CommandError::UncPath) => is_unc(path@),
            Err(CommandError::ParentDirInPath) => !is_unc(path@) && has_parent_component(path@),
            Err(CommandError::SystemZone(c)) => {
                &&& !is_unc(path@)
                &&& !has_parent_component(path@)
                &&& canonical_parent matches Some(cp)
                &&& c@ == cp@
                &&& is_system_zone(cp@)
            },
            Err(_) => false,
        },
{
    let p = chars_of(path);
    if is_unc_exec(p.as_slice()) {
        return Err(CommandError::UncPath);
    }
    if has_parent_component_exec(p.as_slice()) {
        return Err(CommandError::ParentDirInPath);
    }
    if let Some(c) = canonical_parent {
        if is_system_zone_exec(c) {
            return Err(CommandError::SystemZone(c.to_owned()));
        }
    }
    Ok(())
}

/// An output name is refused when it holds NUL, `/`, `\` or `..`.
pub open spec fn bad_output_name(n: Seq<char>) -> bool {
    n.contains('\0') || n.contains('/') || n.contains('\\') || contains(n, ".."@)
}

fn has_char(s: &[char], c: char) -> (b: bool)
    ensures
        b == s@.contains(c),
{
    let mut i: usize = 0;
    while i < s.len()
        invariant
            i <= s.len(),
            forall|j: int| 0 <= j < i ==> s@[j] != c,
        decreases s.len() - i,
    {
        if s[i] == c {
            return true;
        }
        i += 1;
    }
    false
}

/// Checks the custom output directory, then the custom output name.
pub fn check_output_request(output_dir: Option<&str>, output_name: Option<&str>) -> (r: Result<
    (),
    CommandError,
>)
    ensures
        match r {
            Ok(()) => (output_dir matches Some(d) ==> !is_unc(d@) && !has_parent_component(d@)) && (
            output_name matches Some(n) ==> !bad_output_name(n@)),
            Err(CommandError::UncDir) => output_dir matches Some(d) && is_unc(d@),
            Err(CommandError::ParentDirInDir) => output_dir matches Some(d) && !is_unc(d@)
                && has_parent_component(d@),
            Err(CommandError::InvalidOutputName) => {
                &&& (output_dir matches Some(d) ==> !is_unc(d@) && !has_parent_component(d@))
                &&& output_name matches Some(n)
                &&& bad_output_name(n@)
            },
            Err(_) => false,
        },
{
    if let Some(d) = output_dir {
        validate_output_dir(d)?;
    }
    if let Some(n) = output_name {
        let c = chars_of(n);
        let dots = chars_of("..");
        if has_char(c.as_slice(), '\0') || has_char(c.as_slice(), '/') || has_char(
            c.as_slice(),
            '\\',
        ) || contains_exec(c.as_slice(), dots.as_slice()) {
            return Err(CommandError::InvalidOutputName);
        }
    }
    Ok(())
}

/// Refuses an input larger than [`MAX_FILE_SIZE`].
pub fn check_input_size(size: u64) -> (r: Result<(), CommandError>)
    ensures
        match r {
            Ok(()) => size <= MAX_FILE_SIZE,
            Err(CommandError::TooLarge(s)) => s == size && size > MAX_FILE_SIZE,
            Err(_) => false,
        },
{
    if size > MAX_FILE_SIZE {
        Err(CommandError::TooLarge(size))
    } else {
        Ok(())
    }
}

/// Chooses the conversion route, or the error naming both formats.
pub fn plan_conversion(ext: &str, fmt: &str) -> (r: Result<Route, CommandError>)
    ensures
        match r {
            Ok(route) => route_of(ext@, fmt@) == Some(route),
            Err(CommandError::Unsupported(e, f)) => route_of(ext@, fmt@) is None && e@ == ext@
                && f@ == fmt@,
            Err(_) => false,
        },
{
    let e = chars_of(ext);
    let f = chars_of(fmt);
    match conversion_route(e.as_slice(), f.as_slice()) {
        Some(route) => Ok(route),
        None => Err(CommandError::Unsupported(ext.to_owned(), fmt.to_owned())),
    }
}

/// Name of a watermarked output: the requested name when it is not blank,
/// otherwise `<stem>_filigrane`.
pub open spec fn watermark_name(input_path: Seq<char>, output_name: Option<Seq<char>>) -> Seq<
    char,
> {
    match output_name {
        Some(n) if trim(n).len() > 0 => n,
        _ => match file_stem(input_path) {
            Some(st) => st + "_filigrane"@,
            None => "_filigrane"@,
        },
    }
}

/// Output name of a watermark request (`output_name` already checked).
pub fn watermark_output_name(input_path: &str, output_name: Option<&str>) -> (r: String)
    ensures
        r@ == watermark_name(
            input_path@,
            match output_name {
                Some(n) => Some(n@),
                None => None,
            },
        ),
{
    if let Some(n) = output_name {
        let c = chars_of(n);
        let t = trim_exec(c.as_slice());
        if t.len() > 0 {
            return n.to_owned();
        }
    }
    let stem = file_stem_or(input_path, "");
    proof {
        reveal_strlit("");
    }
    let mut r = stem;
    r.append("_filigrane");
    r
}

pub open spec fn str_opt(o: Option<&str>) -> Option<Seq<char>> {
    match o {
        Some(s) => Some(s@),
        None => None,
    }
}

/// The first refusal of a custom output directory and name, if any.
pub open spec fn request_error(dir: Option<Seq<char>>, name: Option<Seq<char>>) -> Option<CommandError> {
    if dir is Some && is_unc(dir->0) {
        Some(CommandError::UncDir)
    } else if dir is Some && has_parent_component(dir->0) {
        Some(CommandError::ParentDirInDir)
    } else if name is Some && bad_output_name(name->0) {
        Some(CommandError::InvalidOutputName)
    } else {
        None
    }
}

/// Checks a watermark request's output directory and name, then the input
/// size, and gives the name of the output (`watermark_output_path`); the
/// directory, name and extension are joined by the conversion's path
/// builder.
pub fn watermark_output_path(
    input_path: &str,
    input_size: u64,
    output_dir: Option<&str>,
    output_name: Option<&str>,
) -> (r: Result<String, CommandError>)
    ensures
        match request_error(str_opt(output_dir), str_opt(output_name)) {
            Some(e) => r == Err::<String, CommandError>(e),
            None => if input_size > MAX_FILE_SIZE {
                r == Err::<String, CommandError>(CommandError::TooLarge(input_size))
            } else {
                r matches Ok(s) && s@ == watermark_name(input_path@, str_opt(output_name))
            },
        },
{
    match check_output_request(output_dir, output_name) {
        Ok(()) => {},
        Err(e) => {
            return Err(e);
        },
    }
    match check_input_size(input_size) {
        Ok(()) => {},
        Err(e) => {
            return Err(e);
        },
    }
    Ok(watermark_output_name(input_path, output_name))
}

/// Documents that receive the image layer while keeping their format.
pub open spec fn is_doc_visual(f: Seq<char>) -> bool {
    ||| f == "docx"@
    ||| f == "pptx"@
    ||| f == "xlsx"@
    ||| f == "odt"@
    ||| f == "ods"@
    ||| f == "odp"@
    ||| f == "epub"@
    ||| f == "html"@
    ||| f == "htm"@
    ||| f == "svg"@
}

fn is_doc_visual_exec(f: &[char]) -> (b: bool)
    ensures
        b == is_doc_visual(f@),
{
    is_lit(f, "docx") || is_lit(f, "pptx") || is_lit(f, "xlsx") || is_lit(f, "odt") || is_lit(
        f,
        "ods",
    ) || is_lit(f, "odp") || is_lit(f, "epub") || is_lit(f, "html") || is_lit(f, "htm")
        || is_lit(f, "svg")
}

/// Where a visible watermark is applied.
#[derive(Clone, Copy, Debug, PartialEq, Eq, Structural)]
pub enum WatermarkTarget {
    /// Into the document itself, format kept.
    Document,
    /// Stamped on the pages of a PDF.
    Pdf,
    /// Composited on a raster image.
    Image,
}

/// Dispatches a visible watermark by output format (already lower-cased).
pub fn watermark_target(input_path: &str, fmt: &str) -> (r: Result<WatermarkTarget, CommandError>)
    ensures
        match r {
            Ok(WatermarkTarget::Document) => is_doc_visual(fmt@) && ext_of_spec(input_path@)
                == fmt@,
            Ok(WatermarkTarget::Pdf) => !is_doc_visual(fmt@) && fmt@ == "pdf"@,
            Ok(WatermarkTarget::Image) => !is_doc_visual(fmt@) && fmt@ != "pdf"@,
            Err(CommandError::FormatKept(e, f)) => is_doc_visual(fmt@) && e@ == ext_of_spec(
                input_path@,
            ) && e@ != fmt@ && f@ == fmt@,
            Err(_) => false,
        },
{
    let f = chars_of(fmt);
    if is_doc_visual_exec(f.as_slice()) {
        let e = ext_of(input_path);
        let ec = chars_of(e.as_str());
        if !crate::text::eq_chars(ec.as_slice(), f.as_slice()) {
            return Err(CommandError::FormatKept(e, fmt.to_owned()));
        }
        Ok(WatermarkTarget::Document)
    } else if is_lit(f.as_slice(), "pdf") {
        Ok(WatermarkTarget::Pdf)
    } else {
        Ok(WatermarkTarget::Image)
    }
}

/// Refuses a watermark request without layers.
pub fn check_layers(count: usize) -> (r: Result<(), CommandError>)
    ensures
        r is Ok <==> count > 0,
        r matches Err(e) ==> e is NoLayer,
{
    if count == 0 {
        Err(CommandError::NoLayer)
    } else {
        Ok(())
    }
}

/// Checks the pages asked for a split: at least one, and each within
/// `1..=total`; the first one outside is reported.
pub fn check_split_pages(pages: &Vec<u32>, total: u32) -> (r: Result<(), CommandError>)
    ensures
        pages@.len() == 0 ==> r matches Err(CommandError::NoPageSelected),
        pages@.len() > 0 ==> match r {
            Ok(()) => forall|i: int| 0 <= i < pages@.len() ==> 1 <= #[trigger] pages@[i] <= total,
            Err(CommandError::PageOutOfRange(p, t)) => t == total && exists|k: int|
                0 <= k < pages@.len() && #[trigger] pages@[k] == p && !(1 <= p <= total) && forall|j: int|
                    0 <= j < k ==> 1 <= #[trigger] pages@[j] <= total,
            Err(_) => false,
        },
{
    if pages.len() == 0 {
        return Err(CommandError::NoPageSelected);
    }
    let mut i: usize = 0;
    while i < pages.len()
        invariant
            i <= pages.len(),
            forall|j: int| 0 <= j < i ==> 1 <= #[trigger] pages@[j] <= total,
        decreases pages.len() - i,
    {
        let p = pages[i];
        if p < 1 || p > total {
            assert(pages@[i as int] == p);
            return Err(CommandError::PageOutOfRange(p, total));
        }
        i += 1;
    }
    Ok(())
}

/// How PDFs are merged: their real pages kept, or their text on one tall page.
#[derive(Debug, PartialEq, Eq, Structural)]
pub enum MergeMode {
    Pages,
    Single,
}

/// The merge mode named `pages` or `single`.
pub fn merge_mode(mode: &str) -> (r: Result<MergeMode, CommandError>)
    ensures
        mode@ == "pages"@ ==> r == Ok::<MergeMode, CommandError>(MergeMode::Pages),
        mode@ == "single"@ ==> r == Ok::<MergeMode, CommandError>(MergeMode::Single),
        mode@ != "pages"@ && mode@ != "single"@ ==> (r matches Err(CommandError::UnknownMergeMode(m)) && m@ == mode@),
{
    proof {
        reveal_strlit("pages");
        reveal_strlit("single");
        assert("pages"@.len() != "single"@.len());
    }
    let c = chars_of(mode);
    if is_lit(c.as_slice(), "pages") {
        Ok(MergeMode::Pages)
    } else if is_lit(c.as_slice(), "single") {
        Ok(MergeMode::Single)
    } else {
        Err(CommandError::UnknownMergeMode(mode.to_string()))
    }
}

/// Result of a conversion: where the output went and how big it is.
#[derive(Debug)]
pub struct ConversionResult {
    pub path: String,
    pub output_size: u64,
}

/// Reduced preview sent to the watermark studio, with the source's real size.
#[derive(Debug)]
pub struct WatermarkPreview {
    pub data_url: String,
    pub width: u32,
    pub height: u32,
}

/// One watermark layer (PNG in base64) and the 1-based pages it goes on.
#[derive(Debug)]
pub struct WatermarkLayer {
    pub overlay: String,
    pub pages: Vec<u32>,
}

/// An extracted archive entry and where it was written.
#[derive(Debug)]
pub struct ArchiveEntry {
    pub name: String,
    pub path: String,
}

/// A file to pack under an archive entry name.
#[derive(Debug)]
pub struct PackEntry {
    pub name: String,
    pub path: String,
}

// ── Packing checks ───────────────────────────────────────────────────────────

/// The components of a path: `/` for a leading root, then each segment
/// that is neither empty nor `.`.
pub open spec fn path_components(s: Seq<char>) -> Seq<Seq<char>> {
    let root: Seq<Seq<char>> = if s.len() > 0 && s[0] == '/' { seq!["/"@] } else { seq![] };
    root + split(s, "/"@).filter(|p: Seq<char>| p.len() > 0 && p != "."@)
}

/// `path` lies in `dir`, comparing whole components (`Path::starts_with`),
/// for the canonical paths it is given.
pub open spec fn path_within(path: Seq<char>, dir: Seq<char>) -> bool {
    let p = path_components(path);
    let d = path_components(dir);
    d.len() <= p.len() && p.take(d.len() as int) == d
}

fn path_components_exec(s: &[char]) -> (r: Vec<Vec<char>>)
    ensures
        views(r@) == path_components(s@),
{
    let slash = chars_of("/");
    let dot = chars_of(".");
    proof {
        reveal_strlit("/");
        reveal_strlit(".");
    }
    let mut r: Vec<Vec<char>> = Vec::new();
    if s.len() > 0 && s[0] == '/' {
        r.push(chars_of("/"));
    }
    let ghost root = views(r@);
    let pieces = split_exec(s, slash.as_slice());
    let ghost pv = views(pieces@);
    let mut i: usize = 0;
    while i < pieces.len()
        invariant
            i <= pieces.len(),
            pv == views(pieces@),
            dot@ == "."@,
            views(r@) == root + pv.take(i as int).filter(|p: Seq<char>| p.len() > 0 && p != "."@),
        decreases pieces.len() - i,
    {
        let ghost before = views(r@);
        let ghost t = pv.take(i + 1);
        assert(t.drop_last() =~= pv.take(i as int));
        assert(t.last() == pieces@[i as int]@);
        reveal(Seq::filter);
        if pieces[i].len() > 0 && !crate::text::eq_chars(pieces[i].as_slice(), dot.as_slice()) {
            let copy = crate::text::slice_copy(pieces[i].as_slice(), 0, pieces[i].len());
            assert(copy@ =~= pieces@[i as int]@);
            r.push(copy);
            assert(views(r@) =~= before.push(pieces@[i as int]@));
        }
        i += 1;
    }
    assert(pv.take(i as int) =~= pv);
    r
}

/// Whether `path` lies in `dir`, component by component.
pub fn path_within_exec(path: &str, dir: &str) -> (b: bool)
    ensures
        b == path_within(path@, dir@),
{
    let p = path_components_exec(chars_of(path).as_slice());
    let d = path_components_exec(chars_of(dir).as_slice());
    if d.len() > p.len() {
        return false;
    }
    let ghost pv = views(p@);
    let ghost dv = views(d@);
    let mut i: usize = 0;
    while i < d.len()
        invariant
            i <= d.len(),
            d.len() <= p.len(),
            pv == views(p@),
            dv == views(d@),
            pv == path_components(path@),
            dv == path_components(dir@),
            forall|j: int| 0 <= j < i ==> pv[j] == dv[j],
        decreases d.len() - i,
    {
        assert(pv[i as int] == p@[i as int]@ && dv[i as int] == d@[i as int]@);
        if !crate::text::eq_chars(p[i].as_slice(), d[i].as_slice()) {
            assert(pv.take(dv.len() as int)[i as int] != dv[i as int]);
            assert(pv.take(dv.len() as int) != dv);
            return false;
        }
        i += 1;
    }
    assert(pv.take(dv.len() as int) =~= dv);
    true
}

/// A resolved path inside the working folder.
pub open spec fn packable(c: Option<String>, dir: Seq<char>) -> bool {
    match c {
        Some(x) => path_within(x@, dir),
        None => false,
    }
}

/// Refuses the first file to pack that is not inside the working folder
/// `work_dir`; `canonical[i]` is the canonical form of `paths[i]`, `None`
/// when it could not be resolved.
pub fn check_pack_paths(paths: &Vec<String>, canonical: &Vec<Option<String>>, work_dir: &str) -> (r: Result<
    (),
    CommandError,
>)
    requires
        paths@.len() == canonical@.len(),
    ensures
        match r {
            Ok(()) => forall|i: int| 0 <= i < paths@.len() ==> packable(#[trigger] canonical@[i], work_dir@),
            Err(CommandError::OutsideWorkDir(p)) => exists|i: int|
                #![trigger canonical@[i]]
                0 <= i < paths@.len() && p@ == paths@[i]@ && !packable(canonical@[i], work_dir@) && forall|j: int|
                    0 <= j < i ==> packable(#[trigger] canonical@[j], work_dir@),
            Err(_) => false,
        },
{
    let mut i: usize = 0;
    while i < paths.len()
        invariant
            i <= paths.len(),
            paths@.len() == canonical@.len(),
            forall|j: int| 0 <= j < i ==> packable(#[trigger] canonical@[j], work_dir@),
        decreases paths.len() - i,
    {
        let ok = match &canonical[i] {
            Some(c) => path_within_exec(c.as_str(), work_dir),
            None => false,
        };
        if !ok {
            let p = paths[i].clone();
            assert(canonical@[i as int] == canonical[i as int]);
            return Err(CommandError::OutsideWorkDir(p));
        }
        i += 1;
    }
    Ok(())
}

/// Extensions served as watermark assets: PDF pages and fonts.
pub open spec fn asset_ext(e: Seq<char>) -> bool {
    e == "pdf"@ || e == "ttf"@ || e == "otf"@ || e == "woff"@ || e == "woff2"@
}

/// Refuses to serve a file whose (lower-cased) extension is not a PDF or a
/// font (the check of `read_watermark_asset`).
pub fn check_asset(path: &str) -> (r: Result<(), CommandError>)
    ensures
        asset_ext(ext_of_spec(path@)) ==> r is Ok,
        !asset_ext(ext_of_spec(path@)) ==> (r matches Err(CommandError::AssetRefused(e)) && e@ == ext_of_spec(
            path@,
        )),
{
    let e = ext_of(path);
    let c = chars_of(e.as_str());
    if is_lit(c.as_slice(), "pdf") || is_lit(c.as_slice(), "ttf") || is_lit(c.as_slice(), "otf") || is_lit(
        c.as_slice(),
        "woff",
    ) || is_lit(c.as_slice(), "woff2") {
        Ok(())
    } else {
        Err(CommandError::AssetRefused(e))
    }
}

// ── Messages ─────────────────────────────────────────────────────────────────

/// Tenths of a mebibyte ("MB") in `size` bytes: `size / 2^20` rounded to
/// the nearest tenth, a half going to the even tenth (as `{:.1}` shows the
/// quotient, which is exact for sizes below 2^53 bytes).
pub open spec fn mb_tenths(size: u64) -> nat {
    let n = size as nat * 10;
    let q = n / 1048576;
    let rem = n % 1048576;
    if rem > 524288 || (rem == 524288 && q % 2 == 1) {
        q + 1
    } else {
        q
    }
}

/// A size in megabytes with one decimal.
pub open spec fn mb_text(size: u64) -> Seq<char> {
    crate::text::dec_str(mb_tenths(size) / 10) + "."@ + crate::text::dec_str(mb_tenths(size) % 10)
}

fn mb_text_exec(size: u64) -> (r: Vec<char>)
    ensures
        r@ == mb_text(size),
{
    let n: u128 = size as u128 * 10;
    let q: u128 = n / 1048576;
    let rem: u128 = n % 1048576;
    let t: u128 = if rem > 524288 || (rem == 524288 && q % 2 == 1) {
        q + 1
    } else {
        q
    };
    assert(t == mb_tenths(size));
    assert(t <= 0xffff_ffff_ffff_ffff) by {
        assert(n <= 0xffff_ffff_ffff_ffff * 10);
        assert(q <= n / 1048576);
    }
    let whole = (t / 10) as u64;
    let tenth = (t % 10) as u64;
    let mut out = crate::text::dec_string(whole);
    crate::text::push_str(&mut out, ".");
    crate::text::push_all(&mut out, crate::text::dec_string(tenth).as_slice());
    out
}

/// The message shown for a refused request.
pub open spec fn command_message_spec(e: CommandError) -> Seq<char> {
    match e {
        CommandError::UncDir => "Répertoire UNC refusé"@,
        CommandError::ParentDirInDir => "Répertoire de sortie invalide : séquence '..' interdite"@,
        CommandError::UncPath => "Chemin UNC refusé : écriture sur des partages réseau interdite"@,
        CommandError::ParentDirInPath => "Chemin de sortie invalide : séquence '..' interdite"@,
        CommandError::SystemZone(c) => "Chemin refusé : écriture interdite dans une zone système protégée ("@ + c@ + ")"@,
        CommandError::InvalidOutputName => "Nom de sortie invalide : caractères interdits détectés"@,
        CommandError::TooLarge(size) => "Fichier trop volumineux ("@ + mb_text(size) + " MB). Limite : 500 MB."@,
        CommandError::Unsupported(e, f) => "Conversion ."@ + e@ + " → "@ + f@ + " non supportée"@,
        CommandError::NoLayer => "Aucun calque de filigrane fourni"@,
        CommandError::FormatKept(e, f) => "Un document ."@ + e@ + " garde son format : sortie ."@ + f@
            + " refusée"@,
        CommandError::OutsideWorkDir(p) => "Entrée hors du dossier de travail refusée : "@ + p@,
        CommandError::AssetRefused(e) => "Type de fichier refusé : ."@ + e@,
        CommandError::NoPageSelected => "Aucune page sélectionnée"@,
        CommandError::PageOutOfRange(p, total) => "Page "@ + crate::text::dec_str(p as nat) + " hors limites (1–"@
            + crate::text::dec_str(total as nat) + ")"@,
        CommandError::UnknownMergeMode(m) => "Mode inconnu: "@ + m@,
    }
}

impl CommandError {
    /// The message shown for the refusal.
    pub fn message(&self) -> (r: String)
        ensures
            r@ == command_message_spec(*self),
    {
        match self {
            CommandError::UncDir => String::from_str("Répertoire UNC refusé"),
            CommandError::ParentDirInDir => String::from_str("Répertoire de sortie invalide : séquence '..' interdite"),
            CommandError::UncPath => String::from_str("Chemin UNC refusé : écriture sur des partages réseau interdite"),
            CommandError::ParentDirInPath => String::from_str("Chemin de sortie invalide : séquence '..' interdite"),
            CommandError::SystemZone(c) => {
                let mut out = chars_of("Chemin refusé : écriture interdite dans une zone système protégée (");
                crate::text::push_str(&mut out, c.as_str());
                crate::text::push_str(&mut out, ")");
                crate::text::string_of(out.as_slice())
            },
            CommandError::InvalidOutputName => String::from_str("Nom de sortie invalide : caractères interdits détectés"),
            CommandError::TooLarge(size) => {
                let mut out = chars_of("Fichier trop volumineux (");
                crate::text::push_all(&mut out, mb_text_exec(*size).as_slice());
                crate::text::push_str(&mut out, " MB). Limite : 500 MB.");
                crate::text::string_of(out.as_slice())
            },
            CommandError::Unsupported(e, f) => {
                let mut out = chars_of("Conversion .");
                crate::text::push_str(&mut out, e.as_str());
                crate::text::push_str(&mut out, " → ");
                crate::text::push_str(&mut out, f.as_str());
                crate::text::push_str(&mut out, " non supportée");
                crate::text::string_of(out.as_slice())
            },
            CommandError::NoLayer => String::from_str("Aucun calque de filigrane fourni"),
            CommandError::FormatKept(e, f) => {
                let mut out = chars_of("Un document .");
                crate::text::push_str(&mut out, e.as_str());
                crate::text::push_str(&mut out, " garde son format : sortie .");
                crate::text::push_str(&mut out, f.as_str());
                crate::text::push_str(&mut out, " refusée");
                crate::text::string_of(out.as_slice())
            },
            CommandError::OutsideWorkDir(p) => {
                let mut out = chars_of("Entrée hors du dossier de travail refusée : ");
                crate::text::push_str(&mut out, p.as_str());
                crate::text::string_of(out.as_slice())
            },
            CommandError::AssetRefused(e) => {
                let mut out = chars_of("Type de fichier refusé : .");
                crate::text::push_str(&mut out, e.as_str());
                crate::text::string_of(out.as_slice())
            },
            CommandError::NoPageSelected => String::from_str("Aucune page sélectionnée"),
            CommandError::PageOutOfRange(p, total) => {
                let mut out = chars_of("Page ");
                crate::text::push_all(&mut out, crate::text::dec_string(*p as u64).as_slice());
                crate::text::push_str(&mut out, " hors limites (1–");
                crate::text::push_all(&mut out, crate::text::dec_string(*total as u64).as_slice());
                crate::text::push_str(&mut out, ")");
                crate::text::string_of(out.as_slice())
            },
            CommandError::UnknownMergeMode(m) => {
                let mut out = chars_of("Mode inconnu: ");
                crate::text::push_str(&mut out, m.as_str());
                crate::text::string_of(out.as_slice())
            },
        }
    }
}

} // verus!
