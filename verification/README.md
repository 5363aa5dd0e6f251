# universal_converter

A file converter and watermarking library whose logic is proved with Verus.

- `src/` is the verified library. Each module states its behaviour over
  mathematical models (`Seq`, `Map`, spec functions) and Verus proves the code
  against it:
  - `text`, `paths`, `naming`: character-level toolkit (search, replace, lines,
    trimming, decimal numbers), file names and extensions, unique names;
  - `json`, `xml`, `data`: the structured value, XML reading and writing, CSV,
    and the data conversions built on them;
  - `docs`, `layout`, `rtf`, `subtitles`: document conversions (HTML, Markdown,
    EPUB, DOCX paragraphs, text pages for PDF), RTF text extraction, SRT and
    WebVTT;
  - `archive`, `audio`: the entry scan that keeps archives within their limits
    and safe names, and the decoded-audio accumulation and FLAC/WAV choice;
  - `package`, `wmdocs`, `tag_laws`, `watermark`, `stego`: documents held as
    ZIP packages and the watermark placed in each format (with the laws of
    the tag search), layer decoding, PDF resource names and stamping plan,
    and the invisible signature's block plan, header and vote;
  - `commands`: request checks, output paths and the conversion routes.
- `tests/` runs the library on concrete values.
- `app/` is the program around it: disk and archive I/O, decoding with the
  media crates, image and PDF pixel work in floating point, and the commands.
