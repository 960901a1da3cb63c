//! Assembling the EPUB book with the `epub_builder` crate.
use vstd::prelude::*;
use vstd::utf8::encode_utf8;

use epub_builder::{EpubBuilder, EpubContent, EpubVersion, ReferenceType, ZipLibrary};

use crate::page::{
    chapter_file_name, chapter_file_name_spec, chapter_title, chapter_title_spec,
    law_chapter_file_names_distinct, lemma_chapter_file_name_short, lemma_chapter_title_short,
    FILE_PREFIX, TITLE_PREFIX,
};

verus! {

/// A book being assembled: an `epub_builder::EpubBuilder` over an in-memory
/// zip archive.  (`EpubBuilder` is generic over a trait that `epub_builder`
/// does not export, so the type cannot be declared to Verus by its path.)
#[verifier::external_body]
pub struct EpubDraft {
    builder: EpubBuilder<ZipLibrary>,
}

/// The in-memory zip archive of `epub_builder`.
#[verifier::external_type_specification]
#[verifier::external_body]
pub struct ExZipLibrary(epub_builder::ZipLibrary);

/// The error type of `epub_builder`.
#[verifier::external_type_specification]
#[verifier::external_body]
pub struct ExEpubError(epub_builder::Error);

/// The EPUB versions that `epub_builder` writes.
#[derive(Debug, Clone, Copy, PartialEq, Eq, Structural)]
pub enum EpubRevision {
    /// EPUB 2.0.1.
    V20,
    /// EPUB 3.0.1.
    V30,
    /// EPUB 3.3.
    V33,
}

/// The roles of the XHTML pages of a book.
#[derive(Debug, Clone, Copy, PartialEq, Eq, Structural)]
pub enum PageKind {
    /// The cover page.
    Cover,
    /// The title page.
    TitlePage,
    /// A page of the text itself.
    Text,
    /// The table of contents.
    Toc,
}

/// How a file of the book is listed in its manifest.
#[derive(Debug, Clone, Copy, PartialEq, Eq, Structural)]
pub enum FileRole {
    /// A resource outside the reading order (such as the stylesheet).
    Resource,
    /// The cover image.
    CoverImage,
    /// A page of the reading order, with its role.
    Page(PageKind),
}

/// The entries that the zip archive `zip` holds, as (name, uncompressed
/// contents) pairs, in the order they were written.
pub uninterp spec fn zip_contents(zip: ZipLibrary) -> Seq<(Seq<char>, Seq<u8>)>;

/// The entries that the archive of the book `book` holds, as (name,
/// uncompressed contents) pairs, in the order they were written.
pub uninterp spec fn epub_entries(book: EpubDraft) -> Seq<(Seq<char>, Seq<u8>)>;

/// The files that the book `book` lists in its manifest, as (path, media
/// type, role) triples, in the order they were added.
pub uninterp spec fn epub_manifest(book: EpubDraft) -> Seq<(Seq<char>, Seq<char>, FileRole)>;

/// The top-level entries of the book's table of contents, as (link, title)
/// pairs, in order.  Every entry that the functions of this module add is at
/// level 1, which `Toc::add` appends after the last top-level entry.
pub uninterp spec fn epub_toc(book: EpubDraft) -> Seq<(Seq<char>, Seq<char>)>;

/// The book's title, its authors in order, and the EPUB version it is
/// written in.
pub uninterp spec fn epub_metadata(book: EpubDraft) -> (Seq<char>, Seq<Seq<char>>, EpubRevision);

/// The entries that a zip reader (`zip::ZipArchive`) finds in `archive`, as
/// (name, uncompressed contents) pairs, in the order of its central directory.
pub uninterp spec fn zip_archive_entries(archive: Seq<u8>) -> Seq<(Seq<char>, Seq<u8>)>;

/// The longest path, in characters, that may be written into a book: the
/// name of its archive entry, `OEBPS/` and at most four bytes a character,
/// then fits in the 16 bits that zip gives a name.
pub const MAX_PATH_CHARS: usize = 16000;

/// The largest contents, in bytes, that are sure to fit in an archive entry
/// without the zip64 extension, compressed or not.
pub const MAX_ENTRY_BYTES: usize = 0x7fff_ffff;

/// The names of `entries`.
pub open spec fn entry_names(entries: Seq<(Seq<char>, Seq<u8>)>) -> Seq<Seq<char>> {
    entries.map_values(|e: (Seq<char>, Seq<u8>)| e.0)
}

/// No entry of `entries` holds more than [`MAX_ENTRY_BYTES`] bytes.
pub open spec fn sizes_within(entries: Seq<(Seq<char>, Seq<u8>)>) -> bool {
    forall|i: int| 0 <= i < entries.len() ==> (#[trigger] entries[i]).1.len() <= MAX_ENTRY_BYTES
}

/// The name of the archive entry of the book's file `path`.
pub open spec fn in_oebps(path: Seq<char>) -> Seq<char> {
    "OEBPS/"@ + path
}

/// `path` joins the directory `OEBPS` as plain text on every system: it
/// does not start with `/` and holds no `\` and no `:`.
pub open spec fn joinable(path: Seq<char>) -> bool {
    &&& path.len() > 0 ==> path[0] != '/'
    &&& forall|i: int| 0 <= i < path.len() ==> #[trigger] path[i] != '\\' && path[i] != ':'
}

/// The file `path` with `contents` can be added to an archive holding
/// `entries`: its name is new there, and no contents are too large.
pub open spec fn can_add(entries: Seq<(Seq<char>, Seq<u8>)>, path: Seq<char>, contents_len: nat) -> bool {
    &&& joinable(path)
    &&& !entry_names(entries).contains(in_oebps(path))
    &&& sizes_within(entries)
    &&& contents_len <= MAX_ENTRY_BYTES
}

/// The name of the entry `epub_builder` writes the EPUB container's root file list into.
pub const CONTAINER_ENTRY: &'static str = "META-INF/container.xml";

/// The name of the entry `epub_builder` writes the iBooks display options into.
pub const IBOOKS_ENTRY: &'static str = "META-INF/com.apple.ibooks.display-options.xml";

/// The media type of the XHTML pages.
pub const XHTML_TYPE: &'static str = "application/xhtml+xml";

/// The media type of the stylesheet.
pub const CSS_TYPE: &'static str = "text/css";

/// The path of the stylesheet in the book.
pub const STYLESHEET: &'static str = "stylesheet.css";

/// The path of the inline table of contents in the book.
pub const TOC_PAGE: &'static str = "toc.xhtml";

/// The file name of the cover page.
pub const COVER_PAGE: &'static str = "cover.xhtml";

/// The file name of the title page.
pub const TITLE_PAGE: &'static str = "title.xhtml";

/// The file type of the cover image.
pub const COVER_IMAGE_TYPE: &'static str = "image/jpg";

/// The name `epub_builder` gives the table of contents by default.
pub const TOC_NAME: &'static str = "Table Of Contents";

/// The package document that generating a book adds to its archive.
pub const OPF_ENTRY: &'static str = "OEBPS/content.opf";

/// The navigation file for EPUB 2 readers that generating a book adds.
pub const NCX_ENTRY: &'static str = "OEBPS/toc.ncx";

/// The navigation document that generating a book adds.
pub const NAV_ENTRY: &'static str = "OEBPS/nav.xhtml";

/// The inline table of contents that generating a book adds, when the book has one.
pub const TOC_ENTRY: &'static str = "OEBPS/toc.xhtml";

/// The most strings that a book may list (title, authors, and the paths,
/// types, links and titles of its manifest and table of contents) to be
/// sure to be written.
pub const MAX_LISTED: usize = 100_000;

/// The most characters, all those strings together, that a book may list to
/// be sure to be written.
pub const MAX_LISTED_CHARS: usize = 10_000_000;

/// The name of the first entry of an EPUB container, `mimetype`.
pub open spec fn mimetype_name() -> Seq<char> {
    seq!['m', 'i', 'm', 'e', 't', 'y', 'p', 'e']
}

/// The signature of a zip local file header.
pub open spec fn zip_local_header_signature() -> Seq<u8> {
    seq![0x50u8, 0x4bu8, 0x03u8, 0x04u8]
}

/// The bytes of the name `mimetype`.
pub open spec fn mimetype_entry_name() -> Seq<u8> {
    seq![0x6du8, 0x69u8, 0x6du8, 0x65u8, 0x74u8, 0x79u8, 0x70u8, 0x65u8]
}

/// The contents of that entry, `application/epub+zip`.
pub open spec fn epub_media_type() -> Seq<u8> {
    seq![
        0x61u8, 0x70u8, 0x70u8, 0x6cu8, 0x69u8, 0x63u8, 0x61u8, 0x74u8, 0x69u8, 0x6fu8,
        0x6eu8, 0x2fu8, 0x65u8, 0x70u8, 0x75u8, 0x62u8, 0x2bu8, 0x7au8, 0x69u8, 0x70u8,
    ]
}

/// `bytes` begin as an EPUB container must: with a zip local file header
/// (30 bytes, no extra field) for the entry `mimetype`, followed by its
/// uncompressed contents `application/epub+zip`.
pub open spec fn epub_container_start(bytes: Seq<u8>) -> bool {
    &&& bytes.len() >= 58
    &&& bytes.subrange(0, 4) == zip_local_header_signature()
    &&& bytes.subrange(30, 38) == mimetype_entry_name()
    &&& bytes.subrange(38, 58) == epub_media_type()
}

/// The first three entries of a book's archive: `mimetype` holding
/// `application/epub+zip`, then the two entries of `META-INF`.
pub open spec fn starts_archive(entries: Seq<(Seq<char>, Seq<u8>)>) -> bool {
    &&& entries.len() >= 3
    &&& entries[0] == (mimetype_name(), epub_media_type())
    &&& entries[1].0 == CONTAINER_ENTRY@
    &&& entries[2].0 == IBOOKS_ENTRY@
}

/// Creates the in-memory zip archive of a book (`epub_builder::ZipLibrary::new`).
/// Claimed, as the sources show: it succeeds (everything is written to a
/// fresh `Vec`), and the archive holds the stored entry `mimetype` with
/// `application/epub+zip`.
#[verifier::external_body]
fn new_zip() -> (res: Result<ZipLibrary, epub_builder::Error>)
    ensures
        res is Ok,
        res matches Ok(z) ==> zip_contents(z) == seq![(mimetype_name(), epub_media_type())],
{
    ZipLibrary::new()
}

/// Starts a book in `zip` (`epub_builder::EpubBuilder::new`), which writes the
/// two entries of `META-INF` (small constant files).  Claimed: it succeeds
/// when those names are new in `zip` and no entry of `zip` is too large; the
/// book then lists no file, has an empty table of contents, no title, no
/// author, and EPUB version 2.0.1.
#[verifier::external_body]
fn new_builder(zip: ZipLibrary) -> (res: Result<EpubDraft, epub_builder::Error>)
    ensures
        !entry_names(zip_contents(zip)).contains(CONTAINER_ENTRY@)
            && !entry_names(zip_contents(zip)).contains(IBOOKS_ENTRY@) && sizes_within(
            zip_contents(zip),
        ) ==> res is Ok,
        res matches Ok(b) ==> {
            &&& epub_entries(b).len() == zip_contents(zip).len() + 2
            &&& epub_entries(b).take(zip_contents(zip).len() as int) == zip_contents(zip)
            &&& epub_entries(b)[zip_contents(zip).len() as int].0 == CONTAINER_ENTRY@
            &&& epub_entries(b)[zip_contents(zip).len() + 1int].0 == IBOOKS_ENTRY@
            &&& epub_entries(b)[zip_contents(zip).len() as int].1.len() <= MAX_ENTRY_BYTES
            &&& epub_entries(b)[zip_contents(zip).len() + 1int].1.len() <= MAX_ENTRY_BYTES
        },
        res matches Ok(b) ==> epub_manifest(b) == Seq::<(Seq<char>, Seq<char>, FileRole)>::empty(),
        res matches Ok(b) ==> epub_toc(b) == Seq::<(Seq<char>, Seq<char>)>::empty(),
        res matches Ok(b) ==> epub_metadata(b) == (Seq::<char>::empty(), Seq::<Seq<char>>::empty(), EpubRevision::V20),
{
    EpubBuilder::new(zip).map(|builder| EpubDraft { builder })
}

/// The title and authors after metadata `key` is set to `value`: `title`
/// replaces the title; `author` adds an author, or with an empty value
/// removes them all; other keys leave both alone.
pub open spec fn metadata_after(
    title: Seq<char>,
    authors: Seq<Seq<char>>,
    key: Seq<char>,
    value: Seq<char>,
) -> (Seq<char>, Seq<Seq<char>>) {
    if key == "title"@ {
        (value, authors)
    } else if key == "author"@ {
        if value.len() == 0 {
            (title, Seq::empty())
        } else {
            (title, authors.push(value))
        }
    } else {
        (title, authors)
    }
}

/// Sets metadata `key`, `title` or `author`, of the book to `value`
/// (`EpubBuilder::metadata`; the other keys are not used, so the name of the
/// table of contents keeps its default).  Claimed, as its source shows: the
/// call succeeds; the archive, the files and the table of contents do not
/// change, nor the version; title and authors change as [`metadata_after`] says.
#[verifier::external_body]
fn set_metadata(book: &mut EpubDraft, key: &str, value: &str) -> (res: Result<(), epub_builder::Error>)
    requires
        key@ == "title"@ || key@ == "author"@,
    ensures
        res is Ok,
        epub_entries(*final(book)) == epub_entries(*old(book)),
        epub_manifest(*final(book)) == epub_manifest(*old(book)),
        epub_toc(*final(book)) == epub_toc(*old(book)),
        epub_metadata(*final(book)).2 == epub_metadata(*old(book)).2,
        metadata_after(epub_metadata(*old(book)).0, epub_metadata(*old(book)).1, key@, value@) == (
            epub_metadata(*final(book)).0,
            epub_metadata(*final(book)).1,
        ),
{
    book.builder.metadata(key, value).map(|_| ())
}

/// Sets the EPUB version that the book is written in (`EpubBuilder::epub_version`);
/// claimed: only the version changes.
#[verifier::external_body]
fn set_version(book: &mut EpubDraft, version: EpubRevision)
    ensures
        epub_entries(*final(book)) == epub_entries(*old(book)),
        epub_manifest(*final(book)) == epub_manifest(*old(book)),
        epub_toc(*final(book)) == epub_toc(*old(book)),
        epub_metadata(*final(book)) == (epub_metadata(*old(book)).0, epub_metadata(*old(book)).1, version),
{
    let version = match version {
        EpubRevision::V20 => EpubVersion::V20,
        EpubRevision::V30 => EpubVersion::V30,
        EpubRevision::V33 => EpubVersion::V33,
    };
    book.builder.epub_version(version);
}

/// Writes `css` as the book's `stylesheet.css` (`EpubBuilder::stylesheet`).
/// Claimed: it succeeds when [`can_add`] allows the file; on success the
/// archive gets the entry `OEBPS/stylesheet.css` with the bytes of `css`, and
/// the manifest the resource `stylesheet.css` of type `text/css`; on failure
/// the manifest does not change; the table of contents and the metadata never do.
#[verifier::external_body]
fn add_stylesheet(book: &mut EpubDraft, css: &str) -> (res: Result<(), epub_builder::Error>)
    ensures
        epub_toc(*final(book)) == epub_toc(*old(book)),
        epub_metadata(*final(book)) == epub_metadata(*old(book)),
        can_add(epub_entries(*old(book)), STYLESHEET@, encode_utf8(css@).len()) ==> res is Ok,
        res is Ok ==> epub_entries(*final(book)) == epub_entries(*old(book)).push(
            (in_oebps(STYLESHEET@), encode_utf8(css@)),
        ),
        res is Ok ==> epub_manifest(*final(book)) == epub_manifest(*old(book)).push(
            (STYLESHEET@, CSS_TYPE@, FileRole::Resource),
        ),
        res is Err ==> epub_manifest(*final(book)) == epub_manifest(*old(book)),
{
    book.builder.stylesheet(css.as_bytes()).map(|_| ())
}

/// Writes `image` as the book's cover image at `path`, of type `mime`
/// (`EpubBuilder::add_cover_image`).  A path of at most [`MAX_PATH_CHARS`]
/// characters is required: zip panics on an entry name longer than 65535
/// bytes.  Claimed: it succeeds when [`can_add`] allows the file; on success
/// the archive gets the entry `OEBPS/<path>` with `image`, and the manifest
/// the cover image `path` of type `mime`; on failure the manifest does not
/// change; the table of contents and the metadata never do.
#[verifier::external_body]
fn add_cover_image(book: &mut EpubDraft, path: &str, image: &[u8], mime: &str) -> (res: Result<
    (),
    epub_builder::Error,
>)
    requires
        path@.len() <= MAX_PATH_CHARS,
    ensures
        epub_toc(*final(book)) == epub_toc(*old(book)),
        epub_metadata(*final(book)) == epub_metadata(*old(book)),
        can_add(epub_entries(*old(book)), path@, image@.len()) ==> res is Ok,
        res is Ok ==> epub_entries(*final(book)) == epub_entries(*old(book)).push(
            (in_oebps(path@), image@),
        ),
        res is Ok ==> epub_manifest(*final(book)) == epub_manifest(*old(book)).push(
            (path@, mime@, FileRole::CoverImage),
        ),
        res is Err ==> epub_manifest(*final(book)) == epub_manifest(*old(book)),
{
    book.builder.add_cover_image(path, image, mime).map(|_| ())
}

/// Writes the XHTML page `body` at `href`, listed in the table of contents as
/// `title` with the role `kind` (`EpubBuilder::add_content` of an `EpubContent`
/// made by `new`, `title` and `reftype`).  A path of at most
/// [`MAX_PATH_CHARS`] characters is required, as for [`add_cover_image`],
/// and a role other than `Toc`, which only the inline table of contents has.
/// Claimed: it succeeds when [`can_add`] allows the file; on success the
/// archive gets the entry `OEBPS/<href>` with the bytes of `body`, the
/// manifest the page `href` of type `application/xhtml+xml` with role
/// `kind`, and a non-empty `title` enters the table of contents as the entry
/// (`href`, `title`); on failure the manifest and the table of contents do
/// not change; the metadata never does.
#[verifier::external_body]
fn add_page(book: &mut EpubDraft, href: &str, body: &str, title: &str, kind: PageKind) -> (res: Result<
    (),
    epub_builder::Error,
>)
    requires
        href@.len() <= MAX_PATH_CHARS,
        kind != PageKind::Toc,
    ensures
        epub_metadata(*final(book)) == epub_metadata(*old(book)),
        can_add(epub_entries(*old(book)), href@, encode_utf8(body@).len()) ==> res is Ok,
        res is Ok ==> epub_entries(*final(book)) == epub_entries(*old(book)).push(
            (in_oebps(href@), encode_utf8(body@)),
        ),
        res is Ok ==> epub_manifest(*final(book)) == epub_manifest(*old(book)).push(
            (href@, XHTML_TYPE@, FileRole::Page(kind)),
        ),
        res is Ok && title@.len() > 0 ==> epub_toc(*final(book)) == epub_toc(*old(book)).push(
            (href@, title@),
        ),
        res is Ok && title@.len() == 0 ==> epub_toc(*final(book)) == epub_toc(*old(book)),
        res is Err ==> epub_manifest(*final(book)) == epub_manifest(*old(book)),
        res is Err ==> epub_toc(*final(book)) == epub_toc(*old(book)),
{
    let reftype = match kind {
        PageKind::Cover => ReferenceType::Cover,
        PageKind::TitlePage => ReferenceType::TitlePage,
        PageKind::Text => ReferenceType::Text,
        PageKind::Toc => ReferenceType::Toc,
    };
    let content = EpubContent::new(href, body.as_bytes()).title(title).reftype(reftype);
    book.builder.add_content(content).map(|_| ())
}

/// Adds the inline table of contents page (`EpubBuilder::inline_toc`), whose
/// contents are written when the book is generated.  Claimed: the manifest
/// gets the page `toc.xhtml` of type `application/xhtml+xml` with role
/// `Toc`, and the table of contents the entry (`toc.xhtml`, `Table Of
/// Contents`), the default name of a table of contents, which nothing here
/// changes; the archive and the metadata do not change.
#[verifier::external_body]
fn add_inline_toc(book: &mut EpubDraft)
    ensures
        epub_entries(*final(book)) == epub_entries(*old(book)),
        epub_metadata(*final(book)) == epub_metadata(*old(book)),
        epub_manifest(*final(book)) == epub_manifest(*old(book)).push(inline_toc_file()),
        epub_toc(*final(book)) == epub_toc(*old(book)).push(inline_toc_entry()),
{
    book.builder.inline_toc();
}

/// The total length of `texts`.
pub open spec fn text_total(texts: Seq<Seq<char>>) -> nat
    decreases texts.len(),
{
    if texts.len() == 0 {
        0
    } else {
        text_total(texts.drop_last()) + texts.last().len()
    }
}

/// The paths of a manifest.
pub open spec fn manifest_paths(manifest: Seq<(Seq<char>, Seq<char>, FileRole)>) -> Seq<Seq<char>> {
    manifest.map_values(|e: (Seq<char>, Seq<char>, FileRole)| e.0)
}

/// The media types of a manifest.
pub open spec fn manifest_types(manifest: Seq<(Seq<char>, Seq<char>, FileRole)>) -> Seq<Seq<char>> {
    manifest.map_values(|e: (Seq<char>, Seq<char>, FileRole)| e.1)
}

/// The links of a table of contents.
pub open spec fn toc_links(toc: Seq<(Seq<char>, Seq<char>)>) -> Seq<Seq<char>> {
    toc.map_values(|e: (Seq<char>, Seq<char>)| e.0)
}

/// The titles of a table of contents.
pub open spec fn toc_titles(toc: Seq<(Seq<char>, Seq<char>)>) -> Seq<Seq<char>> {
    toc.map_values(|e: (Seq<char>, Seq<char>)| e.1)
}

/// How many strings a book with this metadata, manifest and table of contents lists.
pub open spec fn listed_count(
    metadata: (Seq<char>, Seq<Seq<char>>, EpubRevision),
    manifest: Seq<(Seq<char>, Seq<char>, FileRole)>,
    toc: Seq<(Seq<char>, Seq<char>)>,
) -> nat {
    1 + metadata.1.len() + 2 * manifest.len() + 2 * toc.len()
}

/// How many characters those strings hold together.
pub open spec fn listed_chars(
    metadata: (Seq<char>, Seq<Seq<char>>, EpubRevision),
    manifest: Seq<(Seq<char>, Seq<char>, FileRole)>,
    toc: Seq<(Seq<char>, Seq<char>)>,
) -> nat {
    metadata.0.len() + text_total(metadata.1) + text_total(manifest_paths(manifest)) + text_total(
        manifest_types(manifest),
    ) + text_total(toc_links(toc)) + text_total(toc_titles(toc))
}

/// The manifest lists the stylesheet, which only [`add_stylesheet`] adds as a resource.
pub open spec fn has_stylesheet(manifest: Seq<(Seq<char>, Seq<char>, FileRole)>) -> bool {
    exists|i: int| 0 <= i < manifest.len() && (#[trigger] manifest[i]).2 == FileRole::Resource
}

/// The manifest lists the inline table of contents, which only
/// [`add_inline_toc`] adds with the role `Toc`.
pub open spec fn has_inline_toc(manifest: Seq<(Seq<char>, Seq<char>, FileRole)>) -> bool {
    exists|i: int| 0 <= i < manifest.len() && (#[trigger] manifest[i]).2 == FileRole::Page(PageKind::Toc)
}

/// The names of the entries that generating a book adds to its archive.
pub open spec fn generated_names(inline_toc: bool) -> Seq<Seq<char>> {
    if inline_toc {
        seq![OPF_ENTRY@, NCX_ENTRY@, NAV_ENTRY@, TOC_ENTRY@]
    } else {
        seq![OPF_ENTRY@, NCX_ENTRY@, NAV_ENTRY@]
    }
}

/// A book with these entries, metadata, manifest and table of contents is
/// sure to be written: no entry is too large, the generated files have names
/// of their own, its stylesheet is set, and its listing is within
/// [`MAX_LISTED`] strings and [`MAX_LISTED_CHARS`] characters.
pub open spec fn writable(
    entries: Seq<(Seq<char>, Seq<u8>)>,
    metadata: (Seq<char>, Seq<Seq<char>>, EpubRevision),
    manifest: Seq<(Seq<char>, Seq<char>, FileRole)>,
    toc: Seq<(Seq<char>, Seq<char>)>,
) -> bool {
    let names = entry_names(entries);
    &&& sizes_within(entries)
    &&& !names.contains(OPF_ENTRY@)
    &&& !names.contains(NCX_ENTRY@)
    &&& !names.contains(NAV_ENTRY@)
    &&& !names.contains(TOC_ENTRY@)
    &&& has_stylesheet(manifest)
    &&& listed_count(metadata, manifest, toc) <= MAX_LISTED
    &&& listed_chars(metadata, manifest, toc) <= MAX_LISTED_CHARS
}

/// The book `book` is sure to be written as it stands.
pub open spec fn ready_to_write(book: EpubDraft) -> bool {
    writable(epub_entries(book), epub_metadata(book), epub_manifest(book), epub_toc(book))
}

/// The manifest item of the inline table of contents.
pub open spec fn inline_toc_file() -> (Seq<char>, Seq<char>, FileRole) {
    (TOC_PAGE@, XHTML_TYPE@, FileRole::Page(PageKind::Toc))
}

/// The table of contents entry of the inline table of contents.
pub open spec fn inline_toc_entry() -> (Seq<char>, Seq<char>) {
    (TOC_PAGE@, TOC_NAME@)
}

/// The book `draft` is sure to be written once its inline table of contents
/// is added.
pub open spec fn ready_to_finish(draft: EpubDraft) -> bool {
    writable(
        epub_entries(draft),
        epub_metadata(draft),
        epub_manifest(draft).push(inline_toc_file()),
        epub_toc(draft).push(inline_toc_entry()),
    )
}

/// Writes the book out as the bytes of an EPUB file (`EpubBuilder::generate`
/// into an empty `Vec`), adding the package document `OEBPS/content.opf`, the
/// navigation files `OEBPS/toc.ncx` and `OEBPS/nav.xhtml`, and, when the book
/// has an inline table of contents, `OEBPS/toc.xhtml` to the archive.
/// Claimed, as the sources of `epub_builder` and `zip` show:
/// - it succeeds for a book [`ready_to_write`]: its templates are fixed and
///   render any book, zip then refuses only a repeated name or an entry past
///   4 GiB, and a listing within those bounds keeps each generated file far
///   below that (each listed string is written a few times, escaped, with
///   under a kilobyte of markup around it);
/// - the bytes start as [`epub_container_start`] says;
/// - a zip reader finds the entries already written, in order and with
///   their contents, then, for a book whose stylesheet is set, exactly the
///   added entries, in that order.
/// The contents of the added files are not claimed: they hold the time of
/// writing and a random identifier.
#[verifier::external_body]
fn generate(book: EpubDraft) -> (res: Result<Vec<u8>, epub_builder::Error>)
    ensures
        ready_to_write(book) ==> res is Ok,
        res matches Ok(bytes) ==> epub_container_start(bytes@),
        res matches Ok(bytes) ==> zip_archive_entries(bytes@).take(epub_entries(book).len() as int)
            == epub_entries(book),
        res matches Ok(bytes) ==> zip_archive_entries(bytes@).len() >= epub_entries(book).len(),
        res matches Ok(bytes) ==> (has_stylesheet(epub_manifest(book)) ==> entry_names(
            zip_archive_entries(bytes@).skip(epub_entries(book).len() as int),
        ) == generated_names(has_inline_toc(epub_manifest(book)))),
{
    let mut bytes: Vec<u8> = Vec::new();
    book.builder.generate(&mut bytes).map(|_| bytes)
}

/// The front matter of a book: its metadata, stylesheet, cover image, cover
/// page and title page.
pub struct FrontMatter {
    /// The title of the book.
    pub title: String,
    /// Its author.
    pub author: String,
    /// The contents of `stylesheet.css`.
    pub stylesheet: String,
    /// The file name of the cover image.
    pub cover_image_name: String,
    /// The cover image (JPEG).
    pub cover_image: Vec<u8>,
    /// The XHTML cover page.
    pub cover_page: String,
    /// The XHTML title page.
    pub title_page: String,
}

/// What goes into a book: its front matter and the XHTML page of each
/// chapter in reading order.
pub struct Book {
    /// The front matter.
    pub front: FrontMatter,
    /// The XHTML page of each chapter.
    pub chapters: Vec<String>,
}

/// Why a book could not be assembled or written.
#[derive(Debug)]
pub enum BookError {
    /// The name of the cover image is longer than [`MAX_PATH_CHARS`] characters.
    CoverImageName,
    /// `epub_builder` failed.
    Epub(epub_builder::Error),
}

/// The authors of a book whose author is `author`: none when it is empty.
pub open spec fn authors_of(author: Seq<char>) -> Seq<Seq<char>> {
    if author.len() == 0 {
        Seq::empty()
    } else {
        seq![author]
    }
}

/// The metadata of a book with front matter `front`: its title and author, EPUB 3.0.1.
pub open spec fn front_metadata(front: FrontMatter) -> (Seq<char>, Seq<Seq<char>>, EpubRevision) {
    (front.title@, authors_of(front.author@), EpubRevision::V30)
}

/// The archive entries of the front matter: stylesheet, cover image, cover
/// page and title page, each under `OEBPS/` with the contents it was given.
pub open spec fn front_entries(front: FrontMatter) -> Seq<(Seq<char>, Seq<u8>)> {
    seq![
        (in_oebps(STYLESHEET@), encode_utf8(front.stylesheet@)),
        (in_oebps(front.cover_image_name@), front.cover_image@),
        (in_oebps(COVER_PAGE@), encode_utf8(front.cover_page@)),
        (in_oebps(TITLE_PAGE@), encode_utf8(front.title_page@)),
    ]
}

/// The manifest of the front matter.
pub open spec fn front_manifest(front: FrontMatter) -> Seq<(Seq<char>, Seq<char>, FileRole)> {
    seq![
        (STYLESHEET@, CSS_TYPE@, FileRole::Resource),
        (front.cover_image_name@, COVER_IMAGE_TYPE@, FileRole::CoverImage),
        (COVER_PAGE@, XHTML_TYPE@, FileRole::Page(PageKind::Cover)),
        (TITLE_PAGE@, XHTML_TYPE@, FileRole::Page(PageKind::TitlePage)),
    ]
}

/// The table of contents of the front matter.
pub open spec fn front_toc() -> Seq<(Seq<char>, Seq<char>)> {
    seq![(COVER_PAGE@, "Cover"@), (TITLE_PAGE@, "Title"@)]
}

/// The front matter can be written: the cover image has a plain name unlike
/// the other files of the front matter, and no contents are too large.
pub open spec fn front_admissible(front: FrontMatter) -> bool {
    let cover = front.cover_image_name@;
    &&& cover.len() <= MAX_PATH_CHARS
    &&& joinable(cover)
    &&& cover != STYLESHEET@
    &&& cover != COVER_PAGE@
    &&& cover != TITLE_PAGE@
    &&& encode_utf8(front.stylesheet@).len() <= MAX_ENTRY_BYTES
    &&& front.cover_image@.len() <= MAX_ENTRY_BYTES
    &&& encode_utf8(front.cover_page@).len() <= MAX_ENTRY_BYTES
    &&& encode_utf8(front.title_page@).len() <= MAX_ENTRY_BYTES
}

/// The archive entries of the chapter pages `pages`: page `i` as
/// `OEBPS/chapter_<i + 1>.xhtml`.
pub open spec fn chapter_entries_in_archive(pages: Seq<Seq<char>>) -> Seq<(Seq<char>, Seq<u8>)> {
    Seq::new(
        pages.len(),
        |i: int| (in_oebps(chapter_file_name_spec((i + 1) as nat)), encode_utf8(pages[i])),
    )
}

/// The manifest of `count` chapter pages: text pages `chapter_1.xhtml`, ….
pub open spec fn chapter_manifest(count: nat) -> Seq<(Seq<char>, Seq<char>, FileRole)> {
    Seq::new(
        count,
        |i: int| (chapter_file_name_spec((i + 1) as nat), XHTML_TYPE@, FileRole::Page(PageKind::Text)),
    )
}

/// The table of contents entries of the chapters `1..=count`: each chapter
/// file, titled `Chapter <number>`.
pub open spec fn chapter_entries(count: nat) -> Seq<(Seq<char>, Seq<char>)> {
    Seq::new(
        count,
        |i: int| (chapter_file_name_spec((i + 1) as nat), chapter_title_spec((i + 1) as nat)),
    )
}

/// The file names of the chapters `1..=count`, in order.
pub open spec fn chapter_files(count: nat) -> Seq<Seq<char>> {
    Seq::new(count, |i: int| chapter_file_name_spec((i + 1) as nat))
}

/// The paths of the files of a book in the order they are added: the
/// stylesheet, the cover image, the cover page, the title page, the
/// chapters, and the table of contents.
pub open spec fn book_files(cover_image_name: Seq<char>, chapter_count: nat) -> Seq<Seq<char>> {
    seq![STYLESHEET@, cover_image_name, COVER_PAGE@, TITLE_PAGE@] + chapter_files(chapter_count)
        + seq![TOC_PAGE@]
}

/// The table of contents of a book up to its own entry: the cover page, the
/// title page, and the chapters.
pub open spec fn book_entries(chapter_count: nat) -> Seq<(Seq<char>, Seq<char>)> {
    front_toc() + chapter_entries(chapter_count)
}

/// The chapter pages `pages` can be added to an archive holding `entries`:
/// their names are new there and no contents are too large.
pub open spec fn chapters_admissible(entries: Seq<(Seq<char>, Seq<u8>)>, pages: Seq<Seq<char>>) -> bool {
    &&& sizes_within(entries)
    &&& forall|k: int| 0 <= k < pages.len() ==> encode_utf8(#[trigger] pages[k]).len() <= MAX_ENTRY_BYTES
    &&& forall|k: int|
        0 <= k < pages.len() ==> !entry_names(entries).contains(
            in_oebps(#[trigger] chapter_file_name_spec((k + 1) as nat)),
        )
}

/// A whole book can be written: its front matter can, and the cover image is
/// named unlike every chapter page.
pub open spec fn book_admissible(book: Book) -> bool {
    &&& front_admissible(book.front)
    &&& forall|k: int|
        0 <= k < book.chapters@.len() ==> book.front.cover_image_name@ != #[trigger] chapter_file_name_spec(
            (k + 1) as nat,
        )
    &&& forall|k: int| 0 <= k < book.chapters@.len() ==> encode_utf8((#[trigger] book.chapters@[k])@).len() <= MAX_ENTRY_BYTES
}

/// The archive name of a path in the book never names a file outside `OEBPS/`.
proof fn lemma_oebps_names(path: Seq<char>)
    ensures
        in_oebps(path) != mimetype_name(),
        in_oebps(path) != CONTAINER_ENTRY@,
        in_oebps(path) != IBOOKS_ENTRY@,
{
    reveal_strlit("OEBPS/");
    reveal_strlit("META-INF/container.xml");
    reveal_strlit("META-INF/com.apple.ibooks.display-options.xml");
    assert(in_oebps(path)[0] == 'O');
    assert(mimetype_name()[0] == 'm');
    assert(CONTAINER_ENTRY@[0] == 'M');
    assert(IBOOKS_ENTRY@[0] == 'M');
}

/// Two paths of the book have the same archive name only when they are equal.
proof fn lemma_oebps_injective(a: Seq<char>, b: Seq<char>)
    requires
        in_oebps(a) == in_oebps(b),
    ensures
        a == b,
{
    let n = "OEBPS/"@.len() as int;
    assert(in_oebps(a).skip(n) =~= a);
    assert(in_oebps(b).skip(n) =~= b);
}

/// The names of the fixed files of a book, and the chapter file names, are
/// plain paths, and no chapter file name is one of the fixed names.
proof fn lemma_fixed_names()
    ensures
        joinable(STYLESHEET@),
        joinable(COVER_PAGE@),
        joinable(TITLE_PAGE@),
        STYLESHEET@ != COVER_PAGE@,
        STYLESHEET@ != TITLE_PAGE@,
        COVER_PAGE@ != TITLE_PAGE@,
        STYLESHEET@.len() <= MAX_PATH_CHARS,
        COVER_PAGE@.len() <= MAX_PATH_CHARS,
        TITLE_PAGE@.len() <= MAX_PATH_CHARS,
        forall|k: nat| joinable(#[trigger] chapter_file_name_spec(k)),
        forall|k: nat| #[trigger] chapter_file_name_spec(k) != STYLESHEET@,
        forall|k: nat| #[trigger] chapter_file_name_spec(k) != COVER_PAGE@,
        forall|k: nat| #[trigger] chapter_file_name_spec(k) != TITLE_PAGE@,
{
    reveal_strlit("stylesheet.css");
    reveal_strlit("cover.xhtml");
    reveal_strlit("title.xhtml");
    reveal_strlit("chapter_");
    reveal_strlit(".xhtml");
    assert(STYLESHEET@[0] != COVER_PAGE@[0]);
    assert(STYLESHEET@[0] != TITLE_PAGE@[0]);
    assert(COVER_PAGE@[0] != TITLE_PAGE@[0]);
    assert forall|k: nat| joinable(#[trigger] chapter_file_name_spec(k)) by {
        let c = chapter_file_name_spec(k);
        let d = crate::page::decimal(k);
        assert forall|i: int| 0 <= i < c.len() implies #[trigger] c[i] != '\\' && c[i] != ':' by {
            lemma_decimal_digits(k);
            if 8 <= i < 8 + d.len() {
                assert(c[i] == d[i - 8]);
            }
        }
    }
    assert forall|k: nat| #[trigger] chapter_file_name_spec(k)[1] == 'h' by {
        assert(chapter_file_name_spec(k)[1] == FILE_PREFIX@[1]);
    }
    assert forall|k: nat| #[trigger] chapter_file_name_spec(k) != STYLESHEET@ by {
        assert(chapter_file_name_spec(k)[1] == 'h');
    }
    assert forall|k: nat| #[trigger] chapter_file_name_spec(k) != COVER_PAGE@ by {
        assert(chapter_file_name_spec(k)[1] == 'h');
    }
    assert forall|k: nat| #[trigger] chapter_file_name_spec(k) != TITLE_PAGE@ by {
        assert(chapter_file_name_spec(k)[1] == 'h');
    }
}

/// Every character of a decimal notation is a digit.
proof fn lemma_decimal_digits(n: nat)
    ensures
        forall|i: int| 0 <= i < crate::page::decimal(n).len() ==> '0' <= #[trigger] crate::page::decimal(n)[i] <= '9',
    decreases n,
{
    let d = crate::page::decimal(n);
    if n < 10 {
        assert(d[0] == crate::page::digit_char(n));
        assert(crate::page::digit_char(n) as int == 48 + n);
    } else {
        lemma_decimal_digits(n / 10);
        let m = crate::page::decimal(n / 10);
        assert(d == m.push(crate::page::digit_char(n % 10)));
        assert forall|i: int| 0 <= i < d.len() implies '0' <= #[trigger] d[i] <= '9' by {
            if i < m.len() {
                assert(d[i] == m[i]);
            } else {
                assert(crate::page::digit_char(n % 10) as int == 48 + n % 10);
            }
        }
    }
}

/// Starts the book `front` (title, author, EPUB 3.0.1, stylesheet, cover
/// image of type `image/jpg`, cover page, title page), ready for its chapters.
pub fn begin_book(front: &FrontMatter) -> (res: Result<EpubDraft, BookError>)
    ensures
        front.cover_image_name@.len() > MAX_PATH_CHARS ==> res matches Err(BookError::CoverImageName),
        res matches Err(BookError::CoverImageName) ==> front.cover_image_name@.len() > MAX_PATH_CHARS,
        front_admissible(*front) ==> res is Ok,
        front_admissible(*front) ==> (res matches Ok(draft) && sizes_within(epub_entries(draft))),
        res matches Ok(draft) ==> {
            &&& starts_archive(epub_entries(draft))
            &&& epub_entries(draft).skip(3) == front_entries(*front)
            &&& epub_manifest(draft) == front_manifest(*front)
            &&& epub_toc(draft) == front_toc()
            &&& epub_metadata(draft) == front_metadata(*front)
        },
{
    proof {
        reveal_strlit("Cover");
        reveal_strlit("Title");
        reveal_strlit("title");
        reveal_strlit("author");
        reveal_strlit("META-INF/container.xml");
        reveal_strlit("META-INF/com.apple.ibooks.display-options.xml");
        lemma_fixed_names();
    }
    if front.cover_image_name.as_str().unicode_len() > MAX_PATH_CHARS {
        return Err(BookError::CoverImageName);
    }
    let zip = match new_zip() {
        Ok(zip) => zip,
        Err(e) => return Err(BookError::Epub(e)),
    };
    let ghost z = zip_contents(zip);
    assert(entry_names(z) =~= seq![mimetype_name()]);
    assert(CONTAINER_ENTRY@[0] != mimetype_name()[0]);
    assert(IBOOKS_ENTRY@[0] != mimetype_name()[0]);
    let mut draft = match new_builder(zip) {
        Ok(draft) => draft,
        Err(e) => return Err(BookError::Epub(e)),
    };
    let ghost start = epub_entries(draft);
    assert(start.len() == 3);
    assert(start[0] == z[0]);
    assert(sizes_within(start));
    assert("title"@ != "author"@) by {
        assert("title"@[0] != "author"@[0]);
    }
    if let Err(e) = set_metadata(&mut draft, "title", front.title.as_str()) {
        return Err(BookError::Epub(e));
    }
    assert(epub_metadata(draft).0 == front.title@);
    assert(epub_metadata(draft).1 == Seq::<Seq<char>>::empty());
    if let Err(e) = set_metadata(&mut draft, "author", front.author.as_str()) {
        return Err(BookError::Epub(e));
    }
    assert(epub_metadata(draft).1 =~= authors_of(front.author@));
    set_version(&mut draft, EpubRevision::V30);
    assert(epub_metadata(draft) == front_metadata(*front));
    proof {
        lemma_oebps_names(STYLESHEET@);
        assert(!entry_names(start).contains(in_oebps(STYLESHEET@))) by {
            assert(entry_names(start) =~= seq![start[0].0, start[1].0, start[2].0]);
        }
    }
    if let Err(e) = add_stylesheet(&mut draft, front.stylesheet.as_str()) {
        return Err(BookError::Epub(e));
    }
    let ghost e1 = epub_entries(draft);
    proof {
        lemma_oebps_names(front.cover_image_name@);
        if in_oebps(front.cover_image_name@) == in_oebps(STYLESHEET@) {
            lemma_oebps_injective(front.cover_image_name@, STYLESHEET@);
        }
        assert(entry_names(e1) =~= seq![start[0].0, start[1].0, start[2].0, in_oebps(STYLESHEET@)]);
    }
    if let Err(e) = add_cover_image(
        &mut draft,
        front.cover_image_name.as_str(),
        front.cover_image.as_slice(),
        COVER_IMAGE_TYPE,
    ) {
        return Err(BookError::Epub(e));
    }
    let ghost e2 = epub_entries(draft);
    proof {
        lemma_oebps_names(COVER_PAGE@);
        if in_oebps(COVER_PAGE@) == in_oebps(STYLESHEET@) {
            lemma_oebps_injective(COVER_PAGE@, STYLESHEET@);
        }
        if in_oebps(COVER_PAGE@) == in_oebps(front.cover_image_name@) {
            lemma_oebps_injective(COVER_PAGE@, front.cover_image_name@);
        }
        assert(entry_names(e2) =~= entry_names(e1).push(in_oebps(front.cover_image_name@)));
    }
    if let Err(e) = add_page(&mut draft, COVER_PAGE, front.cover_page.as_str(), "Cover", PageKind::Cover) {
        return Err(BookError::Epub(e));
    }
    let ghost e3 = epub_entries(draft);
    proof {
        lemma_oebps_names(TITLE_PAGE@);
        if in_oebps(TITLE_PAGE@) == in_oebps(STYLESHEET@) {
            lemma_oebps_injective(TITLE_PAGE@, STYLESHEET@);
        }
        if in_oebps(TITLE_PAGE@) == in_oebps(front.cover_image_name@) {
            lemma_oebps_injective(TITLE_PAGE@, front.cover_image_name@);
        }
        if in_oebps(TITLE_PAGE@) == in_oebps(COVER_PAGE@) {
            lemma_oebps_injective(TITLE_PAGE@, COVER_PAGE@);
        }
        assert(entry_names(e3) =~= entry_names(e2).push(in_oebps(COVER_PAGE@)));
    }
    if let Err(e) = add_page(
        &mut draft,
        TITLE_PAGE,
        front.title_page.as_str(),
        "Title",
        PageKind::TitlePage,
    ) {
        return Err(BookError::Epub(e));
    }
    assert(epub_entries(draft).skip(3) =~= front_entries(*front));
    assert(starts_archive(epub_entries(draft)));
    assert(front_admissible(*front) ==> sizes_within(epub_entries(draft))) by {
        if front_admissible(*front) {
            assert forall|i: int| 0 <= i < epub_entries(draft).len() implies (#[trigger] epub_entries(draft)[i]).1.len() <= MAX_ENTRY_BYTES by {
                if i >= 3 {
                    assert(epub_entries(draft)[i] == front_entries(*front)[i - 3]);
                } else {
                    assert(epub_entries(draft)[i] == start[i]);
                }
            }
        }
    }
    assert(epub_manifest(draft) =~= front_manifest(*front));
    assert(epub_toc(draft) =~= front_toc());
    Ok(draft)
}


/// Adds `chapters` to the book, page `i` as `chapter_<i + 1>.xhtml`, a text
/// page titled `Chapter <i + 1>` in the table of contents.
pub fn add_chapters(draft: &mut EpubDraft, chapters: &Vec<String>) -> (res: Result<(), BookError>)
    requires
        chapters@.len() > 0,
    ensures
        chapters_admissible(epub_entries(*old(draft)), chapters.deep_view()) ==> res is Ok,
        chapters_admissible(epub_entries(*old(draft)), chapters.deep_view()) ==> sizes_within(
            epub_entries(*final(draft)),
        ),
        res is Err ==> res matches Err(BookError::Epub(_)),
        res is Ok ==> epub_entries(*final(draft)) == epub_entries(*old(draft))
            + chapter_entries_in_archive(chapters.deep_view()),
        res is Ok ==> epub_manifest(*final(draft)) == epub_manifest(*old(draft)) + chapter_manifest(
            chapters@.len(),
        ),
        res is Ok ==> epub_toc(*final(draft)) == epub_toc(*old(draft)) + chapter_entries(
            chapters@.len(),
        ),
        epub_metadata(*final(draft)) == epub_metadata(*old(draft)),
{
    let ghost cv = chapters.deep_view();
    let ghost e0 = epub_entries(*draft);
    let ghost m0 = epub_manifest(*draft);
    let ghost t0 = epub_toc(*draft);
    let ghost md = epub_metadata(*draft);
    proof {
        reveal_strlit("Chapter ");
        lemma_fixed_names();
    }
    let n = chapters.len();
    let mut i: usize = 0;
    assert(chapter_entries_in_archive(cv.take(0)) =~= Seq::<(Seq<char>, Seq<u8>)>::empty());
    assert(e0 + chapter_entries_in_archive(cv.take(0)) =~= e0);
    assert(m0 + chapter_manifest(0) =~= m0);
    assert(t0 + chapter_entries(0) =~= t0);
    while i < n
        invariant
            i <= n,
            n == chapters@.len(),
            cv == chapters.deep_view(),
            cv.len() == n,
            e0 == epub_entries(*old(draft)),
            m0 == epub_manifest(*old(draft)),
            t0 == epub_toc(*old(draft)),
            md == epub_metadata(*old(draft)),
            TITLE_PREFIX@.len() > 0,
            forall|k: nat| joinable(#[trigger] chapter_file_name_spec(k)),
            epub_entries(*draft) == e0 + chapter_entries_in_archive(cv.take(i as int)),
            epub_manifest(*draft) == m0 + chapter_manifest(i as nat),
            epub_toc(*draft) == t0 + chapter_entries(i as nat),
            epub_metadata(*draft) == md,
            chapters_admissible(e0, cv) ==> sizes_within(epub_entries(*draft)),
        decreases n - i,
    {
        let name = chapter_file_name(i + 1);
        let title = chapter_title(i + 1);
        proof {
            lemma_chapter_file_name_short((i + 1) as usize);
        }
        let ghost before = epub_entries(*draft);
        let ghost chapter_part = chapter_entries_in_archive(cv.take(i as int));
        proof {
            if chapters_admissible(e0, cv) {
                assert(entry_names(before) =~= entry_names(e0) + entry_names(chapter_part));
                let new_name = in_oebps(name@);
                assert(!entry_names(e0).contains(new_name)) by {
                    assert(chapter_file_name_spec((i as int + 1) as nat) == name@);
                }
                assert(!entry_names(chapter_part).contains(new_name)) by {
                    if entry_names(chapter_part).contains(new_name) {
                        let j = choose|j: int| 0 <= j < entry_names(chapter_part).len() && entry_names(chapter_part)[j] == new_name;
                        assert(entry_names(chapter_part)[j] == in_oebps(chapter_file_name_spec((j + 1) as nat)));
                        lemma_oebps_injective(chapter_file_name_spec((j + 1) as nat), name@);
                        law_chapter_file_names_distinct((j + 1) as nat, (i + 1) as nat);
                    }
                }
                assert(!entry_names(before).contains(new_name)) by {
                    if entry_names(before).contains(new_name) {
                        let j = choose|j: int| 0 <= j < entry_names(before).len() && entry_names(before)[j] == new_name;
                        if j < e0.len() {
                            assert(entry_names(e0)[j] == new_name);
                        } else {
                            assert(entry_names(chapter_part)[j - e0.len()] == new_name);
                        }
                    }
                }
                assert(cv[i as int] == chapters@[i as int]@);
            }
        }
        if let Err(e) = add_page(draft, name.as_str(), chapters[i].as_str(), title.as_str(), PageKind::Text) {
            return Err(BookError::Epub(e));
        }
        proof {
            assert(cv[i as int] == chapters@[i as int]@);
            assert(chapter_entries_in_archive(cv.take(i + 1)) =~= chapter_part.push(
                (in_oebps(name@), encode_utf8(chapters@[i as int]@)),
            ));
            assert(epub_entries(*draft) =~= e0 + chapter_entries_in_archive(cv.take(i + 1)));
            assert(chapter_manifest((i + 1) as nat) =~= chapter_manifest(i as nat).push(
                (name@, XHTML_TYPE@, FileRole::Page(PageKind::Text)),
            ));
            assert(epub_manifest(*draft) =~= m0 + chapter_manifest((i + 1) as nat));
            assert(chapter_entries((i + 1) as nat) =~= chapter_entries(i as nat).push((name@, title@)));
            assert(epub_toc(*draft) =~= t0 + chapter_entries((i + 1) as nat));
            if chapters_admissible(e0, cv) {
                assert forall|j: int| 0 <= j < epub_entries(*draft).len() implies (#[trigger] epub_entries(*draft)[j]).1.len() <= MAX_ENTRY_BYTES by {
                    if j < before.len() {
                        assert(epub_entries(*draft)[j] == before[j]);
                    }
                }
            }
        }
        i = i + 1;
    }
    assert(cv.take(n as int) =~= cv);
    Ok(())
}

/// Writes the book out as it stands, with the error of `epub_builder` as
/// the book's error.
fn write_draft(draft: EpubDraft) -> (res: Result<Vec<u8>, BookError>)
    ensures
        ready_to_write(draft) ==> res is Ok,
        res is Err ==> res matches Err(BookError::Epub(_)),
        res matches Ok(bytes) ==> epub_container_start(bytes@),
        res matches Ok(bytes) ==> zip_archive_entries(bytes@).len() >= epub_entries(draft).len(),
        res matches Ok(bytes) ==> zip_archive_entries(bytes@).take(epub_entries(draft).len() as int)
            == epub_entries(draft),
        res matches Ok(bytes) ==> (has_stylesheet(epub_manifest(draft)) ==> entry_names(
            zip_archive_entries(bytes@).skip(epub_entries(draft).len() as int),
        ) == generated_names(has_inline_toc(epub_manifest(draft)))),
{
    match generate(draft) {
        Ok(bytes) => Ok(bytes),
        Err(e) => Err(BookError::Epub(e)),
    }
}

/// Adds the inline table of contents to the book and writes it out as the
/// bytes of an EPUB file, which start with the container's uncompressed
/// `mimetype` entry and hold every file written so far, in order, with its
/// contents, followed, for a book whose stylesheet is set, by exactly the
/// package document, the two navigation files and the inline table of
/// contents.  It succeeds for a book [`ready_to_finish`].
pub fn finish_book(draft: EpubDraft) -> (res: Result<Vec<u8>, BookError>)
    ensures
        ready_to_finish(draft) ==> res is Ok,
        res is Err ==> res matches Err(BookError::Epub(_)),
        res matches Ok(bytes) ==> epub_container_start(bytes@),
        res matches Ok(bytes) ==> zip_archive_entries(bytes@).len() >= epub_entries(draft).len(),
        res matches Ok(bytes) ==> zip_archive_entries(bytes@).take(epub_entries(draft).len() as int)
            == epub_entries(draft),
        res matches Ok(bytes) ==> (has_stylesheet(epub_manifest(draft)) ==> entry_names(
            zip_archive_entries(bytes@).skip(epub_entries(draft).len() as int),
        ) == generated_names(true)),
{
    let ghost m0 = epub_manifest(draft);
    let mut draft = draft;
    add_inline_toc(&mut draft);
    proof {
        let m1 = epub_manifest(draft);
        assert(m1[m1.len() - 1].2 == FileRole::Page(PageKind::Toc));
        assert(has_inline_toc(m1));
        if has_stylesheet(m0) {
            let i = choose|i: int| 0 <= i < m0.len() && (#[trigger] m0[i]).2 == FileRole::Resource;
            assert(m1[i] == m0[i]);
            assert(has_stylesheet(m1));
        }
    }
    write_draft(draft)
}

/// No path of the front matter, and no path named unlike the fixed files and
/// the cover image, has its archive name among the first seven entries.
proof fn lemma_new_after_front(entries: Seq<(Seq<char>, Seq<u8>)>, front: FrontMatter, p: Seq<char>)
    requires
        starts_archive(entries),
        entries.skip(3) == front_entries(front),
        p != STYLESHEET@,
        p != COVER_PAGE@,
        p != TITLE_PAGE@,
        p != front.cover_image_name@,
    ensures
        !entry_names(entries).contains(in_oebps(p)),
{
    assert(entries.len() == 7) by {
        assert(entries.skip(3).len() == 4);
    }
    lemma_oebps_names(p);
    if entry_names(entries).contains(in_oebps(p)) {
        let j = choose|j: int| 0 <= j < entry_names(entries).len() && entry_names(entries)[j] == in_oebps(p);
        if j >= 3 {
            assert(entries[j] == front_entries(front)[j - 3]);
            if j == 3 {
                lemma_oebps_injective(p, STYLESHEET@);
            } else if j == 4 {
                lemma_oebps_injective(p, front.cover_image_name@);
            } else if j == 5 {
                lemma_oebps_injective(p, COVER_PAGE@);
            } else {
                lemma_oebps_injective(p, TITLE_PAGE@);
            }
        }
    }
}

/// Assembles `book` as an EPUB 3.0.1 book: title and author, stylesheet,
/// cover image of type `image/jpg`, cover page, title page, then chapter
/// `i + 1` as `chapter_<i + 1>.xhtml` titled `Chapter <i + 1>` for each page
/// `i`, then an inline table of contents; each file under `OEBPS/` in the
/// archive with the contents it was given.  It succeeds whenever
/// [`book_admissible`] holds, and refuses a cover image name longer than
/// [`MAX_PATH_CHARS`].
pub fn assemble(book: &Book) -> (res: Result<EpubDraft, BookError>)
    requires
        book.chapters@.len() > 0,
    ensures
        book.front.cover_image_name@.len() > MAX_PATH_CHARS ==> res matches Err(BookError::CoverImageName),
        res matches Err(BookError::CoverImageName) ==> book.front.cover_image_name@.len() > MAX_PATH_CHARS,
        book_admissible(*book) ==> res is Ok,
        book_admissible(*book) ==> (res matches Ok(draft) && sizes_within(epub_entries(draft))),
        res matches Ok(draft) ==> {
            &&& starts_archive(epub_entries(draft))
            &&& epub_entries(draft).skip(3) == front_entries(book.front)
                + chapter_entries_in_archive(book.chapters.deep_view())
            &&& epub_manifest(draft) == front_manifest(book.front) + chapter_manifest(
                book.chapters@.len(),
            ) + seq![inline_toc_file()]
            &&& manifest_paths(epub_manifest(draft)) == book_files(
                book.front.cover_image_name@,
                book.chapters@.len(),
            )
            &&& epub_metadata(draft) == front_metadata(book.front)
            &&& epub_toc(draft) == book_entries(book.chapters@.len()).push(inline_toc_entry())
        },
{
    let mut draft = begin_book(&book.front)?;
    let ghost e0 = epub_entries(draft);
    let ghost cv = book.chapters.deep_view();
    proof {
        lemma_fixed_names();
        if book_admissible(*book) {
            assert forall|k: int| 0 <= k < cv.len() implies !entry_names(e0).contains(
                in_oebps(#[trigger] chapter_file_name_spec((k + 1) as nat)),
            ) by {
                assert(book.front.cover_image_name@ != chapter_file_name_spec((k + 1) as nat));
                lemma_new_after_front(e0, book.front, chapter_file_name_spec((k + 1) as nat));
            }
            assert forall|k: int| 0 <= k < cv.len() implies encode_utf8(#[trigger] cv[k]).len() <= MAX_ENTRY_BYTES by {
                assert(cv[k] == book.chapters@[k]@);
            }
            assert(chapters_admissible(e0, cv));
        }
    }
    add_chapters(&mut draft, &book.chapters)?;
    let ghost e1 = epub_entries(draft);
    add_inline_toc(&mut draft);
    proof {
        assert(e1.skip(3) =~= e0.skip(3) + chapter_entries_in_archive(cv));
        assert(e1.take(3) =~= e0.take(3));
        assert(epub_toc(draft) =~= book_entries(book.chapters@.len()).push(inline_toc_entry()));
        assert(manifest_paths(epub_manifest(draft)) =~= book_files(
            book.front.cover_image_name@,
            book.chapters@.len(),
        ));
    }
    Ok(draft)
}

/// The most chapters that a book may have to be sure to be written by [`generate_epub`].
pub const MAX_CHAPTERS: usize = 20_000;

/// The most characters that the title and the author of a book may hold
/// together for it to be sure to be written by [`generate_epub`].
pub const MAX_TITLE_AND_AUTHOR: usize = 1_000_000;

/// A book that [`generate_epub`] is sure to write: it can be assembled, its
/// cover image is not named like a file that writing adds, and it has at most
/// [`MAX_CHAPTERS`] chapters and at most [`MAX_TITLE_AND_AUTHOR`] characters
/// of title and author.
pub open spec fn book_writable(book: Book) -> bool {
    &&& book_admissible(book)
    &&& !generated_names(true).contains(in_oebps(book.front.cover_image_name@))
    &&& book.chapters@.len() <= MAX_CHAPTERS
    &&& book.front.title@.len() + book.front.author@.len() <= MAX_TITLE_AND_AUTHOR
}

/// `name` can name the cover image of any book: it is at most
/// [`MAX_PATH_CHARS`] characters long, joins `OEBPS` as plain text, and is
/// unlike the other files of the front matter, every chapter file and every
/// file that writing adds: all that [`book_writable`] asks of the name.
pub open spec fn cover_name_fits(name: Seq<char>) -> bool {
    &&& name.len() <= MAX_PATH_CHARS
    &&& joinable(name)
    &&& name != STYLESHEET@
    &&& name != COVER_PAGE@
    &&& name != TITLE_PAGE@
    &&& forall|k: nat| name != #[trigger] chapter_file_name_spec(k)
    &&& !generated_names(true).contains(in_oebps(name))
}

/// The total length of two lists of texts is the sum of their totals.
proof fn lemma_text_total_concat(a: Seq<Seq<char>>, b: Seq<Seq<char>>)
    ensures
        text_total(a + b) == text_total(a) + text_total(b),
    decreases b.len(),
{
    if b.len() == 0 {
        assert(a + b =~= a);
    } else {
        lemma_text_total_concat(a, b.drop_last());
        assert((a + b).drop_last() =~= a + b.drop_last());
    }
}

/// Texts of at most `c` characters each total at most `c` times their number.
proof fn lemma_text_total_bound(texts: Seq<Seq<char>>, c: nat)
    requires
        forall|i: int| 0 <= i < texts.len() ==> (#[trigger] texts[i]).len() <= c,
    ensures
        text_total(texts) <= texts.len() * c,
    decreases texts.len(),
{
    if texts.len() > 0 {
        let rest = texts.drop_last();
        assert forall|i: int| 0 <= i < rest.len() implies (#[trigger] rest[i]).len() <= c by {
            assert(rest[i] == texts[i]);
        }
        lemma_text_total_bound(rest, c);
        let n = texts.len() as int;
        assert((n - 1) * c + c == n * c) by (nonlinear_arith);
    }
}

/// No entry of an assembled book is named like a file that writing adds.
proof fn lemma_generated_fresh(entries: Seq<(Seq<char>, Seq<u8>)>, book: Book)
    requires
        starts_archive(entries),
        entries.skip(3) == front_entries(book.front) + chapter_entries_in_archive(
            book.chapters.deep_view(),
        ),
        !generated_names(true).contains(in_oebps(book.front.cover_image_name@)),
    ensures
        !entry_names(entries).contains(OPF_ENTRY@),
        !entry_names(entries).contains(NCX_ENTRY@),
        !entry_names(entries).contains(NAV_ENTRY@),
        !entry_names(entries).contains(TOC_ENTRY@),
{
    reveal_strlit("OEBPS/");
    reveal_strlit("OEBPS/content.opf");
    reveal_strlit("OEBPS/toc.ncx");
    reveal_strlit("OEBPS/nav.xhtml");
    reveal_strlit("OEBPS/toc.xhtml");
    reveal_strlit("stylesheet.css");
    reveal_strlit("cover.xhtml");
    reveal_strlit("title.xhtml");
    reveal_strlit("META-INF/container.xml");
    reveal_strlit("META-INF/com.apple.ibooks.display-options.xml");
    let gs = generated_names(true);
    let names = entry_names(entries);
    let cv = book.chapters.deep_view();
    let rest = front_entries(book.front) + chapter_entries_in_archive(cv);
    reveal_strlit("chapter_");
    assert(entries.len() == 7 + cv.len()) by {
        assert(entries.skip(3).len() == rest.len());
    }
    assert forall|gi: int| 0 <= gi < 4 implies !names.contains(#[trigger] gs[gi]) by {
        let g = gs[gi];
        assert(g[0] == 'O');
        assert(g[7] != 'h');
        if names.contains(g) {
            let j = choose|j: int| 0 <= j < names.len() && names[j] == g;
            if j >= 3 {
                assert(entries[j] == rest[j - 3]);
                if j == 4 {
                    assert(gs.contains(in_oebps(book.front.cover_image_name@)));
                } else if j == 5 {
                    assert(g[8] != in_oebps(COVER_PAGE@)[8]);
                } else if j >= 7 {
                    let k = j - 7;
                    let c = chapter_file_name_spec((k + 1) as nat);
                    assert(rest[j - 3] == chapter_entries_in_archive(cv)[k]);
                    assert(c[1] == FILE_PREFIX@[1]);
                    assert(in_oebps(c)[7] == c[1]);
                }
            }
        }
    }
    assert(gs[0] == OPF_ENTRY@);
    assert(gs[1] == NCX_ENTRY@);
    assert(gs[2] == NAV_ENTRY@);
    assert(gs[3] == TOC_ENTRY@);
}

/// An assembled book of a [`book_writable`] book lists few enough strings,
/// and few enough characters, to be sure to be written.
proof fn lemma_assembled_listing(
    book: Book,
    manifest: Seq<(Seq<char>, Seq<char>, FileRole)>,
    toc: Seq<(Seq<char>, Seq<char>)>,
)
    requires
        book_writable(book),
        manifest == front_manifest(book.front) + chapter_manifest(book.chapters@.len()) + seq![
            inline_toc_file(),
        ],
        manifest_paths(manifest) == book_files(book.front.cover_image_name@, book.chapters@.len()),
        toc == book_entries(book.chapters@.len()).push(inline_toc_entry()),
    ensures
        listed_count(front_metadata(book.front), manifest, toc) <= MAX_LISTED,
        listed_chars(front_metadata(book.front), manifest, toc) <= MAX_LISTED_CHARS,
{
    reveal_strlit("stylesheet.css");
    reveal_strlit("cover.xhtml");
    reveal_strlit("title.xhtml");
    reveal_strlit("toc.xhtml");
    reveal_strlit("text/css");
    reveal_strlit("image/jpg");
    reveal_strlit("application/xhtml+xml");
    reveal_strlit("Cover");
    reveal_strlit("Title");
    reveal_strlit("Table Of Contents");
    let n = book.chapters@.len();
    let front = book.front;
    let cover = front.cover_image_name@;
    // the authors
    let authors = authors_of(front.author@);
    assert(text_total(authors) <= front.author@.len()) by {
        if front.author@.len() > 0 {
            assert(authors.drop_last() =~= Seq::<Seq<char>>::empty());
            assert(text_total(Seq::<Seq<char>>::empty()) == 0);
        }
    }
    // the manifest paths
    let fixed = seq![STYLESHEET@, cover, COVER_PAGE@, TITLE_PAGE@];
    let files = chapter_files(n);
    let last = seq![TOC_PAGE@];
    assert(book_files(cover, n) == fixed + files + last);
    lemma_text_total_concat(fixed + files, last);
    lemma_text_total_concat(fixed, files);
    assert forall|i: int| 0 <= i < fixed.len() implies (#[trigger] fixed[i]).len() <= MAX_PATH_CHARS by {}
    lemma_text_total_bound(fixed, MAX_PATH_CHARS as nat);
    assert forall|i: int| 0 <= i < files.len() implies (#[trigger] files[i]).len() <= 34 by {
        lemma_chapter_file_name_short((i + 1) as usize);
    }
    lemma_text_total_bound(files, 34);
    assert forall|i: int| 0 <= i < last.len() implies (#[trigger] last[i]).len() <= 9 by {}
    lemma_text_total_bound(last, 9);
    // the media types
    let types = manifest_types(manifest);
    assert forall|i: int| 0 <= i < types.len() implies (#[trigger] types[i]).len() <= 21 by {
        assert(types[i] == manifest[i].1);
        if i < 4 {
            assert(manifest[i] == front_manifest(front)[i]);
        } else if i < 4 + n {
            assert(manifest[i] == chapter_manifest(n)[i - 4]);
        } else {
            assert(manifest[i] == inline_toc_file());
        }
    }
    lemma_text_total_bound(types, 21);
    // the table of contents
    let links = toc_links(toc);
    let titles = toc_titles(toc);
    assert forall|i: int| 0 <= i < links.len() implies (#[trigger] links[i]).len() <= 34 by {
        assert(links[i] == toc[i].0);
        if i < 2 {
            assert(toc[i] == front_toc()[i]);
        } else if i < 2 + n {
            assert(toc[i] == chapter_entries(n)[i - 2]);
            lemma_chapter_file_name_short((i - 1) as usize);
        } else {
            assert(toc[i] == inline_toc_entry());
        }
    }
    lemma_text_total_bound(links, 34);
    assert forall|i: int| 0 <= i < titles.len() implies (#[trigger] titles[i]).len() <= 28 by {
        assert(titles[i] == toc[i].1);
        if i < 2 {
            assert(toc[i] == front_toc()[i]);
        } else if i < 2 + n {
            assert(toc[i] == chapter_entries(n)[i - 2]);
            lemma_chapter_title_short((i - 1) as usize);
        } else {
            assert(toc[i] == inline_toc_entry());
        }
    }
    lemma_text_total_bound(titles, 28);
}

/// Assembles `book` as [`assemble`] does and writes it out as the bytes of an
/// EPUB file: a zip reader finds in them `mimetype`, the two entries of
/// `META-INF`, then each file of the front matter and each chapter page under
/// `OEBPS/`, in order and with the contents they were given, and then
/// exactly the package document, the two navigation files and the inline
/// table of contents.  It succeeds for a book [`book_writable`], and refuses
/// a cover image name longer than [`MAX_PATH_CHARS`].
pub fn generate_epub(book: &Book) -> (res: Result<Vec<u8>, BookError>)
    requires
        book.chapters@.len() > 0,
    ensures
        book.front.cover_image_name@.len() > MAX_PATH_CHARS ==> res matches Err(BookError::CoverImageName),
        res matches Err(BookError::CoverImageName) ==> book.front.cover_image_name@.len() > MAX_PATH_CHARS,
        book_writable(*book) ==> res is Ok,
        res matches Ok(bytes) ==> epub_container_start(bytes@),
        res matches Ok(bytes) ==> {
            let found = zip_archive_entries(bytes@);
            let n = book.chapters@.len();
            &&& found.len() >= 7 + n
            &&& starts_archive(found)
            &&& found.subrange(3, 7 + n as int) == front_entries(book.front) + chapter_entries_in_archive(
                book.chapters.deep_view(),
            )
            &&& entry_names(found.skip(7 + n as int)) == generated_names(true)
        },
{
    let draft = assemble(book)?;
    let ghost entries = epub_entries(draft);
    let ghost manifest = epub_manifest(draft);
    proof {
        assert(entries.len() == 7 + book.chapters@.len()) by {
            assert(entries.skip(3).len() == 4 + book.chapters@.len());
        }
        assert(manifest[0] == front_manifest(book.front)[0]);
        assert(has_stylesheet(manifest));
        let last = manifest.len() - 1;
        assert(manifest[last] == inline_toc_file());
        assert(has_inline_toc(manifest));
        if book_writable(*book) {
            lemma_generated_fresh(entries, *book);
            lemma_assembled_listing(*book, manifest, epub_toc(draft));
            assert(ready_to_write(draft));
        }
    }
    let res = write_draft(draft);
    proof {
        if let Ok(bytes) = &res {
            let found = zip_archive_entries(bytes@);
            let n = book.chapters@.len();
            assert(found.take(entries.len() as int) == entries);
            assert(found[0] == entries[0]);
            assert(found[1] == entries[1]);
            assert(found[2] == entries[2]);
            assert(found.subrange(3, 7 + n as int) =~= entries.skip(3));
        }
    }
    res
}

/// No two files of a book share a name, as long as the cover image is named
/// unlike the fixed files and the chapters.
pub proof fn law_book_files_distinct(cover_image_name: Seq<char>, chapter_count: nat)
    requires
        cover_image_name != STYLESHEET@,
        cover_image_name != COVER_PAGE@,
        cover_image_name != TITLE_PAGE@,
        cover_image_name != TOC_PAGE@,
        forall|k: nat| cover_image_name != #[trigger] chapter_file_name_spec(k),
    ensures
        forall|i: int, j: int|
            0 <= i < j < book_files(cover_image_name, chapter_count).len() ==> #[trigger] book_files(
                cover_image_name,
                chapter_count,
            )[i] != #[trigger] book_files(cover_image_name, chapter_count)[j],
{
    reveal_strlit("stylesheet.css");
    reveal_strlit("cover.xhtml");
    reveal_strlit("title.xhtml");
    reveal_strlit("toc.xhtml");
    reveal_strlit("chapter_");
    let files = book_files(cover_image_name, chapter_count);
    let fixed = seq![STYLESHEET@, COVER_PAGE@, TITLE_PAGE@, TOC_PAGE@];
    // the second character of a chapter file name is `h`, that of no fixed name
    assert forall|k: nat| (#[trigger] chapter_file_name_spec(k))[1] == 'h' by {
        assert(chapter_file_name_spec(k)[1] == FILE_PREFIX@[1]);
    }
    assert(fixed[0][1] != 'h' && fixed[1][1] != 'h' && fixed[2][1] != 'h' && fixed[3][1] != 'h');
    assert forall|i: int, j: int| 0 <= i < j < files.len() implies #[trigger] files[i] != #[trigger] files[j] by {
        let n = chapter_count as int;
        if 4 <= i && j < 4 + n {
            assert(files[i] == chapter_file_name_spec((i - 3) as nat));
            assert(files[j] == chapter_file_name_spec((j - 3) as nat));
            law_chapter_file_names_distinct((i - 3) as nat, (j - 3) as nat);
        } else if 4 <= i && i < 4 + n {
            assert(files[i] == chapter_file_name_spec((i - 3) as nat));
            assert(files[j] == fixed[3]);
            assert(files[i][1] == 'h');
        } else if i < 4 && 4 <= j && j < 4 + n {
            assert(files[j] == chapter_file_name_spec((j - 3) as nat));
            assert(files[j][1] == 'h');
            assert(files[0] == fixed[0]);
            assert(files[2] == fixed[1]);
            assert(files[3] == fixed[2]);
        } else {
            assert(files[0] == fixed[0]);
            assert(files[2] == fixed[1]);
            assert(files[3] == fixed[2]);
            assert(files[files.len() - 1] == fixed[3]);
            assert(fixed[0][0] != fixed[1][0]);
            assert(fixed[0][0] != fixed[2][0]);
            assert(fixed[0][0] != fixed[3][0]);
            assert(fixed[1][0] != fixed[2][0]);
            assert(fixed[1][0] != fixed[3][0]);
            assert(fixed[2][1] != fixed[3][1]);
        }
    }
}

} // verus!
