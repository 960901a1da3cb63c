//! The three novels: where their chapters are found and how a chapter page
//! of each is turned into an XHTML page of the book.
use vstd::prelude::*;

use crate::epub::{cover_name_fits, generated_names, in_oebps, COVER_PAGE, STYLESHEET, TITLE_PAGE};
use crate::page::{
    chapter_file_name_spec, headed_chapter_page, headed_page_spec, titled_chapter_page,
    titled_page_spec, FILE_PREFIX,
};
use crate::scrape::{
    chapter_urls, chapter_urls_spec, join_lines, law_stripped_removes_every_tag, lines_of, same_list_outcome, same_text_outcome,
    select_html, select_inner_html, selected_html, selected_inner_html, strip, stripped, unscramble,
    unscrambled, ChapterError,
};
use crate::text::{free_of, one_tag, tags_closed};
use crate::utils::{clean_html, cleaned};

verus! {

/// The number of chapters of "I Don't Want This Reincarnation".
pub const IDWTR_CHAPTER_COUNT: usize = 346;

/// The paragraphs of a chapter of "I Don't Want This Reincarnation".
pub const IDWTR_PARAGRAPHS: &'static str = "#box-content div.c-content.mt-2 > p";

/// The table of contents of "It's Easy to Take Care of a Live-in Hero!".
pub const IETCLH_INDEX_URL: &'static str = "https://chrysanthemumgarden.com/novel-tl/ietclh/";

/// The chapter links of its table of contents.
pub const IETCLH_LINKS: &'static str = ".chapter-item > a";

/// The chapter text of one of its chapter pages.
pub const IETCLH_CHAPTER: &'static str = "#novel-content";

/// The header of one of its chapter pages.
pub const IETCLH_HEADER: &'static str = "header.entry-header";

/// The fragments of a chapter written in the scrambled font.
pub const IETCLH_SCRAMBLED: &'static str = "#novel-content .jum";

/// The invisible filler elements of a chapter.
pub const IETCLH_FILLERS: &'static str = "#novel-content [style='height:1px;width:0;overflow:hidden;display:inline-block']";

/// The images of a chapter.
pub const IETCLH_IMAGES: &'static str = "#novel-content img";

/// The table of contents of "Nurturing the Hero to Avoid Death".
pub const NHAD_INDEX_URL: &'static str = "https://perpetualdaydreams.com/novel/nhad/nhad-tl/";

/// The chapter links of its table of contents.
pub const NHAD_LINKS: &'static str = "#post-2089 > div.post-content > p:nth-child(28) > a";

/// The chapter text of one of its chapter pages.
pub const NHAD_CHAPTER: &'static str = ".post-content";

/// The header of one of its chapter pages.
pub const NHAD_HEADER: &'static str = ".post-header";

/// The images of a chapter.
pub const NHAD_IMAGES: &'static str = ".post-content img";

/// The title of "I Don't Want This Reincarnation".
pub const IDWTR_TITLE: &'static str = "I Don't Want This Reincarnation";

/// Its author.
pub const IDWTR_AUTHOR: &'static str = "Chaseon";

/// The directory of its cover image, stylesheet, cover page and title page.
pub const IDWTR_ASSETS: &'static str = "./assets/idwtr";

/// The file name of its cover image, in that directory and in the book.
pub const IDWTR_COVER_IMAGE: &'static str = "I-Dont-Want-This-Reincarnation.jpg";

/// Where its book is written.
pub const IDWTR_OUTPUT: &'static str = "./out/i_dont_want_this_reincarnation.epub";

/// The title of "It's Easy to Take Care of a Live-in Hero!".
pub const IETCLH_TITLE: &'static str = "It’s Easy to Take Care of a Live-in Hero!";

/// Its author.
pub const IETCLH_AUTHOR: &'static str = "Goldfish";

/// The directory of its cover image, stylesheet, cover page and title page.
pub const IETCLH_ASSETS: &'static str = "./assets/ietclh";

/// The file name of its cover image, in that directory and in the book.
pub const IETCLH_COVER_IMAGE: &'static str = "cover.jpg";

/// Where its book is written.
pub const IETCLH_OUTPUT: &'static str = "./out/its_easy_to_take_care_of_a_live_in_hero.epub";

/// The title of "Nurturing the Hero to Avoid Death".
pub const NHAD_TITLE: &'static str = "Nurturing the Hero to Avoid Death";

/// Its author.
pub const NHAD_AUTHOR: &'static str = "mugwort";

/// The directory of its cover image, stylesheet, cover page and title page.
pub const NHAD_ASSETS: &'static str = "./assets/nhad";

/// The file name of its cover image, in that directory and in the book.
pub const NHAD_COVER_IMAGE: &'static str = "cover.jpg";

/// Where its book is written.
pub const NHAD_OUTPUT: &'static str = "./out/nhad.epub";

/// The cover image of each novel is named as the cover image of a book may be.
pub proof fn law_novel_cover_names()
    ensures
        cover_name_fits(IDWTR_COVER_IMAGE@),
        cover_name_fits(IETCLH_COVER_IMAGE@),
        cover_name_fits(NHAD_COVER_IMAGE@),
{
    reveal_strlit("I-Dont-Want-This-Reincarnation.jpg");
    reveal_strlit("cover.jpg");
    reveal_strlit("stylesheet.css");
    reveal_strlit("cover.xhtml");
    reveal_strlit("title.xhtml");
    reveal_strlit("chapter_");
    reveal_strlit("OEBPS/");
    reveal_strlit("OEBPS/content.opf");
    reveal_strlit("OEBPS/toc.ncx");
    reveal_strlit("OEBPS/nav.xhtml");
    reveal_strlit("OEBPS/toc.xhtml");
    assert forall|k: nat| (#[trigger] chapter_file_name_spec(k))[1] == 'h' by {
        assert(chapter_file_name_spec(k)[1] == FILE_PREFIX@[1]);
    }
    let names = seq![IDWTR_COVER_IMAGE@, IETCLH_COVER_IMAGE@];
    assert forall|ni: int| 0 <= ni < 2 implies cover_name_fits(#[trigger] names[ni]) by {
        let name = names[ni];
        assert(name[1] != 'h');
        assert forall|k: nat| name != #[trigger] chapter_file_name_spec(k) by {
            assert(chapter_file_name_spec(k)[1] == 'h');
        }
        assert forall|i: int| 0 <= i < name.len() implies #[trigger] name[i] != '\\' && name[i] != ':' by {}
        let gs = generated_names(true);
        assert forall|gi: int| 0 <= gi < 4 implies #[trigger] gs[gi] != in_oebps(name) by {
            assert(gs[gi][6] != in_oebps(name)[6] || gs[gi].len() != in_oebps(name).len());
        }
        assert(name != COVER_PAGE@ && name != TITLE_PAGE@ && name != STYLESHEET@);
    }
    assert(cover_name_fits(names[0]));
    assert(cover_name_fits(names[1]));
}

// ---------------------------------------------------------------------------
// I Don't Want This Reincarnation
// ---------------------------------------------------------------------------

/// The book page of chapter `number` of "I Don't Want This Reincarnation",
/// made of the serialized `paragraphs` of its source page.
pub fn idwtr_page_from_paragraphs(number: usize, paragraphs: &Vec<String>) -> (res: String)
    ensures
        res@ == titled_page_spec(number as nat, lines_of(paragraphs.deep_view())),
{
    let text = join_lines(paragraphs);
    titled_chapter_page(number, text.as_str())
}

/// What becomes of the source page `html_body` of chapter `number` of
/// "I Don't Want This Reincarnation".
pub open spec fn idwtr_chapter_spec(number: nat, html_body: Seq<char>) -> Result<Seq<char>, ChapterError> {
    match selected_html(html_body, IDWTR_PARAGRAPHS@) {
        None => Err(ChapterError::InvalidSelector),
        Some(paragraphs) => Ok(titled_page_spec(number, lines_of(paragraphs))),
    }
}

/// The book page of chapter `number` of "I Don't Want This Reincarnation"
/// from its source page `html_body`.
pub fn idwtr_chapter(number: usize, html_body: &str) -> (res: Result<String, ChapterError>)
    ensures
        same_text_outcome(res, idwtr_chapter_spec(number as nat, html_body@)),
{
    match select_html(html_body, IDWTR_PARAGRAPHS) {
        None => Err(ChapterError::InvalidSelector),
        Some(paragraphs) => Ok(idwtr_page_from_paragraphs(number, &paragraphs)),
    }
}

// ---------------------------------------------------------------------------
// Pages made of a scraped header and chapter
// ---------------------------------------------------------------------------

/// The page of chapter `number` from the inner HTML of the source's header
/// elements and chapter elements (the first of each is used), once the
/// scrambled fragments are decrypted and the unwanted fragments removed.
pub open spec fn headed_page_from_parts(
    number: nat,
    headers: Seq<Seq<char>>,
    chapters: Seq<Seq<char>>,
    scrambled: Seq<Seq<char>>,
    unwanted: Seq<Seq<char>>,
) -> Result<Seq<char>, ChapterError> {
    if headers.len() == 0 {
        Err(ChapterError::MissingHeader)
    } else if chapters.len() == 0 {
        Err(ChapterError::MissingChapter)
    } else {
        Ok(
            headed_page_spec(
                number,
                cleaned(headers[0]),
                stripped(unscrambled(cleaned(chapters[0]), scrambled), unwanted),
            ),
        )
    }
}

/// The book page of chapter `number` built from the inner HTML of the
/// source's `headers` and `chapters` elements (the first of each), with the
/// `scrambled` fragments decrypted and the `unwanted` fragments removed.
pub fn page_from_parts(
    number: usize,
    headers: &Vec<String>,
    chapters: &Vec<String>,
    scrambled: &Vec<String>,
    unwanted: &Vec<String>,
) -> (res: Result<String, ChapterError>)
    ensures
        same_text_outcome(
            res,
            headed_page_from_parts(
                number as nat,
                headers.deep_view(),
                chapters.deep_view(),
                scrambled.deep_view(),
                unwanted.deep_view(),
            ),
        ),
{
    if headers.len() == 0 {
        return Err(ChapterError::MissingHeader);
    }
    if chapters.len() == 0 {
        return Err(ChapterError::MissingChapter);
    }
    let header = clean_html(headers[0].clone());
    let chapter = clean_html(chapters[0].clone());
    let chapter = unscramble(chapter, scrambled);
    let chapter = strip(chapter, unwanted);
    Ok(headed_chapter_page(number, header.as_str(), chapter.as_str()))
}

// ---------------------------------------------------------------------------
// It's Easy to Take Care of a Live-in Hero!
// ---------------------------------------------------------------------------

/// The chapter addresses in the table of contents `index_page` of
/// "It's Easy to Take Care of a Live-in Hero!".
pub fn ietclh_chapter_urls(index_page: &str) -> (res: Result<Vec<String>, ChapterError>)
    ensures
        same_list_outcome(res, chapter_urls_spec(index_page@, IETCLH_LINKS@)),
{
    chapter_urls(index_page, IETCLH_LINKS)
}

/// What becomes of the source page `html_body` of chapter `number` of
/// "It's Easy to Take Care of a Live-in Hero!": its filler elements and
/// images are removed after its scrambled fragments are decrypted.
pub open spec fn ietclh_chapter_spec(number: nat, html_body: Seq<char>) -> Result<Seq<char>, ChapterError> {
    match (
        selected_inner_html(html_body, IETCLH_HEADER@),
        selected_inner_html(html_body, IETCLH_CHAPTER@),
        selected_inner_html(html_body, IETCLH_SCRAMBLED@),
        selected_html(html_body, IETCLH_FILLERS@),
        selected_html(html_body, IETCLH_IMAGES@),
    ) {
        (Some(headers), Some(chapters), Some(scrambled), Some(fillers), Some(images)) => {
            headed_page_from_parts(number, headers, chapters, scrambled, fillers + images)
        },
        _ => Err(ChapterError::InvalidSelector),
    }
}

/// The book page of chapter `number` of "It's Easy to Take Care of a Live-in
/// Hero!" from its source page `html_body`.
pub fn ietclh_chapter(number: usize, html_body: &str) -> (res: Result<String, ChapterError>)
    ensures
        same_text_outcome(res, ietclh_chapter_spec(number as nat, html_body@)),
{
    let headers = select_inner_html(html_body, IETCLH_HEADER);
    let chapters = select_inner_html(html_body, IETCLH_CHAPTER);
    let scrambled = select_inner_html(html_body, IETCLH_SCRAMBLED);
    let fillers = select_html(html_body, IETCLH_FILLERS);
    let images = select_html(html_body, IETCLH_IMAGES);
    match (headers, chapters, scrambled, fillers, images) {
        (Some(headers), Some(chapters), Some(scrambled), Some(fillers), Some(images)) => {
            let mut unwanted = fillers;
            let mut more = images;
            let ghost fv = unwanted.deep_view();
            let ghost iv = more.deep_view();
            unwanted.append(&mut more);
            assert(unwanted.deep_view() =~= fv + iv);
            page_from_parts(number, &headers, &chapters, &scrambled, &unwanted)
        },
        _ => Err(ChapterError::InvalidSelector),
    }
}

/// Every filler element and image of a chapter page of "It's Easy to Take
/// Care of a Live-in Hero!" is removed from its book page, after its
/// scrambled fragments are decrypted: when the source page has a header and a
/// chapter whose decrypted text has closed tags, and each filler and image
/// element is a single tag, the book page is the headed page of the decrypted
/// chapter with the fillers, then the images, removed one after another, and
/// that text holds none of them.
pub proof fn law_ietclh_chapter_without_fillers_or_images(
    number: nat,
    html_body: Seq<char>,
    headers: Seq<Seq<char>>,
    chapters: Seq<Seq<char>>,
    scrambled: Seq<Seq<char>>,
    fillers: Seq<Seq<char>>,
    images: Seq<Seq<char>>,
)
    requires
        selected_inner_html(html_body, IETCLH_HEADER@) == Some(headers),
        selected_inner_html(html_body, IETCLH_CHAPTER@) == Some(chapters),
        selected_inner_html(html_body, IETCLH_SCRAMBLED@) == Some(scrambled),
        selected_html(html_body, IETCLH_FILLERS@) == Some(fillers),
        selected_html(html_body, IETCLH_IMAGES@) == Some(images),
        headers.len() > 0,
        chapters.len() > 0,
        tags_closed(unscrambled(cleaned(chapters[0]), scrambled)),
        forall|k: int| 0 <= k < fillers.len() ==> one_tag(#[trigger] cleaned(fillers[k])),
        forall|k: int| 0 <= k < images.len() ==> one_tag(#[trigger] cleaned(images[k])),
    ensures
        exists|text: Seq<char>|
            {
                &&& ietclh_chapter_spec(number, html_body) == Ok::<Seq<char>, ChapterError>(
                    headed_page_spec(number, cleaned(headers[0]), text),
                )
                &&& text == stripped(unscrambled(cleaned(chapters[0]), scrambled), fillers + images)
                &&& forall|k: int| 0 <= k < fillers.len() ==> free_of(text, #[trigger] cleaned(fillers[k]))
                &&& forall|k: int| 0 <= k < images.len() ==> free_of(text, #[trigger] cleaned(images[k]))
            },
{
    let decrypted_chapter = unscrambled(cleaned(chapters[0]), scrambled);
    let unwanted = fillers + images;
    assert forall|k: int| 0 <= k < unwanted.len() implies one_tag(#[trigger] cleaned(unwanted[k])) by {
        if k < fillers.len() {
            assert(unwanted[k] == fillers[k]);
        } else {
            assert(unwanted[k] == images[k - fillers.len()]);
        }
    }
    law_stripped_removes_every_tag(decrypted_chapter, unwanted);
    let text = stripped(decrypted_chapter, unwanted);
    assert forall|k: int| 0 <= k < fillers.len() implies free_of(text, #[trigger] cleaned(fillers[k])) by {
        assert(unwanted[k] == fillers[k]);
    }
    assert forall|k: int| 0 <= k < images.len() implies free_of(text, #[trigger] cleaned(images[k])) by {
        assert(unwanted[fillers.len() + k] == images[k]);
    }
    assert(ietclh_chapter_spec(number, html_body) == Ok::<Seq<char>, ChapterError>(
        headed_page_spec(number, cleaned(headers[0]), text),
    ));
}

// ---------------------------------------------------------------------------
// Nurturing the Hero to Avoid Death
// ---------------------------------------------------------------------------

/// The chapter addresses in the table of contents `index_page` of
/// "Nurturing the Hero to Avoid Death".
pub fn nhad_chapter_urls(index_page: &str) -> (res: Result<Vec<String>, ChapterError>)
    ensures
        same_list_outcome(res, chapter_urls_spec(index_page@, NHAD_LINKS@)),
{
    chapter_urls(index_page, NHAD_LINKS)
}

/// What becomes of the source page `html_body` of chapter `number` of
/// "Nurturing the Hero to Avoid Death": its images are removed.
pub open spec fn nhad_chapter_spec(number: nat, html_body: Seq<char>) -> Result<Seq<char>, ChapterError> {
    match (
        selected_inner_html(html_body, NHAD_HEADER@),
        selected_inner_html(html_body, NHAD_CHAPTER@),
        selected_html(html_body, NHAD_IMAGES@),
    ) {
        (Some(headers), Some(chapters), Some(images)) => {
            headed_page_from_parts(number, headers, chapters, Seq::empty(), images)
        },
        _ => Err(ChapterError::InvalidSelector),
    }
}

/// The book page of chapter `number` of "Nurturing the Hero to Avoid Death"
/// from its source page `html_body`.
pub fn nhad_chapter(number: usize, html_body: &str) -> (res: Result<String, ChapterError>)
    ensures
        same_text_outcome(res, nhad_chapter_spec(number as nat, html_body@)),
{
    let headers = select_inner_html(html_body, NHAD_HEADER);
    let chapters = select_inner_html(html_body, NHAD_CHAPTER);
    let images = select_html(html_body, NHAD_IMAGES);
    match (headers, chapters, images) {
        (Some(headers), Some(chapters), Some(images)) => {
            let no_scrambled: Vec<String> = Vec::new();
            assert(no_scrambled.deep_view() =~= Seq::<Seq<char>>::empty());
            page_from_parts(number, &headers, &chapters, &no_scrambled, &images)
        },
        _ => Err(ChapterError::InvalidSelector),
    }
}

/// Every image of a chapter page of "Nurturing the Hero to Avoid Death" is
/// removed from its book page: when the source page has a header and a
/// chapter whose tags are closed, and each image element is a single tag,
/// the book page is the headed page of the chapter whose text is the chapter
/// with its images removed one after another ([`stripped`]), holds none of
/// the images, and is the chapter's own when it showed no image.
pub proof fn law_nhad_chapter_without_images(
    number: nat,
    html_body: Seq<char>,
    headers: Seq<Seq<char>>,
    chapters: Seq<Seq<char>>,
    images: Seq<Seq<char>>,
)
    requires
        selected_inner_html(html_body, NHAD_HEADER@) == Some(headers),
        selected_inner_html(html_body, NHAD_CHAPTER@) == Some(chapters),
        selected_html(html_body, NHAD_IMAGES@) == Some(images),
        headers.len() > 0,
        chapters.len() > 0,
        tags_closed(cleaned(chapters[0])),
        forall|k: int| 0 <= k < images.len() ==> one_tag(#[trigger] cleaned(images[k])),
    ensures
        exists|text: Seq<char>|
            {
                &&& nhad_chapter_spec(number, html_body) == Ok::<Seq<char>, ChapterError>(
                    headed_page_spec(number, cleaned(headers[0]), text),
                )
                &&& text == stripped(cleaned(chapters[0]), images)
                &&& forall|k: int| 0 <= k < images.len() ==> free_of(text, #[trigger] cleaned(images[k]))
                &&& (forall|k: int| 0 <= k < images.len() ==> free_of(cleaned(chapters[0]), #[trigger] cleaned(images[k])))
                    ==> text == cleaned(chapters[0])
            },
{
    let chapter = cleaned(chapters[0]);
    assert(unscrambled(chapter, Seq::empty()) == chapter);
    law_stripped_removes_every_tag(chapter, images);
    let text = stripped(chapter, images);
    assert(nhad_chapter_spec(number, html_body) == Ok::<Seq<char>, ChapterError>(
        headed_page_spec(number, cleaned(headers[0]), text),
    ));
}

} // verus!
