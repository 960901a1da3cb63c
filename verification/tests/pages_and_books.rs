use std::io::Read;

use novel_to_epub::epub::{
    add_chapters, assemble, begin_book, finish_book, generate_epub, Book, BookError, FrontMatter,
};
use novel_to_epub::novels::{
    idwtr_chapter, idwtr_page_from_paragraphs, ietclh_chapter, ietclh_chapter_urls, nhad_chapter,
    nhad_chapter_urls, page_from_parts,
};
use novel_to_epub::page::{
    chapter_file_name, chapter_title, headed_chapter_page, idwtr_chapter_url, titled_chapter_page,
};
use novel_to_epub::scrape::{chapter_urls, join_lines, strip, unscramble, urls_from_links, ChapterError};

fn titled(n: usize, text: &str) -> String {
    format!(
        r#"<?xml version="1.0" encoding="UTF-8"?>
<!DOCTYPE html>
<html xmlns="http://www.w3.org/1999/xhtml" xml:lang="en-US">
<head>
<title>Chapter {}</title>
</head>
<body>
<h1 style="text-align: center">Chapter {}</h1>
<hr />
{}
</body>
</html>"#,
        n, n, text
    )
}

fn headed(n: usize, header: &str, body: &str) -> String {
    format!(
        r#"<?xml version="1.0" encoding="UTF-8"?>
<!DOCTYPE html>
<html xmlns="http://www.w3.org/1999/xhtml" xml:lang="en-US">
<head>
<title>Chapter {}</title>
</head>
<body>
{}
<hr />
{}
</body>
</html>"#,
        n, header, body
    )
}

#[test]
fn chapter_names_titles_and_urls() {
    assert_eq!(chapter_file_name(1), "chapter_1.xhtml");
    assert_eq!(chapter_file_name(346), "chapter_346.xhtml");
    assert_eq!(chapter_title(0), "Chapter 0");
    assert_eq!(chapter_title(10), "Chapter 10");
    assert_eq!(chapter_title(1234567890), "Chapter 1234567890");
    assert_eq!(
        idwtr_chapter_url(27),
        "https://allnovelbook.com/novel/i-dont-want-this-reincarnation/chapter-27"
    );
}

#[test]
fn chapter_file_names_differ_on_example() {
    assert_ne!(chapter_file_name(1), chapter_file_name(10));
    assert_ne!(chapter_file_name(11), chapter_file_name(1));
}

#[test]
fn page_templates() {
    assert_eq!(titled_chapter_page(3, "<p>x</p>\n"), titled(3, "<p>x</p>\n"));
    assert_eq!(headed_chapter_page(42, "<h1>H</h1>", "<p>b</p>"), headed(42, "<h1>H</h1>", "<p>b</p>"));
}

#[test]
fn join_lines_ends_each_part() {
    assert_eq!(join_lines(&vec!["a".to_string(), "b".to_string()]), "a\nb\n");
    assert_eq!(join_lines(&vec![]), "");
}

#[test]
fn urls_from_links_reports_missing_address() {
    assert_eq!(
        urls_from_links(&vec![Some("u1".to_string()), Some("u2".to_string())]),
        Ok(vec!["u1".to_string(), "u2".to_string()])
    );
    assert_eq!(
        urls_from_links(&vec![Some("u1".to_string()), None]),
        Err(ChapterError::MissingUrl)
    );
}

#[test]
fn unscramble_and_strip() {
    let html = "<p>Quiif <span class=\"jum\">Xfsiq</span><br></p>".to_string();
    let out = unscramble(html, &vec!["Xfsiq".to_string()]);
    assert_eq!(out, "<p>Quiif <span class=\"jum\">Geylp</span><br></p>");
    // pieces are cleaned before they are looked for: `<br>` becomes `<br/>`
    let out = strip(out, &vec!["<br>".to_string()]);
    assert_eq!(out, "<p>Quiif <span class=\"jum\">Geylp</span><br></p>");
    let out = strip(out, &vec!["<span class=\"jum\">Geylp</span>".to_string()]);
    assert_eq!(out, "<p>Quiif <br></p>");
}

#[test]
fn page_from_parts_errors() {
    let none: Vec<String> = vec![];
    let one = vec!["x".to_string()];
    assert_eq!(page_from_parts(1, &none, &one, &none, &none), Err(ChapterError::MissingHeader));
    assert_eq!(page_from_parts(1, &none, &none, &none, &none), Err(ChapterError::MissingHeader));
    assert_eq!(page_from_parts(1, &one, &none, &none, &none), Err(ChapterError::MissingChapter));
}

#[test]
fn page_from_parts_builds_page() {
    let headers = vec!["<h1>T<br></h1>".to_string(), "ignored".to_string()];
    let chapters = vec!["<p>Ab <i>ok</i><hr><img src=\"a.png\"></p>".to_string()];
    let scrambled = vec!["ok".to_string()];
    let unwanted = vec!["<img src=\"a.png\">".to_string()];
    assert_eq!(
        page_from_parts(5, &headers, &chapters, &scrambled, &unwanted),
        Ok(headed(5, "<h1>T<br/></h1>", "<p>Ab <i>fw</i><hr/></p>"))
    );
}

#[test]
fn idwtr_page_from_paragraphs_example() {
    let paragraphs = vec!["<p>One</p>".to_string(), "<p>Two</p>".to_string()];
    assert_eq!(idwtr_page_from_paragraphs(2, &paragraphs), titled(2, "<p>One</p>\n<p>Two</p>\n"));
}

#[test]
fn idwtr_chapter_from_html() {
    let body = r#"<html><body><div id="box-content"><div class="c-content mt-2"><p>One</p><div>skip</div><p>Two <b>b</b></p></div></div><p>outside</p></body></html>"#;
    assert_eq!(
        idwtr_chapter(7, body),
        Ok(titled(7, "<p>One</p>\n<p>Two <b>b</b></p>\n"))
    );
}

#[test]
fn chapter_urls_from_index() {
    let index = r#"<ul><li class="chapter-item"><a href="https://x/1">1</a></li><li class="chapter-item"><a href="https://x/2">2</a></li></ul>"#;
    assert_eq!(
        ietclh_chapter_urls(index),
        Ok(vec!["https://x/1".to_string(), "https://x/2".to_string()])
    );
    let broken = r#"<ul><li class="chapter-item"><a href="https://x/1">1</a></li><li class="chapter-item"><a>2</a></li></ul>"#;
    assert_eq!(ietclh_chapter_urls(broken), Err(ChapterError::MissingUrl));
    assert_eq!(chapter_urls(index, "li[[["), Err(ChapterError::InvalidSelector));
    assert_eq!(nhad_chapter_urls(index), Ok(vec![]));
}

#[test]
fn ietclh_chapter_from_html() {
    let body = r#"<html><body><header class="entry-header"><h1>Ch<br>1</h1></header><div id="novel-content"><p>Hi <span class="jum">Quiif</span></p><span style='height:1px;width:0;overflow:hidden;display:inline-block'>zz</span><p><img src="a.png"></p></div></body></html>"#;
    let out = ietclh_chapter(1, body).unwrap();
    assert_eq!(
        out,
        headed(1, "<h1>Ch<br/>1</h1>", "<p>Hi <span class=\"jum\">Wglle</span></p><p></p>")
    );
    assert_eq!(
        ietclh_chapter(1, "<html><body><div id=\"novel-content\">x</div></body></html>"),
        Err(ChapterError::MissingHeader)
    );
    assert_eq!(
        ietclh_chapter(1, "<html><body><header class=\"entry-header\">h</header></body></html>"),
        Err(ChapterError::MissingChapter)
    );
}

#[test]
fn nhad_chapter_from_html() {
    let body = r#"<html><body><div class="post-header">Title</div><div class="post-content"><p>Text<br></p><img src="b.png"></div></body></html>"#;
    assert_eq!(nhad_chapter(9, body), Ok(headed(9, "Title", "<p>Text<br/></p>")));
    assert_eq!(nhad_chapter(9, "<p>nothing</p>"), Err(ChapterError::MissingHeader));
}

fn front(cover_image_name: &str) -> FrontMatter {
    FrontMatter {
        title: "T".to_string(),
        author: "A".to_string(),
        stylesheet: "body {}".to_string(),
        cover_image_name: cover_image_name.to_string(),
        cover_image: vec![0xff, 0xd8, 0xff],
        cover_page: "<html>cover</html>".to_string(),
        title_page: "<html>title</html>".to_string(),
    }
}

/// The (name, contents) entries of a zip archive, in order.
fn unzip(bytes: &[u8]) -> Vec<(String, Vec<u8>)> {
    let mut archive = zip::ZipArchive::new(std::io::Cursor::new(bytes)).unwrap();
    let mut out = Vec::new();
    for i in 0..archive.len() {
        let mut file = archive.by_index(i).unwrap();
        let mut contents = Vec::new();
        file.read_to_end(&mut contents).unwrap();
        out.push((file.name().to_string(), contents));
    }
    out
}

#[test]
fn generate_epub_writes_zip() {
    let book = Book { front: front("cover.jpg"), chapters: vec![titled(1, "a"), titled(2, "b")] };
    let bytes = generate_epub(&book).unwrap();
    assert_eq!(&bytes[0..4], b"PK\x03\x04");
    assert_eq!(&bytes[30..38], b"mimetype");
    assert_eq!(&bytes[38..58], b"application/epub+zip");
    let entries = unzip(&bytes);
    let names: Vec<&str> = entries.iter().map(|e| e.0.as_str()).collect();
    assert_eq!(
        &names[..9],
        &[
            "mimetype",
            "META-INF/container.xml",
            "META-INF/com.apple.ibooks.display-options.xml",
            "OEBPS/stylesheet.css",
            "OEBPS/cover.jpg",
            "OEBPS/cover.xhtml",
            "OEBPS/title.xhtml",
            "OEBPS/chapter_1.xhtml",
            "OEBPS/chapter_2.xhtml",
        ]
    );
    assert_eq!(entries[0].1, b"application/epub+zip");
    assert_eq!(entries[3].1, b"body {}");
    assert_eq!(entries[4].1, vec![0xff, 0xd8, 0xff]);
    assert_eq!(entries[5].1, b"<html>cover</html>");
    assert_eq!(entries[6].1, b"<html>title</html>");
    assert_eq!(entries[7].1, titled(1, "a").into_bytes());
    assert_eq!(entries[8].1, titled(2, "b").into_bytes());
    let opf = entries.iter().find(|e| e.0 == "OEBPS/content.opf").unwrap();
    let opf = String::from_utf8_lossy(&opf.1);
    assert!(opf.contains("version=\"3.0\""));
    assert!(opf.contains(">T</dc:title>"));
    assert!(opf.contains(">A</dc:creator>"));
    assert!(opf.contains("media-type=\"image/jpg\""));
    assert_eq!(
        &names[9..],
        &["OEBPS/content.opf", "OEBPS/toc.ncx", "OEBPS/nav.xhtml", "OEBPS/toc.xhtml"]
    );
    // the inline table of contents is listed once: one manifest item, one spine entry
    assert_eq!(opf.matches("<itemref idref=\"id_toc.xhtml\"/>").count(), 1);
    assert_eq!(opf.matches("id=\"id_toc.xhtml\" href=\"toc.xhtml\"").count(), 1);
}

#[test]
fn book_in_steps_matches_whole_book() {
    let mut draft = begin_book(&front("cover.jpg")).unwrap();
    add_chapters(&mut draft, &vec![titled(1, "x")]).unwrap();
    let entries = unzip(&finish_book(draft).unwrap());
    assert_eq!(entries[7].0, "OEBPS/chapter_1.xhtml");
    assert_eq!(entries[7].1, titled(1, "x").into_bytes());
    let toc = entries.iter().find(|e| e.0 == "OEBPS/toc.ncx").unwrap();
    let toc = String::from_utf8_lossy(&toc.1);
    assert!(toc.contains("Chapter 1"));
    assert!(toc.contains("Cover"));
    let names: Vec<&str> = entries.iter().map(|e| e.0.as_str()).collect();
    assert_eq!(
        &names[8..],
        &["OEBPS/content.opf", "OEBPS/toc.ncx", "OEBPS/nav.xhtml", "OEBPS/toc.xhtml"]
    );
}

#[test]
fn over_long_cover_name_is_refused() {
    let name = "a".repeat(16001);
    assert!(matches!(begin_book(&front(&name)), Err(BookError::CoverImageName)));
    let book = Book { front: front(&name), chapters: vec![titled(1, "a")] };
    assert!(matches!(assemble(&book), Err(BookError::CoverImageName)));
    assert!(matches!(generate_epub(&book), Err(BookError::CoverImageName)));
}

#[test]
fn cover_name_clashing_with_a_chapter_fails() {
    let book = Book { front: front("chapter_1.xhtml"), chapters: vec![titled(1, "a")] };
    assert!(matches!(assemble(&book), Err(BookError::Epub(_))));
}

#[test]
fn cover_name_clashing_with_a_generated_file_fails() {
    let book = Book { front: front("content.opf"), chapters: vec![titled(1, "a")] };
    assert!(assemble(&book).is_ok());
    assert!(matches!(generate_epub(&book), Err(BookError::Epub(_))));
}
