//! Building EPUB books out of web-novel chapter pages: the text rewriting
//! (void-tag cleaning, font-cipher decryption, substring replacement), the
//! extraction of chapters from the downloaded HTML, the XHTML page
//! templates and the assembly of the book.

pub mod text;
pub mod utils;
pub mod page;
pub mod scrape;
pub mod novels;
pub mod epub;
