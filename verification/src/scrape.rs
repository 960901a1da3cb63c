//! Queries on downloaded HTML documents, answered by the `scraper` crate,
//! and what the chapter extraction makes of their answers.
use vstd::prelude::*;

use scraper::{Html, Selector};

use crate::epub::text_total;
use crate::text::{
    free_of, lemma_replaced_absent, lemma_tag_removal, occurs_at, one_tag, replace_all, replaced,
    tags_closed,
};
use crate::utils::{clean_html, cleaned, decrypt_open_sans_jumbld, decrypted};

verus! {

/// What `scraper` answers when `document` is parsed as an HTML document and
/// queried with the CSS selector group `selector`: `None` when the selector
/// does not parse, else the serialized HTML of each matching element (the
/// element itself included), in document order.
pub uninterp spec fn selected_html(document: Seq<char>, selector: Seq<char>) -> Option<Seq<Seq<char>>>;

/// As [`selected_html`], but the serialized contents of each matching element
/// (the element's own tags left out).
pub uninterp spec fn selected_inner_html(document: Seq<char>, selector: Seq<char>) -> Option<
    Seq<Seq<char>>,
>;

/// As [`selected_html`], but the value of attribute `attr` of each matching
/// element, `None` for an element without that attribute.
pub uninterp spec fn selected_attr(document: Seq<char>, selector: Seq<char>, attr: Seq<char>) -> Option<
    Seq<Option<Seq<char>>>,
>;

/// Parses `document` with `scraper::Html::parse_document`, parses `selector`
/// with `scraper::Selector::parse`, and gives `ElementRef::html` of each element
/// that `Html::select` yields.  Claimed: the answer is [`selected_html`] of the
/// two texts; nothing is claimed of that name beyond its being a function of them.
#[verifier::external_body]
pub(crate) fn select_html(document: &str, selector: &str) -> (res: Option<Vec<String>>)
    ensures
        res.is_some() == selected_html(document@, selector@).is_some(),
        res matches Some(v) ==> v.deep_view() == selected_html(document@, selector@).unwrap(),
{
    let sel = Selector::parse(selector).ok()?;
    let doc = Html::parse_document(document);
    let mut out = Vec::new();
    for element in doc.select(&sel) {
        out.push(element.html());
    }
    Some(out)
}

/// As [`select_html`], with `ElementRef::inner_html` of each element; claimed:
/// the answer is [`selected_inner_html`] of the two texts.
#[verifier::external_body]
pub(crate) fn select_inner_html(document: &str, selector: &str) -> (res: Option<Vec<String>>)
    ensures
        res.is_some() == selected_inner_html(document@, selector@).is_some(),
        res matches Some(v) ==> v.deep_view() == selected_inner_html(document@, selector@).unwrap(),
{
    let sel = Selector::parse(selector).ok()?;
    let doc = Html::parse_document(document);
    let mut out = Vec::new();
    for element in doc.select(&sel) {
        out.push(element.inner_html());
    }
    Some(out)
}

/// As [`select_html`], with `ElementRef::attr(attr)` of each element; claimed:
/// the answer is [`selected_attr`] of the three texts.
#[verifier::external_body]
pub(crate) fn select_attr(document: &str, selector: &str, attr: &str) -> (res: Option<Vec<Option<String>>>)
    ensures
        res.is_some() == selected_attr(document@, selector@, attr@).is_some(),
        res matches Some(v) ==> v.deep_view() == selected_attr(document@, selector@, attr@).unwrap(),
{
    let sel = Selector::parse(selector).ok()?;
    let doc = Html::parse_document(document);
    let mut out = Vec::new();
    for element in doc.select(&sel) {
        out.push(element.attr(attr).map(|value| value.to_string()));
    }
    Some(out)
}

/// Why a chapter, or the list of chapters, could not be extracted from a page.
#[derive(Debug, Clone, Copy, PartialEq, Eq, Structural)]
pub enum ChapterError {
    /// One of the library's CSS selectors was refused by the parser.
    InvalidSelector,
    /// A link of the table of contents has no `href`.
    MissingUrl,
    /// The chapter page has no header element.
    MissingHeader,
    /// The chapter page has no chapter element.
    MissingChapter,
}

/// The addresses of all `links`, or `MissingUrl` when one of them has none.
pub open spec fn urls_of(links: Seq<Option<Seq<char>>>) -> Result<Seq<Seq<char>>, ChapterError> {
    if forall|i: int| 0 <= i < links.len() ==> (#[trigger] links[i]) is Some {
        Ok(links.map_values(|l: Option<Seq<char>>| l->0))
    } else {
        Err(ChapterError::MissingUrl)
    }
}

/// `out` is the text outcome `spec`, read through the view of its text.
pub open spec fn same_text_outcome(
    out: Result<String, ChapterError>,
    spec: Result<Seq<char>, ChapterError>,
) -> bool {
    match (out, spec) {
        (Ok(a), Ok(b)) => a@ == b,
        (Err(e), Err(f)) => e == f,
        _ => false,
    }
}

/// `out` is the list outcome `spec`, read through the views of its texts.
pub open spec fn same_list_outcome(
    out: Result<Vec<String>, ChapterError>,
    spec: Result<Seq<Seq<char>>, ChapterError>,
) -> bool {
    match (out, spec) {
        (Ok(a), Ok(b)) => a.deep_view() == b,
        (Err(e), Err(f)) => e == f,
        _ => false,
    }
}

/// The addresses of the chapter links `links`, in order; `MissingUrl` when a
/// link has no address.
pub fn urls_from_links(links: &Vec<Option<String>>) -> (res: Result<Vec<String>, ChapterError>)
    ensures
        same_list_outcome(res, urls_of(links.deep_view())),
{
    let ghost lv = links.deep_view();
    let mut urls: Vec<String> = Vec::new();
    let mut i: usize = 0;
    while i < links.len()
        invariant
            i <= links@.len(),
            lv == links.deep_view(),
            lv.len() == links@.len(),
            urls@.len() == i,
            forall|k: int| 0 <= k < i ==> (#[trigger] lv[k]) is Some,
            forall|k: int| 0 <= k < i ==> (#[trigger] urls@[k])@ == lv[k]->0,
        decreases links@.len() - i,
    {
        match &links[i] {
            Some(url) => {
                urls.push(url.clone());
            },
            None => {
                assert(lv[i as int] is None);
                return Err(ChapterError::MissingUrl);
            },
        }
        i = i + 1;
    }
    assert(urls.deep_view() =~= lv.map_values(|l: Option<Seq<char>>| l->0));
    Ok(urls)
}

/// The chapter addresses that the table of contents `index_page` links to
/// through the elements matched by `selector`.
pub open spec fn chapter_urls_spec(index_page: Seq<char>, selector: Seq<char>) -> Result<
    Seq<Seq<char>>,
    ChapterError,
> {
    match selected_attr(index_page, selector, "href"@) {
        None => Err(ChapterError::InvalidSelector),
        Some(links) => urls_of(links),
    }
}

/// The chapter addresses that the table of contents `index_page` links to
/// through the elements matched by `selector`, in order.
pub fn chapter_urls(index_page: &str, selector: &str) -> (res: Result<Vec<String>, ChapterError>)
    ensures
        same_list_outcome(res, chapter_urls_spec(index_page@, selector@)),
{
    match select_attr(index_page, selector, "href") {
        None => Err(ChapterError::InvalidSelector),
        Some(links) => urls_from_links(&links),
    }
}

/// The texts `parts`, each followed by a line break.
pub open spec fn lines_of(parts: Seq<Seq<char>>) -> Seq<char>
    decreases parts.len(),
{
    if parts.len() == 0 {
        Seq::empty()
    } else {
        lines_of(parts.drop_last()) + parts.last() + seq!['\n']
    }
}

/// The texts `parts`, each followed by a line break, in one text.
pub fn join_lines(parts: &Vec<String>) -> (res: String)
    ensures
        res@ == lines_of(parts.deep_view()),
{
    let ghost pv = parts.deep_view();
    let mut out = String::new();
    let mut i: usize = 0;
    while i < parts.len()
        invariant
            i <= parts@.len(),
            pv == parts.deep_view(),
            pv.len() == parts@.len(),
            out@ == lines_of(pv.take(i as int)),
        decreases parts@.len() - i,
    {
        out.append(parts[i].as_str());
        out.append("\n");
        proof {
            reveal_strlit("\n");
            assert(pv.take(i + 1).drop_last() =~= pv.take(i as int));
        }
        i = i + 1;
    }
    assert(pv.take(i as int) =~= pv);
    out
}

/// `html` with each of the scrambled fragments `pieces`, taken in order and
/// cleaned, replaced by its decryption.
pub open spec fn unscrambled(html: Seq<char>, pieces: Seq<Seq<char>>) -> Seq<char>
    decreases pieces.len(),
{
    if pieces.len() == 0 {
        html
    } else {
        let piece = cleaned(pieces[0]);
        unscrambled(replaced(html, piece, decrypted(piece)), pieces.drop_first())
    }
}

/// `html` with each of the fragments `pieces`, taken in order and cleaned,
/// removed wherever it occurs.
pub open spec fn stripped(html: Seq<char>, pieces: Seq<Seq<char>>) -> Seq<char>
    decreases pieces.len(),
{
    if pieces.len() == 0 {
        html
    } else {
        stripped(replaced(html, cleaned(pieces[0]), Seq::empty()), pieces.drop_first())
    }
}

/// Replaces in `html` each of the scrambled fragments `pieces`, cleaned, by
/// its decryption, in the order of `pieces`.
pub fn unscramble(html: String, pieces: &Vec<String>) -> (res: String)
    ensures
        res@ == unscrambled(html@, pieces.deep_view()),
{
    let ghost pv = pieces.deep_view();
    let mut cur = html;
    let mut i: usize = 0;
    assert(pv.skip(0) =~= pv);
    while i < pieces.len()
        invariant
            i <= pieces@.len(),
            pv == pieces.deep_view(),
            pv.len() == pieces@.len(),
            unscrambled(html@, pv) == unscrambled(cur@, pv.skip(i as int)),
        decreases pieces@.len() - i,
    {
        let piece = clean_html(pieces[i].clone());
        let plain = decrypt_open_sans_jumbld(piece.as_str());
        cur = replace_all(cur.as_str(), piece.as_str(), plain.as_str());
        assert(pv.skip(i as int).drop_first() =~= pv.skip(i + 1));
        i = i + 1;
    }
    cur
}

/// Removes from `html` each of the fragments `pieces`, cleaned, in the order
/// of `pieces`.
pub fn strip(html: String, pieces: &Vec<String>) -> (res: String)
    ensures
        res@ == stripped(html@, pieces.deep_view()),
{
    let ghost pv = pieces.deep_view();
    let mut cur = html;
    let mut i: usize = 0;
    assert(pv.skip(0) =~= pv);
    proof {
        reveal_strlit("");
    }
    assert(""@ =~= Seq::<char>::empty());
    while i < pieces.len()
        invariant
            i <= pieces@.len(),
            pv == pieces.deep_view(),
            pv.len() == pieces@.len(),
            ""@ == Seq::<char>::empty(),
            stripped(html@, pv) == stripped(cur@, pv.skip(i as int)),
        decreases pieces@.len() - i,
    {
        let piece = clean_html(pieces[i].clone());
        cur = replace_all(cur.as_str(), piece.as_str(), "");
        assert(pv.skip(i as int).drop_first() =~= pv.skip(i + 1));
        i = i + 1;
    }
    cur
}

/// Every link with an address gives its address: when no link lacks one,
/// the result holds exactly one address per link, the `k`-th link's address
/// at position `k`.
pub proof fn law_urls_every_link(links: Seq<Option<Seq<char>>>)
    requires
        forall|i: int| 0 <= i < links.len() ==> (#[trigger] links[i]) is Some,
    ensures
        urls_of(links) is Ok,
        urls_of(links)->Ok_0.len() == links.len(),
        forall|k: int| 0 <= k < links.len() ==> urls_of(links)->Ok_0[k] == (#[trigger] links[k])->0,
{
}

/// A single link without an address makes the whole list `MissingUrl`.
pub proof fn law_urls_missing_link(links: Seq<Option<Seq<char>>>, k: int)
    requires
        0 <= k < links.len(),
        links[k] is None,
    ensures
        urls_of(links) == Err::<Seq<Seq<char>>, ChapterError>(ChapterError::MissingUrl),
{
}

/// No lines give the empty text.
pub proof fn law_lines_of_none()
    ensures
        lines_of(Seq::empty()) == Seq::<char>::empty(),
{
}

/// One more part adds exactly that part and a line break at the end: no part
/// is dropped, reordered or changed.
pub proof fn law_lines_of_one_more(parts: Seq<Seq<char>>, part: Seq<char>)
    ensures
        lines_of(parts.push(part)) == lines_of(parts) + part + seq!['\n'],
{
    assert(parts.push(part).drop_last() =~= parts);
}

/// The joined text is as long as all parts together, plus one line break each.
pub proof fn law_lines_of_length(parts: Seq<Seq<char>>)
    ensures
        lines_of(parts).len() == text_total(parts) + parts.len(),
    decreases parts.len(),
{
    if parts.len() > 0 {
        law_lines_of_length(parts.drop_last());
    }
}

/// Joining two lists of parts one after the other joins their texts.
pub proof fn law_lines_of_concat(first: Seq<Seq<char>>, second: Seq<Seq<char>>)
    ensures
        lines_of(first + second) == lines_of(first) + lines_of(second),
    decreases second.len(),
{
    if second.len() == 0 {
        assert(first + second =~= first);
        assert(lines_of(first) + lines_of(second) =~= lines_of(first));
    } else {
        law_lines_of_concat(first, second.drop_last());
        assert((first + second).drop_last() =~= first + second.drop_last());
        assert((first + second).last() == second.last());
    }
}

/// Every part appears in the joined text, in its place and followed by a
/// line break: part `k` right after the text of the parts before it.
pub proof fn law_lines_of_holds_each(parts: Seq<Seq<char>>, k: int)
    requires
        0 <= k < parts.len(),
    ensures
        occurs_at(lines_of(parts), parts[k].push('\n'), lines_of(parts.take(k)).len() as int),
{
    let before = parts.take(k);
    let one = seq![parts[k]];
    let after = parts.skip(k + 1);
    assert(parts =~= before + one + after);
    law_lines_of_concat(before + one, after);
    law_lines_of_concat(before, one);
    assert(one.drop_last() =~= Seq::<Seq<char>>::empty());
    assert(lines_of(one.drop_last()) == Seq::<char>::empty());
    assert(one.last() == parts[k]);
    assert(lines_of(one) =~= parts[k].push('\n'));
    let whole = lines_of(before) + parts[k].push('\n') + lines_of(after);
    assert(lines_of(parts) =~= whole);
    assert(whole.subrange(
        lines_of(before).len() as int,
        (lines_of(before).len() + parts[k].len() + 1) as int,
    ) =~= parts[k].push('\n'));
}

/// No scrambled fragments leave the text as it is.
pub proof fn law_unscrambled_none(html: Seq<char>)
    ensures
        unscrambled(html, Seq::empty()) == html,
{
}

/// One more fragment is decrypted in the text already decrypted for the
/// fragments before it: the earlier decryptions are kept, and the new
/// fragment's cleaned form is replaced by its decryption there.
pub proof fn law_unscrambled_one_more(html: Seq<char>, pieces: Seq<Seq<char>>, piece: Seq<char>)
    ensures
        unscrambled(html, pieces.push(piece)) == replaced(
            unscrambled(html, pieces),
            cleaned(piece),
            decrypted(cleaned(piece)),
        ),
    decreases pieces.len(),
{
    let all = pieces.push(piece);
    if pieces.len() == 0 {
        assert(all.drop_first() =~= Seq::<Seq<char>>::empty());
        assert(all[0] == piece);
        let r = replaced(html, cleaned(piece), decrypted(cleaned(piece)));
        assert(unscrambled(r, all.drop_first()) == r);
        assert(unscrambled(html, pieces) == html);
    } else {
        let first = cleaned(pieces[0]);
        let next = replaced(html, first, decrypted(first));
        law_unscrambled_one_more(next, pieces.drop_first(), piece);
        assert(all[0] == pieces[0]);
        assert(all.drop_first() =~= pieces.drop_first().push(piece));
    }
}

/// No fragments to remove leave the text as it is.
pub proof fn law_stripped_none(html: Seq<char>)
    ensures
        stripped(html, Seq::empty()) == html,
{
}

/// One more fragment is removed from the text already stripped of the
/// fragments before it.
pub proof fn law_stripped_one_more(html: Seq<char>, pieces: Seq<Seq<char>>, piece: Seq<char>)
    ensures
        stripped(html, pieces.push(piece)) == replaced(stripped(html, pieces), cleaned(piece), Seq::empty()),
    decreases pieces.len(),
{
    let all = pieces.push(piece);
    if pieces.len() == 0 {
        assert(all.drop_first() =~= Seq::<Seq<char>>::empty());
        assert(all[0] == piece);
        let r = replaced(html, cleaned(piece), Seq::empty());
        assert(stripped(r, all.drop_first()) == r);
        assert(stripped(html, pieces) == html);
    } else {
        let next = replaced(html, cleaned(pieces[0]), Seq::empty());
        law_stripped_one_more(next, pieces.drop_first(), piece);
        assert(all[0] == pieces[0]);
        assert(all.drop_first() =~= pieces.drop_first().push(piece));
    }
}

/// Removing single-tag fragments from a text whose tags are closed removes
/// every one of them: none is left, none that was absent is created, the
/// tags stay closed, and a text holding none of them is left as it is.
pub proof fn law_stripped_removes_every_tag(html: Seq<char>, pieces: Seq<Seq<char>>)
    requires
        tags_closed(html),
        forall|k: int| 0 <= k < pieces.len() ==> one_tag(#[trigger] cleaned(pieces[k])),
    ensures
        tags_closed(stripped(html, pieces)),
        forall|k: int| 0 <= k < pieces.len() ==> free_of(stripped(html, pieces), #[trigger] cleaned(pieces[k])),
        forall|p: Seq<char>| one_tag(p) && free_of(html, p) ==> #[trigger] free_of(stripped(html, pieces), p),
        (forall|k: int| 0 <= k < pieces.len() ==> free_of(html, #[trigger] cleaned(pieces[k]))) ==> stripped(
            html,
            pieces,
        ) == html,
    decreases pieces.len(),
{
    if pieces.len() > 0 {
        let e = Seq::<char>::empty();
        let first = cleaned(pieces[0]);
        let rest = pieces.drop_first();
        let next = replaced(html, first, e);
        assert(one_tag(first));
        lemma_tag_removal(html, first, first);
        assert forall|k: int| 0 <= k < rest.len() implies one_tag(#[trigger] cleaned(rest[k])) by {
            assert(rest[k] == pieces[k + 1]);
        }
        law_stripped_removes_every_tag(next, rest);
        assert(stripped(html, pieces) == stripped(next, rest));
        assert forall|k: int| 0 <= k < pieces.len() implies free_of(
            stripped(html, pieces),
            #[trigger] cleaned(pieces[k]),
        ) by {
            if k > 0 {
                assert(rest[k - 1] == pieces[k]);
            }
        }
        assert forall|p: Seq<char>| one_tag(p) && free_of(html, p) implies #[trigger] free_of(
            stripped(html, pieces),
            p,
        ) by {
            lemma_tag_removal(html, first, p);
        }
        if forall|k: int| 0 <= k < pieces.len() ==> free_of(html, #[trigger] cleaned(pieces[k])) {
            lemma_replaced_absent(html, first, e);
            assert forall|k: int| 0 <= k < rest.len() implies free_of(next, #[trigger] cleaned(rest[k])) by {
                assert(rest[k] == pieces[k + 1]);
            }
        }
    }
}

} // verus!
