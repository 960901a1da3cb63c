//! XHTML chapter pages, chapter names and chapter addresses.
use vstd::prelude::*;

use crate::text::{occurs_at, push_char};

verus! {

/// Everything of a chapter page up to its number in the `<title>` element.
pub const PAGE_HEAD: &'static str = "<?xml version=\"1.0\" encoding=\"UTF-8\"?>\n<!DOCTYPE html>\n<html xmlns=\"http://www.w3.org/1999/xhtml\" xml:lang=\"en-US\">\n<head>\n<title>Chapter ";

/// What follows the number in the `<title>` of a page that carries its own heading.
pub const TITLE_TO_HEADING: &'static str = "</title>\n</head>\n<body>\n<h1 style=\"text-align: center\">Chapter ";

/// What follows the number in the generated heading, up to the text.
pub const HEADING_TO_TEXT: &'static str = "</h1>\n<hr />\n";

/// What follows the number in the `<title>` of a page whose header comes from the source.
pub const TITLE_TO_BODY: &'static str = "</title>\n</head>\n<body>\n";

/// The rule between a scraped header and the chapter text.
pub const HEADER_RULE: &'static str = "\n<hr />\n";

/// The end of every chapter page.
pub const PAGE_TAIL: &'static str = "\n</body>\n</html>";

/// The prefix of a chapter title.
pub const TITLE_PREFIX: &'static str = "Chapter ";

/// The prefix of a chapter's file name in the book.
pub const FILE_PREFIX: &'static str = "chapter_";

/// The extension of a chapter's file name.
pub const FILE_SUFFIX: &'static str = ".xhtml";

/// The address of a chapter of "I Don't Want This Reincarnation", without its number.
pub const IDWTR_CHAPTER_URL_PREFIX: &'static str = "https://allnovelbook.com/novel/i-dont-want-this-reincarnation/chapter-";

/// The decimal digit character for `d < 10`.
pub open spec fn digit_char(d: nat) -> char {
    ('0' as nat + d) as char
}

/// The decimal notation of `n`, without leading zeros.
pub open spec fn decimal(n: nat) -> Seq<char>
    decreases n,
{
    if n < 10 {
        seq![digit_char(n)]
    } else {
        decimal(n / 10).push(digit_char(n % 10))
    }
}

/// Appends the decimal notation of `n` to `out`.
pub fn push_decimal(out: &mut String, n: usize)
    ensures
        final(out)@ == old(out)@ + decimal(n as nat),
    decreases n,
{
    if n >= 10 {
        push_decimal(out, n / 10);
    }
    let d = (n % 10) as u8;
    let c = (48u8 + d) as char;
    assert(c == digit_char((n % 10) as nat));
    push_char(out, c);
    assert(out@ =~= old(out)@ + decimal(n as nat));
}

/// The title of chapter `number`: `Chapter <number>`.
pub open spec fn chapter_title_spec(number: nat) -> Seq<char> {
    TITLE_PREFIX@ + decimal(number)
}

/// The title of chapter `number`, as the table of contents shows it.
pub fn chapter_title(number: usize) -> (res: String)
    ensures
        res@ == chapter_title_spec(number as nat),
{
    let mut out = String::new();
    out.append(TITLE_PREFIX);
    push_decimal(&mut out, number);
    out
}

/// The file name of chapter `number` in the book: `chapter_<number>.xhtml`.
pub open spec fn chapter_file_name_spec(number: nat) -> Seq<char> {
    FILE_PREFIX@ + decimal(number) + FILE_SUFFIX@
}

/// The file name of chapter `number` in the book.
pub fn chapter_file_name(number: usize) -> (res: String)
    ensures
        res@ == chapter_file_name_spec(number as nat),
{
    let mut out = String::new();
    out.append(FILE_PREFIX);
    push_decimal(&mut out, number);
    out.append(FILE_SUFFIX);
    out
}

/// The address of chapter `number` of "I Don't Want This Reincarnation".
pub open spec fn idwtr_chapter_url_spec(number: nat) -> Seq<char> {
    IDWTR_CHAPTER_URL_PREFIX@ + decimal(number)
}

/// The address of chapter `number` of "I Don't Want This Reincarnation".
pub fn idwtr_chapter_url(number: usize) -> (res: String)
    ensures
        res@ == idwtr_chapter_url_spec(number as nat),
{
    let mut out = String::new();
    out.append(IDWTR_CHAPTER_URL_PREFIX);
    push_decimal(&mut out, number);
    out
}

/// The page of chapter `number` with a generated, centred heading above `text`.
pub open spec fn titled_page_spec(number: nat, text: Seq<char>) -> Seq<char> {
    PAGE_HEAD@ + decimal(number) + TITLE_TO_HEADING@ + decimal(number) + HEADING_TO_TEXT@ + text
        + PAGE_TAIL@
}

/// The XHTML page of chapter `number` with a generated heading above `text`.
pub fn titled_chapter_page(number: usize, text: &str) -> (res: String)
    ensures
        res@ == titled_page_spec(number as nat, text@),
{
    let mut out = String::new();
    out.append(PAGE_HEAD);
    push_decimal(&mut out, number);
    out.append(TITLE_TO_HEADING);
    push_decimal(&mut out, number);
    out.append(HEADING_TO_TEXT);
    out.append(text);
    out.append(PAGE_TAIL);
    out
}

/// `h` occurs in `a + h + b` right after `a`.
proof fn lemma_occurs_between(a: Seq<char>, h: Seq<char>, b: Seq<char>)
    ensures
        occurs_at(a + h + b, h, a.len() as int),
{
    assert((a + h + b).subrange(a.len() as int, a.len() + h.len() as int) =~= h);
}

/// The `<title>` of a chapter page: `<title>Chapter <number></title>`.
pub open spec fn title_element(number: nat) -> Seq<char> {
    "<title>Chapter "@ + decimal(number) + "</title>"@
}

/// The centred heading of a chapter page: `<h1 …>Chapter <number></h1>`.
pub open spec fn heading_element(number: nat) -> Seq<char> {
    "<h1 style=\"text-align: center\">Chapter "@ + decimal(number) + "</h1>"@
}

/// A page with a generated heading names its chapter in full twice: its
/// `<title>` and its centred `<h1>` heading both read `Chapter <number>`,
/// the same number, whatever the text.
pub proof fn law_titled_page_names_chapter(number: nat, text: Seq<char>)
    ensures
        exists|i: int| occurs_at(titled_page_spec(number, text), title_element(number), i),
        exists|j: int| occurs_at(titled_page_spec(number, text), heading_element(number), j),
        exists|k: int| occurs_at(titled_page_spec(number, text), text, k),
{
    reveal_strlit("<?xml version=\"1.0\" encoding=\"UTF-8\"?>\n<!DOCTYPE html>\n<html xmlns=\"http://www.w3.org/1999/xhtml\" xml:lang=\"en-US\">\n<head>\n<title>Chapter ");
    reveal_strlit("</title>\n</head>\n<body>\n<h1 style=\"text-align: center\">Chapter ");
    reveal_strlit("</h1>\n<hr />\n");
    reveal_strlit("<title>Chapter ");
    reveal_strlit("</title>");
    reveal_strlit("<h1 style=\"text-align: center\">Chapter ");
    reveal_strlit("</h1>");
    let a = PAGE_HEAD@;
    let b = TITLE_TO_HEADING@;
    let c = HEADING_TO_TEXT@;
    let d = decimal(number);
    let page = titled_page_spec(number, text);
    let title_open = "<title>Chapter "@;
    let title_close = "</title>"@;
    let h1_open = "<h1 style=\"text-align: center\">Chapter "@;
    let h1_close = "</h1>"@;
    let ka = a.len() - title_open.len();
    let kb = b.len() - h1_open.len();
    assert(a =~= a.take(ka) + title_open);
    assert(b =~= title_close + b.skip(title_close.len() as int));
    assert(b =~= b.take(kb) + h1_open);
    assert(c =~= h1_close + c.skip(h1_close.len() as int));
    let tail = text + PAGE_TAIL@;
    assert(page =~= a.take(ka) + title_element(number) + (b.skip(title_close.len() as int) + d + c + tail));
    lemma_occurs_between(a.take(ka), title_element(number), b.skip(title_close.len() as int) + d + c + tail);
    assert(page =~= (a + d + b.take(kb)) + heading_element(number) + (c.skip(h1_close.len() as int) + tail));
    lemma_occurs_between(a + d + b.take(kb), heading_element(number), c.skip(h1_close.len() as int) + tail);
    assert(page =~= (a + d + b + d + c) + text + PAGE_TAIL@);
    lemma_occurs_between(a + d + b + d + c, text, PAGE_TAIL@);
}

/// A page with a scraped header names its chapter in full in its `<title>`,
/// and holds the header and then the body, whatever they are.
pub proof fn law_headed_page_holds_parts(number: nat, header: Seq<char>, body: Seq<char>)
    ensures
        exists|i: int| occurs_at(headed_page_spec(number, header, body), title_element(number), i),
        occurs_at(
            headed_page_spec(number, header, body),
            header,
            (PAGE_HEAD@.len() + decimal(number).len() + TITLE_TO_BODY@.len()) as int,
        ),
        occurs_at(
            headed_page_spec(number, header, body),
            body,
            (PAGE_HEAD@.len() + decimal(number).len() + TITLE_TO_BODY@.len() + header.len()
                + HEADER_RULE@.len()) as int,
        ),
{
    reveal_strlit("<?xml version=\"1.0\" encoding=\"UTF-8\"?>\n<!DOCTYPE html>\n<html xmlns=\"http://www.w3.org/1999/xhtml\" xml:lang=\"en-US\">\n<head>\n<title>Chapter ");
    reveal_strlit("</title>\n</head>\n<body>\n");
    reveal_strlit("<title>Chapter ");
    reveal_strlit("</title>");
    let a = PAGE_HEAD@;
    let b = TITLE_TO_BODY@;
    let d = decimal(number);
    let page = headed_page_spec(number, header, body);
    let title_open = "<title>Chapter "@;
    let title_close = "</title>"@;
    let ka = a.len() - title_open.len();
    assert(a =~= a.take(ka) + title_open);
    assert(b =~= title_close + b.skip(title_close.len() as int));
    let after = b.skip(title_close.len() as int) + header + HEADER_RULE@ + body + PAGE_TAIL@;
    assert(page =~= a.take(ka) + title_element(number) + after);
    lemma_occurs_between(a.take(ka), title_element(number), after);
    assert(page =~= (a + d + b) + header + (HEADER_RULE@ + body + PAGE_TAIL@));
    lemma_occurs_between(a + d + b, header, HEADER_RULE@ + body + PAGE_TAIL@);
    assert(page =~= (a + d + b + header + HEADER_RULE@) + body + PAGE_TAIL@);
    lemma_occurs_between(a + d + b + header + HEADER_RULE@, body, PAGE_TAIL@);
}

/// The page of chapter `number` made of a scraped `header`, a rule, and `body`.
pub open spec fn headed_page_spec(number: nat, header: Seq<char>, body: Seq<char>) -> Seq<char> {
    PAGE_HEAD@ + decimal(number) + TITLE_TO_BODY@ + header + HEADER_RULE@ + body + PAGE_TAIL@
}

/// The XHTML page of chapter `number` made of a scraped `header`, a rule, and `body`.
pub fn headed_chapter_page(number: usize, header: &str, body: &str) -> (res: String)
    ensures
        res@ == headed_page_spec(number as nat, header@, body@),
{
    let mut out = String::new();
    out.append(PAGE_HEAD);
    push_decimal(&mut out, number);
    out.append(TITLE_TO_BODY);
    out.append(header);
    out.append(HEADER_RULE);
    out.append(body);
    out.append(PAGE_TAIL);
    out
}

/// A decimal notation is never empty, and is longer than one digit exactly
/// for numbers from ten on.
proof fn lemma_decimal_len(n: nat)
    ensures
        decimal(n).len() >= 1,
        n >= 10 ==> decimal(n).len() >= 2,
    decreases n,
{
    if n >= 10 {
        lemma_decimal_len(n / 10);
    }
}

/// Ten to the power `k`.
pub open spec fn pow10(k: nat) -> nat
    decreases k,
{
    if k == 0 {
        1
    } else {
        10 * pow10((k - 1) as nat)
    }
}

/// A number below `10^k` has at most `k` decimal digits.
proof fn lemma_decimal_len_below(n: nat, k: nat)
    requires
        k >= 1,
        n < pow10(k),
    ensures
        decimal(n).len() <= k,
    decreases n,
{
    if n >= 10 {
        if k == 1 {
            assert(pow10(1) == 10 * pow10(0));
        } else {
            let p = pow10((k - 1) as nat);
            assert(pow10(k) == 10 * p);
            assert(n / 10 < p);
            lemma_decimal_len_below(n / 10, (k - 1) as nat);
        }
    }
}

/// The file name of a chapter numbered by a machine word is at most 34
/// characters long.
pub proof fn lemma_chapter_file_name_short(number: usize)
    ensures
        chapter_file_name_spec(number as nat).len() <= 34,
{
    reveal_strlit("chapter_");
    reveal_strlit(".xhtml");
    reveal_with_fuel(pow10, 21);
    assert(pow10(20) == 100000000000000000000nat);
    lemma_decimal_len_below(number as nat, 20);
}

/// The title of a chapter numbered by a machine word is at most 28
/// characters long.
pub proof fn lemma_chapter_title_short(number: usize)
    ensures
        chapter_title_spec(number as nat).len() <= 28,
{
    reveal_strlit("Chapter ");
    reveal_with_fuel(pow10, 21);
    assert(pow10(20) == 100000000000000000000nat);
    lemma_decimal_len_below(number as nat, 20);
}

/// Distinct numbers have distinct decimal notations.
pub proof fn law_decimal_injective(a: nat, b: nat)
    requires
        decimal(a) == decimal(b),
    ensures
        a == b,
    decreases a,
{
    lemma_decimal_len(a);
    lemma_decimal_len(b);
    if a < 10 && b < 10 {
        assert(decimal(a)[0] == digit_char(a));
        assert(decimal(b)[0] == digit_char(b));
        assert(digit_char(a) as int == 48 + a);
        assert(digit_char(b) as int == 48 + b);
    } else if a >= 10 && b >= 10 {
        let da = decimal(a);
        let db = decimal(b);
        assert(da.drop_last() =~= decimal(a / 10));
        assert(db.drop_last() =~= decimal(b / 10));
        law_decimal_injective(a / 10, b / 10);
        assert(da.last() == digit_char(a % 10));
        assert(db.last() == digit_char(b % 10));
        assert(digit_char(a % 10) as int == 48 + a % 10);
        assert(digit_char(b % 10) as int == 48 + b % 10);
    } else {
        assert(decimal(a).len() != decimal(b).len());
    }
}

/// Distinct chapters get distinct file names in the book.
pub proof fn law_chapter_file_names_distinct(a: nat, b: nat)
    requires
        a != b,
    ensures
        chapter_file_name_spec(a) != chapter_file_name_spec(b),
{
    let fa = chapter_file_name_spec(a);
    let fb = chapter_file_name_spec(b);
    if fa == fb {
        let p = FILE_PREFIX@.len() as int;
        let q = FILE_SUFFIX@.len() as int;
        assert(fa.subrange(p, fa.len() - q) =~= decimal(a));
        assert(fb.subrange(p, fb.len() - q) =~= decimal(b));
        law_decimal_injective(a, b);
    }
}

} // verus!
