//! Rewriting of scraped chapter HTML: void-tag cleaning and the decryption
//! of text scrambled for the "Open Sans Jumbld" font.
use vstd::prelude::*;

use crate::text::{
    chars_of, free_of, lemma_not_starts_with, lemma_replaced_absent, lemma_replaced_free_of,
    lemma_replaced_passes, lemma_replaced_plain_prefix, lemma_replaced_undone, push_char,
    replace_all, replaced, starts_with, tag_shaped,
};

verus! {

/// The HTML void tag `<hr>`.
pub open spec fn hr_open() -> Seq<char> {
    seq!['<', 'h', 'r', '>']
}

/// The XHTML self-closed tag `<hr/>`.
pub open spec fn hr_closed() -> Seq<char> {
    seq!['<', 'h', 'r', '/', '>']
}

/// The HTML void tag `<br>`.
pub open spec fn br_open() -> Seq<char> {
    seq!['<', 'b', 'r', '>']
}

/// The XHTML self-closed tag `<br/>`.
pub open spec fn br_closed() -> Seq<char> {
    seq!['<', 'b', 'r', '/', '>']
}

/// `html` with its `<hr>` tags, then its `<br>` tags, written in the
/// self-closed form that XHTML requires.
pub open spec fn cleaned(html: Seq<char>) -> Seq<char> {
    replaced(replaced(html, hr_open(), hr_closed()), br_open(), br_closed())
}

/// Rewrites the void tags `<hr>` and `<br>` of `html_content` as `<hr/>` and `<br/>`.
pub fn clean_html(html_content: String) -> (res: String)
    ensures
        res@ == cleaned(html_content@),
{
    proof {
        reveal_strlit("<hr>");
        reveal_strlit("<hr/>");
        reveal_strlit("<br>");
        reveal_strlit("<br/>");
    }
    assert("<hr>"@ =~= hr_open());
    assert("<hr/>"@ =~= hr_closed());
    assert("<br>"@ =~= br_open());
    assert("<br/>"@ =~= br_closed());
    let step = replace_all(html_content.as_str(), "<hr>", "<hr/>");
    replace_all(step.as_str(), "<br>", "<br/>")
}

/// The cipher alphabet of lower-case letters: the letter at position `i`
/// stands for the `i`-th letter of the plain alphabet.
pub open spec fn lower_key() -> Seq<char> {
    seq![
        't', 'o', 'n', 'q', 'u', 'e', 'r', 'z', 'l', 'a', 'w', 'i', 'c',
        'v', 'f', 'j', 'p', 's', 'y', 'h', 'g', 'd', 'm', 'k', 'b', 'x',
    ]
}

/// The cipher alphabet of upper-case letters.
pub open spec fn upper_key() -> Seq<char> {
    seq![
        'J', 'K', 'A', 'B', 'R', 'U', 'D', 'Q', 'Z', 'C', 'T', 'H', 'F',
        'V', 'L', 'I', 'W', 'N', 'E', 'Y', 'P', 'S', 'X', 'G', 'O', 'M',
    ]
}

/// `c` is an ASCII lower-case letter.
pub open spec fn is_ascii_lower(c: char) -> bool {
    'a' <= c <= 'z'
}

/// `c` is an ASCII upper-case letter.
pub open spec fn is_ascii_upper(c: char) -> bool {
    'A' <= c <= 'Z'
}

/// The decryption of one character: an ASCII letter is replaced by the key
/// letter at its alphabet position (keeping its case); anything else is kept.
pub open spec fn decrypt_char(c: char) -> char {
    if is_ascii_lower(c) {
        lower_key()[c as int - 'a' as int]
    } else if is_ascii_upper(c) {
        upper_key()[c as int - 'A' as int]
    } else {
        c
    }
}

/// The decryption of a text, character by character.
pub open spec fn decrypted(s: Seq<char>) -> Seq<char> {
    s.map_values(|c: char| decrypt_char(c))
}

fn decrypt_one(c: char) -> (d: char)
    ensures
        d == decrypt_char(c),
{
    let lower: [char; 26] = [
        't', 'o', 'n', 'q', 'u', 'e', 'r', 'z', 'l', 'a', 'w', 'i', 'c',
        'v', 'f', 'j', 'p', 's', 'y', 'h', 'g', 'd', 'm', 'k', 'b', 'x',
    ];
    let upper: [char; 26] = [
        'J', 'K', 'A', 'B', 'R', 'U', 'D', 'Q', 'Z', 'C', 'T', 'H', 'F',
        'V', 'L', 'I', 'W', 'N', 'E', 'Y', 'P', 'S', 'X', 'G', 'O', 'M',
    ];
    assert(lower@ =~= lower_key());
    assert(upper@ =~= upper_key());
    if 'a' <= c && c <= 'z' {
        let pos = (c as u32 - 'a' as u32) as usize;
        lower[pos]
    } else if 'A' <= c && c <= 'Z' {
        let pos = (c as u32 - 'A' as u32) as usize;
        upper[pos]
    } else {
        c
    }
}

/// Decrypts text scrambled for the "Open Sans Jumbld" font: a fixed
/// substitution of the ASCII letters, which keeps every other character.
pub fn decrypt_open_sans_jumbld(jum_str: &str) -> (res: String)
    ensures
        res@ == decrypted(jum_str@),
{
    let text = chars_of(jum_str);
    let n = text.len();
    let mut out = String::new();
    let mut i: usize = 0;
    while i < n
        invariant
            i <= n,
            n == text@.len(),
            text@ == jum_str@,
            out@ == decrypted(text@.take(i as int)),
        decreases n - i,
    {
        let d = decrypt_one(text[i]);
        push_char(&mut out, d);
        assert(text@.take(i + 1) =~= text@.take(i as int).push(text@[i as int]));
        i = i + 1;
        assert(out@ =~= decrypted(text@.take(i as int)));
    }
    assert(text@.take(n as int) =~= text@);
    out
}


/// Cleaned HTML holds no `<hr>` and no `<br>` tag any more.
pub proof fn law_cleaned_has_no_void_tags(html: Seq<char>)
    ensures
        free_of(cleaned(html), hr_open()),
        free_of(cleaned(html), br_open()),
{
    let step = replaced(html, hr_open(), hr_closed());
    assert(tag_shaped(hr_open()));
    assert(tag_shaped(br_open()));
    assert(tag_shaped(hr_closed()));
    assert(tag_shaped(br_closed()));
    assert(hr_closed().take(4)[3] != hr_open()[3]);
    assert(br_closed().take(4)[3] != br_open()[3]);
    assert(br_closed().take(4)[1] != hr_open()[1]);
    lemma_replaced_free_of(html, hr_open(), hr_closed(), hr_open());
    lemma_replaced_free_of(step, br_open(), br_closed(), hr_open());
    lemma_replaced_free_of(step, br_open(), br_closed(), br_open());
}

/// Cleaning is idempotent: cleaning cleaned HTML changes nothing.
pub proof fn law_clean_idempotent(html: Seq<char>)
    ensures
        cleaned(cleaned(html)) == cleaned(html),
{
    let c = cleaned(html);
    law_cleaned_has_no_void_tags(html);
    lemma_replaced_absent(c, hr_open(), hr_closed());
    lemma_replaced_absent(c, br_open(), br_closed());
}

/// Cleaning loses nothing: in HTML without `<hr/>` and `<br/>`, writing the
/// self-closed tags of cleaned HTML back as `<br>`, then `<hr>`, gives the
/// HTML back.
pub proof fn law_clean_reversible(html: Seq<char>)
    requires
        free_of(html, hr_closed()),
        free_of(html, br_closed()),
    ensures
        replaced(replaced(cleaned(html), br_closed(), br_open()), hr_closed(), hr_open()) == html,
{
    let step = replaced(html, hr_open(), hr_closed());
    assert(tag_shaped(hr_closed()));
    assert(tag_shaped(br_closed()));
    assert(hr_closed().take(5)[1] != br_closed()[1]);
    lemma_replaced_free_of(html, hr_open(), hr_closed(), br_closed());
    lemma_replaced_undone(step, br_open(), br_closed());
    lemma_replaced_undone(html, hr_open(), hr_closed());
}

/// Writing `<br>` as `<br/>` and writing `<hr/>` back as `<hr>` can be done in
/// either order: neither creates nor removes an occurrence of the other's pattern.
proof fn lemma_br_closing_commutes_with_hr_opening(x: Seq<char>)
    ensures
        replaced(replaced(x, br_open(), br_closed()), hr_closed(), hr_open()) == replaced(
            replaced(x, hr_closed(), hr_open()),
            br_open(),
            br_closed(),
        ),
    decreases x.len(),
{
    let a = br_open();
    let b = br_closed();
    let c = hr_closed();
    let d = hr_open();
    if x.len() == 0 {
    } else if starts_with(x, a) {
        let rest = x.skip(4);
        assert(x =~= a + rest) by {
            assert(x.take(4) =~= a);
        }
        let rr = replaced(rest, a, b);
        let ur = replaced(rest, c, d);
        lemma_br_closing_commutes_with_hr_opening(rest);
        lemma_not_starts_with(b + rr, c, 1);
        lemma_replaced_passes(b, rr, c, d);
        lemma_not_starts_with(a + rest, c, 1);
        lemma_replaced_passes(a, rest, c, d);
        assert((a + ur).take(4) =~= a);
        assert((a + ur).skip(4) =~= ur);
    } else if starts_with(x, c) {
        let rest = x.skip(5);
        assert(x =~= c + rest) by {
            assert(x.take(5) =~= c);
        }
        let rr = replaced(rest, a, b);
        let ur = replaced(rest, c, d);
        lemma_br_closing_commutes_with_hr_opening(rest);
        lemma_not_starts_with(c + rest, a, 1);
        lemma_replaced_passes(c, rest, a, b);
        assert((c + rr).take(5) =~= c);
        assert((c + rr).skip(5) =~= rr);
        lemma_not_starts_with(d + ur, a, 1);
        lemma_replaced_passes(d, ur, a, b);
    } else {
        let rest = x.drop_first();
        let rr = replaced(rest, a, b);
        let ur = replaced(rest, c, d);
        lemma_br_closing_commutes_with_hr_opening(rest);
        let left = seq![x[0]] + rr;
        let right = seq![x[0]] + ur;
        assert(replaced(x, a, b) == left);
        assert(replaced(x, c, d) == right);
        assert(left.drop_first() =~= rr);
        assert(right.drop_first() =~= ur);
        if starts_with(left, c) {
            let q = c.drop_first();
            assert(rr.take(q.len() as int) =~= q) by {
                assert forall|k: int| 0 <= k < q.len() implies rr[k] == q[k] by {
                    assert(left.take(5)[k + 1] == c[k + 1]);
                    assert(left[k + 1] == rr[k]);
                }
            }
            lemma_replaced_plain_prefix(rest, a, b, q);
            assert(x.take(5) =~= c) by {
                assert forall|k: int| 0 <= k < 5 implies x[k] == c[k] by {
                    if k > 0 {
                        assert(rest.take(q.len() as int)[k - 1] == q[k - 1]);
                    } else {
                        assert(left.take(5)[0] == c[0]);
                    }
                }
            }
        }
        if starts_with(right, a) {
            let q = a.drop_first();
            assert(ur.take(q.len() as int) =~= q) by {
                assert forall|k: int| 0 <= k < q.len() implies ur[k] == q[k] by {
                    assert(right.take(4)[k + 1] == a[k + 1]);
                    assert(right[k + 1] == ur[k]);
                }
            }
            lemma_replaced_plain_prefix(rest, c, d, q);
            assert(x.take(4) =~= a) by {
                assert forall|k: int| 0 <= k < 4 implies x[k] == a[k] by {
                    if k > 0 {
                        assert(rest.take(q.len() as int)[k - 1] == q[k - 1]);
                    } else {
                        assert(right.take(4)[0] == a[0]);
                    }
                }
            }
        }
        assert(replaced(left, c, d) == seq![x[0]] + replaced(rr, c, d));
        assert(replaced(right, a, b) == seq![x[0]] + replaced(ur, a, b));
    }
}

/// Cleaning loses nothing, in the other order too: in HTML without `<hr/>`
/// and `<br/>`, writing the self-closed tags of cleaned HTML back as `<hr>`,
/// then `<br>`, gives the HTML back.
pub proof fn law_clean_reversible_hr_first(html: Seq<char>)
    requires
        free_of(html, hr_closed()),
        free_of(html, br_closed()),
    ensures
        replaced(replaced(cleaned(html), hr_closed(), hr_open()), br_closed(), br_open()) == html,
{
    let step = replaced(html, hr_open(), hr_closed());
    assert(tag_shaped(hr_closed()));
    assert(tag_shaped(br_closed()));
    lemma_br_closing_commutes_with_hr_opening(step);
    lemma_replaced_undone(html, hr_open(), hr_closed());
    lemma_replaced_undone(html, br_open(), br_closed());
}

/// Decryption keeps the length of the text and every character that is not
/// an ASCII letter, and maps lower-case letters to lower-case letters and
/// upper-case letters to upper-case letters.
pub proof fn law_decrypt_keeps_shape(s: Seq<char>)
    ensures
        decrypted(s).len() == s.len(),
        forall|i: int|
            0 <= i < s.len() && !is_ascii_lower(s[i]) && !is_ascii_upper(s[i])
                ==> #[trigger] decrypted(s)[i] == s[i],
        forall|i: int| 0 <= i < s.len() && is_ascii_lower(s[i]) ==> is_ascii_lower(#[trigger] decrypted(s)[i]),
        forall|i: int| 0 <= i < s.len() && is_ascii_upper(s[i]) ==> is_ascii_upper(#[trigger] decrypted(s)[i]),
{
    assert forall|i: int| 0 <= i < s.len() && is_ascii_lower(s[i]) implies is_ascii_lower(#[trigger] decrypted(s)[i]) by {
        let k = s[i] as int - 'a' as int;
        assert(0 <= k < 26);
        assert(forall|j: int| 0 <= j < 26 ==> is_ascii_lower(#[trigger] lower_key()[j]));
    }
    assert forall|i: int| 0 <= i < s.len() && is_ascii_upper(s[i]) implies is_ascii_upper(#[trigger] decrypted(s)[i]) by {
        let k = s[i] as int - 'A' as int;
        assert(0 <= k < 26);
        assert(forall|j: int| 0 <= j < 26 ==> is_ascii_upper(#[trigger] upper_key()[j]));
    }
}

/// Two characters with the same decryption are equal.
proof fn lemma_decrypt_char_injective(a: char, b: char)
    requires
        decrypt_char(a) == decrypt_char(b),
    ensures
        a == b,
{
    assert(forall|i: int, j: int| 0 <= i < 26 && 0 <= j < 26 && i != j
        ==> #[trigger] lower_key()[i] != #[trigger] lower_key()[j]);
    assert(forall|i: int, j: int| 0 <= i < 26 && 0 <= j < 26 && i != j
        ==> #[trigger] upper_key()[i] != #[trigger] upper_key()[j]);
    assert(forall|j: int| 0 <= j < 26 ==> is_ascii_lower(#[trigger] lower_key()[j]));
    assert(forall|j: int| 0 <= j < 26 ==> is_ascii_upper(#[trigger] upper_key()[j]));
}

/// Decryption is a substitution cipher: distinct texts decrypt to distinct texts.
pub proof fn law_decrypt_injective(s: Seq<char>, t: Seq<char>)
    requires
        decrypted(s) == decrypted(t),
    ensures
        s == t,
{
    assert(s.len() == decrypted(s).len());
    assert(t.len() == decrypted(t).len());
    assert forall|i: int| 0 <= i < s.len() implies s[i] == t[i] by {
        assert(decrypted(s)[i] == decrypted(t)[i]);
        assert(decrypted(s)[i] == decrypt_char(s[i]));
        assert(decrypted(t)[i] == decrypt_char(t[i]));
        lemma_decrypt_char_injective(s[i], t[i]);
    }
    assert(s =~= t);
}

} // verus!
