use novel_to_epub::text::replace_all;
use novel_to_epub::utils::{clean_html, decrypt_open_sans_jumbld};

#[test]
fn clean_html_closes_void_tags() {
    assert_eq!(
        clean_html("<p>a<br>b</p><hr><p>c</p>".to_string()),
        "<p>a<br/>b</p><hr/><p>c</p>"
    );
}

#[test]
fn clean_html_keeps_other_text() {
    assert_eq!(clean_html("<p>plain</p>".to_string()), "<p>plain</p>");
    assert_eq!(clean_html(String::new()), "");
    assert_eq!(clean_html("<hr/><br/>".to_string()), "<hr/><br/>");
}

#[test]
fn clean_html_is_idempotent_on_example() {
    let once = clean_html("x<hr><br><hr>y<br>".to_string());
    assert_eq!(once, "x<hr/><br/><hr/>y<br/>");
    assert_eq!(clean_html(once.clone()), once);
}

#[test]
fn clean_html_leaves_no_void_tag_on_nested_example() {
    let out = clean_html("<<hr>hr><b<br>r>".to_string());
    assert_eq!(out, "<<hr/>hr><b<br/>r>");
    assert!(!out.contains("<hr>"));
    assert!(!out.contains("<br>"));
}

#[test]
fn decrypt_substitutes_letters() {
    assert_eq!(decrypt_open_sans_jumbld("Hello, World!"), "Quiif, Xfsiq!");
}

#[test]
fn decrypt_full_alphabets() {
    assert_eq!(
        decrypt_open_sans_jumbld("abcdefghijklmnopqrstuvwxyz"),
        "tonquerzlawicvfjpsyhgdmkbx"
    );
    assert_eq!(
        decrypt_open_sans_jumbld("ABCDEFGHIJKLMNOPQRSTUVWXYZ"),
        "JKABRUDQZCTHFVLIWNEYPSXGOM"
    );
}

#[test]
fn decrypt_keeps_other_characters() {
    assert_eq!(decrypt_open_sans_jumbld("123 <é> ß…"), "123 <é> ß…");
    assert_eq!(decrypt_open_sans_jumbld(""), "");
}

#[test]
fn decrypt_is_injective_on_example() {
    let a = decrypt_open_sans_jumbld("abc");
    let b = decrypt_open_sans_jumbld("abd");
    assert_ne!(a, b);
}

#[test]
fn replace_all_matches_std_replace() {
    let cases: Vec<(&str, &str, &str)> = vec![
        ("aaa", "aa", "b"),
        ("abcabc", "bc", "X"),
        ("abc", "", "-"),
        ("", "", "-"),
        ("", "a", "b"),
        ("héllo wörld", "ö", "o"),
        ("<hr><hr>", "<hr>", "<hr/>"),
        ("aaaa", "aa", "aaa"),
        ("abc", "abcd", "x"),
        ("xyz", "xyz", ""),
    ];
    for (s, from, to) in cases {
        assert_eq!(replace_all(s, from, to), s.replace(from, to), "{s:?} {from:?} {to:?}");
    }
}

#[test]
fn replace_all_absent_pattern_keeps_text() {
    assert_eq!(replace_all("chapter", "zz", "y"), "chapter");
}

#[test]
fn clean_html_is_undone_in_either_order() {
    let html = "<p>a<br>b</p><hr><hr><br><brx><hr >";
    let cleaned = clean_html(html.to_string());
    assert_eq!(cleaned, "<p>a<br/>b</p><hr/><hr/><br/><brx><hr >");
    assert_eq!(cleaned.replace("<hr/>", "<hr>").replace("<br/>", "<br>"), html);
    assert_eq!(cleaned.replace("<br/>", "<br>").replace("<hr/>", "<hr>"), html);
}
