//! Character-level text operations with their mathematical models.
use vstd::prelude::*;

verus! {

broadcast use vstd::string::group_string_axioms;

/// `p` occurs at the very start of `s`.
pub open spec fn starts_with(s: Seq<char>, p: Seq<char>) -> bool {
    p.len() <= s.len() && s.take(p.len() as int) == p
}

/// `p` occurs in `s` at position `i`.
pub open spec fn occurs_at(s: Seq<char>, p: Seq<char>, i: int) -> bool {
    0 <= i && i + p.len() <= s.len() && s.subrange(i, i + p.len()) == p
}

/// `p` occurs nowhere in `s`.
pub open spec fn free_of(s: Seq<char>, p: Seq<char>) -> bool {
    forall|i: int| !#[trigger] occurs_at(s, p, i)
}

/// The text obtained from `s` by replacing each occurrence of `from` with `to`,
/// where occurrences are found from left to right and never overlap.  An empty
/// pattern matches before every character and at the end of the text.
pub open spec fn replaced(s: Seq<char>, from: Seq<char>, to: Seq<char>) -> Seq<char>
    decreases s.len(),
{
    if from.len() == 0 {
        if s.len() == 0 {
            to
        } else {
            to + seq![s[0]] + replaced(s.drop_first(), from, to)
        }
    } else if s.len() == 0 {
        s
    } else if starts_with(s, from) {
        to + replaced(s.skip(from.len() as int), from, to)
    } else {
        seq![s[0]] + replaced(s.drop_first(), from, to)
    }
}

/// Appends `c` to the end of `s` (`String::push`).
#[verifier::external_body]
pub(crate) fn push_char(s: &mut String, c: char)
    ensures
        final(s)@ == old(s)@.push(c),
{
    s.push(c);
}

/// The characters of `s`, in order.
pub fn chars_of(s: &str) -> (v: Vec<char>)
    ensures
        v@ == s@,
{
    let mut v: Vec<char> = Vec::new();
    for c in it: s.chars()
        invariant
            v@ == it.seq().take(it.index()),
    {
        v.push(c);
    }
    v
}

/// Whether `pat` occurs in `text` at position `i`.
fn matches_at(text: &Vec<char>, i: usize, pat: &Vec<char>) -> (res: bool)
    requires
        i <= text@.len(),
    ensures
        res == starts_with(text@.skip(i as int), pat@),
{
    let n = text.len();
    let m = pat.len();
    if m > n - i {
        return false;
    }
    let mut j: usize = 0;
    while j < m
        invariant
            j <= m,
            m == pat@.len(),
            n == text@.len(),
            i + m <= n,
            forall|k: int| 0 <= k < j ==> text@[i + k] == pat@[k],
        decreases m - j,
    {
        if text[i + j] != pat[j] {
            assert(text@.skip(i as int).take(m as int)[j as int] != pat@[j as int]);
            return false;
        }
        j = j + 1;
    }
    assert(text@.skip(i as int).take(m as int) =~= pat@);
    true
}

/// `s` with every occurrence of `from` replaced by `to` (the behaviour of
/// `str::replace`).
pub fn replace_all(s: &str, from: &str, to: &str) -> (res: String)
    ensures
        res@ == replaced(s@, from@, to@),
{
    let text = chars_of(s);
    let pat = chars_of(from);
    let n = text.len();
    let m = pat.len();
    let mut out = String::new();
    let mut i: usize = 0;
    assert(text@.skip(0) =~= text@);
    assert(out@ + replaced(text@, pat@, to@) =~= replaced(text@, pat@, to@));
    if m == 0 {
        while i < n
            invariant
                i <= n,
                n == text@.len(),
                text@ == s@,
                pat@ == from@,
                m == pat@.len(),
                m == 0,
                out@ + replaced(text@.skip(i as int), pat@, to@) == replaced(text@, pat@, to@),
            decreases n - i,
        {
            let ghost rest = text@.skip(i as int);
            assert(rest.drop_first() =~= text@.skip(i + 1));
            assert(rest[0] == text@[i as int]);
            assert(replaced(rest, pat@, to@) == to@ + seq![rest[0]] + replaced(rest.drop_first(), pat@, to@));
            out.append(to);
            push_char(&mut out, text[i]);
            i = i + 1;
            assert(out@ + replaced(text@.skip(i as int), pat@, to@) =~= replaced(text@, pat@, to@));
        }
        out.append(to);
        assert(text@.skip(n as int).len() == 0);
    } else {
        while i < n
            invariant
                i <= n,
                n == text@.len(),
                text@ == s@,
                pat@ == from@,
                m == pat@.len(),
                m > 0,
                out@ + replaced(text@.skip(i as int), pat@, to@) == replaced(text@, pat@, to@),
            decreases n - i,
        {
            let ghost rest = text@.skip(i as int);
            if matches_at(&text, i, &pat) {
                assert(rest.skip(m as int) =~= text@.skip(i + m));
                out.append(to);
                i = i + m;
                assert(out@ + replaced(text@.skip(i as int), pat@, to@) =~= replaced(text@, pat@, to@));
            } else {
                assert(rest.drop_first() =~= text@.skip(i + 1));
                push_char(&mut out, text[i]);
                i = i + 1;
                assert(out@ + replaced(text@.skip(i as int), pat@, to@) =~= replaced(text@, pat@, to@));
            }
        }
        assert(text@.skip(n as int).len() == 0);
        assert(out@ =~= replaced(text@, pat@, to@));
    }
    out
}


/// `p` starts with `<` and holds no other `<`, as an HTML tag does.
pub open spec fn tag_shaped(p: Seq<char>) -> bool {
    &&& p.len() > 0
    &&& p[0] == '<'
    &&& forall|k: int| 0 < k < p.len() ==> p[k] != '<'
}

/// A text free of `p` stays free of it once its first `k` characters are dropped.
pub proof fn lemma_free_of_skip(s: Seq<char>, p: Seq<char>, k: int)
    requires
        free_of(s, p),
        0 <= k <= s.len(),
    ensures
        free_of(s.skip(k), p),
{
    assert forall|i: int| !#[trigger] occurs_at(s.skip(k), p, i) by {
        if occurs_at(s.skip(k), p, i) {
            assert(s.subrange(i + k, i + k + p.len()) =~= s.skip(k).subrange(i, i + p.len()));
            assert(occurs_at(s, p, i + k));
        }
    }
}

/// A text whose `k`-th character differs from that of `p` does not start with `p`.
pub proof fn lemma_not_starts_with(s: Seq<char>, p: Seq<char>, k: int)
    requires
        0 <= k < p.len(),
        k < s.len(),
        s[k] != p[k],
    ensures
        !starts_with(s, p),
{
    if starts_with(s, p) {
        assert(s.take(p.len() as int)[k] == s[k]);
    }
}

/// A prefix `p` that holds `<` at most as its first character, and where no
/// occurrence of `from` (which starts with `<`) begins, is kept as it is by
/// a replacement of `from`.
pub proof fn lemma_replaced_passes(p: Seq<char>, y: Seq<char>, from: Seq<char>, to: Seq<char>)
    requires
        from.len() > 0,
        from[0] == '<',
        forall|k: int| 0 < k < p.len() ==> p[k] != '<',
        p.len() > 0 ==> !starts_with(p + y, from),
    ensures
        replaced(p + y, from, to) == p + replaced(y, from, to),
    decreases p.len(),
{
    if p.len() == 0 {
        assert(p + y =~= y);
        assert(p + replaced(y, from, to) =~= replaced(y, from, to));
    } else {
        let s = p + y;
        let rest = p.drop_first();
        assert(s.drop_first() =~= rest + y);
        if rest.len() > 0 {
            assert((rest + y)[0] == p[1]);
            lemma_not_starts_with(rest + y, from, 0);
        }
        lemma_replaced_passes(rest, y, from, to);
        assert(replaced(s, from, to) == seq![s[0]] + replaced(rest + y, from, to));
        assert(seq![s[0]] + (rest + replaced(y, from, to)) =~= p + replaced(y, from, to));
    }
}

/// Every `<` of `s` is followed by a `>` before the next `<`: no tag is left
/// open where another begins.
pub open spec fn tags_closed(s: Seq<char>) -> bool {
    forall|i: int, j: int|
        #![trigger s[i], s[j]]
        0 <= i < j < s.len() && s[i] == '<' && s[j] == '<' ==> exists|m: int|
            i < m < j && #[trigger] s[m] == '>'
}

/// `p` is a single tag: it starts with `<`, holds no other `<`, and no `>`
/// before its last character.
pub open spec fn one_tag(p: Seq<char>) -> bool {
    &&& p.len() > 0
    &&& p[0] == '<'
    &&& forall|k: int| 0 < k < p.len() ==> #[trigger] p[k] != '<'
    &&& forall|k: int| 0 <= k < p.len() - 1 ==> #[trigger] p[k] != '>'
}

/// A text whose tags are closed keeps them closed once its first `k`
/// characters are dropped.
pub proof fn lemma_tags_closed_skip(s: Seq<char>, k: int)
    requires
        tags_closed(s),
        0 <= k <= s.len(),
    ensures
        tags_closed(s.skip(k)),
{
    let t = s.skip(k);
    assert forall|a: int, b: int|
        #![trigger t[a], t[b]]
        0 <= a < b < t.len() && t[a] == '<' && t[b] == '<' implies exists|c: int|
            a < c < b && #[trigger] t[c] == '>' by {
        assert(t[a] == s[a + k]);
        assert(t[b] == s[b + k]);
        let c = choose|c: int| a + k < c < b + k && #[trigger] s[c] == '>';
        assert(t[c - k] == s[c]);
    }
}

/// In a text with closed tags that starts with `<` and holds another `<` at
/// `j`, the first tag closes at some `m < j` with no `<` before it.
proof fn lemma_first_close(s: Seq<char>, k: int, j: int) -> (m: int)
    requires
        tags_closed(s),
        s.len() > 0,
        s[0] == '<',
        1 <= k <= j < s.len(),
        s[j] == '<',
        forall|t: int| 1 <= t < k ==> #[trigger] s[t] != '<' && s[t] != '>',
    ensures
        1 <= m < j,
        s[m] == '>',
        forall|t: int| 1 <= t < m ==> #[trigger] s[t] != '<',
    decreases j - k,
{
    if s[k] == '>' {
        k
    } else if s[k] == '<' {
        assert(s[0] == '<');
        let c = choose|c: int| 0 < c < k && #[trigger] s[c] == '>';
        assert(false);
        k
    } else {
        lemma_first_close(s, k + 1, j)
    }
}

/// The step of [`lemma_tag_removal`] past a first character that is not `<`.
proof fn lemma_tag_removal_plain(s: Seq<char>, q: Seq<char>, p: Seq<char>)
    requires
        s.len() > 0,
        s[0] != '<',
        q.len() > 0,
        !starts_with(s, q),
        one_tag(p),
        free_of(replaced(s.drop_first(), q, Seq::empty()), p),
        tags_closed(replaced(s.drop_first(), q, Seq::empty())),
    ensures
        free_of(replaced(s, q, Seq::empty()), p),
        tags_closed(replaced(s, q, Seq::empty())),
{
    let r = replaced(s, q, Seq::empty());
    let r1 = replaced(s.drop_first(), q, Seq::empty());
    assert(r == seq![s[0]] + r1);
    assert forall|i: int| !#[trigger] occurs_at(r, p, i) by {
        if occurs_at(r, p, i) {
            if i == 0 {
                assert(r.subrange(0, p.len() as int)[0] == r[0]);
            } else {
                assert(r1.subrange(i - 1, i - 1 + p.len()) =~= r.subrange(i, i + p.len()));
                assert(occurs_at(r1, p, i - 1));
            }
        }
    }
    assert forall|a: int, b: int|
        #![trigger r[a], r[b]]
        0 <= a < b < r.len() && r[a] == '<' && r[b] == '<' implies exists|c: int|
            a < c < b && #[trigger] r[c] == '>' by {
        assert(r[a] == r1[a - 1]);
        assert(r[b] == r1[b - 1]);
        let c = choose|c: int| a - 1 < c < b - 1 && #[trigger] r1[c] == '>';
        assert(r[c + 1] == r1[c]);
    }
}

/// An occurrence of a single tag `p` in `pre + r2`, where `pre` is a first
/// tag `<…>` of `s` that does not begin an occurrence of `p` in `s`, lies in `r2`.
proof fn lemma_occurrence_after_tag(s: Seq<char>, pre: Seq<char>, r2: Seq<char>, p: Seq<char>)
    requires
        pre.len() >= 2,
        pre.len() <= s.len(),
        s.take(pre.len() as int) == pre,
        pre[pre.len() - 1] == '>',
        forall|t: int| 0 < t < pre.len() ==> #[trigger] pre[t] != '<',
        one_tag(p),
        !occurs_at(s, p, 0),
        free_of(r2, p),
    ensures
        free_of(pre + r2, p),
{
    let r = pre + r2;
    let m = pre.len() - 1;
    assert forall|i: int| !#[trigger] occurs_at(r, p, i) by {
        if occurs_at(r, p, i) {
            if i > m {
                assert(r2.subrange(i - m - 1, i - m - 1 + p.len()) =~= r.subrange(i, i + p.len()));
                assert(occurs_at(r2, p, i - m - 1));
            } else if i > 0 {
                assert(r.subrange(i, i + p.len())[0] == r[i]);
                assert(r[i] == pre[i]);
            } else if p.len() > m + 1 {
                assert(r.subrange(0, p.len() as int)[m] == r[m]);
                assert(r[m] == pre[m]);
            } else {
                assert forall|k: int| 0 <= k < p.len() implies s.subrange(0, p.len() as int)[k]
                    == r.subrange(0, p.len() as int)[k] by {
                    assert(s.take(pre.len() as int)[k] == s[k]);
                }
                assert(s.subrange(0, p.len() as int) =~= r.subrange(0, p.len() as int));
            }
        }
    }
}

/// Tags stay closed in `pre + r2` where `pre` is one closed tag `<…>` and
/// `r2` has closed tags.
proof fn lemma_closed_after_tag(pre: Seq<char>, r2: Seq<char>)
    requires
        pre.len() >= 2,
        pre[pre.len() - 1] == '>',
        forall|t: int| 0 < t < pre.len() ==> #[trigger] pre[t] != '<',
        tags_closed(r2),
    ensures
        tags_closed(pre + r2),
{
    let r = pre + r2;
    let m = pre.len() - 1;
    assert forall|a: int, b: int|
        #![trigger r[a], r[b]]
        0 <= a < b < r.len() && r[a] == '<' && r[b] == '<' implies exists|c: int|
            a < c < b && #[trigger] r[c] == '>' by {
        if a > m {
            assert(r[a] == r2[a - m - 1]);
            assert(r[b] == r2[b - m - 1]);
            let c = choose|c: int| a - m - 1 < c < b - m - 1 && #[trigger] r2[c] == '>';
            assert(r[c + m + 1] == r2[c]);
        } else {
            assert(r[a] == pre[a]);
            if b <= m {
                assert(r[b] == pre[b]);
            }
            assert(r[m] == pre[m]);
        }
    }
}

/// The step of [`lemma_tag_removal`] past a first tag `s[..=m]` that is not `q`.
proof fn lemma_tag_removal_tag(s: Seq<char>, q: Seq<char>, p: Seq<char>, m: int)
    requires
        s.len() > 0,
        s[0] == '<',
        1 <= m < s.len(),
        s[m] == '>',
        forall|t: int| 1 <= t < m ==> #[trigger] s[t] != '<',
        one_tag(q),
        one_tag(p),
        !starts_with(s, q),
        p == q || free_of(s, p),
        free_of(replaced(s.skip(m + 1), q, Seq::empty()), p),
        tags_closed(replaced(s.skip(m + 1), q, Seq::empty())),
    ensures
        free_of(replaced(s, q, Seq::empty()), p),
        tags_closed(replaced(s, q, Seq::empty())),
{
    let e = Seq::<char>::empty();
    let pre = s.take(m + 1);
    let y = s.skip(m + 1);
    assert(s =~= pre + y);
    assert forall|k: int| 0 < k < pre.len() implies #[trigger] pre[k] != '<' by {
        assert(pre[k] == s[k]);
    }
    lemma_replaced_passes(pre, y, q, e);
    let r2 = replaced(y, q, e);
    if occurs_at(s, p, 0) {
        if p == q {
            assert(s.take(q.len() as int) =~= s.subrange(0, q.len() as int));
        }
    }
    lemma_occurrence_after_tag(s, pre, r2, p);
    lemma_closed_after_tag(pre, r2);
}

/// A text that starts with `<` but not with `q`, and holds no other `<`,
/// holds no `q`.
proof fn lemma_tag_removal_last(s: Seq<char>, q: Seq<char>)
    requires
        s.len() > 0,
        q.len() > 0,
        q[0] == '<',
        !starts_with(s, q),
        forall|k: int| 1 <= k < s.len() ==> #[trigger] s[k] != '<',
    ensures
        free_of(s, q),
{
    assert forall|i: int| !#[trigger] occurs_at(s, q, i) by {
        if occurs_at(s, q, i) {
            if i == 0 {
                assert(s.take(q.len() as int) =~= s.subrange(0, q.len() as int));
            } else {
                assert(s.subrange(i, i + q.len())[0] == s[i]);
            }
        }
    }
}

/// Removing a single tag `q` from a text with closed tags keeps its tags
/// closed, leaves no `q`, and creates no occurrence of a single tag `p`
/// that was not there.
pub proof fn lemma_tag_removal(s: Seq<char>, q: Seq<char>, p: Seq<char>)
    requires
        one_tag(q),
        one_tag(p),
        tags_closed(s),
        p == q || free_of(s, p),
    ensures
        free_of(replaced(s, q, Seq::empty()), p),
        tags_closed(replaced(s, q, Seq::empty())),
    decreases s.len(),
{
    let e = Seq::<char>::empty();
    if s.len() == 0 {
        assert forall|i: int| !#[trigger] occurs_at(replaced(s, q, e), p, i) by {}
    } else if starts_with(s, q) {
        let rest = s.skip(q.len() as int);
        lemma_tags_closed_skip(s, q.len() as int);
        if p != q {
            lemma_free_of_skip(s, p, q.len() as int);
        }
        lemma_tag_removal(rest, q, p);
        assert(replaced(s, q, e) == e + replaced(rest, q, e));
        assert(e + replaced(rest, q, e) =~= replaced(rest, q, e));
    } else if s[0] != '<' {
        lemma_tags_closed_skip(s, 1);
        assert(s.skip(1) =~= s.drop_first());
        if p != q {
            lemma_free_of_skip(s, p, 1);
        }
        lemma_tag_removal(s.drop_first(), q, p);
        lemma_tag_removal_plain(s, q, p);
    } else if forall|k: int| 1 <= k < s.len() ==> #[trigger] s[k] != '<' {
        lemma_tag_removal_last(s, q);
        lemma_replaced_absent(s, q, e);
    } else {
        let j = choose|k: int| 1 <= k < s.len() && #[trigger] s[k] == '<';
        let m = lemma_first_close(s, 1, j);
        lemma_tags_closed_skip(s, m + 1);
        if p != q {
            lemma_free_of_skip(s, p, m + 1);
        }
        lemma_tag_removal(s.skip(m + 1), q, p);
        lemma_tag_removal_tag(s, q, p, m);
    }
}

/// Replacing a pattern that does not occur leaves a text unchanged.
pub proof fn lemma_replaced_absent(s: Seq<char>, from: Seq<char>, to: Seq<char>)
    requires
        from.len() > 0,
        free_of(s, from),
    ensures
        replaced(s, from, to) == s,
    decreases s.len(),
{
    if s.len() > 0 {
        if starts_with(s, from) {
            assert(s.subrange(0, from.len() as int) =~= s.take(from.len() as int));
            assert(occurs_at(s, from, 0));
        } else {
            lemma_free_of_skip(s, from, 1);
            assert(s.skip(1) =~= s.drop_first());
            lemma_replaced_absent(s.drop_first(), from, to);
            assert(seq![s[0]] + s.drop_first() =~= s);
        }
    }
}

/// A prefix without `<` of a replacement's result, where the replacement text
/// starts with `<`, is already a prefix of the original text.
pub proof fn lemma_replaced_plain_prefix(s: Seq<char>, from: Seq<char>, to: Seq<char>, q: Seq<char>)
    requires
        from.len() > 0,
        to.len() > 0,
        to[0] == '<',
        forall|k: int| 0 <= k < q.len() ==> q[k] != '<',
        starts_with(replaced(s, from, to), q),
    ensures
        starts_with(s, q),
    decreases s.len(),
{
    if q.len() == 0 {
        assert(s.take(0) =~= q);
    } else if s.len() == 0 {
    } else if starts_with(s, from) {
        let r = replaced(s, from, to);
        assert(r[0] == to[0]);
        assert(r.take(q.len() as int)[0] == q[0]);
    } else {
        let r = replaced(s, from, to);
        let r1 = replaced(s.drop_first(), from, to);
        assert(r == seq![s[0]] + r1);
        assert(r.take(q.len() as int)[0] == q[0]);
        assert(r1.take(q.len() - 1) =~= q.drop_first()) by {
            assert forall|k: int| 0 <= k < q.len() - 1 implies r1[k] == q.drop_first()[k] by {
                assert(r[k + 1] == r1[k]);
                assert(r.take(q.len() as int)[k + 1] == q[k + 1]);
            }
        }
        lemma_replaced_plain_prefix(s.drop_first(), from, to, q.drop_first());
        assert(s.take(q.len() as int) =~= q) by {
            assert forall|k: int| 0 <= k < q.len() implies s[k] == q[k] by {
                if k > 0 {
                    assert(s.drop_first().take(q.len() - 1)[k - 1] == q.drop_first()[k - 1]);
                }
            }
        }
    }
}

/// Replacing tag-shaped text by tag-shaped text creates no occurrence of a
/// tag-shaped pattern `p` that does not begin the replacement text, where `p`
/// is the replaced pattern itself or a pattern that did not occur before.
pub proof fn lemma_replaced_free_of(s: Seq<char>, from: Seq<char>, to: Seq<char>, p: Seq<char>)
    requires
        tag_shaped(p),
        from.len() > 0,
        tag_shaped(to),
        to.len() >= p.len(),
        to.take(p.len() as int) != p,
        p == from || free_of(s, p),
    ensures
        free_of(replaced(s, from, to), p),
    decreases s.len(),
{
    let r = replaced(s, from, to);
    if s.len() == 0 {
        assert forall|i: int| !#[trigger] occurs_at(r, p, i) by {}
    } else if starts_with(s, from) {
        let rest = s.skip(from.len() as int);
        if p != from {
            lemma_free_of_skip(s, p, from.len() as int);
        }
        lemma_replaced_free_of(rest, from, to, p);
        let r1 = replaced(rest, from, to);
        assert(r == to + r1);
        assert forall|i: int| !#[trigger] occurs_at(r, p, i) by {
            if occurs_at(r, p, i) {
                if i >= to.len() {
                    assert(r1.subrange(i - to.len(), i - to.len() + p.len())
                        =~= r.subrange(i, i + p.len()));
                    assert(occurs_at(r1, p, i - to.len()));
                } else if i > 0 {
                    assert(r.subrange(i, i + p.len())[0] == r[i]);
                    assert(r[i] == to[i]);
                } else {
                    assert(r.subrange(0, p.len() as int) =~= to.take(p.len() as int));
                }
            }
        }
    } else {
        let rest = s.drop_first();
        if p != from {
            lemma_free_of_skip(s, p, 1);
            assert(s.skip(1) =~= rest);
        }
        lemma_replaced_free_of(rest, from, to, p);
        let r1 = replaced(rest, from, to);
        assert(r == seq![s[0]] + r1);
        assert forall|i: int| !#[trigger] occurs_at(r, p, i) by {
            if occurs_at(r, p, i) {
                if i >= 1 {
                    assert(r1.subrange(i - 1, i - 1 + p.len()) =~= r.subrange(i, i + p.len()));
                    assert(occurs_at(r1, p, i - 1));
                } else {
                    let q = p.drop_first();
                    assert(r.subrange(0, p.len() as int)[0] == s[0]);
                    assert(r1.take(q.len() as int) =~= q) by {
                        assert forall|k: int| 0 <= k < q.len() implies r1[k] == q[k] by {
                            assert(r.subrange(0, p.len() as int)[k + 1] == p[k + 1]);
                            assert(r[k + 1] == r1[k]);
                        }
                    }
                    lemma_replaced_plain_prefix(rest, from, to, q);
                    assert(s.subrange(0, p.len() as int) =~= p) by {
                        assert forall|k: int| 0 <= k < p.len() implies s[k] == p[k] by {
                            if k > 0 {
                                assert(rest.take(q.len() as int)[k - 1] == q[k - 1]);
                            }
                        }
                    }
                    assert(occurs_at(s, p, 0));
                    if p == from {
                        assert(s.take(from.len() as int) =~= s.subrange(0, p.len() as int));
                    }
                }
            }
        }
    }
}


/// Replacing `from` by a tag-shaped `to` is undone by replacing `to` back by
/// `from`, in a text where `to` did not occur.
pub proof fn lemma_replaced_undone(s: Seq<char>, from: Seq<char>, to: Seq<char>)
    requires
        from.len() > 0,
        tag_shaped(to),
        free_of(s, to),
    ensures
        replaced(replaced(s, from, to), to, from) == s,
    decreases s.len(),
{
    if s.len() == 0 {
    } else if starts_with(s, from) {
        let rest = s.skip(from.len() as int);
        lemma_free_of_skip(s, to, from.len() as int);
        lemma_replaced_undone(rest, from, to);
        let r1 = replaced(rest, from, to);
        let r = to + r1;
        assert(r.take(to.len() as int) =~= to);
        assert(r.skip(to.len() as int) =~= r1);
        assert(from + rest =~= s);
    } else {
        let rest = s.drop_first();
        lemma_free_of_skip(s, to, 1);
        assert(s.skip(1) =~= rest);
        lemma_replaced_undone(rest, from, to);
        let r1 = replaced(rest, from, to);
        let r = seq![s[0]] + r1;
        assert(r == replaced(s, from, to));
        if starts_with(r, to) {
            let q = to.drop_first();
            assert(r1.take(q.len() as int) =~= q) by {
                assert forall|k: int| 0 <= k < q.len() implies r1[k] == q[k] by {
                    assert(r.take(to.len() as int)[k + 1] == to[k + 1]);
                    assert(r[k + 1] == r1[k]);
                }
            }
            lemma_replaced_plain_prefix(rest, from, to, q);
            assert(s.subrange(0, to.len() as int) =~= to) by {
                assert forall|k: int| 0 <= k < to.len() implies s[k] == to[k] by {
                    if k > 0 {
                        assert(rest.take(q.len() as int)[k - 1] == q[k - 1]);
                    } else {
                        assert(r.take(to.len() as int)[0] == to[0]);
                    }
                }
            }
            assert(occurs_at(s, to, 0));
        }
        assert(r.drop_first() =~= r1);
        assert(seq![s[0]] + rest =~= s);
    }
}

} // verus!
