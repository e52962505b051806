//! Splitting raw text into entries, normalizing and filtering entries, and
//! collapsing, deduplicating and sorting the resulting names.
use vstd::prelude::*;
use vstd::relations::{sorted_by, total_ordering};
use vstd::hash_map::StringHashMap;
use vstd::multiset::Multiset;
use vstd::seq_lib::lemma_multiset_commutative;
use crate::text::{
    alphabetic, chars_of, extend_chars, is_alphabetic, is_white_space, lowercase, push_char, same_chars, string_of,
    sub_chars, to_lowercase, to_uppercase, uppercase, white_space,
};

verus! {

// ---------------------------------------------------------------------------
// Splitting
// ---------------------------------------------------------------------------

/// The characters that separate entries in raw input.
pub open spec fn is_separator(c: char) -> bool {
    c == '\n' || c == '\r' || c == ',' || c == ';' || c == '\t'
}

pub open spec fn separator_pred() -> spec_fn(char) -> bool {
    |c: char| is_separator(c)
}

pub open spec fn white_space_pred() -> spec_fn(char) -> bool {
    |c: char| white_space(c)
}

/// The pieces of `s` between the characters that satisfy `p`: one more piece
/// than there are such characters, empty pieces included.
pub open spec fn split_by(s: Seq<char>, p: spec_fn(char) -> bool) -> Seq<Seq<char>>
    decreases s.len(),
{
    if s.len() == 0 {
        seq![Seq::<char>::empty()]
    } else {
        let prev = split_by(s.drop_last(), p);
        if p(s.last()) {
            prev.push(Seq::<char>::empty())
        } else {
            prev.update(prev.len() - 1, prev.last().push(s.last()))
        }
    }
}

pub proof fn lemma_split_by_nonempty(s: Seq<char>, p: spec_fn(char) -> bool)
    ensures
        split_by(s, p).len() >= 1,
    decreases s.len(),
{
    if s.len() > 0 {
        lemma_split_by_nonempty(s.drop_last(), p);
    }
}

/// One step of `split_by`, seen from a prefix of `s`.
proof fn lemma_split_by_step(s: Seq<char>, i: int, p: spec_fn(char) -> bool)
    requires
        0 <= i < s.len(),
    ensures
        split_by(s.take(i + 1), p) == ({
            let prev = split_by(s.take(i), p);
            if p(s[i]) {
                prev.push(Seq::<char>::empty())
            } else {
                prev.update(prev.len() - 1, prev.last().push(s[i]))
            }
        }),
{
    assert(s.take(i + 1).drop_last() =~= s.take(i));
}

/// Views of a vector of strings.
pub open spec fn views(v: Seq<String>) -> Seq<Seq<char>> {
    v.map_values(|s: String| s@)
}

/// Split raw input into candidate entries at every newline, carriage return,
/// comma, semicolon and tab.
pub fn split_entries(raw: &str) -> (r: Vec<String>)
    ensures
        views(r@) == split_by(raw@, separator_pred()),
{
    let chars = chars_of(raw);
    let mut done: Vec<String> = Vec::new();
    let mut cur = String::new();
    let mut i: usize = 0;
    proof {
        assert(chars@.take(0) =~= Seq::<char>::empty());
    }
    while i < chars.len()
        invariant
            i <= chars.len(),
            chars@ == raw@,
            views(done@).push(cur@) == split_by(chars@.take(i as int), separator_pred()),
        decreases chars.len() - i,
    {
        let c = chars[i];
        proof {
            lemma_split_by_step(chars@, i as int, separator_pred());
            lemma_split_by_nonempty(chars@.take(i as int), separator_pred());
        }
        if c == '\n' || c == '\r' || c == ',' || c == ';' || c == '\t' {
            let piece = cur;
            proof {
                assert(views(done@.push(piece)) =~= views(done@).push(piece@));
            }
            done.push(piece);
            cur = String::new();
        } else {
            let ghost old_cur = cur@;
            push_char(&mut cur, c);
            proof {
                let prev = split_by(chars@.take(i as int), separator_pred());
                assert(views(done@).push(cur@) =~= prev.update(prev.len() - 1, old_cur.push(c)));
            }
        }
        i = i + 1;
    }
    proof {
        assert(chars@.take(chars.len() as int) =~= chars@);
        assert(views(done@.push(cur)) =~= views(done@).push(cur@));
    }
    done.push(cur);
    done
}


// ---------------------------------------------------------------------------
// Trimming and words
// ---------------------------------------------------------------------------

/// `s` without the leading characters that satisfy `p`.
pub open spec fn trim_start_by(s: Seq<char>, p: spec_fn(char) -> bool) -> Seq<char>
    decreases s.len(),
{
    if s.len() > 0 && p(s[0]) {
        trim_start_by(s.drop_first(), p)
    } else {
        s
    }
}

/// `s` without the trailing characters that satisfy `p`.
pub open spec fn trim_end_by(s: Seq<char>, p: spec_fn(char) -> bool) -> Seq<char>
    decreases s.len(),
{
    if s.len() > 0 && p(s.last()) {
        trim_end_by(s.drop_last(), p)
    } else {
        s
    }
}

/// `s` without the leading and trailing characters that satisfy `p`.
pub open spec fn trim_by(s: Seq<char>, p: spec_fn(char) -> bool) -> Seq<char> {
    trim_end_by(trim_start_by(s, p), p)
}

pub open spec fn is_quote(c: char) -> bool {
    c == '"' || c == '\''
}

/// The non-empty runs of non-whitespace characters of `s`, in order.
pub open spec fn words(s: Seq<char>) -> Seq<Seq<char>> {
    split_by(s, white_space_pred()).filter(|w: Seq<char>| w.len() > 0)
}

/// The characters trimmed from both ends of an entry: whitespace and quotes.
pub open spec fn is_trimmed_char(c: char) -> bool {
    white_space(c) || is_quote(c)
}

pub open spec fn trimmed_char_pred() -> spec_fn(char) -> bool {
    |c: char| is_trimmed_char(c)
}

fn is_trimmed_char_exec(c: char) -> (r: bool)
    ensures
        r == is_trimmed_char(c),
{
    is_white_space(c) || c == '"' || c == '\''
}

proof fn lemma_trim_start_skip(v: Seq<char>, i: int, p: spec_fn(char) -> bool)
    requires
        0 <= i < v.len(),
        p(v[i]),
    ensures
        trim_start_by(v.skip(i), p) == trim_start_by(v.skip(i + 1), p),
{
    assert(v.skip(i).drop_first() =~= v.skip(i + 1));
}

/// `v` without any leading or trailing whitespace and quote characters.
fn trim_chars(v: &Vec<char>) -> (r: Vec<char>)
    ensures
        r@ == trim_by(v@, trimmed_char_pred()),
{
    let ghost p = trimmed_char_pred();
    let n = v.len();
    let mut lo: usize = 0;
    assert(v@.skip(0) =~= v@);
    while lo < n && is_trimmed_char_exec(v[lo])
        invariant
            lo <= n == v.len(),
            p == trimmed_char_pred(),
            trim_start_by(v@, p) == trim_start_by(v@.skip(lo as int), p),
        decreases n - lo,
    {
        proof {
            lemma_trim_start_skip(v@, lo as int, p);
        }
        lo = lo + 1;
    }
    assert(trim_start_by(v@, p) == v@.subrange(lo as int, n as int)) by {
        assert(v@.skip(lo as int) =~= v@.subrange(lo as int, n as int));
    }
    let mut hi: usize = n;
    while hi > lo && is_trimmed_char_exec(v[hi - 1])
        invariant
            lo <= hi <= n == v.len(),
            p == trimmed_char_pred(),
            trim_start_by(v@, p) == v@.subrange(lo as int, n as int),
            trim_by(v@, p) == trim_end_by(v@.subrange(lo as int, hi as int), p),
        decreases hi - lo,
    {
        assert(v@.subrange(lo as int, hi as int).drop_last() =~= v@.subrange(
            lo as int,
            hi - 1 as int,
        ));
        hi = hi - 1;
    }
    sub_chars(v, lo, hi)
}

proof fn lemma_filter_nonempty_push(s: Seq<Seq<char>>, w: Seq<char>)
    ensures
        s.push(w).filter(|x: Seq<char>| x.len() > 0) == if w.len() > 0 {
            s.filter(|x: Seq<char>| x.len() > 0).push(w)
        } else {
            s.filter(|x: Seq<char>| x.len() > 0)
        },
{
    s.lemma_filter_push(w, |x: Seq<char>| x.len() > 0);
}

/// The whitespace-separated words of `v`.
fn words_of(v: &Vec<char>) -> (r: Vec<Vec<char>>)
    ensures
        r@.map_values(|w: Vec<char>| w@) == words(v@),
{
    let ghost p = white_space_pred();
    let ghost ne = |x: Seq<char>| x.len() > 0;
    let mut done: Vec<Vec<char>> = Vec::new();
    let mut cur: Vec<char> = Vec::new();
    let mut i: usize = 0;
    assert(v@.take(0) =~= Seq::<char>::empty());
    while i < v.len()
        invariant
            i <= v.len(),
            p == white_space_pred(),
            ne == (|x: Seq<char>| x.len() > 0),
            split_by(v@.take(i as int), p).len() >= 1,
            done@.map_values(|w: Vec<char>| w@) == split_by(v@.take(i as int), p).drop_last().filter(ne),
            cur@ == split_by(v@.take(i as int), p).last(),
        decreases v.len() - i,
    {
        let c = v[i];
        let ghost prev = split_by(v@.take(i as int), p);
        proof {
            lemma_split_by_step(v@, i as int, p);
            assert(prev =~= prev.drop_last().push(prev.last()));
        }
        if is_white_space(c) {
            proof {
                lemma_filter_nonempty_push(prev.drop_last(), prev.last());
                assert(prev.push(Seq::<char>::empty()).drop_last() =~= prev);
            }
            if cur.len() > 0 {
                let w = cur;
                assert(done@.push(w).map_values(|w: Vec<char>| w@) =~= done@.map_values(|w: Vec<char>| w@).push(w@));
                done.push(w);
            }
            cur = Vec::new();
        } else {
            cur.push(c);
            proof {
                let next = prev.update(prev.len() - 1, prev.last().push(c));
                assert(next.drop_last() =~= prev.drop_last());
            }
        }
        i = i + 1;
    }
    let ghost fin = split_by(v@.take(i as int), p);
    proof {
        assert(v@.take(v.len() as int) =~= v@);
        assert(fin =~= fin.drop_last().push(fin.last()));
        lemma_filter_nonempty_push(fin.drop_last(), fin.last());
    }
    if cur.len() > 0 {
        let w = cur;
        assert(done@.push(w).map_values(|w: Vec<char>| w@) =~= done@.map_values(|w: Vec<char>| w@).push(w@));
        done.push(w);
    }
    done
}

// ---------------------------------------------------------------------------
// Title-casing
// ---------------------------------------------------------------------------

/// Known Mc/Mac surnames whose letter after the prefix is also capitalized.
pub open spec fn known_mc_mac_surnames() -> Seq<Seq<char>> {
    seq![
        "macarthur"@, "macdonald"@, "macdougall"@, "macfarlane"@, "macgregor"@, "mackay"@,
        "mackenzie"@, "maclean"@, "macleod"@, "macmillan"@, "macneil"@, "macpherson"@,
        "mctavish"@, "mcallister"@, "mccarthy"@, "mcconnell"@, "mccormick"@, "mcdaniel"@,
        "mcdonald"@, "mcdougall"@, "mcfadden"@, "mcgee"@, "mcgrath"@, "mcgregor"@,
        "mcguire"@, "mcintosh"@, "mcintyre"@, "mckay"@, "mckenzie"@, "mclaughlin"@,
        "mclean"@, "mcleod"@, "mcmahon"@, "mcmillan"@, "mcneil"@, "mcpherson"@,
    ]
}

fn known_surnames() -> (v: Vec<&'static str>)
    ensures
        v@.map_values(|s: &str| s@) == known_mc_mac_surnames(),
{
    let v = vec![
        "macarthur", "macdonald", "macdougall", "macfarlane", "macgregor", "mackay",
        "mackenzie", "maclean", "macleod", "macmillan", "macneil", "macpherson",
        "mctavish", "mcallister", "mccarthy", "mcconnell", "mccormick", "mcdaniel",
        "mcdonald", "mcdougall", "mcfadden", "mcgee", "mcgrath", "mcgregor",
        "mcguire", "mcintosh", "mcintyre", "mckay", "mckenzie", "mclaughlin",
        "mclean", "mcleod", "mcmahon", "mcmillan", "mcneil", "mcpherson",
    ];
    assert(v@.map_values(|s: &str| s@) =~= known_mc_mac_surnames());
    v
}

/// The length of the Mc/Mac prefix of a lowercase segment that is a known
/// Mc/Mac surname, or `None`.
pub open spec fn mc_mac_prefix(lower: Seq<char>) -> Option<int> {
    if known_mc_mac_surnames().contains(lower) {
        if lower.len() >= 3 && lower[0] == 'm' && lower[1] == 'a' && lower[2] == 'c' {
            Some(3)
        } else if lower.len() >= 2 && lower[0] == 'm' && lower[1] == 'c' {
            Some(2)
        } else {
            None
        }
    } else {
        None
    }
}

/// The length of the Mc/Mac prefix of a lowercase segment that is a known
/// Mc/Mac surname, or `None`.
pub fn mc_mac_prefix_len(lower: &Vec<char>) -> (r: Option<usize>)
    ensures
        r matches Some(n) ==> mc_mac_prefix(lower@) == Some(n as int),
        r is None ==> mc_mac_prefix(lower@) is None,
{
    let names = known_surnames();
    let ghost list = known_mc_mac_surnames();
    let mut known = false;
    let mut j: usize = 0;
    while j < names.len()
        invariant
            j <= names.len(),
            names@.map_values(|s: &str| s@) == list,
            list == known_mc_mac_surnames(),
            !known ==> forall|k: int| 0 <= k < j ==> list[k] != lower@,
            known ==> list.contains(lower@),
        decreases names.len() - j,
    {
        let candidate = chars_of(names[j]);
        if same_chars(&candidate, lower) {
            known = true;
            proof {
                assert(list[j as int] == lower@);
            }
        }
        j = j + 1;
    }
    if !known {
        return None;
    }
    let n = lower.len();
    if n >= 3 && lower[0] == 'm' && lower[1] == 'a' && lower[2] == 'c' {
        Some(3)
    } else if n >= 2 && lower[0] == 'm' && lower[1] == 'c' {
        Some(2)
    } else {
        None
    }
}

/// Title-case a segment given its lowercase form: the first character
/// uppercased, and for a known Mc/Mac surname also the character right after
/// the prefix.
pub open spec fn title_case_lowered(lower: Seq<char>) -> Seq<char> {
    let prefix = mc_mac_prefix(lower);
    if prefix is Some && lower.len() > prefix->0 {
        let n = prefix->0;
        uppercase(lower[0]) + lower.subrange(1, n) + uppercase(lower[n]) + lower.skip(n + 1)
    } else if lower.len() == 0 {
        Seq::<char>::empty()
    } else {
        uppercase(lower[0]) + lower.skip(1)
    }
}

/// Title-case one segment (a run between hyphens and apostrophes), applying
/// the Mc/Mac exception when the whole segment is a known surname.
pub open spec fn case_segment(seg: Seq<char>) -> Seq<char> {
    if seg.len() == 0 {
        Seq::<char>::empty()
    } else {
        title_case_lowered(lowercase(seg))
    }
}

fn upper_chars(c: char) -> (r: Vec<char>)
    ensures
        r@ == uppercase(c),
{
    let u = to_uppercase(c);
    chars_of(u.as_str())
}

/// Title-case a segment from its lowercase form.
pub fn title_case_lowercase_segment(lower: &Vec<char>) -> (r: Vec<char>)
    ensures
        r@ == title_case_lowered(lower@),
{
    let prefix = mc_mac_prefix_len(lower);
    match prefix {
        Some(n) => {
            if lower.len() > n {
                let mut r = upper_chars(lower[0]);
                let middle = sub_chars(lower, 1, n);
                extend_chars(&mut r, &middle);
                let second = upper_chars(lower[n]);
                extend_chars(&mut r, &second);
                let rest = sub_chars(lower, n + 1, lower.len());
                extend_chars(&mut r, &rest);
                assert(lower@.skip(n + 1) =~= lower@.subrange(n + 1, lower@.len() as int));
                return r;
            }
        },
        None => {},
    }
    if lower.len() == 0 {
        Vec::new()
    } else {
        let mut r = upper_chars(lower[0]);
        let rest = sub_chars(lower, 1, lower.len());
        extend_chars(&mut r, &rest);
        assert(lower@.skip(1) =~= lower@.subrange(1, lower@.len() as int));
        r
    }
}

fn case_segment_chars(seg: &Vec<char>) -> (r: Vec<char>)
    ensures
        r@ == case_segment(seg@),
{
    if seg.len() == 0 {
        return Vec::new();
    }
    let text = string_of(seg);
    let lower_text = to_lowercase(text.as_str());
    let lower = chars_of(lower_text.as_str());
    title_case_lowercase_segment(&lower)
}

/// A segment's casing depends only on its lowercase form: segments equal up
/// to case (such as "MACKENZIE", "mackenzie" and "MacKenzie") are cased alike.
/// The one case left out is an empty segment beside a non-empty one whose
/// lowercase form is empty.
pub proof fn law_case_segment_depends_on_lowercase_only(a: Seq<char>, b: Seq<char>)
    requires
        lowercase(a) == lowercase(b),
        a.len() == 0 <==> b.len() == 0,
    ensures
        case_segment(a) == case_segment(b),
{
}

/// A segment whose lowercase form is not a known Mc/Mac surname gets plain
/// title-casing: its lowercase form with the first character uppercased.
pub proof fn law_unknown_surnames_get_plain_title_case(seg: Seq<char>)
    requires
        seg.len() > 0,
        lowercase(seg).len() > 0,
        !known_mc_mac_surnames().contains(lowercase(seg)),
    ensures
        case_segment(seg) == uppercase(lowercase(seg)[0]) + lowercase(seg).skip(1),
{
}

/// A known Mac surname gets a second capital right after "mac", and a known
/// Mc surname right after "mc".
pub proof fn law_known_surnames_get_second_capital(seg: Seq<char>)
    requires
        seg.len() > 0,
        known_mc_mac_surnames().contains(lowercase(seg)),
        lowercase(seg).len() > 3,
    ensures
        ({
            let l = lowercase(seg);
            let n: int = if l[0] == 'm' && l[1] == 'a' && l[2] == 'c' {
                3
            } else {
                2
            };
            (l[0] == 'm' && (l[1] == 'c' || (l[1] == 'a' && l[2] == 'c'))) ==> case_segment(seg)
                == uppercase(l[0]) + l.subrange(1, n) + uppercase(l[n]) + l.skip(n + 1)
        }),
{
}

pub open spec fn is_boundary(c: char) -> bool {
    c == '-' || c == '\''
}

/// The index of the first hyphen or apostrophe of `w`, or its length if it has none.
pub open spec fn boundary_index(w: Seq<char>) -> nat
    decreases w.len(),
{
    if w.len() == 0 {
        0
    } else if is_boundary(w[0]) {
        0
    } else {
        1 + boundary_index(w.drop_first())
    }
}

/// `boundary_index` is the position of the first hyphen or apostrophe.
proof fn lemma_boundary_index_bound(w: Seq<char>)
    ensures
        boundary_index(w) <= w.len(),
        forall|k: int| 0 <= k < boundary_index(w) ==> !is_boundary(#[trigger] w[k]),
        boundary_index(w) < w.len() ==> is_boundary(w[boundary_index(w) as int]),
    decreases w.len(),
{
    if w.len() > 0 && !is_boundary(w[0]) {
        let d = w.drop_first();
        lemma_boundary_index_bound(d);
        assert forall|k: int| 0 <= k < boundary_index(w) implies !is_boundary(#[trigger] w[k]) by {
            if k > 0 {
                assert(w[k] == d[k - 1]);
            }
        }
    }
}

proof fn lemma_boundary_index_concat(seg: Seq<char>, rest: Seq<char>)
    requires
        forall|k: int| 0 <= k < seg.len() ==> !is_boundary(#[trigger] seg[k]),
    ensures
        boundary_index(seg + rest) == seg.len() + boundary_index(rest),
    decreases seg.len(),
{
    if seg.len() > 0 {
        assert((seg + rest).drop_first() =~= seg.drop_first() + rest);
        lemma_boundary_index_concat(seg.drop_first(), rest);
    } else {
        assert(seg + rest =~= rest);
    }
}

/// Title-case a word, treating hyphens and apostrophes as boundaries between
/// segments: each segment is cased with `case_segment`, and the boundary
/// characters stay where they are.
pub open spec fn title_case_word(w: Seq<char>) -> Seq<char>
    decreases w.len(),
{
    let j = boundary_index(w);
    if j < w.len() {
        case_segment(w.take(j as int)) + seq![w[j as int]] + title_case_word(w.skip(j + 1 as int))
    } else {
        case_segment(w)
    }
}

pub open spec fn boundary_pred() -> spec_fn(char) -> bool {
    |c: char| is_boundary(c)
}

/// Two words cased alike: the same hyphens and apostrophes in the same order,
/// and between them segments that have the same lowercase form and are empty
/// in the same places.
pub open spec fn cased_alike(a: Seq<char>, b: Seq<char>) -> bool {
    let sa = split_by(a, boundary_pred());
    let sb = split_by(b, boundary_pred());
    &&& a.filter(boundary_pred()) == b.filter(boundary_pred())
    &&& forall|k: int|
        0 <= k < sa.len() ==> lowercase(#[trigger] sa[k]) == lowercase(sb[k]) && (sa[k].len() == 0
            <==> sb[k].len() == 0)
}

/// Nothing is kept when no item satisfies the predicate.
proof fn lemma_filter_none(x: Seq<char>, p: spec_fn(char) -> bool)
    requires
        forall|j: int| 0 <= j < x.len() ==> !p(#[trigger] x[j]),
    ensures
        x.filter(p) == Seq::<char>::empty(),
{
    if x.filter(p).len() > 0 {
        x.lemma_filter_pred(p, 0);
        assert(x.filter(p).contains(x.filter(p)[0]));
        x.lemma_filter_contains_rev(p, x.filter(p)[0]);
    }
    assert(x.filter(p) =~= Seq::<char>::empty());
}

/// Splitting at a first separator `c`, after a run `x` with none.
proof fn lemma_split_by_first_piece(x: Seq<char>, c: char, y: Seq<char>, p: spec_fn(char) -> bool)
    requires
        p(c),
        forall|j: int| 0 <= j < x.len() ==> !p(#[trigger] x[j]),
    ensures
        split_by(x + seq![c] + y, p) == seq![x] + split_by(y, p),
        (x + seq![c] + y).filter(p) == seq![c] + y.filter(p),
    decreases y.len(),
{
    let z = x + seq![c] + y;
    lemma_split_by_single(x, p);
    lemma_filter_none(x, p);
    Seq::filter_distributes_over_add(x + seq![c], y, p);
    Seq::filter_distributes_over_add(x, seq![c], p);
    Seq::<char>::empty().lemma_filter_prepend(c, p);
    assert(seq![c] =~= seq![c] + Seq::<char>::empty());
    reveal(Seq::filter);
    assert(Seq::<char>::empty().filter(p) =~= Seq::<char>::empty());
    assert(Seq::<char>::empty() + seq![c] =~= seq![c]);
    if y.len() == 0 {
        assert(z.drop_last() =~= x);
        assert(z.last() == c);
        assert(split_by(z, p) =~= seq![x] + split_by(y, p));
    } else {
        let v = y.drop_last();
        lemma_split_by_first_piece(x, c, v, p);
        lemma_split_by_nonempty(v, p);
        assert(z.drop_last() =~= x + seq![c] + v);
        assert(z.last() == y.last());
        assert(split_by(z, p) =~= seq![x] + split_by(y, p));
    }
}

/// Words cased alike are title-cased alike.
pub proof fn law_title_case_word_up_to_case(a: Seq<char>, b: Seq<char>)
    requires
        cased_alike(a, b),
    ensures
        title_case_word(a) == title_case_word(b),
    decreases a.len(),
{
    let p = boundary_pred();
    let i = boundary_index(a);
    let j = boundary_index(b);
    lemma_boundary_index_bound(a);
    lemma_boundary_index_bound(b);
    if i < a.len() {
        let (x, y) = (a.take(i as int), a.skip((i + 1) as int));
        assert(a =~= x + seq![a[i as int]] + y);
        lemma_split_by_first_piece(x, a[i as int], y, p);
        if j == b.len() {
            lemma_filter_none(b, p);
            assert(a.filter(p).len() > 0);
        }
        let (u, v) = (b.take(j as int), b.skip((j + 1) as int));
        assert(b =~= u + seq![b[j as int]] + v);
        lemma_split_by_first_piece(u, b[j as int], v, p);
        assert(a.filter(p)[0] == b.filter(p)[0]);
        assert(y.filter(p) =~= a.filter(p).drop_first());
        assert(v.filter(p) =~= b.filter(p).drop_first());
        law_split_piece_count(y, p);
        law_split_piece_count(v, p);
        assert(cased_alike(y, v)) by {
            let sa = split_by(a, p);
            let sb = split_by(b, p);
            assert forall|k: int| 0 <= k < split_by(y, p).len() implies lowercase(
                #[trigger] split_by(y, p)[k],
            ) == lowercase(split_by(v, p)[k]) && (split_by(y, p)[k].len() == 0 <==> split_by(
                v,
                p,
            )[k].len() == 0) by {
                assert(sa[k + 1] == split_by(y, p)[k]);
                assert(sb[k + 1] == split_by(v, p)[k]);
            }
        }
        law_title_case_word_up_to_case(y, v);
        assert(split_by(a, p)[0] == x);
        assert(split_by(b, p)[0] == u);
        law_case_segment_depends_on_lowercase_only(x, u);
    } else {
        lemma_filter_none(a, p);
        if j < b.len() {
            b.lemma_filter_contains(p, j as int);
        }
        assert(a.take(i as int) =~= a);
        assert(b.take(j as int) =~= b);
        lemma_split_by_single(a, p);
        lemma_split_by_single(b, p);
        assert(split_by(a, p)[0] == a);
        law_case_segment_depends_on_lowercase_only(a, b);
    }
}

fn title_case_chars(w: &Vec<char>) -> (r: Vec<char>)
    ensures
        r@ == title_case_word(w@),
{
    let mut result: Vec<char> = Vec::new();
    let mut segment: Vec<char> = Vec::new();
    let mut i: usize = 0;
    assert(segment@ + w@.skip(0) =~= w@);
    while i < w.len()
        invariant
            i <= w.len(),
            forall|k: int| 0 <= k < segment@.len() ==> !is_boundary(#[trigger] segment@[k]),
            result@ + title_case_word(segment@ + w@.skip(i as int)) == title_case_word(w@),
        decreases w.len() - i,
    {
        let c = w[i];
        let ghost old_result = result@;
        let ghost old_segment = segment@;
        if c == '-' || c == '\'' {
            proof {
                let rest = w@.skip(i as int);
                let whole = segment@ + rest;
                lemma_boundary_index_concat(segment@, rest);
                assert(boundary_index(rest) == 0);
                assert(whole.take(segment@.len() as int) =~= segment@);
                assert(whole[segment@.len() as int] == c);
                assert(whole.skip(segment@.len() + 1 as int) =~= w@.skip(i + 1));
                assert(Seq::<char>::empty() + w@.skip(i + 1) =~= w@.skip(i + 1));
            }
            let cased = case_segment_chars(&segment);
            extend_chars(&mut result, &cased);
            result.push(c);
            segment = Vec::new();
            proof {
                assert(result@ =~= old_result + case_segment(old_segment) + seq![c]);
            }
        } else {
            segment.push(c);
            proof {
                assert(segment@ + w@.skip(i + 1) =~= old_segment + w@.skip(i as int));
            }
        }
        i = i + 1;
    }
    proof {
        lemma_boundary_index_concat(segment@, Seq::<char>::empty());
        assert(segment@ + w@.skip(i as int) =~= segment@);
    }
    let cased = case_segment_chars(&segment);
    extend_chars(&mut result, &cased);
    result
}

// ---------------------------------------------------------------------------
// Normalizing one entry
// ---------------------------------------------------------------------------

/// `ws` joined with a single space between consecutive items.
pub open spec fn join_words(ws: Seq<Seq<char>>) -> Seq<char>
    decreases ws.len(),
{
    if ws.len() == 0 {
        Seq::<char>::empty()
    } else if ws.len() == 1 {
        ws[0]
    } else {
        join_words(ws.drop_last()) + seq![' '] + ws.last()
    }
}

/// An entry with every surrounding whitespace and quote character removed,
/// in whatever mix they come.
pub open spec fn trimmed_entry(s: Seq<char>) -> Seq<char> {
    trim_by(s, trimmed_char_pred())
}

/// The normalized form of an entry: `None` when nothing is left after
/// trimming; otherwise its words, each title-cased, joined by single spaces.
pub open spec fn normalized(s: Seq<char>) -> Option<Seq<char>> {
    let t = trimmed_entry(s);
    if t.len() == 0 {
        None
    } else {
        Some(join_words(words(t).map_values(|w: Seq<char>| title_case_word(w))))
    }
}

/// Normalize a single entry: trim surrounding whitespace and quotes, collapse
/// repeated internal whitespace, and title-case each word while respecting
/// hyphens and apostrophes as word boundaries.
pub fn normalize_entry(raw: &str) -> (r: Option<String>)
    ensures
        r matches Some(s) ==> normalized(raw@) == Some(s@),
        r is None ==> normalized(raw@) is None,
{
    let chars = chars_of(raw);
    let t = trim_chars(&chars);
    if t.len() == 0 {
        return None;
    }
    let ws = words_of(&t);
    let ghost titled = words(t@).map_values(|w: Seq<char>| title_case_word(w));
    let mut out: Vec<char> = Vec::new();
    let mut k: usize = 0;
    while k < ws.len()
        invariant
            k <= ws.len(),
            ws@.map_values(|w: Vec<char>| w@) == words(t@),
            titled == words(t@).map_values(|w: Seq<char>| title_case_word(w)),
            titled.len() == ws.len(),
            out@ == join_words(titled.take(k as int)),
        decreases ws.len() - k,
    {
        assert(ws@[k as int]@ == words(t@)[k as int]);
        let cased = title_case_chars(&ws[k]);
        let ghost prev = out@;
        if k > 0 {
            out.push(' ');
        }
        extend_chars(&mut out, &cased);
        proof {
            let next = titled.take(k + 1 as int);
            assert(next.drop_last() =~= titled.take(k as int));
            if k == 0 {
                assert(out@ =~= next[0]);
            } else {
                assert(out@ =~= prev + seq![' '] + next.last());
            }
        }
        k = k + 1;
    }
    assert(titled.take(ws.len() as int) =~= titled);
    Some(string_of(&out))
}

/// The characters allowed in a plausible name.
pub open spec fn name_char(c: char) -> bool {
    alphabetic(c) || white_space(c) || c == '-' || c == '\'' || c == '.'
}

pub open spec fn is_ascii_letter(c: char) -> bool {
    'a' <= c <= 'z' || 'A' <= c <= 'Z'
}

/// The ASCII characters allowed in a name: letters, whitespace (tab, line
/// feed, vertical tab, form feed, carriage return, space), hyphen, apostrophe
/// and period.
pub open spec fn is_ascii_name_char(c: char) -> bool {
    is_ascii_letter(c) || '\u{9}' <= c <= '\u{d}' || c == ' ' || c == '-' || c == '\'' || c == '.'
}

/// A plausible name written in ASCII: non-empty, made only of the ASCII
/// characters allowed in a name, with at least one letter.
pub open spec fn ascii_plausible(s: Seq<char>) -> bool {
    &&& s.len() > 0
    &&& forall|i: int| 0 <= i < s.len() ==> is_ascii_name_char(#[trigger] s[i])
    &&& exists|i: int| 0 <= i < s.len() && is_ascii_letter(#[trigger] s[i])
}

pub open spec fn is_ascii_digit(c: char) -> bool {
    '0' <= c <= '9'
}

/// A plausible name: non-empty, made only of letters, whitespace, hyphens,
/// apostrophes and periods, with at least one letter.
pub open spec fn plausible(s: Seq<char>) -> bool {
    &&& s.len() > 0
    &&& forall|i: int| 0 <= i < s.len() ==> name_char(#[trigger] s[i])
    &&& exists|i: int| 0 <= i < s.len() && alphabetic(#[trigger] s[i])
}

/// An entry holding a character that is not a letter, not whitespace, and
/// not a hyphen, apostrophe or period (such as '/', '&' or '@') is not a
/// plausible name.
pub proof fn law_junk_character_is_not_plausible(s: Seq<char>, i: int)
    requires
        0 <= i < s.len(),
        !alphabetic(s[i]),
        !white_space(s[i]),
        s[i] != '-' && s[i] != '\'' && s[i] != '.',
    ensures
        !plausible(s),
{
    assert(!name_char(s[i]));
}

/// A non-empty entry with at least one letter and otherwise only letters,
/// whitespace, hyphens, apostrophes and periods is a plausible name; an empty
/// entry, or one without a letter, is not.
pub proof fn law_letters_and_name_marks_are_plausible(s: Seq<char>)
    ensures
        (s.len() > 0 && (forall|i: int|
            0 <= i < s.len() ==> alphabetic(#[trigger] s[i]) || white_space(s[i]) || s[i] == '-' || s[i]
                == '\'' || s[i] == '.') && (exists|i: int| 0 <= i < s.len() && alphabetic(#[trigger] s[i])))
            ==> plausible(s),
        s.len() == 0 ==> !plausible(s),
        (forall|i: int| 0 <= i < s.len() ==> !alphabetic(#[trigger] s[i])) ==> !plausible(s),
{
}

/// Reject entries that are clearly not names: empty strings, anything with a
/// digit, or anything that isn't letters/space/hyphen/apostrophe/period.
pub fn is_plausible_name(entry: &str) -> (r: bool)
    ensures
        r == plausible(entry@),
        (exists|i: int| 0 <= i < entry@.len() && is_ascii_digit(#[trigger] entry@[i])) ==> !r,
        (forall|i: int| 0 <= i < entry@.len() ==> #[trigger] entry@[i] <= '\u{7f}') ==> (r <==> ascii_plausible(
            entry@,
        )),
{
    let chars = chars_of(entry);
    if chars.len() == 0 {
        return false;
    }
    let mut has_letter = false;
    let mut i: usize = 0;
    while i < chars.len()
        invariant
            i <= chars.len(),
            chars@ == entry@,
            forall|j: int| 0 <= j < i ==> name_char(#[trigger] chars@[j]),
            forall|j: int| 0 <= j < i ==> !is_ascii_digit(#[trigger] chars@[j]),
            forall|j: int|
                0 <= j < i ==> #[trigger] chars@[j] <= '\u{7f}' ==> (alphabetic(chars@[j]) <==> is_ascii_letter(
                    chars@[j],
                )),
            has_letter <==> exists|j: int| 0 <= j < i && alphabetic(#[trigger] chars@[j]),
        decreases chars.len() - i,
    {
        let c = chars[i];
        let letter = is_alphabetic(c);
        assert(is_ascii_digit(c) ==> !name_char(c));
        if !(letter || is_white_space(c) || c == '-' || c == '\'' || c == '.') {
            assert(!name_char(chars@[i as int]));
            assert(c <= '\u{7f}' ==> !is_ascii_name_char(chars@[i as int]));
            return false;
        }
        if letter {
            has_letter = true;
        }
        i = i + 1;
    }
    has_letter
}

// ---------------------------------------------------------------------------
// Counting, deduplicating
// ---------------------------------------------------------------------------

/// The position of the first pair in `r` whose name has the lowercase form
/// `k`, or -1 if there is none.
pub open spec fn key_index(r: Seq<(Seq<char>, nat)>, k: Seq<char>) -> int
    decreases r.len(),
{
    if r.len() == 0 {
        -1
    } else {
        let j = key_index(r.drop_last(), k);
        if j >= 0 {
            j
        } else if lowercase(r.last().0) == k {
            r.len() - 1
        } else {
            -1
        }
    }
}

pub proof fn lemma_key_index(r: Seq<(Seq<char>, nat)>, k: Seq<char>)
    ensures
        -1 <= key_index(r, k) < r.len(),
        key_index(r, k) == -1 <==> forall|j: int| 0 <= j < r.len() ==> lowercase(#[trigger] r[j].0) != k,
        key_index(r, k) >= 0 ==> lowercase(r[key_index(r, k)].0) == k,
        forall|j: int| 0 <= j < key_index(r, k) ==> lowercase(#[trigger] r[j].0) != k,
    decreases r.len(),
{
    if r.len() > 0 {
        let d = r.drop_last();
        lemma_key_index(d, k);
        assert forall|j: int| 0 <= j < d.len() implies #[trigger] d[j] == r[j] by {}
        assert(r.last() == r[r.len() - 1]);
        if key_index(r, k) == -1 {
            assert forall|j: int| 0 <= j < r.len() implies lowercase(#[trigger] r[j].0) != k by {
                if j < d.len() {
                    assert(d[j] == r[j]);
                    assert(lowercase(d[j].0) != k);
                }
            }
        }
        if forall|j: int| 0 <= j < r.len() ==> lowercase(#[trigger] r[j].0) != k {
            assert forall|j: int| 0 <= j < d.len() implies lowercase(#[trigger] d[j].0) != k by {
                assert(d[j] == r[j]);
            }
        }
        assert forall|j: int| 0 <= j < key_index(r, k) implies lowercase(#[trigger] r[j].0) != k by {
            assert(d[j] == r[j]);
        }
    }
}

/// Collapse names that are equal up to case into (first-seen name, number of
/// occurrences) pairs, in the order their first occurrences appear.
pub open spec fn tally(es: Seq<Seq<char>>) -> Seq<(Seq<char>, nat)>
    decreases es.len(),
{
    if es.len() == 0 {
        Seq::empty()
    } else {
        let prev = tally(es.drop_last());
        let e = es.last();
        let j = key_index(prev, lowercase(e));
        if j >= 0 {
            prev.update(j, (prev[j].0, prev[j].1 + 1))
        } else {
            prev.push((e, 1nat))
        }
    }
}

/// The (name, count) pairs of a vector, seen as character sequences and naturals.
pub open spec fn pairs_view(r: Seq<(String, usize)>) -> Seq<(Seq<char>, nat)> {
    r.map_values(|p: (String, usize)| (p.0@, p.1 as nat))
}

/// Collapse duplicates (case-insensitive) into (name, occurrence count) pairs,
/// keeping the first-seen casing and original order.
pub fn count_entries(entries: Vec<String>) -> (r: Vec<(String, usize)>)
    ensures
        pairs_view(r@) == tally(views(entries@)),
{
    let ghost es = views(entries@);
    let mut names: Vec<String> = Vec::new();
    let mut counts: Vec<usize> = Vec::new();
    // The position in `names` of the name with each lowercase form.
    let mut positions: StringHashMap<usize> = StringHashMap::new();
    let mut i: usize = 0;
    while i < entries.len()
        invariant
            i <= entries.len(),
            es == views(entries@),
            names.len() == counts.len(),
            forall|k: Seq<char>|
                #[trigger] positions@.contains_key(k) ==> positions@[k] < names.len() && lowercase(
                    names@[positions@[k] as int]@,
                ) == k,
            forall|j: int| 0 <= j < names.len() ==> positions@.contains_key(lowercase(#[trigger] names@[j]@)),
            forall|j: int| 0 <= j < counts.len() ==> #[trigger] counts@[j] <= i,
            tally(es.take(i as int)).len() == names.len(),
            forall|j: int|
                0 <= j < names.len() ==> #[trigger] tally(es.take(i as int))[j] == (
                names@[j]@,
                counts@[j] as nat,
            ),
        decreases entries.len() - i,
    {
        let entry = entries[i].clone();
        let key = to_lowercase(entry.as_str());
        let ghost prev = tally(es.take(i as int));
        proof {
            assert(es.take(i + 1 as int).drop_last() =~= es.take(i as int));
            assert(es.take(i + 1 as int).last() == entry@);
            lemma_key_index(prev, key@);
            law_tally_names_distinct(es.take(i as int));
        }
        match positions.get(key.as_str()) {
            Some(found) => {
                let j = *found;
                proof {
                    assert(lowercase(prev[j as int].0) == key@);
                    let ki = key_index(prev, key@);
                    assert(lowercase(prev[ki].0) == key@);
                    if ki < j {
                        assert(lowercase(prev[ki].0) != lowercase(prev[j as int].0));
                    }
                    assert(key_index(prev, key@) == j);
                }
                let c = counts[j];
                counts.set(j, c + 1);
            },
            None => {
                proof {
                    assert forall|m: int| 0 <= m < prev.len() implies lowercase(#[trigger] prev[m].0) != key@ by {
                        assert(positions@.contains_key(lowercase(names@[m]@)));
                    }
                }
                positions.insert(key, names.len());
                names.push(entry);
                counts.push(1);
            },
        }
        i = i + 1;
    }
    proof {
        assert(es.take(entries.len() as int) =~= es);
    }
    let mut r: Vec<(String, usize)> = Vec::new();
    let mut j: usize = 0;
    while j < names.len()
        invariant
            j <= names.len() == counts.len(),
            tally(es).len() == names.len(),
            forall|m: int| 0 <= m < names.len() ==> #[trigger] tally(es)[m] == (names@[m]@, counts@[m] as nat),
            pairs_view(r@) == tally(es).take(j as int),
        decreases names.len() - j,
    {
        let name = names[j].clone();
        let ghost before = r@;
        assert(tally(es)[j as int] == (names@[j as int]@, counts@[j as int] as nat));
        r.push((name, counts[j]));
        assert(r@ == before.push((names@[j as int], counts@[j as int])));
        assert(pairs_view(r@) =~= pairs_view(before).push((names@[j as int]@, counts@[j as int] as nat)));
        assert(tally(es).take(j + 1 as int) =~= tally(es).take(j as int).push(tally(es)[j as int]));
        j = j + 1;
    }
    assert(tally(es).take(names.len() as int) =~= tally(es));
    r
}

/// The names of `tally(es)`, without their counts.
pub open spec fn dedup_names(es: Seq<Seq<char>>) -> Seq<Seq<char>> {
    tally(es).map_values(|p: (Seq<char>, nat)| p.0)
}

/// Remove duplicates (case-insensitive) while keeping the first-seen form and
/// original order.
pub fn dedup_preserve_order(entries: Vec<String>) -> (r: Vec<String>)
    ensures
        views(r@) == dedup_names(views(entries@)),
{
    let counted = count_entries(entries);
    let mut r: Vec<String> = Vec::new();
    let mut j: usize = 0;
    while j < counted.len()
        invariant
            j <= counted.len(),
            views(r@) == pairs_view(counted@).take(j as int).map_values(|p: (Seq<char>, nat)| p.0),
        decreases counted.len() - j,
    {
        let name = counted[j].0.clone();
        let ghost before = r@;
        r.push(name);
        assert(r@ == before.push(counted@[j as int].0));
        assert(views(r@) =~= views(before).push(counted@[j as int].0@));
        let ghost pv = pairs_view(counted@);
        assert(pv.take(j + 1 as int).map_values(|p: (Seq<char>, nat)| p.0) =~= pv.take(j as int).map_values(
            |p: (Seq<char>, nat)| p.0,
        ).push(pv[j as int].0));
        j = j + 1;
    }
    assert(pairs_view(counted@).take(counted.len() as int) =~= pairs_view(counted@));
    r
}

// ---------------------------------------------------------------------------
// Sorting
// ---------------------------------------------------------------------------

/// Strict lexicographic order on character sequences, comparing characters
/// by code point (the same order as comparing their UTF-8 bytes).
pub open spec fn lex_lt(a: Seq<char>, b: Seq<char>) -> bool
    decreases a.len(),
{
    if a.len() == 0 {
        b.len() > 0
    } else if b.len() == 0 {
        false
    } else if a[0] != b[0] {
        a[0] < b[0]
    } else {
        lex_lt(a.drop_first(), b.drop_first())
    }
}

/// The order `sort_entries` produces: case-insensitively alphabetical, with
/// entries equal up to case ordered by their exact characters.
pub open spec fn entry_le(a: Seq<char>, b: Seq<char>) -> bool {
    ||| lex_lt(lowercase(a), lowercase(b))
    ||| lowercase(a) == lowercase(b) && (lex_lt(a, b) || a == b)
}

pub open spec fn entry_order() -> spec_fn(Seq<char>, Seq<char>) -> bool {
    |a: Seq<char>, b: Seq<char>| entry_le(a, b)
}

pub proof fn lemma_lex_irreflexive(a: Seq<char>)
    ensures
        !lex_lt(a, a),
    decreases a.len(),
{
    if a.len() > 0 {
        lemma_lex_irreflexive(a.drop_first());
    }
}

pub proof fn lemma_lex_asymmetric(a: Seq<char>, b: Seq<char>)
    ensures
        lex_lt(a, b) ==> !lex_lt(b, a),
    decreases a.len(),
{
    if a.len() > 0 && b.len() > 0 && a[0] == b[0] {
        lemma_lex_asymmetric(a.drop_first(), b.drop_first());
    }
}

pub proof fn lemma_lex_transitive(a: Seq<char>, b: Seq<char>, c: Seq<char>)
    ensures
        lex_lt(a, b) && lex_lt(b, c) ==> lex_lt(a, c),
    decreases a.len(),
{
    if a.len() > 0 && b.len() > 0 && c.len() > 0 {
        lemma_lex_transitive(a.drop_first(), b.drop_first(), c.drop_first());
    }
}

pub proof fn lemma_lex_connected(a: Seq<char>, b: Seq<char>)
    ensures
        a != b ==> lex_lt(a, b) || lex_lt(b, a),
    decreases a.len(),
{
    if a.len() > 0 && b.len() > 0 && a[0] == b[0] {
        lemma_lex_connected(a.drop_first(), b.drop_first());
        if a.drop_first() == b.drop_first() {
            assert(a =~= seq![a[0]] + a.drop_first());
            assert(b =~= seq![b[0]] + b.drop_first());
        }
    } else if a.len() == 0 && b.len() == 0 {
        assert(a =~= b);
    }
}

/// `entry_le` is a total order on character sequences.
pub proof fn lemma_entry_order_total()
    ensures
        total_ordering(entry_order()),
{
    let r = entry_order();
    assert forall|x: Seq<char>| #[trigger] r(x, x) by {}
    assert forall|x: Seq<char>, y: Seq<char>| #[trigger] r(x, y) && #[trigger] r(y, x) implies x == y by {
        lemma_lex_asymmetric(lowercase(x), lowercase(y));
        lemma_lex_asymmetric(x, y);
    }
    assert forall|x: Seq<char>, y: Seq<char>, z: Seq<char>|
        #[trigger] r(x, y) && #[trigger] r(y, z) implies r(x, z) by {
        lemma_lex_transitive(lowercase(x), lowercase(y), lowercase(z));
        lemma_lex_transitive(x, y, z);
    }
    assert forall|x: Seq<char>, y: Seq<char>| #[trigger] r(x, y) || #[trigger] r(y, x) by {
        lemma_lex_connected(lowercase(x), lowercase(y));
        lemma_lex_connected(x, y);
    }
}

/// Whether `a` comes strictly before `b` in lexicographic order.
fn lex_less(a: &Vec<char>, b: &Vec<char>) -> (r: bool)
    ensures
        r == lex_lt(a@, b@),
{
    let mut i: usize = 0;
    assert(a@.skip(0) =~= a@ && b@.skip(0) =~= b@);
    while i < a.len() && i < b.len() && a[i] == b[i]
        invariant
            i <= a.len(),
            i <= b.len(),
            lex_lt(a@, b@) == lex_lt(a@.skip(i as int), b@.skip(i as int)),
        decreases a.len() - i,
    {
        assert(a@.skip(i as int).drop_first() =~= a@.skip(i + 1 as int));
        assert(b@.skip(i as int).drop_first() =~= b@.skip(i + 1 as int));
        i = i + 1;
    }
    if i == a.len() {
        i < b.len()
    } else if i == b.len() {
        false
    } else {
        a[i] < b[i]
    }
}

/// Whether entry `a` sorts strictly before entry `b`.
fn entry_less(a: &String, b: &String) -> (r: bool)
    ensures
        r == (entry_le(a@, b@) && a@ != b@),
{
    let la = chars_of(to_lowercase(a.as_str()).as_str());
    let lb = chars_of(to_lowercase(b.as_str()).as_str());
    proof {
        lemma_lex_asymmetric(la@, lb@);
        lemma_lex_irreflexive(la@);
        lemma_lex_irreflexive(a@);
    }
    if lex_less(&la, &lb) {
        true
    } else if same_chars(&la, &lb) {
        let ca = chars_of(a.as_str());
        let cb = chars_of(b.as_str());
        lex_less(&ca, &cb)
    } else {
        false
    }
}

/// Entries sorted by `entry_le`, given by their views.
pub open spec fn sorted_entries(v: Seq<String>) -> bool {
    sorted_by(views(v), entry_order())
}

proof fn lemma_views_push(v: Seq<String>, x: String)
    ensures
        views(v.push(x)) == views(v).push(x@),
{
    assert(views(v.push(x)) =~= views(v).push(x@));
}

proof fn lemma_views_take_push(v: Seq<String>, i: int)
    requires
        0 <= i < v.len(),
    ensures
        v.take(i + 1) == v.take(i).push(v[i]),
        views(v.take(i + 1)) == views(v.take(i)).push(v[i]@),
{
    assert(v.take(i + 1) =~= v.take(i).push(v[i]));
    lemma_views_push(v.take(i), v[i]);
}

proof fn lemma_multiset_insert_add<T>(a: Multiset<T>, b: Multiset<T>, x: T)
    ensures
        a.add(b).insert(x) == a.insert(x).add(b),
        a.add(b).insert(x) == a.add(b.insert(x)),
{
    broadcast use vstd::multiset::group_multiset_axioms;

    assert(a.add(b).insert(x) =~= a.insert(x).add(b));
    assert(a.add(b).insert(x) =~= a.add(b.insert(x)));
}

/// Merge two sorted runs into one sorted run holding the entries of both.
fn merge_runs(a: &Vec<String>, b: &Vec<String>) -> (r: Vec<String>)
    requires
        total_ordering(entry_order()),
        sorted_entries(a@),
        sorted_entries(b@),
    ensures
        r@.to_multiset() == a@.to_multiset().add(b@.to_multiset()),
        views(r@).to_multiset() == views(a@).to_multiset().add(views(b@).to_multiset()),
        sorted_entries(r@),
{
    broadcast use vstd::seq_lib::group_to_multiset_ensures;

    let ghost ord = entry_order();
    let mut r: Vec<String> = Vec::new();
    let mut i: usize = 0;
    let mut j: usize = 0;
    assert(a@.take(0) =~= Seq::<String>::empty() && b@.take(0) =~= Seq::<String>::empty());
    assert(views(Seq::<String>::empty()) =~= Seq::<Seq<char>>::empty());
    while i < a.len() || j < b.len()
        invariant
            ord == entry_order(),
            total_ordering(ord),
            i <= a.len(),
            j <= b.len(),
            sorted_entries(a@),
            sorted_entries(b@),
            sorted_entries(r@),
            r@.to_multiset() == a@.take(i as int).to_multiset().add(b@.take(j as int).to_multiset()),
            views(r@).to_multiset() == views(a@.take(i as int)).to_multiset().add(
                views(b@.take(j as int)).to_multiset(),
            ),
            r.len() > 0 && i < a.len() ==> ord(r@[r.len() - 1]@, a@[i as int]@),
            r.len() > 0 && j < b.len() ==> ord(r@[r.len() - 1]@, b@[j as int]@),
        decreases a.len() + b.len() - i - j,
    {
        let take_a = if i == a.len() {
            false
        } else if j == b.len() {
            true
        } else {
            !entry_less(&b[j], &a[i])
        };
        let ghost before = r@;
        let x = if take_a {
            a[i].clone()
        } else {
            b[j].clone()
        };
        proof {
            if take_a && j < b.len() {
                assert(ord(a@[i as int]@, b@[j as int]@) || ord(b@[j as int]@, a@[i as int]@));
                assert(ord(a@[i as int]@, a@[i as int]@));
            }
            if !take_a && i < a.len() {
                assert(ord(b@[j as int]@, a@[i as int]@));
            }
        }
        proof {
            if take_a {
                assert(x == a@[i as int]);
            } else {
                assert(x == b@[j as int]);
            }
        }
        r.push(x);
        proof {
            lemma_views_push(before, x);
            assert(r@ == before.push(x));
            vstd::seq_lib::to_multiset_build(before, x);
            assert(r@.to_multiset() == before.to_multiset().insert(x));
            // `x` is at least every earlier entry, so `r` stays sorted.
            assert forall|k: int, l: int| 0 <= k < l < r@.len() implies ord(
                #[trigger] views(r@)[k],
                #[trigger] views(r@)[l],
            ) by {
                if l == r@.len() - 1 && k < l - 1 {
                    assert(ord(views(before)[k], views(before)[before.len() - 1]));
                }
            }
            let vx = x@;
            vstd::seq_lib::to_multiset_build(views(before), vx);
            if take_a {
                lemma_views_take_push(a@, i as int);
                vstd::seq_lib::to_multiset_build(a@.take(i as int), x);
                vstd::seq_lib::to_multiset_build(views(a@.take(i as int)), vx);
                lemma_multiset_insert_add(a@.take(i as int).to_multiset(), b@.take(j as int).to_multiset(), x);
                lemma_multiset_insert_add(
                    views(a@.take(i as int)).to_multiset(),
                    views(b@.take(j as int)).to_multiset(),
                    vx,
                );
                if i + 1 < a.len() {
                    assert(ord(views(a@)[i as int], views(a@)[i + 1]));
                }
            } else {
                lemma_views_take_push(b@, j as int);
                vstd::seq_lib::to_multiset_build(b@.take(j as int), x);
                vstd::seq_lib::to_multiset_build(views(b@.take(j as int)), vx);
                lemma_multiset_insert_add(a@.take(i as int).to_multiset(), b@.take(j as int).to_multiset(), x);
                lemma_multiset_insert_add(
                    views(a@.take(i as int)).to_multiset(),
                    views(b@.take(j as int)).to_multiset(),
                    vx,
                );
                if j + 1 < b.len() {
                    assert(ord(views(b@)[j as int], views(b@)[j + 1]));
                }
            }
        }
        if take_a {
            i = i + 1;
        } else {
            j = j + 1;
        }
    }
    assert(a@.take(a.len() as int) =~= a@ && b@.take(b.len() as int) =~= b@);
    r
}

/// The entries of `v`, sorted.
fn merge_sort(v: Vec<String>) -> (r: Vec<String>)
    requires
        total_ordering(entry_order()),
    ensures
        r@.to_multiset() == v@.to_multiset(),
        views(r@).to_multiset() == views(v@).to_multiset(),
        sorted_entries(r@),
    decreases v.len(),
{
    if v.len() <= 1 {
        return v;
    }
    let mut left = v;
    let ghost whole = left@;
    let mid = left.len() / 2;
    let right = left.split_off(mid);
    let sorted_left = merge_sort(left);
    let sorted_right = merge_sort(right);
    let r = merge_runs(&sorted_left, &sorted_right);
    proof {
        assert(whole =~= left@ + right@);
        lemma_multiset_commutative(left@, right@);
        assert(views(whole) =~= views(left@) + views(right@));
        lemma_multiset_commutative(views(left@), views(right@));
    }
    r
}

/// Sort entries alphabetically, case-insensitively; entries equal up to case
/// are ordered by their exact characters, so the result does not depend on
/// the input order.
pub fn sort_entries(entries: &mut [String])
    ensures
        final(entries)@.to_multiset() == old(entries)@.to_multiset(),
        views(final(entries)@).to_multiset() == views(old(entries)@).to_multiset(),
        sorted_by(views(final(entries)@), entry_order()),
{
    proof {
        lemma_entry_order_total();
    }
    let mut copy: Vec<String> = Vec::new();
    let mut i: usize = 0;
    while i < entries.len()
        invariant
            i <= entries.len(),
            entries@ == old(entries)@,
            copy@ == entries@.take(i as int),
        decreases entries.len() - i,
    {
        copy.push(entries[i].clone());
        i = i + 1;
        assert(copy@ =~= entries@.take(i as int));
    }
    assert(entries@.take(entries.len() as int) =~= entries@);
    let sorted = merge_sort(copy);
    proof {
        broadcast use vstd::seq_lib::group_to_multiset_ensures;

        assert(sorted@.len() == sorted@.to_multiset().len());
        assert(entries@.len() == entries@.to_multiset().len());
    }
    let mut k: usize = 0;
    while k < sorted.len()
        invariant
            k <= sorted.len() == entries@.len(),
            entries@.subrange(0, k as int) == sorted@.subrange(0, k as int),
        decreases sorted.len() - k,
    {
        entries[k] = sorted[k].clone();
        k = k + 1;
        assert(entries@.subrange(0, k as int) =~= sorted@.subrange(0, k as int));
    }
    assert(entries@.subrange(0, sorted.len() as int) =~= entries@);
    assert(sorted@.subrange(0, sorted.len() as int) =~= sorted@);
}

// ---------------------------------------------------------------------------
// The whole cleaning pipeline
// ---------------------------------------------------------------------------

/// The name an entry contributes to the cleaned list: its normalized form,
/// if that is a plausible name.
pub open spec fn kept_name(e: Seq<char>) -> Option<Seq<char>> {
    match normalized(e) {
        Some(n) => if plausible(n) {
            Some(n)
        } else {
            None
        },
        None => None,
    }
}

/// The names that a list of entries contributes, in order.
pub open spec fn kept_from(es: Seq<Seq<char>>) -> Seq<Seq<char>> {
    es.filter_map(|e: Seq<char>| kept_name(e))
}

/// The names that raw input contributes, in order.
pub open spec fn kept_names(raw: Seq<char>) -> Seq<Seq<char>> {
    kept_from(split_by(raw, separator_pred()))
}

/// The names kept from a list of entries are built entry by entry: no
/// entries keep nothing, and one more entry adds its normalized form exactly
/// when that form is a plausible name, whatever surrounding whitespace or
/// quotes the raw entry had, and adds nothing otherwise.
pub proof fn law_entry_kept_when_normalized_form_is_plausible(es: Seq<Seq<char>>, e: Seq<char>)
    ensures
        kept_from(Seq::<Seq<char>>::empty()) == Seq::<Seq<char>>::empty(),
        kept_from(es.push(e)) == kept_from(es) + match normalized(e) {
            Some(n) => if plausible(n) {
                seq![n]
            } else {
                Seq::<Seq<char>>::empty()
            },
            None => Seq::<Seq<char>>::empty(),
        },
{
    assert(es.push(e).drop_last() =~= es);
    assert(es.push(e).last() == e);
    assert(kept_from(es) + Seq::<Seq<char>>::empty() =~= kept_from(es));
}

/// Every entry whose normalized form is a plausible name is kept.
proof fn lemma_kept_from_contains(es: Seq<Seq<char>>, i: int, n: Seq<char>)
    requires
        0 <= i < es.len(),
        normalized(es[i]) == Some(n),
        plausible(n),
    ensures
        kept_from(es).contains(n),
    decreases es.len(),
{
    let d = es.drop_last();
    law_entry_kept_when_normalized_form_is_plausible(d, es.last());
    assert(d.push(es.last()) =~= es);
    if i == es.len() - 1 {
        assert(kept_from(es)[kept_from(d).len() as int] == n);
    } else {
        assert(d[i] == es[i]);
        lemma_kept_from_contains(d, i, n);
        let m = choose|m: int| 0 <= m < kept_from(d).len() && kept_from(d)[m] == n;
        assert(kept_from(es)[m] == n);
    }
}

/// A name among `es` is counted at least once under its lowercase form.
proof fn lemma_occurrences_of_member(es: Seq<Seq<char>>, n: Seq<char>)
    requires
        es.contains(n),
    ensures
        occurrences(es, lowercase(n)) > 0,
    decreases es.len(),
{
    if es.last() != n {
        let m = choose|m: int| 0 <= m < es.len() && es[m] == n;
        assert(es.drop_last()[m] == n);
        lemma_occurrences_of_member(es.drop_last(), n);
    }
}

/// Cleaning counts every entry of the raw text whose normalized form is a
/// plausible name: the result holds a name equal to that form up to case,
/// counted at least once.
pub proof fn law_clean_counts_every_plausible_entry(raw: Seq<char>, i: int, n: Seq<char>)
    requires
        0 <= i < split_by(raw, separator_pred()).len(),
        normalized(split_by(raw, separator_pred())[i]) == Some(n),
        plausible(n),
    ensures
        exists|j: int|
            0 <= j < tally(kept_names(raw)).len() && lowercase(#[trigger] tally(kept_names(raw))[j].0)
                == lowercase(n) && tally(kept_names(raw))[j].1 >= 1,
{
    let es = kept_names(raw);
    lemma_kept_from_contains(split_by(raw, separator_pred()), i, n);
    lemma_occurrences_of_member(es, n);
    law_tally_counts_occurrences(es);
    lemma_key_index(tally(es), lowercase(n));
    let j = key_index(tally(es), lowercase(n));
    assert(tally(es)[j].1 == occurrences(es, lowercase(tally(es)[j].0)));
}

/// Run the full normalization pipeline over raw text: split into entries,
/// normalize each, drop anything that doesn't look like a name, and collapse
/// duplicates into (name, occurrence count) pairs, preserving first-seen order.
pub fn clean(raw: &str) -> (r: Vec<(String, usize)>)
    ensures
        pairs_view(r@) == tally(kept_names(raw@)),
{
    let entries = split_entries(raw);
    let ghost es = views(entries@);
    let ghost f = |e: Seq<char>| kept_name(e);
    let mut names: Vec<String> = Vec::new();
    let mut i: usize = 0;
    while i < entries.len()
        invariant
            i <= entries.len(),
            es == views(entries@),
            es == split_by(raw@, separator_pred()),
            f == (|e: Seq<char>| kept_name(e)),
            views(names@) == es.take(i as int).filter_map(f),
        decreases entries.len() - i,
    {
        let ghost before = names@;
        proof {
            assert(es.take(i + 1 as int).drop_last() =~= es.take(i as int));
            assert(es.take(i + 1 as int).last() == entries@[i as int]@);
        }
        match normalize_entry(entries[i].as_str()) {
            Some(n) => {
                if is_plausible_name(n.as_str()) {
                    names.push(n);
                    assert(views(names@) =~= views(before) + seq![n@]);
                }
            },
            None => {},
        }
        i = i + 1;
    }
    assert(es.take(entries.len() as int) =~= es);
    count_entries(names)
}

// ---------------------------------------------------------------------------
// Laws of counting and deduplicating
// ---------------------------------------------------------------------------

/// How many entries of `es` have the lowercase form `k`.
pub open spec fn occurrences(es: Seq<Seq<char>>, k: Seq<char>) -> nat
    decreases es.len(),
{
    if es.len() == 0 {
        0
    } else {
        occurrences(es.drop_last(), k) + if lowercase(es.last()) == k {
            1nat
        } else {
            0nat
        }
    }
}

/// The position of the first entry of `es` with the lowercase form `k`, or -1.
pub open spec fn first_seen(es: Seq<Seq<char>>, k: Seq<char>) -> int
    decreases es.len(),
{
    if es.len() == 0 {
        -1
    } else {
        let f = first_seen(es.drop_last(), k);
        if f >= 0 {
            f
        } else if lowercase(es.last()) == k {
            es.len() - 1
        } else {
            -1
        }
    }
}

/// The sum of the counts of `r`.
pub open spec fn count_sum(r: Seq<(Seq<char>, nat)>) -> nat
    decreases r.len(),
{
    if r.len() == 0 {
        0
    } else {
        count_sum(r.drop_last()) + r.last().1
    }
}

proof fn lemma_count_sum_bump(r: Seq<(Seq<char>, nat)>, j: int)
    requires
        0 <= j < r.len(),
    ensures
        count_sum(r.update(j, (r[j].0, r[j].1 + 1))) == count_sum(r) + 1,
    decreases r.len(),
{
    let u = r.update(j, (r[j].0, r[j].1 + 1));
    if j < r.len() - 1 {
        lemma_count_sum_bump(r.drop_last(), j);
        assert(u.drop_last() =~= r.drop_last().update(j, (r[j].0, r[j].1 + 1)));
    } else {
        assert(u.drop_last() =~= r.drop_last());
    }
}

/// Counting gives each case-insensitive name once: no two pairs of
/// `tally(es)` have names that are equal up to case.
pub proof fn law_tally_names_distinct(es: Seq<Seq<char>>)
    ensures
        forall|i: int, j: int|
            0 <= i < j < tally(es).len() ==> lowercase(#[trigger] tally(es)[i].0) != lowercase(
                #[trigger] tally(es)[j].0,
            ),
    decreases es.len(),
{
    if es.len() > 0 {
        let prev = tally(es.drop_last());
        law_tally_names_distinct(es.drop_last());
        lemma_key_index(prev, lowercase(es.last()));
        let t = tally(es);
        assert forall|i: int, j: int| 0 <= i < j < t.len() implies lowercase(#[trigger] t[i].0)
            != lowercase(#[trigger] t[j].0) by {
            if j < prev.len() {
                assert(t[i].0 == prev[i].0 && t[j].0 == prev[j].0);
            } else {
                assert(t[i] == prev[i]);
            }
        }
    }
}

/// The counts add up to the number of entries.
pub proof fn law_tally_counts_sum(es: Seq<Seq<char>>)
    ensures
        count_sum(tally(es)) == es.len(),
    decreases es.len(),
{
    if es.len() > 0 {
        let prev = tally(es.drop_last());
        law_tally_counts_sum(es.drop_last());
        lemma_key_index(prev, lowercase(es.last()));
        let j = key_index(prev, lowercase(es.last()));
        if j >= 0 {
            lemma_count_sum_bump(prev, j);
        } else {
            assert(prev.push((es.last(), 1nat)).drop_last() =~= prev);
        }
    }
}

/// Each pair counts every entry that equals its name up to case, and every
/// entry is counted under some pair.
pub proof fn law_tally_counts_occurrences(es: Seq<Seq<char>>)
    ensures
        forall|i: int|
            0 <= i < tally(es).len() ==> (#[trigger] tally(es)[i]).1 == occurrences(
                es,
                lowercase(tally(es)[i].0),
            ),
        forall|k: Seq<char>| occurrences(es, k) > 0 ==> key_index(tally(es), k) >= 0,
    decreases es.len(),
{
    if es.len() > 0 {
        let d = es.drop_last();
        let e = es.last();
        let prev = tally(d);
        let t = tally(es);
        law_tally_counts_occurrences(d);
        lemma_key_index(prev, lowercase(e));
        let j = key_index(prev, lowercase(e));
        law_tally_names_distinct(d);
        assert forall|i: int| 0 <= i < t.len() implies (#[trigger] t[i]).1 == occurrences(
            es,
            lowercase(t[i].0),
        ) by {
            if i < prev.len() {
                assert(prev[i].1 == occurrences(d, lowercase(prev[i].0)));
                if i == j {
                    assert(t[i] == (prev[i].0, prev[i].1 + 1));
                } else {
                    assert(t[i] == prev[i]);
                    if j >= 0 {
                        if i < j {
                            assert(lowercase(prev[i].0) != lowercase(e));
                        } else {
                            assert(lowercase(prev[j].0) != lowercase(prev[i].0));
                        }
                    } else {
                        assert(lowercase(prev[i].0) != lowercase(e));
                    }
                }
            } else {
                if occurrences(d, lowercase(e)) > 0 {
                    assert(key_index(prev, lowercase(e)) >= 0);
                }
            }
        }
        assert forall|k: Seq<char>| occurrences(es, k) > 0 implies key_index(t, k) >= 0 by {
            lemma_key_index(t, k);
            lemma_key_index(prev, k);
            if occurrences(d, k) > 0 {
                let m = key_index(prev, k);
                assert(lowercase(t[m].0) == k);
            } else {
                assert(lowercase(e) == k);
                if j >= 0 {
                    assert(lowercase(t[j].0) == k);
                } else {
                    assert(lowercase(t[prev.len() as int].0) == k);
                }
            }
        }
    }
}

proof fn lemma_first_seen(es: Seq<Seq<char>>, k: Seq<char>)
    ensures
        -1 <= first_seen(es, k) < es.len(),
        first_seen(es, k) >= 0 ==> lowercase(es[first_seen(es, k)]) == k,
        first_seen(es, k) >= 0 <==> occurrences(es, k) > 0,
        forall|m: int| 0 <= m < first_seen(es, k) ==> lowercase(#[trigger] es[m]) != k,
        first_seen(es, k) == -1 ==> forall|m: int| 0 <= m < es.len() ==> lowercase(#[trigger] es[m]) != k,
    decreases es.len(),
{
    if es.len() > 0 {
        let d = es.drop_last();
        lemma_first_seen(d, k);
        assert forall|m: int| 0 <= m < d.len() implies #[trigger] d[m] == es[m] by {}
        assert forall|m: int| 0 <= m < first_seen(es, k) implies lowercase(#[trigger] es[m]) != k by {
            assert(d[m] == es[m]);
            if first_seen(d, k) < 0 {
                assert(lowercase(d[m]) != k);
            }
        }
        if first_seen(es, k) == -1 {
            assert forall|m: int| 0 <= m < es.len() implies lowercase(#[trigger] es[m]) != k by {
                if m < d.len() {
                    assert(d[m] == es[m]);
                    assert(lowercase(d[m]) != k);
                }
            }
        }
    }
}

/// Each pair's name is the first entry with that name up to case, and the
/// pairs come in the order in which those first entries appear.
pub proof fn law_tally_first_seen_order(es: Seq<Seq<char>>)
    ensures
        forall|i: int|
            0 <= i < tally(es).len() ==> {
                let m = first_seen(es, lowercase(#[trigger] tally(es)[i].0));
                0 <= m < es.len() && tally(es)[i].0 == es[m]
            },
        forall|i: int, j: int|
            0 <= i < j < tally(es).len() ==> first_seen(es, lowercase(#[trigger] tally(es)[i].0))
                < first_seen(es, lowercase(#[trigger] tally(es)[j].0)),
    decreases es.len(),
{
    if es.len() > 0 {
        let d = es.drop_last();
        let e = es.last();
        let prev = tally(d);
        let t = tally(es);
        law_tally_first_seen_order(d);
        law_tally_counts_occurrences(d);
        lemma_key_index(prev, lowercase(e));
        lemma_first_seen(d, lowercase(e));
        let j = key_index(prev, lowercase(e));
        assert forall|i: int| 0 <= i < prev.len() implies first_seen(es, lowercase(#[trigger] prev[i].0))
            == first_seen(d, lowercase(prev[i].0)) by {
            let m = first_seen(d, lowercase(prev[i].0));
            assert(0 <= m && d[m] == es[m]);
        }
        assert forall|i: int| 0 <= i < t.len() implies {
            let m = first_seen(es, lowercase(#[trigger] t[i].0));
            0 <= m < es.len() && t[i].0 == es[m]
        } by {
            if i < prev.len() {
                assert(t[i].0 == prev[i].0);
                let m = first_seen(d, lowercase(prev[i].0));
                assert(d[m] == es[m]);
            } else {
                assert(j < 0);
                if occurrences(d, lowercase(e)) > 0 {
                    assert(key_index(prev, lowercase(e)) >= 0);
                }
                assert(first_seen(d, lowercase(e)) == -1);
            }
        }
        assert forall|i: int, k: int| 0 <= i < k < t.len() implies first_seen(
            es,
            lowercase(#[trigger] t[i].0),
        ) < first_seen(es, lowercase(#[trigger] t[k].0)) by {
            if k < prev.len() {
                assert(t[i].0 == prev[i].0 && t[k].0 == prev[k].0);
            } else {
                assert(t[i].0 == prev[i].0);
                if occurrences(d, lowercase(e)) > 0 {
                    assert(key_index(prev, lowercase(e)) >= 0);
                }
                assert(first_seen(d, lowercase(e)) == -1);
                let m = first_seen(d, lowercase(prev[i].0));
                assert(0 <= m < d.len());
            }
        }
    }
}

/// Names that are already pairwise distinct up to case are each counted once,
/// in their own order.
pub proof fn law_tally_of_distinct_names(ns: Seq<Seq<char>>)
    requires
        forall|i: int, j: int| 0 <= i < j < ns.len() ==> lowercase(#[trigger] ns[i]) != lowercase(#[trigger] ns[j]),
    ensures
        tally(ns) == ns.map_values(|n: Seq<char>| (n, 1nat)),
    decreases ns.len(),
{
    if ns.len() > 0 {
        let d = ns.drop_last();
        assert forall|i: int, j: int| 0 <= i < j < d.len() implies lowercase(#[trigger] d[i]) != lowercase(
            #[trigger] d[j],
        ) by {
            assert(d[i] == ns[i] && d[j] == ns[j]);
        }
        law_tally_of_distinct_names(d);
        let prev = tally(d);
        lemma_key_index(prev, lowercase(ns.last()));
        if key_index(prev, lowercase(ns.last())) >= 0 {
            let m = key_index(prev, lowercase(ns.last()));
            assert(prev[m].0 == ns[m]);
            assert(lowercase(ns[m]) != lowercase(ns[ns.len() - 1]));
        }
        assert(tally(ns) =~= ns.map_values(|n: Seq<char>| (n, 1nat)));
    }
}

/// Deduplicating yields names that are pairwise distinct up to case.
pub proof fn law_dedup_distinct(es: Seq<Seq<char>>)
    ensures
        forall|i: int, j: int|
            0 <= i < j < dedup_names(es).len() ==> lowercase(#[trigger] dedup_names(es)[i])
                != lowercase(#[trigger] dedup_names(es)[j]),
{
    law_tally_names_distinct(es);
    let t = tally(es);
    assert forall|i: int, j: int| 0 <= i < j < dedup_names(es).len() implies lowercase(
        #[trigger] dedup_names(es)[i],
    ) != lowercase(#[trigger] dedup_names(es)[j]) by {
        assert(dedup_names(es)[i] == t[i].0 && dedup_names(es)[j] == t[j].0);
    }
}

/// Deduplicating an already deduplicated list changes nothing.
pub proof fn law_dedup_idempotent(es: Seq<Seq<char>>)
    ensures
        dedup_names(dedup_names(es)) == dedup_names(es),
{
    let ns = dedup_names(es);
    law_dedup_distinct(es);
    law_tally_of_distinct_names(ns);
    assert(dedup_names(ns) =~= ns);
}

// ---------------------------------------------------------------------------
// Laws of splitting, normalizing, cleaning and sorting
// ---------------------------------------------------------------------------

/// No piece produced by splitting holds a character it was split at.
pub proof fn law_split_pieces_hold_no_separator(s: Seq<char>, p: spec_fn(char) -> bool)
    ensures
        forall|i: int, j: int|
            0 <= i < split_by(s, p).len() && 0 <= j < split_by(s, p)[i].len() ==> !p(
                #[trigger] split_by(s, p)[i][j],
            ),
    decreases s.len(),
{
    if s.len() > 0 {
        let prev = split_by(s.drop_last(), p);
        law_split_pieces_hold_no_separator(s.drop_last(), p);
        lemma_split_by_nonempty(s.drop_last(), p);
        let r = split_by(s, p);
        assert forall|i: int, j: int| 0 <= i < r.len() && 0 <= j < r[i].len() implies !p(
            #[trigger] r[i][j],
        ) by {
            if p(s.last()) {
                if i < prev.len() {
                    assert(r[i] == prev[i]);
                }
            } else if i < prev.len() - 1 {
                assert(r[i] == prev[i]);
            } else {
                assert(r[i] == prev.last().push(s.last()));
                if j < prev.last().len() {
                    assert(r[i][j] == prev[prev.len() - 1][j]);
                }
            }
        }
    }
}

/// Splitting at a separator `c`: the pieces before it, then the pieces after.
proof fn lemma_split_by_at_separator(x: Seq<char>, c: char, y: Seq<char>, p: spec_fn(char) -> bool)
    requires
        p(c),
    ensures
        split_by(x + seq![c] + y, p) == split_by(x, p) + split_by(y, p),
    decreases y.len(),
{
    let z = x + seq![c] + y;
    lemma_split_by_nonempty(x, p);
    if y.len() == 0 {
        assert(z.drop_last() =~= x);
        assert(z.last() == c);
        assert(split_by(z, p) =~= split_by(x, p) + split_by(y, p));
    } else {
        let v = y.drop_last();
        lemma_split_by_at_separator(x, c, v, p);
        lemma_split_by_nonempty(v, p);
        assert(z.drop_last() =~= x + seq![c] + v);
        assert(z.last() == y.last());
        assert(split_by(z, p) =~= split_by(x, p) + split_by(y, p));
    }
}

/// Text without a newline, carriage return, comma, semicolon or tab is a
/// single entry, whatever else it holds (hyphens, spaces, quotes, ...).
pub proof fn law_text_without_separators_is_one_entry(s: Seq<char>)
    requires
        forall|i: int|
            0 <= i < s.len() ==> #[trigger] s[i] != '\n' && s[i] != '\r' && s[i] != ',' && s[i] != ';'
                && s[i] != '\t',
    ensures
        split_by(s, separator_pred()) == seq![s],
{
    let p = separator_pred();
    assert forall|j: int| 0 <= j < s.len() implies !p(#[trigger] s[j]) by {
        assert(s[j] != '\n' && s[j] != '\r' && s[j] != ',' && s[j] != ';' && s[j] != '\t');
    }
    lemma_split_by_single(s, p);
}

/// Each newline, carriage return, comma, semicolon and tab ends an entry:
/// the entries of text around one of them are those before it, then those
/// after it.
pub proof fn law_separator_ends_an_entry(x: Seq<char>, c: char, y: Seq<char>)
    requires
        c == '\n' || c == '\r' || c == ',' || c == ';' || c == '\t',
    ensures
        split_by(x + seq![c] + y, separator_pred()) == split_by(x, separator_pred()) + split_by(
            y,
            separator_pred(),
        ),
{
    lemma_split_by_at_separator(x, c, y, separator_pred());
}

/// Splitting yields exactly one more piece than there are separators.
pub proof fn law_split_piece_count(s: Seq<char>, p: spec_fn(char) -> bool)
    ensures
        split_by(s, p).len() == 1 + s.filter(p).len(),
    decreases s.len(),
{
    if s.len() > 0 {
        law_split_piece_count(s.drop_last(), p);
        lemma_split_by_nonempty(s.drop_last(), p);
        s.drop_last().lemma_filter_push(s.last(), p);
        assert(s.drop_last().push(s.last()) =~= s);
    } else {
        reveal(Seq::filter);
    }
}

proof fn lemma_trim_start(x: Seq<char>, p: spec_fn(char) -> bool) -> (n: nat)
    ensures
        n <= x.len(),
        trim_start_by(x, p) == x.skip(n as int),
        forall|i: int| 0 <= i < n ==> p(#[trigger] x[i]),
    decreases x.len(),
{
    if x.len() > 0 && p(x[0]) {
        let m = lemma_trim_start(x.drop_first(), p);
        assert(x.drop_first().skip(m as int) =~= x.skip(m + 1 as int));
        assert forall|i: int| 0 <= i < m + 1 implies p(#[trigger] x[i]) by {
            if i > 0 {
                assert(x[i] == x.drop_first()[i - 1]);
            }
        }
        m + 1
    } else {
        assert(x.skip(0) =~= x);
        0
    }
}

proof fn lemma_trim_end(x: Seq<char>, p: spec_fn(char) -> bool) -> (m: nat)
    ensures
        m <= x.len(),
        trim_end_by(x, p) == x.take(m as int),
        forall|i: int| m <= i < x.len() ==> p(#[trigger] x[i]),
    decreases x.len(),
{
    if x.len() > 0 && p(x.last()) {
        let m = lemma_trim_end(x.drop_last(), p);
        assert(x.drop_last().take(m as int) =~= x.take(m as int));
        assert forall|i: int| m <= i < x.len() implies p(#[trigger] x[i]) by {
            if i < x.len() - 1 {
                assert(x[i] == x.drop_last()[i]);
            }
        }
        m
    } else {
        assert(x.take(x.len() as int) =~= x);
        x.len()
    }
}

/// Every character of `x` either satisfies `p` or is kept by trimming.
proof fn lemma_trim_keeps_the_rest(x: Seq<char>, p: spec_fn(char) -> bool)
    ensures
        forall|i: int| 0 <= i < x.len() ==> p(#[trigger] x[i]) || trim_by(x, p).contains(x[i]),
{
    let n = lemma_trim_start(x, p);
    let m = lemma_trim_end(x.skip(n as int), p);
    let t = trim_by(x, p);
    assert forall|i: int| 0 <= i < x.len() implies p(#[trigger] x[i]) || t.contains(x[i]) by {
        if i >= n {
            let y = x.skip(n as int);
            assert(y[i - n] == x[i]);
            if i - n < m {
                assert(t[i - n] == x[i]);
            }
        }
    }
}

proof fn lemma_trim_start_all(x: Seq<char>, p: spec_fn(char) -> bool)
    requires
        forall|i: int| 0 <= i < x.len() ==> p(#[trigger] x[i]),
    ensures
        trim_start_by(x, p).len() == 0,
    decreases x.len(),
{
    if x.len() > 0 {
        assert forall|i: int| 0 <= i < x.drop_first().len() implies p(#[trigger] x.drop_first()[i]) by {
            assert(x.drop_first()[i] == x[i + 1]);
        }
        lemma_trim_start_all(x.drop_first(), p);
    }
}

/// An entry normalizes to nothing exactly when it is made of whitespace and
/// quote characters only.
pub proof fn law_normalized_none_iff_blank(s: Seq<char>)
    ensures
        normalized(s) is None <==> forall|i: int| 0 <= i < s.len() ==> is_trimmed_char(#[trigger] s[i]),
{
    let p = trimmed_char_pred();
    if normalized(s) is None {
        lemma_trim_keeps_the_rest(s, p);
        assert forall|i: int| 0 <= i < s.len() implies is_trimmed_char(#[trigger] s[i]) by {
            assert(p(s[i]) || trim_by(s, p).contains(s[i]));
        }
    }
    if forall|i: int| 0 <= i < s.len() ==> is_trimmed_char(#[trigger] s[i]) {
        assert forall|i: int| 0 <= i < s.len() implies p(#[trigger] s[i]) by {
            assert(is_trimmed_char(s[i]));
        }
        lemma_trim_start_all(s, p);
        let t = trim_start_by(s, p);
        assert(t.len() == 0);
        assert(trim_end_by(t, p) == t);
    }
}

/// Trimming removes all surrounding whitespace and quotes and nothing else:
/// what is left is a contiguous part of the entry that neither begins nor
/// ends with whitespace or a quote, and every character around it is
/// whitespace or a quote.
pub proof fn law_trimming_removes_surrounding_blanks(s: Seq<char>)
    ensures
        ({
            let t = trimmed_entry(s);
            t.len() > 0 ==> !is_trimmed_char(t[0]) && !is_trimmed_char(t[t.len() - 1])
        }),
        exists|lo: int, hi: int|
            0 <= lo <= hi <= s.len() && trimmed_entry(s) == s.subrange(lo, hi) && (forall|i: int|
                0 <= i < s.len() && !(lo <= i < hi) ==> is_trimmed_char(#[trigger] s[i])),
{
    let p = trimmed_char_pred();
    let n = lemma_trim_start(s, p);
    let u = s.skip(n as int);
    let m = lemma_trim_end(u, p);
    let t = trimmed_entry(s);
    assert(t == u.take(m as int));
    assert(t =~= s.subrange(n as int, n + m as int));
    assert forall|i: int| 0 <= i < s.len() && !(n <= i < n + m) implies is_trimmed_char(#[trigger] s[i]) by {
        if i >= n + m {
            assert(u[i - n] == s[i]);
            assert(p(u[i - n]));
        } else {
            assert(p(s[i]));
        }
    }
    if t.len() > 0 {
        // The first kept character stopped the leading trim, and the last
        // stopped the trailing one.
        lemma_trim_start_stops(s, p, n);
        lemma_trim_end_stops(u, p, m);
        assert(t[0] == u[0]);
        assert(t[t.len() - 1] == u[m - 1]);
    }
    assert(0 <= n as int <= n + m <= s.len());
}

proof fn lemma_trim_start_stops(x: Seq<char>, p: spec_fn(char) -> bool, n: nat)
    requires
        n <= x.len(),
        trim_start_by(x, p) == x.skip(n as int),
    ensures
        n < x.len() ==> !p(x[n as int]),
    decreases x.len(),
{
    if x.len() > 0 && p(x[0]) {
        if n == 0 {
            // Then `x.skip(0) == x` would equal a strictly shorter trim.
            lemma_trim_start_len(x.drop_first(), p);
            assert(x.skip(0) =~= x);
        } else {
            assert(x.drop_first().skip(n - 1) =~= x.skip(n as int));
            lemma_trim_start_stops(x.drop_first(), p, (n - 1) as nat);
            if n < x.len() {
                assert(x.drop_first()[n - 1] == x[n as int]);
            }
        }
    } else {
        if n > 0 {
            assert(x.skip(n as int).len() < x.len());
        }
    }
}

proof fn lemma_trim_start_len(x: Seq<char>, p: spec_fn(char) -> bool)
    ensures
        trim_start_by(x, p).len() <= x.len(),
    decreases x.len(),
{
    if x.len() > 0 && p(x[0]) {
        lemma_trim_start_len(x.drop_first(), p);
    }
}

proof fn lemma_trim_end_len(x: Seq<char>, p: spec_fn(char) -> bool)
    ensures
        trim_end_by(x, p).len() <= x.len(),
    decreases x.len(),
{
    if x.len() > 0 && p(x.last()) {
        lemma_trim_end_len(x.drop_last(), p);
    }
}

proof fn lemma_trim_end_stops(x: Seq<char>, p: spec_fn(char) -> bool, m: nat)
    requires
        m <= x.len(),
        trim_end_by(x, p) == x.take(m as int),
    ensures
        m > 0 ==> !p(x[m - 1]),
    decreases x.len(),
{
    if x.len() > 0 && p(x.last()) {
        if m == x.len() {
            lemma_trim_end_len(x.drop_last(), p);
            assert(x.take(m as int) =~= x);
        } else {
            assert(x.drop_last().take(m as int) =~= x.take(m as int));
            lemma_trim_end_stops(x.drop_last(), p, m);
            if m > 0 {
                assert(x.drop_last()[m - 1] == x[m - 1]);
            }
        }
    } else {
        if m < x.len() {
            assert(x.take(m as int).len() < x.len());
        }
    }
}

// ---------------------------------------------------------------------------
// Whitespace between and around words
// ---------------------------------------------------------------------------

/// `split_by` seen from the front of `s`.
proof fn lemma_split_by_front(s: Seq<char>, p: spec_fn(char) -> bool)
    requires
        s.len() > 0,
    ensures
        p(s[0]) ==> split_by(s, p) == seq![Seq::<char>::empty()] + split_by(s.drop_first(), p),
        !p(s[0]) ==> split_by(s, p) == split_by(s.drop_first(), p).update(
            0,
            seq![s[0]] + split_by(s.drop_first(), p)[0],
        ),
    decreases s.len(),
{
    let d = s.drop_first();
    lemma_split_by_nonempty(d, p);
    if s.len() == 1 {
        assert(d =~= Seq::<char>::empty());
        assert(s.drop_last() =~= Seq::<char>::empty());
        if p(s[0]) {
            assert(split_by(s, p) =~= seq![Seq::<char>::empty()] + split_by(d, p));
        } else {
            assert(seq![s[0]] + Seq::<char>::empty() =~= Seq::<char>::empty().push(s[0]));
            assert(split_by(s, p) =~= split_by(d, p).update(0, seq![s[0]] + split_by(d, p)[0]));
        }
    } else {
        let t = s.drop_last();
        lemma_split_by_front(t, p);
        assert(t[0] == s[0]);
        assert(t.drop_first() =~= d.drop_last());
        assert(d.last() == s.last());
        let r = split_by(t.drop_first(), p);
        lemma_split_by_nonempty(t.drop_first(), p);
        let c = s.last();
        if p(s[0]) {
            assert(split_by(s, p) =~= seq![Seq::<char>::empty()] + split_by(d, p));
        } else if p(c) {
            assert(split_by(s, p) =~= split_by(d, p).update(0, seq![s[0]] + split_by(d, p)[0]));
        } else {
            if r.len() == 1 {
                // The first piece is also the last one.
                assert((seq![s[0]] + r[0]).push(c) =~= seq![s[0]] + r[0].push(c));
            }
            assert(split_by(s, p) =~= split_by(d, p).update(0, seq![s[0]] + split_by(d, p)[0]));
        }
    }
}

/// The words left when one character is taken off the front of the first.
spec fn drop_first_char(ws: Seq<Seq<char>>) -> Seq<Seq<char>> {
    if ws[0].len() == 1 {
        ws.drop_first()
    } else {
        ws.update(0, ws[0].drop_first())
    }
}

/// The words left when one character is taken off the end of the last.
spec fn drop_last_char(ws: Seq<Seq<char>>) -> Seq<Seq<char>> {
    if ws.last().len() == 1 {
        ws.drop_last()
    } else {
        ws.update(ws.len() - 1, ws.last().drop_last())
    }
}

proof fn lemma_words_empty()
    ensures
        words(Seq::<char>::empty()) == Seq::<Seq<char>>::empty(),
{
    let ne = |x: Seq<char>| x.len() > 0;
    Seq::<Seq<char>>::empty().lemma_filter_prepend(Seq::<char>::empty(), ne);
    assert(seq![Seq::<char>::empty()] =~= seq![Seq::<char>::empty()] + Seq::<Seq<char>>::empty());
    reveal(Seq::filter);
    assert(Seq::<Seq<char>>::empty().filter(ne) =~= Seq::<Seq<char>>::empty());
}

/// How the words of `s` change when its first character is taken off.
proof fn lemma_words_front(s: Seq<char>)
    requires
        s.len() > 0,
    ensures
        white_space(s[0]) ==> words(s.drop_first()) == words(s),
        !white_space(s[0]) ==> words(s).len() > 0 && words(s)[0].len() > 0 && words(s)[0][0] == s[0]
            && words(s.drop_first()) == drop_first_char(words(s)),
{
    let p = white_space_pred();
    let ne = |x: Seq<char>| x.len() > 0;
    let d = s.drop_first();
    let r = split_by(d, p);
    lemma_split_by_front(s, p);
    lemma_split_by_nonempty(d, p);
    if white_space(s[0]) {
        r.lemma_filter_prepend(Seq::<char>::empty(), ne);
        assert(Seq::<Seq<char>>::empty() + r.filter(ne) =~= r.filter(ne));
    } else {
        let w = seq![s[0]] + r[0];
        let rest = r.drop_first();
        assert(split_by(s, p) =~= seq![w] + rest);
        assert(r =~= seq![r[0]] + rest);
        rest.lemma_filter_prepend(w, ne);
        rest.lemma_filter_prepend(r[0], ne);
        let f = rest.filter(ne);
        assert(words(s) == seq![w] + f);
        assert(w.drop_first() =~= r[0]);
        if r[0].len() == 0 {
            assert(Seq::<Seq<char>>::empty() + f =~= f);
            assert((seq![w] + f).drop_first() =~= f);
        } else {
            assert((seq![w] + f).update(0, r[0]) =~= seq![r[0]] + f);
        }
    }
}

/// How the words of `s` change when its last character is taken off.
proof fn lemma_words_back(s: Seq<char>)
    requires
        s.len() > 0,
    ensures
        white_space(s.last()) ==> words(s.drop_last()) == words(s),
        !white_space(s.last()) ==> words(s).len() > 0 && words(s).last().len() > 0
            && words(s).last().last() == s.last() && words(s.drop_last()) == drop_last_char(words(s)),
{
    let p = white_space_pred();
    let d = s.drop_last();
    let r = split_by(d, p);
    lemma_split_by_nonempty(d, p);
    if white_space(s.last()) {
        lemma_filter_nonempty_push(r, Seq::<char>::empty());
    } else {
        let w = r.last().push(s.last());
        let init = r.drop_last();
        assert(split_by(s, p) =~= init.push(w));
        assert(r =~= init.push(r.last()));
        lemma_filter_nonempty_push(init, w);
        lemma_filter_nonempty_push(init, r.last());
        let f = init.filter(|x: Seq<char>| x.len() > 0);
        assert(words(s) == f.push(w));
        assert(w.drop_last() =~= r.last());
        if r.last().len() == 0 {
            assert(f.push(w).drop_last() =~= f);
        } else {
            assert(f.push(w).update(f.len() as int, r.last()) =~= f.push(r.last()));
        }
    }
}

/// Entries with the same words keep the same words after their leading
/// whitespace and quotes are trimmed.
proof fn lemma_words_trim_start(a: Seq<char>, b: Seq<char>)
    requires
        words(a) == words(b),
    ensures
        words(trim_start_by(a, trimmed_char_pred())) == words(trim_start_by(b, trimmed_char_pred())),
    decreases a.len() + b.len(),
{
    let p = trimmed_char_pred();
    lemma_words_empty();
    if a.len() > 0 && white_space(a[0]) {
        lemma_words_front(a);
        assert(p(a[0]));
        lemma_words_trim_start(a.drop_first(), b);
    } else if b.len() > 0 && white_space(b[0]) {
        lemma_words_front(b);
        assert(p(b[0]));
        lemma_words_trim_start(a, b.drop_first());
    } else if a.len() == 0 || b.len() == 0 {
        if a.len() > 0 {
            lemma_words_front(a);
        }
        if b.len() > 0 {
            lemma_words_front(b);
        }
    } else {
        lemma_words_front(a);
        lemma_words_front(b);
        assert(a[0] == b[0]);
        if is_quote(a[0]) {
            assert(p(a[0]) && p(b[0]));
            lemma_words_trim_start(a.drop_first(), b.drop_first());
        } else {
            assert(!p(a[0]) && !p(b[0]));
        }
    }
}

/// Entries with the same words keep the same words after their trailing
/// whitespace and quotes are trimmed.
proof fn lemma_words_trim_end(a: Seq<char>, b: Seq<char>)
    requires
        words(a) == words(b),
    ensures
        words(trim_end_by(a, trimmed_char_pred())) == words(trim_end_by(b, trimmed_char_pred())),
    decreases a.len() + b.len(),
{
    let p = trimmed_char_pred();
    lemma_words_empty();
    if a.len() > 0 && white_space(a.last()) {
        lemma_words_back(a);
        assert(p(a.last()));
        lemma_words_trim_end(a.drop_last(), b);
    } else if b.len() > 0 && white_space(b.last()) {
        lemma_words_back(b);
        assert(p(b.last()));
        lemma_words_trim_end(a, b.drop_last());
    } else if a.len() == 0 || b.len() == 0 {
        if a.len() > 0 {
            lemma_words_back(a);
        }
        if b.len() > 0 {
            lemma_words_back(b);
        }
    } else {
        lemma_words_back(a);
        lemma_words_back(b);
        assert(a.last() == b.last());
        if is_quote(a.last()) {
            assert(p(a.last()) && p(b.last()));
            lemma_words_trim_end(a.drop_last(), b.drop_last());
        } else {
            assert(!p(a.last()) && !p(b.last()));
        }
    }
}

/// Whitespace never changes how an entry normalizes: two entries with the
/// same words (the same runs of non-whitespace characters, in the same
/// order) normalize alike, however much whitespace of whatever kind stands
/// between, before or after those words.
pub proof fn law_normalized_depends_on_words_only(a: Seq<char>, b: Seq<char>)
    requires
        words(a) == words(b),
    ensures
        normalized(a) == normalized(b),
{
    let p = trimmed_char_pred();
    lemma_words_trim_start(a, b);
    lemma_words_trim_end(trim_start_by(a, p), trim_start_by(b, p));
    let ta = trimmed_entry(a);
    let tb = trimmed_entry(b);
    assert(words(ta) == words(tb));
    lemma_trimmed_words_empty(a);
    lemma_trimmed_words_empty(b);
}

/// Words joined by the character `c`, one between each two.
pub open spec fn join_by(ws: Seq<Seq<char>>, c: char) -> Seq<char>
    decreases ws.len(),
{
    if ws.len() == 0 {
        Seq::<char>::empty()
    } else if ws.len() == 1 {
        ws[0]
    } else {
        join_by(ws.drop_last(), c) + seq![c] + ws.last()
    }
}

/// A piece with no separator in it, after a separator, is one more piece.
proof fn lemma_split_by_piece_after(x: Seq<char>, c: char, w: Seq<char>, p: spec_fn(char) -> bool)
    requires
        p(c),
        forall|j: int| 0 <= j < w.len() ==> !p(#[trigger] w[j]),
    ensures
        split_by(x + seq![c] + w, p) == split_by(x, p).push(w),
    decreases w.len(),
{
    let y = x + seq![c] + w;
    if w.len() == 0 {
        assert(y.drop_last() =~= x);
        assert(y.last() == c);
        assert(w =~= Seq::<char>::empty());
    } else {
        let v = w.drop_last();
        lemma_split_by_piece_after(x, c, v, p);
        assert(y.drop_last() =~= x + seq![c] + v);
        assert(!p(w[w.len() - 1]));
        assert(v.push(w.last()) =~= w);
        assert(split_by(y, p) =~= split_by(x, p).push(w));
    }
}

/// A piece with no separator in it is the only piece.
proof fn lemma_split_by_single(w: Seq<char>, p: spec_fn(char) -> bool)
    requires
        forall|j: int| 0 <= j < w.len() ==> !p(#[trigger] w[j]),
    ensures
        split_by(w, p) == seq![w],
    decreases w.len(),
{
    if w.len() > 0 {
        let v = w.drop_last();
        lemma_split_by_single(v, p);
        assert(!p(w[w.len() - 1]));
        assert(v.push(w.last()) =~= w);
        assert(split_by(w, p) =~= seq![w]);
    } else {
        assert(w =~= Seq::<char>::empty());
    }
}

/// Every word is non-empty and holds no whitespace.
proof fn lemma_words_are_words(s: Seq<char>)
    ensures
        forall|i: int, j: int|
            0 <= i < words(s).len() && 0 <= j < words(s)[i].len() ==> !white_space(
                #[trigger] words(s)[i][j],
            ),
        forall|i: int| 0 <= i < words(s).len() ==> (#[trigger] words(s)[i]).len() > 0,
{
    let p = white_space_pred();
    let ne = |x: Seq<char>| x.len() > 0;
    let r = split_by(s, p);
    law_split_pieces_hold_no_separator(s, p);
    assert forall|i: int| 0 <= i < words(s).len() implies (#[trigger] words(s)[i]).len() > 0 by {
        r.lemma_filter_pred(ne, i);
    }
    assert forall|i: int, j: int|
        0 <= i < words(s).len() && 0 <= j < words(s)[i].len() implies !white_space(
            #[trigger] words(s)[i][j],
        ) by {
        let w = words(s)[i];
        assert(r.filter(ne).contains(w));
        r.lemma_filter_contains_rev(ne, w);
        let k = choose|k: int| 0 <= k < r.len() && r[k] == w;
        assert(!p(r[k][j]));
    }
}

/// Joining non-empty words without whitespace by a whitespace character
/// gives back those words.
proof fn lemma_words_of_join(ws: Seq<Seq<char>>, c: char)
    requires
        white_space(c),
        forall|i: int| 0 <= i < ws.len() ==> (#[trigger] ws[i]).len() > 0,
        forall|i: int, j: int| 0 <= i < ws.len() && 0 <= j < ws[i].len() ==> !white_space(#[trigger] ws[i][j]),
    ensures
        words(join_by(ws, c)) == ws,
    decreases ws.len(),
{
    let p = white_space_pred();
    let ne = |x: Seq<char>| x.len() > 0;
    if ws.len() == 0 {
        lemma_words_empty();
    } else if ws.len() == 1 {
        let w = ws[0];
        assert(forall|j: int| 0 <= j < w.len() ==> !p(#[trigger] w[j])) by {
            assert forall|j: int| 0 <= j < w.len() implies !p(#[trigger] w[j]) by {
                assert(!white_space(ws[0][j]));
            }
        }
        lemma_split_by_single(w, p);
        lemma_filter_nonempty_push(Seq::<Seq<char>>::empty(), w);
        assert(Seq::<Seq<char>>::empty().push(w) =~= seq![w]);
        lemma_words_empty();
        lemma_split_by_single(Seq::<char>::empty(), p);
        assert(Seq::<Seq<char>>::empty().filter(ne) == words(Seq::<char>::empty()));
        assert(words(join_by(ws, c)) =~= ws);
    } else {
        let init = ws.drop_last();
        let w = ws.last();
        lemma_words_of_join(init, c);
        assert forall|j: int| 0 <= j < w.len() implies !p(#[trigger] w[j]) by {
            assert(!white_space(ws[ws.len() - 1][j]));
        }
        lemma_split_by_piece_after(join_by(init, c), c, w, p);
        lemma_filter_nonempty_push(split_by(join_by(init, c), p), w);
        assert(init.push(w) =~= ws);
    }
}

/// Collapsing whitespace never changes how an entry normalizes: its words
/// joined by any single whitespace character normalize as the entry itself.
pub proof fn law_collapsing_whitespace_changes_nothing(s: Seq<char>, c: char)
    requires
        white_space(c),
    ensures
        normalized(join_by(words(s), c)) == normalized(s),
{
    lemma_words_are_words(s);
    lemma_words_of_join(words(s), c);
    law_normalized_depends_on_words_only(join_by(words(s), c), s);
}

/// In particular, an entry normalizes as its words joined by single spaces:
/// runs of whitespace, and whitespace around the words, never matter.
pub proof fn law_single_spaces_between_words(s: Seq<char>)
    ensures
        normalized(join_by(words(s), ' ')) == normalized(s),
{
    law_collapsing_whitespace_changes_nothing(s, ' ');
}

/// The words of text around a whitespace character: those before it, then
/// those after it.
proof fn lemma_words_at_white_space(x: Seq<char>, c: char, y: Seq<char>)
    requires
        white_space(c),
    ensures
        words(x + seq![c] + y) == words(x) + words(y),
{
    let p = white_space_pred();
    lemma_split_by_at_separator(x, c, y, p);
    Seq::filter_distributes_over_add(split_by(x, p), split_by(y, p), |w: Seq<char>| w.len() > 0);
}

/// Joining two non-empty lists of words puts one space between their joins.
proof fn lemma_join_words_append(u: Seq<Seq<char>>, v: Seq<Seq<char>>)
    requires
        u.len() > 0,
        v.len() > 0,
    ensures
        join_words(u + v) == join_words(u) + seq![' '] + join_words(v),
    decreases v.len(),
{
    let z = u + v;
    if v.len() == 1 {
        assert(z.drop_last() =~= u);
        assert(z.last() == v[0]);
    } else {
        let d = v.drop_last();
        lemma_join_words_append(u, d);
        assert(z.drop_last() =~= u + d);
        assert(z.last() == v.last());
        assert(join_words(z) =~= join_words(u) + seq![' '] + join_words(v));
    }
}

/// An entry that neither begins nor ends with whitespace or a quote is left
/// as it is by trimming.
proof fn lemma_trimmed_entry_untouched(s: Seq<char>)
    requires
        s.len() > 0,
        !is_trimmed_char(s[0]),
        !is_trimmed_char(s.last()),
    ensures
        trimmed_entry(s) == s,
{
    let p = trimmed_char_pred();
    assert(!p(s[0]));
    assert(trim_start_by(s, p) == s);
    assert(!p(s.last()));
}

/// Normalizing keeps every word, in order: two entries that neither begin
/// nor end with whitespace or a quote, joined by a space, normalize to their
/// two normalized forms joined by a space.
pub proof fn law_normalized_joins_normalized_parts(a: Seq<char>, b: Seq<char>)
    requires
        a.len() > 0,
        b.len() > 0,
        !is_trimmed_char(a[0]),
        !is_trimmed_char(a.last()),
        !is_trimmed_char(b[0]),
        !is_trimmed_char(b.last()),
    ensures
        normalized(a) is Some,
        normalized(b) is Some,
        normalized(a + seq![' '] + b) == Some(normalized(a)->0 + seq![' '] + normalized(b)->0),
{
    let s = a + seq![' '] + b;
    let f = |w: Seq<char>| title_case_word(w);
    lemma_trimmed_entry_untouched(a);
    lemma_trimmed_entry_untouched(b);
    assert(s[0] == a[0]);
    assert(s.last() == b.last());
    lemma_trimmed_entry_untouched(s);
    lemma_words_at_white_space(a, ' ', b);
    lemma_words_front(a);
    lemma_words_front(b);
    let (wa, wb) = (words(a), words(b));
    assert((wa + wb).map_values(f) =~= wa.map_values(f) + wb.map_values(f));
    lemma_join_words_append(wa.map_values(f), wb.map_values(f));
}

/// A single word (no whitespace in it) that neither begins nor ends with a
/// quote normalizes to its title-cased form.
pub proof fn law_single_word_normalizes_to_its_title_case(w: Seq<char>)
    requires
        w.len() > 0,
        !is_quote(w[0]),
        !is_quote(w.last()),
        forall|i: int| 0 <= i < w.len() ==> !white_space(#[trigger] w[i]),
    ensures
        normalized(w) == Some(title_case_word(w)),
{
    let p = white_space_pred();
    lemma_trimmed_entry_untouched(w);
    assert forall|j: int| 0 <= j < w.len() implies !p(#[trigger] w[j]) by {
        assert(!white_space(w[j]));
    }
    lemma_split_by_single(w, p);
    lemma_filter_nonempty_push(Seq::<Seq<char>>::empty(), w);
    lemma_words_empty();
    lemma_split_by_single(Seq::<char>::empty(), p);
    assert(Seq::<Seq<char>>::empty().push(w) =~= seq![w]);
    assert(seq![w].map_values(|v: Seq<char>| title_case_word(v)) =~= seq![title_case_word(w)]);
}

/// An entry has words left after trimming exactly when something is left.
proof fn lemma_trimmed_words_empty(s: Seq<char>)
    ensures
        words(trimmed_entry(s)).len() == 0 <==> trimmed_entry(s).len() == 0,
{
    let t = trimmed_entry(s);
    law_trimming_removes_surrounding_blanks(s);
    lemma_words_empty();
    if t.len() > 0 {
        lemma_words_front(t);
    }
}

/// Case never changes how an entry normalizes: entries whose trimmed words
/// are cased alike, word by word (the same hyphens and apostrophes, and
/// segments with the same lowercase form), normalize alike.
pub proof fn law_normalized_up_to_case(a: Seq<char>, b: Seq<char>)
    requires
        words(trimmed_entry(a)).len() == words(trimmed_entry(b)).len(),
        forall|k: int|
            0 <= k < words(trimmed_entry(a)).len() ==> cased_alike(
                #[trigger] words(trimmed_entry(a))[k],
                words(trimmed_entry(b))[k],
            ),
    ensures
        normalized(a) == normalized(b),
{
    let wa = words(trimmed_entry(a));
    let wb = words(trimmed_entry(b));
    lemma_trimmed_words_empty(a);
    lemma_trimmed_words_empty(b);
    assert forall|k: int| 0 <= k < wa.len() implies title_case_word(#[trigger] wa[k]) == title_case_word(
        wb[k],
    ) by {
        law_title_case_word_up_to_case(wa[k], wb[k]);
    }
    assert(wa.map_values(|w: Seq<char>| title_case_word(w)) =~= wb.map_values(
        |w: Seq<char>| title_case_word(w),
    ));
}

proof fn lemma_kept_names_plausible(es: Seq<Seq<char>>)
    ensures
        forall|m: int| 0 <= m < kept_from(es).len() ==> plausible(#[trigger] kept_from(es)[m]),
    decreases es.len(),
{
    if es.len() > 0 {
        lemma_kept_names_plausible(es.drop_last());
        let prev = kept_from(es.drop_last());
        assert forall|m: int| 0 <= m < kept_from(es).len() implies plausible(#[trigger] kept_from(es)[m]) by {
            if m < prev.len() {
                assert(kept_from(es)[m] == prev[m]);
            }
        }
    }
}

/// Every name in the cleaned list is a plausible name, and no two of them
/// are equal up to case.
pub proof fn law_cleaned_names_plausible_and_distinct(raw: Seq<char>)
    ensures
        forall|i: int| 0 <= i < tally(kept_names(raw)).len() ==> plausible(#[trigger] tally(kept_names(raw))[i].0),
        forall|i: int, j: int|
            0 <= i < j < tally(kept_names(raw)).len() ==> lowercase(#[trigger] tally(kept_names(raw))[i].0)
                != lowercase(#[trigger] tally(kept_names(raw))[j].0),
{
    let es = kept_names(raw);
    lemma_kept_names_plausible(split_by(raw, separator_pred()));
    law_tally_first_seen_order(es);
    law_tally_names_distinct(es);
    assert forall|i: int| 0 <= i < tally(es).len() implies plausible(#[trigger] tally(es)[i].0) by {
        let m = first_seen(es, lowercase(tally(es)[i].0));
        assert(tally(es)[i].0 == es[m]);
    }
}

/// The sorted order is unique: any two sorted arrangements of the same
/// entries are identical, so the result of sorting does not depend on the
/// order of the input.
pub proof fn law_sorted_arrangement_unique(x: Seq<Seq<char>>, y: Seq<Seq<char>>)
    requires
        sorted_by(x, entry_order()),
        sorted_by(y, entry_order()),
        x.to_multiset() == y.to_multiset(),
    ensures
        x == y,
{
    lemma_entry_order_total();
    vstd::seq_lib::lemma_sorted_unique(x, y, entry_order());
}

/// An entry holding any character that is not a letter, whitespace, hyphen,
/// apostrophe or period is not a plausible name.
pub proof fn law_rejects_non_name_characters(s: Seq<char>, i: int)
    requires
        0 <= i < s.len(),
        !name_char(s[i]),
    ensures
        !plausible(s),
{
}

} // verus!
