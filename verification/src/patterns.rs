//! The regular expressions of the library, run by the `regex` crate.
use vstd::prelude::*;
use crate::text::{is_white_space, occurs_at, all_ascii_digits, is_ascii_digit};

verus! {

/// The texts of the views of a list of strings.
pub open spec fn views_of(v: Seq<String>) -> Seq<Seq<char>> {
    v.map_values(|s: String| s@)
}

/// What `Regex::new(pattern)` and then `find_iter(text)` give: the text of
/// every match, left to right, or nothing when the pattern does not compile.
pub uninterp spec fn regex_find_all(pattern: Seq<char>, text: Seq<char>) -> Option<
    Seq<Seq<char>>,
>;

/// What `Regex::new(pattern)` and then `captures(text)` give: for the first
/// match, the text before it and the text of group 1 (empty when the group
/// did not take part); `Some(None)` when nothing matches, and `None` when
/// the pattern does not compile.
pub uninterp spec fn regex_first_capture(pattern: Seq<char>, text: Seq<char>) -> Option<
    Option<(Seq<char>, Seq<char>)>,
>;

/// The index after the run of `p` characters that starts at `i`.
pub open spec fn run_end(t: Seq<char>, i: int, p: spec_fn(char) -> bool) -> int
    decreases t.len() - i,
{
    if 0 <= i < t.len() && p(t[i]) {
        run_end(t, i + 1, p)
    } else {
        i
    }
}

/// The run that starts at `i` ends at or after `i`, and inside `t` when `i` is.
pub proof fn lemma_run_end(t: Seq<char>, i: int, p: spec_fn(char) -> bool)
    ensures
        run_end(t, i, p) >= i,
        0 <= i <= t.len() ==> run_end(t, i, p) <= t.len(),
        forall|j: int| i <= j < run_end(t, i, p) ==> p(#[trigger] t[j]),
        0 <= i <= t.len() ==> (run_end(t, i, p) == t.len() || !p(t[run_end(t, i, p)])),
    decreases t.len() - i,
{
    if 0 <= i < t.len() && p(t[i]) {
        lemma_run_end(t, i + 1, p);
    }
}

/// `https://fuckingfast.co/`, where every download link starts.
pub open spec fn link_host_prefix() -> Seq<char> {
    seq![
        'h', 't', 't', 'p', 's', ':', '/', '/', 'f', 'u', 'c', 'k', 'i', 'n', 'g', 'f', 'a', 's',
        't', '.', 'c', 'o', '/',
    ]
}

/// The characters that may follow the host in a link: anything but white
/// space and `"`, `'`, `>`.
pub open spec fn link_char(c: char) -> bool {
    !is_white_space(c) && c != '"' && c != '\'' && c != '>'
}

/// The regex source of a download link.
pub open spec fn link_pattern() -> Seq<char> {
    r#"https://fuckingfast\.co/[^\s"'>]+"#@
}

/// The links found from index `i` on: a link is the host prefix followed by
/// the longest non-empty run of link characters, and the search goes on
/// after its end.
pub open spec fn link_matches_from(t: Seq<char>, i: int) -> Seq<Seq<char>>
    decreases t.len() - i,
{
    if i < 0 || i >= t.len() {
        seq![]
    } else {
        let k = i + link_host_prefix().len();
        if occurs_at(t, link_host_prefix(), i) && k < t.len() && link_char(t[k]) {
            let e = run_end(t, k, |c: char| link_char(c));
            proof {
                lemma_run_end(t, k, |c: char| link_char(c));
            }
            seq![t.subrange(i, e)] + link_matches_from(t, e)
        } else {
            link_matches_from(t, i + 1)
        }
    }
}

/// Every match of the link pattern in `t`, in order.
pub open spec fn link_matches(t: Seq<char>) -> Seq<Seq<char>> {
    link_matches_from(t, 0)
}

/// The regex source of the script line that opens the file download.
pub open spec fn download_url_pattern() -> Seq<char> {
    r#"window\.open\(["'](https?://[^\s"'\)]+)"#@
}

/// `window.open(`.
pub open spec fn window_open_text() -> Seq<char> {
    seq!['w', 'i', 'n', 'd', 'o', 'w', '.', 'o', 'p', 'e', 'n', '(']
}

/// `https://`.
pub open spec fn https_text() -> Seq<char> {
    seq!['h', 't', 't', 'p', 's', ':', '/', '/']
}

/// `http://`.
pub open spec fn http_text() -> Seq<char> {
    seq!['h', 't', 't', 'p', ':', '/', '/']
}

/// The characters that may follow the scheme of an opened URL: anything but
/// white space and `"`, `'`, `)`.
pub open spec fn url_char(c: char) -> bool {
    !is_white_space(c) && c != '"' && c != '\'' && c != ')'
}

/// The URL of a `window.open("http…` or `window.open('http…` that starts at `i`.
pub open spec fn window_open_url_at(t: Seq<char>, i: int) -> Option<Seq<char>> {
    let q = i + window_open_text().len();
    let h = q + 1;
    if occurs_at(t, window_open_text(), i) && q < t.len() && (t[q] == '"' || t[q] == '\'') {
        let s = if occurs_at(t, https_text(), h) {
            h + https_text().len()
        } else if occurs_at(t, http_text(), h) {
            h + http_text().len()
        } else {
            -1
        };
        if 0 <= s < t.len() && url_char(t[s]) {
            Some(t.subrange(h, run_end(t, s, |c: char| url_char(c))))
        } else {
            None
        }
    } else {
        None
    }
}

/// The URL of the first `window.open` match at or after `i`.
pub open spec fn window_open_url_from(t: Seq<char>, i: int) -> Option<Seq<char>>
    decreases t.len() - i,
{
    if i < 0 || i >= t.len() {
        None
    } else {
        match window_open_url_at(t, i) {
            Some(u) => Some(u),
            None => window_open_url_from(t, i + 1),
        }
    }
}

/// The regex source of a part number in a link fragment.
pub open spec fn part_pattern() -> Seq<char> {
    r#"\.part(\d+)"#@
}

/// The regex source of the part number of a multi-part RAR file name.
pub open spec fn part_rar_pattern() -> Seq<char> {
    r#"\.part(\d+)\.rar$"#@
}

/// `.part`.
pub open spec fn part_text() -> Seq<char> {
    seq!['.', 'p', 'a', 'r', 't']
}

/// `.rar`.
pub open spec fn rar_text() -> Seq<char> {
    seq!['.', 'r', 'a', 'r']
}

/// `Regex::new(pattern)` and `Regex::find_iter(text)`, each match taken as its text.
/// The contract says that the result is `regex_find_all` of the arguments, and
/// spells out for the link pattern what the crate documents: leftmost,
/// non-overlapping matches, each as long as the greedy class allows.
#[verifier::external_body]
pub(crate) fn find_all_matches(pattern: &str, text: &str) -> (r: Option<Vec<String>>)
    ensures
        match r {
            Some(v) => regex_find_all(pattern@, text@) == Some(views_of(v@)),
            None => regex_find_all(pattern@, text@) is None,
        },
        pattern@ == link_pattern() ==> r is Some && views_of(r->0@) == link_matches(text@),
{
    let re = regex::Regex::new(pattern).ok()?;
    let mut out = Vec::new();
    for m in re.find_iter(text) {
        out.push(m.as_str().to_string());
    }
    Some(out)
}

/// The views of a capture result.
pub open spec fn capture_view(r: Option<Option<(String, String)>>) -> Option<
    Option<(Seq<char>, Seq<char>)>,
> {
    match r {
        None => None,
        Some(None) => Some(None),
        Some(Some((a, b))) => Some(Some((a@, b@))),
    }
}

/// What the download pattern captures: the URL of the leftmost match.
pub open spec fn download_capture_spec(t: Seq<char>, c: Option<Option<(Seq<char>, Seq<char>)>>) -> bool {
    match c {
        Some(Some((a, b))) => window_open_url_from(t, 0) == Some(b),
        Some(None) => window_open_url_from(t, 0) is None,
        None => false,
    }
}

/// The leftmost `.part` followed by ASCII digits at or after `i`: the text
/// before it and the longest run of those digits.
pub open spec fn part_match_from(t: Seq<char>, i: int) -> Option<(Seq<char>, Seq<char>)>
    decreases t.len() - i,
{
    if i < 0 || i >= t.len() {
        None
    } else if occurs_at(t, part_text(), i) && i + 5 < t.len() && is_ascii_digit(t[i + 5]) {
        Some((t.take(i), t.subrange(i + 5, run_end(t, i + 5, |c: char| is_ascii_digit(c)))))
    } else {
        part_match_from(t, i + 1)
    }
}

/// Whether every character of a text is ASCII.
pub open spec fn all_ascii(t: Seq<char>) -> bool {
    forall|j: int| 0 <= j < t.len() ==> (#[trigger] t[j] as u32) < 128
}

/// The shape of a capture of the fragment part pattern: `.part` and the
/// non-empty group occur right after the text before the match; in an ASCII
/// text it is the leftmost `.part` with the whole run of digits after it.
pub open spec fn part_capture_spec(t: Seq<char>, c: Option<Option<(Seq<char>, Seq<char>)>>) -> bool {
    &&& c is Some
    &&& (c->0 matches Some((a, b)) ==> b.len() > 0 && occurs_at(t, part_text() + b, a.len() as int))
    &&& all_ascii(t) ==> c == Some(part_match_from(t, 0))
}

/// The shape of a capture of the RAR part pattern, and that a name ending in
/// `.part<ASCII digits>.rar` is split there.
pub open spec fn part_rar_capture_spec(t: Seq<char>, c: Option<Option<(Seq<char>, Seq<char>)>>) -> bool {
    &&& c is Some
    &&& (c->0 matches Some((a, b)) ==> b.len() > 0 && t == a + part_text() + b + rar_text())
    &&& forall|p: Seq<char>, d: Seq<char>|
        #![trigger p + part_text() + d + rar_text()]
        t == p + part_text() + d + rar_text() && d.len() > 0 && all_ascii_digits(d) ==> c == Some(
            Some((p, d)))
}

/// `Regex::new(pattern)` and `Regex::captures(text)`: the text before the first
/// match and the text of its group 1. The contract says that the result is
/// `regex_first_capture` of the arguments; for the download pattern it spells
/// out the leftmost match; for the two part-number patterns it states the
/// shape of a match, for the fragment one the leftmost match in an ASCII text,
/// and for the RAR one that a suffix `.part<ASCII digits>.rar` is found. What
/// `\d` also matches beyond ASCII digits (every Unicode decimal digit) is left
/// unsaid.
#[verifier::external_body]
pub(crate) fn first_capture(pattern: &str, text: &str) -> (r: Option<Option<(String, String)>>)
    ensures
        regex_first_capture(pattern@, text@) == capture_view(r),
        pattern@ == download_url_pattern() ==> download_capture_spec(text@, capture_view(r)),
        pattern@ == part_pattern() ==> part_capture_spec(text@, capture_view(r)),
        pattern@ == part_rar_pattern() ==> part_rar_capture_spec(text@, capture_view(r)),
{
    let re = regex::Regex::new(pattern).ok()?;
    Some(
        re.captures(text).map(
            |c| match (c.get(0), c.get(1)) {
                (Some(m), Some(g)) => (text[..m.start()].to_string(), g.as_str().to_string()),
                (Some(m), None) => (text[..m.start()].to_string(), String::new()),
                _ => (String::new(), String::new()),
            },
        ),
    )
}

} // verus!
