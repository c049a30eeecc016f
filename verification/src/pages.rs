//! Reading the download page of a link, and naming the game a list of links belongs to.
use vstd::prelude::*;
use crate::text::{
    chars_of, string_of, slice_chars, contains_text, contains_chars, find_from, occurs_at,
    drop_leading, drop_trailing, lemma_drop_leading, lemma_drop_trailing, trim_text, trim_chars,
};
use crate::patterns::{first_capture, window_open_url_from};
use crate::links::concat_str;

verus! {

/// What parsing `html` as a document and selecting `selector` gives: the
/// text of each selected element (its text nodes joined), in document order;
/// nothing when the selector does not parse.
pub uninterp spec fn html_selected_texts(html: Seq<char>, selector: Seq<char>) -> Option<
    Seq<Seq<char>>,
>;

/// `scraper::Html::parse_document(html)`, `Selector::parse(selector)` and the
/// text of each selected element; the result is named by `html_selected_texts`.
#[verifier::external_body]
fn select_texts(html: &str, selector: &str) -> (r: Option<Vec<String>>)
    ensures
        html_selected_texts(html@, selector@) == match r {
            Some(v) => Some(v@.map_values(|s: String| s@)),
            None => None,
        },
{
    let doc = scraper::Html::parse_document(html);
    let sel = scraper::Selector::parse(selector).ok()?;
    let mut out = Vec::new();
    for el in doc.select(&sel) {
        out.push(el.text().collect::<String>());
    }
    Some(out)
}

/// What parsing `html` as a document gives for the attribute `attr` of the
/// first element that `selector` selects: `Some(None)` when no element is
/// selected or the first one lacks the attribute, and nothing when the
/// selector does not parse.
pub uninterp spec fn html_first_attr(html: Seq<char>, selector: Seq<char>, attr: Seq<char>) -> Option<
    Option<Seq<char>>,
>;

/// `scraper::Html::parse_document(html)`, `Selector::parse(selector)`, the first
/// selected element and its attribute `attr`; the result is named by `html_first_attr`.
#[verifier::external_body]
fn first_attr(html: &str, selector: &str, attr: &str) -> (r: Option<Option<String>>)
    ensures
        html_first_attr(html@, selector@, attr@) == match r {
            Some(Some(v)) => Some(Some(v@)),
            Some(None) => Some(None),
            None => None,
        },
{
    let doc = scraper::Html::parse_document(html);
    let sel = scraper::Selector::parse(selector).ok()?;
    Some(doc.select(&sel).next().and_then(|el| el.value().attr(attr)).map(|v| v.to_string()))
}

/// The URL of the first script that defines the download function and
/// opens an `http(s)` address.
pub open spec fn script_download_url(scripts: Seq<Seq<char>>) -> Option<Seq<char>>
    decreases scripts.len(),
{
    if scripts.len() == 0 {
        None
    } else if contains_text(scripts[0], "function download"@) && window_open_url_from(
        scripts[0],
        0,
    ) is Some {
        window_open_url_from(scripts[0], 0)
    } else {
        script_download_url(scripts.drop_first())
    }
}

/// The address a download page opens to fetch the file.
pub open spec fn download_url_of(html: Seq<char>) -> Option<Seq<char>> {
    match html_selected_texts(html, "script"@) {
        Some(ts) => script_download_url(ts),
        None => None,
    }
}

/// The download address in the scripts of a page: in the first script
/// that holds `function download`, the URL of its first `window.open("http…")`.
pub fn download_url_in_scripts(scripts: &Vec<String>) -> (r: Option<String>)
    ensures
        match r {
            Some(u) => script_download_url(scripts@.map_values(|s: String| s@)) == Some(u@),
            None => script_download_url(scripts@.map_values(|s: String| s@)) is None,
        },
{
    let ghost ts = scripts@.map_values(|s: String| s@);
    let marker = chars_of("function download");
    let mut i: usize = 0;
    assert(ts.skip(0) =~= ts);
    while i < scripts.len()
        invariant
            i <= scripts.len(),
            ts == scripts@.map_values(|s: String| s@),
            marker@ == "function download"@,
            script_download_url(ts) == script_download_url(ts.skip(i as int)),
        decreases scripts.len() - i,
    {
        let text = chars_of(scripts[i].as_str());
        assert(ts.skip(i as int)[0] == text@);
        assert(ts.skip(i as int).drop_first() =~= ts.skip(i + 1));
        if contains_chars(&text, &marker) {
            let cap = first_capture(r#"window\.open\(["'](https?://[^\s"'\)]+)"#, scripts[i].as_str());
            assert(scripts[i as int]@ == text@);
            match cap {
                Some(Some((_, url))) => {
                    assert(window_open_url_from(text@, 0) == Some(url@));
                    assert(script_download_url(ts.skip(i as int)) == Some(url@));
                    return Some(url);
                },
                _ => {
                    assert(window_open_url_from(text@, 0) is None);
                },
            }
        }
        i = i + 1;
    }
    None
}

/// The address a download page opens to fetch the file: in the first
/// `<script>` that holds `function download`, the URL of its first
/// `window.open("http…")`.
pub fn get_download_url(html: &str) -> (r: Option<String>)
    ensures
        match r {
            Some(u) => download_url_of(html@) == Some(u@),
            None => download_url_of(html@) is None,
        },
{
    match select_texts(html, "script") {
        Some(v) => download_url_in_scripts(&v),
        None => None,
    }
}

/// The file name a download page gives in `<meta name="title" content=…>`,
/// or `default_file_name`.
pub open spec fn page_file_name_of(html: Seq<char>) -> Seq<char> {
    match html_first_attr(html, r#"meta[name="title"]"#@, "content"@) {
        Some(Some(v)) => v,
        _ => "default_file_name"@,
    }
}

/// The file name a download page gives.
pub fn page_file_name(html: &str) -> (r: String)
    ensures
        r@ == page_file_name_of(html@),
{
    match first_attr(html, r#"meta[name="title"]"#, "content") {
        Some(Some(v)) => v,
        _ => string_of(&chars_of("default_file_name")),
    }
}

/// What `url::Url::parse(link)` and then `fragment()` give: the fragment of
/// the parsed URL (as the parser normalises it), or nothing when the link
/// does not parse or has no fragment.
pub uninterp spec fn parsed_fragment(link: Seq<char>) -> Option<Seq<char>>;

/// `url::Url::parse(link)` and `Url::fragment`; the result is named by `parsed_fragment`.
#[verifier::external_body]
fn url_fragment(link: &str) -> (r: Option<String>)
    ensures
        parsed_fragment(link@) == match r {
            Some(f) => Some(f@),
            None => None,
        },
{
    url::Url::parse(link).ok()?.fragment().map(|f| f.to_string())
}

/// `str::split(p).next()`: the text before the first occurrence of `p`, or all of it.
pub open spec fn before_text(s: Seq<char>, p: Seq<char>) -> Seq<char> {
    if exists|i: int| occurs_at(s, p, i) {
        s.take(choose|i: int| occurs_at(s, p, i) && forall|j: int| 0 <= j < i ==> !occurs_at(s, p, j))
    } else {
        s
    }
}

/// `str::split(p).next()` on characters.
fn before_text_chars(s: &[char], p: &[char]) -> (r: Vec<char>)
    ensures
        r@ == before_text(s@, p@),
{
    match find_from(s, p, 0) {
        Some(i) => {
            let ghost k = choose|k: int| occurs_at(s@, p@, k) && forall|j: int|
                0 <= j < k ==> !occurs_at(s@, p@, j);
            assert(occurs_at(s@, p@, i as int));
            assert(k == i) by {
                if k < i {
                } else if k > i {
                    assert(!occurs_at(s@, p@, i as int));
                }
            }
            slice_chars(s, 0, i)
        },
        None => {
            assert(s@.subrange(0, s@.len() as int) =~= s@);
            slice_chars(s, 0, s.len())
        },
    }
}

/// The game name in a link fragment: the text before the first `--`,
/// without the underscores around it.
pub open spec fn fragment_game_name(f: Seq<char>) -> Seq<char> {
    drop_trailing(drop_leading(before_text(f, "--"@), |c: char| c == '_'), |c: char| c == '_')
}

/// `str::trim_matches('_')` on characters.
fn trim_underscores(s: &[char]) -> (r: Vec<char>)
    ensures
        r@ == drop_trailing(drop_leading(s@, |c: char| c == '_'), |c: char| c == '_'),
{
    let mut a: usize = 0;
    while a < s.len() && s[a] == '_'
        invariant
            a <= s.len(),
            forall|j: int| 0 <= j < a ==> s@[j] == '_',
        decreases s.len() - a,
    {
        a = a + 1;
    }
    let mut b: usize = s.len();
    while b > a && s[b - 1] == '_'
        invariant
            a <= b <= s.len(),
            forall|j: int| b <= j < s.len() ==> s@[j] == '_',
        decreases b - a,
    {
        b = b - 1;
    }
    proof {
        lemma_drop_leading(s@, |c: char| c == '_', a as int);
        let t = s@.skip(a as int);
        assert forall|j: int| b - a <= j < t.len() implies (|c: char| c == '_')(#[trigger] t[j]) by {
            assert(t[j] == s@[j + a]);
        }
        if b > a {
            assert(t[b - a - 1] == s@[b - 1]);
        }
        lemma_drop_trailing(t, |c: char| c == '_', b - a);
        assert(t.take(b - a) =~= s@.subrange(a as int, b as int));
    }
    slice_chars(s, a, b)
}

/// The game name in a link fragment: the text before the first `--`,
/// without the underscores around it.
pub fn game_name_in(f: &str) -> (r: Vec<char>)
    ensures
        r@ == fragment_game_name(f@),
{
    let cs = chars_of(f);
    let sep = chars_of("--");
    let head = before_text_chars(&cs, &sep);
    trim_underscores(&head)
}

/// The game a list of links downloads: the trimmed name in the fragment of
/// the first link that parses with a fragment naming one, or nothing.
pub open spec fn game_name_of(links: Seq<Seq<char>>) -> Seq<char>
    decreases links.len(),
{
    if links.len() == 0 {
        seq![]
    } else {
        match parsed_fragment(links[0]) {
            Some(f) if fragment_game_name(f).len() > 0 => trim_text(fragment_game_name(f)),
            _ => game_name_of(links.drop_first()),
        }
    }
}

/// The game a list of links downloads, or the empty text.
pub fn extract_game_name(links: &Vec<String>) -> (r: String)
    ensures
        r@ == game_name_of(links@.map_values(|s: String| s@)),
{
    let ghost ls = links@.map_values(|s: String| s@);
    let mut i: usize = 0;
    assert(ls.skip(0) =~= ls);
    while i < links.len()
        invariant
            i <= links.len(),
            ls == links@.map_values(|s: String| s@),
            game_name_of(ls) == game_name_of(ls.skip(i as int)),
        decreases links.len() - i,
    {
        assert(ls.skip(i as int)[0] == links@[i as int]@);
        assert(ls.skip(i as int).drop_first() =~= ls.skip(i + 1));
        match url_fragment(links[i].as_str()) {
            Some(f) => {
                let name = game_name_in(f.as_str());
                if name.len() > 0 {
                    let t = trim_chars(&name);
                    return string_of(&t);
                }
            },
            None => {},
        }
        i = i + 1;
    }
    string_of(&Vec::new())
}

/// Whether a link's fragment names the repack site, as the links of a
/// game's part files do.
pub open spec fn is_game_link(link: Seq<char>) -> bool {
    match parsed_fragment(link) {
        Some(f) => contains_text(f, "fitgirl-repacks.site"@),
        None => false,
    }
}

/// The position of the first link of a game's files.
pub fn first_game_link(links: &Vec<String>) -> (r: Option<usize>)
    ensures
        match r {
            Some(i) => i < links.len() && is_game_link(links@[i as int]@) && forall|j: int|
                0 <= j < i ==> !is_game_link(#[trigger] links@[j]@),
            None => forall|j: int| 0 <= j < links.len() ==> !is_game_link(#[trigger] links@[j]@),
        },
{
    let site = chars_of("fitgirl-repacks.site");
    let mut i: usize = 0;
    while i < links.len()
        invariant
            i <= links.len(),
            site@ == "fitgirl-repacks.site"@,
            forall|j: int| 0 <= j < i ==> !is_game_link(#[trigger] links@[j]@),
        decreases links.len() - i,
    {
        match url_fragment(links[i].as_str()) {
            Some(f) => {
                let fc = chars_of(f.as_str());
                if contains_chars(&fc, &site) {
                    return Some(i);
                }
            },
            None => {},
        }
        i = i + 1;
    }
    None
}

/// The folder a game's files are saved in: `downloads/` and the name in the
/// link's fragment (an empty name when the link has no fragment).
pub open spec fn download_folder_of(link: Seq<char>) -> Seq<char> {
    "downloads/"@ + fragment_game_name(
        match parsed_fragment(link) {
            Some(f) => f,
            None => ""@,
        },
    )
}

/// The folder a game's files are saved in.
pub fn download_folder_for(link: &str) -> (r: String)
    ensures
        r@ == download_folder_of(link@),
{
    let f = match url_fragment(link) {
        Some(f) => f,
        None => string_of(&chars_of("")),
    };
    let name = game_name_in(f.as_str());
    let name = string_of(&name);
    concat_str("downloads/", name.as_str())
}

} // verus!
