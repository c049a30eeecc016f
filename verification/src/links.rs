//! Download links: finding them in a page, naming them, and keeping the
//! list of links that are still to be fetched.
use vstd::prelude::*;
use crate::text::{
    chars_of, string_of, slice_chars, trim_text, trim_chars, second_field, second_field_chars,
    before_first, before_first_chars, after_last, after_last_chars, contains_text, contains_chars,
    drop_trailing, lemma_drop_trailing, lemma_trim_shape, lemma_trim_fixed,
};
use crate::json::{JsonValue, json_get, json_get_exec};
use crate::patterns::{find_all_matches, link_matches, link_matches_from, link_pattern, views_of, link_host_prefix, link_char, run_end, lemma_run_end};
use crate::text::occurs_at;
use vstd::utf8::{encode_utf8, decode_utf8, is_char_boundary, encode_utf8_decode_utf8};
use crate::sorted::{char_views, strictly_ascending, insert_ascending, strings_of};
use crate::lines::{
    text_lines, lines_chars, join_with, join_lines, kept_lines, strip_cr, lemma_lines_have_no_newline,
    lemma_lines_of_terminated, lemma_lines_of_newline, lemma_kept_clean,
};

verus! {

/// The name shown for a link: its fragment (what follows the first `#`, up
/// to a second one) if it has one, else what follows its last `/`.
pub open spec fn display_name_text(link: Seq<char>) -> Seq<char> {
    match second_field(link, '#') {
        Some(f) => f,
        None => after_last(link, '/'),
    }
}

/// The name shown for a link.
pub fn display_name(link: &str) -> (r: String)
    ensures
        r@ == display_name_text(link@),
{
    let cs = chars_of(link);
    match second_field_chars(&cs, '#') {
        Some(f) => string_of(&f),
        None => {
            let tail = after_last_chars(&cs, '/');
            string_of(&tail)
        },
    }
}

/// The paste id of a paste URL: the query, from the first `?` up to the
/// next `?` or `#`.
pub open spec fn paste_id_text(url: Seq<char>) -> Option<Seq<char>> {
    match second_field(url, '?') {
        Some(q) => Some(before_first(q, '#')),
        None => None,
    }
}

/// The paste id of a paste URL (`url.split('?').nth(1)` cut at `#`).
pub fn privatebin_paste_id(url: &str) -> (r: Option<String>)
    ensures
        match r {
            Some(s) => paste_id_text(url@) == Some(s@),
            None => paste_id_text(url@) is None,
        },
{
    let cs = chars_of(url);
    match second_field_chars(&cs, '?') {
        Some(q) => {
            let id = before_first_chars(&q, '#');
            Some(string_of(&id))
        },
        None => None,
    }
}

/// The decryption key of a paste URL: its fragment, when not empty.
pub open spec fn paste_key_text(url: Seq<char>) -> Option<Seq<char>> {
    match second_field(url, '#') {
        Some(k) => if k.len() == 0 {
            None
        } else {
            Some(k)
        },
        None => None,
    }
}

/// The decryption key of a paste URL.
pub fn privatebin_key(url: &str) -> (r: Option<String>)
    ensures
        match r {
            Some(s) => paste_key_text(url@) == Some(s@),
            None => paste_key_text(url@) is None,
        },
{
    let cs = chars_of(url);
    match second_field_chars(&cs, '#') {
        Some(k) => if k.len() == 0 {
            None
        } else {
            Some(string_of(&k))
        },
        None => None,
    }
}

/// Whether a URL points at the paste service, whose links are read by
/// decrypting the paste rather than by scraping the page.
pub fn is_paste_url(url: &str) -> (r: bool)
    ensures
        r == contains_text(url@, "paste.fitgirl-repacks.site"@),
{
    let cs = chars_of(url);
    let host = chars_of("paste.fitgirl-repacks.site");
    contains_chars(&cs, &host)
}

/// Two strings one after the other.
pub fn concat_str(a: &str, b: &str) -> (r: String)
    ensures
        r@ == a@ + b@,
{
    let mut x = chars_of(a);
    let mut y = chars_of(b);
    x.append(&mut y);
    string_of(&x)
}

/// A link as the picking menu shows it: a link of more than 80 bytes is cut
/// to its first 77 bytes, followed by `...`.
pub open spec fn short_link_text(link: Seq<char>) -> Seq<char> {
    if encode_utf8(link).len() > 80 {
        decode_utf8(encode_utf8(link).take(77)) + "..."@
    } else {
        link
    }
}

/// A link as the picking menu shows it. A long link is cut at byte 77,
/// which must fall between two characters.
pub fn short_link(link: &str) -> (r: String)
    requires
        encode_utf8(link@).len() <= usize::MAX,
        encode_utf8(link@).len() > 80 ==> is_char_boundary(encode_utf8(link@), 77),
    ensures
        r@ == short_link_text(link@),
{
    if link.len() > 80 {
        let (head, _) = link.split_at(77);
        proof {
            encode_utf8_decode_utf8(head@);
            assert(encode_utf8(link@).subrange(0, 77) =~= encode_utf8(link@).take(77));
            assert(encode_utf8(head@) == encode_utf8(link@).take(77));
            assert(decode_utf8(encode_utf8(link@).take(77)) == head@);
        }
        concat_str(head, "...")
    } else {
        proof {
            reveal_strlit("");
            assert(link@ + ""@ =~= link@);
        }
        concat_str(link, "")
    }
}

/// The address the encrypted paste is fetched from.
pub fn paste_api_url(paste_id: &str) -> (r: String)
    ensures
        r@ == "https://paste.fitgirl-repacks.site/?pasteid="@ + paste_id@,
{
    concat_str("https://paste.fitgirl-repacks.site/?pasteid=", paste_id)
}

/// The page the paste request names as its referrer.
pub fn paste_referer(paste_id: &str) -> (r: String)
    ensures
        r@ == "https://paste.fitgirl-repacks.site/?"@ + paste_id@,
{
    concat_str("https://paste.fitgirl-repacks.site/?", paste_id)
}

/// The text links are looked for in: the `paste` string of a JSON paste
/// wrapper when the text is one, else the text itself.
pub open spec fn paste_body(text: Seq<char>, doc: Option<JsonValue>) -> Seq<char> {
    match doc {
        Some(d) => match json_get(d, "paste"@) {
            Some(JsonValue::Str(s)) => s@,
            _ => text,
        },
        None => text,
    }
}

/// The characters cut from the end of a found link.
pub open spec fn is_link_tail(c: char) -> bool {
    c == '.' || c == ',' || c == ')' || c == ']' || c == '>'
}

/// A found link without the punctuation it ended with.
pub open spec fn trim_link_tail(m: Seq<char>) -> Seq<char> {
    drop_trailing(m, |c: char| is_link_tail(c))
}

/// The links in a text, each without its trailing punctuation, in the order found.
pub open spec fn found_links(body: Seq<char>) -> Seq<Seq<char>> {
    link_matches(body).map_values(|m: Seq<char>| trim_link_tail(m))
}

/// A found link without its trailing punctuation.
fn trim_link_tail_chars(m: &[char]) -> (r: Vec<char>)
    ensures
        r@ == trim_link_tail(m@),
{
    let mut b: usize = m.len();
    while b > 0 && (m[b - 1] == '.' || m[b - 1] == ',' || m[b - 1] == ')' || m[b - 1] == ']'
        || m[b - 1] == '>')
        invariant
            b <= m.len(),
            forall|j: int| b <= j < m.len() ==> is_link_tail(#[trigger] m@[j]),
        decreases b,
    {
        b = b - 1;
    }
    proof {
        lemma_drop_trailing(m@, |c: char| is_link_tail(c), b as int);
    }
    assert(m@.take(b as int) =~= m@.subrange(0, b as int));
    slice_chars(m, 0, b)
}

/// The download links in a page or paste text: every match of
/// `https://fuckingfast.co/…` without trailing punctuation, sorted, each once.
/// `doc` is the text read as JSON, when it is JSON.
pub fn extract_links(text: &str, doc: Option<&JsonValue>) -> (r: Vec<String>)
    ensures
        strictly_ascending(views_of(r@)),
        forall|k: int|
            0 <= k < r@.len() ==> starts_with_host(#[trigger] views_of(r@)[k]) && !is_link_tail(
                views_of(r@)[k].last(),
            ),
        forall|x: Seq<char>|
            views_of(r@).contains(x) <==> found_links(
                paste_body(text@, match doc {
                    Some(d) => Some(*d),
                    None => None,
                }),
            ).contains(x),
{
    let ghost d0 = match doc {
        Some(d) => Some(*d),
        None => None,
    };
    let body: &str = match doc {
        Some(d) => match json_get_exec(d, "paste") {
            Some(JsonValue::Str(s)) => s.as_str(),
            _ => text,
        },
        None => text,
    };
    assert(body@ == paste_body(text@, d0));
    let ms = match find_all_matches(r#"https://fuckingfast\.co/[^\s"'>]+"#, body) {
        Some(v) => v,
        None => {
            assert(false);
            Vec::new()
        },
    };
    let ghost found = found_links(body@);
    let mut out: Vec<Vec<char>> = Vec::new();
    let mut i: usize = 0;
    while i < ms.len()
        invariant
            i <= ms.len(),
            views_of(ms@) == link_matches(body@),
            found == found_links(body@),
            strictly_ascending(char_views(out@)),
            forall|x: Seq<char>|
                char_views(out@).contains(x) <==> found.take(i as int).contains(x),
        decreases ms.len() - i,
    {
        let cs = chars_of(ms[i].as_str());
        let t = trim_link_tail_chars(&cs);
        assert(views_of(ms@)[i as int] == ms@[i as int]@);
        assert(found[i as int] == t@);
        let ghost prev = char_views(out@);
        insert_ascending(&mut out, t);
        assert forall|x: Seq<char>|
            char_views(out@).contains(x) <==> found.take(i + 1).contains(x) by {
            let next = found.take(i + 1);
            let cur = found.take(i as int);
            if next.contains(x) {
                let k = choose|k: int| 0 <= k < next.len() && next[k] == x;
                if k < i {
                    assert(cur[k] == x);
                }
            }
            if cur.contains(x) {
                let k = choose|k: int| 0 <= k < cur.len() && cur[k] == x;
                assert(next[k] == x);
            }
            if x == t@ {
                assert(next[i as int] == x);
            }
        }
        i = i + 1;
    }
    assert(found.take(ms@.len() as int) =~= found);
    let r = strings_of(&out);
    assert(views_of(r@) == char_views(out@));
    assert forall|k: int| 0 <= k < r@.len() implies starts_with_host(
        #[trigger] views_of(r@)[k],
    ) && !is_link_tail(views_of(r@)[k].last()) by {
        let x = views_of(r@)[k];
        assert(views_of(r@).contains(x));
        let j = choose|j: int| 0 <= j < found.len() && found[j] == x;
        lemma_found_links_shape(body@, j);
    }
    r
}


/// The lines kept when `link` is taken out of the list: trimmed, without
/// `link` and without empty lines.
pub open spec fn lines_without(ls: Seq<Seq<char>>, link: Seq<char>) -> Seq<Seq<char>>
    decreases ls.len(),
{
    if ls.len() == 0 {
        seq![]
    } else {
        let rest = lines_without(ls.drop_last(), link);
        let t = trim_text(ls.last());
        if t == link || t.len() == 0 {
            rest
        } else {
            rest.push(t)
        }
    }
}

/// Whether some line of the list, trimmed, is `link`.
pub open spec fn has_link_line(ls: Seq<Seq<char>>, link: Seq<char>) -> bool {
    exists|i: int| 0 <= i < ls.len() && trim_text(#[trigger] ls[i]) == link
}

/// The new list after a finished download: `None` when no line is the link
/// (the list is left alone), else the other non-empty lines, trimmed, each
/// ended by a newline.
pub open spec fn list_without_link(content: Seq<char>, link: Seq<char>) -> Option<Seq<char>> {
    let ls = text_lines(content);
    if has_link_line(ls, link) {
        Some(join_with(lines_without(ls, link), seq!['\n']) + seq!['\n'])
    } else {
        None
    }
}

/// Takes a downloaded link out of the text of the link list.
pub fn remove_link_from(content: &str, link: &str) -> (r: Option<String>)
    ensures
        match r {
            Some(s) => list_without_link(content@, link@) == Some(s@),
            None => list_without_link(content@, link@) is None,
        },
{
    let cs = chars_of(content);
    let target = chars_of(link);
    let ls = lines_chars(&cs);
    let ghost lv = char_views(ls@);
    let mut kept: Vec<String> = Vec::new();
    let mut removed = false;
    let mut i: usize = 0;
    while i < ls.len()
        invariant
            i <= ls.len(),
            lv == char_views(ls@),
            lv == text_lines(content@),
            target@ == link@,
            kept@.map_values(|s: String| s@) == lines_without(lv.take(i as int), link@),
            removed == has_link_line(lv.take(i as int), link@),
        decreases ls.len() - i,
    {
        let t = trim_chars(&ls[i]);
        let ghost cur = lv.take(i as int);
        let ghost next = lv.take(i + 1);
        assert(next.drop_last() =~= cur);
        assert(next.last() == ls@[i as int]@);
        let same = crate::text::text_equal(&t, &target);
        if same {
            removed = true;
            assert(trim_text(next[i as int]) == link@);
        } else {
            if t.len() > 0 {
                let ghost prev = kept@;
                kept.push(string_of(&t));
                assert(kept@.map_values(|s: String| s@) =~= prev.map_values(|s: String| s@).push(
                    t@,
                ));
            }
        }
        assert(has_link_line(next, link@) == (has_link_line(cur, link@) || trim_text(next[i as int])
            == link@)) by {
            if has_link_line(next, link@) {
                let k = choose|k: int| 0 <= k < next.len() && trim_text(#[trigger] next[k]) == link@;
                if k < i {
                    assert(cur[k] == next[k]);
                }
            }
            if has_link_line(cur, link@) {
                let k = choose|k: int| 0 <= k < cur.len() && trim_text(#[trigger] cur[k]) == link@;
                assert(cur[k] == next[k]);
            }
        }
        i = i + 1;
    }
    assert(lv.take(ls@.len() as int) =~= lv);
    if removed {
        let joined = join_lines(&kept);
        let mut out = chars_of(joined.as_str());
        out.push('\n');
        Some(string_of(&out))
    } else {
        None
    }
}

/// The lines that stay when the command-line downloader takes a link out:
/// every line whose trimmed text is not the link, as it was.
pub open spec fn lines_other_than(ls: Seq<Seq<char>>, link: Seq<char>) -> Seq<Seq<char>>
    decreases ls.len(),
{
    if ls.len() == 0 {
        seq![]
    } else {
        let rest = lines_other_than(ls.drop_last(), link);
        if trim_text(ls.last()) == link {
            rest
        } else {
            rest.push(ls.last())
        }
    }
}

/// The link list after the command-line downloader took `link` out: the
/// other lines joined by newlines.
pub fn drop_link_lines(content: &str, link: &str) -> (r: String)
    ensures
        r@ == join_with(lines_other_than(text_lines(content@), link@), seq!['\n']),
        r@ == join_with(text_lines(content@).filter(|l: Seq<char>| trim_text(l) != link@), seq!['\n']),
        forall|i: int| 0 <= i < text_lines(r@).len() ==> trim_text(#[trigger] text_lines(r@)[i]) != link@,
{
    proof {
        lemma_dropped_link_gone(content@, link@);
    }
    let cs = chars_of(content);
    let target = chars_of(link);
    let ls = lines_chars(&cs);
    let ghost lv = char_views(ls@);
    let mut kept: Vec<String> = Vec::new();
    let mut i: usize = 0;
    while i < ls.len()
        invariant
            i <= ls.len(),
            lv == char_views(ls@),
            lv == text_lines(content@),
            target@ == link@,
            kept@.map_values(|s: String| s@) == lines_other_than(lv.take(i as int), link@),
        decreases ls.len() - i,
    {
        let t = trim_chars(&ls[i]);
        let ghost next = lv.take(i + 1);
        assert(next.drop_last() =~= lv.take(i as int));
        assert(next.last() == ls@[i as int]@);
        if !crate::text::text_equal(&t, &target) {
            let ghost prev = kept@;
            kept.push(string_of(&ls[i]));
            assert(kept@.map_values(|s: String| s@) =~= prev.map_values(|s: String| s@).push(
                ls@[i as int]@,
            ));
        }
        i = i + 1;
    }
    assert(lv.take(ls@.len() as int) =~= lv);
    join_lines(&kept)
}

/// How the user wants to give the links.
pub enum InputMode {
    /// Type or paste the links.
    Manual,
    /// Fetch a page and pick from the links found on it.
    AutoScrape,
}

/// The input mode for the answer to the menu: `2`, trimmed, picks scraping;
/// any other answer picks typing the links.
pub fn input_mode_for(choice: &str) -> (r: InputMode)
    ensures
        r is AutoScrape <==> trim_text(choice@) == seq!['2'],
{
    let cs = chars_of(choice);
    let t = trim_chars(&cs);
    if t.len() == 1 && t[0] == '2' {
        assert(t@ =~= seq!['2']);
        InputMode::AutoScrape
    } else {
        InputMode::Manual
    }
}

/// The links picked from a list by their positions.
pub fn pick_links(all: &Vec<String>, picked: &Vec<usize>) -> (r: Vec<String>)
    requires
        forall|k: int| 0 <= k < picked.len() ==> picked@[k] < all.len(),
    ensures
        r.len() == picked.len(),
        forall|k: int| 0 <= k < picked.len() ==> #[trigger] r@[k]@ == all@[picked@[k] as int]@,
{
    let mut r: Vec<String> = Vec::new();
    let mut i: usize = 0;
    while i < picked.len()
        invariant
            i <= picked.len(),
            forall|k: int| 0 <= k < picked.len() ==> picked@[k] < all.len(),
            r.len() == i,
            forall|k: int| 0 <= k < i ==> #[trigger] r@[k]@ == all@[picked@[k] as int]@,
        decreases picked.len() - i,
    {
        r.push(all[picked[i]].clone());
        i = i + 1;
    }
    r
}


/// Whether `x` starts with the host address of the download links.
pub open spec fn starts_with_host(x: Seq<char>) -> bool {
    x.len() >= link_host_prefix().len() && x.take(link_host_prefix().len() as int)
        == link_host_prefix()
}

/// Every match of the link pattern is the host address followed by at least one character.
proof fn lemma_matches_start_with_host(t: Seq<char>, i: int)
    ensures
        forall|j: int|
            0 <= j < link_matches_from(t, i).len() ==> starts_with_host(
                #[trigger] link_matches_from(t, i)[j],
            ) && link_matches_from(t, i)[j].len() > link_host_prefix().len(),
    decreases t.len() - i,
{
    if i < 0 || i >= t.len() {
    } else {
        let k = i + link_host_prefix().len();
        if occurs_at(t, link_host_prefix(), i) && k < t.len() && link_char(t[k]) {
            let e = run_end(t, k, |c: char| link_char(c));
            lemma_run_end(t, k, |c: char| link_char(c));
            lemma_matches_start_with_host(t, e);
            let m = t.subrange(i, e);
            assert(m.take(link_host_prefix().len() as int) =~= t.subrange(i, k));
            assert(link_matches_from(t, i) == seq![m] + link_matches_from(t, e));
            assert forall|j: int| 0 <= j < link_matches_from(t, i).len() implies starts_with_host(
                #[trigger] link_matches_from(t, i)[j],
            ) && link_matches_from(t, i)[j].len() > link_host_prefix().len() by {
                if j > 0 {
                    assert(link_matches_from(t, i)[j] == link_matches_from(t, e)[j - 1]);
                }
            }
        } else {
            assert(link_matches_from(t, i) == link_matches_from(t, i + 1));
            lemma_matches_start_with_host(t, i + 1);
        }
    }
}

/// Cutting trailing punctuation never reaches into the host address, whose
/// last character is `/`.
proof fn lemma_trim_keeps_host(m: Seq<char>)
    requires
        starts_with_host(m),
    ensures
        starts_with_host(trim_link_tail(m)),
        !is_link_tail(trim_link_tail(m).last()),
    decreases m.len(),
{
    let n = link_host_prefix().len() as int;
    assert(m[n - 1] == m.take(n)[n - 1]);
    assert(link_host_prefix()[n - 1] == '/');
    if m.len() > 0 && is_link_tail(m.last()) {
        let t = m.drop_last();
        assert(t.len() >= n);
        assert(t.take(n) =~= m.take(n));
        lemma_trim_keeps_host(t);
    }
}

/// Every link in the found list starts with the host address and does not
/// end in the punctuation that is cut.
pub proof fn lemma_found_links_shape(body: Seq<char>, k: int)
    requires
        0 <= k < found_links(body).len(),
    ensures
        starts_with_host(found_links(body)[k]),
        !is_link_tail(found_links(body)[k].last()),
{
    lemma_matches_start_with_host(body, 0);
    lemma_trim_keeps_host(link_matches(body)[k]);
}

/// The lines kept when a link is taken out are non-empty, trimmed, on one
/// line, and not the link.
proof fn lemma_lines_without_clean(ls: Seq<Seq<char>>, link: Seq<char>)
    requires
        forall|i: int| 0 <= i < ls.len() ==> !(#[trigger] ls[i]).contains('\n'),
    ensures
        forall|i: int|
            0 <= i < lines_without(ls, link).len() ==> {
                let x = #[trigger] lines_without(ls, link)[i];
                &&& x.len() > 0
                &&& x != link
                &&& trim_text(x) == x
                &&& !x.contains('\n')
                &&& strip_cr(x) == x
            },
    decreases ls.len(),
{
    if ls.len() > 0 {
        let init = ls.drop_last();
        assert forall|i: int| 0 <= i < init.len() implies !(#[trigger] init[i]).contains('\n') by {
            assert(init[i] == ls[i]);
        }
        lemma_lines_without_clean(init, link);
        let s = ls.last();
        let t = trim_text(s);
        lemma_trim_shape(s);
        if t.len() > 0 {
            lemma_trim_fixed(t);
        }
        assert(!t.contains('\n')) by {
            let (a, b) = choose|a: int, b: int| 0 <= a <= b <= s.len() && t == s.subrange(a, b);
            if t.contains('\n') {
                let k = choose|k: int| 0 <= k < t.len() && t[k] == '\n';
                assert(s[a + k] == '\n');
                assert(s.contains('\n'));
            }
        }
        let rest = lines_without(init, link);
        let r = lines_without(ls, link);
        assert forall|i: int| 0 <= i < r.len() implies {
            let x = #[trigger] r[i];
            &&& x.len() > 0
            &&& x != link
            &&& trim_text(x) == x
            &&& !x.contains('\n')
            &&& strip_cr(x) == x
        } by {
            if i < rest.len() {
                assert(r[i] == rest[i]);
            } else {
                assert(r[i] == t);
                assert(crate::text::is_white_space('\r'));
            }
        }
    }
}

/// Taking a downloaded link out of the list takes it out for good: reading
/// the new list gives the other links in their order, and taking the same
/// link out again leaves the list as it is (for a non-empty link, it finds
/// nothing to take).
pub proof fn lemma_removed_link_is_gone(content: Seq<char>, link: Seq<char>)
    requires
        list_without_link(content, link) is Some,
    ensures
        kept_lines(text_lines(list_without_link(content, link)->0)) == lines_without(
            text_lines(content),
            link,
        ),
        match list_without_link(list_without_link(content, link)->0, link) {
            Some(again) => again == list_without_link(content, link)->0,
            None => true,
        },
        link.len() > 0 ==> list_without_link(list_without_link(content, link)->0, link) is None,
{
    let ls = text_lines(content);
    let kept = lines_without(ls, link);
    let new = list_without_link(content, link)->0;
    lemma_lines_have_no_newline(content);
    lemma_lines_without_clean(ls, link);
    if kept.len() == 0 {
        lemma_lines_of_newline();
        assert(new =~= seq!['\n']);
        let nl = text_lines(new);
        assert(nl == seq![Seq::<char>::empty()]);
        let none = Seq::<Seq<char>>::empty();
        assert(kept_lines(nl) =~= kept) by {
            assert(kept_lines(none) == none);
            assert(nl.drop_last() =~= none);
            assert(trim_text(nl.last()) =~= Seq::<char>::empty());
            assert(kept =~= none);
        }
        assert(trim_text(nl[0]) =~= Seq::<char>::empty());
        if link.len() > 0 {
            assert(!has_link_line(nl, link)) by {
                if has_link_line(nl, link) {
                    let i = choose|i: int| 0 <= i < nl.len() && trim_text(#[trigger] nl[i]) == link;
                }
            }
        } else {
            assert(link =~= Seq::<char>::empty());
            assert(has_link_line(nl, link));
            assert(lines_without(none, link) == none);
            assert(nl.drop_last() =~= none);
            assert(lines_without(nl, link) =~= none);
            assert(join_with(none, seq!['\n']) == Seq::<char>::empty());
            assert(join_with(lines_without(nl, link), seq!['\n']) + seq!['\n'] =~= new);
        }
    } else {
        lemma_lines_of_terminated(kept);
        assert(text_lines(new) == kept);
        assert forall|i: int| 0 <= i < kept.len() implies (#[trigger] kept[i]).len() > 0 && trim_text(
            kept[i],
        ) == kept[i] by {}
        lemma_kept_clean(kept);
        assert(!has_link_line(kept, link)) by {
            if has_link_line(kept, link) {
                let i = choose|i: int| 0 <= i < kept.len() && trim_text(#[trigger] kept[i]) == link;
                if link.len() == 0 {
                    assert(kept[i].len() > 0);
                }
            }
        }
    }
}

/// The lines kept by the command-line downloader are exactly the lines
/// whose trimmed text is not the link, in order; none of them is the link.
proof fn lemma_other_than_filter(ls: Seq<Seq<char>>, link: Seq<char>)
    ensures
        lines_other_than(ls, link) == ls.filter(|l: Seq<char>| trim_text(l) != link),
        forall|i: int|
            0 <= i < lines_other_than(ls, link).len() ==> trim_text(
                #[trigger] lines_other_than(ls, link)[i],
            ) != link && ls.contains(lines_other_than(ls, link)[i]),
    decreases ls.len(),
{
    reveal(Seq::filter);
    if ls.len() > 0 {
        let p = ls.drop_last();
        lemma_other_than_filter(p, link);
        let k = lines_other_than(ls, link);
        let r = lines_other_than(p, link);
        assert forall|i: int| 0 <= i < k.len() implies trim_text(#[trigger] k[i]) != link && ls.contains(k[i]) by {
            if i < r.len() {
                assert(k[i] == r[i]);
                let j = choose|j: int| 0 <= j < p.len() && p[j] == r[i];
                assert(ls[j] == p[j]);
            } else {
                assert(k[i] == ls.last());
                assert(ls[ls.len() - 1] == ls.last());
            }
        }
    }
}

/// When the command-line downloader takes a finished link off the list,
/// every line equal to it (trimmed) goes: the new list holds exactly the
/// other lines, in order, and reading it back finds no line that is the link.
pub proof fn lemma_dropped_link_gone(content: Seq<char>, link: Seq<char>)
    ensures
        lines_other_than(text_lines(content), link) == text_lines(content).filter(
            |l: Seq<char>| trim_text(l) != link,
        ),
        forall|i: int|
            0 <= i < text_lines(join_with(lines_other_than(text_lines(content), link), seq!['\n'])).len()
                ==> trim_text(
                #[trigger] text_lines(join_with(lines_other_than(text_lines(content), link), seq!['\n']))[i],
            ) != link,
{
    let ls = text_lines(content);
    let k = lines_other_than(ls, link);
    lemma_other_than_filter(ls, link);
    lemma_lines_have_no_newline(content);
    assert forall|i: int| 0 <= i < k.len() implies !(#[trigger] k[i]).contains('\n') by {
        let j = choose|j: int| 0 <= j < ls.len() && ls[j] == k[i];
        assert(!ls[j].contains('\n'));
    }
    crate::lines::lemma_lines_of_joined_trimmed(k);
}

} // verus!
