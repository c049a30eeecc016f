//! Sorting download links into part files, optional files and the rest.
use vstd::prelude::*;
use crate::text::{
    chars_of, string_of, second_field, second_field_chars, contains_text, contains_chars,
    parse_u32_text, parse_u32_chars, text_lt, compare_text, TextOrder, lemma_text_lt_transitive,
    lemma_text_lt_total, lemma_text_lt_irreflexive,
};
use crate::patterns::{first_capture, regex_first_capture, part_pattern, capture_view};

verus! {

/// What kind of file a link downloads.
#[derive(PartialEq, Eq, Structural, Clone, Copy)]
pub enum LinkCategory {
    /// One numbered part of the game archive.
    Part(u32),
    /// An optional file (language packs, bonus content).
    Optional,
    /// Anything else.
    Other,
}

/// A link in the list, with whether it is selected and its kind.
pub struct LinkEntry {
    pub url: String,
    pub selected: bool,
    pub category: LinkCategory,
}

/// The kind of a link: optional when its fragment holds `fg-optional-`,
/// a part when its fragment matches `\.part(\d+)` (numbered by the digits,
/// or 0 when they do not make a `u32`), and other otherwise.
pub open spec fn category_of(url: Seq<char>) -> LinkCategory {
    match second_field(url, '#') {
        Some(f) => if contains_text(f, "fg-optional-"@) {
            LinkCategory::Optional
        } else {
            match regex_first_capture(part_pattern(), f) {
                Some(Some((_, d))) => LinkCategory::Part(
                    match parse_u32_text(d) {
                        Some(n) => n,
                        None => 0,
                    },
                ),
                _ => LinkCategory::Other,
            }
        },
        None => LinkCategory::Other,
    }
}

/// The kind of a link whose fragment has no `fg-optional-`, given what the
/// part pattern captured in the fragment: a part numbered by the captured
/// digits (0 when they do not make a `u32`), or another link.
pub fn part_category(cap: Option<Option<(String, String)>>) -> (r: LinkCategory)
    ensures
        r == match capture_view(cap) {
            Some(Some((_, d))) => LinkCategory::Part(
                match parse_u32_text(d) {
                    Some(n) => n,
                    None => 0,
                },
            ),
            _ => LinkCategory::Other,
        },
{
    match cap {
        Some(Some((_, d))) => {
            let ds = chars_of(d.as_str());
            match parse_u32_chars(&ds) {
                Some(n) => LinkCategory::Part(n),
                None => LinkCategory::Part(0),
            }
        },
        _ => LinkCategory::Other,
    }
}

/// The kind of a link.
pub fn classify_link(url: &str) -> (r: LinkCategory)
    ensures
        r == category_of(url@),
{
    let cs = chars_of(url);
    match second_field_chars(&cs, '#') {
        Some(f) => {
            let marker = chars_of("fg-optional-");
            if contains_chars(&f, &marker) {
                return LinkCategory::Optional;
            }
            let fragment = string_of(&f);
            part_category(first_capture(r"\.part(\d+)", fragment.as_str()))
        },
        None => LinkCategory::Other,
    }
}

/// 0 for parts, 1 for optional files, 2 for the rest.
pub open spec fn category_rank(c: LinkCategory) -> int {
    match c {
        LinkCategory::Part(_) => 0,
        LinkCategory::Optional => 1,
        LinkCategory::Other => 2,
    }
}

/// The positions of the entries of rank `rank`, in order.
pub open spec fn indices_of_rank(ls: Seq<LinkEntry>, rank: int) -> Seq<usize>
    decreases ls.len(),
{
    if ls.len() == 0 {
        seq![]
    } else {
        let rest = indices_of_rank(ls.drop_last(), rank);
        if category_rank(ls.last().category) == rank {
            rest.push((ls.len() - 1) as usize)
        } else {
            rest
        }
    }
}

/// The positions of the part files, of the optional files and of the other
/// links, each in list order.
pub fn build_categories(links: &[LinkEntry]) -> (r: (Vec<usize>, Vec<usize>, Vec<usize>))
    ensures
        r.0@ == indices_of_rank(links@, 0),
        r.1@ == indices_of_rank(links@, 1),
        r.2@ == indices_of_rank(links@, 2),
{
    let mut p: Vec<usize> = Vec::new();
    let mut o: Vec<usize> = Vec::new();
    let mut x: Vec<usize> = Vec::new();
    let mut i: usize = 0;
    while i < links.len()
        invariant
            i <= links.len(),
            p@ == indices_of_rank(links@.take(i as int), 0),
            o@ == indices_of_rank(links@.take(i as int), 1),
            x@ == indices_of_rank(links@.take(i as int), 2),
        decreases links.len() - i,
    {
        let ghost next = links@.take(i + 1);
        assert(next.drop_last() =~= links@.take(i as int));
        assert(next.last() == links@[i as int]);
        match links[i].category {
            LinkCategory::Part(_) => p.push(i),
            LinkCategory::Optional => o.push(i),
            LinkCategory::Other => x.push(i),
        }
        i = i + 1;
    }
    assert(links@.take(links@.len() as int) =~= links@);
    (p, o, x)
}


/// The order key of an entry: parts by number, then optional files by URL,
/// then the other links by URL.
pub open spec fn entry_key(e: LinkEntry) -> (int, int, Seq<char>) {
    match e.category {
        LinkCategory::Part(n) => (0, n as int, seq![]),
        LinkCategory::Optional => (1, 0, e.url@),
        LinkCategory::Other => (2, 0, e.url@),
    }
}

/// The strict order of keys.
pub open spec fn key_lt(a: (int, int, Seq<char>), b: (int, int, Seq<char>)) -> bool {
    a.0 < b.0 || (a.0 == b.0 && (a.1 < b.1 || (a.1 == b.1 && text_lt(a.2, b.2))))
}

/// The key order is a strict total order.
pub proof fn lemma_key_order(a: (int, int, Seq<char>), b: (int, int, Seq<char>), c: (int, int, Seq<char>))
    ensures
        !key_lt(a, a),
        key_lt(a, b) && key_lt(b, c) ==> key_lt(a, c),
        a != b ==> key_lt(a, b) || key_lt(b, a),
        !(key_lt(a, b) && key_lt(b, a)),
{
    lemma_text_lt_irreflexive(a.2);
    lemma_text_lt_total(a.2, b.2);
    if key_lt(a, b) && key_lt(b, c) && a.0 == b.0 && b.0 == c.0 && a.1 == b.1 && b.1 == c.1 {
        lemma_text_lt_transitive(a.2, b.2, c.2);
    }
}

/// The entries whose key is `k`, in order.
pub open spec fn keyed(s: Seq<LinkEntry>, k: (int, int, Seq<char>)) -> Seq<LinkEntry>
    decreases s.len(),
{
    if s.len() == 0 {
        seq![]
    } else {
        let rest = keyed(s.drop_last(), k);
        if entry_key(s.last()) == k {
            rest.push(s.last())
        } else {
            rest
        }
    }
}

/// Picking by key distributes over concatenation.
proof fn lemma_keyed_concat(a: Seq<LinkEntry>, b: Seq<LinkEntry>, k: (int, int, Seq<char>))
    ensures
        keyed(a + b, k) == keyed(a, k) + keyed(b, k),
    decreases b.len(),
{
    if b.len() == 0 {
        assert(a + b =~= a);
        assert(keyed(a, k) + keyed(b, k) =~= keyed(a, k));
    } else {
        lemma_keyed_concat(a, b.drop_last(), k);
        assert((a + b).drop_last() =~= a + b.drop_last());
        assert((a + b).last() == b.last());
        if entry_key(b.last()) == k {
            assert(keyed(a + b, k) =~= keyed(a, k) + keyed(b, k));
        } else {
            assert(keyed(a + b, k) =~= keyed(a, k) + keyed(b, k));
        }
    }
}

/// No entry of the list has key `k`.
proof fn lemma_keyed_none(s: Seq<LinkEntry>, k: (int, int, Seq<char>))
    requires
        forall|j: int| 0 <= j < s.len() ==> entry_key(#[trigger] s[j]) != k,
    ensures
        keyed(s, k) == Seq::<LinkEntry>::empty(),
    decreases s.len(),
{
    if s.len() > 0 {
        lemma_keyed_none(s.drop_last(), k);
    }
}

/// The entry made for a URL before sorting: selected, with its kind.
pub open spec fn new_entry(u: String) -> LinkEntry {
    LinkEntry { url: u, selected: true, category: category_of(u@) }
}

/// The entries made for a list of URLs, in the list's order.
pub open spec fn new_entries(urls: Seq<String>) -> Seq<LinkEntry> {
    urls.map_values(|u: String| new_entry(u))
}

/// No entry is after a later one.
pub open spec fn entries_sorted(s: Seq<LinkEntry>) -> bool {
    forall|i: int, j: int|
        0 <= i < j < s.len() ==> !key_lt(entry_key(#[trigger] s[j]), entry_key(#[trigger] s[i]))
}

/// Whether `a` goes before `b`.
fn entry_before(a: &LinkEntry, b: &LinkEntry) -> (r: bool)
    ensures
        r == key_lt(entry_key(*a), entry_key(*b)),
{
    match (a.category, b.category) {
        (LinkCategory::Part(x), LinkCategory::Part(y)) => x < y,
        (LinkCategory::Part(_), _) => true,
        (_, LinkCategory::Part(_)) => false,
        (LinkCategory::Optional, LinkCategory::Other) => true,
        (LinkCategory::Other, LinkCategory::Optional) => false,
        _ => {
            let x = chars_of(a.url.as_str());
            let y = chars_of(b.url.as_str());
            match compare_text(&x, &y) {
                TextOrder::Less => true,
                _ => false,
            }
        },
    }
}

/// Entries for the URLs, each selected and of its kind, sorted stably by
/// kind: parts by number, then optional files by URL, then the rest by URL.
/// Entries with the same key keep their order.
pub fn categorize_entries(urls: Vec<String>) -> (r: Vec<LinkEntry>)
    ensures
        categorized(urls@, r@),
        r.len() == urls.len(),
        entries_sorted(r@),
        forall|k: (int, int, Seq<char>)| keyed(r@, k) == keyed(new_entries(urls@), k),
        forall|i: int|
            0 <= i < r.len() ==> (#[trigger] r@[i]).selected && r@[i].category == category_of(
                r@[i].url@,
            ),
{
    let ghost init = new_entries(urls@);
    let mut out: Vec<LinkEntry> = Vec::new();
    let mut i: usize = 0;
    while i < urls.len()
        invariant
            i <= urls.len(),
            init == new_entries(urls@),
            out.len() == i,
            entries_sorted(out@),
            forall|k: (int, int, Seq<char>)| keyed(out@, k) == keyed(init.take(i as int), k),
            forall|j: int|
                0 <= j < out.len() ==> (#[trigger] out@[j]).selected && out@[j].category
                    == category_of(out@[j].url@),
        decreases urls.len() - i,
    {
        let u = urls[i].clone();
        let category = classify_link(u.as_str());
        let x = LinkEntry { url: u, selected: true, category };
        assert(x == init[i as int]);
        let mut p: usize = 0;
        while p < out.len() && !entry_before(&x, &out[p])
            invariant
                p <= out.len(),
                forall|j: int|
                    0 <= j < p ==> !key_lt(entry_key(x), entry_key(#[trigger] out@[j])),
            decreases out.len() - p,
        {
            p = p + 1;
        }
        let ghost before = out@;
        let ghost kx = entry_key(x);
        proof {
            // Everything from `p` on comes strictly after `x`.
            assert forall|j: int| p <= j < before.len() implies key_lt(
                kx,
                entry_key(#[trigger] before[j]),
            ) by {
                lemma_key_order(kx, entry_key(before[p as int]), entry_key(before[j]));
                lemma_key_order(entry_key(before[p as int]), entry_key(before[j]), kx);
                assert(key_lt(kx, entry_key(before[p as int])));
            }
        }
        out.insert(p, x);
        proof {
            let after = out@;
            assert(after =~= before.take(p as int) + seq![x] + before.skip(p as int));
            assert forall|a: int, b: int| 0 <= a < b < after.len() implies !key_lt(
                entry_key(#[trigger] after[b]),
                entry_key(#[trigger] after[a]),
            ) by {
                if b < p {
                } else if b == p {
                    lemma_key_order(entry_key(before[a]), kx, kx);
                } else if a == p {
                    lemma_key_order(kx, entry_key(before[b - 1]), kx);
                } else if a < p {
                    lemma_key_order(entry_key(before[a]), kx, entry_key(before[b - 1]));
                    lemma_key_order(entry_key(before[b - 1]), entry_key(before[a]), kx);
                    lemma_key_order(kx, entry_key(before[b - 1]), entry_key(before[a]));
                } else {
                    assert(after[a] == before[a - 1]);
                    assert(after[b] == before[b - 1]);
                }
            }
            assert forall|k: (int, int, Seq<char>)| keyed(after, k) == keyed(
                init.take(i + 1),
                k,
            ) by {
                lemma_keyed_concat(before.take(p as int) + seq![x], before.skip(p as int), k);
                lemma_keyed_concat(before.take(p as int), seq![x], k);
                lemma_keyed_concat(before.take(p as int), before.skip(p as int), k);
                assert(before.take(p as int) + before.skip(p as int) =~= before);
                assert(init.take(i + 1) =~= init.take(i as int).push(x));
                assert(keyed(seq![x], k) =~= if kx == k { seq![x] } else { seq![] }) by {
                    assert(seq![x].drop_last() =~= Seq::<LinkEntry>::empty());
                    assert(keyed(Seq::<LinkEntry>::empty(), k) =~= Seq::<LinkEntry>::empty());
                    assert(keyed(seq![x].drop_last(), k) =~= Seq::<LinkEntry>::empty());
                }
                let ti = init.take(i as int);
                assert(init.take(i + 1).drop_last() =~= ti);
                assert(init.take(i + 1).last() == x);
                assert(keyed(init.take(i + 1), k) == if kx == k { keyed(ti, k).push(x) } else { keyed(ti, k) });
                if kx == k {
                    assert forall|j: int| 0 <= j < before.skip(p as int).len() implies entry_key(
                        #[trigger] before.skip(p as int)[j],
                    ) != k by {
                        lemma_key_order(kx, kx, kx);
                        assert(key_lt(kx, entry_key(before[p + j])));
                    }
                    lemma_keyed_none(before.skip(p as int), k);
                    assert(keyed(after, k) =~= keyed(before, k).push(x));
                } else {
                    assert(keyed(after, k) =~= keyed(before, k));
                }
            }
            assert forall|j: int| 0 <= j < after.len() implies (#[trigger] after[j]).selected
                && after[j].category == category_of(after[j].url@) by {
                if j < p {
                    assert(after[j] == before[j]);
                } else if j > p {
                    assert(after[j] == before[j - 1]);
                }
            }
        }
        i = i + 1;
    }
    assert(init.take(urls@.len() as int) =~= init);
    out
}

/// What `categorize_entries` promises of its result `r` for `urls`.
pub open spec fn categorized(urls: Seq<String>, r: Seq<LinkEntry>) -> bool {
    &&& r.len() == urls.len()
    &&& entries_sorted(r)
    &&& forall|k: (int, int, Seq<char>)| keyed(r, k) == keyed(new_entries(urls), k)
    &&& forall|i: int|
        0 <= i < r.len() ==> (#[trigger] r[i]).selected && r[i].category == category_of(r[i].url@)
}

/// The URLs of a list of entries.
pub open spec fn entry_urls(s: Seq<LinkEntry>) -> Seq<String> {
    s.map_values(|e: LinkEntry| e.url)
}

/// The rank of an entry is the first part of its key.
proof fn lemma_key_rank(e: LinkEntry)
    ensures
        entry_key(e).0 == category_rank(e.category),
{
}

/// In a sorted list no entry has a larger key than the last one.
proof fn lemma_last_is_largest(s: Seq<LinkEntry>, i: int)
    requires
        entries_sorted(s),
        0 <= i < s.len(),
    ensures
        !key_lt(entry_key(s.last()), entry_key(s[i])),
        category_rank(s[i].category) <= category_rank(s.last().category),
{
    if i < s.len() - 1 {
        assert(!key_lt(entry_key(s[s.len() - 1]), entry_key(s[i])));
    } else {
        lemma_key_order(entry_key(s[i]), entry_key(s[i]), entry_key(s[i]));
    }
    lemma_key_rank(s[i]);
    lemma_key_rank(s.last());
}

/// Two sorted lists that hold the same entries of each key are the same list.
proof fn lemma_sorted_unique(s: Seq<LinkEntry>, t: Seq<LinkEntry>)
    requires
        entries_sorted(s),
        entries_sorted(t),
        forall|k: (int, int, Seq<char>)| keyed(s, k) == keyed(t, k),
    ensures
        s == t,
    decreases s.len() + t.len(),
{
    if s.len() == 0 && t.len() == 0 {
        assert(s =~= t);
    } else if s.len() == 0 {
        let k = entry_key(t.last());
        assert(keyed(t, k).len() > 0);
        assert(keyed(s, k).len() == 0);
    } else if t.len() == 0 {
        let k = entry_key(s.last());
        assert(keyed(s, k).len() > 0);
        assert(keyed(t, k).len() == 0);
    } else {
        let x = s.last();
        let y = t.last();
        let kx = entry_key(x);
        let ky = entry_key(y);
        lemma_keyed_member(s, ky);
        lemma_keyed_member(t, kx);
        assert(keyed(t, ky).len() > 0);
        let i = choose|i: int| 0 <= i < s.len() && entry_key(#[trigger] s[i]) == ky;
        let j = choose|j: int| 0 <= j < t.len() && entry_key(#[trigger] t[j]) == kx;
        lemma_last_is_largest(s, i);
        lemma_last_is_largest(t, j);
        lemma_key_order(kx, ky, kx);
        assert(kx == ky);
        assert(keyed(s, kx).last() == x);
        assert(keyed(t, kx).last() == y);
        let s1 = s.drop_last();
        let t1 = t.drop_last();
        assert forall|k: (int, int, Seq<char>)| keyed(s1, k) == keyed(t1, k) by {
            if k == kx {
                assert(keyed(s1, k) =~= keyed(s, k).drop_last());
                assert(keyed(t1, k) =~= keyed(t, k).drop_last());
            } else {
                assert(keyed(s, k) == keyed(s1, k));
                assert(keyed(t, k) == keyed(t1, k));
            }
        }
        assert forall|a: int, b: int| 0 <= a < b < s1.len() implies !key_lt(
            entry_key(#[trigger] s1[b]),
            entry_key(#[trigger] s1[a]),
        ) by {
            assert(s1[a] == s[a] && s1[b] == s[b]);
        }
        assert forall|a: int, b: int| 0 <= a < b < t1.len() implies !key_lt(
            entry_key(#[trigger] t1[b]),
            entry_key(#[trigger] t1[a]),
        ) by {
            assert(t1[a] == t[a] && t1[b] == t[b]);
        }
        lemma_sorted_unique(s1, t1);
        assert(s =~= s1.push(x));
        assert(t =~= t1.push(y));
    }
}

/// An entry of key `k` is in the list exactly when the entries of key `k`
/// are not none.
proof fn lemma_keyed_member(s: Seq<LinkEntry>, k: (int, int, Seq<char>))
    ensures
        keyed(s, k).len() > 0 <==> exists|i: int| 0 <= i < s.len() && entry_key(#[trigger] s[i]) == k,
    decreases s.len(),
{
    if s.len() > 0 {
        let p = s.drop_last();
        lemma_keyed_member(p, k);
        if exists|i: int| 0 <= i < p.len() && entry_key(#[trigger] p[i]) == k {
            let i = choose|i: int| 0 <= i < p.len() && entry_key(#[trigger] p[i]) == k;
            assert(s[i] == p[i]);
        }
        if exists|i: int| 0 <= i < s.len() && entry_key(#[trigger] s[i]) == k {
            let i = choose|i: int| 0 <= i < s.len() && entry_key(#[trigger] s[i]) == k;
            if i < p.len() {
                assert(p[i] == s[i]);
            }
        }
    }
}

/// Sorting links already sorted changes nothing: the entries made again
/// from the URLs of a sorted list, sorted again, are that list.
pub proof fn lemma_categorize_idempotent(urls: Seq<String>, r: Seq<LinkEntry>, r2: Seq<LinkEntry>)
    requires
        categorized(urls, r),
        categorized(entry_urls(r), r2),
    ensures
        r2 == r,
{
    assert(new_entries(entry_urls(r)) =~= r) by {
        assert forall|i: int| 0 <= i < r.len() implies new_entries(entry_urls(r))[i] == r[i] by {
            assert(r[i].selected && r[i].category == category_of(r[i].url@));
        }
    }
    lemma_sorted_unique(r2, r);
}

/// The positions of each kind in a sorted list are three ranges one after
/// the other: the parts from 0, then the optional files, then the rest.
pub proof fn lemma_sorted_kinds_contiguous(ls: Seq<LinkEntry>)
    requires
        entries_sorted(ls),
        ls.len() <= usize::MAX,
    ensures
        indices_of_rank(ls, 0).len() + indices_of_rank(ls, 1).len() + indices_of_rank(ls, 2).len()
            == ls.len(),
        forall|i: int| 0 <= i < indices_of_rank(ls, 0).len() ==> #[trigger] indices_of_rank(ls, 0)[i] == i,
        forall|i: int|
            0 <= i < indices_of_rank(ls, 1).len() ==> #[trigger] indices_of_rank(ls, 1)[i]
                == indices_of_rank(ls, 0).len() + i,
        forall|i: int|
            0 <= i < indices_of_rank(ls, 2).len() ==> #[trigger] indices_of_rank(ls, 2)[i]
                == indices_of_rank(ls, 0).len() + indices_of_rank(ls, 1).len() + i,
    decreases ls.len(),
{
    if ls.len() > 0 {
        let p = ls.drop_last();
        assert forall|a: int, b: int| 0 <= a < b < p.len() implies !key_lt(
            entry_key(#[trigger] p[b]),
            entry_key(#[trigger] p[a]),
        ) by {
            assert(p[a] == ls[a] && p[b] == ls[b]);
        }
        lemma_sorted_kinds_contiguous(p);
        let m = category_rank(ls.last().category);
        let n = ls.len() - 1;
        let a0 = indices_of_rank(p, 0);
        let a1 = indices_of_rank(p, 1);
        let a2 = indices_of_rank(p, 2);
        if m < 2 {
            assert(a2.len() == 0) by {
                if a2.len() > 0 {
                    lemma_kinds_rank_of(p, 2, 0);
                    let q = a2[0] as int;
                    assert(p[q] == ls[q]);
                    lemma_last_is_largest(ls, q);
                }
            }
        }
        if m < 1 {
            assert(a1.len() == 0) by {
                if a1.len() > 0 {
                    lemma_kinds_rank_of(p, 1, 0);
                    let q = a1[0] as int;
                    assert(p[q] == ls[q]);
                    lemma_last_is_largest(ls, q);
                }
            }
        }
        assert(m == 0 || m == 1 || m == 2);
    }
}

/// Each position kept for a rank is in the list and of that rank.
proof fn lemma_kinds_rank_of(ls: Seq<LinkEntry>, rank: int, j: int)
    requires
        0 <= j < indices_of_rank(ls, rank).len(),
        ls.len() <= usize::MAX,
    ensures
        indices_of_rank(ls, rank)[j] < ls.len(),
        category_rank(ls[indices_of_rank(ls, rank)[j] as int].category) == rank,
    decreases ls.len(),
{
    let p = ls.drop_last();
    let rest = indices_of_rank(p, rank);
    if j < rest.len() {
        lemma_kinds_rank_of(p, rank, j);
        assert(indices_of_rank(ls, rank)[j] == rest[j]);
        assert(ls[rest[j] as int] == p[rest[j] as int]);
    }
}

} // verus!
