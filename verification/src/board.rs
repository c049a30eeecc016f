//! The state of the link list that the user edits before downloading:
//! entries, their selection, and the positions of each kind of link.
use vstd::prelude::*;
use crate::text::{chars_of, string_of, decimal_chars, decimal_text, text_equal};
use crate::categories::{
    LinkEntry, LinkCategory, classify_link, category_of, categorize_entries, build_categories,
    indices_of_rank, category_rank, keyed, new_entries, entries_sorted,
};
use crate::lines::{clean_lines, kept_lines, text_lines};
use crate::patterns::views_of;

verus! {

/// The link list with the positions of its part files, optional files and
/// other links kept beside it.
pub struct LinkBoard {
    pub links: Vec<LinkEntry>,
    pub part_idx: Vec<usize>,
    pub opt_idx: Vec<usize>,
    pub other_idx: Vec<usize>,
    pub links_version: usize,
    pub saved_to_file: bool,
    pub status_text: String,
}

/// The URLs of a list of entries.
pub open spec fn urls_of(s: Seq<LinkEntry>) -> Seq<Seq<char>> {
    s.map_values(|e: LinkEntry| e.url@)
}

/// `prefix`, the decimal form of `n`, then `suffix`.
pub fn count_message(prefix: &str, n: usize, suffix: &str) -> (r: String)
    ensures
        r@ == prefix@ + decimal_text(n as nat) + suffix@,
{
    let mut out = chars_of(prefix);
    let mut digits = decimal_chars(n as u64);
    let mut tail = chars_of(suffix);
    out.append(&mut digits);
    out.append(&mut tail);
    string_of(&out)
}

/// The URLs of `fresh` that are not among `existing`, in order.
pub open spec fn fresh_urls(fresh: Seq<Seq<char>>, existing: Seq<Seq<char>>) -> Seq<Seq<char>>
    decreases fresh.len(),
{
    if fresh.len() == 0 {
        seq![]
    } else {
        let rest = fresh_urls(fresh.drop_last(), existing);
        if existing.contains(fresh.last()) {
            rest
        } else {
            rest.push(fresh.last())
        }
    }
}

/// The URLs of the selected entries, in list order.
pub open spec fn selected_urls_of(s: Seq<LinkEntry>) -> Seq<Seq<char>>
    decreases s.len(),
{
    if s.len() == 0 {
        seq![]
    } else {
        let rest = selected_urls_of(s.drop_last());
        if s.last().selected {
            rest.push(s.last().url@)
        } else {
            rest
        }
    }
}

/// The positions of the selected entries of rank `rank`, in order.
pub open spec fn selected_of_rank(ls: Seq<LinkEntry>, rank: int) -> Seq<usize>
    decreases ls.len(),
{
    if ls.len() == 0 {
        seq![]
    } else {
        let rest = selected_of_rank(ls.drop_last(), rank);
        if ls.last().selected && category_rank(ls.last().category) == rank {
            rest.push((ls.len() - 1) as usize)
        } else {
            rest
        }
    }
}

/// The selected links split by kind, as the summary of the selection shows
/// them: the positions of the selected part files, optional files and other
/// links, each in list order.
pub fn selected_by_kind(links: &Vec<LinkEntry>) -> (r: (Vec<usize>, Vec<usize>, Vec<usize>))
    ensures
        r.0@ == selected_of_rank(links@, 0),
        r.1@ == selected_of_rank(links@, 1),
        r.2@ == selected_of_rank(links@, 2),
{
    let mut p: Vec<usize> = Vec::new();
    let mut o: Vec<usize> = Vec::new();
    let mut x: Vec<usize> = Vec::new();
    let mut i: usize = 0;
    while i < links.len()
        invariant
            i <= links.len(),
            p@ == selected_of_rank(links@.take(i as int), 0),
            o@ == selected_of_rank(links@.take(i as int), 1),
            x@ == selected_of_rank(links@.take(i as int), 2),
        decreases links.len() - i,
    {
        assert(links@.take(i + 1).drop_last() =~= links@.take(i as int));
        assert(links@.take(i + 1).last() == links@[i as int]);
        if links[i].selected {
            match links[i].category {
                LinkCategory::Part(_) => p.push(i),
                LinkCategory::Optional => o.push(i),
                LinkCategory::Other => x.push(i),
            }
        }
        i = i + 1;
    }
    assert(links@.take(links@.len() as int) =~= links@);
    (p, o, x)
}

/// Whether `x` is `e` with only its selection changed.
pub open spec fn same_link(x: LinkEntry, e: LinkEntry) -> bool {
    x.url@ == e.url@ && x.category == e.category
}

impl LinkBoard {
    /// The kept positions are those of each kind of link in the list.
    pub open spec fn wf(&self) -> bool {
        &&& self.part_idx@ == indices_of_rank(self.links@, 0)
        &&& self.opt_idx@ == indices_of_rank(self.links@, 1)
        &&& self.other_idx@ == indices_of_rank(self.links@, 2)
    }

    /// Recomputes the positions of each kind of link.
    pub fn refresh_indices(&mut self)
        ensures
            final(self).wf(),
            final(self).links@ == old(self).links@,
            final(self).links_version == old(self).links_version,
            final(self).saved_to_file == old(self).saved_to_file,
            final(self).status_text@ == old(self).status_text@,
    {
        let (p, o, x) = build_categories(self.links.as_slice());
        self.part_idx = p;
        self.opt_idx = o;
        self.other_idx = x;
    }

    /// Marks the list as changed: a new version, not saved, positions recomputed.
    pub fn bump_links(&mut self)
        requires
            old(self).links_version < usize::MAX,
        ensures
            final(self).wf(),
            final(self).links@ == old(self).links@,
            final(self).links_version == old(self).links_version + 1,
            !final(self).saved_to_file,
            final(self).status_text@ == old(self).status_text@,
    {
        self.links_version = self.links_version + 1;
        self.saved_to_file = false;
        self.refresh_indices();
    }
}


impl LinkBoard {
    /// The board for the links read at start-up: sorted into kinds, all
    /// selected, with a message that says whether any were read.
    pub fn new(saved_links: Vec<String>) -> (r: LinkBoard)
        ensures
            r.wf(),
            r.links.len() == saved_links.len(),
            entries_sorted(r.links@),
            forall|k: (int, int, Seq<char>)|
                keyed(r.links@, k) == keyed(new_entries(saved_links@), k),
            r.links_version == 1,
            !r.saved_to_file,
            r.status_text@ == if saved_links.len() > 0 {
                "Links loaded from input.txt"@
            } else {
                "Load links from a URL or paste them manually."@
            },
    {
        let has_links = saved_links.len() > 0;
        let links = categorize_entries(saved_links);
        let (p, o, x) = build_categories(links.as_slice());
        let status_text = if has_links {
            string_of(&chars_of("Links loaded from input.txt"))
        } else {
            string_of(&chars_of("Load links from a URL or paste them manually."))
        };
        LinkBoard {
            links,
            part_idx: p,
            opt_idx: o,
            other_idx: x,
            links_version: 1,
            saved_to_file: false,
            status_text,
        }
    }

    /// Takes the links a scrape found: none leaves the list and says so;
    /// otherwise they replace the list, sorted into kinds, and the message
    /// gives their number.
    pub fn apply_scrape_result(&mut self, results: Vec<String>)
        requires
            old(self).links_version < usize::MAX,
        ensures
            final(self).wf() || (results.len() == 0 && final(self).wf() == old(self).wf()),
            results.len() == 0 ==> final(self).links@ == old(self).links@ && final(self).status_text@ == "No fuckingfast.co links found at that URL."@
                && final(self).links_version == old(self).links_version,
            results.len() > 0 ==> {
                &&& final(self).links.len() == results.len()
                &&& entries_sorted(final(self).links@)
                &&& forall|k: (int, int, Seq<char>)|
                    keyed(final(self).links@, k) == keyed(new_entries(results@), k)
                &&& final(self).status_text@ == "Found "@ + decimal_text(results.len() as nat)
                    + " links."@
                &&& final(self).links_version == old(self).links_version + 1
                &&& !final(self).saved_to_file
            },
    {
        if results.len() == 0 {
            self.status_text = string_of(&chars_of("No fuckingfast.co links found at that URL."));
        } else {
            self.links = categorize_entries(results);
            self.status_text = count_message("Found ", self.links.len(), " links.");
            self.bump_links();
        }
    }

    /// Adds the links typed or pasted by the user: each non-empty trimmed
    /// line whose URL was not in the list before is appended, selected and
    /// of its kind. When the text held any link, the message gives the new
    /// number of links, the list is marked changed, and `true` says that the
    /// text field is to be cleared.
    pub fn add_manual_links(&mut self, text: &str) -> (r: bool)
        requires
            old(self).wf(),
            old(self).links_version < usize::MAX,
        ensures
            final(self).wf(),
            r == (kept_lines(text_lines(text@)).len() > 0),
            !r ==> final(self).links@ == old(self).links@ && final(self).status_text@ == old(self).status_text@ && final(self).links_version == old(self).links_version,
            r ==> {
                &&& final(self).links@.take(old(self).links.len() as int) == old(self).links@
                &&& urls_of(final(self).links@.skip(old(self).links.len() as int)) == fresh_urls(
                    kept_lines(text_lines(text@)),
                    urls_of(old(self).links@),
                )
                &&& forall|j: int|
                    old(self).links.len() <= j < final(self).links.len() ==> (#[trigger] final(self).links@[j]).selected && final(self).links@[j].category == category_of(
                        final(self).links@[j].url@,
                    )
                &&& final(self).status_text@ == decimal_text(final(self).links.len() as nat)
                    + " links loaded."@
                &&& final(self).links_version == old(self).links_version + 1
                &&& !final(self).saved_to_file
            },
    {
        let fresh = clean_lines(text);
        if fresh.len() == 0 {
            return false;
        }
        let ghost old_links = self.links@;
        let ghost v0 = self.links_version;
        let ghost st0 = self.saved_to_file;
        let n0 = self.links.len();
        let mut existing: Vec<Vec<char>> = Vec::new();
        let mut k: usize = 0;
        while k < self.links.len()
            invariant
                k <= self.links.len(),
                self.links@ == old_links,
                self.links_version == v0,
                existing@.len() == k,
                existing@.map_values(|v: Vec<char>| v@) == urls_of(old_links).take(k as int),
            decreases self.links.len() - k,
        {
            let ghost prev = existing@;
            let cu = chars_of(self.links[k].url.as_str());
            assert(cu@ == urls_of(old_links)[k as int]);
            existing.push(cu);
            assert forall|j: int| 0 <= j < k + 1 implies #[trigger] existing@[j]@ == urls_of(old_links)[j] by {
                if j < k {
                    assert(prev.map_values(|v: Vec<char>| v@)[j] == urls_of(old_links).take(k as int)[j]);
                }
            }
            assert(existing@.map_values(|v: Vec<char>| v@) =~= urls_of(old_links).take(k + 1));
            k = k + 1;
        }
        assert(urls_of(old_links).take(n0 as int) =~= urls_of(old_links));
        let ghost ex = urls_of(old_links);
        let ghost fv = views_of(fresh@);
        let mut i: usize = 0;
        while i < fresh.len()
            invariant
                i <= fresh.len(),
                n0 == old_links.len(),
                self.links_version == v0,
                v0 < usize::MAX,
                self.links.len() >= n0,
                existing@.map_values(|v: Vec<char>| v@) == ex,
                ex == urls_of(old_links),
                fv == views_of(fresh@),
                self.links@.take(n0 as int) == old_links,
                urls_of(self.links@.skip(n0 as int)) == fresh_urls(fv.take(i as int), ex),
                forall|j: int|
                    n0 <= j < self.links.len() ==> (#[trigger] self.links@[j]).selected
                        && self.links@[j].category == category_of(self.links@[j].url@),
            decreases fresh.len() - i,
        {
            let u = chars_of(fresh[i].as_str());
            let mut seen = false;
            let mut k: usize = 0;
            while k < existing.len()
                invariant
                    k <= existing.len(),
                    existing@.map_values(|v: Vec<char>| v@) == ex,
                    seen == ex.take(k as int).contains(u@),
                decreases existing.len() - k,
            {
                let ghost cur = ex.take(k as int);
                let ghost nxt = ex.take(k + 1);
                if text_equal(&existing[k], &u) {
                    seen = true;
                    assert(nxt[k as int] == u@);
                } 
                assert(nxt.contains(u@) == (cur.contains(u@) || ex[k as int] == u@)) by {
                    if nxt.contains(u@) {
                        let j = choose|j: int| 0 <= j < nxt.len() && nxt[j] == u@;
                        if j < k {
                            assert(cur[j] == u@);
                        }
                    }
                    if cur.contains(u@) {
                        let j = choose|j: int| 0 <= j < cur.len() && cur[j] == u@;
                        assert(nxt[j] == u@);
                    }
                    if ex[k as int] == u@ {
                        assert(nxt[k as int] == u@);
                    }
                }
                k = k + 1;
            }
            assert(ex.take(existing@.len() as int) =~= ex);
            let ghost before = self.links@;
            assert(fv.take(i + 1).drop_last() =~= fv.take(i as int));
            assert(fv.take(i + 1).last() == u@);
            if !seen {
                let url = string_of(&u);
                let category = classify_link(url.as_str());
                self.links.push(LinkEntry { url, selected: true, category });
                assert(self.links@.take(n0 as int) =~= before.take(n0 as int));
                assert(self.links@.skip(n0 as int) =~= before.skip(n0 as int).push(
                    self.links@.last(),
                ));
                assert(urls_of(self.links@.skip(n0 as int)) =~= urls_of(before.skip(n0 as int)).push(
                    u@,
                ));
            }
            i = i + 1;
        }
        assert(fv.take(fresh@.len() as int) =~= fv);
        self.status_text = count_message("", self.links.len(), " links loaded.");
        assert(""@ + decimal_text(self.links.len() as nat) + " links loaded."@ =~= decimal_text(
            self.links.len() as nat,
        ) + " links loaded."@) by {
            reveal_strlit("");
        }
        self.bump_links();
        true
    }

    /// Selects or clears every link.
    pub fn set_all_selected(&mut self, v: bool)
        requires
            old(self).wf(),
        ensures
            final(self).wf(),
            final(self).links.len() == old(self).links.len(),
            forall|j: int|
                0 <= j < final(self).links.len() ==> same_link(
                    #[trigger] final(self).links@[j],
                    old(self).links@[j],
                ) && final(self).links@[j].selected == v,
            final(self).links_version == old(self).links_version,
            final(self).saved_to_file == old(self).saved_to_file,
    {
        let ghost before = self.links@;
        let mut i: usize = 0;
        while i < self.links.len()
            invariant
                i <= self.links.len(),
                self.links.len() == before.len(),
                forall|j: int|
                    0 <= j < self.links.len() ==> same_link(#[trigger] self.links@[j], before[j]),
                forall|j: int| 0 <= j < i ==> (#[trigger] self.links@[j]).selected == v,
                forall|j: int| i <= j < self.links.len() ==> #[trigger] self.links@[j] == before[j],
                self.links_version == old(self).links_version,
                self.saved_to_file == old(self).saved_to_file,
            decreases self.links.len() - i,
        {
            let e = &self.links[i];
            let url = e.url.clone();
            let category = e.category;
            self.links.set(i, LinkEntry { url, selected: v, category });
            i = i + 1;
        }
        self.refresh_indices();
    }
}


impl LinkBoard {
    /// Selects or clears the links at the given positions (a kind's
    /// "select all" box).
    pub fn set_selected_at(&mut self, positions: &Vec<usize>, v: bool)
        requires
            old(self).wf(),
            forall|k: int| 0 <= k < positions.len() ==> positions@[k] < old(self).links.len(),
        ensures
            final(self).wf(),
            final(self).links.len() == old(self).links.len(),
            forall|j: int|
                0 <= j < final(self).links.len() ==> same_link(
                    #[trigger] final(self).links@[j],
                    old(self).links@[j],
                ) && final(self).links@[j].selected == if positions@.contains(j as usize) {
                    v
                } else {
                    old(self).links@[j].selected
                },
            final(self).links_version == old(self).links_version,
            final(self).saved_to_file == old(self).saved_to_file,
    {
        let ghost before = self.links@;
        let mut i: usize = 0;
        while i < positions.len()
            invariant
                i <= positions.len(),
                forall|k: int| 0 <= k < positions.len() ==> positions@[k] < before.len(),
                self.links.len() == before.len(),
                forall|j: int|
                    0 <= j < self.links.len() ==> same_link(#[trigger] self.links@[j], before[j])
                        && self.links@[j].selected == if positions@.take(i as int).contains(
                        j as usize,
                    ) {
                        v
                    } else {
                        before[j].selected
                    },
                self.links_version == old(self).links_version,
                self.saved_to_file == old(self).saved_to_file,
            decreases positions.len() - i,
        {
            let at = positions[i];
            let url = self.links[at].url.clone();
            let category = self.links[at].category;
            self.links.set(at, LinkEntry { url, selected: v, category });
            assert forall|j: int| 0 <= j < self.links.len() implies (#[trigger] positions@.take(i + 1).contains(
                j as usize,
            ) <==> (positions@.take(i as int).contains(j as usize) || j == at)) by {
                let nxt = positions@.take(i + 1);
                let cur = positions@.take(i as int);
                if nxt.contains(j as usize) {
                    let m = choose|m: int| 0 <= m < nxt.len() && nxt[m] == j as usize;
                    if m < i {
                        assert(cur[m] == j as usize);
                    }
                }
                if cur.contains(j as usize) {
                    let m = choose|m: int| 0 <= m < cur.len() && cur[m] == j as usize;
                    assert(nxt[m] == j as usize);
                }
                if j == at {
                    assert(nxt[i as int] == j as usize);
                }
            }
            i = i + 1;
        }
        assert(positions@.take(positions@.len() as int) =~= positions@);
        self.refresh_indices();
    }

    /// Whether every link at the given positions is selected.
    pub fn all_selected(&self, positions: &Vec<usize>) -> (r: bool)
        requires
            forall|k: int| 0 <= k < positions.len() ==> positions@[k] < self.links.len(),
        ensures
            r == forall|k: int|
                0 <= k < positions.len() ==> self.links@[#[trigger] positions@[k] as int].selected,
    {
        let mut i: usize = 0;
        while i < positions.len()
            invariant
                i <= positions.len(),
                forall|k: int| 0 <= k < positions.len() ==> positions@[k] < self.links.len(),
                forall|k: int| 0 <= k < i ==> self.links@[#[trigger] positions@[k] as int].selected,
            decreases positions.len() - i,
        {
            if !self.links[positions[i]].selected {
                return false;
            }
            i = i + 1;
        }
        true
    }

    /// The URLs of the selected links, in list order.
    pub fn selected_urls(&self) -> (r: Vec<String>)
        ensures
            views_of(r@) == selected_urls_of(self.links@),
    {
        let mut r: Vec<String> = Vec::new();
        let mut i: usize = 0;
        while i < self.links.len()
            invariant
                i <= self.links.len(),
                views_of(r@) == selected_urls_of(self.links@.take(i as int)),
            decreases self.links.len() - i,
        {
            let ghost nxt = self.links@.take(i + 1);
            assert(nxt.drop_last() =~= self.links@.take(i as int));
            assert(nxt.last() == self.links@[i as int]);
            if self.links[i].selected {
                let ghost prev = r@;
                r.push(self.links[i].url.clone());
                assert(views_of(r@) =~= views_of(prev).push(self.links@[i as int].url@));
            }
            i = i + 1;
        }
        assert(self.links@.take(self.links@.len() as int) =~= self.links@);
        r
    }

    /// Saves the selection: returns the selected URLs, marks the list saved,
    /// and says how many were saved.
    pub fn save_selected(&mut self) -> (r: Vec<String>)
        requires
            old(self).wf(),
        ensures
            final(self).wf(),
            final(self).links@ == old(self).links@,
            views_of(r@) == selected_urls_of(old(self).links@),
            final(self).saved_to_file,
            final(self).status_text@ == "Saved "@ + decimal_text(r.len() as nat)
                + " links to input.txt"@,
            final(self).links_version == old(self).links_version,
    {
        let selected = self.selected_urls();
        self.saved_to_file = true;
        self.status_text = count_message("Saved ", selected.len(), " links to input.txt");
        selected
    }
}

/// The kept positions of the three kinds split the list: each list holds
/// positions of its kind only, in increasing order, and every position of
/// the list is in the list of its kind.
pub proof fn lemma_kinds_partition(ls: Seq<LinkEntry>, rank: int)
    requires
        ls.len() <= usize::MAX,
    ensures
        forall|j: int|
            0 <= j < indices_of_rank(ls, rank).len() ==> #[trigger] indices_of_rank(ls, rank)[j]
                < ls.len() && category_rank(ls[indices_of_rank(ls, rank)[j] as int].category)
                == rank,
        forall|a: int, b: int|
            0 <= a < b < indices_of_rank(ls, rank).len() ==> #[trigger] indices_of_rank(ls, rank)[a]
                < #[trigger] indices_of_rank(ls, rank)[b],
        forall|i: int|
            0 <= i < ls.len() && category_rank(ls[i].category) == rank ==> #[trigger] indices_of_rank(
                ls,
                rank,
            ).contains(i as usize),
    decreases ls.len(),
{
    if ls.len() > 0 {
        let init = ls.drop_last();
        lemma_kinds_partition(init, rank);
        let rest = indices_of_rank(init, rank);
        let cur = indices_of_rank(ls, rank);
        let last = (ls.len() - 1) as usize;
        assert(last as int == ls.len() - 1);
        assert(cur == if category_rank(ls.last().category) == rank {
            rest.push(last)
        } else {
            rest
        });
        assert forall|j: int| 0 <= j < cur.len() implies #[trigger] cur[j] < ls.len()
            && category_rank(ls[cur[j] as int].category) == rank by {
            if j < rest.len() {
                assert(cur[j] == rest[j]);
                assert(ls[rest[j] as int] == init[rest[j] as int]);
            } else {
                assert(cur[j] == last);
            }
        }
        assert forall|a: int, b: int| 0 <= a < b < cur.len() implies #[trigger] cur[a]
            < #[trigger] cur[b] by {
            if b < rest.len() {
                assert(cur[a] == rest[a] && cur[b] == rest[b]);
            } else {
                assert(cur[a] == rest[a]);
                assert(rest[a] < init.len());
            }
        }
        assert forall|i: int| 0 <= i < ls.len() && category_rank(ls[i].category) == rank
            implies #[trigger] cur.contains(i as usize) by {
            if i < init.len() {
                assert(init[i] == ls[i]);
                assert(rest.contains(i as usize));
                let j = choose|j: int| 0 <= j < rest.len() && rest[j] == i as usize;
                assert(cur[j] == i as usize);
            } else {
                assert(cur[cur.len() - 1] == i as usize);
            }
        }
    }
}

/// Every fresh URL is among the existing ones or among those added.
proof fn lemma_fresh_covered(fresh: Seq<Seq<char>>, existing: Seq<Seq<char>>)
    ensures
        forall|i: int|
            0 <= i < fresh.len() ==> existing.contains(#[trigger] fresh[i]) || fresh_urls(
                fresh,
                existing,
            ).contains(fresh[i]),
    decreases fresh.len(),
{
    if fresh.len() > 0 {
        let init = fresh.drop_last();
        lemma_fresh_covered(init, existing);
        let rest = fresh_urls(init, existing);
        let all = fresh_urls(fresh, existing);
        assert forall|i: int| 0 <= i < fresh.len() implies existing.contains(#[trigger] fresh[i])
            || all.contains(fresh[i]) by {
            if i < init.len() {
                assert(fresh[i] == init[i]);
                if rest.contains(init[i]) {
                    let k = choose|k: int| 0 <= k < rest.len() && rest[k] == init[i];
                    if !existing.contains(fresh.last()) {
                        assert(all[k] == rest[k]);
                    }
                }
            } else if !existing.contains(fresh.last()) {
                assert(all[all.len() - 1] == fresh.last());
            }
        }
    }
}

/// Nothing is fresh when every URL is already there.
proof fn lemma_nothing_fresh(fresh: Seq<Seq<char>>, existing: Seq<Seq<char>>)
    requires
        forall|i: int| 0 <= i < fresh.len() ==> existing.contains(#[trigger] fresh[i]),
    ensures
        fresh_urls(fresh, existing) == Seq::<Seq<char>>::empty(),
    decreases fresh.len(),
{
    if fresh.len() > 0 {
        let init = fresh.drop_last();
        assert forall|i: int| 0 <= i < init.len() implies existing.contains(#[trigger] init[i]) by {
            assert(init[i] == fresh[i]);
        }
        lemma_nothing_fresh(init, existing);
        assert(existing.contains(fresh[fresh.len() - 1]));
    }
}

/// Adding the same links a second time adds nothing: each of them is then
/// already in the list.
pub proof fn lemma_links_added_once(fresh: Seq<Seq<char>>, existing: Seq<Seq<char>>)
    ensures
        fresh_urls(fresh, existing + fresh_urls(fresh, existing)) == Seq::<Seq<char>>::empty(),
{
    let added = fresh_urls(fresh, existing);
    let all = existing + added;
    lemma_fresh_covered(fresh, existing);
    assert forall|i: int| 0 <= i < fresh.len() implies all.contains(#[trigger] fresh[i]) by {
        if existing.contains(fresh[i]) {
            let k = choose|k: int| 0 <= k < existing.len() && existing[k] == fresh[i];
            assert(all[k] == existing[k]);
        } else {
            let k = choose|k: int| 0 <= k < added.len() && added[k] == fresh[i];
            assert(all[existing.len() + k] == added[k]);
        }
    }
    lemma_nothing_fresh(fresh, all);
}

} // verus!
