//! Finding the archives to extract in a game's download folder.
use vstd::prelude::*;
use crate::text::{decimal_text, chars_of, string_of, occurs_at, occurs_at_exec, parse_u32_text, parse_u32_chars, text_equal, text_lt, compare_text, TextOrder, lemma_text_lt_transitive, lemma_text_lt_total, lemma_text_lt_irreflexive};
use crate::patterns::{first_capture, regex_first_capture, part_rar_pattern, all_ascii};
use vstd::std_specs::cmp::PartialEqSpecImpl;

verus! {

/// Where the extraction of one archive stands.
#[derive(Clone, Debug)]
pub enum ExtractStatus {
    Pending,
    Extracting,
    Done,
    Failed(String),
}

impl PartialEq for ExtractStatus {
    fn eq(&self, other: &Self) -> (r: bool) {
        match (self, other) {
            (ExtractStatus::Pending, ExtractStatus::Pending) => true,
            (ExtractStatus::Extracting, ExtractStatus::Extracting) => true,
            (ExtractStatus::Done, ExtractStatus::Done) => true,
            (ExtractStatus::Failed(a), ExtractStatus::Failed(b)) => crate::text::same_text(
                a.as_str(),
                b.as_str(),
            ),
            _ => false,
        }
    }
}

impl PartialEqSpecImpl for ExtractStatus {
    open spec fn obeys_eq_spec() -> bool {
        true
    }

    open spec fn eq_spec(&self, other: &Self) -> bool {
        match (self, other) {
            (ExtractStatus::Pending, ExtractStatus::Pending) => true,
            (ExtractStatus::Extracting, ExtractStatus::Extracting) => true,
            (ExtractStatus::Done, ExtractStatus::Done) => true,
            (ExtractStatus::Failed(a), ExtractStatus::Failed(b)) => a@ == b@,
            _ => false,
        }
    }
}

/// An archive to extract: its path, its file name and its status.
#[derive(Clone, Debug)]
pub struct ArchiveItem {
    pub path: String,
    pub name: String,
    pub status: ExtractStatus,
}

/// A game's download folder with the archives in it.
#[derive(Clone, Debug)]
pub struct GameFolder {
    pub path: String,
    pub name: String,
    pub archives: Vec<ArchiveItem>,
}

/// Whether `s` ends with `suffix`.
pub open spec fn ends_with_text(s: Seq<char>, suffix: Seq<char>) -> bool {
    s.len() >= suffix.len() && s.skip(s.len() - suffix.len()) == suffix
}

/// Whether `s` ends with `suffix`.
pub fn ends_with_chars(s: &[char], suffix: &[char]) -> (r: bool)
    ensures
        r == ends_with_text(s@, suffix@),
{
    if suffix.len() > s.len() {
        return false;
    }
    let r = occurs_at_exec(s, suffix, s.len() - suffix.len());
    assert(s@.skip(s@.len() - suffix@.len()) =~= s@.subrange(
        s@.len() - suffix@.len(),
        s@.len() as int,
    ));
    r
}

/// The group of a RAR file and its part number: a name that matches
/// `\.part(\d+)\.rar$` belongs with the name before the match and is numbered
/// by the digits (0 when they do not make a `u32`); any other RAR name is a
/// group of its own, numbered 0.
pub open spec fn rar_group(name: Seq<char>) -> (Seq<char>, u32) {
    match regex_first_capture(part_rar_pattern(), name) {
        Some(Some((p, d))) => (
            p,
            match parse_u32_text(d) {
                Some(n) => n,
                None => 0,
            },
        ),
        _ => (name, 0),
    }
}

/// The group and part number of a RAR file name.
pub fn rar_group_of(name: &str) -> (r: (Vec<char>, u32))
    ensures
        (r.0@, r.1) == rar_group(name@),
{
    match first_capture(r#"\.part(\d+)\.rar$"#, name) {
        Some(Some((p, d))) => {
            let ds = chars_of(d.as_str());
            let n = match parse_u32_chars(&ds) {
                Some(n) => n,
                None => 0,
            };
            (chars_of(p.as_str()), n)
        },
        _ => (chars_of(name), 0),
    }
}

/// The RAR groups of a folder's files, in the order their first file comes:
/// each with its group name, the smallest part number seen, and the position
/// of the first file with that number.
pub open spec fn rar_groups(files: Seq<(String, String)>) -> Seq<(Seq<char>, u32, int)>
    decreases files.len(),
{
    if files.len() == 0 {
        seq![]
    } else {
        let g = rar_groups(files.drop_last());
        let name = files.last().1@;
        if !ends_with_text(name, ".rar"@) {
            g
        } else {
            let (k, n) = rar_group(name);
            let at = files.len() - 1;
            match group_position(g, k) {
                Some(j) => if n < g[j].1 {
                    g.update(j, (k, n, at))
                } else {
                    g
                },
                None => g.push((k, n, at)),
            }
        }
    }
}

/// Where the group `k` stands in the list of groups.
pub open spec fn group_position(g: Seq<(Seq<char>, u32, int)>, k: Seq<char>) -> Option<int>
    decreases g.len(),
{
    if g.len() == 0 {
        None
    } else if g.last().0 == k {
        Some(g.len() - 1)
    } else {
        group_position(g.drop_last(), k)
    }
}

/// The positions of the ZIP files, in order.
pub open spec fn zip_positions(files: Seq<(String, String)>) -> Seq<int>
    decreases files.len(),
{
    if files.len() == 0 {
        seq![]
    } else {
        let rest = zip_positions(files.drop_last());
        let name = files.last().1@;
        if !ends_with_text(name, ".rar"@) && ends_with_text(name, ".zip"@) {
            rest.push(files.len() - 1)
        } else {
            rest
        }
    }
}

/// The positions of the files to extract: for each RAR group the first file
/// with its smallest part number (the only one to extract), then every ZIP file.
pub open spec fn chosen_positions(files: Seq<(String, String)>) -> Seq<int> {
    rar_groups(files).map_values(|g: (Seq<char>, u32, int)| g.2) + zip_positions(files)
}

/// Whether the file at position `i` is a RAR file of the group `k`.
pub open spec fn in_group(files: Seq<(String, String)>, i: int, k: Seq<char>) -> bool {
    &&& 0 <= i < files.len()
    &&& ends_with_text(files[i].1@, ".rar"@)
    &&& rar_group(files[i].1@).0 == k
}

/// What the kept RAR groups promise: each names a RAR file of its group
/// with its part number; no file of the group has a smaller number, and
/// none before it the same; no group comes twice; every RAR file has its group.
pub open spec fn groups_sound(files: Seq<(String, String)>, g: Seq<(Seq<char>, u32, int)>) -> bool {
    &&& forall|j: int|
        #![trigger g[j]]
        0 <= j < g.len() ==> in_group(files, g[j].2, g[j].0) && rar_group(files[g[j].2].1@).1
            == g[j].1
    &&& forall|j: int, i: int|
        #![trigger g[j], in_group(files, i, g[j].0)]
        0 <= j < g.len() && in_group(files, i, g[j].0) ==> g[j].1 <= rar_group(files[i].1@).1 && (
        rar_group(files[i].1@).1 == g[j].1 ==> g[j].2 <= i)
    &&& forall|a: int, b: int| 0 <= a < b < g.len() ==> (#[trigger] g[a]).0 != (#[trigger] g[b]).0
    &&& forall|i: int|
        0 <= i < files.len() && ends_with_text(#[trigger] files[i].1@, ".rar"@) ==> exists|j: int|
            0 <= j < g.len() && (#[trigger] g[j]).0 == rar_group(files[i].1@).0
}

/// Where a group stands, if anywhere.
proof fn lemma_group_position(g: Seq<(Seq<char>, u32, int)>, k: Seq<char>)
    ensures
        match group_position(g, k) {
            Some(j) => 0 <= j < g.len() && g[j].0 == k,
            None => forall|j: int| 0 <= j < g.len() ==> (#[trigger] g[j]).0 != k,
        },
    decreases g.len(),
{
    if g.len() > 0 && g.last().0 != k {
        lemma_group_position(g.drop_last(), k);
        if group_position(g, k) is None {
            assert forall|j: int| 0 <= j < g.len() implies (#[trigger] g[j]).0 != k by {
                if j < g.len() - 1 {
                    assert(g[j] == g.drop_last()[j]);
                }
            }
        }
    }
}

/// A file before the last one is the same file in the list without the last.
proof fn lemma_earlier_file(files: Seq<(String, String)>, i: int, k: Seq<char>)
    requires
        0 <= i < files.len() - 1,
    ensures
        files[i] == files.drop_last()[i],
        in_group(files, i, k) == in_group(files.drop_last(), i, k),
{
}

/// The step of `lemma_rar_choice` for a last file that is not a RAR file.
#[verifier::spinoff_prover]
proof fn lemma_step_other(files: Seq<(String, String)>)
    requires
        files.len() > 0,
        groups_sound(files.drop_last(), rar_groups(files.drop_last())),
        !ends_with_text(files.last().1@, ".rar"@),
    ensures
        groups_sound(files, rar_groups(files)),
{
    let p = files.drop_last();
    let g = rar_groups(files);
    let at = files.len() - 1;
    assert(g == rar_groups(p));
    assert forall|j: int| 0 <= j < g.len() implies in_group(files, (#[trigger] g[j]).2, g[j].0)
        && rar_group(files[g[j].2].1@).1 == g[j].1 by {
        lemma_earlier_file(files, g[j].2, g[j].0);
    }
    assert forall|j: int, i: int|
        0 <= j < g.len() && #[trigger] in_group(files, i, g[j].0) implies g[j].1 <= rar_group(
        files[i].1@).1 && (rar_group(files[i].1@).1 == g[j].1 ==> g[j].2 <= i) by {
        assert(files[at] == files.last());
        lemma_earlier_file(files, i, g[j].0);
    }
    assert forall|i: int|
        0 <= i < files.len() && ends_with_text(#[trigger] files[i].1@, ".rar"@) implies exists|j: int|
        0 <= j < g.len() && (#[trigger] g[j]).0 == rar_group(files[i].1@).0 by {
        assert(files[at] == files.last());
        lemma_earlier_file(files, i, seq![]);
        assert(ends_with_text(p[i].1@, ".rar"@));
    }
}

/// The step of `lemma_rar_choice` for a last RAR file of a group already
/// seen, with a smaller part number than the one kept.
#[verifier::spinoff_prover]
#[verifier::rlimit(40)]
proof fn lemma_step_lower(files: Seq<(String, String)>, j0: int)
    requires
        files.len() > 0,
        groups_sound(files.drop_last(), rar_groups(files.drop_last())),
        ends_with_text(files.last().1@, ".rar"@),
        group_position(rar_groups(files.drop_last()), rar_group(files.last().1@).0) == Some(j0),
        0 <= j0 < rar_groups(files.drop_last()).len(),
        rar_groups(files.drop_last())[j0].0 == rar_group(files.last().1@).0,
        rar_group(files.last().1@).1 < rar_groups(files.drop_last())[j0].1,
    ensures
        groups_sound(files, rar_groups(files)),
{
    let p = files.drop_last();
    let g0 = rar_groups(p);
    let g = rar_groups(files);
    let at = files.len() - 1;
    let (k, n) = rar_group(files.last().1@);
    assert(files[at] == files.last());
    assert(g == g0.update(j0, (k, n, at)));
    assert forall|j: int| 0 <= j < g.len() implies in_group(files, (#[trigger] g[j]).2, g[j].0)
        && rar_group(files[g[j].2].1@).1 == g[j].1 by {
        if j != j0 {
            assert(g[j] == g0[j]);
            lemma_earlier_file(files, g0[j].2, g0[j].0);
        }
    }
    assert forall|j: int, i: int|
        0 <= j < g.len() && #[trigger] in_group(files, i, g[j].0) implies g[j].1 <= rar_group(
        files[i].1@).1 && (rar_group(files[i].1@).1 == g[j].1 ==> g[j].2 <= i) by {
        if i < at {
            lemma_earlier_file(files, i, g[j].0);
            if j == j0 {
                assert(in_group(p, i, g0[j0].0));
            } else {
                assert(g[j] == g0[j]);
            }
        } else if j != j0 {
            assert(g[j] == g0[j]);
            if j < j0 {
                assert(g0[j].0 != g0[j0].0);
            } else {
                assert(g0[j0].0 != g0[j].0);
            }
        }
    }
    assert forall|a: int, b: int| 0 <= a < b < g.len() implies (#[trigger] g[a]).0 != (
    #[trigger] g[b]).0 by {
        assert(g0[a].0 != g0[b].0);
    }
    assert forall|i: int|
        0 <= i < files.len() && ends_with_text(#[trigger] files[i].1@, ".rar"@) implies exists|j: int|
        0 <= j < g.len() && (#[trigger] g[j]).0 == rar_group(files[i].1@).0 by {
        if i < at {
            lemma_earlier_file(files, i, seq![]);
            assert(ends_with_text(p[i].1@, ".rar"@));
            let j = choose|j: int| 0 <= j < g0.len() && (#[trigger] g0[j]).0 == rar_group(p[i].1@).0;
            assert(g[j].0 == g0[j].0);
        } else {
            assert(g[j0].0 == k);
        }
    }
}

/// The step of `lemma_rar_choice` for a last RAR file of a group already
/// seen, with no smaller part number than the one kept.
#[verifier::spinoff_prover]
#[verifier::rlimit(40)]
proof fn lemma_step_same(files: Seq<(String, String)>, j0: int)
    requires
        files.len() > 0,
        groups_sound(files.drop_last(), rar_groups(files.drop_last())),
        ends_with_text(files.last().1@, ".rar"@),
        group_position(rar_groups(files.drop_last()), rar_group(files.last().1@).0) == Some(j0),
        0 <= j0 < rar_groups(files.drop_last()).len(),
        rar_groups(files.drop_last())[j0].0 == rar_group(files.last().1@).0,
        rar_group(files.last().1@).1 >= rar_groups(files.drop_last())[j0].1,
    ensures
        groups_sound(files, rar_groups(files)),
{
    let p = files.drop_last();
    let g0 = rar_groups(p);
    let g = rar_groups(files);
    let at = files.len() - 1;
    let (k, n) = rar_group(files.last().1@);
    assert(files[at] == files.last());
    assert(g == g0);
    assert forall|j: int| 0 <= j < g.len() implies in_group(files, (#[trigger] g[j]).2, g[j].0)
        && rar_group(files[g[j].2].1@).1 == g[j].1 by {
        lemma_earlier_file(files, g0[j].2, g0[j].0);
    }
    assert forall|j: int, i: int|
        0 <= j < g.len() && #[trigger] in_group(files, i, g[j].0) implies g[j].1 <= rar_group(
        files[i].1@).1 && (rar_group(files[i].1@).1 == g[j].1 ==> g[j].2 <= i) by {
        if i < at {
            lemma_earlier_file(files, i, g[j].0);
        } else {
            if j != j0 {
                if j < j0 {
                    assert(g0[j].0 != g0[j0].0);
                } else {
                    assert(g0[j0].0 != g0[j].0);
                }
            }
            lemma_earlier_file(files, g0[j].2, g0[j].0);
        }
    }
    assert forall|i: int|
        0 <= i < files.len() && ends_with_text(#[trigger] files[i].1@, ".rar"@) implies exists|j: int|
        0 <= j < g.len() && (#[trigger] g[j]).0 == rar_group(files[i].1@).0 by {
        if i < at {
            lemma_earlier_file(files, i, seq![]);
            assert(ends_with_text(p[i].1@, ".rar"@));
        } else {
            assert(g[j0].0 == k);
        }
    }
}

/// The step of `lemma_rar_choice` for a last RAR file of a new group.
#[verifier::spinoff_prover]
#[verifier::rlimit(40)]
proof fn lemma_step_new(files: Seq<(String, String)>)
    requires
        files.len() > 0,
        groups_sound(files.drop_last(), rar_groups(files.drop_last())),
        ends_with_text(files.last().1@, ".rar"@),
        group_position(rar_groups(files.drop_last()), rar_group(files.last().1@).0) is None,
        forall|j: int|
            0 <= j < rar_groups(files.drop_last()).len() ==> (#[trigger] rar_groups(
                files.drop_last(),
            )[j]).0 != rar_group(files.last().1@).0,
    ensures
        groups_sound(files, rar_groups(files)),
{
    let p = files.drop_last();
    let g0 = rar_groups(p);
    let g = rar_groups(files);
    let at = files.len() - 1;
    let (k, n) = rar_group(files.last().1@);
    assert(files[at] == files.last());
    assert(g == g0.push((k, n, at)));
    assert forall|j: int| 0 <= j < g.len() implies in_group(files, (#[trigger] g[j]).2, g[j].0)
        && rar_group(files[g[j].2].1@).1 == g[j].1 by {
        if j < g0.len() {
            assert(g[j] == g0[j]);
            lemma_earlier_file(files, g0[j].2, g0[j].0);
        }
    }
    assert forall|j: int, i: int|
        0 <= j < g.len() && #[trigger] in_group(files, i, g[j].0) implies g[j].1 <= rar_group(
        files[i].1@).1 && (rar_group(files[i].1@).1 == g[j].1 ==> g[j].2 <= i) by {
        if j < g0.len() {
            assert(g[j] == g0[j]);
            if i < at {
                lemma_earlier_file(files, i, g0[j].0);
            } else {
                assert(g0[j].0 != k);
            }
        } else if i < at {
            lemma_earlier_file(files, i, k);
            assert(ends_with_text(p[i].1@, ".rar"@));
            let jj = choose|jj: int| 0 <= jj < g0.len() && (#[trigger] g0[jj]).0 == rar_group(p[i].1@).0;
            assert(g0[jj].0 != k);
        }
    }
    assert forall|a: int, b: int| 0 <= a < b < g.len() implies (#[trigger] g[a]).0 != (
    #[trigger] g[b]).0 by {
        if b < g0.len() {
            assert(g0[a].0 != g0[b].0);
        } else {
            assert(g[a] == g0[a]);
            assert(g0[a].0 != k);
        }
    }
    assert forall|i: int|
        0 <= i < files.len() && ends_with_text(#[trigger] files[i].1@, ".rar"@) implies exists|j: int|
        0 <= j < g.len() && (#[trigger] g[j]).0 == rar_group(files[i].1@).0 by {
        if i < at {
            lemma_earlier_file(files, i, seq![]);
            assert(ends_with_text(p[i].1@, ".rar"@));
            let j = choose|j: int| 0 <= j < g0.len() && (#[trigger] g0[j]).0 == rar_group(p[i].1@).0;
            assert(g[j] == g0[j]);
        } else {
            assert(g[g0.len() as int].0 == k);
        }
    }
}

/// Of each set of RAR parts exactly one file is extracted: the first with
/// the smallest part number; every set is extracted, and none twice.
pub proof fn lemma_rar_choice(files: Seq<(String, String)>)
    ensures
        groups_sound(files, rar_groups(files)),
    decreases files.len(),
{
    if files.len() == 0 {
        return;
    }
    let p = files.drop_last();
    lemma_rar_choice(p);
    let g0 = rar_groups(p);
    let name = files.last().1@;
    if !ends_with_text(name, ".rar"@) {
        lemma_step_other(files);
    } else {
        let k = rar_group(name).0;
        lemma_group_position(g0, k);
        match group_position(g0, k) {
            Some(j0) => {
                if rar_group(name).1 < g0[j0].1 {
                    lemma_step_lower(files, j0);
                } else {
                    lemma_step_same(files, j0);
                }
            },
            None => {
                lemma_step_new(files);
            },
        }
    }
}

/// The views of the kept RAR groups.
pub open spec fn group_views(g: Seq<(Vec<char>, u32, usize)>) -> Seq<(Seq<char>, u32, int)> {
    g.map_values(|x: (Vec<char>, u32, usize)| (x.0@, x.1, x.2 as int))
}

/// Where the group `k` stands among the kept groups.
fn find_group(g: &Vec<(Vec<char>, u32, usize)>, k: &[char]) -> (r: Option<usize>)
    ensures
        match r {
            Some(j) => j < g.len() && group_position(group_views(g@), k@) == Some(j as int),
            None => group_position(group_views(g@), k@) is None,
        },
{
    let ghost gv = group_views(g@);
    let mut j: usize = g.len();
    assert(gv.take(j as int) =~= gv);
    while j > 0
        invariant
            j <= g.len(),
            gv == group_views(g@),
            group_position(gv, k@) == group_position(gv.take(j as int), k@),
        decreases j,
    {
        let ghost cur = gv.take(j as int);
        assert(cur.last() == gv[j - 1]);
        if text_equal(&g[j - 1].0, k) {
            return Some(j - 1);
        }
        assert(cur.drop_last() =~= gv.take(j - 1));
        j = j - 1;
    }
    None
}

/// The archives to extract among a folder's files, given as (path, file name)
/// in folder order: per RAR group only the first file with the smallest part
/// number, then every ZIP file, all waiting to be extracted.
pub fn select_archives(files: &Vec<(String, String)>) -> (r: Vec<ArchiveItem>)
    ensures
        r.len() == chosen_positions(files@).len(),
        forall|k: int|
            0 <= k < r.len() ==> {
                &&& 0 <= chosen_positions(files@)[k] < files.len()
                &&& (#[trigger] r@[k]).path@ == files@[chosen_positions(files@)[k]].0@
                &&& r@[k].name@ == files@[chosen_positions(files@)[k]].1@
                &&& r@[k].status is Pending
            },
{
    let rar = chars_of(".rar");
    let zip = chars_of(".zip");
    let mut groups: Vec<(Vec<char>, u32, usize)> = Vec::new();
    let mut zips: Vec<usize> = Vec::new();
    let mut i: usize = 0;
    while i < files.len()
        invariant
            i <= files.len(),
            rar@ == ".rar"@,
            zip@ == ".zip"@,
            group_views(groups@) == rar_groups(files@.take(i as int)),
            zips@.map_values(|z: usize| z as int) == zip_positions(files@.take(i as int)),
            forall|j: int| 0 <= j < groups.len() ==> (#[trigger] groups@[j]).2 < i,
            forall|j: int| 0 <= j < zips.len() ==> #[trigger] zips@[j] < i,
        decreases files.len() - i,
    {
        let ghost prev = files@.take(i as int);
        let ghost next = files@.take(i + 1);
        assert(next.drop_last() =~= prev);
        assert(next.last() == files@[i as int]);
        let name = chars_of(files[i].1.as_str());
        if ends_with_chars(&name, &rar) {
            let (k, n) = rar_group_of(files[i].1.as_str());
            let ghost gprev = groups@;
            match find_group(&groups, &k) {
                Some(j) => {
                    if n < groups[j].1 {
                        groups.set(j, (k, n, i));
                        assert(group_views(groups@) =~= group_views(gprev).update(
                            j as int,
                            (group_views(groups@)[j as int]),
                        ));
                    }
                },
                None => {
                    groups.push((k, n, i));
                    assert(group_views(groups@) =~= group_views(gprev).push(
                        group_views(groups@).last(),
                    ));
                },
            }
        } else if ends_with_chars(&name, &zip) {
            let ghost zprev = zips@;
            zips.push(i);
            assert(zips@.map_values(|z: usize| z as int) =~= zprev.map_values(|z: usize| z as int).push(
                i as int,
            ));
        }
        i = i + 1;
    }
    assert(files@.take(files@.len() as int) =~= files@);
    let ghost chosen = chosen_positions(files@);
    let mut r: Vec<ArchiveItem> = Vec::new();
    let mut a: usize = 0;
    while a < groups.len()
        invariant
            a <= groups.len(),
            group_views(groups@) == rar_groups(files@),
            chosen == chosen_positions(files@),
            forall|j: int| 0 <= j < groups.len() ==> (#[trigger] groups@[j]).2 < files.len(),
            r.len() == a,
            forall|k: int|
                0 <= k < a ==> {
                    &&& 0 <= chosen[k] < files.len()
                    &&& (#[trigger] r@[k]).path@ == files@[chosen[k]].0@
                    &&& r@[k].name@ == files@[chosen[k]].1@
                    &&& r@[k].status is Pending
                },
        decreases groups.len() - a,
    {
        let at = groups[a].2;
        assert(chosen[a as int] == group_views(groups@)[a as int].2);
        r.push(
            ArchiveItem {
                path: files[at].0.clone(),
                name: files[at].1.clone(),
                status: ExtractStatus::Pending,
            },
        );
        a = a + 1;
    }
    let mut z: usize = 0;
    while z < zips.len()
        invariant
            z <= zips.len(),
            zips@.map_values(|v: usize| v as int) == zip_positions(files@),
            group_views(groups@) == rar_groups(files@),
            chosen == chosen_positions(files@),
            forall|j: int| 0 <= j < zips.len() ==> #[trigger] zips@[j] < files.len(),
            r.len() == groups.len() + z,
            forall|k: int|
                0 <= k < r.len() ==> {
                    &&& 0 <= chosen[k] < files.len()
                    &&& (#[trigger] r@[k]).path@ == files@[chosen[k]].0@
                    &&& r@[k].name@ == files@[chosen[k]].1@
                    &&& r@[k].status is Pending
                },
        decreases zips.len() - z,
    {
        let at = zips[z];
        assert(chosen[groups.len() + z] == zips@[z as int] as int);
        r.push(
            ArchiveItem {
                path: files[at].0.clone(),
                name: files[at].1.clone(),
                status: ExtractStatus::Pending,
            },
        );
        z = z + 1;
    }
    r
}


/// The folders that hold at least one archive, in the given order.
pub open spec fn with_archives(fs: Seq<GameFolder>) -> Seq<GameFolder>
    decreases fs.len(),
{
    if fs.len() == 0 {
        seq![]
    } else {
        let rest = with_archives(fs.drop_last());
        if fs.last().archives.len() > 0 {
            rest.push(fs.last())
        } else {
            rest
        }
    }
}

/// The folders named `n`, in order.
pub open spec fn named(fs: Seq<GameFolder>, n: Seq<char>) -> Seq<GameFolder>
    decreases fs.len(),
{
    if fs.len() == 0 {
        seq![]
    } else {
        let rest = named(fs.drop_last(), n);
        if fs.last().name@ == n {
            rest.push(fs.last())
        } else {
            rest
        }
    }
}

/// No folder's name comes before that of an earlier one.
pub open spec fn folders_sorted(fs: Seq<GameFolder>) -> bool {
    forall|i: int, j: int|
        0 <= i < j < fs.len() ==> !text_lt((#[trigger] fs[j]).name@, (#[trigger] fs[i]).name@)
}

/// Picking by name distributes over concatenation.
proof fn lemma_named_concat(a: Seq<GameFolder>, b: Seq<GameFolder>, n: Seq<char>)
    ensures
        named(a + b, n) == named(a, n) + named(b, n),
    decreases b.len(),
{
    if b.len() == 0 {
        assert(a + b =~= a);
        assert(named(a, n) + named(b, n) =~= named(a, n));
    } else {
        lemma_named_concat(a, b.drop_last(), n);
        assert((a + b).drop_last() =~= a + b.drop_last());
        assert((a + b).last() == b.last());
        assert(named(a + b, n) =~= named(a, n) + named(b, n));
    }
}

/// No folder of the list is named `n`.
proof fn lemma_named_none(s: Seq<GameFolder>, n: Seq<char>)
    requires
        forall|j: int| 0 <= j < s.len() ==> (#[trigger] s[j]).name@ != n,
    ensures
        named(s, n) == Seq::<GameFolder>::empty(),
    decreases s.len(),
{
    if s.len() > 0 {
        lemma_named_none(s.drop_last(), n);
    }
}

/// The game folders to offer: those with archives, sorted by name, folders
/// of the same name in their given order.
pub fn collect_game_folders(candidates: Vec<GameFolder>) -> (r: Vec<GameFolder>)
    ensures
        folders_sorted(r@),
        forall|n: Seq<char>| named(r@, n) == named(with_archives(candidates@), n),
        r.len() == with_archives(candidates@).len(),
{
    let ghost init = with_archives(candidates@);
    let ghost all = candidates@;
    let n = candidates.len();
    let mut remaining = candidates;
    let mut out: Vec<GameFolder> = Vec::new();
    let mut i: usize = 0;
    assert(all.skip(0) =~= all);
    while i < n
        invariant
            i <= n,
            n == all.len(),
            candidates@ == all,
            remaining@ == all.skip(i as int),
            folders_sorted(out@),
            forall|n: Seq<char>| named(out@, n) == named(with_archives(candidates@.take(i as int)), n),
            out.len() == with_archives(candidates@.take(i as int)).len(),
        decreases candidates.len() - i,
    {
        let ghost cur = candidates@.take(i as int);
        let ghost nxt = candidates@.take(i + 1);
        assert(nxt.drop_last() =~= cur);
        assert(nxt.last() == candidates@[i as int]);
        assert(remaining@[0] == all[i as int]);
        let x = remaining.remove(0);
        assert(remaining@ =~= all.skip(i + 1));
        if x.archives.len() > 0 {
            let xn = chars_of(x.name.as_str());
            let mut p: usize = 0;
            while p < out.len() && !name_less(&xn, out[p].name.as_str())
                invariant
                    p <= out.len(),
                    xn@ == x.name@,
                    forall|j: int| 0 <= j < p ==> !text_lt(x.name@, (#[trigger] out@[j]).name@),
                decreases out.len() - p,
            {
                p = p + 1;
            }
            let ghost before = out@;
            let ghost kx = x.name@;
            proof {
                assert forall|j: int| p <= j < before.len() implies text_lt(
                    kx,
                    (#[trigger] before[j]).name@,
                ) by {
                    assert(text_lt(kx, before[p as int].name@));
                    if j > p {
                        lemma_text_lt_total(before[p as int].name@, before[j].name@);
                        if before[p as int].name@ != before[j].name@ {
                            lemma_text_lt_transitive(kx, before[p as int].name@, before[j].name@);
                        }
                    }
                }
            }
            out.insert(p, x);
            proof {
                let after = out@;
                assert(after =~= before.take(p as int) + seq![x] + before.skip(p as int));
                assert forall|a: int, b: int| 0 <= a < b < after.len() implies !text_lt(
                    (#[trigger] after[b]).name@,
                    (#[trigger] after[a]).name@,
                ) by {
                    if b < p {
                    } else if b == p {
                    } else if a == p {
                        lemma_text_lt_total(kx, before[b - 1].name@);
                    } else if a < p {
                        lemma_text_lt_total(kx, before[b - 1].name@);
                        lemma_text_lt_total(before[a].name@, kx);
                        if text_lt(before[b - 1].name@, before[a].name@) {
                            lemma_text_lt_transitive(kx, before[b - 1].name@, before[a].name@);
                        }
                    } else {
                        assert(after[a] == before[a - 1]);
                        assert(after[b] == before[b - 1]);
                    }
                }
                assert forall|n: Seq<char>| named(after, n) == named(with_archives(nxt), n) by {
                    lemma_named_concat(before.take(p as int) + seq![x], before.skip(p as int), n);
                    lemma_named_concat(before.take(p as int), seq![x], n);
                    lemma_named_concat(before.take(p as int), before.skip(p as int), n);
                    assert(before.take(p as int) + before.skip(p as int) =~= before);
                    assert(named(seq![x], n) =~= if kx == n { seq![x] } else { seq![] }) by {
                        assert(seq![x].drop_last() =~= Seq::<GameFolder>::empty());
                        assert(named(Seq::<GameFolder>::empty(), n) =~= Seq::<GameFolder>::empty());
                    }
                    assert(with_archives(nxt) == with_archives(cur).push(candidates@[i as int]));
                    let wc = with_archives(cur);
                    assert(with_archives(nxt).drop_last() =~= wc);
                    if kx == n {
                        assert forall|j: int| 0 <= j < before.skip(p as int).len() implies (
                        #[trigger] before.skip(p as int)[j]).name@ != n by {
                            lemma_text_lt_irreflexive(kx);
                            assert(text_lt(kx, before[p + j].name@));
                        }
                        lemma_named_none(before.skip(p as int), n);
                        assert(named(after, n) =~= named(before, n).push(x));
                    } else {
                        assert(named(after, n) =~= named(before, n));
                    }
                }
            }
        } else {
            assert(with_archives(nxt) == with_archives(cur));
        }
        i = i + 1;
    }
    assert(all.take(n as int) =~= all);
    out
}

/// Whether the text `a` comes before the name `b`.
fn name_less(a: &Vec<char>, b: &str) -> (r: bool)
    ensures
        r == text_lt(a@, b@),
{
    let y = chars_of(b);
    match compare_text(a, &y) {
        TextOrder::Less => true,
        _ => false,
    }
}


/// How an archive is extracted, by its extension.
pub enum ArchiveKind {
    Rar,
    Zip,
    Unsupported,
}

/// What `str::to_lowercase` gives: the text with each character replaced by
/// its Unicode lower-case mapping.
pub uninterp spec fn lowercase_text(s: Seq<char>) -> Seq<char>;

/// A character in lower case when it is an ASCII capital letter.
pub open spec fn ascii_lower_char(c: char) -> char {
    if 65 <= (c as u32) <= 90 {
        ((c as u32) + 32) as char
    } else {
        c
    }
}

/// An ASCII text with its capital letters `A`–`Z` in lower case.
pub open spec fn ascii_lower(s: Seq<char>) -> Seq<char> {
    s.map_values(|c: char| ascii_lower_char(c))
}

/// `str::to_lowercase`; its result is named by `lowercase_text`. On an ASCII
/// text it lowers `A`–`Z` and leaves every other character as it is (outside
/// ASCII some characters lower to ASCII ones, such as the Kelvin sign to `k`,
/// so nothing more is said there).
#[verifier::external_body]
fn to_lowercase(s: &str) -> (r: String)
    ensures
        r@ == lowercase_text(s@),
        all_ascii(s@) ==> r@ == ascii_lower(s@),
{
    s.to_lowercase()
}

/// The kind of an archive by its extension, compared in lower case.
pub fn archive_kind(ext: &str) -> (r: ArchiveKind)
    ensures
        r is Rar <==> lowercase_text(ext@) == "rar"@,
        r is Zip <==> lowercase_text(ext@) == "zip"@,
        all_ascii(ext@) ==> (r is Rar <==> ascii_lower(ext@) == "rar"@),
        all_ascii(ext@) ==> (r is Zip <==> ascii_lower(ext@) == "zip"@),
{
    let lower = to_lowercase(ext);
    proof {
        reveal_strlit("rar");
        reveal_strlit("zip");
        assert("rar"@ != "zip"@) by {
            assert("rar"@[0] != "zip"@[0]);
        }
    }
    if crate::text::same_text(lower.as_str(), "rar") {
        ArchiveKind::Rar
    } else if crate::text::same_text(lower.as_str(), "zip") {
        ArchiveKind::Zip
    } else {
        ArchiveKind::Unsupported
    }
}

/// The status of an archive whose kind cannot be extracted.
pub fn unsupported_status() -> (r: ExtractStatus)
    ensures
        r matches ExtractStatus::Failed(m) && m@ == "unsupported format"@,
{
    ExtractStatus::Failed(string_of(&chars_of("unsupported format")))
}

/// The command that extracts RAR files: `unrar` when it is installed, else `unrar-free`.
pub fn rar_command(has_unrar: bool) -> (r: &'static str)
    ensures
        r@ == if has_unrar {
            "unrar"@
        } else {
            "unrar-free"@
        },
{
    if has_unrar {
        "unrar"
    } else {
        "unrar-free"
    }
}

/// How a run of the extraction command ended.
pub enum CommandOutcome {
    /// It ran and exited with success.
    Succeeded,
    /// It ran and failed, with what it wrote to standard error.
    Failed(String),
    /// It could not be started, with the reason.
    NotStarted(String),
}

/// The status of an archive whose extraction the user cancelled.
pub fn cancelled_status() -> (r: ExtractStatus)
    ensures
        r matches ExtractStatus::Failed(m) && m@ == "cancelled"@,
{
    ExtractStatus::Failed(string_of(&chars_of("cancelled")))
}

/// What reading one entry of a ZIP archive gave.
pub enum ZipEntryRead {
    /// A directory entry.
    Dir,
    /// A file entry.
    File,
    /// The entry could not be read, with the reason.
    Unreadable(String),
}

/// What to do with one entry of a ZIP archive.
pub enum ZipAction {
    /// Create the directory.
    MakeDir,
    /// Create the file's folder and write the file.
    WriteFile,
    /// Stop with this status.
    Stop(ExtractStatus),
}

/// What to do with the entry at `index` of a ZIP archive: make a directory,
/// write a file, or stop with `entry <index>: <reason>` when it cannot be read.
pub fn zip_entry_action(index: usize, entry: ZipEntryRead) -> (r: ZipAction)
    ensures
        match entry {
            ZipEntryRead::Dir => r is MakeDir,
            ZipEntryRead::File => r is WriteFile,
            ZipEntryRead::Unreadable(e) => r matches ZipAction::Stop(ExtractStatus::Failed(m)) && m@
                == "entry "@ + decimal_text(index as nat) + ": "@ + e@,
        },
{
    match entry {
        ZipEntryRead::Dir => ZipAction::MakeDir,
        ZipEntryRead::File => ZipAction::WriteFile,
        ZipEntryRead::Unreadable(e) => {
            let head = crate::board::count_message("entry ", index, ": ");
            ZipAction::Stop(ExtractStatus::Failed(crate::links::concat_str(head.as_str(), e.as_str())))
        },
    }
}

/// The status of a RAR archive after the extraction command: failed when
/// the user cancelled, done on success, else failed with the command's name
/// and its error.
pub fn rar_extract_status(cmd: &str, cancelled: bool, outcome: CommandOutcome) -> (r: ExtractStatus)
    ensures
        cancelled ==> (r matches ExtractStatus::Failed(m) && m@ == "cancelled"@),
        !cancelled ==> match outcome {
            CommandOutcome::Succeeded => r is Done,
            CommandOutcome::Failed(e) => (r matches ExtractStatus::Failed(m) && m@ == cmd@ + ": "@
                + e@),
            CommandOutcome::NotStarted(e) => (r matches ExtractStatus::Failed(m) && m@ == cmd@
                + " not found: "@ + e@),
        },
{
    if cancelled {
        return cancelled_status();
    }
    match outcome {
        CommandOutcome::Succeeded => ExtractStatus::Done,
        CommandOutcome::Failed(e) => {
            let head = crate::links::concat_str(cmd, ": ");
            ExtractStatus::Failed(crate::links::concat_str(head.as_str(), e.as_str()))
        },
        CommandOutcome::NotStarted(e) => {
            let head = crate::links::concat_str(cmd, " not found: ");
            ExtractStatus::Failed(crate::links::concat_str(head.as_str(), e.as_str()))
        },
    }
}

/// The icon shown beside an archive for its status.
pub fn extract_status_icon(status: &ExtractStatus) -> (r: &'static str)
    ensures
        r@ == match status {
            ExtractStatus::Pending => "⏳"@,
            ExtractStatus::Extracting => "⬇"@,
            ExtractStatus::Done => "✅"@,
            ExtractStatus::Failed(_) => "❌"@,
        },
{
    match status {
        ExtractStatus::Pending => "⏳",
        ExtractStatus::Extracting => "⬇",
        ExtractStatus::Done => "✅",
        ExtractStatus::Failed(_) => "❌",
    }
}

/// The position of the first archive still waiting, the one extracted next.
pub fn next_pending(items: &Vec<ArchiveItem>) -> (r: Option<usize>)
    ensures
        match r {
            Some(i) => i < items.len() && items@[i as int].status is Pending && forall|j: int|
                0 <= j < i ==> (#[trigger] items@[j]).status !is Pending,
            None => forall|j: int| 0 <= j < items.len() ==> (#[trigger] items@[j]).status !is Pending,
        },
{
    let mut i: usize = 0;
    while i < items.len()
        invariant
            i <= items.len(),
            forall|j: int| 0 <= j < i ==> (#[trigger] items@[j]).status !is Pending,
        decreases items.len() - i,
    {
        if let ExtractStatus::Pending = items[i].status {
            return Some(i);
        }
        i = i + 1;
    }
    None
}

/// Whether every archive is done or failed.
pub fn extraction_finished(items: &Vec<ArchiveItem>) -> (r: bool)
    ensures
        r == forall|j: int|
            0 <= j < items.len() ==> (#[trigger] items@[j]).status is Done || items@[j].status is Failed,
{
    let mut i: usize = 0;
    while i < items.len()
        invariant
            i <= items.len(),
            forall|j: int|
                0 <= j < i ==> (#[trigger] items@[j]).status is Done || items@[j].status is Failed,
        decreases items.len() - i,
    {
        match items[i].status {
            ExtractStatus::Done => {},
            ExtractStatus::Failed(_) => {},
            _ => {
                return false;
            },
        }
        i = i + 1;
    }
    true
}

/// The number of archives already extracted.
pub open spec fn done_count_of(s: Seq<ArchiveItem>) -> nat
    decreases s.len(),
{
    if s.len() == 0 {
        0
    } else {
        done_count_of(s.drop_last()) + if s.last().status is Done {
            1nat
        } else {
            0nat
        }
    }
}

/// The number of archives already extracted.
pub fn done_count(items: &Vec<ArchiveItem>) -> (r: usize)
    ensures
        r == done_count_of(items@),
        r == items@.filter(|a: ArchiveItem| a.status is Done).len(),
{
    proof {
        lemma_done_count(items@);
    }
    let mut n: usize = 0;
    let mut i: usize = 0;
    while i < items.len()
        invariant
            i <= items.len(),
            n == done_count_of(items@.take(i as int)),
            n <= i,
        decreases items.len() - i,
    {
        assert(items@.take(i + 1).drop_last() =~= items@.take(i as int));
        if let ExtractStatus::Done = items[i].status {
            n = n + 1;
        }
        i = i + 1;
    }
    assert(items@.take(items@.len() as int) =~= items@);
    n
}

/// The state of the extractor view beside the shared list of archives
/// (which the extraction worker updates): the game folders found, the path
/// of the selected one, and whether an extraction runs, has finished, or is
/// to be cancelled.
pub struct ExtractorTab {
    pub games: Vec<GameFolder>,
    pub dir: String,
    pub extracting: bool,
    pub done: bool,
    pub cancel: bool,
}

/// What happens in the extractor view.
pub enum ExtractorEvent {
    /// A search of the download folders gave these game folders.
    Search(Vec<GameFolder>),
    /// The downloads finished: the game folders found and the folder of the
    /// downloaded game.
    DownloadsFinished { games: Vec<GameFolder>, dir: String },
    /// The game folder with this path was clicked.
    Select(String),
    /// The rescan button was pressed.
    Rescan,
    /// The extract button was pressed; the statuses of the shared list.
    ExtractAll(Vec<ExtractStatus>),
    /// The cancel button was pressed.
    Cancel,
    /// The view is drawn again; the statuses of the shared list.
    Frame(Vec<ExtractStatus>),
    /// The downloads view is drawn again, which is where a finished
    /// extraction is noticed; the statuses of the shared list of archives.
    DownloadsViewFrame(Vec<ExtractStatus>),
}

/// What the caller is to do after a step of the extractor view.
pub enum ExtractorAction {
    Nothing,
    /// Empty the shared list of archives.
    ClearItems,
    /// Fill the shared list with the archives of this folder.
    ScanFolder(String),
    /// Clear the cancel flag and run the extraction worker.
    StartExtraction,
    /// Set the cancel flag the worker watches.
    SetCancelFlag,
}

/// The position of the first game folder whose path is `dir`.
pub open spec fn selected_game(games: Seq<GameFolder>, dir: Seq<char>) -> Option<int>
    decreases games.len(),
{
    if games.len() == 0 {
        None
    } else if games[0].path@ == dir {
        Some(0)
    } else {
        match selected_game(games.drop_first(), dir) {
            Some(j) => Some(j + 1),
            None => None,
        }
    }
}

/// Whether "Extract All" can be pressed: there are archives, none is being
/// extracted, and one waits.
pub open spec fn extract_all_enabled(tab: ExtractorTab, statuses: Seq<ExtractStatus>) -> bool {
    &&& statuses.len() > 0
    &&& !tab.extracting
    &&& exists|j: int| 0 <= j < statuses.len() && (#[trigger] statuses[j]) is Pending
}

/// Whether every archive is done or failed.
pub open spec fn all_extracted(s: Seq<ExtractStatus>) -> bool {
    forall|j: int| 0 <= j < s.len() ==> (#[trigger] s[j]) is Done || s[j] is Failed
}

/// The selected game folder, if one has the selected path.
fn find_selected(games: &Vec<GameFolder>, dir: &str) -> (r: Option<usize>)
    ensures
        match r {
            Some(i) => selected_game(games@, dir@) == Some(i as int) && i < games.len(),
            None => selected_game(games@, dir@) is None,
        },
{
    let mut i: usize = 0;
    assert(games@.skip(0) =~= games@);
    while i < games.len()
        invariant
            i <= games.len(),
            selected_game(games@, dir@) == match selected_game(games@.skip(i as int), dir@) {
                Some(j) => Some(j + i),
                None => None,
            },
        decreases games.len() - i,
    {
        assert(games@.skip(i as int)[0] == games@[i as int]);
        assert(games@.skip(i as int).drop_first() =~= games@.skip(i + 1));
        if crate::text::same_text(games[i].path.as_str(), dir) {
            return Some(i);
        }
        i = i + 1;
    }
    None
}

/// Whether "Extract All" can be pressed.
pub fn can_extract_all(tab: &ExtractorTab, statuses: &Vec<ExtractStatus>) -> (r: bool)
    ensures
        r == extract_all_enabled(*tab, statuses@),
{
    if statuses.len() == 0 || tab.extracting {
        return false;
    }
    let mut i: usize = 0;
    while i < statuses.len()
        invariant
            i <= statuses.len(),
            !tab.extracting,
            forall|j: int| 0 <= j < i ==> !((#[trigger] statuses@[j]) is Pending),
        decreases statuses.len() - i,
    {
        if let ExtractStatus::Pending = statuses[i] {
            assert(statuses@[i as int] is Pending);
            return true;
        }
        i = i + 1;
    }
    false
}

/// Whether every archive of a list of statuses is done or failed.
fn statuses_settled(s: &Vec<ExtractStatus>) -> (r: bool)
    ensures
        r == all_extracted(s@),
{
    let mut i: usize = 0;
    while i < s.len()
        invariant
            i <= s.len(),
            forall|j: int| 0 <= j < i ==> (#[trigger] s@[j]) is Done || s@[j] is Failed,
        decreases s.len() - i,
    {
        match s[i] {
            ExtractStatus::Done => {},
            ExtractStatus::Failed(_) => {},
            _ => {
                return false;
            },
        }
        i = i + 1;
    }
    true
}

/// One step of the extractor view. A search replaces the folders and empties
/// the list; finished downloads also select their folder and load its
/// archives; a click selects a folder; a rescan reloads the selected one;
/// "Extract All", when enabled, starts the worker with a cleared cancel flag;
/// cancel, while extracting, sets the flag; a redraw loads the selected
/// folder's archives when the list is empty; a redraw of the downloads view
/// ends the extraction once every archive is done or failed.
pub fn extractor_tab_step(tab: ExtractorTab, ev: ExtractorEvent) -> (r: (ExtractorTab, ExtractorAction))
    ensures
        match ev {
            ExtractorEvent::Search(found) => {
                &&& r.0.games@ == found@
                &&& r.0.dir@ == tab.dir@
                &&& r.0.extracting == tab.extracting && r.0.done == tab.done && r.0.cancel == tab.cancel
                &&& r.1 is ClearItems
            },
            ExtractorEvent::DownloadsFinished { games, dir } => {
                &&& r.0.games@ == games@
                &&& r.0.dir@ == dir@
                &&& r.0.extracting == tab.extracting && r.0.done == tab.done && r.0.cancel == tab.cancel
                &&& (r.1 matches ExtractorAction::ScanFolder(d) && d@ == dir@)
            },
            ExtractorEvent::Select(path) => {
                &&& r.0.games@ == tab.games@
                &&& r.0.dir@ == path@
                &&& r.0.extracting == tab.extracting && r.0.done == tab.done && r.0.cancel == tab.cancel
                &&& r.1 is Nothing
            },
            ExtractorEvent::Rescan => {
                &&& r.0.games@ == tab.games@
                &&& r.0.dir@ == tab.dir@
                &&& r.0.extracting == tab.extracting && r.0.done == tab.done && r.0.cancel == tab.cancel
                &&& match selected_game(tab.games@, tab.dir@) {
                    Some(i) => r.1 matches ExtractorAction::ScanFolder(d) && d@ == tab.games@[i].path@,
                    None => r.1 is Nothing,
                }
            },
            ExtractorEvent::ExtractAll(statuses) => {
                &&& r.0.games@ == tab.games@
                &&& r.0.dir@ == tab.dir@
                &&& if extract_all_enabled(tab, statuses@) {
                    r.0.extracting && !r.0.done && !r.0.cancel && r.1 is StartExtraction
                } else {
                    r.0.extracting == tab.extracting && r.0.done == tab.done && r.0.cancel
                        == tab.cancel && r.1 is Nothing
                }
            },
            ExtractorEvent::Cancel => {
                &&& r.0.games@ == tab.games@
                &&& r.0.dir@ == tab.dir@
                &&& r.0.extracting == tab.extracting && r.0.done == tab.done
                &&& if tab.extracting {
                    r.0.cancel && r.1 is SetCancelFlag
                } else {
                    r.0.cancel == tab.cancel && r.1 is Nothing
                }
            },
            ExtractorEvent::DownloadsViewFrame(statuses) => {
                &&& r.0.games@ == tab.games@
                &&& r.0.dir@ == tab.dir@
                &&& r.0.cancel == tab.cancel
                &&& if tab.extracting && all_extracted(statuses@) {
                    !r.0.extracting && r.0.done
                } else {
                    r.0.extracting == tab.extracting && r.0.done == tab.done
                }
                &&& (exists|j: int|
                    0 <= j < statuses.len() && !((#[trigger] statuses@[j]) is Done || statuses@[j] is Failed))
                    ==> r.0.extracting == tab.extracting && r.0.done == tab.done
                &&& r.1 is Nothing
            },
            ExtractorEvent::Frame(statuses) => {
                &&& r.0.games@ == tab.games@
                &&& r.0.dir@ == tab.dir@
                &&& r.0.cancel == tab.cancel
                &&& r.0.extracting == tab.extracting && r.0.done == tab.done
                &&& match selected_game(tab.games@, tab.dir@) {
                    Some(i) if statuses.len() == 0 => (r.1 matches ExtractorAction::ScanFolder(d)
                        && d@ == tab.games@[i].path@),
                    _ => r.1 is Nothing,
                }
            },
        },
{
    let ExtractorTab { games, dir, extracting, done, cancel } = tab;
    match ev {
        ExtractorEvent::Search(found) => {
            (ExtractorTab { games: found, dir, extracting, done, cancel }, ExtractorAction::ClearItems)
        },
        ExtractorEvent::DownloadsFinished { games: found, dir: d } => {
            let scan = crate::links::concat_str(d.as_str(), "");
            proof {
                reveal_strlit("");
                assert(d@ + ""@ =~= d@);
            }
            (ExtractorTab { games: found, dir: d, extracting, done, cancel }, ExtractorAction::ScanFolder(scan))
        },
        ExtractorEvent::Select(path) => {
            (ExtractorTab { games, dir: path, extracting, done, cancel }, ExtractorAction::Nothing)
        },
        ExtractorEvent::Rescan => {
            match find_selected(&games, dir.as_str()) {
                Some(i) => {
                    let p = crate::links::concat_str(games[i].path.as_str(), "");
                    proof {
                        reveal_strlit("");
                        assert(games@[i as int].path@ + ""@ =~= games@[i as int].path@);
                    }
                    (ExtractorTab { games, dir, extracting, done, cancel }, ExtractorAction::ScanFolder(p))
                },
                None => (ExtractorTab { games, dir, extracting, done, cancel }, ExtractorAction::Nothing),
            }
        },
        ExtractorEvent::ExtractAll(statuses) => {
            let t = ExtractorTab { games, dir, extracting, done, cancel };
            if can_extract_all(&t, &statuses) {
                let ExtractorTab { games, dir, .. } = t;
                (ExtractorTab { games, dir, extracting: true, done: false, cancel: false }, ExtractorAction::StartExtraction)
            } else {
                (t, ExtractorAction::Nothing)
            }
        },
        ExtractorEvent::Cancel => {
            if extracting {
                (ExtractorTab { games, dir, extracting, done, cancel: true }, ExtractorAction::SetCancelFlag)
            } else {
                (ExtractorTab { games, dir, extracting, done, cancel }, ExtractorAction::Nothing)
            }
        },
        ExtractorEvent::DownloadsViewFrame(statuses) => {
            let finished = extracting && statuses_settled(&statuses);
            let (extracting, done) = if finished {
                (false, true)
            } else {
                (extracting, done)
            };
            (ExtractorTab { games, dir, extracting, done, cancel }, ExtractorAction::Nothing)
        },
        ExtractorEvent::Frame(statuses) => {
            let action = if statuses.len() == 0 {
                match find_selected(&games, dir.as_str()) {
                    Some(i) => {
                        let p = crate::links::concat_str(games[i].path.as_str(), "");
                        proof {
                            reveal_strlit("");
                            assert(games@[i as int].path@ + ""@ =~= games@[i as int].path@);
                        }
                        ExtractorAction::ScanFolder(p)
                    },
                    None => ExtractorAction::Nothing,
                }
            } else {
                ExtractorAction::Nothing
            };
            (ExtractorTab { games, dir, extracting, done, cancel }, action)
        },
    }
}

/// An extraction is over exactly when no archive waits or is being
/// extracted.
pub proof fn lemma_extraction_over(s: Seq<ExtractStatus>)
    ensures
        all_extracted(s) <==> !exists|j: int|
            0 <= j < s.len() && ((#[trigger] s[j]) is Pending || s[j] is Extracting),
{
    if !all_extracted(s) {
        let j = choose|j: int| 0 <= j < s.len() && !((#[trigger] s[j]) is Done || s[j] is Failed);
        assert(s[j] is Pending || s[j] is Extracting);
    }
}

/// The done count is the number of archives whose status is `Done`: it is
/// at most the number of archives, and equal to it exactly when every
/// archive is done.
pub proof fn lemma_done_count(s: Seq<ArchiveItem>)
    ensures
        done_count_of(s) == s.filter(|a: ArchiveItem| a.status is Done).len(),
        done_count_of(s) <= s.len(),
        done_count_of(s) == s.len() <==> forall|j: int| 0 <= j < s.len() ==> (#[trigger] s[j]).status is Done,
    decreases s.len(),
{
    reveal(Seq::filter);
    if s.len() > 0 {
        let p = s.drop_last();
        lemma_done_count(p);
        if done_count_of(s) == s.len() {
            assert forall|j: int| 0 <= j < s.len() implies (#[trigger] s[j]).status is Done by {
                if j < p.len() {
                    assert(p[j] == s[j]);
                    assert(p[j].status is Done);
                }
            }
        }
        if forall|j: int| 0 <= j < s.len() ==> (#[trigger] s[j]).status is Done {
            assert forall|j: int| 0 <= j < p.len() implies (#[trigger] p[j]).status is Done by {
                assert(p[j] == s[j]);
            }
            assert(s[s.len() - 1].status is Done);
        }
    }
}

} // verus!
