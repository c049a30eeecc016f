//! Strictly ascending lists of texts: what `sort` followed by `dedup` leaves.
use vstd::prelude::*;
use crate::text::{text_lt, compare_text, TextOrder, lemma_text_lt_transitive, lemma_text_lt_total, lemma_text_lt_irreflexive, string_of};

verus! {

/// The views of a list of character vectors.
pub open spec fn char_views(s: Seq<Vec<char>>) -> Seq<Seq<char>> {
    s.map_values(|v: Vec<char>| v@)
}

/// Each text comes before every later one: sorted, with no text twice.
pub open spec fn strictly_ascending(s: Seq<Seq<char>>) -> bool {
    forall|i: int, j: int| 0 <= i < j < s.len() ==> text_lt(#[trigger] s[i], #[trigger] s[j])
}

/// A strictly ascending list is determined by what it contains.
pub proof fn lemma_ascending_unique(a: Seq<Seq<char>>, b: Seq<Seq<char>>)
    requires
        strictly_ascending(a),
        strictly_ascending(b),
        forall|x: Seq<char>| a.contains(x) <==> b.contains(x),
    ensures
        a == b,
    decreases a.len() + b.len(),
{
    if a.len() == 0 {
        if b.len() > 0 {
            assert(b.contains(b[0]));
        }
        assert(a =~= b);
    } else if b.len() == 0 {
        assert(a.contains(a[0]));
    } else {
        // The first elements are the least of each list, so they agree.
        assert(a.contains(a[0]));
        let jb = choose|j: int| 0 <= j < b.len() && b[j] == a[0];
        assert(b.contains(b[0]));
        let ja = choose|j: int| 0 <= j < a.len() && a[j] == b[0];
        if ja > 0 {
            assert(text_lt(a[0], a[ja]));
            if jb > 0 {
                assert(text_lt(b[0], b[jb]));
                lemma_text_lt_transitive(a[0], b[0], a[0]);
                lemma_text_lt_irreflexive(a[0]);
            }
        }
        assert(a[0] == b[0]);
        let ta = a.drop_first();
        let tb = b.drop_first();
        assert forall|x: Seq<char>| ta.contains(x) <==> tb.contains(x) by {
            if ta.contains(x) {
                let i = choose|i: int| 0 <= i < ta.len() && ta[i] == x;
                assert(text_lt(a[0], a[i + 1]));
                assert(a.contains(x));
                let j = choose|j: int| 0 <= j < b.len() && b[j] == x;
                if j == 0 {
                    lemma_text_lt_irreflexive(a[0]);
                }
                assert(tb[j - 1] == x);
            }
            if tb.contains(x) {
                let i = choose|i: int| 0 <= i < tb.len() && tb[i] == x;
                assert(text_lt(b[0], b[i + 1]));
                assert(b.contains(x));
                let j = choose|j: int| 0 <= j < a.len() && a[j] == x;
                if j == 0 {
                    lemma_text_lt_irreflexive(b[0]);
                }
                assert(ta[j - 1] == x);
            }
        }
        lemma_ascending_unique(ta, tb);
        assert(a =~= seq![a[0]] + ta);
        assert(b =~= seq![b[0]] + tb);
    }
}

/// Whether `a` comes before `b`.
fn text_less(a: &[char], b: &[char]) -> (r: bool)
    ensures
        r == text_lt(a@, b@),
{
    match compare_text(a, b) {
        TextOrder::Less => true,
        _ => false,
    }
}

/// Whether `a` and `b` hold the same characters.
fn text_same(a: &[char], b: &[char]) -> (r: bool)
    ensures
        r == (a@ == b@),
{
    match compare_text(a, b) {
        TextOrder::Same => true,
        _ => false,
    }
}

/// Adds `x` to a strictly ascending list, unless it is there already.
pub fn insert_ascending(out: &mut Vec<Vec<char>>, x: Vec<char>)
    requires
        strictly_ascending(char_views(old(out)@)),
    ensures
        strictly_ascending(char_views(final(out)@)),
        forall|y: Seq<char>|
            char_views(final(out)@).contains(y) <==> (char_views(old(out)@).contains(y) || y
                == x@),
{
    let ghost before = char_views(out@);
    let mut i: usize = 0;
    while i < out.len() && text_less(&out[i], &x)
        invariant
            i <= out.len(),
            char_views(out@) == before,
            strictly_ascending(before),
            forall|j: int| 0 <= j < i ==> text_lt(#[trigger] before[j], x@),
        decreases out.len() - i,
    {
        i = i + 1;
    }
    if i < out.len() && text_same(&out[i], &x) {
        assert(before[i as int] == x@);
        assert(before.contains(x@));
        return;
    }
    let ghost at = i as int;
    proof {
        if at < before.len() {
            lemma_text_lt_total(before[at], x@);
            assert(text_lt(x@, before[at]));
        }
    }
    out.insert(i, x);
    let ghost after = char_views(out@);
    assert(after =~= before.insert(at, x@));
    assert forall|a: int, b: int| 0 <= a < b < after.len() implies text_lt(
        #[trigger] after[a],
        #[trigger] after[b],
    ) by {
        if b < at {
        } else if b == at {
        } else if a == at {
            assert(text_lt(x@, before[at]));
            if b - 1 > at {
                lemma_text_lt_transitive(x@, before[at], before[b - 1]);
            }
        } else if a < at {
            assert(text_lt(x@, before[at]));
            if b - 1 > at {
                lemma_text_lt_transitive(x@, before[at], before[b - 1]);
            }
            lemma_text_lt_transitive(before[a], x@, before[b - 1]);
        } else {
        }
    }
    assert forall|y: Seq<char>| after.contains(y) <==> (before.contains(y) || y == x@) by {
        if after.contains(y) {
            let k = choose|k: int| 0 <= k < after.len() && after[k] == y;
            if k < at {
                assert(before[k] == y);
            } else if k > at {
                assert(before[k - 1] == y);
            }
        }
        if before.contains(y) {
            let k = choose|k: int| 0 <= k < before.len() && before[k] == y;
            if k < at {
                assert(after[k] == y);
            } else {
                assert(after[k + 1] == y);
            }
        }
        if y == x@ {
            assert(after[at] == y);
        }
    }
}

/// The strings holding the given character vectors.
pub fn strings_of(v: &Vec<Vec<char>>) -> (r: Vec<String>)
    ensures
        r@.map_values(|s: String| s@) == char_views(v@),
{
    let mut r: Vec<String> = Vec::new();
    let mut i: usize = 0;
    while i < v.len()
        invariant
            i <= v.len(),
            r@.len() == i,
            r@.map_values(|s: String| s@) == char_views(v@).take(i as int),
        decreases v.len() - i,
    {
        let s = string_of(&v[i]);
        let ghost prev = r@;
        r.push(s);
        assert forall|k: int| 0 <= k < i + 1 implies #[trigger] r@[k]@ == v@[k]@ by {
            if k < i {
                assert(prev.map_values(|s: String| s@)[k] == char_views(v@).take(i as int)[k]);
            }
        }
        assert(r@.map_values(|s: String| s@) =~= char_views(v@).take(i + 1));
        i = i + 1;
    }
    assert(char_views(v@).take(v@.len() as int) =~= char_views(v@));
    r
}

} // verus!
