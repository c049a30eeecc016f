//! Character-level helpers over `Seq<char>` models of strings.
use vstd::prelude::*;

verus! {

/// The Unicode `White_Space` property: the characters that
/// `char::is_whitespace`, `str::trim` and the regex class `\s` treat as space.
pub open spec fn is_white_space(c: char) -> bool {
    let u = c as u32;
    ||| 0x09 <= u <= 0x0d
    ||| u == 0x20
    ||| u == 0x85
    ||| u == 0xa0
    ||| u == 0x1680
    ||| 0x2000 <= u <= 0x200a
    ||| u == 0x2028
    ||| u == 0x2029
    ||| u == 0x202f
    ||| u == 0x205f
    ||| u == 0x3000
}

/// Whether `c` is a Unicode white-space character.
pub fn is_white_space_char(c: char) -> (r: bool)
    ensures
        r == is_white_space(c),
{
    let u = c as u32;
    (0x09 <= u && u <= 0x0d) || u == 0x20 || u == 0x85 || u == 0xa0 || u == 0x1680 || (0x2000
        <= u && u <= 0x200a) || u == 0x2028 || u == 0x2029 || u == 0x202f || u == 0x205f || u
        == 0x3000
}

/// The characters of a string, in order.
pub fn chars_of(s: &str) -> (r: Vec<char>)
    ensures
        r@ == s@,
{
    broadcast use vstd::string::axiom_spec_iter;

    let mut r: Vec<char> = Vec::new();
    for c in it: s.chars()
        invariant
            it.seq() == s@,
            r@ == s@.take(it.index() as int),
    {
        r.push(c);
    }
    r
}

/// `String::push`: appends one character.
#[verifier::external_body]
fn push_char(s: &mut String, c: char)
    ensures
        final(s)@ == old(s)@.push(c),
{
    s.push(c);
}

/// A string holding exactly the given characters.
pub fn string_of(cs: &[char]) -> (r: String)
    ensures
        r@ == cs@,
{
    let mut r = String::new();
    let mut i: usize = 0;
    while i < cs.len()
        invariant
            i <= cs.len(),
            r@ == cs@.take(i as int),
        decreases cs.len() - i,
    {
        push_char(&mut r, cs[i]);
        assert(cs@.take(i as int).push(cs@[i as int]) =~= cs@.take(i + 1));
        i = i + 1;
    }
    assert(cs@.take(cs@.len() as int) =~= cs@);
    r
}

/// The characters `s[a..b]`.
pub fn slice_chars(s: &[char], a: usize, b: usize) -> (r: Vec<char>)
    requires
        a <= b <= s.len(),
    ensures
        r@ == s@.subrange(a as int, b as int),
{
    let mut r: Vec<char> = Vec::new();
    let mut i: usize = a;
    while i < b
        invariant
            a <= i <= b <= s.len(),
            r@ == s@.subrange(a as int, i as int),
        decreases b - i,
    {
        r.push(s[i]);
        assert(s@.subrange(a as int, i as int).push(s@[i as int]) =~= s@.subrange(
            a as int,
            i + 1,
        ));
        i = i + 1;
    }
    r
}

/// `str::split(c).next()`: the text before the first `c`, or all of it.
pub open spec fn before_first(s: Seq<char>, c: char) -> Seq<char> {
    match s.index_of_first(c) {
        Some(i) => s.take(i),
        None => s,
    }
}

/// The text after the first `c`, if there is one.
pub open spec fn after_first(s: Seq<char>, c: char) -> Option<Seq<char>> {
    match s.index_of_first(c) {
        Some(i) => Some(s.skip(i + 1)),
        None => None,
    }
}

/// `str::split(c).nth(1)`: the field between the first and the second `c`.
pub open spec fn second_field(s: Seq<char>, c: char) -> Option<Seq<char>> {
    match after_first(s, c) {
        Some(rest) => Some(before_first(rest, c)),
        None => None,
    }
}

/// `str::rsplit(c).next()`: the text after the last `c`, or all of it.
pub open spec fn after_last(s: Seq<char>, c: char) -> Seq<char> {
    match s.index_of_last(c) {
        Some(i) => s.skip(i + 1),
        None => s,
    }
}

/// The index of the first `c` in `s`.
pub fn first_index_of(s: &[char], c: char) -> (r: Option<usize>)
    ensures
        match r {
            Some(i) => i < s.len() && s@.index_of_first(c) == Some(i as int),
            None => s@.index_of_first(c) is None,
        },
{
    proof {
        s@.index_of_first_ensures(c);
    }
    let mut i: usize = 0;
    while i < s.len()
        invariant
            i <= s.len(),
            forall|j: int| 0 <= j < i ==> s@[j] != c,
            match s@.index_of_first(c) {
                Some(index) => {
                    &&& 0 <= index < s@.len()
                    &&& s@[index] == c
                    &&& forall|j: int| 0 <= j < index < s@.len() ==> s@[j] != c
                },
                None => !s@.contains(c),
            },
        decreases s.len() - i,
    {
        if s[i] == c {
            assert(s@.contains(c));
            return Some(i);
        }
        i = i + 1;
    }
    None
}

/// The index of the last `c` in `s`.
pub fn last_index_of(s: &[char], c: char) -> (r: Option<usize>)
    ensures
        match r {
            Some(i) => i < s.len() && s@.index_of_last(c) == Some(i as int),
            None => s@.index_of_last(c) is None,
        },
{
    proof {
        s@.index_of_last_ensures(c);
    }
    let mut i: usize = s.len();
    while i > 0
        invariant
            i <= s.len(),
            forall|j: int| i <= j < s.len() ==> s@[j] != c,
            match s@.index_of_last(c) {
                Some(index) => {
                    &&& 0 <= index < s@.len()
                    &&& s@[index] == c
                    &&& forall|j: int| 0 <= index < j < s@.len() ==> s@[j] != c
                },
                None => !s@.contains(c),
            },
        decreases i,
    {
        if s[i - 1] == c {
            assert(s@.contains(c));
            return Some(i - 1);
        }
        i = i - 1;
    }
    None
}

/// `str::split(c).next()` on characters.
pub fn before_first_chars(s: &[char], c: char) -> (r: Vec<char>)
    ensures
        r@ == before_first(s@, c),
{
    match first_index_of(s, c) {
        Some(i) => slice_chars(s, 0, i),
        None => slice_chars(s, 0, s.len()),
    }
}

/// `str::split(c).nth(1)` on characters.
pub fn second_field_chars(s: &[char], c: char) -> (r: Option<Vec<char>>)
    ensures
        match r {
            Some(v) => second_field(s@, c) == Some(v@),
            None => second_field(s@, c) is None,
        },
{
    proof {
        s@.index_of_first_ensures(c);
    }
    match first_index_of(s, c) {
        Some(i) => {
            let rest = slice_chars(s, i + 1, s.len());
            Some(before_first_chars(&rest, c))
        },
        None => None,
    }
}

/// `str::rsplit(c).next()` on characters.
pub fn after_last_chars(s: &[char], c: char) -> (r: Vec<char>)
    ensures
        r@ == after_last(s@, c),
{
    proof {
        s@.index_of_last_ensures(c);
    }
    match last_index_of(s, c) {
        Some(i) => slice_chars(s, i + 1, s.len()),
        None => slice_chars(s, 0, s.len()),
    }
}

/// Whether `p` occurs in `s` starting at index `i`.
pub open spec fn occurs_at(s: Seq<char>, p: Seq<char>, i: int) -> bool {
    0 <= i && i + p.len() <= s.len() && s.subrange(i, i + p.len()) == p
}

/// Whether `p` occurs anywhere in `s` (`str::contains`).
pub open spec fn contains_text(s: Seq<char>, p: Seq<char>) -> bool {
    exists|i: int| occurs_at(s, p, i)
}

/// Whether `p` occurs in `s` at index `i`.
pub fn occurs_at_exec(s: &[char], p: &[char], i: usize) -> (r: bool)
    ensures
        r == occurs_at(s@, p@, i as int),
{
    if i > s.len() || p.len() > s.len() - i {
        return false;
    }
    let mut k: usize = 0;
    while k < p.len()
        invariant
            i + p.len() <= s.len(),
            k <= p.len(),
            forall|j: int| 0 <= j < k ==> s@[i + j] == p@[j],
        decreases p.len() - k,
    {
        if s[i + k] != p[k] {
            assert(s@.subrange(i as int, i + p@.len())[k as int] != p@[k as int]);
            return false;
        }
        k = k + 1;
    }
    assert(s@.subrange(i as int, i + p@.len()) =~= p@);
    true
}

/// The first index at or after `from` where `p` occurs in `s`.
pub fn find_from(s: &[char], p: &[char], from: usize) -> (r: Option<usize>)
    ensures
        match r {
            Some(i) => from <= i && occurs_at(s@, p@, i as int) && forall|j: int|
                from <= j < i ==> !occurs_at(s@, p@, j),
            None => forall|j: int| from <= j ==> !occurs_at(s@, p@, j),
        },
{
    let mut i: usize = from;
    while i < s.len()
        invariant
            from <= i,
            forall|j: int| from <= j < i ==> !occurs_at(s@, p@, j),
        decreases s.len() - i,
    {
        if occurs_at_exec(s, p, i) {
            return Some(i);
        }
        i = i + 1;
    }
    if occurs_at_exec(s, p, i) {
        return Some(i);
    }
    assert forall|j: int| from <= j implies !occurs_at(s@, p@, j) by {
        if j > i {
            assert(j > s@.len());
        }
    }
    None
}

/// Whether `p` occurs in `s` (`str::contains` on characters).
pub fn contains_chars(s: &[char], p: &[char]) -> (r: bool)
    ensures
        r == contains_text(s@, p@),
{
    match find_from(s, p, 0) {
        Some(i) => true,
        None => false,
    }
}


/// The text with every leading character that satisfies `p` removed.
pub open spec fn drop_leading(s: Seq<char>, p: spec_fn(char) -> bool) -> Seq<char>
    decreases s.len(),
{
    if s.len() > 0 && p(s[0]) {
        drop_leading(s.drop_first(), p)
    } else {
        s
    }
}

/// The text with every trailing character that satisfies `p` removed.
pub open spec fn drop_trailing(s: Seq<char>, p: spec_fn(char) -> bool) -> Seq<char>
    decreases s.len(),
{
    if s.len() > 0 && p(s.last()) {
        drop_trailing(s.drop_last(), p)
    } else {
        s
    }
}

/// `str::trim`: leading and trailing white space removed.
pub open spec fn trim_text(s: Seq<char>) -> Seq<char> {
    drop_trailing(drop_leading(s, |c: char| is_white_space(c)), |c: char| is_white_space(c))
}

/// Dropping a leading run of `p` characters of length `k` leaves `s.skip(k)`.
pub proof fn lemma_drop_leading(s: Seq<char>, p: spec_fn(char) -> bool, k: int)
    requires
        0 <= k <= s.len(),
        forall|j: int| 0 <= j < k ==> p(#[trigger] s[j]),
        k == s.len() || !p(s[k]),
    ensures
        drop_leading(s, p) == s.skip(k),
    decreases k,
{
    if k == 0 {
        assert(s.skip(0) =~= s);
    } else {
        assert(p(s[0]));
        let t = s.drop_first();
        assert forall|j: int| 0 <= j < k - 1 implies p(#[trigger] t[j]) by {
            assert(t[j] == s[j + 1]);
        }
        lemma_drop_leading(t, p, k - 1);
        assert(t.skip(k - 1) =~= s.skip(k));
    }
}

/// Dropping a trailing run of `p` characters that starts at `k` leaves `s.take(k)`.
pub proof fn lemma_drop_trailing(s: Seq<char>, p: spec_fn(char) -> bool, k: int)
    requires
        0 <= k <= s.len(),
        forall|j: int| k <= j < s.len() ==> p(#[trigger] s[j]),
        k == 0 || !p(s[k - 1]),
    ensures
        drop_trailing(s, p) == s.take(k),
    decreases s.len() - k,
{
    if k == s.len() {
        assert(s.take(k) =~= s);
    } else {
        assert(p(s.last()));
        let t = s.drop_last();
        assert forall|j: int| k <= j < t.len() implies p(#[trigger] t[j]) by {
            assert(t[j] == s[j]);
        }
        lemma_drop_trailing(t, p, k);
        assert(t.take(k) =~= s.take(k));
    }
}

/// What `drop_leading` leaves is a suffix of the text that starts at a
/// character not satisfying `p`.
pub proof fn lemma_drop_leading_shape(s: Seq<char>, p: spec_fn(char) -> bool) -> (k: int)
    ensures
        0 <= k <= s.len(),
        drop_leading(s, p) == s.skip(k),
        k == s.len() || !p(s[k]),
    decreases s.len(),
{
    if s.len() > 0 && p(s[0]) {
        let k = lemma_drop_leading_shape(s.drop_first(), p);
        assert(s.drop_first().skip(k) =~= s.skip(k + 1));
        k + 1
    } else {
        assert(s.skip(0) =~= s);
        0
    }
}

/// What `drop_trailing` leaves is a prefix of the text that ends at a
/// character not satisfying `p`.
pub proof fn lemma_drop_trailing_shape(s: Seq<char>, p: spec_fn(char) -> bool) -> (k: int)
    ensures
        0 <= k <= s.len(),
        drop_trailing(s, p) == s.take(k),
        k == 0 || !p(s[k - 1]),
    decreases s.len(),
{
    if s.len() > 0 && p(s.last()) {
        let k = lemma_drop_trailing_shape(s.drop_last(), p);
        assert(s.drop_last().take(k) =~= s.take(k));
        k
    } else {
        assert(s.take(s.len() as int) =~= s);
        s.len() as int
    }
}

/// A trimmed text is a piece of the text with no white space at either end.
pub proof fn lemma_trim_shape(s: Seq<char>)
    ensures
        exists|a: int, b: int| 0 <= a <= b <= s.len() && trim_text(s) == s.subrange(a, b),
        trim_text(s).len() > 0 ==> !is_white_space(trim_text(s)[0]) && !is_white_space(
            trim_text(s).last(),
        ),
{
    let ws = |c: char| is_white_space(c);
    let a = lemma_drop_leading_shape(s, ws);
    let t = s.skip(a);
    let b = lemma_drop_trailing_shape(t, ws);
    assert(t.take(b) =~= s.subrange(a, a + b));
    if b > 0 {
        assert(trim_text(s)[0] == t[0]);
        if a < s.len() {
            assert(t[0] == s[a]);
        }
        assert(trim_text(s).last() == t[b - 1]);
    }
}

/// Dropping a white-space character from the end does not change the trim.
pub proof fn lemma_trim_drop_space_last(x: Seq<char>)
    requires
        x.len() > 0,
        is_white_space(x.last()),
    ensures
        trim_text(x.drop_last()) == trim_text(x),
{
    let ws = |c: char| is_white_space(c);
    let y = x.drop_last();
    let a = lemma_drop_leading_shape(x, ws);
    assert forall|j: int| 0 <= j < a implies ws(#[trigger] x[j]) by {
        lemma_drop_leading_prefix(x, ws, a, j);
    }
    if a == x.len() {
        assert forall|j: int| 0 <= j < y.len() implies ws(#[trigger] y[j]) by {
            assert(y[j] == x[j]);
            assert(ws(x[j]));
        }
        lemma_drop_leading(y, ws, y.len() as int);
        assert(y.skip(y.len() as int) =~= Seq::<char>::empty());
        assert(x.skip(a) =~= Seq::<char>::empty());
    } else {
        assert(a < x.len() - 1);
        assert forall|j: int| 0 <= j < a implies ws(#[trigger] y[j]) by {
            assert(y[j] == x[j]);
            assert(ws(x[j]));
        }
        assert(y[a] == x[a]);
        lemma_drop_leading(y, ws, a);
        let z = x.skip(a);
        assert(y.skip(a) =~= z.drop_last());
        assert(z.last() == x.last());
        assert(drop_trailing(z, ws) == drop_trailing(z.drop_last(), ws));
    }
}

/// The characters before the start of what `drop_leading` leaves all satisfy `p`.
proof fn lemma_drop_leading_prefix(s: Seq<char>, p: spec_fn(char) -> bool, a: int, j: int)
    requires
        drop_leading(s, p) == s.skip(a),
        0 <= a <= s.len(),
        0 <= j < a,
    ensures
        p(s[j]),
    decreases s.len(),
{
    if s.len() > 0 && p(s[0]) {
        if j > 0 {
            let t = s.drop_first();
            assert(t.skip(a - 1) =~= s.skip(a));
            lemma_drop_leading_prefix(t, p, a - 1, j - 1);
            assert(t[j - 1] == s[j]);
        }
    } else {
        assert(s.skip(a).len() == s.len() - a);
        assert(drop_leading(s, p) == s);
    }
}

/// A text with no white space at either end is its own trim.
pub proof fn lemma_trim_fixed(t: Seq<char>)
    requires
        t.len() > 0 ==> !is_white_space(t[0]) && !is_white_space(t.last()),
    ensures
        trim_text(t) == t,
{
    let ws = |c: char| is_white_space(c);
    lemma_drop_leading(t, ws, 0);
    assert(t.skip(0) =~= t);
    lemma_drop_trailing(t, ws, t.len() as int);
    assert(t.take(t.len() as int) =~= t);
}

/// `str::trim` on characters.
pub fn trim_chars(s: &[char]) -> (r: Vec<char>)
    ensures
        r@ == trim_text(s@),
{
    let ghost ws = |c: char| is_white_space(c);
    let mut a: usize = 0;
    assert(ws == |c: char| is_white_space(c));
    while a < s.len() && is_white_space_char(s[a])
        invariant
            a <= s.len(),
            forall|j: int| 0 <= j < a ==> is_white_space(#[trigger] s@[j]),
        decreases s.len() - a,
    {
        a = a + 1;
    }
    let mut b: usize = s.len();
    while b > a && is_white_space_char(s[b - 1])
        invariant
            a <= b <= s.len(),
            forall|j: int| b <= j < s.len() ==> is_white_space(#[trigger] s@[j]),
        decreases b - a,
    {
        b = b - 1;
    }
    proof {
        lemma_drop_leading(s@, ws, a as int);
        let t = s@.skip(a as int);
        assert forall|j: int| b - a <= j < t.len() implies ws(#[trigger] t[j]) by {
            assert(t[j] == s@[j + a]);
        }
        if b > a {
            assert(t[b - a - 1] == s@[b - 1]);
        }
        lemma_drop_trailing(t, ws, b - a);
        assert(t.take(b - a) =~= s@.subrange(a as int, b as int));
    }
    slice_chars(s, a, b)
}

/// `str::trim` on a string.
pub fn trim_str(s: &str) -> (r: String)
    ensures
        r@ == trim_text(s@),
{
    let cs = chars_of(s);
    let t = trim_chars(&cs);
    string_of(&t)
}

/// The strict lexicographic order of `str` (by code point, which is also
/// the byte order of the UTF-8 encodings).
pub open spec fn text_lt(a: Seq<char>, b: Seq<char>) -> bool
    decreases a.len(),
{
    if a.len() == 0 {
        b.len() > 0
    } else if b.len() == 0 {
        false
    } else if a[0] != b[0] {
        (a[0] as u32) < (b[0] as u32)
    } else {
        text_lt(a.drop_first(), b.drop_first())
    }
}

/// `text_lt` is irreflexive.
pub proof fn lemma_text_lt_irreflexive(a: Seq<char>)
    ensures
        !text_lt(a, a),
    decreases a.len(),
{
    if a.len() > 0 {
        lemma_text_lt_irreflexive(a.drop_first());
    }
}

/// `text_lt` is transitive.
pub proof fn lemma_text_lt_transitive(a: Seq<char>, b: Seq<char>, c: Seq<char>)
    requires
        text_lt(a, b),
        text_lt(b, c),
    ensures
        text_lt(a, c),
    decreases a.len(),
{
    if a.len() > 0 && b.len() > 0 && c.len() > 0 {
        if a[0] == b[0] && b[0] == c[0] {
            lemma_text_lt_transitive(a.drop_first(), b.drop_first(), c.drop_first());
        }
    }
}

/// Two different texts are ordered one way or the other, and never both.
pub proof fn lemma_text_lt_total(a: Seq<char>, b: Seq<char>)
    ensures
        a != b ==> (text_lt(a, b) || text_lt(b, a)),
        !(text_lt(a, b) && text_lt(b, a)),
    decreases a.len(),
{
    if a.len() > 0 && b.len() > 0 {
        lemma_text_lt_total(a.drop_first(), b.drop_first());
        if a[0] == b[0] && a != b {
            assert(a =~= seq![a[0]] + a.drop_first());
            assert(b =~= seq![b[0]] + b.drop_first());
        }
        if a[0] != b[0] {
            lemma_char_u32_injective(a[0], b[0]);
        }
    } else if a.len() == 0 && b.len() == 0 {
        assert(a =~= b);
    }
}

/// Different characters have different code points.
pub proof fn lemma_char_u32_injective(x: char, y: char)
    requires
        x != y,
    ensures
        (x as u32) != (y as u32),
{
}

/// Three-way comparison of two texts.
pub enum TextOrder {
    Less,
    Same,
    Greater,
}

/// Compares two texts in the order of `str`.
pub fn compare_text(a: &[char], b: &[char]) -> (r: TextOrder)
    ensures
        r is Less <==> text_lt(a@, b@),
        r is Same <==> a@ == b@,
        r is Greater <==> text_lt(b@, a@),
{
    proof {
        lemma_text_lt_total(a@, b@);
        lemma_text_lt_irreflexive(a@);
    }
    let mut i: usize = 0;
    assert(a@.skip(0) =~= a@);
    assert(b@.skip(0) =~= b@);
    assert(a@.take(0) =~= b@.take(0));
    while i < a.len() && i < b.len()
        invariant
            i <= a.len(),
            i <= b.len(),
            a@.take(i as int) == b@.take(i as int),
            text_lt(a@, b@) == text_lt(a@.skip(i as int), b@.skip(i as int)),
            text_lt(b@, a@) == text_lt(b@.skip(i as int), a@.skip(i as int)),
        decreases a.len() - i,
    {
        let x = a[i];
        let y = b[i];
        assert(a@.skip(i as int)[0] == x);
        assert(b@.skip(i as int)[0] == y);
        if x != y {
            assert(a@[i as int] != b@[i as int]);
            proof {
                lemma_char_u32_injective(x, y);
                assert(a@.skip(i as int).len() > 0 && b@.skip(i as int).len() > 0);
                assert(text_lt(a@.skip(i as int), b@.skip(i as int)) == ((x as u32) < (y as u32)));
                assert(text_lt(b@.skip(i as int), a@.skip(i as int)) == ((y as u32) < (x as u32)));
            }
            if (x as u32) < (y as u32) {
                return TextOrder::Less;
            } else {
                return TextOrder::Greater;
            }
        }
        assert(a@.skip(i as int).drop_first() =~= a@.skip(i + 1));
        assert(b@.skip(i as int).drop_first() =~= b@.skip(i + 1));
        assert(a@.take(i + 1) =~= a@.take(i as int).push(x));
        assert(b@.take(i + 1) =~= b@.take(i as int).push(y));
        i = i + 1;
    }
    if i == a.len() && i == b.len() {
        assert(a@ =~= a@.take(i as int));
        assert(b@ =~= b@.take(i as int));
        TextOrder::Same
    } else if i == a.len() {
        TextOrder::Less
    } else {
        TextOrder::Greater
    }
}


/// The ASCII digit for `d < 10`.
pub open spec fn digit_char(d: nat) -> char {
    ((d + 48) as u8) as char
}

/// The decimal text of `n`, as `Display` writes an unsigned integer.
pub open spec fn decimal_text(n: nat) -> Seq<char>
    decreases n,
{
    if n < 10 {
        seq![digit_char(n)]
    } else {
        decimal_text(n / 10).push(digit_char(n % 10))
    }
}

/// The decimal text of `n`.
pub fn decimal_chars(n: u64) -> (r: Vec<char>)
    ensures
        r@ == decimal_text(n as nat),
    decreases n,
{
    let d = ((n % 10) as u8 + 48u8) as char;
    if n < 10 {
        let mut r: Vec<char> = Vec::new();
        r.push(d);
        assert(r@ =~= seq![digit_char(n as nat)]);
        r
    } else {
        let mut r = decimal_chars(n / 10);
        r.push(d);
        r
    }
}

/// Whether `c` is one of `0`..`9`.
pub open spec fn is_ascii_digit(c: char) -> bool {
    48 <= (c as u32) <= 57
}

/// The value of a run of ASCII digits.
pub open spec fn digits_value(s: Seq<char>) -> nat
    decreases s.len(),
{
    if s.len() == 0 {
        0
    } else {
        digits_value(s.drop_last()) * 10 + ((s.last() as u32) - 48) as nat
    }
}

/// `u32::from_str`: an optional `+`, then one or more ASCII digits whose
/// value fits in a `u32`.
pub open spec fn parse_u32_text(s: Seq<char>) -> Option<u32> {
    let d = unsigned_digits(s);
    if d.len() > 0 && all_ascii_digits(d) && digits_value(d) <= u32::MAX {
        Some(digits_value(d) as u32)
    } else {
        None
    }
}

/// The text after an optional leading `+`.
pub open spec fn unsigned_digits(s: Seq<char>) -> Seq<char> {
    if s.len() > 0 && s[0] == '+' {
        s.drop_first()
    } else {
        s
    }
}

/// Whether every character of `d` is an ASCII digit.
pub open spec fn all_ascii_digits(d: Seq<char>) -> bool {
    forall|i: int| 0 <= i < d.len() ==> is_ascii_digit(#[trigger] d[i])
}

/// A run of digits is worth at least as much as any of its prefixes.
pub proof fn lemma_digits_value_prefix(s: Seq<char>, k: int)
    requires
        0 <= k <= s.len(),
        forall|i: int| 0 <= i < s.len() ==> is_ascii_digit(#[trigger] s[i]),
    ensures
        digits_value(s.take(k)) <= digits_value(s),
    decreases s.len() - k,
{
    if k < s.len() {
        let t = s.drop_last();
        assert forall|i: int| 0 <= i < t.len() implies is_ascii_digit(#[trigger] t[i]) by {
            assert(t[i] == s[i]);
        }
        lemma_digits_value_prefix(t, k);
        assert(t.take(k) =~= s.take(k));
    } else {
        assert(s.take(k) =~= s);
    }
}

/// `u32::from_str` on characters.
pub fn parse_u32_chars(s: &[char]) -> (r: Option<u32>)
    ensures
        r == parse_u32_text(s@),
{
    let start: usize = if s.len() > 0 && s[0] == '+' {
        1
    } else {
        0
    };
    let ghost d = s@.skip(start as int);
    assert(d == unsigned_digits(s@));
    if start >= s.len() {
        return None;
    }
    let mut value: u64 = 0;
    let mut i: usize = start;
    while i < s.len()
        invariant
            start <= i <= s.len(),
            d == s@.skip(start as int),
            d == unsigned_digits(s@),
            value <= u32::MAX,
            value == digits_value(d.take(i - start)),
            forall|j: int| 0 <= j < i - start ==> is_ascii_digit(#[trigger] d[j]),
        decreases s.len() - i,
    {
        let c = s[i];
        let u = c as u32;
        assert(d[i - start] == c);
        if u < 48 || u > 57 {
            assert(!is_ascii_digit(d[i - start]));
            return None;
        }
        assert(d.take(i - start + 1).drop_last() =~= d.take(i - start));
        let next = value * 10 + (u - 48) as u64;
        if next > 0xffff_ffff {
            proof {
                assert(d.take(i - start + 1).last() == c);
                assert(digits_value(d.take(i - start + 1)) == next);
                if all_ascii_digits(d) {
                    lemma_digits_value_prefix(d, i - start + 1);
                }
            }
            return None;
        }
        value = next;
        i = i + 1;
    }
    assert(d.take(i - start) =~= d);
    Some(value as u32)
}


/// Whether two strings hold the same characters.
pub fn same_text(a: &str, b: &str) -> (r: bool)
    ensures
        r == (a@ == b@),
{
    let x = chars_of(a);
    let y = chars_of(b);
    match compare_text(&x, &y) {
        TextOrder::Same => true,
        _ => false,
    }
}


/// Whether two character lists are equal.
pub fn text_equal(a: &[char], b: &[char]) -> (r: bool)
    ensures
        r == (a@ == b@),
{
    match compare_text(a, b) {
        TextOrder::Same => true,
        _ => false,
    }
}

} // verus!
