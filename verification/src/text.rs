//! Text as sequences of characters: splitting at a separator, searching for a
//! pattern, and the lexicographic order in which entries are kept.
use vstd::prelude::*;

verus! {

/// The views of a sequence of strings, item by item.
pub open spec fn texts(v: Seq<String>) -> Seq<Seq<char>> {
    Seq::new(v.len(), |i: int| v[i]@)
}

/// How many items stand before the first `c` in `s` (all of them, if there is none).
pub open spec fn first_index(s: Seq<char>, c: char) -> nat
    decreases s.len(),
{
    if s.len() == 0 || s[0] == c {
        0
    } else {
        1 + first_index(s.drop_first(), c)
    }
}

/// The pieces of `s` between occurrences of `sep`. There is always at least
/// one piece; pieces may be empty.
pub open spec fn segments(s: Seq<char>, sep: char) -> Seq<Seq<char>>
    decreases s.len(),
{
    let i = first_index(s, sep) as int;
    if i >= s.len() {
        seq![s]
    } else {
        seq![s.take(i)] + segments(s.skip(i + 1), sep)
    }
}

/// `pat` stands in `s` at position `i`.
pub open spec fn occurs_at(s: Seq<char>, pat: Seq<char>, i: int) -> bool {
    0 <= i && i + pat.len() <= s.len() && s.subrange(i, i + pat.len()) == pat
}

/// `pat` stands somewhere in `s`.
pub open spec fn contains_text(s: Seq<char>, pat: Seq<char>) -> bool {
    exists|i: int| occurs_at(s, pat, i)
}

/// `i` is the leftmost position at which `pat` stands in `s`.
pub open spec fn is_first_occurrence(s: Seq<char>, pat: Seq<char>, i: int) -> bool {
    occurs_at(s, pat, i) && forall|k: int| 0 <= k < i ==> !occurs_at(s, pat, k)
}

/// The leftmost position at which `pat` stands in `s`, where it stands in it at all.
pub open spec fn first_occurrence(s: Seq<char>, pat: Seq<char>) -> int {
    choose|i: int| is_first_occurrence(s, pat, i)
}

/// `s` ends with `pat`.
pub open spec fn ends_with(s: Seq<char>, pat: Seq<char>) -> bool {
    occurs_at(s, pat, s.len() - pat.len())
}

/// `s` begins with the character `c`.
pub open spec fn starts_with_char(s: Seq<char>, c: char) -> bool {
    s.len() > 0 && s[0] == c
}

/// The strict lexicographic order by character code: `a` comes before `b`.
pub open spec fn precedes(a: Seq<char>, b: Seq<char>) -> bool
    decreases a.len(),
{
    if b.len() == 0 {
        false
    } else if a.len() == 0 {
        true
    } else if a[0] != b[0] {
        (a[0] as u32) < (b[0] as u32)
    } else {
        precedes(a.drop_first(), b.drop_first())
    }
}

/// No item of `lines` holds the character `c`.
pub open spec fn none_contains(lines: Seq<Seq<char>>, c: char) -> bool {
    forall|i: int| 0 <= i < lines.len() ==> !(#[trigger] lines[i]).contains(c)
}

/// Each item comes before the next one in the lexicographic order.
pub open spec fn strictly_increasing(v: Seq<Seq<char>>) -> bool {
    forall|i: int, j: int| 0 <= i < j < v.len() ==> precedes(#[trigger] v[i], #[trigger] v[j])
}

pub proof fn lemma_first_index(s: Seq<char>, c: char, j: int)
    requires
        0 <= j <= s.len(),
        forall|k: int| 0 <= k < j ==> s[k] != c,
        j == s.len() || s[j] == c,
    ensures
        first_index(s, c) == j,
    decreases s.len(),
{
    if s.len() == 0 || s[0] == c {
    } else {
        let t = s.drop_first();
        assert forall|k: int| 0 <= k < j - 1 implies t[k] != c by {
            assert(t[k] == s[k + 1]);
        }
        lemma_first_index(t, c, j - 1);
    }
}

pub proof fn lemma_first_index_bounds(s: Seq<char>, c: char)
    ensures
        first_index(s, c) <= s.len(),
        first_index(s, c) < s.len() ==> s[first_index(s, c) as int] == c,
        forall|k: int| 0 <= k < first_index(s, c) ==> s[k] != c,
    decreases s.len(),
{
    if s.len() == 0 || s[0] == c {
    } else {
        let t = s.drop_first();
        lemma_first_index_bounds(t, c);
        assert forall|k: int| 0 <= k < first_index(s, c) implies s[k] != c by {
            if k > 0 {
                assert(s[k] == t[k - 1]);
            }
        }
    }
}

pub proof fn lemma_first_occurrence(s: Seq<char>, pat: Seq<char>, i: int)
    requires
        is_first_occurrence(s, pat, i),
    ensures
        first_occurrence(s, pat) == i,
        contains_text(s, pat),
{
    let j = first_occurrence(s, pat);
    assert(is_first_occurrence(s, pat, j));
    if j < i {
        assert(!occurs_at(s, pat, j));
    }
    if i < j {
        assert(!occurs_at(s, pat, i));
    }
}

pub proof fn lemma_precedes_irreflexive(a: Seq<char>)
    ensures
        !precedes(a, a),
    decreases a.len(),
{
    if a.len() > 0 {
        lemma_precedes_irreflexive(a.drop_first());
    }
}

pub proof fn lemma_precedes_transitive(a: Seq<char>, b: Seq<char>, c: Seq<char>)
    requires
        precedes(a, b),
        precedes(b, c),
    ensures
        precedes(a, c),
    decreases a.len(),
{
    if a.len() > 0 && b.len() > 0 && c.len() > 0 {
        if a[0] == b[0] && b[0] == c[0] {
            lemma_precedes_transitive(a.drop_first(), b.drop_first(), c.drop_first());
        }
    }
}

pub proof fn lemma_precedes_total(a: Seq<char>, b: Seq<char>)
    ensures
        precedes(a, b) || precedes(b, a) || a == b,
    decreases a.len(),
{
    if a.len() == 0 || b.len() == 0 {
        if a.len() == 0 && b.len() == 0 {
            assert(a =~= b);
        }
    } else if a[0] == b[0] {
        lemma_precedes_total(a.drop_first(), b.drop_first());
        if a.drop_first() == b.drop_first() {
            assert(a =~= seq![a[0]] + a.drop_first());
            assert(b =~= seq![b[0]] + b.drop_first());
        }
    } else {
        vstd::utf8::char_u32_cast(a[0], a[0] as u32);
        vstd::utf8::char_u32_cast(b[0], b[0] as u32);
    }
}

/// How many characters `s` holds. `ascii` tells that `s` is known to hold
/// ASCII only, which makes this a matter of its length in bytes.
fn char_count(s: &str, ascii: bool) -> (n: usize)
    requires
        ascii ==> s.is_ascii(),
    ensures
        n == s@.len(),
{
    if ascii {
        proof {
            vstd::utf8::is_ascii_chars_encode_utf8(s@);
        }
        s.as_bytes().len()
    } else {
        s.unicode_len()
    }
}

/// The character of `s` at position `i`. `ascii` tells that `s` is known to
/// hold ASCII only, which makes this a matter of one byte.
fn char_at(s: &str, ascii: bool, i: usize) -> (c: char)
    requires
        ascii ==> s.is_ascii(),
        i < s@.len(),
    ensures
        c == s@[i as int],
{
    if ascii {
        let b: u8 = s.get_ascii(i);
        proof {
            vstd::utf8::char_u32_cast(s@[i as int], s@[i as int] as u32);
        }
        b as char
    } else {
        s.get_char(i)
    }
}

/// The characters of `s` from `from` up to `to`.
fn piece_of<'a>(s: &'a str, ascii: bool, from: usize, to: usize) -> (piece: &'a str)
    requires
        ascii ==> s.is_ascii(),
        from <= to <= s@.len(),
    ensures
        piece@ == s@.subrange(from as int, to as int),
{
    if ascii {
        s.substring_ascii(from, to)
    } else {
        s.substring_char(from, to)
    }
}

/// The characters of `s` from `from` up to `to`.
pub fn substring(s: &str, from: usize, to: usize) -> (piece: &str)
    requires
        from <= to <= s@.len(),
    ensures
        piece@ == s@.subrange(from as int, to as int),
{
    piece_of(s, s.is_ascii(), from, to)
}

/// How many characters `s` holds.
pub fn length(s: &str) -> (n: usize)
    ensures
        n == s@.len(),
{
    char_count(s, s.is_ascii())
}

/// Splits `s` at each occurrence of `sep`.
pub fn split(s: &str, sep: char) -> (parts: Vec<String>)
    ensures
        texts(parts@) == segments(s@, sep),
{
    let ascii = s.is_ascii();
    let n: usize = char_count(s, ascii);
    let mut parts: Vec<String> = Vec::new();
    let mut start: usize = 0;
    let mut j: usize = 0;
    assert(s@.skip(0) =~= s@);
    assert(texts(parts@) + segments(s@, sep) =~= segments(s@, sep));
    while j < n
        invariant
            n == s@.len(),
            ascii ==> s.is_ascii(),
            start <= j <= n,
            forall|k: int| start <= k < j ==> s@[k] != sep,
            segments(s@, sep) == texts(parts@) + segments(s@.skip(start as int), sep),
        decreases n - j,
    {
        let c = char_at(s, ascii, j);
        if c == sep {
            let piece = piece_of(s, ascii, start, j);
            let owned = piece.to_owned();
            proof {
                let t = s@.skip(start as int);
                lemma_first_index(t, sep, j - start);
                assert(t.take(j - start) =~= s@.subrange(start as int, j as int));
                assert(t.skip(j - start + 1) =~= s@.skip(j + 1));
                assert(texts(parts@.push(owned)) =~= texts(parts@).push(piece@));
            }
            parts.push(owned);
            start = j + 1;
        }
        j += 1;
    }
    let piece = piece_of(s, ascii, start, n);
    let owned = piece.to_owned();
    proof {
        let t = s@.skip(start as int);
        lemma_first_index(t, sep, n - start);
        assert(t =~= piece@);
        assert(texts(parts@.push(owned)) =~= texts(parts@).push(piece@));
    }
    parts.push(owned);
    parts
}

/// Whether `a` comes before `b` in the lexicographic order.
pub fn less(a: &str, b: &str) -> (r: bool)
    ensures
        r == precedes(a@, b@),
{
    let a_ascii = a.is_ascii();
    let b_ascii = b.is_ascii();
    let na: usize = char_count(a, a_ascii);
    let nb: usize = char_count(b, b_ascii);
    let mut i: usize = 0;
    assert(a@.skip(0) =~= a@);
    assert(b@.skip(0) =~= b@);
    while i < na && i < nb
        invariant
            na == a@.len(),
            nb == b@.len(),
            a_ascii ==> a.is_ascii(),
            b_ascii ==> b.is_ascii(),
            i <= na,
            i <= nb,
            precedes(a@, b@) == precedes(a@.skip(i as int), b@.skip(i as int)),
        decreases na - i,
    {
        let ca = char_at(a, a_ascii, i);
        let cb = char_at(b, b_ascii, i);
        if ca != cb {
            return (ca as u32) < (cb as u32);
        }
        proof {
            assert(a@.skip(i as int).drop_first() =~= a@.skip(i + 1));
            assert(b@.skip(i as int).drop_first() =~= b@.skip(i + 1));
        }
        i += 1;
    }
    i < nb
}

/// A text with what is known of it once and for all: whether it holds ASCII
/// only, and how many characters it holds.
struct Measured<'a> {
    text: &'a str,
    ascii: bool,
    count: usize,
}

impl<'a> Measured<'a> {
    spec fn wf(&self) -> bool {
        (self.ascii ==> self.text.is_ascii()) && self.count == self.text@.len()
    }

    fn of(text: &'a str) -> (m: Self)
        ensures
            m.wf(),
            m.text@ == text@,
    {
        let ascii = text.is_ascii();
        Measured { text, ascii, count: char_count(text, ascii) }
    }
}

/// Whether `pat` stands in `s` at position `i`.
fn stands_at(s: &Measured, pat: &Measured, i: usize) -> (r: bool)
    requires
        s.wf(),
        pat.wf(),
    ensures
        r == occurs_at(s.text@, pat.text@, i as int),
{
    let n: usize = s.count;
    let m: usize = pat.count;
    if m > n || i > n - m {
        return false;
    }
    let mut k: usize = 0;
    while k < m
        invariant
            s.wf(),
            pat.wf(),
            n == s.text@.len(),
            m == pat.text@.len(),
            i + m <= n,
            k <= m,
            forall|t: int| 0 <= t < k ==> s.text@[i + t] == pat.text@[t],
        decreases m - k,
    {
        if char_at(s.text, s.ascii, i + k) != char_at(pat.text, pat.ascii, k) {
            assert(s.text@.subrange(i as int, i + m)[k as int] != pat.text@[k as int]);
            return false;
        }
        k += 1;
    }
    assert(s.text@.subrange(i as int, i + m) =~= pat.text@);
    true
}

/// Whether `pat` stands in `s` at position `i`.
pub fn matches_at(s: &str, pat: &str, i: usize) -> (r: bool)
    ensures
        r == occurs_at(s@, pat@, i as int),
{
    stands_at(&Measured::of(s), &Measured::of(pat), i)
}

/// The leftmost position at which `pat` stands in `s`, if it stands in it.
pub fn find(s: &str, pat: &str) -> (r: Option<usize>)
    ensures
        r is Some <==> contains_text(s@, pat@),
        r matches Some(i) ==> i as int == first_occurrence(s@, pat@) && is_first_occurrence(
            s@,
            pat@,
            i as int,
        ),
{
    let text = Measured::of(s);
    let pattern = Measured::of(pat);
    let n: usize = text.count;
    let m: usize = pattern.count;
    if m > n {
        return None;
    }
    let mut i: usize = 0;
    loop
        invariant
            text.wf(),
            pattern.wf(),
            text.text@ == s@,
            pattern.text@ == pat@,
            n == s@.len(),
            m == pat@.len(),
            m <= n,
            i <= n - m,
            forall|k: int| 0 <= k < i ==> !occurs_at(s@, pat@, k),
        decreases n - m - i,
    {
        if stands_at(&text, &pattern, i) {
            proof {
                lemma_first_occurrence(s@, pat@, i as int);
            }
            return Some(i);
        }
        if i >= n - m {
            return None;
        }
        i += 1;
    }
}

/// Whether `s` ends with `pat`.
pub fn has_suffix(s: &str, pat: &str) -> (r: bool)
    ensures
        r == ends_with(s@, pat@),
{
    let text = Measured::of(s);
    let pattern = Measured::of(pat);
    if pattern.count > text.count {
        return false;
    }
    stands_at(&text, &pattern, text.count - pattern.count)
}

/// Whether `s` begins with the character `c`.
pub fn has_first_char(s: &str, c: char) -> (r: bool)
    ensures
        r == starts_with_char(s@, c),
{
    if s.is_empty() {
        return false;
    }
    char_at(s, s.is_ascii(), 0) == c
}

/// Whether `a` and `b` hold the same characters.
pub fn same(a: &str, b: &str) -> (r: bool)
    ensures
        r == (a@ == b@),
{
    proof {
        lemma_precedes_total(a@, b@);
        lemma_precedes_irreflexive(a@);
    }
    !less(a, b) && !less(b, a)
}

/// Splitting always gives at least one piece.
pub proof fn lemma_segments_nonempty(s: Seq<char>, sep: char)
    ensures
        segments(s, sep).len() >= 1,
{
}

/// The items of a sequence with one more item pushed.
pub proof fn lemma_push_to_set(v: Seq<Seq<char>>, x: Seq<char>)
    ensures
        v.push(x).to_set() == v.to_set().insert(x),
{
    let w = v.push(x);
    assert forall|y: Seq<char>| w.to_set().contains(y) <==> v.to_set().insert(x).contains(
        y,
    ) by {
        if w.contains(y) {
            let j = choose|j: int| 0 <= j < w.len() && w[j] == y;
            if j < v.len() {
                assert(v[j] == y);
            }
        }
        if v.contains(y) {
            let j = choose|j: int| 0 <= j < v.len() && v[j] == y;
            assert(w[j] == y);
        }
        if y == x {
            assert(w[v.len() as int] == y);
        }
    }
    assert(w.to_set() =~= v.to_set().insert(x));
}

/// Puts `s` into the strictly increasing `v`, at its place in the order, unless
/// it is there already. Returns whether it was put in.
pub fn insert_sorted(v: &mut Vec<String>, s: String) -> (fresh: bool)
    requires
        strictly_increasing(texts(old(v)@)),
    ensures
        strictly_increasing(texts(final(v)@)),
        texts(final(v)@).to_set() == texts(old(v)@).to_set().insert(s@),
        fresh == !texts(old(v)@).contains(s@),
{
    let ghost before = texts(v@);
    let count: usize = v.len();
    if count > 0 && less(v[count - 1].as_str(), s.as_str()) {
        proof {
            lemma_precedes_irreflexive(s@);
            assert forall|k: int| 0 <= k < before.len() implies precedes(
                #[trigger] before[k],
                s@,
            ) by {
                if k < count - 1 {
                    lemma_precedes_transitive(before[k], before[count - 1], s@);
                }
            }
            assert(!before.contains(s@));
            lemma_push_to_set(before, s@);
            assert(texts(v@.push(s)) =~= before.push(s@));
        }
        v.push(s);
        return true;
    }
    let mut i: usize = 0;
    loop
        invariant
            i <= v.len(),
            texts(v@) == before,
            *v == *old(v),
            forall|k: int| 0 <= k < i ==> precedes(#[trigger] before[k], s@),
        ensures
            i <= v.len(),
            texts(v@) == before,
            *v == *old(v),
            forall|k: int| 0 <= k < i ==> precedes(#[trigger] before[k], s@),
            i == v.len() || !precedes(before[i as int], s@),
        decreases v.len() - i,
    {
        if i >= v.len() {
            break;
        }
        if !less(v[i].as_str(), s.as_str()) {
            break;
        }
        i += 1;
    }
    proof {
        lemma_precedes_irreflexive(s@);
    }
    if i < v.len() && !less(s.as_str(), v[i].as_str()) {
        proof {
            lemma_precedes_total(s@, before[i as int]);
            assert(before.contains(s@));
            assert(before.to_set().insert(s@) =~= before.to_set());
        }
        return false;
    }
    proof {
        assert forall|k: int| i <= k < before.len() implies precedes(s@, #[trigger] before[k]) by {
            if k > i {
                lemma_precedes_transitive(s@, before[i as int], before[k]);
            }
        }
        assert forall|k: int| 0 <= k < before.len() implies before[k] != s@ by {
            if before[k] == s@ {
                if k < i {
                    assert(precedes(before[k], s@));
                } else {
                    assert(precedes(s@, before[k]));
                }
            }
        }
    }
    v.insert(i, s);
    proof {
        let after = texts(v@);
        assert(after =~= before.insert(i as int, s@));
        assert forall|a: int, b: int| 0 <= a < b < after.len() implies precedes(
            #[trigger] after[a],
            #[trigger] after[b],
        ) by {
            if b < i {
                assert(after[a] == before[a] && after[b] == before[b]);
            } else if b == i {
                assert(after[a] == before[a]);
            } else if a < i {
                assert(after[a] == before[a] && after[b] == before[b - 1]);
                lemma_precedes_transitive(before[a], s@, before[b - 1]);
            } else if a == i {
                assert(after[b] == before[b - 1]);
            } else {
                assert(after[a] == before[a - 1] && after[b] == before[b - 1]);
            }
        }
        assert forall|y: Seq<char>| after.to_set().contains(y) <==> before.to_set().insert(
            s@,
        ).contains(y) by {
            if after.contains(y) {
                let j = choose|j: int| 0 <= j < after.len() && after[j] == y;
                if j < i {
                    assert(before[j] == y);
                } else if j > i {
                    assert(before[j - 1] == y);
                }
            }
            if before.contains(y) {
                let j = choose|j: int| 0 <= j < before.len() && before[j] == y;
                if j < i {
                    assert(after[j] == y);
                } else {
                    assert(after[j + 1] == y);
                }
            }
            if y == s@ {
                assert(after[i as int] == y);
            }
        }
        assert(after.to_set() =~= before.to_set().insert(s@));
    }
    true
}

/// Whether one of the strings in `v` holds the characters of `s`.
pub fn contains_string(v: &Vec<String>, s: &str) -> (r: bool)
    ensures
        r == texts(v@).contains(s@),
{
    let mut i: usize = 0;
    while i < v.len()
        invariant
            i <= v.len(),
            forall|k: int| 0 <= k < i ==> texts(v@)[k] != s@,
        decreases v.len() - i,
    {
        if same(v[i].as_str(), s) {
            assert(texts(v@)[i as int] == s@);
            return true;
        }
        i += 1;
    }
    false
}

/// Splitting two texts joined by a separator gives the pieces of the first,
/// then the pieces of the second.
pub proof fn lemma_segments_joined(a: Seq<char>, b: Seq<char>, sep: char)
    ensures
        segments(a + seq![sep] + b, sep) == segments(a, sep) + segments(b, sep),
    decreases a.len(),
{
    let whole = a + seq![sep] + b;
    let i = first_index(a, sep) as int;
    lemma_first_index_bounds(a, sep);
    if i >= a.len() {
        assert forall|k: int| 0 <= k < a.len() implies whole[k] != sep by {
            assert(whole[k] == a[k]);
        }
        lemma_first_index(whole, sep, a.len() as int);
        assert(whole.take(a.len() as int) =~= a);
        assert(whole.skip(a.len() as int + 1) =~= b);
    } else {
        assert forall|k: int| 0 <= k < i implies whole[k] != sep by {
            assert(whole[k] == a[k]);
        }
        assert(whole[i] == a[i]);
        lemma_first_index(whole, sep, i);
        assert(whole.take(i) =~= a.take(i));
        assert(whole.skip(i + 1) =~= a.skip(i + 1) + seq![sep] + b);
        lemma_segments_joined(a.skip(i + 1), b, sep);
        assert(seq![a.take(i)] + (segments(a.skip(i + 1), sep) + segments(b, sep)) =~= (seq![
            a.take(i),
        ] + segments(a.skip(i + 1), sep)) + segments(b, sep));
    }
}

/// A text without the separator is one piece.
pub proof fn lemma_segments_single(s: Seq<char>, sep: char)
    requires
        !s.contains(sep),
    ensures
        segments(s, sep) == seq![s],
{
    assert forall|k: int| 0 <= k < s.len() implies s[k] != sep by {
        if s[k] == sep {
            assert(s.contains(sep));
        }
    }
    lemma_first_index(s, sep, s.len() as int);
}

/// No piece of a split text holds the separator, nor a character that the
/// text does not hold.
pub proof fn lemma_segments_avoid(s: Seq<char>, sep: char, c: char)
    requires
        c == sep || !s.contains(c),
    ensures
        forall|i: int|
            0 <= i < segments(s, sep).len() ==> !(#[trigger] segments(s, sep)[i]).contains(c),
    decreases s.len(),
{
    let i = first_index(s, sep) as int;
    lemma_first_index_bounds(s, sep);
    if i >= s.len() {
        if s.contains(c) {
            let k = choose|k: int| 0 <= k < s.len() && s[k] == c;
            assert(s[k] != sep);
        }
    } else {
        let head = s.take(i);
        let rest = s.skip(i + 1);
        if head.contains(c) {
            let k = choose|k: int| 0 <= k < head.len() && head[k] == c;
            assert(s[k] == c);
            assert(s.contains(c));
        }
        if c != sep && rest.contains(c) {
            let k = choose|k: int| 0 <= k < rest.len() && rest[k] == c;
            assert(s[k + i + 1] == c);
            assert(s.contains(c));
        }
        lemma_segments_avoid(rest, sep, c);
        let pieces = segments(s, sep);
        assert forall|j: int| 0 <= j < pieces.len() implies !(#[trigger] pieces[j]).contains(
            c,
        ) by {
            if j > 0 {
                assert(pieces[j] == segments(rest, sep)[j - 1]);
            }
        }
    }
}

/// Where `pat` stands in `s` at `j`, it has a leftmost position in `s`.
pub proof fn lemma_leftmost_occurrence(s: Seq<char>, pat: Seq<char>, j: int) -> (i: int)
    requires
        occurs_at(s, pat, j),
    ensures
        is_first_occurrence(s, pat, i),
    decreases j,
{
    if exists|k: int| 0 <= k < j && occurs_at(s, pat, k) {
        let k = choose|k: int| 0 <= k < j && occurs_at(s, pat, k);
        lemma_leftmost_occurrence(s, pat, k)
    } else {
        j
    }
}

/// Where `pat` stands in `s`, `first_occurrence` is its leftmost position.
pub proof fn lemma_first_occurrence_exists(s: Seq<char>, pat: Seq<char>)
    requires
        contains_text(s, pat),
    ensures
        is_first_occurrence(s, pat, first_occurrence(s, pat)),
{
    let j = choose|j: int| occurs_at(s, pat, j);
    let i = lemma_leftmost_occurrence(s, pat, j);
    assert(is_first_occurrence(s, pat, i));
}

/// Where `after` holds the items of `before` and `x`, and none of these holds
/// `c`, no item of `after` holds `c`.
pub proof fn lemma_none_contains_insert(
    before: Seq<Seq<char>>,
    after: Seq<Seq<char>>,
    x: Seq<char>,
    c: char,
)
    requires
        after.to_set() == before.to_set().insert(x),
        none_contains(before, c),
        !x.contains(c),
    ensures
        none_contains(after, c),
{
    assert forall|i: int| 0 <= i < after.len() implies !(#[trigger] after[i]).contains(c) by {
        let item = after[i];
        assert(after.contains(item));
        assert(after.to_set().contains(item));
        if item != x {
            assert(before.to_set().contains(item));
            assert(before.contains(item));
            let j = choose|j: int| 0 <= j < before.len() && before[j] == item;
            assert(!before[j].contains(c));
        }
    }
}

/// Two strictly increasing sequences agree up to `i` where they hold the same items.
pub proof fn lemma_increasing_prefix(a: Seq<Seq<char>>, b: Seq<Seq<char>>, i: int)
    requires
        strictly_increasing(a),
        strictly_increasing(b),
        a.to_set() == b.to_set(),
        0 <= i <= a.len(),
        i <= b.len(),
    ensures
        a.take(i) == b.take(i),
    decreases i,
{
    if i == 0 {
        assert(a.take(0) =~= b.take(0));
    } else {
        let k = i - 1;
        lemma_increasing_prefix(a, b, k);
        assert forall|m: int| 0 <= m < k implies a[m] == b[m] by {
            assert(a.take(k)[m] == b.take(k)[m]);
        }
        assert(a.contains(a[k]));
        assert(a.to_set().contains(a[k]));
        assert(b.contains(a[k]));
        let j = choose|j: int| 0 <= j < b.len() && b[j] == a[k];
        assert(b.contains(b[k]));
        assert(b.to_set().contains(b[k]));
        assert(a.contains(b[k]));
        let h = choose|h: int| 0 <= h < a.len() && a[h] == b[k];
        lemma_precedes_irreflexive(a[k]);
        lemma_precedes_irreflexive(b[k]);
        if j < k {
            assert(precedes(a[j], a[k]));
        }
        if h < k {
            assert(precedes(b[h], b[k]));
        }
        if j > k && h > k {
            assert(precedes(b[k], b[j]));
            assert(precedes(a[k], a[h]));
            lemma_precedes_transitive(a[k], b[k], a[k]);
        }
        assert(a[k] == b[k]);
        assert(a.take(i) =~= a.take(k).push(a[k]));
        assert(b.take(i) =~= b.take(k).push(b[k]));
    }
}

/// A set of lines has one strictly increasing order: two strictly increasing
/// sequences that hold the same items are the same sequence.
pub proof fn lemma_increasing_unique(a: Seq<Seq<char>>, b: Seq<Seq<char>>)
    requires
        strictly_increasing(a),
        strictly_increasing(b),
        a.to_set() == b.to_set(),
    ensures
        a == b,
{
    if a.len() <= b.len() {
        lemma_increasing_prefix(a, b, a.len() as int);
        if a.len() < b.len() {
            let extra = b[a.len() as int];
            assert(b.contains(extra));
            assert(b.to_set().contains(extra));
            assert(a.contains(extra));
            let j = choose|j: int| 0 <= j < a.len() && a[j] == extra;
            assert(b.take(a.len() as int)[j] == a.take(a.len() as int)[j]);
            assert(precedes(b[j], b[a.len() as int]));
            lemma_precedes_irreflexive(extra);
        }
        assert(a.take(a.len() as int) =~= a);
        assert(b.take(a.len() as int) =~= b);
    } else {
        lemma_increasing_prefix(a, b, b.len() as int);
        let extra = a[b.len() as int];
        assert(a.contains(extra));
        assert(a.to_set().contains(extra));
        assert(b.contains(extra));
        let j = choose|j: int| 0 <= j < b.len() && b[j] == extra;
        assert(a.take(b.len() as int)[j] == b.take(b.len() as int)[j]);
        assert(precedes(a[j], a[b.len() as int]));
        lemma_precedes_irreflexive(extra);
    }
}

} // verus!
