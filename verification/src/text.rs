//! Character-level text utilities.
//!
//! Every string the library inspects is first turned into a `Vec<char>`, so
//! that positions are character indices and every contract can speak of the
//! `Seq<char>` view of the text.

use vstd::prelude::*;

verus! {

/// `String::push` of the standard library: the character is appended at the
/// end of the string, as its documentation says.
pub assume_specification[ String::push ](s: &mut String, c: char)
    ensures
        final(s)@ == old(s)@.push(c),
;

/// The characters with the Unicode property `White_Space`.
pub open spec fn is_whitespace(c: char) -> bool {
    let u = c as u32;
    ||| 0x09 <= u <= 0x0D
    ||| u == 0x20
    ||| u == 0x85
    ||| u == 0xA0
    ||| u == 0x1680
    ||| 0x2000 <= u <= 0x200A
    ||| u == 0x2028
    ||| u == 0x2029
    ||| u == 0x202F
    ||| u == 0x205F
    ||| u == 0x3000
}

/// Whether `c` is a whitespace character.
pub fn char_is_whitespace(c: char) -> (b: bool)
    ensures
        b == is_whitespace(c),
{
    let u: u32 = c as u32;
    (0x09 <= u && u <= 0x0D) || u == 0x20 || u == 0x85 || u == 0xA0 || u == 0x1680 || (0x2000 <= u
        && u <= 0x200A) || u == 0x2028 || u == 0x2029 || u == 0x202F || u == 0x205F || u == 0x3000
}

/// The characters of `s`, in order.
pub fn to_chars(s: &str) -> (v: Vec<char>)
    ensures
        v@ == s@,
{
    let mut v: Vec<char> = Vec::new();
    for c in it: s.chars()
        invariant
            v@ == it.seq().take(it.index() as int),
            it.seq() == s@,
    {
        v.push(c);
    }
    v
}

/// The string made of the characters `text[from..to]`.
pub fn to_string(text: &Vec<char>, from: usize, to: usize) -> (s: String)
    requires
        from <= to <= text.len(),
    ensures
        s@ == text@.subrange(from as int, to as int),
{
    let mut s = String::new();
    let mut i: usize = from;
    while i < to
        invariant
            from <= i <= to <= text.len(),
            s@ == text@.subrange(from as int, i as int),
        decreases to - i,
    {
        s.push(text[i]);
        i += 1;
    }
    s
}

/// Whether two character vectors hold the same text.
pub fn same_chars(a: &Vec<char>, b: &Vec<char>) -> (r: bool)
    ensures
        r == (a@ == b@),
{
    if a.len() != b.len() {
        return false;
    }
    let mut i: usize = 0;
    while i < a.len()
        invariant
            a.len() == b.len(),
            i <= a.len(),
            a@.take(i as int) == b@.take(i as int),
        decreases a.len() - i,
    {
        if a[i] != b[i] {
            return false;
        }
        assert(a@.take(i + 1) == a@.take(i as int).push(a@[i as int]));
        assert(b@.take(i + 1) == b@.take(i as int).push(b@[i as int]));
        i += 1;
    }
    assert(a@ == a@.take(a.len() as int));
    assert(b@ == b@.take(b.len() as int));
    true
}

/// `lit` stands in `text` at position `p`.
pub open spec fn occurs_at(text: Seq<char>, p: int, lit: Seq<char>) -> bool {
    &&& 0 <= p
    &&& p + lit.len() <= text.len()
    &&& text.subrange(p, p + lit.len()) == lit
}

/// Whether `lit` stands in `text` at position `p`.
pub fn occurs_at_exec(text: &Vec<char>, p: usize, lit: &Vec<char>) -> (r: bool)
    ensures
        r == occurs_at(text@, p as int, lit@),
{
    if p > text.len() || lit.len() > text.len() - p {
        return false;
    }
    let mut i: usize = 0;
    while i < lit.len()
        invariant
            p + lit.len() <= text.len(),
            i <= lit.len(),
            text@.subrange(p as int, p + i) == lit@.take(i as int),
        decreases lit.len() - i,
    {
        if text[p + i] != lit[i] {
            assert(text@.subrange(p as int, p + lit.len())[i as int] != lit@[i as int]);
            return false;
        }
        assert(text@.subrange(p as int, p + i + 1) == text@.subrange(p as int, p + i).push(
            text@[p + i],
        ));
        assert(lit@.take(i + 1) == lit@.take(i as int).push(lit@[i as int]));
        i += 1;
    }
    assert(lit@ == lit@.take(lit.len() as int));
    true
}

/// `text` ends with `lit`.
pub open spec fn ends_with(text: Seq<char>, lit: Seq<char>) -> bool {
    text.len() >= lit.len() && occurs_at(text, text.len() - lit.len(), lit)
}

/// The first position at or after `from` at which `lit` stands in `text`;
/// the length of `text` where there is none.
pub open spec fn find(text: Seq<char>, from: int, lit: Seq<char>) -> int
    decreases text.len() - from,
{
    if from < 0 || from >= text.len() {
        text.len() as int
    } else if occurs_at(text, from, lit) {
        from
    } else {
        find(text, from + 1, lit)
    }
}

/// `find` returns a position between `from` and the end of the text; a
/// position before the end is an occurrence, and none comes before it.
pub proof fn lemma_find(text: Seq<char>, from: int, lit: Seq<char>)
    requires
        0 <= from <= text.len(),
    ensures
        from <= find(text, from, lit) <= text.len(),
        find(text, from, lit) < text.len() ==> occurs_at(text, find(text, from, lit), lit),
        forall|q: int| from <= q < find(text, from, lit) ==> !occurs_at(text, q, lit),
    decreases text.len() - from,
{
    if from < text.len() && !occurs_at(text, from, lit) {
        lemma_find(text, from + 1, lit);
    }
}

/// The first position at or after `from` at which `lit` stands in `text`;
/// the length of `text` where there is none.
pub fn find_exec(text: &Vec<char>, from: usize, lit: &Vec<char>) -> (r: usize)
    ensures
        r == find(text@, from as int, lit@),
        r <= text.len(),
        from <= text.len() ==> from <= r,
{
    let mut p: usize = from;
    if p > text.len() {
        return text.len();
    }
    while p < text.len()
        invariant
            from <= p <= text.len(),
            find(text@, from as int, lit@) == find(text@, p as int, lit@),
        decreases text.len() - p,
    {
        if occurs_at_exec(text, p, lit) {
            return p;
        }
        p += 1;
    }
    p
}

/// Searching a text from `from` is searching what is left of it from its
/// start.
pub proof fn lemma_find_in_rest(text: Seq<char>, from: int, lit: Seq<char>)
    requires
        0 <= from <= text.len(),
    ensures
        find(text.skip(from), 0, lit) == find(text, from, lit) - from,
    decreases text.len() - from,
{
    let rest = text.skip(from);
    if from < text.len() {
        if from + lit.len() <= text.len() {
            assert(rest.subrange(0, lit.len() as int) == text.subrange(from, from + lit.len()));
        }
        assert(occurs_at(rest, 0, lit) == occurs_at(text, from, lit));
        if !occurs_at(text, from, lit) {
            lemma_find_in_rest(text, from + 1, lit);
            lemma_find_shift(rest, lit, 0);
            assert(rest.skip(1) == text.skip(from + 1));
        }
    }
}

/// Searching from the position after `p` is searching the text without its
/// first character from `p`.
pub proof fn lemma_find_shift(text: Seq<char>, lit: Seq<char>, p: int)
    requires
        text.len() > 0,
        0 <= p < text.len(),
    ensures
        find(text, p + 1, lit) == find(text.skip(1), p, lit) + 1,
    decreases text.len() - p,
{
    let rest = text.skip(1);
    if p + 1 < text.len() {
        if p + 1 + lit.len() <= text.len() {
            assert(rest.subrange(p, p + lit.len()) == text.subrange(p + 1, p + 1 + lit.len()));
        }
        assert(occurs_at(rest, p, lit) == occurs_at(text, p + 1, lit));
        if !occurs_at(text, p + 1, lit) {
            lemma_find_shift(text, lit, p + 1);
        }
    }
}

/// `text` without its leading whitespace.
pub open spec fn trim_start(text: Seq<char>) -> Seq<char>
    decreases text.len(),
{
    if text.len() > 0 && is_whitespace(text[0]) {
        trim_start(text.drop_first())
    } else {
        text
    }
}

/// `text` without its trailing whitespace.
pub open spec fn trim_end(text: Seq<char>) -> Seq<char>
    decreases text.len(),
{
    if text.len() > 0 && is_whitespace(text.last()) {
        trim_end(text.drop_last())
    } else {
        text
    }
}

/// `text` without its leading and trailing whitespace.
pub open spec fn trim(text: Seq<char>) -> Seq<char> {
    trim_end(trim_start(text))
}

/// The bounds of `trim(text)` within `text`.
pub fn trim_bounds(text: &Vec<char>) -> (r: (usize, usize))
    ensures
        r.0 <= r.1 <= text.len(),
        text@.subrange(r.0 as int, r.1 as int) == trim(text@),
{
    let mut lo: usize = 0;
    assert(text@.skip(0) == text@);
    while lo < text.len() && char_is_whitespace(text[lo])
        invariant
            lo <= text.len(),
            trim_start(text@) == trim_start(text@.skip(lo as int)),
        decreases text.len() - lo,
    {
        assert(text@.skip(lo as int).drop_first() == text@.skip(lo + 1));
        lo += 1;
    }
    assert(trim_start(text@) == text@.skip(lo as int));
    let mut hi: usize = text.len();
    assert(text@.skip(lo as int) == text@.subrange(lo as int, hi as int));
    while hi > lo && char_is_whitespace(text[hi - 1])
        invariant
            lo <= hi <= text.len(),
            trim(text@) == trim_end(text@.subrange(lo as int, hi as int)),
        decreases hi - lo,
    {
        assert(text@.subrange(lo as int, hi as int).drop_last() == text@.subrange(
            lo as int,
            hi - 1,
        ));
        hi -= 1;
    }
    (lo, hi)
}

/// `text` with every whitespace character taken out.
pub open spec fn strip_whitespace(text: Seq<char>) -> Seq<char>
    decreases text.len(),
{
    if text.len() == 0 {
        text
    } else if is_whitespace(text[0]) {
        strip_whitespace(text.drop_first())
    } else {
        seq![text[0]] + strip_whitespace(text.drop_first())
    }
}

/// `text` with every occurrence of `pattern` replaced by `with`, the
/// occurrences taken from the left and without overlap. An empty pattern
/// replaces nothing.
pub open spec fn replace_all(text: Seq<char>, pattern: Seq<char>, with: Seq<char>) -> Seq<char>
    decreases text.len(),
{
    if text.len() == 0 || pattern.len() == 0 {
        text
    } else if occurs_at(text, 0, pattern) {
        with + replace_all(text.skip(pattern.len() as int), pattern, with)
    } else {
        seq![text[0]] + replace_all(text.drop_first(), pattern, with)
    }
}

/// The escape for `>`.
pub open spec fn entity_gt() -> Seq<char> {
    seq!['&', 'g', 't', ';']
}

/// The escape for `<`.
pub open spec fn entity_lt() -> Seq<char> {
    seq!['&', 'l', 't', ';']
}

/// The canonical form under which field names and values are compared:
/// whitespace is removed, then each `&gt;` becomes `>`, then each `&lt;`
/// becomes `<`.
pub open spec fn canonical(text: Seq<char>) -> Seq<char> {
    replace_all(
        replace_all(strip_whitespace(text), entity_gt(), seq!['>']),
        entity_lt(),
        seq!['<'],
    )
}

/// `text` with every whitespace character taken out.
pub fn strip_whitespace_exec(text: &Vec<char>) -> (r: Vec<char>)
    ensures
        r@ == strip_whitespace(text@),
{
    let mut out: Vec<char> = Vec::new();
    let mut i: usize = 0;
    assert(text@.skip(0) == text@);
    assert(out@ + strip_whitespace(text@) == strip_whitespace(text@));
    while i < text.len()
        invariant
            i <= text.len(),
            out@ + strip_whitespace(text@.skip(i as int)) == strip_whitespace(text@),
        decreases text.len() - i,
    {
        let c = text[i];
        proof {
            let rest = text@.skip(i as int);
            assert(rest.drop_first() == text@.skip(i + 1));
            assert(rest[0] == c);
            if !is_whitespace(c) {
                assert(out@.push(c) + strip_whitespace(text@.skip(i + 1)) == out@ + (seq![c]
                    + strip_whitespace(text@.skip(i + 1))));
            }
        }
        if !char_is_whitespace(c) {
            out.push(c);
        }
        i += 1;
    }
    assert(out@ + Seq::<char>::empty() == out@);
    out
}

/// `text` with every occurrence of `pattern` replaced by the character
/// `with`.
pub fn replace_all_exec(text: &Vec<char>, pattern: &Vec<char>, with: char) -> (r: Vec<char>)
    ensures
        r@ == replace_all(text@, pattern@, seq![with]),
{
    let mut out: Vec<char> = Vec::new();
    let mut i: usize = 0;
    assert(text@.skip(0) == text@);
    assert(out@ + replace_all(text@, pattern@, seq![with]) == replace_all(
        text@,
        pattern@,
        seq![with],
    ));
    while i < text.len()
        invariant
            i <= text.len(),
            out@ + replace_all(text@.skip(i as int), pattern@, seq![with]) == replace_all(
                text@,
                pattern@,
                seq![with],
            ),
        decreases text.len() - i,
    {
        let ghost rest = text@.skip(i as int);
        let hit = pattern.len() > 0 && occurs_at_exec(text, i, pattern);
        proof {
            assert(rest.len() > 0);
            if i + pattern.len() <= text.len() {
                assert(rest.subrange(0, pattern.len() as int) == text@.subrange(
                    i as int,
                    i + pattern.len(),
                ));
            }
            assert(hit == (pattern.len() > 0 && occurs_at(rest, 0, pattern@)));
        }
        if hit {
            proof {
                assert(rest.skip(pattern.len() as int) == text@.skip(i + pattern.len()));
                assert(out@.push(with) + replace_all(
                    text@.skip(i + pattern.len()),
                    pattern@,
                    seq![with],
                ) == out@ + (seq![with] + replace_all(
                    text@.skip(i + pattern.len()),
                    pattern@,
                    seq![with],
                )));
            }
            out.push(with);
            i += pattern.len();
        } else {
            proof {
                assert(rest.drop_first() == text@.skip(i + 1));
                lemma_replace_nothing(rest.drop_first(), seq![with]);
                lemma_replace_nothing(rest, seq![with]);
                assert(seq![rest[0]] + rest.drop_first() == rest);
                assert(out@.push(text@[i as int]) + replace_all(
                    text@.skip(i + 1),
                    pattern@,
                    seq![with],
                ) == out@ + (seq![rest[0]] + replace_all(text@.skip(i + 1), pattern@, seq![with])));
            }
            out.push(text[i]);
            i += 1;
        }
    }
    assert(out@ + Seq::<char>::empty() == out@);
    out
}

/// An empty pattern replaces nothing.
pub proof fn lemma_replace_nothing(text: Seq<char>, with: Seq<char>)
    ensures
        replace_all(text, Seq::empty(), with) == text,
{
}

/// The canonical form of `text`.
pub fn canonical_exec(text: &str) -> (r: Vec<char>)
    ensures
        r@ == canonical(text@),
{
    let chars = to_chars(text);
    let stripped = strip_whitespace_exec(&chars);
    let gt: Vec<char> = vec!['&', 'g', 't', ';'];
    let lt: Vec<char> = vec!['&', 'l', 't', ';'];
    assert(gt@ == entity_gt());
    assert(lt@ == entity_lt());
    let first = replace_all_exec(&stripped, &gt, '>');
    replace_all_exec(&first, &lt, '<')
}

/// Removing whitespace from a concatenation removes it from each part.
pub proof fn lemma_strip_concat(a: Seq<char>, b: Seq<char>)
    ensures
        strip_whitespace(a + b) == strip_whitespace(a) + strip_whitespace(b),
    decreases a.len(),
{
    if a.len() == 0 {
        assert(a + b == b);
        assert(strip_whitespace(a) + strip_whitespace(b) == strip_whitespace(b));
    } else {
        assert((a + b).drop_first() == a.drop_first() + b);
        assert((a + b)[0] == a[0]);
        lemma_strip_concat(a.drop_first(), b);
        if !is_whitespace(a[0]) {
            assert(seq![a[0]] + (strip_whitespace(a.drop_first()) + strip_whitespace(b)) == (
            seq![a[0]] + strip_whitespace(a.drop_first())) + strip_whitespace(b));
        }
    }
}

/// A character that is not the first of the pattern is copied as it stands.
pub proof fn lemma_replace_after_other_start(
    c: char,
    rest: Seq<char>,
    pattern: Seq<char>,
    with: Seq<char>,
)
    requires
        pattern.len() > 0,
        pattern[0] != c,
    ensures
        replace_all(seq![c] + rest, pattern, with) == seq![c] + replace_all(rest, pattern, with),
{
    let text = seq![c] + rest;
    assert(text[0] == c);
    assert(text.drop_first() == rest);
    if occurs_at(text, 0, pattern) {
        assert(text.subrange(0, pattern.len() as int)[0] == pattern[0]);
    }
}

/// A character that does not occur in the pattern parts the text in two
/// halves that are replaced on their own.
pub proof fn lemma_replace_around_other_char(
    before: Seq<char>,
    c: char,
    after: Seq<char>,
    pattern: Seq<char>,
    with: Seq<char>,
)
    requires
        pattern.len() > 0,
        !pattern.contains(c),
    ensures
        replace_all(before + seq![c] + after, pattern, with) == replace_all(before, pattern, with)
            + seq![c] + replace_all(after, pattern, with),
    decreases before.len(),
{
    let text = before + seq![c] + after;
    let n = pattern.len() as int;
    if before.len() == 0 {
        assert(text == seq![c] + after);
        assert(pattern[0] != c);
        lemma_replace_after_other_start(c, after, pattern, with);
        assert(replace_all(before, pattern, with) + seq![c] == seq![c]);
    } else {
        assert(text[0] == before[0]);
        if occurs_at(text, 0, pattern) {
            if n > before.len() {
                assert(text.subrange(0, n)[before.len() as int] == c);
                assert(pattern.contains(c));
            }
            assert(before.subrange(0, n) == text.subrange(0, n));
            assert(occurs_at(before, 0, pattern));
            assert(text.skip(n) == before.skip(n) + seq![c] + after);
            lemma_replace_around_other_char(before.skip(n), c, after, pattern, with);
            assert(with + (replace_all(before.skip(n), pattern, with) + seq![c] + replace_all(
                after,
                pattern,
                with,
            )) == (with + replace_all(before.skip(n), pattern, with)) + seq![c] + replace_all(
                after,
                pattern,
                with,
            ));
        } else {
            if occurs_at(before, 0, pattern) {
                assert(before.subrange(0, n) == text.subrange(0, n));
            }
            assert(!occurs_at(before, 0, pattern));
            assert(text.drop_first() == before.drop_first() + seq![c] + after);
            lemma_replace_around_other_char(before.drop_first(), c, after, pattern, with);
            assert(seq![before[0]] + (replace_all(before.drop_first(), pattern, with) + seq![c]
                + replace_all(after, pattern, with)) == (seq![before[0]] + replace_all(
                before.drop_first(),
                pattern,
                with,
            )) + seq![c] + replace_all(after, pattern, with));
        }
    }
}

/// A character that is not the last of the pattern, put at the end, is
/// copied as it stands.
pub proof fn lemma_replace_before_other_end(
    before: Seq<char>,
    c: char,
    pattern: Seq<char>,
    with: Seq<char>,
)
    requires
        pattern.len() > 0,
        pattern.last() != c,
    ensures
        replace_all(before + seq![c], pattern, with) == replace_all(before, pattern, with) + seq![c],
    decreases before.len(),
{
    let text = before + seq![c];
    let n = pattern.len() as int;
    if before.len() == 0 {
        assert(text == seq![c]);
        assert(text.drop_first() == Seq::<char>::empty());
        if occurs_at(text, 0, pattern) {
            assert(text.subrange(0, n)[n - 1] == pattern[n - 1]);
        }
        assert(replace_all(before, pattern, with) + seq![c] == seq![c]);
        assert(seq![text[0]] + replace_all(Seq::<char>::empty(), pattern, with) == seq![c]);
    } else {
        assert(text[0] == before[0]);
        if occurs_at(text, 0, pattern) {
            if n > before.len() {
                assert(text.subrange(0, n)[n - 1] == c);
            }
            assert(before.subrange(0, n) == text.subrange(0, n));
            assert(text.skip(n) == before.skip(n) + seq![c]);
            lemma_replace_before_other_end(before.skip(n), c, pattern, with);
            assert(with + (replace_all(before.skip(n), pattern, with) + seq![c]) == (with
                + replace_all(before.skip(n), pattern, with)) + seq![c]);
        } else {
            if occurs_at(before, 0, pattern) {
                assert(before.subrange(0, n) == text.subrange(0, n));
            }
            assert(text.drop_first() == before.drop_first() + seq![c]);
            lemma_replace_before_other_end(before.drop_first(), c, pattern, with);
            assert(seq![before[0]] + (replace_all(before.drop_first(), pattern, with) + seq![c])
                == (seq![before[0]] + replace_all(before.drop_first(), pattern, with)) + seq![c]);
        }
    }
}

/// Where the first character of the pattern occurs nowhere else in it, an
/// occurrence of the pattern is replaced, and what stands before and after
/// it is replaced on its own.
pub proof fn lemma_replace_around_pattern(
    before: Seq<char>,
    after: Seq<char>,
    pattern: Seq<char>,
    with: Seq<char>,
)
    requires
        pattern.len() > 0,
        forall|k: int| 0 < k < pattern.len() ==> #[trigger] pattern[k] != pattern[0],
    ensures
        replace_all(before + pattern + after, pattern, with) == replace_all(before, pattern, with)
            + with + replace_all(after, pattern, with),
    decreases before.len(),
{
    let text = before + pattern + after;
    let n = pattern.len() as int;
    if before.len() == 0 {
        assert(text == pattern + after);
        assert(text.subrange(0, n) == pattern);
        assert(text.skip(n) == after);
        assert(replace_all(before, pattern, with) + with == with);
    } else {
        assert(text[0] == before[0]);
        if occurs_at(text, 0, pattern) {
            if n > before.len() {
                let k = before.len() as int;
                assert(text[k] == pattern[0]);
                assert(text.subrange(0, n)[k] == pattern[k]);
            }
            assert(before.subrange(0, n) == text.subrange(0, n));
            assert(text.skip(n) == before.skip(n) + pattern + after);
            lemma_replace_around_pattern(before.skip(n), after, pattern, with);
            assert(with + (replace_all(before.skip(n), pattern, with) + with + replace_all(
                after,
                pattern,
                with,
            )) == (with + replace_all(before.skip(n), pattern, with)) + with + replace_all(
                after,
                pattern,
                with,
            ));
        } else {
            if occurs_at(before, 0, pattern) {
                assert(before.subrange(0, n) == text.subrange(0, n));
            }
            assert(text.drop_first() == before.drop_first() + pattern + after);
            lemma_replace_around_pattern(before.drop_first(), after, pattern, with);
            assert(seq![before[0]] + (replace_all(before.drop_first(), pattern, with) + with
                + replace_all(after, pattern, with)) == (seq![before[0]] + replace_all(
                before.drop_first(),
                pattern,
                with,
            )) + with + replace_all(after, pattern, with));
        }
    }
}

/// Texts that differ only in whitespace have the same canonical form.
pub proof fn law_canonical_ignores_whitespace(a: Seq<char>, b: Seq<char>)
    requires
        strip_whitespace(a) == strip_whitespace(b),
    ensures
        canonical(a) == canonical(b),
{
}

/// A whitespace character put anywhere into a text changes neither what is
/// left when whitespace is removed nor the canonical form.
pub proof fn law_inserted_whitespace_is_ignored(text: Seq<char>, at: int, c: char)
    requires
        0 <= at <= text.len(),
        is_whitespace(c),
    ensures
        strip_whitespace(text.insert(at, c)) == strip_whitespace(text),
        canonical(text.insert(at, c)) == canonical(text),
{
    let head = text.take(at);
    let tail = text.skip(at);
    assert(text.insert(at, c) == head + (seq![c] + tail));
    assert(text == head + tail);
    lemma_strip_concat(head, seq![c] + tail);
    lemma_strip_concat(head, tail);
    assert((seq![c] + tail).drop_first() == tail);
}

/// The escape `&gt;` and the character `>` give the same canonical form,
/// whatever stands around them.
pub proof fn law_canonical_unescapes_gt(before: Seq<char>, after: Seq<char>)
    ensures
        canonical(before + entity_gt() + after) == canonical(before + seq!['>'] + after),
{
    let x = strip_whitespace(before);
    let y = strip_whitespace(after);
    let gt = entity_gt();
    lemma_strip_concat(before + gt, after);
    lemma_strip_concat(before, gt);
    lemma_strip_concat(before + seq!['>'], after);
    lemma_strip_concat(before, seq!['>']);
    lemma_strip_literal(gt);
    lemma_strip_literal(seq!['>']);
    assert(strip_whitespace(before + gt + after) == x + gt + y);
    assert(strip_whitespace(before + seq!['>'] + after) == x + seq!['>'] + y);
    lemma_replace_around_pattern(x, y, gt, seq!['>']);
    assert(!gt.contains('>'));
    lemma_replace_around_other_char(x, '>', y, gt, seq!['>']);
}

/// The escape `&lt;` and the character `<` give the same canonical form,
/// whatever stands around them.
pub proof fn law_canonical_unescapes_lt(before: Seq<char>, after: Seq<char>)
    ensures
        canonical(before + entity_lt() + after) == canonical(before + seq!['<'] + after),
{
    let x = strip_whitespace(before);
    let y = strip_whitespace(after);
    let gt = entity_gt();
    let lt = entity_lt();
    let to_gt = seq!['>'];
    let to_lt = seq!['<'];
    lemma_strip_concat(before + lt, after);
    lemma_strip_concat(before, lt);
    lemma_strip_concat(before + to_lt, after);
    lemma_strip_concat(before, to_lt);
    lemma_strip_literal(lt);
    lemma_strip_literal(to_lt);
    assert(strip_whitespace(before + lt + after) == x + lt + y);
    assert(strip_whitespace(before + to_lt + after) == x + to_lt + y);
    let rx = replace_all(x, gt, to_gt);
    let ry = replace_all(y, gt, to_gt);
    // the first replacement leaves `<` where it is
    assert(!gt.contains('<'));
    lemma_replace_around_other_char(x, '<', y, gt, to_gt);
    assert(replace_all(x + to_lt + y, gt, to_gt) == rx + to_lt + ry);
    // and it leaves `&lt;` where it is
    assert(!gt.contains('l'));
    assert(x + lt + y == (x + seq!['&']) + seq!['l'] + (seq!['t', ';'] + y));
    lemma_replace_around_other_char(x + seq!['&'], 'l', seq!['t', ';'] + y, gt, to_gt);
    lemma_replace_before_other_end(x, '&', gt, to_gt);
    assert(seq!['t', ';'] + y == seq!['t'] + (seq![';'] + y));
    lemma_replace_after_other_start('t', seq![';'] + y, gt, to_gt);
    lemma_replace_after_other_start(';', y, gt, to_gt);
    assert(replace_all(x + lt + y, gt, to_gt) == rx + lt + ry) by {
        assert((rx + seq!['&']) + seq!['l'] + (seq!['t'] + (seq![';'] + ry)) == rx + lt + ry);
    }
    // the second replacement turns both into `<`
    assert(!lt.contains('<'));
    lemma_replace_around_other_char(rx, '<', ry, lt, to_lt);
    lemma_replace_around_pattern(rx, ry, lt, to_lt);
}

/// A text that holds no whitespace is left as it is.
pub proof fn lemma_strip_literal(text: Seq<char>)
    requires
        forall|k: int| 0 <= k < text.len() ==> !is_whitespace(#[trigger] text[k]),
    ensures
        strip_whitespace(text) == text,
    decreases text.len(),
{
    if text.len() > 0 {
        assert forall|k: int| 0 <= k < text.drop_first().len() implies !is_whitespace(
            #[trigger] text.drop_first()[k],
        ) by {
            assert(text.drop_first()[k] == text[k + 1]);
        }
        lemma_strip_literal(text.drop_first());
        assert(seq![text[0]] + text.drop_first() == text);
    }
}

/// `text` holds no whitespace.
pub open spec fn no_whitespace(text: Seq<char>) -> bool {
    forall|k: int| 0 <= k < text.len() ==> !is_whitespace(#[trigger] text[k])
}

/// `lit` stands nowhere in `text`.
pub open spec fn absent(text: Seq<char>, lit: Seq<char>) -> bool {
    forall|p: int| !#[trigger] occurs_at(text, p, lit)
}

/// What is left when whitespace is removed holds no whitespace.
pub proof fn lemma_strip_has_no_whitespace(text: Seq<char>)
    ensures
        no_whitespace(strip_whitespace(text)),
    decreases text.len(),
{
    if text.len() > 0 {
        lemma_strip_has_no_whitespace(text.drop_first());
        let rest = strip_whitespace(text.drop_first());
        let out = strip_whitespace(text);
        if !is_whitespace(text[0]) {
            assert forall|k: int| 0 <= k < out.len() implies !is_whitespace(#[trigger] out[k]) by {
                if k > 0 {
                    assert(out[k] == rest[k - 1]);
                }
            }
        }
    }
}

/// Replacing by a character that is no whitespace brings no whitespace into
/// a text that holds none.
pub proof fn lemma_replace_keeps_no_whitespace(text: Seq<char>, pattern: Seq<char>, c: char)
    requires
        no_whitespace(text),
        !is_whitespace(c),
    ensures
        no_whitespace(replace_all(text, pattern, seq![c])),
    decreases text.len(),
{
    let out = replace_all(text, pattern, seq![c]);
    if text.len() == 0 || pattern.len() == 0 {
    } else if occurs_at(text, 0, pattern) {
        let rest = text.skip(pattern.len() as int);
        assert forall|k: int| 0 <= k < rest.len() implies !is_whitespace(#[trigger] rest[k]) by {
            assert(rest[k] == text[k + pattern.len()]);
        }
        lemma_replace_keeps_no_whitespace(rest, pattern, c);
        let inner = replace_all(rest, pattern, seq![c]);
        assert forall|k: int| 0 <= k < out.len() implies !is_whitespace(#[trigger] out[k]) by {
            if k > 0 {
                assert(out[k] == inner[k - 1]);
            }
        }
    } else {
        let rest = text.drop_first();
        assert forall|k: int| 0 <= k < rest.len() implies !is_whitespace(#[trigger] rest[k]) by {
            assert(rest[k] == text[k + 1]);
        }
        lemma_replace_keeps_no_whitespace(rest, pattern, c);
        let inner = replace_all(rest, pattern, seq![c]);
        assert forall|k: int| 0 <= k < out.len() implies !is_whitespace(#[trigger] out[k]) by {
            if k > 0 {
                assert(out[k] == inner[k - 1]);
            } else {
                assert(out[0] == text[0]);
            }
        }
    }
}

/// As long as the result of a replacement does not hold the replacing
/// character, it is a copy of the text.
pub proof fn lemma_replace_copies_prefix(text: Seq<char>, pattern: Seq<char>, c: char, m: int)
    requires
        pattern.len() > 0,
        0 <= m <= replace_all(text, pattern, seq![c]).len(),
        forall|k: int| 0 <= k < m ==> #[trigger] replace_all(text, pattern, seq![c])[k] != c,
    ensures
        m <= text.len(),
        replace_all(text, pattern, seq![c]).take(m) == text.take(m),
    decreases m,
{
    let out = replace_all(text, pattern, seq![c]);
    if m > 0 {
        assert(text.len() > 0);
        if occurs_at(text, 0, pattern) {
            assert(out[0] == c);
        } else {
            let rest = text.drop_first();
            let inner = replace_all(rest, pattern, seq![c]);
            assert(out == seq![text[0]] + inner);
            assert forall|k: int| 0 <= k < m - 1 implies #[trigger] inner[k] != c by {
                assert(inner[k] == out[k + 1]);
            }
            lemma_replace_copies_prefix(rest, pattern, c, m - 1);
            assert(out.take(m) == text.take(m)) by {
                assert forall|k: int| 0 <= k < m implies out.take(m)[k] == text.take(m)[k] by {
                    if k > 0 {
                        assert(out[k] == inner[k - 1]);
                        assert(inner.take(m - 1)[k - 1] == rest.take(m - 1)[k - 1]);
                        assert(rest[k - 1] == text[k]);
                    }
                }
            }
        }
    } else {
        assert(out.take(0) == text.take(0));
    }
}

/// What stands nowhere in a text stands nowhere in what follows a position
/// of it.
pub proof fn lemma_absent_in_rest(text: Seq<char>, lit: Seq<char>, from: int)
    requires
        absent(text, lit),
        0 <= from <= text.len(),
    ensures
        absent(text.skip(from), lit),
{
    let rest = text.skip(from);
    assert forall|p: int| !#[trigger] occurs_at(rest, p, lit) by {
        if occurs_at(rest, p, lit) {
            assert(rest.subrange(p, p + lit.len()) == text.subrange(p + from, p + from + lit.len()));
            assert(occurs_at(text, p + from, lit));
        }
    }
}

/// After every occurrence of `pattern` is replaced by a character that
/// `other` does not hold, `other` stands nowhere in the result, provided that
/// `other` is the pattern itself or stood nowhere in the text.
pub proof fn lemma_replace_leaves_none(text: Seq<char>, pattern: Seq<char>, c: char, other: Seq<char>)
    requires
        pattern.len() > 0,
        other.len() > 0,
        !other.contains(c),
        other == pattern || absent(text, other),
    ensures
        absent(replace_all(text, pattern, seq![c]), other),
    decreases text.len(),
{
    let out = replace_all(text, pattern, seq![c]);
    let n = pattern.len() as int;
    let m = other.len() as int;
    if text.len() == 0 {
    } else {
        let hit = occurs_at(text, 0, pattern);
        let rest = if hit {
            text.skip(n)
        } else {
            text.drop_first()
        };
        let first = if hit {
            c
        } else {
            text[0]
        };
        if other != pattern {
            lemma_absent_in_rest(
                text,
                other,
                if hit {
                    n
                } else {
                    1
                },
            );
        }
        lemma_replace_leaves_none(rest, pattern, c, other);
        let inner = replace_all(rest, pattern, seq![c]);
        assert(out == seq![first] + inner);
        assert forall|p: int| !#[trigger] occurs_at(out, p, other) by {
            if occurs_at(out, p, other) {
                if p > 0 {
                    assert(out.subrange(p, p + m) == inner.subrange(p - 1, p - 1 + m));
                    assert(occurs_at(inner, p - 1, other));
                } else {
                    assert(out.subrange(0, m)[0] == other[0]);
                    if hit {
                        assert(other[0] == c);
                    } else {
                        assert forall|k: int| 0 <= k < m - 1 implies #[trigger] inner[k] != c by {
                            assert(inner[k] == out.subrange(0, m)[k + 1]);
                            assert(other[k + 1] != c);
                        }
                        lemma_replace_copies_prefix(rest, pattern, c, m - 1);
                        assert(text.subrange(0, m) == other) by {
                            assert forall|k: int| 0 <= k < m implies text.subrange(0, m)[k]
                                == other[k] by {
                                assert(out.subrange(0, m)[k] == other[k]);
                                if k > 0 {
                                    assert(inner.take(m - 1)[k - 1] == rest.take(m - 1)[k - 1]);
                                    assert(rest[k - 1] == text[k]);
                                    assert(out[k] == inner[k - 1]);
                                }
                            }
                        }
                        assert(occurs_at(text, 0, other));
                    }
                }
            }
        }
    }
}

/// A text in which the pattern stands nowhere is left as it is.
pub proof fn lemma_replace_without_occurrence(text: Seq<char>, pattern: Seq<char>, with: Seq<char>)
    requires
        absent(text, pattern),
    ensures
        replace_all(text, pattern, with) == text,
    decreases text.len(),
{
    if text.len() > 0 && pattern.len() > 0 {
        assert(!occurs_at(text, 0, pattern));
        lemma_absent_in_rest(text, pattern, 1);
        lemma_replace_without_occurrence(text.drop_first(), pattern, with);
        assert(seq![text[0]] + text.drop_first() == text);
    }
}

/// A canonical form holds no whitespace and neither of the two escapes, and
/// is its own canonical form.
pub proof fn law_canonical_is_canonical(text: Seq<char>)
    ensures
        no_whitespace(canonical(text)),
        absent(canonical(text), entity_gt()),
        absent(canonical(text), entity_lt()),
        canonical(canonical(text)) == canonical(text),
{
    let gt = entity_gt();
    let lt = entity_lt();
    let stripped = strip_whitespace(text);
    let first = replace_all(stripped, gt, seq!['>']);
    let out = replace_all(first, lt, seq!['<']);
    lemma_strip_has_no_whitespace(text);
    lemma_replace_keeps_no_whitespace(stripped, gt, '>');
    lemma_replace_keeps_no_whitespace(first, lt, '<');
    assert(!gt.contains('>'));
    assert(!gt.contains('<'));
    assert(!lt.contains('<'));
    lemma_replace_leaves_none(stripped, gt, '>', gt);
    lemma_replace_leaves_none(first, lt, '<', gt);
    lemma_replace_leaves_none(first, lt, '<', lt);
    lemma_strip_literal(out);
    lemma_replace_without_occurrence(out, gt, seq!['>']);
    lemma_replace_without_occurrence(out, lt, seq!['<']);
}

} // verus!
