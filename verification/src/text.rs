//! Text: the order of strings and the searches the library makes in them.

use vstd::prelude::*;

verus! {

/// How one text stands to another in the order of code points.
#[derive(Clone, Copy, Debug, PartialEq, Eq, Structural)]
pub enum Order {
    Before,
    Same,
    After,
}

/// `a` and `b` agree on their first `n` characters, and there `a` either ends
/// or holds the smaller character.
pub open spec fn splits_at(a: Seq<char>, b: Seq<char>, n: int) -> bool {
    &&& 0 <= n <= a.len()
    &&& n < b.len()
    &&& a.take(n) == b.take(n)
    &&& n == a.len() || a[n] < b[n]
}

/// `a` comes before `b` in the order of code points.
pub open spec fn precedes(a: Seq<char>, b: Seq<char>) -> bool {
    exists|n: int| splits_at(a, b, n)
}

/// No text comes before itself, nor before a text that comes before it.
pub proof fn lemma_precedes_asymmetric(a: Seq<char>, b: Seq<char>)
    requires
        precedes(a, b),
    ensures
        a != b,
        !precedes(b, a),
{
    let n = choose|n: int| splits_at(a, b, n);
    assert(a.take(n) == b.take(n));
    if a == b {
        assert(false);
    }
    if precedes(b, a) {
        let m = choose|m: int| splits_at(b, a, m);
        if n < m {
            assert(a.take(m)[n] == b.take(m)[n]);
        } else if m < n {
            assert(a.take(n)[m] == b.take(n)[m]);
        }
    }
}

/// The order of texts is transitive.
pub proof fn lemma_precedes_transitive(a: Seq<char>, b: Seq<char>, c: Seq<char>)
    requires
        precedes(a, b),
        precedes(b, c),
    ensures
        precedes(a, c),
{
    let n = choose|n: int| splits_at(a, b, n);
    let m = choose|m: int| splits_at(b, c, m);
    let k = if n <= m { n } else { m };
    assert(a.take(k) =~= c.take(k)) by {
        assert forall|j: int| 0 <= j < k implies a[j] == c[j] by {
            assert(a.take(n)[j] == b.take(n)[j]);
            assert(b.take(m)[j] == c.take(m)[j]);
        }
    }
    if n < m {
        assert(b.take(m)[n] == c.take(m)[n]);
    } else if m < n {
        assert(a.take(n)[m] == b.take(n)[m]);
    }
    assert(splits_at(a, c, k));
}

/// Of two texts that differ one comes before the other.
pub proof fn lemma_precedes_total(a: Seq<char>, b: Seq<char>)
    requires
        a != b,
    ensures
        precedes(a, b) || precedes(b, a),
{
    assert(a.take(0) =~= b.take(0));
    lemma_precedes_total_from(a, b, 0);
}

proof fn lemma_precedes_total_from(a: Seq<char>, b: Seq<char>, n: int)
    requires
        a != b,
        0 <= n <= a.len(),
        n <= b.len(),
        a.take(n) == b.take(n),
    ensures
        precedes(a, b) || precedes(b, a),
    decreases a.len() - n,
{
    if n == a.len() {
        assert(n < b.len()) by {
            if n == b.len() {
                assert(a.take(n) =~= a);
                assert(b.take(n) =~= b);
            }
        }
        assert(splits_at(a, b, n));
    } else if n == b.len() {
        assert(splits_at(b, a, n));
    } else if a[n] < b[n] {
        assert(splits_at(a, b, n));
    } else if b[n] < a[n] {
        assert(splits_at(b, a, n));
    } else {
        assert(a.take(n + 1) =~= a.take(n).push(a[n]));
        assert(b.take(n + 1) =~= b.take(n).push(b[n]));
        lemma_precedes_total_from(a, b, n + 1);
    }
}

/// Compares two texts by their code points.
pub fn compare_text(a: &str, b: &str) -> (order: Order)
    ensures
        order == Order::Before <==> precedes(a@, b@),
        order == Order::Same <==> a@ == b@,
        order == Order::After <==> precedes(b@, a@),
{
    let mut left = a.chars();
    let mut right = b.chars();
    let ghost mut n: int = 0;
    loop
        invariant
            0 <= n <= a@.len(),
            n <= b@.len(),
            vstd::std_specs::iter::IteratorSpec::remaining(&left) == a@.skip(n),
            vstd::std_specs::iter::IteratorSpec::remaining(&right) == b@.skip(n),
            a@.take(n) == b@.take(n),
        decreases a@.len() - n,
    {
        let l = left.next();
        let r = right.next();
        proof {
            if precedes(a@, b@) {
                lemma_precedes_asymmetric(a@, b@);
            }
            if precedes(b@, a@) {
                lemma_precedes_asymmetric(b@, a@);
            }
        }
        match (l, r) {
            (None, None) => {
                assert(a@ =~= a@.take(n));
                assert(b@ =~= b@.take(n));
                return Order::Same;
            },
            (None, Some(_)) => {
                assert(splits_at(a@, b@, n));
                return Order::Before;
            },
            (Some(_), None) => {
                assert(splits_at(b@, a@, n));
                return Order::After;
            },
            (Some(x), Some(y)) => {
                if x < y {
                    assert(splits_at(a@, b@, n));
                    return Order::Before;
                }
                if y < x {
                    assert(splits_at(b@, a@, n));
                    return Order::After;
                }
                assert(a@.take(n + 1) =~= a@.take(n).push(x));
                assert(b@.take(n + 1) =~= b@.take(n).push(y));
                proof {
                    n = n + 1;
                }
            },
        }
    }
}


/// Whether two texts are the same.
pub fn same_text(a: &str, b: &str) -> (same: bool)
    ensures
        same == (a@ == b@),
{
    match compare_text(a, b) {
        Order::Same => true,
        _ => false,
    }
}

/// The characters of a text.
pub fn chars_of(text: &str) -> (chars: Vec<char>)
    ensures
        chars@ == text@,
{
    let mut chars: Vec<char> = Vec::new();
    for c in it: text.chars()
        invariant
            chars@ == it.seq().take(it.index()),
            it.seq() == text@,
    {
        chars.push(c);
    }
    chars
}

/// Whether a text begins with `prefix`.
pub fn begins_with(text: &str, prefix: &str) -> (begins: bool)
    ensures
        begins == prefix@.is_prefix_of(text@),
{
    let chars = chars_of(text);
    let wanted = chars_of(prefix);
    if wanted.len() > chars.len() {
        return false;
    }
    for i in 0..wanted.len()
        invariant
            wanted@.len() <= chars@.len(),
            chars@ == text@,
            wanted@ == prefix@,
            chars@.take(i as int) == wanted@.take(i as int),
    {
        if chars[i] != wanted[i] {
            assert(!(prefix@ == text@.subrange(0, prefix@.len() as int))) by {
                if prefix@ == text@.subrange(0, prefix@.len() as int) {
                    assert(prefix@[i as int] == text@.subrange(0, prefix@.len() as int)[i as int]);
                }
            }
            return false;
        }
        assert(chars@.take(i + 1) =~= chars@.take(i as int).push(chars@[i as int]));
        assert(wanted@.take(i + 1) =~= wanted@.take(i as int).push(wanted@[i as int]));
    }
    assert(wanted@.take(wanted@.len() as int) =~= wanted@);
    assert(chars@.take(wanted@.len() as int) =~= text@.subrange(0, prefix@.len() as int));
    true
}

/// What follows `prefix`, where a text begins with it.
pub fn after_prefix(text: &str, prefix: &str) -> (rest: Option<String>)
    ensures
        rest is Some <==> prefix@.is_prefix_of(text@),
        rest is Some ==> rest->0@ == text@.skip(prefix@.len() as int),
{
    if !begins_with(text, prefix) {
        return None;
    }
    let from = prefix.unicode_len();
    let to = text.unicode_len();
    assert(text@.subrange(from as int, to as int) =~= text@.skip(prefix@.len() as int));
    Some(text.substring_char(from, to).to_owned())
}

/// The characters with the Unicode property White_Space.
pub open spec fn white_space(c: char) -> bool {
    ||| '\u{9}' <= c <= '\u{d}'
    ||| c == '\u{20}'
    ||| c == '\u{85}'
    ||| c == '\u{a0}'
    ||| c == '\u{1680}'
    ||| '\u{2000}' <= c <= '\u{200a}'
    ||| c == '\u{2028}'
    ||| c == '\u{2029}'
    ||| c == '\u{202f}'
    ||| c == '\u{205f}'
    ||| c == '\u{3000}'
}

fn is_white_space(c: char) -> (white: bool)
    ensures
        white == white_space(c),
{
    ('\u{9}' <= c && c <= '\u{d}') || c == '\u{20}' || c == '\u{85}' || c == '\u{a0}' || c
        == '\u{1680}' || ('\u{2000}' <= c && c <= '\u{200a}') || c == '\u{2028}' || c == '\u{2029}'
        || c == '\u{202f}' || c == '\u{205f}' || c == '\u{3000}'
}

/// A text without the white space that it begins with.
pub open spec fn trimmed_start(text: Seq<char>) -> Seq<char>
    decreases text.len(),
{
    if text.len() > 0 && white_space(text.first()) {
        trimmed_start(text.drop_first())
    } else {
        text
    }
}

/// A text without the white space that it ends with.
pub open spec fn trimmed_end(text: Seq<char>) -> Seq<char>
    decreases text.len(),
{
    if text.len() > 0 && white_space(text.last()) {
        trimmed_end(text.drop_last())
    } else {
        text
    }
}

/// A text without the white space around it.
pub open spec fn trimmed(text: Seq<char>) -> Seq<char> {
    trimmed_end(trimmed_start(text))
}

/// Removes the white space around a text.
pub fn trim(text: &str) -> (inner: String)
    ensures
        inner@ == trimmed(text@),
{
    let chars = chars_of(text);
    let mut from: usize = 0;
    assert(chars@.skip(0) =~= text@);
    while from < chars.len() && is_white_space(chars[from])
        invariant
            from <= chars@.len(),
            trimmed_start(text@) == trimmed_start(chars@.skip(from as int)),
        decreases chars@.len() - from,
    {
        assert(chars@.skip(from as int).drop_first() =~= chars@.skip(from + 1));
        from += 1;
    }
    let mut to: usize = chars.len();
    assert(chars@.subrange(from as int, to as int) =~= chars@.skip(from as int));
    while from < to && is_white_space(chars[to - 1])
        invariant
            from <= to <= chars@.len(),
            trimmed(text@) == trimmed_end(chars@.subrange(from as int, to as int)),
        decreases to,
    {
        assert(chars@.subrange(from as int, to as int).drop_last() =~= chars@.subrange(
            from as int,
            to - 1,
        ));
        to -= 1;
    }
    text.substring_char(from, to).to_owned()
}

/// Whether a text holds nothing but white space.
pub open spec fn blank(text: Seq<char>) -> bool {
    forall|i: int| 0 <= i < text.len() ==> white_space(#[trigger] text[i])
}

/// A text is blank exactly when nothing is left of it without the white space
/// around it.
pub proof fn lemma_blank_trimmed(text: Seq<char>)
    ensures
        blank(text) <==> trimmed(text).len() == 0,
    decreases text.len(),
{
    if text.len() > 0 && white_space(text.first()) {
        lemma_blank_trimmed(text.drop_first());
        if blank(text) {
            assert forall|i: int| 0 <= i < text.drop_first().len() implies white_space(
                #[trigger] text.drop_first()[i],
            ) by {
                assert(text[i + 1] == text.drop_first()[i]);
            }
        }
        if blank(text.drop_first()) {
            assert forall|i: int| 0 <= i < text.len() implies white_space(#[trigger] text[i]) by {
                if i > 0 {
                    assert(text.drop_first()[i - 1] == text[i]);
                }
            }
        }
    } else if text.len() > 0 {
        lemma_trimmed_end_keeps(text);
    }
}

proof fn lemma_trimmed_end_keeps(text: Seq<char>)
    requires
        text.len() > 0,
        !white_space(text.first()),
    ensures
        trimmed_end(text).len() > 0,
        !blank(text),
    decreases text.len(),
{
    assert(!white_space(text[0]));
    if white_space(text.last()) {
        assert(text.len() > 1);
        assert(text.drop_last().first() == text.first());
        lemma_trimmed_end_keeps(text.drop_last());
    }
}

/// Where the first `c` of a text stands, or its length.
pub open spec fn first_at(text: Seq<char>, c: char) -> int
    decreases text.len(),
{
    if text.len() == 0 || text.first() == c {
        0
    } else {
        1 + first_at(text.drop_first(), c)
    }
}

/// What of a text stands before the first `c`: all of it, where there is none.
pub open spec fn before_first(text: Seq<char>, c: char) -> Seq<char> {
    text.take(first_at(text, c))
}

/// Cuts a text before the first `c`.
pub fn cut_before(text: &str, c: char) -> (head: String)
    ensures
        head@ == before_first(text@, c),
{
    let chars = chars_of(text);
    let mut at: usize = 0;
    assert(chars@.skip(0) =~= text@);
    while at < chars.len() && chars[at] != c
        invariant
            at <= chars@.len(),
            chars@ == text@,
            first_at(text@, c) == at + first_at(chars@.skip(at as int), c),
        decreases chars@.len() - at,
    {
        assert(chars@.skip(at as int).drop_first() =~= chars@.skip(at + 1));
        at += 1;
    }
    assert(text@.subrange(0, at as int) =~= text@.take(at as int));
    text.substring_char(0, at).to_owned()
}

/// Whether `c` stands somewhere in a text.
pub fn has_char(text: &str, c: char) -> (has: bool)
    ensures
        has == text@.contains(c),
{
    let chars = chars_of(text);
    for i in 0..chars.len()
        invariant
            chars@ == text@,
            forall|j: int| 0 <= j < i ==> chars@[j] != c,
    {
        if chars[i] == c {
            assert(text@[i as int] == c);
            return true;
        }
    }
    false
}

} // verus!
