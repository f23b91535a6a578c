//! Laws of texts: how they are ordered, compared and cut.

use vstd::prelude::*;
use crate::text::{
    after_prefix, before_first, begins_with, blank, compare_text, cut_before, first_at, has_char,
    precedes, same_text, splits_at, trim, trimmed, trimmed_end, trimmed_start, white_space, Order,
};

verus! {

/// Texts are ordered by their first characters, and by what follows where these are one. A text
/// that ends comes before one that goes on.
pub proof fn law_order_of_texts(a: Seq<char>, b: Seq<char>)
    ensures
        a.len() == 0 ==> (precedes(a, b) <==> b.len() > 0),
        b.len() == 0 ==> !precedes(a, b),
        a.len() > 0 && b.len() > 0 && a[0] != b[0] ==> (precedes(a, b) <==> a[0] < b[0]),
        a.len() > 0 && b.len() > 0 && a[0] == b[0] ==> (precedes(a, b) <==> precedes(
            a.drop_first(),
            b.drop_first(),
        )),
{
    if precedes(a, b) {
        let n = choose|n: int| splits_at(a, b, n);
        assert(a.take(n) == b.take(n));
        if a.len() > 0 && b.len() > 0 {
            if n > 0 {
                assert(a.take(n)[0] == b.take(n)[0]);
                assert(a.drop_first().take(n - 1) =~= a.take(n).drop_first());
                assert(b.drop_first().take(n - 1) =~= b.take(n).drop_first());
                assert(splits_at(a.drop_first(), b.drop_first(), n - 1));
            }
        }
    }
    if a.len() == 0 && b.len() > 0 {
        assert(a.take(0) =~= b.take(0));
        assert(splits_at(a, b, 0));
    }
    if a.len() > 0 && b.len() > 0 {
        if a[0] < b[0] {
            assert(a.take(0) =~= b.take(0));
            assert(splits_at(a, b, 0));
        }
        if a[0] == b[0] && precedes(a.drop_first(), b.drop_first()) {
            let n = choose|n: int| splits_at(a.drop_first(), b.drop_first(), n);
            assert(a.drop_first().take(n) == b.drop_first().take(n));
            assert(a.take(n + 1) =~= seq![a[0]] + a.drop_first().take(n));
            assert(b.take(n + 1) =~= seq![b[0]] + b.drop_first().take(n));
            assert(splits_at(a, b, n + 1));
        }
    }
}

/// Comparing two texts tells whether they are one, and which of them comes first otherwise.
pub proof fn law_comparing_texts(a: &str, b: &str, order: Order, same: bool)
    requires
        call_ensures(compare_text, (a, b), order),
        call_ensures(same_text, (a, b), same),
    ensures
        same <==> a@ == b@,
        order == Order::Same <==> a@ == b@,
        order == Order::Before <==> precedes(a@, b@),
        order == Order::After <==> precedes(b@, a@),
{
    if precedes(a@, b@) {
        crate::text::lemma_precedes_asymmetric(a@, b@);
    }
    if precedes(b@, a@) {
        crate::text::lemma_precedes_asymmetric(b@, a@);
    }
}

/// A text that does not hold a character is cut before it as it is, and one in which the character
/// follows such a text is cut to that one, whatever comes behind.
pub proof fn law_cut_before_the_first(head: Seq<char>, c: char, rest: Seq<char>)
    requires
        !head.contains(c),
    ensures
        before_first(head, c) == head,
        before_first(head.push(c) + rest, c) == head,
    decreases head.len(),
{
    let whole = head.push(c) + rest;
    if head.len() == 0 {
        assert(whole.first() == c);
        assert(before_first(whole, c) =~= head);
        assert(before_first(head, c) =~= head);
    } else {
        let less = head.drop_first();
        assert(head[0] != c) by {
            assert(head.contains(head[0]));
        }
        assert(!less.contains(c)) by {
            if less.contains(c) {
                let i = choose|i: int| 0 <= i < less.len() && less[i] == c;
                assert(head[i + 1] == c);
            }
        }
        law_cut_before_the_first(less, c, rest);
        assert(whole.drop_first() =~= less.push(c) + rest);
        assert(first_at(less, c) == less.len()) by {
            assert(before_first(less, c).len() == less.len());
            lemma_first_within(less, c);
        }
        assert(first_at(whole.drop_first(), c) == less.len()) by {
            lemma_first_within(whole.drop_first(), c);
            assert(before_first(whole.drop_first(), c).len() == less.len());
        }
        assert(before_first(head, c) =~= head);
        assert(before_first(whole, c) =~= head);
    }
}

proof fn lemma_first_within(text: Seq<char>, c: char)
    ensures
        0 <= first_at(text, c) <= text.len(),
    decreases text.len(),
{
    if text.len() > 0 && text.first() != c {
        lemma_first_within(text.drop_first(), c);
    }
}

/// Cutting a text does so.
pub proof fn law_cutting(text: &str, c: char, cut: String, head: Seq<char>, rest: Seq<char>)
    requires
        call_ensures(cut_before, (text, c), cut),
        !head.contains(c),
    ensures
        text@ == head ==> cut@ == head,
        text@ == head.push(c) + rest ==> cut@ == head,
{
    law_cut_before_the_first(head, c, rest);
}

/// The characters that are white space, by their numbers.
pub proof fn law_white_space(c: char)
    ensures
        white_space(c) <==> {
            let n = c as u32;
            ||| 9 <= n <= 13
            ||| n == 32
            ||| n == 133
            ||| n == 160
            ||| n == 5760
            ||| 8192 <= n <= 8202
            ||| n == 8232
            ||| n == 8233
            ||| n == 8239
            ||| n == 8287
            ||| n == 12288
        },
{
}

/// What is left of a text without the white space around it is what stands between the white
/// space, where it neither begins nor ends with white space.
pub proof fn law_trimming(before: Seq<char>, inner: Seq<char>, after: Seq<char>)
    requires
        blank(before),
        blank(after),
        inner.len() > 0 ==> !white_space(inner.first()) && !white_space(inner.last()),
    ensures
        trimmed(before + inner + after) == inner,
    decreases before.len() + after.len(),
{
    let whole = before + inner + after;
    if before.len() > 0 {
        assert(white_space(before[0]));
        let less = before.drop_first();
        assert forall|i: int| 0 <= i < less.len() implies white_space(#[trigger] less[i]) by {
            assert(less[i] == before[i + 1]);
        }
        law_trimming(less, inner, after);
        assert(whole.drop_first() =~= less + inner + after);
        assert(whole.first() == before[0]);
    } else if inner.len() > 0 {
        assert(whole =~= inner + after);
        assert(whole.first() == inner.first());
        assert(trimmed_start(whole) == whole);
        lemma_trimmed_end(inner, after);
    } else {
        assert(whole =~= after);
        crate::text::lemma_blank_trimmed(after);
        assert(trimmed(after) =~= inner);
    }
}

proof fn lemma_trimmed_end(inner: Seq<char>, after: Seq<char>)
    requires
        blank(after),
        inner.len() > 0,
        !white_space(inner.last()),
    ensures
        trimmed_end(inner + after) == inner,
    decreases after.len(),
{
    let whole = inner + after;
    if after.len() > 0 {
        let less = after.drop_last();
        assert(white_space(after[after.len() - 1]));
        assert(whole.last() == after[after.len() - 1]);
        assert forall|i: int| 0 <= i < less.len() implies white_space(#[trigger] less[i]) by {
            assert(less[i] == after[i]);
        }
        assert(whole.drop_last() =~= inner + less);
        lemma_trimmed_end(inner, less);
    } else {
        assert(whole =~= inner);
    }
}

/// A text is blank where each of its characters is white space, and removing the white space
/// around a text leaves nothing of a blank one.
pub proof fn law_removing_white_space(text: &str, inner: String)
    requires
        call_ensures(trim, (text,), inner),
    ensures
        inner@ == trimmed(text@),
        blank(text@) <==> forall|i: int| 0 <= i < text@.len() ==> white_space(#[trigger] text@[i]),
        blank(text@) <==> inner@.len() == 0,
{
    crate::text::lemma_blank_trimmed(text@);
}

/// A text begins with another where something follows it, and that is what is left of it. A
/// character is in a text where one of its characters is it.
pub proof fn law_looking_into_texts(
    text: &str,
    prefix: &str,
    begins: bool,
    rest: Option<String>,
    c: char,
    has: bool,
    tail: Seq<char>,
)
    requires
        call_ensures(begins_with, (text, prefix), begins),
        call_ensures(after_prefix, (text, prefix), rest),
        call_ensures(has_char, (text, c), has),
    ensures
        text@ == prefix@ + tail ==> begins && (rest matches Some(found) && found@ == tail),
        begins <==> rest is Some,
        rest is Some ==> text@ == prefix@ + rest->0@,
        has <==> exists|i: int| 0 <= i < text@.len() && #[trigger] text@[i] == c,
{
    if text@ == prefix@ + tail {
        assert(text@.subrange(0, prefix@.len() as int) =~= prefix@);
        assert(text@.skip(prefix@.len() as int) =~= tail);
    }
    if begins {
        assert(text@ =~= prefix@ + text@.skip(prefix@.len() as int));
    }
    if has {
        let i = choose|i: int| 0 <= i < text@.len() && text@[i] == c;
        assert(text@[i] == c);
    }
}

} // verus!
