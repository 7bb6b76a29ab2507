//! How texts are ordered, and how they are put together.

use crate::text::{
    decimal, digit, first_difference, in_order, indent, indent_text, inserted, join_texts, joined,
    lemma_inserted, lemma_precedes_irreflexive, lemma_precedes_total, lemma_precedes_transitive,
    lemma_sorted, line_texts, lines, number_text, precedes, sort_texts, text_before, texts_view,
};
use vstd::prelude::*;
use vstd::utf8::encode_utf8;

verus! {

// ---- order ----

/// Texts are compared by their bytes: one comes before another if, up to some
/// place, they are the same, and there it ends while the other goes on, or has
/// the smaller byte.
pub proof fn law_texts_are_ordered_by_their_bytes(a: &str, b: &str, r: bool)
    requires
        call_ensures(text_before, (a, b), r),
    ensures
        ({
            let (x, y) = (encode_utf8(a@), encode_utf8(b@));
            r <==> exists|n: int|
                {
                    &&& 0 <= n <= x.len()
                    &&& n < y.len()
                    &&& #[trigger] x.take(n) == y.take(n)
                    &&& n == x.len() || x[n] < y[n]
                }
        }),
{
    let (x, y) = (encode_utf8(a@), encode_utf8(b@));
    if r {
        let n = choose|n: int|
            #[trigger] first_difference(x, y, n) && (n == x.len() || x[n] < y[n]);
        assert(x.take(n) =~= y.take(n));
    }
    if exists|n: int|
        {
            &&& 0 <= n <= x.len()
            &&& n < y.len()
            &&& #[trigger] x.take(n) == y.take(n)
            &&& n == x.len() || x[n] < y[n]
        } {
        let n = choose|n: int|
            {
                &&& 0 <= n <= x.len()
                &&& n < y.len()
                &&& #[trigger] x.take(n) == y.take(n)
                &&& n == x.len() || x[n] < y[n]
            };
        assert forall|i: int| 0 <= i < n implies x[i] == y[i] by {
            assert(x.take(n)[i] == y.take(n)[i]);
        }
        assert(first_difference(x, y, n));
    }
}

/// The order of texts is strict and total: of two texts that differ one comes
/// before the other, and never both.
pub proof fn law_the_order_is_strict_and_total(a: Seq<char>, b: Seq<char>, c: Seq<char>)
    ensures
        !precedes(a, a),
        !(precedes(a, b) && precedes(b, a)),
        precedes(a, b) && precedes(b, c) ==> precedes(a, c),
        a == b || precedes(a, b) || precedes(b, a),
{
    lemma_precedes_irreflexive(a);
    lemma_precedes_total(a, b);
    if precedes(a, b) && precedes(b, a) {
        lemma_precedes_transitive(a, b, a);
    }
    if precedes(a, b) && precedes(b, c) {
        lemma_precedes_transitive(a, b, c);
    }
}

/// Sorting loses nothing, adds nothing, and leaves no text in front of one
/// that comes before it.
pub proof fn law_sorting_puts_texts_in_order(texts: Vec<String>, r: Vec<String>)
    requires
        call_ensures(sort_texts, (texts,), r),
    ensures
        texts_view(r@).to_multiset() == texts_view(texts@).to_multiset(),
        r@.len() == texts@.len(),
        forall|i: int, j: int|
            0 <= i < j < r@.len() ==> !precedes((#[trigger] r@[j])@, (#[trigger] r@[i])@),
{
    lemma_sorted(texts_view(texts@));
    assert(texts_view(r@).len() == r@.len());
    assert(texts_view(texts@).len() == texts@.len());
    assert forall|i: int, j: int| 0 <= i < j < r@.len() implies !precedes(
        (#[trigger] r@[j])@,
        (#[trigger] r@[i])@,
    ) by {
        assert(texts_view(r@)[i] == r@[i]@);
        assert(texts_view(r@)[j] == r@[j]@);
    }
}

/// One text more among sorted ones keeps them sorted, and is the only one
/// that is new.
pub proof fn law_inserting_keeps_texts_sorted(sorted: Seq<Seq<char>>, text: Seq<char>)
    requires
        in_order(sorted),
    ensures
        inserted(sorted, text).to_multiset() == sorted.to_multiset().insert(text),
        forall|i: int, j: int|
            0 <= i < j < inserted(sorted, text).len() ==> !precedes(
                #[trigger] inserted(sorted, text)[j],
                #[trigger] inserted(sorted, text)[i],
            ),
{
    lemma_inserted(sorted, text);
}

// ---- numbers ----

/// The number that decimal digits stand for.
pub open spec fn number(digits: Seq<char>) -> int
    decreases digits.len(),
{
    if digits.len() == 0 {
        0
    } else {
        number(digits.drop_last()) * 10 + (digits.last() as int - '0' as int)
    }
}

/// A number is written in decimal: its digits stand for it, and there are
/// none that it could do without.
pub proof fn law_numbers_are_written_in_decimal(n: usize, r: String)
    requires
        call_ensures(number_text, (n,), r),
    ensures
        number(r@) == n,
        r@.len() > 0,
        r@.len() > 1 ==> r@[0] != '0',
        forall|i: int| 0 <= i < r@.len() ==> '0' <= #[trigger] r@[i] <= '9',
{
    lemma_decimal(n as nat);
}

pub proof fn lemma_decimal(n: nat)
    ensures
        number(decimal(n)) == n,
        decimal(n).len() > 0,
        n > 0 ==> decimal(n)[0] != '0',
        n == 0 ==> decimal(n) == seq!['0'],
        forall|i: int| 0 <= i < decimal(n).len() ==> '0' <= #[trigger] decimal(n)[i] <= '9',
    decreases n,
{
    if n < 10 {
        let s = decimal(n);
        assert(s =~= seq![digit(n as int)]);
        assert(s.drop_last() =~= Seq::<char>::empty());
        assert(number(Seq::<char>::empty()) == 0);
    } else {
        lemma_decimal(n / 10);
        let s = decimal(n);
        assert(s.drop_last() =~= decimal(n / 10));
        assert(n == (n / 10) * 10 + n % 10);
        assert(s[0] == decimal(n / 10)[0]);
    }
}

// ---- putting texts together ----

/// Joining puts the separator between each two texts and nowhere else.
pub proof fn law_separators_go_between(
    a: Seq<Seq<char>>,
    b: Seq<Seq<char>>,
    text: Seq<char>,
    separator: Seq<char>,
)
    ensures
        joined(Seq::empty(), separator) == Seq::<char>::empty(),
        joined(seq![text], separator) == text,
        a.len() > 0 && b.len() > 0 ==> joined(a + b, separator) == joined(a, separator)
            + separator + joined(b, separator),
    decreases b.len(),
{
    if a.len() > 0 && b.len() > 0 {
        let all = a + b;
        assert(all.drop_last() =~= a + b.drop_last());
        assert(all.last() == b.last());
        if b.len() > 1 {
            law_separators_go_between(a, b.drop_last(), text, separator);
            assert(joined(all, separator) =~= joined(a, separator) + separator + joined(
                b,
                separator,
            ));
        } else {
            assert(a + b.drop_last() =~= a);
            assert(joined(b, separator) == b[0]);
        }
    }
}

/// Every text is a line of its own, in order.
pub proof fn law_every_text_is_a_line(a: Seq<Seq<char>>, b: Seq<Seq<char>>, text: Seq<char>)
    ensures
        lines(Seq::empty()) == Seq::<char>::empty(),
        lines(seq![text]) == text + "\n"@,
        lines(a + b) == lines(a) + lines(b),
    decreases b.len(),
{
    assert(seq![text].drop_last() =~= Seq::<Seq<char>>::empty());
    assert(lines(Seq::empty()) =~= Seq::<char>::empty());
    assert(seq![text].last() == text);
    assert(lines(seq![text]) =~= text + "\n"@);
    if b.len() > 0 {
        let all = a + b;
        assert(all.drop_last() =~= a + b.drop_last());
        law_every_text_is_a_line(a, b.drop_last(), text);
        assert(lines(all) =~= lines(a) + lines(b));
    } else {
        assert(a + b =~= a);
        assert(lines(a) + lines(b) =~= lines(a));
    }
}

/// Each level is set in by two spaces.
pub proof fn law_levels_are_set_in(depth: usize, r: String)
    requires
        call_ensures(indent_text, (depth,), r),
    ensures
        r@.len() == 2 * depth,
        forall|i: int| 0 <= i < r@.len() ==> #[trigger] r@[i] == ' ',
{
    lemma_indent(depth as nat);
}

proof fn lemma_indent(depth: nat)
    ensures
        indent(depth).len() == 2 * depth,
        forall|i: int| 0 <= i < indent(depth).len() ==> #[trigger] indent(depth)[i] == ' ',
    decreases depth,
{
    if depth > 0 {
        reveal_strlit("  ");
        lemma_indent((depth - 1) as nat);
    }
}

/// The functions that put texts together do just that.
pub proof fn law_putting_texts_together(
    texts: Vec<String>,
    separator: &str,
    all: String,
    each: String,
)
    requires
        call_ensures(join_texts, (&texts, separator), all),
        call_ensures(line_texts, (&texts,), each),
    ensures
        all@ == joined(texts_view(texts@), separator@),
        each@ == lines(texts_view(texts@)),
        forall|i: int|
            0 <= i < texts@.len() ==> #[trigger] texts_view(texts@)[i] == texts@[i]@,
        texts@.len() == 0 ==> all@.len() == 0 && each@.len() == 0,
{
}

} // verus!
