//! Text: its order, and putting it together.

use vstd::prelude::*;
use vstd::utf8::encode_utf8;

verus! {

/// Whether the bytes `a` come before the bytes `b`: at the first place where
/// they differ, `a` has ended or has the smaller byte.
pub open spec fn bytes_before(a: Seq<u8>, b: Seq<u8>) -> bool {
    exists|n: int| #[trigger] first_difference(a, b, n) && (n == a.len() || a[n] < b[n])
}

/// Whether `a` and `b` agree up to `n`, where `b` goes on.
pub open spec fn first_difference(a: Seq<u8>, b: Seq<u8>, n: int) -> bool {
    0 <= n <= a.len() && n < b.len() && forall|i: int| 0 <= i < n ==> a[i] == b[i]
}

/// Whether the text `a` comes before the text `b`, byte by byte.
pub open spec fn precedes(a: Seq<char>, b: Seq<char>) -> bool {
    bytes_before(encode_utf8(a), encode_utf8(b))
}

/// Nothing comes before itself.
pub proof fn lemma_precedes_irreflexive(a: Seq<char>)
    ensures
        !precedes(a, a),
{
}

/// What comes before something that comes before a third comes before it.
pub proof fn lemma_precedes_transitive(a: Seq<char>, b: Seq<char>, c: Seq<char>)
    requires
        precedes(a, b),
        precedes(b, c),
    ensures
        precedes(a, c),
{
    let (x, y, z) = (encode_utf8(a), encode_utf8(b), encode_utf8(c));
    let m = choose|n: int| #[trigger] first_difference(x, y, n) && (n == x.len() || x[n] < y[n]);
    let n = choose|n: int| #[trigger] first_difference(y, z, n) && (n == y.len() || y[n] < z[n]);
    let k = if m < n {
        m
    } else {
        n
    };
    assert(first_difference(x, z, k)) by {
        assert forall|i: int| 0 <= i < k implies x[i] == z[i] by {
            assert(x[i] == y[i] && y[i] == z[i]);
        }
    }
    assert(k == x.len() || x[k] < z[k]);
}

/// Two different texts are in some order.
pub proof fn lemma_precedes_total(a: Seq<char>, b: Seq<char>)
    ensures
        a == b || precedes(a, b) || precedes(b, a),
{
    let (x, y) = (encode_utf8(a), encode_utf8(b));
    if x == y {
        vstd::utf8::encode_utf8_decode_utf8(a);
        vstd::utf8::encode_utf8_decode_utf8(b);
    } else {
        lemma_bytes_total(x, y, 0);
    }
}

proof fn lemma_bytes_total(x: Seq<u8>, y: Seq<u8>, n: int)
    requires
        0 <= n <= x.len(),
        n <= y.len(),
        forall|i: int| 0 <= i < n ==> x[i] == y[i],
        x != y,
    ensures
        bytes_before(x, y) || bytes_before(y, x),
    decreases x.len() - n,
{
    if n < x.len() && n < y.len() && x[n] == y[n] {
        lemma_bytes_total(x, y, n + 1);
    } else if n == x.len() && n == y.len() {
        assert(x =~= y);
    } else if n < y.len() && (n == x.len() || x[n] < y[n]) {
        assert(first_difference(x, y, n));
    } else {
        assert(first_difference(y, x, n));
    }
}

/// Whether the text `a` comes before the text `b`.
pub fn text_before(a: &str, b: &str) -> (r: bool)
    ensures
        r == precedes(a@, b@),
{
    let x = a.as_bytes();
    let y = b.as_bytes();
    let mut i: usize = 0;
    while i < x.len() && i < y.len() && x[i] == y[i]
        invariant
            x@ == encode_utf8(a@),
            y@ == encode_utf8(b@),
            i <= x@.len(),
            i <= y@.len(),
            forall|j: int| 0 <= j < i ==> x@[j] == y@[j],
        decreases x@.len() - i,
    {
        i = i + 1;
    }
    let r = i < y.len() && (i == x.len() || x[i] < y[i]);
    proof {
        if r {
            assert(first_difference(x@, y@, i as int));
        } else if precedes(a@, b@) {
            let n = choose|n: int| #[trigger]
                first_difference(x@, y@, n) && (n == x@.len() || x@[n] < y@[n]);
            if n < i {
                assert(x@[n] == y@[n]);
            } else if n > i {
                assert(x@[i as int] == y@[i as int]);
            }
        }
    }
    r
}

/// Whether two texts are the same.
pub fn same_text(a: &str, b: &str) -> (r: bool)
    ensures
        r == (a@ == b@),
{
    let x = a.as_bytes();
    let y = b.as_bytes();
    let mut i: usize = 0;
    while i < x.len() && i < y.len() && x[i] == y[i]
        invariant
            x@ == encode_utf8(a@),
            y@ == encode_utf8(b@),
            i <= x@.len(),
            i <= y@.len(),
            forall|j: int| 0 <= j < i ==> x@[j] == y@[j],
        decreases x@.len() - i,
    {
        i = i + 1;
    }
    let r = i == x.len() && i == y.len();
    proof {
        if r {
            assert(x@ =~= y@);
            vstd::utf8::encode_utf8_decode_utf8(a@);
            vstd::utf8::encode_utf8_decode_utf8(b@);
        }
    }
    r
}

// ---- sorting ----

/// A text put in its place among sorted ones, behind those that are equal.
pub open spec fn inserted(sorted: Seq<Seq<char>>, text: Seq<char>) -> Seq<Seq<char>>
    decreases sorted.len(),
{
    if sorted.len() > 0 && precedes(text, sorted.last()) {
        inserted(sorted.drop_last(), text).push(sorted.last())
    } else {
        sorted.push(text)
    }
}

/// The texts in order.
pub open spec fn sorted(texts: Seq<Seq<char>>) -> Seq<Seq<char>>
    decreases texts.len(),
{
    if texts.len() == 0 {
        texts
    } else {
        inserted(sorted(texts.drop_last()), texts.last())
    }
}

/// Whether no text comes before an earlier one.
pub open spec fn in_order(texts: Seq<Seq<char>>) -> bool {
    forall|i: int, j: int|
        0 <= i < j < texts.len() ==> !precedes(#[trigger] texts[j], #[trigger] texts[i])
}

pub proof fn lemma_inserted(s: Seq<Seq<char>>, text: Seq<char>)
    requires
        in_order(s),
    ensures
        in_order(inserted(s, text)),
        inserted(s, text).to_multiset() == s.to_multiset().insert(text),
        inserted(s, text).len() == s.len() + 1,
    decreases s.len(),
{
    broadcast use vstd::seq_lib::group_to_multiset_ensures;

    let out = inserted(s, text);
    if s.len() > 0 && precedes(text, s.last()) {
        let front = s.drop_last();
        assert forall|i: int, j: int| 0 <= i < j < front.len() implies !precedes(
            #[trigger] front[j],
            #[trigger] front[i],
        ) by {
            assert(!precedes(s[j], s[i]));
        }
        lemma_inserted(front, text);
        assert(s =~= front.push(s.last()));
        let mid = inserted(front, text);
        assert forall|i: int, j: int| 0 <= i < j < out.len() implies !precedes(
            #[trigger] out[j],
            #[trigger] out[i],
        ) by {
            if j < mid.len() {
                assert(!precedes(mid[j], mid[i]));
            } else {
                assert(mid.to_multiset().contains(mid[i])) by {
                    assert(mid.contains(mid[i]));
                }
                if mid[i] == text {
                    if precedes(s.last(), text) {
                        lemma_precedes_transitive(text, s.last(), text);
                        lemma_precedes_irreflexive(text);
                    }
                } else {
                    assert(front.to_multiset().contains(mid[i]));
                    assert(front.contains(mid[i]));
                    let a = choose|a: int| 0 <= a < front.len() && front[a] == mid[i];
                    assert(!precedes(s[s.len() - 1], s[a]));
                }
            }
        }
        assert(out.to_multiset() =~= s.to_multiset().insert(text));
    } else {
        assert forall|i: int, j: int| 0 <= i < j < out.len() implies !precedes(
            #[trigger] out[j],
            #[trigger] out[i],
        ) by {
            if j < s.len() {
                assert(!precedes(s[j], s[i]));
            } else if precedes(text, s[i]) {
                let last = s[s.len() - 1];
                if i < s.len() - 1 {
                    assert(!precedes(s[s.len() - 1], s[i]));
                    lemma_precedes_total(s[i], last);
                    if s[i] != last {
                        lemma_precedes_transitive(text, s[i], last);
                    }
                }
            }
        }
    }
}

/// Sorting puts the texts in order, and neither loses nor adds any.
pub proof fn lemma_sorted(texts: Seq<Seq<char>>)
    ensures
        in_order(sorted(texts)),
        sorted(texts).to_multiset() == texts.to_multiset(),
        sorted(texts).len() == texts.len(),
    decreases texts.len(),
{
    broadcast use vstd::seq_lib::group_to_multiset_ensures;

    if texts.len() > 0 {
        lemma_sorted(texts.drop_last());
        lemma_inserted(sorted(texts.drop_last()), texts.last());
        assert(texts =~= texts.drop_last().push(texts.last()));
    }
}

/// The characters of each text.
pub open spec fn texts_view(texts: Seq<String>) -> Seq<Seq<char>> {
    texts.map_values(|text: String| text@)
}

/// One text more.
pub proof fn lemma_texts_push(texts: Seq<String>, text: String)
    ensures
        texts_view(texts.push(text)) == texts_view(texts).push(text@),
{
    assert(texts_view(texts.push(text)) =~= texts_view(texts).push(text@));
}

/// Puts a text in its place among sorted ones.
pub fn insert_sorted(texts: &mut Vec<String>, text: String)
    ensures
        texts_view(final(texts)@) == inserted(texts_view(old(texts)@), text@),
{
    let ghost all = texts_view(texts@);
    let ghost line = text@;
    let mut i: usize = texts.len();
    assert(all.take(i as int) =~= all);
    assert(all.skip(i as int) =~= Seq::<Seq<char>>::empty());
    assert(inserted(all.take(i as int), line) + all.skip(i as int) =~= inserted(all, line));
    while i > 0 && text_before(text.as_str(), texts[i - 1].as_str())
        invariant
            i <= texts@.len(),
            all == texts_view(texts@),
            line == text@,
            inserted(all.take(i as int), line) + all.skip(i as int) == inserted(all, line),
        decreases i,
    {
        proof {
            let t = all.take(i as int);
            assert(t.last() == texts@[i - 1]@);
            assert(t.drop_last() =~= all.take(i - 1));
            assert(inserted(t, line) == inserted(all.take(i - 1), line).push(t.last()));
            assert(inserted(all.take(i - 1), line) + all.skip(i - 1) =~= inserted(t, line)
                + all.skip(i as int));
        }
        i = i - 1;
    }
    proof {
        let t = all.take(i as int);
        if i > 0 {
            assert(t.last() == texts@[i - 1]@);
        }
        assert(inserted(t, line) == t.push(line));
        assert(t.push(line) + all.skip(i as int) =~= all.insert(i as int, line));
    }
    texts.insert(i, text);
    assert(texts_view(texts@) =~= all.insert(i as int, line));
}

// ---- numbers ----

/// The character of a decimal digit.
pub open spec fn digit(d: int) -> char {
    if d == 0 {
        '0'
    } else if d == 1 {
        '1'
    } else if d == 2 {
        '2'
    } else if d == 3 {
        '3'
    } else if d == 4 {
        '4'
    } else if d == 5 {
        '5'
    } else if d == 6 {
        '6'
    } else if d == 7 {
        '7'
    } else if d == 8 {
        '8'
    } else {
        '9'
    }
}

/// A number in decimal.
pub open spec fn decimal(n: nat) -> Seq<char>
    decreases n,
{
    if n < 10 {
        seq![digit(n as int)]
    } else {
        decimal(n / 10).push(digit((n % 10) as int))
    }
}

/// The text of a decimal digit.
fn digit_text(d: usize) -> (r: &'static str)
    requires
        d < 10,
    ensures
        r@ == seq![digit(d as int)],
{
    proof {
        reveal_strlit("0");
        reveal_strlit("1");
        reveal_strlit("2");
        reveal_strlit("3");
        reveal_strlit("4");
        reveal_strlit("5");
        reveal_strlit("6");
        reveal_strlit("7");
        reveal_strlit("8");
        reveal_strlit("9");
    }
    let r = if d == 0 {
        "0"
    } else if d == 1 {
        "1"
    } else if d == 2 {
        "2"
    } else if d == 3 {
        "3"
    } else if d == 4 {
        "4"
    } else if d == 5 {
        "5"
    } else if d == 6 {
        "6"
    } else if d == 7 {
        "7"
    } else if d == 8 {
        "8"
    } else {
        "9"
    };
    assert(r@ =~= seq![digit(d as int)]);
    r
}

/// Writes a number in decimal.
pub fn number_text(n: usize) -> (r: String)
    ensures
        r@ == decimal(n as nat),
    decreases n,
{
    let last = digit_text(n % 10);
    if n < 10 {
        last.to_owned()
    } else {
        let mut out = number_text(n / 10);
        out.append(last);
        assert(out@ =~= decimal(n as nat));
        out
    }
}

// ---- putting text together ----

/// Two spaces for each level.
pub open spec fn indent(depth: nat) -> Seq<char>
    decreases depth,
{
    if depth == 0 {
        Seq::empty()
    } else {
        indent((depth - 1) as nat) + "  "@
    }
}

/// The texts with a separator between each two.
pub open spec fn joined(texts: Seq<Seq<char>>, separator: Seq<char>) -> Seq<char>
    decreases texts.len(),
{
    if texts.len() == 0 {
        Seq::empty()
    } else if texts.len() == 1 {
        texts[0]
    } else {
        joined(texts.drop_last(), separator) + separator + texts.last()
    }
}

/// The texts, each with the end of a line behind it.
pub open spec fn lines(texts: Seq<Seq<char>>) -> Seq<char>
    decreases texts.len(),
{
    if texts.len() == 0 {
        Seq::empty()
    } else {
        lines(texts.drop_last()) + texts.last() + "\n"@
    }
}

/// Two spaces for each level.
pub fn indent_text(depth: usize) -> (r: String)
    ensures
        r@ == indent(depth as nat),
{
    let mut out = String::new();
    let mut i: usize = 0;
    while i < depth
        invariant
            i <= depth,
            out@ == indent(i as nat),
        decreases depth - i,
    {
        out.append("  ");
        i = i + 1;
    }
    out
}

/// Joins the texts with a separator between each two.
pub fn join_texts(texts: &Vec<String>, separator: &str) -> (r: String)
    ensures
        r@ == joined(texts_view(texts@), separator@),
{
    let mut out = String::new();
    let mut i: usize = 0;
    let ghost all = texts_view(texts@);
    while i < texts.len()
        invariant
            i <= texts@.len(),
            all == texts_view(texts@),
            out@ == joined(all.take(i as int), separator@),
        decreases texts@.len() - i,
    {
        assert(all.take(i + 1).drop_last() =~= all.take(i as int));
        assert(all.take(i + 1).last() == texts@[i as int]@);
        if i > 0 {
            out.append(separator);
        }
        out.append(texts[i].as_str());
        assert(out@ =~= joined(all.take(i + 1), separator@));
        i = i + 1;
    }
    assert(all.take(i as int) =~= all);
    out
}

/// Writes the texts, each with the end of a line behind it.
pub fn line_texts(texts: &Vec<String>) -> (r: String)
    ensures
        r@ == lines(texts_view(texts@)),
{
    let mut out = String::new();
    let mut i: usize = 0;
    let ghost all = texts_view(texts@);
    while i < texts.len()
        invariant
            i <= texts@.len(),
            all == texts_view(texts@),
            out@ == lines(all.take(i as int)),
        decreases texts@.len() - i,
    {
        assert(all.take(i + 1).drop_last() =~= all.take(i as int));
        assert(all.take(i + 1).last() == texts@[i as int]@);
        out.append(texts[i].as_str());
        out.append("\n");
        i = i + 1;
    }
    assert(all.take(i as int) =~= all);
    out
}

/// Puts the texts in order.
pub fn sort_texts(texts: Vec<String>) -> (r: Vec<String>)
    ensures
        texts_view(r@) == sorted(texts_view(texts@)),
{
    let mut out: Vec<String> = Vec::new();
    let mut i: usize = 0;
    let ghost all = texts_view(texts@);
    assert(texts_view(out@) =~= sorted(all.take(0)));
    while i < texts.len()
        invariant
            i <= texts@.len(),
            all == texts_view(texts@),
            texts_view(out@) == sorted(all.take(i as int)),
        decreases texts@.len() - i,
    {
        assert(all.take(i + 1).drop_last() =~= all.take(i as int));
        assert(all.take(i + 1).last() == texts@[i as int]@);
        insert_sorted(&mut out, texts[i].clone());
        i = i + 1;
    }
    assert(all.take(i as int) =~= all);
    out
}

} // verus!
