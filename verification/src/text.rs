//! Text: its order, decimal numbers, and the keys that are made of both.

use vstd::prelude::*;
use vstd::string::*;

verus! {

/// The characters of a text.
pub fn chars_of(s: &str) -> (r: Vec<char>)
    ensures
        r@ == s@,
{
    let mut r: Vec<char> = Vec::new();
    for c in it: s.chars()
        invariant
            it.seq() == s@,
            r@ == s@.take(it.index() as int),
    {
        proof {
            assert(s@.take(it.index() + 1) =~= s@.take(it.index() as int).push(c));
        }
        r.push(c);
    }
    proof {
        assert(s@.take(s@.len() as int) =~= s@);
    }
    r
}

/// Whether two texts are the same.
pub fn same_text(a: &str, b: &str) -> (r: bool)
    ensures
        r <==> a@ == b@,
{
    let x = String::from_str(a);
    let y = String::from_str(b);
    x == y
}

/// A copy of a byte string.
pub fn copy_bytes(bytes: &Vec<u8>) -> (r: Vec<u8>)
    ensures
        r@ == bytes@,
{
    let mut r: Vec<u8> = Vec::new();
    r.extend_from_slice(bytes.as_slice());
    proof {
        assert(r@ =~= bytes@);
    }
    r
}

/// Bytes are their own deep view.
pub broadcast proof fn bytes_deep_view(bytes: Vec<u8>)
    ensures
        #[trigger] bytes.deep_view() == bytes@,
{
    assert(bytes.deep_view() =~= bytes@);
}

/// The order of texts: by their first characters that differ; a text comes before those
/// that go on where it ends.
pub open spec fn text_less(a: Seq<char>, b: Seq<char>) -> bool
    decreases a.len(),
{
    if b.len() == 0 {
        false
    } else if a.len() == 0 {
        true
    } else if a[0] != b[0] {
        (a[0] as int) < (b[0] as int)
    } else {
        text_less(a.skip(1), b.skip(1))
    }
}

/// No text comes before itself.
pub proof fn text_order_is_irreflexive(a: Seq<char>)
    ensures
        !text_less(a, a),
    decreases a.len(),
{
    if a.len() > 0 {
        text_order_is_irreflexive(a.skip(1));
    }
}

/// The order of texts is transitive.
pub proof fn text_order_is_transitive(a: Seq<char>, b: Seq<char>, c: Seq<char>)
    requires
        text_less(a, b),
        text_less(b, c),
    ensures
        text_less(a, c),
    decreases a.len(),
{
    if a.len() > 0 && a[0] == b[0] && b[0] == c[0] {
        text_order_is_transitive(a.skip(1), b.skip(1), c.skip(1));
    }
}

/// Of two different texts one comes before the other.
pub proof fn text_order_is_total(a: Seq<char>, b: Seq<char>)
    ensures
        text_less(a, b) || a == b || text_less(b, a),
    decreases a.len(),
{
    if a.len() == 0 || b.len() == 0 {
        if a.len() == b.len() {
            assert(a =~= b);
        }
    } else if a[0] == b[0] {
        text_order_is_total(a.skip(1), b.skip(1));
        if a.skip(1) == b.skip(1) {
            assert(a =~= seq![a[0]] + a.skip(1));
            assert(b =~= seq![b[0]] + b.skip(1));
        }
    }
}

/// Whether the first text comes before the second.
pub fn comes_before(a: &str, b: &str) -> (r: bool)
    ensures
        r <==> text_less(a@, b@),
{
    let x = chars_of(a);
    let y = chars_of(b);
    proof {
        assert(x@.skip(0) =~= x@);
        assert(y@.skip(0) =~= y@);
    }
    let mut i: usize = 0;
    while i < x.len() && i < y.len() && x[i] == y[i]
        invariant
            x@ == a@,
            y@ == b@,
            i <= x@.len(),
            i <= y@.len(),
            text_less(a@, b@) <==> text_less(x@.skip(i as int), y@.skip(i as int)),
        decreases x@.len() - i,
    {
        proof {
            assert(x@.skip(i as int).skip(1) =~= x@.skip(i + 1));
            assert(y@.skip(i as int).skip(1) =~= y@.skip(i + 1));
        }
        i += 1;
    }
    if i >= y.len() {
        false
    } else if i >= x.len() {
        true
    } else {
        x[i] < y[i]
    }
}

/// Whether the texts are in ascending order, with none twice.
pub open spec fn ascending(texts: Seq<Seq<char>>) -> bool {
    forall|i: int, j: int|
        0 <= i < j < texts.len() ==> text_less(#[trigger] texts[i], #[trigger] texts[j])
}

/// The texts of a list of strings.
pub open spec fn texts(list: Seq<String>) -> Seq<Seq<char>> {
    Seq::new(list.len(), |i: int| list[i]@)
}

/// Adds a text to an ascending list, unless the list has it.
pub fn insert_ascending(list: &mut Vec<String>, text: &String)
    requires
        ascending(texts(old(list)@)),
    ensures
        ascending(texts(final(list)@)),
        forall|t: Seq<char>| #[trigger]
            texts(final(list)@).contains(t) <==> texts(old(list)@).contains(t) || t == text@,
{
    let ghost before = list@;
    let mut i: usize = 0;
    while i < list.len() && comes_before(list[i].as_str(), text.as_str())
        invariant
            list@ == before,
            i <= list@.len(),
            forall|j: int| 0 <= j < i ==> text_less(#[trigger] before[j]@, text@),
        decreases list@.len() - i,
    {
        i += 1;
    }
    if i < list.len() && list[i] == *text {
        proof {
            assert(texts(before)[i as int] == text@);
        }
        return;
    }
    list.insert(i, text.clone());
    proof {
        lemma_inserted(before, i as int, *text);
    }
}

proof fn lemma_inserted(before: Seq<String>, i: int, text: String)
    requires
        ascending(texts(before)),
        0 <= i <= before.len(),
        forall|j: int| 0 <= j < i ==> text_less(#[trigger] before[j]@, text@),
        i < before.len() ==> !text_less(before[i]@, text@) && before[i]@ != text@,
    ensures
        ascending(texts(before.insert(i, text))),
        forall|t: Seq<char>| #[trigger]
            texts(before.insert(i, text)).contains(t) <==> texts(before).contains(t) || t == text@,
{
    let old_texts = texts(before);
    let new_texts = texts(before.insert(i, text));
    assert(new_texts =~= old_texts.insert(i, text@));
    if i < before.len() {
        text_order_is_total(before[i]@, text@);
        assert forall|j: int| i <= j < before.len() implies text_less(
            text@,
            #[trigger] old_texts[j],
        ) by {
            if j > i {
                assert(text_less(old_texts[i], old_texts[j]));
                text_order_is_transitive(text@, old_texts[i], old_texts[j]);
            }
        }
    }
    assert forall|a: int, b: int| 0 <= a < b < new_texts.len() implies text_less(
        #[trigger] new_texts[a],
        #[trigger] new_texts[b],
    ) by {
        let x = if a < i { a } else { a - 1 };
        let y = if b < i { b } else { b - 1 };
        if a == i {
            assert(text_less(text@, old_texts[y]));
        } else if b == i {
            assert(text_less(before[a]@, text@));
        } else {
            assert(text_less(old_texts[x], old_texts[y]));
        }
    }
    assert forall|t: Seq<char>| #[trigger]
        new_texts.contains(t) <==> old_texts.contains(t) || t == text@ by {
        assert(new_texts[i] == text@);
        if new_texts.contains(t) && t != text@ {
            let a = choose|a: int| 0 <= a < new_texts.len() && new_texts[a] == t;
            let x = if a < i { a } else { a - 1 };
            assert(old_texts[x] == t);
        }
        if old_texts.contains(t) {
            let x = choose|x: int| 0 <= x < old_texts.len() && old_texts[x] == t;
            let a = if x < i { x } else { x + 1 };
            assert(new_texts[a] == t);
        }
    }
}

/// The character of a decimal digit.
pub open spec fn digit(d: int) -> char {
    ((d + '0' as int) as char)
}

/// A natural number in decimal.
pub open spec fn decimal_nat(n: nat) -> Seq<char>
    decreases n,
{
    if n < 10 {
        seq![digit(n as int)]
    } else {
        decimal_nat(n / 10).push(digit((n % 10) as int))
    }
}

/// A number in decimal.
pub open spec fn decimal(i: int) -> Seq<char> {
    if i < 0 {
        seq!['-'] + decimal_nat((-i) as nat)
    } else {
        decimal_nat(i as nat)
    }
}

/// The decimal digits of a number are digits, at least one.
pub proof fn decimals_are_digits(n: nat)
    ensures
        decimal_nat(n).len() > 0,
        forall|i: int|
            0 <= i < decimal_nat(n).len() ==> '0' <= #[trigger] decimal_nat(n)[i] <= '9',
    decreases n,
{
    if n >= 10 {
        decimals_are_digits(n / 10);
    }
}

/// Different numbers have different decimals.
pub proof fn decimals_are_distinct(a: nat, b: nat)
    requires
        decimal_nat(a) == decimal_nat(b),
    ensures
        a == b,
    decreases a,
{
    decimals_are_digits(a / 10);
    decimals_are_digits(b / 10);
    assert(decimal_nat(a).last() == digit((a % 10) as int));
    assert(decimal_nat(b).last() == digit((b % 10) as int));
    assert(decimal_nat(a).len() == 1 <==> a < 10);
    assert(decimal_nat(b).len() == 1 <==> b < 10);
    if a >= 10 {
        assert(decimal_nat(a).drop_last() =~= decimal_nat(a / 10));
        assert(decimal_nat(b).drop_last() =~= decimal_nat(b / 10));
        decimals_are_distinct(a / 10, b / 10);
    }
}

fn append_digit(text: &mut String, d: u64)
    requires
        d < 10,
    ensures
        final(text)@ == old(text)@.push(digit(d as int)),
{
    let digits = "0123456789";
    proof {
        reveal_strlit("0123456789");
    }
    let ghost before = text@;
    let n: usize = d as usize;
    text.append(digits.substring_ascii(n, n + 1));
    assert(digits@.subrange(n as int, n + 1) =~= seq![digit(d as int)]);
    assert(text@ =~= before.push(digit(d as int)));
}

fn append_nat(text: &mut String, n: u64)
    ensures
        final(text)@ == old(text)@ + decimal_nat(n as nat),
    decreases n,
{
    let ghost before = text@;
    if n >= 10 {
        append_nat(text, n / 10);
    }
    append_digit(text, n % 10);
    assert(text@ =~= before + decimal_nat(n as nat));
}

/// Appends a number in decimal.
pub fn append_decimal(text: &mut String, i: i64)
    ensures
        final(text)@ == old(text)@ + decimal(i as int),
{
    let ghost before = text@;
    if i < 0 {
        proof {
            reveal_strlit("-");
        }
        text.append("-");
        let magnitude: u64 = (-(i as i128)) as u64;
        append_nat(text, magnitude);
        assert(text@ =~= before + decimal(i as int));
    } else {
        append_nat(text, i as u64);
    }
}

} // verus!
