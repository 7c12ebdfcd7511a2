//! The canonical order on text: lexicographic by the bytes of its UTF-8
//! encoding, which is the order `str` itself has.

use vstd::prelude::*;
use vstd::utf8::*;
use vstd::string::*;
use vstd::multiset::Multiset;
use vstd::seq_lib::{to_multiset_build, to_multiset_insert, to_multiset_len};

verus! {

/// `a` comes strictly before `b` in lexicographic byte order.
pub open spec fn bytes_lt(a: Seq<u8>, b: Seq<u8>) -> bool
    decreases a.len(),
{
    if b.len() == 0 {
        false
    } else if a.len() == 0 {
        true
    } else if a[0] != b[0] {
        a[0] < b[0]
    } else {
        bytes_lt(a.skip(1), b.skip(1))
    }
}

/// `a` comes strictly before `b` in the canonical order on text.
pub open spec fn text_lt(a: Seq<char>, b: Seq<char>) -> bool {
    bytes_lt(encode_utf8(a), encode_utf8(b))
}

/// Every element of `s` comes strictly before every later one.
pub open spec fn strictly_ascending(s: Seq<Seq<char>>) -> bool {
    forall|i: int, j: int| 0 <= i < j < s.len() ==> text_lt(#[trigger] s[i], #[trigger] s[j])
}

/// Every element of `s` comes before or equals every later one.
pub open spec fn ascending(s: Seq<Seq<char>>) -> bool {
    forall|i: int, j: int| 0 <= i < j < s.len() ==> !text_lt(#[trigger] s[j], #[trigger] s[i])
}

pub proof fn lemma_bytes_lt_irreflexive(a: Seq<u8>)
    ensures
        !bytes_lt(a, a),
    decreases a.len(),
{
    if a.len() > 0 {
        lemma_bytes_lt_irreflexive(a.skip(1));
    }
}

pub proof fn lemma_bytes_lt_transitive(a: Seq<u8>, b: Seq<u8>, c: Seq<u8>)
    requires
        bytes_lt(a, b),
        bytes_lt(b, c),
    ensures
        bytes_lt(a, c),
    decreases a.len(),
{
    if a.len() > 0 && a[0] == b[0] && b[0] == c[0] {
        lemma_bytes_lt_transitive(a.skip(1), b.skip(1), c.skip(1));
    }
}

pub proof fn lemma_bytes_lt_total(a: Seq<u8>, b: Seq<u8>)
    ensures
        bytes_lt(a, b) || bytes_lt(b, a) || a == b,
    decreases a.len(),
{
    if a.len() > 0 && b.len() > 0 && a[0] == b[0] {
        lemma_bytes_lt_total(a.skip(1), b.skip(1));
        if a.skip(1) == b.skip(1) {
            assert(a =~= seq![a[0]] + a.skip(1));
            assert(b =~= seq![b[0]] + b.skip(1));
        }
    } else if a.len() == 0 && b.len() == 0 {
        assert(a =~= b);
    }
}

/// No text comes before itself.
pub proof fn lemma_text_lt_irreflexive(a: Seq<char>)
    ensures
        !text_lt(a, a),
{
    lemma_bytes_lt_irreflexive(encode_utf8(a));
}

/// The canonical order is transitive.
pub proof fn lemma_text_lt_transitive(a: Seq<char>, b: Seq<char>, c: Seq<char>)
    requires
        text_lt(a, b),
        text_lt(b, c),
    ensures
        text_lt(a, c),
{
    lemma_bytes_lt_transitive(encode_utf8(a), encode_utf8(b), encode_utf8(c));
}

/// Of two texts, they are equal or exactly one comes before the other.
pub proof fn lemma_text_lt_total(a: Seq<char>, b: Seq<char>)
    ensures
        text_lt(a, b) || text_lt(b, a) || a == b,
        !(text_lt(a, b) && text_lt(b, a)),
        a == b ==> !text_lt(a, b),
{
    lemma_bytes_lt_total(encode_utf8(a), encode_utf8(b));
    if encode_utf8(a) == encode_utf8(b) {
        encode_utf8_decode_utf8(a);
        encode_utf8_decode_utf8(b);
    }
    if text_lt(a, b) && text_lt(b, a) {
        lemma_text_lt_transitive(a, b, a);
    }
    lemma_text_lt_irreflexive(a);
}

/// Whether `a` comes strictly before `b` in the canonical order.
pub fn str_lt(a: &str, b: &str) -> (r: bool)
    ensures
        r == text_lt(a@, b@),
{
    let x = a.as_bytes();
    let y = b.as_bytes();
    let mut i: usize = 0;
    assert(x@.skip(0) =~= x@ && y@.skip(0) =~= y@);
    while i < x.len() && i < y.len()
        invariant
            i <= x@.len(),
            i <= y@.len(),
            x@ == encode_utf8(a@),
            y@ == encode_utf8(b@),
            bytes_lt(x@, y@) == bytes_lt(x@.skip(i as int), y@.skip(i as int)),
        decreases x@.len() - i,
    {
        if x[i] != y[i] {
            return x[i] < y[i];
        }
        assert(x@.skip(i as int).skip(1) =~= x@.skip(i + 1));
        assert(y@.skip(i as int).skip(1) =~= y@.skip(i + 1));
        i += 1;
    }
    i < y.len()
}

/// The characters of `s`, one element each.
pub fn chars_of(s: &str) -> (chars: Vec<char>)
    ensures
        chars@ == s@,
{
    let mut chars: Vec<char> = Vec::new();
    for c in it: s.chars()
        invariant
            chars@ == it.seq().take(it.index() as int),
            it.seq() == s@,
    {
        chars.push(c);
    }
    chars
}

/// Whether `lit` stands in `chars` from index `from` on.
pub fn stands_at(chars: &Vec<char>, from: usize, lit: &str) -> (r: bool)
    requires
        from <= chars.len(),
    ensures
        r == (from + lit@.len() <= chars@.len() && chars@.subrange(
            from as int,
            from + lit@.len(),
        ) == lit@),
{
    let expected = chars_of(lit);
    if expected.len() > chars.len() - from {
        return false;
    }
    let mut i: usize = 0;
    while i < expected.len()
        invariant
            i <= expected.len(),
            from + expected.len() <= chars.len(),
            expected@ == lit@,
            chars@.subrange(from as int, from + i) == expected@.take(i as int),
        decreases expected.len() - i,
    {
        if chars[from + i] != expected[i] {
            assert(chars@.subrange(from as int, from + lit@.len())[i as int] != lit@[i as int]);
            return false;
        }
        assert(chars@.subrange(from as int, from + i + 1) =~= chars@.subrange(
            from as int,
            from + i,
        ).push(chars@[from + i]));
        assert(expected@.take(i + 1) =~= expected@.take(i as int).push(expected@[i as int]));
        i += 1;
    }
    assert(expected@.take(i as int) =~= expected@);
    true
}

/// The decimal digit for `d`.
pub open spec fn digit_char(d: nat) -> char {
    if d == 0 {
        '0'
    } else if d == 1 {
        '1'
    } else if d == 2 {
        '2'
    } else if d == 3 {
        '3'
    } else if d == 4 {
        '4'
    } else if d == 5 {
        '5'
    } else if d == 6 {
        '6'
    } else if d == 7 {
        '7'
    } else if d == 8 {
        '8'
    } else {
        '9'
    }
}

/// The value of the decimal digit `c`, if it is one.
pub open spec fn digit_of(c: char) -> Option<nat> {
    if c == '0' {
        Some(0)
    } else if c == '1' {
        Some(1)
    } else if c == '2' {
        Some(2)
    } else if c == '3' {
        Some(3)
    } else if c == '4' {
        Some(4)
    } else if c == '5' {
        Some(5)
    } else if c == '6' {
        Some(6)
    } else if c == '7' {
        Some(7)
    } else if c == '8' {
        Some(8)
    } else if c == '9' {
        Some(9)
    } else {
        None
    }
}

/// Every element of `d` is a decimal digit.
pub open spec fn all_digits(d: Seq<char>) -> bool {
    forall|i: int| 0 <= i < d.len() ==> digit_of(#[trigger] d[i]) is Some
}

/// The number that the digits `d` write in base ten; 0 for no digits.
pub open spec fn digits_value(d: Seq<char>) -> nat
    decreases d.len(),
{
    if d.len() == 0 {
        0
    } else {
        digits_value(d.drop_last()) * 10 + digit_of(d.last()).unwrap_or(0)
    }
}

/// `n` written in base ten, without leading zeros.
pub open spec fn decimal(n: nat) -> Seq<char>
    decreases n,
{
    if n < 10 {
        seq![digit_char(n)]
    } else {
        decimal(n / 10).push(digit_char(n % 10))
    }
}

/// `d` is one digit, or more digits of which the first is not `0`.
pub open spec fn canonical_digits(d: Seq<char>) -> bool {
    &&& d.len() >= 1
    &&& all_digits(d)
    &&& d.len() > 1 ==> d[0] != '0'
}

/// The decimal form of a number is canonical and writes that number.
pub proof fn lemma_decimal(n: nat)
    ensures
        canonical_digits(decimal(n)),
        digits_value(decimal(n)) == n,
        n > 0 ==> decimal(n)[0] != '0',
    decreases n,
{
    if n < 10 {
        assert(seq![digit_char(n)].drop_last() =~= Seq::<char>::empty());
        assert(digits_value(Seq::<char>::empty()) == 0);
    } else {
        lemma_decimal(n / 10);
        let front = decimal(n / 10);
        let d = front.push(digit_char(n % 10));
        assert(d.drop_last() =~= front);
        assert(d[0] == front[0]);
    }
}

/// Canonical digits are the decimal form of the number they write.
pub proof fn lemma_decimal_of_value(d: Seq<char>)
    requires
        canonical_digits(d),
    ensures
        decimal(digits_value(d)) == d,
    decreases d.len(),
{
    let last = digit_of(d.last()).unwrap();
    if d.len() == 1 {
        assert(d.drop_last() =~= Seq::<char>::empty());
        assert(digits_value(Seq::<char>::empty()) == 0);
        assert(d =~= seq![digit_char(last)]);
    } else {
        let front = d.drop_last();
        assert(front[0] == d[0]);
        lemma_decimal_of_value(front);
        lemma_decimal(digits_value(front));
        if digits_value(front) == 0 {
            assert(decimal(0) == seq!['0']);
            assert(front[0] == '0');
        }
        let v = digits_value(d);
        assert(v / 10 == digits_value(front) && v % 10 == last);
        assert(d =~= front.push(digit_char(last)));
    }
}

/// The number written by the first `k` of some digits is no more than the
/// number written by all of them.
pub proof fn lemma_digits_value_prefix(d: Seq<char>, k: int)
    requires
        0 <= k <= d.len(),
    ensures
        digits_value(d.take(k)) <= digits_value(d),
    decreases d.len(),
{
    if k < d.len() {
        lemma_digits_value_prefix(d.drop_last(), k);
        assert(d.drop_last().take(k) =~= d.take(k));
    } else {
        assert(d.take(k) =~= d);
    }
}

/// The value of `c` as a decimal digit, if it is one.
pub fn digit_value(c: char) -> (r: Option<u8>)
    ensures
        match r {
            Some(v) => digit_of(c) == Some(v as nat),
            None => digit_of(c) is None,
        },
{
    if c == '0' {
        Some(0)
    } else if c == '1' {
        Some(1)
    } else if c == '2' {
        Some(2)
    } else if c == '3' {
        Some(3)
    } else if c == '4' {
        Some(4)
    } else if c == '5' {
        Some(5)
    } else if c == '6' {
        Some(6)
    } else if c == '7' {
        Some(7)
    } else if c == '8' {
        Some(8)
    } else if c == '9' {
        Some(9)
    } else {
        None
    }
}

/// The text of one decimal digit.
fn digit_text(d: u64) -> (s: &'static str)
    requires
        d < 10,
    ensures
        s@ == seq![digit_char(d as nat)],
{
    proof {
        reveal_strlit("0");
        reveal_strlit("1");
        reveal_strlit("2");
        reveal_strlit("3");
        reveal_strlit("4");
        reveal_strlit("5");
        reveal_strlit("6");
        reveal_strlit("7");
        reveal_strlit("8");
        reveal_strlit("9");
    }
    let s = if d == 0 {
        "0"
    } else if d == 1 {
        "1"
    } else if d == 2 {
        "2"
    } else if d == 3 {
        "3"
    } else if d == 4 {
        "4"
    } else if d == 5 {
        "5"
    } else if d == 6 {
        "6"
    } else if d == 7 {
        "7"
    } else if d == 8 {
        "8"
    } else {
        "9"
    };
    assert(s@ =~= seq![digit_char(d as nat)]);
    s
}

/// Appends `n` in base ten to `out`.
pub fn push_decimal(out: &mut String, n: u64)
    ensures
        final(out)@ == old(out)@ + decimal(n as nat),
    decreases n,
{
    if n >= 10 {
        push_decimal(out, n / 10);
    }
    out.append(digit_text(n % 10));
    proof {
        if n >= 10 {
            assert(old(out)@ + decimal(n as nat / 10) + seq![digit_char(n as nat % 10)] =~= old(out)@
                + decimal(n as nat));
        }
    }
}

/// The number that the digits `chars[from..to]` write, unless it is too
/// large for `usize`.
pub fn read_digits(chars: &Vec<char>, from: usize, to: usize) -> (r: Option<usize>)
    requires
        from <= to <= chars.len(),
        all_digits(chars@.subrange(from as int, to as int)),
    ensures
        r == (if digits_value(chars@.subrange(from as int, to as int)) <= usize::MAX {
            Some(digits_value(chars@.subrange(from as int, to as int)) as usize)
        } else {
            None
        }),
{
    let ghost digits = chars@.subrange(from as int, to as int);
    let mut value: usize = 0;
    let mut i: usize = from;
    assert(digits.take(0) =~= Seq::<char>::empty());
    while i < to
        invariant
            from <= i <= to <= chars.len(),
            digits == chars@.subrange(from as int, to as int),
            all_digits(digits),
            value == digits_value(digits.take(i - from)),
        decreases to - i,
    {
        let ghost next = digits.take(i - from + 1);
        proof {
            assert(next.drop_last() =~= digits.take(i - from));
            assert(next.last() == chars@[i as int]);
            assert(digit_of(digits[i - from]) is Some);
            lemma_digits_value_prefix(digits, i - from + 1);
        }
        let digit = match digit_value(chars[i]) {
            Some(v) => v as usize,
            None => 0,
        };
        let scaled = match value.checked_mul(10) {
            Some(v) => v,
            None => {
                return None;
            },
        };
        value = match scaled.checked_add(digit) {
            Some(v) => v,
            None => {
                return None;
            },
        };
        i += 1;
    }
    assert(digits.take(i - from) =~= digits);
    Some(value)
}

/// Things that are ordered by a text they carry.
pub trait Text {
    /// The text.
    spec fn text(&self) -> Seq<char>;

    /// The text.
    fn as_text(&self) -> (s: &str)
        ensures
            s@ == self.text(),
    ;
}

impl Text for String {
    open spec fn text(&self) -> Seq<char> {
        self@
    }

    fn as_text(&self) -> (s: &str) {
        self.as_str()
    }
}

/// The texts of `items`, in their order.
pub open spec fn texts<T: Text>(items: Seq<T>) -> Seq<Seq<char>> {
    items.map_values(|item: T| item.text())
}

proof fn lemma_no_texts(s: Seq<Seq<char>>)
    requires
        s.len() == 0,
    ensures
        s.to_multiset() == Multiset::<Seq<char>>::empty(),
{
    to_multiset_len(s);
    vstd::multiset::lemma_multiset_empty_len(s.to_multiset());
    assert(s.to_multiset() =~= Multiset::<Seq<char>>::empty());
}

/// The items in canonical order of their texts: ascending, and the same
/// texts as many times each.
pub fn sort_texts<T: Text>(items: Vec<T>) -> (sorted: Vec<T>)
    ensures
        ascending(texts(sorted@)),
        texts(sorted@).to_multiset() == texts(items@).to_multiset(),
        sorted.len() == items.len(),
{
    let mut pending = items;
    let mut sorted: Vec<T> = Vec::new();
    assert(texts(pending@) + texts(sorted@) =~= texts(items@));
    proof {
        lemma_no_texts(texts(sorted@));
    }
    while pending.len() > 0
        invariant
            ascending(texts(sorted@)),
            texts(pending@).to_multiset().add(texts(sorted@).to_multiset()) == texts(
                items@,
            ).to_multiset(),
            pending.len() + sorted.len() == items.len(),
        decreases pending.len(),
    {
        let ghost waiting = texts(pending@);
        let ghost before = texts(sorted@);
        let item = pending.pop().unwrap();
        let mut p: usize = 0;
        while p < sorted.len() && !str_lt(item.as_text(), sorted[p].as_text())
            invariant
                p <= sorted.len(),
                before == texts(sorted@),
                forall|i: int| 0 <= i < p ==> !text_lt(item.text(), #[trigger] before[i]),
            decreases sorted.len() - p,
        {
            p += 1;
        }
        assert(p == sorted.len() || text_lt(item.text(), before[p as int]));
        sorted.insert(p, item);
        proof {
            let after = texts(sorted@);
            assert(after =~= before.insert(p as int, item.text()));
            assert forall|i: int, j: int| 0 <= i < j < after.len() implies !text_lt(
                #[trigger] after[j],
                #[trigger] after[i],
            ) by {
                if i == p {
                    assert(after[j] == before[j - 1]);
                    if text_lt(after[j], item.text()) {
                        if j - 1 > p {
                            assert(!text_lt(before[j - 1], before[p as int]));
                        }
                        lemma_text_lt_transitive(after[j], item.text(), before[p as int]);
                        lemma_text_lt_irreflexive(before[p as int]);
                    }
                } else if j == p {
                    assert(after[i] == before[i]);
                } else {
                    let i0 = if i < p {
                        i
                    } else {
                        i - 1
                    };
                    let j0 = if j < p {
                        j
                    } else {
                        j - 1
                    };
                    assert(after[i] == before[i0] && after[j] == before[j0]);
                }
            }
            to_multiset_insert(before, p as int, item.text());
            assert(waiting =~= texts(pending@).push(item.text()));
            to_multiset_build(texts(pending@), item.text());
            assert(texts(pending@).to_multiset().add(after.to_multiset()) =~= waiting.to_multiset().add(
                before.to_multiset(),
            ));
        }
    }
    proof {
        lemma_no_texts(texts(pending@));
    }
    assert(texts(pending@).to_multiset().add(texts(sorted@).to_multiset()) =~= texts(
        sorted@,
    ).to_multiset());
    sorted
}

/// The canonical order as a relation: `a` comes before `b` or is `b`.
pub open spec fn text_le() -> spec_fn(Seq<char>, Seq<char>) -> bool {
    |a: Seq<char>, b: Seq<char>| !text_lt(b, a)
}

/// There is one way only to put given texts in ascending order.
pub proof fn lemma_ascending_unique(x: Seq<Seq<char>>, y: Seq<Seq<char>>)
    requires
        ascending(x),
        ascending(y),
        x.to_multiset() == y.to_multiset(),
    ensures
        x == y,
{
    let le = text_le();
    assert(vstd::relations::reflexive(le)) by {
        assert forall|a: Seq<char>| #[trigger] le(a, a) by {
            lemma_text_lt_irreflexive(a);
        }
    }
    assert(vstd::relations::antisymmetric(le)) by {
        assert forall|a: Seq<char>, b: Seq<char>| #[trigger] le(a, b) && #[trigger] le(b, a) implies a
            == b by {
            lemma_text_lt_total(a, b);
        }
    }
    assert(vstd::relations::transitive(le)) by {
        assert forall|a: Seq<char>, b: Seq<char>, c: Seq<char>| #[trigger]
            le(a, b) && #[trigger] le(b, c) implies le(a, c) by {
            lemma_text_lt_total(a, b);
            if text_lt(c, a) && text_lt(a, b) {
                lemma_text_lt_transitive(c, a, b);
            }
        }
    }
    assert(vstd::relations::strongly_connected(le)) by {
        assert forall|a: Seq<char>, b: Seq<char>| #[trigger] le(a, b) || #[trigger] le(b, a) by {
            lemma_text_lt_total(a, b);
        }
    }
    assert(vstd::relations::sorted_by(x, le)) by {
        assert forall|i: int, j: int| 0 <= i < j < x.len() implies #[trigger] le(x[i], x[j]) by {
            assert(!text_lt(x[j], x[i]));
        }
    }
    assert(vstd::relations::sorted_by(y, le)) by {
        assert forall|i: int, j: int| 0 <= i < j < y.len() implies #[trigger] le(y[i], y[j]) by {
            assert(!text_lt(y[j], y[i]));
        }
    }
    vstd::seq_lib::lemma_sorted_unique(x, y, le);
}

/// The encoding of two texts in a row is their encodings in a row.
pub proof fn lemma_encode_concat(a: Seq<char>, b: Seq<char>)
    ensures
        encode_utf8(a + b) == encode_utf8(a) + encode_utf8(b),
    decreases a.len(),
{
    if a.len() == 0 {
        assert(a + b =~= b);
        assert(encode_utf8(a) + encode_utf8(b) =~= encode_utf8(b));
    } else {
        lemma_encode_concat(a.drop_first(), b);
        assert((a + b).drop_first() =~= a.drop_first() + b);
        assert(encode_scalar(a[0] as u32) + (encode_utf8(a.drop_first()) + encode_utf8(b))
            =~= encode_scalar(a[0] as u32) + encode_utf8(a.drop_first()) + encode_utf8(b));
    }
}

/// What two byte sequences start with alike does not decide their order.
pub proof fn lemma_bytes_lt_prefix(p: Seq<u8>, a: Seq<u8>, b: Seq<u8>)
    ensures
        bytes_lt(p + a, p + b) == bytes_lt(a, b),
    decreases p.len(),
{
    if p.len() == 0 {
        assert(p + a =~= a);
        assert(p + b =~= b);
    } else {
        lemma_bytes_lt_prefix(p.skip(1), a, b);
        assert((p + a).skip(1) =~= p.skip(1) + a);
        assert((p + b).skip(1) =~= p.skip(1) + b);
    }
}

/// What follows two byte sequences of one length, of which one comes
/// before the other, does not change their order.
pub proof fn lemma_bytes_lt_extend(x: Seq<u8>, y: Seq<u8>, s: Seq<u8>, t: Seq<u8>)
    requires
        x.len() == y.len(),
        bytes_lt(x, y),
    ensures
        bytes_lt(x + s, y + t),
    decreases x.len(),
{
    if x[0] == y[0] {
        lemma_bytes_lt_extend(x.skip(1), y.skip(1), s, t);
        assert((x + s).skip(1) =~= x.skip(1) + s);
        assert((y + t).skip(1) =~= y.skip(1) + t);
    }
}

proof fn lemma_decimal_ascii(n: nat)
    ensures
        is_ascii_chars(decimal(n)),
{
    lemma_decimal(n);
    let d = decimal(n);
    assert forall|i: int| 0 <= i < d.len() implies '\0' <= #[trigger] d[i] <= '\u{7f}' by {
        assert(digit_of(d[i]) is Some);
    }
}

/// The encoding of a number in base ten: one byte per digit.
proof fn lemma_decimal_bytes(n: nat)
    ensures
        encode_utf8(decimal(n)).len() == decimal(n).len(),
        n >= 10 ==> encode_utf8(decimal(n)) == encode_utf8(decimal(n / 10)) + seq![
            (48 + n % 10) as u8,
        ],
        n < 10 ==> encode_utf8(decimal(n)) == seq![(48 + n) as u8],
        n < 10 <==> decimal(n).len() == 1,
    decreases n,
{
    let d = decimal(n);
    lemma_decimal_ascii(n);
    is_ascii_chars_encode_utf8(d);
    if n >= 10 {
        lemma_decimal_bytes(n / 10);
        let front = decimal(n / 10);
        lemma_decimal_ascii(n / 10);
        is_ascii_chars_encode_utf8(front);
        assert(encode_utf8(d) =~= encode_utf8(front) + seq![(48 + n % 10) as u8]) by {
            assert forall|i: int| 0 <= i < d.len() implies encode_utf8(d)[i] == (encode_utf8(front)
                + seq![(48 + n % 10) as u8])[i] by {
                if i < front.len() {
                    assert(d[i] == front[i]);
                    assert(front[i] as u8 == encode_utf8(front)[i]);
                }
                assert(d[i] as u8 == encode_utf8(d)[i]);
            }
        }
    } else {
        assert(encode_utf8(d) =~= seq![(48 + n) as u8]) by {
            assert(d[0] as u8 == encode_utf8(d)[0]);
        }
    }
}

/// Of two numbers with as many digits, the smaller comes first in the
/// canonical order of their decimal forms.
pub proof fn lemma_decimal_order(a: nat, b: nat)
    requires
        a < b,
        decimal(a).len() == decimal(b).len(),
    ensures
        bytes_lt(encode_utf8(decimal(a)), encode_utf8(decimal(b))),
        encode_utf8(decimal(a)).len() == encode_utf8(decimal(b)).len(),
    decreases b,
{
    lemma_decimal_bytes(a);
    lemma_decimal_bytes(b);
    if b >= 10 {
        lemma_decimal_bytes(a / 10);
        lemma_decimal_bytes(b / 10);
        let x = encode_utf8(decimal(a / 10));
        let y = encode_utf8(decimal(b / 10));
        let s = seq![(48 + a % 10) as u8];
        let t = seq![(48 + b % 10) as u8];
        if a / 10 < b / 10 {
            lemma_decimal_order(a / 10, b / 10);
            lemma_bytes_lt_extend(x, y, s, t);
        } else {
            lemma_bytes_lt_prefix(x, s, t);
            assert(s.skip(1).len() == 0);
        }
    }
}

} // verus!
