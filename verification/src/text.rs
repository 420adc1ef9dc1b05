//! Text: comparison, prefixes, splitting and rendering of strings.
//!
//! A string is modelled by the sequence of its characters. What a function of this module does to a
//! `str` is stated over that sequence.

use vstd::prelude::*;
use vstd::utf8;

verus! {

/// The texts of a list of strings.
pub open spec fn texts(list: Seq<String>) -> Seq<Seq<char>> {
    list.map_values(|s: String| s@)
}

/// The text of an optional string.
pub open spec fn optional(o: Option<String>) -> Option<Seq<char>> {
    match o {
        Some(s) => Some(s@),
        None => None,
    }
}

/// Whether `sep` stands in `s` at position `i`.
pub open spec fn occurs_at(s: Seq<char>, sep: Seq<char>, i: int) -> bool {
    0 <= i && i + sep.len() <= s.len() && s.subrange(i, i + sep.len()) == sep
}

/// Whether position `i` is the first at which `sep` stands in `s`.
pub open spec fn first_at(s: Seq<char>, sep: Seq<char>, i: int) -> bool {
    occurs_at(s, sep, i) && forall|j: int| 0 <= j < i ==> !#[trigger] occurs_at(s, sep, j)
}

/// What stands before and after the first `sep` in `s`, where there is one.
pub open spec fn cut(s: Seq<char>, sep: Seq<char>) -> Option<(Seq<char>, Seq<char>)> {
    if exists|i: int| first_at(s, sep, i) {
        let i = choose|i: int| first_at(s, sep, i);
        Some((s.take(i), s.skip(i + sep.len())))
    } else {
        None
    }
}

/// What follows `prefix` in `s`, where `s` begins with it.
pub open spec fn after(s: Seq<char>, prefix: Seq<char>) -> Option<Seq<char>> {
    if prefix.is_prefix_of(s) {
        Some(s.skip(prefix.len() as int))
    } else {
        None
    }
}

/// The decimal digits of `n`, most significant first.
pub open spec fn decimal(n: nat) -> Seq<char>
    decreases n,
{
    if n < 10 {
        seq![digit(n)]
    } else {
        decimal(n / 10).push(digit(n % 10))
    }
}

/// The character for a digit below ten.
pub open spec fn digit(d: nat) -> char {
    (('0' as u32) + d) as char
}

/// Two texts with the same bytes are the same text.
pub proof fn lemma_bytes_tell_texts_apart(a: Seq<char>, b: Seq<char>)
    requires
        utf8::encode_utf8(a) == utf8::encode_utf8(b),
    ensures
        a == b,
{
    utf8::encode_utf8_decode_utf8(a);
    utf8::encode_utf8_decode_utf8(b);
}

/// A cut at a known first position.
pub proof fn lemma_cut_at(s: Seq<char>, sep: Seq<char>, i: int)
    requires
        first_at(s, sep, i),
    ensures
        cut(s, sep) == Some((s.take(i), s.skip(i + sep.len()))),
{
    let k = choose|k: int| first_at(s, sep, k);
    assert(first_at(s, sep, k));
    if k < i {
        assert(occurs_at(s, sep, k));
    } else if i < k {
        assert(occurs_at(s, sep, i));
    }
}

/// Whether two strings hold the same text.
pub fn same_text(a: &str, b: &str) -> (r: bool)
    ensures
        r == (a@ == b@),
{
    let x = a.as_bytes();
    let y = b.as_bytes();
    if x.len() != y.len() {
        return false;
    }
    for i in 0..x.len()
        invariant
            x@ == utf8::encode_utf8(a@),
            y@ == utf8::encode_utf8(b@),
            x@.len() == y@.len(),
            forall|j: int| 0 <= j < i ==> x@[j] == y@[j],
    {
        if x[i] != y[i] {
            return false;
        }
    }
    proof {
        assert(x@ =~= y@);
        lemma_bytes_tell_texts_apart(a@, b@);
    }
    true
}

/// Whether a list of strings holds the given text.
pub fn contains_text(list: &Vec<String>, s: &str) -> (r: bool)
    ensures
        r == texts(list@).contains(s@),
{
    for i in 0..list.len()
        invariant
            forall|j: int| 0 <= j < i ==> (#[trigger] list@[j])@ != s@,
    {
        if same_text(&list[i], s) {
            assert(texts(list@)[i as int] == s@);
            return true;
        }
    }
    assert(forall|j: int| 0 <= j < list@.len() ==> #[trigger] texts(list@)[j] == list@[j]@);
    false
}

/// Whether two lists of strings hold the same texts in the same order.
pub fn same_texts(a: &Vec<String>, b: &Vec<String>) -> (r: bool)
    ensures
        r == (texts(a@) == texts(b@)),
{
    if a.len() != b.len() {
        assert(texts(a@).len() != texts(b@).len());
        return false;
    }
    for i in 0..a.len()
        invariant
            a@.len() == b@.len(),
            forall|j: int| 0 <= j < i ==> (#[trigger] a@[j])@ == b@[j]@,
    {
        if !same_text(&a[i], &b[i]) {
            assert(texts(a@)[i as int] != texts(b@)[i as int]);
            return false;
        }
    }
    assert(texts(a@) =~= texts(b@));
    true
}

/// Whether two optional strings are both absent or hold the same text.
pub fn same_optional(a: &Option<String>, b: &Option<String>) -> (r: bool)
    ensures
        r == (optional(*a) == optional(*b)),
{
    match (a, b) {
        (Some(x), Some(y)) => same_text(x, y),
        (None, None) => true,
        _ => false,
    }
}

/// A copy of a list of strings.
pub fn copy_texts(list: &Vec<String>) -> (r: Vec<String>)
    ensures
        r@ == list@,
{
    let r = list.clone();
    assert(r@ =~= list@);
    r
}

/// A copy of an optional string.
pub fn copy_optional(o: &Option<String>) -> (r: Option<String>)
    ensures
        r == *o,
{
    match o {
        Some(s) => Some(s.clone()),
        None => None,
    }
}

/// The characters of a string.
pub(crate) fn chars_of(s: &str) -> (r: Vec<char>)
    ensures
        r@ == s@,
{
    let mut r: Vec<char> = Vec::new();
    for c in it: s.chars()
        invariant
            it.seq() == s@,
            r@ == it.seq().take(it.index() as int),
    {
        r.push(c);
        assert(r@ =~= it.seq().take(it.index() + 1));
    }
    assert(r@ =~= s@);
    r
}

/// Whether `sep` stands in `s` at position `i`.
fn stands_at(s: &Vec<char>, sep: &Vec<char>, i: usize) -> (r: bool)
    ensures
        r == occurs_at(s@, sep@, i as int),
{
    if sep.len() > s.len() || i > s.len() - sep.len() {
        return false;
    }
    for k in 0..sep.len()
        invariant
            i + sep@.len() <= s@.len() <= usize::MAX,
            forall|j: int| 0 <= j < k ==> s@[i + j] == sep@[j],
    {
        if s[i + k] != sep[k] {
            assert(s@.subrange(i as int, i + sep@.len())[k as int] != sep@[k as int]);
            return false;
        }
    }
    assert(s@.subrange(i as int, i + sep@.len()) =~= sep@);
    true
}

/// The first position at which `sep` stands in `s`.
fn find(s: &Vec<char>, sep: &Vec<char>) -> (r: Option<usize>)
    ensures
        match r {
            Some(i) => first_at(s@, sep@, i as int),
            None => forall|i: int| !#[trigger] occurs_at(s@, sep@, i),
        },
{
    for i in 0..s.len()
        invariant
            forall|j: int| 0 <= j < i ==> !#[trigger] occurs_at(s@, sep@, j),
    {
        if stands_at(s, sep, i) {
            return Some(i);
        }
    }
    if stands_at(s, sep, s.len()) {
        return Some(s.len());
    }
    None
}

/// What stands before and after the first `sep` in `s`.
pub fn split_once<'a>(s: &'a str, sep: &str) -> (r: Option<(&'a str, &'a str)>)
    ensures
        match r {
            Some((before, behind)) => cut(s@, sep@) == Some((before@, behind@)),
            None => cut(s@, sep@) is None,
        },
{
    let chars = chars_of(s);
    let mark = chars_of(sep);
    match find(&chars, &mark) {
        Some(i) => {
            let all: usize = chars.len();
            proof {
                lemma_cut_at(s@, sep@, i as int);
                assert(s@.subrange(0, i as int) =~= s@.take(i as int));
                assert(s@.subrange(i + sep@.len(), s@.len() as int) =~= s@.skip(i + sep@.len()));
            }
            Some((s.substring_char(0, i), s.substring_char(i + mark.len(), all)))
        },
        None => None,
    }
}

/// What follows `prefix` in `s`.
pub fn strip_prefix<'a>(s: &'a str, prefix: &str) -> (r: Option<&'a str>)
    ensures
        match r {
            Some(rest) => after(s@, prefix@) == Some(rest@),
            None => after(s@, prefix@) is None,
        },
{
    let chars = chars_of(s);
    let mark = chars_of(prefix);
    if stands_at(&chars, &mark, 0) {
        assert(s@.subrange(mark@.len() as int, s@.len() as int) =~= s@.skip(mark@.len() as int));
        Some(s.substring_char(mark.len(), chars.len()))
    } else {
        assert(prefix@.is_prefix_of(s@) ==> s@.subrange(0, prefix@.len() as int) =~= prefix@);
        None
    }
}

/// The digit below ten as a text of one character.
fn digit_text(d: u8) -> (r: &'static str)
    requires
        d < 10,
    ensures
        r@ == seq![digit(d as nat)],
{
    let digits = "0123456789";
    proof {
        reveal_strlit("0123456789");
        assert(digits@[d as int] == digit(d as nat)) by {
            assert(d == 0 || d == 1 || d == 2 || d == 3 || d == 4 || d == 5 || d == 6 || d == 7 || d
                == 8 || d == 9);
        }
        assert(digits@.subrange(d as int, d + 1) =~= seq![digit(d as nat)]);
    }
    digits.substring_char(d as usize, d as usize + 1)
}

/// A byte in decimal.
pub fn decimal_text(n: u8) -> (r: String)
    ensures
        r@ == decimal(n as nat),
    decreases n,
{
    if n < 10 {
        digit_text(n).to_owned()
    } else {
        let high = decimal_text(n / 10);
        let r = high.concat(digit_text(n % 10));
        assert(r@ =~= decimal(n as nat));
        r
    }
}

// ---- Laws of texts ----

/// The models of a list of strings are the texts of its strings, one by one.
pub proof fn law_texts_are_those_of_the_list(list: Seq<String>)
    ensures
        texts(list).len() == list.len(),
        forall|i: int| 0 <= i < list.len() ==> #[trigger] texts(list)[i] == list[i]@,
{
}

/// A cut takes a text apart without loss, and at the first place: the separator stands nowhere
/// before.
pub proof fn law_cut_takes_apart(s: Seq<char>, sep: Seq<char>)
    ensures
        cut(s, sep) matches Some((before, behind)) ==> s == before + sep + behind && forall|j: int|
            0 <= j < before.len() ==> #[trigger] s.subrange(j, j + sep.len()) != sep,
        cut(s, sep) is None ==> forall|j: int|
            0 <= j && j + sep.len() <= s.len() ==> #[trigger] s.subrange(j, j + sep.len()) != sep,
{
    if exists|i: int| first_at(s, sep, i) {
        let i = choose|i: int| first_at(s, sep, i);
        assert(first_at(s, sep, i));
        assert(s =~= s.take(i) + s.subrange(i, i + sep.len()) + s.skip(i + sep.len()));
        assert forall|j: int| 0 <= j < i implies #[trigger] s.subrange(j, j + sep.len())
            != sep by {
            assert(!occurs_at(s, sep, j));
        }
    } else {
        assert forall|j: int| 0 <= j && j + sep.len() <= s.len() implies #[trigger] s.subrange(
            j,
            j + sep.len(),
        ) != sep by {
            if occurs_at(s, sep, j) {
                lemma_some_first(s, sep, j);
            }
        }
    }
}

/// Where a separator stands somewhere, it stands somewhere first.
proof fn lemma_some_first(s: Seq<char>, sep: Seq<char>, j: int)
    requires
        occurs_at(s, sep, j),
    ensures
        exists|i: int| first_at(s, sep, i),
    decreases j,
{
    if forall|k: int| 0 <= k < j ==> !#[trigger] occurs_at(s, sep, k) {
        assert(first_at(s, sep, j));
    } else {
        let k = choose|k: int| 0 <= k < j && #[trigger] occurs_at(s, sep, k);
        lemma_some_first(s, sep, k);
    }
}

/// What follows a prefix is what was put behind it, and only a text that begins with it has such.
pub proof fn law_after_undoes_a_prefix(s: Seq<char>, prefix: Seq<char>)
    ensures
        after(prefix + s, prefix) == Some(s),
        after(s, prefix) matches Some(rest) ==> s == prefix + rest,
        after(s, prefix) is None ==> s.len() < prefix.len() || exists|i: int|
            0 <= i < prefix.len() && #[trigger] s[i] != prefix[i],
{
    assert((prefix + s).subrange(0, prefix.len() as int) =~= prefix);
    assert((prefix + s).skip(prefix.len() as int) =~= s);
    if prefix.is_prefix_of(s) {
        assert(s =~= prefix + s.skip(prefix.len() as int));
    } else if prefix.len() <= s.len() {
        assert(!(prefix =~= s.subrange(0, prefix.len() as int)));
        let i = choose|i: int|
            0 <= i < prefix.len() && prefix[i] != #[trigger] s.subrange(
                0,
                prefix.len() as int,
            )[i];
        assert(s[i] != prefix[i]);
    }
}

/// Decimals grow by their last digit: ten times a number and a digit more is the number with that
/// digit behind it.
pub proof fn law_decimal_digits(n: nat, d: nat)
    requires
        d < 10,
    ensures
        decimal(d).len() == 1,
        decimal(d)[0] as nat == '0' as nat + d,
        n > 0 ==> decimal(10 * n + d) == decimal(n) + decimal(d),
{
    if n > 0 {
        assert((10 * n + d) / 10 == n && (10 * n + d) % 10 == d);
        assert(decimal(10 * n + d) =~= decimal(n) + decimal(d));
    }
}

/// An optional text is there exactly where the string is, and is its text.
pub proof fn law_optional_texts_are_those_of_the_string(s: String)
    ensures
        optional(Some(s)) == Some(s@),
        optional(None) is None,
{
}

} // verus!
