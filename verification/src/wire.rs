//! The byte layout that identities and contents are written in: numbers of a fixed width, texts
//! behind their length, and lists behind their count.

use vstd::prelude::*;
use vstd::utf8;
use crate::text;

verus! {

/// The four bytes of `n` modulo 2^32, most significant first.
#[verifier::opaque]
pub open spec fn be32(n: nat) -> Seq<u8> {
    seq![
        ((n / 0x100_0000) % 0x100) as u8,
        ((n / 0x1_0000) % 0x100) as u8,
        ((n / 0x100) % 0x100) as u8,
        (n % 0x100) as u8,
    ]
}

/// The number that four bytes spell, most significant first.
pub open spec fn be32_value(b: Seq<u8>) -> nat {
    (b[0] * 0x100_0000 + b[1] * 0x1_0000 + b[2] * 0x100 + b[3]) as nat
}

/// A text: the length of its UTF-8 bytes, then the bytes.
pub open spec fn text_bytes(t: Seq<char>) -> Seq<u8> {
    be32(utf8::encode_utf8(t).len()) + utf8::encode_utf8(t)
}

/// An optional text: a tag byte, then the text where there is one.
pub open spec fn optional_bytes(o: Option<Seq<char>>) -> Seq<u8> {
    match o {
        None => seq![0u8],
        Some(t) => seq![1u8] + text_bytes(t),
    }
}

/// The eight bytes of `n` modulo 2^64, most significant first.
pub open spec fn be64(n: nat) -> Seq<u8> {
    be32(n / 0x1_0000_0000) + be32(n % 0x1_0000_0000)
}

/// The items of a list, each in the bytes that `f` gives it.
pub open spec fn each_bytes<A>(items: Seq<A>, f: spec_fn(A) -> Seq<u8>) -> Seq<u8>
    decreases items.len(),
{
    if items.len() == 0 {
        Seq::empty()
    } else {
        each_bytes(items.drop_last(), f) + f(items.last())
    }
}

/// A list: the number of its items, then the items.
pub open spec fn list_bytes<A>(items: Seq<A>, f: spec_fn(A) -> Seq<u8>) -> Seq<u8> {
    be64(items.len()) + each_bytes(items, f)
}

/// A list of texts.
pub open spec fn texts_bytes(list: Seq<Seq<char>>) -> Seq<u8> {
    list_bytes(list, |t: Seq<char>| text_bytes(t))
}

/// Whether the length of a text fits in front of it.
pub open spec fn text_fits(t: Seq<char>) -> bool {
    utf8::encode_utf8(t).len() < 0x1_0000_0000
}

/// Whether the length of an optional text fits in front of it.
pub open spec fn optional_fits(o: Option<Seq<char>>) -> bool {
    match o {
        None => true,
        Some(t) => text_fits(t),
    }
}

/// Whether the items that `ok` admits end where they end: behind one of them the reader knows both
/// the item and what follows it.
pub open spec fn self_delimiting<A>(f: spec_fn(A) -> Seq<u8>, ok: spec_fn(A) -> bool) -> bool {
    forall|a: A, b: A, s: Seq<u8>, t: Seq<u8>|
        ok(a) && ok(b) && #[trigger] (f(a) + s) == #[trigger] (f(b) + t) ==> a == b && s == t
}

// ---- Lemmas ----

/// Numbers have four bytes.
pub broadcast proof fn lemma_be32_len(n: nat)
    ensures
        #[trigger] be32(n).len() == 4,
{
    reveal(be32);
}

/// Four bytes spell the number that they are the bytes of.
pub proof fn lemma_be32_value(n: nat)
    requires
        n < 0x1_0000_0000,
    ensures
        be32_value(be32(n)) == n,
{
    reveal(be32);
}

/// Any four bytes are the bytes of the number they spell.
pub proof fn lemma_be32_of_value(b: Seq<u8>)
    requires
        b.len() == 4,
    ensures
        be32(be32_value(b)) == b,
        be32_value(b) < 0x1_0000_0000,
{
    let n = be32_value(b);
    let (b0, b1, b2, b3) = (b[0] as nat, b[1] as nat, b[2] as nat, b[3] as nat);
    assert(n / 0x100_0000 == b0);
    assert(n / 0x1_0000 == b0 * 0x100 + b1);
    assert(n / 0x100 == b0 * 0x1_0000 + b1 * 0x100 + b2);
    assert((b0 * 0x100 + b1) % 0x100 == b1);
    assert((b0 * 0x1_0000 + b1 * 0x100 + b2) % 0x100 == b2);
    assert(n % 0x100 == b3);
    reveal(be32);
    assert(be32(n) =~= b);
}

/// Equal heads of equal length leave equal tails.
pub proof fn lemma_cut_heads(a: Seq<u8>, b: Seq<u8>, s: Seq<u8>, t: Seq<u8>)
    requires
        a.len() == b.len(),
        a + s == b + t,
    ensures
        a == b,
        s == t,
{
    let w = a + s;
    assert(a =~= w.subrange(0, a.len() as int));
    assert(b =~= (b + t).subrange(0, a.len() as int));
    assert(s =~= w.subrange(a.len() as int, w.len() as int));
    assert(t =~= (b + t).subrange(a.len() as int, w.len() as int));
}

/// Numbers below 2^64 are told apart by their bytes.
pub proof fn lemma_be64_injective(m: nat, n: nat)
    requires
        m < 0x1_0000_0000_0000_0000,
        n < 0x1_0000_0000_0000_0000,
        be64(m) == be64(n),
    ensures
        m == n,
{
    broadcast use lemma_be32_len;

    lemma_cut_heads(
        be32(m / 0x1_0000_0000),
        be32(n / 0x1_0000_0000),
        be32(m % 0x1_0000_0000),
        be32(n % 0x1_0000_0000),
    );
    lemma_be32_value(m / 0x1_0000_0000);
    lemma_be32_value(n / 0x1_0000_0000);
    lemma_be32_value(m % 0x1_0000_0000);
    lemma_be32_value(n % 0x1_0000_0000);
}

/// A text ends where it ends.
pub proof fn lemma_text_delimits(a: Seq<char>, b: Seq<char>, s: Seq<u8>, t: Seq<u8>)
    requires
        text_fits(a),
        text_fits(b),
        text_bytes(a) + s == text_bytes(b) + t,
    ensures
        a == b,
        s == t,
{
    broadcast use lemma_be32_len;

    let x = utf8::encode_utf8(a);
    let y = utf8::encode_utf8(b);
    assert(text_bytes(a) + s =~= be32(x.len()) + (x + s));
    assert(text_bytes(b) + t =~= be32(y.len()) + (y + t));
    lemma_cut_heads(be32(x.len()), be32(y.len()), x + s, y + t);
    lemma_be32_value(x.len());
    lemma_be32_value(y.len());
    lemma_cut_heads(x, y, s, t);
    text::lemma_bytes_tell_texts_apart(a, b);
}

/// The first item stands in front of the others.
pub proof fn lemma_each_bytes_front<A>(items: Seq<A>, f: spec_fn(A) -> Seq<u8>)
    requires
        items.len() > 0,
    ensures
        each_bytes(items, f) == f(items[0]) + each_bytes(items.drop_first(), f),
    decreases items.len(),
{
    if items.len() == 1 {
        assert(items.drop_last() =~= Seq::empty());
        assert(items.drop_first() =~= Seq::empty());
        assert(each_bytes(items, f) =~= f(items[0]) + each_bytes(items.drop_first(), f));
    } else {
        lemma_each_bytes_front(items.drop_last(), f);
        assert(items.drop_last().drop_first() =~= items.drop_first().drop_last());
        assert(each_bytes(items, f) =~= f(items[0]) + each_bytes(items.drop_first(), f));
    }
}

/// Lists of one length whose items delimit themselves delimit themselves.
proof fn lemma_each_delimits<A>(
    x: Seq<A>,
    y: Seq<A>,
    s: Seq<u8>,
    t: Seq<u8>,
    f: spec_fn(A) -> Seq<u8>,
    ok: spec_fn(A) -> bool,
)
    requires
        self_delimiting(f, ok),
        x.len() == y.len(),
        forall|i: int| 0 <= i < x.len() ==> ok(#[trigger] x[i]),
        forall|i: int| 0 <= i < y.len() ==> ok(#[trigger] y[i]),
        each_bytes(x, f) + s == each_bytes(y, f) + t,
    ensures
        x == y,
        s == t,
    decreases x.len(),
{
    if x.len() == 0 {
        assert(x =~= y);
        assert(each_bytes(x, f) + s =~= s);
        assert(each_bytes(y, f) + t =~= t);
    } else {
        lemma_each_bytes_front(x, f);
        lemma_each_bytes_front(y, f);
        let xs = each_bytes(x.drop_first(), f);
        let ys = each_bytes(y.drop_first(), f);
        assert(each_bytes(x, f) + s =~= f(x[0]) + (xs + s));
        assert(each_bytes(y, f) + t =~= f(y[0]) + (ys + t));
        assert(x[0] == y[0] && xs + s == ys + t);
        lemma_each_delimits(x.drop_first(), y.drop_first(), s, t, f, ok);
        assert(x =~= seq![x[0]] + x.drop_first());
        assert(y =~= seq![y[0]] + y.drop_first());
    }
}

/// A list whose items delimit themselves delimits itself.
pub proof fn lemma_list_delimits<A>(
    x: Seq<A>,
    y: Seq<A>,
    s: Seq<u8>,
    t: Seq<u8>,
    f: spec_fn(A) -> Seq<u8>,
    ok: spec_fn(A) -> bool,
)
    requires
        self_delimiting(f, ok),
        x.len() < 0x1_0000_0000_0000_0000,
        y.len() < 0x1_0000_0000_0000_0000,
        forall|i: int| 0 <= i < x.len() ==> ok(#[trigger] x[i]),
        forall|i: int| 0 <= i < y.len() ==> ok(#[trigger] y[i]),
        list_bytes(x, f) + s == list_bytes(y, f) + t,
    ensures
        x == y,
        s == t,
{
    broadcast use lemma_be32_len;

    assert(list_bytes(x, f) + s =~= be64(x.len()) + (each_bytes(x, f) + s));
    assert(list_bytes(y, f) + t =~= be64(y.len()) + (each_bytes(y, f) + t));
    lemma_cut_heads(be64(x.len()), be64(y.len()), each_bytes(x, f) + s, each_bytes(y, f) + t);
    lemma_be64_injective(x.len(), y.len());
    lemma_each_delimits(x, y, s, t, f, ok);
}

/// Whether every text of a list fits, and their number too.
pub open spec fn texts_fit(list: Seq<Seq<char>>) -> bool {
    list.len() < 0x1_0000_0000_0000_0000 && forall|i: int|
        0 <= i < list.len() ==> text_fits(#[trigger] list[i])
}

/// A list of texts delimits itself.
pub proof fn lemma_texts_delimit(x: Seq<Seq<char>>, y: Seq<Seq<char>>, s: Seq<u8>, t: Seq<u8>)
    requires
        texts_fit(x),
        texts_fit(y),
        texts_bytes(x) + s == texts_bytes(y) + t,
    ensures
        x == y,
        s == t,
{
    let f = |t: Seq<char>| text_bytes(t);
    let ok = |t: Seq<char>| text_fits(t);
    assert(self_delimiting(f, ok)) by {
        assert forall|a: Seq<char>, b: Seq<char>, s: Seq<u8>, t: Seq<u8>|
            ok(a) && ok(b) && #[trigger] (f(a) + s) == #[trigger] (f(b) + t) implies a == b && s
            == t by {
            lemma_text_delimits(a, b, s, t);
        }
    }
    lemma_list_delimits(x, y, s, t, f, ok);
}

// ---- Writing ----

/// Appends the four bytes of a number to `b`.
pub fn enc_u32(b: &mut Vec<u8>, n: u32)
    ensures
        final(b)@ == old(b)@ + be32(n as nat),
{
    b.push((n / 0x100_0000) as u8);
    b.push(((n / 0x1_0000) % 0x100) as u8);
    b.push(((n / 0x100) % 0x100) as u8);
    b.push((n % 0x100) as u8);
    proof {
        reveal(be32);
    }
    assert(b@ =~= old(b)@ + be32(n as nat));
}

/// Appends the eight bytes of a number to `b`.
pub fn enc_u64(b: &mut Vec<u8>, n: u64)
    ensures
        final(b)@ == old(b)@ + be64(n as nat),
{
    broadcast use lemma_be32_len;

    enc_u32(b, (n / 0x1_0000_0000) as u32);
    enc_u32(b, (n % 0x1_0000_0000) as u32);
    assert(b@ =~= old(b)@ + be64(n as nat));
}

/// Appends bytes to `b`.
pub fn enc_raw(b: &mut Vec<u8>, bytes: &[u8])
    ensures
        final(b)@ == old(b)@ + bytes@,
{
    b.extend_from_slice(bytes);
    assert(b@ =~= old(b)@ + bytes@);
}

/// Appends a text to `b`.
pub fn enc_str(b: &mut Vec<u8>, s: &str)
    ensures
        final(b)@ == old(b)@ + text_bytes(s@),
{
    let bytes = s.as_bytes();
    let n: u64 = bytes.len() as u64;
    b.push(((n / 0x100_0000) % 0x100) as u8);
    b.push(((n / 0x1_0000) % 0x100) as u8);
    b.push(((n / 0x100) % 0x100) as u8);
    b.push((n % 0x100) as u8);
    proof {
        reveal(be32);
    }
    assert(b@ =~= old(b)@ + be32(n as nat));
    b.extend_from_slice(bytes);
    assert(b@ =~= old(b)@ + text_bytes(s@));
}

/// Appends an optional text to `b`.
pub fn enc_opt(b: &mut Vec<u8>, o: &Option<String>)
    ensures
        final(b)@ == old(b)@ + optional_bytes(text::optional(*o)),
{
    match o {
        None => b.push(0),
        Some(s) => {
            b.push(1);
            enc_str(b, s);
        },
    }
    assert(b@ =~= old(b)@ + optional_bytes(text::optional(*o)));
}


/// Appends a list of texts to `b`.
pub fn enc_strs(b: &mut Vec<u8>, list: &Vec<String>)
    ensures
        final(b)@ == old(b)@ + texts_bytes(text::texts(list@)),
{
    let ghost f = |t: Seq<char>| text_bytes(t);
    let ghost all = text::texts(list@);
    enc_u64(b, list.len() as u64);
    let ghost head = b@;
    assert(head =~= head + each_bytes(all.take(0), f));
    for i in 0..list.len()
        invariant
            all == text::texts(list@),
            f == (|t: Seq<char>| text_bytes(t)),
            b@ == head + each_bytes(all.take(i as int), f),
    {
        enc_str(b, &list[i]);
        assert(all.take(i + 1).drop_last() =~= all.take(i as int));
        assert(b@ =~= head + each_bytes(all.take(i + 1), f));
    }
    assert(all.take(list@.len() as int) =~= all);
    assert(b@ =~= old(b)@ + texts_bytes(all));
}

/// A copy of a list of bytes.
pub fn copy_bytes(b: &Vec<u8>) -> (r: Vec<u8>)
    ensures
        r@ == b@,
{
    let r = b.clone();
    assert(r@ =~= b@);
    r
}

// ---- Laws of the layout ----

/// The bytes of a number spell it, most significant first.
pub proof fn law_numbers_are_spelled_big_endian(n: nat)
    ensures
        be32(n).len() == 4,
        be32(n)[0] * 0x100_0000 + be32(n)[1] * 0x1_0000 + be32(n)[2] * 0x100 + be32(n)[3] == n
            % 0x1_0000_0000,
        be64(n).len() == 8,
        n < 0x1_0000_0000_0000_0000 ==> be64(n).take(4) == be32(n / 0x1_0000_0000) && be64(n).skip(4)
            == be32(n % 0x1_0000_0000),
{
    broadcast use lemma_be32_len;

    lemma_be32_is_modular(n);
    lemma_be32_value(n % 0x1_0000_0000);
    assert(be64(n).take(4) =~= be32(n / 0x1_0000_0000));
    assert(be64(n).skip(4) =~= be32(n % 0x1_0000_0000));
}

/// The bytes of a number are those of its last four bytes.
proof fn lemma_be32_is_modular(n: nat)
    ensures
        be32(n) == be32(n % 0x1_0000_0000),
{
    let q = n / 0x1_0000_0000;
    let m = n % 0x1_0000_0000;
    assert(n == q * 0x1_0000_0000 + m);
    assert((n / 0x100_0000) % 0x100 == (m / 0x100_0000) % 0x100) by {
        assert(n / 0x100_0000 == q * 0x100 + m / 0x100_0000);
    }
    assert((n / 0x1_0000) % 0x100 == (m / 0x1_0000) % 0x100) by {
        assert(n / 0x1_0000 == q * 0x1_0000 + m / 0x1_0000);
    }
    assert((n / 0x100) % 0x100 == (m / 0x100) % 0x100) by {
        assert(n / 0x100 == q * 0x100_0000 + m / 0x100);
    }
    assert(n % 0x100 == m % 0x100);
    reveal(be32);
}

/// A text is its UTF-8 bytes behind their number.
pub proof fn law_texts_stand_behind_their_length(t: Seq<char>)
    ensures
        text_bytes(t).len() == 4 + utf8::encode_utf8(t).len(),
        text_bytes(t).take(4) == be32(utf8::encode_utf8(t).len()),
        text_bytes(t).skip(4) == utf8::encode_utf8(t),
{
    broadcast use lemma_be32_len;

    assert(text_bytes(t).take(4) =~= be32(utf8::encode_utf8(t).len()));
    assert(text_bytes(t).skip(4) =~= utf8::encode_utf8(t));
}

/// An absent text is one zero byte; a text that is there stands behind a byte that is one.
pub proof fn law_optional_texts_are_tagged(t: Seq<char>)
    ensures
        optional_bytes(None) == seq![0u8],
        optional_bytes(Some(t)).len() == 1 + text_bytes(t).len(),
        optional_bytes(Some(t))[0] == 1,
        optional_bytes(Some(t)).skip(1) == text_bytes(t),
{
    assert(optional_bytes(Some(t)).skip(1) =~= text_bytes(t));
}

/// A list is its items, one after the other, behind their number.
pub proof fn law_lists_stand_behind_their_count<A>(
    a: Seq<A>,
    b: Seq<A>,
    x: A,
    f: spec_fn(A) -> Seq<u8>,
)
    ensures
        list_bytes(a, f).len() == 8 + each_bytes(a, f).len(),
        list_bytes(a, f).take(8) == be64(a.len()),
        list_bytes(a, f).skip(8) == each_bytes(a, f),
        each_bytes(Seq::<A>::empty(), f).len() == 0,
        each_bytes(seq![x], f) == f(x),
        each_bytes(a + b, f) == each_bytes(a, f) + each_bytes(b, f),
    decreases b.len(),
{
    broadcast use lemma_be32_len;

    assert(list_bytes(a, f).take(8) =~= be64(a.len()));
    assert(list_bytes(a, f).skip(8) =~= each_bytes(a, f));
    assert(seq![x].drop_last() =~= Seq::empty());
    assert(each_bytes(seq![x].drop_last(), f) =~= Seq::empty());
    assert(seq![x].last() == x);
    assert(each_bytes(seq![x], f) =~= f(x));
    if b.len() == 0 {
        assert(a + b =~= a);
        assert(each_bytes(a, f) + each_bytes(b, f) =~= each_bytes(a, f));
    } else {
        law_lists_stand_behind_their_count(a, b.drop_last(), x, f);
        assert((a + b).drop_last() =~= a + b.drop_last());
        assert((a + b).last() == b.last());
        assert(each_bytes(a + b, f) =~= each_bytes(a, f) + each_bytes(b, f));
    }
}

/// The items of a list of texts are written as texts.
pub proof fn law_text_lists_hold_texts(a: Seq<Seq<char>>, t: Seq<char>)
    ensures
        texts_bytes(a).take(8) == be64(a.len()),
        texts_bytes(a.push(t)).skip(8) == texts_bytes(a).skip(8) + text_bytes(t),
        texts_bytes(Seq::empty()).skip(8).len() == 0,
{
    let f = |t: Seq<char>| text_bytes(t);
    law_lists_stand_behind_their_count(a, seq![t], t, f);
    law_lists_stand_behind_their_count(a.push(t), seq![t], t, f);
    law_lists_stand_behind_their_count(Seq::empty(), seq![t], t, f);
    assert(a.push(t) =~= a + seq![t]);
}

} // verus!
