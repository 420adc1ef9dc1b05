//! The identity of a configured target and its canonical bytes.

use vstd::prelude::*;
use vstd::utf8;
use vstd::slice::{slice_subrange, slice_to_vec};
use crate::error::{self, invalid, Error, ErrorView};
use crate::seqs::Same;
use crate::wire::{self, copy_bytes, enc_opt, enc_str};
use crate::{outside, text};

verus! {

broadcast use wire::lemma_be32_len;

/// The kind of a node in the build graph.
pub type KindId = u32;

/// The kind of the nodes that this library computes.
pub const CONFIGURED_TARGET: KindId = 40;

/// The identity of a configured target: its label (`package` and `name`) and the dimensions along
/// which one label is analyzed more than once.
#[derive(PartialEq, Eq, Hash, PartialOrd, Ord, Debug)]
pub struct ConfiguredTargetKey {
    pub package: String,
    pub name: String,
    pub configuration: Option<String>,
    pub exec_platform: Option<String>,
    pub rule_transition: Option<String>,
}

/// The model of a [`ConfiguredTargetKey`].
#[verifier::ext_equal]
pub struct KeyView {
    pub package: Seq<char>,
    pub name: Seq<char>,
    pub configuration: Option<Seq<char>>,
    pub exec_platform: Option<Seq<char>>,
    pub rule_transition: Option<Seq<char>>,
}

impl View for ConfiguredTargetKey {
    type V = KeyView;

    open spec fn view(&self) -> KeyView {
        KeyView {
            package: self.package@,
            name: self.name@,
            configuration: text::optional(self.configuration),
            exec_platform: text::optional(self.exec_platform),
            rule_transition: text::optional(self.rule_transition),
        }
    }
}

impl Clone for ConfiguredTargetKey {
    fn clone(&self) -> (r: Self)
        ensures
            r == *self,
    {
        ConfiguredTargetKey {
            package: self.package.clone(),
            name: self.name.clone(),
            configuration: text::copy_optional(&self.configuration),
            exec_platform: text::copy_optional(&self.exec_platform),
            rule_transition: text::copy_optional(&self.rule_transition),
        }
    }
}

// ---- The canonical bytes ----

/// The canonical bytes of a key: its five fields in order.
pub open spec fn key_bytes(k: KeyView) -> Seq<u8> {
    wire::text_bytes(k.package) + wire::text_bytes(k.name) + wire::optional_bytes(k.configuration) + wire::optional_bytes(
        k.exec_platform,
    ) + wire::optional_bytes(k.rule_transition)
}

impl Same for ConfiguredTargetKey {
    fn same(&self, other: &Self) -> (r: bool) {
        text::same_text(&self.package, &other.package) && text::same_text(&self.name, &other.name)
            && text::same_optional(&self.configuration, &other.configuration)
            && text::same_optional(&self.exec_platform, &other.exec_platform)
            && text::same_optional(&self.rule_transition, &other.rule_transition)
    }
}

impl ConfiguredTargetKey {
    /// The kind of the node that a key names.
    pub fn kind(&self) -> (r: KindId)
        ensures
            r == CONFIGURED_TARGET,
    {
        CONFIGURED_TARGET
    }

    /// The canonical bytes of the key.
    pub fn encode(&self) -> (r: Vec<u8>)
        ensures
            r@ == key_bytes(self@),
    {
        let mut b: Vec<u8> = Vec::new();
        enc_str(&mut b, &self.package);
        enc_str(&mut b, &self.name);
        enc_opt(&mut b, &self.configuration);
        enc_opt(&mut b, &self.exec_platform);
        enc_opt(&mut b, &self.rule_transition);
        assert(b@ =~= key_bytes(self@));
        b
    }
}

/// A node of the build graph: its kind and the canonical bytes of its key.
#[derive(PartialEq, Eq, Debug)]
pub struct NodeKey {
    pub kind: KindId,
    pub bytes: Vec<u8>,
}

/// The model of a [`NodeKey`].
pub struct NodeKeyView {
    pub kind: KindId,
    pub bytes: Seq<u8>,
}

impl View for NodeKey {
    type V = NodeKeyView;

    open spec fn view(&self) -> NodeKeyView {
        NodeKeyView { kind: self.kind, bytes: self.bytes@ }
    }
}

impl Clone for NodeKey {
    fn clone(&self) -> (r: Self)
        ensures
            r@ == self@,
    {
        NodeKey { kind: self.kind, bytes: copy_bytes(&self.bytes) }
    }
}

/// The node of a configured target.
pub open spec fn target_node(k: KeyView) -> NodeKeyView {
    NodeKeyView { kind: CONFIGURED_TARGET, bytes: key_bytes(k) }
}

impl NodeKey {
    /// The node of a configured target.
    pub fn from_key(k: &ConfiguredTargetKey) -> (r: Self)
        ensures
            r@ == target_node(k@),
    {
        NodeKey { kind: k.kind(), bytes: k.encode() }
    }

    /// The canonical bytes of the key.
    pub fn canonical(&self) -> (r: &[u8])
        ensures
            r@ == self@.bytes,
    {
        &self.bytes
    }
}

// ---- Reading the canonical bytes ----

/// Why bytes are no key.
pub enum KeyFault {
    /// They end inside a field.
    Truncated,
    /// A text is not valid UTF-8.
    NotUtf8,
    /// A tag is neither that of an absent nor that of a present text.
    BadTag(u8),
}

/// The failure that a fault is answered with.
pub open spec fn fault_error(f: KeyFault) -> ErrorView {
    ErrorView::Invalid {
        what: "CONFIGURED_TARGET key"@,
        detail: match f {
            KeyFault::Truncated => "truncated"@,
            KeyFault::NotUtf8 => "non-utf8"@,
            KeyFault::BadTag(t) => "bad option tag "@ + text::decimal(t as nat),
        },
    }
}

/// The text that stands in `b` at `i`, and the position behind it.
pub open spec fn parse_text(b: Seq<u8>, i: int) -> Result<(Seq<char>, int), KeyFault> {
    if i + 4 > b.len() {
        Err(KeyFault::Truncated)
    } else {
        let n = wire::be32_value(b.subrange(i, i + 4));
        if i + 4 + n > b.len() {
            Err(KeyFault::Truncated)
        } else {
            let raw = b.subrange(i + 4, i + 4 + n);
            if utf8::valid_utf8(raw) {
                Ok((utf8::decode_utf8(raw), i + 4 + n))
            } else {
                Err(KeyFault::NotUtf8)
            }
        }
    }
}

/// The optional text that stands in `b` at `i`, and the position behind it.
pub open spec fn parse_optional(b: Seq<u8>, i: int) -> Result<
    (Option<Seq<char>>, int),
    KeyFault,
> {
    if i + 1 > b.len() {
        Err(KeyFault::Truncated)
    } else if b[i] == 0 {
        Ok((None, i + 1))
    } else if b[i] == 1 {
        match parse_text(b, i + 1) {
            Ok((t, j)) => Ok((Some(t), j)),
            Err(f) => Err(f),
        }
    } else {
        Err(KeyFault::BadTag(b[i]))
    }
}

/// The key that `b` begins with: five fields, each behind the one before. What follows them is not
/// looked at.
pub open spec fn parse_key(b: Seq<u8>) -> Result<KeyView, KeyFault> {
    match parse_text(b, 0) {
        Err(f) => Err(f),
        Ok((package, i)) => match parse_text(b, i) {
            Err(f) => Err(f),
            Ok((name, i)) => match parse_optional(b, i) {
                Err(f) => Err(f),
                Ok((configuration, i)) => match parse_optional(b, i) {
                    Err(f) => Err(f),
                    Ok((exec_platform, i)) => match parse_optional(b, i) {
                        Err(f) => Err(f),
                        Ok((rule_transition, _)) => Ok(
                            KeyView { package, name, configuration, exec_platform, rule_transition },
                        ),
                    },
                },
            },
        },
    }
}

/// What [`decode_ct_key`] answers.
pub open spec fn decoded(b: Seq<u8>) -> Result<KeyView, ErrorView> {
    match parse_key(b) {
        Ok(k) => Ok(k),
        Err(f) => Err(fault_error(f)),
    }
}

/// A position in the bytes of a key.
struct Cur<'a> {
    b: &'a [u8],
    i: usize,
}

impl<'a> Cur<'a> {
    spec fn wf(self) -> bool {
        self.i <= self.b@.len()
    }

    fn new(b: &'a [u8]) -> (r: Self)
        ensures
            r.wf(),
            r.b@ == b@,
            r.i == 0,
    {
        Cur { b, i: 0 }
    }

    /// The next `n` bytes.
    fn take(&mut self, n: usize) -> (r: Result<&'a [u8], Error>)
        requires
            old(self).wf(),
        ensures
            final(self).wf(),
            final(self).b == old(self).b,
            match r {
                Ok(s) => {
                    &&& old(self).i + n <= old(self).b@.len()
                    &&& s@ == old(self).b@.subrange(old(self).i as int, old(self).i + n)
                    &&& final(self).i == old(self).i + n
                },
                Err(e) => {
                    &&& old(self).i + n > old(self).b@.len()
                    &&& e@ == fault_error(KeyFault::Truncated)
                    &&& final(self).i == old(self).i
                },
            },
    {
        if n > self.b.len() - self.i {
            return Err(invalid("CONFIGURED_TARGET key", "truncated".to_owned()));
        }
        let s = slice_subrange(self.b, self.i, self.i + n);
        self.i = self.i + n;
        Ok(s)
    }

    /// The next text.
    fn str(&mut self) -> (r: Result<String, Error>)
        requires
            old(self).wf(),
        ensures
            final(self).wf(),
            final(self).b == old(self).b,
            match (r, parse_text(old(self).b@, old(self).i as int)) {
                (Ok(s), Ok((t, j))) => s@ == t && final(self).i == j,
                (Err(e), Err(f)) => e@ == fault_error(f),
                _ => false,
            },
    {
        let raw = self.take(4)?;
        let len: u32 = raw[0] as u32 * 0x100_0000 + raw[1] as u32 * 0x1_0000 + raw[2] as u32 * 0x100
            + raw[3] as u32;
        let s = self.take(len as usize)?;
        match outside::text_of_utf8(slice_to_vec(s)) {
            Some(t) => {
                proof {
                    utf8::encode_utf8_decode_utf8(t@);
                }
                Ok(t)
            },
            None => Err(invalid("CONFIGURED_TARGET key", "non-utf8".to_owned())),
        }
    }

    /// The next optional text.
    fn opt(&mut self) -> (r: Result<Option<String>, Error>)
        requires
            old(self).wf(),
        ensures
            final(self).wf(),
            final(self).b == old(self).b,
            match (r, parse_optional(old(self).b@, old(self).i as int)) {
                (Ok(o), Ok((t, j))) => text::optional(o) == t && final(self).i == j,
                (Err(e), Err(f)) => e@ == fault_error(f),
                _ => false,
            },
    {
        let tag: u8 = self.take(1)?[0];
        match tag {
            0 => Ok(None),
            1 => Ok(Some(self.str()?)),
            t => Err(
                invalid(
                    "CONFIGURED_TARGET key",
                    "bad option tag ".to_owned().concat(&text::decimal_text(t)),
                ),
            ),
        }
    }
}

/// The key that `bytes` begin with. Bytes that hold no key are an [`Error::Invalid`].
pub fn decode_ct_key(bytes: &[u8]) -> (r: Result<ConfiguredTargetKey, Error>)
    ensures
        error::outcome(r) == decoded(bytes@),
{
    let mut c = Cur::new(bytes);
    let package = c.str()?;
    let name = c.str()?;
    let configuration = c.opt()?;
    let exec_platform = c.opt()?;
    let rule_transition = c.opt()?;
    Ok(ConfiguredTargetKey { package, name, configuration, exec_platform, rule_transition })
}

// ---- Laws ----

/// Whether the length of every text of a key fits in front of it.
pub open spec fn key_fits(k: KeyView) -> bool {
    &&& wire::text_fits(k.package)
    &&& wire::text_fits(k.name)
    &&& wire::optional_fits(k.configuration)
    &&& wire::optional_fits(k.exec_platform)
    &&& wire::optional_fits(k.rule_transition)
}

/// A text is read where it was written.
proof fn lemma_text_is_read(
    b: Seq<u8>,
    before: Seq<u8>,
    t: Seq<char>,
    bytes: Seq<u8>,
    behind: Seq<u8>,
    i: int,
)
    requires
        wire::text_fits(t),
        bytes == wire::text_bytes(t),
        b == before + bytes + behind,
        i == before.len(),
    ensures
        parse_text(b, i) == Ok::<(Seq<char>, int), KeyFault>((t, i + bytes.len())),
{
    let raw = utf8::encode_utf8(t);
    assert(b.subrange(i, i + 4) =~= wire::be32(raw.len()));
    wire::lemma_be32_value(raw.len());
    assert(b.subrange(i + 4, i + 4 + raw.len()) =~= raw);
    utf8::encode_utf8_valid_utf8(t);
    utf8::encode_utf8_decode_utf8(t);
}

/// An optional text is read where it was written.
proof fn lemma_optional_is_read(
    b: Seq<u8>,
    before: Seq<u8>,
    o: Option<Seq<char>>,
    bytes: Seq<u8>,
    behind: Seq<u8>,
    i: int,
)
    requires
        wire::optional_fits(o),
        bytes == wire::optional_bytes(o),
        b == before + bytes + behind,
        i == before.len(),
    ensures
        parse_optional(b, i) == Ok::<(Option<Seq<char>>, int), KeyFault>((o, i + bytes.len())),
{
    assert(b[i] == bytes[0]);
    if let Some(t) = o {
        let x = wire::text_bytes(t);
        assert(b =~= before.push(1u8) + x + behind);
        lemma_text_is_read(b, before.push(1u8), t, x, behind, i + 1);
    }
}

/// Five parts and a rest may be grouped around any of the parts.
proof fn lemma_grouping(
    p1: Seq<u8>,
    p2: Seq<u8>,
    p3: Seq<u8>,
    p4: Seq<u8>,
    p5: Seq<u8>,
    rest: Seq<u8>,
)
    ensures
        ({
            let b = p1 + p2 + p3 + p4 + p5 + rest;
            &&& b == Seq::<u8>::empty() + p1 + (p2 + p3 + p4 + p5 + rest)
            &&& b == p1 + p2 + (p3 + p4 + p5 + rest)
            &&& b == p1 + p2 + p3 + (p4 + p5 + rest)
            &&& b == p1 + p2 + p3 + p4 + (p5 + rest)
        }),
{
    let b = p1 + p2 + p3 + p4 + p5 + rest;
    assert(b =~= Seq::<u8>::empty() + p1 + (p2 + p3 + p4 + p5 + rest));
    assert(b =~= p1 + p2 + (p3 + p4 + p5 + rest));
    assert(b =~= p1 + p2 + p3 + (p4 + p5 + rest));
    assert(b =~= p1 + p2 + p3 + p4 + (p5 + rest));
}

/// A key is read where its five fields are read.
proof fn lemma_fields_make_key(b: Seq<u8>, k: KeyView, i2: int, i3: int, i4: int, i5: int, i6: int)
    requires
        parse_text(b, 0) == Ok::<(Seq<char>, int), KeyFault>((k.package, i2)),
        parse_text(b, i2) == Ok::<(Seq<char>, int), KeyFault>((k.name, i3)),
        parse_optional(b, i3) == Ok::<(Option<Seq<char>>, int), KeyFault>((k.configuration, i4)),
        parse_optional(b, i4) == Ok::<(Option<Seq<char>>, int), KeyFault>((k.exec_platform, i5)),
        parse_optional(b, i5) == Ok::<(Option<Seq<char>>, int), KeyFault>((k.rule_transition, i6)),
    ensures
        parse_key(b) == Ok::<KeyView, KeyFault>(k),
{
}

/// The five fields of a key are read from the parts in which they were written.
proof fn lemma_parts_are_read(
    k: KeyView,
    p1: Seq<u8>,
    p2: Seq<u8>,
    p3: Seq<u8>,
    p4: Seq<u8>,
    p5: Seq<u8>,
    behind: Seq<u8>,
)
    requires
        key_fits(k),
        p1 == wire::text_bytes(k.package),
        p2 == wire::text_bytes(k.name),
        p3 == wire::optional_bytes(k.configuration),
        p4 == wire::optional_bytes(k.exec_platform),
        p5 == wire::optional_bytes(k.rule_transition),
    ensures
        parse_key(p1 + p2 + p3 + p4 + p5 + behind) == Ok::<KeyView, KeyFault>(k),
{
    let b = p1 + p2 + p3 + p4 + p5 + behind;
    let i2 = p1.len() as int;
    let i3 = i2 + p2.len();
    let i4 = i3 + p3.len();
    let i5 = i4 + p4.len();
    let i6 = i5 + p5.len();
    lemma_grouping(p1, p2, p3, p4, p5, behind);
    lemma_text_is_read(b, Seq::empty(), k.package, p1, p2 + p3 + p4 + p5 + behind, 0);
    lemma_text_is_read(b, p1, k.name, p2, p3 + p4 + p5 + behind, i2);
    lemma_optional_is_read(b, p1 + p2, k.configuration, p3, p4 + p5 + behind, i3);
    lemma_optional_is_read(b, p1 + p2 + p3, k.exec_platform, p4, p5 + behind, i4);
    lemma_optional_is_read(b, p1 + p2 + p3 + p4, k.rule_transition, p5, behind, i5);
    lemma_fields_make_key(b, k, i2, i3, i4, i5, i6);
}

/// Reading undoes writing: the bytes of a key, whatever follows them, are read back as that key.
pub proof fn law_decode_undoes_encode(k: KeyView, behind: Seq<u8>)
    requires
        key_fits(k),
    ensures
        decoded(key_bytes(k) + behind) == Ok::<KeyView, ErrorView>(k),
{
    lemma_parts_are_read(
        k,
        wire::text_bytes(k.package),
        wire::text_bytes(k.name),
        wire::optional_bytes(k.configuration),
        wire::optional_bytes(k.exec_platform),
        wire::optional_bytes(k.rule_transition),
        behind,
    );
}

/// Distinct keys have distinct bytes: every field, each analysis dimension among them, is part of
/// the identity.
pub proof fn law_bytes_tell_keys_apart(a: KeyView, b: KeyView)
    requires
        key_fits(a),
        key_fits(b),
        a != b,
    ensures
        key_bytes(a) != key_bytes(b),
{
    law_decode_undoes_encode(a, Seq::empty());
    law_decode_undoes_encode(b, Seq::empty());
    assert(key_bytes(a) + Seq::empty() =~= key_bytes(a));
    assert(key_bytes(b) + Seq::empty() =~= key_bytes(b));
}

/// A text that was read stands there in the form in which it is written.
proof fn lemma_read_text_was_written(b: Seq<u8>, i: int)
    requires
        0 <= i,
        parse_text(b, i) is Ok,
    ensures
        ({
            let (t, j) = parse_text(b, i)->Ok_0;
            i <= j <= b.len() && b.subrange(i, j) == wire::text_bytes(t) && wire::text_fits(t)
        }),
{
    let (t, j) = parse_text(b, i)->Ok_0;
    wire::lemma_be32_of_value(b.subrange(i, i + 4));
    utf8::decode_utf8_encode_utf8(b.subrange(i + 4, j));
    assert(b.subrange(i, j) =~= b.subrange(i, i + 4) + b.subrange(i + 4, j));
}

/// An optional text that was read stands there in the form in which it is written.
proof fn lemma_read_optional_was_written(b: Seq<u8>, i: int)
    requires
        0 <= i,
        parse_optional(b, i) is Ok,
    ensures
        ({
            let (o, j) = parse_optional(b, i)->Ok_0;
            i <= j <= b.len() && b.subrange(i, j) == wire::optional_bytes(o)
                && wire::optional_fits(o)
        }),
{
    let (o, j) = parse_optional(b, i)->Ok_0;
    if let Some(t) = o {
        lemma_read_text_was_written(b, i + 1);
    }
    assert(b.subrange(i, j) =~= wire::optional_bytes(o));
}

/// Five ranges that follow one another make up the range from the first to the last.
proof fn lemma_ranges(b: Seq<u8>, i1: int, i2: int, i3: int, i4: int, i5: int)
    requires
        0 <= i1 <= i2 <= i3 <= i4 <= i5 <= b.len(),
    ensures
        b.subrange(0, i1) + b.subrange(i1, i2) + b.subrange(i2, i3) + b.subrange(i3, i4)
            + b.subrange(i4, i5) == b.subrange(0, i5),
{
    assert(b.subrange(0, i1) + b.subrange(i1, i2) + b.subrange(i2, i3) + b.subrange(i3, i4)
        + b.subrange(i4, i5) =~= b.subrange(0, i5));
}

/// There is one form of a key: bytes that are read as a key begin with the bytes of that key.
pub proof fn law_encode_undoes_decode(b: Seq<u8>)
    requires
        parse_key(b) is Ok,
    ensures
        key_bytes(parse_key(b)->Ok_0).is_prefix_of(b),
        key_fits(parse_key(b)->Ok_0),
{
    let k = parse_key(b)->Ok_0;
    let i1 = parse_text(b, 0)->Ok_0.1;
    let i2 = parse_text(b, i1)->Ok_0.1;
    let i3 = parse_optional(b, i2)->Ok_0.1;
    let i4 = parse_optional(b, i3)->Ok_0.1;
    let i5 = parse_optional(b, i4)->Ok_0.1;
    lemma_read_text_was_written(b, 0);
    lemma_read_text_was_written(b, i1);
    lemma_read_optional_was_written(b, i2);
    lemma_read_optional_was_written(b, i3);
    lemma_read_optional_was_written(b, i4);
    lemma_ranges(b, i1, i2, i3, i4, i5);
    assert(key_bytes(k) == b.subrange(0, i5));
}

// ---- Laws of the layout and of malformed bytes ----

/// The bytes of a key are those of its fields, in order.
pub proof fn law_fields_follow_each_other(k: KeyView)
    ensures
        key_bytes(k) == wire::text_bytes(k.package) + (wire::text_bytes(k.name) + (
        wire::optional_bytes(k.configuration) + (wire::optional_bytes(k.exec_platform)
            + wire::optional_bytes(k.rule_transition)))),
        target_node(k).bytes == key_bytes(k),
        target_node(k).kind == 40,
{
    let (p1, p2) = (wire::text_bytes(k.package), wire::text_bytes(k.name));
    let p3 = wire::optional_bytes(k.configuration);
    let p4 = wire::optional_bytes(k.exec_platform);
    let p5 = wire::optional_bytes(k.rule_transition);
    assert(p1 + p2 + p3 + p4 + p5 =~= p1 + (p2 + (p3 + (p4 + p5))));
}

/// A text is read from the first bytes as it is from all of them, or the first bytes end too soon.
proof fn lemma_text_of_prefix(b: Seq<u8>, i: int, n: int)
    requires
        0 <= i <= n <= b.len(),
        parse_text(b, i) is Ok,
    ensures
        ({
            let (t, j) = parse_text(b, i)->Ok_0;
            &&& i < j <= b.len()
            &&& j <= n ==> parse_text(b.take(n), i) == parse_text(b, i)
            &&& n < j ==> parse_text(b.take(n), i) == Err::<(Seq<char>, int), KeyFault>(
                KeyFault::Truncated,
            )
        }),
{
    let c = b.take(n);
    if i + 4 <= n {
        assert(c.subrange(i, i + 4) =~= b.subrange(i, i + 4));
        let len = wire::be32_value(b.subrange(i, i + 4));
        if i + 4 + len <= n {
            assert(c.subrange(i + 4, i + 4 + len) =~= b.subrange(i + 4, i + 4 + len));
        }
    }
}

/// An optional text is read from the first bytes as it is from all of them, or the first bytes end
/// too soon.
proof fn lemma_optional_of_prefix(b: Seq<u8>, i: int, n: int)
    requires
        0 <= i <= n <= b.len(),
        parse_optional(b, i) is Ok,
    ensures
        ({
            let (t, j) = parse_optional(b, i)->Ok_0;
            &&& i < j <= b.len()
            &&& j <= n ==> parse_optional(b.take(n), i) == parse_optional(b, i)
            &&& n < j ==> parse_optional(b.take(n), i) == Err::<(Option<Seq<char>>, int), KeyFault>(
                KeyFault::Truncated,
            )
        }),
{
    if i < n {
        assert(b.take(n)[i] == b[i]);
        if b[i] == 1 {
            lemma_text_of_prefix(b, i + 1, n);
        }
    }
}

/// The first bytes of a key end too soon, where they end before its last field does.
proof fn lemma_key_of_prefix(b: Seq<u8>, i2: int, i3: int, i4: int, i5: int, i6: int, n: int)
    requires
        parse_text(b, 0) matches Ok((_, j)) && j == i2,
        parse_text(b, i2) matches Ok((_, j)) && j == i3,
        parse_optional(b, i3) matches Ok((_, j)) && j == i4,
        parse_optional(b, i4) matches Ok((_, j)) && j == i5,
        parse_optional(b, i5) matches Ok((_, j)) && j == i6,
        0 <= n < i6,
        n <= b.len(),
    ensures
        parse_key(b.take(n)) == Err::<KeyView, KeyFault>(KeyFault::Truncated),
{
    lemma_text_of_prefix(b, 0, n);
    if i2 <= n {
        lemma_text_of_prefix(b, i2, n);
        if i3 <= n {
            lemma_optional_of_prefix(b, i3, n);
            if i4 <= n {
                lemma_optional_of_prefix(b, i4, n);
                if i5 <= n {
                    lemma_optional_of_prefix(b, i5, n);
                }
            }
        }
    }
}

/// Parts that end too soon, where they end inside the fields of a key.
#[verifier::rlimit(30)]
proof fn lemma_parts_of_prefix(
    k: KeyView,
    p1: Seq<u8>,
    p2: Seq<u8>,
    p3: Seq<u8>,
    p4: Seq<u8>,
    p5: Seq<u8>,
    n: int,
)
    requires
        key_fits(k),
        p1 == wire::text_bytes(k.package),
        p2 == wire::text_bytes(k.name),
        p3 == wire::optional_bytes(k.configuration),
        p4 == wire::optional_bytes(k.exec_platform),
        p5 == wire::optional_bytes(k.rule_transition),
        0 <= n < (p1 + p2 + p3 + p4 + p5).len(),
    ensures
        parse_key((p1 + p2 + p3 + p4 + p5).take(n)) == Err::<KeyView, KeyFault>(
            KeyFault::Truncated,
        ),
{
    let none = Seq::<u8>::empty();
    let b = p1 + p2 + p3 + p4 + p5 + none;
    assert(b =~= p1 + p2 + p3 + p4 + p5);
    let i2 = p1.len() as int;
    let i3 = i2 + p2.len();
    let i4 = i3 + p3.len();
    let i5 = i4 + p4.len();
    let i6 = i5 + p5.len();
    lemma_grouping(p1, p2, p3, p4, p5, none);
    lemma_text_is_read(b, none, k.package, p1, p2 + p3 + p4 + p5 + none, 0);
    lemma_text_is_read(b, p1, k.name, p2, p3 + p4 + p5 + none, i2);
    lemma_optional_is_read(b, p1 + p2, k.configuration, p3, p4 + p5 + none, i3);
    lemma_optional_is_read(b, p1 + p2 + p3, k.exec_platform, p4, p5 + none, i4);
    lemma_optional_is_read(b, p1 + p2 + p3 + p4, k.rule_transition, p5, none, i5);
    lemma_key_of_prefix(b, i2, i3, i4, i5, i6, n);
}

/// Bytes that end inside a key are truncated, wherever they end.
pub proof fn law_cut_keys_are_truncated(k: KeyView, n: int)
    requires
        key_fits(k),
        0 <= n < key_bytes(k).len(),
    ensures
        decoded(key_bytes(k).take(n)) == Err::<KeyView, ErrorView>(
            ErrorView::Invalid { what: "CONFIGURED_TARGET key"@, detail: "truncated"@ },
        ),
{
    lemma_parts_of_prefix(
        k,
        wire::text_bytes(k.package),
        wire::text_bytes(k.name),
        wire::optional_bytes(k.configuration),
        wire::optional_bytes(k.exec_platform),
        wire::optional_bytes(k.rule_transition),
        n,
    );
}

/// A bad tag behind the name.
#[verifier::rlimit(30)]
proof fn lemma_bad_third(k: KeyView, p1: Seq<u8>, p2: Seq<u8>, tag: u8, behind: Seq<u8>)
    requires
        key_fits(k),
        tag > 1,
        p1 == wire::text_bytes(k.package),
        p2 == wire::text_bytes(k.name),
    ensures
        parse_key(p1 + p2 + seq![tag] + behind) == Err::<KeyView, KeyFault>(KeyFault::BadTag(tag)),
{
    let t = seq![tag];
    let b = p1 + p2 + t + behind;
    let i2 = p1.len() as int;
    assert(b =~= Seq::<u8>::empty() + p1 + (p2 + t + behind));
    assert(b =~= p1 + p2 + (t + behind));
    lemma_text_is_read(b, Seq::empty(), k.package, p1, p2 + t + behind, 0);
    lemma_text_is_read(b, p1, k.name, p2, t + behind, i2);
    assert(b[i2 + p2.len()] == tag);
}

/// A bad tag behind the configuration.
#[verifier::rlimit(30)]
proof fn lemma_bad_fourth(
    k: KeyView,
    p1: Seq<u8>,
    p2: Seq<u8>,
    p3: Seq<u8>,
    tag: u8,
    behind: Seq<u8>,
)
    requires
        key_fits(k),
        tag > 1,
        p1 == wire::text_bytes(k.package),
        p2 == wire::text_bytes(k.name),
        p3 == wire::optional_bytes(k.configuration),
    ensures
        parse_key(p1 + p2 + p3 + seq![tag] + behind) == Err::<KeyView, KeyFault>(
            KeyFault::BadTag(tag),
        ),
{
    let t = seq![tag];
    let b = p1 + p2 + p3 + t + behind;
    let i2 = p1.len() as int;
    let i3 = i2 + p2.len();
    assert(b =~= Seq::<u8>::empty() + p1 + (p2 + p3 + t + behind));
    assert(b =~= p1 + p2 + (p3 + t + behind));
    assert(b =~= p1 + p2 + p3 + (t + behind));
    lemma_text_is_read(b, Seq::empty(), k.package, p1, p2 + p3 + t + behind, 0);
    lemma_text_is_read(b, p1, k.name, p2, p3 + t + behind, i2);
    lemma_optional_is_read(b, p1 + p2, k.configuration, p3, t + behind, i3);
    assert(b[i3 + p3.len()] == tag);
}

/// A bad tag behind the execution platform.
#[verifier::rlimit(30)]
proof fn lemma_bad_fifth(
    k: KeyView,
    p1: Seq<u8>,
    p2: Seq<u8>,
    p3: Seq<u8>,
    p4: Seq<u8>,
    tag: u8,
    behind: Seq<u8>,
)
    requires
        key_fits(k),
        tag > 1,
        p1 == wire::text_bytes(k.package),
        p2 == wire::text_bytes(k.name),
        p3 == wire::optional_bytes(k.configuration),
        p4 == wire::optional_bytes(k.exec_platform),
    ensures
        parse_key(p1 + p2 + p3 + p4 + seq![tag] + behind) == Err::<KeyView, KeyFault>(
            KeyFault::BadTag(tag),
        ),
{
    let t = seq![tag];
    let b = p1 + p2 + p3 + p4 + t + behind;
    let i2 = p1.len() as int;
    let i3 = i2 + p2.len();
    let i4 = i3 + p3.len();
    lemma_grouping(p1, p2, p3, p4, t, behind);
    lemma_text_is_read(b, Seq::empty(), k.package, p1, p2 + p3 + p4 + t + behind, 0);
    lemma_text_is_read(b, p1, k.name, p2, p3 + p4 + t + behind, i2);
    lemma_optional_is_read(b, p1 + p2, k.configuration, p3, p4 + t + behind, i3);
    lemma_optional_is_read(b, p1 + p2 + p3, k.exec_platform, p4, t + behind, i4);
    lemma_tag_at(p1 + p2 + p3 + p4, tag, behind);
    lemma_last_field_fails(b, i2, i3, i4, i4 + p4.len(), tag);
}

/// A tag stands behind what was put in front of it.
proof fn lemma_tag_at(p: Seq<u8>, tag: u8, behind: Seq<u8>)
    ensures
        (p + seq![tag] + behind)[p.len() as int] == tag,
        (p + seq![tag] + behind).len() > p.len(),
{
}

/// A bad tag in the place of the last field is the fault of the key.
proof fn lemma_last_field_fails(b: Seq<u8>, i2: int, i3: int, i4: int, i5: int, tag: u8)
    requires
        tag > 1,
        parse_text(b, 0) matches Ok((_, j)) && j == i2,
        parse_text(b, i2) matches Ok((_, j)) && j == i3,
        parse_optional(b, i3) matches Ok((_, j)) && j == i4,
        parse_optional(b, i4) matches Ok((_, j)) && j == i5,
        0 <= i5 < b.len(),
        b[i5] == tag,
    ensures
        parse_key(b) == Err::<KeyView, KeyFault>(KeyFault::BadTag(tag)),
{
}

/// A byte in the place of a tag that is neither zero nor one is named in the failure.
pub proof fn law_bad_tags_are_named(k: KeyView, tag: u8, behind: Seq<u8>)
    requires
        key_fits(k),
        tag > 1,
    ensures
        ({
            let p2 = wire::text_bytes(k.package) + wire::text_bytes(k.name);
            let p3 = p2 + wire::optional_bytes(k.configuration);
            let p4 = p3 + wire::optional_bytes(k.exec_platform);
            let failure = Err::<KeyView, ErrorView>(
                ErrorView::Invalid {
                    what: "CONFIGURED_TARGET key"@,
                    detail: "bad option tag "@ + text::decimal(tag as nat),
                },
            );
            &&& decoded(p2 + seq![tag] + behind) == failure
            &&& decoded(p3 + seq![tag] + behind) == failure
            &&& decoded(p4 + seq![tag] + behind) == failure
        }),
{
    let (p1, p2) = (wire::text_bytes(k.package), wire::text_bytes(k.name));
    let (p3, p4) = (
        wire::optional_bytes(k.configuration),
        wire::optional_bytes(k.exec_platform),
    );
    lemma_bad_third(k, p1, p2, tag, behind);
    lemma_bad_fourth(k, p1, p2, p3, tag, behind);
    lemma_bad_fifth(k, p1, p2, p3, p4, tag, behind);
}

/// Bytes that are no text in the place of the package or of the name are refused as such.
pub proof fn law_texts_have_to_be_utf8(package: Seq<char>, raw: Seq<u8>, behind: Seq<u8>)
    requires
        wire::text_fits(package),
        raw.len() < 0x1_0000_0000,
        !utf8::valid_utf8(raw),
    ensures
        ({
            let failure = Err::<KeyView, ErrorView>(
                ErrorView::Invalid { what: "CONFIGURED_TARGET key"@, detail: "non-utf8"@ },
            );
            &&& decoded(wire::be32(raw.len()) + raw + behind) == failure
            &&& decoded(wire::text_bytes(package) + wire::be32(raw.len()) + raw + behind) == failure
        }),
{
    let n = wire::be32(raw.len());
    wire::lemma_be32_value(raw.len());
    let b = n + raw + behind;
    assert(b.subrange(0, 4) =~= n);
    assert(b.subrange(4, 4 + raw.len() as int) =~= raw);
    let p = wire::text_bytes(package);
    let i = p.len() as int;
    let c = p + n + raw + behind;
    assert(c =~= Seq::<u8>::empty() + p + (n + raw + behind));
    lemma_text_is_read(c, Seq::empty(), package, p, n + raw + behind, 0);
    assert(c.subrange(i, i + 4) =~= n);
    assert(c.subrange(i + 4, i + 4 + raw.len()) =~= raw);
}

/// A key that was read is the one that the bytes begin with, and any failure is one of a malformed
/// key.
pub proof fn law_decoding_fails_closed(b: Seq<u8>)
    ensures
        decoded(b) matches Ok(k) ==> key_fits(k) && key_bytes(k).is_prefix_of(b),
        decoded(b) matches Err(e) ==> (e matches ErrorView::Invalid { what, .. } && what
            == "CONFIGURED_TARGET key"@) && forall|k: KeyView|
            #![trigger key_bytes(k)]
            key_fits(k) ==> !key_bytes(k).is_prefix_of(b),
{
    if decoded(b) is Ok {
        law_encode_undoes_decode(b);
    } else {
        assert forall|k: KeyView|
            #![trigger key_bytes(k)]
            key_fits(k) implies !key_bytes(k).is_prefix_of(b) by {
            if key_bytes(k).is_prefix_of(b) {
                lemma_begun_keys_are_read(k, key_bytes(k), b);
            }
        }
    }
}

/// Bytes that begin with those of a key are read as that key.
proof fn lemma_begun_keys_are_read(k: KeyView, p: Seq<u8>, b: Seq<u8>)
    requires
        key_fits(k),
        p == key_bytes(k),
        p.is_prefix_of(b),
    ensures
        decoded(b) is Ok,
{
    let rest = b.skip(p.len() as int);
    assert(p + rest =~= b);
    law_decode_undoes_encode(k, rest);
}

/// The model of a key tells all five of its fields, and that of a node its kind and its bytes.
pub proof fn law_models_tell_the_whole_key(k: ConfiguredTargetKey, n: NodeKey)
    ensures
        k@.package == k.package@,
        k@.name == k.name@,
        k@.configuration == text::optional(k.configuration),
        k@.exec_platform == text::optional(k.exec_platform),
        k@.rule_transition == text::optional(k.rule_transition),
        n@.kind == n.kind,
        n@.bytes == n.bytes@,
{
}

/// A key names a node of one kind, whose bytes are those that it is encoded to; from these it is read
/// back.
pub proof fn law_keys_are_read_back(
    k: ConfiguredTargetKey,
    kind: KindId,
    encoded: Vec<u8>,
    n: NodeKey,
    bytes: &[u8],
    r: Result<ConfiguredTargetKey, Error>,
)
    ensures
        call_ensures(ConfiguredTargetKey::kind, (&k,), kind) ==> kind == 40,
        call_ensures(NodeKey::from_key, (&k,), n) ==> n.kind == 40,
        call_ensures(NodeKey::from_key, (&k,), n) && call_ensures(
            ConfiguredTargetKey::encode,
            (&k,),
            encoded,
        ) ==> n.bytes@ == encoded@,
        call_ensures(NodeKey::canonical, (&n,), bytes) ==> bytes@ == n.bytes@,
        key_fits(k@) && call_ensures(ConfiguredTargetKey::encode, (&k,), encoded) && bytes@
            == encoded@ && call_ensures(decode_ct_key, (bytes,), r) ==> (r matches Ok(x) && x@
            == k@),
{
    if key_fits(k@) {
        law_decode_undoes_encode(k@, Seq::empty());
        assert(key_bytes(k@) + Seq::empty() =~= key_bytes(k@));
    }
}

} // verus!
