//! The bytes that the content digest of a configured target is taken of.

use vstd::prelude::*;
use crate::decl::{ActionTemplate, ActionView};
use crate::key;
use crate::target::{ConfiguredTarget, DepOutput, DepOutputView, TargetView};
use crate::wire::{self, enc_raw, enc_str, enc_strs, enc_u32, enc_u64};
use crate::{seqs, value};

verus! {

broadcast use wire::lemma_be32_len;

/// The bytes of an entry of an action's environment.
pub open spec fn env_bytes(e: (Seq<char>, Seq<char>)) -> Seq<u8> {
    wire::text_bytes(e.0) + wire::text_bytes(e.1)
}

/// The bytes of an action.
pub open spec fn action_bytes(a: ActionView) -> Seq<u8> {
    wire::text_bytes(a.mnemonic) + wire::texts_bytes(a.argv) + wire::texts_bytes(a.inputs)
        + wire::texts_bytes(a.outputs) + wire::list_bytes(
        a.env,
        |e: (Seq<char>, Seq<char>)| env_bytes(e),
    )
}

/// The bytes of an entry of the map of dependency outputs.
pub open spec fn dep_output_bytes(d: DepOutputView) -> Seq<u8> {
    let producer = key::key_bytes(d.producer_ct);
    wire::text_bytes(d.exec_path) + wire::be64(producer.len()) + producer + wire::be32(
        d.action_index as nat,
    )
}

/// The bytes of the providers, each given by its own encoding: their number, then the encodings.
pub open spec fn providers_bytes(encoded: Seq<Seq<u8>>) -> Seq<u8> {
    wire::list_bytes(encoded, |p: Seq<u8>| p)
}

/// The bytes of a configured target whose providers have the given encodings: four lists, each
/// behind its count.
pub open spec fn content_bytes(encoded: Seq<Seq<u8>>, t: TargetView) -> Seq<u8> {
    providers_bytes(encoded) + wire::list_bytes(t.actions, |a: ActionView| action_bytes(a))
        + wire::list_bytes(t.dep_outputs, |d: DepOutputView| dep_output_bytes(d))
        + wire::texts_bytes(t.visibility)
}

/// The models of encodings.
pub open spec fn encodings(encoded: Seq<Vec<u8>>) -> Seq<Seq<u8>> {
    encoded.map_values(|p: Vec<u8>| p@)
}

/// One more item behind the others.
proof fn lemma_one_more<A>(head: Seq<u8>, all: Seq<A>, f: spec_fn(A) -> Seq<u8>, i: int)
    requires
        0 <= i < all.len(),
    ensures
        head + wire::each_bytes(all.take(i), f) + f(all[i]) == head + wire::each_bytes(
            all.take(i + 1),
            f,
        ),
{
    assert(all.take(i + 1).drop_last() =~= all.take(i));
    assert(head + wire::each_bytes(all.take(i), f) + f(all[i]) =~= head + wire::each_bytes(
        all.take(i + 1),
        f,
    ));
}

/// No item behind a head.
proof fn lemma_none_yet<A>(head: Seq<u8>, all: Seq<A>, f: spec_fn(A) -> Seq<u8>)
    ensures
        head + wire::each_bytes(all.take(0), f) == head,
{
    assert(head + wire::each_bytes(all.take(0), f) =~= head);
}

/// A count and all items make up the list.
proof fn lemma_all_there<A>(before: Seq<u8>, all: Seq<A>, f: spec_fn(A) -> Seq<u8>)
    ensures
        before + wire::be64(all.len()) + wire::each_bytes(all.take(all.len() as int), f) == before
            + wire::list_bytes(all, f),
{
    assert(all.take(all.len() as int) =~= all);
    assert(before + wire::be64(all.len()) + wire::each_bytes(all, f) =~= before + wire::list_bytes(
        all,
        f,
    ));
}

/// The bytes of the providers with the given encodings.
pub fn encode_providers(encoded: &Vec<Vec<u8>>) -> (r: Vec<u8>)
    ensures
        r@ == providers_bytes(encodings(encoded@)),
{
    let ghost f = |p: Seq<u8>| p;
    let ghost all = encodings(encoded@);
    let mut b: Vec<u8> = Vec::new();
    let ghost before = b@;
    enc_u64(&mut b, encoded.len() as u64);
    let ghost head = b@;
    proof {
        lemma_none_yet(head, all, f);
    }
    for i in 0..encoded.len()
        invariant
            all == encodings(encoded@),
            f == (|p: Seq<u8>| p),
            b@ == head + wire::each_bytes(all.take(i as int), f),
    {
        enc_raw(&mut b, &encoded[i]);
        proof {
            lemma_one_more(head, all, f, i as int);
        }
    }
    proof {
        lemma_all_there(before, all, f);
        assert(before + wire::list_bytes(all, f) =~= wire::list_bytes(all, f));
    }
    b
}

/// Appends an action to `b`.
fn enc_action(b: &mut Vec<u8>, a: &ActionTemplate)
    ensures
        final(b)@ == old(b)@ + action_bytes(a@),
{
    enc_str(b, &a.mnemonic);
    enc_strs(b, &a.argv);
    enc_strs(b, &a.inputs);
    enc_strs(b, &a.outputs);
    let ghost before = b@;
    let ghost f = |e: (Seq<char>, Seq<char>)| env_bytes(e);
    let ghost all = value::text_pairs(a.env@);
    enc_u64(b, a.env.len() as u64);
    let ghost head = b@;
    proof {
        lemma_none_yet(head, all, f);
    }
    for i in 0..a.env.len()
        invariant
            all == value::text_pairs(a.env@),
            f == (|e: (Seq<char>, Seq<char>)| env_bytes(e)),
            b@ == head + wire::each_bytes(all.take(i as int), f),
    {
        let ghost here = b@;
        enc_str(b, &a.env[i].0);
        enc_str(b, &a.env[i].1);
        proof {
            assert(b@ =~= here + env_bytes(all[i as int]));
            lemma_one_more(head, all, f, i as int);
        }
    }
    proof {
        lemma_all_there(before, all, f);
        assert(b@ =~= old(b)@ + action_bytes(a@));
    }
}

/// Appends an entry of the map of dependency outputs to `b`.
fn enc_dep_output(b: &mut Vec<u8>, d: &DepOutput)
    ensures
        final(b)@ == old(b)@ + dep_output_bytes(d@),
{
    enc_str(b, &d.exec_path);
    let producer = d.producer_ct.encode();
    enc_u64(b, producer.len() as u64);
    enc_raw(b, &producer);
    enc_u32(b, d.action_index);
    assert(b@ =~= old(b)@ + dep_output_bytes(d@));
}

impl ConfiguredTarget {
    /// The bytes that the content digest is taken of. `encoded` holds the encodings of the
    /// providers.
    pub fn content_bytes(&self, encoded: &Vec<Vec<u8>>) -> (r: Vec<u8>)
        ensures
            r@ == content_bytes(encodings(encoded@), self@),
    {
        let mut b = encode_providers(encoded);
        let ghost b1 = b@;
        let ghost f = |a: ActionView| action_bytes(a);
        let ghost actions = self@.actions;
        enc_u64(&mut b, self.actions.len() as u64);
        let ghost head = b@;
        proof {
            lemma_none_yet(head, actions, f);
        }
        for i in 0..self.actions.len()
            invariant
                actions == seqs::views(self.actions@),
                f == (|a: ActionView| action_bytes(a)),
                b@ == head + wire::each_bytes(actions.take(i as int), f),
        {
            enc_action(&mut b, &self.actions[i]);
            proof {
                lemma_one_more(head, actions, f, i as int);
            }
        }
        proof {
            lemma_all_there(b1, actions, f);
        }
        let ghost b2 = b@;
        let ghost g = |d: DepOutputView| dep_output_bytes(d);
        let ghost outputs = self@.dep_outputs;
        enc_u64(&mut b, self.dep_outputs.len() as u64);
        let ghost head = b@;
        proof {
            lemma_none_yet(head, outputs, g);
        }
        for i in 0..self.dep_outputs.len()
            invariant
                outputs == seqs::views(self.dep_outputs@),
                g == (|d: DepOutputView| dep_output_bytes(d)),
                b@ == head + wire::each_bytes(outputs.take(i as int), g),
        {
            enc_dep_output(&mut b, &self.dep_outputs[i]);
            proof {
                lemma_one_more(head, outputs, g, i as int);
            }
        }
        proof {
            lemma_all_there(b2, outputs, g);
        }
        enc_strs(&mut b, &self.visibility);
        b
    }
}

// ---- The law of the layout ----

/// Whether the lengths in the bytes of an action fit.
pub open spec fn action_fits(a: ActionView) -> bool {
    &&& wire::text_fits(a.mnemonic)
    &&& wire::texts_fit(a.argv)
    &&& wire::texts_fit(a.inputs)
    &&& wire::texts_fit(a.outputs)
    &&& a.env.len() < 0x1_0000_0000_0000_0000
    &&& forall|i: int|
        0 <= i < a.env.len() ==> wire::text_fits((#[trigger] a.env[i]).0) && wire::text_fits(
            a.env[i].1,
        )
}

/// Whether the lengths in the bytes of an entry of the map of dependency outputs fit.
pub open spec fn dep_output_fits(d: DepOutputView) -> bool {
    &&& wire::text_fits(d.exec_path)
    &&& key::key_fits(d.producer_ct)
    &&& key::key_bytes(d.producer_ct).len() < 0x1_0000_0000_0000_0000
}

/// Whether the lengths in the bytes of a configured target fit.
pub open spec fn target_fits(t: TargetView) -> bool {
    &&& t.actions.len() < 0x1_0000_0000_0000_0000
    &&& forall|i: int| 0 <= i < t.actions.len() ==> action_fits(#[trigger] t.actions[i])
    &&& t.dep_outputs.len() < 0x1_0000_0000_0000_0000
    &&& forall|i: int|
        0 <= i < t.dep_outputs.len() ==> dep_output_fits(#[trigger] t.dep_outputs[i])
    &&& wire::texts_fit(t.visibility)
}

/// Whether no encoding among two lists is the beginning of another.
pub open spec fn prefix_free(p: Seq<Seq<u8>>, q: Seq<Seq<u8>>) -> bool {
    forall|x: Seq<u8>, y: Seq<u8>|
        (p.contains(x) || q.contains(x)) && (p.contains(y) || q.contains(y))
            && #[trigger] x.is_prefix_of(y) ==> x == y
}

/// An action delimits itself.
proof fn lemma_action_delimits(a: ActionView, b: ActionView, s: Seq<u8>, t: Seq<u8>)
    requires
        action_fits(a),
        action_fits(b),
        action_bytes(a) + s == action_bytes(b) + t,
    ensures
        a == b,
        s == t,
{
    let f = |e: (Seq<char>, Seq<char>)| env_bytes(e);
    let ok = |e: (Seq<char>, Seq<char>)| wire::text_fits(e.0) && wire::text_fits(e.1);
    let (a1, b1) = (wire::text_bytes(a.mnemonic), wire::text_bytes(b.mnemonic));
    let (a2, b2) = (wire::texts_bytes(a.argv), wire::texts_bytes(b.argv));
    let (a3, b3) = (wire::texts_bytes(a.inputs), wire::texts_bytes(b.inputs));
    let (a4, b4) = (wire::texts_bytes(a.outputs), wire::texts_bytes(b.outputs));
    let (a5, b5) = (wire::list_bytes(a.env, f), wire::list_bytes(b.env, f));
    lemma_nest(a1, a2, a3, a4, a5, s);
    lemma_nest(b1, b2, b3, b4, b5, t);
    wire::lemma_text_delimits(
        a.mnemonic,
        b.mnemonic,
        a2 + (a3 + (a4 + (a5 + s))),
        b2 + (b3 + (b4 + (b5 + t))),
    );
    wire::lemma_texts_delimit(a.argv, b.argv, a3 + (a4 + (a5 + s)), b3 + (b4 + (b5 + t)));
    wire::lemma_texts_delimit(a.inputs, b.inputs, a4 + (a5 + s), b4 + (b5 + t));
    wire::lemma_texts_delimit(a.outputs, b.outputs, a5 + s, b5 + t);
    assert(wire::self_delimiting(f, ok)) by {
        assert forall|x: (Seq<char>, Seq<char>), y: (Seq<char>, Seq<char>), s: Seq<u8>, t: Seq<u8>|
            ok(x) && ok(y) && #[trigger] (f(x) + s) == #[trigger] (f(y) + t) implies x == y && s
            == t by {
            let (x1, y1) = (wire::text_bytes(x.1), wire::text_bytes(y.1));
            assert(f(x) + s =~= wire::text_bytes(x.0) + (x1 + s));
            assert(f(y) + t =~= wire::text_bytes(y.0) + (y1 + t));
            wire::lemma_text_delimits(x.0, y.0, x1 + s, y1 + t);
            wire::lemma_text_delimits(x.1, y.1, s, t);
        }
    }
    wire::lemma_list_delimits(a.env, b.env, s, t, f, ok);
}

/// Five parts and a rest may be grouped from behind.
proof fn lemma_nest(
    p1: Seq<u8>,
    p2: Seq<u8>,
    p3: Seq<u8>,
    p4: Seq<u8>,
    p5: Seq<u8>,
    rest: Seq<u8>,
)
    ensures
        p1 + p2 + p3 + p4 + p5 + rest == p1 + (p2 + (p3 + (p4 + (p5 + rest)))),
{
    assert(p1 + p2 + p3 + p4 + p5 + rest =~= p1 + (p2 + (p3 + (p4 + (p5 + rest)))));
}

/// Four parts and a rest may be grouped from behind.
proof fn lemma_nest_four(p1: Seq<u8>, p2: Seq<u8>, p3: Seq<u8>, p4: Seq<u8>, rest: Seq<u8>)
    ensures
        p1 + p2 + p3 + p4 + rest == p1 + (p2 + (p3 + (p4 + rest))),
{
    assert(p1 + p2 + p3 + p4 + rest =~= p1 + (p2 + (p3 + (p4 + rest))));
}

/// An entry of the map of dependency outputs delimits itself.
proof fn lemma_dep_output_delimits(a: DepOutputView, b: DepOutputView, s: Seq<u8>, t: Seq<u8>)
    requires
        dep_output_fits(a),
        dep_output_fits(b),
        dep_output_bytes(a) + s == dep_output_bytes(b) + t,
    ensures
        a == b,
        s == t,
{
    let (a3, b3) = (key::key_bytes(a.producer_ct), key::key_bytes(b.producer_ct));
    let (a1, b1) = (wire::text_bytes(a.exec_path), wire::text_bytes(b.exec_path));
    let (a2, b2) = (wire::be64(a3.len()), wire::be64(b3.len()));
    let (a4, b4) = (wire::be32(a.action_index as nat), wire::be32(b.action_index as nat));
    lemma_nest_four(a1, a2, a3, a4, s);
    lemma_nest_four(b1, b2, b3, b4, t);
    wire::lemma_text_delimits(
        a.exec_path,
        b.exec_path,
        a2 + (a3 + (a4 + s)),
        b2 + (b3 + (b4 + t)),
    );
    wire::lemma_cut_heads(a2, b2, a3 + (a4 + s), b3 + (b4 + t));
    wire::lemma_be64_injective(a3.len(), b3.len());
    wire::lemma_cut_heads(a3, b3, a4 + s, b4 + t);
    wire::lemma_cut_heads(a4, b4, s, t);
    wire::lemma_be32_value(a.action_index as nat);
    wire::lemma_be32_value(b.action_index as nat);
    if a.producer_ct != b.producer_ct {
        key::law_bytes_tell_keys_apart(a.producer_ct, b.producer_ct);
    }
}

/// Providers whose encodings are prefix free delimit themselves.
proof fn lemma_providers_delimit(p: Seq<Seq<u8>>, q: Seq<Seq<u8>>, s: Seq<u8>, t: Seq<u8>)
    requires
        prefix_free(p, q),
        p.len() < 0x1_0000_0000_0000_0000,
        q.len() < 0x1_0000_0000_0000_0000,
        providers_bytes(p) + s == providers_bytes(q) + t,
    ensures
        p == q,
        s == t,
{
    let f = |x: Seq<u8>| x;
    let ok = |x: Seq<u8>| p.contains(x) || q.contains(x);
    assert(wire::self_delimiting(f, ok)) by {
        assert forall|x: Seq<u8>, y: Seq<u8>, s: Seq<u8>, t: Seq<u8>|
            ok(x) && ok(y) && #[trigger] (f(x) + s) == #[trigger] (f(y) + t) implies x == y && s
            == t by {
            let w = x + s;
            assert(x =~= w.subrange(0, x.len() as int));
            assert(y =~= (y + t).subrange(0, y.len() as int));
            if x.len() <= y.len() {
                assert(x =~= y.subrange(0, x.len() as int));
                assert(x.is_prefix_of(y));
            } else {
                assert(y =~= x.subrange(0, y.len() as int));
                assert(y.is_prefix_of(x));
            }
            wire::lemma_cut_heads(x, y, s, t);
        }
    }
    wire::lemma_list_delimits(p, q, s, t, f, ok);
}

/// The layout leaves nothing open: configured targets with the same bytes have the same provider
/// encodings, actions, dependency outputs and visibility. No part can pass for another, as long as
/// the provider encodings are the same or none of them is the beginning of another.
pub proof fn law_bytes_tell_contents_apart(
    p: Seq<Seq<u8>>,
    a: TargetView,
    q: Seq<Seq<u8>>,
    b: TargetView,
)
    requires
        p == q || prefix_free(p, q),
        p.len() < 0x1_0000_0000_0000_0000,
        q.len() < 0x1_0000_0000_0000_0000,
        target_fits(a),
        target_fits(b),
        content_bytes(p, a) == content_bytes(q, b),
    ensures
        p == q,
        a.actions == b.actions,
        a.dep_outputs == b.dep_outputs,
        a.visibility == b.visibility,
{
    let none = Seq::<u8>::empty();
    let f = |x: ActionView| action_bytes(x);
    let g = |x: DepOutputView| dep_output_bytes(x);
    let (a1, b1) = (providers_bytes(p), providers_bytes(q));
    let (a2, b2) = (wire::list_bytes(a.actions, f), wire::list_bytes(b.actions, f));
    let (a3, b3) = (wire::list_bytes(a.dep_outputs, g), wire::list_bytes(b.dep_outputs, g));
    let (a4, b4) = (wire::texts_bytes(a.visibility), wire::texts_bytes(b.visibility));
    lemma_nest_four(a1, a2, a3, a4, none);
    lemma_nest_four(b1, b2, b3, b4, none);
    if p == q {
        wire::lemma_cut_heads(a1, b1, a2 + (a3 + (a4 + none)), b2 + (b3 + (b4 + none)));
    } else {
        lemma_providers_delimit(p, q, a2 + (a3 + (a4 + none)), b2 + (b3 + (b4 + none)));
    }
    let ok = |x: ActionView| action_fits(x);
    assert(wire::self_delimiting(f, ok)) by {
        assert forall|x: ActionView, y: ActionView, s: Seq<u8>, t: Seq<u8>|
            ok(x) && ok(y) && #[trigger] (f(x) + s) == #[trigger] (f(y) + t) implies x == y && s
            == t by {
            lemma_action_delimits(x, y, s, t);
        }
    }
    wire::lemma_list_delimits(a.actions, b.actions, a3 + (a4 + none), b3 + (b4 + none), f, ok);
    let ok = |x: DepOutputView| dep_output_fits(x);
    assert(wire::self_delimiting(g, ok)) by {
        assert forall|x: DepOutputView, y: DepOutputView, s: Seq<u8>, t: Seq<u8>|
            ok(x) && ok(y) && #[trigger] (g(x) + s) == #[trigger] (g(y) + t) implies x == y && s
            == t by {
            lemma_dep_output_delimits(x, y, s, t);
        }
    }
    wire::lemma_list_delimits(a.dep_outputs, b.dep_outputs, a4 + none, b4 + none, g, ok);
    wire::lemma_texts_delimit(a.visibility, b.visibility, none, none);
}

/// The bytes of a configured target are four lists, one behind the other: the provider encodings, the
/// actions, the dependency outputs and the visibility. An action is its mnemonic and its lists, an
/// output its path, its producer behind the length of its key, and its action.
#[verifier::rlimit(30)]
pub proof fn law_content_parts_follow_each_other(
    encoded: Seq<Seq<u8>>,
    t: TargetView,
    a: ActionView,
    d: DepOutputView,
    e: (Seq<char>, Seq<char>),
)
    ensures
        content_bytes(encoded, t) == wire::list_bytes(encoded, |p: Seq<u8>| p) + (wire::list_bytes(
            t.actions,
            |a: ActionView| action_bytes(a),
        ) + (wire::list_bytes(t.dep_outputs, |d: DepOutputView| dep_output_bytes(d))
            + wire::texts_bytes(t.visibility))),
        action_bytes(a) == wire::text_bytes(a.mnemonic) + (wire::texts_bytes(a.argv) + (
        wire::texts_bytes(a.inputs) + (wire::texts_bytes(a.outputs) + wire::list_bytes(
            a.env,
            |e: (Seq<char>, Seq<char>)| env_bytes(e),
        )))),
        env_bytes(e) == wire::text_bytes(e.0) + wire::text_bytes(e.1),
        dep_output_bytes(d) == wire::text_bytes(d.exec_path) + (wire::be64(
            key::key_bytes(d.producer_ct).len(),
        ) + (key::key_bytes(d.producer_ct) + wire::be32(d.action_index as nat))),
{
    let none = Seq::<u8>::empty();
    let (p1, p2) = (
        providers_bytes(encoded),
        wire::list_bytes(t.actions, |a: ActionView| action_bytes(a)),
    );
    let p3 = wire::list_bytes(t.dep_outputs, |d: DepOutputView| dep_output_bytes(d));
    let p4 = wire::texts_bytes(t.visibility);
    assert(p1 + p2 + p3 + p4 =~= p1 + (p2 + (p3 + p4)));
    let (a1, a2) = (wire::text_bytes(a.mnemonic), wire::texts_bytes(a.argv));
    let (a3, a4) = (wire::texts_bytes(a.inputs), wire::texts_bytes(a.outputs));
    let a5 = wire::list_bytes(a.env, |e: (Seq<char>, Seq<char>)| env_bytes(e));
    assert(a1 + a2 + a3 + a4 + a5 =~= a1 + (a2 + (a3 + (a4 + a5))));
    let k = key::key_bytes(d.producer_ct);
    let (d1, d2) = (wire::text_bytes(d.exec_path), wire::be64(k.len()));
    let d4 = wire::be32(d.action_index as nat);
    assert(d1 + d2 + k + d4 =~= d1 + (d2 + (k + d4)));
}

/// The bytes of the providers are the number of their encodings and the encodings, one behind the
/// other.
pub proof fn law_provider_encodings_follow_each_other(
    encoded: Seq<Vec<u8>>,
    p: Seq<Seq<u8>>,
    x: Seq<u8>,
)
    ensures
        encodings(encoded).len() == encoded.len(),
        forall|i: int| 0 <= i < encoded.len() ==> #[trigger] encodings(encoded)[i] == encoded[i]@,
        providers_bytes(Seq::empty()) == wire::be64(0),
        providers_bytes(p.push(x)).skip(8) == providers_bytes(p).skip(8) + x,
        providers_bytes(p.push(x)).take(8) == wire::be64(p.len() + 1),
{
    let f = |q: Seq<u8>| q;
    wire::law_numbers_are_spelled_big_endian(0);
    wire::law_numbers_are_spelled_big_endian(p.len());
    wire::law_numbers_are_spelled_big_endian(p.len() + 1);
    assert(p.push(x).drop_last() =~= p);
    assert(providers_bytes(p).skip(8) =~= wire::each_bytes(p, f));
    assert(providers_bytes(p.push(x)).skip(8) =~= wire::each_bytes(p.push(x), f));
    assert(providers_bytes(p.push(x)).take(8) =~= wire::be64(p.len() + 1));
    assert(providers_bytes(Seq::empty()) =~= wire::be64(0));
}

} // verus!
