//! Laws of the codec: every value in decoder form has exactly one encoding
//! that decodes to it, and decoding inverts encoding.
use crate::decode::{
    decoded, decodes_to, lemma_enc_entries_append, lemma_enc_first, lemma_enc_items_append,
    lemma_int_text,
};
use crate::text::{is_digit, lemma_value_of_text, nat_text};
use crate::value::{
    bytes_enc, decodable, enc, enc_entries, enc_items, entries_everywhere, int_text,
    items_everywhere, lemma_entries_everywhere, lemma_items_everywhere, BValue, NodeRule,
};
use vstd::prelude::*;
use vstd::utf8::{encode_utf8, encode_utf8_decode_utf8};

verus! {

broadcast use vstd::seq::group_seq_axioms;

/// Two integer encodings that begin two equal byte strings are equal.
proof fn lemma_int_prefix_free(a: int, b: int, r1: Seq<u8>, r2: Seq<u8>)
    requires
        enc(BValue::Int(a)) + r1 == enc(BValue::Int(b)) + r2,
    ensures
        a == b,
        r1 == r2,
{
    lemma_int_text(a);
    lemma_int_text(b);
    let ta = int_text(a);
    let tb = int_text(b);
    let s = enc(BValue::Int(a)) + r1;
    assert forall|i: int| 0 <= i < ta.len() implies s[1 + i] == ta[i] by {}
    assert forall|i: int| 0 <= i < tb.len() implies s[1 + i] == tb[i] by {
        assert(s == enc(BValue::Int(b)) + r2);
    }
    assert(s[1 + ta.len() as int] == 101u8);
    assert((enc(BValue::Int(b)) + r2)[1 + tb.len() as int] == 101u8);
    if ta.len() < tb.len() {
        assert(s[1 + ta.len() as int] == tb[ta.len() as int]);
    } else if tb.len() < ta.len() {
        assert(s[1 + tb.len() as int] == ta[tb.len() as int]);
    }
    assert(ta =~= tb);
    assert(r1 =~= s.subrange(enc(BValue::Int(a)).len() as int, s.len() as int));
    assert(r2 =~= (enc(BValue::Int(b)) + r2).subrange(enc(BValue::Int(b)).len() as int, s.len() as int));
}

/// Two byte-string encodings that begin two equal byte strings are equal.
proof fn lemma_bytes_prefix_free(a: Seq<u8>, b: Seq<u8>, r1: Seq<u8>, r2: Seq<u8>)
    requires
        bytes_enc(a) + r1 == bytes_enc(b) + r2,
    ensures
        a == b,
        r1 == r2,
{
    lemma_value_of_text(a.len());
    lemma_value_of_text(b.len());
    let ta = nat_text(a.len());
    let tb = nat_text(b.len());
    let s = bytes_enc(a) + r1;
    assert forall|i: int| 0 <= i < ta.len() implies s[i] == ta[i] by {}
    assert forall|i: int| 0 <= i < tb.len() implies s[i] == tb[i] by {
        assert(s == bytes_enc(b) + r2);
    }
    assert(s[ta.len() as int] == 58u8);
    assert((bytes_enc(b) + r2)[tb.len() as int] == 58u8);
    if ta.len() < tb.len() {
        assert(s[ta.len() as int] == tb[ta.len() as int]);
        assert(is_digit(tb[ta.len() as int]));
    } else if tb.len() < ta.len() {
        assert(s[tb.len() as int] == ta[tb.len() as int]);
        assert(is_digit(ta[tb.len() as int]));
    }
    assert(ta =~= tb);
    assert(a.len() == b.len());
    assert forall|i: int| 0 <= i < a.len() implies a[i] == b[i] by {
        assert(s[ta.len() + 1 + i] == a[i]);
        assert((bytes_enc(b) + r2)[tb.len() + 1 + i] == b[i]);
    }
    assert(a =~= b);
    assert(r1 =~= s.subrange(bytes_enc(a).len() as int, s.len() as int));
    assert(r2 =~= (bytes_enc(b) + r2).subrange(bytes_enc(b).len() as int, s.len() as int));
}

/// The encoding of a non-empty run of values: the first, then the rest.
proof fn lemma_items_head(ws: Seq<BValue>)
    requires
        ws.len() > 0,
    ensures
        enc_items(ws) == enc(ws[0]) + enc_items(ws.drop_first()),
{
    let one = seq![ws[0]];
    assert(ws =~= one + ws.drop_first());
    lemma_enc_items_append(one, ws.drop_first());
    assert(one.drop_last() =~= Seq::<BValue>::empty());
    assert(enc_items(one.drop_last()) == Seq::<u8>::empty());
    assert(one.last() == ws[0]);
    assert(enc_items(one) =~= enc(ws[0]));
}

/// The encoding of a non-empty run of entries: the first, then the rest.
proof fn lemma_entries_head(es: Seq<(Seq<u8>, BValue)>)
    requires
        es.len() > 0,
    ensures
        enc_entries(es) == bytes_enc(es[0].0) + enc(es[0].1) + enc_entries(es.drop_first()),
{
    let one = seq![es[0]];
    assert(es =~= one + es.drop_first());
    lemma_enc_entries_append(one, es.drop_first());
    assert(one.drop_last() =~= Seq::<(Seq<u8>, BValue)>::empty());
    assert(enc_entries(one.drop_last()) == Seq::<u8>::empty());
    assert(one.last() == es[0]);
    assert(enc_entries(one) =~= bytes_enc(es[0].0) + enc(es[0].1));
}

/// Two runs of values in decoder form, each followed by `e`, that begin two
/// equal byte strings are equal.
proof fn lemma_items_prefix_free(
    ws1: Seq<BValue>,
    ws2: Seq<BValue>,
    r1: Seq<u8>,
    r2: Seq<u8>,
    tuples: bool,
    text: bool,
)
    requires
        items_everywhere(ws1, NodeRule::Decoded { tuples, text }),
        items_everywhere(ws2, NodeRule::Decoded { tuples, text }),
        enc_items(ws1) + (seq![101u8] + r1) == enc_items(ws2) + (seq![101u8] + r2),
    ensures
        ws1 == ws2,
        r1 == r2,
    decreases ws1,
{
    let rule = NodeRule::Decoded { tuples, text };
    lemma_items_everywhere(ws1, rule);
    lemma_items_everywhere(ws2, rule);
    let s = enc_items(ws1) + (seq![101u8] + r1);
    if ws1.len() == 0 || ws2.len() == 0 {
        if ws1.len() > 0 {
            lemma_items_head(ws1);
            lemma_enc_first(ws1[0]);
            assert(s[0] == enc(ws1[0])[0]);
            assert(enc_items(ws2) =~= Seq::<u8>::empty());
        } else if ws2.len() > 0 {
            lemma_items_head(ws2);
            lemma_enc_first(ws2[0]);
            assert((enc_items(ws2) + (seq![101u8] + r2))[0] == enc(ws2[0])[0]);
            assert(enc_items(ws1) =~= Seq::<u8>::empty());
        } else {
            assert(enc_items(ws1) =~= Seq::<u8>::empty());
            assert(enc_items(ws2) =~= Seq::<u8>::empty());
            assert(r1 =~= s.drop_first());
            assert(r2 =~= (enc_items(ws2) + (seq![101u8] + r2)).drop_first());
            assert(ws1 =~= ws2);
        }
    } else {
        lemma_items_head(ws1);
        lemma_items_head(ws2);
        let t1 = enc_items(ws1.drop_first()) + (seq![101u8] + r1);
        let t2 = enc_items(ws2.drop_first()) + (seq![101u8] + r2);
        assert(s =~= enc(ws1[0]) + t1);
        assert(enc_items(ws2) + (seq![101u8] + r2) =~= enc(ws2[0]) + t2);
        lemma_prefix_free(ws1[0], ws2[0], t1, t2, tuples, text);
        lemma_items_everywhere(ws1.drop_first(), rule);
        lemma_items_everywhere(ws2.drop_first(), rule);
        assert forall|i: int| 0 <= i < ws1.drop_first().len() implies #[trigger] ws1.drop_first()[i] == ws1[i + 1] by {}
        assert forall|i: int| 0 <= i < ws2.drop_first().len() implies #[trigger] ws2.drop_first()[i] == ws2[i + 1] by {}
        lemma_items_prefix_free(ws1.drop_first(), ws2.drop_first(), r1, r2, tuples, text);
        assert(ws1 =~= ws2) by {
            assert forall|i: int| 0 <= i < ws1.len() implies ws1[i] == ws2[i] by {
                if i > 0 {
                    assert(ws1[i] == ws1.drop_first()[i - 1]);
                    assert(ws2[i] == ws2.drop_first()[i - 1]);
                }
            }
        }
    }
}

/// Two runs of entries in decoder form, each followed by `e`, that begin two
/// equal byte strings are equal.
proof fn lemma_entries_prefix_free(
    es1: Seq<(Seq<u8>, BValue)>,
    es2: Seq<(Seq<u8>, BValue)>,
    r1: Seq<u8>,
    r2: Seq<u8>,
    tuples: bool,
    text: bool,
)
    requires
        entries_everywhere(es1, NodeRule::Decoded { tuples, text }),
        entries_everywhere(es2, NodeRule::Decoded { tuples, text }),
        enc_entries(es1) + (seq![101u8] + r1) == enc_entries(es2) + (seq![101u8] + r2),
    ensures
        es1 == es2,
        r1 == r2,
    decreases es1,
{
    let rule = NodeRule::Decoded { tuples, text };
    lemma_entries_everywhere(es1, rule);
    lemma_entries_everywhere(es2, rule);
    let s = enc_entries(es1) + (seq![101u8] + r1);
    if es1.len() == 0 || es2.len() == 0 {
        if es1.len() > 0 {
            lemma_entries_head(es1);
            lemma_value_of_text(es1[0].0.len());
            assert(s[0] == nat_text(es1[0].0.len())[0]);
            assert(enc_entries(es2) =~= Seq::<u8>::empty());
        } else if es2.len() > 0 {
            lemma_entries_head(es2);
            lemma_value_of_text(es2[0].0.len());
            assert((enc_entries(es2) + (seq![101u8] + r2))[0] == nat_text(es2[0].0.len())[0]);
            assert(enc_entries(es1) =~= Seq::<u8>::empty());
        } else {
            assert(enc_entries(es1) =~= Seq::<u8>::empty());
            assert(enc_entries(es2) =~= Seq::<u8>::empty());
            assert(r1 =~= s.drop_first());
            assert(r2 =~= (enc_entries(es2) + (seq![101u8] + r2)).drop_first());
            assert(es1 =~= es2);
        }
    } else {
        lemma_entries_head(es1);
        lemma_entries_head(es2);
        let t1 = enc_entries(es1.drop_first()) + (seq![101u8] + r1);
        let t2 = enc_entries(es2.drop_first()) + (seq![101u8] + r2);
        assert(s =~= bytes_enc(es1[0].0) + (enc(es1[0].1) + t1));
        assert(enc_entries(es2) + (seq![101u8] + r2) =~= bytes_enc(es2[0].0) + (enc(es2[0].1) + t2));
        lemma_bytes_prefix_free(es1[0].0, es2[0].0, enc(es1[0].1) + t1, enc(es2[0].1) + t2);
        lemma_prefix_free(es1[0].1, es2[0].1, t1, t2, tuples, text);
        lemma_entries_everywhere(es1.drop_first(), rule);
        lemma_entries_everywhere(es2.drop_first(), rule);
        assert forall|i: int| 0 <= i < es1.drop_first().len() implies #[trigger] es1.drop_first()[i] == es1[i + 1] by {}
        assert forall|i: int| 0 <= i < es2.drop_first().len() implies #[trigger] es2.drop_first()[i] == es2[i + 1] by {}
        lemma_entries_prefix_free(es1.drop_first(), es2.drop_first(), r1, r2, tuples, text);
        assert(es1 =~= es2) by {
            assert forall|i: int| 0 <= i < es1.len() implies es1[i] == es2[i] by {
                if i > 0 {
                    assert(es1[i] == es1.drop_first()[i - 1]);
                    assert(es2[i] == es2.drop_first()[i - 1]);
                }
            }
        }
    }
}

/// Encodings are prefix-free on values in decoder form: when the encodings
/// of two such values begin two equal byte strings, the values are equal
/// and so is what follows them.
pub proof fn lemma_prefix_free(
    w1: BValue,
    w2: BValue,
    r1: Seq<u8>,
    r2: Seq<u8>,
    tuples: bool,
    text: bool,
)
    requires
        decodable(w1, tuples, text),
        decodable(w2, tuples, text),
        enc(w1) + r1 == enc(w2) + r2,
    ensures
        w1 == w2,
        r1 == r2,
    decreases w1,
{
    lemma_enc_first(w1);
    lemma_enc_first(w2);
    let s = enc(w1) + r1;
    assert(s[0] == enc(w1)[0]);
    assert((enc(w2) + r2)[0] == enc(w2)[0]);
    match w1 {
        BValue::Int(a) => {
            lemma_int_prefix_free(a, w2->Int_0, r1, r2);
        },
        BValue::Bytes(a) => {
            lemma_bytes_prefix_free(a, w2->Bytes_0, r1, r2);
        },
        BValue::Text(a) => {
            let b = w2->Text_0;
            lemma_bytes_prefix_free(encode_utf8(a), encode_utf8(b), r1, r2);
            encode_utf8_decode_utf8(a);
            encode_utf8_decode_utf8(b);
        },
        BValue::List(ws1) => {
            let ws2 = w2->List_0;
            assert(s.drop_first() =~= enc_items(ws1) + (seq![101u8] + r1));
            assert((enc(w2) + r2).drop_first() =~= enc_items(ws2) + (seq![101u8] + r2));
            lemma_items_prefix_free(ws1, ws2, r1, r2, tuples, text);
        },
        BValue::Tuple(ws1) => {
            let ws2 = w2->Tuple_0;
            assert(s.drop_first() =~= enc_items(ws1) + (seq![101u8] + r1));
            assert((enc(w2) + r2).drop_first() =~= enc_items(ws2) + (seq![101u8] + r2));
            lemma_items_prefix_free(ws1, ws2, r1, r2, tuples, text);
        },
        BValue::Dict(es1) => {
            let es2 = w2->Dict_0;
            assert(s.drop_first() =~= enc_entries(es1) + (seq![101u8] + r1));
            assert((enc(w2) + r2).drop_first() =~= enc_entries(es2) + (seq![101u8] + r2));
            lemma_entries_prefix_free(es1, es2, r1, r2, tuples, text);
        },
        _ => {},
    }
}

/// Round trip: decoding the encoding of a value in decoder form gives that
/// value back.
pub proof fn lemma_round_trip(w: BValue, tuples: bool, text: bool)
    requires
        decodable(w, tuples, text),
    ensures
        decoded(enc(w), tuples, text) == Some(w),
{
    assert(decodes_to(enc(w), w, tuples, text));
    let v = choose|v: BValue| decodes_to(enc(w), v, tuples, text);
    assert(enc(v) + Seq::<u8>::empty() =~= enc(w) + Seq::<u8>::empty());
    lemma_prefix_free(v, w, Seq::<u8>::empty(), Seq::<u8>::empty(), tuples, text);
}

/// Canonical uniqueness: whatever decodes, re-encodes to the very same
/// bytes, and nothing else in decoder form encodes to them.
pub proof fn lemma_reencodes_exactly(b: Seq<u8>, tuples: bool, text: bool)
    requires
        decoded(b, tuples, text) is Some,
    ensures
        enc(decoded(b, tuples, text)->Some_0) == b,
        forall|w: BValue|
            #[trigger] decodes_to(b, w, tuples, text) ==> w == decoded(b, tuples, text)->Some_0,
{
    let v = decoded(b, tuples, text)->Some_0;
    assert(decodes_to(b, v, tuples, text));
    assert forall|w: BValue| #[trigger] decodes_to(b, w, tuples, text) implies w == v by {
        assert(enc(w) + Seq::<u8>::empty() =~= enc(v) + Seq::<u8>::empty());
        lemma_prefix_free(w, v, Seq::<u8>::empty(), Seq::<u8>::empty(), tuples, text);
    }
}

/// Precomputed bytes are transparent: decoding the encoding of a
/// precomputed value decodes its bytes.
pub proof fn lemma_precomputed_transparent(b: Seq<u8>, tuples: bool, text: bool)
    ensures
        enc(BValue::Precomputed(b)) == b,
        decoded(enc(BValue::Precomputed(b)), tuples, text) == decoded(b, tuples, text),
{
}

/// Integers round-trip exactly, however far beyond any fixed width.
pub proof fn lemma_integer_round_trip(n: int, tuples: bool, text: bool)
    ensures
        decoded(enc(BValue::Int(n)), tuples, text) == Some(BValue::Int(n)),
{
    lemma_round_trip(BValue::Int(n), tuples, text);
}

} // verus!
