//! The canonical encoder.
use crate::text::push_decimal;
use crate::value::{
    BValue, NodeRule, lemma_items_everywhere, lemma_entries_everywhere,
    bytes_enc, canonical, enc, enc_entries, enc_items, entries_view, lemma_entries_view,
    lemma_values_view, text_free, values_view, Dict, Integer, Value,
};
use vstd::prelude::*;
use vstd::utf8::encode_utf8;

verus! {

broadcast use {vstd::seq::group_seq_axioms, vstd::std_specs::vec::group_vec_axioms};

/// Why an encode failed.
#[derive(Debug, PartialEq, Eq, Structural)]
pub enum EncodeError {
    /// Text was met, but the encoder was made without a text encoding.
    UnconfiguredTextEncoding,
}

/// Appends `bytes` to `out`.
pub fn append_slice(out: &mut Vec<u8>, bytes: &[u8])
    ensures
        final(out)@ == old(out)@ + bytes@,
{
    let mut i: usize = 0;
    while i < bytes.len()
        invariant
            i <= bytes@.len(),
            out@ == old(out)@ + bytes@.subrange(0, i as int),
        decreases bytes@.len() - i,
    {
        out.push(bytes[i]);
        i = i + 1;
        assert(out@ =~= old(out)@ + bytes@.subrange(0, i as int));
    }
    assert(bytes@.subrange(0, i as int) =~= bytes@);
}

/// Text and canonical form of a list or tuple, item by item.
proof fn lemma_items_facts(items: Seq<Value>)
    ensures
        text_free(BValue::List(values_view(items))) <==> forall|i: int|
            0 <= i < items.len() ==> text_free(#[trigger] items[i]@),
        text_free(BValue::Tuple(values_view(items))) <==> forall|i: int|
            0 <= i < items.len() ==> text_free(#[trigger] items[i]@),
        canonical(BValue::List(values_view(items))) <==> forall|i: int|
            0 <= i < items.len() ==> canonical(#[trigger] items[i]@),
        canonical(BValue::Tuple(values_view(items))) <==> forall|i: int|
            0 <= i < items.len() ==> canonical(#[trigger] items[i]@),
{
    lemma_values_view(items);
    let v = values_view(items);
    lemma_items_everywhere(v, NodeRule::TextFree);
    lemma_items_everywhere(v, NodeRule::Canonical);
    assert forall|i: int| 0 <= i < items.len() implies #[trigger] items[i]@ == v[i] by {}
}

/// Writes values, one after another, into a growing buffer.
pub struct Encoder {
    pub buffer: Vec<u8>,
    /// Text is written as its UTF-8 bytes; without this, text is refused.
    pub utf8_strings: bool,
}

impl Encoder {
    pub fn new(utf8_strings: bool) -> (r: Encoder)
        ensures
            r.buffer@ == Seq::<u8>::empty(),
            r.utf8_strings == utf8_strings,
    {
        Encoder { buffer: Vec::new(), utf8_strings }
    }

    /// The bytes written so far.
    pub fn to_bytes(&self) -> (r: Vec<u8>)
        ensures
            r@ == self.buffer@,
    {
        let mut r: Vec<u8> = Vec::new();
        append_slice(&mut r, self.buffer.as_slice());
        r
    }

    /// Writes the encoding of `x`. Fails, with nothing promised of the
    /// buffer, exactly when `x` holds text and the encoder has no text
    /// encoding.
    pub fn process(&mut self, x: &Value) -> (r: Result<(), EncodeError>)
        ensures
            final(self).utf8_strings == old(self).utf8_strings,
            r is Ok <==> (old(self).utf8_strings || text_free(x@)),
            r is Ok ==> final(self).buffer@ == old(self).buffer@ + enc(x@) && canonical(x@),
        decreases x,
    {
        proof {
            match x {
                Value::List(items) => lemma_items_facts(items@),
                Value::Tuple(items) => lemma_items_facts(items@),
                _ => {},
            }
        }
        match x {
            Value::Int(n) => {
                self.encode_int(n);
                Ok(())
            },
            Value::Bytes(b) => {
                self.encode_bytes(b.as_slice());
                Ok(())
            },
            Value::Text(t) => self.encode_string(t),
            Value::List(items) => self.encode_list(items),
            Value::Tuple(items) => self.encode_list(items),
            Value::Dict(d) => self.encode_dict(d),
            Value::Precomputed(p) => {
                self.append_bytes(p.as_bytes());
                Ok(())
            },
        }
    }

    /// Writes `i`, the decimal text of `x`, then `e`.
    pub fn encode_int(&mut self, x: &Integer)
        ensures
            final(self).utf8_strings == old(self).utf8_strings,
            final(self).buffer@ == old(self).buffer@ + enc(Value::Int(*x)@),
    {
        self.buffer.push(105u8);
        let t = x.text();
        append_slice(&mut self.buffer, t.as_slice());
        self.buffer.push(101u8);
        assert(self.buffer@ =~= old(self).buffer@ + enc(Value::Int(*x)@));
    }

    /// Writes bytes that already hold an encoding, unchanged.
    pub fn append_bytes(&mut self, bytes: &[u8])
        ensures
            final(self).utf8_strings == old(self).utf8_strings,
            final(self).buffer@ == old(self).buffer@ + bytes@,
    {
        append_slice(&mut self.buffer, bytes);
    }

    /// Writes a byte string: its length, `:`, then the bytes.
    pub fn encode_bytes(&mut self, bytes: &[u8])
        ensures
            final(self).utf8_strings == old(self).utf8_strings,
            final(self).buffer@ == old(self).buffer@ + bytes_enc(bytes@),
    {
        push_decimal(&mut self.buffer, bytes.len());
        self.buffer.push(58u8);
        append_slice(&mut self.buffer, bytes);
        assert(self.buffer@ =~= old(self).buffer@ + bytes_enc(bytes@));
    }

    /// Writes text as the byte string of its UTF-8 bytes; fails when the
    /// encoder has no text encoding.
    pub fn encode_string(&mut self, x: &String) -> (r: Result<(), EncodeError>)
        ensures
            final(self).utf8_strings == old(self).utf8_strings,
            r is Ok <==> old(self).utf8_strings,
            r is Ok ==> final(self).buffer@ == old(self).buffer@ + bytes_enc(encode_utf8(x@)),
            r is Err ==> final(self).buffer@ == old(self).buffer@,
    {
        if self.utf8_strings {
            self.encode_bytes(x.as_str().as_bytes());
            Ok(())
        } else {
            Err(EncodeError::UnconfiguredTextEncoding)
        }
    }

    /// Writes `l`, each item in order, then `e`.
    pub fn encode_list(&mut self, items: &Vec<Value>) -> (r: Result<(), EncodeError>)
        ensures
            final(self).utf8_strings == old(self).utf8_strings,
            r is Ok <==> (old(self).utf8_strings || forall|i: int|
                0 <= i < items@.len() ==> text_free(#[trigger] items@[i]@)),
            r is Ok ==> final(self).buffer@ == old(self).buffer@ + seq![108u8] + enc_items(
                values_view(items@),
            ) + seq![101u8],
            r is Ok ==> forall|i: int| 0 <= i < items@.len() ==> canonical(#[trigger] items@[i]@),
        decreases items,
    {
        proof {
            lemma_values_view(items@);
        }
        self.buffer.push(108u8);
        let ghost start = self.buffer@;
        let mut i: usize = 0;
        while i < items.len()
            invariant
                i <= items@.len(),
                self.utf8_strings == old(self).utf8_strings,
                start == old(self).buffer@.push(108u8),
                self.buffer@ == start + enc_items(values_view(items@.subrange(0, i as int))),
                forall|j: int| 0 <= j < i ==> canonical(#[trigger] items@[j]@),
                forall|j: int| 0 <= j < i ==> (self.utf8_strings || text_free(#[trigger] items@[j]@)),
            decreases items@.len() - i,
        {
            let r = self.process(&items[i]);
            if r.is_err() {
                return r;
            }
            proof {
                let s = items@.subrange(0, i + 1);
                assert(s.drop_last() =~= items@.subrange(0, i as int));
                assert(values_view(s).drop_last() == values_view(s.drop_last()));
                assert(self.buffer@ =~= start + enc_items(values_view(s)));
            }
            i = i + 1;
        }
        assert(items@.subrange(0, i as int) =~= items@);
        self.buffer.push(101u8);
        assert(self.buffer@ =~= old(self).buffer@ + seq![108u8] + enc_items(values_view(items@))
            + seq![101u8]);
        Ok(())
    }

    /// Writes `d`, each key and its value in ascending key order, then `e`.
    pub fn encode_dict(&mut self, d: &Dict) -> (r: Result<(), EncodeError>)
        ensures
            final(self).utf8_strings == old(self).utf8_strings,
            r is Ok <==> (old(self).utf8_strings || text_free(Value::Dict(*d)@)),
            r is Ok ==> final(self).buffer@ == old(self).buffer@ + enc(Value::Dict(*d)@)
                && canonical(Value::Dict(*d)@),
        decreases d,
    {
        proof {
            use_type_invariant(d);
            d.lemma_view();
            lemma_entries_view(d.entries@);
        }
        let entries = &d.entries;
        self.buffer.push(100u8);
        let ghost start = self.buffer@;
        let mut i: usize = 0;
        while i < entries.len()
            invariant
                i <= entries@.len(),
                entries == &d.entries,
                d@ == entries_view(entries@),
                d@.len() == entries@.len(),
                forall|j: int|
                    0 <= j < entries@.len() ==> #[trigger] d@[j] == (entries@[j].0@, entries@[j].1@),
                self.utf8_strings == old(self).utf8_strings,
                start == old(self).buffer@.push(100u8),
                self.buffer@ == start + enc_entries(entries_view(entries@.subrange(0, i as int))),
                forall|j: int| 0 <= j < i ==> canonical(#[trigger] entries@[j].1@),
                forall|j: int| 0 <= j < i ==> (self.utf8_strings || text_free(#[trigger] entries@[j].1@)),
            decreases entries@.len() - i,
        {
            self.encode_bytes(entries[i].0.as_slice());
            let r = self.process(&entries[i].1);
            if r.is_err() {
                proof {
                    assert(d@[i as int].1 == entries@[i as int].1@);
                    assert(!text_free(d@[i as int].1));
                    lemma_entries_everywhere(d@, NodeRule::TextFree);
                }
                return r;
            }
            proof {
                let s = entries@.subrange(0, i + 1);
                assert(s.drop_last() =~= entries@.subrange(0, i as int));
                assert(entries_view(s).drop_last() == entries_view(s.drop_last()));
                assert(self.buffer@ =~= start + enc_entries(entries_view(s)));
            }
            i = i + 1;
        }
        assert(entries@.subrange(0, i as int) =~= entries@);
        self.buffer.push(101u8);
        proof {
            assert(self.buffer@ =~= old(self).buffer@ + enc(Value::Dict(*d)@));
            assert forall|j: int| 0 <= j < d@.len() implies canonical(#[trigger] d@[j].1) by {
                assert(d@[j].1 == entries@[j].1@);
            }
            assert forall|j: int| 0 <= j < d@.len() implies (self.utf8_strings || text_free(
                #[trigger] d@[j].1,
            )) by {
                assert(d@[j].1 == entries@[j].1@);
            }
            lemma_entries_everywhere(d@, NodeRule::TextFree);
            lemma_entries_everywhere(d@, NodeRule::Canonical);
        }
        Ok(())
    }
}

/// The canonical encoding of `x`; text is refused.
pub fn bencode(x: &Value) -> (r: Result<Vec<u8>, EncodeError>)
    ensures
        r is Ok <==> text_free(x@),
        r matches Ok(b) ==> b@ == enc(x@) && canonical(x@),
        r matches Err(e) ==> e == EncodeError::UnconfiguredTextEncoding,
{
    let mut encoder = Encoder::new(false);
    match encoder.process(x) {
        Ok(()) => Ok(encoder.to_bytes()),
        Err(e) => Err(e),
    }
}

/// The canonical encoding of `x`, with text written as UTF-8 bytes.
pub fn bencode_utf8(x: &Value) -> (r: Vec<u8>)
    ensures
        r@ == enc(x@),
        canonical(x@),
{
    let mut encoder = Encoder::new(true);
    let res = encoder.process(x);
    assert(res is Ok);
    encoder.to_bytes()
}

} // verus!
