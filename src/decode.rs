//! The strict decoder: it accepts exactly the canonical encodings.
use crate::encode::append_slice;
use crate::order::{compare_bytes, lex_lt};
use crate::text::{
    canonical_digits, digits_value, is_digit, lemma_text_of_value, lemma_value_of_text, nat_text,
    parse_decimal,
};
use crate::value::{
    keys_utf8,
    canonical, decodable, entries_everywhere, items_everywhere, keys_ascending, lemma_entries_everywhere,
    lemma_items_everywhere, lemma_values_view, values_view, Dict, NodeRule, lemma_entries_view,
    bytes_enc, canonical_int_text, enc, enc_entries, enc_items, int_text, BValue, Integer, Value,
};
use vstd::prelude::*;
use vstd::utf8::{encode_utf8, encode_utf8_decode_utf8, encode_utf8_valid_utf8, valid_utf8};

verus! {

broadcast use {vstd::seq::group_seq_axioms, vstd::std_specs::vec::group_vec_axioms};

/// Why a decode failed.
#[derive(Debug, PartialEq, Eq, Structural)]
pub enum DecodeError {
    /// The input ended where more was needed.
    Underflow,
    /// A value started with a byte that starts no value.
    UnknownType(u8),
    /// An integer's digits were malformed or not closed by `e`.
    UnterminatedInteger,
    /// A byte string's length was malformed, not closed by `:`, or too large.
    InvalidLength,
    /// A digit run began with a superfluous `0`.
    LeadingZero,
    /// The integer `-0`.
    NegativeZero,
    /// A list or dictionary was not closed by `e`.
    MalformedStructure,
    /// A dictionary key was not a byte string.
    NonStringKey,
    /// A dictionary key did not sort strictly after the one before it.
    KeyOrder,
    /// Bytes followed the value.
    TrailingData,
    /// A byte string was not valid UTF-8 where text was asked for.
    DecodeEncoding,
}

/// `data` holds `b` from `pos` on.
pub open spec fn bytes_at(data: Seq<u8>, pos: int, b: Seq<u8>) -> bool {
    0 <= pos && pos + b.len() <= data.len() && data.subrange(pos, pos + b.len()) == b
}

proof fn lemma_bytes_at_split(data: Seq<u8>, pos: int, a: Seq<u8>, b: Seq<u8>)
    requires
        bytes_at(data, pos, a + b),
    ensures
        bytes_at(data, pos, a),
        bytes_at(data, pos + a.len(), b),
{
    let s = data.subrange(pos, pos + (a + b).len());
    assert(data.subrange(pos, pos + a.len()) =~= s.subrange(0, a.len() as int));
    assert(s.subrange(0, a.len() as int) =~= a);
    assert(data.subrange(pos + a.len(), pos + a.len() + b.len()) =~= s.subrange(
        a.len() as int,
        (a + b).len() as int,
    ));
    assert(s.subrange(a.len() as int, (a + b).len() as int) =~= b);
}

proof fn lemma_bytes_at_index(data: Seq<u8>, pos: int, b: Seq<u8>, i: int)
    requires
        bytes_at(data, pos, b),
        0 <= i < b.len(),
    ensures
        data[pos + i] == b[i],
{
    assert(data.subrange(pos, pos + b.len())[i] == b[i]);
}

/// Relies on `String::from_utf8`: it succeeds exactly on valid UTF-8, and the
/// text it gives encodes back to the same bytes.
#[verifier::external_body]
fn utf8_text(b: &[u8]) -> (r: Option<String>)
    ensures
        r is Some <==> valid_utf8(b@),
        r matches Some(s) ==> encode_utf8(s@) == b@,
{
    String::from_utf8(b.to_vec()).ok()
}

/// Copies `data[a..b]`.
fn copy_range(data: &Vec<u8>, a: usize, b: usize) -> (r: Vec<u8>)
    requires
        a <= b <= data@.len(),
    ensures
        r@ == data@.subrange(a as int, b as int),
{
    let mut r: Vec<u8> = Vec::new();
    let mut i: usize = a;
    while i < b
        invariant
            a <= i <= b <= data@.len(),
            r@ == data@.subrange(a as int, i as int),
        decreases b - i,
    {
        r.push(data[i]);
        i = i + 1;
        assert(r@ =~= data@.subrange(a as int, i as int));
    }
    r
}

/// The decimal text of an integer: digits and `-` only, accepted by the
/// decoder, and different for different integers.
pub proof fn lemma_int_text(n: int)
    ensures
        canonical_int_text(int_text(n)),
        forall|i: int| 0 <= i < int_text(n).len() ==> (is_digit(#[trigger] int_text(n)[i]) || int_text(n)[i] == 45u8),
        forall|m: int| #[trigger] int_text(m) == int_text(n) ==> m == n,
        int_text(n).len() >= 1,
{
    if n < 0 {
        lemma_value_of_text((-n) as nat);
        assert(int_text(n).drop_first() =~= nat_text((-n) as nat));
        assert(nat_text((-n) as nat) != seq![48u8]) by {
            if nat_text((-n) as nat) == seq![48u8] {
                assert(digits_value(seq![48u8]) == 0) by {
                    assert(seq![48u8].drop_last().len() == 0);
                }
            }
        }
        assert forall|i: int| 0 <= i < int_text(n).len() implies (is_digit(#[trigger] int_text(n)[i]) || int_text(n)[i] == 45u8) by {
            if i > 0 {
                assert(int_text(n)[i] == nat_text((-n) as nat)[i - 1]);
            }
        }
    } else {
        lemma_value_of_text(n as nat);
    }
    assert forall|m: int| #[trigger] int_text(m) == int_text(n) implies m == n by {
        lemma_value_of_text(if m < 0 { (-m) as nat } else { m as nat });
        lemma_value_of_text(if n < 0 { (-n) as nat } else { n as nat });
        if m < 0 {
            assert(int_text(m).drop_first() =~= nat_text((-m) as nat));
        }
        if n < 0 {
            assert(int_text(n).drop_first() =~= nat_text((-n) as nat));
        }
        if m < 0 && n >= 0 {
            assert(int_text(m)[0] == 45u8);
            assert(is_digit(nat_text(n as nat)[0]));
        }
        if n < 0 && m >= 0 {
            assert(int_text(n)[0] == 45u8);
            assert(is_digit(nat_text(m as nat)[0]));
        }
    }
}

/// The encoding of a run of values splits where the run does.
pub proof fn lemma_enc_items_append(a: Seq<BValue>, b: Seq<BValue>)
    ensures
        enc_items(a + b) == enc_items(a) + enc_items(b),
    decreases b.len(),
{
    if b.len() == 0 {
        assert(a + b =~= a);
        assert(enc_items(b) =~= Seq::<u8>::empty());
        assert(enc_items(a) + enc_items(b) =~= enc_items(a));
    } else {
        lemma_enc_items_append(a, b.drop_last());
        assert((a + b).drop_last() =~= a + b.drop_last());
        assert((a + b).last() == b.last());
        assert(enc_items(a + b) =~= enc_items(a) + enc_items(b));
    }
}

/// The encoding of a run of entries splits where the run does.
pub proof fn lemma_enc_entries_append(a: Seq<(Seq<u8>, BValue)>, b: Seq<(Seq<u8>, BValue)>)
    ensures
        enc_entries(a + b) == enc_entries(a) + enc_entries(b),
    decreases b.len(),
{
    if b.len() == 0 {
        assert(a + b =~= a);
        assert(enc_entries(b) =~= Seq::<u8>::empty());
        assert(enc_entries(a) + enc_entries(b) =~= enc_entries(a));
    } else {
        lemma_enc_entries_append(a, b.drop_last());
        assert((a + b).drop_last() =~= a + b.drop_last());
        assert((a + b).last() == b.last());
        assert(enc_entries(a + b) =~= enc_entries(a) + enc_entries(b));
    }
}

/// The encoding of a run of values: the first `k`, the next, then the rest.
proof fn lemma_items_at(ws: Seq<BValue>, k: int)
    requires
        0 <= k < ws.len(),
    ensures
        enc_items(ws) == enc_items(ws.take(k)) + enc(ws[k]) + enc_items(ws.skip(k + 1)),
        enc_items(ws.take(k + 1)) == enc_items(ws.take(k)) + enc(ws[k]),
{
    assert(ws =~= ws.take(k + 1) + ws.skip(k + 1));
    lemma_enc_items_append(ws.take(k + 1), ws.skip(k + 1));
    assert(ws.take(k + 1).drop_last() =~= ws.take(k));
}

/// The encoding of a run of entries: the first `k`, the next, then the rest.
proof fn lemma_entries_at(es: Seq<(Seq<u8>, BValue)>, k: int)
    requires
        0 <= k < es.len(),
    ensures
        enc_entries(es) == enc_entries(es.take(k)) + bytes_enc(es[k].0) + enc(es[k].1)
            + enc_entries(es.skip(k + 1)),
        enc_entries(es.take(k + 1)) == enc_entries(es.take(k)) + bytes_enc(es[k].0) + enc(es[k].1),
{
    assert(es =~= es.take(k + 1) + es.skip(k + 1));
    lemma_enc_entries_append(es.take(k + 1), es.skip(k + 1));
    assert(es.take(k + 1).drop_last() =~= es.take(k));
}

/// The first byte of an encoding tells which kind of value it holds.
pub proof fn lemma_enc_first(w: BValue)
    requires
        !(w is Precomputed),
    ensures
        enc(w).len() >= 1,
        is_digit(enc(w)[0]) <==> (w is Bytes || w is Text),
        (enc(w)[0] == 105u8) <==> w is Int,
        (enc(w)[0] == 108u8) <==> (w is List || w is Tuple),
        (enc(w)[0] == 100u8) <==> w is Dict,
        enc(w)[0] != 101u8,
{
    match w {
        BValue::Bytes(b) => lemma_value_of_text(b.len()),
        BValue::Text(t) => lemma_value_of_text(encode_utf8(t).len()),
        _ => {},
    }
}

/// `data[pos..j]` is a run of digits and `-` closed by the `e` at `j`.
pub open spec fn int_run(data: Seq<u8>, pos: int, j: int) -> bool {
    &&& 0 <= pos <= j < data.len()
    &&& data[j] == 101u8
    &&& forall|i: int| pos <= i < j ==> (is_digit(#[trigger] data[i]) || data[i] == 45u8)
}

/// What is wrong with the text of an integer, if anything.
pub open spec fn int_text_error(t: Seq<u8>) -> Option<DecodeError> {
    if t.len() > 1 && t[0] == 48u8 {
        Some(DecodeError::LeadingZero)
    } else if t.len() > 2 && t[0] == 45u8 && t[1] == 48u8 {
        Some(DecodeError::LeadingZero)
    } else if t == seq![45u8, 48u8] {
        Some(DecodeError::NegativeZero)
    } else if canonical_int_text(t) {
        None
    } else {
        Some(DecodeError::UnterminatedInteger)
    }
}

/// `data[pos..j]` is a run of digits closed by the `:` at `j`.
pub open spec fn length_run(data: Seq<u8>, pos: int, j: int) -> bool {
    &&& 0 <= pos <= j < data.len()
    &&& data[j] == 58u8
    &&& forall|i: int| pos <= i < j ==> is_digit(#[trigger] data[i])
}

/// What is wrong with a byte string whose length digits are `data[pos..j]`,
/// if anything.
pub open spec fn length_error(data: Seq<u8>, pos: int, j: int) -> Option<DecodeError> {
    let d = data.subrange(pos, j);
    if d.len() > 1 && d[0] == 48u8 {
        Some(DecodeError::LeadingZero)
    } else if digits_value(d) > data.len() - (j + 1) {
        Some(DecodeError::Underflow)
    } else {
        None
    }
}

/// The bytes of a byte string whose length digits are `data[pos..j]`.
pub open spec fn length_body(data: Seq<u8>, pos: int, j: int) -> Seq<u8> {
    data.subrange(j + 1, j + 1 + digits_value(data.subrange(pos, j)))
}

/// The error that the first token at `pos` decides, if it decides one: the
/// end of the buffer, a byte that starts no value, a malformed integer, or a
/// malformed, overlong or (for text) invalid byte string.
pub open spec fn token_error(data: Seq<u8>, pos: int, text: bool) -> Option<DecodeError> {
    if pos >= data.len() {
        Some(DecodeError::Underflow)
    } else if data[pos] == 105u8 {
        if exists|j: int| #[trigger] int_run(data, pos + 1, j) {
            int_text_error(data.subrange(pos + 1, choose|j: int| #[trigger] int_run(data, pos + 1, j)))
        } else {
            Some(DecodeError::UnterminatedInteger)
        }
    } else if is_digit(data[pos]) {
        if exists|j: int| #[trigger] length_run(data, pos, j) {
            let j = choose|j: int| #[trigger] length_run(data, pos, j);
            match length_error(data, pos, j) {
                Some(e) => Some(e),
                None => if text && !valid_utf8(length_body(data, pos, j)) {
                    Some(DecodeError::DecodeEncoding)
                } else {
                    None
                },
            }
        } else {
            Some(DecodeError::InvalidLength)
        }
    } else if data[pos] == 108u8 || data[pos] == 100u8 {
        None
    } else {
        Some(DecodeError::UnknownType(data[pos]))
    }
}

/// From `pos` on, `data` holds the encodings of the values `ws`, in the form
/// `rule` asks, and then ends.
pub open spec fn items_then_end(data: Seq<u8>, pos: int, ws: Seq<BValue>, rule: NodeRule) -> bool {
    items_everywhere(ws, rule) && bytes_at(data, pos, enc_items(ws)) && pos + enc_items(ws).len()
        == data.len()
}

/// From `pos` on, `data` holds the encodings of the entries `es`, in the
/// form the decoder yields: values by `Decoded`, keys ascending, and (for
/// text) keys valid UTF-8.
pub open spec fn entries_at(data: Seq<u8>, pos: int, es: Seq<(Seq<u8>, BValue)>, tuples: bool, text: bool) -> bool {
    &&& entries_everywhere(es, NodeRule::Decoded { tuples, text })
    &&& keys_ascending(es)
    &&& text ==> keys_utf8(es)
    &&& bytes_at(data, pos, enc_entries(es))
}

/// The error that stops a dictionary whose content, from `pos` on, begins
/// with the entries `es`, if one does: the buffer ends there; a byte other
/// than `e` or a digit stands where a key belongs; or the next key, `key`,
/// is not valid UTF-8 (for text) or does not sort strictly after the last.
pub open spec fn dict_stops(
    data: Seq<u8>,
    pos: int,
    es: Seq<(Seq<u8>, BValue)>,
    key: Seq<u8>,
    tuples: bool,
    text: bool,
) -> Option<DecodeError> {
    let p = pos + enc_entries(es).len();
    if !entries_at(data, pos, es, tuples, text) {
        None
    } else if p >= data.len() {
        Some(DecodeError::MalformedStructure)
    } else if data[p] == 101u8 {
        None
    } else if !is_digit(data[p]) {
        Some(DecodeError::NonStringKey)
    } else if !bytes_at(data, p, bytes_enc(key)) {
        None
    } else if text && !valid_utf8(key) {
        Some(DecodeError::DecodeEncoding)
    } else if es.len() > 0 && !lex_lt(es.last().0, key) {
        Some(DecodeError::KeyOrder)
    } else {
        None
    }
}

/// The error that a list or dictionary opening at `pos` stops with, when
/// its content begins with the values `ws` (a list), or with the entries
/// `es` and then the key `key` (a dictionary).
pub open spec fn container_error(
    data: Seq<u8>,
    pos: int,
    ws: Seq<BValue>,
    es: Seq<(Seq<u8>, BValue)>,
    key: Seq<u8>,
    tuples: bool,
    text: bool,
) -> Option<DecodeError> {
    if 0 <= pos < data.len() && data[pos] == 108u8 && items_then_end(
        data,
        pos + 1,
        ws,
        NodeRule::Decoded { tuples, text },
    ) {
        Some(DecodeError::MalformedStructure)
    } else if 0 <= pos < data.len() && data[pos] == 100u8 {
        dict_stops(data, pos + 1, es, key, tuples, text)
    } else {
        None
    }
}

/// At `pos` stands a byte that starts no value: not a digit, `i`, `l` or `d`.
pub open spec fn starts_no_value(data: Seq<u8>, pos: int) -> bool {
    0 <= pos < data.len() && !is_digit(data[pos]) && data[pos] != 105u8 && data[pos] != 108u8
        && data[pos] != 100u8
}

/// A stateful reader of one buffer. Lists and dictionaries are read
/// recursively, with no limit on nesting beyond the stack: a caller that
/// takes input from untrusted sources should bound its size.
pub struct Decoder {
    pub data: Vec<u8>,
    pub position: usize,
    /// Lists come out as `Value::Tuple`.
    pub yield_tuples: bool,
    /// Byte strings come out as `Value::Text`, and must be valid UTF-8.
    pub utf8_strings: bool,
}

impl Decoder {
    pub fn new(data: Vec<u8>, yield_tuples: bool, utf8_strings: bool) -> (r: Decoder)
        ensures
            r.data@ == data@,
            r.position == 0,
            r.yield_tuples == yield_tuples,
            r.utf8_strings == utf8_strings,
    {
        Decoder { data, position: 0, yield_tuples, utf8_strings }
    }

    /// Reads an integer's text after its `i`, through its `e`.
    pub fn decode_int(&mut self) -> (r: Result<Integer, DecodeError>)
        requires
            old(self).position <= old(self).data@.len(),
        ensures
            forall|j: int| #[trigger] int_run(old(self).data@, old(self).position as int, j) ==> match int_text_error(old(self).data@.subrange(old(self).position as int, j)) {
                Some(e) => r is Err && r->Err_0 == e,
                None => r is Ok,
            },
            (forall|j: int| !#[trigger] int_run(old(self).data@, old(self).position as int, j)) ==> (r is Err && r->Err_0 == DecodeError::UnterminatedInteger),
            r is Err ==> r->Err_0 != DecodeError::TrailingData,
            final(self).data == old(self).data,
            final(self).yield_tuples == old(self).yield_tuples,
            final(self).utf8_strings == old(self).utf8_strings,
            old(self).position <= final(self).position <= old(self).data@.len(),
            r matches Ok(n) ==> bytes_at(
                old(self).data@,
                old(self).position as int,
                int_text(n@) + seq![101u8],
            ) && final(self).position == old(self).position + int_text(n@).len() + 1,
            forall|n: int|
                #[trigger] bytes_at(
                    old(self).data@,
                    old(self).position as int,
                    int_text(n) + seq![101u8],
                ) ==> (r matches Ok(m) && m@ == n),
    {
        let start = self.position;
        let mut j: usize = start;
        while j < self.data.len() && self.data[j] != 101u8
            invariant
                start <= j <= self.data@.len(),
                start == old(self).position,
                *self == *old(self),
                forall|i: int| start <= i < j ==> (is_digit(#[trigger] self.data@[i]) || self.data@[i] == 45u8),
            decreases self.data@.len() - j,
        {
            if (self.data[j] < 48u8 || self.data[j] > 57u8) && self.data[j] != 45u8 {
                proof {
                    assert forall|n: int| bytes_at(self.data@, start as int, #[trigger] (int_text(n) + seq![101u8])) implies false by {
                        lemma_int_text(n);
                        let t = int_text(n) + seq![101u8];
                        let k = int_text(n).len() as int;
                        if j - start <= k {
                            lemma_bytes_at_index(self.data@, start as int, t, j - start);
                        } else {
                            lemma_bytes_at_index(self.data@, start as int, t, k);
                        }
                    }
                }
                return Err(DecodeError::UnterminatedInteger);
            }
            j = j + 1;
        }
        if j >= self.data.len() {
            proof {
                assert forall|n: int| bytes_at(self.data@, start as int, #[trigger] (int_text(n) + seq![101u8])) implies false by {
                    lemma_int_text(n);
                    let t = int_text(n) + seq![101u8];
                    lemma_bytes_at_index(self.data@, start as int, t, int_text(n).len() as int);
                }
            }
            return Err(DecodeError::UnterminatedInteger);
        }
        let t = copy_range(&self.data, start, j);
        proof {
            assert(int_run(self.data@, start as int, j as int));
            assert forall|j2: int| #[trigger] int_run(self.data@, start as int, j2) implies j2 == j by {
                if j2 < j {
                    assert(is_digit(self.data@[j2]) || self.data@[j2] == 45u8);
                } else if j2 > j {
                    assert(is_digit(self.data@[j as int]) || self.data@[j as int] == 45u8);
                }
            }
        }
        // Every integer text that ends where an `e` first stands is this one.
        proof {
            assert forall|n: int| bytes_at(self.data@, start as int, #[trigger] (int_text(n) + seq![101u8])) implies int_text(n) == t@ by {
                lemma_int_text(n);
                let tn = int_text(n) + seq![101u8];
                let k = int_text(n).len() as int;
                lemma_bytes_at_index(self.data@, start as int, tn, k);
                if start + k > j {
                    lemma_bytes_at_index(self.data@, start as int, tn, j - start);
                    assert(tn[j - start] == int_text(n)[j - start]);
                } else if start + k < j {
                    assert(is_digit(self.data@[start + k]) || self.data@[start + k] == 45u8);
                }
                assert(int_text(n) =~= t@) by {
                    assert forall|i: int| 0 <= i < k implies int_text(n)[i] == t@[i] by {
                        lemma_bytes_at_index(self.data@, start as int, tn, i);
                    }
                }
            }
        }
        if t.len() > 1 && t[0] == 48u8 {
            proof {
                assert forall|n: int| #[trigger] bytes_at(old(self).data@, old(self).position as int, int_text(n) + seq![101u8]) implies false by {
                    lemma_int_text(n);
                    assert(bytes_at(self.data@, start as int, int_text(n) + seq![101u8]));
                    assert(int_text(n) == t@);
                    assert(canonical_int_text(t@));
                }
            }
            return Err(DecodeError::LeadingZero);
        }
        if t.len() > 2 && t[0] == 45u8 && t[1] == 48u8 {
            proof {
                assert(t@.drop_first()[0] == 48u8);
                assert forall|n: int| #[trigger] bytes_at(old(self).data@, old(self).position as int, int_text(n) + seq![101u8]) implies false by {
                    lemma_int_text(n);
                    assert(bytes_at(self.data@, start as int, int_text(n) + seq![101u8]));
                    assert(int_text(n) == t@);
                    assert(canonical_int_text(t@));
                }
            }
            return Err(DecodeError::LeadingZero);
        }
        if t.len() == 2 && t[0] == 45u8 && t[1] == 48u8 {
            proof {
                assert(t@.drop_first() =~= seq![48u8]);
                assert(t@ =~= seq![45u8, 48u8]);
                assert forall|n: int| #[trigger] bytes_at(old(self).data@, old(self).position as int, int_text(n) + seq![101u8]) implies false by {
                    lemma_int_text(n);
                    assert(bytes_at(self.data@, start as int, int_text(n) + seq![101u8]));
                    assert(int_text(n) == t@);
                    assert(canonical_int_text(t@));
                }
            }
            return Err(DecodeError::NegativeZero);
        }
        match Integer::parse(t.as_slice()) {
            Some(n) => {
                self.position = j + 1;
                proof {
                    assert(self.data@.subrange(start as int, j + 1) =~= t@ + seq![101u8]);
                    lemma_int_text(n@);
                    assert forall|k: int| #[trigger] bytes_at(old(self).data@, old(self).position as int, int_text(k) + seq![101u8]) implies n@ == k by {
                        lemma_int_text(k);
                        assert(bytes_at(self.data@, start as int, int_text(k) + seq![101u8]));
                        assert(int_text(k) == t@);
                    }
                }
                Ok(n)
            },
            None => {
                proof {
                    assert forall|n: int| #[trigger] bytes_at(old(self).data@, old(self).position as int, int_text(n) + seq![101u8]) implies false by {
                        lemma_int_text(n);
                        assert(bytes_at(self.data@, start as int, int_text(n) + seq![101u8]));
                        assert(int_text(n) == t@);
                    }
                }
                Err(DecodeError::UnterminatedInteger)
            },
        }
    }

    /// Reads a byte string: its length, `:`, then that many bytes.
    pub fn decode_bytes(&mut self) -> (r: Result<Vec<u8>, DecodeError>)
        requires
            old(self).position < old(self).data@.len(),
            is_digit(old(self).data@[old(self).position as int]),
        ensures
            forall|j: int| #[trigger] length_run(old(self).data@, old(self).position as int, j) ==> (r is Ok
                ==> r->Ok_0@ == length_body(old(self).data@, old(self).position as int, j)),
            forall|j: int| #[trigger] length_run(old(self).data@, old(self).position as int, j) ==> match length_error(old(self).data@, old(self).position as int, j) {
                Some(e) => r is Err && r->Err_0 == e,
                None => r is Ok,
            },
            (forall|j: int| !#[trigger] length_run(old(self).data@, old(self).position as int, j)) ==> (r is Err && r->Err_0 == DecodeError::InvalidLength),
            r is Err ==> r->Err_0 != DecodeError::TrailingData,
            final(self).data == old(self).data,
            final(self).yield_tuples == old(self).yield_tuples,
            final(self).utf8_strings == old(self).utf8_strings,
            old(self).position <= final(self).position <= old(self).data@.len(),
            r matches Ok(b) ==> bytes_at(old(self).data@, old(self).position as int, bytes_enc(b@))
                && final(self).position == old(self).position + bytes_enc(b@).len(),
            forall|b: Seq<u8>|
                #[trigger] bytes_at(old(self).data@, old(self).position as int, bytes_enc(b)) ==> (
                r matches Ok(x) && x@ == b),
    {
        let start = self.position;
        let mut j: usize = start;
        while j < self.data.len() && self.data[j] != 58u8
            invariant
                start <= j <= self.data@.len(),
                start == old(self).position,
                *self == *old(self),
                forall|i: int| start <= i < j ==> is_digit(#[trigger] self.data@[i]),
            decreases self.data@.len() - j,
        {
            if self.data[j] < 48u8 || self.data[j] > 57u8 {
                proof {
                    assert forall|b: Seq<u8>| #[trigger] bytes_at(old(self).data@, old(self).position as int, bytes_enc(b)) implies false by {
                        self.lemma_length_text(b, j as int);
                    }
                }
                return Err(DecodeError::InvalidLength);
            }
            j = j + 1;
        }
        if j >= self.data.len() {
            proof {
                assert forall|b: Seq<u8>| #[trigger] bytes_at(old(self).data@, old(self).position as int, bytes_enc(b)) implies false by {
                    self.lemma_length_text(b, j as int);
                }
            }
            return Err(DecodeError::InvalidLength);
        }
        proof {
            assert(length_run(self.data@, start as int, j as int));
            assert forall|j2: int| #[trigger] length_run(self.data@, start as int, j2) implies j2 == j by {
                if j2 < j {
                    assert(is_digit(self.data@[j2]));
                } else if j2 > j {
                    assert(is_digit(self.data@[j as int]));
                }
            }
        }
        proof {
            assert forall|b: Seq<u8>| #[trigger] bytes_at(old(self).data@, old(self).position as int, bytes_enc(b)) implies nat_text(b.len()) == self.data@.subrange(start as int, j as int) by {
                self.lemma_length_text(b, j as int);
            }
        }
        if self.data[start] == 48u8 && j - start > 1 {
            proof {
                assert forall|b: Seq<u8>| #[trigger] bytes_at(old(self).data@, old(self).position as int, bytes_enc(b)) implies false by {
                    lemma_value_of_text(b.len());
                    assert(nat_text(b.len())[0] == self.data@[start as int]);
                }
            }
            return Err(DecodeError::LeadingZero);
        }
        let ghost digits = self.data@.subrange(start as int, j as int);
        proof {
            assert forall|i: int| 0 <= i < digits.len() implies is_digit(#[trigger] digits[i]) by {
                assert(digits[i] == self.data@[start + i]);
            }
            assert(canonical_digits(digits));
            lemma_text_of_value(digits);
        }
        let len = self.data.len();
        let length = match parse_decimal(self.data.as_slice(), start, j) {
            Some(n) => n,
            None => {
                // A length beyond any buffer exceeds this one too.
                proof {
                    assert(digits_value(digits) > len - (j + 1));
                    assert forall|b: Seq<u8>| #[trigger] bytes_at(old(self).data@, old(self).position as int, bytes_enc(b)) implies false by {
                        lemma_value_of_text(b.len());
                    }
                }
                return Err(DecodeError::Underflow);
            },
        };
        let body = j + 1;
        if length > self.data.len() - body {
            proof {
                assert forall|b: Seq<u8>| #[trigger] bytes_at(old(self).data@, old(self).position as int, bytes_enc(b)) implies false by {
                    lemma_value_of_text(b.len());
                }
            }
            return Err(DecodeError::Underflow);
        }
        let bytes = copy_range(&self.data, body, body + length);
        self.position = body + length;
        proof {
            assert(self.data@.subrange(start as int, body + length) =~= bytes_enc(bytes@));
            assert forall|b: Seq<u8>| #[trigger] bytes_at(old(self).data@, old(self).position as int, bytes_enc(b)) implies bytes@ == b by {
                lemma_value_of_text(b.len());
                lemma_bytes_at_split(self.data@, start as int, nat_text(b.len()) + seq![58u8], b);
                assert(b =~= bytes@);
            }
        }
        Ok(bytes)
    }

    /// Reads one value from the position on.
    pub fn decode_object(&mut self) -> (r: Result<Value, DecodeError>)
        requires
            old(self).position <= old(self).data@.len(),
        ensures
            forall|ws: Seq<BValue>, es: Seq<(Seq<u8>, BValue)>, key: Seq<u8>|
                #[trigger] container_error(old(self).data@, old(self).position as int, ws, es, key, old(self).yield_tuples, old(self).utf8_strings) matches Some(e)
                ==> (r is Err && r->Err_0 == e),
            token_error(old(self).data@, old(self).position as int, old(self).utf8_strings) matches Some(e)
                ==> (r is Err && r->Err_0 == e),
            old(self).position >= old(self).data@.len() ==> (r is Err && r->Err_0 == DecodeError::Underflow),
            starts_no_value(old(self).data@, old(self).position as int) ==> (r is Err && r->Err_0
                == DecodeError::UnknownType(old(self).data@[old(self).position as int])),
            r is Err ==> r->Err_0 != DecodeError::TrailingData,
            final(self).data == old(self).data,
            final(self).yield_tuples == old(self).yield_tuples,
            final(self).utf8_strings == old(self).utf8_strings,
            old(self).position <= final(self).position <= old(self).data@.len(),
            r matches Ok(v) ==> {
                &&& bytes_at(old(self).data@, old(self).position as int, enc(v@))
                &&& final(self).position == old(self).position + enc(v@).len()
                &&& canonical(v@)
                &&& !(v@ is Precomputed)
                &&& decodable(v@, old(self).yield_tuples, old(self).utf8_strings)
            },
            forall|w: BValue|
                decodable(w, old(self).yield_tuples, old(self).utf8_strings) && #[trigger] bytes_at(
                    old(self).data@,
                    old(self).position as int,
                    enc(w),
                ) ==> (r matches Ok(v) && v@ == w),
        decreases old(self).data@.len() - old(self).position, 0nat,
    {
        let ghost tuples = self.yield_tuples;
        let ghost text = self.utf8_strings;
        let ghost start = self.position as int;
        let ghost data = self.data@;
        if self.position >= self.data.len() {
            proof {
                assert forall|w: BValue| decodable(w, tuples, text) && #[trigger] bytes_at(data, start, enc(w)) implies false by {
                    lemma_enc_first(w);
                }
            }
            return Err(DecodeError::Underflow);
        }
        let c = self.data[self.position];
        proof {
            assert forall|w: BValue| decodable(w, tuples, text) && #[trigger] bytes_at(data, start, enc(w)) implies enc(w)[0] == c by {
                lemma_enc_first(w);
                lemma_bytes_at_index(data, start, enc(w), 0);
            }
        }
        if c >= 48u8 && c <= 57u8 {
            let bytes = match self.decode_bytes() {
                Ok(b) => b,
                Err(e) => {
                    proof {
                        assert forall|w: BValue| decodable(w, tuples, text) && #[trigger] bytes_at(data, start, enc(w)) implies false by {
                            lemma_enc_first(w);
                        }
                    }
                    return Err(e);
                },
            };
            if self.utf8_strings {
                match utf8_text(bytes.as_slice()) {
                    Some(t) => {
                        proof {
                            assert forall|w: BValue| decodable(w, tuples, text) && #[trigger] bytes_at(data, start, enc(w)) implies Value::Text(t)@ == w by {
                                lemma_enc_first(w);
                                let t0 = w->Text_0;
                                assert(bytes_at(data, start, bytes_enc(encode_utf8(t0))));
                                encode_utf8_decode_utf8(t0);
                                encode_utf8_decode_utf8(t@);
                            }
                        }
                        Ok(Value::Text(t))
                    },
                    None => {
                        proof {
                            assert forall|w: BValue| decodable(w, tuples, text) && #[trigger] bytes_at(data, start, enc(w)) implies false by {
                                lemma_enc_first(w);
                                let t0 = w->Text_0;
                                assert(bytes_at(data, start, bytes_enc(encode_utf8(t0))));
                                encode_utf8_valid_utf8(t0);
                            }
                        }
                        Err(DecodeError::DecodeEncoding)
                    },
                }
            } else {
                proof {
                    assert forall|w: BValue| decodable(w, tuples, text) && #[trigger] bytes_at(data, start, enc(w)) implies Value::Bytes(bytes)@ == w by {
                        lemma_enc_first(w);
                    }
                }
                Ok(Value::Bytes(bytes))
            }
        } else if c == 105u8 {
            self.position = self.position + 1;
            proof {
                assert forall|w: BValue| decodable(w, tuples, text) && #[trigger] bytes_at(data, start, enc(w)) implies bytes_at(data, start + 1, int_text(w->Int_0) + seq![101u8]) by {
                    lemma_enc_first(w);
                    assert(enc(w) =~= seq![105u8] + (int_text(w->Int_0) + seq![101u8]));
                    lemma_bytes_at_split(data, start, seq![105u8], int_text(w->Int_0) + seq![101u8]);
                }
            }
            match self.decode_int() {
                Ok(n) => {
                    proof {
                        assert(enc(Value::Int(n)@) =~= seq![105u8] + (int_text(n@) + seq![101u8]));
                        assert(data.subrange(start, start + enc(Value::Int(n)@).len()) =~= enc(Value::Int(n)@)) by {
                            assert(data[start] == 105u8);
                            assert forall|i: int| 1 <= i < enc(Value::Int(n)@).len() implies data[start + i] == enc(Value::Int(n)@)[i] by {
                                lemma_bytes_at_index(data, start + 1, int_text(n@) + seq![101u8], i - 1);
                            }
                        }
                        assert forall|w: BValue| decodable(w, tuples, text) && #[trigger] bytes_at(data, start, enc(w)) implies Value::Int(n)@ == w by {
                            lemma_enc_first(w);
                            assert(bytes_at(data, start + 1, int_text(w->Int_0) + seq![101u8]));
                        }
                    }
                    Ok(Value::Int(n))
                },
                Err(e) => {
                    proof {
                        assert forall|w: BValue| decodable(w, tuples, text) && #[trigger] bytes_at(data, start, enc(w)) implies false by {
                            lemma_enc_first(w);
                        }
                    }
                    Err(e)
                },
            }
        } else if c == 108u8 {
            self.position = self.position + 1;
            proof {
                assert forall|w: BValue| decodable(w, tuples, text) && #[trigger] bytes_at(data, start, enc(w)) implies ({
                    let ws = if w is List { w->List_0 } else { w->Tuple_0 };
                    bytes_at(data, start + 1, enc_items(ws) + seq![101u8]) && items_everywhere(ws, NodeRule::Decoded { tuples, text })
                }) by {
                    lemma_enc_first(w);
                    let ws = if w is List { w->List_0 } else { w->Tuple_0 };
                    assert(enc(w) =~= seq![108u8] + (enc_items(ws) + seq![101u8]));
                    lemma_bytes_at_split(data, start, seq![108u8], enc_items(ws) + seq![101u8]);
                }
            }
            match self.decode_list() {
                Ok(items) => {
                    let v = if self.yield_tuples { Value::Tuple(items) } else { Value::List(items) };
                    proof {
                        let vs = values_view(items@);
                        assert(enc(v@) =~= seq![108u8] + (enc_items(vs) + seq![101u8]));
                        assert(data.subrange(start, start + enc(v@).len()) =~= enc(v@)) by {
                            assert forall|i: int| 1 <= i < enc(v@).len() implies data[start + i] == enc(v@)[i] by {
                                lemma_bytes_at_index(data, start + 1, enc_items(vs) + seq![101u8], i - 1);
                            }
                        }
                        {
                        assert forall|w: BValue| decodable(w, tuples, text) && #[trigger] bytes_at(data, start, enc(w)) implies v@ == w by {
                            lemma_enc_first(w);
                            let ws = if w is List { w->List_0 } else { w->Tuple_0 };
                            assert(bytes_at(data, start + 1, enc_items(ws) + seq![101u8]));
                            assert(items_everywhere(ws, NodeRule::Decoded { tuples, text }));
                            assert(vs == ws);
                            if tuples {
                                assert(w is Tuple);
                            } else {
                                assert(w is List);
                            }
                        }
                        }
                    }
                    Ok(v)
                },
                Err(e) => {
                    proof {
                        {
                            assert forall|w: BValue| decodable(w, tuples, text) && #[trigger] bytes_at(data, start, enc(w)) implies false by {
                                lemma_enc_first(w);
                                let ws = if w is List { w->List_0 } else { w->Tuple_0 };
                                assert(bytes_at(data, start + 1, enc_items(ws) + seq![101u8]));
                                assert(items_everywhere(ws, NodeRule::Decoded { tuples, text }));
                            }
                        }
                    }
                    Err(e)
                },
            }
        } else if c == 100u8 {
            self.position = self.position + 1;
            proof {
                assert forall|w: BValue| decodable(w, tuples, text) && #[trigger] bytes_at(data, start, enc(w)) implies ({
                    bytes_at(data, start + 1, enc_entries(w->Dict_0) + seq![101u8])
                        && entries_everywhere(w->Dict_0, NodeRule::Decoded { tuples, text })
                        && keys_ascending(w->Dict_0)
                        && (text ==> keys_utf8(w->Dict_0))
                }) by {
                    lemma_enc_first(w);
                    assert(enc(w) =~= seq![100u8] + (enc_entries(w->Dict_0) + seq![101u8]));
                    lemma_bytes_at_split(data, start, seq![100u8], enc_entries(w->Dict_0) + seq![101u8]);
                }
            }
            match self.decode_dict() {
                Ok(d) => {
                    let v = Value::Dict(d);
                    proof {
                        let es = v->Dict_0@;
                        assert(enc(v@) =~= seq![100u8] + (enc_entries(es) + seq![101u8]));
                        assert(data.subrange(start, start + enc(v@).len()) =~= enc(v@)) by {
                            assert forall|i: int| 1 <= i < enc(v@).len() implies data[start + i] == enc(v@)[i] by {
                                lemma_bytes_at_index(data, start + 1, enc_entries(es) + seq![101u8], i - 1);
                            }
                        }
                        {
                            assert forall|w: BValue| decodable(w, tuples, text) && #[trigger] bytes_at(data, start, enc(w)) implies v@ == w by {
                                lemma_enc_first(w);
                                let es = w->Dict_0;
                                assert(bytes_at(data, start + 1, enc_entries(es) + seq![101u8]));
                                assert(entries_everywhere(es, NodeRule::Decoded { tuples, text }));
                                assert(keys_ascending(es));
                                assert(text ==> keys_utf8(es));
                            }
                        }
                    }
                    Ok(v)
                },
                Err(e) => {
                    proof {
                        {
                            assert forall|w: BValue| decodable(w, tuples, text) && #[trigger] bytes_at(data, start, enc(w)) implies false by {
                                lemma_enc_first(w);
                                let es = w->Dict_0;
                                assert(bytes_at(data, start + 1, enc_entries(es) + seq![101u8]));
                                assert(entries_everywhere(es, NodeRule::Decoded { tuples, text }));
                                assert(keys_ascending(es));
                                assert(text ==> keys_utf8(es));
                            }
                        }
                    }
                    Err(e)
                },
            }
        } else {
            proof {
                assert forall|w: BValue| decodable(w, tuples, text) && #[trigger] bytes_at(data, start, enc(w)) implies false by {
                    lemma_enc_first(w);
                }
            }
            Err(DecodeError::UnknownType(c))
        }
    }

    /// Reads values up to the `e` that closes a list, and that `e`.
    pub fn decode_list(&mut self) -> (r: Result<Vec<Value>, DecodeError>)
        requires
            old(self).position <= old(self).data@.len(),
        ensures
            forall|ws: Seq<BValue>|
                #[trigger] items_then_end(old(self).data@, old(self).position as int, ws, NodeRule::Decoded { tuples: old(self).yield_tuples, text: old(self).utf8_strings })
                ==> (r is Err && r->Err_0 == DecodeError::MalformedStructure),
            r is Err ==> r->Err_0 != DecodeError::TrailingData,
            final(self).data == old(self).data,
            final(self).yield_tuples == old(self).yield_tuples,
            final(self).utf8_strings == old(self).utf8_strings,
            old(self).position <= final(self).position <= old(self).data@.len(),
            r matches Ok(items) ==> {
                &&& bytes_at(old(self).data@, old(self).position as int, enc_items(values_view(items@)) + seq![101u8])
                &&& final(self).position == old(self).position + enc_items(values_view(items@)).len() + 1
                &&& items_everywhere(values_view(items@), NodeRule::Canonical)
                &&& items_everywhere(values_view(items@), NodeRule::Decoded { tuples: old(self).yield_tuples, text: old(self).utf8_strings })
            },
            forall|ws: Seq<BValue>|
                items_everywhere(ws, NodeRule::Decoded { tuples: old(self).yield_tuples, text: old(self).utf8_strings }) && #[trigger] bytes_at(
                    old(self).data@,
                    old(self).position as int,
                    enc_items(ws) + seq![101u8],
                ) ==> (r matches Ok(items) && values_view(items@) == ws),
        decreases old(self).data@.len() - old(self).position, 1nat,
    {
        let ghost tuples = self.yield_tuples;
        let ghost text = self.utf8_strings;
        let ghost rule = NodeRule::Decoded { tuples, text };
        let ghost start = self.position as int;
        let ghost data = self.data@;
        let mut items: Vec<Value> = Vec::new();
        proof {
            assert(enc_items(values_view(items@)) =~= Seq::<u8>::empty());
            assert(data.subrange(start, start) =~= Seq::<u8>::empty());
        }
        while self.position < self.data.len() && self.data[self.position] != 101u8
            invariant
                self.data@ == data,
                self.data == old(self).data,
                self.yield_tuples == tuples,
                tuples == old(self).yield_tuples,
                rule == (NodeRule::Decoded { tuples, text }),
                text == self.utf8_strings,
                self.utf8_strings == old(self).utf8_strings,
                start == old(self).position,
                start <= self.position <= data.len(),
                bytes_at(data, start, enc_items(values_view(items@))),
                self.position == start + enc_items(values_view(items@)).len(),
                items_everywhere(values_view(items@), NodeRule::Canonical),
                items_everywhere(values_view(items@), rule),
                forall|ws: Seq<BValue>|
                    items_everywhere(ws, rule) && #[trigger] bytes_at(data, start, enc_items(ws) + seq![101u8])
                        ==> items@.len() <= ws.len() && values_view(items@) == ws.take(items@.len() as int),
                forall|ws: Seq<BValue>| #[trigger] items_then_end(data, start, ws, rule)
                        ==> items@.len() <= ws.len() && values_view(items@) == ws.take(items@.len() as int),
            decreases data.len() - self.position,
        {
            let ghost k = items@.len() as int;
            let ghost pos = self.position as int;
            proof {
                lemma_values_view(items@);
                assert forall|ws: Seq<BValue>| #[trigger] items_then_end(data, start, ws, rule) implies k < ws.len() && bytes_at(data, pos, enc(ws[k])) && decodable(ws[k], tuples, text) by {
                    if k == ws.len() {
                        assert(ws.take(k) =~= ws);
                    }
                    lemma_items_at(ws, k);
                    lemma_items_everywhere(ws, rule);
                    assert(enc_items(ws) =~= enc_items(ws.take(k)) + (enc(ws[k]) + enc_items(ws.skip(k + 1))));
                    lemma_bytes_at_split(data, start, enc_items(ws.take(k)), enc(ws[k]) + enc_items(ws.skip(k + 1)));
                    lemma_bytes_at_split(data, pos, enc(ws[k]), enc_items(ws.skip(k + 1)));
                }
                {
                    assert forall|ws: Seq<BValue>| items_everywhere(ws, rule) && #[trigger] bytes_at(data, start, enc_items(ws) + seq![101u8]) implies k < ws.len() && bytes_at(data, pos, enc(ws[k])) && decodable(ws[k], tuples, text) by {
                        if k == ws.len() {
                            assert(ws.take(k) =~= ws);
                            lemma_bytes_at_index(data, start, enc_items(ws) + seq![101u8], enc_items(ws).len() as int);
                        }
                        lemma_items_at(ws, k);
                        lemma_items_everywhere(ws, rule);
                        assert(enc_items(ws) + seq![101u8] =~= enc_items(ws.take(k)) + (enc(ws[k]) + (enc_items(ws.skip(k + 1)) + seq![101u8])));
                        lemma_bytes_at_split(data, start, enc_items(ws.take(k)), enc(ws[k]) + (enc_items(ws.skip(k + 1)) + seq![101u8]));
                        lemma_bytes_at_split(data, pos, enc(ws[k]), enc_items(ws.skip(k + 1)) + seq![101u8]);
                    }
                }
            }
            let item = match self.decode_object() {
                Ok(v) => v,
                Err(e) => {
                    return Err(e);
                },
            };
            let ghost before = items@;
            items.push(item);
            proof {
                lemma_enc_first(item@);
                lemma_values_view(items@);
                assert(items@.drop_last() =~= before);
                assert(values_view(items@) == values_view(before).push(item@));
                assert(enc_items(values_view(items@)) == enc_items(values_view(before)) + enc(item@)) by {
                    assert(values_view(items@).drop_last() =~= values_view(before));
                }
                assert(data.subrange(start, self.position as int) =~= enc_items(values_view(items@))) by {
                    assert forall|i: int| 0 <= i < enc_items(values_view(items@)).len() implies data[start + i] == enc_items(values_view(items@))[i] by {
                        if i < enc_items(values_view(before)).len() {
                            lemma_bytes_at_index(data, start, enc_items(values_view(before)), i);
                        } else {
                            lemma_bytes_at_index(data, pos, enc(item@), i - enc_items(values_view(before)).len());
                        }
                    }
                }
                lemma_items_everywhere(values_view(before), NodeRule::Canonical);
                lemma_items_everywhere(values_view(items@), NodeRule::Canonical);
                {
                    lemma_items_everywhere(values_view(before), rule);
                    lemma_items_everywhere(values_view(items@), rule);
                    assert forall|ws: Seq<BValue>| items_everywhere(ws, rule) && #[trigger] bytes_at(data, start, enc_items(ws) + seq![101u8]) implies items@.len() <= ws.len() && values_view(items@) == ws.take(items@.len() as int) by {
                        assert(ws.take(k + 1) =~= ws.take(k).push(ws[k]));
                    }
                }
            }
        }
        if self.position >= self.data.len() {
            proof {
                {
                    assert forall|ws: Seq<BValue>| items_everywhere(ws, rule) && #[trigger] bytes_at(data, start, enc_items(ws) + seq![101u8]) implies false by {
                        let k = items@.len() as int;
                        if k < ws.len() {
                            lemma_items_at(ws, k);
                            lemma_enc_first(ws[k]);
                        } else {
                            assert(ws.take(k) =~= ws);
                        }
                    }
                }
            }
            return Err(DecodeError::MalformedStructure);
        }
        proof {
            lemma_values_view(items@);
            let vs = values_view(items@);
            assert(data.subrange(start, self.position + 1) =~= enc_items(vs) + seq![101u8]) by {
                assert forall|i: int| 0 <= i < enc_items(vs).len() + 1 implies data[start + i] == (enc_items(vs) + seq![101u8])[i] by {
                    if i < enc_items(vs).len() {
                        lemma_bytes_at_index(data, start, enc_items(vs), i);
                    }
                }
            }
            {
                assert forall|ws: Seq<BValue>| items_everywhere(ws, rule) && #[trigger] bytes_at(data, start, enc_items(ws) + seq![101u8]) implies values_view(items@) == ws by {
                    let k = items@.len() as int;
                    if k < ws.len() {
                        lemma_items_at(ws, k);
                        lemma_items_everywhere(ws, rule);
                        lemma_enc_first(ws[k]);
                        assert(enc_items(ws) + seq![101u8] =~= enc_items(ws.take(k)) + (enc(ws[k]) + (enc_items(ws.skip(k + 1)) + seq![101u8])));
                        lemma_bytes_at_split(data, start, enc_items(ws.take(k)), enc(ws[k]) + (enc_items(ws.skip(k + 1)) + seq![101u8]));
                        lemma_bytes_at_index(data, self.position as int, enc(ws[k]) + (enc_items(ws.skip(k + 1)) + seq![101u8]), 0);
                    } else {
                        assert(ws.take(k) =~= ws);
                    }
                }
            }
        }
        proof {
            assert forall|ws: Seq<BValue>| #[trigger] items_then_end(data, start, ws, rule) implies false by {
                let k = items@.len() as int;
                if k < ws.len() {
                    lemma_items_at(ws, k);
                    lemma_items_everywhere(ws, rule);
                    lemma_enc_first(ws[k]);
                    assert(enc_items(ws) =~= enc_items(ws.take(k)) + (enc(ws[k]) + enc_items(ws.skip(k + 1))));
                    lemma_bytes_at_split(data, start, enc_items(ws.take(k)), enc(ws[k]) + enc_items(ws.skip(k + 1)));
                    lemma_bytes_at_index(data, self.position as int, enc(ws[k]) + enc_items(ws.skip(k + 1)), 0);
                } else {
                    assert(ws.take(k) =~= ws);
                }
            }
        }
        self.position = self.position + 1;
        Ok(items)
    }

    /// Reads key and value pairs up to the `e` that closes a dictionary,
    /// and that `e`. Each key must be a byte string that sorts strictly after
    /// the key before it.
    #[verifier::spinoff_prover]
    #[verifier::rlimit(50)]
    pub fn decode_dict(&mut self) -> (r: Result<Dict, DecodeError>)
        requires
            old(self).position <= old(self).data@.len(),
        ensures
            forall|es: Seq<(Seq<u8>, BValue)>, key: Seq<u8>|
                #[trigger] dict_stops(old(self).data@, old(self).position as int, es, key, old(self).yield_tuples, old(self).utf8_strings) matches Some(e)
                ==> (r is Err && r->Err_0 == e),
            r is Err ==> r->Err_0 != DecodeError::TrailingData,
            final(self).data == old(self).data,
            final(self).yield_tuples == old(self).yield_tuples,
            final(self).utf8_strings == old(self).utf8_strings,
            old(self).position <= final(self).position <= old(self).data@.len(),
            r matches Ok(d) ==> {
                &&& bytes_at(old(self).data@, old(self).position as int, enc_entries(d@) + seq![101u8])
                &&& final(self).position == old(self).position + enc_entries(d@).len() + 1
                &&& keys_ascending(d@)
                &&& old(self).utf8_strings ==> keys_utf8(d@)
                &&& entries_everywhere(d@, NodeRule::Canonical)
                &&& entries_everywhere(d@, NodeRule::Decoded { tuples: old(self).yield_tuples, text: old(self).utf8_strings })
            },
            forall|es: Seq<(Seq<u8>, BValue)>|
                entries_everywhere(es, NodeRule::Decoded { tuples: old(self).yield_tuples, text: old(self).utf8_strings })
                    && keys_ascending(es) && (old(self).utf8_strings ==> keys_utf8(es)) && #[trigger] bytes_at(
                    old(self).data@,
                    old(self).position as int,
                    enc_entries(es) + seq![101u8],
                ) ==> (r matches Ok(d) && d@ == es),
        decreases old(self).data@.len() - old(self).position, 1nat,
    {
        let ghost tuples = self.yield_tuples;
        let ghost text = self.utf8_strings;
        let ghost rule = NodeRule::Decoded { tuples, text };
        let ghost start = self.position as int;
        let ghost data = self.data@;
        let mut d = Dict::new();
        proof {
            assert(enc_entries(d@) =~= Seq::<u8>::empty());
            assert(data.subrange(start, start) =~= Seq::<u8>::empty());
        }
        while self.position < self.data.len() && self.data[self.position] != 101u8
            invariant
                self.data@ == data,
                self.data == old(self).data,
                self.yield_tuples == tuples,
                tuples == old(self).yield_tuples,
                rule == (NodeRule::Decoded { tuples, text }),
                text == self.utf8_strings,
                self.utf8_strings == old(self).utf8_strings,
                start == old(self).position,
                start <= self.position <= data.len(),
                bytes_at(data, start, enc_entries(d@)),
                self.position == start + enc_entries(d@).len(),
                keys_ascending(d@),
                text ==> keys_utf8(d@),
                entries_everywhere(d@, NodeRule::Canonical),
                entries_everywhere(d@, rule),
                forall|es: Seq<(Seq<u8>, BValue)>|
                    entries_everywhere(es, rule) && keys_ascending(es) && (text ==> keys_utf8(es)) && #[trigger] bytes_at(data, start, enc_entries(es) + seq![101u8])
                        ==> d@.len() <= es.len() && d@ == es.take(d@.len() as int),
                forall|es: Seq<(Seq<u8>, BValue)>, key: Seq<u8>| #[trigger] dict_stops(data, start, es, key, tuples, text) is Some
                        ==> d@.len() <= es.len() && d@ == es.take(d@.len() as int),
            decreases data.len() - self.position,
        {
            let ghost k = d@.len() as int;
            let ghost pos = self.position as int;
            proof {
                assert forall|es: Seq<(Seq<u8>, BValue)>, key: Seq<u8>| #[trigger] dict_stops(data, start, es, key, tuples, text) is Some implies ({
                    &&& k < es.len() ==> {
                        &&& bytes_at(data, pos, bytes_enc(es[k].0))
                        &&& bytes_at(data, pos + bytes_enc(es[k].0).len(), enc(es[k].1))
                        &&& decodable(es[k].1, tuples, text)
                        &&& (k > 0 ==> lex_lt(es[k - 1].0, es[k].0))
                        &&& (text ==> valid_utf8(es[k].0))
                        &&& is_digit(data[pos])
                    }
                    &&& k == es.len() ==> pos == start + enc_entries(es).len()
                }) by {
                    lemma_entries_everywhere(es, rule);
                    if k == es.len() {
                        assert(es.take(k) =~= es);
                    } else {
                        lemma_entries_at(es, k);
                        let rest = enc_entries(es.skip(k + 1));
                        assert(enc_entries(es) =~= enc_entries(es.take(k)) + (bytes_enc(es[k].0) + (enc(es[k].1) + rest)));
                        lemma_bytes_at_split(data, start, enc_entries(es.take(k)), bytes_enc(es[k].0) + (enc(es[k].1) + rest));
                        lemma_bytes_at_split(data, pos, bytes_enc(es[k].0), enc(es[k].1) + rest);
                        lemma_bytes_at_split(data, pos + bytes_enc(es[k].0).len(), enc(es[k].1), rest);
                        lemma_value_of_text(es[k].0.len());
                        lemma_bytes_at_index(data, pos, bytes_enc(es[k].0), 0);
                    }
                }
                {
                    assert forall|es: Seq<(Seq<u8>, BValue)>| entries_everywhere(es, rule) && keys_ascending(es) && (text ==> keys_utf8(es)) && #[trigger] bytes_at(data, start, enc_entries(es) + seq![101u8]) implies ({
                        &&& k < es.len()
                        &&& bytes_at(data, pos, bytes_enc(es[k].0))
                        &&& bytes_at(data, pos + bytes_enc(es[k].0).len(), enc(es[k].1))
                        &&& decodable(es[k].1, tuples, text)
                        &&& (k > 0 ==> lex_lt(es[k - 1].0, es[k].0))
                        &&& (text ==> valid_utf8(es[k].0))
                        &&& is_digit(data[pos])
                    }) by {
                        if k == es.len() {
                            assert(es.take(k) =~= es);
                            lemma_bytes_at_index(data, start, enc_entries(es) + seq![101u8], enc_entries(es).len() as int);
                        }
                        lemma_entries_at(es, k);
                        lemma_entries_everywhere(es, rule);
                        let rest = enc_entries(es.skip(k + 1)) + seq![101u8];
                        assert(enc_entries(es) + seq![101u8] =~= enc_entries(es.take(k)) + (bytes_enc(es[k].0) + (enc(es[k].1) + rest)));
                        lemma_bytes_at_split(data, start, enc_entries(es.take(k)), bytes_enc(es[k].0) + (enc(es[k].1) + rest));
                        lemma_bytes_at_split(data, pos, bytes_enc(es[k].0), enc(es[k].1) + rest);
                        lemma_bytes_at_split(data, pos + bytes_enc(es[k].0).len(), enc(es[k].1), rest);
                        lemma_value_of_text(es[k].0.len());
                        lemma_bytes_at_index(data, pos, bytes_enc(es[k].0), 0);
                    }
                }
            }
            if self.data[self.position] < 48u8 || self.data[self.position] > 57u8 {
                proof {
                    assert forall|es: Seq<(Seq<u8>, BValue)>, key: Seq<u8>| #[trigger] dict_stops(data, start, es, key, tuples, text) is Some implies dict_stops(data, start, es, key, tuples, text) == Some(DecodeError::NonStringKey) by {}
                }
                return Err(DecodeError::NonStringKey);
            }
            let key = match self.decode_bytes() {
                Ok(b) => b,
                Err(e) => {
                    proof {
                        assert forall|es: Seq<(Seq<u8>, BValue)>, key: Seq<u8>| #[trigger] dict_stops(data, start, es, key, tuples, text) is Some implies false by {
                            if k == es.len() {
                                assert(bytes_at(data, pos, bytes_enc(key)));
                            }
                        }
                    }
                    return Err(e);
                },
            };
            let ghost vpos = self.position as int;
            proof {
                assert forall|es: Seq<(Seq<u8>, BValue)>, k2: Seq<u8>| #[trigger] dict_stops(data, start, es, k2, tuples, text) is Some implies (k < es.len() ==> key@ == es[k].0) && (k == es.len() ==> bytes_at(data, pos, bytes_enc(k2)) ==> key@ == k2) by {
                    if k < es.len() {
                        assert(bytes_at(data, pos, bytes_enc(es[k].0)));
                    } else if bytes_at(data, pos, bytes_enc(k2)) {
                    }
                }
            }
            if self.utf8_strings {
                if utf8_text(key.as_slice()).is_none() {
                    proof {
                        assert forall|es: Seq<(Seq<u8>, BValue)>, k2: Seq<u8>| #[trigger] dict_stops(data, start, es, k2, tuples, text) is Some implies dict_stops(data, start, es, k2, tuples, text) == Some(DecodeError::DecodeEncoding) by {}
                    }
                    return Err(DecodeError::DecodeEncoding);
                }
            }
            let n = d.len();
            if n > 0 {
                let current = d.entries();
                proof {
                    lemma_entries_view(current@);
                }
                if compare_bytes(current[n - 1].0.as_slice(), key.as_slice()) != -1 {
                    proof {
                        assert forall|es: Seq<(Seq<u8>, BValue)>, k2: Seq<u8>| #[trigger] dict_stops(data, start, es, k2, tuples, text) is Some implies dict_stops(data, start, es, k2, tuples, text) == Some(DecodeError::KeyOrder) by {
                            if k < es.len() {
                                assert(d@[k - 1] == es[k - 1]);
                            } else {
                                assert(es.last() == d@[k - 1]);
                            }
                        }
                    }
                    return Err(DecodeError::KeyOrder);
                }
            }
            proof {
                assert forall|es: Seq<(Seq<u8>, BValue)>, k2: Seq<u8>| #[trigger] dict_stops(data, start, es, k2, tuples, text) is Some implies k < es.len() by {
                    if k == es.len() && k > 0 {
                        assert(es.last() == d@[k - 1]);
                    }
                }
            }
            let value = match self.decode_object() {
                Ok(v) => v,
                Err(e) => {
                    proof {
                        assert forall|es: Seq<(Seq<u8>, BValue)>, k2: Seq<u8>| #[trigger] dict_stops(data, start, es, k2, tuples, text) is Some implies false by {
                            assert(bytes_at(data, vpos, enc(es[k].1)));
                        }
                    }
                    return Err(e);
                },
            };
            let ghost before = d@;
            proof {
                lemma_enc_first(value@);
                lemma_entries_everywhere(before, NodeRule::Canonical);
                lemma_entries_everywhere(before, rule);
            }
            d = d.push_greatest(key, value);
            proof {
                assert(d@.drop_last() =~= before);
                assert(enc_entries(d@) == enc_entries(before) + bytes_enc(key@) + enc(value@));
                assert(data.subrange(start, self.position as int) =~= enc_entries(d@)) by {
                    let e0 = enc_entries(before);
                    let e1 = bytes_enc(key@);
                    assert forall|i: int| 0 <= i < enc_entries(d@).len() implies data[start + i] == enc_entries(d@)[i] by {
                        if i < e0.len() {
                            lemma_bytes_at_index(data, start, e0, i);
                        } else if i < e0.len() + e1.len() {
                            lemma_bytes_at_index(data, pos, e1, i - e0.len());
                        } else {
                            lemma_bytes_at_index(data, vpos, enc(value@), i - e0.len() - e1.len());
                        }
                    }
                }
                assert forall|j: int| 0 < j < d@.len() implies lex_lt(#[trigger] d@[j - 1].0, d@[j].0) by {
                    if j < k {
                        assert(d@[j - 1] == before[j - 1]);
                        assert(d@[j] == before[j]);
                    }
                }
                lemma_entries_everywhere(d@, NodeRule::Canonical);
                {
                    lemma_entries_everywhere(d@, rule);
                    assert forall|es: Seq<(Seq<u8>, BValue)>| entries_everywhere(es, rule) && keys_ascending(es) && (text ==> keys_utf8(es)) && #[trigger] bytes_at(data, start, enc_entries(es) + seq![101u8]) implies d@.len() <= es.len() && d@ == es.take(d@.len() as int) by {
                        assert(es.take(k + 1) =~= es.take(k).push(es[k]));
                    }
                    assert forall|es: Seq<(Seq<u8>, BValue)>, k2: Seq<u8>| #[trigger] dict_stops(data, start, es, k2, tuples, text) is Some implies d@.len() <= es.len() && d@ == es.take(d@.len() as int) by {
                        assert(bytes_at(data, vpos, enc(es[k].1)));
                        assert(es.take(k + 1) =~= es.take(k).push(es[k]));
                    }
                }
            }
        }
        if self.position >= self.data.len() {
            proof {

                assert forall|es: Seq<(Seq<u8>, BValue)>, key: Seq<u8>| #[trigger] dict_stops(data, start, es, key, tuples, text) is Some implies
                    (d@.len() < es.len() ==> self.position < data.len() && is_digit(data[self.position as int]))
                    && (d@.len() == es.len() ==> self.position == start + enc_entries(es).len()) by {
                    let k = d@.len() as int;
                    if k == es.len() {
                        assert(es.take(k) =~= es);
                    } else {
                        lemma_entries_at(es, k);
                        let rest = enc_entries(es.skip(k + 1));
                        assert(enc_entries(es) =~= enc_entries(es.take(k)) + (bytes_enc(es[k].0) + (enc(es[k].1) + rest)));
                        lemma_bytes_at_split(data, start, enc_entries(es.take(k)), bytes_enc(es[k].0) + (enc(es[k].1) + rest));
                        lemma_value_of_text(es[k].0.len());
                        lemma_bytes_at_index(data, self.position as int, bytes_enc(es[k].0) + (enc(es[k].1) + rest), 0);
                    }
                }
                assert forall|es: Seq<(Seq<u8>, BValue)>, key: Seq<u8>| #[trigger] dict_stops(data, start, es, key, tuples, text) is Some implies dict_stops(data, start, es, key, tuples, text) == Some(DecodeError::MalformedStructure) by {}
                {
                    assert forall|es: Seq<(Seq<u8>, BValue)>| entries_everywhere(es, rule) && keys_ascending(es) && (text ==> keys_utf8(es)) && #[trigger] bytes_at(data, start, enc_entries(es) + seq![101u8]) implies false by {
                        let k = d@.len() as int;
                        if k < es.len() {
                            lemma_entries_at(es, k);
                        } else {
                            assert(es.take(k) =~= es);
                        }
                    }
                }
            }
            return Err(DecodeError::MalformedStructure);
        }
        proof {
            let es0 = d@;
            assert(data.subrange(start, self.position + 1) =~= enc_entries(es0) + seq![101u8]) by {
                assert forall|i: int| 0 <= i < enc_entries(es0).len() + 1 implies data[start + i] == (enc_entries(es0) + seq![101u8])[i] by {
                    if i < enc_entries(es0).len() {
                        lemma_bytes_at_index(data, start, enc_entries(es0), i);
                    }
                }
            }
            {
                assert forall|es: Seq<(Seq<u8>, BValue)>| entries_everywhere(es, rule) && keys_ascending(es) && (text ==> keys_utf8(es)) && #[trigger] bytes_at(data, start, enc_entries(es) + seq![101u8]) implies d@ == es by {
                    let k = d@.len() as int;
                    if k < es.len() {
                        lemma_entries_at(es, k);
                        lemma_value_of_text(es[k].0.len());
                        let rest = enc_entries(es.skip(k + 1)) + seq![101u8];
                        assert(enc_entries(es) + seq![101u8] =~= enc_entries(es.take(k)) + (bytes_enc(es[k].0) + (enc(es[k].1) + rest)));
                        lemma_bytes_at_split(data, start, enc_entries(es.take(k)), bytes_enc(es[k].0) + (enc(es[k].1) + rest));
                        lemma_bytes_at_index(data, self.position as int, bytes_enc(es[k].0) + (enc(es[k].1) + rest), 0);
                    } else {
                        assert(es.take(k) =~= es);
                    }
                }
            }
        }
        proof {
                assert forall|es: Seq<(Seq<u8>, BValue)>, key: Seq<u8>| #[trigger] dict_stops(data, start, es, key, tuples, text) is Some implies
                    (d@.len() < es.len() ==> self.position < data.len() && is_digit(data[self.position as int]))
                    && (d@.len() == es.len() ==> self.position == start + enc_entries(es).len()) by {
                    let k = d@.len() as int;
                    if k == es.len() {
                        assert(es.take(k) =~= es);
                    } else {
                        lemma_entries_at(es, k);
                        let rest = enc_entries(es.skip(k + 1));
                        assert(enc_entries(es) =~= enc_entries(es.take(k)) + (bytes_enc(es[k].0) + (enc(es[k].1) + rest)));
                        lemma_bytes_at_split(data, start, enc_entries(es.take(k)), bytes_enc(es[k].0) + (enc(es[k].1) + rest));
                        lemma_value_of_text(es[k].0.len());
                        lemma_bytes_at_index(data, self.position as int, bytes_enc(es[k].0) + (enc(es[k].1) + rest), 0);
                    }
                }
            assert forall|es: Seq<(Seq<u8>, BValue)>, key: Seq<u8>| #[trigger] dict_stops(data, start, es, key, tuples, text) is Some implies false by {}
        }
        self.position = self.position + 1;
        Ok(d)
    }

    /// Decodes one value that runs from the position to the end of the
    /// buffer; bytes after the value are an error.
    pub fn decode(&mut self) -> (r: Result<Value, DecodeError>)
        requires
            old(self).position <= old(self).data@.len(),
        ensures
            forall|ws: Seq<BValue>, es: Seq<(Seq<u8>, BValue)>, key: Seq<u8>|
                #[trigger] container_error(old(self).data@, old(self).position as int, ws, es, key, old(self).yield_tuples, old(self).utf8_strings) matches Some(e)
                ==> (r is Err && r->Err_0 == e),
            token_error(old(self).data@, old(self).position as int, old(self).utf8_strings) matches Some(e)
                ==> (r is Err && r->Err_0 == e),
            old(self).position >= old(self).data@.len() ==> (r is Err && r->Err_0 == DecodeError::Underflow),
            starts_no_value(old(self).data@, old(self).position as int) ==> (r is Err && r->Err_0
                == DecodeError::UnknownType(old(self).data@[old(self).position as int])),
            final(self).data == old(self).data,
            r matches Ok(v) ==> {
                &&& enc(v@) == old(self).data@.subrange(old(self).position as int, old(self).data@.len() as int)
                &&& canonical(v@)
                &&& !(v@ is Precomputed)
                &&& decodable(v@, old(self).yield_tuples, old(self).utf8_strings)
            },
            forall|w: BValue|
                decodable(w, old(self).yield_tuples, old(self).utf8_strings) && #[trigger] enc(w) == old(self).data@.subrange(
                    old(self).position as int,
                    old(self).data@.len() as int,
                ) ==> (r matches Ok(v) && v@ == w),
            ((r is Err && r->Err_0 == DecodeError::TrailingData) <==> exists|w: BValue|
                decodable(w, old(self).yield_tuples, old(self).utf8_strings) && old(self).position + enc(w).len() < old(self).data@.len()
                    && #[trigger] bytes_at(old(self).data@, old(self).position as int, enc(w))),
    {
        let ghost start = self.position as int;
        let ghost data = self.data@;
        let ghost tuples = self.yield_tuples;
        let ghost text = self.utf8_strings;
        proof {
            assert forall|w: BValue| #[trigger] enc(w) == data.subrange(start, data.len() as int) implies bytes_at(data, start, enc(w)) by {}
        }
        let v = match self.decode_object() {
            Ok(v) => v,
            Err(e) => {
                return Err(e);
            },
        };
        if self.position < self.data.len() {
            proof {
                {
                    assert(bytes_at(data, start, enc(v@)));
                }
            }
            return Err(DecodeError::TrailingData);
        }
        Ok(v)
    }

    /// Where `data` holds the encoding of `b` from the position on, its
    /// length digits run, all digits, up to the first `:`.
    proof fn lemma_length_text(&self, b: Seq<u8>, j: int)
        requires
            bytes_at(self.data@, self.position as int, bytes_enc(b)),
            self.position <= j <= self.data@.len(),
            forall|i: int| self.position <= i < j ==> is_digit(#[trigger] self.data@[i]),
            j < self.data@.len() ==> (self.data@[j] == 58u8 || !is_digit(self.data@[j])),
        ensures
            j == self.position + nat_text(b.len()).len(),
            j < self.data@.len(),
            self.data@[j] == 58u8,
            nat_text(b.len()) == self.data@.subrange(self.position as int, j),
    {
        lemma_value_of_text(b.len());
        let start = self.position as int;
        let t = bytes_enc(b);
        let k = nat_text(b.len()).len() as int;
        lemma_bytes_at_index(self.data@, start, t, k);
        if j < start + k {
            lemma_bytes_at_index(self.data@, start, t, j - start);
        } else if j > start + k {
            assert(is_digit(self.data@[start + k]));
        }
        assert(nat_text(b.len()) =~= self.data@.subrange(start, j)) by {
            assert forall|i: int| 0 <= i < k implies nat_text(b.len())[i] == self.data@.subrange(start, j)[i] by {
                lemma_bytes_at_index(self.data@, start, t, i);
            }
        }
    }
}

/// `b` is the encoding of `w`, a value in the form the decoder yields.
pub open spec fn decodes_to(b: Seq<u8>, w: BValue, tuples: bool, text: bool) -> bool {
    decodable(w, tuples, text) && enc(w) == b
}

/// What decoding `b` gives: the value, in decoder form, whose encoding `b`
/// is, if there is one.
pub open spec fn decoded(b: Seq<u8>, tuples: bool, text: bool) -> Option<BValue> {
    if exists|w: BValue| decodes_to(b, w, tuples, text) {
        Some(choose|w: BValue| decodes_to(b, w, tuples, text))
    } else {
        None
    }
}

/// A proper prefix of `b` is the encoding of a value in decoder form.
pub open spec fn has_trailing_data(b: Seq<u8>, tuples: bool, text: bool) -> bool {
    exists|w: BValue|
        decodable(w, tuples, text) && enc(w).len() < b.len() && #[trigger] bytes_at(b, 0, enc(w))
}

/// Decodes all of `s` with the given options.
fn decode_all(s: &[u8], tuples: bool, text: bool) -> (r: Result<Value, DecodeError>)
    ensures
        forall|ws: Seq<BValue>, es: Seq<(Seq<u8>, BValue)>, key: Seq<u8>|
            #[trigger] container_error(s@, 0, ws, es, key, tuples, text) matches Some(e) ==> (r is Err && r->Err_0 == e),
        token_error(s@, 0, text) matches Some(e) ==> (r is Err && r->Err_0 == e),
        s@.len() == 0 ==> (r is Err && r->Err_0 == DecodeError::Underflow),
        starts_no_value(s@, 0) ==> (r is Err && r->Err_0 == DecodeError::UnknownType(s@[0])),
        r is Ok <==> decoded(s@, tuples, text) is Some,
        r matches Ok(v) ==> decoded(s@, tuples, text) == Some(v@),
        (r is Err && r->Err_0 == DecodeError::TrailingData) <==> has_trailing_data(s@, tuples, text),
{
    let mut data: Vec<u8> = Vec::new();
    append_slice(&mut data, s);
    let mut decoder = Decoder::new(data, tuples, text);
    proof {
        assert(decoder.data@.subrange(0, decoder.data@.len() as int) =~= s@);
    }
    let r = decoder.decode();
    proof {
        if exists|w: BValue| decodes_to(s@, w, tuples, text) {
            let w = choose|w: BValue| decodes_to(s@, w, tuples, text);
            assert(decodes_to(s@, w, tuples, text));
        }
        if r is Ok {
            assert(decodes_to(s@, r->Ok_0@, tuples, text));
        }
    }
    r
}

/// Decodes a whole buffer that holds one canonical encoding. Lists come out
/// as `Value::List`, byte strings as `Value::Bytes`. Fails exactly when the
/// buffer is no such encoding.
pub fn bdecode(s: &[u8]) -> (r: Result<Value, DecodeError>)
    ensures
        forall|ws: Seq<BValue>, es: Seq<(Seq<u8>, BValue)>, key: Seq<u8>|
            #[trigger] container_error(s@, 0, ws, es, key, false, false) matches Some(e) ==> (r is Err && r->Err_0 == e),
        token_error(s@, 0, false) matches Some(e) ==> (r is Err && r->Err_0 == e),
        s@.len() == 0 ==> (r is Err && r->Err_0 == DecodeError::Underflow),
        starts_no_value(s@, 0) ==> (r is Err && r->Err_0 == DecodeError::UnknownType(s@[0])),
        r is Ok <==> decoded(s@, false, false) is Some,
        r matches Ok(v) ==> decoded(s@, false, false) == Some(v@),
        (r is Err && r->Err_0 == DecodeError::TrailingData) <==> has_trailing_data(s@, false, false),
{
    decode_all(s, false, false)
}

/// As `bdecode`, with lists as `Value::Tuple`.
pub fn bdecode_as_tuple(s: &[u8]) -> (r: Result<Value, DecodeError>)
    ensures
        forall|ws: Seq<BValue>, es: Seq<(Seq<u8>, BValue)>, key: Seq<u8>|
            #[trigger] container_error(s@, 0, ws, es, key, true, false) matches Some(e) ==> (r is Err && r->Err_0 == e),
        token_error(s@, 0, false) matches Some(e) ==> (r is Err && r->Err_0 == e),
        s@.len() == 0 ==> (r is Err && r->Err_0 == DecodeError::Underflow),
        starts_no_value(s@, 0) ==> (r is Err && r->Err_0 == DecodeError::UnknownType(s@[0])),
        r is Ok <==> decoded(s@, true, false) is Some,
        r matches Ok(v) ==> decoded(s@, true, false) == Some(v@),
        (r is Err && r->Err_0 == DecodeError::TrailingData) <==> has_trailing_data(s@, true, false),
{
    decode_all(s, true, false)
}

/// As `bdecode`, with byte strings as `Value::Text`; a byte string (key or
/// value) that is not valid UTF-8 makes the buffer no such encoding.
pub fn bdecode_utf8(s: &[u8]) -> (r: Result<Value, DecodeError>)
    ensures
        forall|ws: Seq<BValue>, es: Seq<(Seq<u8>, BValue)>, key: Seq<u8>|
            #[trigger] container_error(s@, 0, ws, es, key, false, true) matches Some(e) ==> (r is Err && r->Err_0 == e),
        token_error(s@, 0, true) matches Some(e) ==> (r is Err && r->Err_0 == e),
        s@.len() == 0 ==> (r is Err && r->Err_0 == DecodeError::Underflow),
        starts_no_value(s@, 0) ==> (r is Err && r->Err_0 == DecodeError::UnknownType(s@[0])),
        r is Ok <==> decoded(s@, false, true) is Some,
        r matches Ok(v) ==> decoded(s@, false, true) == Some(v@),
        (r is Err && r->Err_0 == DecodeError::TrailingData) <==> has_trailing_data(s@, false, true),
{
    decode_all(s, false, true)
}

} // verus!
