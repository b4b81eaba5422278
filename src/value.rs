//! The value model: what a decode produces and an encode consumes, its
//! mathematical view, and the canonical byte form of every value.
use crate::order::{compare_bytes, lex_lt};
use crate::text::{
    canonical_digits, digits_value, is_digit, lemma_text_of_value, nat_text,
};
use vstd::prelude::*;
use vstd::utf8::{encode_utf8, valid_utf8};

verus! {

broadcast use {vstd::seq::group_seq_axioms, vstd::std_specs::vec::group_vec_axioms};

/// The mathematical view of a bencode value.
pub enum BValue {
    Int(int),
    Bytes(Seq<u8>),
    Text(Seq<char>),
    List(Seq<BValue>),
    Tuple(Seq<BValue>),
    Dict(Seq<(Seq<u8>, BValue)>),
    Precomputed(Seq<u8>),
}

/// Decimal text of an integer: a `-` before the magnitude when negative.
pub open spec fn int_text(n: int) -> Seq<u8> {
    if n < 0 {
        seq![45u8] + nat_text((-n) as nat)
    } else {
        nat_text(n as nat)
    }
}

/// A byte string on the wire: its length, `:`, then its bytes.
pub open spec fn bytes_enc(b: Seq<u8>) -> Seq<u8> {
    nat_text(b.len()) + seq![58u8] + b
}

/// The canonical bencoding of a value. A dictionary is written in the order
/// of its entries; a canonical one keeps them sorted by key.
pub open spec fn enc(v: BValue) -> Seq<u8>
    decreases v,
{
    match v {
        BValue::Int(n) => seq![105u8] + int_text(n) + seq![101u8],
        BValue::Bytes(b) => bytes_enc(b),
        BValue::Text(t) => bytes_enc(encode_utf8(t)),
        BValue::List(items) => seq![108u8] + enc_items(items) + seq![101u8],
        BValue::Tuple(items) => seq![108u8] + enc_items(items) + seq![101u8],
        BValue::Dict(entries) => seq![100u8] + enc_entries(entries) + seq![101u8],
        BValue::Precomputed(b) => b,
    }
}

/// The encodings of a run of values, one after another.
pub open spec fn enc_items(s: Seq<BValue>) -> Seq<u8>
    decreases s,
{
    if s.len() == 0 {
        Seq::empty()
    } else {
        enc_items(s.drop_last()) + enc(s.last())
    }
}

/// The encodings of a run of dictionary entries, each key before its value.
pub open spec fn enc_entries(s: Seq<(Seq<u8>, BValue)>) -> Seq<u8>
    decreases s,
{
    if s.len() == 0 {
        Seq::empty()
    } else {
        enc_entries(s.drop_last()) + bytes_enc(s.last().0) + enc(s.last().1)
    }
}

/// Keys in strictly increasing byte order: sorted and without duplicates.
pub open spec fn keys_ascending(s: Seq<(Seq<u8>, BValue)>) -> bool {
    forall|i: int| 0 < i < s.len() ==> lex_lt(#[trigger] s[i - 1].0, s[i].0)
}

/// Every key is valid UTF-8.
pub open spec fn keys_utf8(s: Seq<(Seq<u8>, BValue)>) -> bool {
    forall|i: int| 0 <= i < s.len() ==> valid_utf8(#[trigger] s[i].0)
}

/// A property of one node of a value tree, not looking at its children.
pub enum NodeRule {
    /// Not text.
    TextFree,
    /// A dictionary has strictly ascending keys.
    Canonical,
    /// In the form that the decoder yields: byte strings as bytes (or, with
    /// `text`, as text, and every key valid UTF-8), no precomputed bytes,
    /// sequences as lists (or, with `tuples`, as tuples), dictionaries with
    /// strictly ascending keys.
    Decoded { tuples: bool, text: bool },
}

pub open spec fn node_ok(v: BValue, rule: NodeRule) -> bool {
    match rule {
        NodeRule::TextFree => !(v is Text),
        NodeRule::Canonical => v is Dict ==> keys_ascending(v->Dict_0),
        NodeRule::Decoded { tuples, text } => match v {
            BValue::Int(_) => true,
            BValue::Bytes(_) => !text,
            BValue::Text(_) => text,
            BValue::List(_) => !tuples,
            BValue::Tuple(_) => tuples,
            BValue::Dict(entries) => keys_ascending(entries) && (text ==> keys_utf8(entries)),
            BValue::Precomputed(_) => false,
        },
    }
}

/// `rule` holds of every node of `v`.
pub open spec fn everywhere(v: BValue, rule: NodeRule) -> bool
    decreases v,
{
    node_ok(v, rule) && match v {
        BValue::List(items) => items_everywhere(items, rule),
        BValue::Tuple(items) => items_everywhere(items, rule),
        BValue::Dict(entries) => entries_everywhere(entries, rule),
        _ => true,
    }
}

/// `rule` holds of every node of every value of `s`.
pub open spec fn items_everywhere(s: Seq<BValue>, rule: NodeRule) -> bool
    decreases s,
{
    s.len() == 0 || (items_everywhere(s.drop_last(), rule) && everywhere(s.last(), rule))
}

/// `rule` holds of every node of every entry's value in `s`.
pub open spec fn entries_everywhere(s: Seq<(Seq<u8>, BValue)>, rule: NodeRule) -> bool
    decreases s,
{
    s.len() == 0 || (entries_everywhere(s.drop_last(), rule) && everywhere(s.last().1, rule))
}

/// No text anywhere in the value.
pub open spec fn text_free(v: BValue) -> bool {
    everywhere(v, NodeRule::TextFree)
}

/// Every dictionary, at any depth, has strictly ascending keys.
pub open spec fn canonical(v: BValue) -> bool {
    everywhere(v, NodeRule::Canonical)
}

/// A value in exactly the form that the decoder yields (see `NodeRule::Decoded`).
pub open spec fn decodable(v: BValue, tuples: bool, text: bool) -> bool {
    everywhere(v, NodeRule::Decoded { tuples, text })
}

/// `items_everywhere` is the rule on each item.
pub proof fn lemma_items_everywhere(s: Seq<BValue>, rule: NodeRule)
    ensures
        items_everywhere(s, rule) <==> forall|i: int|
            0 <= i < s.len() ==> everywhere(#[trigger] s[i], rule),
    decreases s.len(),
{
    if s.len() > 0 {
        lemma_items_everywhere(s.drop_last(), rule);
        if forall|i: int| 0 <= i < s.len() ==> everywhere(#[trigger] s[i], rule) {
            assert forall|i: int| 0 <= i < s.drop_last().len() implies everywhere(
                #[trigger] s.drop_last()[i],
                rule,
            ) by {
                assert(s.drop_last()[i] == s[i]);
            }
            assert(everywhere(s[s.len() - 1], rule));
        }
        if items_everywhere(s, rule) {
            assert forall|i: int| 0 <= i < s.len() implies everywhere(#[trigger] s[i], rule) by {
                if i < s.len() - 1 {
                    assert(s.drop_last()[i] == s[i]);
                }
            }
        }
    }
}

/// `entries_everywhere` is the rule on each entry's value.
pub proof fn lemma_entries_everywhere(s: Seq<(Seq<u8>, BValue)>, rule: NodeRule)
    ensures
        entries_everywhere(s, rule) <==> forall|i: int|
            0 <= i < s.len() ==> everywhere(#[trigger] s[i].1, rule),
    decreases s.len(),
{
    if s.len() > 0 {
        lemma_entries_everywhere(s.drop_last(), rule);
        if forall|i: int| 0 <= i < s.len() ==> everywhere(#[trigger] s[i].1, rule) {
            assert forall|i: int| 0 <= i < s.drop_last().len() implies everywhere(
                #[trigger] s.drop_last()[i].1,
                rule,
            ) by {
                assert(s.drop_last()[i] == s[i]);
            }
            assert(everywhere(s[s.len() - 1].1, rule));
        }
        if entries_everywhere(s, rule) {
            assert forall|i: int| 0 <= i < s.len() implies everywhere(#[trigger] s[i].1, rule) by {
                if i < s.len() - 1 {
                    assert(s.drop_last()[i] == s[i]);
                }
            }
        }
    }
}

/// An arbitrary-precision integer, held as its canonical decimal digits.
#[derive(Debug, PartialEq, Eq)]
pub struct Integer {
    negative: bool,
    digits: Vec<u8>,
}

impl Integer {
    #[verifier::type_invariant]
    spec fn well_formed(self) -> bool {
        &&& canonical_digits(self.digits@)
        &&& self.negative ==> self.digits@ != seq![48u8]
    }

    /// The integer's value.
    pub closed spec fn view(&self) -> int {
        if self.negative {
            -digits_value(self.digits@)
        } else {
            digits_value(self.digits@) as int
        }
    }

    /// The decimal text of the value: `-` (when negative), then the digits.
    pub fn text(&self) -> (r: Vec<u8>)
        ensures
            r@ == int_text(self@),
    {
        proof {
            use_type_invariant(self);
            lemma_text_of_value(self.digits@);
        }
        let mut r: Vec<u8> = Vec::new();
        if self.negative {
            r.push(45u8);
        }
        let mut i: usize = 0;
        while i < self.digits.len()
            invariant
                i <= self.digits@.len(),
                r@ == (if self.negative { seq![45u8] } else { Seq::empty() })
                    + self.digits@.subrange(0, i as int),
            decreases self.digits@.len() - i,
        {
            r.push(self.digits[i]);
            i = i + 1;
            assert(r@ =~= (if self.negative { seq![45u8] } else { Seq::empty() })
                + self.digits@.subrange(0, i as int));
        }
        assert(self.digits@.subrange(0, i as int) =~= self.digits@);
        proof {
            if self.negative {
                assert(-(-digits_value(self.digits@)) == digits_value(self.digits@));
            }
        }
        r
    }

    /// Reads canonical decimal text (an optional `-`, then digits with no
    /// leading zero, and not `-0`); `None` for any other text.
    pub fn parse(t: &[u8]) -> (r: Option<Integer>)
        ensures
            r is Some <==> canonical_int_text(t@),
            r matches Some(n) ==> int_text(n@) == t@,
    {
        let negative = t.len() > 0 && t[0] == 45u8;
        let start: usize = if negative { 1 } else { 0 };
        if start >= t.len() {
            return None;
        }
        let mut digits: Vec<u8> = Vec::new();
        let mut i: usize = start;
        while i < t.len()
            invariant
                start <= i <= t@.len(),
                negative == (t@.len() > 0 && t@[0] == 45u8),
                start == (if negative { 1usize } else { 0usize }),
                digits@ == t@.subrange(start as int, i as int),
                forall|j: int| start <= j < i ==> is_digit(#[trigger] t@[j]),
            decreases t@.len() - i,
        {
            if t[i] < 48u8 || t[i] > 57u8 {
                if negative {
                    assert(!is_digit(t@.drop_first()[i - 1]));
                } else {
                    assert(!is_digit(t@[i as int]));
                }
                return None;
            }
            digits.push(t[i]);
            i = i + 1;
            assert(digits@ =~= t@.subrange(start as int, i as int));
        }
        assert(t@.subrange(start as int, t@.len() as int) =~= t@.drop_first() || !negative);
        if digits.len() > 1 && digits[0] == 48u8 {
            return None;
        }
        if negative && digits.len() == 1 && digits[0] == 48u8 {
            assert(digits@ =~= seq![48u8]);
            return None;
        }
        proof {
            if negative {
                assert(digits@ != seq![48u8]);
            }
        }
        let n = Integer { negative, digits };
        proof {
            lemma_integer_text(n.negative, n.digits@);
            if !negative {
                assert(t@ =~= t@.subrange(0, t@.len() as int));
            } else {
                assert(t@ =~= seq![45u8] + t@.drop_first());
            }
        }
        Some(n)
    }

    /// Whether the value is below zero.
    pub fn is_negative(&self) -> (r: bool)
        ensures
            r == (self@ < 0),
    {
        proof {
            use_type_invariant(self);
            lemma_text_of_value(self.digits@);
        }
        self.negative
    }
}

/// Decimal text as the decoder accepts it inside `i...e`: an optional `-`,
/// then canonical digits, and never `-0`.
pub open spec fn canonical_int_text(t: Seq<u8>) -> bool {
    if t.len() > 0 && t[0] == 45u8 {
        canonical_digits(t.drop_first()) && t.drop_first() != seq![48u8]
    } else {
        canonical_digits(t)
    }
}

/// The text of a well-formed integer is its sign and digits.
pub proof fn lemma_integer_text(negative: bool, d: Seq<u8>)
    requires
        canonical_digits(d),
        negative ==> d != seq![48u8],
    ensures
        int_text(if negative { -digits_value(d) } else { digits_value(d) as int })
            == (if negative { seq![45u8] + d } else { d }),
{
    lemma_text_of_value(d);
    if negative {
        if d.len() == 1 {
            assert(d[0] != 48) by {
                if d[0] == 48 {
                    assert(d =~= seq![48u8]);
                }
            }
        }
        assert(-(-digits_value(d)) == digits_value(d));
    }
}

/// Bytes that already hold a bencoding; an encode writes them out as they are.
#[derive(Debug, PartialEq, Eq)]
pub struct Bencached {
    pub bencoded: Vec<u8>,
}

impl Bencached {
    pub fn new(s: Vec<u8>) -> (r: Bencached)
        ensures
            r.bencoded@ == s@,
    {
        Bencached { bencoded: s }
    }

    /// The wrapped bytes, unchanged.
    pub fn as_bytes(&self) -> (r: &[u8])
        ensures
            r@ == self.bencoded@,
    {
        self.bencoded.as_slice()
    }
}

/// A bencode value. `Tuple` is a list that the caller asked to have as a
/// fixed sequence; it encodes as a list. `Text` is a byte string read as
/// UTF-8. `Precomputed` is only ever encoded.
#[derive(Debug)]
pub enum Value {
    Int(Integer),
    Bytes(Vec<u8>),
    Text(String),
    List(Vec<Value>),
    Tuple(Vec<Value>),
    Dict(Dict),
    Precomputed(Bencached),
}

/// A dictionary whose keys are always in strictly ascending byte order.
#[derive(Debug)]
pub struct Dict {
    pub(crate) entries: Vec<(Vec<u8>, Value)>,
}

impl Value {
    pub open spec fn view(&self) -> BValue
        decreases self,
    {
        match self {
            Value::Int(n) => BValue::Int(n@),
            Value::Bytes(b) => BValue::Bytes(b@),
            Value::Text(t) => BValue::Text(t@),
            Value::List(items) => BValue::List(values_view(items@)),
            Value::Tuple(items) => BValue::Tuple(values_view(items@)),
            Value::Dict(d) => BValue::Dict(d@),
            Value::Precomputed(p) => BValue::Precomputed(p.bencoded@),
        }
    }
}

/// The views of a run of values.
pub open spec fn values_view(s: Seq<Value>) -> Seq<BValue>
    decreases s,
{
    if s.len() == 0 {
        Seq::empty()
    } else {
        values_view(s.drop_last()).push(s.last()@)
    }
}

/// The views of a run of dictionary entries.
pub open spec fn entries_view(s: Seq<(Vec<u8>, Value)>) -> Seq<(Seq<u8>, BValue)>
    decreases s,
{
    if s.len() == 0 {
        Seq::empty()
    } else {
        entries_view(s.drop_last()).push((s.last().0@, s.last().1@))
    }
}

/// `values_view` views each value in place.
pub proof fn lemma_values_view(s: Seq<Value>)
    ensures
        values_view(s).len() == s.len(),
        forall|i: int| 0 <= i < s.len() ==> #[trigger] values_view(s)[i] == s[i]@,
    decreases s.len(),
{
    if s.len() > 0 {
        lemma_values_view(s.drop_last());
    }
}

/// `entries_view` views each entry in place.
pub proof fn lemma_entries_view(s: Seq<(Vec<u8>, Value)>)
    ensures
        entries_view(s).len() == s.len(),
        forall|i: int|
            0 <= i < s.len() ==> #[trigger] entries_view(s)[i] == (s[i].0@, s[i].1@),
    decreases s.len(),
{
    if s.len() > 0 {
        lemma_entries_view(s.drop_last());
    }
}

impl Dict {
    #[verifier::type_invariant]
    pub(crate) closed spec fn well_formed(self) -> bool {
        keys_ascending(entries_view(self.entries@))
    }

    /// The entries, in ascending key order.
    pub closed spec fn view(&self) -> Seq<(Seq<u8>, BValue)>
        decreases self,
    {
        entries_view(self.entries@)
    }

    /// What the view is made of.
    pub(crate) proof fn lemma_view(&self)
        ensures
            self@ == entries_view(self.entries@),
            self.well_formed() == keys_ascending(self@),
    {
    }

    pub fn new() -> (r: Dict)
        ensures
            r@ == Seq::<(Seq<u8>, BValue)>::empty(),
    {
        let r = Dict { entries: Vec::new() };
        assert(entries_view(r.entries@) =~= Seq::<(Seq<u8>, BValue)>::empty());
        r
    }

    pub fn len(&self) -> (r: usize)
        ensures
            r == self@.len(),
    {
        proof {
            lemma_entries_view(self.entries@);
        }
        self.entries.len()
    }

    /// The entries, in ascending key order.
    pub fn entries(&self) -> (r: &Vec<(Vec<u8>, Value)>)
        ensures
            entries_view(r@) == self@,
            keys_ascending(self@),
    {
        proof {
            use_type_invariant(self);
        }
        &self.entries
    }

    /// Appends an entry whose key sorts after every key already present.
    pub fn push_greatest(self, key: Vec<u8>, value: Value) -> (r: Dict)
        requires
            self@.len() == 0 || lex_lt(self@.last().0, key@),
        ensures
            r@ == self@.push((key@, value@)),
    {
        proof {
            use_type_invariant(&self);
        }
        let ghost old_entries = self.entries@;
        let mut entries = self.entries;
        entries.push((key, value));
        proof {
            assert(entries@.drop_last() =~= old_entries);
            assert(entries_view(entries@) == entries_view(old_entries).push(
                (entries@.last().0@, entries@.last().1@),
            ));
        }
        Dict { entries }
    }

    /// Sets the value of `key`: replaces the entry with that key, or inserts
    /// a new entry where its key sorts.
    pub fn insert(self, key: Vec<u8>, value: Value) -> (r: Dict)
        ensures
            keys_ascending(r@),
            exists|p: int|
                0 <= p <= self@.len() && ({
                    ||| (p < self@.len() && self@[p].0 == key@ && r@
                        == self@.update(p, (key@, value@)))
                    ||| (r@ == self@.insert(p, (key@, value@)) && (p == 0
                        || lex_lt(self@[p - 1].0, key@)) && (p == self@.len()
                        || lex_lt(key@, self@[p].0)))
                }),
    {
        proof {
            use_type_invariant(&self);
            lemma_entries_view(self.entries@);
        }
        let ghost old_view = entries_view(self.entries@);
        let mut entries = self.entries;
        let ghost kv = (key@, value@);
        let mut i: usize = 0;
        while i < entries.len()
            invariant
                i <= entries@.len(),
                kv == (key@, value@),
                old_view == self@,
                old_view == entries_view(entries@),
                old_view.len() == entries@.len(),
                forall|j: int|
                    0 <= j < entries@.len() ==> #[trigger] old_view[j] == (
                    entries@[j].0@,
                    entries@[j].1@,
                ),
                keys_ascending(old_view),
                i > 0 ==> lex_lt(old_view[i - 1].0, key@),
            decreases entries@.len() - i,
        {
            let c = compare_bytes(entries[i].0.as_slice(), key.as_slice());
            let ghost before = entries@;
            if c == 0 {
                entries.set(i, (key, value));
                proof {
                    lemma_entries_view(entries@);
                    assert forall|j: int| 0 <= j < entries@.len() implies #[trigger] entries_view(
                        entries@,
                    )[j] == old_view.update(i as int, kv)[j] by {
                        if j != i {
                            assert(entries@[j] == before[j]);
                            assert(old_view[j] == (before[j].0@, before[j].1@));
                        } else {
                            assert(entries@[j].0@ == kv.0);
                            assert(entries@[j].1@ == kv.1);
                        }
                    }
                    assert(entries_view(entries@) =~= old_view.update(i as int, kv));
                    assert(old_view[i as int].0 == key@);
                    let nv = entries_view(entries@);
                    assert forall|j: int| 0 < j < nv.len() implies lex_lt(
                        #[trigger] nv[j - 1].0,
                        nv[j].0,
                    ) by {
                        assert(nv[j - 1].0 == old_view[j - 1].0);
                        assert(nv[j].0 == old_view[j].0);
                    }
                }
                return Dict { entries };
            }
            if c == 1 {
                entries.insert(i, (key, value));
                proof {
                    lemma_entries_view(entries@);
                    let nv = entries_view(entries@);
                    assert forall|j: int| 0 <= j < entries@.len() implies #[trigger] nv[j]
                        == old_view.insert(i as int, kv)[j] by {
                        if j < i {
                            assert(entries@[j] == before[j]);
                        } else if j > i {
                            assert(entries@[j] == before[j - 1]);
                        }
                    }
                    assert(nv =~= old_view.insert(i as int, kv));
                    assert forall|j: int| 0 < j < nv.len() implies lex_lt(
                        #[trigger] nv[j - 1].0,
                        nv[j].0,
                    ) by {
                        if j < i {
                            assert(nv[j - 1] == old_view[j - 1]);
                            assert(nv[j] == old_view[j]);
                            assert(lex_lt(nv[j - 1].0, nv[j].0));
                        } else if j == i {
                            assert(nv[j - 1] == old_view[j - 1]);
                            assert(nv[j] == kv);
                            assert(lex_lt(nv[j - 1].0, nv[j].0));
                        } else if j == i + 1 {
                            assert(old_view[i as int].0 == before[i as int].0@);
                            assert(lex_lt(key@, before[i as int].0@));
                            assert(nv[j - 1] == kv);
                            assert(nv[j] == old_view[j - 1]);
                            assert(lex_lt(nv[j - 1].0, nv[j].0));
                        } else {
                            let k = j - 1;
                            assert(lex_lt(old_view[k - 1].0, old_view[k].0));
                            assert(nv[j - 1] == old_view[k - 1]);
                            assert(nv[j] == old_view[k]);
                        }
                    }
                }
                return Dict { entries };
            }
            i = i + 1;
        }
        entries.push((key, value));
        proof {
            lemma_entries_view(entries@);
            let nv = entries_view(entries@);
            assert(nv =~= old_view.insert(i as int, kv));
            assert forall|j: int| 0 < j < nv.len() implies lex_lt(
                #[trigger] nv[j - 1].0,
                nv[j].0,
            ) by {
                if j < i {
                    assert(nv[j - 1] == old_view[j - 1]);
                    assert(nv[j] == old_view[j]);
                }
            }
        }
        Dict { entries }
    }
}

} // verus!
