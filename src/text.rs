//! Decimal text of natural numbers: the digit runs that bencode uses for
//! integers and for byte-string lengths.
use vstd::arithmetic::div_mod::lemma_fundamental_div_mod_converse;
use vstd::prelude::*;

verus! {

/// An ASCII decimal digit.
pub open spec fn is_digit(c: u8) -> bool {
    48 <= c <= 57
}

/// The shortest decimal text of `n`, most significant digit first.
pub open spec fn nat_text(n: nat) -> Seq<u8>
    decreases n,
{
    if n < 10 {
        seq![(48 + n) as u8]
    } else {
        nat_text(n / 10).push((48 + n % 10) as u8)
    }
}

/// The number that a run of decimal digits denotes.
pub open spec fn digits_value(d: Seq<u8>) -> nat
    decreases d.len(),
{
    if d.len() == 0 {
        0
    } else {
        digits_value(d.drop_last()) * 10 + (d.last() - 48) as nat
    }
}

/// A non-empty run of digits with no leading zero (a lone `0` is allowed).
pub open spec fn canonical_digits(d: Seq<u8>) -> bool {
    &&& d.len() > 0
    &&& forall|i: int| 0 <= i < d.len() ==> is_digit(#[trigger] d[i])
    &&& d.len() > 1 ==> d[0] != 48
}

/// A canonical digit run is the decimal text of its value.
pub proof fn lemma_text_of_value(d: Seq<u8>)
    requires
        canonical_digits(d),
    ensures
        nat_text(digits_value(d)) == d,
        d.len() > 1 ==> digits_value(d) >= 10,
        d[0] != 48 ==> digits_value(d) >= 1,
    decreases d.len(),
{
    if d.len() == 1 {
        assert(d.drop_last().len() == 0);
        assert(digits_value(d.drop_last()) == 0);
        assert(digits_value(d) == (d[0] - 48) as nat);
        assert(nat_text(digits_value(d)) =~= d);
    } else {
        let p = d.drop_last();
        assert(p[0] == d[0]);
        assert forall|i: int| 0 <= i < p.len() implies is_digit(#[trigger] p[i]) by {
            assert(p[i] == d[i]);
        }
        lemma_text_of_value(p);
        let c = (d.last() - 48) as nat;
        assert(is_digit(d[d.len() - 1]));
        lemma_fundamental_div_mod_converse(
            digits_value(d) as int,
            10,
            digits_value(p) as int,
            c as int,
        );
        assert(nat_text(digits_value(d)) =~= p.push(d.last()));
    }
}

/// The decimal text of a number is a canonical digit run denoting it.
pub proof fn lemma_value_of_text(n: nat)
    ensures
        canonical_digits(nat_text(n)),
        digits_value(nat_text(n)) == n,
        nat_text(n).len() >= 1,
        n >= 1 ==> nat_text(n)[0] != 48,
    decreases n,
{
    if n < 10 {
        let t = nat_text(n);
        assert(t.drop_last().len() == 0);
        assert(digits_value(t.drop_last()) == 0);
    } else {
        lemma_value_of_text(n / 10);
        vstd::arithmetic::div_mod::lemma_fundamental_div_mod(n as int, 10);
        let t = nat_text(n);
        let p = nat_text(n / 10);
        assert(t.drop_last() =~= p);
        assert(digits_value(t) == digits_value(p) * 10 + n % 10);
        assert(t[0] == p[0]);
        assert forall|i: int| 0 <= i < t.len() implies is_digit(#[trigger] t[i]) by {
            if i < p.len() {
                assert(t[i] == p[i]);
            }
        }
    }
}

/// A prefix of a digit run denotes no more than the whole run.
pub proof fn lemma_prefix_value(d: Seq<u8>, k: int)
    requires
        0 <= k <= d.len(),
    ensures
        digits_value(d.subrange(0, k)) <= digits_value(d),
    decreases d.len(),
{
    if k < d.len() {
        let p = d.drop_last();
        lemma_prefix_value(p, k);
        assert(p.subrange(0, k) =~= d.subrange(0, k));
    } else {
        assert(d.subrange(0, k) =~= d);
    }
}

/// Appends the decimal text of `n`.
pub fn push_decimal(out: &mut Vec<u8>, n: usize)
    ensures
        final(out)@ == old(out)@ + nat_text(n as nat),
    decreases n,
{
    if n >= 10 {
        push_decimal(out, n / 10);
    }
    out.push((48 + n % 10) as u8);
    proof {
        if n >= 10 {
            assert(final(out)@ =~= old(out)@ + nat_text(n as nat));
        } else {
            assert(final(out)@ =~= old(out)@ + nat_text(n as nat));
        }
    }
}

/// Reads `data[start..end]`, a run of digits, as a `usize`; `None` when its
/// value does not fit.
pub fn parse_decimal(data: &[u8], start: usize, end: usize) -> (r: Option<usize>)
    requires
        start <= end <= data@.len(),
        forall|i: int| start <= i < end ==> is_digit(#[trigger] data@[i]),
    ensures
        match r {
            Some(v) => v as nat == digits_value(data@.subrange(start as int, end as int)),
            None => digits_value(data@.subrange(start as int, end as int)) > usize::MAX,
        },
{
    let mut acc: usize = 0;
    let mut i: usize = start;
    while i < end
        invariant
            start <= i <= end <= data@.len(),
            forall|j: int| start <= j < end ==> is_digit(#[trigger] data@[j]),
            acc as nat == digits_value(data@.subrange(start as int, i as int)),
        decreases end - i,
    {
        let c = data[i];
        assert(is_digit(data@[i as int]));
        let ghost next = data@.subrange(start as int, i + 1);
        assert(next.drop_last() =~= data@.subrange(start as int, i as int));
        if acc > (usize::MAX - (c - 48) as usize) / 10 {
            proof {
                assert(digits_value(next) > usize::MAX) by (nonlinear_arith)
                    requires
                        digits_value(next) == acc * 10 + (c - 48),
                        acc > (usize::MAX - (c - 48)) / 10,
                        0 <= c - 48 <= 9,
                ;
                lemma_prefix_value(
                    data@.subrange(start as int, end as int),
                    i + 1 - start,
                );
                assert(data@.subrange(start as int, end as int).subrange(0, i + 1 - start)
                    =~= next);
            }
            return None;
        }
        proof {
            assert(acc * 10 + (c - 48) <= usize::MAX) by (nonlinear_arith)
                requires
                    acc <= (usize::MAX - (c - 48)) / 10,
                    0 <= c - 48 <= 9,
            ;
        }
        acc = acc * 10 + (c - 48) as usize;
        i = i + 1;
    }
    Some(acc)
}

} // verus!
