//! General properties of the arithmetic, each stated over the digit-store
//! model that the operations' contracts speak of, and proved once for every
//! input its statement covers.
use vstd::prelude::*;

use crate::biguint::fold_len;
use crate::digits::add_len;
use crate::digits::canonical;
use crate::digits::dec_digits;
use crate::digits::digit_char;
use crate::digits::fact;
use crate::digits::lemma_append_zeros;
use crate::digits::lemma_canonical_unique;
use crate::digits::lemma_dec_digits;
use crate::digits::lemma_seq_value_bound;
use crate::digits::lemma_seq_value_singleton;
use crate::digits::lemma_value_len_unique;
use crate::digits::lemma_zeros_value;
use crate::digits::pow10;
use crate::digits::seq_value;
use crate::digits::text_of;
use crate::digits::wf_digits;
use crate::digits::zeros;

verus! {

/// **Round trip**: the digit store built from a 64-bit integer denotes that
/// integer and carries no leading zero, so its rendering is the decimal
/// text of the integer, with `"0"` as the only text that starts with a zero
/// character.
pub proof fn lemma_round_trip(n: u64)
    ensures
        seq_value(dec_digits(n as nat)) == n,
        canonical(dec_digits(n as nat)),
        text_of(dec_digits(n as nat)).len() >= 1,
        dec_digits(n as nat).len() > 1 ==> text_of(dec_digits(n as nat))[0] != '0',
{
    lemma_dec_digits(n as nat);
    if dec_digits(n as nat).len() > 1 {
        assert(text_of(dec_digits(n as nat))[0] == digit_char(dec_digits(n as nat)[0]));
    }
}

/// **Additive identity**: adding the canonical zero, on either side and
/// with no shift, returns the other operand's digit store unchanged.  The
/// parameters describe what shifted addition ensures of its result `r`.
pub proof fn lemma_add_zero_identity(a: Seq<u8>, z: Seq<u8>, r: Seq<u8>)
    requires
        wf_digits(a),
        z == seq![0u8],
        wf_digits(r),
        seq_value(r) == seq_value(a),
        r.len() == add_len(a.len(), z.len(), 0, seq_value(r)) || r.len() == add_len(
            z.len(),
            a.len(),
            0,
            seq_value(r),
        ),
    ensures
        r == a,
{
    lemma_seq_value_bound(a);
    lemma_value_len_unique(r, a);
}

/// **Commutativity of addition**: the two orders of adding the same two
/// values, with no shift, produce the same digit store.  The parameters
/// describe what shifted addition ensures of the two results.
pub proof fn lemma_add_commutes(a: Seq<u8>, b: Seq<u8>, r_ab: Seq<u8>, r_ba: Seq<u8>)
    requires
        wf_digits(a),
        wf_digits(b),
        wf_digits(r_ab),
        wf_digits(r_ba),
        seq_value(r_ab) == seq_value(a) + seq_value(b) * pow10(0),
        r_ab.len() == add_len(a.len(), b.len(), 0, seq_value(r_ab)),
        seq_value(r_ba) == seq_value(b) + seq_value(a) * pow10(0),
        r_ba.len() == add_len(b.len(), a.len(), 0, seq_value(r_ba)),
    ensures
        r_ab == r_ba,
{
    assert(pow10(0) == 1);
    lemma_value_len_unique(r_ab, r_ba);
}

/// **Commutativity of multiplication**: the two orders produce the same
/// digit store, for operands of different digit counts, and for operands of
/// equal digit counts when both are free of leading zeros.  (Two
/// equal-length operands that carry leading zeros can produce differently
/// padded stores of the same value in the two orders.)  The parameters
/// describe what multiplication ensures of the two products.
pub proof fn lemma_mul_commutes(a: Seq<u8>, b: Seq<u8>, p: Seq<u8>, q: Seq<u8>)
    requires
        wf_digits(a),
        wf_digits(b),
        wf_digits(p),
        wf_digits(q),
        seq_value(p) == seq_value(a) * seq_value(b),
        seq_value(q) == seq_value(b) * seq_value(a),
        p.len() == (if a.len() > b.len() {
            fold_len(b, a.len(), seq_value(a), b.len())
        } else {
            fold_len(a, b.len(), seq_value(b), a.len())
        }),
        q.len() == (if b.len() > a.len() {
            fold_len(a, b.len(), seq_value(b), a.len())
        } else {
            fold_len(b, a.len(), seq_value(a), b.len())
        }),
        a.len() != b.len() || (canonical(a) && canonical(b) && canonical(p) && canonical(q)),
    ensures
        p == q,
{
    if a.len() != b.len() {
        assert(p.len() == q.len());
        lemma_value_len_unique(p, q);
    } else {
        lemma_canonical_unique(p, q);
    }
}

/// **Shift equivalence**: adding `b` shifted by `k` gives the same digit
/// store as first appending `k` zero digits to `b` and then adding with no
/// shift.  The parameters describe what shifted addition ensures of the two
/// results.
pub proof fn lemma_shift_equivalence(a: Seq<u8>, b: Seq<u8>, k: nat, r1: Seq<u8>, r2: Seq<u8>)
    requires
        wf_digits(a),
        wf_digits(b),
        wf_digits(r1),
        wf_digits(r2),
        seq_value(r1) == seq_value(a) + seq_value(b) * pow10(k),
        r1.len() == add_len(a.len(), b.len(), k, seq_value(r1)),
        seq_value(r2) == seq_value(a) + seq_value(b + zeros(k)) * pow10(0),
        r2.len() == add_len(a.len(), (b + zeros(k)).len(), 0, seq_value(r2)),
    ensures
        r1 == r2,
{
    assert(pow10(0) == 1);
    lemma_append_zeros(b, k);
    lemma_zeros_value(k);
    assert((b + zeros(k)).len() == b.len() + k);
    lemma_value_len_unique(r1, r2);
}

/// **Multiplicative identity and zero**: multiplication returns the other
/// operand's digit store unchanged when one operand is the one-digit store
/// of one, and the one-digit zero store when one operand is the one-digit
/// zero, as its own contract states; this lemma connects those one-digit
/// stores to what construction from the integers one and zero produces.
pub proof fn lemma_unit_stores()
    ensures
        dec_digits(1) == seq![1u8],
        dec_digits(0) == seq![0u8],
        seq_value(seq![1u8]) == 1,
        seq_value(seq![0u8]) == 0,
{
    assert(dec_digits(1) =~= seq![1u8]);
    assert(dec_digits(0) =~= seq![0u8]);
    lemma_seq_value_singleton(1u8);
    lemma_seq_value_singleton(0u8);
}

/// **Factorial growth**: for a positive count, the factorial's digit store
/// is the product of the previous factorial and the count, and the
/// factorial of zero is one.  The parameters describe what the factorial
/// and multiplication operations ensure of their results.
pub proof fn lemma_factorial_growth(f_prev: Seq<u8>, f_cur: Seq<u8>, prod: Seq<u8>, n: nat)
    requires
        n >= 1,
        canonical(f_prev),
        canonical(f_cur),
        canonical(prod),
        seq_value(f_prev) == fact((n - 1) as nat),
        seq_value(f_cur) == fact(n),
        seq_value(prod) == seq_value(f_prev) * n,
    ensures
        f_cur == prod,
        fact(0) == 1,
{
    assert(fact(n) == n * fact((n - 1) as nat));
    lemma_canonical_unique(f_cur, prod);
}

} // verus!
