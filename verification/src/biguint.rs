//! The arbitrary-precision unsigned integer type: a dense store of base-10
//! digits, most-significant digit first, with construction, rendering,
//! shifted addition, multiplication and factorial.
use vstd::prelude::*;
use vstd::string::StrSliceExecFns;
use vstd::string::StringExecFns;

use crate::digits::add_len;
use crate::digits::canonical;
use crate::digits::dec_digits;
use crate::digits::digit_at;
use crate::digits::digit_char;
use crate::digits::fact;
use crate::digits::is_digit_char;
use crate::digits::lemma_add_canonical;
use crate::digits::lemma_add_len_bound;
use crate::digits::lemma_append_zeros;
use crate::digits::lemma_canonical_len_bound;
use crate::digits::lemma_canonical_lower_bound;
use crate::digits::lemma_dec_digits;
use crate::digits::lemma_fact_pow_bound;
use crate::digits::lemma_leading_nonzero;
use crate::digits::lemma_low_val_bound;
use crate::digits::lemma_low_val_full;
use crate::digits::lemma_low_val_step;
use crate::digits::lemma_pow10_add;
use crate::digits::lemma_pow10_mono;
use crate::digits::lemma_pow10_pos;
use crate::digits::lemma_prepend_digit;
use crate::digits::lemma_seq_value_bound;
use crate::digits::lemma_seq_value_singleton;
use crate::digits::lemma_value_len_unique;
use crate::digits::low_val;
use crate::digits::pow10;
use crate::digits::seq_value;
use crate::digits::text_digits;
use crate::digits::text_of;
use crate::digits::valid_text;
use crate::digits::wf_digits;
use crate::digits::zeros;

verus! {

/// An arbitrary-precision unsigned integer, stored as its base-10 digits,
/// most-significant digit first.  Every valid instance is non-empty and
/// holds only digits in `[0, 9]`; construction never produces a leading
/// zero beyond the canonical single-digit zero, though text construction
/// keeps whatever leading zeros the text spells out.
#[derive(Debug)]
pub struct BigUInt(Vec<u8>);

impl View for BigUInt {
    type V = Seq<u8>;

    closed spec fn view(&self) -> Seq<u8> {
        self.0@
    }
}

impl Clone for BigUInt {
    fn clone(&self) -> (r: Self)
        ensures
            r@ == self@,
    {
        let mut v: Vec<u8> = Vec::with_capacity(self.0.len());
        let mut i: usize = 0;
        while i < self.0.len()
            invariant
                i <= self.0.len(),
                v@ == self.0@.subrange(0, i as int),
            decreases self.0.len() - i,
        {
            v.push(self.0[i]);
            assert(v@ =~= self.0@.subrange(0, i + 1));
            i = i + 1;
        }
        assert(v@ =~= self.0@);
        BigUInt(v)
    }
}

impl PartialEq for BigUInt {
    fn eq(&self, other: &Self) -> (r: bool) {
        if self.0.len() != other.0.len() {
            return false;
        }
        let mut i: usize = 0;
        while i < self.0.len()
            invariant
                i <= self.0.len(),
                self.0.len() == other.0.len(),
                forall|j: int| 0 <= j < i ==> self.0@[j] == other.0@[j],
            decreases self.0.len() - i,
        {
            if self.0[i] != other.0[i] {
                return false;
            }
            i = i + 1;
        }
        assert(self@ =~= other@);
        true
    }
}

impl Eq for BigUInt {

}

impl vstd::std_specs::cmp::PartialEqSpecImpl for BigUInt {
    open spec fn obeys_eq_spec() -> bool {
        true
    }

    open spec fn eq_spec(&self, other: &Self) -> bool {
        self@ == other@
    }
}

impl Default for BigUInt {
    /// The zero value: the one-digit store `[0]`.
    fn default() -> (r: Self)
        ensures
            r@ == seq![0u8],
            wf_digits(r@),
            seq_value(r@) == 0,
    {
        let mut v: Vec<u8> = Vec::new();
        v.push(0u8);
        proof {
            assert(v@ =~= seq![0u8]);
            lemma_seq_value_singleton(0u8);
        }
        BigUInt(v)
    }
}

/// A copy of `v` with its digits in the opposite order.
fn reversed(v: &Vec<u8>) -> (r: Vec<u8>)
    ensures
        r@ == v@.reverse(),
{
    let n: usize = v.len();
    let mut r: Vec<u8> = Vec::with_capacity(n);
    let mut i: usize = 0;
    while i < n
        invariant
            i <= n,
            n == v@.len(),
            r@.len() == i,
            forall|j: int| 0 <= j < i ==> r@[j] == v@[n - 1 - j],
        decreases n - i,
    {
        r.push(v[n - 1 - i]);
        i = i + 1;
    }
    assert(r@ =~= v@.reverse());
    r
}

/// The floor of the base-10 logarithm of `a`, used only to pre-size digit
/// buffers; the arithmetic contracts do not depend on its value.
fn log10_floor(a: u64) -> (r: u64)
    ensures
        r <= 19,
{
    let mut x: u64 = a;
    let mut c: u64 = 0;
    proof {
        assert(pow10(0) == 1);
    }
    while x >= 10
        invariant
            c <= 19,
            x >= 1 ==> pow10(c as nat) * x <= u64::MAX,
        decreases x,
    {
        proof {
            if c == 19 {
                assert(pow10(19) == 10_000_000_000_000_000_000) by {
                    reveal_with_fuel(pow10, 20);
                }
                assert(pow10(19nat) * x >= pow10(19nat) * 10) by (nonlinear_arith)
                    requires
                        x >= 10,
                ;
                assert(false);
            }
            assert(pow10(c as nat + 1) * (x / 10) <= pow10(c as nat) * x) by (nonlinear_arith)
                requires
                    x >= 10,
                    pow10(c as nat + 1) == 10 * pow10(c as nat),
                    pow10(c as nat) >= 0,
            ;
        }
        x = x / 10;
        c = c + 1;
    }
    c
}

/// The digit count of a times-table entry: how long the store for `mx`
/// scaled by the digit `d` is, when `mx` has `lmax` digits and denotes
/// `vm`, following the chain of additions that builds the table.
pub open spec fn table_len(lmax: nat, vm: nat, d: int) -> nat {
    let t2 = add_len(lmax, lmax, 0, 2 * vm);
    let t3 = add_len(t2, lmax, 0, 3 * vm);
    let t4 = add_len(t2, t2, 0, 4 * vm);
    let t5 = add_len(t3, t2, 0, 5 * vm);
    if d == 0 {
        1
    } else if d == 1 {
        lmax
    } else if d == 2 {
        t2
    } else if d == 3 {
        t3
    } else if d == 4 {
        t4
    } else if d == 5 {
        t5
    } else if d == 6 {
        add_len(t3, t3, 0, 6 * vm)
    } else if d == 7 {
        add_len(t4, t3, 0, 7 * vm)
    } else if d == 8 {
        add_len(t4, t4, 0, 8 * vm)
    } else {
        add_len(t5, t4, 0, 9 * vm)
    }
}

/// The digit count of the running total after folding the `j`
/// least-significant digits of `mn` against a multiplicand of `lmax` digits
/// denoting `vm`: each step is one shifted addition of a table entry.
pub open spec fn fold_len(mn: Seq<u8>, lmax: nat, vm: nat, j: nat) -> nat
    decreases j,
{
    if j == 0 {
        1
    } else {
        add_len(
            fold_len(mn, lmax, vm, (j - 1) as nat),
            table_len(lmax, vm, digit_at(mn, j - 1) as int),
            (j - 1) as nat,
            low_val(mn, j as int) * vm,
        )
    }
}

/// How the no-leading-zero property travels through one accumulation step of
/// multiplication: after folding `j` digits the running total is either still
/// short enough to be a partial fold, a single digit, or free of a leading
/// zero.
proof fn lemma_acc_step(t: Seq<u8>, e: Seq<u8>, j: nat, r: Seq<u8>)
    requires
        wf_digits(t),
        canonical(e),
        wf_digits(r),
        t.len() <= j || t.len() == 1 || seq_value(t) >= pow10((t.len() - 1) as nat),
        seq_value(r) == seq_value(t) + seq_value(e) * pow10(j),
        r.len() == add_len(t.len(), e.len(), j, seq_value(r)),
    ensures
        r.len() <= j + 1 || r.len() == 1 || seq_value(r) >= pow10((r.len() - 1) as nat),
{
    let m = if t.len() >= e.len() + j {
        t.len()
    } else {
        e.len() + j
    };
    let v = seq_value(r);
    let ve = seq_value(e);
    if r.len() > 1 {
        if ve == 0 {
            if e.len() > 1 {
                lemma_canonical_lower_bound(e);
                lemma_pow10_pos((e.len() - 1) as nat);
                assert(false);
            }
            assert(ve * pow10(j) == 0) by (nonlinear_arith)
                requires
                    ve == 0,
            ;
            assert(v == seq_value(t));
            lemma_seq_value_bound(t);
            if t.len() >= e.len() + j {
                assert(r.len() == t.len());
            } else {
                lemma_pow10_mono(t.len(), m as nat);
                assert(v < pow10(m as nat));
                assert(r.len() == m);
                assert(r.len() <= j + 1);
            }
        } else {
            if e.len() > 1 {
                lemma_canonical_lower_bound(e);
            } else {
                assert(pow10(0) == 1);
            }
            assert(ve >= pow10((e.len() - 1) as nat));
            lemma_pow10_add((e.len() - 1) as nat, j);
            assert(ve * pow10(j) >= pow10((e.len() - 1) as nat + j)) by (nonlinear_arith)
                requires
                    ve >= pow10((e.len() - 1) as nat),
                    pow10(j) >= 0,
                    pow10((e.len() - 1) as nat) * pow10(j) == pow10((e.len() - 1) as nat + j),
            ;
            if r.len() == m + 1 {
                assert(v >= pow10(m as nat));
            } else {
                assert(r.len() == m);
                if e.len() + j >= t.len() {
                    assert(v >= pow10((m - 1) as nat));
                } else {
                    assert(t.len() == m && m > 1);
                    assert(t.len() > j);
                    assert(seq_value(t) >= pow10((t.len() - 1) as nat));
                    assert(ve * pow10(j) >= 0) by (nonlinear_arith);
                    assert(v >= pow10((m - 1) as nat));
                }
            }
        }
    }
}

/// The times-table of `mx`: entry `d` holds `mx` scaled by the digit `d`,
/// each built from smaller multiples by a constant number of additions.
#[verifier::loop_isolation(false)]
fn setup_times(mx: &BigUInt) -> (r: Vec<BigUInt>)
    requires
        wf_digits(mx@),
        mx@.len() + 2 <= usize::MAX,
    ensures
        r@.len() == 10,
        forall|d: int| 0 <= d < 10 ==> wf_digits(#[trigger] r@[d]@),
        forall|d: int| 0 <= d < 10 ==> (#[trigger] r@[d]@).len() <= mx@.len() + 1,
        forall|d: int|
            0 <= d < 10 ==> (canonical(mx@) ==> canonical(#[trigger] r@[d]@)),
        r@[0]@ == seq![0u8],
        r@[1]@ == mx@,
        seq_value(r@[0]@) == 0,
        seq_value(r@[1]@) == seq_value(mx@),
        seq_value(r@[2]@) == 2 * seq_value(mx@),
        seq_value(r@[3]@) == 3 * seq_value(mx@),
        seq_value(r@[4]@) == 4 * seq_value(mx@),
        seq_value(r@[5]@) == 5 * seq_value(mx@),
        seq_value(r@[6]@) == 6 * seq_value(mx@),
        seq_value(r@[7]@) == 7 * seq_value(mx@),
        seq_value(r@[8]@) == 8 * seq_value(mx@),
        seq_value(r@[9]@) == 9 * seq_value(mx@),
        forall|d: int|
            0 <= d < 10 ==> (#[trigger] r@[d]@).len() == table_len(
                mx@.len(),
                seq_value(mx@),
                d,
            ),
        mx@ =~= seq![1u8] ==> forall|d: int| 0 <= d < 10 ==> (#[trigger] r@[d]@).len() == 1,
        mx@ =~= seq![0u8] ==> forall|d: int| 0 <= d < 10 ==> #[trigger] r@[d]@ == seq![0u8],
{
    let ghost lmax: nat = mx@.len();
    let ghost vm: nat = seq_value(mx@);
    proof {
        assert(pow10(0) == 1);
        lemma_seq_value_bound(mx@);
        assert(pow10(lmax + 1) == 10 * pow10(lmax));
    }
    let x0 = BigUInt::default();
    let x2 = mx.add_shifted(mx, 0);
    let x3 = x2.add_shifted(mx, 0);
    let x1 = mx.clone();
    let x4 = x2.add_shifted(&x2, 0);
    let x5 = x3.add_shifted(&x2, 0);
    let x6 = x3.add_shifted(&x3, 0);
    let x7 = x4.add_shifted(&x3, 0);
    let x8 = x4.add_shifted(&x4, 0);
    let x9 = x5.add_shifted(&x4, 0);
    proof {
        lemma_add_len_bound(lmax, lmax, 0, seq_value(x2@), (lmax + 1) as nat);
        lemma_add_len_bound(x2@.len(), lmax, 0, seq_value(x3@), (lmax + 1) as nat);
        lemma_add_len_bound(x2@.len(), x2@.len(), 0, seq_value(x4@), (lmax + 1) as nat);
        lemma_add_len_bound(x3@.len(), x2@.len(), 0, seq_value(x5@), (lmax + 1) as nat);
        lemma_add_len_bound(x3@.len(), x3@.len(), 0, seq_value(x6@), (lmax + 1) as nat);
        lemma_add_len_bound(x4@.len(), x3@.len(), 0, seq_value(x7@), (lmax + 1) as nat);
        lemma_add_len_bound(x4@.len(), x4@.len(), 0, seq_value(x8@), (lmax + 1) as nat);
        lemma_add_len_bound(x5@.len(), x4@.len(), 0, seq_value(x9@), (lmax + 1) as nat);
        if canonical(mx@) {
            if vm == 0 && lmax > 1 {
                lemma_canonical_lower_bound(mx@);
                lemma_pow10_pos((lmax - 1) as nat);
                assert(false);
            }
            lemma_add_canonical(mx@, mx@, 0, x2@);
            lemma_add_canonical(x2@, mx@, 0, x3@);
            lemma_add_canonical(x2@, x2@, 0, x4@);
            lemma_add_canonical(x3@, x2@, 0, x5@);
            lemma_add_canonical(x3@, x3@, 0, x6@);
            lemma_add_canonical(x4@, x3@, 0, x7@);
            lemma_add_canonical(x4@, x4@, 0, x8@);
            lemma_add_canonical(x5@, x4@, 0, x9@);
        }
        lemma_seq_value_singleton(0u8);
        lemma_seq_value_singleton(1u8);
        if mx@ =~= seq![1u8] || mx@ =~= seq![0u8] {
            assert(pow10(1) == 10);
            assert(x2@.len() == 1 && x3@.len() == 1 && x4@.len() == 1 && x5@.len() == 1
                && x6@.len() == 1 && x7@.len() == 1 && x8@.len() == 1 && x9@.len() == 1);
        }
        if mx@ =~= seq![0u8] {
            assert(x2@ =~= seq![x2@[0]]);
            lemma_seq_value_singleton(x2@[0]);
            assert(x3@ =~= seq![x3@[0]]);
            lemma_seq_value_singleton(x3@[0]);
            assert(x4@ =~= seq![x4@[0]]);
            lemma_seq_value_singleton(x4@[0]);
            assert(x5@ =~= seq![x5@[0]]);
            lemma_seq_value_singleton(x5@[0]);
            assert(x6@ =~= seq![x6@[0]]);
            lemma_seq_value_singleton(x6@[0]);
            assert(x7@ =~= seq![x7@[0]]);
            lemma_seq_value_singleton(x7@[0]);
            assert(x8@ =~= seq![x8@[0]]);
            lemma_seq_value_singleton(x8@[0]);
            assert(x9@ =~= seq![x9@[0]]);
            lemma_seq_value_singleton(x9@[0]);
            assert(x2@ == seq![0u8] && x3@ == seq![0u8] && x4@ == seq![0u8] && x5@ == seq![0u8]
                && x6@ == seq![0u8] && x7@ == seq![0u8] && x8@ == seq![0u8] && x9@ == seq![0u8]);
        }
    }
    let mut r: Vec<BigUInt> = Vec::with_capacity(10);
    r.push(x0);
    r.push(x1);
    r.push(x2);
    r.push(x3);
    r.push(x4);
    r.push(x5);
    r.push(x6);
    r.push(x7);
    r.push(x8);
    r.push(x9);
    r
}

impl BigUInt {
    /// Consumes the value and exposes its raw digit store.
    pub fn digits(self) -> (r: Vec<u8>)
        ensures
            r@ == self@,
    {
        self.0
    }

    /// Builds the value denoting `a`, with no leading zeros: the canonical
    /// digit store of `a`.
    pub fn from_u64(a: u64) -> (r: BigUInt)
        ensures
            r@ == dec_digits(a as nat),
            canonical(r@),
            seq_value(r@) == a as nat,
    {
        let digits: u64 = log10_floor(a) + 1;
        let mut rev: Vec<u8> = Vec::with_capacity(digits as usize);
        let mut x: u64 = a;
        rev.push((x % 10) as u8);
        proof {
            assert(rev@ =~= seq![(a % 10) as u8]);
        }
        x = x / 10;
        while x > 0
            invariant
                rev@.len() >= 1,
                forall|i: int| 0 <= i < rev@.len() ==> rev@[i] <= 9,
                x > 0 ==> dec_digits(a as nat) =~= dec_digits(x as nat) + rev@.reverse(),
                x == 0 ==> dec_digits(a as nat) =~= rev@.reverse(),
            decreases x,
        {
            let ghost prev = rev@;
            let ghost px: u64 = x;
            rev.push((x % 10) as u8);
            x = x / 10;
            proof {
                assert(rev@.reverse() =~= seq![(px % 10) as u8] + prev.reverse());
                if x > 0 {
                    assert(dec_digits(px as nat) =~= dec_digits(px as nat / 10).push(
                        (px as nat % 10) as u8,
                    ));
                    assert(dec_digits(x as nat) + rev@.reverse() =~= (dec_digits(px as nat / 10)
                        + seq![(px % 10) as u8]) + prev.reverse());
                    assert(dec_digits(px as nat / 10) + seq![(px % 10) as u8] =~= dec_digits(
                        px as nat,
                    ));
                } else {
                    assert(px < 10);
                    assert(dec_digits(px as nat) =~= seq![(px % 10) as u8]);
                }
            }
        }
        let out = reversed(&rev);
        proof {
            assert(out@ =~= dec_digits(a as nat));
            lemma_dec_digits(a as nat);
        }
        BigUInt(out)
    }

    /// Builds the value spelled out by decimal text: each character must be
    /// an ASCII decimal digit or an underscore separator, separators are
    /// skipped, and the digits keep their written order, leading zeros
    /// included.  Returns `None` exactly when some character is neither a
    /// digit nor a separator, or when no digit remains.
    #[verifier::loop_isolation(false)]
    pub fn from_text(s: &str) -> (r: Option<BigUInt>)
        ensures
            r is Some <==> valid_text(s@) && text_digits(s@).len() >= 1,
            r is Some ==> r.unwrap()@ == text_digits(s@) && wf_digits(r.unwrap()@),
    {
        let len: usize = s.unicode_len();
        let mut v: Vec<u8> = Vec::new();
        let mut i: usize = 0;
        proof {
            assert(s@.take(0) =~= Seq::<char>::empty());
        }
        while i < len
            invariant
                i <= len,
                forall|j: int| 0 <= j < i ==> is_digit_char(s@[j]) || s@[j] == '_',
                v@ == text_digits(s@.take(i as int)),
                forall|j: int| 0 <= j < v@.len() ==> v@[j] <= 9,
            decreases len - i,
        {
            let c = s.get_char(i);
            let cv: u32 = c as u32;
            proof {
                assert(s@.take(i + 1).drop_last() =~= s@.take(i as int));
                assert(s@.take(i + 1).last() == s@[i as int]);
            }
            if cv >= 48 && cv <= 57 {
                v.push((cv - 48) as u8);
            } else if c == '_' {
                proof {
                    assert('_' as int == 95);
                    assert(!is_digit_char(s@[i as int]));
                }
            } else {
                proof {
                    assert(!(is_digit_char(s@[i as int]) || s@[i as int] == '_'));
                }
                return None;
            }
            i = i + 1;
        }
        proof {
            assert(s@.take(len as int) =~= s@);
        }
        if v.len() == 0 {
            None
        } else {
            Some(BigUInt(v))
        }
    }

    /// Renders the value as decimal text, one character per stored digit, in
    /// stored order.
    #[verifier::loop_isolation(false)]
    pub fn to_text(&self) -> (r: String)
        requires
            wf_digits(self@),
        ensures
            r@ == text_of(self@),
    {
        let table: &str = "0123456789";
        proof {
            reveal_strlit("0123456789");
            assert(table@.len() == 10);
        }
        let mut out = String::new();
        let mut i: usize = 0;
        proof {
            assert(out@ =~= text_of(self@).take(0));
        }
        while i < self.0.len()
            invariant
                i <= self.0.len(),
                out@ == text_of(self@).take(i as int),
            decreases self.0.len() - i,
        {
            let d: u8 = self.0[i];
            proof {
                assert(d <= 9);
            }
            let piece = table.substring_char(d as usize, d as usize + 1);
            proof {
                reveal_strlit("0123456789");
                assert(piece@ =~= seq![digit_char(d)]) by {
                    assert(piece@.len() == 1);
                    assert(piece@[0] == table@[d as int]);
                    assert(table@[d as int] == digit_char(d));
                }
                assert((out@ + piece@) =~= text_of(self@).take(i + 1));
            }
            out.append(piece);
            i = i + 1;
        }
        proof {
            assert(text_of(self@).take(self@.len() as int) =~= text_of(self@));
        }
        out
    }

    /// Builds the value denoting `a` by widening to 64 bits.
    pub fn from_u32(a: u32) -> (r: BigUInt)
        ensures
            r@ == dec_digits(a as nat),
            canonical(r@),
            seq_value(r@) == a as nat,
    {
        BigUInt::from_u64(a as u64)
    }

    /// Builds the value denoting `a` by widening to 64 bits.
    pub fn from_usize(a: usize) -> (r: BigUInt)
        ensures
            r@ == dec_digits(a as nat),
            canonical(r@),
            seq_value(r@) == a as nat,
    {
        BigUInt::from_u64(a as u64)
    }

    /// The factorial of `a`, computed by repeated multiplication of a
    /// running product while a running multiplier counts up from 2.  The
    /// bound on `a` keeps every intermediate digit count within `usize`.
    #[verifier::loop_isolation(false)]
    pub fn factorial(a: u64) -> (r: BigUInt)
        requires
            20 * (a as nat) + 23 <= usize::MAX,
        ensures
            canonical(r@),
            seq_value(r@) == fact(a as nat),
    {
        if a == 0 {
            let r = BigUInt::from_u64(1);
            proof {
                assert(fact(0) == 1);
            }
            return r;
        }
        let mut result = BigUInt::from_u64(1);
        let mut next = BigUInt::from_u64(2);
        let one = BigUInt::from_u64(1);
        proof {
            assert(fact(1nat) == 1 * fact(0nat));
            assert(dec_digits(1) =~= seq![1u8]);
            assert(pow10(20) == 100_000_000_000_000_000_000) by {
                reveal_with_fuel(pow10, 21);
            }
        }
        let mut i: u64 = 1;
        while i < a
            invariant
                1 <= i <= a,
                canonical(result@),
                seq_value(result@) == fact(i as nat),
                canonical(next@),
                seq_value(next@) == i + 1,
            decreases a - i,
        {
            proof {
                lemma_fact_pow_bound(i as nat);
                lemma_canonical_len_bound(result@, 20 * i as nat + 1);
                lemma_canonical_len_bound(next@, 20);
            }
            result = result.multiply(&next);
            proof {
                assert(fact((i + 1) as nat) == (i + 1) * fact(i as nat));
            }
            let ghost prev_next = next@;
            next = next.add_shifted(&one, 0);
            proof {
                assert(pow10(0) == 1);
                lemma_add_canonical(prev_next, one@, 0, next@);
            }
            i = i + 1;
        }
        result
    }

    /// Multiplies by `10^shift` in place: appends `shift` zero digits,
    /// consuming and returning the receiver.
    pub fn times_ten_in_place(self, shift: usize) -> (r: BigUInt)
        requires
            self@.len() + shift <= usize::MAX,
        ensures
            r@ == self@ + zeros(shift as nat),
            seq_value(r@) == seq_value(self@) * pow10(shift as nat),
    {
        let mut v = self.0;
        let ghost orig = v@;
        let mut i: usize = 0;
        while i < shift
            invariant
                i <= shift,
                orig.len() + shift <= usize::MAX,
                v@ =~= orig + zeros(i as nat),
            decreases shift - i,
        {
            v.push(0u8);
            proof {
                assert(v@ =~= orig + zeros(i as nat + 1));
            }
            i = i + 1;
        }
        proof {
            lemma_append_zeros(orig, shift as nat);
        }
        BigUInt(v)
    }

    /// Adds two values, with the second multiplied by `10^shift`, without
    /// materializing the shifted value.  The result's digit count is the
    /// longer extent of the two operands, plus one more digit exactly when
    /// a final carry remains; together with the denoted value this pins the
    /// result digit for digit.
    pub fn add_shifted(&self, rhs: &BigUInt, shift: usize) -> (r: BigUInt)
        requires
            wf_digits(self@),
            wf_digits(rhs@),
            self@.len() < usize::MAX,
            rhs@.len() + shift < usize::MAX,
        ensures
            wf_digits(r@),
            seq_value(r@) == seq_value(self@) + seq_value(rhs@) * pow10(shift as nat),
            r@.len() == add_len(self@.len(), rhs@.len(), shift as nat, seq_value(r@)),
    {
        let a_len: usize = self.0.len();
        let b_len: usize = rhs.0.len();
        let n: usize = if a_len >= b_len + shift {
            a_len
        } else {
            b_len + shift
        };
        let capacity: usize = n + 1;
        let mut out: Vec<u8> = Vec::with_capacity(capacity);
        let mut carry: u8 = 0;
        let mut i: usize = 0;
        proof {
            assert(out@.reverse() =~= Seq::<u8>::empty());
            assert(seq_value(Seq::<u8>::empty()) == 0);
            assert(low_val(self@, 0) == 0);
            assert(low_val(rhs@, 0 - shift as int) == 0);
        }
        while i < n
            invariant
                i <= n,
                a_len == self@.len(),
                b_len == rhs@.len(),
                n == if a_len >= b_len + shift {
                    a_len as int
                } else {
                    b_len + shift
                },
                wf_digits(self@),
                wf_digits(rhs@),
                out@.len() == i,
                forall|j: int| 0 <= j < out@.len() ==> out@[j] <= 9,
                carry <= 1,
                seq_value(out@.reverse()) + carry * pow10(i as nat) == low_val(self@, i as int)
                    + low_val(rhs@, i as int - shift as int) * pow10(shift as nat),
            decreases n - i,
        {
            let da: u8 = if i < a_len {
                self.0[a_len - 1 - i]
            } else {
                0
            };
            let db: u8 = if i >= shift && i - shift < b_len {
                rhs.0[b_len - 1 - (i - shift)]
            } else {
                0
            };
            proof {
                assert(da == digit_at(self@, i as int));
                assert(db == digit_at(rhs@, i as int - shift as int));
            }
            let sum: u8 = da + db + carry;
            let ghost prev = out@;
            let ghost pc = carry;
            out.push(sum % 10);
            carry = sum / 10;
            proof {
                let ii = i as int;
                let d = (sum % 10) as u8;
                assert(out@.reverse() =~= seq![d] + prev.reverse());
                lemma_prepend_digit(d, prev.reverse());
                assert(pow10((ii + 1) as nat) == 10 * pow10(i as nat));
                let p = pow10(i as nat);
                assert(seq_value(out@.reverse()) + carry * pow10((ii + 1) as nat) == seq_value(
                    prev.reverse(),
                ) + pc * p + da * p + db * p) by (nonlinear_arith)
                    requires
                        seq_value(out@.reverse()) == d * p + seq_value(prev.reverse()),
                        d + 10 * carry == pc + da + db,
                        pow10((ii + 1) as nat) == 10 * p,
                ;
                lemma_low_val_step(self@, ii);
                assert(low_val(self@, ii + 1) == low_val(self@, ii) + da * p);
                let q = pow10(shift as nat);
                if ii - shift >= 0 {
                    lemma_low_val_step(rhs@, ii - shift);
                    lemma_pow10_add((ii - shift) as nat, shift as nat);
                    assert(pow10((ii - shift) as nat + shift as nat) == p);
                    assert(low_val(rhs@, ii + 1 - shift) * q == low_val(rhs@, ii - shift) * q + db
                        * p) by (nonlinear_arith)
                        requires
                            low_val(rhs@, ii + 1 - shift) == low_val(rhs@, ii - shift) + digit_at(
                                rhs@,
                                ii - shift,
                            ) * pow10((ii - shift) as nat),
                            db == digit_at(rhs@, ii - shift),
                            pow10((ii - shift) as nat) * q == p,
                    ;
                } else {
                    assert(db == 0);
                    assert(low_val(rhs@, ii + 1 - shift) == low_val(rhs@, ii - shift));
                }
            }
            i = i + 1;
        }
        proof {
            lemma_low_val_full(self@, n as int);
            lemma_low_val_full(rhs@, n - shift);
        }
        let ghost v: nat = seq_value(self@) + seq_value(rhs@) * pow10(shift as nat);
        if carry > 0 {
            let ghost prev = out@;
            out.push(carry);
            proof {
                assert(out@.reverse() =~= seq![1u8] + prev.reverse());
                lemma_prepend_digit(1u8, prev.reverse());
                assert(seq_value(out@.reverse()) == v);
                assert(seq_value(out@.reverse()) >= pow10(n as nat));
            }
        } else {
            proof {
                assert(seq_value(out@.reverse()) == v);
                lemma_seq_value_bound(out@.reverse());
                assert(out@.reverse().len() == n);
                assert(v < pow10(n as nat));
            }
        }
        let res = reversed(&out);
        proof {
            assert(res@.len() <= capacity);
            assert(wf_digits(res@));
            assert(res@.len() == add_len(
                self@.len(),
                rhs@.len(),
                shift as nat,
                seq_value(res@),
            ));
        }
        BigUInt(res)
    }

    /// Schoolbook multiplication accelerated by a times-table: the longer
    /// operand is scaled by each digit 0-9 once, and the shorter operand's
    /// digits then select table entries that are folded into a running total
    /// by shifted addition.  The contract gives the product's denoted value
    /// together with its exact digit count, which pins the result digit for
    /// digit; when both operands are free of leading zeros, so is the
    /// product.
    #[verifier::loop_isolation(false)]
    #[verifier::rlimit(80)]
    pub fn multiply(&self, rhs: &BigUInt) -> (r: BigUInt)
        requires
            wf_digits(self@),
            wf_digits(rhs@),
            self@.len() + rhs@.len() + 2 <= usize::MAX,
        ensures
            wf_digits(r@),
            seq_value(r@) == seq_value(self@) * seq_value(rhs@),
            canonical(self@) && canonical(rhs@) ==> canonical(r@),
            r@.len() == (if self@.len() > rhs@.len() {
                fold_len(rhs@, self@.len(), seq_value(self@), rhs@.len())
            } else {
                fold_len(self@, rhs@.len(), seq_value(rhs@), self@.len())
            }),
            rhs@ == seq![1u8] ==> r@ == self@,
            self@ == seq![1u8] ==> r@ == rhs@,
            rhs@ == seq![0u8] ==> r@ == seq![0u8],
            self@ == seq![0u8] ==> r@ == seq![0u8],
    {
        let (mn, mx): (&BigUInt, &BigUInt) = if self.0.len() > rhs.0.len() {
            (rhs, self)
        } else {
            (self, rhs)
        };
        let ghost lmax: nat = mx@.len();
        let ghost vm: nat = seq_value(mx@);
        let ghost can: bool = canonical(self@) && canonical(rhs@);
        proof {
            assert(pow10(0) == 1);
            lemma_seq_value_bound(mx@);
        }
        let table = setup_times(mx);
        let k: usize = mn.0.len();
        let ghost vmin: nat = seq_value(mn@);
        let mut total = BigUInt::default();
        let mut j: usize = 0;
        while j < k
            invariant
                j <= k,
                wf_digits(total@),
                seq_value(total@) == low_val(mn@, j as int) * vm,
                total@.len() <= lmax + j + 1,
                can ==> (total@.len() <= j || total@.len() == 1 || seq_value(total@) >= pow10(
                    (total@.len() - 1) as nat,
                )),
                total@.len() == fold_len(mn@, lmax, vm, j as nat),
                j == 0 ==> total@ == seq![0u8],
                mn@ =~= seq![1u8] && j == 1 ==> total@ == mx@,
                mx@ =~= seq![1u8] && j == 1 ==> total@ == mn@,
                mn@ =~= seq![0u8] && j == 1 ==> total@ == seq![0u8],
                mx@ =~= seq![0u8] && j == 1 ==> total@ == seq![0u8],
            decreases k - j,
        {
            let d: u8 = mn.0[k - 1 - j];
            proof {
                assert(d <= 9);
            }
            let e: &BigUInt = &table[d as usize];
            proof {
                assert(e@ == table@[d as int]@);
                assert(seq_value(e@) == d * vm) by {
                    if d == 0 {
                        assert(d * vm == 0 * vm) by (nonlinear_arith)
                            requires
                                d == 0,
                        ;
                    } else if d == 1 {
                        assert(d * vm == 1 * vm) by (nonlinear_arith)
                            requires
                                d == 1,
                        ;
                    } else if d == 2 {
                        assert(d * vm == 2 * vm) by (nonlinear_arith)
                            requires
                                d == 2,
                        ;
                    } else if d == 3 {
                        assert(d * vm == 3 * vm) by (nonlinear_arith)
                            requires
                                d == 3,
                        ;
                    } else if d == 4 {
                        assert(d * vm == 4 * vm) by (nonlinear_arith)
                            requires
                                d == 4,
                        ;
                    } else if d == 5 {
                        assert(d * vm == 5 * vm) by (nonlinear_arith)
                            requires
                                d == 5,
                        ;
                    } else if d == 6 {
                        assert(d * vm == 6 * vm) by (nonlinear_arith)
                            requires
                                d == 6,
                        ;
                    } else if d == 7 {
                        assert(d * vm == 7 * vm) by (nonlinear_arith)
                            requires
                                d == 7,
                        ;
                    } else if d == 8 {
                        assert(d * vm == 8 * vm) by (nonlinear_arith)
                            requires
                                d == 8,
                        ;
                    } else {
                        assert(d * vm == 9 * vm) by (nonlinear_arith)
                            requires
                                d == 9,
                        ;
                    }
                }
                assert(e@.len() <= lmax + 1);
                assert(can ==> canonical(e@));
            }
            let ghost prev = total@;
            total = total.add_shifted(e, j);
            proof {
                let jj = j as int;
                lemma_low_val_step(mn@, jj);
                assert(d == digit_at(mn@, jj));
                assert(seq_value(total@) == low_val(mn@, jj + 1) * vm) by (nonlinear_arith)
                    requires
                        seq_value(total@) == seq_value(prev) + seq_value(e@) * pow10(j as nat),
                        seq_value(prev) == low_val(mn@, jj) * vm,
                        seq_value(e@) == d * vm,
                        low_val(mn@, jj + 1) == low_val(mn@, jj) + d * pow10(j as nat),
                ;
                lemma_low_val_bound(mn@, jj + 1);
                lemma_pow10_add((jj + 1) as nat, lmax);
                assert(seq_value(total@) < pow10((jj + 1) as nat + lmax)) by (nonlinear_arith)
                    requires
                        seq_value(total@) == low_val(mn@, jj + 1) * vm,
                        low_val(mn@, jj + 1) < pow10((jj + 1) as nat),
                        vm < pow10(lmax),
                        pow10((jj + 1) as nat) * pow10(lmax) == pow10((jj + 1) as nat + lmax),
                        pow10((jj + 1) as nat) >= 1,
                        pow10(lmax) >= 1,
                ;
                lemma_add_len_bound(
                    prev.len(),
                    e@.len(),
                    j as nat,
                    seq_value(total@),
                    (lmax + j + 1) as nat,
                );
                assert(fold_len(mn@, lmax, vm, (j + 1) as nat) == add_len(
                    fold_len(mn@, lmax, vm, j as nat),
                    table_len(lmax, vm, d as int),
                    j as nat,
                    low_val(mn@, jj + 1) * vm,
                ));
                assert(total@.len() == fold_len(mn@, lmax, vm, (j + 1) as nat));
                if can {
                    lemma_acc_step(prev, e@, j as nat, total@);
                }
                if j == 0 {
                    lemma_seq_value_singleton(0u8);
                    lemma_seq_value_singleton(1u8);
                    assert(pow10(1) == 10);
                    if mn@ =~= seq![1u8] {
                        assert(d == 1);
                        assert(e@ == mx@);
                        assert(seq_value(total@) == vm);
                        assert(total@.len() == lmax) by {
                            assert(seq_value(prev) == 0);
                            assert(total@.len() == add_len(1, lmax, 0, vm));
                            lemma_pow10_pos(lmax);
                        }
                        lemma_value_len_unique(total@, mx@);
                    }
                    if mx@ =~= seq![1u8] {
                        assert(k == 1) by {
                            assert(mn@.len() <= mx@.len());
                        }
                        assert(vm == 1);
                        assert(e@.len() == 1);
                        assert(seq_value(e@) == d * 1);
                        assert(seq_value(total@) == d);
                        assert(total@.len() == add_len(1, 1, 0, d as nat));
                        assert(total@.len() == 1);
                        assert(total@ =~= seq![total@[0]]);
                        lemma_seq_value_singleton(total@[0]);
                        assert(mn@ =~= seq![d]);
                        lemma_seq_value_singleton(d);
                        assert(total@ == mn@);
                    }
                    if mn@ =~= seq![0u8] {
                        assert(d == 0);
                        assert(e@ == seq![0u8]);
                        assert(seq_value(total@) == 0);
                        assert(total@.len() == add_len(1, 1, 0, 0));
                        assert(total@.len() == 1);
                        assert(total@ =~= seq![total@[0]]);
                        lemma_seq_value_singleton(total@[0]);
                        assert(total@ == seq![0u8]);
                    }
                    if mx@ =~= seq![0u8] {
                        assert(e@ == seq![0u8]);
                        assert(seq_value(e@) == 0);
                        assert(seq_value(total@) == 0) by (nonlinear_arith)
                            requires
                                seq_value(total@) == seq_value(prev) + seq_value(e@) * pow10(
                                    j as nat,
                                ),
                                seq_value(prev) == 0,
                                seq_value(e@) == 0,
                        ;
                        assert(total@.len() == add_len(1, 1, 0, 0));
                        assert(total@.len() == 1);
                        assert(total@ =~= seq![total@[0]]);
                        lemma_seq_value_singleton(total@[0]);
                        assert(total@ == seq![0u8]);
                    }
                }
            }
            j = j + 1;
        }
        proof {
            lemma_low_val_full(mn@, k as int);
            assert(seq_value(total@) == vmin * vm);
            lemma_seq_value_singleton(0u8);
            lemma_seq_value_singleton(1u8);
            if rhs@ == seq![1u8] || self@ == seq![1u8] || rhs@ == seq![0u8] || self@
                == seq![0u8] {
                assert(k == 1) by {
                    assert(mn@.len() <= mx@.len());
                }
                assert(j == 1);
            }
            if can && total@.len() > 1 {
                if seq_value(total@) >= pow10((total@.len() - 1) as nat) {
                    lemma_leading_nonzero(total@);
                } else {
                    assert(total@.len() <= k);
                    if vmin == 0 {
                        if mn@.len() > 1 {
                            lemma_canonical_lower_bound(mn@);
                            lemma_pow10_pos((mn@.len() - 1) as nat);
                        }
                        assert(false);
                    }
                    if vm == 0 {
                        if lmax > 1 {
                            lemma_canonical_lower_bound(mx@);
                            lemma_pow10_pos((lmax - 1) as nat);
                        }
                        assert(k <= lmax);
                        assert(false);
                    }
                    if k > 1 {
                        lemma_canonical_lower_bound(mn@);
                    } else {
                        assert(pow10(0) == 1);
                    }
                    assert(vmin >= pow10((k - 1) as nat));
                    lemma_pow10_mono((total@.len() - 1) as nat, (k - 1) as nat);
                    assert(seq_value(total@) >= pow10((total@.len() - 1) as nat))
                        by (nonlinear_arith)
                        requires
                            seq_value(total@) == vmin * vm,
                            vmin >= pow10((k - 1) as nat),
                            vm >= 1,
                            pow10((k - 1) as nat) >= pow10((total@.len() - 1) as nat),
                    ;
                    lemma_leading_nonzero(total@);
                }
            }
        }
        total
    }

    /// Multiplies by `10^shift` without consuming the receiver.
    pub fn times_ten(this: &BigUInt, shift: usize) -> (r: BigUInt)
        requires
            this@.len() + shift <= usize::MAX,
        ensures
            r@ == this@ + zeros(shift as nat),
            seq_value(r@) == seq_value(this@) * pow10(shift as nat),
    {
        this.clone().times_ten_in_place(shift)
    }
}

} // verus!
