//! The mathematical model of a digit store: sequences of base-10 digits,
//! most-significant digit first, together with the numeric value they denote
//! and the lemmas the arithmetic operations are proved against.
use vstd::prelude::*;

verus! {

/// A well-formed digit store: at least one digit, every digit in `[0, 9]`.
pub open spec fn wf_digits(s: Seq<u8>) -> bool {
    s.len() >= 1 && forall|i: int| 0 <= i < s.len() ==> s[i] <= 9
}

/// A canonical digit store: well formed and with no leading zero beyond the
/// single-digit form of zero itself.
pub open spec fn canonical(s: Seq<u8>) -> bool {
    wf_digits(s) && (s.len() > 1 ==> s[0] != 0)
}

/// `10^k`.
pub open spec fn pow10(k: nat) -> nat
    decreases k,
{
    if k == 0 {
        1
    } else {
        10 * pow10((k - 1) as nat)
    }
}

/// The number denoted by a digit store, most-significant digit first.
pub open spec fn seq_value(s: Seq<u8>) -> nat
    decreases s.len(),
{
    if s.len() == 0 {
        0
    } else {
        (seq_value(s.drop_last()) * 10 + s.last()) as nat
    }
}

/// A run of `k` zero digits.
pub open spec fn zeros(k: nat) -> Seq<u8> {
    Seq::new(k, |i: int| 0u8)
}

/// The canonical (no leading zero) digit store of `n`.
pub open spec fn dec_digits(n: nat) -> Seq<u8>
    decreases n,
{
    if n < 10 {
        seq![n as u8]
    } else {
        dec_digits(n / 10).push((n % 10) as u8)
    }
}

/// The digit of `s` at distance `i` from the least-significant end, with
/// positions beyond the store reading as zero.
pub open spec fn digit_at(s: Seq<u8>, i: int) -> u8 {
    if 0 <= i < s.len() {
        s[s.len() - 1 - i]
    } else {
        0
    }
}

/// The number denoted by the `i` least-significant digits of `s` (all of `s`
/// once `i` reaches its length).
pub open spec fn low_val(s: Seq<u8>, i: int) -> nat {
    if i >= s.len() {
        seq_value(s)
    } else if i <= 0 {
        0
    } else {
        seq_value(s.subrange(s.len() - i, s.len() as int))
    }
}

/// The length of the digit store produced by adding a store of length `la`
/// to one of length `lb` shifted by `sh`, when the sum denotes `v`: the
/// longer extent, plus one more digit when a carry remains.
pub open spec fn add_len(la: nat, lb: nat, sh: nat, v: nat) -> nat {
    let m = if la >= lb + sh {
        la
    } else {
        lb + sh
    };
    if v < pow10(m) {
        m
    } else {
        m + 1
    }
}

/// An ASCII decimal digit character.
pub open spec fn is_digit_char(c: char) -> bool {
    48 <= c as int <= 57
}

/// The digit denoted by an ASCII decimal digit character.
pub open spec fn char_digit(c: char) -> u8 {
    (c as int - 48) as u8
}

/// Text fit for construction: every character is an ASCII decimal digit or
/// an underscore separator.
pub open spec fn valid_text(t: Seq<char>) -> bool {
    forall|i: int| 0 <= i < t.len() ==> is_digit_char(t[i]) || t[i] == '_'
}

/// The digits spelled out by a piece of text, in their left-to-right order,
/// with separators skipped.
pub open spec fn text_digits(t: Seq<char>) -> Seq<u8>
    decreases t.len(),
{
    if t.len() == 0 {
        Seq::empty()
    } else if is_digit_char(t.last()) {
        text_digits(t.drop_last()).push(char_digit(t.last()))
    } else {
        text_digits(t.drop_last())
    }
}

/// The character spelling a digit.
pub open spec fn digit_char(d: u8) -> char {
    if d == 0 {
        '0'
    } else if d == 1 {
        '1'
    } else if d == 2 {
        '2'
    } else if d == 3 {
        '3'
    } else if d == 4 {
        '4'
    } else if d == 5 {
        '5'
    } else if d == 6 {
        '6'
    } else if d == 7 {
        '7'
    } else if d == 8 {
        '8'
    } else {
        '9'
    }
}

/// The text spelling a digit store, one character per digit, in stored
/// order.
pub open spec fn text_of(s: Seq<u8>) -> Seq<char> {
    Seq::new(s.len(), |i: int| digit_char(s[i]))
}

/// The factorial function.
pub open spec fn fact(n: nat) -> nat
    decreases n,
{
    if n == 0 {
        1
    } else {
        n * fact((n - 1) as nat)
    }
}

/// A coarse size bound: the factorial of `n` has at most `20 n + 1` digits
/// whenever `n` itself has at most 20 digits.
pub proof fn lemma_fact_pow_bound(n: nat)
    requires
        n < pow10(20),
    ensures
        fact(n) < pow10(20 * n + 1),
    decreases n,
{
    if n == 0 {
        assert(pow10(1) == 10 * pow10(0));
        assert(pow10(0) == 1);
    } else {
        lemma_fact_pow_bound((n - 1) as nat);
        lemma_pow10_add(20, 20 * (n - 1) as nat + 1);
        assert(20 * n + 1 == 20 + (20 * (n - 1) as nat + 1));
        assert(fact(n) == n * fact((n - 1) as nat));
        assert(n * fact((n - 1) as nat) < pow10(20) * pow10(20 * (n - 1) as nat + 1))
            by (nonlinear_arith)
            requires
                n < pow10(20),
                fact((n - 1) as nat) < pow10(20 * (n - 1) as nat + 1),
                fact((n - 1) as nat) >= 0,
                pow10(20) >= 1,
                pow10(20 * (n - 1) as nat + 1) >= 1,
        ;
        lemma_pow10_pos(20);
        lemma_pow10_pos(20 * (n - 1) as nat + 1);
    }
}

pub proof fn lemma_seq_value_singleton(d: u8)
    ensures
        seq_value(seq![d]) == d,
{
    assert(seq![d].drop_last() =~= Seq::<u8>::empty());
    assert(seq_value(Seq::<u8>::empty()) == 0);
    assert(seq![d].last() == d);
}

pub proof fn lemma_pow10_pos(k: nat)
    ensures
        pow10(k) >= 1,
    decreases k,
{
    if k > 0 {
        lemma_pow10_pos((k - 1) as nat);
    }
}

pub proof fn lemma_pow10_mono(a: nat, b: nat)
    requires
        a <= b,
    ensures
        pow10(a) <= pow10(b),
    decreases b,
{
    if a < b {
        lemma_pow10_mono(a, (b - 1) as nat);
        lemma_pow10_pos((b - 1) as nat);
    }
}

pub proof fn lemma_pow10_add(a: nat, b: nat)
    ensures
        pow10(a + b) == pow10(a) * pow10(b),
    decreases a,
{
    if a == 0 {
        assert(pow10(a) == 1);
        assert(a + b == b);
        assert(pow10(a + b) == pow10(a) * pow10(b));
    } else {
        lemma_pow10_add((a - 1) as nat, b);
        assert((a + b - 1) as nat == (a - 1) as nat + b);
        assert(pow10(a + b) == 10 * pow10((a + b - 1) as nat));
        assert(pow10(a) == 10 * pow10((a - 1) as nat));
        assert(pow10(a + b) == pow10(a) * pow10(b)) by (nonlinear_arith)
            requires
                pow10(a + b) == 10 * pow10((a - 1) as nat + b),
                pow10((a - 1) as nat + b) == pow10((a - 1) as nat) * pow10(b),
                pow10(a) == 10 * pow10((a - 1) as nat),
        ;
        assert(pow10(a + b) == pow10(a) * pow10(b));
    }
}

/// Every digit store of length `n` denotes a number below `10^n`.
pub proof fn lemma_seq_value_bound(s: Seq<u8>)
    requires
        forall|i: int| 0 <= i < s.len() ==> s[i] <= 9,
    ensures
        seq_value(s) < pow10(s.len()),
    decreases s.len(),
{
    if s.len() > 0 {
        lemma_seq_value_bound(s.drop_last());
        assert(seq_value(s.drop_last()) * 10 + 9 < 10 * pow10((s.len() - 1) as nat)) by {
            assert(seq_value(s.drop_last()) <= pow10((s.len() - 1) as nat) - 1);
            assert((pow10((s.len() - 1) as nat) - 1) * 10 + 9 < 10 * pow10((s.len() - 1) as nat))
                by (nonlinear_arith);
            assert(seq_value(s.drop_last()) * 10 <= (pow10((s.len() - 1) as nat) - 1) * 10)
                by (nonlinear_arith)
                requires
                    seq_value(s.drop_last()) <= pow10((s.len() - 1) as nat) - 1,
            ;
        }
    }
}

/// Splitting a digit store at position `k` splits its value: the leading part
/// is scaled by ten to the width of the trailing part.
pub proof fn lemma_seq_value_split(s: Seq<u8>, k: int)
    requires
        0 <= k <= s.len(),
    ensures
        seq_value(s) == seq_value(s.subrange(0, k)) * pow10((s.len() - k) as nat) + seq_value(
            s.subrange(k, s.len() as int),
        ),
    decreases s.len(),
{
    if k == s.len() {
        assert(s.subrange(0, k) =~= s);
        assert(s.subrange(k, s.len() as int) =~= Seq::<u8>::empty());
        assert(seq_value(Seq::<u8>::empty()) == 0);
        assert(pow10(0) == 1);
        assert(seq_value(s.subrange(0, k)) == seq_value(s));
        assert(pow10((s.len() - k) as nat) == 1);
        assert(seq_value(s.subrange(k, s.len() as int)) == 0);
        assert(seq_value(s) == seq_value(s.subrange(0, k)) * pow10((s.len() - k) as nat)
            + seq_value(s.subrange(k, s.len() as int)));
    } else {
        let dl = s.drop_last();
        lemma_seq_value_split(dl, k);
        assert(dl.subrange(0, k) =~= s.subrange(0, k));
        let tail = s.subrange(k, s.len() as int);
        assert(tail.drop_last() =~= dl.subrange(k, dl.len() as int));
        assert(tail.last() == s.last());
        let hi = seq_value(s.subrange(0, k));
        let lo = seq_value(dl.subrange(k, dl.len() as int));
        let p = pow10((dl.len() - k) as nat);
        assert(seq_value(s) == seq_value(dl) * 10 + s.last());
        assert(seq_value(dl) == hi * p + lo);
        assert(seq_value(tail) == lo * 10 + s.last());
        assert(pow10((s.len() - k) as nat) == 10 * p) by {
            assert(((s.len() - k) as nat - 1) as nat == (dl.len() - k) as nat);
        }
        assert(seq_value(s) == hi * pow10((s.len() - k) as nat) + seq_value(tail))
            by (nonlinear_arith)
            requires
                seq_value(s) == (hi * p + lo) * 10 + s.last(),
                seq_value(tail) == lo * 10 + s.last(),
                pow10((s.len() - k) as nat) == 10 * p,
        ;
    }
}

/// Prepending one digit adds its scaled value.
pub proof fn lemma_prepend_digit(d: u8, s: Seq<u8>)
    ensures
        seq_value(seq![d] + s) == d * pow10(s.len()) + seq_value(s),
{
    let w = seq![d] + s;
    lemma_seq_value_split(w, 1);
    assert(w.subrange(0, 1) =~= seq![d]);
    assert(w.subrange(1, w.len() as int) =~= s);
    lemma_seq_value_singleton(d);
}

pub proof fn lemma_zeros_value(k: nat)
    ensures
        zeros(k).len() == k,
        forall|i: int| 0 <= i < k ==> zeros(k)[i] == 0,
        seq_value(zeros(k)) == 0,
    decreases k,
{
    if k > 0 {
        lemma_zeros_value((k - 1) as nat);
        assert(zeros(k).drop_last() =~= zeros((k - 1) as nat));
    }
}

/// Appending `k` zero digits multiplies the value by `10^k`.
pub proof fn lemma_append_zeros(s: Seq<u8>, k: nat)
    ensures
        seq_value(s + zeros(k)) == seq_value(s) * pow10(k),
{
    let w = s + zeros(k);
    lemma_seq_value_split(w, s.len() as int);
    assert(w.subrange(0, s.len() as int) =~= s);
    assert(w.subrange(s.len() as int, w.len() as int) =~= zeros(k));
    lemma_zeros_value(k);
}

/// Two well-formed digit stores of the same length denoting the same number
/// are the same store.
pub proof fn lemma_value_len_unique(s1: Seq<u8>, s2: Seq<u8>)
    requires
        forall|i: int| 0 <= i < s1.len() ==> s1[i] <= 9,
        forall|i: int| 0 <= i < s2.len() ==> s2[i] <= 9,
        s1.len() == s2.len(),
        seq_value(s1) == seq_value(s2),
    ensures
        s1 == s2,
    decreases s1.len(),
{
    if s1.len() == 0 {
        assert(s1 =~= s2);
    } else {
        let v = seq_value(s1);
        assert(v == seq_value(s1.drop_last()) * 10 + s1.last());
        assert(v == seq_value(s2.drop_last()) * 10 + s2.last());
        assert(s1.last() == v % 10 && seq_value(s1.drop_last()) == v / 10) by (nonlinear_arith)
            requires
                v == seq_value(s1.drop_last()) * 10 + s1.last(),
                s1.last() <= 9,
        ;
        assert(s2.last() == v % 10 && seq_value(s2.drop_last()) == v / 10) by (nonlinear_arith)
            requires
                v == seq_value(s2.drop_last()) * 10 + s2.last(),
                s2.last() <= 9,
        ;
        lemma_value_len_unique(s1.drop_last(), s2.drop_last());
        assert(s1 =~= s1.drop_last().push(s1.last()));
        assert(s2 =~= s2.drop_last().push(s2.last()));
    }
}

/// A canonical digit store of more than one digit denotes at least
/// `10^(len-1)`.
pub proof fn lemma_canonical_lower_bound(s: Seq<u8>)
    requires
        canonical(s),
        s.len() > 1,
    ensures
        seq_value(s) >= pow10((s.len() - 1) as nat),
{
    lemma_seq_value_split(s, 1);
    assert(s.subrange(0, 1) =~= seq![s[0]]);
    lemma_seq_value_singleton(s[0]);
    assert(s[0] * pow10((s.len() - 1) as nat) >= 1 * pow10((s.len() - 1) as nat))
        by (nonlinear_arith)
        requires
            s[0] >= 1,
    ;
}

/// Two canonical digit stores denoting the same number are the same store.
pub proof fn lemma_canonical_unique(s1: Seq<u8>, s2: Seq<u8>)
    requires
        canonical(s1),
        canonical(s2),
        seq_value(s1) == seq_value(s2),
    ensures
        s1 == s2,
{
    lemma_seq_value_bound(s1);
    lemma_seq_value_bound(s2);
    if s1.len() < s2.len() {
        lemma_canonical_lower_bound(s2);
        lemma_pow10_mono(s1.len(), (s2.len() - 1) as nat);
        assert(false);
    }
    if s2.len() < s1.len() {
        lemma_canonical_lower_bound(s1);
        lemma_pow10_mono(s2.len(), (s1.len() - 1) as nat);
        assert(false);
    }
    lemma_value_len_unique(s1, s2);
}

/// The canonical digit store of `n` is canonical and denotes `n`.
pub proof fn lemma_dec_digits(n: nat)
    ensures
        canonical(dec_digits(n)),
        seq_value(dec_digits(n)) == n,
        n >= 1 ==> dec_digits(n)[0] != 0,
    decreases n,
{
    if n < 10 {
        lemma_seq_value_singleton(n as u8);
    } else {
        lemma_dec_digits(n / 10);
        let d = dec_digits(n / 10);
        assert(dec_digits(n).drop_last() =~= d);
        assert(seq_value(d) * 10 + n % 10 == n) by (nonlinear_arith)
            requires
                seq_value(d) == n / 10,
                n >= 10,
        ;
    }
}

/// A canonical digit store denoting a number below `10^k` has at most `k`
/// digits (and one digit when it denotes zero).
pub proof fn lemma_canonical_len_bound(s: Seq<u8>, k: nat)
    requires
        canonical(s),
        k >= 1,
        seq_value(s) < pow10(k),
    ensures
        s.len() <= k,
{
    if s.len() > k {
        lemma_canonical_lower_bound(s);
        lemma_pow10_mono(k, (s.len() - 1) as nat);
        assert(false);
    }
}

/// A digit store whose value reaches `10^(len-1)` has a nonzero leading
/// digit.
pub proof fn lemma_leading_nonzero(s: Seq<u8>)
    requires
        wf_digits(s),
        seq_value(s) >= pow10((s.len() - 1) as nat),
    ensures
        s[0] != 0,
{
    if s[0] == 0 {
        lemma_seq_value_split(s, 1);
        let tail = s.subrange(1, s.len() as int);
        lemma_seq_value_bound(tail);
        assert(seq_value(s.subrange(0, 1)) == 0) by {
            assert(s.subrange(0, 1) =~= seq![s[0]]);
            lemma_seq_value_singleton(s[0]);
        }
        assert(seq_value(s) < pow10((s.len() - 1) as nat));
        assert(false);
    }
}

/// The length of an addition's result never exceeds a bound that covers both
/// operands' extents and the result's value.
pub proof fn lemma_add_len_bound(la: nat, lb: nat, sh: nat, v: nat, cap: nat)
    requires
        la <= cap,
        lb + sh <= cap,
        v < pow10(cap),
    ensures
        add_len(la, lb, sh, v) <= cap,
{
    let m = if la >= lb + sh {
        la
    } else {
        lb + sh
    };
    if v >= pow10(m) {
        if m >= cap {
            lemma_pow10_mono(cap, m);
            assert(false);
        }
    }
}

/// Adding two canonical values gives a canonical value, except when a
/// one-digit zero right operand is shifted past the left operand's extent.
pub proof fn lemma_add_canonical(a: Seq<u8>, b: Seq<u8>, sh: nat, r: Seq<u8>)
    requires
        canonical(a),
        canonical(b),
        wf_digits(r),
        seq_value(b) >= 1 || b.len() + sh <= a.len(),
        seq_value(r) == seq_value(a) + seq_value(b) * pow10(sh),
        r.len() == add_len(a.len(), b.len(), sh, seq_value(r)),
    ensures
        canonical(r),
{
    let m = if a.len() >= b.len() + sh {
        a.len()
    } else {
        b.len() + sh
    };
    let v = seq_value(r);
    if r.len() > 1 {
        assert(seq_value(b) * pow10(sh) >= 0) by (nonlinear_arith);
        if r.len() == m + 1 {
            assert(v >= pow10(m));
            lemma_leading_nonzero(r);
        } else {
            assert(r.len() == m && m > 1);
            if a.len() >= b.len() + sh {
                lemma_canonical_lower_bound(a);
                assert(v >= pow10((m - 1) as nat));
            } else {
                assert(m == b.len() + sh);
                if b.len() > 1 {
                    lemma_canonical_lower_bound(b);
                    lemma_pow10_add((b.len() - 1) as nat, sh);
                    assert(seq_value(b) * pow10(sh) >= pow10((b.len() - 1) as nat) * pow10(sh))
                        by (nonlinear_arith)
                        requires
                            seq_value(b) >= pow10((b.len() - 1) as nat),
                            pow10(sh) >= 0,
                    ;
                    assert(v >= pow10((m - 1) as nat));
                } else {
                    assert(seq_value(b) >= 1);
                    assert(seq_value(b) * pow10(sh) >= 1 * pow10(sh)) by (nonlinear_arith)
                        requires
                            seq_value(b) >= 1,
                            pow10(sh) >= 0,
                    ;
                    assert(v >= pow10((m - 1) as nat));
                }
            }
            lemma_leading_nonzero(r);
        }
    }
}

/// One step of reading a digit store from its least-significant end.
pub proof fn lemma_low_val_step(s: Seq<u8>, i: int)
    requires
        0 <= i,
    ensures
        low_val(s, i + 1) == low_val(s, i) + digit_at(s, i) * pow10(i as nat),
{
    if i >= s.len() {
    } else {
        let n = s.len() as int;
        let t = s.subrange(n - i - 1, n);
        lemma_seq_value_split(t, 1);
        assert(t.subrange(0, 1) =~= seq![s[n - 1 - i]]);
        lemma_seq_value_singleton(s[n - 1 - i]);
        assert(t.subrange(1, t.len() as int) =~= s.subrange(n - i, n));
        if i + 1 >= s.len() {
            assert(t =~= s);
        }
        if i == 0 {
            assert(s.subrange(n - i, n) =~= Seq::<u8>::empty());
        }
    }
}

/// The `i` least-significant digits denote a number below `10^i`.
pub proof fn lemma_low_val_bound(s: Seq<u8>, i: int)
    requires
        forall|j: int| 0 <= j < s.len() ==> s[j] <= 9,
        0 <= i,
    ensures
        low_val(s, i) < pow10(i as nat),
{
    if i >= s.len() {
        lemma_seq_value_bound(s);
        lemma_pow10_mono(s.len(), i as nat);
    } else if i == 0 {
        assert(pow10(0) == 1);
    } else {
        lemma_seq_value_bound(s.subrange(s.len() - i, s.len() as int));
    }
}

/// Once `i` covers the whole store, the low digits denote the whole value.
pub proof fn lemma_low_val_full(s: Seq<u8>, i: int)
    requires
        i >= s.len(),
    ensures
        low_val(s, i) == seq_value(s),
{
}

} // verus!
