//! Multilinear polynomials in evaluation form: the values of the polynomial
//! at all `2^n` corners of the Boolean hypercube, indexed by the binary
//! representation of the corner with variable `0` at the most significant
//! bit. Partial evaluation fixes one variable by linear interpolation and
//! halves the form; full evaluation fixes the variables one by one.

use vstd::prelude::*;
use vstd::arithmetic::div_mod::{
    lemma_basic_div, lemma_fundamental_div_mod, lemma_fundamental_div_mod_converse,
    lemma_mod_bound, lemma_small_mod,
};
use vstd::arithmetic::power2::{
    lemma2_to64, lemma2_to64_rest, lemma_pow2_adds, lemma_pow2_pos, lemma_pow2_strictly_increases,
    lemma_pow2_unfold, pow2,
};

use crate::field::{be8_spec, fadd, fmul, fsub, seq_view, Fp, P};
use crate::Error;

verus! {

/// Whether `l` is a power of two; zero is not.
pub open spec fn is_power_of_two(l: nat) -> bool
    decreases l,
{
    if l == 0 {
        false
    } else if l == 1 {
        true
    } else {
        l % 2 == 0 && is_power_of_two(l / 2)
    }
}

/// The base-two logarithm of `l`, rounded down.
pub open spec fn lg(l: nat) -> nat
    decreases l,
{
    if l <= 1 {
        0
    } else {
        1 + lg(l / 2)
    }
}

/// A power of two is the power of its logarithm.
pub proof fn lemma_pow2_lg(l: nat)
    requires
        is_power_of_two(l),
    ensures
        pow2(lg(l)) == l,
    decreases l,
{
    if l == 1 {
        lemma2_to64();
    } else {
        lemma_pow2_lg(l / 2);
        lemma_pow2_unfold(lg(l));
    }
}

/// The logarithm of a power of two is its exponent.
pub proof fn lemma_lg_pow2(e: nat)
    ensures
        lg(pow2(e)) == e,
        is_power_of_two(pow2(e)),
    decreases e,
{
    if e == 0 {
        lemma2_to64();
    } else {
        lemma_lg_pow2((e - 1) as nat);
        lemma_pow2_unfold(e);
        lemma_pow2_pos((e - 1) as nat);
    }
}

/// Monotonicity of `pow2`.
pub proof fn lemma_pow2_le(e1: nat, e2: nat)
    requires
        e1 <= e2,
    ensures
        pow2(e1) <= pow2(e2),
{
    if e1 < e2 {
        lemma_pow2_strictly_increases(e1, e2);
    }
}

/// The hypercube distance between the two corners of a pair when variable
/// `eval_var` of a form with `len` values is being fixed.
pub open spec fn pair_step(len: nat, eval_var: int) -> nat {
    pow2((lg(len) - 1 - eval_var) as nat)
}

/// The corner with the fixed variable set to zero, for pair index `j`.
pub open spec fn pair_low(j: int, step: int) -> int {
    (j / step) * (2 * step) + (j % step)
}

/// Fixing variable `eval_var` to `v`: each pair of corners differing only in
/// that variable is interpolated as `low + v * (high - low)`.
pub open spec fn pe_spec(p: Seq<int>, eval_var: int, v: int) -> Seq<int> {
    let step = pair_step(p.len(), eval_var) as int;
    Seq::new(
        p.len() / 2,
        |j: int|
            fadd(
                p[pair_low(j, step)],
                fmul(v, fsub(p[pair_low(j, step) + step], p[pair_low(j, step)])),
            ),
    )
}

/// The corners of a pair both lie inside the form.
pub proof fn lemma_pair_low_bounds(j: int, step: int, len: int)
    requires
        step >= 1,
        len == 2 * step * (len / (2 * step)),
        0 <= j < len / 2,
    ensures
        0 <= (j / step) * (2 * step),
        (j / step) * (2 * step) <= pair_low(j, step),
        pair_low(j, step) + step < len,
{
    let q = j / step;
    let r0 = j % step;
    lemma_fundamental_div_mod(j, step);
    lemma_mod_bound(j, step);
    let cap = len / (2 * step);
    assert(len == (step * cap) * 2) by (nonlinear_arith)
        requires
            len == 2 * step * cap,
    ;
    lemma_fundamental_div_mod_converse(len, 2, step * cap, 0);
    assert(q * (2 * step) >= 0 && q * (2 * step) + r0 + step < len) by (nonlinear_arith)
        requires
            step >= 1,
            len == 2 * step * cap,
            0 <= j < len / 2,
            len / 2 == step * cap,
            j == step * q + r0,
            0 <= r0 < step,
    ;
}

/// Every value of a partial evaluation lies in `[0, P)`.
pub proof fn lemma_pe_in_field(p: Seq<int>, eval_var: int, v: int)
    ensures
        in_field(pe_spec(p, eval_var, v)),
{
    assert forall|i: int| 0 <= i < pe_spec(p, eval_var, v).len() implies 0 <= #[trigger] pe_spec(
        p,
        eval_var,
        v,
    )[i] < (P as int) by {
        lemma_mod_bound(
            p[pair_low(i, pair_step(p.len(), eval_var) as int)] + fmul(
                v,
                fsub(
                    p[pair_low(i, pair_step(p.len(), eval_var) as int) + pair_step(
                        p.len(),
                        eval_var,
                    ) as int],
                    p[pair_low(i, pair_step(p.len(), eval_var) as int)],
                ),
            ),
            P as int,
        );
    }
}

/// Whether every entry is a canonical field representative.
pub open spec fn in_field(s: Seq<int>) -> bool {
    forall|i: int| 0 <= i < s.len() ==> 0 <= #[trigger] s[i] < (P as int)
}

/// The field sum of a sequence of values.
pub open spec fn sum_spec(s: Seq<int>) -> int
    decreases s.len(),
{
    if s.len() == 0 {
        0
    } else {
        fadd(s[0], sum_spec(s.skip(1)))
    }
}

/// A sequence sum is a canonical field representative.
pub proof fn lemma_sum_bound(s: Seq<int>)
    ensures
        0 <= sum_spec(s) < (P as int),
{
    if s.len() == 0 {
    } else {
        lemma_mod_bound(s[0] + sum_spec(s.skip(1)), P as int);
    }
}

/// Summing a concatenation is the field sum of the two sums.
pub proof fn lemma_sum_concat(a: Seq<int>, b: Seq<int>)
    ensures
        sum_spec(a + b) == fadd(sum_spec(a), sum_spec(b)),
    decreases a.len(),
{
    if a.len() == 0 {
        assert(a + b =~= b);
        lemma_sum_bound(b);
        lemma_small_mod(sum_spec(b) as nat, P as nat);
    } else {
        assert((a + b).skip(1) =~= a.skip(1) + b);
        lemma_sum_concat(a.skip(1), b);
        crate::field::lemma_fadd_assoc(a[0], sum_spec(a.skip(1)), sum_spec(b));
    }
}

/// The pointwise interpolation `low + v * (high - low)` of two sequences.
pub open spec fn mix_spec(a: Seq<int>, b: Seq<int>, v: int) -> Seq<int> {
    Seq::new(a.len(), |j: int| fadd(a[j], fmul(v, fsub(b[j], a[j]))))
}

/// The sum of a pointwise interpolation is the interpolation of the sums.
pub proof fn lemma_mix_sum(a: Seq<int>, b: Seq<int>, v: int)
    requires
        a.len() == b.len(),
    ensures
        sum_spec(mix_spec(a, b, v)) == fadd(sum_spec(a), fmul(v, fsub(sum_spec(b), sum_spec(a)))),
    decreases a.len(),
{
    if a.len() == 0 {
        assert(fsub(0, 0) == 0);
        assert(fmul(v, 0) == 0) by {
            assert(v * 0 == 0) by (nonlinear_arith);
        }
        assert(fadd(0, 0) == 0);
    } else {
        let a1 = a.skip(1);
        let b1 = b.skip(1);
        assert(mix_spec(a, b, v).skip(1) =~= mix_spec(a1, b1, v));
        lemma_mix_sum(a1, b1, v);
        let a0 = a[0];
        let b0 = b[0];
        let sa = sum_spec(a1);
        let sb = sum_spec(b1);
        assert(mix_spec(a, b, v)[0] == fadd(a0, fmul(v, fsub(b0, a0))));
        assert(sum_spec(mix_spec(a, b, v)) == fadd(
            fadd(a0, fmul(v, fsub(b0, a0))),
            fadd(sa, fmul(v, fsub(sb, sa))),
        ));
        crate::field::lemma_interp_combine(a0, b0, sa, sb, v);
        assert(sum_spec(a) == fadd(a0, sa));
        assert(sum_spec(b) == fadd(b0, sb));
    }
}

/// Fixing the leading variable pairs the first half with the second half.
pub proof fn lemma_pe0(p: Seq<int>, v: int)
    requires
        is_power_of_two(p.len()),
        p.len() >= 2,
    ensures
        pe_spec(p, 0, v) =~= mix_spec(
            p.subrange(0, p.len() as int / 2),
            p.subrange(p.len() as int / 2, p.len() as int),
            v,
        ),
{
    let len = p.len() as int;
    let h = len / 2;
    lemma_pow2_lg(p.len());
    assert(lg(p.len()) >= 1);
    lemma_pow2_unfold(lg(p.len()));
    assert(pair_step(p.len(), 0) as int == h);
    assert forall|j: int| 0 <= j < h implies pair_low(j, h) == j by {
        lemma_basic_div(j, h);
        lemma_small_mod(j as nat, h as nat);
    }
}

/// The two half-sums of a form determine its total and each interpolated sum.
pub proof fn lemma_round_sums(p: Seq<int>, v: int)
    requires
        is_power_of_two(p.len()),
        p.len() >= 2,
    ensures
        ({
            let h = p.len() as int / 2;
            let g0 = sum_spec(p.subrange(0, h));
            let g1 = sum_spec(p.subrange(h, p.len() as int));
            fadd(g0, g1) == sum_spec(p) && sum_spec(pe_spec(p, 0, v)) == fadd(
                g0,
                fmul(v, fsub(g1, g0)),
            )
        }),
{
    let len = p.len() as int;
    let h = len / 2;
    let lo = p.subrange(0, h);
    let hi = p.subrange(h, len);
    assert(p =~= lo + hi);
    lemma_sum_concat(lo, hi);
    lemma_pe0(p, v);
    lemma_mix_sum(lo, hi, v);
}

/// The form restricted by fixing the leading variable to each challenge in turn.
pub open spec fn restrict_spec(p: Seq<int>, cs: Seq<int>) -> Seq<int>
    decreases cs.len(),
{
    if cs.len() == 0 {
        p
    } else {
        restrict_spec(pe_spec(p, 0, cs[0]), cs.skip(1))
    }
}

/// The value of the multilinear extension at a point, one coordinate per variable.
pub open spec fn eval_spec(p: Seq<int>, cs: Seq<int>) -> int {
    restrict_spec(p, cs)[0]
}

/// Restricting by one more challenge fixes the leading variable of the restriction.
pub proof fn lemma_restrict_push(p: Seq<int>, cs: Seq<int>, c: int)
    ensures
        restrict_spec(p, cs.push(c)) == pe_spec(restrict_spec(p, cs), 0, c),
    decreases cs.len(),
{
    if cs.len() == 0 {
        assert(cs.push(c)[0] == c);
        assert(cs.push(c).skip(1) =~= Seq::<int>::empty());
        assert(restrict_spec(p, cs.push(c)) == restrict_spec(
            pe_spec(p, 0, c),
            Seq::<int>::empty(),
        ));
        assert(restrict_spec(pe_spec(p, 0, c), Seq::<int>::empty()) == pe_spec(p, 0, c));
        assert(restrict_spec(p, cs) == p);
    } else {
        assert(cs.push(c)[0] == cs[0]);
        assert(cs.push(c).skip(1) =~= cs.skip(1).push(c));
        assert(restrict_spec(p, cs.push(c)) == restrict_spec(
            pe_spec(p, 0, cs[0]),
            cs.skip(1).push(c),
        ));
        lemma_restrict_push(pe_spec(p, 0, cs[0]), cs.skip(1), c);
        assert(restrict_spec(p, cs) == restrict_spec(pe_spec(p, 0, cs[0]), cs.skip(1)));
    }
}

/// The concatenated canonical encodings of a sequence of field values.
pub open spec fn bytes_of_seq(s: Seq<int>) -> Seq<u8>
    decreases s.len(),
{
    if s.len() == 0 {
        Seq::empty()
    } else {
        be8_spec(s[0]) + bytes_of_seq(s.skip(1))
    }
}

/// Encoding one more value appends its encoding.
pub proof fn lemma_bytes_of_seq_snoc(s: Seq<int>)
    requires
        s.len() > 0,
    ensures
        bytes_of_seq(s) == bytes_of_seq(s.drop_last()) + be8_spec(s.last()),
    decreases s.len(),
{
    if s.len() == 1 {
        assert(s.drop_last() =~= Seq::<int>::empty());
        assert(bytes_of_seq(s.drop_last()) + be8_spec(s.last()) =~= be8_spec(s[0]) + bytes_of_seq(
            s.skip(1),
        ));
    } else {
        let s1 = s.skip(1);
        lemma_bytes_of_seq_snoc(s1);
        assert(s.drop_last()[0] == s[0]);
        assert(s.drop_last().skip(1) =~= s1.drop_last());
        assert(s.last() == s1.last());
        assert(bytes_of_seq(s.drop_last()) + be8_spec(s.last()) =~= be8_spec(s[0]) + (bytes_of_seq(
            s1.drop_last(),
        ) + be8_spec(s1.last())));
    }
}

/// Whether a length is a power of two, decided by repeated halving.
fn is_pow2_exec(len: usize) -> (b: bool)
    ensures
        b == is_power_of_two(len as nat),
{
    if len == 0 {
        return false;
    }
    let mut m = len;
    while m > 1
        invariant
            m >= 1,
            is_power_of_two(len as nat) == is_power_of_two(m as nat),
        decreases m,
    {
        if m % 2 != 0 {
            return false;
        }
        m = m / 2;
    }
    true
}

/// The base-two logarithm of a power of two, computed by repeated halving.
fn lg_exec(len: usize) -> (n: u32)
    requires
        is_power_of_two(len as nat),
    ensures
        n as nat == lg(len as nat),
        pow2(n as nat) == len as nat,
{
    let mut m = len;
    let mut n: u32 = 0;
    proof {
        lemma2_to64();
    }
    while m > 1
        invariant
            m >= 1,
            is_power_of_two(m as nat),
            lg(len as nat) == n as nat + lg(m as nat),
            pow2(n as nat) * m as nat == len as nat,
        decreases m,
    {
        proof {
            if n >= 63 {
                lemma_pow2_le(63, n as nat);
                lemma2_to64_rest();
                assert(pow2(n as nat) * m as nat >= pow2(63) * 2) by (nonlinear_arith)
                    requires
                        pow2(n as nat) >= pow2(63),
                        m >= 2,
                ;
            }
            lemma_pow2_unfold((n + 1) as nat);
            assert(pow2((n + 1) as nat) * (m as nat / 2) == pow2(n as nat) * m as nat)
                by (nonlinear_arith)
                requires
                    m as nat % 2 == 0,
                    pow2((n + 1) as nat) == 2 * pow2(n as nat),
            ;
        }
        m = m / 2;
        n = n + 1;
    }
    proof {
        lemma_pow2_lg(len as nat);
        assert(pow2(n as nat) * 1 == pow2(n as nat)) by (nonlinear_arith);
        lemma_lg_pow2(n as nat);
    }
    n
}

/// The pair distance `pow2(lg(len) - 1 - eval_var)`, computed by halving.
fn step_exec(len: usize, eval_var: usize) -> (step: usize)
    requires
        is_power_of_two(len as nat),
        len >= 2,
        (eval_var as int) < lg(len as nat),
    ensures
        step as nat == pair_step(len as nat, eval_var as int),
        step >= 1,
{
    proof {
        lemma_pow2_lg(len as nat);
        lemma_pow2_unfold(lg(len as nat));
    }
    let mut step = len / 2;
    let mut k: usize = 0;
    while k < eval_var
        invariant
            k <= eval_var,
            (eval_var as int) < lg(len as nat),
            step as nat == pow2((lg(len as nat) - 1 - k as int) as nat),
        decreases eval_var - k,
    {
        proof {
            lemma_pow2_unfold((lg(len as nat) - 1 - k as int) as nat);
            lemma_pow2_pos((lg(len as nat) - 2 - k as int) as nat);
        }
        step = step / 2;
        k = k + 1;
    }
    proof {
        lemma_pow2_pos((lg(len as nat) - 1 - eval_var as int) as nat);
    }
    step
}

/// Fixes hypercube variable `eval_var` (counted from the most significant
/// bit) to `value`: every pair of corners differing only in that variable is
/// interpolated as `low + value * (high - low)`, producing a form of half
/// the size over the remaining variables.
pub fn partial_evaluate(polynomial: &Vec<Fp>, eval_var: usize, value: Fp) -> (r: Vec<Fp>)
    requires
        is_power_of_two(polynomial@.len()),
        polynomial@.len() >= 2,
        (eval_var as int) < lg(polynomial@.len()),
    ensures
        seq_view(r@) == pe_spec(seq_view(polynomial@), eval_var as int, value@),
        r@.len() == polynomial@.len() / 2,
{
    let ghost p = seq_view(polynomial@);
    let len = polynomial.len();
    let half = len / 2;
    let step = step_exec(len, eval_var);
    proof {
        // 2 * step divides the length, so every pair stays inside the form.
        lemma_pow2_lg(len as nat);
        let e = (lg(len as nat) - 1 - eval_var as int) as nat;
        lemma_pow2_adds(e + 1, eval_var as nat);
        lemma_pow2_unfold(e + 1);
        lemma_pow2_pos(eval_var as nat);
        let cap = pow2(eval_var as nat) as int;
        assert(len as int == (2 * step as int) * cap && len as int == cap * (2 * step as int))
            by (nonlinear_arith)
            requires
                len as nat == pow2(e + 1) * pow2(eval_var as nat),
                pow2(e + 1) == 2 * pow2(e),
                step as nat == pow2(e),
                cap == pow2(eval_var as nat) as int,
        ;
        lemma_fundamental_div_mod_converse(len as int, 2 * step as int, cap, 0);
        assert(2 * step as int <= len as int) by (nonlinear_arith)
            requires
                len as int == (2 * step as int) * cap,
                cap >= 1,
                step >= 1,
        ;
    }
    let mut r: Vec<Fp> = Vec::new();
    let mut j: usize = 0;
    while j < half
        invariant
            j <= half,
            half == len / 2,
            len == polynomial@.len(),
            len as int == 2 * step as int * (len as int / (2 * step as int)),
            2 * step as int <= len as int,
            step >= 1,
            step as nat == pair_step(p.len(), eval_var as int),
            p == seq_view(polynomial@),
            p.len() == len,
            r@.len() == j,
            forall|k: int|
                0 <= k < j ==> seq_view(r@)[k] == #[trigger] pe_spec(
                    p,
                    eval_var as int,
                    value@,
                )[k],
        decreases half - j,
    {
        proof {
            lemma_pair_low_bounds(j as int, step as int, len as int);
        }
        let low = (j / step) * (2 * step) + (j % step);
        let a = polynomial[low];
        let b = polynomial[low + step];
        r.push(a.add(value.mul(b.sub(a))));
        j = j + 1;
    }
    proof {
        assert(seq_view(r@) =~= pe_spec(p, eval_var as int, value@));
    }
    r
}

/// A multilinear polynomial held by its values on the Boolean hypercube.
#[derive(Debug, PartialEq)]
pub struct MultilinearEvalForm {
    evaluated_values: Vec<Fp>,
}

impl View for MultilinearEvalForm {
    type V = Seq<int>;

    closed spec fn view(&self) -> Seq<int> {
        seq_view(self.evaluated_values@)
    }
}

impl MultilinearEvalForm {
    #[verifier::type_invariant]
    spec fn wf(self) -> bool {
        is_power_of_two(self.evaluated_values@.len())
    }

    /// Builds a form from the hypercube values; the count must be a power of
    /// two (one value means zero variables).
    pub fn new(evaluated_values: &Vec<Fp>) -> (r: Result<Self, Error>)
        ensures
            is_power_of_two(evaluated_values@.len()) ==> (r matches Ok(f) && f@ == seq_view(
                evaluated_values@,
            )),
            !is_power_of_two(evaluated_values@.len()) ==> (r matches Err(e) && e
                == Error::InvalidLength),
    {
        if !is_pow2_exec(evaluated_values.len()) {
            return Err(Error::InvalidLength);
        }
        let mut values: Vec<Fp> = Vec::new();
        let mut i: usize = 0;
        while i < evaluated_values.len()
            invariant
                i <= evaluated_values@.len(),
                values@ =~= evaluated_values@.take(i as int),
            decreases evaluated_values@.len() - i,
        {
            values.push(evaluated_values[i]);
            i = i + 1;
        }
        proof {
            assert(values@ =~= evaluated_values@);
        }
        Ok(MultilinearEvalForm { evaluated_values: values })
    }

    /// A one-variable form from its two values; used for round polynomials.
    pub fn from_pair(at_zero: Fp, at_one: Fp) -> (r: Self)
        ensures
            r@ =~= seq![at_zero@, at_one@],
    {
        let mut values: Vec<Fp> = Vec::new();
        values.push(at_zero);
        values.push(at_one);
        proof {
            assert(is_power_of_two(1));
            assert(is_power_of_two(2));
        }
        MultilinearEvalForm { evaluated_values: values }
    }

    /// The number of hypercube values.
    pub fn len(&self) -> (l: usize)
        ensures
            l == self@.len(),
    {
        self.evaluated_values.len()
    }

    /// The value at hypercube corner `i`.
    pub fn value_at(&self, i: usize) -> (r: Fp)
        requires
            (i as int) < self@.len(),
        ensures
            r@ == self@[i as int],
    {
        self.evaluated_values[i]
    }

    /// The number of live variables: `log2` of the number of values.
    pub fn number_of_variables(&self) -> (n: u32)
        ensures
            n as nat == lg(self@.len()),
            pow2(n as nat) == self@.len(),
            is_power_of_two(self@.len()),
    {
        proof {
            use_type_invariant(self);
        }
        lg_exec(self.evaluated_values.len())
    }

    /// The field sum of the values at corners `from..to`.
    pub fn sum_range(&self, from: usize, to: usize) -> (r: Fp)
        requires
            from <= to <= self@.len(),
        ensures
            r@ == sum_spec(self@.subrange(from as int, to as int)),
    {
        let mut acc = Fp::zero();
        let mut i: usize = to;
        while i > from
            invariant
                from <= i <= to <= self.evaluated_values@.len(),
                acc@ == sum_spec(self@.subrange(i as int, to as int)),
            decreases i,
        {
            i = i - 1;
            proof {
                assert(self@.subrange(i as int, to as int).skip(1) =~= self@.subrange(
                    i + 1,
                    to as int,
                ));
                assert(self@.subrange(i as int, to as int)[0] == self@[i as int]);
            }
            acc = self.evaluated_values[i].add(acc);
        }
        acc
    }

    /// The field sum of all hypercube values.
    pub fn hypercube_sum(&self) -> (r: Fp)
        ensures
            r@ == sum_spec(self@),
    {
        let r = self.sum_range(0, self.evaluated_values.len());
        proof {
            assert(self@.subrange(0, self@.len() as int) =~= self@);
        }
        r
    }

    /// Fixes variable `eval_var` to `value`, producing a new form over the
    /// remaining variables; this form is not changed.
    pub fn partial_evaluate(&self, eval_var: usize, value: Fp) -> (r: Self)
        requires
            self@.len() >= 2,
            (eval_var as int) < lg(self@.len()),
        ensures
            r@ == pe_spec(self@, eval_var as int, value@),
            r@.len() == self@.len() / 2,
    {
        proof {
            use_type_invariant(self);
        }
        let values = partial_evaluate(&self.evaluated_values, eval_var, value);
        MultilinearEvalForm { evaluated_values: values }
    }

    /// A fresh form holding the same hypercube values; partial evaluation
    /// and proving never mutate a form, they allocate anew.
    pub fn duplicate(&self) -> (r: Self)
        ensures
            r@ == self@,
    {
        proof {
            use_type_invariant(self);
        }
        let mut values: Vec<Fp> = Vec::new();
        let mut i: usize = 0;
        while i < self.evaluated_values.len()
            invariant
                i <= self.evaluated_values@.len(),
                values@ =~= self.evaluated_values@.take(i as int),
            decreases self.evaluated_values@.len() - i,
        {
            values.push(self.evaluated_values[i]);
            i = i + 1;
        }
        proof {
            assert(values@ =~= self.evaluated_values@);
        }
        MultilinearEvalForm { evaluated_values: values }
    }

    /// Evaluates the multilinear extension at `values`, one coordinate per
    /// variable, by fixing the leading variable repeatedly; fails unless the
    /// number of coordinates matches the number of variables.
    pub fn evaluate(&self, values: &Vec<Fp>) -> (r: Result<Fp, Error>)
        ensures
            values@.len() == lg(self@.len()) ==> (r matches Ok(v) && v@ == eval_spec(
                self@,
                seq_view(values@),
            )),
            values@.len() != lg(self@.len()) ==> (r matches Err(e) && e
                == Error::DimensionMismatch),
    {
        proof {
            use_type_invariant(self);
        }
        let n = self.number_of_variables();
        if values.len() != n as usize {
            return Err(Error::DimensionMismatch);
        }
        // Copy the values, then fix one variable per coordinate.
        let mut current = self.duplicate();
        let mut round: usize = 0;
        while round < values.len()
            invariant
                round <= values@.len(),
                values@.len() == lg(self@.len()),
                pow2((values@.len() - round) as nat) == current@.len(),
                current@ == restrict_spec(self@, seq_view(values@.take(round as int))),
                pow2(values@.len()) == self@.len(),
            decreases values@.len() - round,
        {
            proof {
                lemma_pow2_unfold((values@.len() - round) as nat);
                lemma_pow2_pos((values@.len() - round - 1) as nat);
                lemma_lg_pow2((values@.len() - round) as nat);
                assert(seq_view(values@.take(round as int)).push(values@[round as int]@)
                    =~= seq_view(values@.take(round + 1)));
                lemma_restrict_push(
                    self@,
                    seq_view(values@.take(round as int)),
                    values@[round as int]@,
                );
            }
            current = current.partial_evaluate(0, values[round]);
            round = round + 1;
        }
        proof {
            assert(values@.take(values@.len() as int) =~= values@);
            lemma2_to64();
        }
        Ok(current.value_at(0))
    }

    /// The concatenation of each value's canonical big-endian encoding, in
    /// hypercube index order; this is the transcript-absorption encoding.
    pub fn convert_to_bytes(&self) -> (r: Vec<u8>)
        ensures
            r@ == bytes_of_seq(self@),
    {
        let mut r: Vec<u8> = Vec::new();
        let mut i: usize = 0;
        while i < self.evaluated_values.len()
            invariant
                i <= self.evaluated_values@.len(),
                r@ == bytes_of_seq(self@.take(i as int)),
        decreases self.evaluated_values@.len() - i,
        {
            proof {
                assert(self@.take(i + 1).drop_last() =~= self@.take(i as int));
                assert(self@.take(i + 1).last() == self@[i as int]);
                lemma_bytes_of_seq_snoc(self@.take(i + 1));
            }
            let mut eb = self.evaluated_values[i].to_be_bytes();
            r.append(&mut eb);
            i = i + 1;
        }
        proof {
            assert(self@.take(self@.len() as int) =~= self@);
        }
        r
    }
}

/// The views of field elements are always canonical representatives.
pub proof fn lemma_seq_view_in_field(s: Seq<Fp>)
    ensures
        in_field(seq_view(s)),
{
    assert forall|i: int| 0 <= i < seq_view(s).len() implies 0 <= #[trigger] seq_view(s)[i] < (
    P as int) by {
        crate::field::lemma_fp_bound(s[i]);
    }
}

/// Fixing the leading variable of a two-variable form `[a, b, c, d]` to `r`
/// interpolates each corner pair into `[a + r(c - a), b + r(d - b)]`, and
/// evaluating the remaining one-variable form at `s` equals evaluating the
/// original form at `[r, s]`.
pub proof fn lemma_partial_evaluation_correct(a: int, b: int, c: int, d: int, r: int, s: int)
    ensures
        pe_spec(seq![a, b, c, d], 0, r) =~= seq![
            fadd(a, fmul(r, fsub(c, a))),
            fadd(b, fmul(r, fsub(d, b))),
        ],
        eval_spec(pe_spec(seq![a, b, c, d], 0, r), seq![s]) == eval_spec(
            seq![a, b, c, d],
            seq![r, s],
        ),
{
    let p = seq![a, b, c, d];
    assert(is_power_of_two(1));
    assert(is_power_of_two(2));
    assert(is_power_of_two(4));
    lemma_pe0(p, r);
    assert(p.subrange(0, 2) =~= seq![a, b]);
    assert(p.subrange(2, 4) =~= seq![c, d]);
    assert(mix_spec(seq![a, b], seq![c, d], r) =~= seq![
        fadd(a, fmul(r, fsub(c, a))),
        fadd(b, fmul(r, fsub(d, b))),
    ]);
    // Evaluating at [r, s] restricts by r and then by s, by definition.
    let cs = seq![r, s];
    assert(cs[0] == r);
    assert(cs.skip(1) =~= seq![s]);
}

} // verus!
