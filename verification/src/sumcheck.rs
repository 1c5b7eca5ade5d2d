//! The sum-check protocol. The prover reduces the claim "the hypercube sum
//! of this multilinear polynomial is `S`" by one variable per round: it
//! sends the univariate round polynomial as its values at 0 and 1, absorbs
//! that message into the transcript, derives the round challenge from the
//! transcript, and fixes the leading variable to the challenge. The
//! verifier replays the identical transcript, checks that every round
//! polynomial sums to the running claim, and ends with one evaluation of
//! the original polynomial at the challenge point.

use vstd::prelude::*;
use vstd::arithmetic::power2::{lemma2_to64, lemma_pow2_pos, lemma_pow2_unfold, pow2};
use vstd::arithmetic::div_mod::lemma_small_mod;

use crate::field::{be8_spec, fadd, fmul, fsub, seq_view, Fp, P};
use crate::multilinear::{
    bytes_of_seq, eval_spec, in_field, is_power_of_two, lemma_lg_pow2, lemma_pe_in_field,
    lemma_round_sums, lemma_seq_view_in_field, lg, pe_spec, restrict_spec, sum_spec,
    MultilinearEvalForm,
};
use crate::transcript::{challenge_of, Transcript};
use crate::Error;

verus! {

/// The views of a sequence of evaluation forms.
pub open spec fn forms_view(s: Seq<MultilinearEvalForm>) -> Seq<Seq<int>> {
    s.map_values(|m: MultilinearEvalForm| m@)
}

/// The bytes both roles absorb before round zero: the polynomial's
/// serialized hypercube values followed by the claimed sum.
pub open spec fn seed_bytes(p: Seq<int>, claimed: int) -> Seq<u8> {
    bytes_of_seq(p) + be8_spec(claimed)
}

/// The serialized form of one round polynomial, given by its values at 0
/// and 1.
pub open spec fn round_message(g0: int, g1: int) -> Seq<u8> {
    bytes_of_seq(seq![g0, g1])
}

/// The round polynomials an honest prover sends, starting from the current
/// form and transcript: each round sends the half-sums of the form, absorbs
/// them, and fixes the leading variable to the derived challenge.
#[verifier::opaque]
pub open spec fn rounds_spec(cur: Seq<int>, tb: Seq<u8>) -> Seq<Seq<int>>
    decreases cur.len(),
{
    if cur.len() < 2 {
        Seq::empty()
    } else {
        let h = cur.len() as int / 2;
        let g0 = sum_spec(cur.subrange(0, h));
        let g1 = sum_spec(cur.subrange(h, cur.len() as int));
        let tb2 = tb + round_message(g0, g1);
        seq![seq![g0, g1]] + rounds_spec(pe_spec(cur, 0, challenge_of(tb2)), tb2)
    }
}

/// The challenges an honest prover derives, round by round.
#[verifier::opaque]
pub open spec fn challenges_spec(cur: Seq<int>, tb: Seq<u8>) -> Seq<int>
    decreases cur.len(),
{
    if cur.len() < 2 {
        Seq::empty()
    } else {
        let h = cur.len() as int / 2;
        let g0 = sum_spec(cur.subrange(0, h));
        let g1 = sum_spec(cur.subrange(h, cur.len() as int));
        let tb2 = tb + round_message(g0, g1);
        seq![challenge_of(tb2)] + challenges_spec(pe_spec(cur, 0, challenge_of(tb2)), tb2)
    }
}

/// Whether every round polynomial carries exactly its two values at 0 and 1.
pub open spec fn rounds_well_formed(rounds: Seq<Seq<int>>) -> bool {
    forall|i: int| 0 <= i < rounds.len() ==> #[trigger] rounds[i].len() == 2
}

/// The verifier's walk over the round polynomials: each round must sum to
/// the running claim, and the claim becomes the round polynomial evaluated
/// at the challenge the replayed transcript derives. Returns the claim left
/// after the last round, or the error of the first failing round.
#[verifier::opaque]
pub open spec fn verify_rounds_spec(
    rounds: Seq<Seq<int>>,
    expected: int,
    tb: Seq<u8>,
    idx: int,
) -> Result<int, Error>
    decreases rounds.len(),
{
    if rounds.len() == 0 {
        Ok(expected)
    } else {
        let g0 = rounds[0][0];
        let g1 = rounds[0][1];
        if fadd(g0, g1) != expected {
            Err(Error::RoundConsistencyFailure(idx as u32))
        } else {
            let tb2 = tb + round_message(g0, g1);
            let r = challenge_of(tb2);
            verify_rounds_spec(rounds.skip(1), fadd(g0, fmul(r, fsub(g1, g0))), tb2, idx + 1)
        }
    }
}

/// The challenges the verifier derives while replaying the round messages.
#[verifier::opaque]
pub open spec fn round_challenges_spec(rounds: Seq<Seq<int>>, tb: Seq<u8>) -> Seq<int>
    decreases rounds.len(),
{
    if rounds.len() == 0 {
        Seq::empty()
    } else {
        let tb2 = tb + round_message(rounds[0][0], rounds[0][1]);
        seq![challenge_of(tb2)] + round_challenges_spec(rounds.skip(1), tb2)
    }
}

/// The verifier's whole decision on a polynomial, a claimed sum and a
/// sequence of round polynomials: malformed rounds and a wrong round count
/// are rejected up front, then every round is checked against the replayed
/// transcript, and finally the polynomial itself is evaluated at the
/// challenge point and compared with the remaining claim.
#[verifier::opaque]
pub open spec fn verify_spec(p: Seq<int>, claimed: int, rounds: Seq<Seq<int>>) -> Result<
    (),
    Error,
> {
    if !rounds_well_formed(rounds) {
        Err(Error::InvalidLength)
    } else if rounds.len() != lg(p.len()) {
        Err(Error::DimensionMismatch)
    } else {
        let tb = seed_bytes(p, claimed);
        match verify_rounds_spec(rounds, claimed, tb, 0) {
            Err(e) => Err(e),
            Ok(expected) => {
                if eval_spec(p, round_challenges_spec(rounds, tb)) == expected {
                    Ok(())
                } else {
                    Err(Error::OracleMismatch)
                }
            },
        }
    }
}

/// A sum-check proof: the claimed hypercube sum and one round polynomial
/// per variable, in round order.
#[derive(Debug, PartialEq)]
pub struct Proof {
    claimed_sum: Fp,
    round_polys: Vec<MultilinearEvalForm>,
}

impl Proof {
    /// The claimed sum the proof was built for.
    pub closed spec fn claimed_view(&self) -> int {
        self.claimed_sum@
    }

    /// The round polynomials' values, in round order.
    pub closed spec fn rounds_view(&self) -> Seq<Seq<int>> {
        forms_view(self.round_polys@)
    }

    /// Assembles a proof from a claimed sum and round polynomials.
    pub fn new(claimed_sum: Fp, round_polys: Vec<MultilinearEvalForm>) -> (r: Proof)
        ensures
            r.claimed_view() == claimed_sum@,
            r.rounds_view() == forms_view(round_polys@),
    {
        Proof { claimed_sum, round_polys }
    }

    /// The claimed hypercube sum.
    pub fn claimed_sum(&self) -> (r: Fp)
        ensures
            r@ == self.claimed_view(),
    {
        self.claimed_sum
    }

    /// The number of rounds.
    pub fn round_count(&self) -> (r: usize)
        ensures
            r == self.rounds_view().len(),
    {
        self.round_polys.len()
    }
}

/// Produces a sum-check proof that the hypercube sum of `polynomial` is
/// `claimed_sum`. Fails with `InconsistentClaim` unless the claim is the
/// actual sum; otherwise the proof holds exactly the honest round
/// polynomials derived from the shared transcript.
pub fn prove(polynomial: &MultilinearEvalForm, claimed_sum: Fp) -> (r: Result<Proof, Error>)
    ensures
        claimed_sum@ == sum_spec(polynomial@) ==> (r matches Ok(pr) && pr.claimed_view()
            == claimed_sum@ && pr.rounds_view() == rounds_spec(
            polynomial@,
            seed_bytes(polynomial@, claimed_sum@),
        )),
        claimed_sum@ != sum_spec(polynomial@) ==> (r matches Err(e) && e
            == Error::InconsistentClaim),
{
    let actual = polynomial.hypercube_sum();
    if !actual.equals(&claimed_sum) {
        return Err(Error::InconsistentClaim);
    }
    let ghost seed = seed_bytes(polynomial@, claimed_sum@);
    let mut transcript = Transcript::init();
    let poly_bytes = polynomial.convert_to_bytes();
    transcript.append(poly_bytes.as_slice());
    let sum_bytes = claimed_sum.to_be_bytes();
    transcript.append(sum_bytes.as_slice());
    proof {
        assert(Seq::<u8>::empty() + poly_bytes@ + sum_bytes@ =~= seed);
    }
    let n = polynomial.number_of_variables();
    let mut current = polynomial.duplicate();
    let mut round_polys: Vec<MultilinearEvalForm> = Vec::new();
    let mut i: u32 = 0;
    while i < n
        invariant
            i <= n,
            pow2((n - i) as nat) == current@.len(),
            round_polys@.len() == i,
            rounds_spec(polynomial@, seed) == forms_view(round_polys@) + rounds_spec(
                current@,
                transcript@,
            ),
        decreases n - i,
    {
        proof {
            reveal(rounds_spec);
            lemma_pow2_unfold((n - i) as nat);
            lemma_pow2_pos((n - i - 1) as nat);
            lemma_lg_pow2((n - i) as nat);
        }
        let len = current.len();
        let half = len / 2;
        let g0 = current.sum_range(0, half);
        let g1 = current.sum_range(half, len);
        let round_poly = MultilinearEvalForm::from_pair(g0, g1);
        let msg = round_poly.convert_to_bytes();
        let ghost tb = transcript@;
        transcript.append(msg.as_slice());
        let challenge = transcript.hash();
        proof {
            assert(round_poly@ =~= seq![g0@, g1@]);
            assert(msg@ == round_message(g0@, g1@));
            assert(transcript@ == tb + round_message(g0@, g1@));
            assert(rounds_spec(current@, tb) == seq![seq![g0@, g1@]] + rounds_spec(
                pe_spec(current@, 0, challenge@),
                transcript@,
            ));
            assert(forms_view(round_polys@.push(round_poly)) =~= forms_view(round_polys@) + seq![
                seq![g0@, g1@],
            ]);
            assert(forms_view(round_polys@) + (seq![seq![g0@, g1@]] + rounds_spec(
                pe_spec(current@, 0, challenge@),
                transcript@,
            )) =~= (forms_view(round_polys@) + seq![seq![g0@, g1@]]) + rounds_spec(
                pe_spec(current@, 0, challenge@),
                transcript@,
            ));
        }
        current = current.partial_evaluate(0, challenge);
        round_polys.push(round_poly);
        i = i + 1;
    }
    proof {
        lemma2_to64();
        reveal(rounds_spec);
        assert(forms_view(round_polys@) + Seq::<Seq<int>>::empty() =~= forms_view(round_polys@));
    }
    Ok(Proof { claimed_sum, round_polys })
}

/// The verifier's decision when some round polynomial is malformed.
proof fn lemma_verify_spec_malformed(p: Seq<int>, claimed: int, rounds: Seq<Seq<int>>)
    requires
        !rounds_well_formed(rounds),
    ensures
        verify_spec(p, claimed, rounds) == Err::<(), Error>(Error::InvalidLength),
{
    reveal(verify_spec);
}

/// The verifier's decision when the round count does not match the variables.
proof fn lemma_verify_spec_dimension(p: Seq<int>, claimed: int, rounds: Seq<Seq<int>>)
    requires
        rounds_well_formed(rounds),
        rounds.len() != lg(p.len()),
    ensures
        verify_spec(p, claimed, rounds) == Err::<(), Error>(Error::DimensionMismatch),
{
    reveal(verify_spec);
}

/// The verifier's decision when a round fails its consistency check.
proof fn lemma_verify_spec_round_error(p: Seq<int>, claimed: int, rounds: Seq<Seq<int>>, e: Error)
    requires
        rounds_well_formed(rounds),
        rounds.len() == lg(p.len()),
        verify_rounds_spec(rounds, claimed, seed_bytes(p, claimed), 0) == Err::<int, Error>(e),
    ensures
        verify_spec(p, claimed, rounds) == Err::<(), Error>(e),
{
    reveal(verify_spec);
}

/// The verifier's decision once every round has passed: the final oracle
/// query against the polynomial settles it.
proof fn lemma_verify_spec_final(p: Seq<int>, claimed: int, rounds: Seq<Seq<int>>, expected: int)
    requires
        rounds_well_formed(rounds),
        rounds.len() == lg(p.len()),
        verify_rounds_spec(rounds, claimed, seed_bytes(p, claimed), 0) == Ok::<int, Error>(
            expected,
        ),
    ensures
        verify_spec(p, claimed, rounds) == (if eval_spec(
            p,
            round_challenges_spec(rounds, seed_bytes(p, claimed)),
        ) == expected {
            Ok::<(), Error>(())
        } else {
            Err::<(), Error>(Error::OracleMismatch)
        }),
{
    reveal(verify_spec);
}

/// Checks a sum-check proof against the polynomial and the claimed sum by
/// replaying the prover's transcript: rejects a malformed or wrongly sized
/// round list, then a first inconsistent round, and finally a mismatch
/// between the polynomial's value at the challenge point and the remaining
/// claim.
#[verifier::rlimit(100)]
pub fn verify(proof: &Proof, polynomial: &MultilinearEvalForm, claimed_sum: Fp) -> (r: Result<
    (),
    Error,
>)
    ensures
        r == verify_spec(polynomial@, claimed_sum@, proof.rounds_view()),
{
    let ghost rv = proof.rounds_view();
    let mut i: usize = 0;
    while i < proof.round_polys.len()
        invariant
            i <= proof.round_polys@.len(),
            rv == forms_view(proof.round_polys@),
            forall|k: int| 0 <= k < i ==> #[trigger] rv[k].len() == 2,
        decreases proof.round_polys@.len() - i,
    {
        if proof.round_polys[i].len() != 2 {
            proof {
                assert(rv[i as int] == proof.round_polys@[i as int]@);
                assert(!rounds_well_formed(rv)) by {
                    assert(rv[i as int].len() != 2);
                }
                lemma_verify_spec_malformed(polynomial@, claimed_sum@, rv);
            }
            return Err(Error::InvalidLength);
        }
        i = i + 1;
    }
    assert(rounds_well_formed(rv));
    let n = polynomial.number_of_variables();
    if proof.round_polys.len() != n as usize {
        proof {
            lemma_verify_spec_dimension(polynomial@, claimed_sum@, rv);
        }
        return Err(Error::DimensionMismatch);
    }
    let ghost seed = seed_bytes(polynomial@, claimed_sum@);
    let mut transcript = Transcript::init();
    let poly_bytes = polynomial.convert_to_bytes();
    transcript.append(poly_bytes.as_slice());
    let sum_bytes = claimed_sum.to_be_bytes();
    transcript.append(sum_bytes.as_slice());
    proof {
        assert(Seq::<u8>::empty() + poly_bytes@ + sum_bytes@ =~= seed);
    }
    let mut expected = claimed_sum;
    let mut challenges: Vec<Fp> = Vec::new();
    proof {
        assert(rv.skip(0) =~= rv);
        assert(seq_view(challenges@) =~= Seq::<int>::empty());
        assert(Seq::<int>::empty() + round_challenges_spec(rv, seed) =~= round_challenges_spec(
            rv,
            seed,
        ));
    }
    let mut round: usize = 0;
    while round < proof.round_polys.len()
        invariant
            round <= proof.round_polys@.len(),
            proof.round_polys@.len() == rv.len(),
            rv == forms_view(proof.round_polys@),
            rv.len() == n as int,
            rv.len() == lg(polynomial@.len()),
            rounds_well_formed(rv),
            challenges@.len() == round,
            seed == seed_bytes(polynomial@, claimed_sum@),
            verify_rounds_spec(rv, claimed_sum@, seed, 0) == verify_rounds_spec(
                rv.skip(round as int),
                expected@,
                transcript@,
                round as int,
            ),
            round_challenges_spec(rv, seed) == seq_view(challenges@) + round_challenges_spec(
                rv.skip(round as int),
                transcript@,
            ),
        decreases proof.round_polys@.len() - round,
    {
        let g = &proof.round_polys[round];
        proof {
            assert(rv[round as int] == proof.round_polys@[round as int]@);
            assert(rv[round as int].len() == 2);
        }
        let g0 = g.value_at(0);
        let g1 = g.value_at(1);
        let total = g0.add(g1);
        if !total.equals(&expected) {
            proof {
                assert(verify_rounds_spec(
                    rv.skip(round as int),
                    expected@,
                    transcript@,
                    round as int,
                ) == Err::<int, Error>(Error::RoundConsistencyFailure(round as u32))) by {
                    reveal(verify_rounds_spec);
                    assert(rv.skip(round as int)[0] == rv[round as int]);
                }
                lemma_verify_spec_round_error(
                    polynomial@,
                    claimed_sum@,
                    rv,
                    Error::RoundConsistencyFailure(round as u32),
                );
            }
            return Err(Error::RoundConsistencyFailure(round as u32));
        }
        let msg = g.convert_to_bytes();
        let ghost tb = transcript@;
        transcript.append(msg.as_slice());
        let challenge = transcript.hash();
        proof {
            assert(rv[round as int] =~= seq![g0@, g1@]);
            assert(msg@ == round_message(g0@, g1@));
            assert(transcript@ == tb + round_message(g0@, g1@));
            assert(verify_rounds_spec(rv.skip(round as int), expected@, tb, round as int)
                == verify_rounds_spec(
                rv.skip(round + 1),
                fadd(g0@, fmul(challenge@, fsub(g1@, g0@))),
                transcript@,
                round + 1,
            )) by {
                reveal(verify_rounds_spec);
                assert(rv.skip(round as int)[0] == rv[round as int]);
                assert(rv.skip(round as int).skip(1) =~= rv.skip(round + 1));
            }
            assert(round_challenges_spec(rv.skip(round as int), tb) == seq![challenge@]
                + round_challenges_spec(rv.skip(round + 1), transcript@)) by {
                reveal(round_challenges_spec);
                assert(rv.skip(round as int)[0] == rv[round as int]);
                assert(rv.skip(round as int).skip(1) =~= rv.skip(round + 1));
            }
            assert(seq_view(challenges@.push(challenge)) =~= seq_view(challenges@) + seq![
                challenge@,
            ]);
            assert(seq_view(challenges@) + (seq![challenge@] + round_challenges_spec(
                rv.skip(round + 1),
                transcript@,
            )) =~= (seq_view(challenges@) + seq![challenge@]) + round_challenges_spec(
                rv.skip(round + 1),
                transcript@,
            ));
        }
        challenges.push(challenge);
        expected = g0.add(challenge.mul(g1.sub(g0)));
        round = round + 1;
    }
    proof {
        assert(rv.skip(rv.len() as int) =~= Seq::<Seq<int>>::empty());
        assert(verify_rounds_spec(rv, claimed_sum@, seed, 0) == Ok::<int, Error>(expected@)) by {
            reveal(verify_rounds_spec);
            assert(rv.skip(rv.len() as int) =~= Seq::<Seq<int>>::empty());
        }
        assert(round_challenges_spec(rv, seed) == seq_view(challenges@)) by {
            reveal(round_challenges_spec);
            assert(rv.skip(rv.len() as int) =~= Seq::<Seq<int>>::empty());
            assert(seq_view(challenges@) + Seq::<int>::empty() =~= seq_view(challenges@));
        }
        lemma_verify_spec_final(polynomial@, claimed_sum@, rv, expected@);
    }
    let value = polynomial.evaluate(&challenges);
    match value {
        Ok(v) => {
            if v.equals(&expected) {
                Ok(())
            } else {
                Err(Error::OracleMismatch)
            }
        },
        Err(e) => {
            proof {
                assert(false);
            }
            Err(e)
        },
    }
}

/// One verifier round of an honest prover's walk: the round polynomial's
/// values sum to the running claim, the replayed challenge equals the
/// prover's, and the next claim is the sum of the partially evaluated form.
#[verifier::rlimit(100)]
proof fn lemma_rounds_complete(cur: Seq<int>, tb: Seq<u8>, idx: int)
    requires
        is_power_of_two(cur.len()),
        in_field(cur),
    ensures
        rounds_spec(cur, tb).len() == lg(cur.len()),
        rounds_well_formed(rounds_spec(cur, tb)),
        round_challenges_spec(rounds_spec(cur, tb), tb) == challenges_spec(cur, tb),
        verify_rounds_spec(rounds_spec(cur, tb), sum_spec(cur), tb, idx) == Ok::<int, Error>(
            eval_spec(cur, challenges_spec(cur, tb)),
        ),
    decreases cur.len(),
{
    if cur.len() < 2 {
        assert(cur.len() == 1);
        assert(rounds_spec(cur, tb) == Seq::<Seq<int>>::empty()) by {
            reveal(rounds_spec);
        }
        assert(challenges_spec(cur, tb) == Seq::<int>::empty()) by {
            reveal(challenges_spec);
        }
        assert(round_challenges_spec(Seq::<Seq<int>>::empty(), tb) == Seq::<int>::empty()) by {
            reveal(round_challenges_spec);
        }
        assert(verify_rounds_spec(Seq::<Seq<int>>::empty(), sum_spec(cur), tb, idx) == Ok::<
            int,
            Error,
        >(sum_spec(cur))) by {
            reveal(verify_rounds_spec);
        }
        assert(restrict_spec(cur, Seq::<int>::empty()) == cur);
        assert(cur.skip(1) =~= Seq::<int>::empty());
        assert(sum_spec(Seq::<int>::empty()) == 0);
        assert(sum_spec(cur) == fadd(cur[0], 0));
        lemma_small_mod(cur[0] as nat, P as nat);
        assert(sum_spec(cur) == cur[0]);
    } else {
        let h = cur.len() as int / 2;
        let g0 = sum_spec(cur.subrange(0, h));
        let g1 = sum_spec(cur.subrange(h, cur.len() as int));
        let tb2 = tb + round_message(g0, g1);
        let r = challenge_of(tb2);
        let cur2 = pe_spec(cur, 0, r);
        let g = seq![g0, g1];
        let rs2 = rounds_spec(cur2, tb2);
        let cs2 = challenges_spec(cur2, tb2);
        let rs = seq![g] + rs2;
        let cs = seq![r] + cs2;
        assert(rounds_spec(cur, tb) == rs) by {
            reveal(rounds_spec);
        }
        assert(challenges_spec(cur, tb) == cs) by {
            reveal(challenges_spec);
        }
        lemma_round_sums(cur, r);
        lemma_pe_in_field(cur, 0, r);
        lemma_rounds_complete(cur2, tb2, idx + 1);
        assert(rs[0] == g);
        assert(rs.skip(1) =~= rs2);
        assert(cs[0] == r);
        assert(cs.skip(1) =~= cs2);
        assert forall|k: int| 0 <= k < rs.len() implies #[trigger] rs[k].len() == 2 by {
            if k > 0 {
                assert(rs[k] == rs2[k - 1]);
            }
        }
        assert(restrict_spec(cur, cs) == restrict_spec(cur2, cs2));
        assert(round_challenges_spec(rs, tb) == seq![r] + round_challenges_spec(rs2, tb2)) by {
            reveal(round_challenges_spec);
            assert(rs[0] == g);
            assert(rs.skip(1) =~= rs2);
        }
        assert(fadd(g0, g1) == sum_spec(cur));
        assert(verify_rounds_spec(rs, sum_spec(cur), tb, idx) == verify_rounds_spec(
            rs2,
            fadd(g0, fmul(r, fsub(g1, g0))),
            tb2,
            idx + 1,
        )) by {
            reveal(verify_rounds_spec);
            assert(rs[0] == g);
            assert(rs.skip(1) =~= rs2);
        }
        assert(fadd(g0, fmul(r, fsub(g1, g0))) == sum_spec(cur2));
    }
}


/// Completeness: for any multilinear polynomial and its true hypercube sum,
/// the verifier accepts the round polynomials an honest prover produces, so
/// verifying the output of `prove` for the true sum succeeds.
pub proof fn lemma_completeness(values: Seq<Fp>, claimed: int)
    requires
        is_power_of_two(values.len()),
        claimed == sum_spec(seq_view(values)),
    ensures
        verify_spec(
            seq_view(values),
            claimed,
            rounds_spec(seq_view(values), seed_bytes(seq_view(values), claimed)),
        ) == Ok::<(), Error>(()),
{
    reveal(verify_spec);
    lemma_seq_view_in_field(values);
    lemma_rounds_complete(seq_view(values), seed_bytes(seq_view(values), claimed), 0);
}

} // verus!
