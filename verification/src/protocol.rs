//! The two parties of an opening. Each is driven by its caller, who owns
//! the transcript: the caller does what a step asks of the transcript and
//! hands the answer to the next step, until all challenges are drawn.
//! Then the prover makes the proof, and the verifier accepts or rejects.

use crate::algebra::{combine, elements, lemma_elements, reduce_seq, vals};
use crate::commit::{Commitment, CommitmentState};
use crate::error::Error;
use crate::field::Fr;
use crate::hashing::copy_bytes;
use crate::opening::{
    check_verdict, check_with_code, open_refusal, open_with_challenges, proved_honestly,
    row_coefficients, row_coeffs, same_shape, Proof,
};
use crate::code::LinearCode;
use crate::params::{queries, query_count, Security};
use crate::transcript::{copy_elements, steps, Action, Messages, Phase, Reply, Session};
use vstd::prelude::*;

verus! {

/// The prover of one evaluation.
pub struct Prover {
    pub session: Session,
    pub messages: Messages,
    pub which: usize,
}

/// The verifier of one evaluation, with the proof that it checks.
pub struct Verifier {
    pub session: Session,
    pub messages: Messages,
    pub which: usize,
    pub proof: Proof,
}

/// How a verification ends.
#[derive(Clone, Copy, Debug, PartialEq, Eq, Structural)]
pub enum Outcome {
    /// Every check passed.
    Verified,
    /// A check failed, or the proof could not be checked at all.
    Rejected,
}

/// How a verification with the given result ends: a proof is verified
/// where the result is that it holds, and rejected for every other
/// result, whether the proof is wrong or malformed.
pub fn outcome(r: &Result<bool, Error>) -> (o: Outcome)
    ensures
        o == Outcome::Verified <==> *r == Ok::<bool, Error>(true),
{
    match r {
        Ok(true) => Outcome::Verified,
        _ => Outcome::Rejected,
    }
}

impl Prover {
    /// The prover of the value `value` at `z` of the polynomial number
    /// `which` of the commitment. Refuses a commitment that does not
    /// belong to the state or has no such polynomial, and a key under
    /// which no number of columns reaches the security level.
    pub fn start(
        sec: &Security,
        c: &Commitment,
        st: &CommitmentState,
        which: usize,
        z: &Fr,
        value: &Fr,
    ) -> (r: Result<Prover, Error>)
        ensures
            r.is_ok() <==> same_shape(*c, *st) && which < c.n_polys && queries(
                *sec,
                c.n_ext_cols as int,
            ).is_some(),
            r matches Err(e) ==> e == Error::InvalidParameters,
            r matches Ok(p) ==> {
                &&& p.which == which
                &&& p.messages.root@ == c.root@
                &&& p.messages.point == *z
                &&& p.messages.value == *value
                &&& vals(p.messages.row@) == reduce_seq(
                    combine(
                        reduce_seq(
                            row_coeffs(
                                z@,
                                c.n_polys as int,
                                c.block(),
                                c.n_cols as int,
                                which as int,
                            ),
                        ),
                        st.matrix(),
                        st.n_cols(),
                    ),
                )
                &&& p.session.phase() == Phase::Committed
                &&& Some(p.session.query_count()) == queries(*sec, c.n_ext_cols as int)
                &&& p.session.n_rows() == c.n_rows
                &&& p.session.n_ext_cols() == c.n_ext_cols
                &&& p.session.tests_well_formedness() == sec.check_well_formedness
            },
    {
        if c.n_rows != st.row_count() || c.n_cols != st.col_count() || c.n_ext_cols
            != st.codeword_len() || c.n_polys < 1 || c.n_polys > c.n_rows || c.n_rows % c.n_polys
            != 0 || which >= c.n_polys {
            return Err(Error::InvalidParameters);
        }
        let t = match query_count(
            sec.sec_param,
            (sec.distance_num, sec.distance_den),
            c.n_ext_cols,
        ) {
            Ok(t) => t,
            Err(_) => {
                return Err(Error::InvalidParameters);
            },
        };
        let block: usize = c.n_rows / c.n_polys;
        proof {
            assert(c.n_polys * block == c.n_rows) by (nonlinear_arith)
                requires
                    block == c.n_rows as int / c.n_polys as int,
                    c.n_rows as int % c.n_polys as int == 0,
                    c.n_polys >= 1,
            ;
            assert(block >= 1) by (nonlinear_arith)
                requires
                    c.n_polys * block == c.n_rows,
                    c.n_rows >= c.n_polys,
                    c.n_polys >= 1,
                    block >= 0,
            ;
        }
        let b = row_coefficients(z, c.n_polys, block, c.n_cols, which);
        let row = st.combine(&b).unwrap();
        let session = Session::new(t, c.n_rows, c.n_ext_cols, sec.check_well_formedness).unwrap();
        let messages = Messages { root: copy_bytes(&c.root), point: *z, value: *value, row };
        Ok(Prover { session, messages, which })
    }

    /// The combined row of the well-formedness test that the prover hands
    /// over in answer to `reply`, where it hands one over.
    pub open spec fn wf_row(self, st: CommitmentState, reply: Reply) -> Option<Seq<Fr>> {
        match reply {
            Reply::Fields(coeffs) => if self.session.phase() == Phase::ColumnsOpened
                && coeffs.len() == st.n_rows() {
                Some(elements(reduce_seq(combine(vals(coeffs@), st.matrix(), st.n_cols()))))
            } else {
                None
            },
            _ => None,
        }
    }

    /// The prover after the transcript has answered `reply`, and what the
    /// transcript is to do next.
    pub fn step(self, st: &CommitmentState, reply: Reply) -> (out: (Prover, Result<Action, Error>))
        ensures
            out.0.which == self.which,
            out.0.messages == self.messages,
            steps(
                self.session,
                reply,
                self.messages,
                self.wf_row(*st, reply),
                out.0.session,
                out.1,
            ),
    {
        let ghost me = self;
        let ghost told = reply;
        let Prover { session, messages, which } = self;
        let wf_row: Option<Vec<Fr>> = match &reply {
            Reply::Fields(coeffs) => {
                match session.current_phase() {
                    Phase::ColumnsOpened => match st.combine(coeffs) {
                        Ok(row) => Some(row),
                        Err(_) => None,
                    },
                    _ => None,
                }
            },
            _ => None,
        };
        let handed: Option<&Vec<Fr>> = match &wf_row {
            Some(w) => Some(w),
            None => None,
        };
        let ghost row: Option<Seq<Fr>> = match handed {
            Some(w) => Some(w@),
            None => None,
        };
        proof {
            if row.is_some() {
                lemma_elements(row.unwrap());
            }
            assert(row == me.wf_row(*st, told));
        }
        let (next, action) = session.step(reply, &messages, handed);
        proof {
            assert(steps(me.session, told, me.messages, row, next, action));
        }
        (Prover { session: next, messages, which }, action)
    }

    /// The proof, once all challenges are drawn.
    pub fn finish(&self, sec: &Security, c: &Commitment, st: &CommitmentState) -> (r: Result<
        Proof,
        Error,
    >)
        ensures
            self.session.phase() != Phase::Finished ==> r == Err::<Proof, Error>(
                Error::TranscriptDesync,
            ),
            self.session.phase() == Phase::Finished ==> match r {
                Ok(proof) => open_refusal(
                    *sec,
                    *c,
                    *st,
                    self.which as int,
                    self.session.indices(),
                    self.session.wf_challenge(),
                ).is_none() && proved_honestly(
                    *sec,
                    *c,
                    *st,
                    self.which as int,
                    self.messages.point@,
                    self.session.indices(),
                    self.session.wf_challenge(),
                    proof,
                ),
                Err(e) => open_refusal(
                    *sec,
                    *c,
                    *st,
                    self.which as int,
                    self.session.indices(),
                    self.session.wf_challenge(),
                ) == Some(e),
            },
    {
        let ch = match self.session.challenges() {
            Some(ch) => ch,
            None => {
                return Err(Error::TranscriptDesync);
            },
        };
        open_with_challenges(sec, c, st, self.which, &self.messages.point, &ch)
    }
}

impl Verifier {
    /// The verifier of the claim that the polynomial number `which` of the
    /// commitment has the value `value` at `z`. Refuses a key under which
    /// no number of columns reaches the security level.
    pub fn start(
        sec: &Security,
        c: &Commitment,
        which: usize,
        z: &Fr,
        value: &Fr,
        proof: Proof,
    ) -> (r: Result<Verifier, Error>)
        ensures
            r.is_ok() <==> queries(*sec, c.n_ext_cols as int).is_some(),
            r matches Err(e) ==> e == Error::InvalidParameters,
            r matches Ok(v) ==> {
                &&& v.which == which
                &&& v.proof == proof
                &&& v.messages.root@ == c.root@
                &&& v.messages.point == *z
                &&& v.messages.value == *value
                &&& v.messages.row@ == proof.opening.v@
                &&& v.session.phase() == Phase::Committed
                &&& Some(v.session.query_count()) == queries(*sec, c.n_ext_cols as int)
                &&& v.session.n_rows() == c.n_rows
                &&& v.session.n_ext_cols() == c.n_ext_cols
                &&& v.session.tests_well_formedness() == sec.check_well_formedness
            },
    {
        let t = match query_count(
            sec.sec_param,
            (sec.distance_num, sec.distance_den),
            c.n_ext_cols,
        ) {
            Ok(t) => t,
            Err(_) => {
                return Err(Error::InvalidParameters);
            },
        };
        let session = Session::new(t, c.n_rows, c.n_ext_cols, sec.check_well_formedness).unwrap();
        let messages = Messages {
            root: copy_bytes(&c.root),
            point: *z,
            value: *value,
            row: copy_elements(&proof.opening.v),
        };
        Ok(Verifier { session, messages, which, proof })
    }

    /// The combined row of the well-formedness test in a proof, where it
    /// has one.
    pub open spec fn wf_row(proof: Proof) -> Option<Seq<Fr>> {
        match proof.well_formedness {
            Some(o) => Some(o.v@),
            None => None,
        }
    }

    /// The verifier after the transcript has answered `reply`, and what
    /// the transcript is to do next.
    pub fn step(self, reply: Reply) -> (out: (Verifier, Result<Action, Error>))
        ensures
            out.0.which == self.which,
            out.0.messages == self.messages,
            out.0.proof == self.proof,
            steps(
                self.session,
                reply,
                self.messages,
                Self::wf_row(self.proof),
                out.0.session,
                out.1,
            ),
    {
        let Verifier { session, messages, which, proof } = self;
        let wf_row: Option<&Vec<Fr>> = match &proof.well_formedness {
            Some(o) => Some(&o.v),
            None => None,
        };
        let (next, action) = session.step(reply, &messages, wf_row);
        (Verifier { session: next, messages, which, proof }, action)
    }

    /// Whether the proof is accepted, once all challenges are drawn.
    pub fn finish<C: LinearCode>(
        &self,
        code: &C,
        sec: &Security,
        c: &Commitment,
    ) -> (r: Result<bool, Error>)
        ensures
            self.session.phase() != Phase::Finished ==> r == Err::<bool, Error>(
                Error::TranscriptDesync,
            ),
            self.session.phase() == Phase::Finished ==> r == check_verdict(
                *code,
                *sec,
                *c,
                self.which as int,
                self.messages.point@,
                self.messages.value@,
                self.proof,
                self.session.indices(),
                self.session.wf_challenge(),
            ),
    {
        let ch = match self.session.challenges() {
            Some(ch) => ch,
            None => {
                return Err(Error::TranscriptDesync);
            },
        };
        check_with_code(
            code,
            sec,
            c,
            self.which,
            &self.messages.point,
            &self.messages.value,
            &self.proof,
            &ch,
        )
    }

    /// How the verification ends: the proof is verified once all
    /// challenges are drawn and it is accepted under them, and rejected
    /// otherwise.
    pub fn conclude<C: LinearCode>(&self, code: &C, sec: &Security, c: &Commitment) -> (o: Outcome)
        ensures
            o == Outcome::Verified <==> self.session.phase() == Phase::Finished && check_verdict(
                *code,
                *sec,
                *c,
                self.which as int,
                self.messages.point@,
                self.messages.value@,
                self.proof,
                self.session.indices(),
                self.session.wf_challenge(),
            ) == Ok::<bool, Error>(true),
    {
        let r = self.finish(code, sec, c);
        outcome(&r)
    }
}

} // verus!
