//! The order in which a party speaks with the transcript: what it hands
//! over to be absorbed, which challenges it asks for, and how it turns the
//! bytes that come back into distinct column indices. The transcript
//! itself is the caller's: every step takes what the transcript answered
//! and says what to do with it next.

use crate::error::Error;
use crate::field::Fr;
use crate::hashing::copy_bytes;
use crate::opening::Challenges;
use vstd::prelude::*;

verus! {

/// The number of bytes from which one column index is made.
pub const INDEX_BYTES: usize = 4;

/// How far an opening has come.
#[derive(Clone, Copy, Debug, PartialEq, Eq, Structural)]
pub enum Phase {
    /// Nothing has been absorbed yet.
    Committed,
    /// The root, the point and the claimed value have been handed over;
    /// the point fixes the coefficients of the rows.
    RowChallengeIssued,
    /// The combined row has been handed over.
    RowCombined,
    /// Column indices are being sampled.
    ColumnChallengeIssued,
    /// All columns are sampled.
    ColumnsOpened,
    /// The coefficients of the well-formedness test are drawn, and its
    /// combined row has been handed over.
    WellFormednessChallengeIssued,
    /// Column indices are being sampled for the well-formedness test.
    WellFormednessOpened,
    /// All challenges are drawn.
    Finished,
}

/// What the transcript is to do next.
#[derive(Debug)]
pub enum Action {
    /// Absorb the bytes, then the field elements.
    Absorb { bytes: Vec<u8>, fields: Vec<Fr> },
    /// Squeeze this many bytes.
    SqueezeBytes(usize),
    /// Squeeze this many field elements.
    SqueezeFields(usize),
    /// Nothing: all challenges are drawn.
    Finish,
}

/// What the transcript did.
#[derive(Debug)]
pub enum Reply {
    /// It absorbed what it was handed, or nothing was asked yet.
    Done,
    /// The bytes it squeezed.
    Bytes(Vec<u8>),
    /// The field elements it squeezed.
    Fields(Vec<Fr>),
}

/// What is handed to the transcript in the course of one opening.
pub struct Messages {
    pub root: Vec<u8>,
    pub point: Fr,
    pub value: Fr,
    pub row: Vec<Fr>,
}

/// The column index that four bytes stand for in a code of `n_ext`
/// symbols: their little-endian value, reduced.
pub open spec fn index_of(bytes: Seq<u8>, n_ext: int) -> int {
    (bytes[0] as int + 0x100 * bytes[1] as int + 0x1_0000 * bytes[2] as int + 0x100_0000 * bytes[3]
        as int) % n_ext
}

/// Whether no index occurs twice and every index is that of a column.
pub open spec fn distinct_below(indices: Seq<usize>, n_ext: int) -> bool {
    &&& forall|i: int| 0 <= i < indices.len() ==> (#[trigger] indices[i]) < n_ext
    &&& forall|i: int, j: int|
        0 <= i < j < indices.len() ==> (#[trigger] indices[i]) != (#[trigger] indices[j])
}

/// The column index that four bytes stand for.
pub fn index_from_bytes(bytes: &Vec<u8>, n_ext: usize) -> (r: Option<usize>)
    requires
        1 <= n_ext,
    ensures
        r.is_some() <==> bytes.len() == INDEX_BYTES,
        r.is_some() ==> r.unwrap() == index_of(bytes@, n_ext as int),
{
    if bytes.len() != INDEX_BYTES {
        return None;
    }
    let value: u64 = bytes[0] as u64 + 0x100 * (bytes[1] as u64) + 0x1_0000 * (bytes[2] as u64)
        + 0x100_0000 * (bytes[3] as u64);
    let index: u64 = value % (n_ext as u64);
    Some(index as usize)
}

/// Whether `x` is among `v`.
pub fn contains(v: &Vec<usize>, x: usize) -> (r: bool)
    ensures
        r <==> exists|i: int| 0 <= i < v.len() && v[i] == x,
{
    let mut i: usize = 0;
    while i < v.len()
        invariant
            i <= v.len(),
            forall|k: int| 0 <= k < i ==> v[k] != x,
        decreases v.len() - i,
    {
        if v[i] == x {
            return true;
        }
        i += 1;
    }
    false
}

/// `indices` with the index that `bytes` stand for, unless it is among
/// them already.
pub open spec fn with_index(indices: Seq<usize>, bytes: Seq<u8>, n_ext: int) -> Seq<usize> {
    let index = index_of(bytes, n_ext) as usize;
    if indices.contains(index) {
        indices
    } else {
        indices.push(index)
    }
}

/// One opening's talk with the transcript.
#[derive(Debug)]
pub struct Session {
    phase: Phase,
    t: usize,
    n_rows: usize,
    n_ext: usize,
    well_formedness: bool,
    indices: Vec<usize>,
    wf_coeffs: Vec<Fr>,
    wf_indices: Vec<usize>,
}

impl Session {
    #[verifier::type_invariant]
    pub closed spec fn wf(self) -> bool {
        &&& 1 <= self.t <= self.n_ext
        &&& distinct_below(self.indices@, self.n_ext as int)
        &&& distinct_below(self.wf_indices@, self.n_ext as int)
        &&& match self.phase {
            Phase::Committed | Phase::RowChallengeIssued | Phase::RowCombined => {
                self.indices.len() == 0 && self.wf_indices.len() == 0
            },
            Phase::ColumnChallengeIssued => self.indices.len() < self.t && self.wf_indices.len()
                == 0,
            Phase::ColumnsOpened => self.indices.len() == self.t && self.wf_indices.len() == 0
                && self.well_formedness,
            Phase::WellFormednessChallengeIssued => self.indices.len() == self.t
                && self.wf_indices.len() == 0 && self.wf_coeffs.len() == self.n_rows
                && self.well_formedness,
            Phase::WellFormednessOpened => self.indices.len() == self.t && self.wf_indices.len()
                < self.t && self.wf_coeffs.len() == self.n_rows && self.well_formedness,
            Phase::Finished => self.indices.len() == self.t && (self.well_formedness ==> (
            self.wf_indices.len() == self.t && self.wf_coeffs.len() == self.n_rows)),
        }
    }

    /// How far the opening has come.
    pub closed spec fn phase(self) -> Phase {
        self.phase
    }

    /// The number of columns to sample.
    pub closed spec fn query_count(self) -> nat {
        self.t as nat
    }

    /// The number of rows of the matrix.
    pub closed spec fn n_rows(self) -> nat {
        self.n_rows as nat
    }

    /// The length of a codeword.
    pub closed spec fn n_ext_cols(self) -> nat {
        self.n_ext as nat
    }

    /// Whether the well-formedness test is run.
    pub closed spec fn tests_well_formedness(self) -> bool {
        self.well_formedness
    }

    /// The columns sampled so far.
    pub closed spec fn indices(self) -> Seq<usize> {
        self.indices@
    }

    /// The coefficients drawn for the well-formedness test.
    pub closed spec fn wf_coeffs(self) -> Seq<Fr> {
        self.wf_coeffs@
    }

    /// The columns sampled so far for the well-formedness test.
    pub closed spec fn wf_indices(self) -> Seq<usize> {
        self.wf_indices@
    }

    /// The challenge of the well-formedness test, where that test is run.
    pub open spec fn wf_challenge(self) -> Option<(Seq<Fr>, Seq<usize>)> {
        if self.tests_well_formedness() {
            Some((self.wf_coeffs(), self.wf_indices()))
        } else {
            None
        }
    }

    /// Whether two sessions differ in nothing but their phase and the
    /// challenges drawn.
    pub open spec fn same_setting(self, other: Session) -> bool {
        &&& self.query_count() == other.query_count()
        &&& self.n_rows() == other.n_rows()
        &&& self.n_ext_cols() == other.n_ext_cols()
        &&& self.tests_well_formedness() == other.tests_well_formedness()
    }

    /// A session before anything is absorbed, for `t` sampled columns of a
    /// code of `n_ext` symbols over a matrix of `n_rows` rows.
    pub fn new(t: usize, n_rows: usize, n_ext: usize, well_formedness: bool) -> (r: Option<
        Session,
    >)
        ensures
            r.is_some() <==> 1 <= t <= n_ext,
            r.is_some() ==> {
                let s = r.unwrap();
                &&& s.phase() == Phase::Committed
                &&& s.query_count() == t
                &&& s.n_rows() == n_rows
                &&& s.n_ext_cols() == n_ext
                &&& s.tests_well_formedness() == well_formedness
                &&& s.indices().len() == 0
                &&& s.wf_indices().len() == 0
            },
    {
        if t < 1 || t > n_ext {
            return None;
        }
        Some(
            Session {
                phase: Phase::Committed,
                t,
                n_rows,
                n_ext,
                well_formedness,
                indices: Vec::new(),
                wf_coeffs: Vec::new(),
                wf_indices: Vec::new(),
            },
        )
    }

    /// How far the opening has come.
    pub fn current_phase(&self) -> (p: Phase)
        ensures
            p == self.phase(),
    {
        self.phase
    }

    /// The challenges, once all are drawn.
    pub fn challenges(&self) -> (r: Option<Challenges>)
        ensures
            r.is_some() <==> self.phase() == Phase::Finished,
            r.is_some() ==> {
                let ch = r.unwrap();
                &&& ch.indices@ == self.indices()
                &&& ch.wf_view() == self.wf_challenge()
                &&& ch.indices.len() == self.query_count()
                &&& distinct_below(ch.indices@, self.n_ext_cols() as int)
                &&& ch.well_formedness.is_some() == self.tests_well_formedness()
                &&& ch.well_formedness.is_some() ==> {
                    &&& ch.well_formedness.unwrap().0@ == self.wf_coeffs()
                    &&& ch.well_formedness.unwrap().0.len() == self.n_rows()
                    &&& ch.well_formedness.unwrap().1@ == self.wf_indices()
                    &&& ch.well_formedness.unwrap().1.len() == self.query_count()
                    &&& distinct_below(ch.well_formedness.unwrap().1@, self.n_ext_cols() as int)
                }
            },
    {
        proof {
            use_type_invariant(self);
        }
        if self.phase != Phase::Finished {
            return None;
        }
        let indices = copy_indices(&self.indices);
        let well_formedness = if self.well_formedness {
            Some((copy_elements(&self.wf_coeffs), copy_indices(&self.wf_indices)))
        } else {
            None
        };
        Some(Challenges { indices, well_formedness })
    }
}

/// A copy of a list of indices.
pub fn copy_indices(v: &Vec<usize>) -> (r: Vec<usize>)
    ensures
        r@ == v@,
{
    let mut r: Vec<usize> = Vec::new();
    let mut i: usize = 0;
    while i < v.len()
        invariant
            i <= v.len(),
            r.len() == i,
            forall|k: int| 0 <= k < i ==> r[k] == v[k],
        decreases v.len() - i,
    {
        r.push(v[i]);
        i += 1;
    }
    proof {
        assert(r@ =~= v@);
    }
    r
}

/// A copy of a list of field elements.
pub fn copy_elements(v: &Vec<Fr>) -> (r: Vec<Fr>)
    ensures
        r@ == v@,
{
    let mut r: Vec<Fr> = Vec::new();
    let mut i: usize = 0;
    while i < v.len()
        invariant
            i <= v.len(),
            r.len() == i,
            forall|k: int| 0 <= k < i ==> r[k] == v[k],
        decreases v.len() - i,
    {
        r.push(v[i]);
        i += 1;
    }
    proof {
        assert(r@ =~= v@);
    }
    r
}

/// Whether `after` holds the challenges of `before`, but for the sampled
/// columns.
pub open spec fn keeps_drawn(before: Session, after: Session) -> bool {
    &&& after.wf_coeffs() == before.wf_coeffs()
    &&& after.wf_indices() == before.wf_indices()
}

/// Whether `after` holds the same challenges as `before`.
pub open spec fn keeps_challenges(before: Session, after: Session) -> bool {
    &&& after.indices() == before.indices()
    &&& after.wf_coeffs() == before.wf_coeffs()
    &&& after.wf_indices() == before.wf_indices()
}

/// Whether the action hands over exactly these bytes and field elements.
pub open spec fn absorbs(r: Result<Action, Error>, bytes: Seq<u8>, fields: Seq<Fr>) -> bool {
    r matches Ok(Action::Absorb { bytes: b, fields: f }) && b@ == bytes && f@ == fields
}

/// Whether a session that was `before` and was told `reply` is `after` and
/// asks for `r` next. `m` is what this opening hands over, and `wf_row` the
/// combined row of the well-formedness test, where there is one.
pub open spec fn steps(
    before: Session,
    reply: Reply,
    m: Messages,
    wf_row: Option<Seq<Fr>>,
    after: Session,
    r: Result<Action, Error>,
) -> bool {
    let t = before.query_count();
    let n_ext = before.n_ext_cols() as int;
    &&& after.same_setting(before)
    &&& r.is_err() ==> after.phase() == before.phase() && keeps_challenges(before, after)
    &&& match (before.phase(), reply) {
        (Phase::Committed, Reply::Done) => {
            &&& absorbs(r, m.root@, seq![m.point, m.value])
            &&& after.phase() == Phase::RowChallengeIssued
            &&& keeps_challenges(before, after)
        },
        (Phase::RowChallengeIssued, Reply::Done) => {
            &&& absorbs(r, Seq::<u8>::empty(), m.row@)
            &&& after.phase() == Phase::RowCombined
            &&& keeps_challenges(before, after)
        },
        (Phase::RowCombined, Reply::Done) => {
            &&& r matches Ok(Action::SqueezeBytes(n)) && n == INDEX_BYTES
            &&& after.phase() == Phase::ColumnChallengeIssued
            &&& keeps_challenges(before, after)
        },
        (Phase::ColumnChallengeIssued, Reply::Bytes(b)) => {
            if b.len() != INDEX_BYTES {
                r == Err::<Action, Error>(Error::TranscriptDesync)
            } else {
                let drawn = with_index(before.indices(), b@, n_ext);
                &&& after.indices() == drawn
                &&& keeps_drawn(before, after)
                &&& if drawn.len() < t {
                    &&& r matches Ok(Action::SqueezeBytes(n)) && n == INDEX_BYTES
                    &&& after.phase() == Phase::ColumnChallengeIssued
                } else if before.tests_well_formedness() {
                    &&& r matches Ok(Action::SqueezeFields(n)) && n == before.n_rows()
                    &&& after.phase() == Phase::ColumnsOpened
                } else {
                    &&& r matches Ok(Action::Finish)
                    &&& after.phase() == Phase::Finished
                }
            }
        },
        (Phase::ColumnsOpened, Reply::Fields(coeffs)) => {
            if coeffs.len() != before.n_rows() {
                r == Err::<Action, Error>(Error::TranscriptDesync)
            } else if wf_row.is_none() {
                r == Err::<Action, Error>(Error::InvalidInputLength)
            } else {
                &&& absorbs(r, Seq::<u8>::empty(), wf_row.unwrap())
                &&& after.phase() == Phase::WellFormednessChallengeIssued
                &&& after.indices() == before.indices()
                &&& after.wf_coeffs() == coeffs@
                &&& after.wf_indices() == before.wf_indices()
            }
        },
        (Phase::WellFormednessChallengeIssued, Reply::Done) => {
            &&& r matches Ok(Action::SqueezeBytes(n)) && n == INDEX_BYTES
            &&& after.phase() == Phase::WellFormednessOpened
            &&& keeps_challenges(before, after)
        },
        (Phase::WellFormednessOpened, Reply::Bytes(b)) => {
            if b.len() != INDEX_BYTES {
                r == Err::<Action, Error>(Error::TranscriptDesync)
            } else {
                let drawn = with_index(before.wf_indices(), b@, n_ext);
                &&& after.wf_indices() == drawn
                &&& after.indices() == before.indices()
                &&& after.wf_coeffs() == before.wf_coeffs()
                &&& if drawn.len() < t {
                    &&& r matches Ok(Action::SqueezeBytes(n)) && n == INDEX_BYTES
                    &&& after.phase() == Phase::WellFormednessOpened
                } else {
                    &&& r matches Ok(Action::Finish)
                    &&& after.phase() == Phase::Finished
                }
            }
        },
        _ => r == Err::<Action, Error>(Error::TranscriptDesync),
    }
}

/// `indices` with the index that `bytes` stand for, unless it is among
/// them already.
fn add_index(indices: Vec<usize>, bytes: &Vec<u8>, n_ext: usize) -> (r: Vec<usize>)
    requires
        1 <= n_ext,
        bytes.len() == INDEX_BYTES,
        distinct_below(indices@, n_ext as int),
    ensures
        r@ == with_index(indices@, bytes@, n_ext as int),
        distinct_below(r@, n_ext as int),
        r.len() >= indices.len(),
{
    let index = index_from_bytes(bytes, n_ext).unwrap();
    let mut r = indices;
    if !contains(&r, index) {
        r.push(index);
    }
    r
}

impl Session {
    /// The session after the transcript has answered `reply`, and what the
    /// transcript is to do next. `m` is what this opening hands over, and
    /// `wf_row` the combined row of the well-formedness test, where there
    /// is one. A reply that does not answer what was asked is refused, and
    /// leaves the session as it was.
    pub fn step(self, reply: Reply, m: &Messages, wf_row: Option<&Vec<Fr>>) -> (out: (
        Session,
        Result<Action, Error>,
    ))
        ensures
            steps(
                self,
                reply,
                *m,
                match wf_row {
                    Some(w) => Some(w@),
                    None => None,
                },
                out.0,
                out.1,
            ),
    {
        proof {
            use_type_invariant(&self);
        }
        let Session { phase, t, n_rows, n_ext, well_formedness, indices, wf_coeffs, wf_indices } =
            self;
        match (phase, reply) {
            (Phase::Committed, Reply::Done) => {
                let mut fields: Vec<Fr> = Vec::new();
                fields.push(m.point);
                fields.push(m.value);
                proof {
                    assert(fields@ =~= seq![m.point, m.value]);
                }
                let next = Session {
                    phase: Phase::RowChallengeIssued,
                    t,
                    n_rows,
                    n_ext,
                    well_formedness,
                    indices,
                    wf_coeffs,
                    wf_indices,
                };
                (next, Ok(Action::Absorb { bytes: copy_bytes(&m.root), fields }))
            },
            (Phase::RowChallengeIssued, Reply::Done) => {
                let next = Session {
                    phase: Phase::RowCombined,
                    t,
                    n_rows,
                    n_ext,
                    well_formedness,
                    indices,
                    wf_coeffs,
                    wf_indices,
                };
                (next, Ok(Action::Absorb { bytes: Vec::new(), fields: copy_elements(&m.row) }))
            },
            (Phase::RowCombined, Reply::Done) => {
                let next = Session {
                    phase: Phase::ColumnChallengeIssued,
                    t,
                    n_rows,
                    n_ext,
                    well_formedness,
                    indices,
                    wf_coeffs,
                    wf_indices,
                };
                (next, Ok(Action::SqueezeBytes(INDEX_BYTES)))
            },
            (Phase::ColumnChallengeIssued, Reply::Bytes(b)) => {
                if b.len() != INDEX_BYTES {
                    let same = Session {
                        phase,
                        t,
                        n_rows,
                        n_ext,
                        well_formedness,
                        indices,
                        wf_coeffs,
                        wf_indices,
                    };
                    return (same, Err(Error::TranscriptDesync));
                }
                let drawn = add_index(indices, &b, n_ext);
                if drawn.len() < t {
                    let next = Session {
                        phase: Phase::ColumnChallengeIssued,
                        t,
                        n_rows,
                        n_ext,
                        well_formedness,
                        indices: drawn,
                        wf_coeffs,
                        wf_indices,
                    };
                    (next, Ok(Action::SqueezeBytes(INDEX_BYTES)))
                } else if well_formedness {
                    let next = Session {
                        phase: Phase::ColumnsOpened,
                        t,
                        n_rows,
                        n_ext,
                        well_formedness,
                        indices: drawn,
                        wf_coeffs,
                        wf_indices,
                    };
                    (next, Ok(Action::SqueezeFields(n_rows)))
                } else {
                    let next = Session {
                        phase: Phase::Finished,
                        t,
                        n_rows,
                        n_ext,
                        well_formedness,
                        indices: drawn,
                        wf_coeffs,
                        wf_indices,
                    };
                    (next, Ok(Action::Finish))
                }
            },
            (Phase::ColumnsOpened, Reply::Fields(coeffs)) => {
                if coeffs.len() != n_rows {
                    let same = Session {
                        phase,
                        t,
                        n_rows,
                        n_ext,
                        well_formedness,
                        indices,
                        wf_coeffs,
                        wf_indices,
                    };
                    return (same, Err(Error::TranscriptDesync));
                }
                let row = match wf_row {
                    Some(row) => row,
                    None => {
                        let same = Session {
                            phase,
                            t,
                            n_rows,
                            n_ext,
                            well_formedness,
                            indices,
                            wf_coeffs,
                            wf_indices,
                        };
                        return (same, Err(Error::InvalidInputLength));
                    },
                };
                let next = Session {
                    phase: Phase::WellFormednessChallengeIssued,
                    t,
                    n_rows,
                    n_ext,
                    well_formedness,
                    indices,
                    wf_coeffs: coeffs,
                    wf_indices,
                };
                (next, Ok(Action::Absorb { bytes: Vec::new(), fields: copy_elements(row) }))
            },
            (Phase::WellFormednessChallengeIssued, Reply::Done) => {
                let next = Session {
                    phase: Phase::WellFormednessOpened,
                    t,
                    n_rows,
                    n_ext,
                    well_formedness,
                    indices,
                    wf_coeffs,
                    wf_indices,
                };
                (next, Ok(Action::SqueezeBytes(INDEX_BYTES)))
            },
            (Phase::WellFormednessOpened, Reply::Bytes(b)) => {
                if b.len() != INDEX_BYTES {
                    let same = Session {
                        phase,
                        t,
                        n_rows,
                        n_ext,
                        well_formedness,
                        indices,
                        wf_coeffs,
                        wf_indices,
                    };
                    return (same, Err(Error::TranscriptDesync));
                }
                let drawn = add_index(wf_indices, &b, n_ext);
                if drawn.len() < t {
                    let next = Session {
                        phase: Phase::WellFormednessOpened,
                        t,
                        n_rows,
                        n_ext,
                        well_formedness,
                        indices,
                        wf_coeffs,
                        wf_indices: drawn,
                    };
                    (next, Ok(Action::SqueezeBytes(INDEX_BYTES)))
                } else {
                    let next = Session {
                        phase: Phase::Finished,
                        t,
                        n_rows,
                        n_ext,
                        well_formedness,
                        indices,
                        wf_coeffs,
                        wf_indices: drawn,
                    };
                    (next, Ok(Action::Finish))
                }
            },
            _ => {
                let same = Session {
                    phase,
                    t,
                    n_rows,
                    n_ext,
                    well_formedness,
                    indices,
                    wf_coeffs,
                    wf_indices,
                };
                (same, Err(Error::TranscriptDesync))
            },
        }
    }
}

} // verus!
