//! Backend executable selection and the failures of one incremental SMT session.

use vstd::prelude::*;

verus! {

/// Why a backend session did not answer.
#[derive(Debug)]
pub enum Failure {
    Cancelled,
    Worker(String),
}

/// Which backend path to start: the explicit override, the candidate at an
/// index of the search order, or the bare command name.
#[derive(Clone, Copy, Debug, PartialEq, Eq, Structural)]
pub enum ExecutableChoice {
    Override,
    Candidate(usize),
    Fallback,
}

/// An explicit override is authoritative: a bad override must fail, never
/// select another solver. Otherwise the first candidate, in search order
/// (beside the running program, each `PATH` entry, the per-user install),
/// that names an existing file is taken, and the bare command name last.
pub fn executable(has_override: bool, candidate_exists: &Vec<bool>) -> (choice: ExecutableChoice)
    ensures
        has_override <==> choice == ExecutableChoice::Override,
        choice matches ExecutableChoice::Candidate(i) ==> {
            &&& i < candidate_exists.len()
            &&& candidate_exists@[i as int]
            &&& forall|j: int| 0 <= j < i ==> !candidate_exists@[j]
        },
        choice == ExecutableChoice::Fallback ==> !has_override && !candidate_exists@.contains(true),
{
    if has_override {
        return ExecutableChoice::Override;
    }
    let mut i: usize = 0;
    while i < candidate_exists.len()
        invariant
            !has_override,
            i <= candidate_exists.len(),
            forall|j: int| 0 <= j < i ==> !candidate_exists@[j],
        decreases candidate_exists.len() - i,
    {
        if candidate_exists[i] {
            return ExecutableChoice::Candidate(i);
        }
        i = i + 1;
    }
    proof {
        let s = candidate_exists@;
        assert(!s.contains(true)) by {
            if s.contains(true) {
                let j = choose|j: int| 0 <= j < s.len() && s[j] == true;
                assert(!s[j]);
            }
        }
    }
    ExecutableChoice::Fallback
}

/// What one trimmed reply line does to a response being framed.
#[derive(Clone, Copy, Debug, PartialEq, Eq, Structural)]
pub enum ResponseLine {
    /// An empty line, skipped.
    Blank,
    /// The backend reported an error; the line is the failure's message.
    Error,
    /// Part of the response; parentheses are still open at `depth`.
    Open { depth: i64 },
    /// The response's parentheses are balanced: it is complete.
    Closed,
}

/// Opening minus closing parentheses in `bytes`.
pub open spec fn paren_delta(bytes: Seq<u8>) -> int
    decreases bytes.len(),
{
    if bytes.len() == 0 {
        0
    } else {
        paren_delta(bytes.drop_last()) + if bytes.last() == 40u8 {
            1int
        } else if bytes.last() == 41u8 {
            -1int
        } else {
            0int
        }
    }
}

/// The bytes of `(error`, with which the backend opens an error reply.
pub open spec fn error_prefix() -> Seq<u8> {
    seq![40u8, 101u8, 114u8, 114u8, 111u8, 114u8]
}

proof fn lemma_paren_delta_bounded(bytes: Seq<u8>)
    ensures
        -bytes.len() <= paren_delta(bytes) <= bytes.len(),
    decreases bytes.len(),
{
    if bytes.len() > 0 {
        lemma_paren_delta_bounded(bytes.drop_last());
    }
}

/// Frames one trimmed reply line: a response ends when its parentheses
/// balance, and a line that opens with `(error` fails it.
pub fn frame_line(depth: i64, line: &[u8]) -> (step: ResponseLine)
    requires
        i64::MIN + line@.len() <= depth <= i64::MAX - line@.len(),
    ensures
        line@.len() == 0 ==> step is Blank,
        line@.len() > 0 && line@.len() >= 6 && line@.subrange(0, 6) == error_prefix() ==> step is Error,
        line@.len() > 0 && !(line@.len() >= 6 && line@.subrange(0, 6) == error_prefix()) ==> if depth
            + paren_delta(line@) == 0 {
            step is Closed
        } else {
            step == ResponseLine::Open { depth: (depth + paren_delta(line@)) as i64 }
        },
{
    let n = line.len();
    if n == 0 {
        return ResponseLine::Blank;
    }
    if n >= 6 && line[0] == 40u8 && line[1] == 101u8 && line[2] == 114u8 && line[3] == 114u8
        && line[4] == 111u8 && line[5] == 114u8 {
        assert(line@.subrange(0, 6) =~= error_prefix());
        return ResponseLine::Error;
    }
    proof {
        if n >= 6 && line@.subrange(0, 6) == error_prefix() {
            assert(line@[0] == line@.subrange(0, 6)[0]);
            assert(line@[1] == line@.subrange(0, 6)[1]);
            assert(line@[2] == line@.subrange(0, 6)[2]);
            assert(line@[3] == line@.subrange(0, 6)[3]);
            assert(line@[4] == line@.subrange(0, 6)[4]);
            assert(line@[5] == line@.subrange(0, 6)[5]);
        }
    }
    let mut d: i64 = depth;
    let mut i: usize = 0;
    while i < n
        invariant
            n == line@.len(),
            i <= n,
            i64::MIN + n <= depth <= i64::MAX - n,
            d == depth + paren_delta(line@.subrange(0, i as int)),
        decreases n - i,
    {
        proof {
            lemma_paren_delta_bounded(line@.subrange(0, i as int));
            assert(line@.subrange(0, i + 1).drop_last() =~= line@.subrange(0, i as int));
        }
        if line[i] == 40u8 {
            d = d + 1;
        } else if line[i] == 41u8 {
            d = d - 1;
        }
        i = i + 1;
    }
    assert(line@.subrange(0, n as int) =~= line@);
    if d == 0 {
        ResponseLine::Closed
    } else {
        ResponseLine::Open { depth: d }
    }
}

} // verus!
