//! The wire protocol: requests framed by their opcode, the replies to them,
//! and what the server does for each request.

use vstd::prelude::*;

use crate::codec::{encode_words, word, word_at, words_bytes};
use crate::matrix::{add_wrap, is_square, is_sum, view_of, Matrix};
use crate::store::{is_pair, is_result, next_id, MatrixStore, ResultStore, MAX_WORD};

verus! {

pub const PING: u32 = 5;

pub const PONG: u32 = 6;

pub const MATRIX_RECEIVING: u32 = 7;

pub const MATRIX_RECEIVED: u32 = 8;

pub const MATRIX_CALCULATE_SUM: u32 = 9;

pub const MATRIX_SUM_RESULT: u32 = 10;

pub const MATRIX_SUM_RESULT_NO: u32 = 11;

pub const MATRIX_SUM_RESULT_SENDING: u32 = 12;

/// One decoded request.
pub enum Request {
    Ping,
    Submit { a: Matrix, b: Matrix },
    Dispatch { id: u32 },
    Poll { id: u32 },
    Unknown { opcode: u32 },
}

/// The outcome of decoding the bytes received so far.
pub enum Parsed {
    /// The frame at the start needs `total` bytes in all.
    NeedMore { total: usize },
    /// The frame announces more bytes than a buffer can hold.
    Oversized,
    /// A whole request, taking the first `used` bytes.
    Complete { request: Request, used: usize },
}

/// The number of bytes of the frame at the start of `s`, as far as its
/// first words tell.
pub open spec fn frame_len(s: Seq<u8>) -> int {
    if s.len() < 4 {
        4
    } else {
        let op = word_at(s, 0);
        if op == MATRIX_RECEIVING {
            if s.len() < 8 {
                8
            } else {
                8 + 8 * (word_at(s, 1) as int * word_at(s, 1) as int)
            }
        } else if op == MATRIX_CALCULATE_SUM || op == MATRIX_SUM_RESULT {
            8
        } else {
            4
        }
    }
}

/// The `m`-th `n`×`n` matrix that follows the size word, row-major.
pub open spec fn framed_matrix(s: Seq<u8>, n: int, m: int) -> Seq<Seq<u32>> {
    Seq::new(n as nat, |i: int| Seq::new(n as nat, |j: int| word_at(s, 2 + m * n * n + i * n + j)))
}

/// `r` is the request that the complete frame at the start of `s` holds.
pub open spec fn is_request_of(s: Seq<u8>, r: &Request) -> bool {
    let op = word_at(s, 0);
    match r {
        Request::Ping => op == PING,
        Request::Submit { a, b } => {
            let n = word_at(s, 1) as int;
            &&& op == MATRIX_RECEIVING
            &&& view_of(a) == framed_matrix(s, n, 0)
            &&& view_of(b) == framed_matrix(s, n, 1)
        },
        Request::Dispatch { id } => op == MATRIX_CALCULATE_SUM && *id == word_at(s, 1),
        Request::Poll { id } => op == MATRIX_SUM_RESULT && *id == word_at(s, 1),
        Request::Unknown { opcode } => {
            &&& *opcode == op
            &&& op != PING
            &&& op != MATRIX_RECEIVING
            &&& op != MATRIX_CALCULATE_SUM
            &&& op != MATRIX_SUM_RESULT
        },
    }
}

impl Request {
    /// A submission carries a pair of square matrices of word side.
    pub open spec fn wf(&self) -> bool {
        match self {
            Request::Submit { a, b } => is_pair(view_of(a), view_of(b)),
            _ => true,
        }
    }
}

/// Reads the `m`-th `n`×`n` matrix of a submission frame.
fn read_matrix(buf: &[u8], n: usize, m: usize) -> (r: Matrix)
    requires
        m <= 1,
        8 + 8 * (n * n) <= buf@.len(),
    ensures
        view_of(&r) == framed_matrix(buf@, n as int, m as int),
        r@.len() == n,
{
    // brings in that a slice's length fits in usize
    let _len = buf.len();
    let ghost want = framed_matrix(buf@, n as int, m as int);
    let mut r: Matrix = Vec::new();
    let mut i: usize = 0;
    proof {
        assert(m * (n * n) <= n * n) by (nonlinear_arith)
            requires m <= 1;
    }
    let base: usize = 2 + m * (n * n);
    while i < n
        invariant
            i <= n,
            m <= 1,
            base == 2 + m * (n * n),
            8 + 8 * (n * n) <= buf@.len(),
            buf@.len() <= usize::MAX,
            want == framed_matrix(buf@, n as int, m as int),
            r@.len() == i,
            forall|k: int| 0 <= k < i ==> (#[trigger] r@[k])@ == want[k],
        decreases n - i,
    {
        let mut row: Vec<u32> = Vec::with_capacity(n);
        let mut j: usize = 0;
        proof {
            assert(i * n + n <= n * n) by (nonlinear_arith)
                requires i < n;
            assert(base + i * n <= 2 + 2 * (n * n)) by (nonlinear_arith)
                requires base == 2 + m * (n * n), m <= 1, i * n + n <= n * n;
        }
        let start: usize = base + i * n;
        while j < n
            invariant
                j <= n,
                i < n,
                start == base + i * n,
                base == 2 + m * (n * n),
                i * n + n <= n * n,
                m <= 1,
                8 + 8 * (n * n) <= buf@.len(),
                buf@.len() <= usize::MAX,
                want == framed_matrix(buf@, n as int, m as int),
                row@ == want[i as int].subrange(0, j as int),
            decreases n - j,
        {
            proof {
                assert(m * (n * n) + n * n <= 2 * (n * n)) by (nonlinear_arith)
                    requires m <= 1;
                assert(start + j == 2 + m * n * n + i * n + j) by (nonlinear_arith)
                    requires start == 2 + m * (n * n) + i * n;
            }
            row.push(word(buf, start + j));
            assert(row@ =~= want[i as int].subrange(0, j + 1));
            j = j + 1;
        }
        assert(row@ =~= want[i as int]);
        r.push(row);
        i = i + 1;
    }
    assert(view_of(&r) =~= want);
    r
}

/// Decodes the frame at the start of `buf`.
pub fn parse_request(buf: &[u8]) -> (r: Parsed)
    ensures
        r matches Parsed::NeedMore { total } <==> buf@.len() < frame_len(buf@) <= usize::MAX,
        r matches Parsed::NeedMore { total } ==> total == frame_len(buf@),
        r is Oversized <==> frame_len(buf@) > usize::MAX,
        r matches Parsed::Complete { request, used } ==> {
            &&& used == frame_len(buf@)
            &&& used <= buf@.len()
            &&& is_request_of(buf@, &request)
            &&& request.wf()
        },
{
    let len = buf.len();
    if len < 4 {
        return Parsed::NeedMore { total: 4 };
    }
    let op = word(buf, 0);
    if op == PING {
        Parsed::Complete { request: Request::Ping, used: 4 }
    } else if op == MATRIX_CALCULATE_SUM || op == MATRIX_SUM_RESULT {
        if len < 8 {
            Parsed::NeedMore { total: 8 }
        } else {
            let id = word(buf, 1);
            if op == MATRIX_CALCULATE_SUM {
                Parsed::Complete { request: Request::Dispatch { id }, used: 8 }
            } else {
                Parsed::Complete { request: Request::Poll { id }, used: 8 }
            }
        }
    } else if op == MATRIX_RECEIVING {
        if len < 8 {
            return Parsed::NeedMore { total: 8 };
        }
        let size = word(buf, 1);
        let n = size as usize;
        let total = match n.checked_mul(n) {
            None => None,
            Some(nn) => match nn.checked_mul(8) {
                None => None,
                Some(b) => b.checked_add(8),
            },
        };
        match total {
            None => Parsed::Oversized,
            Some(total) => {
                if len < total {
                    Parsed::NeedMore { total }
                } else {
                    let a = read_matrix(buf, n, 0);
                    let b = read_matrix(buf, n, 1);
                    proof {
                        assert(is_square(view_of(&a), n as int));
                        assert(is_square(view_of(&b), n as int));
                    }
                    Parsed::Complete { request: Request::Submit { a, b }, used: total }
                }
            },
        }
    } else {
        Parsed::Complete { request: Request::Unknown { opcode: op }, used: 4 }
    }
}

/// One reply to a client.
pub enum Reply {
    Pong,
    Received { id: u32 },
    NotAvailable { id: u32 },
    Sending { id: u32, result: Matrix },
}

/// What the server does after a request.
pub enum Action {
    /// Nothing is sent.
    Nothing,
    /// The reply is sent.
    Send { reply: Reply },
    /// The sum of `a` and `b` is computed in the background and published
    /// as the result of job `id`; nothing is sent.
    Compute { id: u32, a: Matrix, b: Matrix },
    /// The connection is closed.
    Close,
}

/// The rows of `m` one after the other.
pub open spec fn concat_rows(m: Seq<Seq<u32>>) -> Seq<u32>
    decreases m.len(),
{
    if m.len() == 0 {
        Seq::empty()
    } else {
        concat_rows(m.drop_last()) + m.last()
    }
}

/// The words of the reply that carries result `m` of job `id`.
pub open spec fn sending_words(id: u32, m: Seq<Seq<u32>>) -> Seq<u32> {
    seq![MATRIX_SUM_RESULT_SENDING, id, m.len() as u32] + concat_rows(m)
}

/// The words of the reply to a poll of job `id`.
pub open spec fn poll_words(results: Map<u32, Seq<Seq<u32>>>, id: u32) -> Seq<u32> {
    if results.contains_key(id) {
        sending_words(id, results[id])
    } else {
        seq![MATRIX_SUM_RESULT_NO, id]
    }
}

impl Reply {
    /// A result fits its side in a word.
    pub open spec fn wf(&self) -> bool {
        match self {
            Reply::Sending { result, .. } => result@.len() <= MAX_WORD,
            _ => true,
        }
    }

    /// The words of the reply, in the order they are sent.
    pub open spec fn words(&self) -> Seq<u32> {
        match self {
            Reply::Pong => seq![PONG],
            Reply::Received { id } => seq![MATRIX_RECEIVED, *id],
            Reply::NotAvailable { id } => seq![MATRIX_SUM_RESULT_NO, *id],
            Reply::Sending { id, result } => sending_words(*id, view_of(result)),
        }
    }
}

/// The bytes of a reply: each of its words, big-endian.
pub fn encode_reply(reply: &Reply) -> (r: Vec<u8>)
    requires
        reply.wf(),
    ensures
        r@ == words_bytes(reply.words()),
{
    let mut ws: Vec<u32> = Vec::new();
    match reply {
        Reply::Pong => {
            ws.push(PONG);
        },
        Reply::Received { id } => {
            ws.push(MATRIX_RECEIVED);
            ws.push(*id);
        },
        Reply::NotAvailable { id } => {
            ws.push(MATRIX_SUM_RESULT_NO);
            ws.push(*id);
        },
        Reply::Sending { id, result } => {
            ws.push(MATRIX_SUM_RESULT_SENDING);
            ws.push(*id);
            ws.push(result.len() as u32);
            let ghost head = ws@;
            let ghost m = view_of(result);
            let mut i: usize = 0;
            while i < result.len()
                invariant
                    i <= result@.len(),
                    m == view_of(result),
                    ws@ == head + concat_rows(m.subrange(0, i as int)),
                decreases result@.len() - i,
            {
                let row = &result[i];
                assert(row@ == m[i as int]);
                let ghost mid = ws@;
                let mut j: usize = 0;
                while j < row.len()
                    invariant
                        j <= row@.len(),
                        ws@ == mid + row@.subrange(0, j as int),
                    decreases row@.len() - j,
                {
                    ws.push(row[j]);
                    assert(ws@ =~= mid + row@.subrange(0, j + 1));
                    j = j + 1;
                }
                assert(m.subrange(0, i + 1).drop_last() =~= m.subrange(0, i as int));
                assert(row@.subrange(0, row@.len() as int) =~= row@);
                assert(ws@ =~= head + concat_rows(m.subrange(0, i + 1)));
                i = i + 1;
            }
            assert(m.subrange(0, m.len() as int) =~= m);
        },
    }
    assert(ws@ =~= reply.words());
    encode_words(&ws)
}

/// Handles one request against the two stores.
///
/// A ping is answered with a pong. A submission is stored as the next job
/// and answered with its id; once every id is taken the connection is
/// closed instead. A dispatch of a submitted job hands a copy of its pair
/// to the compute engine; one of an unknown job is dropped. A poll is
/// answered with the job's result, or with "not available" while it has
/// none. Other opcodes are ignored. Only a submission changes a store.
pub fn respond(req: Request, jobs: &mut MatrixStore, results: &ResultStore) -> (act: Action)
    requires
        old(jobs).wf(),
        results.wf(),
        req.wf(),
    ensures
        final(jobs).wf(),
        act matches Action::Send { reply } ==> reply.wf(),
        match req {
            Request::Ping => {
                &&& act matches Action::Send { reply } && reply.words() == seq![PONG]
                &&& final(jobs)@ == old(jobs)@
            },
            Request::Submit { a, b } => if old(jobs)@.len() <= MAX_WORD {
                &&& act matches Action::Send { reply } && reply.words() == seq![
                    MATRIX_RECEIVED,
                    next_id(old(jobs)@),
                ]
                &&& final(jobs)@ == old(jobs)@.push((view_of(&a), view_of(&b)))
            } else {
                &&& act is Close
                &&& final(jobs)@ == old(jobs)@
            },
            Request::Dispatch { id } => {
                &&& final(jobs)@ == old(jobs)@
                &&& if id < old(jobs)@.len() {
                    act matches Action::Compute { id: job, a, b } && job == id && view_of(&a)
                        == old(jobs)@[id as int].0 && view_of(&b) == old(jobs)@[id as int].1
                } else {
                    act is Nothing
                }
            },
            Request::Poll { id } => {
                &&& act matches Action::Send { reply } && reply.words() == poll_words(
                    results@,
                    id,
                )
                &&& final(jobs)@ == old(jobs)@
            },
            Request::Unknown { .. } => {
                &&& act is Nothing
                &&& final(jobs)@ == old(jobs)@
            },
        },
{
    match req {
        Request::Ping => Action::Send { reply: Reply::Pong },
        Request::Submit { a, b } => match jobs.submit(a, b) {
            Some(id) => Action::Send { reply: Reply::Received { id } },
            None => Action::Close,
        },
        Request::Dispatch { id } => match jobs.get(id) {
            Some((a, b)) => Action::Compute { id, a, b },
            None => Action::Nothing,
        },
        Request::Poll { id } => match results.try_get(id) {
            Some(result) => Action::Send { reply: Reply::Sending { id, result } },
            None => Action::Send { reply: Reply::NotAvailable { id } },
        },
        Request::Unknown { .. } => Action::Nothing,
    }
}

/// A poll of a job with no published result is answered "not available",
/// carrying only the id: never part of a matrix.
pub proof fn lemma_poll_unpublished(results: Map<u32, Seq<Seq<u32>>>, id: u32)
    requires
        !results.contains_key(id),
    ensures
        poll_words(results, id) == seq![MATRIX_SUM_RESULT_NO, id],
{
}

/// Once `m` is published for job `id`, a poll returns it whole, and every
/// later poll returns the same words, whatever is published meanwhile for
/// other jobs.
pub proof fn lemma_poll_after_publish(
    results: Map<u32, Seq<Seq<u32>>>,
    id: u32,
    m: Seq<Seq<u32>>,
    other: u32,
    later: Seq<Seq<u32>>,
)
    requires
        other != id,
    ensures
        poll_words(results.insert(id, m), id) == sending_words(id, m),
        poll_words(results.insert(id, m).insert(other, later), id) == poll_words(
            results.insert(id, m),
            id,
        ),
{
}

/// The elements of an `n`-column matrix sent one row after the other:
/// element `j` of row `i` stands at position `i * n + j`.
pub proof fn lemma_concat_rows_index(m: Seq<Seq<u32>>, n: int)
    requires
        n >= 0,
        forall|i: int| 0 <= i < m.len() ==> (#[trigger] m[i]).len() == n,
    ensures
        concat_rows(m).len() == m.len() * n,
        forall|i: int, j: int|
            0 <= i < m.len() && 0 <= j < n ==> concat_rows(m)[i * n + j] == #[trigger] m[i][j],
    decreases m.len(),
{
    if m.len() > 0 {
        let init = m.drop_last();
        lemma_concat_rows_index(init, n);
        let k = m.len() - 1;
        assert(m.len() * n == k * n + n) by (nonlinear_arith)
            requires k == m.len() - 1;
        assert forall|i: int, j: int| 0 <= i < m.len() && 0 <= j < n implies concat_rows(m)[i * n
            + j] == #[trigger] m[i][j] by {
            if i < k {
                assert(i * n + j < k * n) by (nonlinear_arith)
                    requires i < k, j < n, 0 <= j;
                assert(init[i] == m[i]);
            } else {
                assert(i * n + j == k * n + j);
            }
        }
    }
}

/// The reply to a poll of a published `n`×`n` result carries `n` and then
/// the result's elements row-major: element `j` of row `i` is word
/// `3 + i * n + j`.
pub proof fn lemma_sent_result(id: u32, m: Seq<Seq<u32>>)
    requires
        is_result(m),
    ensures
        sending_words(id, m).len() == 3 + m.len() * m.len(),
        sending_words(id, m)[2] == m.len(),
        forall|i: int, j: int|
            0 <= i < m.len() && 0 <= j < m.len() ==> sending_words(id, m)[3 + i * m.len() + j]
                == #[trigger] m[i][j],
{
    let n = m.len() as int;
    lemma_concat_rows_index(m, n);
    assert forall|i: int, j: int| 0 <= i < n && 0 <= j < n implies sending_words(id, m)[3 + i
        * n + j] == #[trigger] m[i][j] by {
        assert(0 <= i * n && i * n + j < n * n) by (nonlinear_arith)
            requires 0 <= i < n, 0 <= j < n;
        let c = concat_rows(m);
        assert(c[i * n + j] == m[i][j]);
        assert(sending_words(id, m)[3 + i * n + j] == c[i * n + j]);
    }
}

/// Once the sum `r` of the `n`×`n` pair `a`, `b` is published as the result
/// of job `id`, a poll of `id` sends `n` and then `a[i][j] + b[i][j]`
/// (wrapping) as word `3 + i * n + j`, and the results of other jobs are
/// as they were.
pub proof fn lemma_published_sum(
    results: Map<u32, Seq<Seq<u32>>>,
    id: u32,
    a: Seq<Seq<u32>>,
    b: Seq<Seq<u32>>,
    r: Seq<Seq<u32>>,
    n: int,
)
    requires
        0 <= n <= MAX_WORD,
        is_sum(a, b, r, n),
    ensures
        poll_words(results.insert(id, r), id).len() == 3 + n * n,
        poll_words(results.insert(id, r), id)[2] == n,
        forall|i: int, j: int|
            0 <= i < n && 0 <= j < n ==> #[trigger] poll_words(results.insert(id, r), id)[3 + i
                * n + j] == add_wrap(a[i][j], b[i][j]),
        forall|k: u32| k != id ==> #[trigger] poll_words(results.insert(id, r), k) == poll_words(
            results,
            k,
        ),
{
    lemma_sent_result(id, r);
    assert forall|i: int, j: int| 0 <= i < n && 0 <= j < n implies #[trigger] poll_words(
        results.insert(id, r),
        id,
    )[3 + i * n + j] == add_wrap(a[i][j], b[i][j]) by {
        assert(r[i][j] == add_wrap(a[i][j], b[i][j]));
    }
}

} // verus!
