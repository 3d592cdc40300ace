//! The logic of the HTTP service: what a request must look like, what the answer
//! says, and how the metrics are written down.

use crate::coherence::CoherenceError;
use crate::kv::cache::{CacheError, CacheView};
use crate::kv::tokens;
use crate::kv::BlockId;
use crate::scheduler;
use crate::scheduler::{Request, Response, SchedulerError};
use vstd::prelude::*;

verus! {

/// The body of a request: tokens, who asks, and the data for all blocks in one
/// run.
#[derive(Debug)]
pub struct ServeRequest {
    pub tokens: Vec<u32>,
    pub agent_id: u64,
    pub kv_data: Vec<u8>,
}

/// The body of an answer.
#[derive(Debug)]
pub struct ServeResponse {
    pub cache_hit: bool,
    pub block_ids: Vec<u64>,
    pub latency_ns: u64,
}

/// Why a request is not answered.
#[derive(Debug)]
pub enum ApiError {
    /// There is no room for the data.
    OutOfBlocks,
    /// The request makes no sense, for the reason given.
    BadRequest(String),
    /// Anything else.
    Internal,
}

/// What an error says.
pub enum ApiErrorView {
    OutOfBlocks,
    BadRequest(Seq<char>),
    Internal,
}

impl View for ApiError {
    type V = ApiErrorView;

    open spec fn view(&self) -> ApiErrorView {
        match self {
            ApiError::OutOfBlocks => ApiErrorView::OutOfBlocks,
            ApiError::BadRequest(why) => ApiErrorView::BadRequest(why@),
            ApiError::Internal => ApiErrorView::Internal,
        }
    }
}

impl ApiErrorView {
    /// What the failure of a request is reported as.
    pub open spec fn of(e: SchedulerError) -> ApiErrorView {
        match e {
            SchedulerError::Coherence(CoherenceError::KvError(CacheError::OutOfBlocks)) => {
                ApiErrorView::OutOfBlocks
            },
            SchedulerError::Coherence(CoherenceError::KvError(CacheError::DataSizeMismatch)) => {
                ApiErrorView::BadRequest("kv_data block size mismatch"@)
            },
            _ => ApiErrorView::Internal,
        }
    }

    /// The HTTP status of an error.
    pub open spec fn status(self) -> u16 {
        match self {
            ApiErrorView::OutOfBlocks => 507,
            ApiErrorView::BadRequest(_) => 400,
            ApiErrorView::Internal => 500,
        }
    }

    /// The text that goes with it.
    pub open spec fn message(self) -> Seq<char> {
        match self {
            ApiErrorView::OutOfBlocks => "slab full"@,
            ApiErrorView::BadRequest(why) => why,
            ApiErrorView::Internal => "internal error"@,
        }
    }
}

impl From<SchedulerError> for ApiError {
    fn from(e: SchedulerError) -> (error: Self)
        ensures
            error@ == ApiErrorView::of(e),
    {
        match e {
            SchedulerError::Coherence(CoherenceError::KvError(CacheError::OutOfBlocks)) => {
                ApiError::OutOfBlocks
            },
            SchedulerError::Coherence(CoherenceError::KvError(CacheError::DataSizeMismatch)) => {
                ApiError::BadRequest("kv_data block size mismatch".to_owned())
            },
            _ => ApiError::Internal,
        }
    }
}

impl vstd::std_specs::convert::FromSpecImpl<SchedulerError> for ApiError {
    open spec fn obeys_from_spec() -> bool {
        false
    }

    open spec fn from_spec(e: SchedulerError) -> ApiError {
        ApiError::Internal
    }
}

impl ApiError {
    /// The HTTP status of the error.
    pub fn status(&self) -> (status: u16)
        ensures
            status == self@.status(),
    {
        match self {
            ApiError::OutOfBlocks => 507,
            ApiError::BadRequest(_) => 400,
            ApiError::Internal => 500,
        }
    }

    /// The text that goes with it.
    pub fn message(&self) -> (message: String)
        ensures
            message@ == self@.message(),
    {
        match self {
            ApiError::OutOfBlocks => "slab full".to_owned(),
            ApiError::BadRequest(why) => why.clone(),
            ApiError::Internal => "internal error".to_owned(),
        }
    }
}

/// The character of a decimal digit.
pub open spec fn digit(d: nat) -> char {
    if d == 0 {
        '0'
    } else if d == 1 {
        '1'
    } else if d == 2 {
        '2'
    } else if d == 3 {
        '3'
    } else if d == 4 {
        '4'
    } else if d == 5 {
        '5'
    } else if d == 6 {
        '6'
    } else if d == 7 {
        '7'
    } else if d == 8 {
        '8'
    } else {
        '9'
    }
}

/// A number in decimal.
pub open spec fn decimal(n: nat) -> Seq<char>
    decreases n,
{
    if n < 10 {
        seq![digit(n)]
    } else {
        decimal(n / 10).push(digit(n % 10))
    }
}

/// Appends one digit.
fn push_digit(out: &mut String, d: u64)
    requires
        d < 10,
    ensures
        final(out)@ == old(out)@.push(digit(d as nat)),
{
    let text = if d == 0 {
        "0"
    } else if d == 1 {
        "1"
    } else if d == 2 {
        "2"
    } else if d == 3 {
        "3"
    } else if d == 4 {
        "4"
    } else if d == 5 {
        "5"
    } else if d == 6 {
        "6"
    } else if d == 7 {
        "7"
    } else if d == 8 {
        "8"
    } else {
        "9"
    };
    proof {
        reveal_strlit("0");
        reveal_strlit("1");
        reveal_strlit("2");
        reveal_strlit("3");
        reveal_strlit("4");
        reveal_strlit("5");
        reveal_strlit("6");
        reveal_strlit("7");
        reveal_strlit("8");
        reveal_strlit("9");
    }
    assert(text@ =~= seq![digit(d as nat)]);
    out.append(text);
    assert(out@ =~= old(out)@.push(digit(d as nat)));
}

/// Appends a number in decimal.
fn push_decimal(out: &mut String, n: u64)
    ensures
        final(out)@ == old(out)@ + decimal(n as nat),
    decreases n,
{
    if n >= 10 {
        push_decimal(out, n / 10);
    }
    push_digit(out, n % 10);
    assert(out@ =~= old(out)@ + decimal(n as nat));
}

/// Why a request makes no sense, if it does not, for blocks of `b` tokens of
/// `stride` bytes each.
pub open spec fn complaint(b: nat, stride: nat, tokens: nat, bytes: nat) -> Option<Seq<char>> {
    if tokens / b == 0 || tokens % b != 0 {
        Some("tokens.len() must be a non-zero multiple of "@ + decimal(b))
    } else if bytes == 0 {
        Some("kv_data must not be empty"@)
    } else if bytes % (tokens / b) != 0 {
        Some("kv_data.len() must be divisible by n_blocks"@)
    } else if bytes != (tokens / b) * b * stride {
        Some("kv_data block size mismatch"@)
    } else {
        None
    }
}

/// The request for the scheduler: one equal run of the data for each block.
pub open spec fn is_prepared(b: nat, req: ServeRequest, prepared: Request) -> bool {
    let n = req.tokens@.len() / b;
    let width = req.kv_data@.len() / n;
    &&& prepared.tokens@ == req.tokens@
    &&& prepared.agent == req.agent_id as usize
    &&& prepared.kv_data@.len() == n
    &&& forall|i: int|
        #![trigger prepared.kv_data@[i]]
        0 <= i < n ==> prepared.kv_data@[i]@ == req.kv_data@.subrange(
            i * width,
            i * width + width,
        )
}

/// Checks the body of a request and makes the request for the scheduler of it. The
/// data must have `element_stride` bytes for each token.
pub fn prepare<const B: usize>(req: ServeRequest, element_stride: usize) -> (prepared: Result<
    Request,
    ApiError,
>)
    requires
        0 < B,
    ensures
        match (
            prepared,
            complaint(
                B as nat,
                element_stride as nat,
                req.tokens@.len(),
                req.kv_data@.len(),
            ),
        ) {
            (Ok(p), None) => is_prepared(B as nat, req, p) && 0 < p.tokens@.len(),
            (Err(e), Some(why)) => e@ == ApiErrorView::BadRequest(why),
            _ => false,
        },
{
    let count: usize = req.tokens.len();
    let bytes: usize = req.kv_data.len();
    let n: usize = count / B;
    if n == 0 || count % B != 0 {
        let mut why = "tokens.len() must be a non-zero multiple of ".to_owned();
        push_decimal(&mut why, B as u64);
        return Err(ApiError::BadRequest(why));
    }
    if bytes == 0 {
        return Err(ApiError::BadRequest("kv_data must not be empty".to_owned()));
    }
    if bytes % n != 0 {
        return Err(
            ApiError::BadRequest("kv_data.len() must be divisible by n_blocks".to_owned()),
        );
    }
    proof {
        tokens::lemma_whole(count as nat, B as nat);
    }
    let fits = match count.checked_mul(element_stride) {
        Some(size) => bytes == size,
        None => false,
    };
    if !fits {
        return Err(ApiError::BadRequest("kv_data block size mismatch".to_owned()));
    }
    let width: usize = bytes / n;
    let mut kv_data: Vec<Vec<u8>> = Vec::new();
    let mut i: usize = 0;
    while i < n
        invariant
            i <= n,
            0 < n,
            width == bytes / n,
            bytes == req.kv_data@.len(),
            kv_data@.len() == i,
            forall|j: int|
                #![trigger kv_data@[j]]
                0 <= j < i ==> kv_data@[j]@ == req.kv_data@.subrange(
                    j * width,
                    j * width + width,
                ),
        decreases n - i,
    {
        assert(0 <= i * width && i * width + width <= bytes) by (nonlinear_arith)
            requires
                0 <= i,
                i + 1 <= n,
                0 < n,
                width == bytes / n,
        ;
        let run = vstd::slice::slice_subrange(
            req.kv_data.as_slice(),
            i * width,
            i * width + width,
        );
        kv_data.push(vstd::slice::slice_to_vec(run));
        i = i + 1;
    }
    Ok(Request { tokens: req.tokens, kv_data, agent: req.agent_id as usize })
}

/// A prepared request is one that the scheduler takes: it has the tokens and the agent of
/// the body, they are whole blocks with one run of data each, and every run has the size
/// of a block. Every byte of the data is in its place in one of them.
pub proof fn law_prepared(b: nat, stride: nat, req: ServeRequest, prepared: Request, k: int)
    requires
        0 < b,
        complaint(b, stride, req.tokens@.len(), req.kv_data@.len()) is None,
        is_prepared(b, req, prepared),
        0 <= k < req.kv_data@.len(),
    ensures
        0 < prepared.tokens@.len(),
        prepared.tokens@ == req.tokens@,
        req.agent_id <= usize::MAX ==> prepared.agent == req.agent_id,
        CacheView::fits(b, prepared.tokens@, scheduler::item_bytes(prepared.kv_data@)),
        ({
            let width = req.kv_data@.len() / (req.tokens@.len() / b);
            &&& 0 < width
            &&& width == b * stride
            &&& forall|i: int|
                #![trigger prepared.kv_data@[i]]
                0 <= i < prepared.kv_data@.len() ==> prepared.kv_data@[i]@.len() == width
            &&& 0 <= k / (width as int) < prepared.kv_data@.len()
            &&& prepared.kv_data@[k / (width as int)]@[k % (width as int)] == req.kv_data@[k]
        }),
{
    let n = req.tokens@.len() / b;
    let bytes = req.kv_data@.len();
    let width = bytes / n;
    assert(bytes == width * n) by (nonlinear_arith)
        requires
            0 < n,
            bytes % n == 0,
            width == bytes / n,
    ;
    assert(0 < width) by (nonlinear_arith)
        requires
            0 < bytes,
            bytes == width * n,
    ;
    assert(width == b * stride) by (nonlinear_arith)
        requires
            0 < n,
            width * n == n * b * stride,
    ;
    assert forall|i: int| 0 <= i < n implies (#[trigger] prepared.kv_data@[i])@.len() == width && 0
        <= i * width && i * width + width <= bytes by {
        assert(0 <= i * width && i * width + width <= bytes) by (nonlinear_arith)
            requires
                0 <= i,
                i + 1 <= n,
                bytes == width * n,
        ;
    }
    let q = k / (width as int);
    let r = k % (width as int);
    vstd::arithmetic::div_mod::lemma_fundamental_div_mod(k, width as int);
    assert(0 <= q < n && k == q * width + r && 0 <= r < width) by (nonlinear_arith)
        requires
            0 <= k < width * n,
            0 < width,
            k == width * q + r,
            0 <= r < width,
    ;
    assert(prepared.kv_data@[q]@.len() == width);
}

/// The numbers of blocks.
pub open spec fn block_numbers(blocks: Seq<BlockId>) -> Seq<u64> {
    Seq::new(blocks.len(), |i: int| blocks[i].0 as u64)
}

/// The body of the answer to a request that was served in `latency_ns`
/// nanoseconds, or the error.
pub fn answer(result: Result<Response, SchedulerError>, latency_ns: u64) -> (answer: Result<
    ServeResponse,
    ApiError,
>)
    ensures
        match (result, answer) {
            (Ok(r), Ok(a)) => {
                &&& a.cache_hit == r.cache_hit
                &&& a.block_ids@ == block_numbers(r.blocks@)
                &&& a.latency_ns == latency_ns
            },
            (Err(why), Err(e)) => e@ == ApiErrorView::of(why),
            _ => false,
        },
{
    match result {
        Ok(r) => {
            let mut block_ids: Vec<u64> = Vec::new();
            let mut i: usize = 0;
            while i < r.blocks.len()
                invariant
                    i <= r.blocks.len(),
                    block_ids@ == block_numbers(r.blocks@.take(i as int)),
                decreases r.blocks.len() - i,
            {
                block_ids.push(r.blocks[i].0 as u64);
                i = i + 1;
                assert(block_ids@ =~= block_numbers(r.blocks@.take(i as int)));
            }
            assert(r.blocks@.take(i as int) =~= r.blocks@);
            Ok(ServeResponse { cache_hit: r.cache_hit, block_ids, latency_ns })
        },
        Err(why) => Err(ApiError::from(why)),
    }
}

/// How many requests found their artifact and how many did not.
#[derive(Debug, Clone, Copy, PartialEq, Eq, Structural)]
pub struct Counters {
    pub hits: u64,
    pub misses: u64,
}

/// The count after one more; counts start over at zero.
pub open spec fn counted(n: u64) -> u64 {
    if n == u64::MAX {
        0
    } else {
        (n + 1) as u64
    }
}

impl Counters {
    /// Counts an answer.
    pub fn record(&mut self, hit: bool)
        ensures
            *final(self) == if hit {
                Counters { hits: counted(old(self).hits), ..*old(self) }
            } else {
                Counters { misses: counted(old(self).misses), ..*old(self) }
            },
    {
        if hit {
            self.hits = self.hits.wrapping_add(1);
        } else {
            self.misses = self.misses.wrapping_add(1);
        }
    }
}

/// One metric in the text format of Prometheus.
pub open spec fn metric(
    name: Seq<char>,
    help: Seq<char>,
    kind: Seq<char>,
    value: nat,
) -> Seq<char> {
    "# HELP "@ + name + " "@ + help + "\n# TYPE "@ + name + " "@ + kind + "\n"@ + name + " "@
        + decimal(value) + "\n"@
}

/// All metrics.
pub open spec fn metrics(counters: Counters, used: usize, total: usize) -> Seq<char> {
    metric("phantom_cache_hits_total"@, "Total cache hits"@, "counter"@, counters.hits as nat)
        + metric(
        "phantom_cache_misses_total"@,
        "Total cache misses"@,
        "counter"@,
        counters.misses as nat,
    ) + metric("phantom_blocks_used"@, "Current allocated blocks"@, "gauge"@, used as nat)
        + metric("phantom_blocks_total"@, "Total slab capacity"@, "gauge"@, total as nat)
}

/// Appends one metric.
fn push_metric(out: &mut String, name: &str, help: &str, kind: &str, value: u64)
    ensures
        final(out)@ == old(out)@ + metric(name@, help@, kind@, value as nat),
{
    out.append("# HELP ");
    out.append(name);
    out.append(" ");
    out.append(help);
    out.append("\n# TYPE ");
    out.append(name);
    out.append(" ");
    out.append(kind);
    out.append("\n");
    out.append(name);
    out.append(" ");
    push_decimal(out, value);
    out.append("\n");
    assert(out@ =~= old(out)@ + metric(name@, help@, kind@, value as nat));
}

/// Writes the metrics down.
pub fn metrics_text(counters: Counters, used: usize, total: usize) -> (text: String)
    ensures
        text@ == metrics(counters, used, total),
{
    let mut text = String::new();
    push_metric(
        &mut text,
        "phantom_cache_hits_total",
        "Total cache hits",
        "counter",
        counters.hits,
    );
    push_metric(
        &mut text,
        "phantom_cache_misses_total",
        "Total cache misses",
        "counter",
        counters.misses,
    );
    push_metric(
        &mut text,
        "phantom_blocks_used",
        "Current allocated blocks",
        "gauge",
        used as u64,
    );
    push_metric(
        &mut text,
        "phantom_blocks_total",
        "Total slab capacity",
        "gauge",
        total as u64,
    );
    assert(text@ =~= metrics(counters, used, total));
    text
}

/// The digit that a character stands for.
pub open spec fn digit_value(c: char) -> int {
    c as int - '0' as int
}

/// The number that a row of decimal digits stands for.
pub open spec fn value(text: Seq<char>) -> int
    decreases text.len(),
{
    if text.len() == 0 {
        0
    } else {
        10 * value(text.drop_last()) + digit_value(text.last())
    }
}

/// A number in decimal is written with the digits from zero to nine, without a zero in
/// front unless it is zero, and stands for that number. So no two numbers are written
/// alike.
pub proof fn law_decimal(n: nat)
    ensures
        value(decimal(n)) == n,
        decimal(n).len() > 0,
        forall|i: int| 0 <= i < decimal(n).len() ==> '0' <= #[trigger] decimal(n)[i] <= '9',
        n > 0 ==> decimal(n)[0] != '0',
    decreases n,
{
    reveal_with_fuel(value, 2);
    if n < 10 {
        assert(decimal(n).drop_last() =~= Seq::empty());
        assert(digit_value(digit(n)) == n);
    } else {
        law_decimal(n / 10);
        let front = decimal(n / 10);
        assert(decimal(n).drop_last() =~= front);
        assert(digit_value(digit(n % 10)) == n % 10);
    }
}

/// Which requests make sense: those with at least one token, in whole blocks, and with
/// `stride` bytes for each token, of which there is at least one. Of the others each
/// gets the first complaint that applies: about its tokens, about data that is missing,
/// about data that cannot be shared out among the blocks, or about its size.
pub proof fn law_complaint(b: nat, stride: nat, tokens: nat, bytes: nat)
    requires
        0 < b,
    ensures
        ({
            let why = complaint(b, stride, tokens, bytes);
            if tokens == 0 || tokens % b != 0 {
                why == Some("tokens.len() must be a non-zero multiple of "@ + decimal(b))
            } else if bytes == 0 {
                why == Some("kv_data must not be empty"@)
            } else if bytes == tokens * stride {
                why is None
            } else {
                &&& bytes % (tokens / b) != 0 ==> why == Some(
                    "kv_data.len() must be divisible by n_blocks"@,
                )
                &&& bytes % (tokens / b) == 0 ==> why == Some("kv_data block size mismatch"@)
            }
        }),
{
    if tokens % b == 0 {
        let n = tokens / b;
        tokens::lemma_whole(tokens, b);
        assert(n * b * stride == tokens * stride);
        if tokens > 0 && bytes == tokens * stride {
            let width = b * stride;
            assert(bytes == width * n) by (nonlinear_arith)
                requires
                    bytes == tokens * stride,
                    tokens == n * b,
                    width == b * stride,
            ;
            vstd::arithmetic::div_mod::lemma_mod_multiples_basic(width as int, n as int);
        }
        if tokens == 0 {
            assert(0nat / b == 0) by (nonlinear_arith)
                requires
                    0 < b,
            ;
        }
    } else if tokens == 0 {
        assert(0nat % b == 0) by (nonlinear_arith)
            requires
                0 < b,
        ;
    }
}

/// What a failure is answered with: that the storage is full exactly if the cache ran
/// out of blocks, that the request is bad exactly if the cache found the size of the
/// data wrong, and an internal error in every other case, among them every failure to
/// renew an artifact.
pub proof fn law_status(e: SchedulerError)
    ensures
        ({
            let error = ApiErrorView::of(e);
            let full = e == SchedulerError::Coherence(
                CoherenceError::KvError(CacheError::OutOfBlocks),
            );
            let wrong = e == SchedulerError::Coherence(
                CoherenceError::KvError(CacheError::DataSizeMismatch),
            );
            &&& full ==> error.status() == 507 && error.message() == "slab full"@
            &&& wrong ==> error.status() == 400 && error.message()
                == "kv_data block size mismatch"@
            &&& !full && !wrong ==> error.status() == 500 && error.message() == "internal error"@
        }),
{
}

/// A request that makes no sense is answered as bad, with the complaint.
pub proof fn law_bad_request(why: Seq<char>)
    ensures
        ApiErrorView::BadRequest(why).status() == 400,
        ApiErrorView::BadRequest(why).message() == why,
{
}

/// The numbers of blocks are given as they are, in their order.
pub proof fn law_block_numbers(blocks: Seq<BlockId>)
    ensures
        block_numbers(blocks).len() == blocks.len(),
        forall|i: int| 0 <= i < blocks.len() ==> #[trigger] block_numbers(blocks)[i] == blocks[i].0,
{
}

/// Counting goes up by one, and from the highest count to zero.
pub proof fn law_counted(n: u64)
    ensures
        n < u64::MAX ==> counted(n) == n + 1,
        n == u64::MAX ==> counted(n) == 0,
{
}

/// The metrics as they are read: the hits and the misses that were counted, the blocks in
/// use, and all blocks, in this order, each with a line that says what it is, a line that
/// says of what kind, and a line with its number.
pub proof fn law_metrics(counters: Counters, used: usize, total: usize)
    ensures
        metrics(counters, used, total)
            == "# HELP phantom_cache_hits_total Total cache hits\n# TYPE phantom_cache_hits_total counter\nphantom_cache_hits_total "@
            + decimal(counters.hits as nat)
            + "\n# HELP phantom_cache_misses_total Total cache misses\n# TYPE phantom_cache_misses_total counter\nphantom_cache_misses_total "@
            + decimal(counters.misses as nat)
            + "\n# HELP phantom_blocks_used Current allocated blocks\n# TYPE phantom_blocks_used gauge\nphantom_blocks_used "@
            + decimal(used as nat)
            + "\n# HELP phantom_blocks_total Total slab capacity\n# TYPE phantom_blocks_total gauge\nphantom_blocks_total "@
            + decimal(total as nat) + "\n"@,
{
    lemma_hits_heading();
    lemma_misses_heading();
    lemma_used_heading();
    lemma_total_heading();
    let hits = heading("phantom_cache_hits_total"@, "Total cache hits"@, "counter"@);
    let misses = heading("phantom_cache_misses_total"@, "Total cache misses"@, "counter"@);
    let busy = heading("phantom_blocks_used"@, "Current allocated blocks"@, "gauge"@);
    let all = heading("phantom_blocks_total"@, "Total slab capacity"@, "gauge"@);
    assert(metrics(counters, used, total) =~= hits + decimal(counters.hits as nat) + ("\n"@
        + misses) + decimal(counters.misses as nat) + ("\n"@ + busy) + decimal(used as nat) + (
    "\n"@ + all) + decimal(total as nat) + "\n"@);
}

/// What stands before the number of a metric.
spec fn heading(name: Seq<char>, help: Seq<char>, kind: Seq<char>) -> Seq<char> {
    "# HELP "@ + name + " "@ + help + "\n# TYPE "@ + name + " "@ + kind + "\n"@ + name + " "@
}

/// What stands before the number of the hits.
proof fn lemma_hits_heading()
    ensures
        heading("phantom_cache_hits_total"@, "Total cache hits"@, "counter"@)
            == "# HELP phantom_cache_hits_total Total cache hits\n# TYPE phantom_cache_hits_total counter\nphantom_cache_hits_total "@,
{
    reveal_strlit("# HELP ");
    reveal_strlit(" ");
    reveal_strlit("\n# TYPE ");
    reveal_strlit("\n");
    reveal_strlit("phantom_cache_hits_total");
    reveal_strlit("Total cache hits");
    reveal_strlit("counter");
    reveal_strlit(
        "# HELP phantom_cache_hits_total Total cache hits\n# TYPE phantom_cache_hits_total counter\nphantom_cache_hits_total ",
    );
}

/// What stands before the number of the misses.
proof fn lemma_misses_heading()
    ensures
        "\n"@ + heading("phantom_cache_misses_total"@, "Total cache misses"@, "counter"@)
            == "\n# HELP phantom_cache_misses_total Total cache misses\n# TYPE phantom_cache_misses_total counter\nphantom_cache_misses_total "@,
{
    reveal_strlit("# HELP ");
    reveal_strlit(" ");
    reveal_strlit("\n# TYPE ");
    reveal_strlit("\n");
    reveal_strlit("phantom_cache_misses_total");
    reveal_strlit("Total cache misses");
    reveal_strlit("counter");
    reveal_strlit(
        "\n# HELP phantom_cache_misses_total Total cache misses\n# TYPE phantom_cache_misses_total counter\nphantom_cache_misses_total ",
    );
}

/// What stands before the number of blocks in use.
proof fn lemma_used_heading()
    ensures
        "\n"@ + heading("phantom_blocks_used"@, "Current allocated blocks"@, "gauge"@)
            == "\n# HELP phantom_blocks_used Current allocated blocks\n# TYPE phantom_blocks_used gauge\nphantom_blocks_used "@,
{
    reveal_strlit("# HELP ");
    reveal_strlit(" ");
    reveal_strlit("\n# TYPE ");
    reveal_strlit("\n");
    reveal_strlit("phantom_blocks_used");
    reveal_strlit("Current allocated blocks");
    reveal_strlit("gauge");
    reveal_strlit(
        "\n# HELP phantom_blocks_used Current allocated blocks\n# TYPE phantom_blocks_used gauge\nphantom_blocks_used ",
    );
}

/// What stands before the number of all blocks.
proof fn lemma_total_heading()
    ensures
        "\n"@ + heading("phantom_blocks_total"@, "Total slab capacity"@, "gauge"@)
            == "\n# HELP phantom_blocks_total Total slab capacity\n# TYPE phantom_blocks_total gauge\nphantom_blocks_total "@,
{
    reveal_strlit("# HELP ");
    reveal_strlit(" ");
    reveal_strlit("\n# TYPE ");
    reveal_strlit("\n");
    reveal_strlit("phantom_blocks_total");
    reveal_strlit("Total slab capacity");
    reveal_strlit("gauge");
    reveal_strlit(
        "\n# HELP phantom_blocks_total Total slab capacity\n# TYPE phantom_blocks_total gauge\nphantom_blocks_total ",
    );
}

} // verus!
