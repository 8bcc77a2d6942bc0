//! The origin: it counts what it is asked for and answers with runs of the letter a.
use bytes::Bytes;
use vstd::arithmetic::div_mod::{lemma_basic_div, lemma_div_plus_one};
use vstd::hash_map::StringHashMap;
use vstd::prelude::*;

use crate::cache::{bytes_from, content};
use crate::telemetry::wrap_u64;

verus! {

/// How the origin answers.
#[derive(Clone, Copy, Debug)]
pub struct OriginConfig {
    /// The size of an object where the request does not say.
    pub default_size: usize,
    /// The size of the pieces in which an object is sent.
    pub chunk_size: usize,
    /// The pause before each piece, in milliseconds.
    pub delay_ms: u64,
    /// The status with which every object request fails.
    pub error_status: Option<u16>,
}

impl Default for OriginConfig {
    fn default() -> (r: Self)
        ensures
            r.default_size == 64 * 1024,
            r.chunk_size == 8 * 1024,
            r.delay_ms == 0,
            r.error_status is None,
    {
        OriginConfig {
            default_size: 64 * 1024,
            chunk_size: 8 * 1024,
            delay_ms: 0,
            error_status: None,
        }
    }
}

// ---------------------------------------------------------------------------
// Counting
// ---------------------------------------------------------------------------
/// What the origin has counted.
pub struct OriginView {
    pub hits: Map<Seq<char>, u64>,
    pub total: u64,
}

impl OriginView {
    /// Nothing was asked for.
    pub open spec fn fresh() -> OriginView {
        OriginView { hits: Map::empty(), total: 0 }
    }

    /// How often a path was asked for.
    pub open spec fn hits_of(self, path: Seq<char>) -> u64 {
        if self.hits.contains_key(path) {
            self.hits[path]
        } else {
            0
        }
    }

    /// What holds of the counts at all times: the total is the sum over the paths, modulo two to
    /// the power of 64.
    pub open spec fn valid(self) -> bool {
        self.hits.dom().finite() && self.total == wrap_u64(sum_hits(self.hits))
    }

    /// The counts after one more request. The total wraps around at the end of its range.
    pub open spec fn after_record(self, path: Seq<char>) -> OriginView {
        OriginView {
            hits: self.hits.insert(path, (self.hits_of(path) + 1) as u64),
            total: if self.total == u64::MAX {
                0
            } else {
                (self.total + 1) as u64
            },
        }
    }
}

/// The sum of the counts of all paths.
pub open spec fn sum_hits(hits: Map<Seq<char>, u64>) -> int
    decreases hits.dom().len(),
    when hits.dom().finite()
{
    if hits.dom().len() == 0 {
        0
    } else {
        let path = hits.dom().choose();
        hits[path] + sum_hits(hits.remove(path))
    }
}

/// The sum is that of one path and of the others.
proof fn lemma_sum_remove(hits: Map<Seq<char>, u64>, path: Seq<char>)
    requires
        hits.dom().finite(),
        hits.contains_key(path),
    ensures
        sum_hits(hits) == hits[path] + sum_hits(hits.remove(path)),
    decreases hits.dom().len(),
{
    let first = hits.dom().choose();
    assert(hits.dom().contains(first));
    if first != path {
        assert(hits.remove(first).dom() == hits.dom().remove(first));
        assert(hits.remove(path).dom() == hits.dom().remove(path));
        lemma_sum_remove(hits.remove(first), path);
        lemma_sum_remove(hits.remove(path), first);
        assert(hits.remove(first).remove(path) == hits.remove(path).remove(first));
    }
}

proof fn lemma_sum_insert(hits: Map<Seq<char>, u64>, path: Seq<char>, n: u64)
    requires
        hits.dom().finite(),
    ensures
        hits.insert(path, n).dom().finite(),
        sum_hits(hits.insert(path, n)) == sum_hits(hits) - (if hits.contains_key(path) {
            hits[path] as int
        } else {
            0
        }) + n,
{
    let after = hits.insert(path, n);
    assert(after.dom() == hits.dom().insert(path));
    lemma_sum_remove(after, path);
    if hits.contains_key(path) {
        lemma_sum_remove(hits, path);
        assert(after.remove(path) == hits.remove(path));
    } else {
        assert(after.remove(path) == hits);
    }
}

/// The total is the sum over the paths, from the first request on and after every further one.
pub proof fn law_total_is_the_sum(counts: OriginView, path: Seq<char>)
    requires
        counts.valid(),
        counts.hits_of(path) < u64::MAX,
    ensures
        OriginView::fresh().valid(),
        counts.after_record(path).valid(),
{
    assert(OriginView::fresh().hits.dom().len() == 0);
    lemma_sum_insert(counts.hits, path, (counts.hits_of(path) + 1) as u64);
}

/// Totals, as they are published.
#[derive(Clone, Copy, Debug, PartialEq, Eq, Structural)]
pub struct OriginStats {
    pub total_hits: u64,
}

/// The counters of the origin.
pub struct OriginHandle {
    counts: StringHashMap<u64>,
    total: u64,
}

impl View for OriginHandle {
    type V = OriginView;

    closed spec fn view(&self) -> OriginView {
        OriginView { hits: self.counts@, total: self.total }
    }
}

impl Default for OriginHandle {
    fn default() -> (r: Self)
        ensures
            r@ == OriginView::fresh(),
            r@.valid(),
    {
        OriginHandle::new()
    }
}

impl OriginHandle {
    /// Counters at zero.
    pub fn new() -> (r: Self)
        ensures
            r@ == OriginView::fresh(),
            r@.valid(),
    {
        assert(OriginView::fresh().hits.dom().len() == 0);
        OriginHandle { counts: StringHashMap::new(), total: 0 }
    }

    /// Counts a request for a path.
    pub fn record(&mut self, path: &str)
        requires
            old(self)@.hits_of(path@) < u64::MAX,
        ensures
            final(self)@ == old(self)@.after_record(path@),
            old(self)@.valid() ==> final(self)@.valid(),
    {
        proof {
            if self@.valid() {
                law_total_is_the_sum(self@, path@);
            }
        }
        self.total = self.total.wrapping_add(1);
        let n: u64 = self.path_hits(path);
        self.counts.insert(path.to_owned(), n + 1);
    }

    /// How often a path was asked for.
    pub fn path_hits(&self, path: &str) -> (n: u64)
        ensures
            n == self@.hits_of(path@),
    {
        match self.counts.get(path) {
            Some(n) => *n,
            None => 0,
        }
    }

    /// How many requests there were.
    pub fn total_hits(&self) -> (n: u64)
        ensures
            n == self@.total,
    {
        self.total
    }

    /// The totals.
    pub fn stats(&self) -> (r: OriginStats)
        ensures
            r.total_hits == self@.total,
    {
        OriginStats { total_hits: self.total_hits() }
    }
}

// ---------------------------------------------------------------------------
// Answering
// ---------------------------------------------------------------------------
/// The state of an answer under way.
pub struct ChunkView {
    pub remaining: nat,
    pub chunk_size: nat,
    pub delay_ms: u64,
    pub waiting: bool,
}

impl ChunkView {
    /// The size of the next piece.
    pub open spec fn next_size(self) -> nat {
        if self.remaining < self.chunk_size {
            self.remaining
        } else {
            self.chunk_size
        }
    }

    /// The answer after its next piece was sent.
    pub open spec fn after_chunk(self) -> ChunkView {
        let left = (self.remaining - self.next_size()) as nat;
        ChunkView { remaining: left, waiting: self.delay_ms > 0 && left > 0, ..self }
    }

    /// What comes next: nothing more where all bytes are sent, else the pause that is due, else
    /// the next piece.
    pub open spec fn next_step(self) -> StepView {
        if self.remaining == 0 {
            StepView::Done
        } else if self.waiting {
            StepView::Sleep(self.delay_ms)
        } else {
            StepView::Chunk(letters(self.next_size()))
        }
    }

    /// The answer after what comes next. Only sending a piece changes it.
    pub open spec fn after_step(self) -> ChunkView {
        if self.next_step() is Chunk {
            self.after_chunk()
        } else {
            self
        }
    }

    /// The answer after its pause is over.
    pub open spec fn woken(self) -> ChunkView {
        ChunkView { waiting: false, ..self }
    }
}

/// A run of the letter a.
pub open spec fn letters(n: nat) -> Seq<u8> {
    Seq::new(n, |i: int| 97u8)
}

/// What to do next with an answer.
pub enum StepView {
    Done,
    Sleep(u64),
    Chunk(Seq<u8>),
}

/// What to do next with an answer.
pub enum ChunkStep {
    /// It is complete.
    Done,
    /// Pause for so many milliseconds, then say so.
    Sleep(u64),
    /// Send this piece.
    Chunk(Bytes),
}

impl View for ChunkStep {
    type V = StepView;

    open spec fn view(&self) -> StepView {
        match self {
            ChunkStep::Done => StepView::Done,
            ChunkStep::Sleep(ms) => StepView::Sleep(*ms),
            ChunkStep::Chunk(piece) => StepView::Chunk(content(*piece)),
        }
    }
}

/// An answer that is sent in pieces.
pub struct ChunkStream {
    remaining: usize,
    chunk_size: usize,
    delay_ms: u64,
    waiting: bool,
}

impl View for ChunkStream {
    type V = ChunkView;

    closed spec fn view(&self) -> ChunkView {
        ChunkView {
            remaining: self.remaining as nat,
            chunk_size: self.chunk_size as nat,
            delay_ms: self.delay_ms,
            waiting: self.waiting,
        }
    }
}

impl ChunkStream {
    /// An answer of `size` bytes. Pieces are never empty.
    pub fn new(size: usize, chunk_size: usize, delay_ms: u64) -> (r: Self)
        ensures
            r@ == (ChunkView {
                remaining: size as nat,
                chunk_size: if chunk_size == 0 {
                    1
                } else {
                    chunk_size as nat
                },
                delay_ms,
                waiting: delay_ms > 0,
            }),
    {
        ChunkStream {
            remaining: size,
            chunk_size: if chunk_size == 0 {
                1
            } else {
                chunk_size
            },
            delay_ms,
            waiting: delay_ms > 0,
        }
    }

    /// What comes next: nothing more where all bytes are sent, else the pause that is due, else
    /// the next piece. A piece fits into memory.
    pub fn poll_next(&mut self) -> (r: ChunkStep)
        requires
            old(self)@.next_size() <= isize::MAX,
        ensures
            r@ == old(self)@.next_step(),
            final(self)@ == old(self)@.after_step(),
    {
        if self.remaining == 0 {
            return ChunkStep::Done;
        }
        if self.waiting {
            return ChunkStep::Sleep(self.delay_ms);
        }
        let n: usize = if self.remaining < self.chunk_size {
            self.remaining
        } else {
            self.chunk_size
        };
        self.remaining = self.remaining - n;
        self.waiting = self.delay_ms > 0 && self.remaining > 0;
        let run: Vec<u8> = vec![97u8; n];
        assert(run@ == letters(n as nat));
        ChunkStep::Chunk(bytes_from(run))
    }

    /// The pause is over.
    pub fn wake(&mut self)
        ensures
            final(self)@ == old(self)@.woken(),
    {
        self.waiting = false;
    }
}

/// `axum::http::StatusCode::from_u16`: a status has three digits, the first of them not zero.
#[verifier::external_body]
fn is_status(code: u16) -> (r: bool)
    ensures
        r == (100 <= code <= 999),
{
    axum::http::StatusCode::from_u16(code).is_ok()
}

/// How an object request is answered.
pub enum ObjectPlan {
    /// With an error.
    Failure { status: u16, body: String },
    /// With an object.
    Stream { status: u16, content_type: String, chunks: ChunkStream },
}

/// Counts an object request and says how it is answered: with the error that the origin is set
/// to (500 where it is no status), else with an object of the size that is asked for.
pub fn plan_object(
    config: &OriginConfig,
    handle: &mut OriginHandle,
    path: &str,
    size: Option<usize>,
) -> (r: ObjectPlan)
    requires
        old(handle)@.hits_of(path@) < u64::MAX,
    ensures
        final(handle)@ == old(handle)@.after_record(path@),
        old(handle)@.valid() ==> final(handle)@.valid(),
        config.error_status matches Some(code) ==> (r matches ObjectPlan::Failure { status, body }
            && status == (if 100 <= code <= 999 {
            code
        } else {
            500
        }) && body@ == "origin error"@),
        config.error_status is None ==> (r matches ObjectPlan::Stream {
            status,
            content_type,
            chunks,
        } && status == 200 && content_type@ == "application/octet-stream"@ && chunks@ == (
        ChunkView {
            remaining: (match size {
                Some(n) => n,
                None => config.default_size,
            }) as nat,
            chunk_size: if config.chunk_size == 0 {
                1
            } else {
                config.chunk_size as nat
            },
            delay_ms: config.delay_ms,
            waiting: config.delay_ms > 0,
        })),
{
    handle.record(path);
    if let Some(code) = config.error_status {
        return ObjectPlan::Failure {
            status: if is_status(code) {
                code
            } else {
                500
            },
            body: "origin error".to_owned(),
        };
    }
    let n: usize = match size {
        Some(n) => n,
        None => config.default_size,
    };
    ObjectPlan::Stream {
        status: 200,
        content_type: "application/octet-stream".to_owned(),
        chunks: ChunkStream::new(n, config.chunk_size, config.delay_ms),
    }
}

// ---------------------------------------------------------------------------
// Laws
// ---------------------------------------------------------------------------
/// The counts after requests for some paths.
pub open spec fn recorded(paths: Seq<Seq<char>>) -> OriginView
    decreases paths.len(),
{
    if paths.len() == 0 {
        OriginView::fresh()
    } else {
        recorded(paths.drop_last()).after_record(paths.last())
    }
}

/// How often a path occurs.
pub open spec fn occurrences(paths: Seq<Seq<char>>, path: Seq<char>) -> nat
    decreases paths.len(),
{
    if paths.len() == 0 {
        0
    } else {
        occurrences(paths.drop_last(), path) + if paths.last() == path {
            1nat
        } else {
            0nat
        }
    }
}

/// The origin counts exactly: after some requests the count of a path is the number of requests
/// for it, and the total is the number of requests.
pub proof fn law_counts_are_exact(paths: Seq<Seq<char>>, path: Seq<char>)
    requires
        paths.len() <= u64::MAX,
    ensures
        recorded(paths).hits_of(path) == occurrences(paths, path),
        recorded(paths).total == paths.len(),
        occurrences(paths, path) <= paths.len(),
    decreases paths.len(),
{
    if paths.len() > 0 {
        law_counts_are_exact(paths.drop_last(), path);
        law_counts_are_exact(paths.drop_last(), paths.last());
    }
}

/// The sizes of the pieces of an answer.
pub open spec fn pieces(c: ChunkView) -> Seq<nat>
    recommends
        c.chunk_size > 0,
    decreases c.remaining,
    when c.chunk_size > 0
{
    if c.remaining == 0 {
        Seq::empty()
    } else {
        seq![c.next_size()] + pieces(c.after_chunk())
    }
}

/// The sum of some sizes.
pub open spec fn sum(sizes: Seq<nat>) -> nat
    decreases sizes.len(),
{
    if sizes.len() == 0 {
        0
    } else {
        sizes.first() + sum(sizes.drop_first())
    }
}

/// An answer is as long as was asked for: its pieces add up to its size, none is empty, every one
/// but the last is as large as a piece may be and the last no larger, and so there are as many as
/// the size divided by that of a piece, rounded up.
pub proof fn law_pieces_add_up(c: ChunkView)
    requires
        c.chunk_size > 0,
    ensures
        sum(pieces(c)) == c.remaining,
        forall|i: int|
            0 <= i < pieces(c).len() ==> 0 < #[trigger] pieces(c)[i] <= c.chunk_size,
        forall|i: int|
            0 <= i < pieces(c).len() - 1 ==> #[trigger] pieces(c)[i] == c.chunk_size,
        pieces(c).len() == (c.remaining + c.chunk_size - 1) / (c.chunk_size as int),
    decreases c.remaining,
{
    let k = c.chunk_size as int;
    if c.remaining == 0 {
        lemma_basic_div(k - 1, k);
    }
    if c.remaining > 0 {
        lemma_div_plus_one(c.remaining - 1, k);
        if c.remaining <= k {
            lemma_basic_div(c.remaining - 1, k);
            lemma_basic_div(k - 1, k);
        }
        let d = c.after_chunk();
        law_pieces_add_up(d);
        let rest = pieces(d);
        assert(pieces(c) == seq![c.next_size()] + rest);
        assert(pieces(c).drop_first() == rest);
        assert forall|i: int| 0 <= i < pieces(c).len() - 1 implies #[trigger] pieces(c)[i]
            == c.chunk_size by {
            if i > 0 {
                assert(pieces(c)[i] == rest[i - 1]);
            } else {
                assert(rest.len() > 0);
                assert(d.remaining > 0);
            }
        }
        assert forall|i: int| 0 <= i < pieces(c).len() implies 0 < #[trigger] pieces(c)[i]
            <= c.chunk_size by {
            if i > 0 {
                assert(pieces(c)[i] == rest[i - 1]);
            }
        }
    }
}

/// What an answer consists of from first to last: its pauses and its pieces.
pub open spec fn course(c: ChunkView) -> Seq<StepView>
    recommends
        c.chunk_size > 0,
    decreases
            c.remaining,
            if c.waiting {
                1int
            } else {
                0
            },
    when c.chunk_size > 0
{
    if c.next_step() is Done {
        Seq::empty()
    } else if c.next_step() is Sleep {
        seq![c.next_step()] + course(c.woken())
    } else {
        seq![c.next_step()] + course(c.after_step())
    }
}

/// Whether the `i`-th piece of an answer comes behind a pause of its own.
pub open spec fn behind_a_pause(c: ChunkView, i: int) -> bool {
    &&& course(c)[2 * i] == StepView::Sleep(c.delay_ms)
    &&& course(c)[2 * i + 1] == StepView::Chunk(letters(pieces(c)[i]))
}

/// An answer is its pieces, each of them a run of the letter a: one after the other where the
/// origin is not set to pause, and each of them, the first too, behind a pause of its own where it
/// is.
pub proof fn law_course_of_an_answer(c: ChunkView)
    requires
        c.chunk_size > 0,
        c.remaining > 0 ==> (c.waiting <==> c.delay_ms > 0),
    ensures
        c.delay_ms == 0 ==> course(c).len() == pieces(c).len() && forall|i: int|
            0 <= i < pieces(c).len() ==> #[trigger] course(c)[i] == StepView::Chunk(
                letters(pieces(c)[i]),
            ),
        c.delay_ms > 0 ==> course(c).len() == 2 * pieces(c).len() && forall|i: int|
            0 <= i < pieces(c).len() ==> #[trigger] behind_a_pause(c, i),
    decreases c.remaining,
{
    if c.remaining > 0 {
        let sent = c.woken().after_step();
        assert(c.woken().after_chunk() == c.after_chunk());
        assert(sent == c.after_chunk());
        law_course_of_an_answer(sent);
        assert(pieces(c) == seq![c.next_size()] + pieces(sent));
        if c.delay_ms > 0 {
            assert(course(c) == seq![c.next_step()] + course(c.woken()));
            assert(course(c.woken()) == seq![c.woken().next_step()] + course(sent));
            assert(course(c).len() == 2 * pieces(c).len());
            assert forall|i: int| 0 <= i < pieces(c).len() implies #[trigger] behind_a_pause(
                c,
                i,
            ) by {
                if i > 0 {
                    assert(behind_a_pause(sent, i - 1));
                    assert(pieces(c)[i] == pieces(sent)[i - 1]);
                    assert(course(c)[2 * i] == course(sent)[2 * (i - 1)]);
                    assert(course(c)[2 * i + 1] == course(sent)[2 * (i - 1) + 1]);
                }
            }
        } else {
            assert(c.woken() == c);
            assert(course(c) == seq![c.next_step()] + course(sent));
        }
    }
}

/// What is complete stays complete, and a pause leaves as much to send as there was.
pub proof fn law_only_pieces_change_an_answer(c: ChunkView)
    ensures
        c.next_step() is Done ==> c.after_step() == c && c.after_step().next_step() is Done,
        c.next_step() is Sleep ==> c.after_step() == c,
        c.woken().remaining == c.remaining,
{
}

/// A request counts once for its path and once in all, whatever was counted before, and for no
/// other path; the total starts again at zero where it can go no further.
pub proof fn law_what_a_request_counts(counts: OriginView, path: Seq<char>, other: Seq<char>)
    requires
        counts.hits_of(path) < u64::MAX,
    ensures
        counts.after_record(path).hits_of(path) == counts.hits_of(path) + 1,
        other != path ==> counts.after_record(path).hits_of(other) == counts.hits_of(other),
        counts.total < u64::MAX ==> counts.after_record(path).total == counts.total + 1,
        counts.total == u64::MAX ==> counts.after_record(path).total == 0,
        counts.hits_of(other) == (if counts.hits.contains_key(other) {
            counts.hits[other]
        } else {
            0
        }),
        OriginView::fresh().hits_of(other) == 0,
        OriginView::fresh().total == 0,
{
}

/// The counts of all paths add up path by path.
pub proof fn law_counts_add_up(hits: Map<Seq<char>, u64>, path: Seq<char>, n: u64)
    requires
        hits.dom().finite(),
        !hits.contains_key(path),
    ensures
        sum_hits(Map::<Seq<char>, u64>::empty()) == 0,
        sum_hits(hits.insert(path, n)) == sum_hits(hits) + n,
{
    assert(Map::<Seq<char>, u64>::empty().dom().len() == 0);
    lemma_sum_insert(hits, path, n);
}

/// What comes next of an answer: nothing where all of it is sent; else the pause, where one is due;
/// else a run of the letter a, as long as a piece may be, or as what is left where that is less. A
/// piece is sent once, and a pause is due behind it where the origin is set to pause and something
/// is left.
pub proof fn law_what_comes_next(c: ChunkView, i: int)
    ensures
        c.next_step() is Done <==> c.remaining == 0,
        c.remaining > 0 && c.waiting ==> c.next_step() == StepView::Sleep(c.delay_ms),
        c.remaining > 0 && !c.waiting ==> (c.next_step() matches StepView::Chunk(piece) && {
            let after = c.after_step();
            &&& piece.len() <= c.chunk_size && piece.len() <= c.remaining
            &&& piece.len() == c.chunk_size || piece.len() == c.remaining
            &&& 0 <= i < piece.len() ==> piece[i] == 'a' as u8
            &&& after.remaining == c.remaining - piece.len()
            &&& after.waiting <==> c.delay_ms > 0 && after.remaining > 0
            &&& after.chunk_size == c.chunk_size
            &&& after.delay_ms == c.delay_ms
        }),
        c.remaining == 0 || c.waiting ==> c.after_step() == c,
        !c.woken().waiting,
        c.woken().remaining == c.remaining,
        c.woken().chunk_size == c.chunk_size,
        c.woken().delay_ms == c.delay_ms,
{
}

/// A run of the letter a is as long as it should be, and has no other letter.
pub proof fn law_what_a_run_of_letters_is(n: nat, i: int)
    ensures
        letters(n).len() == n,
        0 <= i < n ==> letters(n)[i] == 'a' as u8,
{
}

/// A step is told as it is.
pub proof fn law_what_a_step_is(step: ChunkStep)
    ensures
        step is Done <==> step@ is Done,
        step matches ChunkStep::Sleep(ms) ==> step@ == StepView::Sleep(ms),
        step matches ChunkStep::Chunk(piece) ==> step@ == StepView::Chunk(content(piece)),
{
}

/// The counts of the origin are in order exactly if there are finitely many paths and the total
/// differs from the sum over them by a multiple of two to the power of 64.
pub proof fn law_when_counts_are_in_order(counts: OriginView)
    ensures
        counts.valid() <==> counts.hits.dom().finite() && (sum_hits(counts.hits) - counts.total)
            % 0x1_0000_0000_0000_0000 == 0,
{
}

} // verus!
