//! The choice of which differences to settle from disk.
//!
//! A choice waits until Studio's user answers it for everything, or sends the
//! ids of the differences in numbered chunks. Every chunk leaves a receipt, so
//! that a repeated request is answered as the first one was.
use vstd::prelude::*;
use vstd::utf8::*;

use crate::disk_index;
use crate::fs_safety::TreeGeneration;
use crate::initial_sync::{Choice, InitialChoiceItem, InitialChoiceSummary, Stats};
use crate::text::{chars_of, owned, same};
use crate::timed_store;
use crate::timed_store::{elapsed_since, TimedStore};

verus! {

pub const INITIAL_SELECTION_MAX_IDS: usize = 2048;

pub const INITIAL_SELECTION_ID_MAX_BYTES: usize = 256;

pub const INITIAL_SELECTION_TTL_MS: u64 = 300_000;

pub const INITIAL_SELECTION_REPLAY_TTL_MS: u64 = 300_000;

pub const INITIAL_SELECTION_REPLAY_LIMIT: usize = 64;

/// The answer to one chunk of ids.
#[derive(Debug)]
pub struct InitialSelectionReceipt {
    pub chunk_index: u32,
    pub final_chunk: bool,
    pub restart: bool,
    pub ids: Vec<u32>,
    pub selected_count: usize,
    pub committed: bool,
}

/// A selection that is still being sent.
#[derive(Debug)]
pub struct InitialSelectionAccumulator {
    pub submission_id: String,
    pub next_chunk: u32,
    /// The ids so far, in ascending order.
    pub selected_ids: Vec<u32>,
    pub receipts: Vec<InitialSelectionReceipt>,
    pub updated_at: u64,
}

/// A choice that waits for an answer.
#[derive(Debug)]
pub struct PendingInitial {
    pub choice_id: String,
    pub disk_stats: Stats,
    pub studio_stats: Stats,
    pub choice: Option<Choice>,
    pub service_generations: Vec<TreeGeneration>,
    /// The differences by path; the id of each is its place.
    pub details: Vec<InitialChoiceItem>,
    pub summary: InitialChoiceSummary,
    /// The chosen subset, where not everything was chosen.
    pub selected_disk_paths: Option<Vec<String>>,
    pub selection: Option<InitialSelectionAccumulator>,
}

pub open spec fn ascending(s: Seq<u32>) -> bool {
    forall|i: int, j: int| 0 <= i < j < s.len() ==> #[trigger] s[i] < #[trigger] s[j]
}

impl InitialSelectionAccumulator {
    pub open spec fn wf(&self) -> bool {
        &&& ascending(self.selected_ids@)
        &&& self.next_chunk == self.receipts@.len()
        &&& forall|k: int|
            0 <= k < self.receipts@.len() ==> (#[trigger] self.receipts@[k]).chunk_index == k
    }
}

impl PendingInitial {
    /// Every selected id is the place of a difference.
    pub open spec fn wf(&self) -> bool {
        self.selection matches Some(s) ==> s.wf() && forall|k: int|
            0 <= k < s.selected_ids@.len() ==> #[trigger] s.selected_ids@[k] < self.details@.len()
    }
}

/// Why a chunk of ids is refused.
#[derive(Debug, Clone, Copy, PartialEq, Eq, Structural)]
pub enum SelectionProblem {
    /// A token is empty, too long or holds a control character.
    BadToken,
    AbortWithChunk,
    UnknownOperation,
    MissingChunkIndex,
    MissingFinalChunk,
    ChunkIndexTooLarge,
    NoIds,
    TooManyIds,
    RestartLate,
    NoPending,
    Resolved,
    /// An id is that of no difference.
    UnknownId,
    /// The chunk holds an id twice.
    RepeatedId,
    /// Another selection has begun.
    OtherSelection,
    MustRestart,
    /// A repeated chunk differs from the one that was answered.
    ReceiptMismatch,
    OutOfOrder { wanted: u32, got: u32 },
    /// An earlier chunk holds the id.
    RepeatsEarlier,
    /// The selection was committed without this chunk.
    Committed,
    /// Another selection is to be aborted.
    OtherAbort,
}

pub open spec fn is_control(c: char) -> bool {
    c <= '\u{1f}' || ('\u{7f}' <= c && c <= '\u{9f}')
}

/// Whether a text may stand for a choice or a submission.
pub open spec fn is_token(s: Seq<char>) -> bool {
    &&& s.len() > 0
    &&& encode_utf8(s).len() <= INITIAL_SELECTION_ID_MAX_BYTES
    &&& forall|k: int| 0 <= k < s.len() ==> !is_control(#[trigger] s[k])
}

pub fn valid_initial_choice_token(value: &str) -> (r: bool)
    ensures
        r == is_token(value@),
{
    let chars = chars_of(value);
    if chars.len() == 0 || value.as_bytes().len() > INITIAL_SELECTION_ID_MAX_BYTES {
        return false;
    }
    let mut k: usize = 0;
    while k < chars.len()
        invariant
            k <= chars@.len(),
            chars@ == value@,
            forall|j: int| 0 <= j < k ==> !is_control(#[trigger] value@[j]),
        decreases chars@.len() - k,
    {
        let c = chars[k];
        if c <= '\u{1f}' || ('\u{7f}' <= c && c <= '\u{9f}') {
            assert(is_control(value@[k as int]));
            return false;
        }
        k += 1;
    }
    true
}

/// What a selection request asks for.
#[derive(Debug)]
pub enum SelectionRequest {
    Abort,
    Chunk(InitialSelectionReceipt),
}

/// What is wrong with the shape of a request.
pub open spec fn shape_problem(
    tokens: bool,
    op: Option<Seq<char>>,
    chunk_index: Option<u32>,
    final_chunk: Option<bool>,
    restart: bool,
    ids: Seq<u32>,
) -> Option<SelectionProblem> {
    if !tokens {
        Some(SelectionProblem::BadToken)
    } else if op == Some("abort"@) {
        if chunk_index is Some || final_chunk is Some || restart || ids.len() > 0 {
            Some(SelectionProblem::AbortWithChunk)
        } else {
            None
        }
    } else if op is Some {
        Some(SelectionProblem::UnknownOperation)
    } else if chunk_index is None {
        Some(SelectionProblem::MissingChunkIndex)
    } else if final_chunk is None {
        Some(SelectionProblem::MissingFinalChunk)
    } else if chunk_index == Some(u32::MAX) {
        Some(SelectionProblem::ChunkIndexTooLarge)
    } else if ids.len() == 0 {
        Some(SelectionProblem::NoIds)
    } else if ids.len() > INITIAL_SELECTION_MAX_IDS {
        Some(SelectionProblem::TooManyIds)
    } else if restart && chunk_index != Some(0u32) {
        Some(SelectionProblem::RestartLate)
    } else {
        None
    }
}

/// Reads a selection request.
pub fn selection_request(
    choice_id: &str,
    submission_id: &str,
    op: Option<&str>,
    chunk_index: Option<u32>,
    final_chunk: Option<bool>,
    restart: bool,
    ids: Vec<u32>,
) -> (r: Result<SelectionRequest, SelectionProblem>)
    ensures
        ({
            let problem = shape_problem(
                is_token(choice_id@) && is_token(submission_id@),
                match op {
                    Some(op) => Some(op@),
                    None => None,
                },
                chunk_index,
                final_chunk,
                restart,
                ids@,
            );
            match r {
                Err(p) => problem == Some(p),
                Ok(SelectionRequest::Abort) => problem is None && op is Some,
                Ok(SelectionRequest::Chunk(q)) => {
                    &&& problem is None && op is None
                    &&& Some(q.chunk_index) == chunk_index && Some(q.final_chunk) == final_chunk
                    &&& q.restart == restart && q.ids == ids
                    &&& q.selected_count == 0 && !q.committed
                    &&& q.chunk_index < u32::MAX
                },
            }
        }),
{
    if !valid_initial_choice_token(choice_id) || !valid_initial_choice_token(submission_id) {
        return Err(SelectionProblem::BadToken);
    }
    if let Some(op) = op {
        if !same(op, "abort") {
            return Err(SelectionProblem::UnknownOperation);
        }
        if chunk_index.is_some() || final_chunk.is_some() || restart || ids.len() > 0 {
            return Err(SelectionProblem::AbortWithChunk);
        }
        return Ok(SelectionRequest::Abort);
    }
    let chunk: u32 = match chunk_index {
        None => return Err(SelectionProblem::MissingChunkIndex),
        Some(chunk) => chunk,
    };
    let last = match final_chunk {
        None => return Err(SelectionProblem::MissingFinalChunk),
        Some(last) => last,
    };
    if chunk == u32::MAX {
        return Err(SelectionProblem::ChunkIndexTooLarge);
    }
    if ids.len() == 0 {
        return Err(SelectionProblem::NoIds);
    }
    if ids.len() > INITIAL_SELECTION_MAX_IDS {
        return Err(SelectionProblem::TooManyIds);
    }
    if restart && chunk != 0 {
        return Err(SelectionProblem::RestartLate);
    }
    Ok(
        SelectionRequest::Chunk(
            InitialSelectionReceipt {
                chunk_index: chunk,
                final_chunk: last,
                restart,
                ids,
                selected_count: 0,
                committed: false,
            },
        ),
    )
}

/// Whether a repeated request is the one that a receipt answered.
pub open spec fn answers(receipt: InitialSelectionReceipt, request: InitialSelectionReceipt) -> bool {
    &&& receipt.chunk_index == request.chunk_index
    &&& receipt.final_chunk == request.final_chunk
    &&& receipt.restart == request.restart
    &&& receipt.ids@ == request.ids@
}

fn same_ids(a: &Vec<u32>, b: &Vec<u32>) -> (r: bool)
    ensures
        r == (a@ == b@),
{
    if a.len() != b.len() {
        return false;
    }
    let mut k: usize = 0;
    while k < a.len()
        invariant
            k <= a@.len(),
            a@.len() == b@.len(),
            forall|j: int| 0 <= j < k ==> #[trigger] a@[j] == b@[j],
        decreases a@.len() - k,
    {
        if a[k] != b[k] {
            return false;
        }
        k += 1;
    }
    proof {
        assert(a@ =~= b@);
    }
    true
}

pub fn selection_receipt_matches(
    receipt: &InitialSelectionReceipt,
    request: &InitialSelectionReceipt,
) -> (r: bool)
    ensures
        r == answers(*receipt, *request),
{
    receipt.chunk_index == request.chunk_index && receipt.final_chunk == request.final_chunk
        && receipt.restart == request.restart && same_ids(&receipt.ids, &request.ids)
}

/// The receipt of a chunk.
pub open spec fn receipt_at(s: Seq<InitialSelectionReceipt>, chunk: u32, k: int) -> Option<int>
    decreases s.len() - k,
{
    if k < 0 || k >= s.len() {
        None
    } else if s[k].chunk_index == chunk {
        Some(k)
    } else {
        receipt_at(s, chunk, k + 1)
    }
}

fn find_receipt(receipts: &Vec<InitialSelectionReceipt>, chunk: u32) -> (r: Option<usize>)
    ensures
        match r {
            Some(k) => receipt_at(receipts@, chunk, 0) == Some(k as int) && k < receipts@.len(),
            None => receipt_at(receipts@, chunk, 0) is None,
        },
{
    let mut k: usize = 0;
    while k < receipts.len()
        invariant
            k <= receipts@.len(),
            receipt_at(receipts@, chunk, 0) == receipt_at(receipts@, chunk, k as int),
        decreases receipts@.len() - k,
    {
        if receipts[k].chunk_index == chunk {
            return Some(k);
        }
        k += 1;
    }
    None
}

/// What is replied to a chunk.
#[derive(Debug, Clone, Copy, PartialEq, Eq, Structural)]
pub struct SelectionReply {
    pub accepted_chunk: u32,
    pub next_chunk: u32,
    pub selected_count: usize,
    pub committed: bool,
}

/// The reply that a receipt stands for.
pub open spec fn reply_of(r: InitialSelectionReceipt) -> SelectionReply {
    SelectionReply {
        accepted_chunk: r.chunk_index,
        next_chunk: (r.chunk_index + 1) as u32,
        selected_count: r.selected_count,
        committed: r.committed,
    }
}

fn reply(r: &InitialSelectionReceipt) -> (out: SelectionReply)
    requires
        r.chunk_index < u32::MAX,
    ensures
        out == reply_of(*r),
{
    SelectionReply {
        accepted_chunk: r.chunk_index,
        next_chunk: r.chunk_index + 1,
        selected_count: r.selected_count,
        committed: r.committed,
    }
}

/// A selection that was not touched for too long is gone.
pub open spec fn live(s: Option<InitialSelectionAccumulator>, now: u64) -> Option<
    InitialSelectionAccumulator,
> {
    match s {
        Some(a) => if timed_store::elapsed(now, a.updated_at) >= INITIAL_SELECTION_TTL_MS {
            None
        } else {
            s
        },
        None => None,
    }
}

pub fn expire_initial_selection(pending: &mut PendingInitial, now: u64)
    ensures
        *final(pending) == (PendingInitial {
            selection: live(old(pending).selection, now),
            ..*old(pending)
        }),
{
    let gone = match &pending.selection {
        Some(selection) => elapsed_since(now, selection.updated_at) >= INITIAL_SELECTION_TTL_MS,
        None => false,
    };
    if gone {
        pending.selection = None;
    }
}

/// Whether an id is among the first `n`.
pub open spec fn repeats(ids: Seq<u32>) -> bool {
    exists|i: int, j: int| 0 <= i < j < ids.len() && #[trigger] ids[i] == #[trigger] ids[j]
}

/// What becomes of a chunk that reaches an unanswered choice.
pub enum Judgement {
    Refused(SelectionProblem),
    /// The receipt at this place answers it.
    Replayed(int),
    Started,
    Continued,
}

/// How a chunk is judged against the selection that is under way.
pub open spec fn judged(
    selection: Option<InitialSelectionAccumulator>,
    detail_count: int,
    submission: Seq<char>,
    q: InitialSelectionReceipt,
) -> Judgement {
    let other = selection matches Some(s) && s.submission_id@ != submission;
    if exists|k: int| 0 <= k < q.ids@.len() && #[trigger] q.ids@[k] >= detail_count {
        Judgement::Refused(SelectionProblem::UnknownId)
    } else if repeats(q.ids@) {
        Judgement::Refused(SelectionProblem::RepeatedId)
    } else if other && !(q.chunk_index == 0 && q.restart) {
        Judgement::Refused(SelectionProblem::OtherSelection)
    } else if other || selection is None {
        if q.chunk_index != 0 || !q.restart {
            Judgement::Refused(SelectionProblem::MustRestart)
        } else {
            Judgement::Started
        }
    } else {
        let s = selection->0;
        match receipt_at(s.receipts@, q.chunk_index, 0) {
            Some(k) => if answers(s.receipts@[k], q) {
                Judgement::Replayed(k)
            } else {
                Judgement::Refused(SelectionProblem::ReceiptMismatch)
            },
            None => if q.chunk_index != s.next_chunk {
                Judgement::Refused(
                    SelectionProblem::OutOfOrder { wanted: s.next_chunk, got: q.chunk_index },
                )
            } else if exists|k: int|
                0 <= k < q.ids@.len() && s.selected_ids@.contains(#[trigger] q.ids@[k]) {
                Judgement::Refused(SelectionProblem::RepeatsEarlier)
            } else {
                Judgement::Continued
            },
        }
    }
}

fn find_above(ids: &Vec<u32>, limit: usize) -> (r: bool)
    ensures
        r == exists|k: int| 0 <= k < ids@.len() && #[trigger] ids@[k] >= limit,
{
    let mut k: usize = 0;
    while k < ids.len()
        invariant
            k <= ids@.len(),
            forall|j: int| 0 <= j < k ==> #[trigger] ids@[j] < limit,
        decreases ids@.len() - k,
    {
        if ids[k] as usize >= limit {
            assert(ids@[k as int] >= limit);
            return true;
        }
        k += 1;
    }
    false
}

/// Adds ids to ascending ones; nothing where one of them is there already or
/// comes twice.
fn merge_ids(selected: &Vec<u32>, ids: &Vec<u32>) -> (r: Option<Vec<u32>>)
    requires
        ascending(selected@),
    ensures
        match r {
            None => repeats(ids@) || exists|k: int|
                0 <= k < ids@.len() && selected@.contains(#[trigger] ids@[k]),
            Some(out) => {
                &&& !repeats(ids@)
                &&& forall|k: int| 0 <= k < ids@.len() ==> !selected@.contains(#[trigger] ids@[k])
                &&& ascending(out@)
                &&& out@.len() == selected@.len() + ids@.len()
                &&& forall|x: u32| #[trigger]
                    out@.contains(x) <==> selected@.contains(x) || ids@.contains(x)
            },
        },
{
    let mut out: Vec<u32> = Vec::new();
    let mut i: usize = 0;
    while i < selected.len()
        invariant
            i <= selected@.len(),
            out@ == selected@.take(i as int),
        decreases selected@.len() - i,
    {
        proof {
            assert(selected@.take(i + 1) =~= selected@.take(i as int).push(selected@[i as int]));
        }
        out.push(selected[i]);
        i += 1;
    }
    proof {
        assert(selected@.take(i as int) =~= selected@);
    }
    let mut k: usize = 0;
    while k < ids.len()
        invariant
            k <= ids@.len(),
            ascending(out@),
            out@.len() == selected@.len() + k,
            forall|x: u32| #[trigger]
                out@.contains(x) <==> selected@.contains(x) || ids@.take(k as int).contains(x),
            forall|j: int| 0 <= j < k ==> !selected@.contains(#[trigger] ids@[j]),
            forall|a: int, b: int| 0 <= a < b < k ==> #[trigger] ids@[a] != #[trigger] ids@[b],
        decreases ids@.len() - k,
    {
        let id: u32 = ids[k];
        let ghost before = out@;
        if !insert_id(&mut out, id) {
            proof {
                if ids@.take(k as int).contains(id) {
                    let a = choose|a: int| 0 <= a < k && ids@.take(k as int)[a] == id;
                    assert(ids@[a] == ids@[k as int]);
                } else {
                    assert(selected@.contains(ids@[k as int]));
                }
            }
            return None;
        }
        proof {
            let taken = ids@.take(k as int);
            let more = ids@.take(k + 1);
            assert(more =~= taken.push(id));
            assert forall|x: u32| #[trigger] out@.contains(x) <==> selected@.contains(x)
                || more.contains(x) by {
                assert(out@.contains(x) <==> before.contains(x) || x == id);
                if taken.contains(x) {
                    let a = choose|a: int| 0 <= a < taken.len() && taken[a] == x;
                    assert(more[a] == x);
                }
                if more.contains(x) {
                    let a = choose|a: int| 0 <= a < more.len() && more[a] == x;
                    if a < k {
                        assert(taken[a] == x);
                    }
                }
                assert(more[k as int] == id);
            }
            assert(!before.contains(id));
            assert forall|a: int, b: int| 0 <= a < b < k + 1 implies #[trigger] ids@[a]
                != #[trigger] ids@[b] by {
                if b == k {
                    if ids@[a] == id {
                        assert(taken[a] == id);
                        assert(taken.contains(id));
                    }
                }
            }
        }
        k += 1;
    }
    proof {
        assert(ids@.take(k as int) =~= ids@);
    }
    Some(out)
}

/// Inserts an id into ascending ones, unless it is there.
fn insert_id(v: &mut Vec<u32>, id: u32) -> (r: bool)
    requires
        ascending(old(v)@),
    ensures
        r == !old(v)@.contains(id),
        !r ==> final(v)@ == old(v)@,
        ascending(final(v)@),
        r ==> final(v)@.len() == old(v)@.len() + 1,
        forall|x: u32| #[trigger]
            final(v)@.contains(x) <==> old(v)@.contains(x) || x == id,
{
    let ghost before = v@;
    let mut at: usize = 0;
    while at < v.len() && v[at] < id
        invariant
            at <= v@.len(),
            v@ == before,
            forall|j: int| 0 <= j < at ==> #[trigger] v@[j] < id,
        decreases v@.len() - at,
    {
        at += 1;
    }
    if at < v.len() && v[at] == id {
        proof {
            assert(before[at as int] == id);
        }
        return false;
    }
    proof {
        assert forall|j: int| 0 <= j < before.len() implies before[j] != id by {
            if j >= at && at < before.len() {
                if j > at {
                    assert(before[at as int] < before[j]);
                }
            }
        }
    }
    v.insert(at, id);
    proof {
        let after = v@;
        assert(after =~= before.insert(at as int, id));
        assert forall|i: int, j: int| 0 <= i < j < after.len() implies #[trigger] after[i]
            < #[trigger] after[j] by {
            let a = if i < at {
                before[i]
            } else if i == at {
                id
            } else {
                before[i - 1]
            };
            let b = if j < at {
                before[j]
            } else if j == at {
                id
            } else {
                before[j - 1]
            };
            assert(after[i] == a && after[j] == b);
            if i == at {
                assert(before[j - 1] >= before[at as int]);
            }
        }
        assert forall|x: u32| #[trigger] after.contains(x) <==> before.contains(x) || x == id by {
            if before.contains(x) {
                let j = choose|j: int| 0 <= j < before.len() && before[j] == x;
                if j < at {
                    assert(after[j] == x);
                } else {
                    assert(after[j + 1] == x);
                }
            }
            assert(after[at as int] == id);
            if after.contains(x) {
                let j = choose|j: int| 0 <= j < after.len() && after[j] == x;
                if j < at {
                    assert(before[j] == x);
                } else if j > at {
                    assert(before[j - 1] == x);
                }
            }
        }
    }
    true
}

/// The selection after a chunk was taken into the one before.
pub open spec fn extended(
    start: Option<InitialSelectionAccumulator>,
    submission: Seq<char>,
    q: InitialSelectionReceipt,
    now: u64,
    end: InitialSelectionAccumulator,
) -> bool {
    let ids = match start {
        Some(s) => s.selected_ids@,
        None => Seq::empty(),
    };
    let receipts = match start {
        Some(s) => s.receipts@,
        None => Seq::empty(),
    };
    &&& end.wf()
    &&& end.submission_id@ == submission
    &&& end.next_chunk == q.chunk_index + 1
    &&& end.updated_at == now
    &&& forall|x: u32| #[trigger]
        end.selected_ids@.contains(x) <==> ids.contains(x) || q.ids@.contains(x)
    &&& end.selected_ids@.len() == ids.len() + q.ids@.len()
    &&& end.receipts@.len() == receipts.len() + 1
    &&& end.receipts@.drop_last() == receipts
    &&& end.receipts@.last() == (InitialSelectionReceipt {
        selected_count: end.selected_ids@.len() as usize,
        committed: q.final_chunk,
        ..q
    })
}

/// Takes one chunk of a selection into a choice that is not answered yet. The
/// reply comes with whether the chunk is new.
pub fn accept_selection_chunk(
    pending: &mut PendingInitial,
    submission_id: &str,
    request: InitialSelectionReceipt,
    now: u64,
) -> (r: Result<(SelectionReply, bool), SelectionProblem>)
    requires
        old(pending).wf(),
        old(pending).choice is None,
        request.chunk_index < u32::MAX,
    ensures
        final(pending).wf(),
        *final(pending) == (PendingInitial {
            selection: final(pending).selection,
            ..*old(pending)
        }),
        ({
            let start = live(old(pending).selection, now);
            match judged(start, old(pending).details@.len() as int, submission_id@, request) {
                Judgement::Refused(p) => {
                    &&& r == Err::<(SelectionReply, bool), SelectionProblem>(p)
                    &&& final(pending).selection == start
                },
                Judgement::Replayed(k) => {
                    &&& r == Ok::<(SelectionReply, bool), SelectionProblem>(
                        (reply_of(start->0.receipts@[k]), false),
                    )
                    &&& final(pending).selection == start
                },
                Judgement::Started => {
                    &&& final(pending).selection matches Some(end) && extended(
                        None,
                        submission_id@,
                        request,
                        now,
                        end,
                    )
                    &&& r == Ok::<(SelectionReply, bool), SelectionProblem>(
                        (reply_of(final(pending).selection->0.receipts@.last()), true),
                    )
                },
                Judgement::Continued => {
                    &&& final(pending).selection matches Some(end) && extended(
                        start,
                        submission_id@,
                        request,
                        now,
                        end,
                    )
                    &&& r == Ok::<(SelectionReply, bool), SelectionProblem>(
                        (reply_of(final(pending).selection->0.receipts@.last()), true),
                    )
                },
            }
        }),
{
    expire_initial_selection(pending, now);
    let ghost start = pending.selection;
    if find_above(&request.ids, pending.details.len()) {
        return Err(SelectionProblem::UnknownId);
    }
    let nothing: Vec<u32> = Vec::new();
    let fresh = match merge_ids(&nothing, &request.ids) {
        None => {
            return Err(SelectionProblem::RepeatedId);
        },
        Some(fresh) => fresh,
    };
    let other = match &pending.selection {
        Some(selection) => !same(selection.submission_id.as_str(), submission_id),
        None => false,
    };
    if other && !(request.chunk_index == 0 && request.restart) {
        return Err(SelectionProblem::OtherSelection);
    }
    if other || pending.selection.is_none() {
        if request.chunk_index != 0 || !request.restart {
            return Err(SelectionProblem::MustRestart);
        }
        let chunk: u32 = request.chunk_index;
        let receipt = InitialSelectionReceipt {
            selected_count: fresh.len(),
            committed: request.final_chunk,
            ..request
        };
        let answer = reply(&receipt);
        let mut receipts: Vec<InitialSelectionReceipt> = Vec::new();
        receipts.push(receipt);
        proof {
            assert(receipts@.drop_last() =~= Seq::<InitialSelectionReceipt>::empty());
            assert forall|k: int| 0 <= k < fresh@.len() implies #[trigger] fresh@[k]
                < pending.details@.len() by {
                assert(fresh@.contains(fresh@[k]));
                let j = choose|j: int| 0 <= j < request.ids@.len() && request.ids@[j] == fresh@[k];
                assert(request.ids@[j] < pending.details@.len());
            }
        }
        pending.selection = Some(
            InitialSelectionAccumulator {
                submission_id: owned(submission_id),
                next_chunk: chunk + 1,
                selected_ids: fresh,
                receipts,
                updated_at: now,
            },
        );
        return Ok((answer, true));
    }
    let mut selection = match pending.selection.take() {
        None => return Err(SelectionProblem::MustRestart),
        Some(selection) => selection,
    };
    if let Some(k) = find_receipt(&selection.receipts, request.chunk_index) {
        let matches = selection_receipt_matches(&selection.receipts[k], &request);
        if !matches {
            pending.selection = Some(selection);
            return Err(SelectionProblem::ReceiptMismatch);
        }
        let answer = reply(&selection.receipts[k]);
        pending.selection = Some(selection);
        return Ok((answer, false));
    }
    if request.chunk_index != selection.next_chunk {
        let wanted: u32 = selection.next_chunk;
        pending.selection = Some(selection);
        return Err(SelectionProblem::OutOfOrder { wanted, got: request.chunk_index });
    }
    let merged = match merge_ids(&selection.selected_ids, &request.ids) {
        None => {
            pending.selection = Some(selection);
            return Err(SelectionProblem::RepeatsEarlier);
        },
        Some(merged) => merged,
    };
    proof {
        assert forall|k: int| 0 <= k < merged@.len() implies #[trigger] merged@[k]
            < pending.details@.len() by {
            assert(merged@.contains(merged@[k]));
            if request.ids@.contains(merged@[k]) {
                let j = choose|j: int| 0 <= j < request.ids@.len() && request.ids@[j] == merged@[k];
                assert(request.ids@[j] < pending.details@.len());
            } else {
                let j = choose|j: int|
                    0 <= j < selection.selected_ids@.len() && selection.selected_ids@[j]
                        == merged@[k];
                assert(selection.selected_ids@[j] < pending.details@.len());
            }
        }
    }
    let ghost receipts = selection.receipts@;
    let receipt = InitialSelectionReceipt {
        selected_count: merged.len(),
        committed: request.final_chunk,
        ..request
    };
    let answer = reply(&receipt);
    selection.selected_ids = merged;
    selection.next_chunk = selection.next_chunk + 1;
    selection.updated_at = now;
    selection.receipts.push(receipt);
    proof {
        assert(selection.receipts@.drop_last() =~= receipts);
    }
    pending.selection = Some(selection);
    Ok((answer, true))
}

/// A chunk that was answered is answered alike when it comes again.
pub proof fn law_retry_gets_the_same_reply(
    start: Option<InitialSelectionAccumulator>,
    detail_count: int,
    submission: Seq<char>,
    q: InitialSelectionReceipt,
    now: u64,
    end: InitialSelectionAccumulator,
)
    requires
        start matches Some(s) ==> s.wf(),
        extended(start, submission, q, now, end),
        start matches Some(s) ==> s.next_chunk == q.chunk_index,
        !(exists|k: int| 0 <= k < q.ids@.len() && #[trigger] q.ids@[k] >= detail_count),
        !repeats(q.ids@),
    ensures
        judged(Some(end), detail_count, submission, q) == Judgement::Replayed(
            end.receipts@.len() - 1,
        ),
{
    let last = end.receipts@.len() - 1;
    assert forall|k: int| 0 <= k < last implies (#[trigger] end.receipts@[k]).chunk_index
        != q.chunk_index by {
        assert(end.receipts@.drop_last()[k] == end.receipts@[k]);
        if start is Some {
            assert(start->0.receipts@[k].chunk_index < start->0.next_chunk);
        }
    }
    lemma_receipt_at(end.receipts@, q.chunk_index, 0, last);
}

proof fn lemma_receipt_at(s: Seq<InitialSelectionReceipt>, chunk: u32, k: int, at: int)
    requires
        0 <= k <= at < s.len(),
        s[at].chunk_index == chunk,
        forall|j: int| 0 <= j < at ==> (#[trigger] s[j]).chunk_index != chunk,
    ensures
        receipt_at(s, chunk, k) == Some(at),
    decreases at - k,
{
    if k < at {
        lemma_receipt_at(s, chunk, k + 1, at);
    }
}

/// Every chunk of a selection that was answered is judged by its receipt when its
/// number comes again: the same contents get the same reply, and other contents
/// are refused.
pub proof fn law_repeated_chunk_is_judged_by_its_receipt(
    s: InitialSelectionAccumulator,
    detail_count: int,
    q: InitialSelectionReceipt,
)
    requires
        s.wf(),
        q.chunk_index < s.receipts@.len(),
    ensures
        answers(s.receipts@[q.chunk_index as int], q) && !repeats(q.ids@) && (forall|k: int|
            0 <= k < q.ids@.len() ==> #[trigger] q.ids@[k] < detail_count) ==> judged(
            Some(s),
            detail_count,
            s.submission_id@,
            q,
        ) == Judgement::Replayed(q.chunk_index as int),
        !answers(s.receipts@[q.chunk_index as int], q) ==> judged(
            Some(s),
            detail_count,
            s.submission_id@,
            q,
        ) is Refused,
{
    lemma_receipt_at(s.receipts@, q.chunk_index, 0, q.chunk_index as int);
}

/// The paths of the selected differences.
pub open spec fn selected_paths(details: Seq<InitialChoiceItem>, ids: Seq<u32>) -> Seq<Seq<char>> {
    Seq::new(ids.len(), |k: int| details[ids[k] as int].path@)
}

/// Receipts without their representation.
#[verifier::ext_equal]
pub struct ReceiptModel {
    pub chunk_index: u32,
    pub final_chunk: bool,
    pub restart: bool,
    pub ids: Seq<u32>,
    pub selected_count: usize,
    pub committed: bool,
}

impl InitialSelectionReceipt {
    pub open spec fn view(&self) -> ReceiptModel {
        ReceiptModel {
            chunk_index: self.chunk_index,
            final_chunk: self.final_chunk,
            restart: self.restart,
            ids: self.ids@,
            selected_count: self.selected_count,
            committed: self.committed,
        }
    }
}

pub open spec fn receipt_models(v: Seq<InitialSelectionReceipt>) -> Seq<ReceiptModel> {
    Seq::new(v.len(), |i: int| v[i]@)
}

fn copy_ids(ids: &Vec<u32>) -> (out: Vec<u32>)
    ensures
        out@ == ids@,
{
    let mut out: Vec<u32> = Vec::new();
    let mut k: usize = 0;
    while k < ids.len()
        invariant
            k <= ids@.len(),
            out@ == ids@.take(k as int),
        decreases ids@.len() - k,
    {
        proof {
            assert(ids@.take(k + 1) =~= ids@.take(k as int).push(ids@[k as int]));
        }
        out.push(ids[k]);
        k += 1;
    }
    proof {
        assert(ids@.take(k as int) =~= ids@);
    }
    out
}

fn copy_receipts(receipts: &Vec<InitialSelectionReceipt>) -> (out: Vec<InitialSelectionReceipt>)
    ensures
        receipt_models(out@) == receipt_models(receipts@),
{
    let mut out: Vec<InitialSelectionReceipt> = Vec::new();
    let mut k: usize = 0;
    while k < receipts.len()
        invariant
            k <= receipts@.len(),
            out@.len() == k,
            forall|j: int| 0 <= j < k ==> (#[trigger] out@[j])@ == receipts@[j]@,
        decreases receipts@.len() - k,
    {
        let r = &receipts[k];
        out.push(
            InitialSelectionReceipt {
                chunk_index: r.chunk_index,
                final_chunk: r.final_chunk,
                restart: r.restart,
                ids: copy_ids(&r.ids),
                selected_count: r.selected_count,
                committed: r.committed,
            },
        );
        k += 1;
    }
    proof {
        assert(receipt_models(out@) =~= receipt_models(receipts@));
    }
    out
}

/// The receipts of the selections that were committed.
pub type CompletedSelections = TimedStore<Vec<InitialSelectionReceipt>>;

/// The stores before and after a committed selection is remembered: the old
/// ones are dropped, and one more where there are too many.
pub open spec fn remembered(
    before: Seq<timed_store::TimedEntry<Vec<InitialSelectionReceipt>>>,
    after: Seq<timed_store::TimedEntry<Vec<InitialSelectionReceipt>>>,
    key: Seq<Seq<char>>,
    receipts: Seq<ReceiptModel>,
    now: u64,
) -> bool {
    let young = timed_store::alive(
        before,
        now,
        INITIAL_SELECTION_REPLAY_TTL_MS,
        before.len() as int,
    );
    let room = if young.len() >= INITIAL_SELECTION_REPLAY_LIMIT {
        young.remove(timed_store::oldest(young, young.len() as int))
    } else {
        young
    };
    exists|e: timed_store::TimedEntry<Vec<InitialSelectionReceipt>>| #[trigger]
        timed_store::key_of(e) == key && receipt_models(e.value@) == receipts && e.at == now
            && after == timed_store::with_put(room, e)
}

pub fn remember_completed_initial_selection(
    store: &mut CompletedSelections,
    key: Vec<String>,
    receipts: &Vec<InitialSelectionReceipt>,
    now: u64,
)
    ensures
        remembered(
            old(store).entries@,
            final(store).entries@,
            disk_index::texts(key@),
            receipt_models(receipts@),
            now,
        ),
{
    store.prune(now, INITIAL_SELECTION_REPLAY_TTL_MS);
    if store.entries.len() >= INITIAL_SELECTION_REPLAY_LIMIT {
        store.drop_oldest();
    }
    let copy = copy_receipts(receipts);
    let ghost e = timed_store::TimedEntry { key, value: copy, at: now };
    proof {
        assert(timed_store::key_of(e) == disk_index::texts(key@));
    }
    store.put(key, copy, now);
}

/// What a committed selection says to a repeated chunk: nothing where it is
/// not remembered.
pub open spec fn replayed(
    entries: Seq<timed_store::TimedEntry<Vec<InitialSelectionReceipt>>>,
    key: Seq<Seq<char>>,
    q: InitialSelectionReceipt,
) -> Option<Result<SelectionReply, SelectionProblem>> {
    match timed_store::place(entries, key, 0) {
        None => None,
        Some(i) => {
            let receipts = entries[i].value@;
            match receipt_at(receipts, q.chunk_index, 0) {
                Some(k) => if answers(receipts[k], q) {
                    Some(Ok(reply_of(receipts[k])))
                } else {
                    Some(Err(SelectionProblem::ReceiptMismatch))
                },
                None => Some(Err(SelectionProblem::Committed)),
            }
        },
    }
}

pub fn replay_completed_initial_selection(
    store: &mut CompletedSelections,
    key: &Vec<String>,
    request: &InitialSelectionReceipt,
    now: u64,
) -> (r: Option<Result<SelectionReply, SelectionProblem>>)
    requires
        request.chunk_index < u32::MAX,
    ensures
        final(store).entries@ == timed_store::alive(
            old(store).entries@,
            now,
            INITIAL_SELECTION_REPLAY_TTL_MS,
            old(store).entries@.len() as int,
        ),
        r == replayed(final(store).entries@, disk_index::texts(key@), *request),
{
    store.prune(now, INITIAL_SELECTION_REPLAY_TTL_MS);
    let i: usize = match store.find(key) {
        None => return None,
        Some(i) => i,
    };
    let receipts = &store.entries[i].value;
    match find_receipt(receipts, request.chunk_index) {
        None => Some(Err(SelectionProblem::Committed)),
        Some(k) => if selection_receipt_matches(&receipts[k], request) {
            Some(Ok(reply(&receipts[k])))
        } else {
            Some(Err(SelectionProblem::ReceiptMismatch))
        },
    }
}

/// Answers a choice with its finished selection, after the receipts of it were
/// remembered. `before_publish` is called in between, with the choice as it
/// still waits and the store that holds the receipts already: whoever sees the
/// answered choice finds its receipts.
pub fn commit_initial_selection_with<F: FnOnce(&PendingInitial, &CompletedSelections)>(
    pending: &mut PendingInitial,
    store: &mut CompletedSelections,
    key: Vec<String>,
    now: u64,
    before_publish: F,
)
    requires
        old(pending).wf(),
        old(pending).selection is Some,
        forall|kept: CompletedSelections|
            remembered(
                old(store).entries@,
                kept.entries@,
                disk_index::texts(key@),
                receipt_models(old(pending).selection->0.receipts@),
                now,
            ) ==> #[trigger] call_requires(before_publish, (&*old(pending), &kept)),
    ensures
        call_ensures(before_publish, (&*old(pending), &*final(store)), ()),
        ({
            let s = old(pending).selection->0;
            &&& remembered(
                old(store).entries@,
                final(store).entries@,
                disk_index::texts(key@),
                receipt_models(s.receipts@),
                now,
            )
            &&& *final(pending) == (PendingInitial {
                selected_disk_paths: final(pending).selected_disk_paths,
                choice: Some(Choice::Disk),
                ..*old(pending)
            })
            &&& final(pending).selected_disk_paths matches Some(paths) && disk_index::texts(paths@)
                == selected_paths(old(pending).details@, s.selected_ids@)
        }),
{
    let mut paths: Vec<String> = Vec::new();
    if let Some(selection) = &pending.selection {
        let mut k: usize = 0;
        while k < selection.selected_ids.len()
            invariant
                pending.wf(),
                pending.selection == Some(*selection),
                k <= selection.selected_ids@.len(),
                paths@.len() == k,
                forall|j: int|
                    0 <= j < k ==> (#[trigger] paths@[j])@
                        == pending.details@[selection.selected_ids@[j] as int].path@,
            decreases selection.selected_ids@.len() - k,
        {
            let id: usize = selection.selected_ids[k] as usize;
            assert(selection.selected_ids@[k as int] < pending.details@.len());
            paths.push(owned(pending.details[id].path.as_str()));
            k += 1;
        }
        proof {
            assert(disk_index::texts(paths@) =~= selected_paths(
                pending.details@,
                selection.selected_ids@,
            ));
        }
        remember_completed_initial_selection(store, key, &selection.receipts, now);
    }
    before_publish(&*pending, &*store);
    pending.selected_disk_paths = Some(paths);
    pending.choice = Some(Choice::Disk);
}

/// What becomes of a whole request to take a chunk, from the choice that waits
/// and the selections that were committed.
pub open spec fn selection_outcome(
    slot: Option<PendingInitial>,
    entries: Seq<timed_store::TimedEntry<Vec<InitialSelectionReceipt>>>,
    choice: Seq<char>,
    key: Seq<Seq<char>>,
    q: InitialSelectionReceipt,
) -> Option<Result<SelectionReply, SelectionProblem>> {
    match replayed(entries, key, q) {
        Some(r) => Some(r),
        None => match slot {
            None => Some(Err(SelectionProblem::NoPending)),
            Some(p) => if p.choice_id@ != choice {
                Some(Err(SelectionProblem::NoPending))
            } else if p.choice is Some {
                Some(Err(SelectionProblem::Resolved))
            } else {
                None
            },
        },
    }
}

/// After its last chunk was committed, a selection answers its chunks from their
/// receipts, whatever has become of the choice: the same contents get the same
/// reply, and other contents are refused.
pub proof fn law_committed_chunk_is_judged_by_its_receipt(
    before: Seq<timed_store::TimedEntry<Vec<InitialSelectionReceipt>>>,
    after: Seq<timed_store::TimedEntry<Vec<InitialSelectionReceipt>>>,
    key: Seq<Seq<char>>,
    s: InitialSelectionAccumulator,
    now: u64,
    later: u64,
    slot: Option<PendingInitial>,
    choice: Seq<char>,
    q: InitialSelectionReceipt,
)
    requires
        s.wf(),
        remembered(before, after, key, receipt_models(s.receipts@), now),
        timed_store::elapsed(later, now) < INITIAL_SELECTION_REPLAY_TTL_MS,
    ensures
        ({
            let young = timed_store::alive(
                after,
                later,
                INITIAL_SELECTION_REPLAY_TTL_MS,
                after.len() as int,
            );
            selection_outcome(slot, young, choice, key, q) == Some(
                if q.chunk_index >= s.receipts@.len() {
                    Err::<SelectionReply, SelectionProblem>(SelectionProblem::Committed)
                } else if answers(s.receipts@[q.chunk_index as int], q) {
                    Ok(reply_of(s.receipts@[q.chunk_index as int]))
                } else {
                    Err(SelectionProblem::ReceiptMismatch)
                },
            )
        }),
{
    let kept = timed_store::alive(
        before,
        now,
        INITIAL_SELECTION_REPLAY_TTL_MS,
        before.len() as int,
    );
    let room = if kept.len() >= INITIAL_SELECTION_REPLAY_LIMIT {
        kept.remove(timed_store::oldest(kept, kept.len() as int))
    } else {
        kept
    };
    let e = choose|e: timed_store::TimedEntry<Vec<InitialSelectionReceipt>>| #[trigger]
        timed_store::key_of(e) == key && receipt_models(e.value@) == receipt_models(s.receipts@)
            && e.at == now && after == timed_store::with_put(room, e);
    timed_store::lemma_put_is_found(room, e);
    let i = timed_store::place(after, key, 0)->0;
    timed_store::lemma_alive_keeps_place(
        after,
        later,
        INITIAL_SELECTION_REPLAY_TTL_MS,
        key,
        i,
        after.len() as int,
    );
    assert(receipt_models(e.value@).len() == receipt_models(s.receipts@).len());
    assert forall|k: int| 0 <= k < e.value@.len() implies (#[trigger] e.value@[k]).chunk_index == k
        && e.value@[k]@ == s.receipts@[k]@ by {
        assert(receipt_models(e.value@)[k] == receipt_models(s.receipts@)[k]);
        assert(s.receipts@[k].chunk_index == k);
    }
    if q.chunk_index < e.value@.len() {
        lemma_receipt_at(e.value@, q.chunk_index, 0, q.chunk_index as int);
        assert(e.value@[q.chunk_index as int]@ == s.receipts@[q.chunk_index as int]@);
    } else {
        lemma_no_receipt(e.value@, q.chunk_index, 0);
    }
}

proof fn lemma_no_receipt(s: Seq<InitialSelectionReceipt>, chunk: u32, k: int)
    requires
        0 <= k,
        forall|j: int| 0 <= j < s.len() ==> (#[trigger] s[j]).chunk_index != chunk,
    ensures
        receipt_at(s, chunk, k) is None,
    decreases s.len() - k,
{
    if k < s.len() {
        lemma_no_receipt(s, chunk, k + 1);
    }
}

/// Takes a chunk of ids. A repeated chunk of a committed selection is answered
/// from its receipts; the last chunk of a selection answers the choice.
pub fn initial_choice_selection(
    slot: &mut Option<PendingInitial>,
    store: &mut CompletedSelections,
    project: &str,
    choice_id: &str,
    submission_id: &str,
    request: InitialSelectionReceipt,
    now: u64,
) -> (r: Result<SelectionReply, SelectionProblem>)
    requires
        *old(slot) matches Some(p) ==> p.wf(),
        request.chunk_index < u32::MAX,
    ensures
        *final(slot) matches Some(p) ==> p.wf(),
        ({
            let key = seq![project@, choice_id@, submission_id@];
            let young = timed_store::alive(
                old(store).entries@,
                now,
                INITIAL_SELECTION_REPLAY_TTL_MS,
                old(store).entries@.len() as int,
            );
            match selection_outcome(*old(slot), young, choice_id@, key, request) {
                Some(outcome) => r == outcome && *final(slot) == *old(slot) && final(store).entries@
                    == young,
                None => {
                    let p = old(slot)->0;
                    let start = live(p.selection, now);
                    &&& *final(slot) matches Some(after) && after.choice_id == p.choice_id
                        && after.details == p.details
                    &&& match judged(start, p.details@.len() as int, submission_id@, request) {
                        Judgement::Refused(problem) => {
                            &&& r == Err::<SelectionReply, SelectionProblem>(problem)
                            &&& *final(slot) == Some(PendingInitial { selection: start, ..p })
                            &&& final(store).entries@ == young
                        },
                        Judgement::Replayed(k) => {
                            &&& r == Ok::<SelectionReply, SelectionProblem>(
                                reply_of(start->0.receipts@[k]),
                            )
                            &&& *final(slot) == Some(PendingInitial { selection: start, ..p })
                            &&& final(store).entries@ == young
                        },
                        _ => {
                            let after = final(slot)->0;
                            let base = if judged(
                                start,
                                p.details@.len() as int,
                                submission_id@,
                                request,
                            ) is Started {
                                None
                            } else {
                                start
                            };
                            &&& after.selection matches Some(end) && extended(
                                base,
                                submission_id@,
                                request,
                                now,
                                end,
                            ) && r == Ok::<SelectionReply, SelectionProblem>(
                                reply_of(end.receipts@.last()),
                            )
                            &&& if request.final_chunk {
                                &&& after == (PendingInitial {
                                    choice: Some(Choice::Disk),
                                    selected_disk_paths: after.selected_disk_paths,
                                    selection: after.selection,
                                    ..p
                                })
                                &&& after.selected_disk_paths matches Some(paths)
                                    && disk_index::texts(paths@) == selected_paths(
                                    p.details@,
                                    after.selection->0.selected_ids@,
                                )
                                &&& remembered(
                                    young,
                                    final(store).entries@,
                                    key,
                                    receipt_models(after.selection->0.receipts@),
                                    now,
                                )
                            } else {
                                &&& after == (PendingInitial { selection: after.selection, ..p })
                                &&& final(store).entries@ == young
                            }
                        },
                    }
                },
            }
        }),
{
    let mut key: Vec<String> = Vec::new();
    key.push(owned(project));
    key.push(owned(choice_id));
    key.push(owned(submission_id));
    proof {
        assert(disk_index::texts(key@) =~= seq![project@, choice_id@, submission_id@]);
    }
    let ghost before = store.entries@;
    if let Some(outcome) = replay_completed_initial_selection(store, &key, &request, now) {
        return outcome;
    }
    if let Some(p) = slot.as_ref() {
        if !same(p.choice_id.as_str(), choice_id) {
            return Err(SelectionProblem::NoPending);
        }
        if p.choice.is_some() {
            return Err(SelectionProblem::Resolved);
        }
    }
    let mut pending = match slot.take() {
        None => return Err(SelectionProblem::NoPending),
        Some(pending) => pending,
    };
    let last = request.final_chunk;
    let outcome = match accept_selection_chunk(&mut pending, submission_id, request, now) {
        Err(problem) => Err(problem),
        Ok((answer, fresh)) => {
            if fresh && last {
                commit_initial_selection_with(
                    &mut pending,
                    store,
                    key,
                    now,
                    |_waiting: &PendingInitial, _kept: &CompletedSelections| {},
                );
            }
            Ok(answer)
        },
    };
    *slot = Some(pending);
    outcome
}

/// What becomes of a request to give up a selection.
pub open spec fn abort_outcome(
    slot: Option<PendingInitial>,
    choice: Seq<char>,
    submission: Seq<char>,
    now: u64,
) -> Result<bool, SelectionProblem> {
    match slot {
        None => Err(SelectionProblem::NoPending),
        Some(p) => if p.choice_id@ != choice {
            Err(SelectionProblem::NoPending)
        } else if p.choice is Some {
            Err(SelectionProblem::Resolved)
        } else {
            match live(p.selection, now) {
                None => Ok(false),
                Some(s) => if s.submission_id@ != submission {
                    Err(SelectionProblem::OtherAbort)
                } else {
                    Ok(true)
                },
            }
        },
    }
}

/// Gives up a selection; says whether there was one.
pub fn abort_initial_selection(
    slot: &mut Option<PendingInitial>,
    choice_id: &str,
    submission_id: &str,
    now: u64,
) -> (r: Result<bool, SelectionProblem>)
    requires
        *old(slot) matches Some(p) ==> p.wf(),
    ensures
        r == abort_outcome(*old(slot), choice_id@, submission_id@, now),
        *final(slot) matches Some(p) ==> p.wf(),
        match *old(slot) {
            None => *final(slot) is None,
            Some(p) => *final(slot) == Some(
                PendingInitial {
                    selection: if p.choice_id@ != choice_id@ || p.choice is Some {
                        p.selection
                    } else if r == Ok::<bool, SelectionProblem>(true) {
                        None
                    } else {
                        live(p.selection, now)
                    },
                    ..p
                },
            ),
        },
{
    let mut pending = match slot.take() {
        None => return Err(SelectionProblem::NoPending),
        Some(pending) => pending,
    };
    if !same(pending.choice_id.as_str(), choice_id) {
        *slot = Some(pending);
        return Err(SelectionProblem::NoPending);
    }
    if pending.choice.is_some() {
        *slot = Some(pending);
        return Err(SelectionProblem::Resolved);
    }
    expire_initial_selection(&mut pending, now);
    let mut outcome: Result<bool, SelectionProblem> = Ok(false);
    if let Some(selection) = &pending.selection {
        outcome = if same(selection.submission_id.as_str(), submission_id) {
            Ok(true)
        } else {
            Err(SelectionProblem::OtherAbort)
        };
    }
    if let Ok(true) = outcome {
        pending.selection = None;
    }
    *slot = Some(pending);
    outcome
}

} // verus!
