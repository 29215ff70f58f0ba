//! What a first meeting of the two sides leads to, and how a choice between
//! them is answered.
use vstd::prelude::*;

use crate::diff;
use crate::diff::{collect_local_nodes, collect_studio_services, compare};
use crate::disk_index;
use crate::fs_safety::TreeGeneration;
use crate::initial_sync;
use crate::initial_sync::{
    initial_choice_details_from_comparison, Choice, DetailsProblem, InitialChoiceAction,
    InitialChoiceItem, InitialComparison, Stats,
};
use crate::reservations::ReservationOverlay;
use crate::selection::PendingInitial;
use crate::text::{owned, same};
use crate::timed_store;
use crate::timed_store::TimedStore;

verus! {

/// How long Studio may use a grant to send everything, in milliseconds.
pub const STUDIO_TRANSFER_GRANT_TTL_MS: u64 = 300_000;

/// How long Studio may use a grant to fetch a selection, in milliseconds.
pub const SELECTIVE_TRANSFER_GRANT_TTL_MS: u64 = 120_000;

/// How long a question for a decision is kept open, in milliseconds.
pub const DECISION_POLL_MS: u64 = 60_000;

/// What the counts of both sides call for.
#[derive(Debug, Clone, Copy, PartialEq, Eq, Structural)]
pub enum InitialAction {
    Push,
    Pull,
    /// Compare the services one by one, in chunks.
    Stream,
    /// Compare the trees that came with the request.
    CompareTrees,
}

/// What the counts of both sides and the number of trees call for.
pub open spec fn called_for(disk: Stats, studio: Stats, trees: usize) -> InitialAction {
    let no_disk = disk.script_count == 0 && disk.instance_count == 0;
    let no_studio = studio.script_count == 0 && studio.instance_count == 0;
    if no_disk {
        InitialAction::Push
    } else if no_studio {
        InitialAction::Pull
    } else if trees == 0 {
        InitialAction::Stream
    } else {
        InitialAction::CompareTrees
    }
}

/// What to do when Studio reports its counts, with its trees or without.
pub fn initial_compare(disk: Stats, studio: Stats, trees: usize) -> (r: InitialAction)
    ensures
        r == called_for(disk, studio, trees),
{
    if disk.is_empty() {
        InitialAction::Push
    } else if studio.is_empty() {
        InitialAction::Pull
    } else if trees == 0 {
        InitialAction::Stream
    } else {
        InitialAction::CompareTrees
    }
}

/// The differences between services on disk, over which the markers of Studio were
/// laid, and services in Studio.
pub fn initial_snapshot_comparison_with_local(
    laid: &ReservationOverlay,
    local_services: &[usize],
    studio_services: &[usize],
) -> (c: InitialComparison)
    requires
        laid.wf(),
        laid.stack@.len() == 0,
        forall|k: int|
            0 <= k < local_services@.len() ==> #[trigger] local_services@[k] < laid.local.nodes@.len(),
        forall|k: int|
            0 <= k < studio_services@.len() ==> #[trigger] studio_services@[k]
                < laid.studio.nodes@.len(),
    ensures
        exists|l: crate::text_map::TextMap<diff::DiffNode>, s: crate::text_map::TextMap<
            diff::DiffNode,
        >|
            #![trigger diff::nodes_of(l), diff::nodes_of(s)]
            {
                let here = diff::nodes_of(l);
                let there = diff::nodes_of(s);
                &&& l.wf() && s.wf()
                &&& here == diff::recorded(diff::local_visits(laid.local.nodes@, local_services@))
                &&& there == diff::recorded(diff::synced_visits(laid.studio.nodes@, studio_services@))
                &&& diff::items(c.new_files@) == diff::only_in(
                    l.keys(),
                    here,
                    there,
                    l.keys().len() as int,
                )
                &&& diff::items(c.removed_files@) == diff::only_in(
                    s.keys(),
                    there,
                    here,
                    s.keys().len() as int,
                )
                &&& diff::changes(c.changed_files@) == diff::changed_in(
                    l.keys(),
                    here,
                    there,
                    l.keys().len() as int,
                )
            },
{
    let local = &laid.local;
    let studio = &laid.studio;
    let here = collect_local_nodes(local, local_services);
    let there = collect_studio_services(studio, studio_services);
    let report = compare(&here, &there);
    proof {
        assert(diff::nodes_of(here) == diff::nodes_of(here));
        assert(diff::nodes_of(there) == diff::nodes_of(there));
    }
    InitialComparison {
        new_files: report.added,
        changed_files: report.changed,
        removed_files: report.removed,
    }
}

/// What the end of a comparison calls for.
#[derive(Debug, Clone, Copy, PartialEq, Eq, Structural)]
pub enum FinishStep {
    /// Hold the staged contents against the disk once more, then agree on them.
    RevalidateStaged,
    /// Read and agree on the contents of all scripts.
    SeedBaselines,
    /// Ask for a choice.
    Ask,
}

/// What a finished comparison calls for, whose contents were staged or not.
pub open spec fn next_step(comparison: InitialComparison, staged: bool) -> FinishStep {
    if !comparison.clean() {
        FinishStep::Ask
    } else if staged {
        FinishStep::RevalidateStaged
    } else {
        FinishStep::SeedBaselines
    }
}

/// What to do with a finished comparison, whose contents were staged or not.
pub fn finish_initial_comparison(comparison: &InitialComparison, staged: bool) -> (r: FinishStep)
    ensures
        r == next_step(*comparison, staged),
{
    if !comparison.is_clean() {
        FinishStep::Ask
    } else if staged {
        FinishStep::RevalidateStaged
    } else {
        FinishStep::SeedBaselines
    }
}

/// The choice that a comparison asks for.
pub fn park_choice(
    choice_id: String,
    disk_stats: Stats,
    studio_stats: Stats,
    comparison: &InitialComparison,
    service_generations: Vec<TreeGeneration>,
) -> (r: Result<PendingInitial, DetailsProblem>)
    ensures
        ({
            let items = initial_sync::listed(*comparison);
            match r {
                Err(DetailsProblem::CountOverflow) => items.len() > usize::MAX,
                Err(DetailsProblem::TooMany) => u32::MAX < items.len() <= usize::MAX,
                Err(DetailsProblem::DuplicatePath) => items.len() <= u32::MAX
                    && initial_sync::has_duplicate_path(items),
                Ok(p) => {
                    &&& p.wf()
                    &&& p.choice_id == choice_id
                    &&& p.disk_stats == disk_stats && p.studio_stats == studio_stats
                    &&& p.choice is None && p.selected_disk_paths is None && p.selection is None
                    &&& p.service_generations == service_generations
                    &&& items.len() <= u32::MAX && !initial_sync::has_duplicate_path(items)
                    &&& initial_sync::item_models(p.details@) == initial_sync::sorted_items(items)
                    &&& forall|i: int|
                        0 <= i < p.details@.len() ==> (#[trigger] p.details@[i]).id == i
                    &&& p.summary.new_files == comparison.new_files@.len()
                    &&& p.summary.changed_files == comparison.changed_files@.len()
                    &&& p.summary.removed_files == comparison.removed_files@.len()
                },
            }
        }),
{
    let details = match initial_choice_details_from_comparison(comparison) {
        Err(p) => return Err(p),
        Ok(details) => details,
    };
    Ok(
        PendingInitial {
            choice_id,
            disk_stats,
            studio_stats,
            choice: None,
            service_generations,
            details,
            summary: comparison.summary(),
            selected_disk_paths: None,
            selection: None,
        },
    )
}

/// Why a choice is not taken.
#[derive(Debug, Clone, Copy, PartialEq, Eq, Structural)]
pub enum ChoiceProblem {
    /// Keeping the disk side takes the mode `all`.
    DiskNeedsMode,
    /// Only the disk side takes a mode.
    ModeWithoutDisk,
    Unknown,
    NoPending,
    Resolved,
}

/// What a choice and its mode say.
pub open spec fn choice_of(choice: Seq<char>, mode: Option<Seq<char>>) -> Result<
    Choice,
    ChoiceProblem,
> {
    if choice == "disk"@ {
        if mode == Some("all"@) {
            Ok(Choice::Disk)
        } else {
            Err(ChoiceProblem::DiskNeedsMode)
        }
    } else if choice == "studio"@ || choice == "cancel"@ {
        if mode is Some {
            Err(ChoiceProblem::ModeWithoutDisk)
        } else if choice == "studio"@ {
            Ok(Choice::Studio)
        } else {
            Ok(Choice::Cancel)
        }
    } else {
        Err(ChoiceProblem::Unknown)
    }
}

pub fn parse_choice(choice: &str, mode: Option<&str>) -> (r: Result<Choice, ChoiceProblem>)
    ensures
        r == choice_of(
            choice@,
            match mode {
                Some(m) => Some(m@),
                None => None,
            },
        ),
{
    proof {
        reveal_strlit("disk");
        reveal_strlit("studio");
        reveal_strlit("cancel");
    }
    if same(choice, "disk") {
        let all = match mode {
            Some(mode) => same(mode, "all"),
            None => false,
        };
        return if all {
            Ok(Choice::Disk)
        } else {
            Err(ChoiceProblem::DiskNeedsMode)
        };
    }
    let studio = same(choice, "studio");
    if studio || same(choice, "cancel") {
        return if mode.is_some() {
            Err(ChoiceProblem::ModeWithoutDisk)
        } else if studio {
            Ok(Choice::Studio)
        } else {
            Ok(Choice::Cancel)
        };
    }
    Err(ChoiceProblem::Unknown)
}

pub open spec fn choice_text(choice: Choice) -> Seq<char> {
    match choice {
        Choice::Disk => "disk"@,
        Choice::Studio => "studio"@,
        Choice::Cancel => "cancel"@,
    }
}

pub fn initial_choice_name(choice: Choice) -> (r: &'static str)
    ensures
        r@ == choice_text(choice),
{
    match choice {
        Choice::Disk => "disk",
        Choice::Studio => "studio",
        Choice::Cancel => "cancel",
    }
}

/// Whether answering a choice is new; a repeated answer is not.
pub open spec fn answer_outcome(slot: Option<PendingInitial>, choice_id: Seq<char>, choice: Choice) -> Result<
    bool,
    ChoiceProblem,
> {
    match slot {
        None => Err(ChoiceProblem::NoPending),
        Some(p) => if p.choice_id@ != choice_id {
            Err(ChoiceProblem::NoPending)
        } else {
            match p.choice {
                None => Ok(true),
                Some(existing) => if existing == choice && (choice != Choice::Disk
                    || p.selected_disk_paths is None) {
                    Ok(false)
                } else {
                    Err(ChoiceProblem::Resolved)
                },
            }
        },
    }
}

/// Answers a choice for everything.
/// The choice after an answer.
pub open spec fn answered(slot: Option<PendingInitial>, choice_id: Seq<char>, choice: Choice) -> Option<
    PendingInitial,
> {
    if answer_outcome(slot, choice_id, choice) == Ok::<bool, ChoiceProblem>(true) {
        Some(
            PendingInitial {
                choice: Some(choice),
                selected_disk_paths: None,
                selection: None,
                ..slot->0
            },
        )
    } else {
        slot
    }
}

pub fn initial_choice(slot: &mut Option<PendingInitial>, choice_id: &str, choice: Choice) -> (r: Result<
    bool,
    ChoiceProblem,
>)
    requires
        *old(slot) matches Some(p) ==> p.wf(),
    ensures
        r == answer_outcome(*old(slot), choice_id@, choice),
        *final(slot) matches Some(p) ==> p.wf(),
        *final(slot) == answered(*old(slot), choice_id@, choice),
{
    let mut pending = match slot.take() {
        None => return Err(ChoiceProblem::NoPending),
        Some(pending) => pending,
    };
    if !same(pending.choice_id.as_str(), choice_id) {
        *slot = Some(pending);
        return Err(ChoiceProblem::NoPending);
    }
    if let Some(existing) = pending.choice {
        let again = existing == choice && (choice != Choice::Disk
            || pending.selected_disk_paths.is_none());
        *slot = Some(pending);
        return if again {
            Ok(false)
        } else {
            Err(ChoiceProblem::Resolved)
        };
    }
    pending.choice = Some(choice);
    pending.selected_disk_paths = None;
    pending.selection = None;
    *slot = Some(pending);
    Ok(true)
}

/// Why a choice cannot be answered for Studio.
pub open spec fn studio_refusal(slot: Option<&PendingInitial>, choice_id: Seq<char>) -> Result<
    (),
    ChoiceProblem,
> {
    match slot {
        None => Err(ChoiceProblem::NoPending),
        Some(p) => if p.choice_id@ != choice_id {
            Err(ChoiceProblem::NoPending)
        } else if p.choice is Some {
            Err(ChoiceProblem::Resolved)
        } else {
            Ok(())
        },
    }
}

/// Whether a choice for Studio may be answered at all, before the services are
/// held against the disk.
pub fn check_studio_choice(slot: Option<&PendingInitial>, choice_id: &str) -> (r: Result<
    (),
    ChoiceProblem,
>)
    ensures
        r == studio_refusal(slot, choice_id@),
{
    match slot {
        None => Err(ChoiceProblem::NoPending),
        Some(p) => {
            if !same(p.choice_id.as_str(), choice_id) {
                return Err(ChoiceProblem::NoPending);
            }
            if p.choice.is_some() {
                return Err(ChoiceProblem::Resolved);
            }
            Ok(())
        },
    }
}

/// The default to keep for later meetings, where it is a new one.
pub fn persist_initial_choice_default(current: Option<&str>, choice: Choice) -> (r: Option<
    &'static str,
>)
    ensures
        match r {
            Some(value) => choice != Choice::Cancel && value@ == choice_text(choice) && (match current {
                Some(c) => c@ != value@,
                None => true,
            }),
            None => choice == Choice::Cancel || (current matches Some(c) && c@ == choice_text(
                choice,
            )),
        },
{
    if choice == Choice::Cancel {
        return None;
    }
    let value = initial_choice_name(choice);
    if let Some(current) = current {
        if same(current, value) {
            return None;
        }
    }
    Some(value)
}

/// Whether Studio may overwrite the script of a difference on its own.
pub open spec fn is_delta(item: InitialChoiceItem) -> bool {
    &&& item.action == InitialChoiceAction::Overwrite
    &&& item.kind@ == "script"@
    &&& !item.class_changed
    &&& item.source_changed
}

/// The paths of such scripts among the first `n` differences.
pub open spec fn delta_paths(details: Seq<InitialChoiceItem>, n: int) -> Seq<Seq<char>>
    decreases n,
{
    if n <= 0 {
        Seq::empty()
    } else if is_delta(details[n - 1]) {
        delta_paths(details, n - 1).push(details[n - 1].path@)
    } else {
        delta_paths(details, n - 1)
    }
}

pub fn delta_source_paths(details: &Vec<InitialChoiceItem>) -> (out: Vec<String>)
    ensures
        disk_index::texts(out@) == delta_paths(details@, details@.len() as int),
{
    let mut out: Vec<String> = Vec::new();
    let mut k: usize = 0;
    proof {
        assert(disk_index::texts(out@) =~= delta_paths(details@, 0));
    }
    while k < details.len()
        invariant
            k <= details@.len(),
            disk_index::texts(out@) == delta_paths(details@, k as int),
        decreases details@.len() - k,
    {
        let item = &details[k];
        if item.action == InitialChoiceAction::Overwrite && same(item.kind.as_str(), "script")
            && !item.class_changed && item.source_changed {
            let ghost before = out@;
            out.push(owned(item.path.as_str()));
            proof {
                assert(disk_index::texts(out@) =~= disk_index::texts(before).push(item.path@));
            }
        }
        k += 1;
    }
    out
}

/// What Studio may send after it was chosen.
#[derive(Debug)]
pub struct StudioTransferGrant {
    pub service_generations: Vec<TreeGeneration>,
    /// The scripts that may be overwritten one by one.
    pub delta_source_paths: Vec<String>,
}

/// What a question for a decision is answered.
#[derive(Debug)]
pub enum Decision {
    /// The choice is not known.
    Stale,
    Waiting,
    /// Ask again.
    Pending,
    Cancel,
    /// Everything from disk.
    Disk,
    /// The selected paths from disk.
    Selected(Vec<String>),
    Studio(StudioTransferGrant),
}

/// Whether `r` answers a question for a decision, `waited` milliseconds after it was
/// put, and leaves `after`.
pub open spec fn decided(
    slot: Option<PendingInitial>,
    choice_id: Seq<char>,
    waited: u64,
    r: Decision,
    after: Option<PendingInitial>,
) -> bool {
    match slot {
        None => r is Stale && after is None,
        Some(p) => if p.choice_id@ != choice_id {
            r is Stale && after == slot
        } else {
            match p.choice {
                None => {
                    &&& after == slot
                    &&& waited >= DECISION_POLL_MS ==> r is Pending
                    &&& waited < DECISION_POLL_MS ==> r is Waiting
                },
                Some(choice) => {
                    &&& after is None
                    &&& match choice {
                        Choice::Cancel => r is Cancel,
                        Choice::Disk => match p.selected_disk_paths {
                            Some(paths) => r == Decision::Selected(paths),
                            None => r is Disk,
                        },
                        Choice::Studio => r matches Decision::Studio(grant)
                            && grant.service_generations == p.service_generations
                            && disk_index::texts(grant.delta_source_paths@) == delta_paths(
                            p.details@,
                            p.details@.len() as int,
                        ),
                    }
                },
            }
        },
    }
}

/// Answers a question for a decision, `waited` milliseconds after it was put.
/// A decision is handed out once.
pub fn initial_decision(slot: &mut Option<PendingInitial>, choice_id: &str, waited: u64) -> (r:
    Decision)
    ensures
        decided(*old(slot), choice_id@, waited, r, *final(slot)),
{
    let pending = match slot.take() {
        None => return Decision::Stale,
        Some(pending) => pending,
    };
    if !same(pending.choice_id.as_str(), choice_id) {
        *slot = Some(pending);
        return Decision::Stale;
    }
    match pending.choice {
        None => {
            *slot = Some(pending);
            if waited >= DECISION_POLL_MS {
                Decision::Pending
            } else {
                Decision::Waiting
            }
        },
        Some(Choice::Cancel) => Decision::Cancel,
        Some(Choice::Disk) => match pending.selected_disk_paths {
            Some(paths) => Decision::Selected(paths),
            None => Decision::Disk,
        },
        Some(Choice::Studio) => {
            let paths = delta_source_paths(&pending.details);
            Decision::Studio(
                StudioTransferGrant {
                    service_generations: pending.service_generations,
                    delta_source_paths: paths,
                },
            )
        },
    }
}

/// Grants under a project and a choice.
pub type Grants<T> = TimedStore<T>;

fn grant_key(project: &str, choice_id: &str) -> (key: Vec<String>)
    ensures
        disk_index::texts(key@) == seq![project@, choice_id@],
{
    let mut key: Vec<String> = Vec::new();
    key.push(owned(project));
    key.push(owned(choice_id));
    proof {
        assert(disk_index::texts(key@) =~= seq![project@, choice_id@]);
    }
    key
}

/// Grants something, after the grants that are out of date were dropped.
pub fn give_grant<T>(
    grants: &mut TimedStore<T>,
    project: &str,
    choice_id: &str,
    value: T,
    now: u64,
    ttl: u64,
)
    ensures
        ({
            let young = timed_store::alive(
                old(grants).entries@,
                now,
                ttl,
                old(grants).entries@.len() as int,
            );
            exists|e: timed_store::TimedEntry<T>|
                #![trigger timed_store::key_of(e)]
                timed_store::key_of(e) == seq![project@, choice_id@] && e.value == value && e.at
                    == now && final(grants).entries@ == timed_store::with_put(young, e)
        }),
{
    grants.prune(now, ttl);
    let key = grant_key(project, choice_id);
    let ghost e = timed_store::TimedEntry { key, value, at: now };
    proof {
        assert(timed_store::key_of(e) == seq![project@, choice_id@]);
    }
    grants.put(key, value, now);
}

/// Uses up a grant, after those that are out of date were dropped.
pub fn take_grant<T>(
    grants: &mut TimedStore<T>,
    project: &str,
    choice_id: &str,
    now: u64,
    ttl: u64,
) -> (r: Option<T>)
    ensures
        ({
            let young = timed_store::alive(
                old(grants).entries@,
                now,
                ttl,
                old(grants).entries@.len() as int,
            );
            match timed_store::place(young, seq![project@, choice_id@], 0) {
                Some(k) => r == Some(young[k].value) && final(grants).entries@ == young.remove(k),
                None => r is None && final(grants).entries@ == young,
            }
        }),
{
    grants.prune(now, ttl);
    let key = grant_key(project, choice_id);
    grants.take(&key)
}

} // verus!
