//! What holds of the first meeting of the two sides: what it leads to, what is put
//! to the user, and how an answer is kept.
use vstd::prelude::*;

use crate::decision;
use crate::decision::{ChoiceProblem, Decision, FinishStep, InitialAction};
use crate::details;
use crate::diff::DiffKind;
use crate::disk_index;
use crate::fs_map;
use crate::fs_map::ScriptClass;
use crate::fs_safety;
use crate::initial_sync;
use crate::initial_sync::{
    Choice, InitialChoiceAction, InitialChoiceItem, InitialComparison, ItemModel, Stats,
};
use crate::ranking;
use crate::selection;
use crate::selection::{
    InitialSelectionAccumulator, InitialSelectionReceipt, Judgement, PendingInitial,
    SelectionProblem,
};

verus! {

/// A side that holds anything is never overwritten without being compared: the one
/// side is taken over whole only where the other is empty.
pub proof fn law_only_an_empty_side_is_filled(disk: Stats, studio: Stats, trees: usize)
    ensures
        ({
            let r = decision::called_for(disk, studio, trees);
            let disk_holds = disk.script_count > 0 || disk.instance_count > 0;
            let studio_holds = studio.script_count > 0 || studio.instance_count > 0;
            &&& r == InitialAction::Push <==> !disk_holds
            &&& r == InitialAction::Pull <==> disk_holds && !studio_holds
            &&& r == InitialAction::CompareTrees <==> disk_holds && studio_holds && trees > 0
            &&& r == InitialAction::Stream <==> disk_holds && studio_holds && trees == 0
        }),
{
}

/// A choice is asked for exactly where there is a difference.
pub proof fn law_a_difference_is_asked_about(c: InitialComparison, staged: bool)
    ensures
        decision::next_step(c, staged) == FinishStep::Ask <==> initial_sync::listed(c).len() > 0,
        decision::next_step(c, staged) == FinishStep::RevalidateStaged ==> staged,
        decision::next_step(c, staged) == FinishStep::SeedBaselines ==> !staged,
{
}

/// The texts that stand for a choice: the disk side takes the mode `all`, and no
/// other choice takes a mode.
pub proof fn law_choices_are_read(choice: Seq<char>, mode: Option<Seq<char>>, c: Choice)
    ensures
        decision::choice_of(choice, mode) == Ok::<Choice, ChoiceProblem>(c) <==> choice
            == decision::choice_text(c) && mode == (if c == Choice::Disk {
            Some("all"@)
        } else {
            None
        }),
        decision::choice_text(Choice::Disk) == "disk"@,
        decision::choice_text(Choice::Studio) == "studio"@,
        decision::choice_text(Choice::Cancel) == "cancel"@,
        decision::choice_of(choice, mode) == Err::<Choice, ChoiceProblem>(ChoiceProblem::Unknown)
            <==> choice != "disk"@ && choice != "studio"@ && choice != "cancel"@,
{
    reveal_strlit("disk");
    reveal_strlit("studio");
    reveal_strlit("cancel");
    assert("disk"@.len() == 4 && "studio"@.len() == 6 && "cancel"@.len() == 6);
    assert("studio"@[0] == 's' && "cancel"@[0] == 'c');
}

/// The first answer to a choice stands: given again it is confirmed, and another
/// answer is refused.
pub proof fn law_first_answer_stands(p: PendingInitial, id: Seq<char>, first: Choice, later: Choice)
    requires
        p.choice is None,
        p.choice_id@ == id,
    ensures
        ({
            let slot = decision::answered(Some(p), id, first);
            let again = decision::answer_outcome(slot, id, later);
            &&& decision::answer_outcome(Some(p), id, first) == Ok::<bool, ChoiceProblem>(true)
            &&& slot matches Some(q) && q.choice == Some(first) && q.choice_id == p.choice_id
                && q.details == p.details && q.service_generations == p.service_generations
            &&& again == (if later == first {
                Ok::<bool, ChoiceProblem>(false)
            } else {
                Err(ChoiceProblem::Resolved)
            })
            &&& decision::answered(slot, id, later) == slot
            &&& decision::studio_refusal(Some(&slot->0), id) == Err::<(), ChoiceProblem>(
                ChoiceProblem::Resolved,
            )
        }),
{
}

/// An answer to a choice that is not the one at hand changes nothing.
pub proof fn law_stale_answer_is_refused(slot: Option<PendingInitial>, id: Seq<char>, c: Choice)
    requires
        slot matches Some(p) ==> p.choice_id@ != id,
    ensures
        decision::answer_outcome(slot, id, c) == Err::<bool, ChoiceProblem>(
            ChoiceProblem::NoPending,
        ),
        decision::answered(slot, id, c) == slot,
        slot matches Some(p) ==> decision::studio_refusal(Some(&p), id) == Err::<
            (),
            ChoiceProblem,
        >(ChoiceProblem::NoPending),
{
}

/// Where a subset of the disk side was chosen, no answer for a whole side replaces
/// it.
pub proof fn law_chosen_subset_stands(p: PendingInitial, c: Choice)
    requires
        p.choice == Some(Choice::Disk),
        p.selected_disk_paths is Some,
    ensures
        decision::answer_outcome(Some(p), p.choice_id@, c) == Err::<bool, ChoiceProblem>(
            ChoiceProblem::Resolved,
        ),
        decision::answered(Some(p), p.choice_id@, c) == Some(p),
{
}

/// The answer is what the next question for a decision gets; after that the choice
/// is gone.
pub proof fn law_answer_is_handed_out_once(
    p: PendingInitial,
    c: Choice,
    waited: u64,
    r: Decision,
    after: Option<PendingInitial>,
    id: Seq<char>,
    later: u64,
    r2: Decision,
    after2: Option<PendingInitial>,
)
    requires
        p.choice is None,
        decision::decided(
            decision::answered(Some(p), p.choice_id@, c),
            p.choice_id@,
            waited,
            r,
            after,
        ),
        decision::decided(after, id, later, r2, after2),
    ensures
        c == Choice::Disk <==> r is Disk,
        c == Choice::Cancel <==> r is Cancel,
        c == Choice::Studio <==> r is Studio,
        r matches Decision::Studio(g) ==> g.service_generations == p.service_generations,
        r2 is Stale && after2 is None,
{
}

/// The subset that was chosen is what the question for a decision gets.
pub proof fn law_chosen_subset_is_handed_out(
    p: PendingInitial,
    waited: u64,
    r: Decision,
    after: Option<PendingInitial>,
)
    requires
        p.choice == Some(Choice::Disk),
        p.selected_disk_paths is Some,
        decision::decided(Some(p), p.choice_id@, waited, r, after),
    ensures
        r == Decision::Selected(p.selected_disk_paths->0),
        after is None,
{
}

/// A question waits for the answer for a minute, and waiting changes nothing.
pub proof fn law_question_waits(
    p: PendingInitial,
    waited: u64,
    r: Decision,
    after: Option<PendingInitial>,
)
    requires
        p.choice is None,
        decision::decided(Some(p), p.choice_id@, waited, r, after),
    ensures
        after == Some(p),
        r is Waiting <==> waited < 60_000,
        r is Pending <==> waited >= 60_000,
{
}

/// With Studio chosen, the scripts that it may overwrite one by one are those that
/// both sides have with the same class and different contents.
pub proof fn law_studio_may_overwrite_changed_scripts(
    p: PendingInitial,
    waited: u64,
    r: Decision,
    after: Option<PendingInitial>,
    path: Seq<char>,
)
    requires
        p.choice == Some(Choice::Studio),
        decision::decided(Some(p), p.choice_id@, waited, r, after),
    ensures
        r matches Decision::Studio(g) && (disk_index::texts(g.delta_source_paths@).contains(path)
            <==> exists|k: int|
            0 <= k < p.details@.len() && (#[trigger] p.details@[k]).path@ == path
                && p.details@[k].action == InitialChoiceAction::Overwrite && p.details@[k].kind@
                == "script"@ && !p.details@[k].class_changed && p.details@[k].source_changed),
{
    lemma_delta_paths(p.details@, p.details@.len() as int, path);
}

proof fn lemma_delta_paths(details: Seq<InitialChoiceItem>, n: int, path: Seq<char>)
    requires
        0 <= n <= details.len(),
    ensures
        decision::delta_paths(details, n).contains(path) <==> exists|k: int|
            0 <= k < n && (#[trigger] details[k]).path@ == path && details[k].action
                == InitialChoiceAction::Overwrite && details[k].kind@ == "script"@
                && !details[k].class_changed && details[k].source_changed,
    decreases n,
{
    if n > 0 {
        lemma_delta_paths(details, n - 1, path);
        let before = decision::delta_paths(details, n - 1);
        let item = details[n - 1];
        if item.action == InitialChoiceAction::Overwrite && item.kind@ == "script"@
            && !item.class_changed && item.source_changed {
            let all = before.push(item.path@);
            assert(all[before.len() as int] == item.path@);
            if before.contains(path) {
                let i = choose|i: int| 0 <= i < before.len() && before[i] == path;
                assert(all[i] == path);
            }
            if all.contains(path) && item.path@ != path {
                let i = choose|i: int| 0 <= i < all.len() && all[i] == path;
                assert(before[i] == path);
            }
        }
    }
}

/// The words for what stands at a path.
pub proof fn law_kinds_have_words(kind: DiffKind)
    ensures
        initial_sync::kind_text(kind) == (if kind == DiffKind::Script {
            "script"@
        } else {
            "folder"@
        }),
{
}

proof fn lemma_sorted_place(items: Seq<ItemModel>, k: int) -> (q: int)
    requires
        0 <= k < items.len(),
    ensures
        0 <= q < items.len(),
        initial_sync::sorted_items(items).len() == items.len(),
        initial_sync::sorted_items(items)[q] == items[k],
{
    let rows = initial_sync::item_rows(items);
    ranking::lemma_ranking(rows);
    let order = ranking::ranking(rows);
    assert(order.contains(k));
    choose|q: int| 0 <= q < order.len() && order[q] == k
}

/// Every path that only the disk side has is listed, to be created.
pub proof fn law_new_path_is_listed(c: InitialComparison, k: int) -> (q: int)
    requires
        0 <= k < c.new_files@.len(),
    ensures
        ({
            let all = initial_sync::sorted_items(initial_sync::listed(c));
            &&& all.len() == c.new_files@.len() + c.changed_files@.len() + c.removed_files@.len()
            &&& 0 <= q < all.len()
            &&& all[q].action == InitialChoiceAction::Create
            &&& all[q].path == c.new_files@[k].path@
            &&& all[q].class == Some(c.new_files@[k].class@)
            &&& all[q].kind == initial_sync::kind_text(c.new_files@[k].kind)
            &&& all[q].local_class is None && all[q].studio_class is None
            &&& !all[q].class_changed && !all[q].source_changed
        }),
{
    lemma_sorted_place(initial_sync::listed(c), k)
}

/// Every path that only the Studio side has is listed, to be removed.
pub proof fn law_removed_path_is_listed(c: InitialComparison, k: int) -> (q: int)
    requires
        0 <= k < c.removed_files@.len(),
    ensures
        ({
            let all = initial_sync::sorted_items(initial_sync::listed(c));
            &&& all.len() == c.new_files@.len() + c.changed_files@.len() + c.removed_files@.len()
            &&& 0 <= q < all.len()
            &&& all[q].action == InitialChoiceAction::Remove
            &&& all[q].path == c.removed_files@[k].path@
            &&& all[q].class == Some(c.removed_files@[k].class@)
            &&& all[q].kind == initial_sync::kind_text(c.removed_files@[k].kind)
            &&& all[q].local_class is None && all[q].studio_class is None
            &&& !all[q].class_changed && !all[q].source_changed
        }),
{
    lemma_sorted_place(
        initial_sync::listed(c),
        c.new_files@.len() + c.changed_files@.len() + k,
    )
}

/// Every path that differs is listed, to be overwritten, with what it is on either
/// side and what differs.
pub proof fn law_changed_path_is_listed(c: InitialComparison, k: int) -> (q: int)
    requires
        0 <= k < c.changed_files@.len(),
    ensures
        ({
            let all = initial_sync::sorted_items(initial_sync::listed(c));
            let item = c.changed_files@[k];
            &&& all.len() == c.new_files@.len() + c.changed_files@.len() + c.removed_files@.len()
            &&& 0 <= q < all.len()
            &&& all[q].action == InitialChoiceAction::Overwrite
            &&& all[q].path == item.path@
            &&& all[q].kind == initial_sync::kind_text(item.kind)
            &&& all[q].class is None
            &&& all[q].local_class == Some(item.local_class@)
            &&& all[q].studio_class == Some(item.studio_class@)
            &&& all[q].class_changed == item.class_changed
            &&& all[q].source_changed == item.source_changed
        }),
{
    lemma_sorted_place(initial_sync::listed(c), c.new_files@.len() + k)
}

/// Nothing else is listed: every listed path is one on which the sides differ.
pub proof fn law_only_differences_are_listed(c: InitialComparison, q: int) -> (k: int)
    requires
        0 <= q < initial_sync::sorted_items(initial_sync::listed(c)).len(),
    ensures
        ({
            let item = initial_sync::sorted_items(initial_sync::listed(c))[q];
            &&& 0 <= k
            &&& match item.action {
                InitialChoiceAction::Create => k < c.new_files@.len() && item.path
                    == c.new_files@[k].path@,
                InitialChoiceAction::Overwrite => k < c.changed_files@.len() && item.path
                    == c.changed_files@[k].path@,
                InitialChoiceAction::Remove => k < c.removed_files@.len() && item.path
                    == c.removed_files@[k].path@,
            }
        }),
{
    let items = initial_sync::listed(c);
    let rows = initial_sync::item_rows(items);
    ranking::lemma_ranking(rows);
    let at = ranking::ranking(rows)[q];
    assert(0 <= at < items.len());
    if at < c.new_files@.len() {
        at
    } else if at < c.new_files@.len() + c.changed_files@.len() {
        at - c.new_files@.len()
    } else {
        at - c.new_files@.len() - c.changed_files@.len()
    }
}

/// A plain init file is not counted beside the directory that it describes.
pub proof fn law_plain_init_is_not_counted(e: fs_safety::EntryModel, class: ScriptClass)
    requires
        e.fragment == "init"@ + class.suffix_text(),
    ensures
        !initial_sync::is_counted_script(e),
{
    reveal_strlit("init");
    fs_map::law_file_name_tells_the_class(e.fragment);
    if initial_sync::is_counted_script(e) {
        lemma_init_stem(class);
    }
}

proof fn lemma_init_stem(class: ScriptClass)
    ensures
        fs_map::plain_init("init"@ + class.suffix_text()) is Some,
{
    let file = "init"@ + class.suffix_text();
    reveal_strlit("init");
    reveal_strlit(".server.luau");
    reveal_strlit(".client.luau");
    reveal_strlit(".server.lua");
    reveal_strlit(".client.lua");
    reveal_strlit(".luau");
    reveal_strlit(".lua");
    fs_map::law_file_name_tells_the_class(file);
    assert(file.subrange(file.len() - class.suffix_text().len(), file.len() as int)
        =~= class.suffix_text());
    assert(file.subrange(file.len() - ".luau"@.len(), file.len() as int) =~= ".luau"@);
    assert(".luau"@.is_suffix_of(file));
    let (found, stem) = fs_map::classified(file)->0;
    if class != ScriptClass::ModuleScript {
        assert(class.suffix_text().is_suffix_of(file));
    } else {
        assert(file.len() == 9);
    }
    if class == ScriptClass::Script {
        assert(file[5] == 's');
        if ".client.luau"@.is_suffix_of(file) {
            assert(file.subrange(4, 16)[1] == 'c');
        }
    }
    if class == ScriptClass::LocalScript {
        assert(file[5] == 'c');
        if ".server.luau"@.is_suffix_of(file) {
            assert(file.subrange(4, 16)[1] == 's');
        }
    }
    if ".server.lua"@.is_suffix_of(file) || ".client.lua"@.is_suffix_of(file) {
        assert(file.subrange(file.len() - 11, file.len() as int)[10] == file.last());
        assert(file.last() == 'u');
    }
    assert(stem =~= "init"@);
}

/// The size of a list of the first `n` items of these sizes, with its brackets and
/// commas.
pub open spec fn list_size(sizes: Seq<usize>, n: int) -> int
    decreases n,
{
    if n <= 0 {
        2
    } else if n == 1 {
        2 + sizes[0]
    } else {
        list_size(sizes, n - 1) + 1 + sizes[n - 1]
    }
}

/// A page is as full as it can be: it stays within the limit, and with one item more
/// it would not.
pub proof fn law_page_is_full(sizes: Seq<usize>, envelope: int)
    ensures
        ({
            let n = details::page_count(sizes, envelope, 2, 0);
            &&& 0 <= n <= sizes.len()
            &&& n > 0 ==> envelope + list_size(sizes, n) <= 524_288
            &&& n < sizes.len() ==> envelope + list_size(sizes, n + 1) > 524_288
        }),
{
    lemma_page(sizes, envelope, 0);
}

proof fn lemma_page(sizes: Seq<usize>, envelope: int, n: int)
    requires
        0 <= n <= sizes.len(),
        n > 0 ==> envelope + list_size(sizes, n) <= 524_288,
    ensures
        ({
            let m = details::page_count(sizes, envelope, list_size(sizes, n), n);
            &&& n <= m <= sizes.len()
            &&& m > 0 ==> envelope + list_size(sizes, m) <= 524_288
            &&& m < sizes.len() ==> envelope + list_size(sizes, m + 1) > 524_288
        }),
    decreases sizes.len() - n,
{
    if n < sizes.len() {
        assert(list_size(sizes, n + 1) == list_size(sizes, n) + (if n > 0 {
            1int
        } else {
            0
        }) + sizes[n]) by {
            reveal_with_fuel(list_size, 2);
        }
        if envelope + list_size(sizes, n + 1) <= 524_288 {
            lemma_page(sizes, envelope, n + 1);
        }
    }
}

/// A page holds as many differences as are asked for, within its bounds.
pub proof fn law_page_holds_what_is_asked_for(asked: Option<usize>)
    ensures
        1 <= details::page_limit(asked) <= 1024,
        asked matches Some(n) && 1 <= n <= 1024 ==> details::page_limit(asked) == asked->0,
        asked == Some(0usize) ==> details::page_limit(asked) == 1,
        asked matches Some(n) && n > 1024 ==> details::page_limit(asked) == 1024,
        asked is None ==> details::page_limit(asked) == 512,
{
}

/// The pages of a choice that is not answered follow one another: the first begins at
/// the first difference, and every other where its cursor says.
pub proof fn law_pages_follow_one_another(p: PendingInitial, n: nat)
    requires
        p.choice is None,
    ensures
        details::page_start(Some(&p), p.choice_id@, None) == Ok::<nat, details::PageProblem>(0),
        n <= p.details@.len() ==> details::page_start(
            Some(&p),
            p.choice_id@,
            Some(Ok(n)),
        ) == Ok::<nat, details::PageProblem>(n),
        n > p.details@.len() ==> details::page_start(
            Some(&p),
            p.choice_id@,
            Some(Ok(n)),
        ) == Err::<nat, details::PageProblem>(details::PageProblem::OutOfRange),
{
}

/// No page is handed out of a choice that is answered or not the one at hand.
pub proof fn law_pages_are_of_the_open_choice(
    slot: Option<&PendingInitial>,
    id: Seq<char>,
    offset: Option<Result<nat, details::CursorProblem>>,
)
    requires
        slot matches Some(p) ==> p.choice_id@ != id || p.choice is Some,
    ensures
        details::page_start(slot, id, offset) is Err,
{
}

/// A chunk is taken into a selection exactly where it is the next one and names
/// differences that were not named before.
pub proof fn law_next_chunk_is_taken(
    s: InitialSelectionAccumulator,
    count: int,
    q: InitialSelectionReceipt,
)
    requires
        s.wf(),
    ensures
        selection::judged(Some(s), count, s.submission_id@, q) is Continued <==> {
            &&& q.chunk_index == s.receipts@.len()
            &&& forall|k: int|
                0 <= k < q.ids@.len() ==> #[trigger] q.ids@[k] < count
                    && !s.selected_ids@.contains(q.ids@[k])
            &&& forall|i: int, j: int|
                0 <= i < j < q.ids@.len() ==> #[trigger] q.ids@[i] != #[trigger] q.ids@[j]
        },
{
    let d = selection::judged(Some(s), count, s.submission_id@, q);
    lemma_receipt_place(s.receipts@, q.chunk_index, 0);
    if q.chunk_index == s.receipts@.len() {
        assert(selection::receipt_at(s.receipts@, q.chunk_index, 0) is None);
    }
    if d is Continued {
        assert forall|k: int| 0 <= k < q.ids@.len() implies #[trigger] q.ids@[k] < count
            && !s.selected_ids@.contains(q.ids@[k]) by {}
    }
}

proof fn lemma_receipt_place(s: Seq<InitialSelectionReceipt>, chunk: u32, k: int)
    requires
        0 <= k,
    ensures
        selection::receipt_at(s, chunk, k) matches Some(i) ==> k <= i < s.len() && s[i].chunk_index
            == chunk,
    decreases s.len() - k,
{
    if k < s.len() && s[k].chunk_index != chunk {
        lemma_receipt_place(s, chunk, k + 1);
    }
}

/// A selection begins with its chunk zero, which asks for it, also where another one
/// has begun.
pub proof fn law_selection_begins_with_its_first_chunk(
    s: Option<InitialSelectionAccumulator>,
    count: int,
    submission: Seq<char>,
    q: InitialSelectionReceipt,
)
    requires
        s matches Some(a) ==> a.submission_id@ != submission,
        forall|k: int| 0 <= k < q.ids@.len() ==> #[trigger] q.ids@[k] < count,
        forall|i: int, j: int|
            0 <= i < j < q.ids@.len() ==> #[trigger] q.ids@[i] != #[trigger] q.ids@[j],
    ensures
        selection::judged(s, count, submission, q) is Started <==> q.chunk_index == 0 && q.restart,
        !(q.chunk_index == 0 && q.restart) ==> selection::judged(s, count, submission, q)
            == Judgement::Refused(
            if s is Some {
                SelectionProblem::OtherSelection
            } else {
                SelectionProblem::MustRestart
            },
        ),
{
}

/// A chunk that names no difference, or one twice, is refused whatever has begun.
pub proof fn law_chunk_names_known_differences_once(
    s: Option<InitialSelectionAccumulator>,
    count: int,
    submission: Seq<char>,
    q: InitialSelectionReceipt,
    i: int,
    j: int,
)
    requires
        0 <= i < q.ids@.len(),
        0 <= j < q.ids@.len(),
    ensures
        q.ids@[i] >= count ==> selection::judged(s, count, submission, q) == Judgement::Refused(
            SelectionProblem::UnknownId,
        ),
        i != j && q.ids@[i] == q.ids@[j] ==> selection::judged(s, count, submission, q) is Refused,
{
    if i != j && q.ids@[i] == q.ids@[j] {
        if i < j {
            assert(q.ids@[i] == q.ids@[j]);
        } else {
            assert(q.ids@[j] == q.ids@[i]);
        }
        assert(selection::repeats(q.ids@));
    }
}

/// What a selection holds is what its chunks named.
pub open spec fn holds_what_was_named(s: InitialSelectionAccumulator) -> bool {
    forall|x: u32| #[trigger]
        s.selected_ids@.contains(x) <==> exists|k: int|
            0 <= k < s.receipts@.len() && (#[trigger] s.receipts@[k]).ids@.contains(x)
}

/// With each chunk a selection holds what all its chunks named, and the receipt says
/// how many that are and whether it is complete.
pub proof fn law_selection_holds_what_its_chunks_named(
    start: Option<InitialSelectionAccumulator>,
    submission: Seq<char>,
    q: InitialSelectionReceipt,
    now: u64,
    end: InitialSelectionAccumulator,
)
    requires
        start matches Some(s) ==> holds_what_was_named(s),
        selection::extended(start, submission, q, now, end),
    ensures
        holds_what_was_named(end),
        end.receipts@.last().selected_count == end.selected_ids@.len() as usize,
        end.receipts@.last().committed == q.final_chunk,
        selection::answers(end.receipts@.last(), q),
{
    let before: Seq<InitialSelectionReceipt> = match start {
        Some(s) => s.receipts@,
        None => Seq::empty(),
    };
    let n = before.len();
    assert(end.receipts@.drop_last() == before);
    assert forall|x: u32| #[trigger]
        end.selected_ids@.contains(x) <==> exists|k: int|
            0 <= k < end.receipts@.len() && (#[trigger] end.receipts@[k]).ids@.contains(x) by {
        if exists|k: int|
            0 <= k < end.receipts@.len() && (#[trigger] end.receipts@[k]).ids@.contains(x) {
            let k = choose|k: int|
                0 <= k < end.receipts@.len() && (#[trigger] end.receipts@[k]).ids@.contains(x);
            if k < n {
                assert(end.receipts@.drop_last()[k] == end.receipts@[k]);
                assert(before[k].ids@.contains(x));
            }
        }
        if end.selected_ids@.contains(x) {
            if q.ids@.contains(x) {
                assert(end.receipts@[n as int].ids@.contains(x));
            } else {
                let k = choose|k: int|
                    0 <= k < before.len() && (#[trigger] before[k]).ids@.contains(x);
                assert(end.receipts@.drop_last()[k] == end.receipts@[k]);
            }
        }
    }
}

/// A receipt answers the request that is the same in each part, and no other.
pub proof fn law_receipt_answers_the_same_request(
    receipt: InitialSelectionReceipt,
    q: InitialSelectionReceipt,
)
    ensures
        selection::answers(receipt, q) <==> (q@ == selection::ReceiptModel {
            selected_count: q.selected_count,
            committed: q.committed,
            ..receipt@
        }),
        selection::reply_of(receipt).accepted_chunk == receipt.chunk_index,
        receipt.chunk_index < u32::MAX ==> selection::reply_of(receipt).next_chunk
            == receipt.chunk_index + 1,
        selection::reply_of(receipt).selected_count == receipt.selected_count,
        selection::reply_of(receipt).committed == receipt.committed,
{
}

/// A selection is kept for five minutes after it was last touched.
pub proof fn law_selection_is_kept_for_a_while(s: InitialSelectionAccumulator, now: u64)
    ensures
        selection::live(Some(s), now) == (if now < s.updated_at + 300_000 {
            Some(s)
        } else {
            None
        }),
{
}

/// Each selected id stands for the path of its difference.
pub proof fn law_selected_ids_stand_for_their_paths(
    items: Seq<InitialChoiceItem>,
    ids: Seq<u32>,
    k: int,
)
    requires
        0 <= k < ids.len(),
        ids[k] < items.len(),
    ensures
        selection::selected_paths(items, ids).len() == ids.len(),
        selection::selected_paths(items, ids)[k] == items[ids[k] as int].path@,
{
}

/// The requests that are read: an abort that says nothing else, and a chunk with its
/// number, whether it is the last, and at least one id.
pub proof fn law_selection_requests_are_complete(
    tokens: bool,
    op: Option<Seq<char>>,
    chunk: Option<u32>,
    last: Option<bool>,
    restart: bool,
    ids: Seq<u32>,
)
    ensures
        selection::shape_problem(tokens, op, chunk, last, restart, ids) is None <==> tokens && (if op
            is Some {
            op->0 == "abort"@ && chunk is None && last is None && !restart && ids.len() == 0
        } else {
            &&& chunk is Some && chunk->0 < u32::MAX && last is Some
            &&& 1 <= ids.len() <= 2048
            &&& restart ==> chunk->0 == 0
        }),
{
}

/// A text that may stand for a choice is short, is not empty, and holds only
/// characters that can be shown.
pub proof fn law_tokens_can_be_shown(s: Seq<char>)
    ensures
        selection::is_token(s) <==> {
            &&& s.len() > 0
            &&& vstd::utf8::encode_utf8(s).len() <= 256
            &&& forall|k: int|
                0 <= k < s.len() ==> ' ' <= #[trigger] s[k] && (s[k] < '\u{7f}' || '\u{9f}' < s[k])
        },
{
    if selection::is_token(s) {
        assert forall|k: int| 0 <= k < s.len() implies ' ' <= #[trigger] s[k] && (s[k] < '\u{7f}'
            || '\u{9f}' < s[k]) by {
            assert(!selection::is_control(s[k]));
        }
    }
}

} // verus!
