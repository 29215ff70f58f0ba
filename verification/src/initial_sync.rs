//! What is decided when a project directory and a Studio session first meet.
use vstd::prelude::*;

use crate::diff;
use crate::diff::{ChangedItem, DiffItem, DiffKind};
use crate::fs_map;
use crate::fs_map::{classify_script_file, is_init_file};
use crate::fs_safety;
use crate::fs_safety::{
    join_path, PortableDirectoryIndex, SafeEntryKind, MAX_SERVICE_TREE_DEPTH, MAX_SERVICE_TREE_NODES,
};
use crate::ranking;
use crate::ranking::{rank, Row};
use crate::text;
use crate::text::{owned, same};
use vstd::utf8::*;

verus! {

/// How much there is on one side.
#[derive(Debug, Clone, Copy, PartialEq, Eq, Structural)]
pub struct Stats {
    pub script_count: u32,
    pub instance_count: u32,
}

impl Stats {
    pub fn is_empty(&self) -> (r: bool)
        ensures
            r == (self.script_count == 0 && self.instance_count == 0),
    {
        self.script_count == 0 && self.instance_count == 0
    }
}

/// Which side to keep.
#[derive(Debug, Clone, Copy, PartialEq, Eq, Structural)]
pub enum Choice {
    Disk,
    Studio,
    Cancel,
}

/// What keeping the disk side does to Studio at one path.
#[derive(Debug, Clone, Copy, PartialEq, Eq, Structural)]
pub enum InitialChoiceAction {
    Create,
    Overwrite,
    Remove,
}

/// One path on which the two sides differ.
#[derive(Debug, Clone, PartialEq, Eq)]
pub struct InitialChoiceItem {
    pub id: u32,
    pub action: InitialChoiceAction,
    pub path: String,
    pub kind: String,
    pub class: Option<String>,
    pub local_class: Option<String>,
    pub studio_class: Option<String>,
    pub class_changed: bool,
    pub source_changed: bool,
}

/// One difference without its id.
pub struct ItemModel {
    pub action: InitialChoiceAction,
    pub path: Seq<char>,
    pub kind: Seq<char>,
    pub class: Option<Seq<char>>,
    pub local_class: Option<Seq<char>>,
    pub studio_class: Option<Seq<char>>,
    pub class_changed: bool,
    pub source_changed: bool,
}

impl InitialChoiceItem {
    pub open spec fn view(&self) -> ItemModel {
        ItemModel {
            action: self.action,
            path: self.path@,
            kind: self.kind@,
            class: text::option_text(self.class),
            local_class: text::option_text(self.local_class),
            studio_class: text::option_text(self.studio_class),
            class_changed: self.class_changed,
            source_changed: self.source_changed,
        }
    }
}

/// How many differences there are of each kind.
#[derive(Debug, Clone, Copy, PartialEq, Eq, Structural)]
pub struct InitialChoiceSummary {
    pub new_files: usize,
    pub changed_files: usize,
    pub removed_files: usize,
}

/// The differences between the two sides.
#[derive(Debug)]
pub struct InitialComparison {
    pub new_files: Vec<DiffItem>,
    pub changed_files: Vec<ChangedItem>,
    pub removed_files: Vec<DiffItem>,
}

impl InitialComparison {
    pub open spec fn clean(&self) -> bool {
        self.new_files@.len() == 0 && self.changed_files@.len() == 0 && self.removed_files@.len()
            == 0
    }

    pub fn new() -> (c: Self)
        ensures
            c.clean(),
    {
        InitialComparison {
            new_files: Vec::new(),
            changed_files: Vec::new(),
            removed_files: Vec::new(),
        }
    }

    pub fn summary(&self) -> (s: InitialChoiceSummary)
        ensures
            s.new_files == self.new_files@.len(),
            s.changed_files == self.changed_files@.len(),
            s.removed_files == self.removed_files@.len(),
    {
        InitialChoiceSummary {
            new_files: self.new_files.len(),
            changed_files: self.changed_files.len(),
            removed_files: self.removed_files.len(),
        }
    }

    pub fn is_clean(&self) -> (r: bool)
        ensures
            r == self.clean(),
    {
        self.new_files.len() == 0 && self.changed_files.len() == 0 && self.removed_files.len() == 0
    }

    /// Adds the differences of another service.
    pub fn merge(&mut self, other: Self)
        ensures
            final(self).new_files@ == old(self).new_files@ + other.new_files@,
            final(self).changed_files@ == old(self).changed_files@ + other.changed_files@,
            final(self).removed_files@ == old(self).removed_files@ + other.removed_files@,
    {
        let mut other = other;
        self.new_files.append(&mut other.new_files);
        self.changed_files.append(&mut other.changed_files);
        self.removed_files.append(&mut other.removed_files);
    }
}

pub open spec fn kind_text(kind: DiffKind) -> Seq<char> {
    match kind {
        DiffKind::Folder => "folder"@,
        DiffKind::Script => "script"@,
    }
}

pub open spec fn action_rank(action: InitialChoiceAction) -> u8 {
    match action {
        InitialChoiceAction::Create => 0,
        InitialChoiceAction::Overwrite => 1,
        InitialChoiceAction::Remove => 2,
    }
}

pub fn initial_choice_kind(kind: DiffKind) -> (r: String)
    ensures
        r@ == kind_text(kind),
{
    match kind {
        DiffKind::Folder => owned("folder"),
        DiffKind::Script => owned("script"),
    }
}

pub fn initial_choice_action_rank(action: InitialChoiceAction) -> (r: u8)
    ensures
        r == action_rank(action),
{
    match action {
        InitialChoiceAction::Create => 0,
        InitialChoiceAction::Overwrite => 1,
        InitialChoiceAction::Remove => 2,
    }
}

/// A path that is on one side only.
pub open spec fn one_sided(item: diff::ItemModel, action: InitialChoiceAction) -> ItemModel {
    ItemModel {
        action,
        path: item.path,
        kind: kind_text(item.kind),
        class: Some(item.class),
        local_class: None,
        studio_class: None,
        class_changed: false,
        source_changed: false,
    }
}

/// A path that differs between the sides.
pub open spec fn two_sided(item: diff::ChangedModel) -> ItemModel {
    ItemModel {
        action: InitialChoiceAction::Overwrite,
        path: item.path,
        kind: kind_text(item.kind),
        class: None,
        local_class: Some(item.local_class),
        studio_class: Some(item.studio_class),
        class_changed: item.class_changed,
        source_changed: item.source_changed,
    }
}

/// All differences: what the disk side has alone, what differs, and what the
/// Studio side has alone.
pub open spec fn listed(c: InitialComparison) -> Seq<ItemModel> {
    Seq::new(
        c.new_files@.len(),
        |i: int| one_sided(c.new_files@[i]@, InitialChoiceAction::Create),
    ) + Seq::new(c.changed_files@.len(), |i: int| two_sided(c.changed_files@[i]@)) + Seq::new(
        c.removed_files@.len(),
        |i: int| one_sided(c.removed_files@[i]@, InitialChoiceAction::Remove),
    )
}

pub open spec fn item_rows(items: Seq<ItemModel>) -> Seq<ranking::RowModel> {
    Seq::new(
        items.len(),
        |i: int|
            (ranking::RowModel {
                key: encode_utf8(items[i].path),
                content: seq![action_rank(items[i].action)],
            }),
    )
}

/// The differences by path, and at one path by what is done there.
pub open spec fn sorted_items(items: Seq<ItemModel>) -> Seq<ItemModel> {
    let order = ranking::ranking(item_rows(items));
    Seq::new(items.len(), |i: int| items[order[i]])
}

pub open spec fn has_duplicate_path(items: Seq<ItemModel>) -> bool {
    exists|i: int, j: int|
        0 <= i < j < items.len() && (#[trigger] items[i]).path == (#[trigger] items[j]).path
}

/// Why a list of differences cannot be numbered.
#[derive(Debug, Clone, Copy, PartialEq, Eq, Structural)]
pub enum DetailsProblem {
    /// The differences cannot be counted.
    CountOverflow,
    /// There are more differences than ids.
    TooMany,
    /// One path occurs twice.
    DuplicatePath,
}

pub open spec fn item_models(v: Seq<InitialChoiceItem>) -> Seq<ItemModel> {
    Seq::new(v.len(), |i: int| v[i]@)
}

fn copy_option(s: &Option<String>) -> (out: Option<String>)
    ensures
        text::option_text(out) == text::option_text(*s),
{
    match s {
        Some(s) => Some(owned(s.as_str())),
        None => None,
    }
}

/// A copy of a difference under another id.
pub fn copy_item(item: &InitialChoiceItem, id: u32) -> (out: InitialChoiceItem)
    ensures
        out@ == item@,
        out.id == id,
{
    InitialChoiceItem {
        id,
        action: item.action,
        path: owned(item.path.as_str()),
        kind: owned(item.kind.as_str()),
        class: copy_option(&item.class),
        local_class: copy_option(&item.local_class),
        studio_class: copy_option(&item.studio_class),
        class_changed: item.class_changed,
        source_changed: item.source_changed,
    }
}

fn one_sided_item(item: &DiffItem, action: InitialChoiceAction) -> (out: InitialChoiceItem)
    ensures
        out@ == one_sided(item@, action),
{
    InitialChoiceItem {
        id: 0,
        action,
        path: owned(item.path.as_str()),
        kind: initial_choice_kind(item.kind),
        class: Some(owned(item.class.as_str())),
        local_class: None,
        studio_class: None,
        class_changed: false,
        source_changed: false,
    }
}

fn list_differences(c: &InitialComparison) -> (out: Vec<InitialChoiceItem>)
    ensures
        item_models(out@) == listed(*c),
{
    let mut out: Vec<InitialChoiceItem> = Vec::new();
    let ghost all = listed(*c);
    let mut i: usize = 0;
    while i < c.new_files.len()
        invariant
            all == listed(*c),
            i <= c.new_files@.len(),
            out@.len() == i,
            forall|j: int| 0 <= j < i ==> (#[trigger] out@[j])@ == all[j],
        decreases c.new_files@.len() - i,
    {
        out.push(one_sided_item(&c.new_files[i], InitialChoiceAction::Create));
        i += 1;
    }
    let ghost base = c.new_files@.len() as int;
    let mut i: usize = 0;
    while i < c.changed_files.len()
        invariant
            all == listed(*c),
            base == c.new_files@.len(),
            i <= c.changed_files@.len(),
            out@.len() == base + i,
            forall|j: int| 0 <= j < base + i ==> (#[trigger] out@[j])@ == all[j],
        decreases c.changed_files@.len() - i,
    {
        let item = &c.changed_files[i];
        out.push(
            InitialChoiceItem {
                id: 0,
                action: InitialChoiceAction::Overwrite,
                path: owned(item.path.as_str()),
                kind: initial_choice_kind(item.kind),
                class: None,
                local_class: Some(owned(item.local_class.as_str())),
                studio_class: Some(owned(item.studio_class.as_str())),
                class_changed: item.class_changed,
                source_changed: item.source_changed,
            },
        );
        proof {
            assert(all[base + i] == two_sided(c.changed_files@[i as int]@));
        }
        i += 1;
    }
    let ghost base2 = base + c.changed_files@.len();
    let mut i: usize = 0;
    while i < c.removed_files.len()
        invariant
            all == listed(*c),
            base2 == c.new_files@.len() + c.changed_files@.len(),
            i <= c.removed_files@.len(),
            out@.len() == base2 + i,
            forall|j: int| 0 <= j < base2 + i ==> (#[trigger] out@[j])@ == all[j],
        decreases c.removed_files@.len() - i,
    {
        out.push(one_sided_item(&c.removed_files[i], InitialChoiceAction::Remove));
        proof {
            assert(all[base2 + i] == one_sided(
                c.removed_files@[i as int]@,
                InitialChoiceAction::Remove,
            ));
        }
        i += 1;
    }
    proof {
        assert(item_models(out@) =~= all);
    }
    out
}

/// The differences in order, each with its place as its id.
pub fn initial_choice_details_from_comparison(comparison: &InitialComparison) -> (r: Result<
    Vec<InitialChoiceItem>,
    DetailsProblem,
>)
    ensures
        ({
            let items = listed(*comparison);
            match r {
                Ok(details) => {
                    &&& items.len() <= u32::MAX
                    &&& !has_duplicate_path(items)
                    &&& item_models(details@) == sorted_items(items)
                    &&& forall|i: int| 0 <= i < details@.len() ==> (#[trigger] details@[i]).id == i
                },
                Err(DetailsProblem::CountOverflow) => items.len() > usize::MAX,
                Err(DetailsProblem::TooMany) => u32::MAX < items.len() <= usize::MAX,
                Err(DetailsProblem::DuplicatePath) => items.len() <= u32::MAX
                    && has_duplicate_path(items),
            }
        }),
{
    let ghost items = listed(*comparison);
    let partial: usize = match comparison.new_files.len().checked_add(
        comparison.changed_files.len(),
    ) {
        Some(partial) => partial,
        None => return Err(DetailsProblem::CountOverflow),
    };
    let total: usize = match partial.checked_add(comparison.removed_files.len()) {
        Some(total) => total,
        None => return Err(DetailsProblem::CountOverflow),
    };
    if total as u64 > u32::MAX as u64 {
        return Err(DetailsProblem::TooMany);
    }
    let all = list_differences(comparison);
    let mut rows: Vec<Row> = Vec::new();
    let mut i: usize = 0;
    while i < all.len()
        invariant
            items == item_models(all@),
            i <= all@.len(),
            rows@.len() == i,
            forall|j: int|
                0 <= j < i ==> (#[trigger] rows@[j])@ == item_rows(items)[j],
        decreases all@.len() - i,
    {
        let mut key: Vec<u8> = Vec::new();
        key.extend_from_slice(all[i].path.as_str().as_bytes());
        let mut content: Vec<u8> = Vec::new();
        content.push(initial_choice_action_rank(all[i].action));
        let row = Row { key, content };
        proof {
            let want = item_rows(items)[i as int];
            assert(all@[i as int]@ == items[i as int]);
            assert(row@.key =~= want.key);
            assert(row@.content =~= want.content);
        }
        rows.push(row);
        i += 1;
    }
    let ghost m = item_rows(items);
    proof {
        assert(ranking::models(rows@) =~= m);
    }
    let order = rank(&rows);
    let ghost want = sorted_items(items);
    let mut details: Vec<InitialChoiceItem> = Vec::new();
    let mut k: usize = 0;
    while k < order.len()
        invariant
            items == item_models(all@),
            items.len() <= u32::MAX,
            m == item_rows(items),
            want == sorted_items(items),
            order@.len() == items.len(),
            ranking::is_ranking(m, ranking::ranking(m)),
            forall|i: int|
                0 <= i < order@.len() ==> #[trigger] order@[i] == ranking::ranking(m)[i],
            k <= order@.len(),
            details@.len() == k,
            forall|j: int|
                0 <= j < k ==> (#[trigger] details@[j])@ == want[j] && details@[j].id == j,
        decreases order@.len() - k,
    {
        assert(order@[k as int] == ranking::ranking(m)[k as int]);
        let at: usize = order[k];
        assert(items[at as int] == all@[at as int]@);
        details.push(copy_item(&all[at], k as u32));
        k += 1;
    }
    proof {
        assert(item_models(details@) =~= want);
    }
    let mut k: usize = 1;
    while k < details.len()
        invariant
            item_models(details@) == want,
            1 <= k,
            k <= details@.len() || details@.len() == 0,
            items.len() <= u32::MAX,
            items == listed(*comparison),
            m == item_rows(items),
            want == sorted_items(items),
            want.len() == items.len(),
            details@.len() == items.len(),
            ranking::is_ranking(m, ranking::ranking(m)),
            forall|j: int| 1 <= j < k ==> (#[trigger] want[j]).path != want[j - 1].path,
        decreases details@.len() - k,
    {
        assert(details@[k as int]@ == want[k as int]);
        assert(details@[k - 1]@ == want[k - 1]);
        if text::same(details[k - 1].path.as_str(), details[k].path.as_str()) {
            proof {
                lemma_adjacent_is_duplicate(items, k as int);
            }
            return Err(DetailsProblem::DuplicatePath);
        }
        k += 1;
    }
    proof {
        lemma_no_adjacent_no_duplicate(items);
    }
    Ok(details)
}

proof fn lemma_adjacent_is_duplicate(items: Seq<ItemModel>, k: int)
    requires
        1 <= k < items.len(),
        ranking::is_ranking(item_rows(items), ranking::ranking(item_rows(items))),
        sorted_items(items)[k - 1].path == sorted_items(items)[k].path,
    ensures
        has_duplicate_path(items),
{
    let m = item_rows(items);
    let order = ranking::ranking(m);
    let a = order[k - 1];
    let b = order[k];
    assert(ranking::row_less(m, a, b));
    ranking::lemma_row_less_asymmetric(m, a, b);
    assert(items[a].path == items[b].path);
    if a < b {
        assert(items[a].path == items[b].path);
    } else {
        assert(items[b].path == items[a].path);
    }
}

proof fn lemma_no_adjacent_no_duplicate(items: Seq<ItemModel>)
    requires
        ranking::is_ranking(item_rows(items), ranking::ranking(item_rows(items))),
        forall|j: int|
            1 <= j < items.len() ==> (#[trigger] sorted_items(items)[j]).path != sorted_items(
                items,
            )[j - 1].path,
    ensures
        !has_duplicate_path(items),
{
    let m = item_rows(items);
    let order = ranking::ranking(m);
    if has_duplicate_path(items) {
        let (x, y) = choose|i: int, j: int|
            0 <= i < j < items.len() && (#[trigger] items[i]).path == (#[trigger] items[j]).path;
        assert(order.contains(x) && order.contains(y));
        let p = choose|p: int| 0 <= p < order.len() && order[p] == x;
        let q = choose|q: int| 0 <= q < order.len() && order[q] == y;
        if p < q {
            lemma_between(items, p, q);
        } else {
            lemma_between(items, q, p);
        }
    }
}

/// Equal paths at two places of the order are equal paths at neighbours.
proof fn lemma_between(items: Seq<ItemModel>, p: int, q: int)
    requires
        0 <= p < q < items.len(),
        ranking::is_ranking(item_rows(items), ranking::ranking(item_rows(items))),
        sorted_items(items)[p].path == sorted_items(items)[q].path,
    ensures
        sorted_items(items)[p].path == sorted_items(items)[p + 1].path,
{
    let m = item_rows(items);
    let order = ranking::ranking(m);
    let a = order[p];
    let b = order[p + 1];
    let c = order[q];
    assert(ranking::row_less(m, a, b));
    if p + 1 < q {
        assert(ranking::row_less(m, b, c));
        crate::text_map::lemma_byte_less_irreflexive(m[a].key);
        if crate::text_map::byte_less(m[a].key, m[b].key) && crate::text_map::byte_less(
            m[b].key,
            m[c].key,
        ) {
            crate::text_map::lemma_byte_less_transitive(m[a].key, m[b].key, m[c].key);
        }
        assert(m[a].key == m[b].key);
        text::lemma_utf8_injective(items[a].path, items[b].path);
    }
}

/// The numbered differences stand in the order of their paths.
pub proof fn law_details_are_sorted(items: Seq<ItemModel>, i: int, j: int)
    requires
        0 <= i < j < items.len(),
        !has_duplicate_path(items),
    ensures
        crate::text_map::text_less(sorted_items(items)[i].path, sorted_items(items)[j].path),
{
    let m = item_rows(items);
    ranking::lemma_ranking(m);
    let order = ranking::ranking(m);
    assert(ranking::row_less(m, order[i], order[j]));
    let a = order[i];
    let b = order[j];
    ranking::lemma_row_less_asymmetric(m, a, b);
    if items[a].path == items[b].path {
        if a < b {
            assert(items[a].path == items[b].path);
        } else {
            assert(items[b].path == items[a].path);
        }
    }
    if m[a].key == m[b].key {
        text::lemma_utf8_injective(items[a].path, items[b].path);
    }
}

/// The hexadecimal digits of the lower 48 bits of `mix`.
pub open spec fn id_text(mix: u64) -> Seq<char> {
    Seq::new(12, |i: int| crate::hex::hex_digit(nibble(mix, 11 - i)))
}

/// The `k`-th group of four bits, counted from the lowest.
pub open spec fn nibble(mix: u64, k: int) -> int {
    (mix as int / vstd::arithmetic::power2::pow2((4 * k) as nat) as int) % 16
}

/// Dividing by sixteen moves to the next group of four bits.
proof fn lemma_next_nibble(mix: u64, k: int)
    requires
        0 <= k,
    ensures
        (mix as int / vstd::arithmetic::power2::pow2((4 * k) as nat) as int) / 16
            == mix as int / vstd::arithmetic::power2::pow2((4 * (k + 1)) as nat) as int,
{
    let p = vstd::arithmetic::power2::pow2((4 * k) as nat) as int;
    vstd::arithmetic::power2::lemma_pow2_pos((4 * k) as nat);
    vstd::arithmetic::power2::lemma_pow2_adds((4 * k) as nat, 4);
    vstd::arithmetic::power2::lemma2_to64();
    vstd::arithmetic::div_mod::lemma_div_denominator(mix as int, p, 16);
    assert((4 * k) as nat + 4 == (4 * (k + 1)) as nat);
}

/// An id made of the time and a counter: twelve hexadecimal digits.
#[verifier::spinoff_prover]
pub fn new_choice_id(nanos: u64, counter: u64) -> (out: String)
    ensures
        out@.len() == 12,
        forall|i: int| 0 <= i < 12 ==> crate::hex::is_hex(#[trigger] out@[i]),
        out@ == id_text(id_mix(nanos, counter)),
{
    let mix: u64 = nanos.wrapping_mul(0x9E37_79B9_7F4A_7C15).wrapping_add(counter);
    let mut digits: Vec<char> = Vec::new();
    let mut rest: u64 = mix;
    let mut k: usize = 0;
    proof {
        vstd::arithmetic::power2::lemma_pow2(0);
        vstd::arithmetic::power::lemma_pow0(2);
        assert((4 * k) as nat == 0);
    }
    while k < 12
        invariant
            k <= 12,
            mix == id_mix(nanos, counter),
            rest as int == mix as int / vstd::arithmetic::power2::pow2((4 * k) as nat) as int,
            digits@.len() == k,
            forall|j: int|
                0 <= j < k ==> #[trigger] digits@[j] == crate::hex::hex_digit(nibble(mix, j)),
        decreases 12 - k,
    {
        digits.push(crate::hex::digit((rest % 16) as u8));
        proof {
            lemma_next_nibble(mix, k as int);
        }
        rest = rest / 16;
        k += 1;
    }
    let mut out = String::new();
    let mut k: usize = 12;
    while k > 0
        invariant
            k <= 12,
            digits@.len() == 12,
            out@.len() == 12 - k,
            forall|j: int| 0 <= j < 12 - k ==> #[trigger] out@[j] == digits@[11 - j],
        decreases k,
    {
        k -= 1;
        out.push(digits[k]);
    }
    proof {
        assert forall|i: int| 0 <= i < 12 implies out@[i] == crate::hex::hex_digit(
            nibble(mix, 11 - i),
        ) by {
            assert(out@[i] == digits@[11 - i]);
        }
        assert(out@ =~= id_text(mix));
    }
    out
}

/// The number that an id spells.
pub open spec fn id_mix(nanos: u64, counter: u64) -> u64 {
    ((nanos as int * 0x9E37_79B9_7F4A_7C15 + counter as int) % 0x1_0000_0000_0000_0000) as u64
}

/// The number that hexadecimal digits spell.
pub open spec fn spelled_number(s: Seq<char>) -> int
    decreases s.len(),
{
    if s.len() == 0 {
        0
    } else {
        crate::hex::hex_value(s[0]) * vstd::arithmetic::power2::pow2((4 * (s.len() - 1)) as nat)
            + spelled_number(s.drop_first())
    }
}

/// The last `k` digits of an id spell the lower bits of its number.
proof fn lemma_spelled(mix: u64, k: int)
    requires
        0 <= k <= 12,
    ensures
        spelled_number(Seq::new(k as nat, |i: int| crate::hex::hex_digit(nibble(mix, k - 1 - i))))
            == mix as int % vstd::arithmetic::power2::pow2((4 * k) as nat) as int,
    decreases k,
{
    let digits = Seq::new(k as nat, |i: int| crate::hex::hex_digit(nibble(mix, k - 1 - i)));
    if k == 0 {
        vstd::arithmetic::power2::lemma2_to64();
    } else {
        let rest = Seq::new(
            (k - 1) as nat,
            |i: int| crate::hex::hex_digit(nibble(mix, k - 2 - i)),
        );
        let p = vstd::arithmetic::power2::pow2((4 * (k - 1)) as nat) as int;
        lemma_spelled(mix, k - 1);
        assert(digits.drop_first() =~= rest);
        let d = nibble(mix, k - 1);
        assert(crate::hex::hex_value(crate::hex::hex_digit(d)) == d);
        vstd::arithmetic::power2::lemma_pow2_pos((4 * (k - 1)) as nat);
        vstd::arithmetic::power2::lemma_pow2_adds((4 * (k - 1)) as nat, 4);
        vstd::arithmetic::power2::lemma2_to64();
        assert((4 * (k - 1)) as nat + 4 == (4 * k) as nat);
        vstd::arithmetic::div_mod::lemma_mod_breakdown(mix as int, p, 16);
        vstd::arithmetic::mul::lemma_mul_is_commutative(p, d);
    }
}

/// An id spells the lower 48 bits of the mixed time and counter.
pub proof fn law_choice_id_spells_its_number(nanos: u64, counter: u64)
    ensures
        spelled_number(id_text(id_mix(nanos, counter))) == (nanos as int * 0x9E37_79B9_7F4A_7C15
            + counter as int) % 0x1_0000_0000_0000,
{
    let mix = id_mix(nanos, counter);
    let whole = nanos as int * 0x9E37_79B9_7F4A_7C15 + counter as int;
    lemma_spelled(mix, 12);
    assert(id_text(mix) =~= Seq::new(12, |i: int| crate::hex::hex_digit(nibble(mix, 12 - 1 - i))));
    vstd::arithmetic::power2::lemma2_to64();
    vstd::arithmetic::power2::lemma2_to64_rest();
    vstd::arithmetic::div_mod::lemma_mod_mod(whole, 0x1_0000_0000_0000, 0x1_0000);
}

/// Two ids that are made at one clock reading are different, unless their counters
/// are the same in the bits that an id spells.
pub proof fn law_choice_ids_at_one_time_differ(nanos: u64, a: u64, b: u64)
    requires
        (a as int - b as int) % 0x1_0000_0000_0000 != 0,
    ensures
        id_text(id_mix(nanos, a)) != id_text(id_mix(nanos, b)),
{
    law_choice_id_spells_its_number(nanos, a);
    law_choice_id_spells_its_number(nanos, b);
    let time = nanos as int * 0x9E37_79B9_7F4A_7C15;
    let m = 0x1_0000_0000_0000int;
    vstd::arithmetic::div_mod::lemma_fundamental_div_mod(time + a as int, m);
    vstd::arithmetic::div_mod::lemma_fundamental_div_mod(time + b as int, m);
    if (time + a as int) % m == (time + b as int) % m {
        let k = (time + a as int) / m - (time + b as int) / m;
        assert(a as int - b as int == m * k);
    }
}

/// Two ids in a row at one clock reading are different.
pub proof fn law_next_choice_id_differs(nanos: u64, counter: u64)
    ensures
        id_text(id_mix(nanos, counter)) != id_text(id_mix(nanos, counter.wrapping_add(1))),
{
    law_choice_ids_at_one_time_differ(nanos, counter, counter.wrapping_add(1));
}

/// A directory of a service that is still to be counted.
#[derive(Debug)]
pub struct CountedDirectory {
    pub path: String,
    pub depth: usize,
    /// The directory itself is an instance.
    pub counts: bool,
}

#[verifier::ext_equal]
pub struct CountedModel {
    pub path: Seq<char>,
    pub depth: int,
    pub counts: bool,
}

impl CountedDirectory {
    pub open spec fn view(&self) -> CountedModel {
        CountedModel { path: self.path@, depth: self.depth as int, counts: self.counts }
    }
}

pub open spec fn counted_models(v: Seq<CountedDirectory>) -> Seq<CountedModel> {
    Seq::new(v.len(), |i: int| v[i]@)
}

/// Why a project is not counted.
#[derive(Debug, Clone, Copy, PartialEq, Eq, Structural)]
pub enum StatsProblem {
    TooDeep,
    TooManyNodes,
    TooManyScripts,
    TooManyInstances,
}

/// How far the counting has come.
#[derive(Debug, Clone, Copy)]
pub struct Tally {
    pub scripts: u32,
    pub instances: u32,
    /// How many entries of the present service were seen.
    pub visited: usize,
}

pub open spec fn is_control_file(name: Seq<char>) -> bool {
    ||| name == ".meta.json"@
    ||| name == "ro-sync.json"@
    ||| name == "ro-sync.md"@
    ||| name == "tree.json"@
}

fn control_file(name: &str) -> (r: bool)
    ensures
        r == is_control_file(name@),
{
    same(name, ".meta.json") || same(name, "ro-sync.json") || same(name, "ro-sync.md") || same(
        name,
        "tree.json",
    )
}

/// Whether a file is counted as a script.
pub open spec fn is_counted_script(e: fs_safety::EntryModel) -> bool {
    &&& e.kind == SafeEntryKind::File
    &&& !is_control_file(e.fragment)
    &&& fs_map::classified(e.fragment) is Some
    &&& fs_map::init_parts(e.fragment) is None
    &&& fs_map::plain_init(e.fragment) is None
}

/// The tally after the entries from `k` on.
pub open spec fn tally_from(entries: Seq<fs_safety::EntryModel>, k: int, t: Tally) -> Result<
    Tally,
    StatsProblem,
>
    decreases entries.len() - k,
{
    if k < 0 || k >= entries.len() {
        Ok(t)
    } else if t.visited + 1 > MAX_SERVICE_TREE_NODES {
        Err(StatsProblem::TooManyNodes)
    } else if !is_counted_script(entries[k]) {
        tally_from(entries, k + 1, Tally { visited: (t.visited + 1) as usize, ..t })
    } else if t.scripts == u32::MAX {
        Err(StatsProblem::TooManyScripts)
    } else if t.instances == u32::MAX {
        Err(StatsProblem::TooManyInstances)
    } else {
        tally_from(
            entries,
            k + 1,
            Tally {
                scripts: (t.scripts + 1) as u32,
                instances: (t.instances + 1) as u32,
                visited: (t.visited + 1) as usize,
            },
        )
    }
}

/// The tally after one directory.
pub open spec fn tally_directory(
    d: CountedModel,
    entries: Seq<fs_safety::EntryModel>,
    t: Tally,
) -> Result<Tally, StatsProblem> {
    if d.counts {
        if t.instances == u32::MAX {
            Err(StatsProblem::TooManyInstances)
        } else {
            tally_from(entries, 0, Tally { instances: (t.instances + 1) as u32, ..t })
        }
    } else {
        tally_from(entries, 0, t)
    }
}

/// The directories among the entries from `k` on, the first one last.
pub open spec fn counted_below(d: CountedModel, entries: Seq<fs_safety::EntryModel>, k: int) -> Seq<
    CountedModel,
>
    decreases entries.len() - k,
{
    if k < 0 || k >= entries.len() {
        Seq::empty()
    } else {
        let rest = counted_below(d, entries, k + 1);
        if entries[k].kind == SafeEntryKind::Directory {
            rest.push(
                CountedModel {
                    path: fs_safety::below(d.path, entries[k].fragment),
                    depth: d.depth + 1,
                    counts: entries[k].fragment != fs_map::meta_file(),
                },
            )
        } else {
            rest
        }
    }
}

/// The counting of the scripts and instances of a project, one directory at a
/// time.
#[derive(Debug)]
pub struct DiskWalk {
    pub tally: Tally,
    pub stack: Vec<CountedDirectory>,
}

/// Starts to count a project.
pub fn compute_disk_stats() -> (w: DiskWalk)
    ensures
        w.wf(),
        w.tally == (Tally { scripts: 0, instances: 0, visited: 0 }),
        w.stack@.len() == 0,
{
    DiskWalk { tally: Tally { scripts: 0, instances: 0, visited: 0 }, stack: Vec::new() }
}

impl DiskWalk {
    pub open spec fn wf(&self) -> bool {
        &&& self.tally.visited <= MAX_SERVICE_TREE_NODES
        &&& forall|i: int|
            0 <= i < self.stack@.len() ==> (#[trigger] self.stack@[i]).depth
                <= MAX_SERVICE_TREE_DEPTH + 1
    }

    /// Goes on with the root directory of the next service.
    pub fn enter_service(&mut self, path: String) -> (r: Result<(), StatsProblem>)
        requires
            old(self).wf(),
            old(self).stack@.len() == 0,
        ensures
            final(self).wf(),
            if old(self).tally.instances == u32::MAX {
                r == Err::<(), StatsProblem>(StatsProblem::TooManyInstances) && *final(self)
                    == *old(self)
            } else {
                &&& r is Ok
                &&& final(self).tally == (Tally {
                    instances: (old(self).tally.instances + 1) as u32,
                    visited: 0,
                    ..old(self).tally
                })
                &&& counted_models(final(self).stack@) == seq![
                    CountedModel { path: path@, depth: 0, counts: false },
                ]
            },
    {
        if self.tally.instances == u32::MAX {
            return Err(StatsProblem::TooManyInstances);
        }
        let ghost whole = path@;
        self.tally.instances = self.tally.instances + 1;
        self.tally.visited = 0;
        self.stack.push(CountedDirectory { path, depth: 0, counts: false });
        proof {
            assert(counted_models(self.stack@) =~= seq![
                CountedModel { path: whole, depth: 0, counts: false },
            ]);
        }
        Ok(())
    }

    /// The directory to read next, or why it may not be read.
    pub fn next(&self) -> (r: Result<Option<&CountedDirectory>, StatsProblem>)
        ensures
            match r {
                Ok(None) => self.stack@.len() == 0,
                Ok(Some(d)) => self.stack@.len() > 0 && *d == self.stack@.last() && d.depth
                    <= MAX_SERVICE_TREE_DEPTH,
                Err(p) => p == StatsProblem::TooDeep && self.stack@.len() > 0
                    && self.stack@.last().depth > MAX_SERVICE_TREE_DEPTH,
            },
    {
        let n: usize = self.stack.len();
        if n == 0 {
            return Ok(None);
        }
        let d = &self.stack[n - 1];
        if d.depth > MAX_SERVICE_TREE_DEPTH {
            return Err(StatsProblem::TooDeep);
        }
        Ok(Some(d))
    }

    /// Counts the reading of that directory.
    pub fn visit(&mut self, index: &PortableDirectoryIndex) -> (r: Result<(), StatsProblem>)
        requires
            old(self).wf(),
            old(self).stack@.len() > 0,
            old(self).stack@.last().depth <= MAX_SERVICE_TREE_DEPTH,
            index.wf(),
        ensures
            final(self).wf(),
            ({
                let d = counted_models(old(self).stack@).last();
                match tally_directory(d, index@.entries, old(self).tally) {
                    Err(p) => r == Err::<(), StatsProblem>(p),
                    Ok(t) => {
                        &&& r is Ok
                        &&& final(self).tally == t
                        &&& counted_models(final(self).stack@) == counted_models(
                            old(self).stack@,
                        ).drop_last() + counted_below(d, index@.entries, 0)
                    },
                }
            }),
    {
        let ghost stack_before = counted_models(self.stack@);
        let directory = match self.stack.pop() {
            None => return Ok(()),
            Some(directory) => directory,
        };
        let ghost d = directory@;
        let ghost found = index@.entries;
        proof {
            assert(d == stack_before.last());
            assert(counted_models(self.stack@) =~= stack_before.drop_last());
        }
        let ghost rest = self.stack@;
        if directory.counts {
            if self.tally.instances == u32::MAX {
                return Err(StatsProblem::TooManyInstances);
            }
            self.tally.instances = self.tally.instances + 1;
        }
        let ghost start = self.tally;
        let n: usize = index.entries.len();
        let mut k: usize = 0;
        while k < n
            invariant
                k <= n,
                n == index.entries@.len(),
                found == index@.entries,
                self.stack@ == rest,
                forall|i: int|
                    0 <= i < rest.len() ==> (#[trigger] rest[i]).depth <= MAX_SERVICE_TREE_DEPTH + 1,
                self.tally.visited <= MAX_SERVICE_TREE_NODES,
                tally_from(found, 0, start) == tally_from(found, k as int, self.tally),
                d == counted_models(old(self).stack@).last(),
                tally_directory(d, found, old(self).tally) == tally_from(found, 0, start),
            decreases n - k,
        {
            let e = &index.entries[k];
            if self.tally.visited + 1 > MAX_SERVICE_TREE_NODES {
                return Err(StatsProblem::TooManyNodes);
            }
            self.tally.visited = self.tally.visited + 1;
            let name = e.fragment.as_str();
            proof {
                assert(found[k as int] == e@);
            }
            if e.kind == SafeEntryKind::File && !control_file(name) && classify_script_file(
                name,
            ).is_some() && !is_init_file(name) {
                if self.tally.scripts == u32::MAX {
                    return Err(StatsProblem::TooManyScripts);
                }
                if self.tally.instances == u32::MAX {
                    return Err(StatsProblem::TooManyInstances);
                }
                self.tally.scripts = self.tally.scripts + 1;
                self.tally.instances = self.tally.instances + 1;
            }
            k += 1;
        }
        let ghost counted = self.tally;
        let mut j: usize = n;
        proof {
            assert(counted_below(d, found, n as int) =~= Seq::<CountedModel>::empty());
            assert(counted_models(self.stack@) =~= counted_models(rest) + counted_below(
                d,
                found,
                n as int,
            ));
        }
        while j > 0
            invariant
                j <= n,
                n == index.entries@.len(),
                found == index@.entries,
                d == directory@,
                d.depth <= MAX_SERVICE_TREE_DEPTH,
                self.tally == counted,
                forall|i: int|
                    0 <= i < self.stack@.len() ==> (#[trigger] self.stack@[i]).depth
                        <= MAX_SERVICE_TREE_DEPTH + 1,
                counted_models(self.stack@) == counted_models(rest) + counted_below(
                    d,
                    found,
                    j as int,
                ),
            decreases j,
        {
            j -= 1;
            let e = &index.entries[j];
            if e.kind == SafeEntryKind::Directory {
                let ghost so_far = self.stack@;
                self.stack.push(
                    CountedDirectory {
                        path: join_path(directory.path.as_str(), e.fragment.as_str()),
                        depth: directory.depth + 1,
                        counts: !same(e.fragment.as_str(), ".meta.json"),
                    },
                );
                proof {
                    assert(counted_models(self.stack@) =~= counted_models(so_far).push(
                        self.stack@.last()@,
                    ));
                    assert(counted_models(self.stack@) =~= counted_models(rest) + counted_below(
                        d,
                        found,
                        j as int,
                    ));
                }
            }
        }
        Ok(())
    }

    /// The counts once every service is done.
    pub fn finish(self) -> (s: Stats)
        requires
            self.stack@.len() == 0,
        ensures
            s == (Stats {
                script_count: self.tally.scripts,
                instance_count: self.tally.instances,
            }),
    {
        Stats { script_count: self.tally.scripts, instance_count: self.tally.instances }
    }
}

proof fn lemma_control_files_are_no_scripts(name: Seq<char>)
    requires
        is_control_file(name),
    ensures
        fs_map::classified(name) is None,
{
    reveal_strlit(".meta.json");
    reveal_strlit("ro-sync.json");
    reveal_strlit("ro-sync.md");
    reveal_strlit("tree.json");
    reveal_strlit(".server.luau");
    reveal_strlit(".client.luau");
    reveal_strlit(".server.lua");
    reveal_strlit(".client.lua");
    reveal_strlit(".luau");
    reveal_strlit(".lua");
    let last = name.last();
    assert(last == 'n' || last == 'd');
    assert(".server.luau"@.last() == 'u' && ".client.luau"@.last() == 'u' && ".luau"@.last()
        == 'u');
    assert(".server.lua"@.last() == 'a' && ".client.lua"@.last() == 'a' && ".lua"@.last() == 'a');
    lemma_other_end(name, ".server.luau"@);
    lemma_other_end(name, ".client.luau"@);
    lemma_other_end(name, ".server.lua"@);
    lemma_other_end(name, ".client.lua"@);
    lemma_other_end(name, ".luau"@);
    lemma_other_end(name, ".lua"@);
}

proof fn lemma_other_end(name: Seq<char>, suffix: Seq<char>)
    requires
        name.len() > 0,
        suffix.len() > 0,
        name.last() != suffix.last(),
    ensures
        fs_map::strip_suffix(name, suffix) is None,
{
    if name.len() >= suffix.len() {
        let end = name.subrange(name.len() - suffix.len(), name.len() as int);
        assert(end.last() == name.last());
    }
}

/// What is counted is what stands for an instance: every script and every directory
/// that is recognised as one. A plain `init` file is left to the directory that it
/// describes.
pub proof fn law_counted_entries_are_instances(
    e: fs_safety::EntryModel,
    seen: fs_safety::Observed,
    index: fs_safety::IndexModel,
)
    requires
        e.kind == SafeEntryKind::File ==> seen.kind == fs_safety::ObjectKind::File,
        e.kind == SafeEntryKind::Directory ==> seen.kind == fs_safety::ObjectKind::Directory,
        e.kind == SafeEntryKind::File ==> fs_map::plain_init(e.fragment) is None,
    ensures
        ({
            let instance = fs_map::path_instance(e.fragment, Some(seen), index);
            &&& instance is Ok
            &&& instance->Ok_0 is Some <==> is_counted_script(e) || e.kind
                == SafeEntryKind::Directory && e.fragment != fs_map::meta_file()
        }),
{
    if is_control_file(e.fragment) {
        lemma_control_files_are_no_scripts(e.fragment);
    }
}

} // verus!
