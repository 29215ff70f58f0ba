//! A total order of rows by key, then by content, then by place.
use vstd::prelude::*;

use crate::text_map;
use crate::text_map::{order_of_bytes, TextOrder};

verus! {

/// What a row is ordered by.
#[derive(Debug)]
pub struct Row {
    pub key: Vec<u8>,
    pub content: Vec<u8>,
}

#[verifier::ext_equal]
pub struct RowModel {
    pub key: Seq<u8>,
    pub content: Seq<u8>,
}

impl Row {
    pub open spec fn view(&self) -> RowModel {
        RowModel { key: self.key@, content: self.content@ }
    }
}

pub open spec fn models(rows: Seq<Row>) -> Seq<RowModel> {
    Seq::new(rows.len(), |i: int| rows[i]@)
}

/// Whether row `a` comes before row `b`.
pub open spec fn row_less(rows: Seq<RowModel>, a: int, b: int) -> bool {
    ||| text_map::byte_less(rows[a].key, rows[b].key)
    ||| rows[a].key == rows[b].key && text_map::byte_less(rows[a].content, rows[b].content)
    ||| rows[a].key == rows[b].key && rows[a].content == rows[b].content && a < b
}

/// Whether `order` lists the places of all rows, each before the next.
pub open spec fn is_ranking(rows: Seq<RowModel>, order: Seq<int>) -> bool {
    &&& order.len() == rows.len()
    &&& forall|i: int| 0 <= i < order.len() ==> 0 <= #[trigger] order[i] < rows.len()
    &&& forall|i: int, j: int|
        0 <= i < j < order.len() ==> row_less(rows, #[trigger] order[i], #[trigger] order[j])
    &&& forall|x: int| 0 <= x < rows.len() ==> #[trigger] order.contains(x)
}

/// The places of the rows in their order.
pub open spec fn ranking(rows: Seq<RowModel>) -> Seq<int> {
    choose|order: Seq<int>| is_ranking(rows, order)
}

pub proof fn lemma_row_less_asymmetric(rows: Seq<RowModel>, a: int, b: int)
    requires
        row_less(rows, a, b),
    ensures
        !row_less(rows, b, a),
{
    text_map::lemma_byte_less_irreflexive(rows[a].key);
    text_map::lemma_byte_less_irreflexive(rows[a].content);
    if text_map::byte_less(rows[a].key, rows[b].key) && text_map::byte_less(
        rows[b].key,
        rows[a].key,
    ) {
        text_map::lemma_byte_less_transitive(rows[a].key, rows[b].key, rows[a].key);
    }
    if text_map::byte_less(rows[a].content, rows[b].content) && text_map::byte_less(
        rows[b].content,
        rows[a].content,
    ) {
        text_map::lemma_byte_less_transitive(rows[a].content, rows[b].content, rows[a].content);
    }
}

pub proof fn lemma_row_less_transitive(rows: Seq<RowModel>, a: int, b: int, c: int)
    requires
        row_less(rows, a, b),
        row_less(rows, b, c),
    ensures
        row_less(rows, a, c),
{
    if text_map::byte_less(rows[a].key, rows[b].key) && text_map::byte_less(
        rows[b].key,
        rows[c].key,
    ) {
        text_map::lemma_byte_less_transitive(rows[a].key, rows[b].key, rows[c].key);
    }
    if text_map::byte_less(rows[a].content, rows[b].content) && text_map::byte_less(
        rows[b].content,
        rows[c].content,
    ) {
        text_map::lemma_byte_less_transitive(rows[a].content, rows[b].content, rows[c].content);
    }
}

/// Rows have one ranking.
pub proof fn lemma_ranking_unique(rows: Seq<RowModel>, p: Seq<int>, q: Seq<int>)
    requires
        is_ranking(rows, p),
        is_ranking(rows, q),
    ensures
        p == q,
{
    assert forall|i: int| 0 <= i < p.len() implies p[i] == q[i] by {
        lemma_ranking_agrees(rows, p, q, i);
    }
    assert(p =~= q);
}

proof fn lemma_ranking_agrees(rows: Seq<RowModel>, p: Seq<int>, q: Seq<int>, i: int)
    requires
        is_ranking(rows, p),
        is_ranking(rows, q),
        0 <= i < p.len(),
    ensures
        p[i] == q[i],
    decreases i,
{
    assert forall|k: int| 0 <= k < i implies p[k] == q[k] by {
        lemma_ranking_agrees(rows, p, q, k);
    }
    let a = p[i];
    let b = q[i];
    if a != b {
        assert(q.contains(a));
        assert(p.contains(b));
        let ja = choose|j: int| 0 <= j < q.len() && q[j] == a;
        let jb = choose|j: int| 0 <= j < p.len() && p[j] == b;
        if ja < i {
            assert(p[ja] == a);
            assert(row_less(rows, p[ja], p[i]));
            lemma_row_less_asymmetric(rows, a, a);
        }
        if jb < i {
            assert(q[jb] == b);
            assert(row_less(rows, q[jb], q[i]));
            lemma_row_less_asymmetric(rows, b, b);
        }
        assert(row_less(rows, q[i], q[ja]));
        assert(row_less(rows, p[i], p[jb]));
        lemma_row_less_asymmetric(rows, a, b);
    }
}

pub proof fn lemma_row_less_total(rows: Seq<RowModel>, a: int, b: int)
    requires
        a != b,
    ensures
        row_less(rows, a, b) || row_less(rows, b, a),
{
    text_map::lemma_byte_less_total(rows[a].key, rows[b].key);
    text_map::lemma_byte_less_total(rows[a].content, rows[b].content);
}

/// Where the place `x` belongs among places in their order: behind the first
/// `k` of them.
proof fn lemma_belongs(rows: Seq<RowModel>, p: Seq<int>, x: int, n: int) -> (k: int)
    requires
        0 <= n <= p.len(),
        forall|i: int, j: int|
            0 <= i < j < p.len() ==> row_less(rows, #[trigger] p[i], #[trigger] p[j]),
        !p.contains(x),
        forall|j: int| n <= j < p.len() ==> row_less(rows, x, #[trigger] p[j]),
    ensures
        0 <= k <= p.len(),
        forall|j: int| 0 <= j < k ==> row_less(rows, #[trigger] p[j], x),
        forall|j: int| k <= j < p.len() ==> row_less(rows, x, #[trigger] p[j]),
    decreases n,
{
    if n == 0 {
        0
    } else {
        assert(p.contains(p[n - 1]));
        lemma_row_less_total(rows, p[n - 1], x);
        if row_less(rows, p[n - 1], x) {
            assert forall|j: int| 0 <= j < n implies row_less(rows, #[trigger] p[j], x) by {
                if j < n - 1 {
                    lemma_row_less_transitive(rows, p[j], p[n - 1], x);
                }
            }
            n
        } else {
            lemma_belongs(rows, p, x, n - 1)
        }
    }
}

/// The first `n` places in their order.
proof fn lemma_first_ranked(rows: Seq<RowModel>, n: int) -> (q: Seq<int>)
    requires
        0 <= n <= rows.len(),
    ensures
        q.len() == n,
        forall|i: int| 0 <= i < n ==> 0 <= #[trigger] q[i] < n,
        forall|i: int, j: int|
            0 <= i < j < n ==> row_less(rows, #[trigger] q[i], #[trigger] q[j]),
        forall|x: int| 0 <= x < n ==> #[trigger] q.contains(x),
    decreases n,
{
    if n == 0 {
        Seq::empty()
    } else {
        let p = lemma_first_ranked(rows, n - 1);
        let k = lemma_belongs(rows, p, n - 1, n - 1);
        let q = p.insert(k, n - 1);
        assert forall|x: int| 0 <= x < n implies #[trigger] q.contains(x) by {
            if x == n - 1 {
                assert(q[k] == x);
            } else {
                assert(p.contains(x));
                let i = choose|i: int| 0 <= i < p.len() && p[i] == x;
                if i < k {
                    assert(q[i] == x);
                } else {
                    assert(q[i + 1] == x);
                }
            }
        }
        assert forall|i: int, j: int| 0 <= i < j < n implies row_less(
            rows,
            #[trigger] q[i],
            #[trigger] q[j],
        ) by {
            let a = if i < k {
                i
            } else {
                i - 1
            };
            let b = if j < k {
                j
            } else {
                j - 1
            };
            if i != k {
                assert(q[i] == p[a]);
            }
            if j != k {
                assert(q[j] == p[b]);
            }
        }
        q
    }
}

/// Rows have a ranking.
pub proof fn lemma_ranking(rows: Seq<RowModel>)
    ensures
        is_ranking(rows, ranking(rows)),
{
    let q = lemma_first_ranked(rows, rows.len() as int);
    assert(is_ranking(rows, q));
}

fn less(rows: &Vec<Row>, a: usize, b: usize) -> (r: bool)
    requires
        a < rows@.len(),
        b < rows@.len(),
        a != b,
    ensures
        r ==> row_less(models(rows@), a as int, b as int),
        !r ==> row_less(models(rows@), b as int, a as int),
{
    match order_of_bytes(&rows[a].key, &rows[b].key) {
        TextOrder::Less => true,
        TextOrder::Greater => false,
        TextOrder::Equal => match order_of_bytes(&rows[a].content, &rows[b].content) {
            TextOrder::Less => true,
            TextOrder::Greater => false,
            TextOrder::Equal => a < b,
        },
    }
}

spec fn ints(s: Seq<usize>) -> Seq<int> {
    Seq::new(s.len(), |i: int| s[i] as int)
}

spec fn covers(s: Seq<usize>, lo: int, hi: int) -> bool {
    &&& forall|i: int| 0 <= i < s.len() ==> lo <= #[trigger] s[i] < hi
    &&& forall|x: usize| lo <= x < hi ==> #[trigger] s.contains(x)
}

spec fn ascending(rows: Seq<RowModel>, s: Seq<usize>) -> bool {
    forall|i: int, j: int|
        0 <= i < j < s.len() ==> row_less(rows, #[trigger] s[i] as int, #[trigger] s[j] as int)
}

fn merge(rows: &Vec<Row>, l: &Vec<usize>, r: &Vec<usize>, lo: usize, mid: usize, hi: usize) -> (out:
    Vec<usize>)
    requires
        lo <= mid <= hi <= rows@.len(),
        covers(l@, lo as int, mid as int),
        covers(r@, mid as int, hi as int),
        ascending(models(rows@), l@),
        ascending(models(rows@), r@),
    ensures
        out@.len() == l@.len() + r@.len(),
        covers(out@, lo as int, hi as int),
        ascending(models(rows@), out@),
{
    let ghost m = models(rows@);
    let mut out: Vec<usize> = Vec::new();
    let mut i: usize = 0;
    let mut j: usize = 0;
    while i < l.len() || j < r.len()
        invariant
            m == models(rows@),
            lo <= mid <= hi <= rows@.len(),
            i <= l@.len(),
            j <= r@.len(),
            covers(l@, lo as int, mid as int),
            covers(r@, mid as int, hi as int),
            ascending(m, l@),
            ascending(m, r@),
            out@.len() == i + j,
            ascending(m, out@),
            forall|k: int| 0 <= k < out@.len() ==> lo <= #[trigger] out@[k] < hi,
            forall|k: int| 0 <= k < i ==> out@.contains(#[trigger] l@[k]),
            forall|k: int| 0 <= k < j ==> out@.contains(#[trigger] r@[k]),
            forall|k: int, a: int|
                0 <= k < out@.len() && i <= a < l@.len() ==> row_less(
                    m,
                    #[trigger] out@[k] as int,
                    #[trigger] l@[a] as int,
                ),
            forall|k: int, b: int|
                0 <= k < out@.len() && j <= b < r@.len() ==> row_less(
                    m,
                    #[trigger] out@[k] as int,
                    #[trigger] r@[b] as int,
                ),
        decreases l@.len() + r@.len() - i - j,
    {
        let take_left = if i == l.len() {
            false
        } else if j == r.len() {
            true
        } else {
            less(rows, l[i], r[j])
        };
        let ghost before = out@;
        if take_left {
            let x: usize = l[i];
            out.push(x);
            proof {
                assert(out@[before.len() as int] == x);
                assert forall|k: int| 0 <= k < i + 1 implies out@.contains(#[trigger] l@[k]) by {
                    if k < i {
                        let p = choose|p: int| 0 <= p < before.len() && before[p] == l@[k];
                        assert(out@[p] == l@[k]);
                    }
                }
                assert forall|k: int| 0 <= k < j implies out@.contains(#[trigger] r@[k]) by {
                    let p = choose|p: int| 0 <= p < before.len() && before[p] == r@[k];
                    assert(out@[p] == r@[k]);
                }
                assert forall|k: int, b: int|
                    0 <= k < out@.len() && j <= b < r@.len() implies row_less(
                    m,
                    #[trigger] out@[k] as int,
                    #[trigger] r@[b] as int,
                ) by {
                    if k == before.len() {
                        if b > j {
                            lemma_row_less_transitive(m, x as int, r@[j as int] as int, r@[b] as int);
                        }
                    }
                }
            }
            i += 1;
        } else {
            let x: usize = r[j];
            out.push(x);
            proof {
                assert(out@[before.len() as int] == x);
                assert forall|k: int| 0 <= k < j + 1 implies out@.contains(#[trigger] r@[k]) by {
                    if k < j {
                        let p = choose|p: int| 0 <= p < before.len() && before[p] == r@[k];
                        assert(out@[p] == r@[k]);
                    }
                }
                assert forall|k: int| 0 <= k < i implies out@.contains(#[trigger] l@[k]) by {
                    let p = choose|p: int| 0 <= p < before.len() && before[p] == l@[k];
                    assert(out@[p] == l@[k]);
                }
                assert forall|k: int, a: int|
                    0 <= k < out@.len() && i <= a < l@.len() implies row_less(
                    m,
                    #[trigger] out@[k] as int,
                    #[trigger] l@[a] as int,
                ) by {
                    if k == before.len() {
                        if a > i {
                            lemma_row_less_transitive(m, x as int, l@[i as int] as int, l@[a] as int);
                        }
                    }
                }
            }
            j += 1;
        }
    }
    proof {
        assert forall|x: usize| lo <= x < hi implies #[trigger] out@.contains(x) by {
            if x < mid {
                assert(l@.contains(x));
                let k = choose|k: int| 0 <= k < l@.len() && l@[k] == x;
                assert(out@.contains(l@[k]));
            } else {
                assert(r@.contains(x));
                let k = choose|k: int| 0 <= k < r@.len() && r@[k] == x;
                assert(out@.contains(r@[k]));
            }
        }
    }
    out
}

fn sort_range(rows: &Vec<Row>, lo: usize, hi: usize) -> (out: Vec<usize>)
    requires
        lo <= hi <= rows@.len(),
    ensures
        out@.len() == hi - lo,
        covers(out@, lo as int, hi as int),
        ascending(models(rows@), out@),
    decreases hi - lo,
{
    if hi - lo == 0 {
        return Vec::new();
    }
    if hi - lo == 1 {
        let mut one: Vec<usize> = Vec::new();
        one.push(lo);
        proof {
            assert(one@[0] == lo);
            assert forall|x: usize| lo <= x < hi implies #[trigger] one@.contains(x) by {
                assert(one@[0] == x);
            }
        }
        return one;
    }
    let mid: usize = lo + (hi - lo) / 2;
    let l = sort_range(rows, lo, mid);
    let r = sort_range(rows, mid, hi);
    merge(rows, &l, &r, lo, mid, hi)
}

/// The places of `rows` in their order.
pub fn rank(rows: &Vec<Row>) -> (order: Vec<usize>)
    ensures
        order@.len() == rows@.len(),
        forall|i: int|
            0 <= i < order@.len() ==> #[trigger] order@[i] == ranking(models(rows@))[i],
        is_ranking(models(rows@), ranking(models(rows@))),
{
    let order = sort_range(rows, 0, rows.len());
    proof {
        let p = ints(order@);
        let m = models(rows@);
        assert forall|x: int| 0 <= x < m.len() implies #[trigger] p.contains(x) by {
            assert(order@.contains(x as usize));
            let k = choose|k: int| 0 <= k < order@.len() && order@[k] == x as usize;
            assert(p[k] == x);
        }
        assert(is_ranking(m, p));
        lemma_ranking_unique(m, p, ranking(m));
    }
    order
}

} // verus!
