//! How many items go into one reply of bounded size.
use vstd::prelude::*;

verus! {

/// The size that no encoded reply exceeds.
pub const STREAM_SOURCE_CHUNK_BYTES: usize = 524_288;

/// The size up to which a reply is filled.
pub const STREAM_RESPONSE_PACK_TARGET: usize = 522_240;

pub const STREAM_STRUCTURE_CHUNK_NODES: usize = 512;

/// Why items cannot be packed.
#[derive(Debug, Clone, Copy, PartialEq, Eq, Structural)]
pub enum PackProblem {
    /// The size of the reply is not a number of the machine.
    Overflow,
}

/// How many of the items from `from` on are packed, after `n` of them have
/// brought the reply to `used`: each counts with its size and a separator.
pub open spec fn packed(sizes: Seq<usize>, from: int, used: int, n: int) -> Result<
    int,
    PackProblem,
>
    decreases sizes.len() - from - n,
{
    if n < 0 || from + n >= sizes.len() || n >= STREAM_STRUCTURE_CHUNK_NODES {
        Ok(n)
    } else if used + sizes[from + n] + 1 > usize::MAX {
        Err(PackProblem::Overflow)
    } else if used + sizes[from + n] + 1 > STREAM_RESPONSE_PACK_TARGET {
        Ok(n)
    } else {
        packed(sizes, from, used + sizes[from + n] + 1, n + 1)
    }
}

/// Packs items of these sizes behind an envelope.
pub fn pack(sizes: &[usize], from: usize, envelope: usize) -> (r: Result<usize, PackProblem>)
    requires
        from <= sizes@.len(),
    ensures
        match r {
            Err(p) => packed(sizes@, from as int, envelope as int, 0) == Err::<int, PackProblem>(p),
            Ok(n) => packed(sizes@, from as int, envelope as int, 0) == Ok::<int, PackProblem>(
                n as int,
            ) && from + n <= sizes@.len(),
        },
{
    let mut used: usize = envelope;
    let mut n: usize = 0;
    let len: usize = sizes.len();
    while n < len - from && n < STREAM_STRUCTURE_CHUNK_NODES
        invariant
            len == sizes@.len(),
            from <= len,
            n <= len - from,
            packed(sizes@, from as int, envelope as int, 0) == packed(
                sizes@,
                from as int,
                used as int,
                n as int,
            ),
        decreases len - n,
    {
        let with_item: usize = match used.checked_add(sizes[from + n]) {
            None => return Err(PackProblem::Overflow),
            Some(total) => total,
        };
        let candidate: usize = match with_item.checked_add(1) {
            None => return Err(PackProblem::Overflow),
            Some(total) => total,
        };
        if candidate > STREAM_RESPONSE_PACK_TARGET {
            return Ok(n);
        }
        used = candidate;
        n += 1;
    }
    Ok(n)
}

/// The size of a reply that holds the items from `from` to `to`: its frame,
/// the items, and a separator between each two of them.
pub open spec fn exact_size(
    sizes: Seq<usize>,
    from: int,
    to: int,
    more_frame: int,
    last_frame: int,
) -> int {
    (if to == sizes.len() {
        last_frame
    } else {
        more_frame
    }) + items_size(sizes, from, to)
}

pub open spec fn items_size(sizes: Seq<usize>, from: int, to: int) -> int
    decreases to - from,
{
    if to <= from {
        0
    } else {
        items_size(sizes, from, to - 1) + sizes[to - 1] + (if to - 1 > from {
            1int
        } else {
            0int
        })
    }
}

/// How many of the items from `from` on fit, after `n` of them did, where the
/// frame of the last reply differs from that of the others.
pub open spec fn fitted(
    sizes: Seq<usize>,
    from: int,
    more_frame: int,
    last_frame: int,
    n: int,
) -> int
    decreases sizes.len() - from - n,
{
    if n < 0 || from + n >= sizes.len() || n >= STREAM_STRUCTURE_CHUNK_NODES {
        n
    } else if exact_size(sizes, from, from + n + 1, more_frame, last_frame)
        > STREAM_RESPONSE_PACK_TARGET {
        n
    } else {
        fitted(sizes, from, more_frame, last_frame, n + 1)
    }
}

/// Fits items of these sizes into a reply.
pub fn fit(sizes: &[usize], from: usize, more_frame: usize, last_frame: usize) -> (n: usize)
    requires
        from <= sizes@.len(),
    ensures
        n == fitted(sizes@, from as int, more_frame as int, last_frame as int, 0),
        from + n <= sizes@.len(),
        n > 0 ==> exact_size(
            sizes@,
            from as int,
            from + n,
            more_frame as int,
            last_frame as int,
        ) <= STREAM_RESPONSE_PACK_TARGET,
{
    let len: usize = sizes.len();
    let mut body: usize = 0;
    let mut n: usize = 0;
    while n < len - from && n < STREAM_STRUCTURE_CHUNK_NODES
        invariant
            len == sizes@.len(),
            from <= len,
            n <= len - from,
            body == items_size(sizes@, from as int, from + n),
            body <= STREAM_RESPONSE_PACK_TARGET,
            n > 0 ==> exact_size(
                sizes@,
                from as int,
                from + n,
                more_frame as int,
                last_frame as int,
            ) <= STREAM_RESPONSE_PACK_TARGET,
            fitted(sizes@, from as int, more_frame as int, last_frame as int, 0) == fitted(
                sizes@,
                from as int,
                more_frame as int,
                last_frame as int,
                n as int,
            ),
        decreases len - n,
    {
        let frame: usize = if from + n + 1 == len {
            last_frame
        } else {
            more_frame
        };
        let separator: usize = if n > 0 {
            1
        } else {
            0
        };
        let size: usize = sizes[from + n];
        if size > STREAM_RESPONSE_PACK_TARGET || frame > STREAM_RESPONSE_PACK_TARGET {
            proof {
                lemma_items_size(sizes@, from as int, from + n);
            }
            return n;
        }
        let next: usize = body + size + separator;
        if frame + next > STREAM_RESPONSE_PACK_TARGET {
            return n;
        }
        body = next;
        n += 1;
    }
    n
}

proof fn lemma_items_size(sizes: Seq<usize>, from: int, to: int)
    requires
        0 <= from <= to <= sizes.len(),
    ensures
        items_size(sizes, from, to) >= 0,
    decreases to - from,
{
    if from < to {
        lemma_items_size(sizes, from, to - 1);
    }
}

/// A packed reply stays within the fill target, and thereby within the limit.
pub proof fn law_packed_replies_stay_within_target(
    sizes: Seq<usize>,
    from: int,
    envelope: int,
    count: int,
)
    requires
        0 <= from <= sizes.len(),
        envelope >= 0,
        packed(sizes, from, envelope, 0) == Ok::<int, PackProblem>(count),
        count > 0,
    ensures
        envelope + items_size(sizes, from, from + count) <= STREAM_RESPONSE_PACK_TARGET,
        STREAM_RESPONSE_PACK_TARGET <= STREAM_SOURCE_CHUNK_BYTES,
        count <= STREAM_STRUCTURE_CHUNK_NODES,
        from + count <= sizes.len(),
{
    lemma_packed_from(sizes, from, envelope, envelope, 0, count);
}

proof fn lemma_packed_from(
    sizes: Seq<usize>,
    from: int,
    envelope: int,
    used: int,
    n: int,
    count: int,
)
    requires
        0 <= from,
        0 <= n,
        from + n <= sizes.len(),
        n <= STREAM_STRUCTURE_CHUNK_NODES,
        packed(sizes, from, used, n) == Ok::<int, PackProblem>(count),
        envelope + items_size(sizes, from, from + n) <= used,
        n > 0 ==> used <= STREAM_RESPONSE_PACK_TARGET,
    ensures
        n <= count,
        from + count <= sizes.len(),
        count <= STREAM_STRUCTURE_CHUNK_NODES,
        count > 0 ==> envelope + items_size(sizes, from, from + count)
            <= STREAM_RESPONSE_PACK_TARGET,
    decreases sizes.len() - from - n,
{
    if from + n < sizes.len() && n < STREAM_STRUCTURE_CHUNK_NODES && used + sizes[from + n] + 1
        <= STREAM_RESPONSE_PACK_TARGET {
        lemma_packed_from(sizes, from, envelope, used + sizes[from + n] + 1, n + 1, count);
    }
}

} // verus!
