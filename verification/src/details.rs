//! The pages in which the differences of a choice are listed.
use base64::Engine as _;
use vstd::prelude::*;
use vstd::utf8::*;

use crate::decimal;
use crate::decimal::{read_unsigned, write_decimal};
use crate::escape;
use crate::selection::PendingInitial;
use crate::text;
use crate::text::{append, chars_of, find_from, owned, same, string_of, string_of_range, text_from_utf8};

verus! {

pub const INITIAL_CHOICE_DETAIL_DEFAULT_LIMIT: usize = 512;

pub const INITIAL_CHOICE_DETAIL_MAX_LIMIT: usize = 1024;

pub const INITIAL_CHOICE_DETAIL_MAX_RESPONSE: usize = 524_288;

pub const MAX_CURSOR_BYTES: usize = 4096;

/// What `base64` reads from a text in the URL-safe alphabet without padding.
pub uninterp spec fn url_safe_bytes(text: Seq<char>) -> Option<Seq<u8>>;

/// `base64::engine::general_purpose::URL_SAFE_NO_PAD.encode`: a text of four
/// ASCII characters for every three bytes, from which the same engine reads the
/// bytes back. The characters themselves are left unsaid.
#[verifier::external_body]
fn encode_url_safe(bytes: &[u8]) -> (out: String)
    requires
        bytes@.len() <= 0x4000_0000,
    ensures
        url_safe_bytes(out@) == Some(bytes@),
        encode_utf8(out@).len() == (4 * bytes@.len() + 2) / 3,
{
    base64::engine::general_purpose::URL_SAFE_NO_PAD.encode(bytes)
}

/// `base64::engine::general_purpose::URL_SAFE_NO_PAD.decode`, which depends on
/// the text alone.
#[verifier::external_body]
fn decode_url_safe(text: &str) -> (r: Option<Vec<u8>>)
    ensures
        match r {
            Some(bytes) => url_safe_bytes(text@) == Some(bytes@),
            None => url_safe_bytes(text@) is None,
        },
{
    base64::engine::general_purpose::URL_SAFE_NO_PAD.decode(text).ok()
}

/// Why a cursor is refused.
#[derive(Debug, Clone, Copy, PartialEq, Eq, Structural)]
pub enum CursorProblem {
    Invalid,
    /// The cursor belongs to another choice.
    OtherChoice,
}

/// The text inside a cursor.
pub open spec fn cursor_text(choice: Seq<char>, offset: nat) -> Seq<char> {
    choice + "\0"@ + decimal::decimal_text(offset)
}

/// What the bytes of a decoded cursor say.
pub open spec fn cursor_offset(bytes: Option<Seq<u8>>, choice: Seq<char>) -> Result<
    nat,
    CursorProblem,
> {
    match bytes {
        None => Err(CursorProblem::Invalid),
        Some(b) => if !valid_utf8(b) {
            Err(CursorProblem::Invalid)
        } else {
            let s = decode_utf8(b);
            let at = text::first_index(s, '\0');
            if at >= s.len() {
                Err(CursorProblem::Invalid)
            } else if s.take(at) != choice {
                Err(CursorProblem::OtherChoice)
            } else {
                match decimal::parse_unsigned(s.skip(at + 1), usize::MAX as nat) {
                    Some(n) => Ok(n),
                    None => Err(CursorProblem::Invalid),
                }
            }
        },
    }
}

/// The cursor that goes on at `offset`.
pub fn encode_initial_choice_cursor(choice_id: &str, offset: usize) -> (out: String)
    requires
        encode_utf8(choice_id@).len() <= crate::selection::INITIAL_SELECTION_ID_MAX_BYTES,
    ensures
        url_safe_bytes(out@) == Some(encode_utf8(cursor_text(choice_id@, offset as nat))),
        encode_utf8(out@).len() <= MAX_CURSOR_BYTES,
        out@.len() > 0,
{
    let mut inner = owned(choice_id);
    append(&mut inner, "\0");
    let digits = write_decimal(offset as u64);
    let number = string_of(&digits);
    append(&mut inner, number.as_str());
    proof {
        assert(inner@ =~= cursor_text(choice_id@, offset as nat));
        lemma_cursor_size(choice_id@, offset as nat);
    }
    let out = encode_url_safe(inner.as_str().as_bytes());
    proof {
        if out@.len() == 0 {
            assert(out@ =~= Seq::<char>::empty());
        }
    }
    out
}

/// What the bytes of a cursor say, once they were decoded.
pub fn read_cursor_bytes(bytes: Option<Vec<u8>>, choice_id: &str) -> (r: Result<
    usize,
    CursorProblem,
>)
    ensures
        ({
            let view = match bytes {
                Some(b) => Some(b@),
                None => None,
            };
            match r {
                Err(p) => cursor_offset(view, choice_id@) == Err::<nat, CursorProblem>(p),
                Ok(n) => cursor_offset(view, choice_id@) == Ok::<nat, CursorProblem>(n as nat),
            }
        }),
{
    let bytes = match bytes {
        None => return Err(CursorProblem::Invalid),
        Some(bytes) => bytes,
    };
    let inner = match text_from_utf8(bytes) {
        None => return Err(CursorProblem::Invalid),
        Some(inner) => inner,
    };
    let chars = chars_of(inner.as_str());
    let at: usize = find_from(&chars, 0, '\0');
    proof {
        assert(chars@.skip(0) =~= inner@);
    }
    if at >= chars.len() {
        return Err(CursorProblem::Invalid);
    }
    let name = string_of_range(&chars, 0, at);
    proof {
        assert(name@ =~= inner@.take(at as int));
    }
    if !same(name.as_str(), choice_id) {
        return Err(CursorProblem::OtherChoice);
    }
    let rest = string_of_range(&chars, at + 1, chars.len());
    let digits = chars_of(rest.as_str());
    proof {
        assert(digits@ =~= inner@.skip(at + 1));
    }
    match read_unsigned(&digits, usize::MAX as u64) {
        Some(n) => Ok(n as usize),
        None => Err(CursorProblem::Invalid),
    }
}

/// Where a cursor of the choice goes on.
pub fn decode_initial_choice_cursor(cursor: &str, choice_id: &str) -> (r: Result<
    usize,
    CursorProblem,
>)
    ensures
        ({
            let len = encode_utf8(cursor@).len();
            let want = if len == 0 || len > MAX_CURSOR_BYTES {
                Err(CursorProblem::Invalid)
            } else {
                cursor_offset(url_safe_bytes(cursor@), choice_id@)
            };
            match r {
                Err(p) => want == Err::<nat, CursorProblem>(p),
                Ok(n) => want == Ok::<nat, CursorProblem>(n as nat),
            }
        }),
{
    let len: usize = cursor.as_bytes().len();
    if len == 0 || len > MAX_CURSOR_BYTES {
        return Err(CursorProblem::Invalid);
    }
    read_cursor_bytes(decode_url_safe(cursor), choice_id)
}

proof fn lemma_cursor_size(choice: Seq<char>, offset: nat)
    requires
        offset <= usize::MAX,
    ensures
        0 < encode_utf8(cursor_text(choice, offset)).len() <= encode_utf8(choice).len() + 21,
{
    assert(offset < ten_to(20)) by {
        reveal_with_fuel(ten_to, 21);
    }
    lemma_decimal_size(offset, 20);
    decimal::lemma_decimal_text(offset);
    let digits = decimal::decimal_text(offset);
    reveal_strlit("\0");
    lemma_utf8_concat(choice, "\0"@ + digits);
    assert(choice + ("\0"@ + digits) =~= cursor_text(choice, offset));
    let tail = "\0"@ + digits;
    assert forall|k: int| 0 <= k < tail.len() implies #[trigger] tail[k] <= '\u{7f}' by {
        if k > 0 {
            assert(tail[k] == digits[k - 1]);
            assert(decimal::is_digit(digits[k - 1]));
        }
    }
    lemma_ascii_size(tail);
}

spec fn ten_to(places: nat) -> nat
    decreases places,
{
    if places == 0 {
        1
    } else {
        10 * ten_to((places - 1) as nat)
    }
}

proof fn lemma_decimal_size(n: nat, places: nat)
    requires
        n < ten_to(places),
        places > 0,
    ensures
        decimal::decimal_text(n).len() <= places,
    decreases places,
{
    if n >= 10 {
        assert(places > 1) by {
            reveal_with_fuel(ten_to, 2);
        }
        lemma_decimal_size(n / 10, (places - 1) as nat);
    }
}

proof fn lemma_ascii_size(s: Seq<char>)
    requires
        forall|k: int| 0 <= k < s.len() ==> #[trigger] s[k] <= '\u{7f}',
    ensures
        encode_utf8(s).len() == s.len(),
    decreases s.len(),
{
    if s.len() > 0 {
        escape::lemma_utf8_step(s);
        escape::lemma_utf8_ascii_char(s[0]);
        assert forall|k: int| 0 <= k < s.drop_first().len() implies #[trigger] s.drop_first()[k]
            <= '\u{7f}' by {
            assert(s.drop_first()[k] == s[k + 1]);
        }
        lemma_ascii_size(s.drop_first());
    }
}

proof fn lemma_utf8_concat(a: Seq<char>, b: Seq<char>)
    ensures
        encode_utf8(a + b) == encode_utf8(a) + encode_utf8(b),
    decreases a.len(),
{
    if a.len() == 0 {
        assert(a + b =~= b);
        assert(encode_utf8(a) =~= Seq::<u8>::empty());
        assert(encode_utf8(a) + encode_utf8(b) =~= encode_utf8(b));
    } else {
        escape::lemma_utf8_step(a);
        escape::lemma_utf8_step(a + b);
        assert((a + b).drop_first() =~= a.drop_first() + b);
        assert((a + b)[0] == a[0]);
        lemma_utf8_concat(a.drop_first(), b);
        assert(encode_utf8(a + b) =~= encode_utf8(a) + encode_utf8(b));
    }
}

/// The cursor of a choice leads back to where it was made.
pub proof fn law_cursor_reads_back(choice: Seq<char>, offset: nat)
    requires
        offset <= usize::MAX,
        !choice.contains('\0'),
    ensures
        cursor_offset(Some(encode_utf8(cursor_text(choice, offset))), choice) == Ok::<
            nat,
            CursorProblem,
        >(offset),
{
    let s = cursor_text(choice, offset);
    encode_utf8_valid_utf8(s);
    encode_utf8_decode_utf8(s);
    reveal_strlit("\0");
    let at = choice.len() as int;
    assert(s[at] == '\0');
    assert forall|j: int| 0 <= j < at implies #[trigger] s[j] != '\0' by {
        assert(s[j] == choice[j]);
    }
    text::lemma_first_index_is(s, '\0', at);
    assert(s.take(at) =~= choice);
    assert(s.skip(at + 1) =~= decimal::decimal_text(offset));
    decimal::lemma_decimal_round_trip(offset, usize::MAX as nat);
}

/// Why a page is refused.
#[derive(Debug, Clone, Copy, PartialEq, Eq, Structural)]
pub enum PageProblem {
    NoPending,
    Resolved,
    Cursor(CursorProblem),
    OutOfRange,
    /// One difference alone exceeds the size of a page.
    ItemTooLarge,
}

/// How many differences a page may hold.
pub open spec fn page_limit(asked: Option<usize>) -> usize {
    match asked {
        None => INITIAL_CHOICE_DETAIL_DEFAULT_LIMIT,
        Some(n) => if n < 1 {
            1
        } else if n > INITIAL_CHOICE_DETAIL_MAX_LIMIT {
            INITIAL_CHOICE_DETAIL_MAX_LIMIT
        } else {
            n
        },
    }
}

/// Where a page begins.
pub open spec fn page_start(
    slot: Option<&PendingInitial>,
    choice: Seq<char>,
    offset: Option<Result<nat, CursorProblem>>,
) -> Result<nat, PageProblem> {
    match slot {
        None => Err(PageProblem::NoPending),
        Some(p) => if p.choice_id@ != choice {
            Err(PageProblem::NoPending)
        } else if p.choice is Some {
            Err(PageProblem::Resolved)
        } else {
            match offset {
                None => Ok(0),
                Some(Err(problem)) => Err(PageProblem::Cursor(problem)),
                Some(Ok(n)) => if n > p.details@.len() {
                    Err(PageProblem::OutOfRange)
                } else {
                    Ok(n)
                },
            }
        },
    }
}

/// The differences that a page may hold: from where, and to where.
pub fn initial_choice_details(
    slot: Option<&PendingInitial>,
    choice_id: &str,
    cursor: Option<&str>,
    limit: Option<usize>,
) -> (r: Result<(usize, usize), PageProblem>)
    ensures
        ({
            let offset = match cursor {
                None => None,
                Some(c) => {
                    let len = encode_utf8(c@).len();
                    Some(
                        if len == 0 || len > MAX_CURSOR_BYTES {
                            Err(CursorProblem::Invalid)
                        } else {
                            cursor_offset(url_safe_bytes(c@), choice_id@)
                        },
                    )
                },
            };
            match r {
                Err(p) => page_start(slot, choice_id@, offset) == Err::<nat, PageProblem>(p),
                Ok((from, to)) => {
                    &&& page_start(slot, choice_id@, offset) == Ok::<nat, PageProblem>(from as nat)
                    &&& slot is Some
                    &&& to == (if from + page_limit(limit) <= slot->0.details@.len() {
                        from + page_limit(limit)
                    } else {
                        slot->0.details@.len() as int
                    })
                    &&& from <= to <= slot->0.details@.len()
                },
            }
        }),
{
    let pending = match slot {
        None => return Err(PageProblem::NoPending),
        Some(pending) => pending,
    };
    if !same(pending.choice_id.as_str(), choice_id) {
        return Err(PageProblem::NoPending);
    }
    if pending.choice.is_some() {
        return Err(PageProblem::Resolved);
    }
    let from: usize = match cursor {
        None => 0,
        Some(cursor) => match decode_initial_choice_cursor(cursor, choice_id) {
            Err(p) => return Err(PageProblem::Cursor(p)),
            Ok(n) => n,
        },
    };
    let total: usize = pending.details.len();
    if from > total {
        return Err(PageProblem::OutOfRange);
    }
    let count: usize = match limit {
        None => INITIAL_CHOICE_DETAIL_DEFAULT_LIMIT,
        Some(n) => if n < 1 {
            1
        } else if n > INITIAL_CHOICE_DETAIL_MAX_LIMIT {
            INITIAL_CHOICE_DETAIL_MAX_LIMIT
        } else {
            n
        },
    };
    let to: usize = if count <= total - from {
        from + count
    } else {
        total
    };
    Ok((from, to))
}

/// How many items of these sizes a page takes, after `n` of them have brought
/// it to `used`.
pub open spec fn page_count(sizes: Seq<usize>, envelope: int, used: int, n: int) -> int
    decreases sizes.len() - n,
{
    if n < 0 || n >= sizes.len() {
        n
    } else {
        let separator: int = if n > 0 {
            1
        } else {
            0
        };
        if envelope + used + separator + sizes[n] > INITIAL_CHOICE_DETAIL_MAX_RESPONSE {
            n
        } else {
            page_count(sizes, envelope, used + separator + sizes[n], n + 1)
        }
    }
}

fn count_items(sizes: &[usize], envelope: usize) -> (n: usize)
    ensures
        n == page_count(sizes@, envelope as int, 2, 0),
        n <= sizes@.len(),
{
    let mut used: usize = 2;
    let mut n: usize = 0;
    while n < sizes.len()
        invariant
            n <= sizes@.len(),
            2 <= used <= INITIAL_CHOICE_DETAIL_MAX_RESPONSE + 2,
            page_count(sizes@, envelope as int, 2, 0) == page_count(
                sizes@,
                envelope as int,
                used as int,
                n as int,
            ),
        decreases sizes@.len() - n,
    {
        let separator: usize = if n > 0 {
            1
        } else {
            0
        };
        let size: usize = sizes[n];
        let base: usize = used + separator;
        if size > INITIAL_CHOICE_DETAIL_MAX_RESPONSE || envelope
            > INITIAL_CHOICE_DETAIL_MAX_RESPONSE || envelope + base + size
            > INITIAL_CHOICE_DETAIL_MAX_RESPONSE {
            return n;
        }
        used = base + size;
        n += 1;
    }
    n
}

/// One page of differences: how many it holds, whether it is the last, and the
/// cursor to the next.
#[derive(Debug)]
pub struct DetailPage {
    pub count: usize,
    pub complete: bool,
    pub next_cursor: Option<String>,
}

/// Packs the items of these encoded sizes, which begin at `start` of `total`.
/// `envelope` is the size of the page without its list of items.
pub fn pack_initial_choice_detail_page(
    choice_id: &str,
    total: usize,
    start: usize,
    sizes: &[usize],
    envelope: usize,
) -> (r: Result<DetailPage, PageProblem>)
    requires
        encode_utf8(choice_id@).len() <= crate::selection::INITIAL_SELECTION_ID_MAX_BYTES,
        start + sizes@.len() <= total,
    ensures
        ({
            let n = if start < total {
                page_count(sizes@, envelope as int, 2, 0)
            } else {
                sizes@.len() as int
            };
            match r {
                Err(p) => p == PageProblem::ItemTooLarge && start < total && n == 0,
                Ok(page) => {
                    &&& start < total ==> n > 0
                    &&& page.count == n
                    &&& page.complete == (start + n == total)
                    &&& match page.next_cursor {
                        None => page.complete,
                        Some(cursor) => !page.complete && url_safe_bytes(cursor@) == Some(
                            encode_utf8(cursor_text(choice_id@, (start + n) as nat)),
                        ),
                    }
                },
            }
        }),
{
    let mut count: usize = sizes.len();
    if start < total {
        let n: usize = count_items(sizes, envelope);
        if n == 0 {
            return Err(PageProblem::ItemTooLarge);
        }
        count = n;
    }
    let end: usize = start + count;
    let complete = end == total;
    let next_cursor = if complete {
        None
    } else {
        Some(encode_initial_choice_cursor(choice_id, end))
    };
    Ok(DetailPage { count, complete, next_cursor })
}

} // verus!
