//! Character-sequence helpers shared by the other modules.
use vstd::prelude::*;
use vstd::string::*;
use vstd::utf8::*;

verus! {

/// `String::push` appends the given character.
pub assume_specification[ String::push ](s: &mut String, c: char)
    ensures
        final(s)@ == old(s)@.push(c),
;

/// The characters of `s`, in order.
pub fn chars_of(s: &str) -> (out: Vec<char>)
    ensures
        out@ == s@,
{
    let mut out: Vec<char> = Vec::new();
    for c in it: s.chars()
        invariant
            it.seq() == s@,
            out@ == s@.take(it.index()),
    {
        proof {
            assert(s@.take(it.index() + 1) =~= s@.take(it.index()).push(s@[it.index()]));
        }
        out.push(c);
    }
    proof {
        assert(s@.take(s@.len() as int) =~= s@);
    }
    out
}

/// The string whose characters are `chars`.
pub fn string_of(chars: &[char]) -> (out: String)
    ensures
        out@ == chars@,
{
    let mut out = String::new();
    for i in 0..chars.len()
        invariant
            out@ == chars@.take(i as int),
    {
        proof {
            assert(chars@.take(i + 1) =~= chars@.take(i as int).push(chars@[i as int]));
        }
        out.push(chars[i]);
    }
    proof {
        assert(chars@.take(chars@.len() as int) =~= chars@);
    }
    out
}

/// The string whose characters are `chars[from..to]`.
pub fn string_of_range(chars: &[char], from: usize, to: usize) -> (out: String)
    requires
        from <= to <= chars@.len(),
    ensures
        out@ == chars@.subrange(from as int, to as int),
{
    let mut out = String::new();
    let ghost want = chars@.subrange(from as int, to as int);
    for i in from..to
        invariant
            from <= i <= to <= chars@.len(),
            want == chars@.subrange(from as int, to as int),
            out@ == want.take(i - from),
    {
        proof {
            assert(want.take(i - from + 1) =~= want.take(i - from).push(chars@[i as int]));
        }
        out.push(chars[i]);
    }
    proof {
        assert(want.take(want.len() as int) =~= want);
    }
    out
}

/// An owned copy of `s`.
pub fn owned(s: &str) -> (out: String)
    ensures
        out@ == s@,
{
    s.to_owned()
}

pub open spec fn option_text(o: Option<String>) -> Option<Seq<char>> {
    match o {
        Some(s) => Some(s@),
        None => None,
    }
}

/// Characters decide their UTF-8 bytes, and the other way round.
pub proof fn lemma_utf8_injective(a: Seq<char>, b: Seq<char>)
    requires
        encode_utf8(a) == encode_utf8(b),
    ensures
        a == b,
{
    encode_utf8_decode_utf8(a);
    encode_utf8_decode_utf8(b);
}

/// Whether two texts hold the same characters.
pub fn same(a: &str, b: &str) -> (r: bool)
    ensures
        r == (a@ == b@),
{
    let x = a.as_bytes();
    let y = b.as_bytes();
    if x.len() != y.len() {
        return false;
    }
    let mut i: usize = 0;
    while i < x.len()
        invariant
            i <= x@.len(),
            x@.len() == y@.len(),
            x@ == encode_utf8(a@),
            y@ == encode_utf8(b@),
            x@.take(i as int) == y@.take(i as int),
        decreases x@.len() - i,
    {
        if x[i] != y[i] {
            return false;
        }
        proof {
            assert(x@.take(i + 1) =~= x@.take(i as int).push(x@[i as int]));
            assert(y@.take(i + 1) =~= y@.take(i as int).push(y@[i as int]));
        }
        i += 1;
    }
    proof {
        assert(x@.take(i as int) =~= x@);
        assert(y@.take(i as int) =~= y@);
        lemma_utf8_injective(a@, b@);
    }
    true
}

/// ASCII lower case of one character; every other character is kept.
pub open spec fn lower_char(c: char) -> char {
    if 'A' <= c && c <= 'Z' {
        ((c as u32) + 32) as char
    } else {
        c
    }
}

/// ASCII lower case, character by character.
pub open spec fn lower(s: Seq<char>) -> Seq<char> {
    Seq::new(s.len(), |i: int| lower_char(s[i]))
}

pub fn lower_of(c: char) -> (r: char)
    ensures
        r == lower_char(c),
{
    if 'A' <= c && c <= 'Z' {
        let b: u8 = c as u8;
        (b + 32) as char
    } else {
        c
    }
}

/// `s` with its ASCII letters in lower case.
pub fn lower_text(s: &str) -> (out: String)
    ensures
        out@ == lower(s@),
{
    let mut out = String::new();
    for c in it: s.chars()
        invariant
            it.seq() == s@,
            out@ == lower(s@).take(it.index()),
    {
        proof {
            assert(lower(s@).take(it.index() + 1) =~= lower(s@).take(it.index()).push(
                lower_char(s@[it.index()]),
            ));
        }
        out.push(lower_of(c));
    }
    proof {
        assert(lower(s@).take(s@.len() as int) =~= lower(s@));
    }
    out
}

/// Equality up to ASCII case.
pub fn same_ignoring_case(a: &str, b: &str) -> (r: bool)
    ensures
        r == (lower(a@) == lower(b@)),
{
    let x = lower_text(a);
    let y = lower_text(b);
    x == y
}

/// Whether `chars` ends with the characters of `suffix`.
pub fn ends_with(chars: &[char], suffix: &str) -> (r: bool)
    ensures
        r == suffix@.is_suffix_of(chars@),
{
    let tail = chars_of(suffix);
    if tail.len() > chars.len() {
        return false;
    }
    let base: usize = chars.len() - tail.len();
    let mut i: usize = 0;
    while i < tail.len()
        invariant
            i <= tail@.len() <= chars@.len() <= usize::MAX,
            base == chars@.len() - tail@.len(),
            tail@ == suffix@,
            forall|j: int| 0 <= j < i ==> tail@[j] == #[trigger] chars@[base + j],
        decreases tail@.len() - i,
    {
        if tail[i] != chars[base + i] {
            assert(chars@.subrange(chars@.len() - tail@.len(), chars@.len() as int)[i as int]
                != tail@[i as int]);
            return false;
        }
        i += 1;
    }
    proof {
        assert(chars@.subrange(chars@.len() - tail@.len(), chars@.len() as int) =~= tail@) by {
            assert forall|j: int| 0 <= j < tail@.len() implies chars@.subrange(
                chars@.len() - tail@.len(),
                chars@.len() as int,
            )[j] == tail@[j] by {
                assert(chars@[base + j] == tail@[j]);
            }
        }
    }
    true
}

/// Whether `chars` begins with the characters of `prefix`.
pub fn starts_with(chars: &[char], prefix: &str) -> (r: bool)
    ensures
        r == prefix@.is_prefix_of(chars@),
{
    let head = chars_of(prefix);
    if head.len() > chars.len() {
        return false;
    }
    let mut i: usize = 0;
    while i < head.len()
        invariant
            i <= head@.len() <= chars@.len(),
            head@ == prefix@,
            forall|j: int| 0 <= j < i ==> head@[j] == #[trigger] chars@[j],
        decreases head@.len() - i,
    {
        if head[i] != chars[i] {
            assert(chars@.subrange(0, head@.len() as int)[i as int] != head@[i as int]);
            return false;
        }
        i += 1;
    }
    proof {
        assert(chars@.subrange(0, head@.len() as int) =~= head@);
    }
    true
}

/// The place of the first `c` in `s`, or the length of `s`.
pub open spec fn first_index(s: Seq<char>, c: char) -> int
    decreases s.len(),
{
    if s.len() == 0 {
        0
    } else if s[0] == c {
        0
    } else {
        1 + first_index(s.drop_first(), c)
    }
}

pub proof fn lemma_first_index(s: Seq<char>, c: char)
    ensures
        0 <= first_index(s, c) <= s.len(),
        first_index(s, c) < s.len() ==> s[first_index(s, c)] == c,
        forall|j: int| 0 <= j < first_index(s, c) ==> #[trigger] s[j] != c,
    decreases s.len(),
{
    if s.len() > 0 && s[0] != c {
        let rest = s.drop_first();
        lemma_first_index(rest, c);
        assert forall|j: int| 0 <= j < first_index(s, c) implies #[trigger] s[j] != c by {
            if j > 0 {
                assert(rest[j - 1] == s[j]);
            }
        }
    }
}

pub proof fn lemma_first_index_is(s: Seq<char>, c: char, k: int)
    requires
        0 <= k <= s.len(),
        k < s.len() ==> s[k] == c,
        forall|j: int| 0 <= j < k ==> #[trigger] s[j] != c,
    ensures
        first_index(s, c) == k,
{
    lemma_first_index(s, c);
    if first_index(s, c) < k {
        assert(s[first_index(s, c)] != c);
    }
}

/// The place of the first `c` in `chars[from..]`, or the length of `chars`.
pub fn find_from(chars: &[char], from: usize, c: char) -> (k: usize)
    requires
        from <= chars@.len(),
    ensures
        from <= k <= chars@.len(),
        k == from + first_index(chars@.skip(from as int), c),
        k < chars@.len() ==> chars@[k as int] == c,
        forall|j: int| from <= j < k ==> #[trigger] chars@[j] != c,
{
    let mut k: usize = from;
    while k < chars.len() && chars[k] != c
        invariant
            from <= k <= chars@.len(),
            forall|j: int| from <= j < k ==> #[trigger] chars@[j] != c,
        decreases chars@.len() - k,
    {
        k += 1;
    }
    proof {
        let rest = chars@.skip(from as int);
        assert forall|j: int| 0 <= j < k - from implies #[trigger] rest[j] != c by {
            assert(rest[j] == chars@[from + j]);
        }
        lemma_first_index_is(rest, c, k - from);
    }
    k
}

/// The Unicode property `White_Space`.
pub open spec fn is_space(c: char) -> bool {
    ||| '\u{9}' <= c && c <= '\u{d}'
    ||| c == ' '
    ||| c == '\u{85}'
    ||| c == '\u{a0}'
    ||| c == '\u{1680}'
    ||| '\u{2000}' <= c && c <= '\u{200a}'
    ||| c == '\u{2028}'
    ||| c == '\u{2029}'
    ||| c == '\u{202f}'
    ||| c == '\u{205f}'
    ||| c == '\u{3000}'
}

pub fn space(c: char) -> (r: bool)
    ensures
        r == is_space(c),
{
    ('\u{9}' <= c && c <= '\u{d}') || c == ' ' || c == '\u{85}' || c == '\u{a0}' || c == '\u{1680}'
        || ('\u{2000}' <= c && c <= '\u{200a}') || c == '\u{2028}' || c == '\u{2029}' || c
        == '\u{202f}' || c == '\u{205f}' || c == '\u{3000}'
}

pub open spec fn trim_start(s: Seq<char>) -> Seq<char>
    decreases s.len(),
{
    if s.len() > 0 && is_space(s[0]) {
        trim_start(s.drop_first())
    } else {
        s
    }
}

pub open spec fn trim_end(s: Seq<char>) -> Seq<char>
    decreases s.len(),
{
    if s.len() > 0 && is_space(s.last()) {
        trim_end(s.drop_last())
    } else {
        s
    }
}

/// `s` without the white space at its two ends.
pub open spec fn trimmed(s: Seq<char>) -> Seq<char> {
    trim_end(trim_start(s))
}

/// The characters of `chars` without the white space at the two ends.
pub fn trim_chars(chars: &[char]) -> (out: Vec<char>)
    ensures
        out@ == trimmed(chars@),
{
    let mut from: usize = 0;
    proof {
        assert(chars@.skip(0) =~= chars@);
    }
    while from < chars.len() && space(chars[from])
        invariant
            from <= chars@.len(),
            trim_start(chars@.skip(from as int)) == trim_start(chars@),
        decreases chars@.len() - from,
    {
        proof {
            assert(chars@.skip(from as int).drop_first() =~= chars@.skip(from + 1));
        }
        from += 1;
    }
    proof {
        assert(trim_start(chars@) == chars@.skip(from as int));
        assert(chars@.subrange(from as int, chars@.len() as int) =~= chars@.skip(from as int));
    }
    let mut to: usize = chars.len();
    while from < to && space(chars[to - 1])
        invariant
            from <= to <= chars@.len(),
            trim_end(chars@.subrange(from as int, to as int)) == trimmed(chars@),
        decreases to,
    {
        proof {
            assert(chars@.subrange(from as int, to as int).drop_last() =~= chars@.subrange(
                from as int,
                to - 1,
            ));
        }
        to -= 1;
    }
    let mut out: Vec<char> = Vec::new();
    let mut i: usize = from;
    while i < to
        invariant
            from <= i <= to <= chars@.len(),
            out@ == chars@.subrange(from as int, i as int),
        decreases to - i,
    {
        proof {
            assert(chars@.subrange(from as int, i + 1) =~= chars@.subrange(
                from as int,
                i as int,
            ).push(chars@[i as int]));
        }
        out.push(chars[i]);
        i += 1;
    }
    out
}

/// `s` without the white space at its two ends.
pub fn trim_text(s: &str) -> (out: String)
    ensures
        out@ == trimmed(s@),
{
    let chars = chars_of(s);
    let kept = trim_chars(&chars);
    string_of(&kept)
}

/// The pieces of `s` between the occurrences of `sep`.
pub open spec fn split(s: Seq<char>, sep: char) -> Seq<Seq<char>>
    decreases s.len(),
{
    let k = first_index(s, sep);
    if 0 <= k < s.len() {
        seq![s.take(k)] + split(s.skip(k + 1), sep)
    } else {
        seq![s]
    }
}

/// A text without a separator is one piece, and what comes before the first
/// separator is the first piece.
pub proof fn lemma_split_first(head: Seq<char>, sep: char, rest: Seq<char>)
    requires
        !head.contains(sep),
    ensures
        split(head, sep) == seq![head],
        split(head.push(sep) + rest, sep) == seq![head] + split(rest, sep),
{
    let whole = head.push(sep) + rest;
    let k = head.len() as int;
    assert forall|j: int| 0 <= j < k implies #[trigger] head[j] != sep by {
        assert(head.contains(head[j]));
    }
    lemma_first_index_is(head, sep, k);
    assert forall|j: int| 0 <= j < k implies #[trigger] whole[j] != sep by {
        assert(whole[j] == head[j]);
    }
    lemma_first_index_is(whole, sep, k);
    assert(whole.take(k) =~= head);
    assert(whole.skip(k + 1) =~= rest);
}

/// Digits are not trimmed, and have no case.
pub proof fn lemma_plain_ends(s: Seq<char>)
    requires
        s.len() > 0,
        !is_space(s[0]),
        !is_space(s.last()),
    ensures
        trimmed(s) == s,
{
    assert(trim_start(s) == s);
    assert(trim_end(s) == s);
}

/// Cuts `chars` at every `sep`.
pub fn split_chars(chars: &[char], sep: char) -> (out: Vec<Vec<char>>)
    ensures
        out@.len() == split(chars@, sep).len(),
        forall|i: int| 0 <= i < out@.len() ==> (#[trigger] out@[i])@ == split(chars@, sep)[i],
{
    let mut out: Vec<Vec<char>> = Vec::new();
    let mut from: usize = 0;
    let ghost all = split(chars@, sep);
    proof {
        assert(chars@.skip(0) =~= chars@);
    }
    loop
        invariant
            from <= chars@.len(),
            all == split(chars@, sep),
            out@.len() + split(chars@.skip(from as int), sep).len() == all.len(),
            forall|i: int| 0 <= i < out@.len() ==> (#[trigger] out@[i])@ == all[i],
            forall|i: int|
                0 <= i < split(chars@.skip(from as int), sep).len() ==> split(
                    chars@.skip(from as int),
                    sep,
                )[i] == #[trigger] all[out@.len() + i],
        decreases chars@.len() - from,
    {
        let ghost rest = chars@.skip(from as int);
        let ghost pieces = split(rest, sep);
        let k = find_from(chars, from, sep);
        let mut piece: Vec<char> = Vec::new();
        let mut i: usize = from;
        while i < k
            invariant
                from <= i <= k <= chars@.len(),
                piece@ == chars@.subrange(from as int, i as int),
            decreases k - i,
        {
            proof {
                assert(chars@.subrange(from as int, i + 1) =~= chars@.subrange(
                    from as int,
                    i as int,
                ).push(chars@[i as int]));
            }
            piece.push(chars[i]);
            i += 1;
        }
        let ghost before = out@.len() as int;
        proof {
            lemma_first_index(rest, sep);
            assert(rest.take(k - from) =~= chars@.subrange(from as int, k as int));
            assert(pieces[0] == all[before + 0]);
            if k < chars@.len() {
                assert(rest.skip(k - from + 1) =~= chars@.skip(k + 1));
                assert(pieces[0] == rest.take(k - from));
                assert forall|i: int|
                    0 <= i < split(chars@.skip(k + 1), sep).len() implies split(
                    chars@.skip(k + 1),
                    sep,
                )[i] == #[trigger] all[before + 1 + i] by {
                    assert(pieces[i + 1] == all[before + (i + 1)]);
                }
            } else {
                assert(rest.take(k - from) =~= rest);
            }
        }
        out.push(piece);
        if k == chars.len() {
            return out;
        }
        from = k + 1;
    }
}

/// Appends the characters of `b` to `a`.
pub fn append(a: &mut String, b: &str)
    ensures
        final(a)@ == old(a)@ + b@,
{
    let ghost before = a@;
    for c in it: b.chars()
        invariant
            it.seq() == b@,
            a@ == before + b@.take(it.index()),
    {
        proof {
            assert(b@.take(it.index() + 1) =~= b@.take(it.index()).push(b@[it.index()]));
            assert((before + b@.take(it.index())).push(b@[it.index()]) =~= before + b@.take(
                it.index() + 1,
            ));
        }
        a.push(c);
    }
    proof {
        assert(b@.take(b@.len() as int) =~= b@);
    }
}

/// `a` followed by `b`.
pub fn joined(a: &str, b: &str) -> (out: String)
    ensures
        out@ == a@ + b@,
{
    let mut out = owned(a);
    append(&mut out, b);
    out
}

/// Whether a text holds another.
pub open spec fn holds(s: Seq<char>, part: Seq<char>) -> bool {
    exists|k: int|
        0 <= k && k + part.len() <= s.len() && #[trigger] s.subrange(k, k + part.len()) == part
}

pub fn text_holds(chars: &Vec<char>, part: &str) -> (r: bool)
    ensures
        r == holds(chars@, part@),
{
    let wanted = chars_of(part);
    let len: usize = chars.len();
    let size: usize = wanted.len();
    if size > len {
        return false;
    }
    let mut k: usize = 0;
    while k <= len - size
        invariant
            len == chars@.len(),
            size == wanted@.len(),
            wanted@ == part@,
            size <= len,
            k <= len - size + 1,
            forall|j: int|
                0 <= j < k ==> #[trigger] chars@.subrange(j, j + part@.len()) != part@,
        decreases len - size + 1 - k,
    {
        let piece = string_of_range(chars, k, k + size);
        if same(piece.as_str(), part) {
            assert(chars@.subrange(k as int, k + part@.len()) == part@);
            return true;
        }
        if k == len - size {
            proof {
                assert forall|j: int| 0 <= j && j + part@.len() <= chars@.len() implies
                    #[trigger] chars@.subrange(j, j + part@.len()) != part@ by {
                    if j == k {
                    }
                }
            }
            return false;
        }
        k += 1;
    }
    false
}

/// `String::from_utf8`: the text that the bytes encode, where they are valid
/// UTF-8, and nothing where they are not.
#[verifier::external_body]
pub(crate) fn text_from_utf8(bytes: Vec<u8>) -> (r: Option<String>)
    ensures
        r is Some == valid_utf8(bytes@),
        r is Some ==> r->0@ == decode_utf8(bytes@),
{
    String::from_utf8(bytes).ok()
}

} // verus!
