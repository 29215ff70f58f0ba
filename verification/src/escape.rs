//! The percent escapes of file names: what they mean and that they can be undone.
use vstd::prelude::*;
use vstd::utf8::*;

use crate::text;

verus! {

pub open spec fn hex_char(d: int) -> char {
    if d < 10 {
        ((d + 48) as u32) as char
    } else {
        ((d + 55) as u32) as char
    }
}

/// `%XX` for one byte, with upper-case digits.
pub open spec fn percent(b: u8) -> Seq<char> {
    seq!['%', hex_char(b as int / 16), hex_char(b as int % 16)]
}

pub open spec fn percent_all(bytes: Seq<u8>) -> Seq<char>
    decreases bytes.len(),
{
    if bytes.len() == 0 {
        Seq::empty()
    } else {
        percent(bytes[0]) + percent_all(bytes.drop_first())
    }
}

/// A character written as the escapes of its UTF-8 bytes.
pub open spec fn percent_char(c: char) -> Seq<char> {
    percent_all(encode_utf8(seq![c]))
}

/// Characters that never stand for themselves in a file name.
pub open spec fn needs_escape(c: char) -> bool {
    ||| c > '\u{7f}'
    ||| c == '/' || c == '\\' || c == '\0' || c == '%' || c == ':' || c == '<' || c == '>' || c
        == '"' || c == '|' || c == '?' || c == '*'
    ||| c < ' '
}

/// Whether the character at `i` of the name `n` is escaped.
pub open spec fn escaped_at(n: Seq<char>, i: int) -> bool {
    ||| i == 0 && (n[i] == '.' || n[i] == ' ')
    ||| i + 1 == n.len() && (n[i] == '.' || n[i] == ' ')
    ||| needs_escape(n[i])
}

/// The characters of `n` from `i` on, those that `f` selects written as escapes.
pub open spec fn rendered(n: Seq<char>, i: int, f: spec_fn(int) -> bool) -> Seq<char>
    decreases n.len() - i,
{
    if i < 0 || i >= n.len() {
        Seq::empty()
    } else if f(i) {
        percent_char(n[i]) + rendered(n, i + 1, f)
    } else {
        seq![n[i]] + rendered(n, i + 1, f)
    }
}

pub open spec fn escaped(n: Seq<char>) -> Seq<char> {
    rendered(n, 0, |i: int| escaped_at(n, i))
}

/// Names that Windows keeps for devices, in lower case.
pub open spec fn is_device_name(h: Seq<char>) -> bool {
    ||| h == seq!['c', 'o', 'n']
    ||| h == seq!['c', 'o', 'n', 'i', 'n', '$']
    ||| h == seq!['c', 'o', 'n', 'o', 'u', 't', '$']
    ||| h == seq!['p', 'r', 'n']
    ||| h == seq!['a', 'u', 'x']
    ||| h == seq!['n', 'u', 'l']
    ||| h.len() == 4 && (h.take(3) == seq!['c', 'o', 'm'] || h.take(3) == seq!['l', 'p', 't'])
        && '1' <= h[3] && h[3] <= '9'
}

/// Whether the part before the first dot is a device name, in any case.
pub open spec fn is_reserved(s: Seq<char>) -> bool {
    is_device_name(text::lower(s.take(text::first_index(s, '.'))))
}

/// Escapes the first character of a device name.
pub open spec fn guard_reserved(s: Seq<char>) -> Seq<char> {
    if is_reserved(s) {
        percent_char(s[0]) + s.drop_first()
    } else {
        s
    }
}

/// The last place where `s` has a space and then an opening bracket, or -1.
pub open spec fn last_mark(s: Seq<char>) -> int
    decreases s.len(),
{
    if s.len() < 2 {
        -1
    } else if s[s.len() - 2] == ' ' && s[s.len() - 1] == '[' {
        s.len() - 2
    } else {
        last_mark(s.drop_last())
    }
}

pub proof fn lemma_last_mark(s: Seq<char>)
    ensures
        -1 <= last_mark(s) <= s.len() - 2 || last_mark(s) == -1,
        last_mark(s) >= 0 ==> s[last_mark(s)] == ' ' && s[last_mark(s) + 1] == '[',
        forall|j: int|
            last_mark(s) < j && 0 <= j && j + 1 < s.len() ==> !(#[trigger] s[j] == ' ' && s[j + 1] == '['),
    decreases s.len(),
{
    if s.len() >= 2 && !(s[s.len() - 2] == ' ' && s[s.len() - 1] == '[') {
        let t = s.drop_last();
        lemma_last_mark(t);
        assert forall|j: int|
            last_mark(s) < j && 0 <= j && j + 1 < s.len() implies !(#[trigger] s[j] == ' ' && s[j + 1] == '[') by {
            if j + 1 < t.len() {
                assert(t[j] == s[j] && t[j + 1] == s[j + 1]);
            }
        }
    }
}

pub proof fn lemma_last_mark_is(s: Seq<char>, k: int)
    requires
        0 <= k,
        k + 1 < s.len(),
        s[k] == ' ' && s[k + 1] == '[',
        forall|j: int| k < j && j + 1 < s.len() ==> !(#[trigger] s[j] == ' ' && s[j + 1] == '['),
    ensures
        last_mark(s) == k,
{
    lemma_last_mark(s);
    let m = last_mark(s);
    if m > k {
        assert(s[m] == ' ' && s[m + 1] == '[');
    }
}

pub open spec fn unhex(b: u8) -> Option<u8> {
    if 48 <= b <= 57 {
        Some((b - 48) as u8)
    } else if 97 <= b <= 102 {
        Some((b - 87) as u8)
    } else if 65 <= b <= 70 {
        Some((b - 55) as u8)
    } else {
        None
    }
}

/// The bytes that `%XX` escapes stand for; anything else stands for itself.
pub open spec fn unescaped(b: Seq<u8>) -> Seq<u8>
    decreases b.len(),
{
    if b.len() == 0 {
        Seq::empty()
    } else if b[0] == 37 && b.len() > 2 && unhex(b[1]) is Some && unhex(b[2]) is Some {
        seq![(unhex(b[1])->0 * 16 + unhex(b[2])->0) as u8] + unescaped(b.skip(3))
    } else {
        seq![b[0]] + unescaped(b.skip(1))
    }
}

/// The bytes of ASCII text.
pub open spec fn ascii_bytes(s: Seq<char>) -> Seq<u8> {
    Seq::new(s.len(), |i: int| s[i] as u8)
}

pub proof fn lemma_percent_all(bytes: Seq<u8>)
    ensures
        percent_all(bytes).len() == 3 * bytes.len(),
        forall|i: int|
            0 <= i < percent_all(bytes).len() ==> {
                let c = #[trigger] percent_all(bytes)[i];
                c == '%' || ('0' <= c && c <= '9') || ('A' <= c && c <= 'F')
            },
        bytes.len() > 0 ==> percent_all(bytes)[0] == '%',
    decreases bytes.len(),
{
    if bytes.len() > 0 {
        lemma_percent_all(bytes.drop_first());
        let rest = percent_all(bytes.drop_first());
        let all = percent_all(bytes);
        assert forall|i: int| 0 <= i < all.len() implies {
            let c = #[trigger] all[i];
            c == '%' || ('0' <= c && c <= '9') || ('A' <= c && c <= 'F')
        } by {
            if i >= 3 {
                assert(all[i] == rest[i - 3]);
            } else {
                assert(all[i] == percent(bytes[0])[i]);
            }
        }
    }
}

pub proof fn lemma_utf8_step(n: Seq<char>)
    requires
        n.len() > 0,
    ensures
        encode_utf8(n) == encode_utf8(seq![n[0]]) + encode_utf8(n.drop_first()),
        encode_utf8(seq![n[0]]).len() > 0,
{
    let one = seq![n[0]];
    assert(one.drop_first() =~= Seq::<char>::empty());
    assert(encode_utf8(one.drop_first()) =~= Seq::<u8>::empty());
    assert(encode_utf8(one) =~= encode_scalar(n[0] as u32));
}

pub proof fn lemma_utf8_ascii_char(c: char)
    requires
        c <= '\u{7f}',
    ensures
        encode_utf8(seq![c]) == seq![c as u8],
{
    is_ascii_chars_encode_utf8(seq![c]);
    assert(encode_utf8(seq![c]) =~= seq![c as u8]) by {
        assert(seq![c][0] as u8 == encode_utf8(seq![c])[0]);
    }
}

proof fn lemma_unescape_percent(bytes: Seq<u8>, rest: Seq<u8>)
    ensures
        unescaped(ascii_bytes(percent_all(bytes)) + rest) == bytes + unescaped(rest),
    decreases bytes.len(),
{
    if bytes.len() == 0 {
        assert(ascii_bytes(percent_all(bytes)) + rest =~= rest);
        assert(bytes + unescaped(rest) =~= unescaped(rest));
    } else {
        let tail = bytes.drop_first();
        lemma_unescape_percent(tail, rest);
        let all = ascii_bytes(percent_all(bytes)) + rest;
        let b = bytes[0];
        assert(percent_all(bytes) =~= percent(b) + percent_all(tail));
        assert(all.skip(3) =~= ascii_bytes(percent_all(tail)) + rest);
        assert(all[0] == 37);
        let hi = b as int / 16;
        let lo = b as int % 16;
        assert(all[1] == hex_char(hi) as u8);
        assert(all[2] == hex_char(lo) as u8);
        assert(unhex(all[1]) == Some(hi as u8));
        assert(unhex(all[2]) == Some(lo as u8));
        assert(unescaped(all) =~= seq![b] + unescaped(all.skip(3)));
        assert(seq![b] + (tail + unescaped(rest)) =~= bytes + unescaped(rest));
    }
}

pub proof fn lemma_char_range(c: char)
    ensures
        '\0' <= c,
        0 <= c as int <= 0x10ffff,
{
}

/// What `f` has to select so that a rendering can be read back.
pub open spec fn covers(n: Seq<char>, f: spec_fn(int) -> bool) -> bool {
    forall|i: int| 0 <= i < n.len() && (#[trigger] n[i] == '%' || n[i] > '\u{7f}') ==> f(i)
}

pub proof fn lemma_rendered_ascii(n: Seq<char>, i: int, f: spec_fn(int) -> bool)
    requires
        covers(n, f),
        0 <= i <= n.len(),
    ensures
        is_ascii_chars(rendered(n, i, f)),
        encode_utf8(rendered(n, i, f)) == ascii_bytes(rendered(n, i, f)),
        i < n.len() ==> rendered(n, i, f).len() > 0,
    decreases n.len() - i,
{
    let out = rendered(n, i, f);
    if i < n.len() {
        lemma_rendered_ascii(n, i + 1, f);
        let rest = rendered(n, i + 1, f);
        let piece = if f(i) {
            percent_char(n[i])
        } else {
            seq![n[i]]
        };
        assert(seq![n[i]][0] == n[i]);
        lemma_utf8_step(seq![n[i]]);
        lemma_percent_all(encode_utf8(seq![n[i]]));
        assert(out =~= piece + rest);
        assert(!f(i) ==> n[i] <= '\u{7f}');
        assert forall|k: int| 0 <= k < out.len() implies '\0' <= #[trigger] out[k] <= '\u{7f}' by {
            lemma_char_range(out[k]);
            if k < piece.len() {
                assert(out[k] == piece[k]);
                if f(i) {
                    let c = percent_all(encode_utf8(seq![n[i]]))[k];
                    assert(c == '%' || ('0' <= c && c <= '9') || ('A' <= c && c <= 'F'));
                }
            } else {
                assert(out[k] == rest[k - piece.len()]);
            }
        }
    }
    is_ascii_chars_encode_utf8(out);
    assert(encode_utf8(out) =~= ascii_bytes(out));
}

/// Undoing the escapes of a rendering gives the bytes of the name.
pub proof fn lemma_unescape_rendered(n: Seq<char>, i: int, f: spec_fn(int) -> bool)
    requires
        covers(n, f),
        0 <= i <= n.len(),
    ensures
        unescaped(ascii_bytes(rendered(n, i, f))) == encode_utf8(n.skip(i)),
    decreases n.len() - i,
{
    let out = rendered(n, i, f);
    if i == n.len() {
        assert(ascii_bytes(out) =~= Seq::<u8>::empty());
        assert(n.skip(i) =~= Seq::<char>::empty());
        assert(encode_utf8(n.skip(i)) =~= Seq::<u8>::empty());
    } else {
        lemma_unescape_rendered(n, i + 1, f);
        let rest = rendered(n, i + 1, f);
        lemma_utf8_step(n.skip(i));
        assert(n.skip(i).drop_first() =~= n.skip(i + 1));
        assert(n.skip(i)[0] == n[i]);
        let bytes = encode_utf8(seq![n[i]]);
        if f(i) {
            assert(ascii_bytes(out) =~= ascii_bytes(percent_all(bytes)) + ascii_bytes(rest));
            lemma_unescape_percent(bytes, ascii_bytes(rest));
        } else {
            lemma_utf8_ascii_char(n[i]);
            let b = ascii_bytes(out);
            assert(n[i] != '%' && n[i] <= '\u{7f}');
            assert(out[0] == n[i]);
            assert(b[0] == n[i] as u8);
            lemma_char_range(n[i]);
            assert(b[0] as u32 == n[i] as u32);
            assert(b.skip(1) =~= ascii_bytes(rest));
            assert(unescaped(b) == seq![b[0]] + unescaped(b.skip(1)));
        }
    }
}

/// Two selections that agree on `[i, j)` give the same text up to `j`.
proof fn lemma_rendered_agree(
    n: Seq<char>,
    i: int,
    j: int,
    f: spec_fn(int) -> bool,
    g: spec_fn(int) -> bool,
) -> (q: int)
    requires
        0 <= i <= j <= n.len(),
        forall|k: int| i <= k < j ==> #[trigger] f(k) == g(k),
    ensures
        0 <= q <= rendered(n, i, f).len(),
        q <= rendered(n, i, g).len(),
        q == rendered(n, i, f).len() - rendered(n, j, f).len(),
        rendered(n, i, f).take(q) == rendered(n, i, g).take(q),
        rendered(n, i, f).skip(q) == rendered(n, j, f),
        rendered(n, i, g).skip(q) == rendered(n, j, g),
    decreases j - i,
{
    let a = rendered(n, i, f);
    let b = rendered(n, i, g);
    if i == j {
        assert(a.take(0) =~= b.take(0));
        assert(a.skip(0) =~= a);
        assert(b.skip(0) =~= b);
        0
    } else {
        let q = lemma_rendered_agree(n, i + 1, j, f, g);
        let piece = if f(i) {
            percent_char(n[i])
        } else {
            seq![n[i]]
        };
        let ra = rendered(n, i + 1, f);
        let rb = rendered(n, i + 1, g);
        assert(a =~= piece + ra);
        assert(b =~= piece + rb);
        let p = piece.len() + q;
        assert(a.take(p) =~= piece + ra.take(q));
        assert(b.take(p) =~= piece + rb.take(q));
        assert(a.skip(p) =~= ra.skip(q));
        assert(b.skip(p) =~= rb.skip(q));
        p
    }
}

/// A character of a rendering that no escape can hold comes from one place of
/// the name.
proof fn lemma_rendered_origin(n: Seq<char>, i: int, f: spec_fn(int) -> bool, q: int) -> (j: int)
    requires
        0 <= i <= n.len(),
        0 <= q < rendered(n, i, f).len(),
        ({
            let c = rendered(n, i, f)[q];
            c != '%' && !('0' <= c && c <= '9') && !('A' <= c && c <= 'F')
        }),
    ensures
        i <= j < n.len(),
        !f(j),
        n[j] == rendered(n, i, f)[q],
        rendered(n, i, f).skip(q) == rendered(n, j, f),
        q == rendered(n, i, f).len() - rendered(n, j, f).len(),
    decreases n.len() - i,
{
    let out = rendered(n, i, f);
    let rest = rendered(n, i + 1, f);
    if f(i) {
        let piece = percent_char(n[i]);
        lemma_percent_all(encode_utf8(seq![n[i]]));
        assert(out =~= piece + rest);
        if q < piece.len() {
            assert(out[q] == piece[q]);
        }
        assert(out[q] == rest[q - piece.len()]);
        let j = lemma_rendered_origin(n, i + 1, f, q - piece.len());
        assert(out.skip(q) =~= rest.skip(q - piece.len()));
        j
    } else if q == 0 {
        assert(out.skip(0) =~= out);
        i
    } else {
        assert(out =~= seq![n[i]] + rest);
        assert(out[q] == rest[q - 1]);
        let j = lemma_rendered_origin(n, i + 1, f, q - 1);
        assert(out.skip(q) =~= rest.skip(q - 1));
        j
    }
}

/// A device name starts with a letter.
proof fn lemma_device_head(s: Seq<char>)
    requires
        is_reserved(s),
    ensures
        s.len() > 0,
        s[0] != '%',
        s[0] <= '\u{7f}',
{
    text::lemma_first_index(s, '.');
    let head = s.take(text::first_index(s, '.'));
    assert(text::lower(head).len() == head.len());
    let l = text::lower(head);
    if l.len() == 4 {
        assert(l.take(3)[0] == l[0]);
    }
    assert(l[0] == 'c' || l[0] == 'p' || l[0] == 'a' || l[0] == 'n' || l[0] == 'l');
    assert(l[0] == text::lower_char(head[0]));
    assert(head[0] == s[0]);
}

/// Guarding a device name selects one more place of the name.
pub proof fn lemma_guard_reserved(n: Seq<char>, f: spec_fn(int) -> bool) -> (g: spec_fn(
    int,
) -> bool)
    requires
        n.len() > 0,
        covers(n, f),
    ensures
        covers(n, g),
        guard_reserved(rendered(n, 0, f)) == rendered(n, 0, g),
        forall|i: int| f(i) ==> #[trigger] g(i),
{
    let out = rendered(n, 0, f);
    if is_reserved(out) {
        lemma_device_head(out);
        lemma_utf8_step(seq![n[0]]);
        lemma_percent_all(encode_utf8(seq![n[0]]));
        assert(seq![n[0]][0] == n[0]);
        let rest = rendered(n, 1, f);
        if f(0) {
            assert(out[0] == percent_char(n[0])[0]);
        }
        assert(out =~= seq![n[0]] + rest);
        let g = |i: int| f(i) || i == 0;
        let q = lemma_rendered_agree(n, 1, n.len() as int, f, g);
        assert(rendered(n, 1, f) =~= rendered(n, 1, f).take(q));
        assert(rendered(n, 1, g) =~= rendered(n, 1, g).take(q)) by {
            assert(rendered(n, 1, g).skip(q) =~= rendered(n, n.len() as int, g));
            assert(rendered(n, 1, g).skip(q).len() == 0);
        }
        assert(out.drop_first() =~= rest);
        assert(out[0] == n[0]);
        g
    } else {
        f
    }
}

/// Escapes the brackets of a literal ordinal suffix that opens at `open`.
pub open spec fn guard_mark(s: Seq<char>, open: int) -> Seq<char> {
    s.take(open) + seq![' ', '%', '5', 'B'] + s.subrange(open + 2, s.len() - 1) + seq![
        '%',
        '5',
        'D',
    ]
}

/// Guarding an ordinal suffix selects two more places of the name.
pub proof fn lemma_guard_mark(n: Seq<char>, f: spec_fn(int) -> bool, open: int) -> (g: spec_fn(
    int,
) -> bool)
    requires
        covers(n, f),
        0 <= open,
        open + 2 < rendered(n, 0, f).len(),
        rendered(n, 0, f)[open + 1] == '[',
        rendered(n, 0, f)[open] == ' ',
        rendered(n, 0, f).last() == ']',
    ensures
        covers(n, g),
        guard_mark(rendered(n, 0, f), open) == rendered(n, 0, g),
        forall|i: int| f(i) ==> #[trigger] g(i),
{
    let out = rendered(n, 0, f);
    let end = out.len() - 1;
    let j = lemma_rendered_origin(n, 0, f, open + 1);
    let l = lemma_rendered_origin(n, 0, f, end);
    let g = |i: int| f(i) || i == j || i == l;
    if l <= j {
        let q0 = lemma_rendered_agree(n, l, j, f, f);
        assert(rendered(n, l, f).len() >= rendered(n, j, f).len());
    }
    assert(j < l);
    // The closing bracket is the last character of the name.
    assert(rendered(n, l, f).len() == 1);
    assert(rendered(n, l, f) =~= seq![n[l]] + rendered(n, l + 1, f));
    assert(rendered(n, l + 1, f).len() == 0);
    lemma_rendered_ascii(n, l + 1, f);
    assert(l + 1 == n.len());
    lemma_utf8_ascii_char('[');
    lemma_utf8_ascii_char(']');
    assert(percent_char('[') =~= seq!['%', '5', 'B']) by {
        let b = encode_utf8(seq!['[']);
        assert(b.drop_first() =~= Seq::<u8>::empty());
        assert(percent_all(b.drop_first()) =~= Seq::<char>::empty());
        assert(percent_all(b) =~= percent(91u8));
    }
    assert(percent_char(']') =~= seq!['%', '5', 'D']) by {
        let b = encode_utf8(seq![']']);
        assert(b.drop_first() =~= Seq::<u8>::empty());
        assert(percent_all(b.drop_first()) =~= Seq::<char>::empty());
        assert(percent_all(b) =~= percent(93u8));
    }
    let q = lemma_rendered_agree(n, 0, j, f, g);
    assert(q == open + 1);
    let p = lemma_rendered_agree(n, j + 1, l, f, g);
    let mid_f = rendered(n, j + 1, f);
    let mid_g = rendered(n, j + 1, g);
    assert(rendered(n, j, f) =~= seq!['['] + mid_f);
    assert(rendered(n, j, g) =~= percent_char('[') + mid_g);
    assert(rendered(n, l, g) =~= percent_char(']') + rendered(n, l + 1, g));
    assert(rendered(n, l + 1, g) =~= Seq::<char>::empty());
    assert(mid_g =~= mid_f.take(p) + percent_char(']')) by {
        assert(mid_g =~= mid_g.take(p) + mid_g.skip(p));
    }
    assert(mid_f.take(p) =~= out.subrange(open + 2, out.len() - 1)) by {
        assert(out.skip(open + 1) =~= rendered(n, j, f));
        assert(out.skip(open + 1).skip(1) =~= out.skip(open + 2));
        assert((seq!['['] + mid_f).skip(1) =~= mid_f);
        assert(p == mid_f.len() - 1);
    }
    let whole = rendered(n, 0, g);
    assert(whole =~= whole.take(q) + whole.skip(q));
    assert(whole.take(q) =~= out.take(open) + seq![' ']);
    assert(guard_mark(out, open) =~= whole);
    g
}

} // verus!
