//! Paths as texts, told apart by their components.
use vstd::prelude::*;
use vstd::string::*;

use crate::text;
use crate::text::{chars_of, split_chars, string_of};

verus! {

/// Whether a piece between two slashes is a component of a path: doubled slashes
/// and single dots make none, but for a dot at the start.
pub open spec fn is_component(piece: Seq<char>, at: int) -> bool {
    piece.len() > 0 && (piece != "."@ || at == 0)
}

/// The components among the first `n` pieces.
pub open spec fn components_of(pieces: Seq<Seq<char>>, n: int) -> Seq<Seq<char>>
    decreases n,
{
    if n <= 0 {
        Seq::empty()
    } else if is_component(pieces[n - 1], n - 1) {
        components_of(pieces, n - 1).push(pieces[n - 1])
    } else {
        components_of(pieces, n - 1)
    }
}

/// A path: whether it starts at the root, and its components.
pub open spec fn path_value(path: Seq<char>) -> (bool, Seq<Seq<char>>) {
    let pieces = text::split(path, '/');
    (path.len() > 0 && path[0] == '/', components_of(pieces, pieces.len() as int))
}

/// Takes a path apart.
pub fn path_components(path: &str) -> (r: (bool, Vec<Vec<char>>))
    ensures
        r.0 == path_value(path@).0,
        r.1@.len() == path_value(path@).1.len(),
        forall|i: int| 0 <= i < r.1@.len() ==> (#[trigger] r.1@[i])@ == path_value(path@).1[i],
{
    let chars = chars_of(path);
    let rooted = chars.len() > 0 && chars[0] == '/';
    let pieces = split_chars(chars.as_slice(), '/');
    let ghost all = text::split(path@, '/');
    let mut out: Vec<Vec<char>> = Vec::new();
    let mut k: usize = 0;
    proof {
        reveal_strlit(".");
    }
    while k < pieces.len()
        invariant
            k <= pieces@.len(),
            pieces@.len() == all.len(),
            forall|i: int| 0 <= i < pieces@.len() ==> (#[trigger] pieces@[i])@ == all[i],
            out@.len() == components_of(all, k as int).len(),
            forall|i: int|
                0 <= i < out@.len() ==> (#[trigger] out@[i])@ == components_of(all, k as int)[i],
            "."@ == seq!['.'],
        decreases pieces@.len() - k,
    {
        let piece = &pieces[k];
        let dot = piece.len() == 1 && piece[0] == '.';
        proof {
            assert(piece@ == all[k as int]);
            assert(dot == (piece@ == "."@)) by {
                if dot {
                    assert(piece@ =~= seq!['.']);
                }
            }
        }
        if piece.len() > 0 && (!dot || k == 0) {
            out.push(copy_chars(piece));
        }
        k += 1;
    }
    (rooted, out)
}

fn copy_chars(chars: &Vec<char>) -> (out: Vec<char>)
    ensures
        out@ == chars@,
{
    let mut out: Vec<char> = Vec::new();
    let mut k: usize = 0;
    while k < chars.len()
        invariant
            k <= chars@.len(),
            out@ == chars@.take(k as int),
        decreases chars@.len() - k,
    {
        out.push(chars[k]);
        k += 1;
        proof {
            assert(chars@.take(k as int) =~= chars@.take(k - 1).push(chars@[k - 1]));
        }
    }
    proof {
        assert(chars@.take(k as int) =~= chars@);
    }
    out
}

fn same_chars(a: &Vec<char>, b: &Vec<char>) -> (r: bool)
    ensures
        r == (a@ == b@),
{
    if a.len() != b.len() {
        return false;
    }
    let mut k: usize = 0;
    while k < a.len()
        invariant
            k <= a@.len(),
            a@.len() == b@.len(),
            forall|i: int| 0 <= i < k ==> #[trigger] a@[i] == b@[i],
        decreases a@.len() - k,
    {
        if a[k] != b[k] {
            return false;
        }
        k += 1;
    }
    proof {
        assert(a@ =~= b@);
    }
    true
}

/// Whether two texts name the same path.
pub fn same_path(a: &str, b: &str) -> (r: bool)
    ensures
        r == (path_value(a@) == path_value(b@)),
{
    let (a_rooted, left) = path_components(a);
    let (b_rooted, right) = path_components(b);
    if a_rooted != b_rooted || left.len() != right.len() {
        return false;
    }
    let mut k: usize = 0;
    while k < left.len()
        invariant
            k <= left@.len(),
            left@.len() == right@.len(),
            left@.len() == path_value(a@).1.len(),
            right@.len() == path_value(b@).1.len(),
            forall|i: int| 0 <= i < left@.len() ==> (#[trigger] left@[i])@ == path_value(a@).1[i],
            forall|i: int| 0 <= i < right@.len() ==> (#[trigger] right@[i])@ == path_value(b@).1[i],
            forall|i: int| 0 <= i < k ==> #[trigger] path_value(a@).1[i] == path_value(b@).1[i],
        decreases left@.len() - k,
    {
        if !same_chars(&left[k], &right[k]) {
            proof {
                assert(path_value(a@).1[k as int] != path_value(b@).1[k as int]);
            }
            return false;
        }
        k += 1;
    }
    proof {
        assert(path_value(a@).1 =~= path_value(b@).1);
    }
    true
}

/// The components with a slash between each two.
pub open spec fn slashed(components: Seq<Seq<char>>) -> Seq<char>
    decreases components.len(),
{
    if components.len() == 0 {
        Seq::empty()
    } else if components.len() == 1 {
        components[0]
    } else {
        components[0].push('/') + slashed(components.skip(1))
    }
}

/// The one spelling of a path with these components.
pub open spec fn spelling(rooted: bool, components: Seq<Seq<char>>) -> Seq<char> {
    if rooted {
        seq!['/'] + slashed(components)
    } else {
        slashed(components)
    }
}

/// The path without doubled slashes, single dots and a slash at the end.
pub open spec fn plain(path: Seq<char>) -> Seq<char> {
    let (rooted, components) = path_value(path);
    spelling(rooted, components)
}

/// The components as texts.
pub open spec fn pieces_of(components: Seq<Vec<char>>) -> Seq<Seq<char>> {
    Seq::new(components.len(), |i: int| components[i]@)
}

proof fn lemma_slashed_push(components: Seq<Seq<char>>, last: Seq<char>)
    requires
        components.len() > 0,
    ensures
        slashed(components.push(last)) == slashed(components).push('/') + last,
    decreases components.len(),
{
    let whole = components.push(last);
    if components.len() == 1 {
        assert(whole.skip(1) =~= seq![last]);
        assert(slashed(seq![last]) == last);
    } else {
        lemma_slashed_push(components.skip(1), last);
        assert(whole.skip(1) =~= components.skip(1).push(last));
    }
    assert(whole[0] == components[0]);
    assert(slashed(whole) == components[0].push('/') + slashed(whole.skip(1)));
    assert(slashed(whole) =~= slashed(components).push('/') + last);
}

/// Spells a path out.
pub fn spell(rooted: bool, components: &Vec<Vec<char>>) -> (out: String)
    ensures
        out@ == spelling(rooted, pieces_of(components@)),
{
    let ghost all = pieces_of(components@);
    let mut chars: Vec<char> = Vec::new();
    if rooted {
        chars.push('/');
    }
    let ghost start = chars@;
    let mut k: usize = 0;
    while k < components.len()
        invariant
            k <= components@.len(),
            all == pieces_of(components@),
            chars@ == start + slashed(all.take(k as int)),
        decreases components@.len() - k,
    {
        proof {
            assert(all.take(k + 1) =~= all.take(k as int).push(all[k as int]));
            if k > 0 {
                lemma_slashed_push(all.take(k as int), all[k as int]);
            }
        }
        if k > 0 {
            chars.push('/');
        }
        let mut next = copy_chars(&components[k]);
        chars.append(&mut next);
        k += 1;
        proof {
            assert(chars@ =~= start + slashed(all.take(k as int)));
        }
    }
    proof {
        assert(all.take(k as int) =~= all);
        assert(chars@ =~= spelling(rooted, all));
    }
    string_of(chars.as_slice())
}

/// The one spelling of a path.
pub fn plain_path(path: &str) -> (out: String)
    ensures
        out@ == plain(path@),
{
    let (rooted, components) = path_components(path);
    proof {
        assert(pieces_of(components@) =~= path_value(path@).1);
    }
    spell(rooted, &components)
}

/// Whether a text could be a component: it is not empty and holds no slash.
pub open spec fn is_piece(piece: Seq<char>) -> bool {
    piece.len() > 0 && !piece.contains('/')
}

/// The pieces that a text is cut into hold no separator.
proof fn lemma_pieces_clean(s: Seq<char>, sep: char, j: int)
    requires
        0 <= j < text::split(s, sep).len(),
    ensures
        !text::split(s, sep)[j].contains(sep),
    decreases s.len(),
{
    text::lemma_first_index(s, sep);
    let k = text::first_index(s, sep);
    if 0 <= k < s.len() {
        if j > 0 {
            lemma_pieces_clean(s.skip(k + 1), sep, j - 1);
        }
    }
}

proof fn lemma_components_clean(pieces: Seq<Seq<char>>, n: int, j: int)
    requires
        0 <= n <= pieces.len(),
        forall|i: int| 0 <= i < pieces.len() ==> !(#[trigger] pieces[i]).contains('/'),
        0 <= j < components_of(pieces, n).len(),
    ensures
        is_piece(components_of(pieces, n)[j]),
        components_of(pieces, n)[j] == "."@ ==> j == 0 && pieces[0] == "."@,
    decreases n,
{
    if is_component(pieces[n - 1], n - 1) {
        let before = components_of(pieces, n - 1);
        if j < before.len() {
            lemma_components_clean(pieces, n - 1, j);
        } else if pieces[n - 1] == "."@ {
            assert(n == 1);
            assert(components_of(pieces, 0).len() == 0);
        }
    } else {
        lemma_components_clean(pieces, n - 1, j);
    }
}

/// Pieces that hold no slash are found again in the text that they make.
proof fn lemma_split_slashed(components: Seq<Seq<char>>)
    requires
        components.len() > 0,
        forall|i: int| 0 <= i < components.len() ==> !(#[trigger] components[i]).contains('/'),
    ensures
        text::split(slashed(components), '/') == components,
    decreases components.len(),
{
    let whole = slashed(components);
    let first = components[0];
    let k = first.len() as int;
    assert forall|j: int| 0 <= j < k implies #[trigger] whole[j] != '/' by {
        assert(whole[j] == first[j]);
        assert(first.contains(first[j]));
    }
    text::lemma_first_index_is(whole, '/', k);
    if components.len() == 1 {
        assert(text::split(whole, '/') =~= components);
    } else {
        let rest = components.skip(1);
        assert forall|i: int| 0 <= i < rest.len() implies !(#[trigger] rest[i]).contains('/') by {
            assert(rest[i] == components[i + 1]);
        }
        lemma_split_slashed(rest);
        assert(whole.skip(k + 1) =~= slashed(rest));
        assert(whole.take(k) =~= first);
        assert(text::split(whole, '/') =~= components);
    }
}

/// Where all pieces are components, none is left out.
proof fn lemma_all_components(pieces: Seq<Seq<char>>, from: int, n: int)
    requires
        0 <= from <= n <= pieces.len(),
        from <= 1,
        from == 1 ==> pieces[0].len() == 0,
        forall|i: int| from <= i < pieces.len() ==> is_component(#[trigger] pieces[i], i),
    ensures
        components_of(pieces, n) == pieces.subrange(from, n),
    decreases n,
{
    if n > from {
        lemma_all_components(pieces, from, n - 1);
        assert(pieces.subrange(from, n) =~= pieces.subrange(from, n - 1).push(pieces[n - 1]));
    } else {
        if n == 1 {
            assert(components_of(pieces, 0) =~= Seq::<Seq<char>>::empty());
        }
        assert(pieces.subrange(from, n) =~= Seq::<Seq<char>>::empty());
    }
}

/// The spelling of a path names that path.
pub proof fn lemma_plain_value(path: Seq<char>)
    ensures
        path_value(plain(path)) == path_value(path),
{
    reveal_strlit(".");
    let pieces = text::split(path, '/');
    let (rooted, components) = path_value(path);
    let spelled = plain(path);
    assert forall|i: int| 0 <= i < pieces.len() implies !(#[trigger] pieces[i]).contains('/') by {
        lemma_pieces_clean(path, '/', i);
    }
    text::lemma_first_index(path, '/');
    if rooted {
        text::lemma_first_index_is(path, '/', 0);
        assert(pieces[0] =~= Seq::<char>::empty());
    }
    assert forall|i: int| 0 <= i < components.len() implies is_piece(#[trigger] components[i]) && (
    components[i] == "."@ ==> i == 0 && !rooted) by {
        lemma_components_clean(pieces, pieces.len() as int, i);
    }
    if components.len() == 0 {
        if rooted {
            assert(spelled =~= seq!['/']);
            text::lemma_first_index_is(spelled, '/', 0);
            assert(spelled.skip(1) =~= Seq::<char>::empty());
            assert(spelled.take(0) =~= Seq::<char>::empty());
            assert(text::split(Seq::<char>::empty(), '/') =~= seq![Seq::<char>::empty()]) by {
                text::lemma_first_index(Seq::<char>::empty(), '/');
            }
            assert(text::split(spelled, '/') =~= seq![
                Seq::<char>::empty(),
                Seq::<char>::empty(),
            ]);
            reveal_with_fuel(components_of, 3);
        } else {
            text::lemma_first_index(spelled, '/');
            assert(text::split(spelled, '/') =~= seq![Seq::<char>::empty()]);
            reveal_with_fuel(components_of, 2);
        }
        assert(path_value(spelled).1 =~= components);
    } else {
        lemma_split_slashed(components);
        let tail = slashed(components);
        assert(tail.len() > 0 && tail[0] == components[0][0]);
        assert(components[0].contains(components[0][0]));
        if rooted {
            text::lemma_first_index_is(spelled, '/', 0);
            assert(spelled.skip(1) =~= tail);
            assert(spelled.take(0) =~= Seq::<char>::empty());
            let again = seq![Seq::<char>::empty()] + components;
            assert(text::split(spelled, '/') =~= again);
            assert forall|i: int| 1 <= i < again.len() implies is_component(
                #[trigger] again[i],
                i,
            ) by {
                assert(again[i] == components[i - 1]);
            }
            lemma_all_components(again, 1, again.len() as int);
            assert(again.subrange(1, again.len() as int) =~= components);
        } else {
            lemma_all_components(components, 0, components.len() as int);
            assert(components.subrange(0, components.len() as int) =~= components);
        }
    }
}

/// Two texts have one spelling where they name the same path, and only there.
pub proof fn law_one_spelling_for_equal_paths(a: Seq<char>, b: Seq<char>)
    ensures
        (plain(a) == plain(b)) == (path_value(a) == path_value(b)),
{
    lemma_plain_value(a);
    lemma_plain_value(b);
}

} // verus!
