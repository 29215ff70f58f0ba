//! How instances are named on disk, and how names on disk are read.
//!
//! A module script `Foo` is the file `Foo.luau`, a script `Foo.server.luau`, a
//! local script `Foo.client.luau`; anything else is a directory. Siblings whose
//! names collide get a numeric suffix, and characters that file systems treat
//! specially are percent-encoded.
use std::borrow::Cow;

use vstd::prelude::*;
use vstd::string::*;
use vstd::utf8::*;

use crate::decimal;
use crate::decimal::{read_unsigned, write_decimal};
use crate::escape;
use crate::fs_safety;
use crate::fs_safety::{ObjectKind, ObjectProblem, Observed, PortableDirectoryIndex};
use crate::text;
use crate::text::{
    append, chars_of, ends_with, find_from, joined, lower_text, owned, same, starts_with, string_of,
    string_of_range,
};
use crate::text_map::TextMap;

verus! {

pub const MAX_PORTABLE_COMPONENT_BYTES: usize = 255;

pub const META_FILE: &'static str = ".meta.json";

/// What stands for an empty name.
pub const EMPTY_NAME_SENTINEL: &'static str = "%_";

/// The file that holds an instance's metadata.
pub open spec fn meta_file() -> Seq<char> {
    ".meta.json"@
}

/// The fragment that stands for an empty name.
pub open spec fn empty_name_sentinel() -> Seq<char> {
    seq!['%', '_']
}

/// `b` with every carriage return that a line feed follows taken out.
pub open spec fn normalized(b: Seq<u8>) -> Seq<u8>
    decreases b.len(),
{
    if b.len() == 0 {
        Seq::empty()
    } else if b[0] == 13 && b.len() > 1 && b[1] == 10 {
        seq![10u8] + normalized(b.skip(2))
    } else {
        seq![b[0]] + normalized(b.skip(1))
    }
}

/// `b` with a carriage return before every line feed.
pub open spec fn with_carriage_returns(b: Seq<u8>) -> Seq<u8>
    decreases b.len(),
{
    if b.len() == 0 {
        Seq::empty()
    } else if b[0] == 10 {
        seq![13u8, 10u8] + with_carriage_returns(b.skip(1))
    } else {
        seq![b[0]] + with_carriage_returns(b.skip(1))
    }
}

/// Text without carriage returns is kept as it is.
pub proof fn law_normalized_keeps_plain_text(b: Seq<u8>)
    requires
        !b.contains(13u8),
    ensures
        normalized(b) == b,
    decreases b.len(),
{
    if b.len() > 0 {
        assert(b[0] != 13) by {
            assert(b.contains(b[0]));
        }
        let rest = b.skip(1);
        assert(!rest.contains(13u8)) by {
            if rest.contains(13u8) {
                let i = choose|i: int| 0 <= i < rest.len() && rest[i] == 13u8;
                assert(b[i + 1] == 13u8);
            }
        }
        law_normalized_keeps_plain_text(rest);
        assert(seq![b[0]] + rest =~= b);
    } else {
        assert(normalized(b) =~= b);
    }
}

/// A file checked out with CRLF line endings normalizes to the LF file.
pub proof fn law_normalized_undoes_carriage_returns(b: Seq<u8>)
    requires
        !b.contains(13u8),
    ensures
        normalized(with_carriage_returns(b)) == b,
    decreases b.len(),
{
    let w = with_carriage_returns(b);
    if b.len() > 0 {
        assert(b[0] != 13) by {
            assert(b.contains(b[0]));
        }
        let rest = b.skip(1);
        assert(!rest.contains(13u8)) by {
            if rest.contains(13u8) {
                let i = choose|i: int| 0 <= i < rest.len() && rest[i] == 13u8;
                assert(b[i + 1] == 13u8);
            }
        }
        law_normalized_undoes_carriage_returns(rest);
        let tail = with_carriage_returns(rest);
        if b[0] == 10 {
            assert(w.skip(2) =~= tail);
        } else {
            assert(w.skip(1) =~= tail);
        }
        assert(seq![b[0]] + rest =~= b);
    } else {
        assert(normalized(w) =~= b);
    }
}

/// Whether a line feed follows a carriage return at `k`.
pub open spec fn crlf_at(b: Seq<u8>, k: int) -> bool {
    0 <= k && k + 1 < b.len() && b[k] == 13 && b[k + 1] == 10
}

/// Text changes just where it holds a carriage return that a line feed follows.
pub proof fn law_only_crlf_is_normalized(b: Seq<u8>)
    ensures
        normalized(b) == b <==> forall|k: int| !#[trigger] crlf_at(b, k),
        normalized(b).len() <= b.len(),
    decreases b.len(),
{
    if b.len() == 0 {
        assert(normalized(b) =~= b);
    } else if crlf_at(b, 0) {
        law_only_crlf_is_normalized(b.skip(2));
        assert(normalized(b).len() < b.len());
    } else {
        let rest = b.skip(1);
        law_only_crlf_is_normalized(rest);
        assert(seq![b[0]] + rest =~= b);
        if normalized(b) == b {
            assert(normalized(b).skip(1) =~= normalized(rest));
            assert forall|k: int| !#[trigger] crlf_at(b, k) by {
                if crlf_at(b, k) {
                    assert(crlf_at(rest, k - 1));
                }
            }
        } else {
            assert(normalized(rest) != rest);
            let k = choose|k: int| crlf_at(rest, k);
            assert(crlf_at(b, k + 1));
        }
    }
}

/// `bytes` with CRLF turned into LF; borrowed just where nothing changes.
pub fn normalize_line_endings(bytes: &[u8]) -> (out: Cow<'_, [u8]>)
    ensures
        out@ == normalized(bytes@),
        out is Borrowed <==> normalized(bytes@) == bytes@,
{
    let mut k: usize = 0;
    while k < bytes.len() && !(bytes[k] == 13 && k + 1 < bytes.len() && bytes[k + 1] == 10)
        invariant
            k <= bytes@.len(),
            forall|j: int| 0 <= j < k ==> !#[trigger] crlf_at(bytes@, j),
        decreases bytes@.len() - k,
    {
        k += 1;
    }
    proof {
        law_only_crlf_is_normalized(bytes@);
    }
    if k == bytes.len() {
        return Cow::Borrowed(bytes);
    }
    proof {
        assert(crlf_at(bytes@, k as int));
    }
    let mut out: Vec<u8> = Vec::new();
    let mut i: usize = 0;
    proof {
        assert(bytes@.skip(0) =~= bytes@);
        assert(out@ + normalized(bytes@) =~= normalized(bytes@));
    }
    while i < bytes.len()
        invariant
            i <= bytes@.len(),
            out@ + normalized(bytes@.skip(i as int)) == normalized(bytes@),
        decreases bytes@.len() - i,
    {
        let ghost before = out@;
        let ghost rest = bytes@.skip(i as int);
        if bytes[i] == 13 && i + 1 < bytes.len() && bytes[i + 1] == 10 {
            out.push(10);
            proof {
                assert(rest[0] == 13 && rest[1] == 10);
                assert(rest.skip(2) =~= bytes@.skip(i + 2));
                assert(before + (seq![10u8] + normalized(rest.skip(2))) =~= out@ + normalized(
                    bytes@.skip(i + 2),
                ));
            }
            i += 2;
        } else {
            out.push(bytes[i]);
            proof {
                assert(rest.skip(1) =~= bytes@.skip(i + 1));
                assert(before + (seq![rest[0]] + normalized(rest.skip(1))) =~= out@ + normalized(
                    bytes@.skip(i + 1),
                ));
            }
            i += 1;
        }
    }
    proof {
        assert(bytes@.skip(i as int) =~= Seq::<u8>::empty());
        assert(out@ + Seq::<u8>::empty() =~= out@);
    }
    Cow::Owned(out)
}

#[derive(Debug, Clone, Copy, PartialEq, Eq, Structural)]
pub enum ScriptClass {
    ModuleScript,
    Script,
    LocalScript,
}

impl ScriptClass {
    pub open spec fn class_text(self) -> Seq<char> {
        match self {
            ScriptClass::ModuleScript => "ModuleScript"@,
            ScriptClass::Script => "Script"@,
            ScriptClass::LocalScript => "LocalScript"@,
        }
    }

    pub open spec fn suffix_text(self) -> Seq<char> {
        match self {
            ScriptClass::ModuleScript => ".luau"@,
            ScriptClass::Script => ".server.luau"@,
            ScriptClass::LocalScript => ".client.luau"@,
        }
    }

    /// The script class that a class name denotes.
    pub open spec fn of_class(class: Seq<char>) -> Option<ScriptClass> {
        if class == "ModuleScript"@ {
            Some(ScriptClass::ModuleScript)
        } else if class == "Script"@ {
            Some(ScriptClass::Script)
        } else if class == "LocalScript"@ {
            Some(ScriptClass::LocalScript)
        } else {
            None
        }
    }

    pub fn class_name(self) -> (r: &'static str)
        ensures
            r@ == self.class_text(),
    {
        match self {
            ScriptClass::ModuleScript => "ModuleScript",
            ScriptClass::Script => "Script",
            ScriptClass::LocalScript => "LocalScript",
        }
    }

    pub fn suffix(self) -> (r: &'static str)
        ensures
            r@ == self.suffix_text(),
    {
        match self {
            ScriptClass::ModuleScript => ".luau",
            ScriptClass::Script => ".server.luau",
            ScriptClass::LocalScript => ".client.luau",
        }
    }

    pub fn from_class(class: &str) -> (r: Option<Self>)
        ensures
            r == ScriptClass::of_class(class@),
    {
        if same(class, "ModuleScript") {
            Some(ScriptClass::ModuleScript)
        } else if same(class, "Script") {
            Some(ScriptClass::Script)
        } else if same(class, "LocalScript") {
            Some(ScriptClass::LocalScript)
        } else {
            None
        }
    }
}

/// Every script class is read back from its class name.
pub proof fn law_script_class_round_trip(class: ScriptClass)
    ensures
        ScriptClass::of_class(class.class_text()) == Some(class),
{
    reveal_strlit("ModuleScript");
    reveal_strlit("Script");
    reveal_strlit("LocalScript");
    assert("ModuleScript"@.len() == 12 && "Script"@.len() == 6 && "LocalScript"@.len() == 11);
}

pub open spec fn strip_suffix(s: Seq<char>, suffix: Seq<char>) -> Option<Seq<char>> {
    if suffix.is_suffix_of(s) {
        Some(s.take(s.len() - suffix.len()))
    } else {
        None
    }
}

pub open spec fn classed_text(r: Option<(ScriptClass, String)>) -> Option<(ScriptClass, Seq<char>)> {
    match r {
        Some((class, stem)) => Some((class, stem@)),
        None => None,
    }
}

/// The class and stem of a script file name. The suffixes that name a class
/// come before the plain ones.
pub open spec fn classified(file: Seq<char>) -> Option<(ScriptClass, Seq<char>)> {
    match strip_suffix(file, ".server.luau"@) {
        Some(stem) => Some((ScriptClass::Script, stem)),
        None => match strip_suffix(file, ".client.luau"@) {
            Some(stem) => Some((ScriptClass::LocalScript, stem)),
            None => match strip_suffix(file, ".server.lua"@) {
                Some(stem) => Some((ScriptClass::Script, stem)),
                None => match strip_suffix(file, ".client.lua"@) {
                    Some(stem) => Some((ScriptClass::LocalScript, stem)),
                    None => match strip_suffix(file, ".luau"@) {
                        Some(stem) => Some((ScriptClass::ModuleScript, stem)),
                        None => match strip_suffix(file, ".lua"@) {
                            Some(stem) => Some((ScriptClass::ModuleScript, stem)),
                            None => None,
                        },
                    },
                },
            },
        },
    }
}

/// `chars` without `suffix`, where it ends with it.
fn without_suffix(chars: &[char], suffix: &str) -> (r: Option<String>)
    ensures
        text::option_text(r) == strip_suffix(chars@, suffix@),
{
    if ends_with(chars, suffix) {
        let n: usize = chars_of(suffix).len();
        proof {
            assert(chars@.subrange(0, chars@.len() - n) =~= chars@.take(chars@.len() - n));
        }
        Some(string_of_range(chars, 0, chars.len() - n))
    } else {
        None
    }
}

/// The class and stem of a script file name, or `None` for any other file.
pub fn classify_script_file(file_name: &str) -> (r: Option<(ScriptClass, String)>)
    ensures
        classed_text(r) == classified(file_name@),
{
    let chars = chars_of(file_name);
    if let Some(stem) = without_suffix(&chars, ".server.luau") {
        return Some((ScriptClass::Script, stem));
    }
    if let Some(stem) = without_suffix(&chars, ".client.luau") {
        return Some((ScriptClass::LocalScript, stem));
    }
    if let Some(stem) = without_suffix(&chars, ".server.lua") {
        return Some((ScriptClass::Script, stem));
    }
    if let Some(stem) = without_suffix(&chars, ".client.lua") {
        return Some((ScriptClass::LocalScript, stem));
    }
    if let Some(stem) = without_suffix(&chars, ".luau") {
        return Some((ScriptClass::ModuleScript, stem));
    }
    if let Some(stem) = without_suffix(&chars, ".lua") {
        return Some((ScriptClass::ModuleScript, stem));
    }
    None
}

/// The name and ordinal of a stem `<Name> [N]`.
pub open spec fn ordinal_parts(stem: Seq<char>) -> Option<(Seq<char>, nat)> {
    if stem.len() == 0 || stem.last() != ']' {
        None
    } else {
        let inner = stem.drop_last();
        let open = escape::last_mark(inner);
        if open < 1 || open + 2 >= inner.len() {
            None
        } else {
            match decimal::parse_unsigned(inner.skip(open + 2), usize::MAX as nat) {
                Some(n) => Some((inner.take(open), n)),
                None => None,
            }
        }
    }
}

/// The stem without its ordinal, where it has one.
pub open spec fn without_ordinal(stem: Seq<char>) -> Seq<char> {
    match ordinal_parts(stem) {
        Some((name, _)) => name,
        None => stem,
    }
}

/// Splits a stem `<Name> [N]` into its name and ordinal.
pub fn parse_disambiguated(stem: &str) -> (r: Option<(String, usize)>)
    ensures
        match r {
            Some((name, n)) => ordinal_parts(stem@) == Some((name@, n as nat)),
            None => ordinal_parts(stem@) is None,
        },
{
    let chars = chars_of(stem);
    match ordinal_mark(&chars) {
        Some((open, n)) => Some((string_of_range(&chars, 0, open), n)),
        None => None,
    }
}

/// The last place before `end` with a space and then an opening bracket.
fn find_last_mark(chars: &Vec<char>, end: usize) -> (r: Option<usize>)
    requires
        end <= chars@.len(),
    ensures
        match r {
            Some(open) => open + 2 <= end && escape::last_mark(chars@.take(end as int)) == open,
            None => escape::last_mark(chars@.take(end as int)) == -1,
        },
{
    let mut k: usize = end;
    while k >= 2 && !(chars[k - 2] == ' ' && chars[k - 1] == '[')
        invariant
            k <= end <= chars@.len(),
            escape::last_mark(chars@.take(k as int)) == escape::last_mark(chars@.take(end as int)),
        decreases k,
    {
        proof {
            let t = chars@.take(k as int);
            assert(t[k - 2] == chars@[k - 2]);
            assert(t[k - 1] == chars@[k - 1]);
            assert(t.drop_last() =~= chars@.take(k - 1));
        }
        k -= 1;
    }
    if k < 2 {
        None
    } else {
        proof {
            let t = chars@.take(k as int);
            assert(t[k - 2] == chars@[k - 2]);
            assert(t[k - 1] == chars@[k - 1]);
        }
        Some(k - 2)
    }
}

/// Where the ordinal suffix of a stem opens, and the ordinal.
fn ordinal_mark(chars: &Vec<char>) -> (r: Option<(usize, usize)>)
    ensures
        match r {
            Some((open, n)) => {
                &&& 1 <= open
                &&& open + 2 < chars@.len() - 1
                &&& open == escape::last_mark(chars@.drop_last())
                &&& chars@[open as int] == ' '
                &&& chars@[open + 1] == '['
                &&& chars@.last() == ']'
                &&& ordinal_parts(chars@) == Some((chars@.subrange(0, open as int), n as nat))
            },
            None => ordinal_parts(chars@) is None,
        },
{
    let len: usize = chars.len();
    if len == 0 || chars[len - 1] != ']' {
        return None;
    }
    let ghost inner = chars@.drop_last();
    proof {
        assert(chars@.take(len - 1) =~= inner);
        escape::lemma_last_mark(inner);
    }
    let open: usize = match find_last_mark(chars, len - 1) {
        None => return None,
        Some(open) => open,
    };
    let k: usize = open + 2;
    if open == 0 || k == len - 1 {
        return None;
    }
    proof {
        assert(inner[open as int] == chars@[open as int]);
        assert(inner[open + 1] == chars@[open + 1]);
    }
    let mut digits: Vec<char> = Vec::new();
    let mut i: usize = k;
    while i < len - 1
        invariant
            k <= i <= len - 1,
            len == chars@.len(),
            digits@ == chars@.subrange(k as int, i as int),
        decreases len - i,
    {
        proof {
            assert(chars@.subrange(k as int, i + 1) =~= chars@.subrange(k as int, i as int).push(
                chars@[i as int],
            ));
        }
        digits.push(chars[i]);
        i += 1;
    }
    proof {
        assert(digits@ =~= inner.skip(open + 2));
        assert(inner.take(open as int) =~= chars@.subrange(0, open as int));
    }
    match read_unsigned(&digits, usize::MAX as u64) {
        Some(n) => Some((open, n as usize)),
        None => None,
    }
}

/// What a file name `init (<Name>).luau` and its variants say: the class, and
/// the name with its ordinal and escapes undone.
pub open spec fn init_parts(file: Seq<char>) -> Option<(ScriptClass, Seq<char>)> {
    match classified(file) {
        None => None,
        Some((class, stem)) => {
            let prefix = "init ("@;
            if !prefix.is_prefix_of(stem) {
                None
            } else {
                let rest = stem.skip(prefix.len() as int);
                if rest.len() < 2 || rest.last() != ')' {
                    None
                } else {
                    Some((class, decoded(without_ordinal(rest.drop_last()))))
                }
            }
        },
    }
}

/// The class that a plain `init.luau` or one of its variants says.
pub open spec fn plain_init(file: Seq<char>) -> Option<ScriptClass> {
    match classified(file) {
        Some((class, stem)) => if stem == "init"@ {
            Some(class)
        } else {
            None
        },
        None => None,
    }
}

/// Parses `init (<Name>).{server,client,}.{luau,lua}`.
pub fn parse_init_file(file_name: &str) -> (r: Option<(ScriptClass, String)>)
    ensures
        classed_text(r) == init_parts(file_name@),
{
    match classify_script_file(file_name) {
        None => None,
        Some((class, stem)) => {
            let chars = chars_of(stem.as_str());
            if !starts_with(&chars, "init (") {
                return None;
            }
            proof {
                reveal_strlit("init (");
            }
            let len: usize = chars.len();
            if len < 8 || chars[len - 1] != ')' {
                return None;
            }
            let inner = string_of_range(&chars, 6, len - 1);
            proof {
                assert(inner@ =~= stem@.skip(6).drop_last());
            }
            let name = match parse_disambiguated(inner.as_str()) {
                Some((name, _)) => name,
                None => inner,
            };
            Some((class, decode_name(name.as_str())))
        },
    }
}

/// Parses a plain `init.{server,client,}.{luau,lua}`, which takes its name from
/// the directory around it.
pub fn parse_plain_init_file(file_name: &str) -> (r: Option<ScriptClass>)
    ensures
        r == plain_init(file_name@),
{
    match classify_script_file(file_name) {
        None => None,
        Some((class, stem)) => {
            if same(stem.as_str(), "init") {
                Some(class)
            } else {
                None
            }
        },
    }
}

/// Whether a file describes the directory that holds it.
pub fn is_init_file(file_name: &str) -> (r: bool)
    ensures
        r == (init_parts(file_name@) is Some || plain_init(file_name@) is Some),
{
    parse_init_file(file_name).is_some() || parse_plain_init_file(file_name).is_some()
}

fn char_needs_escape(c: char) -> (r: bool)
    ensures
        r == escape::needs_escape(c),
{
    c > '\u{7f}' || c == '/' || c == '\\' || c == '\0' || c == '%' || c == ':' || c == '<' || c
        == '>' || c == '"' || c == '|' || c == '?' || c == '*' || c < ' '
}

fn same_as(a: &[char], b: &[char]) -> (r: bool)
    ensures
        r == (a@ == b@),
{
    if a.len() != b.len() {
        return false;
    }
    let mut i: usize = 0;
    while i < a.len()
        invariant
            i <= a@.len(),
            a@.len() == b@.len(),
            forall|j: int| 0 <= j < i ==> a@[j] == b@[j],
        decreases a@.len() - i,
    {
        if a[i] != b[i] {
            return false;
        }
        i += 1;
    }
    assert(a@ =~= b@);
    true
}

pub fn is_windows_reserved_stem(stem: &str) -> (r: bool)
    ensures
        r == escape::is_reserved(stem@),
{
    let chars = chars_of(stem);
    let dot = find_from(&chars, 0, '.');
    proof {
        assert(chars@.skip(0) =~= chars@);
        assert(chars@.subrange(0, dot as int) =~= chars@.take(dot as int));
    }
    let head = string_of_range(&chars, 0, dot);
    let folded = lower_text(head.as_str());
    let h = chars_of(folded.as_str());
    if same_as(&h, &['c', 'o', 'n']) || same_as(&h, &['c', 'o', 'n', 'i', 'n', '$']) || same_as(
        &h,
        &['c', 'o', 'n', 'o', 'u', 't', '$'],
    ) || same_as(&h, &['p', 'r', 'n']) || same_as(&h, &['a', 'u', 'x']) || same_as(
        &h,
        &['n', 'u', 'l'],
    ) {
        proof {
            assert(['c', 'o', 'n']@ =~= seq!['c', 'o', 'n']);
            assert(['c', 'o', 'n', 'i', 'n', '$']@ =~= seq!['c', 'o', 'n', 'i', 'n', '$']);
            assert(['c', 'o', 'n', 'o', 'u', 't', '$']@ =~= seq!['c', 'o', 'n', 'o', 'u', 't', '$']);
            assert(['p', 'r', 'n']@ =~= seq!['p', 'r', 'n']);
            assert(['a', 'u', 'x']@ =~= seq!['a', 'u', 'x']);
            assert(['n', 'u', 'l']@ =~= seq!['n', 'u', 'l']);
        }
        return true;
    }
    proof {
        assert(['c', 'o', 'n']@ =~= seq!['c', 'o', 'n']);
        assert(['c', 'o', 'n', 'i', 'n', '$']@ =~= seq!['c', 'o', 'n', 'i', 'n', '$']);
        assert(['c', 'o', 'n', 'o', 'u', 't', '$']@ =~= seq!['c', 'o', 'n', 'o', 'u', 't', '$']);
        assert(['p', 'r', 'n']@ =~= seq!['p', 'r', 'n']);
        assert(['a', 'u', 'x']@ =~= seq!['a', 'u', 'x']);
        assert(['n', 'u', 'l']@ =~= seq!['n', 'u', 'l']);
        if h@.len() == 4 {
            assert(h@.take(3) == seq!['c', 'o', 'm'] <==> (h@[0] == 'c' && h@[1] == 'o' && h@[2]
                == 'm')) by {
                let t = h@.take(3);
                assert(t[0] == h@[0] && t[1] == h@[1] && t[2] == h@[2]);
                if h@[0] == 'c' && h@[1] == 'o' && h@[2] == 'm' {
                    assert(t =~= seq!['c', 'o', 'm']);
                }
            }
            assert(h@.take(3) == seq!['l', 'p', 't'] <==> (h@[0] == 'l' && h@[1] == 'p' && h@[2]
                == 't')) by {
                let t = h@.take(3);
                assert(t[0] == h@[0] && t[1] == h@[1] && t[2] == h@[2]);
                if h@[0] == 'l' && h@[1] == 'p' && h@[2] == 't' {
                    assert(t =~= seq!['l', 'p', 't']);
                }
            }
        }
    }
    h.len() == 4 && ((h[0] == 'c' && h[1] == 'o' && h[2] == 'm') || (h[0] == 'l' && h[1] == 'p'
        && h[2] == 't')) && '1' <= h[3] && h[3] <= '9'
}

fn hex_digit_char(d: u8) -> (c: char)
    requires
        d < 16,
    ensures
        c == escape::hex_char(d as int),
{
    if d < 10 {
        (d + 48) as char
    } else {
        (d + 55) as char
    }
}

/// Appends the escapes of the UTF-8 bytes of `c`.
fn push_escaped(out: &mut String, c: char)
    ensures
        final(out)@ == old(out)@ + escape::percent_char(c),
{
    let mut one = String::new();
    one.push(c);
    let ghost before = out@;
    let bytes = one.as_str().as_bytes();
    proof {
        assert(one@ =~= seq![c]);
        assert(bytes@.skip(0) =~= bytes@);
        assert(before + escape::percent_all(bytes@) =~= out@ + escape::percent_all(bytes@.skip(0)));
    }
    let mut i: usize = 0;
    while i < bytes.len()
        invariant
            i <= bytes@.len(),
            before + escape::percent_all(bytes@) == out@ + escape::percent_all(bytes@.skip(i as int)),
        decreases bytes@.len() - i,
    {
        let b: u8 = bytes[i];
        let ghost mid = out@;
        out.push('%');
        out.push(hex_digit_char(b / 16));
        out.push(hex_digit_char(b % 16));
        proof {
            let rest = bytes@.skip(i as int);
            assert(rest.drop_first() =~= bytes@.skip(i + 1));
            assert(out@ =~= mid + escape::percent(b));
            assert(mid + (escape::percent(b) + escape::percent_all(rest.drop_first())) =~= out@ + escape::percent_all(
                rest.drop_first(),
            ));
        }
        i += 1;
    }
    proof {
        assert(bytes@.skip(i as int) =~= Seq::<u8>::empty());
        assert(out@ + Seq::<char>::empty() =~= out@);
    }
}

/// Escapes the brackets of a literal ordinal suffix.
pub open spec fn guard_ordinal(s: Seq<char>) -> Seq<char> {
    if ordinal_parts(s) is Some {
        escape::guard_mark(s, escape::last_mark(s.drop_last()))
    } else {
        s
    }
}

/// The portable fragment of a name.
pub open spec fn encoded(name: Seq<char>) -> Seq<char> {
    if name.len() == 0 {
        empty_name_sentinel()
    } else {
        guard_ordinal(escape::guard_reserved(escape::escaped(name)))
    }
}

/// Percent-encodes what cannot portably stand in a file name.
pub fn encode_name(name: &str) -> (out: String)
    ensures
        out@ == encoded(name@),
{
    let chars = chars_of(name);
    if chars.len() == 0 {
        let mut out = String::new();
        out.push('%');
        out.push('_');
        proof {
            assert(out@ =~= empty_name_sentinel());
        }
        return out;
    }
    let escaped = escape_chars(&chars);
    let guarded = escape_device_name(escaped);
    let marks = chars_of(guarded.as_str());
    match ordinal_mark(&marks) {
        None => guarded,
        Some((open, _)) => {
            let mut out = string_of_range(&marks, 0, open);
            append(&mut out, " %5B");
            let end: usize = marks.len() - 1;
            let inner = string_of_range(&marks, open + 2, end);
            append(&mut out, inner.as_str());
            append(&mut out, "%5D");
            proof {
                reveal_strlit(" %5B");
                reveal_strlit("%5D");
                assert(" %5B"@ =~= seq![' ', '%', '5', 'B']);
                assert("%5D"@ =~= seq!['%', '5', 'D']);
                assert(out@ =~= escape::guard_mark(guarded@, open as int));
            }
            out
        },
    }
}

fn escape_chars(chars: &Vec<char>) -> (out: String)
    ensures
        out@ == escape::escaped(chars@),
{
    let mut out = String::new();
    let ghost f = |i: int| escape::escaped_at(chars@, i);
    let mut i: usize = 0;
    proof {
        assert(out@ + escape::rendered(chars@, 0, f) =~= escape::rendered(chars@, 0, f));
    }
    while i < chars.len()
        invariant
            i <= chars@.len(),
            f == (|i: int| escape::escaped_at(chars@, i)),
            out@ + escape::rendered(chars@, i as int, f) == escape::rendered(chars@, 0, f),
        decreases chars@.len() - i,
    {
        let c: char = chars[i];
        let ghost before = out@;
        let edge = c == '.' || c == ' ';
        if (i == 0 && edge) || (i + 1 == chars.len() && edge) || char_needs_escape(c) {
            push_escaped(&mut out, c);
            proof {
                assert(f(i as int));
                assert(before + (escape::percent_char(c) + escape::rendered(chars@, i + 1, f)) =~= out@ + escape::rendered(
                    chars@,
                    i + 1,
                    f,
                ));
            }
        } else {
            out.push(c);
            proof {
                assert(!f(i as int));
                assert(before + (seq![c] + escape::rendered(chars@, i + 1, f)) =~= out@ + escape::rendered(
                    chars@,
                    i + 1,
                    f,
                ));
            }
        }
        i += 1;
    }
    proof {
        assert(out@ + Seq::<char>::empty() =~= out@);
    }
    out
}

fn escape_device_name(text: String) -> (out: String)
    ensures
        out@ == escape::guard_reserved(text@),
{
    if !is_windows_reserved_stem(text.as_str()) {
        return text;
    }
    let chars = chars_of(text.as_str());
    let mut out = String::new();
    if chars.len() == 0 {
        proof {
            assert(text::lower(text@.take(text::first_index(text@, '.'))).len() == 0);
            assert(false);
        }
        return out;
    }
    push_escaped(&mut out, chars[0]);
    let rest = string_of_range(&chars, 1, chars.len());
    append(&mut out, rest.as_str());
    proof {
        assert(rest@ =~= text@.drop_first());
        assert(Seq::<char>::empty() + escape::percent_char(text@[0]) =~= escape::percent_char(text@[0]));
    }
    out
}

/// What `String::from_utf8_lossy` makes of bytes that are not UTF-8.
pub uninterp spec fn lossy_text(bytes: Seq<u8>) -> Seq<char>;

/// The text of `bytes`: that of the UTF-8 they are, or the lossy reading.
pub open spec fn text_of_bytes(bytes: Seq<u8>) -> Seq<char> {
    if valid_utf8(bytes) {
        decode_utf8(bytes)
    } else {
        lossy_text(bytes)
    }
}

/// `String::from_utf8_lossy` decodes UTF-8 exactly; for other bytes its result
/// has a name.
#[verifier::external_body]
pub(crate) fn text_from_utf8_lossy(bytes: &[u8]) -> (out: String)
    ensures
        valid_utf8(bytes@) ==> out@ == decode_utf8(bytes@),
        !valid_utf8(bytes@) ==> out@ == lossy_text(bytes@),
{
    String::from_utf8_lossy(bytes).into_owned()
}

/// The name that a fragment stands for.
pub open spec fn decoded(fragment: Seq<char>) -> Seq<char> {
    if fragment == empty_name_sentinel() {
        Seq::empty()
    } else {
        text_of_bytes(escape::unescaped(encode_utf8(fragment)))
    }
}

fn hex_digit(b: u8) -> (r: Option<u8>)
    ensures
        r == escape::unhex(b),
        r is Some ==> r->0 < 16,
{
    if 48 <= b && b <= 57 {
        Some(b - 48)
    } else if 97 <= b && b <= 102 {
        Some(b - 87)
    } else if 65 <= b && b <= 70 {
        Some(b - 55)
    } else {
        None
    }
}

/// Undoes [`encode_name`]; what is no escape stands for itself.
pub fn decode_name(encoded: &str) -> (out: String)
    ensures
        out@ == decoded(encoded@),
{
    let chars = chars_of(encoded);
    if chars.len() == 2 && chars[0] == '%' && chars[1] == '_' {
        proof {
            assert(encoded@ =~= empty_name_sentinel());
        }
        return String::new();
    }
    proof {
        if encoded@ == empty_name_sentinel() {
            assert(encoded@[0] == '%' && encoded@[1] == '_');
        }
    }
    let bytes = encoded.as_bytes();
    let mut out: Vec<u8> = Vec::new();
    let mut i: usize = 0;
    proof {
        assert(bytes@.skip(0) =~= bytes@);
        assert(out@ + escape::unescaped(bytes@) =~= escape::unescaped(bytes@));
    }
    while i < bytes.len()
        invariant
            i <= bytes@.len(),
            out@ + escape::unescaped(bytes@.skip(i as int)) == escape::unescaped(bytes@),
        decreases bytes@.len() - i,
    {
        let ghost rest = bytes@.skip(i as int);
        let ghost before = out@;
        let escape: Option<u8> = if bytes[i] == 37 && bytes.len() - i > 2 {
            match (hex_digit(bytes[i + 1]), hex_digit(bytes[i + 2])) {
                (Some(hi), Some(lo)) => Some(hi * 16 + lo),
                _ => None,
            }
        } else {
            None
        };
        match escape {
            Some(b) => {
                out.push(b);
                proof {
                    assert(rest[1] == bytes@[i + 1] && rest[2] == bytes@[i + 2]);
                    assert(rest.skip(3) =~= bytes@.skip(i + 3));
                    assert(before + (seq![b] + escape::unescaped(rest.skip(3))) =~= out@ + escape::unescaped(
                        bytes@.skip(i + 3),
                    ));
                }
                i += 3;
            },
            None => {
                out.push(bytes[i]);
                proof {
                    if rest.len() > 2 {
                        assert(rest[1] == bytes@[i + 1] && rest[2] == bytes@[i + 2]);
                    }
                    assert(rest.skip(1) =~= bytes@.skip(i + 1));
                    assert(before + (seq![rest[0]] + escape::unescaped(rest.skip(1))) =~= out@ + escape::unescaped(
                        bytes@.skip(i + 1),
                    ));
                }
                i += 1;
            },
        }
    }
    proof {
        assert(bytes@.skip(i as int) =~= Seq::<u8>::empty());
        assert(out@ + Seq::<u8>::empty() =~= out@);
    }
    text_from_utf8_lossy(&out)
}

/// An encoding selects places of the name to escape, and those that must be.
proof fn lemma_encoded_rendered(name: Seq<char>) -> (f: spec_fn(int) -> bool)
    requires
        name.len() > 0,
    ensures
        escape::covers(name, f),
        encoded(name) == escape::rendered(name, 0, f),
        forall|i: int| 0 <= i < name.len() && escape::escaped_at(name, i) ==> #[trigger] f(i),
{
    let f0 = |i: int| escape::escaped_at(name, i);
    assert(escape::covers(name, f0));
    let f1 = escape::lemma_guard_reserved(name, f0);
    let s = escape::rendered(name, 0, f1);
    assert(forall|i: int| f0(i) ==> #[trigger] f1(i));
    if ordinal_parts(s) is Some {
        let inner = s.drop_last();
        let open = escape::last_mark(inner);
        escape::lemma_last_mark(inner);
        assert(s[open] == inner[open] && s[open + 1] == inner[open + 1]);
        let f2 = escape::lemma_guard_mark(name, f1, open);
        assert forall|i: int| 0 <= i < name.len() && escape::escaped_at(name, i) implies #[trigger] f2(
            i,
        ) by {
            assert(f0(i));
            assert(f1(i));
        }
        f2
    } else {
        assert forall|i: int| 0 <= i < name.len() && escape::escaped_at(name, i) implies #[trigger] f1(
            i,
        ) by {
            assert(f0(i));
        }
        f1
    }
}

/// Reading an encoded name gives the name back.
pub proof fn law_decode_undoes_encode(name: Seq<char>)
    ensures
        decoded(encoded(name)) == name,
{
    if name.len() > 0 {
        let f = lemma_encoded_rendered(name);
        let out = encoded(name);
        escape::lemma_rendered_ascii(name, 0, f);
        escape::lemma_unescape_rendered(name, 0, f);
        assert(name.skip(0) =~= name);
        encode_utf8_valid_utf8(name);
        encode_utf8_decode_utf8(name);
        assert(out != empty_name_sentinel()) by {
            let rest = escape::rendered(name, 1, f);
            if f(0) {
                escape::lemma_utf8_step(seq![name[0]]);
                assert(seq![name[0]][0] == name[0]);
                escape::lemma_percent_all(encode_utf8(seq![name[0]]));
                assert(out.len() >= 3);
            } else {
                assert(out[0] == name[0]);
            }
        }
    } else {
        assert(name =~= Seq::<char>::empty());
    }
}

/// Different names have different fragments.
pub proof fn law_encode_is_injective(a: Seq<char>, b: Seq<char>)
    requires
        encoded(a) == encoded(b),
    ensures
        a == b,
{
    law_decode_undoes_encode(a);
    law_decode_undoes_encode(b);
}

/// No encoded name can be mistaken for one with an ordinal suffix.
pub proof fn law_encoded_has_no_ordinal(name: Seq<char>)
    ensures
        ordinal_parts(encoded(name)) is None,
{
    if name.len() > 0 {
        let s = escape::guard_reserved(escape::escaped(name));
        if ordinal_parts(s) is Some {
            assert(encoded(name).last() == 'D');
        }
    }
}

pub open spec fn is_portable_char(c: char) -> bool {
    c == '%' || !escape::needs_escape(c)
}

proof fn lemma_rendered_portable(name: Seq<char>, i: int, f: spec_fn(int) -> bool)
    requires
        0 <= i <= name.len(),
        forall|k: int| 0 <= k < name.len() && escape::escaped_at(name, k) ==> #[trigger] f(k),
    ensures
        forall|k: int|
            0 <= k < escape::rendered(name, i, f).len() ==> is_portable_char(
                #[trigger] escape::rendered(name, i, f)[k],
            ),
        i < name.len() ==> {
            let out = escape::rendered(name, i, f);
            &&& out.len() > 0
            &&& out.last() != '.' && out.last() != ' '
            &&& i == 0 ==> out[0] != '.' && out[0] != ' '
        },
    decreases name.len() - i,
{
    if i < name.len() {
        lemma_rendered_portable(name, i + 1, f);
        let out = escape::rendered(name, i, f);
        let rest = escape::rendered(name, i + 1, f);
        let piece = if f(i) {
            escape::percent_char(name[i])
        } else {
            seq![name[i]]
        };
        assert(out =~= piece + rest);
        escape::lemma_utf8_step(seq![name[i]]);
        assert(seq![name[i]][0] == name[i]);
        escape::lemma_percent_all(encode_utf8(seq![name[i]]));
        if !f(i) {
            assert(!escape::escaped_at(name, i));
        }
        assert forall|k: int| 0 <= k < out.len() implies is_portable_char(#[trigger] out[k]) by {
            if k < piece.len() {
                assert(out[k] == piece[k]);
            } else {
                assert(out[k] == rest[k - piece.len()]);
            }
        }
        if i + 1 == name.len() {
            assert(out.last() == piece.last());
            if f(i) {
                let p = escape::percent_all(encode_utf8(seq![name[i]]));
                let c = p[p.len() - 1];
                assert(c == '%' || ('0' <= c && c <= '9') || ('A' <= c && c <= 'F'));
            }
        } else {
            assert(out.last() == rest.last());
        }
    }
}

proof fn lemma_percent_is_no_device(s: Seq<char>, k: int)
    requires
        0 <= k < text::first_index(s, '.'),
        s[k] == '%' || s[k] == ' ',
    ensures
        !escape::is_reserved(s),
{
    text::lemma_first_index(s, '.');
    let l = text::lower(s.take(text::first_index(s, '.')));
    assert(l[k] == s[k]);
    if l.len() == 4 {
        if k < 3 {
            assert(l.take(3)[k] == l[k]);
        }
    }
}

/// An encoded name is a portable path component: not empty, of characters that
/// no file system treats specially, without a space or dot at its start or end,
/// and no device name.
pub proof fn law_encoded_is_portable(name: Seq<char>)
    ensures
        encoded(name).len() > 0,
        forall|k: int|
            0 <= k < encoded(name).len() ==> is_portable_char(#[trigger] encoded(name)[k]),
        encoded(name)[0] != '.' && encoded(name)[0] != ' ',
        encoded(name).last() != '.' && encoded(name).last() != ' ',
        !escape::is_reserved(encoded(name)),
{
    let out = encoded(name);
    if name.len() == 0 {
        assert(out[0] == '%' && out[1] == '_');
        text::lemma_first_index_is(out, '.', 2);
        lemma_percent_is_no_device(out, 0);
    } else {
        let f = lemma_encoded_rendered(name);
        lemma_rendered_portable(name, 0, f);
        let e = escape::escaped(name);
        let s = escape::guard_reserved(e);
        assert(!escape::is_reserved(s)) by {
            if escape::is_reserved(e) {
                escape::lemma_utf8_step(seq![e[0]]);
                assert(seq![e[0]][0] == e[0]);
                escape::lemma_percent_all(encode_utf8(seq![e[0]]));
                assert(s[0] == '%');
                text::lemma_first_index(s, '.');
                lemma_percent_is_no_device(s, 0);
            }
        }
        if ordinal_parts(s) is Some {
            let open = escape::last_mark(s.drop_last());
            escape::lemma_last_mark(s.drop_last());
            text::lemma_first_index(s, '.');
            text::lemma_first_index(out, '.');
            assert(out =~= escape::guard_mark(s, open));
            assert(out[open] == ' ');
            let d = text::first_index(s, '.');
            if d < open {
                assert forall|j: int| 0 <= j < d implies #[trigger] out[j] != '.' by {
                    assert(out[j] == s[j]);
                }
                assert(out[d] == s[d]);
                text::lemma_first_index_is(out, '.', d);
                assert(out.take(d) =~= s.take(d));
            } else {
                assert forall|j: int| 0 <= j <= open implies #[trigger] out[j] != '.' by {
                    if j < open {
                        assert(out[j] == s[j]);
                    }
                }
                assert(text::first_index(out, '.') > open);
                lemma_percent_is_no_device(out, open);
            }
        }
    }
}

/// The preferred name of the file that makes a directory a script.
pub open spec fn init_file_name(name: Seq<char>, class: ScriptClass) -> Seq<char> {
    let named = "init ("@ + encoded(name) + ")"@ + class.suffix_text();
    if encode_utf8(named).len() <= MAX_PORTABLE_COMPONENT_BYTES {
        named
    } else {
        "init"@ + class.suffix_text()
    }
}

/// `init (<Name>)` with the suffix of `class`, or the plain form where that
/// would be too long for a path component.
pub fn portable_init_file_name(name: &str, class: ScriptClass) -> (out: String)
    ensures
        out@ == init_file_name(name@, class),
{
    let mut named = joined("init (", encode_name(name).as_str());
    append(&mut named, ")");
    append(&mut named, class.suffix());
    if named.as_str().as_bytes().len() <= MAX_PORTABLE_COMPONENT_BYTES {
        named
    } else {
        joined("init", class.suffix())
    }
}

/// What is wrong with a path component.
#[derive(Debug, Clone, Copy, PartialEq, Eq, Structural)]
pub enum ComponentProblem {
    Empty,
    /// The component has this many bytes.
    TooLong(usize),
}

/// What keeps a fragment from being a component on every platform.
pub open spec fn component_problem(fragment: Seq<char>) -> Option<ComponentProblem> {
    let bytes = encode_utf8(fragment).len();
    if bytes == 0 {
        Some(ComponentProblem::Empty)
    } else if bytes > MAX_PORTABLE_COMPONENT_BYTES {
        Some(ComponentProblem::TooLong(bytes as usize))
    } else {
        None
    }
}

/// The text of a problem.
pub open spec fn component_message(problem: ComponentProblem) -> Seq<char> {
    match problem {
        ComponentProblem::Empty => "generated filesystem component is empty"@,
        ComponentProblem::TooLong(bytes) => "generated filesystem component is "@
            + decimal::decimal_text(bytes as nat) + " bytes; portable limit is 255"@,
    }
}

/// Finds what keeps a fragment from being a component on every platform.
pub fn find_component_problem(fragment: &str) -> (r: Option<ComponentProblem>)
    ensures
        r == component_problem(fragment@),
        r is Some ==> encode_utf8(fragment@).len() <= usize::MAX,
{
    let bytes: usize = fragment.as_bytes().len();
    if bytes == 0 {
        Some(ComponentProblem::Empty)
    } else if bytes > MAX_PORTABLE_COMPONENT_BYTES {
        Some(ComponentProblem::TooLong(bytes))
    } else {
        None
    }
}

/// Holds a component against the length that every platform can represent.
pub fn validate_portable_component(fragment: &str) -> (r: Result<(), String>)
    ensures
        match r {
            Ok(()) => component_problem(fragment@) is None,
            Err(message) => component_problem(fragment@) is Some && message@ == component_message(
                component_problem(fragment@)->0,
            ),
        },
{
    match find_component_problem(fragment) {
        None => Ok(()),
        Some(ComponentProblem::Empty) => Err(owned("generated filesystem component is empty")),
        Some(ComponentProblem::TooLong(bytes)) => {
            let mut message = owned("generated filesystem component is ");
            let count = string_of(&write_decimal(bytes as u64));
            append(&mut message, count.as_str());
            append(&mut message, " bytes; portable limit is 255");
            Err(message)
        },
    }
}

/// What is known of an instance when its file name is asked for.
#[derive(Debug, Clone)]
pub struct InstanceDescriptor<'a> {
    pub class: &'a str,
    pub name: &'a str,
    pub has_children: bool,
}

impl<'a> InstanceDescriptor<'a> {
    pub open spec fn is_dir(&self) -> bool {
        ScriptClass::of_class(self.class@) is None || self.has_children
    }

    /// The file extension: none for a directory.
    pub open spec fn extension(&self) -> Seq<char> {
        match ScriptClass::of_class(self.class@) {
            Some(script) => if self.has_children {
                Seq::empty()
            } else {
                script.suffix_text()
            },
            None => Seq::empty(),
        }
    }

    pub open spec fn base(&self) -> Seq<char> {
        encoded(self.name@) + self.extension()
    }

    /// The fragment with ordinal `n`.
    pub open spec fn candidate(&self, n: nat) -> Seq<char> {
        candidate_of(self.name@, n, self.extension())
    }
}

/// The place of an instance on disk, below its parent directory.
#[derive(Debug, Clone, PartialEq, Eq)]
pub struct PathFragment {
    pub fragment: String,
    pub is_dir: bool,
}

/// Whether two fragments are the same but for the case of their letters.
pub fn fragments_equal(a: &str, b: &str) -> (r: bool)
    ensures
        r == (text::lower(a@) == text::lower(b@)),
{
    crate::text::same_ignoring_case(a, b)
}

/// Hands out fragments so that no two siblings collide, whatever the case of
/// their letters.
#[derive(Debug)]
pub struct PathFragmentAllocator {
    /// The fragments in use, in lower case.
    pub used: TextMap<()>,
    /// For a name and an extension, an ordinal below which none is free.
    pub next: TextMap<usize>,
}

/// The fragment of `name` with ordinal `n` and extension `ext`.
pub open spec fn candidate_of(name: Seq<char>, n: nat, ext: Seq<char>) -> Seq<char> {
    encoded(name) + seq![' ', '['] + decimal::decimal_text(n) + seq![']'] + ext
}

/// Whether `n` is the least ordinal whose fragment is free.
pub open spec fn is_first_free(
    taken: Set<Seq<char>>,
    name: Seq<char>,
    ext: Seq<char>,
    n: nat,
) -> bool {
    &&& 1 <= n
    &&& !taken.contains(text::lower(candidate_of(name, n, ext)))
    &&& forall|j: nat|
        1 <= j < n ==> taken.contains(text::lower(#[trigger] candidate_of(name, j, ext)))
}

/// The ordinal that `name` gets beside the fragments in `taken`: none where the
/// plain fragment is free, else the least free one.
pub open spec fn ordinal_beside(taken: Set<Seq<char>>, name: Seq<char>, ext: Seq<char>) -> Option<
    nat,
> {
    if !taken.contains(text::lower(encoded(name) + ext)) {
        None
    } else {
        Some(choose|n: nat| is_first_free(taken, name, ext, n))
    }
}

/// The fragment that `name` gets beside those in `taken`, and those in use after.
pub open spec fn allocation(taken: Set<Seq<char>>, name: Seq<char>, ext: Seq<char>) -> (
    Seq<char>,
    Set<Seq<char>>,
) {
    let fragment = numbered(name, ordinal_beside(taken, name, ext)) + ext;
    (fragment, taken.insert(text::lower(fragment)))
}

/// A numbered fragment in lower case, of a name that is encoded and in lower
/// case.
pub open spec fn low_candidate(low: Seq<char>, n: nat, ext: Seq<char>) -> Seq<char> {
    low + seq![' ', '['] + decimal::decimal_text(n) + seq![']'] + text::lower(ext)
}

/// What the next ordinals are kept under. No extension holds a slash.
pub open spec fn counter_key(low: Seq<char>, ext: Seq<char>) -> Seq<char> {
    low + seq!['/'] + ext
}

proof fn lemma_counter_key(low: Seq<char>, ext: Seq<char>, a: Seq<char>, b: Seq<char>)
    requires
        !ext.contains('/'),
        !b.contains('/'),
        counter_key(low, ext) == counter_key(a, b),
    ensures
        low == a && ext == b,
{
    let k = counter_key(low, ext);
    assert(k == counter_key(a, b));
    assert(k.len() == low.len() + 1 + ext.len() && k.len() == a.len() + 1 + b.len());
    assert(k[low.len() as int] == '/' && k[a.len() as int] == '/');
    if low.len() < a.len() {
        let p = a.len() - low.len() - 1;
        assert(0 <= p < ext.len());
        assert(k[a.len() as int] == ext[p]);
    } else if a.len() < low.len() {
        let p = low.len() - a.len() - 1;
        assert(0 <= p < b.len());
        assert(k[low.len() as int] == b[p]);
    }
    assert(low =~= k.take(low.len() as int));
    assert(a =~= k.take(a.len() as int));
    assert(ext =~= k.skip((low.len() + 1) as int));
    assert(b =~= k.skip((a.len() + 1) as int));
}

proof fn lemma_lower_concat(a: Seq<char>, b: Seq<char>)
    ensures
        text::lower(a + b) == text::lower(a) + text::lower(b),
{
    assert(text::lower(a + b) =~= text::lower(a) + text::lower(b));
}

proof fn lemma_candidate_low(name: Seq<char>, n: nat, ext: Seq<char>)
    ensures
        text::lower(candidate_of(name, n, ext)) == low_candidate(
            text::lower(encoded(name)),
            n,
            ext,
        ),
{
    let enc = encoded(name);
    let d = decimal::decimal_text(n);
    decimal::lemma_decimal_text(n);
    assert(text::lower(d) =~= d) by {
        assert forall|i: int| 0 <= i < d.len() implies text::lower(d)[i] == d[i] by {
            assert(decimal::is_digit(d[i]));
        }
    }
    assert(text::lower(seq![' ', '[']) =~= seq![' ', '[']);
    assert(text::lower(seq![']']) =~= seq![']']);
    lemma_lower_concat(enc, seq![' ', '[']);
    lemma_lower_concat(enc + seq![' ', '['], d);
    lemma_lower_concat(enc + seq![' ', '['] + d, seq![']']);
    lemma_lower_concat(enc + seq![' ', '['] + d + seq![']'], ext);
}

proof fn lemma_low_candidate_injective(low: Seq<char>, ext: Seq<char>, n: nat, m: nat)
    requires
        low_candidate(low, n, ext) == low_candidate(low, m, ext),
    ensures
        n == m,
{
    let a = low_candidate(low, n, ext);
    let b = low_candidate(low, m, ext);
    let d = decimal::decimal_text(n);
    let e = decimal::decimal_text(m);
    let p = low.len() as int;
    assert(a.len() == p + 3 + d.len() + text::lower(ext).len());
    assert(b.len() == p + 3 + e.len() + text::lower(ext).len());
    assert(a.subrange(p + 2, p + 2 + d.len()) =~= d);
    assert(b.subrange(p + 2, p + 2 + e.len()) =~= e);
    decimal::lemma_decimal_text_injective(n, m);
}

/// Ordinals in use, and the plain fragment beside them, are no more than the
/// fragments in use.
proof fn lemma_ordinals_bounded(taken: Set<Seq<char>>, low: Seq<char>, ext: Seq<char>, n: nat)
    requires
        taken.finite(),
        forall|j: nat| 1 <= j <= n ==> taken.contains(#[trigger] low_candidate(low, j, ext)),
    ensures
        n <= taken.len(),
        taken.contains(low + text::lower(ext)) ==> n < taken.len(),
{
    let base = low + text::lower(ext);
    let candidates = Seq::new(n, |i: int| low_candidate(low, (i + 1) as nat, ext));
    let s = if taken.contains(base) {
        candidates.push(base)
    } else {
        candidates
    };
    assert forall|i: int| 0 <= i < s.len() implies taken.contains(#[trigger] s[i]) by {
        if i < n {
            assert(s[i] == low_candidate(low, (i + 1) as nat, ext));
        }
    }
    assert(s.no_duplicates()) by {
        assert forall|i: int, k: int|
            0 <= i < s.len() && 0 <= k < s.len() && i != k implies s[i] != s[k] by {
            if i < n && k < n && s[i] == s[k] {
                lemma_low_candidate_injective(low, ext, (i + 1) as nat, (k + 1) as nat);
            }
            if i < n {
                assert(low_candidate(low, (i + 1) as nat, ext).len() > base.len());
            }
            if k < n {
                assert(low_candidate(low, (k + 1) as nat, ext).len() > base.len());
            }
        }
    }
    s.unique_seq_to_set();
    assert(s.to_set().subset_of(taken)) by {
        assert forall|x: Seq<char>| s.to_set().contains(x) implies taken.contains(x) by {
            let i = choose|i: int| 0 <= i < s.len() && s[i] == x;
            assert(taken.contains(s[i]));
        }
    }
    vstd::set_lib::lemma_len_subset(s.to_set(), taken);
}

proof fn lemma_first_free_unique(
    taken: Set<Seq<char>>,
    name: Seq<char>,
    ext: Seq<char>,
    n: nat,
    m: nat,
)
    requires
        is_first_free(taken, name, ext, n),
        is_first_free(taken, name, ext, m),
    ensures
        n == m,
{
    if n < m {
        assert(taken.contains(text::lower(candidate_of(name, n, ext))));
    } else if m < n {
        assert(taken.contains(text::lower(candidate_of(name, m, ext))));
    }
}

/// The search for a free ordinal from `n` on ends.
proof fn lemma_first_free_from(
    taken: Set<Seq<char>>,
    name: Seq<char>,
    ext: Seq<char>,
    n: nat,
) -> (found: nat)
    requires
        taken.finite(),
        1 <= n,
        forall|j: nat|
            1 <= j < n ==> taken.contains(text::lower(#[trigger] candidate_of(name, j, ext))),
    ensures
        is_first_free(taken, name, ext, found),
        taken.contains(text::lower(encoded(name) + ext)) ==> found <= taken.len(),
    decreases taken.len() + 2 - n,
{
    let low = text::lower(encoded(name));
    assert forall|j: nat| 1 <= j <= n - 1 implies taken.contains(
        #[trigger] low_candidate(low, j, ext),
    ) by {
        lemma_candidate_low(name, j, ext);
        assert(taken.contains(text::lower(candidate_of(name, j, ext))));
    }
    lemma_ordinals_bounded(taken, low, ext, (n - 1) as nat);
    lemma_lower_concat(encoded(name), ext);
    if taken.contains(text::lower(candidate_of(name, n, ext))) {
        lemma_first_free_from(taken, name, ext, n + 1)
    } else {
        n
    }
}

/// The ordinal beside a finite number of fragments is the least free one, and no
/// larger than their number.
pub proof fn lemma_ordinal_beside(taken: Set<Seq<char>>, name: Seq<char>, ext: Seq<char>)
    requires
        taken.finite(),
    ensures
        ordinal_beside(taken, name, ext) matches Some(n) ==> is_first_free(taken, name, ext, n) && n
            <= taken.len(),
{
    let n = lemma_first_free_from(taken, name, ext, 1);
    let m = choose|m: nat| is_first_free(taken, name, ext, m);
    lemma_first_free_unique(taken, name, ext, n, m);
}

impl PathFragmentAllocator {
    /// The fragments in use, in lower case.
    pub open spec fn taken(&self) -> Set<Seq<char>> {
        self.used@.dom()
    }

    /// How many fragments are in use.
    pub open spec fn count(&self) -> nat {
        self.used.entries@.len()
    }

    /// Every ordinal below a next one is in use.
    pub open spec fn wf(&self) -> bool {
        &&& self.used.wf() && self.next.wf()
        &&& forall|low: Seq<char>, ext: Seq<char>|
            #![trigger counter_key(low, ext)]
            !ext.contains('/') && self.next@.contains_key(counter_key(low, ext)) ==> {
                let n = self.next@[counter_key(low, ext)];
                &&& 1 <= n
                &&& forall|j: nat|
                    1 <= j < n ==> self.taken().contains(#[trigger] low_candidate(low, j, ext))
            }
    }

    pub fn new() -> (a: Self)
        ensures
            a.wf(),
            a.count() == 0,
            a.taken() == Set::<Seq<char>>::empty(),
    {
        let a = PathFragmentAllocator { used: TextMap::new(), next: TextMap::new() };
        proof {
            assert(a.taken() =~= Set::<Seq<char>>::empty());
        }
        a
    }

    /// An allocator that takes the given fragments to be in use.
    pub fn from_taken(taken: &[&str]) -> (a: Self)
        ensures
            a.wf(),
            a.count() <= taken@.len(),
            forall|key: Seq<char>|
                a.taken().contains(key) <==> exists|i: int|
                    0 <= i < taken@.len() && text::lower(#[trigger] taken@[i]@) == key,
    {
        let mut a = PathFragmentAllocator { used: TextMap::new(), next: TextMap::new() };
        let mut i: usize = 0;
        while i < taken.len()
            invariant
                i <= taken@.len(),
                a.wf(),
                a.next@ == Map::<Seq<char>, usize>::empty(),
                a.count() <= i,
                forall|key: Seq<char>|
                    a.taken().contains(key) <==> exists|j: int|
                        0 <= j < i && text::lower(#[trigger] taken@[j]@) == key,
            decreases taken@.len() - i,
        {
            let folded = lower_text(taken[i]);
            let ghost before = a;
            a.used.insert(folded, ());
            proof {
                assert forall|key: Seq<char>|
                    a.taken().contains(key) <==> exists|j: int|
                        0 <= j < i + 1 && text::lower(#[trigger] taken@[j]@) == key by {
                    if a.taken().contains(key) {
                        if key == text::lower(taken@[i as int]@) {
                            assert(text::lower(taken@[i as int]@) == key);
                        } else {
                            assert(before.taken().contains(key));
                        }
                    }
                    if exists|j: int| 0 <= j < i + 1 && text::lower(#[trigger] taken@[j]@) == key {
                        let j = choose|j: int|
                            0 <= j < i + 1 && text::lower(#[trigger] taken@[j]@) == key;
                        if j < i {
                            assert(before.taken().contains(key));
                        }
                    }
                }
            }
            i += 1;
        }
        a
    }

    /// Gives `inst` a fragment that differs from every one in use by more than
    /// case: the plain one if it is free, else the one with the least free
    /// ordinal.
    pub fn allocate(&mut self, inst: &InstanceDescriptor<'_>) -> (r: PathFragment)
        requires
            old(self).wf(),
        ensures
            final(self).wf(),
            final(self).count() == old(self).count() + 1,
            r.is_dir == inst.is_dir(),
            !old(self).taken().contains(text::lower(r.fragment@)),
            (r.fragment@, final(self).taken()) == allocation(
                old(self).taken(),
                inst.name@,
                inst.extension(),
            ),
            !old(self).taken().contains(text::lower(inst.base())) ==> r.fragment@ == inst.base(),
            old(self).taken().contains(text::lower(inst.base())) ==> exists|n: nat|
                n <= usize::MAX && r.fragment@ == #[trigger] inst.candidate(n) && is_first_free(
                    old(self).taken(),
                    inst.name@,
                    inst.extension(),
                    n,
                ),
    {
        let encoded = encode_name(inst.name);
        let script = ScriptClass::from_class(inst.class);
        let is_dir = script.is_none() || inst.has_children;
        let extension = match script {
            Some(class) => if inst.has_children {
                ""
            } else {
                class.suffix()
            },
            None => "",
        };
        let ghost low = text::lower(crate::fs_map::encoded(inst.name@));
        let ghost ext = inst.extension();
        proof {
            reveal_strlit("");
            reveal_strlit(".luau");
            reveal_strlit(".server.luau");
            reveal_strlit(".client.luau");
            assert(extension@ =~= ext);
            assert(!ext.contains('/'));
        }
        let base = joined(encoded.as_str(), extension);
        let folded_base = lower_text(base.as_str());
        let ghost before = *self;
        if !self.used.contains(folded_base.as_str()) {
            self.used.insert(folded_base, ());
            proof {
                assert(self.taken() =~= before.taken().insert(text::lower(inst.base())));
            }
            return PathFragment { fragment: base, is_dir };
        }
        let mut key = lower_text(encoded.as_str());
        append(&mut key, "/");
        append(&mut key, extension);
        proof {
            reveal_strlit("/");
            assert("/"@ =~= seq!['/']);
            assert(key@ =~= counter_key(low, ext));
        }
        let first: usize = match self.next.get(key.as_str()) {
            None => 1,
            Some(n) => *n,
        };
        proof {
            self.used.lemma_len();
            assert forall|j: nat| 1 <= j <= first - 1 implies before.taken().contains(
                #[trigger] low_candidate(low, j, ext),
            ) by {
                assert(before.next@.contains_key(counter_key(low, ext)));
            }
            lemma_lower_concat(crate::fs_map::encoded(inst.name@), ext);
            lemma_ordinals_bounded(before.taken(), low, ext, (first - 1) as nat);
        }
        let most: usize = self.used.len();
        let mut ordinal: usize = first;
        loop
            invariant
                before == *old(self),
                before.wf(),
                *self == before,
                before.count() == most,
                before.taken().contains(low + text::lower(ext)),
                before.taken().finite(),
                before.taken().len() == before.count(),
                before.taken().contains(text::lower(inst.base())),
                low == text::lower(crate::fs_map::encoded(inst.name@)),
                ext == inst.extension(),
                !ext.contains('/'),
                key@ == counter_key(low, ext),
                encoded@ == crate::fs_map::encoded(inst.name@),
                extension@ == ext,
                is_dir == inst.is_dir(),
                1 <= ordinal <= most,
                forall|j: nat|
                    1 <= j < ordinal ==> before.taken().contains(
                        #[trigger] low_candidate(low, j, ext),
                    ),
            decreases most - ordinal,
        {
            let numeral = string_of(&write_decimal(ordinal as u64));
            let mut candidate = joined(encoded.as_str(), " [");
            append(&mut candidate, numeral.as_str());
            append(&mut candidate, "]");
            append(&mut candidate, extension);
            proof {
                reveal_strlit(" [");
                reveal_strlit("]");
                assert(" ["@ =~= seq![' ', '[']);
                assert("]"@ =~= seq![']']);
                assert(candidate@ =~= inst.candidate(ordinal as nat));
                lemma_candidate_low(inst.name@, ordinal as nat, ext);
            }
            let folded = lower_text(candidate.as_str());
            if self.used.contains(folded.as_str()) {
                proof {
                    assert forall|j: nat| 1 <= j <= ordinal implies before.taken().contains(
                        #[trigger] low_candidate(low, j, ext),
                    ) by {}
                    lemma_ordinals_bounded(before.taken(), low, ext, ordinal as nat);
                }
                ordinal += 1;
            } else {
                let ghost added = folded@;
                self.used.insert(folded, ());
                assert(self.used.entries.len() == most + 1);
                self.next.insert(key, ordinal + 1);
                proof {
                    assert(self.taken() =~= before.taken().insert(added));
                    assert forall|a: Seq<char>, b: Seq<char>|
                        #![trigger counter_key(a, b)]
                        !b.contains('/') && self.next@.contains_key(counter_key(a, b)) implies {
                        let n = self.next@[counter_key(a, b)];
                        &&& 1 <= n
                        &&& forall|j: nat|
                            1 <= j < n ==> self.taken().contains(#[trigger] low_candidate(a, j, b))
                    } by {
                        if counter_key(a, b) == counter_key(low, ext) {
                            lemma_counter_key(low, ext, a, b);
                        } else {
                            assert(before.next@.contains_key(counter_key(a, b)));
                        }
                    }
                    assert forall|j: nat| 1 <= j < ordinal implies before.taken().contains(
                        text::lower(#[trigger] candidate_of(inst.name@, j, ext)),
                    ) by {
                        lemma_candidate_low(inst.name@, j, ext);
                        assert(before.taken().contains(low_candidate(low, j, ext)));
                    }
                    assert(is_first_free(before.taken(), inst.name@, ext, ordinal as nat));
                    let chosen = choose|n: nat| is_first_free(before.taken(), inst.name@, ext, n);
                    lemma_first_free_unique(
                        before.taken(),
                        inst.name@,
                        ext,
                        ordinal as nat,
                        chosen,
                    );
                    assert(candidate@ == inst.candidate(ordinal as nat));
                }
                return PathFragment { fragment: candidate, is_dir };
            }
        }
    }
}

/// The fragment of an instance beside the fragments in `taken`.
pub fn instance_to_path(inst: &InstanceDescriptor, taken: &[String]) -> (r: PathFragment)
    ensures
        r.is_dir == inst.is_dir(),
        r.fragment@ == allocation(folded_set(taken@), inst.name@, inst.extension()).0,
        fragment_free(r.fragment@, taken@),
        fragment_free(inst.base(), taken@) ==> r.fragment@ == inst.base(),
        !fragment_free(inst.base(), taken@) ==> exists|n: nat|
            1 <= n <= usize::MAX && r.fragment@ == #[trigger] inst.candidate(n) && forall|j: nat|
                1 <= j < n ==> !fragment_free(#[trigger] inst.candidate(j), taken@),
{
    let mut refs: Vec<&str> = Vec::new();
    let mut i: usize = 0;
    while i < taken.len()
        invariant
            i <= taken@.len(),
            refs@.len() == i,
            forall|j: int| 0 <= j < i ==> (#[trigger] refs@[j])@ == taken@[j]@,
        decreases taken@.len() - i,
    {
        refs.push(taken[i].as_str());
        i += 1;
    }
    let mut allocator = PathFragmentAllocator::from_taken(&refs);
    proof {
        assert forall|f: Seq<char>|
            #![trigger fragment_free(f, taken@)]
            fragment_free(f, taken@) == !allocator.taken().contains(text::lower(f)) by {
            if allocator.taken().contains(text::lower(f)) {
                let k = choose|k: int|
                    0 <= k < refs@.len() && text::lower(#[trigger] refs@[k]@) == text::lower(f);
                assert(text::lower(taken@[k]@) == text::lower(f));
            }
            if !fragment_free(f, taken@) {
                let k = choose|k: int|
                    0 <= k < taken@.len() && text::lower(#[trigger] taken@[k]@) == text::lower(f);
                assert(text::lower(refs@[k]@) == text::lower(f));
            }
        }
        assert forall|key: Seq<char>|
            allocator.taken().contains(key) <==> #[trigger] folded_set(taken@).contains(key) by {
            if allocator.taken().contains(key) {
                let k = choose|k: int|
                    0 <= k < refs@.len() && text::lower(#[trigger] refs@[k]@) == key;
                assert(text::lower(taken@[k]@) == key);
            }
            if folded_set(taken@).contains(key) {
                let k = choose|k: int|
                    0 <= k < taken@.len() && text::lower(#[trigger] taken@[k]@) == key;
                assert(text::lower(refs@[k]@) == key);
            }
        }
        assert(allocator.taken() =~= folded_set(taken@));
    }
    let ghost before = allocator;
    let r = allocator.allocate(inst);
    proof {
        assert(fragment_free(r.fragment@, taken@));
        if !fragment_free(inst.base(), taken@) {
            let n = choose|n: nat|
                n <= usize::MAX && r.fragment@ == #[trigger] inst.candidate(n) && is_first_free(
                    before.taken(),
                    inst.name@,
                    inst.extension(),
                    n,
                );
            assert forall|j: nat| 1 <= j < n implies !fragment_free(
                #[trigger] inst.candidate(j),
                taken@,
            ) by {
                assert(before.taken().contains(
                    text::lower(candidate_of(inst.name@, j, inst.extension())),
                ));
            }
        }
    }
    r
}

/// Fragments in lower case.
pub open spec fn folded_set(taken: Seq<String>) -> Set<Seq<char>> {
    Set::new(
        |key: Seq<char>|
            exists|i: int| 0 <= i < taken.len() && text::lower(#[trigger] taken[i]@) == key,
    )
}

/// An allocator keeps the ordinal rules of single fragments: what it gives is
/// what a name gets beside the same fragments, however they came to be in use.
pub proof fn law_allocator_follows_the_ordinal_rules(
    allocator: PathFragmentAllocator,
    taken: Seq<String>,
    name: Seq<char>,
    ext: Seq<char>,
)
    requires
        forall|key: Seq<char>|
            allocator.taken().contains(key) <==> exists|i: int|
                0 <= i < taken.len() && text::lower(#[trigger] taken[i]@) == key,
    ensures
        allocation(allocator.taken(), name, ext).0 == allocation(folded_set(taken), name, ext).0,
{
    assert(allocator.taken() =~= folded_set(taken));
}

/// Whether an allocator gave a fragment to some instance and became the next one.
pub open spec fn gave(
    before: PathFragmentAllocator,
    fragment: Seq<char>,
    after: PathFragmentAllocator,
) -> bool {
    exists|name: Seq<char>, ext: Seq<char>|
        (fragment, after.taken()) == #[trigger] allocation(before.taken(), name, ext)
}

proof fn lemma_gave(
    before: PathFragmentAllocator,
    fragment: Seq<char>,
    after: PathFragmentAllocator,
)
    requires
        before.wf(),
        gave(before, fragment, after),
    ensures
        !before.taken().contains(text::lower(fragment)),
        after.taken() == before.taken().insert(text::lower(fragment)),
{
    let (name, ext) = choose|name: Seq<char>, ext: Seq<char>|
        (fragment, after.taken()) == #[trigger] allocation(before.taken(), name, ext);
    before.used.lemma_len();
    lemma_ordinal_beside(before.taken(), name, ext);
}

/// What an allocator that began with some fragments in use has given, whatever it
/// was asked for, differs by more than case from those fragments and from all else
/// that it gave.
pub proof fn law_allocated_fragments_stay_apart(
    states: Seq<PathFragmentAllocator>,
    given: Seq<Seq<char>>,
    i: int,
    j: int,
)
    requires
        states.len() == given.len() + 1,
        forall|k: int| 0 <= k < states.len() ==> (#[trigger] states[k]).wf(),
        forall|k: int|
            0 <= k < given.len() ==> gave(states[k], #[trigger] given[k], states[k + 1]),
        0 <= i < j < given.len(),
    ensures
        text::lower(given[i]) != text::lower(given[j]),
        !states[0].taken().contains(text::lower(given[i])),
        !states[0].taken().contains(text::lower(given[j])),
{
    lemma_stays_taken(states, given, 0, i);
    lemma_stays_taken(states, given, 0, j);
    lemma_stays_taken(states, given, i + 1, j);
    lemma_gave(states[i], given[i], states[i + 1]);
    lemma_gave(states[j], given[j], states[j + 1]);
    if text::lower(given[i]) == text::lower(given[j]) {
        assert(states[i + 1].taken().contains(text::lower(given[i])));
    }
}

proof fn lemma_stays_taken(
    states: Seq<PathFragmentAllocator>,
    given: Seq<Seq<char>>,
    i: int,
    j: int,
)
    requires
        states.len() == given.len() + 1,
        forall|k: int| 0 <= k < states.len() ==> (#[trigger] states[k]).wf(),
        forall|k: int|
            0 <= k < given.len() ==> gave(states[k], #[trigger] given[k], states[k + 1]),
        0 <= i <= j < states.len(),
    ensures
        states[i].taken().subset_of(states[j].taken()),
    decreases j - i,
{
    if i < j {
        lemma_stays_taken(states, given, i, j - 1);
        lemma_gave(states[j - 1], given[j - 1], states[j - 1 + 1]);
    }
}

/// Whether no fragment of `taken` equals `f` up to ASCII case.
pub open spec fn fragment_free(f: Seq<char>, taken: Seq<String>) -> bool {
    forall|i: int| 0 <= i < taken.len() ==> text::lower(#[trigger] taken[i]@) != text::lower(f)
}

/// The stem that an allocated fragment has: the name alone or with an ordinal.
pub open spec fn numbered(name: Seq<char>, ordinal: Option<nat>) -> Seq<char> {
    match ordinal {
        None => encoded(name),
        Some(n) => encoded(name) + seq![' ', '['] + decimal::decimal_text(n) + seq![']'],
    }
}

/// A stem gives its name back, with or without an ordinal.
pub proof fn law_stem_reads_back(name: Seq<char>, ordinal: Option<nat>)
    requires
        ordinal is Some ==> ordinal->0 <= usize::MAX,
    ensures
        decoded(without_ordinal(numbered(name, ordinal))) == name,
        ordinal is Some ==> ordinal_parts(numbered(name, ordinal)) == Some(
            (encoded(name), ordinal->0),
        ),
{
    law_decode_undoes_encode(name);
    law_encoded_has_no_ordinal(name);
    law_encoded_is_portable(name);
    if let Some(n) = ordinal {
        let enc = encoded(name);
        let d = decimal::decimal_text(n);
        let stem = numbered(name, ordinal);
        let inner = stem.drop_last();
        decimal::lemma_decimal_text(n);
        decimal::lemma_decimal_round_trip(n, usize::MAX as nat);
        assert(inner =~= enc + seq![' ', '['] + d);
        let k = enc.len() as int;
        assert(inner[k] == ' ' && inner[k + 1] == '[');
        assert forall|j: int| k < j && j + 1 < inner.len() implies !(#[trigger] inner[j] == ' '
            && inner[j + 1] == '[') by {
            if j > k + 1 {
                assert(inner[j] == d[j - k - 2]);
                assert(decimal::is_digit(d[j - k - 2]));
            }
        }
        escape::lemma_last_mark_is(inner, k);
        assert(inner.skip(k + 2) =~= d);
        assert(inner.take(k) =~= enc);
    }
}

/// No allocated fragment loses its name, however long it is: without its
/// extension it reads as the encoded name, with the ordinal that was added or
/// with none.
pub proof fn law_allocated_fragment_keeps_its_name(
    allocator: PathFragmentAllocator,
    name: Seq<char>,
    ext: Seq<char>,
)
    requires
        allocator.wf(),
    ensures
        ({
            let taken = allocator.taken();
            let fragment = allocation(taken, name, ext).0;
            let stem = fragment.take(fragment.len() - ext.len());
            &&& fragment == stem + ext
            &&& match ordinal_beside(taken, name, ext) {
                None => ordinal_parts(stem) is None && decoded(stem) == name,
                Some(n) => 1 <= n && ordinal_parts(stem) == Some((encoded(name), n)) && decoded(
                    encoded(name),
                ) == name,
            }
        }),
{
    let taken = allocator.taken();
    let ordinal = ordinal_beside(taken, name, ext);
    let fragment = allocation(taken, name, ext).0;
    let stem = numbered(name, ordinal);
    allocator.used.lemma_len();
    lemma_ordinal_beside(taken, name, ext);
    assert(taken.len() == allocator.used.entries.len());
    assert(fragment.take(fragment.len() - ext.len()) =~= stem);
    law_stem_reads_back(name, ordinal);
    law_decode_undoes_encode(name);
    law_encoded_has_no_ordinal(name);
}

proof fn lemma_suffix_char(a: Seq<char>, b: Seq<char>, s: Seq<char>, k: int)
    requires
        a.is_suffix_of(s),
        b.is_suffix_of(s),
        0 <= k < a.len(),
        k < b.len(),
    ensures
        a[a.len() - 1 - k] == b[b.len() - 1 - k],
{
    assert(s.subrange(s.len() - a.len(), s.len() as int)[a.len() - 1 - k] == s[s.len() - 1 - k]);
    assert(s.subrange(s.len() - b.len(), s.len() as int)[b.len() - 1 - k] == s[s.len() - 1 - k]);
}

/// The stem and class of a file whose stem does not end as a class suffix
/// begins.
proof fn lemma_classified(stem: Seq<char>, class: ScriptClass)
    requires
        class == ScriptClass::ModuleScript ==> !".server"@.is_suffix_of(stem)
            && !".client"@.is_suffix_of(stem),
    ensures
        classified(stem + class.suffix_text()) == Some((class, stem)),
{
    reveal_strlit(".server.luau");
    reveal_strlit(".client.luau");
    reveal_strlit(".server.lua");
    reveal_strlit(".client.lua");
    reveal_strlit(".luau");
    reveal_strlit(".lua");
    reveal_strlit(".server");
    reveal_strlit(".client");
    let suffix = class.suffix_text();
    let file = stem + suffix;
    assert(suffix.is_suffix_of(file)) by {
        assert(file.subrange(file.len() - suffix.len(), file.len() as int) =~= suffix);
    }
    assert(strip_suffix(file, suffix) == Some(stem)) by {
        assert(file.take(file.len() - suffix.len()) =~= stem);
    }
    assert(suffix[suffix.len() - 1] == 'u');
    assert(!".server.lua"@.is_suffix_of(file)) by {
        if ".server.lua"@.is_suffix_of(file) {
            lemma_suffix_char(".server.lua"@, suffix, file, 0);
            assert(".server.lua"@[10] == 'a');
        }
    }
    assert(!".client.lua"@.is_suffix_of(file)) by {
        if ".client.lua"@.is_suffix_of(file) {
            lemma_suffix_char(".client.lua"@, suffix, file, 0);
            assert(".client.lua"@[10] == 'a');
        }
    }
    if class == ScriptClass::LocalScript {
        assert(!".server.luau"@.is_suffix_of(file)) by {
            if ".server.luau"@.is_suffix_of(file) {
                lemma_suffix_char(".server.luau"@, suffix, file, 5);
                assert(".server.luau"@[6] == 'r');
                assert(".client.luau"@[6] == 't');
            }
        }
    }
    if class == ScriptClass::ModuleScript {
        assert(!".server.luau"@.is_suffix_of(file)) by {
            if ".server.luau"@.is_suffix_of(file) {
                let part = ".server"@;
                assert forall|i: int| 0 <= i < 7 implies stem.subrange(
                    stem.len() - 7,
                    stem.len() as int,
                )[i] == part[i] by {
                    assert(file.subrange(file.len() - 12, file.len() as int)[i]
                        == ".server.luau"@[i]);
                }
                assert(stem.subrange(stem.len() - 7, stem.len() as int) =~= part);
            }
        }
        assert(!".client.luau"@.is_suffix_of(file)) by {
            if ".client.luau"@.is_suffix_of(file) {
                let part = ".client"@;
                assert forall|i: int| 0 <= i < 7 implies stem.subrange(
                    stem.len() - 7,
                    stem.len() as int,
                )[i] == part[i] by {
                    assert(file.subrange(file.len() - 12, file.len() as int)[i]
                        == ".client.luau"@[i]);
                }
                assert(stem.subrange(stem.len() - 7, stem.len() as int) =~= part);
            }
        }
    }
}

/// No class suffix begins with the last character of a stem that ends in a
/// bracket.
proof fn lemma_bracket_ends_stem(stem: Seq<char>, c: char)
    requires
        stem.len() > 0,
        stem.last() == c,
        c == ']' || c == ')',
    ensures
        !".server"@.is_suffix_of(stem),
        !".client"@.is_suffix_of(stem),
{
    reveal_strlit(".server");
    reveal_strlit(".client");
    if ".server"@.is_suffix_of(stem) {
        assert(stem.subrange(stem.len() - 7, stem.len() as int)[6] == ".server"@[6]);
    }
    if ".client"@.is_suffix_of(stem) {
        assert(stem.subrange(stem.len() - 7, stem.len() as int)[6] == ".client"@[6]);
    }
}

/// A script file reads back as the class and name it was made for, under every
/// ordinal. A module script whose name ends as a class suffix begins, such as
/// `.server`, is told from a script by its ordinal only.
pub proof fn law_script_file_reads_back(name: Seq<char>, class: ScriptClass, ordinal: Option<nat>)
    requires
        ordinal is Some ==> ordinal->0 <= usize::MAX,
        class == ScriptClass::ModuleScript && ordinal is None ==> !".server"@.is_suffix_of(
            encoded(name),
        ) && !".client"@.is_suffix_of(encoded(name)),
    ensures
        classified(numbered(name, ordinal) + class.suffix_text()) == Some(
            (class, numbered(name, ordinal)),
        ),
        decoded(without_ordinal(numbered(name, ordinal))) == name,
{
    law_stem_reads_back(name, ordinal);
    let stem = numbered(name, ordinal);
    if ordinal is Some {
        assert(stem.last() == ']');
        lemma_bracket_ends_stem(stem, ']');
    }
    lemma_classified(stem, class);
}

/// A named init file reads back as its class and name.
pub proof fn law_named_init_reads_back(name: Seq<char>, class: ScriptClass)
    ensures
        init_parts("init ("@ + encoded(name) + ")"@ + class.suffix_text()) == Some((class, name)),
{
    law_decode_undoes_encode(name);
    law_encoded_has_no_ordinal(name);
    law_encoded_is_portable(name);
    reveal_strlit("init (");
    reveal_strlit(")");
    let stem = "init ("@ + encoded(name) + ")"@;
    assert(stem.last() == ')');
    lemma_bracket_ends_stem(stem, ')');
    lemma_classified(stem, class);
    assert("init ("@.is_prefix_of(stem)) by {
        assert(stem.subrange(0, 6) =~= "init ("@);
    }
    assert("init ("@.len() == 6);
    let rest = stem.skip(6);
    assert(rest.drop_last() =~= encoded(name));
    assert(rest.last() == ')');
    assert(rest.len() >= 2);
}

/// What a path on disk stands for.
#[derive(Debug)]
pub struct PathInstance {
    pub name: String,
    pub class: String,
    pub is_dir: bool,
    pub is_script_with_children: bool,
    pub script_class: Option<ScriptClass>,
}

#[verifier::ext_equal]
pub struct PathInstanceModel {
    pub name: Seq<char>,
    pub class: Seq<char>,
    pub is_dir: bool,
    pub is_script_with_children: bool,
    pub script_class: Option<ScriptClass>,
}

impl PathInstance {
    pub open spec fn view(&self) -> PathInstanceModel {
        PathInstanceModel {
            name: self.name@,
            class: self.class@,
            is_dir: self.is_dir,
            is_script_with_children: self.is_script_with_children,
            script_class: self.script_class,
        }
    }
}

pub open spec fn instance_view(i: Option<PathInstance>) -> Option<PathInstanceModel> {
    match i {
        Some(i) => Some(i@),
        None => None,
    }
}

/// What a regular file of that name stands for.
pub open spec fn file_instance(file: Seq<char>) -> Option<PathInstanceModel> {
    if file == meta_file() || init_parts(file) is Some {
        None
    } else {
        match classified(file) {
            None => None,
            Some((class, stem)) => Some(
                PathInstanceModel {
                    name: decoded(without_ordinal(stem)),
                    class: class.class_text(),
                    is_dir: false,
                    is_script_with_children: false,
                    script_class: Some(class),
                },
            ),
        }
    }
}

/// The class and name that a directory has from its marker.
pub open spec fn marked(marker: Option<Seq<char>>, directory_name: Seq<char>) -> Option<
    (ScriptClass, Seq<char>),
> {
    match marker {
        None => None,
        Some(fragment) => match init_parts(fragment) {
            Some(parts) => Some(parts),
            None => match plain_init(fragment) {
                Some(class) => Some((class, directory_name)),
                None => None,
            },
        },
    }
}

/// What a directory of that name and marker stands for.
pub open spec fn directory_instance(directory: Seq<char>, marker: Option<Seq<char>>) -> Option<
    PathInstanceModel,
> {
    let name = decoded(without_ordinal(directory));
    if directory == meta_file() {
        None
    } else {
        match marked(marker, name) {
            Some((class, inner)) => Some(
                PathInstanceModel {
                    name: inner,
                    class: class.class_text(),
                    is_dir: true,
                    is_script_with_children: true,
                    script_class: Some(class),
                },
            ),
            None => Some(
                PathInstanceModel {
                    name,
                    class: "Folder"@,
                    is_dir: true,
                    is_script_with_children: false,
                    script_class: None,
                },
            ),
        }
    }
}

pub open spec fn marker_name(index: fs_safety::IndexModel) -> Option<Seq<char>> {
    match index.init_source {
        Some(i) => Some(index.entries[i].fragment),
        None => None,
    }
}

/// What the object of that name stands for; `index` is the reading of it where
/// it is a directory.
pub open spec fn path_instance(
    file: Seq<char>,
    seen: Option<Observed>,
    index: fs_safety::IndexModel,
) -> Result<Option<PathInstanceModel>, ObjectProblem> {
    if file == meta_file() {
        Ok(None)
    } else {
        match seen {
            None => Err(ObjectProblem::Missing),
            Some(o) => match o.kind {
                ObjectKind::SymbolicLink => Err(ObjectProblem::SymbolicLink),
                ObjectKind::ReparsePoint => Err(ObjectProblem::ReparsePoint),
                ObjectKind::File => Ok(file_instance(file)),
                ObjectKind::Directory => Ok(directory_instance(file, marker_name(index))),
                ObjectKind::Other => Ok(None),
            },
        }
    }
}

fn bare_name(stem: &str) -> (out: String)
    ensures
        out@ == decoded(without_ordinal(stem@)),
{
    match parse_disambiguated(stem) {
        Some((name, _)) => decode_name(name.as_str()),
        None => decode_name(stem),
    }
}

/// What the object of that name stands for.
pub fn path_to_instance_meta(
    file_name: &str,
    seen: Option<Observed>,
    index: &PortableDirectoryIndex,
) -> (r: Result<Option<PathInstance>, ObjectProblem>)
    requires
        index.wf(),
    ensures
        match r {
            Err(p) => path_instance(file_name@, seen, index@) == Err::<
                Option<PathInstanceModel>,
                ObjectProblem,
            >(p),
            Ok(i) => path_instance(file_name@, seen, index@) == Ok::<
                Option<PathInstanceModel>,
                ObjectProblem,
            >(instance_view(i)),
        },
{
    if same(file_name, ".meta.json") {
        return Ok(None);
    }
    let object = match seen {
        None => return Err(ObjectProblem::Missing),
        Some(object) => object,
    };
    match object.kind {
        ObjectKind::SymbolicLink => Err(ObjectProblem::SymbolicLink),
        ObjectKind::ReparsePoint => Err(ObjectProblem::ReparsePoint),
        ObjectKind::Other => Ok(None),
        ObjectKind::File => {
            if parse_init_file(file_name).is_some() {
                return Ok(None);
            }
            match classify_script_file(file_name) {
                None => Ok(None),
                Some((class, stem)) => Ok(
                    Some(
                        PathInstance {
                            name: bare_name(stem.as_str()),
                            class: owned(class.class_name()),
                            is_dir: false,
                            is_script_with_children: false,
                            script_class: Some(class),
                        },
                    ),
                ),
            }
        },
        ObjectKind::Directory => {
            let name = bare_name(file_name);
            let marker = match index.unique_init_source() {
                None => None,
                Some(entry) => match parse_init_file(entry.fragment.as_str()) {
                    Some(parts) => Some(parts),
                    None => match parse_plain_init_file(entry.fragment.as_str()) {
                        Some(class) => Some((class, owned(name.as_str()))),
                        None => None,
                    },
                },
            };
            match marker {
                Some((class, inner)) => Ok(
                    Some(
                        PathInstance {
                            name: inner,
                            class: owned(class.class_name()),
                            is_dir: true,
                            is_script_with_children: true,
                            script_class: Some(class),
                        },
                    ),
                ),
                None => Ok(
                    Some(
                        PathInstance {
                            name,
                            class: owned("Folder"),
                            is_dir: true,
                            is_script_with_children: false,
                            script_class: None,
                        },
                    ),
                ),
            }
        },
    }
}

/// Whether a directory holds nothing but what the system or the library put
/// there.
pub open spec fn only_housekeeping(entries: Seq<fs_safety::EntryModel>) -> bool {
    forall|k: int|
        0 <= k < entries.len() ==> (#[trigger] entries[k]).fragment == meta_file()
            || entries[k].fragment == ".DS_Store"@
}

/// Whether the object of that name is a plain folder with nothing in it.
pub fn is_empty_plain_folder(
    file_name: &str,
    seen: Option<Observed>,
    index: &PortableDirectoryIndex,
) -> (r: Result<bool, ObjectProblem>)
    requires
        index.wf(),
    ensures
        match path_instance(file_name@, seen, index@) {
            Err(p) => r == Err::<bool, ObjectProblem>(p),
            Ok(None) => r == Ok::<bool, ObjectProblem>(false),
            Ok(Some(i)) => r == Ok::<bool, ObjectProblem>(
                i.class == "Folder"@ && i.is_dir && !i.is_script_with_children && only_housekeeping(
                    index@.entries,
                ),
            ),
        },
{
    let instance = match path_to_instance_meta(file_name, seen, index) {
        Err(p) => return Err(p),
        Ok(None) => return Ok(false),
        Ok(Some(instance)) => instance,
    };
    if !same(instance.class.as_str(), "Folder") || !instance.is_dir
        || instance.is_script_with_children {
        return Ok(false);
    }
    let mut k: usize = 0;
    while k < index.entries.len()
        invariant
            k <= index.entries@.len(),
            forall|j: int|
                0 <= j < k ==> (#[trigger] index@.entries[j]).fragment == meta_file()
                    || index@.entries[j].fragment == ".DS_Store"@,
            path_instance(file_name@, seen, index@) == Ok::<
                Option<PathInstanceModel>,
                ObjectProblem,
            >(Some(instance@)),
        decreases index.entries@.len() - k,
    {
        let fragment = index.entries[k].fragment.as_str();
        if !same(fragment, ".meta.json") && !same(fragment, ".DS_Store") {
            proof {
                assert(index@.entries[k as int].fragment == fragment@);
            }
            return Ok(false);
        }
        k += 1;
    }
    Ok(true)
}

/// The file names of scripts: a file is a server script where its name ends in
/// `.server.luau` or `.server.lua`, a local script where it ends in
/// `.client.luau` or `.client.lua`, else a module script where it ends in
/// `.luau` or `.lua`, and no script otherwise. What comes before is the stem.
pub proof fn law_file_name_tells_the_class(file: Seq<char>)
    ensures
        ({
            let server = ".server.luau"@.is_suffix_of(file) || ".server.lua"@.is_suffix_of(file);
            let client = ".client.luau"@.is_suffix_of(file) || ".client.lua"@.is_suffix_of(file);
            let script = ".luau"@.is_suffix_of(file) || ".lua"@.is_suffix_of(file);
            let long = ".luau"@.is_suffix_of(file);
            &&& classified(file) is Some == script
            &&& script ==> {
                let (class, stem) = classified(file)->0;
                &&& class == ScriptClass::Script <==> server
                &&& class == ScriptClass::LocalScript <==> client
                &&& class == ScriptClass::ModuleScript <==> !server && !client
                &&& server ==> file == stem + (if long {
                    ".server.luau"@
                } else {
                    ".server.lua"@
                })
                &&& client ==> file == stem + (if long {
                    ".client.luau"@
                } else {
                    ".client.lua"@
                })
                &&& !server && !client ==> file == stem + (if long {
                    ".luau"@
                } else {
                    ".lua"@
                })
            }
        }),
{
    reveal_strlit(".server.luau");
    reveal_strlit(".client.luau");
    reveal_strlit(".server.lua");
    reveal_strlit(".client.lua");
    reveal_strlit(".luau");
    reveal_strlit(".lua");
    lemma_suffix_inside(file, ".server"@, ".luau"@);
    lemma_suffix_inside(file, ".client"@, ".luau"@);
    lemma_suffix_inside(file, ".server"@, ".lua"@);
    lemma_suffix_inside(file, ".client"@, ".lua"@);
    reveal_strlit(".server");
    reveal_strlit(".client");
    assert(".server"@ + ".luau"@ =~= ".server.luau"@);
    assert(".client"@ + ".luau"@ =~= ".client.luau"@);
    assert(".server"@ + ".lua"@ =~= ".server.lua"@);
    assert(".client"@ + ".lua"@ =~= ".client.lua"@);
    assert(!(".luau"@.is_suffix_of(file) && ".lua"@.is_suffix_of(file))) by {
        if ".luau"@.is_suffix_of(file) && ".lua"@.is_suffix_of(file) {
            lemma_suffix_char(".luau"@, ".lua"@, file, 0);
        }
    }
    assert(!(".server.luau"@.is_suffix_of(file) && ".client.luau"@.is_suffix_of(file))) by {
        if ".server.luau"@.is_suffix_of(file) && ".client.luau"@.is_suffix_of(file) {
            lemma_suffix_char(".server.luau"@, ".client.luau"@, file, 5);
            assert(".server.luau"@[6] == 'r' && ".client.luau"@[6] == 't');
        }
    }
    assert(!(".server.lua"@.is_suffix_of(file) && ".client.lua"@.is_suffix_of(file))) by {
        if ".server.lua"@.is_suffix_of(file) && ".client.lua"@.is_suffix_of(file) {
            lemma_suffix_char(".server.lua"@, ".client.lua"@, file, 4);
            assert(".server.lua"@[6] == 'r' && ".client.lua"@[6] == 't');
        }
    }
    lemma_stripped(file, ".server.luau"@);
    lemma_stripped(file, ".client.luau"@);
    lemma_stripped(file, ".server.lua"@);
    lemma_stripped(file, ".client.lua"@);
    lemma_stripped(file, ".luau"@);
    lemma_stripped(file, ".lua"@);
}

proof fn lemma_suffix_inside(s: Seq<char>, a: Seq<char>, b: Seq<char>)
    ensures
        (a + b).is_suffix_of(s) ==> b.is_suffix_of(s),
{
    if (a + b).is_suffix_of(s) {
        let tail = s.subrange(s.len() - (a + b).len(), s.len() as int);
        assert(tail == a + b);
        assert forall|i: int| 0 <= i < b.len() implies s.subrange(
            s.len() - b.len(),
            s.len() as int,
        )[i] == b[i] by {
            assert(tail[a.len() + i] == (a + b)[a.len() + i]);
        }
        assert(s.subrange(s.len() - b.len(), s.len() as int) =~= b);
    }
}

proof fn lemma_stripped(s: Seq<char>, suffix: Seq<char>)
    ensures
        suffix.is_suffix_of(s) ==> s == s.take(s.len() - suffix.len()) + suffix,
{
    if suffix.is_suffix_of(s) {
        assert(s.subrange(s.len() - suffix.len(), s.len() as int) == suffix);
        assert(s =~= s.take(s.len() - suffix.len()) + suffix);
    }
}

/// A regular file with the name that a script gets on disk reads back as that
/// script: the same name, the same class, and no children. Left out are the
/// names that a file cannot tell: those that make an init file of it, and those
/// of a module script that end as the suffix of another class begins.
pub proof fn law_script_file_stands_for_the_script(
    name: Seq<char>,
    class: ScriptClass,
    ordinal: Option<nat>,
    seen: Observed,
    index: fs_safety::IndexModel,
)
    requires
        ordinal is Some ==> ordinal->0 <= usize::MAX,
        ordinal is None ==> !("init ("@.is_prefix_of(encoded(name)) && ")"@.is_suffix_of(
            encoded(name),
        )),
        class == ScriptClass::ModuleScript && ordinal is None ==> !".server"@.is_suffix_of(
            encoded(name),
        ) && !".client"@.is_suffix_of(encoded(name)),
        seen.kind == ObjectKind::File,
    ensures
        ({
            let file = numbered(name, ordinal) + (match class {
                ScriptClass::ModuleScript => ".luau"@,
                ScriptClass::Script => ".server.luau"@,
                ScriptClass::LocalScript => ".client.luau"@,
            });
            path_instance(file, Some(seen), index) == Ok::<
                Option<PathInstanceModel>,
                ObjectProblem,
            >(
                Some(
                    PathInstanceModel {
                        name,
                        class: match class {
                            ScriptClass::ModuleScript => "ModuleScript"@,
                            ScriptClass::Script => "Script"@,
                            ScriptClass::LocalScript => "LocalScript"@,
                        },
                        is_dir: false,
                        is_script_with_children: false,
                        script_class: Some(class),
                    },
                ),
            )
        }),
{
    let stem = numbered(name, ordinal);
    let file = stem + class.suffix_text();
    law_script_file_reads_back(name, class, ordinal);
    lemma_script_is_no_metadata(stem, class);
    assert(!"init ("@.is_prefix_of(stem) || stem.len() == 0 || stem.last() != ')') by {
        reveal_strlit(")");
        if ordinal is Some {
            assert(stem.last() == ']');
        } else if stem.len() > 0 && stem.last() == ')' {
            assert(stem.subrange(stem.len() - 1, stem.len() as int) =~= ")"@);
        }
    }
    lemma_no_init_file(file, class, stem);
}

proof fn lemma_script_is_no_metadata(stem: Seq<char>, class: ScriptClass)
    ensures
        stem + class.suffix_text() != ".meta.json"@,
{
    reveal_strlit(".luau");
    reveal_strlit(".server.luau");
    reveal_strlit(".client.luau");
    reveal_strlit(".meta.json");
    let suffix = class.suffix_text();
    let file = stem + suffix;
    assert(suffix.last() == 'u');
    assert(file.last() == suffix.last());
    assert(".meta.json"@.last() == 'n');
}

proof fn lemma_no_init_file(file: Seq<char>, class: ScriptClass, stem: Seq<char>)
    requires
        classified(file) == Some((class, stem)),
        !"init ("@.is_prefix_of(stem) || stem.len() == 0 || stem.last() != ')',
    ensures
        init_parts(file) is None,
{
    let prefix = "init ("@;
    if prefix.is_prefix_of(stem) {
        let rest = stem.skip(prefix.len() as int);
        if rest.len() >= 2 {
            assert(rest.last() == stem.last());
        }
    }
}

/// A directory without an init file stands for a folder with its name.
pub proof fn law_directory_stands_for_a_folder(
    name: Seq<char>,
    ordinal: Option<nat>,
    seen: Observed,
    index: fs_safety::IndexModel,
)
    requires
        ordinal is Some ==> ordinal->0 <= usize::MAX,
        numbered(name, ordinal) != ".meta.json"@,
        seen.kind == ObjectKind::Directory,
        index.init_source is None,
    ensures
        path_instance(numbered(name, ordinal), Some(seen), index) == Ok::<
            Option<PathInstanceModel>,
            ObjectProblem,
        >(
            Some(
                PathInstanceModel {
                    name,
                    class: "Folder"@,
                    is_dir: true,
                    is_script_with_children: false,
                    script_class: None,
                },
            ),
        ),
{
    law_stem_reads_back(name, ordinal);
}

/// A directory with the init file that a script with children gets reads back as
/// that script, also where the name is too long for the file name and only the
/// directory has it.
pub proof fn law_directory_with_init_stands_for_the_script(
    name: Seq<char>,
    class: ScriptClass,
    ordinal: Option<nat>,
    seen: Observed,
    index: fs_safety::IndexModel,
)
    requires
        ordinal is Some ==> ordinal->0 <= usize::MAX,
        numbered(name, ordinal) != ".meta.json"@,
        seen.kind == ObjectKind::Directory,
        index.init_source is Some,
        index.entries[index.init_source->0].fragment == init_file_name(name, class),
    ensures
        path_instance(numbered(name, ordinal), Some(seen), index) == Ok::<
            Option<PathInstanceModel>,
            ObjectProblem,
        >(
            Some(
                PathInstanceModel {
                    name,
                    class: match class {
                        ScriptClass::ModuleScript => "ModuleScript"@,
                        ScriptClass::Script => "Script"@,
                        ScriptClass::LocalScript => "LocalScript"@,
                    },
                    is_dir: true,
                    is_script_with_children: true,
                    script_class: Some(class),
                },
            ),
        ),
{
    law_stem_reads_back(name, ordinal);
    law_named_init_reads_back(name, class);
    reveal_strlit("init");
    reveal_strlit("init (");
    reveal_strlit(".server");
    reveal_strlit(".client");
    assert(!".server"@.is_suffix_of("init"@));
    assert(!".client"@.is_suffix_of("init"@));
    lemma_classified("init"@, class);
    assert(!"init ("@.is_prefix_of("init"@));
}

/// What is no instance: a missing object and a link are errors; the metadata
/// file, an init file, a file that is no script, and what is neither a file nor
/// a directory are passed over.
pub proof fn law_other_objects_stand_for_nothing(
    file: Seq<char>,
    seen: Option<Observed>,
    index: fs_safety::IndexModel,
)
    ensures
        file == ".meta.json"@ ==> path_instance(file, seen, index) == Ok::<
            Option<PathInstanceModel>,
            ObjectProblem,
        >(None),
        file != ".meta.json"@ && seen is None ==> path_instance(file, seen, index) == Err::<
            Option<PathInstanceModel>,
            ObjectProblem,
        >(ObjectProblem::Missing),
        file != ".meta.json"@ && seen is Some && seen->0.kind == ObjectKind::SymbolicLink
            ==> path_instance(file, seen, index) == Err::<Option<PathInstanceModel>, ObjectProblem>(
            ObjectProblem::SymbolicLink,
        ),
        file != ".meta.json"@ && seen is Some && seen->0.kind == ObjectKind::ReparsePoint
            ==> path_instance(file, seen, index) == Err::<Option<PathInstanceModel>, ObjectProblem>(
            ObjectProblem::ReparsePoint,
        ),
        seen is Some && seen->0.kind == ObjectKind::Other ==> path_instance(file, seen, index)
            == Ok::<Option<PathInstanceModel>, ObjectProblem>(None),
        seen is Some && seen->0.kind == ObjectKind::File && !".luau"@.is_suffix_of(file)
            && !".lua"@.is_suffix_of(file) ==> path_instance(file, seen, index) == Ok::<
            Option<PathInstanceModel>,
            ObjectProblem,
        >(None),
        forall|name: Seq<char>, class: ScriptClass|
            seen is Some && seen->0.kind == ObjectKind::File && file == #[trigger] init_file_name(
                name,
                class,
            ) && file != "init"@ + class.suffix_text() ==> path_instance(file, seen, index) == Ok::<
                Option<PathInstanceModel>,
                ObjectProblem,
            >(None),
{
    law_file_name_tells_the_class(file);
    assert forall|name: Seq<char>, class: ScriptClass|
        seen is Some && seen->0.kind == ObjectKind::File && file == #[trigger] init_file_name(
            name,
            class,
        ) && file != "init"@ + class.suffix_text() implies path_instance(file, seen, index) == Ok::<
        Option<PathInstanceModel>,
        ObjectProblem,
    >(None) by {
        law_named_init_reads_back(name, class);
    }
}

/// Whatever fragment an instance gets beside its siblings, the object of that
/// name reads back as the instance: a script without children from a file, any
/// other class without a script from a directory, as a folder.
pub proof fn law_allocated_instance_reads_back(
    allocator: PathFragmentAllocator,
    inst: InstanceDescriptor<'_>,
    seen: Observed,
    index: fs_safety::IndexModel,
)
    requires
        allocator.wf(),
        ({
            let fragment = allocation(allocator.taken(), inst.name@, inst.extension()).0;
            let script = inst.class@ == "ModuleScript"@ || inst.class@ == "Script"@ || inst.class@
                == "LocalScript"@;
            &&& fragment != ".meta.json"@
            &&& if script && !inst.has_children {
                &&& seen.kind == ObjectKind::File
                &&& !("init ("@.is_prefix_of(encoded(inst.name@)) && ")"@.is_suffix_of(
                    encoded(inst.name@),
                ))
                &&& inst.class@ == "ModuleScript"@ ==> !".server"@.is_suffix_of(encoded(inst.name@))
                    && !".client"@.is_suffix_of(encoded(inst.name@))
            } else {
                seen.kind == ObjectKind::Directory && index.init_source is None
            }
        }),
    ensures
        ({
            let fragment = allocation(allocator.taken(), inst.name@, inst.extension()).0;
            let script = inst.class@ == "ModuleScript"@ || inst.class@ == "Script"@ || inst.class@
                == "LocalScript"@;
            &&& inst.is_dir() == !(script && !inst.has_children)
            &&& path_instance(fragment, Some(seen), index) matches Ok(Some(i)) && {
                &&& i.name == inst.name@
                &&& i.is_dir == inst.is_dir()
                &&& !inst.is_dir() ==> i.class == inst.class@
                &&& inst.is_dir() ==> i.class == "Folder"@
            }
        }),
{
    let taken = allocator.taken();
    let ext = inst.extension();
    let ordinal = ordinal_beside(taken, inst.name@, ext);
    allocator.used.lemma_len();
    lemma_ordinal_beside(taken, inst.name@, ext);
    assert(taken.len() == allocator.used.entries.len());
    reveal_strlit("ModuleScript");
    reveal_strlit("Script");
    reveal_strlit("LocalScript");
    match ScriptClass::of_class(inst.class@) {
        Some(class) => {
            if inst.has_children {
                assert(numbered(inst.name@, ordinal) + ext =~= numbered(inst.name@, ordinal));
                law_directory_stands_for_a_folder(inst.name@, ordinal, seen, index);
            } else {
                law_script_file_stands_for_the_script(inst.name@, class, ordinal, seen, index);
            }
        },
        None => {
            assert(numbered(inst.name@, ordinal) + ext =~= numbered(inst.name@, ordinal));
            law_directory_stands_for_a_folder(inst.name@, ordinal, seen, index);
        },
    }
}

/// Line endings are normalized piece by piece: a CRLF becomes an LF, any other
/// byte stays, and what comes before a place that does not cut a CRLF in two has
/// nothing to do with what comes after it.
pub proof fn law_line_endings_are_normalized_piecewise(a: Seq<u8>, b: Seq<u8>, x: u8)
    requires
        !(a.len() > 0 && b.len() > 0 && a.last() == 13 && b[0] == 10),
    ensures
        normalized(a + b) == normalized(a) + normalized(b),
        normalized(seq![13u8, 10u8]) == seq![10u8],
        normalized(seq![x]) == seq![x],
        normalized(Seq::<u8>::empty()) == Seq::<u8>::empty(),
{
    lemma_normalized_concat(a, b);
    lemma_normalized_units(x);
}

proof fn lemma_normalized_units(x: u8)
    ensures
        normalized(seq![13u8, 10u8]) == seq![10u8],
        normalized(seq![x]) == seq![x],
        normalized(Seq::<u8>::empty()) == Seq::<u8>::empty(),
{
    let none = Seq::<u8>::empty();
    assert(seq![x].skip(1) =~= none);
    assert(seq![13u8, 10u8].skip(2) =~= none);
    assert(normalized(none) =~= none);
    assert(seq![10u8] + none =~= seq![10u8]);
    assert(seq![x] + none =~= seq![x]);
}

proof fn lemma_normalized_concat(a: Seq<u8>, b: Seq<u8>)
    requires
        !(a.len() > 0 && b.len() > 0 && a.last() == 13 && b[0] == 10),
    ensures
        normalized(a + b) == normalized(a) + normalized(b),
    decreases a.len(),
{
    let all = a + b;
    if a.len() == 0 {
        assert(all =~= b);
        assert(normalized(a) + normalized(b) =~= normalized(b));
    } else if a.len() > 1 && a[0] == 13 && a[1] == 10 {
        let rest = a.skip(2);
        lemma_normalized_concat(rest, b);
        assert(all.skip(2) =~= rest + b);
        assert(seq![10u8] + (normalized(rest) + normalized(b)) =~= (seq![10u8] + normalized(rest))
            + normalized(b));
    } else {
        let rest = a.skip(1);
        lemma_normalized_concat(rest, b);
        assert(all.skip(1) =~= rest + b);
        if a.len() == 1 && b.len() > 0 {
            assert(all[1] == b[0]);
        }
        assert(seq![a[0]] + (normalized(rest) + normalized(b)) =~= (seq![a[0]] + normalized(rest))
            + normalized(b));
    }
}

/// A plain folder is empty where all that it holds is called `.meta.json` or
/// `.DS_Store`: one other entry, and it is not.
pub proof fn law_empty_folder_holds_no_other_name(entries: Seq<fs_safety::EntryModel>, k: int)
    requires
        0 <= k < entries.len(),
    ensures
        entries[k].fragment != ".meta.json"@ && entries[k].fragment != ".DS_Store"@
            ==> !only_housekeeping(entries),
        only_housekeeping(entries.remove(k)) && (entries[k].fragment == ".meta.json"@
            || entries[k].fragment == ".DS_Store"@) ==> only_housekeeping(entries),
        only_housekeeping(Seq::<fs_safety::EntryModel>::empty()),
{
    if only_housekeeping(entries.remove(k)) && (entries[k].fragment == ".meta.json"@
        || entries[k].fragment == ".DS_Store"@) {
        let rest = entries.remove(k);
        assert forall|i: int| 0 <= i < entries.len() implies (#[trigger] entries[i]).fragment
            == meta_file() || entries[i].fragment == ".DS_Store"@ by {
            if i < k {
                assert(rest[i] == entries[i]);
            } else if i > k {
                assert(rest[i - 1] == entries[i]);
            }
        }
    }
}

} // verus!
