//! Helpers for reading executable names out of the Windows shell: the
//! executable named by a shortcut's target, and the UTF-16 strings the shell
//! exchanges.
use vstd::prelude::*;
use vstd::string::*;

use crate::text::{ends_with_ignoring_case, has_suffix_ignoring_case};

verus! {

/// The file name that std's `Path::file_name` gives for a path, as text, or
/// `None` where it gives none. Paths are read by the rules of the platform
/// the library is built for.
pub uninterp spec fn path_file_name(path: Seq<char>) -> Option<Seq<char>>;

/// `std::path::Path::file_name` of a path given as text, the name turned
/// back into text. Claimed: the result is [`path_file_name`] of the path.
#[verifier::external_body]
fn file_name_of(path: &str) -> (r: Option<String>)
    ensures
        match path_file_name(path@) {
            Some(name) => r matches Some(s) && s@ == name,
            None => r is None,
        },
{
    match std::path::Path::new(path).file_name() {
        Some(name) => match name.to_str() {
            Some(text) => Some(text.to_owned()),
            None => None,
        },
        None => None,
    }
}

/// The executable named by a file name: the name itself, when it ends with
/// `.exe` (ASCII case ignored).
pub open spec fn executable_named(name: Seq<char>) -> Option<Seq<char>> {
    if has_suffix_ignoring_case(name, ".exe"@) {
        Some(name)
    } else {
        None
    }
}

/// The executable name of a shortcut target: its file name, when that ends
/// with `.exe` (ASCII case ignored).
pub open spec fn executable_of(target: Seq<char>) -> Option<Seq<char>> {
    match path_file_name(target) {
        Some(name) => executable_named(name),
        None => None,
    }
}

/// The executable a file name names, if it is one.
pub fn executable_from_file_name(name: String) -> (r: Option<String>)
    ensures
        match executable_named(name@) {
            Some(e) => r matches Some(s) && s@ == e,
            None => r is None,
        },
{
    if ends_with_ignoring_case(name.as_str(), ".exe") {
        Some(name)
    } else {
        None
    }
}

/// The executable name of a shortcut target.
pub fn executable_name(target: &str) -> (r: Option<String>)
    ensures
        match executable_of(target@) {
            Some(name) => r matches Some(s) && s@ == name,
            None => r is None,
        },
{
    match file_name_of(target) {
        Some(name) => executable_from_file_name(name),
        None => None,
    }
}

/// The UTF-16 code units of one character.
pub open spec fn utf16_of(c: char) -> Seq<u16> {
    let v = c as u32;
    if v < 0x10000 {
        seq![v as u16]
    } else {
        let w = (v - 0x10000) as u32;
        seq![(0xD800 + w / 1024) as u16, (0xDC00 + w % 1024) as u16]
    }
}

/// The UTF-16 encoding of a text.
pub open spec fn utf16_encoding(s: Seq<char>) -> Seq<u16>
    decreases s.len(),
{
    if s.len() == 0 {
        Seq::empty()
    } else {
        utf16_encoding(s.drop_last()) + utf16_of(s.last())
    }
}

/// A text in UTF-16 followed by a terminating zero, as the Windows API takes it.
pub fn to_wide(value: &str) -> (r: Vec<u16>)
    ensures
        r@ == utf16_encoding(value@).push(0u16),
{
    let n = value.unicode_len();
    let mut r: Vec<u16> = Vec::new();
    let mut i: usize = 0;
    while i < n
        invariant
            n == value@.len(),
            i <= n,
            r@ == utf16_encoding(value@.take(i as int)),
        decreases n - i,
    {
        let c = value.get_char(i);
        let v = c as u32;
        if v < 0x10000 {
            r.push(v as u16);
        } else {
            let w = v - 0x10000;
            r.push((0xD800 + w / 1024) as u16);
            r.push((0xDC00 + w % 1024) as u16);
        }
        proof {
            assert(value@.take(i as int + 1).drop_last() =~= value@.take(i as int));
            assert(value@.take(i as int + 1).last() == c);
            assert(r@ =~= utf16_encoding(value@.take(i as int)) + utf16_of(c));
        }
        i = i + 1;
    }
    proof {
        assert(value@.take(i as int) =~= value@);
    }
    r.push(0);
    r
}

pub open spec fn is_high_surrogate(u: u16) -> bool {
    0xD800 <= u && u <= 0xDBFF
}

pub open spec fn is_low_surrogate(u: u16) -> bool {
    0xDC00 <= u && u <= 0xDFFF
}

/// UTF-16 decoding in which every unpaired surrogate becomes U+FFFD.
pub open spec fn utf16_decode_lossy(u: Seq<u16>) -> Seq<char>
    decreases u.len(),
{
    if u.len() == 0 {
        Seq::empty()
    } else if !is_high_surrogate(u[0]) && !is_low_surrogate(u[0]) {
        seq![u[0] as char] + utf16_decode_lossy(u.drop_first())
    } else if is_high_surrogate(u[0]) && u.len() >= 2 && is_low_surrogate(u[1]) {
        seq![(0x10000 + (u[0] - 0xD800) * 1024 + (u[1] - 0xDC00)) as char] + utf16_decode_lossy(u.skip(2))
    } else {
        seq!['\u{FFFD}'] + utf16_decode_lossy(u.drop_first())
    }
}

proof fn lemma_encoding_front(s: Seq<char>)
    requires
        s.len() > 0,
    ensures
        utf16_encoding(s) == utf16_of(s[0]) + utf16_encoding(s.drop_first()),
    decreases s.len(),
{
    if s.len() == 1 {
        assert(s.drop_last() =~= Seq::<char>::empty());
        assert(s.drop_first() =~= Seq::<char>::empty());
        assert(utf16_encoding(s) =~= utf16_of(s[0]) + utf16_encoding(s.drop_first()));
    } else {
        let d = s.drop_last();
        lemma_encoding_front(d);
        assert(d.drop_first() =~= s.drop_first().drop_last());
        assert(s.drop_first().last() == s.last());
        assert(d[0] == s[0]);
        assert(utf16_encoding(s) =~= utf16_of(s[0]) + utf16_encoding(s.drop_first()));
    }
}

proof fn lemma_decode_char(c: char, rest: Seq<u16>)
    ensures
        utf16_decode_lossy(utf16_of(c) + rest) == seq![c] + utf16_decode_lossy(rest),
{
    let v = c as u32;
    let u = utf16_of(c) + rest;
    if v < 0x10000 {
        assert(u[0] == v as u16);
        assert(u.drop_first() =~= rest);
        assert((v as u16) as char == c);
    } else {
        let w = (v - 0x10000) as u32;
        assert(w < 0x100000);
        let hi = (0xD800 + w / 1024) as u16;
        let lo = (0xDC00 + w % 1024) as u16;
        assert(w / 1024 < 1024 && w % 1024 < 1024 && (w / 1024) * 1024 + w % 1024 == w) by (nonlinear_arith)
            requires
                w < 0x100000,
        ;
        assert(u[0] == hi && u[1] == lo);
        assert(u.skip(2) =~= rest);
        assert(0x10000 + (hi - 0xD800) * 1024 + (lo - 0xDC00) == v);
        assert((0x10000 + (u[0] - 0xD800) * 1024 + (u[1] - 0xDC00)) as char == c);
    }
}

/// Decoding the UTF-16 encoding of a text gives the text back.
pub proof fn decoding_undoes_encoding(s: Seq<char>)
    ensures
        utf16_decode_lossy(utf16_encoding(s)) == s,
    decreases s.len(),
{
    if s.len() > 0 {
        lemma_encoding_front(s);
        lemma_decode_char(s[0], utf16_encoding(s.drop_first()));
        decoding_undoes_encoding(s.drop_first());
        assert(seq![s[0]] + s.drop_first() =~= s);
    }
}

/// `String::from_utf16_lossy`: decodes UTF-16, putting U+FFFD in place of
/// every unpaired surrogate, as its documentation states.
#[verifier::external_body]
fn string_from_utf16_lossy(units: &[u16]) -> (r: String)
    ensures
        r@ == utf16_decode_lossy(units@),
{
    String::from_utf16_lossy(units)
}

/// How many units come before the first zero, or all of them when there is none.
pub open spec fn text_len(u: Seq<u16>) -> int
    decreases u.len(),
{
    if u.len() == 0 {
        0
    } else if u[0] == 0 {
        0
    } else {
        1 + text_len(u.drop_first())
    }
}

proof fn lemma_text_len(u: Seq<u16>, k: int)
    requires
        0 <= k <= u.len(),
        forall|i: int| 0 <= i < k ==> u[i] != 0,
        k == u.len() || u[k] == 0,
    ensures
        text_len(u) == k,
    decreases k,
{
    if k > 0 {
        let d = u.drop_first();
        assert forall|i: int| 0 <= i < k - 1 implies d[i] != 0 by {
            assert(d[i] == u[i + 1]);
        }
        if k < u.len() {
            assert(d[k - 1] == u[k]);
        }
        lemma_text_len(d, k - 1);
    }
}

proof fn lemma_char_bound(c: char)
    ensures
        (c as u32) <= 0x10FFFF,
{
}

proof fn lemma_encoding_nonzero(s: Seq<char>)
    requires
        forall|i: int| 0 <= i < s.len() ==> #[trigger] (s[i] as u32) != 0,
    ensures
        forall|k: int| 0 <= k < utf16_encoding(s).len() ==> #[trigger] utf16_encoding(s)[k] != 0,
    decreases s.len(),
{
    if s.len() > 0 {
        let d = s.drop_last();
        assert forall|i: int| 0 <= i < d.len() implies #[trigger] (d[i] as u32) != 0 by {
            assert(d[i] == s[i]);
        }
        lemma_encoding_nonzero(d);
        let e = utf16_encoding(d);
        let t = utf16_of(s.last());
        assert((s[s.len() - 1] as u32) != 0);
        lemma_char_bound(s.last());
        let v = s.last() as u32;
        if v >= 0x10000 {
            let w = (v - 0x10000) as u32;
            assert(w < 0x100000);
            assert(w / 1024 < 1024 && w % 1024 < 1024) by (nonlinear_arith)
                requires
                    w < 0x100000,
            ;
        }
        assert forall|k: int| 0 <= k < utf16_encoding(s).len() implies #[trigger] utf16_encoding(s)[k] != 0 by {
            if k >= e.len() {
                assert(utf16_encoding(s)[k] == t[k - e.len()]);
            } else {
                assert(utf16_encoding(s)[k] == e[k]);
            }
        }
    }
}

/// A text without a NUL character (code 0), written as the Windows API takes it and
/// read back as the Windows API gives it, is the same text.
pub proof fn wide_text_round_trips(s: Seq<char>)
    requires
        forall|i: int| 0 <= i < s.len() ==> #[trigger] (s[i] as u32) != 0,
    ensures
        ({
            let wide = utf16_encoding(s).push(0u16);
            utf16_decode_lossy(wide.take(text_len(wide))) == s
        }),
{
    let e = utf16_encoding(s);
    let wide = e.push(0u16);
    lemma_encoding_nonzero(s);
    assert forall|i: int| 0 <= i < e.len() implies wide[i] != 0 by {
        assert(wide[i] == e[i]);
    }
    lemma_text_len(wide, e.len() as int);
    assert(wide.take(e.len() as int) =~= e);
    decoding_undoes_encoding(s);
}

/// A text the Windows API wrote into a buffer: the units before the first
/// zero, or the whole buffer when there is none, decoded from UTF-16.
pub fn wide_to_string(buffer: &[u16]) -> (r: String)
    ensures
        r@ == utf16_decode_lossy(buffer@.take(text_len(buffer@))),
{
    let mut length: usize = 0;
    while length < buffer.len() && buffer[length] != 0
        invariant
            length <= buffer@.len(),
            forall|i: int| 0 <= i < length ==> buffer@[i] != 0,
        decreases buffer@.len() - length,
    {
        length = length + 1;
    }
    proof {
        lemma_text_len(buffer@, length as int);
    }
    let (head, _) = buffer.split_at(length);
    proof {
        assert(head@ =~= buffer@.take(length as int));
    }
    string_from_utf16_lossy(head)
}

} // verus!
