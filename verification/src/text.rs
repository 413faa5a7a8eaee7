//! Character-level helpers shared by the configuration checks, the audio
//! engine and the application catalogue: ASCII case folding, case-insensitive
//! comparison and ordering, and Unicode white space.
use vstd::prelude::*;
use vstd::string::*;

verus! {

/// The code of a character after ASCII lowercasing: `A`..`Z` map to `a`..`z`,
/// every other character keeps its own code.
pub open spec fn fold(c: char) -> u32 {
    let v = c as u32;
    if 65 <= v && v <= 90 {
        (v + 32) as u32
    } else {
        v
    }
}

/// The codes of a text after ASCII lowercasing, which is what
/// `to_ascii_lowercase` produces, character by character.
pub open spec fn lowered(s: Seq<char>) -> Seq<u32> {
    s.map_values(|c: char| fold(c))
}

/// The codes of a text, unchanged.
pub open spec fn codes(s: Seq<char>) -> Seq<u32> {
    s.map_values(|c: char| c as u32)
}

/// Two texts are equal when ASCII case is ignored (`eq_ignore_ascii_case`).
pub open spec fn same_ignoring_case(a: Seq<char>, b: Seq<char>) -> bool {
    lowered(a) == lowered(b)
}

/// Lexicographic order on code sequences; this is the order of `str::cmp`,
/// since UTF-8 byte order agrees with code point order.
pub open spec fn seq_lt(a: Seq<u32>, b: Seq<u32>) -> bool
    decreases a.len(),
{
    if b.len() == 0 {
        false
    } else if a.len() == 0 {
        true
    } else if a[0] != b[0] {
        a[0] < b[0]
    } else {
        seq_lt(a.drop_first(), b.drop_first())
    }
}

/// `a` sorts strictly before `b` once both are ASCII-lowercased.
pub open spec fn before_ignoring_case(a: Seq<char>, b: Seq<char>) -> bool {
    seq_lt(lowered(a), lowered(b))
}

/// The characters with the Unicode `White_Space` property, which is what
/// `char::is_whitespace` and `str::trim` test for.
pub open spec fn is_white_space(c: char) -> bool {
    let v = c as u32;
    ||| 9 <= v && v <= 13
    ||| v == 32
    ||| v == 0x85
    ||| v == 0xA0
    ||| v == 0x1680
    ||| 0x2000 <= v && v <= 0x200A
    ||| v == 0x2028
    ||| v == 0x2029
    ||| v == 0x202F
    ||| v == 0x205F
    ||| v == 0x3000
}

/// A text that `trim` leaves empty: every character is white space.
pub open spec fn blank(s: Seq<char>) -> bool {
    forall|i: int| 0 <= i < s.len() ==> is_white_space(#[trigger] s[i])
}

pub proof fn lemma_seq_lt_irreflexive(a: Seq<u32>)
    ensures
        !seq_lt(a, a),
    decreases a.len(),
{
    if a.len() > 0 {
        lemma_seq_lt_irreflexive(a.drop_first());
    }
}

pub proof fn lemma_seq_lt_asymmetric(a: Seq<u32>, b: Seq<u32>)
    ensures
        !(seq_lt(a, b) && seq_lt(b, a)),
    decreases a.len(),
{
    if a.len() > 0 && b.len() > 0 && a[0] == b[0] {
        lemma_seq_lt_asymmetric(a.drop_first(), b.drop_first());
    }
}

pub proof fn lemma_seq_lt_transitive(a: Seq<u32>, b: Seq<u32>, c: Seq<u32>)
    requires
        seq_lt(a, b),
        seq_lt(b, c),
    ensures
        seq_lt(a, c),
    decreases a.len(),
{
    if a.len() > 0 && a[0] == b[0] && b[0] == c[0] {
        lemma_seq_lt_transitive(a.drop_first(), b.drop_first(), c.drop_first());
    }
}

pub proof fn lemma_seq_lt_total(a: Seq<u32>, b: Seq<u32>)
    ensures
        seq_lt(a, b) || seq_lt(b, a) || a == b,
    decreases a.len(),
{
    if a.len() > 0 && b.len() > 0 && a[0] == b[0] {
        lemma_seq_lt_total(a.drop_first(), b.drop_first());
        if a.drop_first() == b.drop_first() {
            assert(a == seq![a[0]] + a.drop_first());
            assert(b == seq![b[0]] + b.drop_first());
        }
    } else if a.len() == 0 && b.len() == 0 {
        assert(a == b);
    }
}

proof fn lemma_seq_lt_skip(a: Seq<u32>, b: Seq<u32>, i: int)
    requires
        0 <= i < a.len(),
        i < b.len(),
        a[i] == b[i],
    ensures
        seq_lt(a.skip(i), b.skip(i)) == seq_lt(a.skip(i + 1), b.skip(i + 1)),
{
    assert(a.skip(i).drop_first() == a.skip(i + 1));
    assert(b.skip(i).drop_first() == b.skip(i + 1));
}

/// ASCII-lowercases one character, giving its code.
pub fn fold_char(c: char) -> (r: u32)
    ensures
        r == fold(c),
{
    let v = c as u32;
    if 65 <= v && v <= 90 {
        v + 32
    } else {
        v
    }
}

/// `str::eq_ignore_ascii_case`.
pub fn eq_ignore_case(a: &str, b: &str) -> (r: bool)
    ensures
        r == same_ignoring_case(a@, b@),
{
    let n = a.unicode_len();
    let m = b.unicode_len();
    if n != m {
        proof {
            assert(lowered(a@).len() != lowered(b@).len());
        }
        return false;
    }
    let mut i: usize = 0;
    while i < n
        invariant
            n == a@.len(),
            n == b@.len(),
            i <= n,
            forall|j: int| 0 <= j < i ==> fold(#[trigger] a@[j]) == fold(b@[j]),
        decreases n - i,
    {
        if fold_char(a.get_char(i)) != fold_char(b.get_char(i)) {
            proof {
                assert(lowered(a@)[i as int] != lowered(b@)[i as int]);
            }
            return false;
        }
        i = i + 1;
    }
    proof {
        assert(lowered(a@) =~= lowered(b@));
    }
    true
}

/// `a.to_ascii_lowercase() < b.to_ascii_lowercase()`.
pub fn less_ignoring_case(a: &str, b: &str) -> (r: bool)
    ensures
        r == before_ignoring_case(a@, b@),
{
    let n = a.unicode_len();
    let m = b.unicode_len();
    let ghost la = lowered(a@);
    let ghost lb = lowered(b@);
    let mut i: usize = 0;
    proof {
        assert(la.skip(0) == la);
        assert(lb.skip(0) == lb);
    }
    while i < n && i < m
        invariant
            n == a@.len(),
            m == b@.len(),
            la == lowered(a@),
            lb == lowered(b@),
            i <= n,
            i <= m,
            seq_lt(la, lb) == seq_lt(la.skip(i as int), lb.skip(i as int)),
        decreases n - i,
    {
        let x = fold_char(a.get_char(i));
        let y = fold_char(b.get_char(i));
        if x != y {
            proof {
                assert(la.skip(i as int)[0] == x);
                assert(lb.skip(i as int)[0] == y);
            }
            return x < y;
        }
        proof {
            lemma_seq_lt_skip(la, lb, i as int);
        }
        i = i + 1;
    }
    proof {
        assert(la.skip(i as int).len() == n - i);
        assert(lb.skip(i as int).len() == m - i);
    }
    i == n && i < m
}

/// `char::is_whitespace`.
pub fn white_space(c: char) -> (r: bool)
    ensures
        r == is_white_space(c),
{
    let v = c as u32;
    (9 <= v && v <= 13) || v == 32 || v == 0x85 || v == 0xA0 || v == 0x1680 || (0x2000 <= v && v
        <= 0x200A) || v == 0x2028 || v == 0x2029 || v == 0x202F || v == 0x205F || v == 0x3000
}

/// `s.trim().is_empty()`: the text holds nothing but white space.
pub fn is_blank(s: &str) -> (r: bool)
    ensures
        r == blank(s@),
{
    let n = s.unicode_len();
    let mut i: usize = 0;
    while i < n
        invariant
            n == s@.len(),
            i <= n,
            forall|j: int| 0 <= j < i ==> is_white_space(#[trigger] s@[j]),
        decreases n - i,
    {
        if !white_space(s.get_char(i)) {
            return false;
        }
        i = i + 1;
    }
    true
}

/// Whether `s` ends with exactly the characters of `suffix`.
pub open spec fn has_suffix(s: Seq<char>, suffix: Seq<char>) -> bool {
    suffix.len() <= s.len() && s.skip(s.len() - suffix.len()) == suffix
}

/// `str::ends_with` for a text and a suffix.
pub fn ends_with(s: &str, suffix: &str) -> (r: bool)
    ensures
        r == has_suffix(s@, suffix@),
{
    let n = s.unicode_len();
    let k = suffix.unicode_len();
    if k > n {
        return false;
    }
    let start = n - k;
    let mut i: usize = 0;
    while i < k
        invariant
            n == s@.len(),
            k == suffix@.len(),
            start == n - k,
            i <= k,
            forall|j: int| 0 <= j < i ==> s@[start + j] == #[trigger] suffix@[j],
        decreases k - i,
    {
        if s.get_char(start + i) != suffix.get_char(i) {
            proof {
                assert(s@.skip(start as int)[i as int] != suffix@[i as int]);
            }
            return false;
        }
        i = i + 1;
    }
    proof {
        assert(s@.skip(start as int) =~= suffix@);
    }
    true
}

/// Whether `s` ends with `suffix` when ASCII case is ignored.
pub open spec fn has_suffix_ignoring_case(s: Seq<char>, suffix: Seq<char>) -> bool {
    suffix.len() <= s.len() && lowered(s.skip(s.len() - suffix.len())) == lowered(suffix)
}

/// `s.to_ascii_lowercase().ends_with(suffix.to_ascii_lowercase())`.
pub fn ends_with_ignoring_case(s: &str, suffix: &str) -> (r: bool)
    ensures
        r == has_suffix_ignoring_case(s@, suffix@),
{
    let n = s.unicode_len();
    let k = suffix.unicode_len();
    if k > n {
        return false;
    }
    let start = n - k;
    let mut i: usize = 0;
    while i < k
        invariant
            n == s@.len(),
            k == suffix@.len(),
            start == n - k,
            i <= k,
            forall|j: int| 0 <= j < i ==> fold(s@[start + j]) == fold(#[trigger] suffix@[j]),
        decreases k - i,
    {
        if fold_char(s.get_char(start + i)) != fold_char(suffix.get_char(i)) {
            proof {
                assert(lowered(s@.skip(start as int))[i as int] != lowered(suffix@)[i as int]);
            }
            return false;
        }
        i = i + 1;
    }
    proof {
        assert(lowered(s@.skip(start as int)) =~= lowered(suffix@));
    }
    true
}

} // verus!
