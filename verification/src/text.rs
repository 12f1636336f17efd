//! Text: searching, cutting and lower-casing device names.

use vstd::prelude::*;

verus! {

/// `pattern` occurs in `s` at index `i`.
pub open spec fn occurs_at(s: Seq<char>, pattern: Seq<char>, i: int) -> bool {
    &&& 0 <= i
    &&& i + pattern.len() <= s.len()
    &&& s.subrange(i, i + pattern.len()) == pattern
}

/// `pattern` occurs somewhere in `s`.
pub open spec fn contains(s: Seq<char>, pattern: Seq<char>) -> bool {
    exists|i: int| occurs_at(s, pattern, i)
}

/// The first index from `from` on at which `pattern` occurs in `s`, or the
/// length of `s` where there is none.
pub open spec fn first_from(s: Seq<char>, pattern: Seq<char>, from: nat) -> nat
    decreases s.len() - from,
{
    if from >= s.len() {
        s.len()
    } else if occurs_at(s, pattern, from as int) {
        from
    } else {
        first_from(s, pattern, from + 1)
    }
}

/// `s` up to the first occurrence of `pattern`, or all of `s` where there is none.
pub open spec fn before_first(s: Seq<char>, pattern: Seq<char>) -> Seq<char> {
    s.take(first_from(s, pattern, 0) as int)
}

/// An ASCII capital as its small letter; any other character as it is.
pub open spec fn ascii_lower(c: char) -> char {
    if 'A' <= c && c <= 'Z' {
        ((c as u32) + 32) as char
    } else {
        c
    }
}

/// `s` with every ASCII capital as its small letter.
pub open spec fn ascii_lowercase(s: Seq<char>) -> Seq<char> {
    Seq::new(s.len(), |i: int| ascii_lower(s[i]))
}

/// An ASCII small letter as its capital; any other character as it is.
pub open spec fn ascii_upper(c: char) -> char {
    if 'a' <= c && c <= 'z' {
        ((c as u32) - 32) as char
    } else {
        c
    }
}

/// `s` with every ASCII small letter as its capital.
pub open spec fn ascii_uppercase(s: Seq<char>) -> Seq<char> {
    Seq::new(s.len(), |i: int| ascii_upper(s[i]))
}

/// Every character is an ASCII character.
pub open spec fn is_ascii(s: Seq<char>) -> bool {
    forall|i: int| 0 <= i < s.len() ==> (#[trigger] s[i] as u32) < 128
}

/// What the standard library makes of a text when it lower-cases it.
pub uninterp spec fn lowercase(s: Seq<char>) -> Seq<char>;

/// Lower-cases a text with `str::to_lowercase`, which goes by the Unicode
/// tables.  The result depends on the text alone, ASCII text has its capitals
/// replaced by the small letters, and in any text the case of the ASCII letters
/// makes no difference: it changes neither what they become nor, since a letter
/// has a case either way, what a capital sigma next to them becomes.
#[verifier::external_body]
pub(crate) fn to_lowercase(s: &str) -> (lower: String)
    ensures
        lower@ == lowercase(s@),
        is_ascii(s@) ==> lower@ == ascii_lowercase(s@),
        lower@ == lowercase(ascii_lowercase(s@)),
        lower@ == lowercase(ascii_uppercase(s@)),
{
    s.to_lowercase()
}

/// The characters of a text.
fn chars_of(s: &str) -> (chars: Vec<char>)
    ensures
        chars@ == s@,
{
    let mut chars: Vec<char> = Vec::new();
    for c in iter: s.chars()
        invariant
            iter.seq() == s@,
            chars@ =~= s@.take(iter.index() as int),
    {
        chars.push(c);
    }
    assert(chars@ =~= s@);
    chars
}

/// Whether `pattern` occurs in `s` at index `i`.
fn check_at(s: &Vec<char>, pattern: &Vec<char>, i: usize) -> (found: bool)
    requires
        i <= s@.len(),
    ensures
        found == occurs_at(s@, pattern@, i as int),
{
    let len: usize = s.len();
    if len - i < pattern.len() {
        return false;
    }
    let mut k: usize = 0;
    while k < pattern.len()
        invariant
            i + pattern@.len() <= len == s@.len(),
            k <= pattern@.len(),
            s@.subrange(i as int, i + k) =~= pattern@.take(k as int),
        decreases pattern@.len() - k,
    {
        if s[i + k] != pattern[k] {
            assert(s@.subrange(i as int, i + pattern@.len())[k as int] != pattern@[k as int]);
            return false;
        }
        k = k + 1;
    }
    assert(pattern@.take(k as int) =~= pattern@);
    true
}

/// Whether `pattern` occurs anywhere in `s`.
pub fn contains_text(s: &str, pattern: &str) -> (found: bool)
    ensures
        found == contains(s@, pattern@),
{
    let chars = chars_of(s);
    let wanted = chars_of(pattern);
    let mut i: usize = 0;
    while i < chars.len()
        invariant
            chars@ == s@,
            wanted@ == pattern@,
            i <= chars@.len(),
            forall|j: int| 0 <= j < i ==> !occurs_at(s@, pattern@, j),
        decreases chars@.len() - i,
    {
        if check_at(&chars, &wanted, i) {
            return true;
        }
        i = i + 1;
    }
    check_at(&chars, &wanted, i)
}

/// `s` up to the first occurrence of `pattern`, or all of `s` where there is none.
pub fn cut_before(s: &str, pattern: &str) -> (head: String)
    ensures
        head@ == before_first(s@, pattern@),
{
    let chars = chars_of(s);
    let wanted = chars_of(pattern);
    let mut i: usize = 0;
    while i < chars.len() && !check_at(&chars, &wanted, i)
        invariant
            chars@ == s@,
            wanted@ == pattern@,
            i <= chars@.len(),
            first_from(s@, pattern@, 0) == first_from(s@, pattern@, i as nat),
        decreases chars@.len() - i,
    {
        i = i + 1;
    }
    s.substring_char(0, i).to_owned()
}

/// Whether two texts are the same.
pub fn same_text(a: &str, b: &str) -> (same: bool)
    ensures
        same == (a@ == b@),
{
    let left = a.to_owned();
    let right = b.to_owned();
    left == right
}

/// Two texts that differ in the case of ASCII letters alone are the same once
/// these are small: a text, its ASCII-lowered form and its ASCII-raised form are
/// such texts.
pub proof fn law_ascii_case(s: Seq<char>)
    ensures
        ascii_lowercase(ascii_lowercase(s)) == ascii_lowercase(s),
        ascii_lowercase(ascii_uppercase(s)) == ascii_lowercase(s),
        ascii_uppercase(ascii_lowercase(s)) == ascii_uppercase(s),
{
    assert(ascii_lowercase(ascii_lowercase(s)) =~= ascii_lowercase(s));
    assert(ascii_lowercase(ascii_uppercase(s)) =~= ascii_lowercase(s));
    assert(ascii_uppercase(ascii_lowercase(s)) =~= ascii_uppercase(s));
}

/// What is before the first occurrence holds no occurrence, and where there is
/// one the pattern follows.
pub proof fn law_cut_is_first(s: Seq<char>, pattern: Seq<char>)
    requires
        pattern.len() > 0,
    ensures
        forall|i: int| 0 <= i < before_first(s, pattern).len() ==> !occurs_at(s, pattern, i),
        contains(s, pattern) ==> occurs_at(s, pattern, before_first(s, pattern).len() as int),
        !contains(s, pattern) ==> before_first(s, pattern) == s,
{
    lemma_first_from(s, pattern, 0);
    if !contains(s, pattern) {
        assert(first_from(s, pattern, 0) == s.len());
        assert(s.take(s.len() as int) =~= s);
    } else {
        let i = choose|i: int| occurs_at(s, pattern, i);
        assert(0 <= i < s.len());
    }
}

proof fn lemma_first_from(s: Seq<char>, pattern: Seq<char>, from: nat)
    requires
        from <= s.len(),
    ensures
        from <= first_from(s, pattern, from) <= s.len(),
        forall|i: int| from <= i < first_from(s, pattern, from) ==> !occurs_at(s, pattern, i),
        first_from(s, pattern, from) < s.len() ==> occurs_at(
            s,
            pattern,
            first_from(s, pattern, from) as int,
        ),
    decreases s.len() - from,
{
    if from < s.len() && !occurs_at(s, pattern, from as int) {
        lemma_first_from(s, pattern, from + 1);
    }
}

/// A text contains what stands anywhere inside it.
pub proof fn law_contains_what_is_inside(before: Seq<char>, pattern: Seq<char>, after: Seq<char>)
    ensures
        contains(before + pattern + after, pattern),
{
    let s = before + pattern + after;
    let i = before.len() as int;
    assert(s.subrange(i, i + pattern.len()) =~= pattern);
    assert(occurs_at(s, pattern, i));
}

/// What a text contains stands somewhere inside it.
pub proof fn law_contained_is_inside(s: Seq<char>, pattern: Seq<char>)
    requires
        contains(s, pattern),
    ensures
        exists|before: Seq<char>, after: Seq<char>| s == #[trigger] (before + pattern + after),
{
    let i = choose|i: int| occurs_at(s, pattern, i);
    let before = s.take(i);
    let after = s.skip(i + pattern.len());
    assert(s =~= before + s.subrange(i, i + pattern.len()) + after);
    assert(s == before + pattern + after);
}

/// A cut keeps what stands before the pattern where the pattern begins nowhere
/// earlier.
pub proof fn law_cut_at_pattern(
    s: Seq<char>,
    head: Seq<char>,
    pattern: Seq<char>,
    tail: Seq<char>,
)
    requires
        pattern.len() > 0,
        s == head + pattern + tail,
        forall|i: int|
            0 <= i < head.len() ==> #[trigger] s.subrange(i, i + pattern.len()) != pattern,
    ensures
        before_first(s, pattern) == head,
{
    law_cut_is_first(s, pattern);
    law_contains_what_is_inside(head, pattern, tail);
    let n = before_first(s, pattern).len() as int;
    let k = head.len() as int;
    assert(s.subrange(k, k + pattern.len()) =~= pattern);
    assert(occurs_at(s, pattern, k));
    if n < k {
        assert(s.subrange(n, n + pattern.len()) != pattern);
    }
    assert(n == k);
    lemma_first_from(s, pattern, 0);
    assert(before_first(s, pattern) =~= s.take(k));
    assert(s.take(k) =~= head);
}

/// A cut keeps everything where the pattern begins nowhere.
pub proof fn law_cut_without_pattern(s: Seq<char>, pattern: Seq<char>)
    requires
        pattern.len() > 0,
        forall|i: int|
            0 <= i <= s.len() - pattern.len() ==> #[trigger] s.subrange(i, i + pattern.len())
                != pattern,
    ensures
        before_first(s, pattern) == s,
{
    if contains(s, pattern) {
        let i = choose|i: int| occurs_at(s, pattern, i);
        assert(s.subrange(i, i + pattern.len()) != pattern);
    }
    law_cut_is_first(s, pattern);
}

/// The 26 ASCII capitals and their small letters lie 32 apart, and nothing else
/// changes.
pub proof fn law_ascii_letters(s: Seq<char>, i: int)
    requires
        0 <= i < s.len(),
    ensures
        ascii_lowercase(s).len() == s.len(),
        ascii_uppercase(s).len() == s.len(),
        65 <= s[i] as u32 <= 90 ==> ascii_lowercase(s)[i] as u32 == s[i] as u32 + 32,
        !(65 <= s[i] as u32 <= 90) ==> ascii_lowercase(s)[i] == s[i],
        97 <= s[i] as u32 <= 122 ==> ascii_uppercase(s)[i] as u32 == s[i] as u32 - 32,
        !(97 <= s[i] as u32 <= 122) ==> ascii_uppercase(s)[i] == s[i],
{
}

} // verus!
