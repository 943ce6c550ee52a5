//! Character-sequence utilities shared by the format readers and
//! writers: whitespace trimming, ASCII upper-casing, prefix tests, and
//! the conversions between `String` and `Vec<char>` that the parsers
//! work on.

use vstd::prelude::*;

verus! {

/// The whitespace characters the formats care about: the ASCII blank
/// and control characters that can surround a field.
pub open spec fn is_space_char(c: char) -> bool {
    c == ' ' || c == '\t' || c == '\n' || c == '\u{b}' || c == '\u{c}' || c == '\r'
}

pub open spec fn trim_start_spec(s: Seq<char>) -> Seq<char>
    decreases s.len(),
{
    if s.len() > 0 && is_space_char(s[0]) {
        trim_start_spec(s.drop_first())
    } else {
        s
    }
}

pub open spec fn trim_end_spec(s: Seq<char>) -> Seq<char>
    decreases s.len(),
{
    if s.len() > 0 && is_space_char(s.last()) {
        trim_end_spec(s.drop_last())
    } else {
        s
    }
}

/// A field value with surrounding whitespace removed.
pub open spec fn trim_spec(s: Seq<char>) -> Seq<char> {
    trim_end_spec(trim_start_spec(s))
}

/// A sequence is trimmed when trimming it changes nothing.
pub open spec fn is_trimmed(s: Seq<char>) -> bool {
    trim_spec(s) == s
}

pub open spec fn upper_char(c: char) -> char {
    if 'a' <= c && c <= 'z' {
        ((c as u8) - 32) as char
    } else {
        c
    }
}

/// ASCII upper-casing, applied to layer codes before they are compared.
pub open spec fn upper_spec(s: Seq<char>) -> Seq<char> {
    s.map_values(|c: char| upper_char(c))
}

pub open spec fn starts_with_spec(s: Seq<char>, prefix: Seq<char>) -> bool {
    prefix.len() <= s.len() && s.take(prefix.len() as int) == prefix
}

proof fn lemma_trim_start_len(s: Seq<char>)
    ensures
        trim_start_spec(s).len() <= s.len(),
    decreases s.len(),
{
    if s.len() > 0 && is_space_char(s[0]) {
        lemma_trim_start_len(s.drop_first());
    }
}

proof fn lemma_trim_end_len(s: Seq<char>)
    ensures
        trim_end_spec(s).len() <= s.len(),
    decreases s.len(),
{
    if s.len() > 0 && is_space_char(s.last()) {
        lemma_trim_end_len(s.drop_last());
    }
}

/// A string whose ends hold no whitespace is already trimmed.
pub proof fn lemma_trim_of_untouched(s: Seq<char>)
    requires
        s.len() == 0 || (!is_space_char(s[0]) && !is_space_char(s.last())),
    ensures
        trim_spec(s) == s,
{
    assert(trim_start_spec(s) == s);
    assert(trim_end_spec(s) == s);
}

/// A non-empty trimmed string starts and ends with non-whitespace.
pub proof fn lemma_trimmed_ends(s: Seq<char>)
    requires
        is_trimmed(s),
        s.len() > 0,
    ensures
        !is_space_char(s[0]),
        !is_space_char(s.last()),
{
    if is_space_char(s[0]) {
        assert(trim_start_spec(s) == trim_start_spec(s.drop_first()));
        lemma_trim_start_len(s.drop_first());
        lemma_trim_end_len(trim_start_spec(s));
        assert(trim_spec(s).len() < s.len());
        assert(false);
    }
    assert(trim_start_spec(s) == s);
    if is_space_char(s.last()) {
        assert(trim_end_spec(s) == trim_end_spec(s.drop_last()));
        lemma_trim_end_len(s.drop_last());
        assert(trim_spec(s).len() < s.len());
        assert(false);
    }
}

pub fn is_space(c: char) -> (r: bool)
    ensures
        r == is_space_char(c),
{
    c == ' ' || c == '\t' || c == '\n' || c == '\u{b}' || c == '\u{c}' || c == '\r'
}

proof fn lemma_trim_start_skip(s: Seq<char>, i: int)
    requires
        0 <= i <= s.len(),
        forall|j: int| 0 <= j < i ==> is_space_char(s[j]),
    ensures
        trim_start_spec(s) == trim_start_spec(s.skip(i)),
    decreases i,
{
    if i > 0 {
        assert(s.skip(0) =~= s);
        assert(s.drop_first() =~= s.skip(1));
        assert(trim_start_spec(s) == trim_start_spec(s.skip(1)));
        assert(s.skip(1).skip(i - 1) =~= s.skip(i));
        lemma_trim_start_skip(s.skip(1), i - 1);
    } else {
        assert(s.skip(0) =~= s);
    }
}

proof fn lemma_trim_end_take(s: Seq<char>, i: int)
    requires
        0 <= i <= s.len(),
        forall|j: int| i <= j < s.len() ==> is_space_char(s[j]),
    ensures
        trim_end_spec(s) == trim_end_spec(s.take(i)),
    decreases s.len() - i,
{
    if i < s.len() {
        assert(s.take(s.len() as int) =~= s);
        assert(s.drop_last() =~= s.take(s.len() - 1));
        assert(trim_end_spec(s) == trim_end_spec(s.take(s.len() - 1)));
        lemma_trim_end_take(s.take(s.len() - 1), i);
        assert(s.take(s.len() - 1).take(i) =~= s.take(i));
    } else {
        assert(s.take(s.len() as int) =~= s);
    }
}

/// Remove leading and trailing whitespace from a character vector.
pub fn trim_chars(s: &Vec<char>) -> (r: Vec<char>)
    ensures
        r@ == trim_spec(s@),
{
    let n = s.len();
    let mut start: usize = 0;
    while start < n && is_space(s[start])
        invariant
            n == s@.len(),
            start <= n,
            forall|j: int| 0 <= j < start ==> is_space_char(s@[j]),
        decreases n - start,
    {
        start = start + 1;
    }
    proof {
        lemma_trim_start_skip(s@, start as int);
        if start < n {
            assert(s@.skip(start as int)[0] == s@[start as int]);
            assert(trim_start_spec(s@.skip(start as int)) == s@.skip(start as int));
        } else {
            assert(s@.skip(start as int) =~= Seq::<char>::empty());
            assert(trim_start_spec(s@.skip(start as int)) == s@.skip(start as int));
        }
    }
    let mut end: usize = n;
    while end > start && is_space(s[end - 1])
        invariant
            n == s@.len(),
            start <= end <= n,
            trim_start_spec(s@) == s@.skip(start as int),
            forall|j: int| end <= j < n ==> is_space_char(s@[j]),
        decreases end,
    {
        end = end - 1;
    }
    proof {
        let mid = s@.skip(start as int);
        lemma_trim_end_take(mid, end - start);
        if end > start {
            assert(mid.take(end - start).last() == s@[end - 1]);
            assert(trim_end_spec(mid.take(end - start)) == mid.take(end - start));
        } else {
            assert(mid.take(end - start) =~= Seq::<char>::empty());
            assert(trim_end_spec(mid.take(end - start)) == mid.take(end - start));
        }
    }
    let mut r: Vec<char> = Vec::new();
    let mut i: usize = start;
    while i < end
        invariant
            start <= i <= end <= n,
            n == s@.len(),
            r@ =~= s@.subrange(start as int, i as int),
        decreases end - i,
    {
        r.push(s[i]);
        i = i + 1;
    }
    proof {
        assert(s@.skip(start as int).take(end - start) =~= s@.subrange(
            start as int,
            end as int,
        ));
        assert(r@ =~= s@.subrange(start as int, end as int));
    }
    r
}

pub fn to_upper_char(c: char) -> (r: char)
    ensures
        r == upper_char(c),
{
    let u = c as u32;
    if 97 <= u && u <= 122 {
        ((c as u8) - 32) as char
    } else {
        c
    }
}

/// ASCII upper-case every character of a vector.
pub fn to_upper_chars(s: &Vec<char>) -> (r: Vec<char>)
    ensures
        r@ == upper_spec(s@),
{
    let mut r: Vec<char> = Vec::new();
    let mut i: usize = 0;
    while i < s.len()
        invariant
            i <= s@.len(),
            r@ =~= upper_spec(s@.take(i as int)),
        decreases s@.len() - i,
    {
        r.push(to_upper_char(s[i]));
        proof {
            assert(s@.take(i + 1).map_values(|c: char| upper_char(c)) =~= s@.take(
                i as int,
            ).map_values(|c: char| upper_char(c)).push(upper_char(s@[i as int])));
        }
        i = i + 1;
    }
    proof {
        assert(s@.take(s@.len() as int) =~= s@);
    }
    r
}

/// Does the character vector begin with the given prefix?
pub fn chars_start_with(s: &Vec<char>, prefix: &str) -> (r: bool)
    ensures
        r == starts_with_spec(s@, prefix@),
{
    let plen = prefix.unicode_len();
    if plen > s.len() {
        return false;
    }
    let mut i: usize = 0;
    while i < plen
        invariant
            plen == prefix@.len(),
            plen <= s@.len(),
            i <= plen,
            forall|j: int| 0 <= j < i ==> s@[j] == prefix@[j],
        decreases plen - i,
    {
        if s[i] != prefix.get_char(i) {
            assert(s@.take(plen as int)[i as int] != prefix@[i as int]);
            return false;
        }
        i = i + 1;
    }
    assert(s@.take(plen as int) =~= prefix@);
    true
}

/// Relies on `String::push` from std: it appends exactly the one given
/// character to the end of the string.
#[verifier::external_body]
fn push_char(s: &mut String, c: char)
    ensures
        final(s)@ == old(s)@.push(c),
{
    s.push(c);
}

/// Rebuild an owned string from a character vector.
pub fn chars_to_string(v: &Vec<char>) -> (r: String)
    ensures
        r@ == v@,
{
    let mut r = String::new();
    let mut i: usize = 0;
    while i < v.len()
        invariant
            i <= v@.len(),
            r@ =~= v@.take(i as int),
        decreases v@.len() - i,
    {
        push_char(&mut r, v[i]);
        i = i + 1;
    }
    proof {
        assert(v@.take(v@.len() as int) =~= v@);
    }
    r
}

/// View a string as the character vector the parsers work on.
pub fn string_to_chars(s: &str) -> (r: Vec<char>)
    ensures
        r@ == s@,
{
    let n = s.unicode_len();
    let mut r: Vec<char> = Vec::new();
    let mut i: usize = 0;
    while i < n
        invariant
            n == s@.len(),
            i <= n,
            r@ =~= s@.take(i as int),
        decreases n - i,
    {
        r.push(s.get_char(i));
        i = i + 1;
    }
    proof {
        assert(s@.take(n as int) =~= s@);
    }
    r
}

} // verus!
