//! Small trusted bridges to `std` string operations that vstd does not
//! specify, shared by the rest of the library.

use vstd::prelude::*;

verus! {

/// Relies on `String::push`: appends exactly the one character to the end.
#[verifier::external_body]
pub(crate) fn string_push(s: &mut String, c: char)
    ensures
        final(s)@ == old(s)@.push(c),
{
    s.push(c);
}

/// Relies on `str`'s `PartialEq`: two string slices are equal exactly when
/// their character sequences are.
#[verifier::external_body]
pub(crate) fn str_eq(a: &str, b: &str) -> (r: bool)
    ensures
        r == (a@ == b@),
{
    a == b
}

/// The characters that `String::from_utf8_lossy` yields for a byte sequence:
/// valid UTF-8 runs are decoded and each maximal invalid run becomes U+FFFD.
/// The result depends on the bytes alone.
pub uninterp spec fn lossy_utf8_of(bytes: Seq<u8>) -> Seq<char>;

/// Relies on `String::from_utf8_lossy`: decodes the bytes, replacing invalid
/// sequences with the replacement character; an empty input stays empty.
#[verifier::external_body]
pub(crate) fn lossy_string(bytes: &Vec<u8>) -> (r: String)
    ensures
        r@ == lossy_utf8_of(bytes@),
        bytes@.len() == 0 ==> r@.len() == 0,
{
    String::from_utf8_lossy(bytes).into_owned()
}

/// The index of the first occurrence of `c` in `s`, if any.
pub open spec fn spec_find(s: Seq<char>, c: char) -> Option<int>
    decreases s.len(),
{
    if s.len() == 0 {
        None
    } else if s[0] == c {
        Some(0)
    } else {
        match spec_find(s.drop_first(), c) {
            Some(i) => Some(i + 1),
            None => None,
        }
    }
}

/// `spec_find` names the first occurrence: the character is there and none
/// stands before it; `None` means the character does not occur at all.
pub proof fn lemma_find_is_first(s: Seq<char>, c: char)
    ensures
        match spec_find(s, c) {
            Some(i) => 0 <= i < s.len() && s[i] == c && (forall|k: int| 0 <= k < i ==> s[k] != c),
            None => forall|k: int| 0 <= k < s.len() ==> s[k] != c,
        },
    decreases s.len(),
{
    if s.len() == 0 {
    } else if s[0] == c {
    } else {
        lemma_find_is_first(s.drop_first(), c);
        assert(forall|k: int| 0 <= k < s.drop_first().len() ==> s.drop_first()[k] == s[k + 1]);
        if spec_find(s.drop_first(), c) is Some {
            let i = spec_find(s.drop_first(), c).unwrap();
            assert(s.drop_first()[i] == s[i + 1]);
            assert forall|k: int| 0 <= k < i + 1 implies s[k] != c by {
                if k >= 1 {
                    assert(s.drop_first()[k - 1] == s[k]);
                }
            }
        } else {
            assert forall|k: int| 0 <= k < s.len() implies s[k] != c by {
                if k >= 1 {
                    assert(s.drop_first()[k - 1] == s[k]);
                }
            }
        }
    }
}

/// The prefix of `s` before the first occurrence of `c`; all of `s` if `c`
/// does not occur.
pub open spec fn before_first(s: Seq<char>, c: char) -> Seq<char> {
    match spec_find(s, c) {
        Some(i) => s.take(i),
        None => s,
    }
}

/// The pieces of `s` between occurrences of `sep`, in order.
pub open spec fn split_on(s: Seq<char>, sep: char) -> Seq<Seq<char>>
    decreases s.len(),
    via split_on_decreases
{
    match spec_find(s, sep) {
        None => seq![s],
        Some(i) => seq![s.take(i)] + split_on(s.skip(i + 1), sep),
    }
}

#[via_fn]
proof fn split_on_decreases(s: Seq<char>, sep: char) {
    lemma_find_is_first(s, sep);
}

/// Optional whitespace around a header token.
pub open spec fn is_ows(c: char) -> bool {
    c == ' ' || c == '\t'
}

/// `s` without its leading whitespace.
pub open spec fn spec_trim_front(s: Seq<char>) -> Seq<char>
    decreases s.len(),
{
    if s.len() > 0 && is_ows(s[0]) {
        spec_trim_front(s.drop_first())
    } else {
        s
    }
}

/// `s` without its trailing whitespace.
pub open spec fn spec_trim_back(s: Seq<char>) -> Seq<char>
    decreases s.len(),
{
    if s.len() > 0 && is_ows(s.last()) {
        spec_trim_back(s.drop_last())
    } else {
        s
    }
}

/// `s` without leading and trailing whitespace.
pub open spec fn spec_trim(s: Seq<char>) -> Seq<char> {
    spec_trim_back(spec_trim_front(s))
}

proof fn lemma_trim_front_at(s: Seq<char>, a: int)
    requires
        0 <= a <= s.len(),
        forall|k: int| 0 <= k < a ==> is_ows(s[k]),
        a == s.len() || !is_ows(s[a]),
    ensures
        spec_trim_front(s) == s.skip(a),
    decreases a,
{
    if a == 0 {
        assert(s.skip(0) =~= s);
    } else {
        assert(is_ows(s[0]));
        lemma_trim_front_at(s.drop_first(), a - 1);
        assert(s.drop_first().skip(a - 1) =~= s.skip(a));
    }
}

proof fn lemma_trim_back_at(s: Seq<char>, b: int)
    requires
        0 <= b <= s.len(),
        forall|k: int| b <= k < s.len() ==> is_ows(s[k]),
        b == 0 || !is_ows(s[b - 1]),
    ensures
        spec_trim_back(s) == s.take(b),
    decreases s.len() - b,
{
    if b == s.len() {
        assert(s.take(b) =~= s);
    } else {
        assert(is_ows(s.last()));
        lemma_trim_back_at(s.drop_last(), b);
        assert(s.drop_last().take(b) =~= s.take(b));
    }
}

/// Find the first occurrence of `c` in `s` at or after position `from`.
pub fn find_char(s: &str, from: usize, c: char) -> (r: Option<usize>)
    requires
        from <= s@.len(),
    ensures
        match r {
            Some(j) => from <= j < s@.len() && spec_find(s@.skip(from as int), c) == Some(
                j - from,
            ),
            None => spec_find(s@.skip(from as int), c) is None,
        },
{
    let n = s.unicode_len();
    let mut i: usize = from;
    while i < n
        invariant
            from <= i <= n,
            n == s@.len(),
            forall|k: int| from <= k < i ==> s@[k] != c,
        decreases n - i,
    {
        if s.get_char(i) == c {
            proof {
                lemma_find_is_first(s@.skip(from as int), c);
                assert(forall|k: int|
                    0 <= k < s@.skip(from as int).len() ==> s@.skip(from as int)[k] == s@[k
                        + from]);
                assert(s@.skip(from as int)[i - from] == c);
            }
            return Some(i);
        }
        i = i + 1;
    }
    proof {
        lemma_find_is_first(s@.skip(from as int), c);
        assert(forall|k: int|
            0 <= k < s@.skip(from as int).len() ==> s@.skip(from as int)[k] == s@[k + from]);
    }
    None
}

fn first_non_ows(s: &str) -> (a: usize)
    ensures
        a <= s@.len(),
        forall|k: int| 0 <= k < a ==> is_ows(s@[k]),
        a == s@.len() || !is_ows(s@[a as int]),
{
    let n = s.unicode_len();
    let mut i: usize = 0;
    while i < n
        invariant
            0 <= i <= n,
            n == s@.len(),
            forall|k: int| 0 <= k < i ==> is_ows(s@[k]),
        decreases n - i,
    {
        let ch = s.get_char(i);
        if !(ch == ' ' || ch == '\t') {
            return i;
        }
        i = i + 1;
    }
    i
}

fn last_non_ows_from(s: &str, a: usize) -> (b: usize)
    requires
        a <= s@.len(),
    ensures
        a <= b <= s@.len(),
        forall|k: int| b <= k < s@.len() ==> is_ows(s@[k]),
        b == a || !is_ows(s@[b - 1]),
{
    let n = s.unicode_len();
    let mut b: usize = n;
    while b > a
        invariant
            a <= b <= n,
            n == s@.len(),
            forall|k: int| b <= k < n ==> is_ows(s@[k]),
        decreases b,
    {
        let ch = s.get_char(b - 1);
        if !(ch == ' ' || ch == '\t') {
            return b;
        }
        b = b - 1;
    }
    b
}

/// Strip optional whitespace from both ends of `s`.
pub fn trim(s: &str) -> (r: &str)
    ensures
        r@ == spec_trim(s@),
{
    let a = first_non_ows(s);
    let b = last_non_ows_from(s, a);
    proof {
        lemma_trim_front_at(s@, a as int);
        assert(forall|k: int|
            0 <= k < s@.skip(a as int).len() ==> s@.skip(a as int)[k] == s@[k + a]);
        lemma_trim_back_at(s@.skip(a as int), b - a);
        assert(s@.skip(a as int).take(b - a) =~= s@.subrange(a as int, b as int));
    }
    s.substring_char(a, b)
}

} // verus!
