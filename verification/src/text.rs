//! Names and paths: characters, their UTF-8 bytes, and the segments of a path.

use vstd::prelude::*;
use vstd::utf8::{decode_utf8, valid_utf8};

verus! {

/// The separator between the segments of a path.
pub const SEPARATOR: char = '/';

/// Where the first segment of `path` ends: at its first separator, or at its end.
pub open spec fn segment_end(path: Seq<char>) -> int
    decreases path.len(),
{
    if path.len() == 0 || path[0] == SEPARATOR {
        0
    } else {
        1 + segment_end(path.drop_first())
    }
}

pub proof fn lemma_segment_end_bounds(path: Seq<char>)
    ensures
        0 <= segment_end(path) <= path.len(),
        forall|i: int| 0 <= i < segment_end(path) ==> path[i] != SEPARATOR,
        segment_end(path) < path.len() ==> path[segment_end(path)] == SEPARATOR,
    decreases path.len(),
{
    if path.len() > 0 && path[0] != SEPARATOR {
        let rest = path.drop_first();
        lemma_segment_end_bounds(rest);
        assert forall|i: int| 0 <= i < segment_end(path) implies path[i] != SEPARATOR by {
            if i > 0 {
                assert(path[i] == rest[i - 1]);
            }
        }
    }
}

/// `segment_end` is the only place that has no separator before it and either a
/// separator or the end of the path at it.
pub(crate) proof fn lemma_segment_end_unique(path: Seq<char>, k: int)
    requires
        0 <= k <= path.len(),
        forall|i: int| 0 <= i < k ==> path[i] != SEPARATOR,
        k < path.len() ==> path[k] == SEPARATOR,
    ensures
        segment_end(path) == k,
{
    lemma_segment_end_bounds(path);
}

/// The characters of `s`.
pub(crate) fn chars_of(s: &str) -> (chars: Vec<char>)
    ensures
        chars@ == s@,
{
    let mut chars: Vec<char> = Vec::new();
    for c in it: s.chars()
        invariant
            chars@ == it.seq().take(it.index()),
            it.seq() == s@,
    {
        chars.push(c);
        assert(it.seq().take(it.index() + 1) =~= it.seq().take(it.index()).push(c));
    }
    assert(s@.take(s@.len() as int) =~= s@);
    chars
}

/// Whether `name` is made of the characters `chars[from..to]`.
pub(crate) fn is_segment(name: &str, chars: &[char], from: usize, to: usize) -> (same: bool)
    requires
        from <= to <= chars@.len(),
    ensures
        same == (name@ == chars@.subrange(from as int, to as int)),
{
    let own = chars_of(name);
    if own.len() != to - from {
        return false;
    }
    let mut i: usize = 0;
    while i < own.len()
        invariant
            own@ == name@,
            own@.len() == to - from,
            from <= to <= chars@.len(),
            i <= own@.len(),
            forall|j: int| 0 <= j < i ==> own@[j] == chars@[from + j],
        decreases own@.len() - i,
    {
        if own[i] != chars[from + i] {
            assert(chars@.subrange(from as int, to as int)[i as int] == chars@[from + i]);
            return false;
        }
        i += 1;
    }
    assert(name@ =~= chars@.subrange(from as int, to as int));
    true
}

/// Where the segment that starts at `from` ends.
pub(crate) fn find_segment_end(path: &[char], from: usize) -> (end: usize)
    requires
        from <= path@.len(),
    ensures
        from <= end <= path@.len(),
        end - from == segment_end(path@.skip(from as int)),
{
    let mut end: usize = from;
    while end < path.len() && path[end] != SEPARATOR
        invariant
            from <= end <= path@.len(),
            forall|i: int| from <= i < end ==> path@[i] != SEPARATOR,
        decreases path@.len() - end,
    {
        end += 1;
    }
    proof {
        lemma_segment_end_unique(path@.skip(from as int), end - from);
    }
    end
}

/// `String::from` on a string slice gives a string of the same characters.
pub assume_specification<'a, 'b>[ <String as From<&'a str>>::from ](s: &'b str) -> (r: String)
    ensures
        r@ == s@,
;

/// The conversion of a type into itself, `U::from` on a `U`, returns its argument
/// unchanged.
pub assume_specification<U>[ <U as From<U>>::from ](t: U) -> (r: U)
    ensures
        r == t,
;

/// The string whose UTF-8 encoding is `bytes`, or the bytes back where they are
/// not UTF-8.
///
/// Calls `String::from_utf8`. It succeeds on exactly the valid encodings, gives
/// the characters they encode, and otherwise hands the bytes back in its error.
#[verifier::external_body]
pub(crate) fn string_from_utf8(bytes: Vec<u8>) -> (r: Result<String, Vec<u8>>)
    ensures
        match r {
            Ok(s) => valid_utf8(bytes@) && s@ == decode_utf8(bytes@),
            Err(b) => !valid_utf8(bytes@) && b@ == bytes@,
        },
{
    String::from_utf8(bytes).map_err(|e| e.into_bytes())
}

/// The text of the error of `String::from_utf8` on these bytes.
pub uninterp spec fn utf8_error_text(bytes: Seq<u8>) -> Seq<char>;

/// The text that says what is wrong with bytes that are not UTF-8.
///
/// Calls `to_string` on the `FromUtf8Error` that `String::from_utf8` gives for the
/// bytes. The text depends on the bytes alone; what it says is left unsaid. There is
/// no such error for bytes that are UTF-8.
#[verifier::external_body]
pub(crate) fn describe_utf8_error(bytes: &Vec<u8>) -> (text: String)
    requires
        !valid_utf8(bytes@),
    ensures
        text@ == utf8_error_text(bytes@),
{
    String::from_utf8(bytes.clone()).unwrap_err().to_string()
}

} // verus!
