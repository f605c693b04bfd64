//! Null-terminated byte strings.
use vstd::prelude::*;

verus! {

/// Index of the first null byte of `s`, or `s.len()` when it holds none.
pub open spec fn null_index(s: Seq<u8>) -> nat
    decreases s.len(),
{
    if s.len() == 0 {
        0
    } else if s[0] == 0 {
        0
    } else {
        1 + null_index(s.drop_first())
    }
}

/// The bytes of `s` before its first null byte (all of `s` when it holds none).
pub open spec fn until_null(s: Seq<u8>) -> Seq<u8> {
    s.take(null_index(s) as int)
}

/// `null_index` is the first index that holds a null byte, or the length.
pub proof fn lemma_null_index(s: Seq<u8>)
    ensures
        null_index(s) <= s.len(),
        forall|i: int| 0 <= i < null_index(s) ==> s[i] != 0,
        null_index(s) < s.len() ==> s[null_index(s) as int] == 0,
    decreases s.len(),
{
    if s.len() > 0 && s[0] != 0 {
        lemma_null_index(s.drop_first());
        assert forall|i: int| 0 <= i < null_index(s) implies s[i] != 0 by {
            if i > 0 {
                assert(s[i] == s.drop_first()[i - 1]);
            }
        }
    }
}

/// `until_null(s)` is the longest prefix of `s` without a null byte: it is a
/// prefix of `s`, it holds no null byte, and it is all of `s` or is followed
/// in `s` by a null byte. Taking it again changes nothing.
pub proof fn lemma_until_null(s: Seq<u8>)
    ensures
        until_null(s) == s.take(until_null(s).len() as int),
        !until_null(s).contains(0u8),
        until_null(s).len() == s.len() || s[until_null(s).len() as int] == 0,
        until_null(until_null(s)) == until_null(s),
{
    lemma_null_index(s);
    let u = until_null(s);
    assert(u.len() == null_index(s));
    if u.contains(0u8) {
        let i = choose|i: int| 0 <= i < u.len() && u[i] == 0u8;
        assert(s[i] == 0);
    }
    lemma_null_index(u);
    if null_index(u) < u.len() {
        assert(u[null_index(u) as int] == s[null_index(u) as int]);
    }
    assert(until_null(u) =~= u);
}

/// The part of `input` before its first null byte; all of `input` when it
/// holds no null byte.
pub fn take_until_null(input: &[u8]) -> (r: &[u8])
    ensures
        r@ == until_null(input@),
{
    let mut i: usize = 0;
    while i < input.len() && input[i] != 0
        invariant
            i <= input.len(),
            forall|j: int| 0 <= j < i ==> input@[j] != 0,
        decreases input.len() - i,
    {
        i = i + 1;
    }
    proof {
        lemma_null_index(input@);
        // the first null byte (or the end) is exactly at `i`
        if null_index(input@) < i {
            assert(input@[null_index(input@) as int] != 0);
        }
        if i < null_index(input@) {
            assert(input@[i as int] == 0);
        }
    }
    let (head, _rest) = input.split_at(i);
    head
}

#[verifier::external_type_specification]
#[verifier::external_body]
pub struct ExQuoteError(shlex::QuoteError);

/// A byte that `shlex` leaves unquoted: `+ - . / : @ ] _`, a digit or an
/// ASCII letter.
pub open spec fn shell_safe(b: u8) -> bool {
    b == 43 || b == 45 || b == 46 || b == 47 || b == 58 || b == 64 || b == 93 || b == 95 || (48
        <= b <= 57) || (65 <= b <= 90) || (97 <= b <= 122)
}

/// What `shlex::bytes::Quoter::new().quote` gives for bytes it accepts.
pub uninterp spec fn shell_quoted(s: Seq<u8>) -> Seq<u8>;

/// `shlex::bytes::Quoter::new().quote(input)`, made owned.
///
/// Claims of `Quoter::quote` with the default settings: the empty input gives
/// `''`; an input that holds a null byte gives an error; any other input gives
/// its quoting, a value of `input` alone, which is `input` itself where every
/// byte is one that needs no quoting. What the quoting is otherwise, is not
/// stated.
#[verifier::external_body]
fn quote_bytes(input: &[u8]) -> (r: Result<Vec<u8>, shlex::QuoteError>)
    ensures
        r.is_ok() == (input@.len() == 0 || !input@.contains(0u8)),
        r matches Ok(q) ==> q@ == shell_quoted(input@),
        r matches Ok(q) ==> (input@.len() == 0 ==> q@ == seq![39u8, 39u8]),
        r matches Ok(q) ==> ((input@.len() > 0 && forall|i: int|
            0 <= i < input@.len() ==> shell_safe(#[trigger] input@[i])) ==> q@ == input@),
{
    match shlex::bytes::Quoter::new().quote(input) {
        Ok(q) => Ok(q.into_owned()),
        Err(e) => Err(e),
    }
}

/// A string without null bytes is its own part before the first null.
pub proof fn lemma_until_null_of_null_free(s: Seq<u8>)
    requires
        !s.contains(0u8),
    ensures
        until_null(s) == s,
{
    lemma_null_index(s);
    if null_index(s) < s.len() {
        assert(s[null_index(s) as int] == 0u8);
    }
    assert(until_null(s) =~= s);
}

/// `input`, which holds no null byte, quoted for a POSIX shell by `shlex`
/// (`''` where it is empty).
pub fn shell_quote(input: &[u8]) -> (r: Vec<u8>)
    requires
        !input@.contains(0u8),
    ensures
        r@ == shell_quoted(input@),
        input@.len() == 0 ==> r@ == seq![39u8, 39u8],
        input@.len() > 0 && (forall|i: int| 0 <= i < input@.len() ==> shell_safe(#[trigger] input@[i]))
            ==> r@ == input@,
{
    match quote_bytes(input) {
        Ok(q) => q,
        Err(_) => {
            proof {
                assert(false);
            }
            Vec::new()
        },
    }
}

/// The part of `input` before its first null byte, quoted for a POSIX shell
/// by `shlex` (`''` where that part is empty).
pub fn escaped_null_bytestring(input: &[u8]) -> (r: Vec<u8>)
    ensures
        r@ == shell_quoted(until_null(input@)),
        until_null(input@).len() == 0 ==> r@ == seq![39u8, 39u8],
{
    let head = take_until_null(input);
    proof {
        lemma_until_null(input@);
    }
    shell_quote(head)
}

} // verus!
