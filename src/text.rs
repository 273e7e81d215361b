//! UTF-8 facts and the two std decoders the library relies on.
use vstd::prelude::*;
use vstd::string::StringSliceAdditionalSpecFns;
use vstd::utf8::*;

verus! {

/// Relies on `std::str::from_utf8`: it succeeds exactly on valid UTF-8 and
/// then borrows the same bytes as a `str`.
#[verifier::external_body]
pub(crate) fn utf8_str(b: &[u8]) -> (r: Option<&str>)
    ensures
        valid_utf8(b@) <==> r.is_some(),
        r matches Some(s) ==> s.spec_bytes() == b@,
{
    std::str::from_utf8(b).ok()
}

/// Relies on `String::from_utf8`: it succeeds exactly on valid UTF-8 and then
/// holds the text those bytes encode.
#[verifier::external_body]
pub(crate) fn string_from_utf8(b: Vec<u8>) -> (r: Option<String>)
    ensures
        valid_utf8(b@) <==> r.is_some(),
        r matches Some(s) ==> encode_utf8(s@) == b@,
{
    String::from_utf8(b).ok()
}

/// The texts of `ts`, one after another.
pub open spec fn joined(ts: Seq<Seq<char>>) -> Seq<char>
    decreases ts.len(),
{
    if ts.len() == 0 {
        Seq::empty()
    } else {
        joined(ts.drop_last()) + ts.last()
    }
}

/// The UTF-8 encodings of the texts of `ts`, one after another.
pub open spec fn joined_utf8(ts: Seq<Seq<char>>) -> Seq<u8>
    decreases ts.len(),
{
    if ts.len() == 0 {
        Seq::empty()
    } else {
        joined_utf8(ts.drop_last()) + encode_utf8(ts.last())
    }
}

/// UTF-8 encodes a concatenation piece by piece.
pub proof fn lemma_encode_utf8_concat(a: Seq<char>, b: Seq<char>)
    ensures
        encode_utf8(a + b) == encode_utf8(a) + encode_utf8(b),
    decreases a.len(),
{
    if a.len() == 0 {
        assert(a + b =~= b);
        assert(encode_utf8(a) + encode_utf8(b) =~= encode_utf8(b));
    } else {
        lemma_encode_utf8_concat(a.drop_first(), b);
        assert((a + b).drop_first() =~= a.drop_first() + b);
        assert((a + b)[0] == a[0]);
        assert(encode_utf8(a + b) =~= encode_scalar(a[0] as u32) + (encode_utf8(a.drop_first())
            + encode_utf8(b)));
    }
}

/// Encoding the texts one by one and joining the bytes gives the encoding of
/// the joined text.
pub proof fn lemma_joined_utf8(ts: Seq<Seq<char>>)
    ensures
        joined_utf8(ts) == encode_utf8(joined(ts)),
    decreases ts.len(),
{
    if ts.len() > 0 {
        lemma_joined_utf8(ts.drop_last());
        lemma_encode_utf8_concat(joined(ts.drop_last()), ts.last());
    }
}

/// Pushing one more text appends it, and its encoding, to the joins.
pub proof fn lemma_joined_utf8_push(ts: Seq<Seq<char>>, t: Seq<char>)
    ensures
        joined_utf8(ts.push(t)) == joined_utf8(ts) + encode_utf8(t),
        joined(ts.push(t)) == joined(ts) + t,
{
    assert(ts.push(t).drop_last() =~= ts);
}

/// The encoded join of a prefix is no longer than that of the whole.
pub proof fn lemma_joined_utf8_prefix(ts: Seq<Seq<char>>, i: int)
    requires
        0 <= i <= ts.len(),
    ensures
        joined_utf8(ts.take(i)).len() <= joined_utf8(ts).len(),
    decreases ts.len(),
{
    if i < ts.len() {
        lemma_joined_utf8_prefix(ts.drop_last(), i);
        assert(ts.drop_last().take(i) =~= ts.take(i));
    } else {
        assert(ts.take(i) =~= ts);
    }
}

} // verus!
