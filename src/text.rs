//! Moving between `str`, `String` and the characters that the parser reads.
use vstd::prelude::*;
use vstd::std_specs::iter::IteratorSpec;
use vstd::string::StringSliceAdditionalSpecFns;
use vstd::utf8::{
    decode_utf8, encode_scalar, encode_utf8, length_of_first_scalar, pop_first_scalar, valid_utf8,
};

verus! {

broadcast use vstd::string::group_string_axioms;

/// The characters of `s`, in order.
pub fn chars_of(s: &str) -> (v: Vec<char>)
    ensures
        v@ == s@,
{
    let mut it = s.chars();
    let mut v: Vec<char> = Vec::new();
    loop
        invariant
            it.remaining() == s@.skip(v@.len() as int),
            v@ == s@.take(v@.len() as int),
            v@.len() <= s@.len(),
        decreases s@.len() - v@.len(),
    {
        match it.next() {
            Some(c) => {
                proof {
                    assert(s@.skip(v@.len() as int).drop_first() =~= s@.skip(v@.len() + 1int));
                }
                v.push(c);
                proof {
                    assert(v@ =~= s@.take(v@.len() as int));
                }
            },
            None => {
                proof {
                    assert(v@ =~= s@);
                }
                return v;
            },
        }
    }
}

/// Relies on `String::push`: the character is appended to the string.
#[verifier::external_body]
pub(crate) fn push_char(s: &mut String, c: char)
    ensures
        final(s)@ == old(s)@.push(c),
{
    s.push(c)
}

/// Appends the characters `v[from..to]` to `out`.
pub fn push_chars(out: &mut String, v: &Vec<char>, from: usize, to: usize)
    requires
        from <= to <= v@.len(),
    ensures
        final(out)@ == old(out)@ + v@.subrange(from as int, to as int),
{
    let mut i = from;
    while i < to
        invariant
            from <= i <= to <= v@.len(),
            out@ == old(out)@ + v@.subrange(from as int, i as int),
        decreases to - i,
    {
        push_char(out, v[i]);
        proof {
            assert(v@.subrange(from as int, i + 1) =~= v@.subrange(from as int, i as int).push(
                v@[i as int],
            ));
        }
        i += 1;
    }
}

/// The length of the longest prefix of `b` that is valid UTF-8.
pub open spec fn valid_utf8_len(b: Seq<u8>) -> nat
    decreases b.len(),
{
    if b.len() == 0 || valid_utf8(b) {
        b.len()
    } else {
        valid_utf8_len(b.drop_last())
    }
}

/// The characters of the longest prefix of `b` that is valid UTF-8.
pub open spec fn valid_utf8_text(b: Seq<u8>) -> Seq<char> {
    decode_utf8(b.take(valid_utf8_len(b) as int))
}

/// Relies on `core::str::from_utf8`: it succeeds exactly where the bytes are valid UTF-8, with a
/// string of those very bytes; where it fails, `Utf8Error::valid_up_to` gives the largest index
/// up to which the bytes are valid UTF-8.
#[verifier::external_body]
pub(crate) fn str_from_utf8(b: &[u8]) -> (r: Result<&str, usize>)
    ensures
        match r {
            Ok(s) => valid_utf8(b@) && s.spec_bytes() == b@,
            Err(n) => !valid_utf8(b@) && n == valid_utf8_len(b@),
        },
{
    match core::str::from_utf8(b) {
        Ok(s) => Ok(s),
        Err(e) => Err(e.valid_up_to()),
    }
}

pub proof fn lemma_valid_utf8_len(b: Seq<u8>)
    ensures
        valid_utf8_len(b) <= b.len(),
        valid_utf8(b.take(valid_utf8_len(b) as int)),
        valid_utf8(b) ==> valid_utf8_len(b) == b.len(),
    decreases b.len(),
{
    if b.len() == 0 || valid_utf8(b) {
        assert(b.take(b.len() as int) =~= b);
    } else {
        lemma_valid_utf8_len(b.drop_last());
        assert(b.drop_last().take(valid_utf8_len(b) as int) =~= b.take(valid_utf8_len(b) as int));
    }
}

pub proof fn lemma_encode_utf8_concat(a: Seq<char>, b: Seq<char>)
    ensures
        encode_utf8(a + b) == encode_utf8(a) + encode_utf8(b),
    decreases a.len(),
{
    if a.len() == 0 {
        assert(a + b =~= b);
        assert(encode_utf8(a) + encode_utf8(b) =~= encode_utf8(b));
    } else {
        assert((a + b).drop_first() =~= a.drop_first() + b);
        lemma_encode_utf8_concat(a.drop_first(), b);
        assert(encode_utf8(a + b) =~= encode_utf8(a) + encode_utf8(b));
    }
}

/// The longest prefix of `b` that is valid UTF-8, as a string; `n` is its length.
fn valid_prefix_str(b: &[u8], n: usize) -> (s: &str)
    requires
        n == valid_utf8_len(b@),
    ensures
        s.spec_bytes() == b@.take(n as int),
        s@ == valid_utf8_text(b@),
{
    proof {
        lemma_valid_utf8_len(b@);
    }
    let prefix = &b[0..n];
    assert(prefix@ =~= b@.take(n as int));
    match str_from_utf8(prefix) {
        Ok(s) => {
            proof {
                vstd::utf8::encode_utf8_decode_utf8(s@);
            }
            s
        },
        Err(_) => {
            proof {
                assert(false);
            }
            ""
        },
    }
}

/// A prefix of the encoding of `s` that is valid UTF-8 is the encoding of a prefix of `s`.
pub proof fn lemma_valid_prefix_of_encoding(s: Seq<char>, w: Seq<u8>) -> (j: nat)
    requires
        valid_utf8(w),
        w.len() <= encode_utf8(s).len(),
        w == encode_utf8(s).take(w.len() as int),
    ensures
        j <= s.len(),
        w == encode_utf8(s.take(j as int)),
    decreases s.len(),
{
    if w.len() == 0 {
        assert(s.take(0) =~= Seq::<char>::empty());
        assert(w =~= Seq::<u8>::empty());
        0
    } else {
        let e = encode_utf8(s);
        vstd::utf8::encode_utf8_first_scalar(s);
        let first = encode_scalar(s[0] as u32);
        let l = first.len() as int;
        assert(w[0] == e[0]);
        assert(length_of_first_scalar(w) == length_of_first_scalar(e));
        let rest = pop_first_scalar(w);
        assert(rest =~= w.skip(l));
        assert(e =~= first + encode_utf8(s.drop_first()));
        assert(rest =~= encode_utf8(s.drop_first()).take(rest.len() as int));
        let j0 = lemma_valid_prefix_of_encoding(s.drop_first(), rest);
        assert(s.take(j0 + 1int).drop_first() =~= s.drop_first().take(j0 as int));
        assert(w.take(l) =~= first);
        assert(w =~= first + rest);
        j0 + 1
    }
}

/// Where the pending bytes are a prefix of the encoding of `s`, the text handed to the grammar is
/// a prefix of `s`: `j` characters of it, whose encoding is that many bytes of the prefix.
pub proof fn lemma_valid_text_of_encoding_prefix(s: Seq<char>, p: Seq<u8>) -> (j: nat)
    requires
        p.len() <= encode_utf8(s).len(),
        p == encode_utf8(s).take(p.len() as int),
    ensures
        j <= s.len(),
        valid_utf8_text(p) == s.take(j as int),
        encode_utf8(s.take(j as int)) == p.take(valid_utf8_len(p) as int),
{
    lemma_valid_utf8_len(p);
    let v = p.take(valid_utf8_len(p) as int);
    assert(v =~= encode_utf8(s).take(v.len() as int));
    let j = lemma_valid_prefix_of_encoding(s, v);
    vstd::utf8::encode_utf8_decode_utf8(s.take(j as int));
    j
}

/// The longest prefix of `b` that is valid UTF-8, as a string; with it `None` where that prefix
/// is all of `b`, else `Some` of its length.
pub fn longest_valid_prefix(b: &[u8]) -> (r: (&str, Option<usize>))
    ensures
        r.0.spec_bytes() == b@.take(valid_utf8_len(b@) as int),
        r.0@ == valid_utf8_text(b@),
        match r.1 {
            None => valid_utf8(b@),
            Some(n) => !valid_utf8(b@) && n == valid_utf8_len(b@),
        },
{
    proof {
        lemma_valid_utf8_len(b@);
    }
    match str_from_utf8(b) {
        Ok(s) => {
            proof {
                vstd::utf8::encode_utf8_decode_utf8(s@);
                assert(b@.take(b@.len() as int) =~= b@);
            }
            (s, None)
        },
        Err(n) => (valid_prefix_str(b, n), Some(n)),
    }
}

} // verus!
