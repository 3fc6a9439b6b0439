//! Framing of the game's encoded texts: trailing zero bytes are cut from
//! embedded names and every text is padded with zeros to a multiple of
//! four bytes.

use vstd::prelude::*;

verus! {

/// Length of `s` without its trailing zero bytes.
pub open spec fn content_len(s: Seq<u8>) -> int
    decreases s.len(),
{
    if s.len() == 0 {
        0
    } else if s.last() != 0 {
        s.len() as int
    } else {
        content_len(s.drop_last())
    }
}

/// How many zero bytes end a text of `len` bytes: from one to four, so
/// that the length becomes a multiple of four.
pub open spec fn pad_len(len: int) -> int {
    (len / 4 + 1) * 4 - len
}

/// The text followed by its padding.
pub open spec fn padded(s: Seq<u8>) -> Seq<u8> {
    s + Seq::new(pad_len(s.len() as int) as nat, |i: int| 0u8)
}

/// The prefix, the name without its trailing zeros and the suffix,
/// padded.
pub open spec fn framed(prefix: Seq<u8>, name: Seq<u8>, suffix: Seq<u8>) -> Seq<u8> {
    padded(prefix + name.take(content_len(name)) + suffix)
}

/// `content_len` lies within the sequence, and what it cuts off is zero.
pub proof fn lemma_content_len(s: Seq<u8>)
    ensures
        0 <= content_len(s) <= s.len(),
        forall|i: int| content_len(s) <= i < s.len() ==> s[i] == 0,
        content_len(s) > 0 ==> s[content_len(s) - 1] != 0,
    decreases s.len(),
{
    if s.len() > 0 && s.last() == 0 {
        lemma_content_len(s.drop_last());
        assert forall|i: int| content_len(s) <= i < s.len() implies s[i] == 0 by {
            if i < s.len() - 1 {
                assert(s.drop_last()[i] == s[i]);
            }
        }
    }
}

/// A framed text is the prefix, the name without its trailing zeros and
/// the suffix, followed by one to four zero bytes that make its length a
/// multiple of four.
pub proof fn lemma_framed_shape(prefix: Seq<u8>, name: Seq<u8>, suffix: Seq<u8>)
    ensures
        ({
            let body = prefix + name.take(content_len(name)) + suffix;
            let f = framed(prefix, name, suffix);
            &&& f.subrange(0, body.len() as int) == body
            &&& 1 <= f.len() - body.len() <= 4
            &&& forall|i: int| body.len() <= i < f.len() ==> f[i] == 0
            &&& f.len() % 4 == 0
        }),
{
    lemma_content_len(name);
    let body = prefix + name.take(content_len(name)) + suffix;
    let f = framed(prefix, name, suffix);
    let n = body.len() as int;
    assert(f.subrange(0, n) =~= body);
    assert(pad_len(n) == (n / 4 + 1) * 4 - n);
    assert(1 <= (n / 4 + 1) * 4 - n <= 4) by (nonlinear_arith)
        requires n >= 0;
    assert(((n / 4 + 1) * 4) % 4 == 0) by (nonlinear_arith);
}

/// Length of `s` without its trailing zero bytes.
pub fn content_length(s: &[u8]) -> (n: usize)
    ensures
        n == content_len(s@),
{
    let mut n: usize = s.len();
    assert(s@.take(n as int) =~= s@);
    while n > 0 && s[n - 1] == 0
        invariant
            n <= s.len(),
            content_len(s@) == content_len(s@.take(n as int)),
        decreases n,
    {
        assert(s@.take(n as int).drop_last() =~= s@.take(n - 1));
        n -= 1;
    }
    proof {
        if n > 0 {
            assert(s@.take(n as int).last() == s@[n - 1]);
        }
    }
    n
}

/// Appends the padding: one to four zero bytes, up to the next multiple
/// of four.
pub fn pad(v: Vec<u8>) -> (r: Vec<u8>)
    requires
        v.len() + 4 <= usize::MAX,
    ensures
        r@ == padded(v@),
        r.len() % 4 == 0,
{
    let mut v = v;
    let ghost start = v@;
    let pad_length = (v.len() / 4 + 1) * 4 - v.len();
    let mut k: usize = 0;
    while k < pad_length
        invariant
            k <= pad_length,
            pad_length == pad_len(start.len() as int),
            v@ == start + Seq::new(k as nat, |i: int| 0u8),
        decreases pad_length - k,
    {
        v.push(0);
        k += 1;
        assert(v@ =~= start + Seq::new(k as nat, |i: int| 0u8));
    }
    proof {
        assert(v.len() == (start.len() / 4 + 1) * 4);
        assert(((start.len() / 4 + 1) * 4) % 4 == 0) by (nonlinear_arith);
    }
    v
}

/// The encoded prefix, the name without its trailing zero bytes and the
/// encoded suffix, padded to a multiple of four bytes.
pub fn frame_with_name(prefix: &[u8], name: &[u8], suffix: &[u8]) -> (r: Vec<u8>)
    requires
        prefix.len() + name.len() + suffix.len() + 4 <= usize::MAX,
    ensures
        r@ == framed(prefix@, name@, suffix@),
        r.len() % 4 == 0,
{
    let n = content_length(name);
    proof {
        lemma_content_len(name@);
    }
    let mut result: Vec<u8> = Vec::new();
    let mut i: usize = 0;
    while i < prefix.len()
        invariant
            i <= prefix.len(),
            result@ == prefix@.take(i as int),
        decreases prefix.len() - i,
    {
        result.push(prefix[i]);
        i += 1;
        assert(result@ =~= prefix@.take(i as int));
    }
    assert(prefix@.take(i as int) =~= prefix@);
    let mut j: usize = 0;
    while j < n
        invariant
            j <= n <= name.len(),
            result@ == prefix@ + name@.take(j as int),
        decreases n - j,
    {
        result.push(name[j]);
        j += 1;
        assert(result@ =~= prefix@ + name@.take(j as int));
    }
    let mut k: usize = 0;
    while k < suffix.len()
        invariant
            k <= suffix.len(),
            result@ == prefix@ + name@.take(n as int) + suffix@.take(k as int),
            n <= name.len(),
        decreases suffix.len() - k,
    {
        result.push(suffix[k]);
        k += 1;
        assert(result@ =~= prefix@ + name@.take(n as int) + suffix@.take(k as int));
    }
    assert(suffix@.take(k as int) =~= suffix@);
    pad(result)
}

} // verus!
