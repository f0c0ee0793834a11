//! Small string utilities shared by the components.

use vstd::prelude::*;
use vstd::utf8::encode_utf8_decode_utf8;

verus! {

/// Trusted, of the standard library's `String::push`: it appends the given
/// character to the end of the string and changes nothing else.
pub assume_specification[ String::push ](s: &mut String, c: char)
    ensures
        final(s)@ == old(s)@.push(c),
;

/// Whether two strings hold the same characters.
///
/// Compares the UTF-8 encodings byte by byte; the encoding is injective,
/// so equal bytes mean equal character sequences.
pub fn same_text(a: &str, b: &str) -> (r: bool)
    ensures
        r == (a@ == b@),
{
    let x = a.as_bytes();
    let y = b.as_bytes();
    proof {
        encode_utf8_decode_utf8(a@);
        encode_utf8_decode_utf8(b@);
    }
    if x.len() != y.len() {
        return false;
    }
    let mut i: usize = 0;
    while i < x.len()
        invariant
            i <= x.len(),
            x.len() == y.len(),
            x@ == vstd::utf8::encode_utf8(a@),
            y@ == vstd::utf8::encode_utf8(b@),
            a@ == vstd::utf8::decode_utf8(vstd::utf8::encode_utf8(a@)),
            b@ == vstd::utf8::decode_utf8(vstd::utf8::encode_utf8(b@)),
            forall|j: int| 0 <= j < i ==> x@[j] == y@[j],
        decreases x.len() - i,
    {
        if x[i] != y[i] {
            return false;
        }
        i += 1;
    }
    assert(x@ =~= y@);
    true
}

/// The part of `s` that follows the last occurrence of `c`; all of `s` when
/// `c` does not occur.
pub open spec fn tail_after_last(s: Seq<char>, c: char) -> Seq<char>
    decreases s.len(),
{
    if s.len() == 0 {
        s
    } else if s.last() == c {
        Seq::empty()
    } else {
        tail_after_last(s.drop_last(), c).push(s.last())
    }
}

/// `tail_after_last(s, c)` is the one suffix of `s` that holds no `c` and is
/// either all of `s` or preceded in `s` by a `c`.
pub proof fn lemma_tail_after_last(s: Seq<char>, c: char)
    ensures
        !tail_after_last(s, c).contains(c),
        tail_after_last(s, c).len() <= s.len(),
        tail_after_last(s, c) == s.skip(s.len() - tail_after_last(s, c).len()),
        tail_after_last(s, c).len() < s.len() ==> s[s.len() - tail_after_last(s, c).len() - 1]
            == c,
    decreases s.len(),
{
    let t = tail_after_last(s, c);
    if s.len() == 0 {
        assert(t =~= s.skip(0));
    } else if s.last() == c {
        assert(t =~= s.skip(s.len() as int));
    } else {
        let p = s.drop_last();
        let u = tail_after_last(p, c);
        lemma_tail_after_last(p, c);
        assert(t == u.push(s.last()));
        assert forall|i: int| 0 <= i < t.len() implies t[i] != c by {
            if i < u.len() {
                assert(u.contains(u[i]));
            }
        }
        assert(t =~= s.skip(s.len() - t.len()));
    }
}

/// Copies the part of `s` after its last `c`.
pub fn after_last(s: &str, c: char) -> (r: String)
    ensures
        r@ == tail_after_last(s@, c),
{
    let mut out = String::new();
    for x in it: s.chars()
        invariant
            it.seq() == s@,
            out@ == tail_after_last(s@.take(it.index() as int), c),
    {
        proof {
            let k = it.index() as int;
            assert(s@.take(k + 1).drop_last() =~= s@.take(k));
            assert(s@.take(k + 1).last() == x);
        }
        if x == c {
            out = String::new();
        } else {
            out.push(x);
        }
    }
    assert(s@.take(s@.len() as int) =~= s@);
    out
}

/// The decimal digit for `d`.
pub open spec fn digit(d: nat) -> char
    recommends
        d < 10,
{
    (48 + d) as char
}

/// The decimal numeral for `n`, without sign or leading zeros.
pub open spec fn decimal(n: nat) -> Seq<char>
    decreases n,
{
    if n < 10 {
        seq![digit(n)]
    } else {
        decimal(n / 10).push(digit(n % 10))
    }
}

/// Appends the decimal numeral for `n` to `out`.
pub fn push_decimal(out: &mut String, n: u64)
    ensures
        final(out)@ == old(out)@ + decimal(n as nat),
    decreases n,
{
    if n >= 10 {
        push_decimal(out, n / 10);
    }
    let d: u8 = (n % 10) as u8;
    out.push((48u8 + d) as char);
    assert(out@ =~= old(out)@ + decimal(n as nat));
}

} // verus!
