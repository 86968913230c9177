//! Hiding a payload in a carrier text, and recovering it.
use vstd::prelude::*;
use crate::codec::{
    byte_of, byte_to_variation_selector, is_selector, lemma_byte_round_trip, selector_value,
    variant_selector_to_byte,
};

verus! {

/// Why a payload could not be hidden.
#[derive(Debug, Clone, Copy, PartialEq, Eq, Structural)]
pub enum EncodeError {
    /// The carrier has no char to hide the payload behind.
    EmptyCarrier,
}

/// How many payload bytes each carrier char takes: `m / n`, but at least one.
pub open spec fn chunk_size(n: nat, m: nat) -> nat {
    if m / n >= 1 {
        m / n
    } else {
        1
    }
}

/// Where the chunk of carrier char `i` starts in the payload.
pub open spec fn chunk_start(n: nat, m: nat, i: nat) -> nat {
    let s = i * chunk_size(n, m);
    if s <= m {
        s
    } else {
        m
    }
}

/// Where the chunk of carrier char `i` ends in the payload: the last carrier
/// char takes every byte that is left.
pub open spec fn chunk_end(n: nat, m: nat, i: nat) -> nat {
    if i + 1 == n {
        m
    } else {
        chunk_start(n, m, i + 1)
    }
}

/// The selectors that carry the bytes of `p`, in order.
pub open spec fn selectors(p: Seq<u8>) -> Seq<char> {
    p.map_values(|b: u8| selector_value(b) as char)
}

/// The first `i` carrier chars of `c`, each followed by the selectors of its
/// chunk of `p`.
pub open spec fn interleaved(c: Seq<char>, p: Seq<u8>, i: nat) -> Seq<char>
    decreases i,
{
    if i == 0 {
        Seq::empty()
    } else {
        let j = (i - 1) as nat;
        let (n, m) = (c.len(), p.len());
        interleaved(c, p, j) + seq![c[j as int]] + selectors(
            p.subrange(chunk_start(n, m, j) as int, chunk_end(n, m, j) as int),
        )
    }
}

/// The text that hides `p` in `c`.
pub open spec fn encoded(c: Seq<char>, p: Seq<u8>) -> Seq<char> {
    interleaved(c, p, c.len())
}

/// Relies on String::push: the char is appended at the end.
#[verifier::external_body]
fn push_char(s: &mut String, c: char)
    ensures
        final(s)@ == old(s)@.push(c),
{
    s.push(c);
}

/// Hides `hide` in `base`: after each char of `base` come the selectors of
/// its chunk of `hide`, the last char taking what is left.
pub fn encode(base: &str, hide: &[u8]) -> (r: Result<String, EncodeError>)
    ensures
        r is Err <==> base@.len() == 0,
        r matches Err(e) ==> e == EncodeError::EmptyCarrier,
        r matches Ok(out) ==> out@ == encoded(base@, hide@),
{
    let n: usize = base.unicode_len();
    if n == 0 {
        return Err(EncodeError::EmptyCarrier);
    }
    let m: usize = hide.len();
    let mut k: usize = m / n;
    if k < 1 {
        k = 1;
    }
    assert(k == chunk_size(n as nat, m as nat));
    let ghost c = base@;
    let ghost p = hide@;
    let mut out = String::new();
    let mut i: usize = 0;
    let mut pos: usize = 0;
    assert(0 * chunk_size(n as nat, m as nat) == 0) by (nonlinear_arith);
    for ch in it: base.chars()
        invariant
            it.seq() == c,
            c.len() == n,
            p.len() == m,
            k == chunk_size(n as nat, m as nat),
            i == it.index(),
            i < n ==> pos == chunk_start(n as nat, m as nat, i as nat),
            p == hide@,
            out@ == interleaved(c, p, i as nat),
    {
        proof {
            let ks = chunk_size(n as nat, m as nat);
            assert((i + 1) * ks == i * ks + ks) by (nonlinear_arith);
        }
        let ghost before = out@;
        push_char(&mut out, ch);
        let end: usize = if i + 1 == n || m - pos <= k {
            m
        } else {
            pos + k
        };
        assert(end == chunk_end(n as nat, m as nat, i as nat));
        let mut j: usize = pos;
        while j < end
            invariant
                pos <= j <= end <= m,
                p == hide@,
                p.len() == m,
                out@ == before.push(ch) + selectors(p.subrange(pos as int, j as int)),
            decreases end - j,
        {
            assert(p.subrange(pos as int, j + 1) == p.subrange(pos as int, j as int).push(p[j as int]));
            assert(selectors(p.subrange(pos as int, j + 1)) == selectors(p.subrange(pos as int, j as int)).push(selector_value(p[j as int]) as char));
            let sel = byte_to_variation_selector(hide[j]);
            assert(sel == selector_value(p[j as int]) as char);
            push_char(&mut out, sel);
            j = j + 1;
        }
        assert(before.push(ch) == before + seq![ch]);
        pos = end;
        i = i + 1;
    }
    Ok(out)
}

/// The bytes that the selectors of `s` carry, in order; every other char is
/// skipped.
pub open spec fn decoded(s: Seq<char>) -> Seq<u8>
    decreases s.len(),
{
    if s.len() == 0 {
        Seq::empty()
    } else {
        let rest = decoded(s.drop_last());
        match byte_of(s.last()) {
            Some(b) => rest.push(b),
            None => rest,
        }
    }
}

/// Recovers the payload hidden in `text`: the bytes of its selectors, in order.
pub fn decode(text: &str) -> (out: Vec<u8>)
    ensures
        out@ == decoded(text@),
{
    let mut out: Vec<u8> = Vec::new();
    for c in it: text.chars()
        invariant
            it.seq() == text@,
            out@ == decoded(text@.take(it.index() as int)),
    {
        assert(text@.take(it.index() + 1).drop_last() == text@.take(it.index() as int));
        if let Some(b) = variant_selector_to_byte(c) {
            out.push(b);
        }
    }
    assert(text@.take(text@.len() as int) == text@);
    out
}

/// The chars of `s` that are no selectors, in order.
pub open spec fn visible(s: Seq<char>) -> Seq<char>
    decreases s.len(),
{
    if s.len() == 0 {
        Seq::empty()
    } else {
        let rest = visible(s.drop_last());
        if is_selector(s.last()) {
            rest
        } else {
            rest.push(s.last())
        }
    }
}

/// Whether no char of `s` is a selector.
pub open spec fn selector_free(s: Seq<char>) -> bool {
    forall|i: int| 0 <= i < s.len() ==> !is_selector(#[trigger] s[i])
}

/// How many payload bytes the first `i` carrier chars take together.
pub open spec fn covered(n: nat, m: nat, i: nat) -> nat {
    if i == 0 {
        0
    } else {
        chunk_end(n, m, (i - 1) as nat)
    }
}

proof fn lemma_decoded_concat(a: Seq<char>, b: Seq<char>)
    ensures
        decoded(a + b) == decoded(a) + decoded(b),
        visible(a + b) == visible(a) + visible(b),
    decreases b.len(),
{
    if b.len() == 0 {
        assert(a + b == a);
        assert(decoded(a) + decoded(b) == decoded(a));
        assert(visible(a) + visible(b) == visible(a));
    } else {
        lemma_decoded_concat(a, b.drop_last());
        assert((a + b).drop_last() == a + b.drop_last());
        assert((a + b).last() == b.last());
    }
}

proof fn lemma_decoded_selectors(q: Seq<u8>)
    ensures
        decoded(selectors(q)) == q,
        visible(selectors(q)) == Seq::<char>::empty(),
    decreases q.len(),
{
    if q.len() > 0 {
        lemma_decoded_selectors(q.drop_last());
        assert(selectors(q).drop_last() == selectors(q.drop_last()));
        lemma_byte_round_trip(q.last());
        assert(q.drop_last().push(q.last()) == q);
    } else {
        assert(selectors(q) == Seq::<char>::empty());
    }
}

proof fn lemma_carrier_char(x: char)
    requires
        !is_selector(x),
    ensures
        decoded(seq![x]) == Seq::<u8>::empty(),
        visible(seq![x]) == seq![x],
{
    let e = Seq::<char>::empty();
    assert(seq![x].drop_last() == e);
    assert(seq![x].last() == x);
    assert(decoded(e) == Seq::<u8>::empty());
    assert(visible(e) == e);
    assert(e.push(x) == seq![x]);
}

proof fn lemma_chunk_bounds(n: nat, m: nat, i: nat)
    requires
        i < n,
    ensures
        chunk_start(n, m, 0) == 0,
        chunk_start(n, m, i) <= chunk_end(n, m, i) <= m,
        covered(n, m, i) == chunk_start(n, m, i),
        covered(n, m, i + 1) == chunk_end(n, m, i),
{
    let k = chunk_size(n, m);
    assert(0 * k == 0) by (nonlinear_arith);
    assert(i * k <= (i + 1) * k) by (nonlinear_arith);
    if i > 0 {
        assert((i - 1) as nat + 1 == i);
    }
}

proof fn lemma_interleaved(c: Seq<char>, p: Seq<u8>, i: nat)
    requires
        c.len() > 0,
        i <= c.len(),
    ensures
        interleaved(c, p, i).len() == i + covered(c.len(), p.len(), i),
        covered(c.len(), p.len(), i) <= p.len(),
        selector_free(c) ==> decoded(interleaved(c, p, i)) == p.take(
            covered(c.len(), p.len(), i) as int,
        ),
        selector_free(c) ==> visible(interleaved(c, p, i)) == c.take(i as int),
    decreases i,
{
    let (n, m) = (c.len(), p.len());
    if i == 0 {
        assert(p.take(0) == Seq::<u8>::empty());
        assert(c.take(0) == Seq::<char>::empty());
    } else {
        let j = (i - 1) as nat;
        lemma_interleaved(c, p, j);
        lemma_chunk_bounds(n, m, j);
        let (lo, hi) = (chunk_start(n, m, j), chunk_end(n, m, j));
        let prev = interleaved(c, p, j);
        let chunk = p.subrange(lo as int, hi as int);
        assert(interleaved(c, p, i) == (prev + seq![c[j as int]]) + selectors(chunk));
        lemma_decoded_concat(prev + seq![c[j as int]], selectors(chunk));
        lemma_decoded_concat(prev, seq![c[j as int]]);
        lemma_decoded_selectors(chunk);
        if selector_free(c) {
            lemma_carrier_char(c[j as int]);
            assert(p.take(lo as int) + chunk == p.take(hi as int));
            assert(c.take(j as int) + seq![c[j as int]] == c.take(i as int));
        }
    }
}

/// The output holds each carrier char and each payload byte once: its
/// length is that of the carrier plus that of the payload.
pub proof fn lemma_encoded_len(c: Seq<char>, p: Seq<u8>)
    requires
        c.len() > 0,
    ensures
        encoded(c, p).len() == c.len() + p.len(),
{
    lemma_interleaved(c, p, c.len());
}

/// Decoding what a selector-free carrier hides gives the payload back.
pub proof fn lemma_round_trip(c: Seq<char>, p: Seq<u8>)
    requires
        c.len() > 0,
        selector_free(c),
    ensures
        decoded(encoded(c, p)) == p,
{
    lemma_interleaved(c, p, c.len());
    assert(p.take(p.len() as int) == p);
}

/// Removing the selectors from the output of a selector-free carrier gives
/// the carrier back, unchanged and in order.
pub proof fn lemma_carrier_preserved(c: Seq<char>, p: Seq<u8>)
    requires
        c.len() > 0,
        selector_free(c),
    ensures
        visible(encoded(c, p)) == c,
{
    lemma_interleaved(c, p, c.len());
    assert(c.take(c.len() as int) == c);
}

/// Text without selectors hides no bytes.
pub proof fn lemma_decode_selector_free(c: Seq<char>)
    requires
        selector_free(c),
    ensures
        decoded(c) == Seq::<u8>::empty(),
    decreases c.len(),
{
    if c.len() > 0 {
        assert(selector_free(c.drop_last()));
        lemma_decode_selector_free(c.drop_last());
    }
}

/// Hiding an empty payload leaves the carrier as it is.
pub proof fn lemma_empty_payload(c: Seq<char>)
    requires
        c.len() > 0,
    ensures
        encoded(c, Seq::empty()) == c,
        encoded(c, Seq::empty()).len() == c.len(),
    decreases c.len(),
{
    lemma_empty_prefix(c, c.len());
    assert(c.take(c.len() as int) == c);
}

proof fn lemma_empty_prefix(c: Seq<char>, i: nat)
    requires
        i <= c.len(),
    ensures
        interleaved(c, Seq::empty(), i) == c.take(i as int),
    decreases i,
{
    let p = Seq::<u8>::empty();
    if i == 0 {
        assert(c.take(0) == Seq::<char>::empty());
    } else {
        let j = (i - 1) as nat;
        lemma_empty_prefix(c, j);
        let chunk = p.subrange(chunk_start(c.len(), 0, j) as int, chunk_end(c.len(), 0, j) as int);
        assert(chunk == p);
        assert(selectors(p) == Seq::<char>::empty());
        assert(c.take(j as int) + seq![c[j as int]] == c.take(i as int));
    }
}

} // verus!
