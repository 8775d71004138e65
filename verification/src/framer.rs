//! Line framing: turning an unbounded byte stream into newline-terminated
//! lines plus a retained remainder.
//!
//! The framing discipline is pure: `lines_of` names the complete lines of a
//! byte sequence (one per newline, in order of appearance) and `remainder_of`
//! the bytes after the last newline, which a connection keeps until more data
//! arrives. `lemma_framing_chunked` states that feeding the stream chunk by
//! chunk, carrying the remainder forward, yields exactly the lines of the
//! concatenated stream.

use vstd::prelude::*;

verus! {

/// The newline delimiter.
pub open spec fn nl() -> u8 {
    10u8
}

/// The byte sequence holds a newline delimiter somewhere.
pub open spec fn has_nl(b: Seq<u8>) -> bool {
    exists|i: int| 0 <= i < b.len() && b[i] == nl()
}

/// The complete lines of a byte sequence: for every newline, the bytes since
/// the previous newline (or the start of the sequence), in order of
/// appearance. Bytes after the last newline contribute no line.
pub open spec fn lines_of(b: Seq<u8>) -> Seq<Seq<u8>>
    decreases b.len(),
{
    if b.len() == 0 {
        Seq::empty()
    } else if b[0] == nl() {
        seq![Seq::<u8>::empty()] + lines_of(b.skip(1))
    } else {
        let rest = lines_of(b.skip(1));
        if rest.len() == 0 {
            Seq::empty()
        } else {
            seq![seq![b[0]] + rest[0]] + rest.skip(1)
        }
    }
}

/// The bytes after the last newline: what a framer retains across calls.
pub open spec fn remainder_of(b: Seq<u8>) -> Seq<u8>
    decreases b.len(),
{
    if !has_nl(b) {
        b
    } else if b.len() == 0 {
        b
    } else {
        remainder_of(b.skip(1))
    }
}

/// Framing an empty sequence yields nothing and retains nothing.
pub proof fn lemma_framing_empty()
    ensures
        !has_nl(Seq::<u8>::empty()),
        lines_of(Seq::<u8>::empty()) == Seq::<Seq<u8>>::empty(),
        remainder_of(Seq::<u8>::empty()) == Seq::<u8>::empty(),
{
    assert(!has_nl(Seq::<u8>::empty()));
    assert(lines_of(Seq::<u8>::empty()) =~~= Seq::<Seq<u8>>::empty());
    assert(remainder_of(Seq::<u8>::empty()) =~= Seq::<u8>::empty());
}

/// A sequence yields at least one line exactly when it holds a newline.
pub proof fn lemma_lines_nonempty_iff_nl(b: Seq<u8>)
    ensures
        lines_of(b).len() > 0 <==> has_nl(b),
    decreases b.len(),
{
    if b.len() == 0 {
    } else if b[0] == nl() {
        assert(has_nl(b));
    } else {
        lemma_lines_nonempty_iff_nl(b.skip(1));
        if has_nl(b) {
            let i = choose|i: int| 0 <= i < b.len() && b[i] == nl();
            assert(b.skip(1)[i - 1] == nl());
            assert(has_nl(b.skip(1)));
        }
        if has_nl(b.skip(1)) {
            let i = choose|i: int| 0 <= i < b.skip(1).len() && b.skip(1)[i] == nl();
            assert(b[i + 1] == nl());
            assert(has_nl(b));
        }
    }
}

/// The remainder never holds a newline: every delimiter was resolved.
pub proof fn lemma_remainder_no_nl(b: Seq<u8>)
    ensures
        !has_nl(remainder_of(b)),
    decreases b.len(),
{
    if !has_nl(b) {
    } else {
        lemma_remainder_no_nl(b.skip(1));
    }
}

/// A delimiter-free prefix followed by one newline frames as exactly that
/// prefix, with nothing retained.
pub proof fn lemma_line_terminated(p: Seq<u8>)
    requires
        !has_nl(p),
    ensures
        lines_of(p + seq![nl()]) =~~= seq![p],
        remainder_of(p + seq![nl()]) =~= Seq::<u8>::empty(),
    decreases p.len(),
{
    let b = p + seq![nl()];
    assert(has_nl(b)) by {
        assert(b[p.len() as int] == nl());
    }
    if p.len() == 0 {
        assert(b[0] == nl());
        assert(b.skip(1) =~= Seq::<u8>::empty());
        assert(p =~= Seq::<u8>::empty());
        assert(!has_nl(Seq::<u8>::empty()));
        assert(lines_of(Seq::<u8>::empty()) =~~= Seq::<Seq<u8>>::empty());
        assert(remainder_of(Seq::<u8>::empty()) =~= Seq::<u8>::empty());
        assert(lines_of(b) =~~= seq![Seq::<u8>::empty()] + lines_of(b.skip(1)));
        assert(lines_of(b) =~~= seq![p]);
        assert(remainder_of(b) =~= remainder_of(b.skip(1)));
    } else {
        assert(p[0] != nl());
        assert(b[0] == p[0]);
        assert(b.skip(1) =~= p.skip(1) + seq![nl()]);
        assert(!has_nl(p.skip(1))) by {
            if has_nl(p.skip(1)) {
                let i = choose|i: int| 0 <= i < p.skip(1).len() && p.skip(1)[i] == nl();
                assert(p[i + 1] == nl());
            }
        }
        lemma_line_terminated(p.skip(1));
        assert(lines_of(b.skip(1)) =~~= seq![p.skip(1)]);
        assert(seq![b[0]] + p.skip(1) =~= p);
        assert(lines_of(b) =~~= seq![p]);
        assert(remainder_of(b) =~= Seq::<u8>::empty());
    }
}

/// Chunked framing agrees with framing the concatenation: the lines of
/// `a + b` are the lines of `a` followed by the lines of `a`'s remainder
/// prepended to `b`, and the remainders agree likewise. Feeding a stream to
/// the framer in arbitrary pieces, carrying the remainder forward, therefore
/// emits exactly the lines of the whole stream, with the final unterminated
/// tail withheld.
pub proof fn lemma_framing_chunked(a: Seq<u8>, b: Seq<u8>)
    ensures
        lines_of(a + b) =~~= lines_of(a) + lines_of(remainder_of(a) + b),
        remainder_of(a + b) =~= remainder_of(remainder_of(a) + b),
    decreases a.len(),
{
    if a.len() == 0 {
        assert(a + b =~= b);
        assert(remainder_of(a) + b =~= b);
        assert(lines_of(a) + lines_of(b) =~~= lines_of(b));
    } else if a[0] == nl() {
        let a1 = a.skip(1);
        assert(has_nl(a));
        assert((a + b)[0] == nl());
        assert((a + b).skip(1) =~= a1 + b);
        lemma_framing_chunked(a1, b);
        assert(remainder_of(a) == remainder_of(a1));
        assert(lines_of(a + b) =~~= seq![Seq::<u8>::empty()] + lines_of(a1 + b));
        assert(lines_of(a) =~~= seq![Seq::<u8>::empty()] + lines_of(a1));
        assert(lines_of(a + b) =~~= lines_of(a) + lines_of(remainder_of(a) + b));
        assert(remainder_of(a + b) == remainder_of(a1 + b));
    } else {
        let a1 = a.skip(1);
        assert((a + b)[0] == a[0]);
        assert((a + b).skip(1) =~= a1 + b);
        lemma_framing_chunked(a1, b);
        lemma_lines_nonempty_iff_nl(a1);
        lemma_lines_nonempty_iff_nl(a1 + b);
        lemma_lines_nonempty_iff_nl(a);
        if has_nl(a1) {
            assert(has_nl(a)) by {
                let i = choose|i: int| 0 <= i < a1.len() && a1[i] == nl();
                assert(a[i + 1] == nl());
            }
            assert(has_nl(a1 + b)) by {
                let i = choose|i: int| 0 <= i < a1.len() && a1[i] == nl();
                assert((a1 + b)[i] == nl());
            }
            assert(has_nl(a + b)) by {
                let i = choose|i: int| 0 <= i < a1.len() && a1[i] == nl();
                assert((a + b)[i + 1] == nl());
            }
            let l = lines_of(a1);
            let x = lines_of(remainder_of(a1) + b);
            let rest = lines_of(a1 + b);
            assert(rest =~~= l + x);
            assert(l.len() > 0);
            assert(rest.len() > 0);
            assert(rest[0] == l[0]);
            assert(rest.skip(1) =~~= l.skip(1) + x);
            assert(remainder_of(a) == remainder_of(a1));
            assert(lines_of(a + b) =~~= seq![seq![a[0]] + rest[0]] + rest.skip(1));
            assert(lines_of(a) =~~= seq![seq![a[0]] + l[0]] + l.skip(1));
            assert(lines_of(a + b) =~~= lines_of(a) + lines_of(remainder_of(a) + b));
            assert(remainder_of(a + b) == remainder_of(a1 + b));
        } else {
            assert(!has_nl(a)) by {
                if has_nl(a) {
                    let i = choose|i: int| 0 <= i < a.len() && a[i] == nl();
                    assert(i != 0);
                    assert(a1[i - 1] == nl());
                }
            }
            assert(remainder_of(a) =~= a);
            assert(remainder_of(a1) =~= a1);
            assert(lines_of(a).len() == 0);
            assert(lines_of(a) =~~= Seq::<Seq<u8>>::empty());
            assert(remainder_of(a) + b =~= a + b);
            assert(lines_of(a) + lines_of(a + b) =~~= lines_of(a + b));
        }
    }
}

/// How one appended byte extends the framing: a newline completes the
/// retained remainder as a fresh line; any other byte joins the remainder.
pub proof fn lemma_framing_snoc(s: Seq<u8>, x: u8)
    ensures
        x == nl() ==> lines_of(s.push(x)) =~~= lines_of(s).push(remainder_of(s)),
        x == nl() ==> remainder_of(s.push(x)) =~= Seq::<u8>::empty(),
        x != nl() ==> lines_of(s.push(x)) =~~= lines_of(s),
        x != nl() ==> remainder_of(s.push(x)) =~= remainder_of(s).push(x),
{
    assert(s.push(x) =~= s + seq![x]);
    lemma_framing_chunked(s, seq![x]);
    lemma_remainder_no_nl(s);
    let r = remainder_of(s);
    if x == nl() {
        lemma_line_terminated(r);
        assert(r + seq![x] =~= r + seq![nl()]);
        assert(lines_of(s) + seq![r] =~~= lines_of(s).push(r));
    } else {
        assert(!has_nl(r + seq![x])) by {
            if has_nl(r + seq![x]) {
                let i = choose|i: int| 0 <= i < (r + seq![x]).len() && (r + seq![x])[i] == nl();
                if i < r.len() {
                    assert(r[i] == nl());
                } else {
                    assert((r + seq![x])[i] == x);
                }
            }
        }
        lemma_lines_nonempty_iff_nl(r + seq![x]);
        assert(lines_of(r + seq![x]) =~~= Seq::<Seq<u8>>::empty());
        assert(lines_of(s) + lines_of(r + seq![x]) =~~= lines_of(s));
        assert(remainder_of(r + seq![x]) =~= r + seq![x]);
        assert(r + seq![x] =~= r.push(x));
    }
}

/// No emitted line holds a newline: delimiters separate lines and never
/// appear inside one.
pub proof fn lemma_lines_have_no_nl(b: Seq<u8>)
    ensures
        forall|k: int| 0 <= k < lines_of(b).len() ==> !has_nl(#[trigger] lines_of(b)[k]),
    decreases b.len(),
{
    if b.len() == 0 {
    } else if b[0] == nl() {
        lemma_lines_have_no_nl(b.skip(1));
        assert(!has_nl(Seq::<u8>::empty()));
        assert forall|k: int| 0 <= k < lines_of(b).len() implies !has_nl(
            #[trigger] lines_of(b)[k],
        ) by {
            if k > 0 {
                assert(lines_of(b)[k] == lines_of(b.skip(1))[k - 1]);
            }
        }
    } else {
        lemma_lines_have_no_nl(b.skip(1));
        let rest = lines_of(b.skip(1));
        if rest.len() > 0 {
            assert(!has_nl(seq![b[0]] + rest[0])) by {
                let merged = seq![b[0]] + rest[0];
                if has_nl(merged) {
                    let i = choose|i: int| 0 <= i < merged.len() && merged[i] == nl();
                    if i == 0 {
                        assert(merged[0] == b[0]);
                    } else {
                        assert(merged[i] == rest[0][i - 1]);
                        assert(has_nl(rest[0]));
                    }
                }
            }
            assert forall|k: int| 0 <= k < lines_of(b).len() implies !has_nl(
                #[trigger] lines_of(b)[k],
            ) by {
                if k > 0 {
                    assert(lines_of(b)[k] == rest.skip(1)[k - 1]);
                    assert(rest.skip(1)[k - 1] == rest[k]);
                }
            }
        }
    }
}

/// Framing inverts the wire encoding: the wire image of delimiter-free
/// lines frames back into exactly those lines, in order, with nothing
/// retained. What a connection broadcasts is what every receiver's framer
/// resolves, line for line.
pub proof fn lemma_wire_round_trip(lines: Seq<Seq<u8>>)
    requires
        forall|k: int| 0 <= k < lines.len() ==> !has_nl(#[trigger] lines[k]),
    ensures
        lines_of(wire_of(lines)) == lines,
        remainder_of(wire_of(lines)) == Seq::<u8>::empty(),
    decreases lines.len(),
{
    lemma_framing_empty();
    if lines.len() == 0 {
        assert(lines_of(wire_of(lines)) =~~= lines);
    } else {
        let front = lines.drop_last();
        let last = lines.last();
        lemma_wire_round_trip(front);
        let w = wire_of(front);
        assert(wire_of(lines) =~= w + (last + seq![nl()]));
        lemma_framing_chunked(w, last + seq![nl()]);
        assert(remainder_of(w) + (last + seq![nl()]) =~= last + seq![nl()]);
        assert(!has_nl(last));
        lemma_line_terminated(last);
        assert(lines_of(wire_of(lines)) =~~= front + seq![last]);
        assert(front + seq![last] =~~= lines);
        assert(remainder_of(wire_of(lines)) =~= Seq::<u8>::empty());
    }
}

/// Splits a buffer into its complete lines and the unterminated remainder.
/// This is the executable framer: the connection runs it over its read
/// buffer and keeps the remainder for the next read.
pub fn split_buffer(buf: &[u8]) -> (r: (Vec<Vec<u8>>, Vec<u8>))
    ensures
        r.0.deep_view() == lines_of(buf@),
        r.1@ == remainder_of(buf@),
{
    let mut lines: Vec<Vec<u8>> = Vec::new();
    let mut cur: Vec<u8> = Vec::new();
    let mut i: usize = 0;
    proof {
        assert(buf@.take(0) =~= Seq::<u8>::empty());
        assert(lines.deep_view() =~~= lines_of(buf@.take(0)));
    }
    while i < buf.len()
        invariant
            i <= buf@.len(),
            lines.deep_view() == lines_of(buf@.take(i as int)),
            cur@ == remainder_of(buf@.take(i as int)),
        decreases buf@.len() - i,
    {
        let x = buf[i];
        proof {
            assert(buf@.take(i + 1) =~= buf@.take(i as int).push(x));
            lemma_framing_snoc(buf@.take(i as int), x);
        }
        if x == 10u8 {
            let ghost prev_lines = lines.deep_view();
            let ghost prev_cur = cur@;
            let done = cur;
            cur = Vec::new();
            lines.push(done);
            proof {
                assert(lines.deep_view() =~~= prev_lines.push(prev_cur));
            }
        } else {
            cur.push(x);
        }
        i += 1;
    }
    proof {
        assert(buf@.take(buf@.len() as int) =~= buf@);
    }
    (lines, cur)
}

/// The wire image of a sequence of lines: each line followed by a newline,
/// in order. Broadcasting lines appends exactly this to a write buffer.
pub open spec fn wire_of(lines: Seq<Seq<u8>>) -> Seq<u8>
    decreases lines.len(),
{
    if lines.len() == 0 {
        Seq::empty()
    } else {
        wire_of(lines.drop_last()) + lines.last() + seq![nl()]
    }
}

/// Builds the wire image of the given lines.
pub fn wire_bytes(lines: &Vec<Vec<u8>>) -> (r: Vec<u8>)
    ensures
        r@ == wire_of(lines.deep_view()),
{
    let mut out: Vec<u8> = Vec::new();
    let ghost all = lines.deep_view();
    let mut j: usize = 0;
    proof {
        assert(all.take(0) =~~= Seq::<Seq<u8>>::empty());
    }
    while j < lines.len()
        invariant
            j <= all.len(),
            all == lines.deep_view(),
            all.len() == lines@.len(),
            forall|k: int| 0 <= k < all.len() ==> all[k] == lines@[k]@,
            out@ == wire_of(all.take(j as int)),
        decreases all.len() - j,
    {
        let line = &lines[j];
        out.extend_from_slice(line.as_slice());
        out.push(10u8);
        proof {
            assert(all.take(j + 1).drop_last() =~~= all.take(j as int));
            assert(all.take(j + 1).last() == all[j as int]);
            assert(out@ =~= wire_of(all.take(j as int)) + all[j as int] + seq![nl()]);
        }
        j += 1;
    }
    proof {
        assert(all.take(all.len() as int) =~~= all);
    }
    out
}

} // verus!
