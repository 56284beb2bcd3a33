//! Body relays over a whole stream of reads: what reaches the client when
//! each read is taken as `BodyRelay::on_read` takes it (`body_step`) and the
//! driver stops at the first step that is not `More`.
use vstd::prelude::*;

use crate::relay::{body_step, chunked_status, BodyOutcome, BodyRelay, LengthRelay, RelayError};

verus! {

/// The bytes of the reads, in order.
pub open spec fn concat(reads: Seq<Seq<u8>>) -> Seq<u8>
    decreases reads.len(),
{
    if reads.len() == 0 {
        Seq::empty()
    } else {
        reads[0] + concat(reads.drop_first())
    }
}

/// Every read holds at least one byte and fits a `usize` length.
pub open spec fn plain_reads(reads: Seq<Seq<u8>>) -> bool {
    forall|i: int| 0 <= i < reads.len() ==> 0 < #[trigger] reads[i].len() <= usize::MAX
}

/// What a relay with `remaining` bytes of a known-length body to go writes
/// to the client over `reads`. With nothing left, nothing is read.
pub open spec fn length_run(remaining: usize, reads: Seq<Seq<u8>>) -> Seq<u8>
    decreases reads.len(),
{
    if reads.len() == 0 || remaining == 0 {
        Seq::empty()
    } else {
        let st = body_step(BodyRelay::Length(LengthRelay { remaining }), reads[0]);
        reads[0].subrange(0, st.forward as int) + if st.outcome == BodyOutcome::More {
            length_run((remaining - st.forward) as usize, reads.drop_first())
        } else {
            Seq::empty()
        }
    }
}

/// A known-length body is relayed exactly: whatever the read boundaries,
/// the client gets the first `remaining` bytes the upstream sends, or all of
/// them when it closes sooner, and never more.
pub proof fn lemma_length_run_exact(remaining: usize, reads: Seq<Seq<u8>>)
    requires
        plain_reads(reads),
    ensures
        length_run(remaining, reads) == concat(reads).subrange(
            0,
            if remaining < concat(reads).len() {
                remaining as int
            } else {
                concat(reads).len() as int
            },
        ),
    decreases reads.len(),
{
    if reads.len() == 0 || remaining == 0 {
        assert(concat(reads).subrange(0, 0) =~= Seq::<u8>::empty());
    } else {
        let d = reads[0];
        let rest = reads.drop_first();
        assert(0 < reads[0].len());
        assert(plain_reads(rest)) by {
            assert forall|i: int| 0 <= i < rest.len() implies 0 < #[trigger] rest[i].len() <= usize::MAX by {
                assert(rest[i] == reads[i + 1]);
            }
        }
        lemma_length_run_exact((remaining - (if d.len() < remaining { d.len() } else { remaining as nat })) as usize, rest);
        let c = concat(reads);
        assert(c == d + concat(rest));
        if d.len() < remaining {
            assert(length_run(remaining, reads) == d + length_run((remaining - d.len()) as usize, rest));
            assert(d.subrange(0, d.len() as int) =~= d);
            let cr = concat(rest);
            let m = if (remaining - d.len()) < cr.len() { remaining - d.len() } else { cr.len() as int };
            assert(d + cr.subrange(0, m) =~= c.subrange(0, d.len() + m));
        } else {
            assert(d.subrange(0, remaining as int) + Seq::<u8>::empty() =~= c.subrange(0, remaining as int));
        }
    }
}

/// What a chunked relay that has received `held` writes to the client over
/// `reads`: the bytes written, how many reads it took, and the last outcome.
pub open spec fn chunked_run(held: Seq<u8>, reads: Seq<Seq<u8>>) -> (Seq<u8>, nat, BodyOutcome)
    decreases reads.len(),
{
    if reads.len() == 0 {
        (Seq::empty(), 0, BodyOutcome::More)
    } else {
        let d = reads[0];
        if d.len() == 0 {
            (Seq::empty(), 1, BodyOutcome::Failed(RelayError::UnexpectedEof))
        } else {
            let s = held + d;
            let o = chunked_status(s, 0);
            if o == BodyOutcome::More {
                let r = chunked_run(s, reads.drop_first());
                (d + r.0, r.1 + 1, r.2)
            } else {
                (d, 1, o)
            }
        }
    }
}

/// The step of a chunked `BodyRelay` is the step `chunked_run` takes.
pub proof fn lemma_chunked_run_step(b: BodyRelay, d: Seq<u8>)
    requires
        b is Chunked,
        0 < d.len() <= usize::MAX,
    ensures
        body_step(b, d).forward == d.len(),
        body_step(b, d).outcome == chunked_status(b.chunked_received() + d, 0),
{
}

/// A chunked body is relayed verbatim: the client gets every byte of every
/// read the relay takes, chunk-size lines and trailers included, and the
/// relay takes no read after the first one that completes (or breaks) the
/// body.
pub proof fn lemma_chunked_run_verbatim(held: Seq<u8>, reads: Seq<Seq<u8>>)
    requires
        plain_reads(reads),
    ensures
        chunked_run(held, reads).1 <= reads.len(),
        chunked_run(held, reads).0 == concat(reads.take(chunked_run(held, reads).1 as int)),
        chunked_run(held, reads).2 != BodyOutcome::More ==> chunked_run(held, reads).2
            == chunked_status(held + concat(reads.take(chunked_run(held, reads).1 as int)), 0),
        forall|m: int|
            0 < m < chunked_run(held, reads).1 ==> chunked_status(
                held + concat(#[trigger] reads.take(m)),
                0,
            ) == BodyOutcome::More,
    decreases reads.len(),
{
    if reads.len() > 0 {
        let d = reads[0];
        let rest = reads.drop_first();
        assert(0 < reads[0].len());
        assert(plain_reads(rest)) by {
            assert forall|i: int| 0 <= i < rest.len() implies 0 < #[trigger] rest[i].len() <= usize::MAX by {
                assert(rest[i] == reads[i + 1]);
            }
        }
        let s = held + d;
        assert(concat(reads.take(1)) =~= d) by {
            let t = reads.take(1);
            assert(t.drop_first() =~= Seq::<Seq<u8>>::empty());
            assert(concat(t.drop_first()) == Seq::<u8>::empty());
            assert(t[0] == d);
            assert(concat(t) == t[0] + concat(t.drop_first()));
            assert(d + Seq::<u8>::empty() =~= d);
        }
        if chunked_status(s, 0) == BodyOutcome::More {
            lemma_chunked_run_verbatim(s, rest);
            let r = chunked_run(s, rest);
            assert forall|m: int| 0 < m <= rest.len() + 1 implies concat(#[trigger] reads.take(m))
                == d + concat(rest.take(m - 1)) by {
                assert(reads.take(m).drop_first() =~= rest.take(m - 1));
            }
            assert(concat(reads.take((r.1 + 1) as int)) == d + concat(rest.take(r.1 as int)));
            assert forall|m: int| 0 < m < r.1 + 1 implies chunked_status(
                held + concat(#[trigger] reads.take(m)),
                0,
            ) == BodyOutcome::More by {
                assert(held + concat(reads.take(m)) =~= s + concat(rest.take(m - 1)));
                if m == 1 {
                    assert(rest.take(0) =~= Seq::<Seq<u8>>::empty());
                    assert(s + concat(rest.take(0)) =~= s);
                }
            }
            assert(held + concat(reads.take((r.1 + 1) as int)) =~= s + concat(rest.take(r.1 as int)));
        } else {
            assert(held + concat(reads.take(1)) =~= s);
        }
    }
}

} // verus!
