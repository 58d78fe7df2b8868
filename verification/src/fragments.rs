//! What the assembler gets to does not depend on how the bytes are cut into
//! reads.

use vstd::prelude::*;
use crate::assembler::{after, boundary, head_end, step, Assembly};
use crate::util::{first_occurrence, occurs_at};

verus! {

/// The chunks one behind the other.
pub open spec fn concat(chunks: Seq<Seq<u8>>) -> Seq<u8>
    decreases chunks.len(),
{
    if chunks.len() == 0 {
        Seq::empty()
    } else {
        concat(chunks.drop_last()) + chunks.last()
    }
}

/// How far the request is assembled after the reads gave `chunks`, one
/// after the other.
pub open spec fn feed_all(state: Assembly, chunks: Seq<Seq<u8>>) -> Assembly
    decreases chunks.len(),
{
    if chunks.len() == 0 {
        state
    } else {
        step(feed_all(state, chunks.drop_last()), chunks.last())
    }
}

/// No chunk is empty.
pub open spec fn all_filled(chunks: Seq<Seq<u8>>) -> bool {
    forall|i: int| 0 <= i < chunks.len() ==> (#[trigger] chunks[i]).len() > 0
}

/// Where the head ends does not change when more bytes come.
pub proof fn lemma_boundary_stays(stream: Seq<u8>, chunk: Seq<u8>)
    requires
        boundary(stream) is Some,
    ensures
        boundary(stream + chunk) == boundary(stream),
{
    let at = boundary(stream).unwrap();
    let longer = stream + chunk;
    let needle = head_end();
    assert(first_occurrence(stream, needle, at));
    assert(longer.subrange(at, at + needle.len()) =~= stream.subrange(at, at + needle.len()));
    assert forall|j: int| 0 <= j < at implies !occurs_at(longer, needle, j) by {
        assert(!occurs_at(stream, needle, j));
        assert(longer.subrange(j, j + needle.len()) =~= stream.subrange(j, j + needle.len()));
    }
    assert(first_occurrence(longer, needle, at));
    let found = boundary(longer).unwrap();
    assert(first_occurrence(longer, needle, found));
}

/// One more read leads to where all the bytes read would have led at once.
pub proof fn lemma_step_after(stream: Seq<u8>, chunk: Seq<u8>)
    requires
        chunk.len() > 0,
    ensures
        step(after(stream), chunk) == after(stream + chunk),
{
    match boundary(stream) {
        None => {},
        Some(at) => {
            lemma_boundary_stays(stream, chunk);
            let longer = stream + chunk;
            assert(longer.take(at) == stream.take(at));
            assert(longer.skip(at + 4) == stream.skip(at + 4) + chunk);
            match after(stream) {
                Assembly::Done { head, body } => {
                    assert(longer.skip(at + 4).take(body.len() as int) == body);
                },
                Assembly::Body { head, body, missing } => {
                    if chunk.len() >= missing {
                        let want = (body.len() + missing) as int;
                        assert(longer.skip(at + 4).take(want) == body + chunk.take(
                            missing as int,
                        ));
                    }
                },
                _ => {},
            }
        },
    }
}

/// Before anything is read, the head is not complete.
pub proof fn lemma_after_nothing()
    ensures
        after(Seq::empty()) == (Assembly::Head { data: Seq::empty() }),
{
}

/// However the bytes of a connection are cut into reads, the assembler
/// gets to where the bytes lead: what it has assembled after reads that
/// each gave something depends on the bytes alone.
pub proof fn lemma_feed_all(chunks: Seq<Seq<u8>>)
    requires
        all_filled(chunks),
    ensures
        feed_all(Assembly::Head { data: Seq::empty() }, chunks) == after(concat(chunks)),
    decreases chunks.len(),
{
    if chunks.len() == 0 {
        lemma_after_nothing();
    } else {
        lemma_feed_all(chunks.drop_last());
        lemma_step_after(concat(chunks.drop_last()), chunks.last());
    }
}

/// Two ways of cutting the same bytes into reads assemble the same request.
pub proof fn lemma_fragmentation(first: Seq<Seq<u8>>, second: Seq<Seq<u8>>)
    requires
        all_filled(first),
        all_filled(second),
        concat(first) == concat(second),
    ensures
        feed_all(Assembly::Head { data: Seq::empty() }, first) == feed_all(
            Assembly::Head { data: Seq::empty() },
            second,
        ),
{
    lemma_feed_all(first);
    lemma_feed_all(second);
}

} // verus!
