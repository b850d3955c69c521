//! Cutting a stream of bytes, which comes in chunks, into lines.

use vstd::prelude::*;
use crate::text::NEWLINE;

verus! {

/// The lines that `chunk` completes, and what is left after its last
/// newline, when `pending` is what was left before the chunk.
pub open spec fn split_from(pending: Seq<u8>, chunk: Seq<u8>) -> (Seq<Seq<u8>>, Seq<u8>)
    decreases chunk.len(),
{
    if chunk.len() == 0 {
        (Seq::empty(), pending)
    } else {
        let before = split_from(pending, chunk.drop_last());
        if chunk.last() == NEWLINE {
            (before.0.push(before.1), Seq::empty())
        } else {
            (before.0, before.1.push(chunk.last()))
        }
    }
}

/// The lines of `data`: the runs of bytes that a newline ends, without the
/// newline. What follows the last newline is no line.
pub open spec fn lines_of(data: Seq<u8>) -> Seq<Seq<u8>> {
    split_from(Seq::empty(), data).0
}

/// The chunks one after the other.
pub open spec fn joined(chunks: Seq<Vec<u8>>) -> Seq<u8>
    decreases chunks.len(),
{
    if chunks.len() == 0 {
        Seq::empty()
    } else {
        joined(chunks.drop_last()) + chunks.last()@
    }
}

/// The bytes of each line of a list.
pub open spec fn byte_lines(lines: Seq<Vec<u8>>) -> Seq<Seq<u8>> {
    Seq::new(lines.len(), |i: int| lines[i]@)
}

/// Cutting a stream in two and splitting the second part with what the
/// first part left gives the lines of the whole.
pub proof fn lemma_split_append(pending: Seq<u8>, a: Seq<u8>, b: Seq<u8>)
    ensures
        split_from(pending, a + b).0 == split_from(pending, a).0 + split_from(
            split_from(pending, a).1,
            b,
        ).0,
        split_from(pending, a + b).1 == split_from(split_from(pending, a).1, b).1,
    decreases b.len(),
{
    if b.len() == 0 {
        assert(a + b =~= a);
        assert(split_from(pending, a).0 + Seq::<Seq<u8>>::empty() =~= split_from(pending, a).0);
    } else {
        lemma_split_append(pending, a, b.drop_last());
        assert((a + b).drop_last() =~= a + b.drop_last());
        let first = split_from(pending, a);
        let rest = split_from(first.1, b.drop_last());
        if b.last() == NEWLINE {
            assert(first.0 + rest.0.push(rest.1) =~= (first.0 + rest.0).push(rest.1));
        }
    }
}

/// The state of a stream between two chunks: the bytes after the last
/// newline.
pub struct LineSplitter {
    remainder: Vec<u8>,
}

impl View for LineSplitter {
    type V = Seq<u8>;

    closed spec fn view(&self) -> Seq<u8> {
        self.remainder@
    }
}

impl LineSplitter {
    /// The splitter at the start of a stream.
    pub fn new() -> (s: LineSplitter)
        ensures
            s@ == Seq::<u8>::empty(),
    {
        LineSplitter { remainder: Vec::new() }
    }

    /// Takes the next chunk of the stream and returns the lines that it
    /// completes.
    pub fn push(&mut self, chunk: &[u8]) -> (lines: Vec<Vec<u8>>)
        ensures
            byte_lines(lines@) == split_from(old(self)@, chunk@).0,
            final(self)@ == split_from(old(self)@, chunk@).1,
    {
        let mut lines: Vec<Vec<u8>> = Vec::new();
        let mut i: usize = 0;
        assert(chunk@.subrange(0, 0) =~= Seq::<u8>::empty());
        assert(byte_lines(lines@) =~= Seq::<Seq<u8>>::empty());
        while i < chunk.len()
            invariant
                i <= chunk@.len(),
                byte_lines(lines@) == split_from(old(self)@, chunk@.subrange(0, i as int)).0,
                self@ == split_from(old(self)@, chunk@.subrange(0, i as int)).1,
            decreases chunk@.len() - i,
        {
            proof {
                let next = chunk@.subrange(0, i + 1);
                assert(next.drop_last() =~= chunk@.subrange(0, i as int));
                assert(next.last() == chunk@[i as int]);
            }
            let b = chunk[i];
            let ghost before = byte_lines(lines@);
            if b == NEWLINE {
                let mut line: Vec<u8> = Vec::new();
                std::mem::swap(&mut line, &mut self.remainder);
                lines.push(line);
                assert(byte_lines(lines@) =~= before.push(line@));
            } else {
                self.remainder.push(b);
            }
            i += 1;
        }
        assert(chunk@.subrange(0, chunk@.len() as int) =~= chunk@);
        lines
    }
}

/// The lines of a stream that comes in chunks. A line may lie across
/// chunks; what follows the last newline of the stream is no line.
pub fn bytes_to_lines(chunks: &Vec<Vec<u8>>) -> (lines: Vec<Vec<u8>>)
    ensures
        byte_lines(lines@) == lines_of(joined(chunks@)),
{
    let mut splitter = LineSplitter::new();
    let mut lines: Vec<Vec<u8>> = Vec::new();
    let mut k: usize = 0;
    assert(chunks@.subrange(0, 0) =~= Seq::<Vec<u8>>::empty());
    assert(byte_lines(lines@) =~= Seq::<Seq<u8>>::empty());
    while k < chunks.len()
        invariant
            k <= chunks@.len(),
            byte_lines(lines@) == split_from(Seq::empty(), joined(chunks@.subrange(0, k as int))).0,
            splitter@ == split_from(Seq::empty(), joined(chunks@.subrange(0, k as int))).1,
        decreases chunks@.len() - k,
    {
        let ghost done = joined(chunks@.subrange(0, k as int));
        let ghost before = lines@;
        proof {
            let next = chunks@.subrange(0, k + 1);
            assert(next.drop_last() =~= chunks@.subrange(0, k as int));
            assert(next.last() == chunks@[k as int]);
            lemma_split_append(Seq::empty(), done, chunks@[k as int]@);
        }
        let mut more = splitter.push(chunks[k].as_slice());
        let ghost added = more@;
        lines.append(&mut more);
        proof {
            assert(byte_lines(lines@) =~= byte_lines(before) + byte_lines(added));
        }
        k += 1;
    }
    assert(chunks@.subrange(0, chunks@.len() as int) =~= chunks@);
    lines
}

} // verus!
