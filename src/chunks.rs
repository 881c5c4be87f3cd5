use vstd::prelude::*;

use std::collections::HashMap;

verus! {

broadcast use vstd::std_specs::hash::group_hash_axioms;

/// Bytes of video carried by one chunk response.
pub const CHUNK_SIZE: usize = 1024;

/// Number of chunks a video of `len` bytes is cut into.
pub open spec fn n_chunks(len: nat) -> nat {
    ((len + CHUNK_SIZE - 1) / CHUNK_SIZE as int) as nat
}

/// Chunk `i` of `v`.
pub open spec fn chunk_of(v: Seq<u8>, i: int) -> Seq<u8> {
    v.subrange(i * CHUNK_SIZE, if (i + 1) * CHUNK_SIZE <= v.len() { (i + 1) * CHUNK_SIZE } else { v.len() as int })
}

/// The bytes of each chunk.
pub open spec fn chunk_views(cs: Seq<Vec<u8>>) -> Seq<Seq<u8>> {
    cs.map_values(|c: Vec<u8>| c@)
}

/// Cuts a video into consecutive chunks of `CHUNK_SIZE` bytes; only the last may be
/// shorter, and an empty video has no chunks.
pub fn video_chunks(v: &Vec<u8>) -> (r: Vec<Vec<u8>>)
    ensures
        r@.len() == n_chunks(v@.len()),
        forall|i: int| 0 <= i < r@.len() ==> (#[trigger] r@[i])@ == chunk_of(v@, i),
        chunk_views(r@).flatten() == v@,
{
    let len = v.len();
    let mut r: Vec<Vec<u8>> = Vec::new();
    let mut start: usize = 0;
    while start < len
        invariant
            len == v@.len(),
            start <= len,
            start < len ==> start == r@.len() * CHUNK_SIZE,
            forall|i: int| 0 <= i < r@.len() ==> (#[trigger] r@[i])@ == chunk_of(v@, i),
            start < len ==> r@.len() < n_chunks(len as nat),
            start >= len ==> r@.len() == n_chunks(len as nat),
            chunk_views(r@).flatten() == v@.subrange(0, start as int),
        decreases len - start,
    {
        let end = if len - start >= CHUNK_SIZE { start + CHUNK_SIZE } else { len };
        let mut c: Vec<u8> = Vec::new();
        let mut j: usize = start;
        while j < end
            invariant
                start <= j <= end,
                end <= len,
                len == v@.len(),
                c@ == v@.subrange(start as int, j as int),
            decreases end - j,
        {
            c.push(v[j]);
            j = j + 1;
            assert(c@ =~= v@.subrange(start as int, j as int));
        }
        let ghost k = r@.len() as int;
        assert(c@ == chunk_of(v@, k));
        let ghost prev = r@;
        r.push(c);
        proof {
            assert(chunk_views(r@) =~= chunk_views(prev).push(c@));
            chunk_views(prev).lemma_flatten_push(c@);
            assert(v@.subrange(0, end as int) =~= v@.subrange(0, start as int) + c@);
        }
        start = end;
        proof {
            if start < len {
                assert(start == (k + 1) * CHUNK_SIZE);
                assert(k + 1 < n_chunks(len as nat)) by (nonlinear_arith)
                    requires
                        (k + 1) * 1024 < len,
                        n_chunks(len as nat) == (len + 1023) / 1024,
                ;
            } else {
                assert(k + 1 == n_chunks(len as nat)) by (nonlinear_arith)
                    requires
                        k * 1024 < len,
                        len <= (k + 1) * 1024,
                        n_chunks(len as nat) == (len + 1023) / 1024,
                ;
            }
        }
    }
    proof {
        if len == 0 {
            assert(n_chunks(0) == 0);
        }
        assert(v@.subrange(0, start as int) =~= v@);
    }
    r
}

/// `b1` is `b0` after chunk `k` with `data` arrived and `out` went to the
/// consumer: the chunk owed next is delivered at once, followed by every buffered
/// chunk that continues the run; a later one waits; an earlier one is a duplicate
/// and is dropped.
pub open spec fn received(b0: &ChunkBuffer, b1: &ChunkBuffer, k: u32, data: Vec<u8>, out: Seq<Vec<u8>>) -> bool {
    &&& (k as nat) < b0.next() ==> out.len() == 0 && b1.next() == b0.next() && b1.buffered() == b0.buffered()
    &&& (k as nat) > b0.next() ==> out.len() == 0 && b1.next() == b0.next() && b1.buffered() == b0.buffered().insert(k, data)
    &&& (k as nat) == b0.next() ==> {
        &&& out.len() >= 1
        &&& out[0] == data
        &&& b1.next() == b0.next() + out.len()
        &&& forall|j: int| 1 <= j < out.len() ==> #[trigger] out[j] == b0.buffered()[(b0.next() + j) as u32]
        &&& forall|j: int| 1 <= j < out.len() ==> b0.buffered().contains_key(#[trigger] (b0.next() + j) as u32)
        &&& b1.next() < 0x1_0000_0000 ==> !b0.buffered().contains_key(b1.next() as u32)
        &&& b1.buffered() == b0.buffered().remove_keys(Set::new(|x: u32| b0.next() < x && (x as nat) < b1.next()))
    }
}

/// Reorders chunk responses of the current video so that they reach the consumer
/// in ascending index order.
pub struct ChunkBuffer {
    next_expected_index: u64,
    chunk_buffer: HashMap<u32, Vec<u8>>,
}

impl ChunkBuffer {
    /// Index of the next chunk the consumer is owed.
    pub closed spec fn next(&self) -> nat {
        self.next_expected_index as nat
    }

    /// Chunks that came early, by index.
    pub closed spec fn buffered(&self) -> Map<u32, Vec<u8>> {
        self.chunk_buffer@
    }

    /// Only chunks beyond the next expected one wait in the buffer.
    pub open spec fn wf(&self) -> bool {
        &&& self.next() <= 0x1_0000_0000
        &&& forall|k: u32| #[trigger] self.buffered().contains_key(k) ==> k as nat > self.next()
    }

    pub fn new() -> (r: Self)
        ensures
            r.wf(),
            r.next() == 0,
            r.buffered() == Map::<u32, Vec<u8>>::empty(),
    {
        ChunkBuffer { next_expected_index: 0, chunk_buffer: HashMap::new() }
    }

    /// Forgets every buffered chunk and expects chunk 0 again.
    pub fn reset(&mut self)
        ensures
            final(self).wf(),
            final(self).next() == 0,
            final(self).buffered() == Map::<u32, Vec<u8>>::empty(),
    {
        self.next_expected_index = 0;
        self.chunk_buffer = HashMap::new();
    }

    pub fn next_expected_index(&self) -> (r: u64)
        ensures
            r == self.next(),
    {
        self.next_expected_index
    }

    /// Takes chunk `k` and returns what the consumer gets, in order (see `received`).
    pub fn receive(&mut self, k: u32, data: Vec<u8>) -> (out: Vec<Vec<u8>>)
        requires
            old(self).wf(),
        ensures
            final(self).wf(),
            received(old(self), final(self), k, data, out@),
    {
        let mut out: Vec<Vec<u8>> = Vec::new();
        if (k as u64) < self.next_expected_index {
            return out;
        }
        if (k as u64) > self.next_expected_index {
            let ghost b0 = self.buffered();
            self.chunk_buffer.insert(k, data);
            proof {
                assert(self.buffered() == b0.insert(k, data));
                assert forall|x: u32| #[trigger] self.buffered().contains_key(x) implies x as nat > self.next() by {
                    if x != k {
                        assert(b0.contains_key(x));
                    }
                }
            }
            return out;
        }
        let ghost n0 = self.next();
        let ghost b0 = self.buffered();
        out.push(data);
        self.next_expected_index = self.next_expected_index + 1;
        proof {
            assert(self.buffered() =~= b0.remove_keys(Set::new(|x: u32| n0 < x && (x as nat) < self.next())));
        }
        while self.next_expected_index < 0x1_0000_0000 && self.chunk_buffer.contains_key(&(self.next_expected_index as u32))
            invariant
                n0 < self.next() <= 0x1_0000_0000,
                self.next() == n0 + out@.len(),
                out@.len() >= 1,
                out@[0] == data,
                forall|j: int| 1 <= j < out@.len() ==> #[trigger] out@[j] == b0[(n0 + j) as u32],
                forall|j: int| 1 <= j < out@.len() ==> b0.contains_key(#[trigger] (n0 + j) as u32),
                forall|x: u32| #[trigger] b0.contains_key(x) ==> x as nat > n0,
                self.buffered() == b0.remove_keys(Set::new(|x: u32| n0 < x && (x as nat) < self.next())),
            decreases 0x1_0000_0000 - self.next(),
        {
            let key = self.next_expected_index as u32;
            let c = self.chunk_buffer.remove(&key);
            match c {
                Some(c) => {
                    out.push(c);
                },
                None => {},
            }
            self.next_expected_index = self.next_expected_index + 1;
            proof {
                assert(self.buffered() =~= b0.remove_keys(Set::new(|x: u32| n0 < x && (x as nat) < self.next())));
            }
        }
        out
    }
}

} // verus!
