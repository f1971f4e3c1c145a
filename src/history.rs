//! A bounded byte history: the most recent output of a session, kept so that a
//! client attaching late sees recent bytes rather than nothing.
use vstd::prelude::*;

verus! {

/// The last `n` elements of `s` (all of `s` when it is shorter).
pub open spec fn keep_last(s: Seq<u8>, n: nat) -> Seq<u8> {
    if s.len() <= n {
        s
    } else {
        s.subrange(s.len() - n, s.len() as int)
    }
}

proof fn lemma_keep_last_push(s: Seq<u8>, n: nat, b: u8)
    ensures
        keep_last(keep_last(s, n).push(b), n) == keep_last(s.push(b), n),
{
    let t = keep_last(s, n);
    if s.len() > n {
        assert(keep_last(t.push(b), n) =~= keep_last(s.push(b), n));
    }
}

/// Trimming before appending keeps the same last `n` bytes as trimming after.
pub proof fn lemma_keep_last_append(s: Seq<u8>, d: Seq<u8>, n: nat)
    ensures
        keep_last(keep_last(s, n) + d, n) == keep_last(s + d, n),
{
    if s.len() > n {
        assert(keep_last(keep_last(s, n) + d, n) =~= keep_last(s + d, n));
    }
}

/// A ring of at most `cap` bytes; on overflow the oldest bytes are dropped.
pub struct History {
    bytes: Vec<u8>,
    cap: usize,
}

impl History {
    pub closed spec fn view(&self) -> Seq<u8> {
        self.bytes@
    }

    pub closed spec fn capacity(&self) -> nat {
        self.cap as nat
    }

    pub closed spec fn wf(&self) -> bool {
        self.bytes@.len() <= self.cap
    }

    /// An empty history that keeps at most `cap` bytes.
    pub fn new(cap: usize) -> (h: History)
        ensures
            h.wf(),
            h@ == Seq::<u8>::empty(),
            h.capacity() == cap,
    {
        History { bytes: Vec::new(), cap }
    }

    /// The most bytes the history keeps.
    pub fn cap(&self) -> (r: usize)
        ensures
            r == self.capacity(),
    {
        self.cap
    }

    /// Appends `data`, discarding the oldest bytes beyond the capacity.
    pub fn push(&mut self, data: &[u8])
        requires
            old(self).wf(),
        ensures
            final(self).wf(),
            final(self).capacity() == old(self).capacity(),
            final(self)@ == keep_last(old(self)@ + data@, old(self).capacity()),
    {
        let ghost start = self.bytes@;
        let mut i: usize = 0;
        assert(start + data@.subrange(0, 0) =~= start);
        while i < data.len()
            invariant
                i <= data@.len(),
                self.cap == old(self).cap,
                self.bytes@.len() <= self.cap,
                start == old(self).bytes@,
                self.bytes@ == keep_last(start + data@.subrange(0, i as int), self.cap as nat),
            decreases data@.len() - i,
        {
            let b = data[i];
            proof {
                lemma_keep_last_push(start + data@.subrange(0, i as int), self.cap as nat, b);
                assert((start + data@.subrange(0, i as int)).push(b) =~= start + data@.subrange(
                    0,
                    i + 1,
                ));
            }
            self.bytes.push(b);
            if self.bytes.len() > self.cap {
                self.bytes.remove(0);
            }
            i = i + 1;
        }
        assert(data@.subrange(0, data@.len() as int) =~= data@);
    }

    /// A copy of the retained bytes, oldest first.
    pub fn contents(&self) -> (r: Vec<u8>)
        ensures
            r@ == self@,
    {
        let mut r: Vec<u8> = Vec::new();
        let mut i: usize = 0;
        while i < self.bytes.len()
            invariant
                i <= self.bytes@.len(),
                r@ == self.bytes@.subrange(0, i as int),
            decreases self.bytes@.len() - i,
        {
            r.push(self.bytes[i]);
            assert(r@ =~= self.bytes@.subrange(0, i + 1));
            i = i + 1;
        }
        assert(r@ =~= self.bytes@);
        r
    }
}

} // verus!
