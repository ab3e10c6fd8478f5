//! Streaming digest transforms: a set of live hashers fed once per byte,
//! wrapped around an arbitrary inner source or sink.

use vstd::prelude::*;
use crate::algorithm::Algorithm;
use crate::hashing::{Hasher, spec_digest};
use crate::content_digest::{
    ContentDigest, contains_alg, lemma_insert_sorted_append,
};

verus! {

/// The digest set that algorithms `algs` assign to `data`.
pub open spec fn spec_digest_entries(algs: Seq<Algorithm>, data: Seq<u8>) -> Seq<
    (Algorithm, Seq<u8>),
> {
    algs.map_values(|a: Algorithm| (a, spec_digest(a, data)))
}

/// One live hasher per active algorithm, all fed the same bytes.
pub struct HasherSet {
    hashers: Vec<Hasher>,
    fed: Ghost<Seq<u8>>,
}

impl HasherSet {
    /// The algorithms, in the order their hashers stand.
    pub closed spec fn spec_algs(self) -> Seq<Algorithm> {
        self.hashers@.map_values(|h: Hasher| h.spec_alg())
    }

    /// The bytes every hasher has been fed so far.
    pub closed spec fn fed(self) -> Seq<u8> {
        self.fed@
    }

    /// Hashers are live, in strict algorithm order, and in step.
    pub closed spec fn wf(self) -> bool {
        &&& forall|i: int|
            0 <= i < self.hashers@.len() ==> (#[trigger] self.hashers@[i]).wf()
                && self.hashers@[i].fed() == self.fed@
        &&& forall|i: int, j: int|
            #![trigger self.hashers@[i], self.hashers@[j]]
            0 <= i < j < self.hashers@.len() ==> self.hashers@[i].spec_alg().spec_rank()
                < self.hashers@[j].spec_alg().spec_rank()
    }

    /// Fresh hashers for the given algorithms, which must be in strict order.
    pub fn new(algs: &[Algorithm]) -> (r: HasherSet)
        requires
            forall|i: int, j: int|
                #![trigger algs@[i], algs@[j]]
                0 <= i < j < algs@.len() ==> algs@[i].spec_rank() < algs@[j].spec_rank(),
        ensures
            r.wf(),
            r.spec_algs() == algs@,
            r.fed() == Seq::<u8>::empty(),
    {
        let mut hashers: Vec<Hasher> = Vec::new();
        let mut i: usize = 0;
        while i < algs.len()
            invariant
                0 <= i as int <= algs@.len(),
                hashers@.len() == i as int,
                forall|j: int|
                    0 <= j < i ==> (#[trigger] hashers@[j]).wf() && hashers@[j].spec_alg()
                        == algs@[j] && hashers@[j].fed() == Seq::<u8>::empty(),
            decreases algs@.len() - i,
        {
            hashers.push(Hasher::new(algs[i]));
            i = i + 1;
        }
        let r = HasherSet { hashers, fed: Ghost(Seq::empty()) };
        proof {
            assert(r.spec_algs() =~= algs@);
            assert forall|a: int, b: int|
                #![trigger r.hashers@[a], r.hashers@[b]]
                0 <= a < b < r.hashers@.len() implies r.hashers@[a].spec_alg().spec_rank()
                < r.hashers@[b].spec_alg().spec_rank() by {
                assert(r.hashers@[a].spec_alg() == algs@[a]);
                assert(r.hashers@[b].spec_alg() == algs@[b]);
            }
        }
        r
    }

    /// Feeds `data` to every hasher, exactly once.
    pub fn update(&mut self, data: &[u8])
        requires
            old(self).wf(),
        ensures
            final(self).wf(),
            final(self).spec_algs() == old(self).spec_algs(),
            final(self).fed() == old(self).fed() + data@,
    {
        let ghost h0 = self.hashers@;
        let n = self.hashers.len();
        let mut i: usize = 0;
        while i < n
            invariant
                0 <= i as int <= n as int,
                n as int == self.hashers@.len(),
                h0.len() == n as int,
                forall|j: int|
                    0 <= j < h0.len() ==> (#[trigger] h0[j]).wf() && h0[j].fed()
                        == old(self).fed@,
                forall|j: int|
                    i <= j < h0.len() ==> #[trigger] self.hashers@[j] == h0[j],
                forall|j: int|
                    0 <= j < i ==> (#[trigger] self.hashers@[j]).wf() && self.hashers@[j].fed()
                        == old(self).fed@ + data@ && self.hashers@[j].spec_alg()
                        == h0[j].spec_alg(),
                self.fed@ == old(self).fed@,
            decreases n - i,
        {
            let h = &mut self.hashers;
            let ghost pre = h@;
            let mut hi = h.remove(i);
            hi.update(data);
            h.insert(i, hi);
            proof {
                assert forall|j: int| 0 <= j < h@.len() && j != i implies #[trigger] h@[j]
                    == pre[j] by {
                    assert(h@ =~= pre.remove(i as int).insert(i as int, h@[i as int]));
                }
            }
            i = i + 1;
        }
        proof {
            self.fed@ = old(self).fed@ + data@;
        }
        proof {
            assert(self.spec_algs() =~= old(self).spec_algs());
        }
    }

    /// The digest set for everything fed so far; hashers stay usable.
    pub fn digests(&self) -> (r: ContentDigest)
        requires
            self.wf(),
        ensures
            r@ == spec_digest_entries(self.spec_algs(), self.fed()),
            r.wf(),
    {
        let ghost target = spec_digest_entries(self.spec_algs(), self.fed());
        let mut out = ContentDigest::default();
        let mut i: usize = 0;
        let n = self.hashers.len();
        proof {
            assert(out@ =~= target.take(0));
        }
        while i < n
            invariant
                0 <= i as int <= n as int,
                n as int == self.hashers@.len(),
                self.wf(),
                target == spec_digest_entries(self.spec_algs(), self.fed()),
                out.wf(),
                out@ == target.take(i as int),
            decreases n - i,
        {
            let d = self.hashers[i].digest();
            let a = self.hashers[i].alg();
            proof {
                assert(target[i as int] == (a, spec_digest(a, self.fed())));
                assert forall|j: int| 0 <= j < out@.len() implies (#[trigger] out@[j]).0.spec_rank()
                    < a.spec_rank() by {
                    assert(out@[j] == target[j]);
                    assert(target[j].0 == self.hashers@[j].spec_alg());
                }
                assert(!contains_alg(out@, a)) by {
                    if contains_alg(out@, a) {
                        let j = choose|j: int|
                            0 <= j < out@.len() && (#[trigger] out@[j]).0 == a;
                        assert(out@[j].0.spec_rank() < a.spec_rank());
                    }
                }
                lemma_insert_sorted_append(out@, a, d@);
            }
            let ghost pre = out@;
            match out.insert(a, d) {
                Ok(_) => {
                    proof {
                        assert(out@ =~= target.take(i as int + 1));
                    }
                },
                Err(_) => {
                    proof {
                        assert(false);
                    }
                },
            }
            i = i + 1;
        }
        proof {
            assert(target.take(n as int) =~= target);
        }
        out
    }
}

/// A pass-through reader: bytes read from `reader` are fed to the hashers.
///
/// The inner handle is a plain field; the surrounding program drives the
/// actual reads and hands each chunk to `update`.
pub struct Reader<T> {
    pub reader: T,
    pub hashers: HasherSet,
}

impl<T> Reader<T> {
    /// Wraps `reader` with a set of live hashers.
    pub fn new(reader: T, hashers: HasherSet) -> (r: Reader<T>)
        requires
            hashers.wf(),
        ensures
            r.wf(),
            r.spec_algs() == hashers.spec_algs(),
            r.fed() == hashers.fed(),
            r.reader == reader,
    {
        Reader { reader, hashers }
    }

    pub closed spec fn spec_algs(self) -> Seq<Algorithm> {
        self.hashers.spec_algs()
    }

    pub closed spec fn fed(self) -> Seq<u8> {
        self.hashers.fed()
    }

    pub closed spec fn wf(self) -> bool {
        self.hashers.wf()
    }

    /// Feeds one chunk of bytes that was read from the inner reader.
    pub fn update(&mut self, data: &[u8])
        requires
            old(self).wf(),
        ensures
            final(self).wf(),
            final(self).spec_algs() == old(self).spec_algs(),
            final(self).fed() == old(self).fed() + data@,
            final(self).reader == old(self).reader,
    {
        self.hashers.update(data);
    }

    /// The digests of all bytes fed so far; reading can continue after.
    pub fn digests(&self) -> (r: ContentDigest)
        requires
            self.wf(),
        ensures
            r@ == spec_digest_entries(self.spec_algs(), self.fed()),
            r.wf(),
    {
        self.hashers.digests()
    }
}

/// A pass-through writer: bytes written to `writer` are fed to the hashers.
pub struct Writer<T> {
    pub writer: T,
    pub hashers: HasherSet,
}

impl<T> Writer<T> {
    /// Wraps `writer` with a set of live hashers.
    pub fn new(writer: T, hashers: HasherSet) -> (r: Writer<T>)
        requires
            hashers.wf(),
        ensures
            r.wf(),
            r.spec_algs() == hashers.spec_algs(),
            r.fed() == hashers.fed(),
            r.writer == writer,
    {
        Writer { writer, hashers }
    }

    pub closed spec fn spec_algs(self) -> Seq<Algorithm> {
        self.hashers.spec_algs()
    }

    pub closed spec fn fed(self) -> Seq<u8> {
        self.hashers.fed()
    }

    pub closed spec fn wf(self) -> bool {
        self.hashers.wf()
    }

    /// Feeds one chunk of bytes that was written to the inner writer.
    pub fn update(&mut self, data: &[u8])
        requires
            old(self).wf(),
        ensures
            final(self).wf(),
            final(self).spec_algs() == old(self).spec_algs(),
            final(self).fed() == old(self).fed() + data@,
            final(self).writer == old(self).writer,
    {
        self.hashers.update(data);
    }

    /// The digests of all bytes fed so far; writing can continue after.
    pub fn digests(&self) -> (r: ContentDigest)
        requires
            self.wf(),
        ensures
            r@ == spec_digest_entries(self.spec_algs(), self.fed()),
            r.wf(),
    {
        self.hashers.digests()
    }
}

/// The bytes accumulated after feeding each chunk in order.
pub open spec fn fed_after(start: Seq<u8>, chunks: Seq<Seq<u8>>) -> Seq<u8>
    decreases chunks.len(),
{
    if chunks.len() == 0 {
        start
    } else {
        fed_after(start + chunks[0], chunks.drop_first())
    }
}

/// Incremental feeding equals one pass: feeding any sequence of chunks
/// accumulates exactly their concatenation, so `digests` — a function of
/// the accumulated bytes alone — is the same as for a single whole-stream
/// update.
pub proof fn lemma_incremental_feed(start: Seq<u8>, chunks: Seq<Seq<u8>>)
    ensures
        fed_after(start, chunks) == start + chunks.flatten(),
    decreases chunks.len(),
{
    if chunks.len() == 0 {
        assert(start + chunks.flatten() =~= start);
    } else {
        lemma_incremental_feed(start + chunks[0], chunks.drop_first());
        assert(chunks.flatten() == chunks[0] + chunks.drop_first().flatten());
        assert((start + chunks[0]) + chunks.drop_first().flatten() =~= start + (chunks[0]
            + chunks.drop_first().flatten()));
    }
}

} // verus!
