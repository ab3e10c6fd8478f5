//! The active, ordered set of algorithms, and one-shot digesting.

use vstd::prelude::*;
use crate::algorithm::{Algorithm, lemma_rank_injective};
use crate::content_digest::ContentDigest;
use crate::streams::{HasherSet, Reader, Writer, spec_digest_entries};

verus! {

/// Where `a` belongs in an ordered algorithm list.
pub open spec fn alg_insert_sorted(s: Seq<Algorithm>, a: Algorithm) -> Seq<Algorithm>
    decreases s.len(),
{
    if s.len() == 0 {
        seq![a]
    } else if a.spec_rank() < s[0].spec_rank() {
        seq![a] + s
    } else if a.spec_rank() == s[0].spec_rank() {
        s
    } else {
        seq![s[0]] + alg_insert_sorted(s.drop_first(), a)
    }
}

/// A set of distinct algorithms, kept in the canonical total order.
pub struct Algorithms {
    algs: Vec<Algorithm>,
}

impl View for Algorithms {
    type V = Seq<Algorithm>;

    closed spec fn view(&self) -> Seq<Algorithm> {
        self.algs@
    }
}

/// Strictly increasing ranks: ordered, and no algorithm twice.
pub open spec fn algs_sorted(s: Seq<Algorithm>) -> bool {
    forall|i: int, j: int|
        #![trigger s[i], s[j]]
        0 <= i < j < s.len() ==> s[i].spec_rank() < s[j].spec_rank()
}

impl Default for Algorithms {
    /// The baseline set: all four supported algorithms, in order.
    fn default() -> (r: Algorithms)
        ensures
            r@ == seq![
                Algorithm::Sha224,
                Algorithm::Sha256,
                Algorithm::Sha384,
                Algorithm::Sha512,
            ],
            r.wf(),
    {
        let mut algs: Vec<Algorithm> = Vec::new();
        algs.push(Algorithm::Sha224);
        algs.push(Algorithm::Sha256);
        algs.push(Algorithm::Sha384);
        algs.push(Algorithm::Sha512);
        let r = Algorithms { algs };
        proof {
            assert(r@ =~= seq![
                Algorithm::Sha224,
                Algorithm::Sha256,
                Algorithm::Sha384,
                Algorithm::Sha512,
            ]);
        }
        r
    }
}

impl Algorithms {
    pub open spec fn wf(self) -> bool {
        algs_sorted(self@)
    }

    /// The empty set.
    pub fn empty() -> (r: Algorithms)
        ensures
            r@ == Seq::<Algorithm>::empty(),
            r.wf(),
    {
        let r = Algorithms { algs: Vec::new() };
        proof {
            assert(r@ =~= Seq::<Algorithm>::empty());
        }
        r
    }

    /// How many algorithms are active.
    pub fn len(&self) -> (r: usize)
        ensures
            r as int == self@.len(),
    {
        self.algs.len()
    }

    /// The algorithms in order.
    pub fn as_slice(&self) -> (r: &[Algorithm])
        ensures
            r@ == self@,
    {
        self.algs.as_slice()
    }

    /// Adds `a` at its ordered position; a set member is not added twice.
    pub fn insert(&mut self, a: Algorithm) -> (added: bool)
        requires
            old(self).wf(),
        ensures
            final(self).wf(),
            final(self)@ == alg_insert_sorted(old(self)@, a),
            added == !old(self)@.contains(a),
    {
        let ghost v0 = self@;
        let mut k: usize = 0;
        while k < self.algs.len() && self.algs[k].rank() < a.rank()
            invariant
                0 <= k as int <= v0.len(),
                self@ == v0,
                old(self).wf(),
                forall|j: int| 0 <= j < k ==> (#[trigger] v0[j]).spec_rank() < a.spec_rank(),
            decreases v0.len() - k,
        {
            k = k + 1;
        }
        if k < self.algs.len() && self.algs[k].rank() == a.rank() {
            proof {
                lemma_rank_injective(v0[k as int], a);
                lemma_alg_insert_splice(v0, a, k as int, true);
            }
            return false;
        }
        self.algs.insert(k, a);
        proof {
            lemma_alg_insert_splice(v0, a, k as int, false);
            assert(self@ =~= v0.take(k as int) + seq![a] + v0.skip(k as int));
            if v0.contains(a) {
                let j = choose|j: int| 0 <= j < v0.len() && v0[j] == a;
                if j < k as int {
                    assert(v0[j].spec_rank() < a.spec_rank());
                } else {
                    assert(v0[k as int].spec_rank() > a.spec_rank());
                    assert(v0[k as int].spec_rank() <= v0[j].spec_rank());
                }
            }
            let nv = self@;
            assert forall|i: int, j: int|
                #![trigger nv[i], nv[j]]
                0 <= i < j < nv.len() implies nv[i].spec_rank() < nv[j].spec_rank() by {
                let ki = k as int;
                if i < ki {
                    assert(nv[i] == v0[i]);
                } else if i == ki {
                    assert(nv[i] == a);
                } else {
                    assert(nv[i] == v0[i - 1]);
                }
                if j < ki {
                    assert(nv[j] == v0[j]);
                } else if j == ki {
                    assert(nv[j] == a);
                } else {
                    assert(nv[j] == v0[j - 1]);
                }
            }
        }
        true
    }

    /// A reader wrapping `reader` that digests everything read through it.
    pub fn reader<T>(&self, reader: T) -> (r: Reader<T>)
        requires
            self.wf(),
        ensures
            r.wf(),
            r.spec_algs() == self@,
            r.fed() == Seq::<u8>::empty(),
            r.reader == reader,
    {
        Reader::new(reader, HasherSet::new(self.as_slice()))
    }

    /// A writer wrapping `writer` that digests everything written through it.
    pub fn writer<T>(&self, writer: T) -> (r: Writer<T>)
        requires
            self.wf(),
        ensures
            r.wf(),
            r.spec_algs() == self@,
            r.fed() == Seq::<u8>::empty(),
            r.writer == writer,
    {
        Writer::new(writer, HasherSet::new(self.as_slice()))
    }

    /// Digests a whole in-memory byte sequence in one pass, returning the
    /// byte count and the digest set.
    pub fn digest_bytes(&self, data: &[u8]) -> (r: (u64, ContentDigest))
        requires
            self.wf(),
            data@.len() <= u64::MAX,
        ensures
            r.0 == data@.len(),
            r.1@ == spec_digest_entries(self@, data@),
            r.1.wf(),
    {
        let mut hashers = HasherSet::new(self.as_slice());
        hashers.update(data);
        proof {
            assert(Seq::<u8>::empty() + data@ =~= data@);
        }
        (data.len() as u64, hashers.digests())
    }
}

impl ContentDigest {
    /// A reader computing this digest set's algorithms over `reader`.
    pub fn reader<T>(&self, reader: T) -> (r: Reader<T>)
        requires
            self.wf(),
        ensures
            r.wf(),
            r.spec_algs() == self@.map_values(|e: (Algorithm, Seq<u8>)| e.0),
            r.fed() == Seq::<u8>::empty(),
            r.reader == reader,
    {
        self.algorithms().reader(reader)
    }

    /// The set of algorithms this digest set covers, in order.
    pub fn algorithms(&self) -> (r: Algorithms)
        requires
            self.wf(),
        ensures
            r@ == self@.map_values(|e: (Algorithm, Seq<u8>)| e.0),
            r.wf(),
    {
        let ghost target = self@.map_values(|e: (Algorithm, Seq<u8>)| e.0);
        let mut algs: Vec<Algorithm> = Vec::new();
        let mut i: usize = 0;
        let n = self.len();
        while i < n
            invariant
                0 <= i as int <= n as int,
                n as int == self@.len(),
                self.wf(),
                target == self@.map_values(|e: (Algorithm, Seq<u8>)| e.0),
                algs@ == target.take(i as int),
            decreases n - i,
        {
            algs.push(self.alg_at(i));
            proof {
                assert(target[i as int] == self@[i as int].0);
                assert(algs@ =~= target.take(i as int + 1));
            }
            i = i + 1;
        }
        proof {
            assert(target.take(n as int) =~= target);
        }
        let r = Algorithms { algs };
        proof {
            assert forall|i0: int, j0: int|
                #![trigger r@[i0], r@[j0]]
                0 <= i0 < j0 < r@.len() implies r@[i0].spec_rank() < r@[j0].spec_rank() by {
                assert(r@[i0] == self@[i0].0);
                assert(r@[j0] == self@[j0].0);
            }
        }
        r
    }
}

/// `alg_insert_sorted` splices at the position `k` where the ranks cross,
/// or keeps the list when the algorithm is already there.
proof fn lemma_alg_insert_splice(s: Seq<Algorithm>, a: Algorithm, k: int, present: bool)
    requires
        0 <= k <= s.len(),
        forall|j: int| 0 <= j < k ==> (#[trigger] s[j]).spec_rank() < a.spec_rank(),
        present ==> k < s.len() && s[k].spec_rank() == a.spec_rank(),
        !present ==> k < s.len() ==> s[k].spec_rank() > a.spec_rank(),
    ensures
        present ==> alg_insert_sorted(s, a) == s,
        !present ==> alg_insert_sorted(s, a) == s.take(k) + seq![a] + s.skip(k),
    decreases k,
{
    if k == 0 {
        if !present {
            assert(alg_insert_sorted(s, a) =~= s.take(0) + seq![a] + s.skip(0));
        }
    } else {
        let t = s.drop_first();
        assert forall|j: int| 0 <= j < k - 1 implies (#[trigger] t[j]).spec_rank()
            < a.spec_rank() by {
            assert(t[j] == s[j + 1]);
        }
        assert(k - 1 <= t.len());
        assert(present ==> k - 1 < t.len() && t[k - 1].spec_rank() == a.spec_rank());
        lemma_alg_insert_splice(t, a, k - 1, present);
        if present {
            assert(alg_insert_sorted(s, a) == seq![s[0]] + t);
            assert(seq![s[0]] + t =~= s);
        } else {
            assert(alg_insert_sorted(s, a) == seq![s[0]] + (t.take(k - 1) + seq![a] + t.skip(k
                - 1)));
            assert(seq![s[0]] + (t.take(k - 1) + seq![a] + t.skip(k - 1)) =~= s.take(k) + seq![a]
                + s.skip(k));
        }
    }
}

} // verus!
