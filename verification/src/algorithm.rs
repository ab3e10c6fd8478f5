//! The closed set of supported hash algorithms and their fixed total order.

use vstd::prelude::*;

verus! {

/// One supported cryptographic hash function.
///
/// The declaration order is the canonical total order used for encoding
/// digest sets: `sha-224 < sha-256 < sha-384 < sha-512`.
#[derive(Clone, Copy, Debug, PartialEq, Eq, Structural, Hash)]
pub enum Algorithm {
    Sha224,
    Sha256,
    Sha384,
    Sha512,
}

impl Algorithm {
    /// Position of this algorithm in the canonical total order.
    pub open spec fn spec_rank(self) -> int {
        match self {
            Algorithm::Sha224 => 0,
            Algorithm::Sha256 => 1,
            Algorithm::Sha384 => 2,
            Algorithm::Sha512 => 3,
        }
    }

    /// Byte length of this algorithm's digest output.
    pub open spec fn spec_digest_len(self) -> int {
        match self {
            Algorithm::Sha224 => 28,
            Algorithm::Sha256 => 32,
            Algorithm::Sha384 => 48,
            Algorithm::Sha512 => 64,
        }
    }

    /// The hyphenated lowercase name of the algorithm, as a byte sequence.
    pub open spec fn spec_name(self) -> Seq<u8> {
        match self {
            Algorithm::Sha224 => seq![115u8, 104u8, 97u8, 45u8, 50u8, 50u8, 52u8],
            Algorithm::Sha256 => seq![115u8, 104u8, 97u8, 45u8, 50u8, 53u8, 54u8],
            Algorithm::Sha384 => seq![115u8, 104u8, 97u8, 45u8, 51u8, 56u8, 52u8],
            Algorithm::Sha512 => seq![115u8, 104u8, 97u8, 45u8, 53u8, 49u8, 50u8],
        }
    }

    pub fn rank(self) -> (r: u8)
        ensures
            r as int == self.spec_rank(),
    {
        match self {
            Algorithm::Sha224 => 0,
            Algorithm::Sha256 => 1,
            Algorithm::Sha384 => 2,
            Algorithm::Sha512 => 3,
        }
    }

    pub fn digest_len(self) -> (r: usize)
        ensures
            r as int == self.spec_digest_len(),
    {
        match self {
            Algorithm::Sha224 => 28,
            Algorithm::Sha256 => 32,
            Algorithm::Sha384 => 48,
            Algorithm::Sha512 => 64,
        }
    }

    /// The canonical name, e.g. `sha-256`, as bytes.
    pub fn name_bytes(self) -> (r: Vec<u8>)
        ensures
            r@ == self.spec_name(),
    {
        let mut v: Vec<u8> = Vec::new();
        v.push(115u8);
        v.push(104u8);
        v.push(97u8);
        v.push(45u8);
        match self {
            Algorithm::Sha224 => {
                v.push(50u8);
                v.push(50u8);
                v.push(52u8);
            },
            Algorithm::Sha256 => {
                v.push(50u8);
                v.push(53u8);
                v.push(54u8);
            },
            Algorithm::Sha384 => {
                v.push(51u8);
                v.push(56u8);
                v.push(52u8);
            },
            Algorithm::Sha512 => {
                v.push(53u8);
                v.push(49u8);
                v.push(50u8);
            },
        }
        proof {
            assert(v@ =~= self.spec_name());
        }
        v
    }

    /// The algorithm whose canonical name is `b`, if any.
    pub fn from_name_bytes(b: &[u8]) -> (r: Option<Algorithm>)
        ensures
            match r {
                Some(a) => b@ == a.spec_name(),
                None => forall|a: Algorithm| b@ != a.spec_name(),
            },
            r == spec_alg_of(b@),
    {
        let candidates = [
            Algorithm::Sha224,
            Algorithm::Sha256,
            Algorithm::Sha384,
            Algorithm::Sha512,
        ];
        let mut i: usize = 0;
        while i < 4
            invariant
                0 <= i <= 4,
                candidates@.len() == 4,
                candidates@[0] == Algorithm::Sha224,
                candidates@[1] == Algorithm::Sha256,
                candidates@[2] == Algorithm::Sha384,
                candidates@[3] == Algorithm::Sha512,
                forall|j: int| 0 <= j < i ==> b@ != candidates@[j].spec_name(),
            decreases 4 - i,
        {
            let name = candidates[i].name_bytes();
            if bytes_eq(b, name.as_slice()) {
                return Some(candidates[i]);
            }
            i = i + 1;
        }
        proof {
            assert forall|a: Algorithm| b@ != a.spec_name() by {
                assert(a == Algorithm::Sha224 || a == Algorithm::Sha256 || a == Algorithm::Sha384
                    || a == Algorithm::Sha512);
            }
        }
        None
    }
}

/// The algorithm with canonical name `name`, if any.
pub open spec fn spec_alg_of(name: Seq<u8>) -> Option<Algorithm> {
    if name == Algorithm::Sha224.spec_name() {
        Some(Algorithm::Sha224)
    } else if name == Algorithm::Sha256.spec_name() {
        Some(Algorithm::Sha256)
    } else if name == Algorithm::Sha384.spec_name() {
        Some(Algorithm::Sha384)
    } else if name == Algorithm::Sha512.spec_name() {
        Some(Algorithm::Sha512)
    } else {
        None
    }
}

/// Looking an algorithm's own name up finds that algorithm.
pub proof fn lemma_alg_of_name(a: Algorithm)
    ensures
        spec_alg_of(a.spec_name()) == Some(a),
{
    assert(Algorithm::Sha224.spec_name()[5] == 50 && Algorithm::Sha256.spec_name()[5] == 53);
    assert(Algorithm::Sha224.spec_name()[4] == 50 && Algorithm::Sha384.spec_name()[4] == 51
        && Algorithm::Sha512.spec_name()[4] == 53);
    assert(Algorithm::Sha256.spec_name()[4] == 50);
    assert(Algorithm::Sha384.spec_name()[5] == 56 && Algorithm::Sha512.spec_name()[5] == 49);
}

/// Distinct algorithms have distinct ranks.
pub proof fn lemma_rank_injective(a: Algorithm, b: Algorithm)
    requires
        a.spec_rank() == b.spec_rank(),
    ensures
        a == b,
{
}

/// Every byte of a canonical algorithm name is a printable ASCII byte other
/// than the comma, pad, and colon used by the digest text format.
pub proof fn lemma_name_bytes(a: Algorithm)
    ensures
        a.spec_name().len() == 7,
        forall|i: int|
            0 <= i < a.spec_name().len() ==> 45 <= #[trigger] a.spec_name()[i] <= 122
                && a.spec_name()[i] != 61 && a.spec_name()[i] != 58 && a.spec_name()[i] != 47,
{
    let n = a.spec_name();
    assert forall|i: int| 0 <= i < n.len() implies 45 <= #[trigger] n[i] <= 122 && n[i] != 61
        && n[i] != 58 && n[i] != 47 by {
        assert(i == 0 || i == 1 || i == 2 || i == 3 || i == 4 || i == 5 || i == 6);
    }
}

/// Whether two byte slices hold the same bytes.
pub fn bytes_eq(a: &[u8], b: &[u8]) -> (r: bool)
    ensures
        r == (a@ == b@),
{
    if a.len() != b.len() {
        proof {
            assert(a@.len() != b@.len());
        }
        return false;
    }
    let mut i: usize = 0;
    while i < a.len()
        invariant
            0 <= i <= a@.len(),
            a@.len() == b@.len(),
            forall|j: int| 0 <= j < i ==> a@[j] == b@[j],
        decreases a@.len() - i,
    {
        if a[i] != b[i] {
            return false;
        }
        i = i + 1;
    }
    proof {
        assert(a@ =~= b@);
    }
    true
}

} // verus!
