//! An ordered digest set for one payload, with its canonical text form.

use vstd::prelude::*;
use vstd::string::StringSliceAdditionalSpecFns;
use crate::algorithm::{Algorithm, bytes_eq, spec_alg_of, lemma_rank_injective, lemma_name_bytes};
use crate::base64;
use crate::split::{
    split_at_sep, join_with_sep, find_pair, split_bytes, find_pair_u8, lemma_split_join,
    lemma_join_push, lemma_find_pair_at,
};

verus! {

/// Why a digest text or an insertion is rejected.
#[derive(Clone, Copy, Debug, PartialEq, Eq, Structural)]
pub enum DigestError {
    /// An entry is not of the form `name=:body:`.
    MalformedEntry,
    /// An entry's algorithm name is not recognized.
    UnknownAlgorithm,
    /// An entry's body is not canonical base64.
    InvalidBase64,
    /// Decoded bytes do not have the algorithm's digest length.
    InvalidLength,
    /// The same algorithm occurs twice.
    DuplicateAlgorithm,
}

impl DigestError {
    /// A human-readable reason.
    pub fn message(&self) -> (r: String)
        ensures
            *self == DigestError::MalformedEntry ==> r@ == "malformed digest entry"@,
            *self == DigestError::UnknownAlgorithm ==> r@ == "unknown algorithm name"@,
            *self == DigestError::InvalidBase64 ==> r@ == "invalid base64 digest"@,
            *self == DigestError::InvalidLength ==> r@ == "invalid digest length"@,
            *self == DigestError::DuplicateAlgorithm ==> r@ == "duplicate algorithm"@,
    {
        match self {
            DigestError::MalformedEntry => String::from_str("malformed digest entry"),
            DigestError::UnknownAlgorithm => String::from_str("unknown algorithm name"),
            DigestError::InvalidBase64 => String::from_str("invalid base64 digest"),
            DigestError::InvalidLength => String::from_str("invalid digest length"),
            DigestError::DuplicateAlgorithm => String::from_str("duplicate algorithm"),
        }
    }
}

/// Entries are strictly ordered by the algorithm order.
pub open spec fn entries_sorted(s: Seq<(Algorithm, Seq<u8>)>) -> bool {
    forall|i: int, j: int|
        #![trigger s[i], s[j]]
        0 <= i < j < s.len() ==> s[i].0.spec_rank() < s[j].0.spec_rank()
}

/// Whether some entry carries algorithm `a`.
pub open spec fn contains_alg(s: Seq<(Algorithm, Seq<u8>)>, a: Algorithm) -> bool {
    exists|i: int| 0 <= i < s.len() && (#[trigger] s[i]).0 == a
}

/// Every entry's bytes have its algorithm's digest length.
pub open spec fn entries_len_ok(s: Seq<(Algorithm, Seq<u8>)>) -> bool {
    forall|i: int| 0 <= i < s.len() ==> (#[trigger] s[i]).1.len() == s[i].0.spec_digest_len()
}

/// Where `(a, d)` belongs in an ordered entry list.
pub open spec fn insert_sorted(s: Seq<(Algorithm, Seq<u8>)>, a: Algorithm, d: Seq<u8>) -> Seq<
    (Algorithm, Seq<u8>),
>
    decreases s.len(),
{
    if s.len() == 0 {
        seq![(a, d)]
    } else if a.spec_rank() < s[0].0.spec_rank() {
        seq![(a, d)] + s
    } else {
        seq![s[0]] + insert_sorted(s.drop_first(), a, d)
    }
}

/// `insert_sorted` splices at the position `k` where the ranks cross.
pub proof fn lemma_insert_sorted_splice(
    s: Seq<(Algorithm, Seq<u8>)>,
    a: Algorithm,
    d: Seq<u8>,
    k: int,
)
    requires
        0 <= k <= s.len(),
        forall|j: int| 0 <= j < k ==> (#[trigger] s[j]).0.spec_rank() < a.spec_rank(),
        k < s.len() ==> s[k].0.spec_rank() > a.spec_rank(),
    ensures
        insert_sorted(s, a, d) == s.take(k) + seq![(a, d)] + s.skip(k),
    decreases k,
{
    if k == 0 {
        if s.len() == 0 {
            assert(insert_sorted(s, a, d) =~= s.take(0) + seq![(a, d)] + s.skip(0));
        } else {
            assert(s[0].0.spec_rank() > a.spec_rank());
            assert(insert_sorted(s, a, d) =~= s.take(0) + seq![(a, d)] + s.skip(0));
        }
    } else {
        assert(s[0].0.spec_rank() < a.spec_rank());
        let t = s.drop_first();
        assert forall|j: int| 0 <= j < k - 1 implies (#[trigger] t[j]).0.spec_rank()
            < a.spec_rank() by {
            assert(t[j] == s[j + 1]);
        }
        assert(k - 1 < t.len() ==> t[k - 1].0.spec_rank() > a.spec_rank());
        lemma_insert_sorted_splice(t, a, d, k - 1);
        assert(insert_sorted(s, a, d) == seq![s[0]] + (t.take(k - 1) + seq![(a, d)] + t.skip(k
            - 1)));
        assert(seq![s[0]] + (t.take(k - 1) + seq![(a, d)] + t.skip(k - 1)) =~= s.take(k) + seq![
            (a, d),
        ] + s.skip(k));
    }
}

/// Inserting above every present rank appends at the end.
pub proof fn lemma_insert_sorted_append(s: Seq<(Algorithm, Seq<u8>)>, a: Algorithm, d: Seq<u8>)
    requires
        forall|j: int| 0 <= j < s.len() ==> (#[trigger] s[j]).0.spec_rank() < a.spec_rank(),
    ensures
        insert_sorted(s, a, d) == s.push((a, d)),
{
    lemma_insert_sorted_splice(s, a, d, s.len() as int);
    assert(s.take(s.len() as int) + seq![(a, d)] + s.skip(s.len() as int) =~= s.push((a, d)));
}

/// An ordered mapping from algorithms to their digest bytes for one payload.
#[derive(Debug)]
pub struct ContentDigest {
    entries: Vec<(Algorithm, Vec<u8>)>,
}

impl View for ContentDigest {
    type V = Seq<(Algorithm, Seq<u8>)>;

    closed spec fn view(&self) -> Seq<(Algorithm, Seq<u8>)> {
        self.entries@.map_values(|e: (Algorithm, Vec<u8>)| (e.0, e.1@))
    }
}

impl Default for ContentDigest {
    /// The empty digest set.
    fn default() -> (r: ContentDigest)
        ensures
            r@ == Seq::<(Algorithm, Seq<u8>)>::empty(),
            r.wf(),
    {
        let r = ContentDigest { entries: Vec::new() };
        proof {
            assert(r@ =~= Seq::<(Algorithm, Seq<u8>)>::empty());
        }
        r
    }
}

impl ContentDigest {
    /// Ordered by algorithm, one entry per algorithm, correct lengths.
    pub open spec fn wf(self) -> bool {
        entries_sorted(self@) && entries_len_ok(self@)
    }

    /// How many algorithms have digests here.
    pub fn len(&self) -> (r: usize)
        ensures
            r as int == self@.len(),
    {
        self.entries.len()
    }

    /// The algorithm of the `i`-th entry.
    pub fn alg_at(&self, i: usize) -> (r: Algorithm)
        requires
            i < self@.len(),
        ensures
            r == self@[i as int].0,
    {
        proof {
            assert(self@[i as int] == (self.entries@[i as int].0, self.entries@[i as int].1@));
        }
        self.entries[i].0
    }

    /// Adds the digest `d` for algorithm `a`, keeping the canonical order.
    ///
    /// Fails if `d` has the wrong length for `a`, or if `a` already has an
    /// entry; the set is unchanged on failure.
    pub fn insert(&mut self, a: Algorithm, d: Vec<u8>) -> (r: Result<(), DigestError>)
        requires
            old(self).wf(),
        ensures
            final(self).wf(),
            match r {
                Ok(_) => !contains_alg(old(self)@, a) && d@.len() == a.spec_digest_len()
                    && final(self)@ == insert_sorted(old(self)@, a, d@),
                Err(e) => final(self)@ == old(self)@ && (e == DigestError::InvalidLength || e
                    == DigestError::DuplicateAlgorithm) && (e == DigestError::InvalidLength
                    <==> d@.len() != a.spec_digest_len()) && (e == DigestError::DuplicateAlgorithm
                    <==> d@.len() == a.spec_digest_len() && contains_alg(old(self)@, a)),
            },
    {
        let ghost v0 = self@;
        if d.len() != a.digest_len() {
            return Err(DigestError::InvalidLength);
        }
        let mut k: usize = 0;
        while k < self.entries.len() && self.entries[k].0.rank() < a.rank()
            invariant
                0 <= k as int <= self.entries@.len(),
                self@ == v0,
                old(self).wf(),
                self.wf(),
                forall|j: int| 0 <= j < k ==> (#[trigger] v0[j]).0.spec_rank() < a.spec_rank(),
            decreases self.entries@.len() - k,
        {
            proof {
                assert(v0[k as int] == (self.entries@[k as int].0, self.entries@[k as int].1@));
            }
            k = k + 1;
        }
        proof {
            if k < self.entries.len() {
                assert(v0[k as int] == (self.entries@[k as int].0, self.entries@[k as int].1@));
            }
        }
        if k < self.entries.len() && self.entries[k].0.rank() == a.rank() {
            proof {
                lemma_rank_injective(v0[k as int].0, a);
                assert(contains_alg(v0, a));
            }
            return Err(DigestError::DuplicateAlgorithm);
        }
        let ghost dv = d@;
        self.entries.insert(k, (a, d));
        proof {
            assert forall|j: int| 0 <= j < v0.len() implies (#[trigger] v0[j]) == (
            self.entries@[if j < k { j } else { j + 1 }].0,
            self.entries@[if j < k { j } else { j + 1 }].1@,
            ) by {}
            assert(self@ =~= v0.take(k as int) + seq![(a, dv)] + v0.skip(k as int));
            lemma_insert_sorted_splice(v0, a, dv, k as int);
            let nv = self@;
            // no other entry carries `a`
            assert forall|i: int| 0 <= i < v0.len() implies (#[trigger] v0[i]).0 != a by {
                if i < k {
                    assert(v0[i].0.spec_rank() < a.spec_rank());
                } else if i == k {
                    assert(v0[i].0.spec_rank() > a.spec_rank());
                } else {
                    assert(v0[k as int].0.spec_rank() > a.spec_rank());
                    assert(v0[k as int].0.spec_rank() <= v0[i].0.spec_rank());
                }
            }
            // the new list is still sorted with correct lengths
            assert forall|i: int, j: int|
                #![trigger nv[i], nv[j]]
                0 <= i < j < nv.len() implies nv[i].0.spec_rank() < nv[j].0.spec_rank() by {
                let ki = k as int;
                if i < ki {
                    assert(nv[i] == v0[i]);
                } else if i == ki {
                    assert(nv[i] == (a, dv));
                } else {
                    assert(nv[i] == v0[i - 1]);
                }
                if j < ki {
                    assert(nv[j] == v0[j]);
                } else if j == ki {
                    assert(nv[j] == (a, dv));
                } else {
                    assert(nv[j] == v0[j - 1]);
                }
            }
            assert forall|i: int| 0 <= i < nv.len() implies (#[trigger] nv[i]).1.len()
                == nv[i].0.spec_digest_len() by {
                let ki = k as int;
                if i < ki {
                    assert(nv[i] == v0[i]);
                } else if i == ki {
                    assert(nv[i] == (a, dv));
                } else {
                    assert(nv[i] == v0[i - 1]);
                }
            }
        }
        Ok(())
    }
}

/// The canonical text of one entry: `name=:base64(bytes):`.
pub open spec fn spec_entry_text(e: (Algorithm, Seq<u8>)) -> Seq<u8> {
    e.0.spec_name() + seq![61u8, 58u8] + base64::b64_encode(e.1) + seq![58u8]
}

/// The canonical text of a digest set: entries in order, comma-joined.
pub open spec fn spec_encode(s: Seq<(Algorithm, Seq<u8>)>) -> Seq<u8> {
    join_with_sep(s.map_values(|e: (Algorithm, Seq<u8>)| spec_entry_text(e)), 44u8)
}

/// What parsing one comma-separated entry yields.
pub open spec fn spec_parse_entry(e: Seq<u8>) -> Result<(Algorithm, Seq<u8>), DigestError> {
    let m = find_pair(e, 61u8, 58u8);
    if m < 0 {
        Err(DigestError::MalformedEntry)
    } else {
        let name = e.take(m);
        let rest = e.skip(m + 2);
        if rest.len() < 1 || rest.last() != 58u8 {
            Err(DigestError::MalformedEntry)
        } else {
            let body = rest.take(rest.len() - 1);
            match spec_alg_of(name) {
                Option::None => Err(DigestError::UnknownAlgorithm),
                Option::Some(a) => if !base64::b64_valid(body) {
                    Err(DigestError::InvalidBase64)
                } else if base64::b64_decode(body).len() != a.spec_digest_len() {
                    Err(DigestError::InvalidLength)
                } else {
                    Ok((a, base64::b64_decode(body)))
                },
            }
        }
    }
}

/// What parsing a list of entries yields, given those already accepted.
pub open spec fn spec_parse_list(
    parts: Seq<Seq<u8>>,
    acc: Seq<(Algorithm, Seq<u8>)>,
) -> Result<Seq<(Algorithm, Seq<u8>)>, DigestError>
    decreases parts.len(),
{
    if parts.len() == 0 {
        Ok(acc)
    } else {
        match spec_parse_entry(parts[0]) {
            Err(e) => Err(e),
            Ok(p) => if contains_alg(acc, p.0) {
                Err(DigestError::DuplicateAlgorithm)
            } else {
                spec_parse_list(parts.drop_first(), insert_sorted(acc, p.0, p.1))
            },
        }
    }
}

/// What parsing a whole digest text yields.
pub open spec fn spec_parse(t: Seq<u8>) -> Result<Seq<(Algorithm, Seq<u8>)>, DigestError> {
    spec_parse_list(split_at_sep(t, 44u8), Seq::<(Algorithm, Seq<u8>)>::empty())
}

/// Appends all of `src` to `dst`.
fn push_all(dst: &mut Vec<u8>, src: &[u8])
    ensures
        final(dst)@ == old(dst)@ + src@,
{
    let mut i: usize = 0;
    proof {
        assert(dst@ =~= old(dst)@ + src@.subrange(0, 0));
    }
    while i < src.len()
        invariant
            0 <= i as int <= src@.len(),
            dst@ == old(dst)@ + src@.subrange(0, i as int),
        decreases src@.len() - i,
    {
        dst.push(src[i]);
        proof {
            assert(dst@ =~= old(dst)@ + src@.subrange(0, i as int + 1));
        }
        i = i + 1;
    }
    proof {
        assert(src@.subrange(0, src@.len() as int) =~= src@);
    }
}

/// Relies on `String::from_utf8`: ASCII bytes decode to exactly those
/// characters, one per byte.
#[verifier::external_body]
fn ascii_string(v: Vec<u8>) -> (r: String)
    requires
        forall|i: int| 0 <= i < v@.len() ==> v@[i] < 128,
    ensures
        r@ == v@.map_values(|b: u8| b as char),
        vstd::utf8::encode_utf8(r@) == v@,
{
    String::from_utf8(v).unwrap_or_default()
}

/// Parses one `name=:base64:` entry.
fn parse_entry(part: &[u8]) -> (r: Result<(Algorithm, Vec<u8>), DigestError>)
    ensures
        match r {
            Ok(p) => spec_parse_entry(part@) == Ok::<(Algorithm, Seq<u8>), DigestError>(
                (p.0, p.1@),
            ),
            Err(e) => spec_parse_entry(part@) == Err::<(Algorithm, Seq<u8>), DigestError>(e),
        },
{
    let n = part.len();
    let m = match find_pair_u8(part, 61, 58) {
        Option::None => {
            return Err(DigestError::MalformedEntry);
        },
        Option::Some(m) => m,
    };
    proof {
        crate::split::lemma_find_pair_props(part@, 61u8, 58u8);
    }
    if n - (m + 2) < 1 {
        proof {
            assert(part@.skip(m as int + 2).len() < 1);
        }
        return Err(DigestError::MalformedEntry);
    }
    if part[n - 1] != 58 {
        proof {
            assert(part@.skip(m as int + 2).last() == part@[n as int - 1]);
        }
        return Err(DigestError::MalformedEntry);
    }
    proof {
        assert(part@.skip(m as int + 2).last() == part@[n as int - 1]);
    }
    let name = vstd::slice::slice_subrange(part, 0, m);
    proof {
        assert(name@ =~= part@.take(m as int));
    }
    let a = match Algorithm::from_name_bytes(name) {
        Option::None => {
            return Err(DigestError::UnknownAlgorithm);
        },
        Option::Some(a) => a,
    };
    let body = vstd::slice::slice_subrange(part, m + 2, n - 1);
    proof {
        let rest = part@.skip(m as int + 2);
        assert(body@ =~= rest.take(rest.len() - 1));
    }
    let d = match base64::decode(body) {
        Option::None => {
            return Err(DigestError::InvalidBase64);
        },
        Option::Some(d) => d,
    };
    if d.len() != a.digest_len() {
        return Err(DigestError::InvalidLength);
    }
    Ok((a, d))
}

impl ContentDigest {
    /// Parses the canonical comma-separated digest text, given as bytes.
    ///
    /// Succeeds exactly when every entry is well-formed with a known
    /// algorithm, canonical base64 of the right length, and no algorithm
    /// repeats; entries may come in any order, the result is ordered.
    pub fn parse_bytes(t: &[u8]) -> (r: Result<ContentDigest, DigestError>)
        ensures
            match r {
                Ok(cd) => spec_parse(t@) == Ok::<Seq<(Algorithm, Seq<u8>)>, DigestError>(cd@)
                    && cd.wf(),
                Err(e) => spec_parse(t@) == Err::<Seq<(Algorithm, Seq<u8>)>, DigestError>(e),
            },
    {
        let parts = split_bytes(t, 44);
        let ghost pv = parts@.map_values(|x: Vec<u8>| x@);
        let mut cd = ContentDigest::default();
        let mut i: usize = 0;
        proof {
            assert(pv.skip(0) =~= pv);
        }
        let n = parts.len();
        while i < n
            invariant
                0 <= i as int <= n as int,
                n as int == parts@.len(),
                pv == parts@.map_values(|x: Vec<u8>| x@),
                cd.wf(),
                spec_parse(t@) == spec_parse_list(pv.skip(i as int), cd@),
            decreases n - i,
        {
            let ghost pre = cd@;
            proof {
                assert(pv.skip(i as int)[0] == pv[i as int]);
                assert(pv[i as int] == parts@[i as int]@);
            }
            match parse_entry(parts[i].as_slice()) {
                Err(e) => {
                    return Err(e);
                },
                Ok(p) => {
                    let (a, d) = p;
                    let ghost dv = d@;
                    match cd.insert(a, d) {
                        Err(_) => {
                            proof {
                                assert(dv.len() == a.spec_digest_len());
                                assert(contains_alg(pre, a));
                            }
                            return Err(DigestError::DuplicateAlgorithm);
                        },
                        Ok(_) => {
                            proof {
                                assert(pv.skip(i as int).drop_first() =~= pv.skip(i as int + 1));
                                assert(cd@ == insert_sorted(pre, a, dv));
                            }
                        },
                    }
                },
            }
            i = i + 1;
        }
        proof {
            assert(pv.skip(n as int) =~= Seq::<Seq<u8>>::empty());
        }
        Ok(cd)
    }

    /// Parses the canonical digest text.
    pub fn from_str(s: &str) -> (r: Result<ContentDigest, DigestError>)
        ensures
            match r {
                Ok(cd) => spec_parse(s.spec_bytes()) == Ok::<
                    Seq<(Algorithm, Seq<u8>)>,
                    DigestError,
                >(cd@) && cd.wf(),
                Err(e) => spec_parse(s.spec_bytes()) == Err::<
                    Seq<(Algorithm, Seq<u8>)>,
                    DigestError,
                >(e),
            },
    {
        ContentDigest::parse_bytes(s.as_bytes())
    }

    /// The canonical text of this digest set, as bytes.
    pub fn encode_bytes(&self) -> (r: Vec<u8>)
        requires
            self.wf(),
        ensures
            r@ == spec_encode(self@),
    {
        let ghost parts = self@.map_values(|e: (Algorithm, Seq<u8>)| spec_entry_text(e));
        let mut out: Vec<u8> = Vec::new();
        let mut i: usize = 0;
        proof {
            assert(out@ =~= join_with_sep(parts.take(0), 44u8));
        }
        let n = self.entries.len();
        while i < n
            invariant
                0 <= i as int <= n as int,
                n as int == self.entries@.len(),
                self.wf(),
                parts == self@.map_values(|e: (Algorithm, Seq<u8>)| spec_entry_text(e)),
                out@ == join_with_sep(parts.take(i as int), 44u8),
            decreases n - i,
        {
            let ghost before = out@;
            if i > 0 {
                out.push(44);
            }
            let ghost mark = out@;
            let alg = self.entries[i].0;
            let name = alg.name_bytes();
            push_all(&mut out, name.as_slice());
            out.push(61);
            out.push(58);
            let body = base64::encode(self.entries[i].1.as_slice());
            push_all(&mut out, body.as_slice());
            out.push(58);
            proof {
                assert(self@[i as int] == (self.entries@[i as int].0, self.entries@[i as int].1@));
                assert(parts[i as int] == spec_entry_text(self@[i as int]));
                assert(out@ =~= mark + spec_entry_text(self@[i as int]));
                lemma_join_push(parts.take(i as int), parts[i as int], 44u8);
                assert(parts.take(i as int).push(parts[i as int]) =~= parts.take(i as int + 1));
                if i == 0 {
                    assert(out@ =~= join_with_sep(parts.take(1), 44u8));
                } else {
                    assert(out@ =~= join_with_sep(parts.take(i as int), 44u8) + seq![44u8]
                        + parts[i as int]);
                    assert(out@ =~= join_with_sep(parts.take(i as int + 1), 44u8));
                }
            }
            i = i + 1;
        }
        proof {
            assert(parts.take(n as int) =~= parts);
        }
        out
    }

    /// The canonical text of this digest set.
    pub fn encode_string(&self) -> (r: String)
        requires
            self.wf(),
        ensures
            vstd::utf8::encode_utf8(r@) == spec_encode(self@),
            r@ == spec_encode(self@).map_values(|b: u8| b as char),
    {
        let bytes = self.encode_bytes();
        proof {
            lemma_text_ascii(self@);
        }
        ascii_string(bytes)
    }
}

/// Every byte of an entry text is ASCII below 127 and is not a comma.
pub proof fn lemma_entry_text_props(e: (Algorithm, Seq<u8>))
    ensures
        forall|i: int|
            0 <= i < spec_entry_text(e).len() ==> (#[trigger] spec_entry_text(e)[i]) != 44
                && spec_entry_text(e)[i] < 128,
{
    let t = spec_entry_text(e);
    lemma_name_bytes(e.0);
    base64::lemma_encode_chars(e.1);
    let name = e.0.spec_name();
    let body = base64::b64_encode(e.1);
    assert forall|i: int| 0 <= i < t.len() implies (#[trigger] t[i]) != 44 && t[i] < 128 by {
        if i < 7 {
            assert(t[i] == name[i]);
        } else if i == 7 {
            assert(t[i] == 61);
        } else if i == 8 {
            assert(t[i] == 58);
        } else if i < 9 + body.len() {
            assert(t[i] == body[i - 9]);
            assert(base64::is_text_char(body[i - 9]));
        } else {
            assert(t[i] == 58);
        }
    }
}

/// Every byte of a canonical digest text is ASCII below 127.
pub proof fn lemma_text_ascii(v: Seq<(Algorithm, Seq<u8>)>)
    ensures
        forall|i: int| 0 <= i < spec_encode(v).len() ==> (#[trigger] spec_encode(v)[i]) < 128,
    decreases v.len(),
{
    let parts = v.map_values(|e: (Algorithm, Seq<u8>)| spec_entry_text(e));
    if v.len() == 0 {
    } else if v.len() == 1 {
        lemma_entry_text_props(v[0]);
        assert(spec_encode(v) == parts[0]);
    } else {
        lemma_entry_text_props(v[0]);
        lemma_text_ascii(v.drop_first());
        let rest = v.drop_first().map_values(|e: (Algorithm, Seq<u8>)| spec_entry_text(e));
        assert(parts.drop_first() =~= rest);
        assert(spec_encode(v) == parts[0] + seq![44u8] + spec_encode(v.drop_first()));
        let t = spec_encode(v);
        assert forall|i: int| 0 <= i < t.len() implies (#[trigger] t[i]) < 128 by {
            if i < parts[0].len() {
                assert(t[i] == parts[0][i]);
                assert(parts[0][i] == spec_entry_text(v[0])[i]);
            } else if i == parts[0].len() {
                assert(t[i] == 44);
            } else {
                assert(t[i] == spec_encode(v.drop_first())[i - parts[0].len() - 1]);
            }
        }
    }
}

/// One entry's canonical text parses back to that entry.
pub proof fn lemma_entry_round_trip(e: (Algorithm, Seq<u8>))
    requires
        e.1.len() == e.0.spec_digest_len(),
    ensures
        spec_parse_entry(spec_entry_text(e)) == Ok::<(Algorithm, Seq<u8>), DigestError>(e),
{
    let t = spec_entry_text(e);
    let name = e.0.spec_name();
    let body = base64::b64_encode(e.1);
    lemma_name_bytes(e.0);
    assert(t[7] == 61 && t[8] == 58);
    assert forall|j: int| 0 <= j < 7 implies !(#[trigger] t[j] == 61 && t[j + 1] == 58) by {
        assert(t[j] == name[j]);
    }
    lemma_find_pair_at(t, 61u8, 58u8, 7);
    assert(t.take(7) =~= name);
    let rest = t.skip(9);
    assert(rest =~= body + seq![58u8]);
    assert(rest.last() == 58);
    assert(rest.take(rest.len() - 1) =~= body);
    crate::algorithm::lemma_alg_of_name(e.0);
    base64::lemma_decode_encode(e.1);
}

/// Parsing the canonical text of an ordered digest set recovers it,
/// entry by entry.
proof fn lemma_parse_prefix(v: Seq<(Algorithm, Seq<u8>)>, i: int)
    requires
        entries_sorted(v),
        entries_len_ok(v),
        0 <= i <= v.len(),
    ensures
        spec_parse_list(
            v.map_values(|e: (Algorithm, Seq<u8>)| spec_entry_text(e)).skip(i),
            v.take(i),
        ) == Ok::<Seq<(Algorithm, Seq<u8>)>, DigestError>(v),
    decreases v.len() - i,
{
    let parts = v.map_values(|e: (Algorithm, Seq<u8>)| spec_entry_text(e));
    if i == v.len() {
        assert(parts.skip(i) =~= Seq::<Seq<u8>>::empty());
        assert(v.take(i) =~= v);
    } else {
        assert(parts.skip(i)[0] == parts[i]);
        assert(parts[i] == spec_entry_text(v[i]));
        lemma_entry_round_trip(v[i]);
        let a = v[i].0;
        let acc = v.take(i);
        assert forall|j: int| 0 <= j < acc.len() implies (#[trigger] acc[j]).0.spec_rank()
            < a.spec_rank() by {
            assert(acc[j] == v[j]);
        }
        assert(!contains_alg(acc, a)) by {
            if contains_alg(acc, a) {
                let j = choose|j: int| 0 <= j < acc.len() && (#[trigger] acc[j]).0 == a;
                assert(acc[j].0.spec_rank() < a.spec_rank());
            }
        }
        lemma_insert_sorted_append(acc, a, v[i].1);
        assert(acc.push((a, v[i].1)) =~= v.take(i + 1));
        assert(parts.skip(i).drop_first() =~= parts.skip(i + 1));
        lemma_parse_prefix(v, i + 1);
    }
}

/// Round trip: the canonical text of any digest set the engine can produce
/// parses back to exactly that digest set.
pub proof fn lemma_parse_encode_round_trip(v: Seq<(Algorithm, Seq<u8>)>)
    requires
        entries_sorted(v),
        entries_len_ok(v),
        v.len() > 0,
    ensures
        spec_parse(spec_encode(v)) == Ok::<Seq<(Algorithm, Seq<u8>)>, DigestError>(v),
{
    let parts = v.map_values(|e: (Algorithm, Seq<u8>)| spec_entry_text(e));
    assert forall|i: int, j: int|
        0 <= i < parts.len() && 0 <= j < parts[i].len() implies #[trigger] parts[i][j]
        != 44u8 by {
        lemma_entry_text_props(v[i]);
        assert(parts[i] == spec_entry_text(v[i]));
    }
    lemma_split_join(parts, 44u8);
    lemma_parse_prefix(v, 0);
    assert(parts.skip(0) =~= parts);
    assert(v.take(0) =~= Seq::<(Algorithm, Seq<u8>)>::empty());
}

impl PartialEq for ContentDigest {
    fn eq(&self, other: &ContentDigest) -> bool {
        if self.entries.len() != other.entries.len() {
            proof {
                assert(self@.len() != other@.len());
            }
            return false;
        }
        let mut i: usize = 0;
        while i < self.entries.len()
            invariant
                0 <= i as int <= self@.len(),
                self@.len() == other@.len(),
                self@.len() == self.entries@.len(),
                other@.len() == other.entries@.len(),
                forall|j: int| 0 <= j < i ==> #[trigger] self@[j] == other@[j],
            decreases self@.len() - i,
        {
            proof {
                assert(self@[i as int] == (self.entries@[i as int].0, self.entries@[i as int].1@));
                assert(other@[i as int] == (
                    other.entries@[i as int].0,
                    other.entries@[i as int].1@,
                ));
            }
            let same_alg = self.entries[i].0 == other.entries[i].0;
            if !same_alg {
                return false;
            }
            if !bytes_eq(self.entries[i].1.as_slice(), other.entries[i].1.as_slice()) {
                return false;
            }
            i = i + 1;
        }
        proof {
            assert(self@ =~= other@);
        }
        true
    }
}

impl vstd::std_specs::cmp::PartialEqSpecImpl for ContentDigest {
    open spec fn obeys_eq_spec() -> bool {
        true
    }

    open spec fn eq_spec(&self, other: &ContentDigest) -> bool {
        self@ == other@
    }
}

} // verus!
