use vstd::prelude::*;

use crate::error::SketchyError;
use vstd::string::StringSliceAdditionalSpecFns;

verus! {

/// Largest value of a 64-bit hash.
pub const HASH_MAX: u64 = 0xffff_ffff_ffff_ffff;

/// How a sketch was built. Both kinds hash canonical k-mers with the same
/// seeded 64-bit hash. A bottom-k sketch keeps the `sketch_size` smallest
/// hashes; a scaled sketch keeps the hashes below a fraction of the hash
/// space, held here as the whole reciprocal of that fraction.
#[derive(Clone, Copy, Debug, PartialEq, Eq, Structural)]
pub enum SketchParams {
    Mash { sketch_size: usize, kmer_length: u8, hash_seed: u64 },
    Scaled { sketch_size: usize, kmer_length: u8, hash_seed: u64, scale_inverse: u64 },
}

/// On-disk layout of a sketch collection, chosen by file extension.
#[derive(Clone, Copy, Debug, PartialEq, Eq, Structural)]
pub enum SketchFormat {
    /// `.msh`: bottom-k sketches.
    Mash,
    /// `.fsh`: scaled sketches.
    Finch,
}

/// The bytes of `ext` spell out the three given characters.
pub open spec fn spells(ext: Seq<u8>, c0: u8, c1: u8, c2: u8) -> bool {
    ext.len() == 3 && ext[0] == c0 && ext[1] == c1 && ext[2] == c2
}

/// The format that a file extension names, if any: the ASCII bytes
/// `0x6d 0x73 0x68` spell `msh`, `0x66 0x73 0x68` spell `fsh`.
pub open spec fn format_of(ext: Option<Seq<u8>>) -> Option<SketchFormat> {
    match ext {
        Some(e) => if spells(e, 0x6d, 0x73, 0x68) {
            Some(SketchFormat::Mash)
        } else if spells(e, 0x66, 0x73, 0x68) {
            Some(SketchFormat::Finch)
        } else {
            None
        },
        None => None,
    }
}

impl SketchFormat {
    /// Picks the format from a file's extension: `msh` or `fsh`.
    pub fn from_extension(ext: Option<&str>) -> (r: Result<SketchFormat, SketchyError>)
        ensures
            match ext {
                Some(e) => match format_of(Some(e.spec_bytes())) {
                    Some(f) => r == Ok::<SketchFormat, SketchyError>(f),
                    None => r == Err::<SketchFormat, SketchyError>(SketchyError::InvalidExtension),
                },
                None => r == Err::<SketchFormat, SketchyError>(SketchyError::InvalidExtension),
            },
    {
        match ext {
            None => Err(SketchyError::InvalidExtension),
            Some(e) => {
                let b = e.as_bytes();
                if b.len() == 3 && b[0] == 0x6d && b[1] == 0x73 && b[2] == 0x68 {
                    Ok(SketchFormat::Mash)
                } else if b.len() == 3 && b[0] == 0x66 && b[1] == 0x73 && b[2] == 0x68 {
                    Ok(SketchFormat::Finch)
                } else {
                    Err(SketchyError::InvalidExtension)
                }
            },
        }
    }
}

impl SketchParams {
    pub open spec fn spec_kmer_length(self) -> u8 {
        match self {
            SketchParams::Mash { kmer_length, .. } => kmer_length,
            SketchParams::Scaled { kmer_length, .. } => kmer_length,
        }
    }

    pub open spec fn spec_hash_seed(self) -> u64 {
        match self {
            SketchParams::Mash { hash_seed, .. } => hash_seed,
            SketchParams::Scaled { hash_seed, .. } => hash_seed,
        }
    }

    /// A scaled sketch keeps at least one hash in every whole reciprocal.
    pub open spec fn wf(self) -> bool {
        match self {
            SketchParams::Mash { .. } => true,
            SketchParams::Scaled { scale_inverse, .. } => scale_inverse >= 1,
        }
    }

    /// Parameters for a new sketch collection, by the extension of the file
    /// it will be written to.
    pub fn for_extension(
        ext: Option<&str>,
        sketch_size: usize,
        kmer_length: u8,
        scale_inverse: u64,
        hash_seed: u64,
    ) -> (r: Result<SketchParams, SketchyError>)
        ensures
            match ext {
                Some(e) => match format_of(Some(e.spec_bytes())) {
                    Some(SketchFormat::Mash) => r == Ok::<SketchParams, SketchyError>(
                        SketchParams::Mash { sketch_size, kmer_length, hash_seed },
                    ),
                    Some(SketchFormat::Finch) => r == Ok::<SketchParams, SketchyError>(
                        SketchParams::Scaled { sketch_size, kmer_length, hash_seed, scale_inverse },
                    ),
                    None => r == Err::<SketchParams, SketchyError>(SketchyError::InvalidExtension),
                },
                None => r == Err::<SketchParams, SketchyError>(SketchyError::InvalidExtension),
            },
    {
        match SketchFormat::from_extension(ext) {
            Ok(SketchFormat::Mash) => Ok(SketchParams::Mash { sketch_size, kmer_length, hash_seed }),
            Ok(SketchFormat::Finch) => Ok(
                SketchParams::Scaled { sketch_size, kmer_length, hash_seed, scale_inverse },
            ),
            Err(e) => Err(e),
        }
    }

    /// The k-mer length.
    pub fn kmer_length(&self) -> (r: u8)
        ensures
            r == self.spec_kmer_length(),
    {
        match self {
            SketchParams::Mash { kmer_length, .. } => *kmer_length,
            SketchParams::Scaled { kmer_length, .. } => *kmer_length,
        }
    }

    /// The seed of the k-mer hash.
    pub fn hash_seed(&self) -> (r: u64)
        ensures
            r == self.spec_hash_seed(),
    {
        match self {
            SketchParams::Mash { hash_seed, .. } => *hash_seed,
            SketchParams::Scaled { hash_seed, .. } => *hash_seed,
        }
    }

    /// The largest hash that a scaled sketch retains by scale alone:
    /// `HASH_MAX / scale_inverse`. Bottom-k sketches have no such bound.
    pub fn max_hash(&self) -> (r: Option<u64>)
        requires
            self.wf(),
        ensures
            match *self {
                SketchParams::Mash { .. } => r is None,
                SketchParams::Scaled { scale_inverse, .. } => r == Some(HASH_MAX / scale_inverse),
            },
    {
        match self {
            SketchParams::Mash { .. } => None,
            SketchParams::Scaled { scale_inverse, .. } => Some(HASH_MAX / *scale_inverse),
        }
    }
}

/// The first parameter on which two sketches disagree so that their hashes
/// cannot be compared: the k-mer length, then the hash seed. Both kinds of
/// sketch use the same 64-bit hash, so the kinds themselves may differ.
pub open spec fn spec_mismatch(a: SketchParams, b: SketchParams) -> Option<ParamField> {
    if a.spec_kmer_length() != b.spec_kmer_length() {
        Some(ParamField::KmerLength)
    } else if a.spec_hash_seed() != b.spec_hash_seed() {
        Some(ParamField::HashSeed)
    } else {
        None
    }
}

/// A sketch parameter that two sketches must share to be compared.
#[derive(Clone, Copy, Debug, PartialEq, Eq, Structural)]
pub enum ParamField {
    KmerLength,
    HashSeed,
}

/// The first parameter that makes sketches built with `a` and `b`
/// incomparable, if there is one.
pub fn params_mismatch(a: &SketchParams, b: &SketchParams) -> (r: Option<ParamField>)
    ensures
        r == spec_mismatch(*a, *b),
{
    if a.kmer_length() != b.kmer_length() {
        Some(ParamField::KmerLength)
    } else if a.hash_seed() != b.hash_seed() {
        Some(ParamField::HashSeed)
    } else {
        None
    }
}

/// A MinHash sketch of one sequence.
#[derive(Clone, Debug)]
pub struct Sketch {
    /// Identifier, matching a row of the genotype table.
    pub name: String,
    /// Length in bases of the sketched sequence.
    pub seq_length: u64,
    /// Retained hashes, strictly ascending.
    pub hashes: Vec<HashedKmer>,
    pub params: SketchParams,
}

impl Sketch {
    /// Hashes sorted and unique, parameters valid.
    pub open spec fn wf(&self) -> bool {
        strictly_ascending(hash_seq(self.hashes@)) && self.params.wf()
    }

    /// Builds a sketch, or `None` where the hashes are not strictly ascending
    /// or a scaled sketch has a zero scale reciprocal.
    pub fn new(name: String, seq_length: u64, hashes: Vec<HashedKmer>, params: SketchParams) -> (r: Option<Sketch>)
        ensures
            match r {
                Some(s) => s.name == name && s.seq_length == seq_length && s.hashes@ == hashes@
                    && s.params == params && s.wf(),
                None => !(strictly_ascending(hash_seq(hashes@)) && params.wf()),
            },
    {
        let ok_params = match params {
            SketchParams::Mash { .. } => true,
            SketchParams::Scaled { scale_inverse, .. } => scale_inverse >= 1,
        };
        if !ok_params {
            return None;
        }
        let mut i: usize = 1;
        while i < hashes.len()
            invariant
                1 <= i <= hashes@.len() || hashes@.len() == 0,
                forall|a: int, b: int| 0 <= a < b < i && b < hashes@.len() ==> hash_seq(hashes@)[a] < hash_seq(hashes@)[b],
            decreases hashes@.len() - i,
        {
            if hashes[i - 1].hash >= hashes[i].hash {
                proof {
                    assert(hash_seq(hashes@)[i - 1] >= hash_seq(hashes@)[i as int]);
                }
                return None;
            }
            proof {
                assert forall|a: int, b: int| 0 <= a < b < i + 1 && b < hashes@.len() implies hash_seq(hashes@)[a] < hash_seq(hashes@)[b] by {
                    if b == i && a < i - 1 {
                        assert(hash_seq(hashes@)[a] < hash_seq(hashes@)[i - 1]);
                    }
                }
            }
            i = i + 1;
        }
        Some(Sketch { name, seq_length, hashes, params })
    }
}

/// One retained hash of a sketch with the number of times its k-mer was seen.
#[derive(Clone, Copy, Debug, PartialEq, Eq, Structural)]
pub struct HashedKmer {
    pub hash: u64,
    pub count: u32,
}

/// The hash values of a sequence of retained k-mers, in order.
pub open spec fn hash_seq(s: Seq<HashedKmer>) -> Seq<u64> {
    s.map_values(|k: HashedKmer| k.hash)
}

/// Every hash is smaller than the next one: sorted and free of duplicates.
pub open spec fn strictly_ascending(s: Seq<u64>) -> bool {
    forall|i: int, j: int| 0 <= i < j < s.len() ==> s[i] < s[j]
}

/// Number of distinct hash values that occur in both sequences.
pub open spec fn shared_count(a: Seq<u64>, b: Seq<u64>) -> nat {
    a.to_set().intersect(b.to_set()).len()
}

/// The set of a prefix one longer is the shorter prefix's set with the next
/// element added.
proof fn lemma_prefix_set_step(s: Seq<u64>, n: int)
    requires
        0 <= n < s.len(),
    ensures
        s.subrange(0, n + 1).to_set() == s.subrange(0, n).to_set().insert(s[n]),
{
    let long = s.subrange(0, n + 1);
    let short = s.subrange(0, n);
    assert forall|x: u64| long.to_set().contains(x) <==> short.to_set().insert(s[n]).contains(x) by {
        if long.to_set().contains(x) {
            let k = choose|k: int| 0 <= k < long.len() && long[k] == x;
            if k < n {
                assert(short[k] == x);
            }
        }
        if short.to_set().contains(x) {
            let k = choose|k: int| 0 <= k < short.len() && short[k] == x;
            assert(long[k] == x);
        }
        if x == s[n] {
            assert(long[n] == x);
        }
    }
    assert(long.to_set() =~= short.to_set().insert(s[n]));
}

/// Counts the hashes present in both sketches by a linear merge of the two
/// sorted hash lists.
pub fn common_hashes(ref_hashes: &[HashedKmer], query_hashes: &[HashedKmer]) -> (r: u64)
    requires
        strictly_ascending(hash_seq(ref_hashes@)),
        strictly_ascending(hash_seq(query_hashes@)),
    ensures
        r == shared_count(hash_seq(ref_hashes@), hash_seq(query_hashes@)),
{
    let ghost a = hash_seq(ref_hashes@);
    let ghost b = hash_seq(query_hashes@);
    let mut i: usize = 0;
    let mut j: usize = 0;
    let mut common: u64 = 0;
    proof {
        assert(a.subrange(0, 0).to_set().intersect(b.subrange(0, 0).to_set()) =~= Set::empty());
    }
    while i < ref_hashes.len() && j < query_hashes.len()
        invariant
            a == hash_seq(ref_hashes@),
            b == hash_seq(query_hashes@),
            strictly_ascending(a),
            strictly_ascending(b),
            0 <= i <= a.len(),
            0 <= j <= b.len(),
            common as nat == a.subrange(0, i as int).to_set().intersect(
                b.subrange(0, j as int).to_set(),
            ).len(),
            common <= i,
            j < b.len() ==> forall|k: int| 0 <= k < i ==> a[k] < b[j as int],
            i < a.len() ==> forall|k: int| 0 <= k < j ==> b[k] < a[i as int],
        decreases a.len() - i + b.len() - j,
    {
        let x = ref_hashes[i].hash;
        let y = query_hashes[j].hash;
        let ghost sa = a.subrange(0, i as int).to_set();
        let ghost sb = b.subrange(0, j as int).to_set();
        if x < y {
            proof {
                lemma_prefix_set_step(a, i as int);
                assert(!sb.contains(x)) by {
                    if sb.contains(x) {
                        let k = choose|k: int| 0 <= k < j && b.subrange(0, j as int)[k] == x;
                        assert(b[k] == x);
                    }
                }
                assert(sa.insert(x).intersect(sb) =~= sa.intersect(sb));
            }
            i = i + 1;
        } else if y < x {
            proof {
                lemma_prefix_set_step(b, j as int);
                assert(!sa.contains(y)) by {
                    if sa.contains(y) {
                        let k = choose|k: int| 0 <= k < i && a.subrange(0, i as int)[k] == y;
                        assert(a[k] == y);
                    }
                }
                assert(sa.intersect(sb.insert(y)) =~= sa.intersect(sb));
            }
            j = j + 1;
        } else {
            proof {
                lemma_prefix_set_step(a, i as int);
                lemma_prefix_set_step(b, j as int);
                assert(!sa.contains(x)) by {
                    if sa.contains(x) {
                        let k = choose|k: int| 0 <= k < i && a.subrange(0, i as int)[k] == x;
                        assert(a[k] == x);
                    }
                }
                assert(sa.insert(x).intersect(sb.insert(x)) =~= sa.intersect(sb).insert(x));
                assert(!sa.intersect(sb).contains(x));
            }
            common = common + 1;
            i = i + 1;
            j = j + 1;
        }
    }
    proof {
        let sa = a.subrange(0, i as int).to_set();
        let sb = b.subrange(0, j as int).to_set();
        if i == a.len() {
            assert(a.subrange(0, i as int) =~= a);
            assert(sa.intersect(sb) =~= a.to_set().intersect(b.to_set())) by {
                assert forall|x: u64| a.to_set().contains(x) && b.to_set().contains(x) implies sb.contains(x) by {
                    let k = choose|k: int| 0 <= k < b.len() && b[k] == x;
                    let m = choose|m: int| 0 <= m < a.len() && a[m] == x;
                    if k >= j {
                        assert(a[m] < b[j as int]);
                        assert(b.subrange(0, j as int)[k] == x);
                    }
                    assert(b.subrange(0, j as int)[k] == x);
                }
            }
        } else {
            assert(b.subrange(0, j as int) =~= b);
            assert(sa.intersect(sb) =~= a.to_set().intersect(b.to_set())) by {
                assert forall|x: u64| a.to_set().contains(x) && b.to_set().contains(x) implies sa.contains(x) by {
                    let k = choose|k: int| 0 <= k < a.len() && a[k] == x;
                    let m = choose|m: int| 0 <= m < b.len() && b[m] == x;
                    if k >= i {
                        assert(b[m] < a[i as int]);
                    }
                    assert(a.subrange(0, i as int)[k] == x);
                }
            }
        }
    }
    common
}

/// The shared-hash count does not depend on which sketch is the reference:
/// `common(A, B) == common(B, A)`.
pub proof fn lemma_shared_count_symmetric(a: Seq<u64>, b: Seq<u64>)
    ensures
        shared_count(a, b) == shared_count(b, a),
{
    assert(a.to_set().intersect(b.to_set()) =~= b.to_set().intersect(a.to_set()));
}

/// Reordering the hashes of either sketch, keeping every hash with its
/// multiplicity, leaves the shared-hash count unchanged.
pub proof fn lemma_shared_count_order_free(a: Seq<u64>, a2: Seq<u64>, b: Seq<u64>, b2: Seq<u64>)
    requires
        a.to_multiset() == a2.to_multiset(),
        b.to_multiset() == b2.to_multiset(),
    ensures
        shared_count(a, b) == shared_count(a2, b2),
{
    assert forall|x: u64| a.contains(x) <==> a2.contains(x) by {
        vstd::seq_lib::to_multiset_contains(a, x);
        vstd::seq_lib::to_multiset_contains(a2, x);
    }
    assert forall|x: u64| b.contains(x) <==> b2.contains(x) by {
        vstd::seq_lib::to_multiset_contains(b, x);
        vstd::seq_lib::to_multiset_contains(b2, x);
    }
    assert(a.to_set() =~= a2.to_set());
    assert(b.to_set() =~= b2.to_set());
}

} // verus!
