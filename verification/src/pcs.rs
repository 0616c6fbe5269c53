//! Commitments to polynomials.
use crate::field::{Field, Scalar};
use crate::poly::{coefficient_lists, max_domain_size, poly_eval, Polynomial};
use crate::utils::is_power_of_two;
use crate::witness::residues;
use primitive_types::U256;
use starkom_bluesky::Scalar as OutsideScalar;
use starkom_ff::Field256;
use starkom_pcs::Committer as OutsideCommitter;
use starkom_pcs::hash::HashBackend as OutsideHashBackend;
use vstd::arithmetic::power2::pow2;
use vstd::arithmetic::power::pow;
use vstd::prelude::*;

verus! {

/// The hash functions that commitments can be built with.
#[derive(Debug, Clone, Copy, PartialEq, Eq, Structural)]
pub enum HashKind {
    Sha2,
    Poseidon1,
    Poseidon2,
}

impl HashKind {
    /// A number that stands for the hash function.
    pub open spec fn index(self) -> int {
        match self {
            HashKind::Sha2 => 0,
            HashKind::Poseidon1 => 1,
            HashKind::Poseidon2 => 2,
        }
    }
}

/// A choice of a hash function.
pub trait HashBackend: Sized {
    /// The hash function.
    spec fn spec_kind() -> HashKind;

    /// Returns the hash function.
    fn kind() -> (ret: HashKind)
        ensures
            ret == Self::spec_kind(),
    ;
}

/// SHA-256 hash backend.
#[derive(Debug, Clone, Copy, PartialEq, Eq, Structural)]
pub struct Sha2Hash;

/// Poseidon hash backend.
#[derive(Debug, Clone, Copy, PartialEq, Eq, Structural)]
pub struct Poseidon1Hash;

/// Poseidon2 hash backend.
#[derive(Debug, Clone, Copy, PartialEq, Eq, Structural)]
pub struct Poseidon2Hash;

impl HashBackend for Sha2Hash {
    open spec fn spec_kind() -> HashKind {
        HashKind::Sha2
    }

    fn kind() -> (ret: HashKind) {
        HashKind::Sha2
    }
}

impl HashBackend for Poseidon1Hash {
    open spec fn spec_kind() -> HashKind {
        HashKind::Poseidon1
    }

    fn kind() -> (ret: HashKind) {
        HashKind::Poseidon1
    }
}

impl HashBackend for Poseidon2Hash {
    open spec fn spec_kind() -> HashKind {
        HashKind::Poseidon2
    }

    fn kind() -> (ret: HashKind) {
        HashKind::Poseidon2
    }
}

/// A [`starkom_pcs::Committer`] for one of the hash functions: a collection of batches of
/// polynomials.
#[verifier::external_body]
#[derive(Debug)]
pub struct Committer {
    sha2: Option<OutsideCommitter<starkom_pcs::hash::Sha2Hash<OutsideScalar>>>,
    poseidon1: Option<
        OutsideCommitter<starkom_pcs::hash::Poseidon1Hash<OutsideScalar>>,
    >,
    poseidon2: Option<
        OutsideCommitter<starkom_pcs::hash::Poseidon2Hash<OutsideScalar>>,
    >,
}

/// A [`starkom_pcs::Commitment`] with a [`starkom_pcs::Proof`] for one of the hash functions: a
/// collection of Merkle roots and opened points.
#[verifier::external_body]
#[derive(Debug)]
pub struct Opening {
    sha2: Option<
        (
            starkom_pcs::Proof<starkom_pcs::hash::Sha2Hash<OutsideScalar>>,
            starkom_pcs::Commitment<starkom_pcs::hash::Sha2Hash<OutsideScalar>>,
        ),
    >,
    poseidon1: Option<
        (
            starkom_pcs::Proof<starkom_pcs::hash::Poseidon1Hash<OutsideScalar>>,
            starkom_pcs::Commitment<starkom_pcs::hash::Poseidon1Hash<OutsideScalar>>,
        ),
    >,
    poseidon2: Option<
        (
            starkom_pcs::Proof<starkom_pcs::hash::Poseidon2Hash<OutsideScalar>>,
            starkom_pcs::Commitment<starkom_pcs::hash::Poseidon2Hash<OutsideScalar>>,
        ),
    >,
}

/// What commitments are made with.
pub ghost struct Setup {
    /// The hash function.
    pub kind: HashKind,
    /// The degree bound: polynomials have at most this number of coefficients.
    pub degree_bound: int,
    /// The logarithm of the blowup factor.
    pub blowup_log2: int,
}

impl Setup {
    /// The size of the extended evaluation domain.
    pub open spec fn extended_size(self) -> int {
        self.degree_bound * pow2(self.blowup_log2 as nat)
    }

    /// Commitments can be made with this setup.
    pub open spec fn valid(self) -> bool {
        &&& is_power_of_two(self.degree_bound)
        &&& self.blowup_log2 > 0
        &&& self.extended_size() <= max_domain_size()
        &&& self.extended_size() <= usize::MAX
    }

    /// The point is an element of the extended domain, where polynomials cannot be opened: the
    /// coset of the multiplicative generator.
    pub open spec fn is_committed_point(self, z: int) -> bool {
        pow(z, self.extended_size() as nat) % Scalar::modulus() == pow(
            5,
            self.extended_size() as nat,
        ) % Scalar::modulus()
    }
}

/// The coefficients of the polynomials in a committer, batch by batch.
pub uninterp spec fn committed(committer: Committer) -> Seq<Seq<Seq<int>>>;

/// What a committer was made with.
pub uninterp spec fn committer_setup(committer: Committer) -> Setup;

/// The root hash of the Merkle tree of a batch.
pub uninterp spec fn merkle_root(setup: Setup, batch: Seq<Seq<int>>) -> Seq<u8>;

/// The Fiat-Shamir challenge that is derived from the root hashes of batches with the given hash
/// function and domain separator tag.
pub uninterp spec fn challenge(kind: HashKind, roots: Seq<Seq<u8>>, dst: int) -> int;

/// What an opening was made with.
pub uninterp spec fn opening_setup(opening: Opening) -> Setup;

/// The root hashes of the batches of an opening.
pub uninterp spec fn opening_roots(opening: Opening) -> Seq<Seq<u8>>;

/// The number of polynomials of an opening.
pub uninterp spec fn opening_count(opening: Opening) -> int;

/// The opened points: the values of all polynomials, in order, at every opened position.
pub uninterp spec fn opening_points(opening: Opening) -> Map<int, Seq<int>>;

/// The opening is proven to be correct for its root hashes.
pub uninterp spec fn opening_accepted(opening: Opening) -> bool;

/// What is wrong with an opening that is not proven to be correct.
pub uninterp spec fn opening_fault(opening: Opening) -> Seq<char>;

/// The root hashes of several batches.
pub open spec fn merkle_roots(setup: Setup, batches: Seq<Seq<Seq<int>>>) -> Seq<Seq<u8>> {
    Seq::new(batches.len(), |i: int| merkle_root(setup, batches[i]))
}

/// The values of several polynomials at `x`.
pub open spec fn evaluations(polynomials: Seq<Seq<int>>, x: int) -> Seq<int> {
    Seq::new(polynomials.len(), |i: int| poly_eval(polynomials[i], x) % Scalar::modulus())
}

/// A batch can be committed.
pub open spec fn committable(setup: Setup, batch: Seq<Seq<int>>) -> bool {
    &&& batch.len() > 0
    &&& forall|i: int| 0 <= i < batch.len() ==> (#[trigger] batch[i]).len() <= setup.degree_bound
}

/// The bytes of a list of hashes.
pub open spec fn hash_lists(hashes: Seq<[u8; 32]>) -> Seq<Seq<u8>> {
    Seq::new(hashes.len(), |i: int| hashes[i]@)
}

/// `new` of [`starkom_pcs::Committer`]: a committer with one batch.
#[verifier::external_body]
pub(crate) fn outside_new(
    kind: HashKind,
    degree_bound: usize,
    blowup_log2: usize,
    batch: &Vec<Polynomial>,
) -> (ret: Committer)
    requires
        (Setup { kind, degree_bound: degree_bound as int, blowup_log2: blowup_log2 as int }).valid(),
        committable(
            Setup { kind, degree_bound: degree_bound as int, blowup_log2: blowup_log2 as int },
            coefficient_lists(batch@),
        ),
    ensures
        committed(ret) == seq![coefficient_lists(batch@)],
        committer_setup(ret) == (Setup {
            kind,
            degree_bound: degree_bound as int,
            blowup_log2: blowup_log2 as int,
        }),
{
    let lift = |s: &Scalar| OutsideScalar::try_from(U256(s.limbs)).unwrap();
    let batch: Vec<starkom_pcs::Polynomial> = batch.iter().map(|p| {
        starkom_pcs::Polynomial::with_coefficients(p.coefficients.iter().map(lift).collect())
    }).collect();
    let (d, l) = (degree_bound, blowup_log2);
    let mut ret = Committer { sha2: None, poseidon1: None, poseidon2: None };
    match kind {
        HashKind::Sha2 => ret.sha2 = Some(OutsideCommitter::new(d, l, batch)),
        HashKind::Poseidon1 => ret.poseidon1 = Some(OutsideCommitter::new(d, l, batch)),
        HashKind::Poseidon2 => ret.poseidon2 = Some(OutsideCommitter::new(d, l, batch)),
    }
    ret
}

/// `add_batch` of [`starkom_pcs::Committer`]: one more batch.
#[verifier::external_body]
pub(crate) fn outside_add_batch(committer: &mut Committer, batch: &Vec<Polynomial>)
    requires
        committable(committer_setup(*old(committer)), coefficient_lists(batch@)),
    ensures
        committed(*final(committer)) == committed(*old(committer)).push(coefficient_lists(batch@)),
        committer_setup(*final(committer)) == committer_setup(*old(committer)),
{
    let lift = |s: &Scalar| OutsideScalar::try_from(U256(s.limbs)).unwrap();
    let b: Vec<starkom_pcs::Polynomial> = batch.iter().map(|p| {
        starkom_pcs::Polynomial::with_coefficients(p.coefficients.iter().map(lift).collect())
    }).collect();
    committer.sha2.as_mut().map(|c| c.add_batch(b.clone()));
    committer.poseidon1.as_mut().map(|c| c.add_batch(b.clone()));
    committer.poseidon2.as_mut().map(|c| c.add_batch(b));
}

/// `root_hash` of [`starkom_pcs::Committer`]: the root hash of the Merkle tree of a batch, which
/// depends on what the committer was made with and on the batch alone.
#[verifier::external_body]
pub(crate) fn outside_root_hash(committer: &Committer, index: usize) -> (ret: [u8; 32])
    requires
        index < committed(*committer).len(),
    ensures
        ret@ == merkle_root(committer_setup(*committer), committed(*committer)[index as int]),
{
    if let Some(c) = &committer.sha2 {
        c.root_hash(index).0
    } else if let Some(c) = &committer.poseidon1 {
        c.root_hash(index).0
    } else {
        committer.poseidon2.as_ref().unwrap().root_hash(index).0
    }
}

/// `challenge` of the hash backends of [`starkom_pcs`] on the `transcript_hash` of a
/// [`starkom_pcs::Committer`]: a residue that depends on the hash function, the tag and the root
/// hashes of all batches.
#[verifier::external_body]
pub(crate) fn outside_challenge(committer: &Committer, dst: Scalar) -> (ret: Scalar)
    ensures
        ret.value() == challenge(
            committer_setup(*committer).kind,
            merkle_roots(committer_setup(*committer), committed(*committer)),
            dst.value(),
        ),
{
    let dst = OutsideScalar::try_from(U256(dst.limbs)).unwrap();
    let challenge = if let Some(c) = &committer.sha2 {
        starkom_pcs::hash::Sha2Hash::challenge(dst, [c.transcript_hash()])
    } else if let Some(c) = &committer.poseidon1 {
        starkom_pcs::hash::Poseidon1Hash::challenge(dst, [c.transcript_hash()])
    } else {
        let hash = committer.poseidon2.as_ref().unwrap().transcript_hash();
        starkom_pcs::hash::Poseidon2Hash::challenge(dst, [hash])
    };
    Scalar { limbs: challenge.to_u256().0 }
}

/// `commit` of [`starkom_pcs::Committer`], followed by `prove` of the [`starkom_pcs::Prover`] that
/// it makes: an opening of all polynomials at the given points. It has the root hashes of all
/// batches and the values of all polynomials at the points, and is accepted by `verify` of
/// [`starkom_pcs::Proof`].
#[verifier::external_body]
pub(crate) fn outside_open(committer: Committer, points: &Vec<Scalar>) -> (ret: Opening)
    requires
        committed(committer).len() > 0,
        points@.len() > 0,
        forall|i: int|
            0 <= i < points@.len() ==> !committer_setup(committer).is_committed_point(
                (#[trigger] points@[i]).value(),
            ),
    ensures
        opening_setup(ret) == committer_setup(committer),
        opening_roots(ret) == merkle_roots(committer_setup(committer), committed(committer)),
        opening_count(ret) == committed(committer).flatten().len(),
        forall|z: int| #[trigger]
            opening_points(ret).contains_key(z) <==> residues(points@).contains(z),
        forall|z: int| #[trigger]
            opening_points(ret).contains_key(z) ==> opening_points(ret)[z] == evaluations(
                committed(committer).flatten(),
                z,
            ),
        opening_accepted(ret),
{
    let lift = |s: &Scalar| OutsideScalar::try_from(U256(s.limbs)).unwrap();
    let p: std::collections::BTreeSet<OutsideScalar> = points.iter().map(lift).collect();
    let Committer { sha2, poseidon1, poseidon2 } = committer;
    let sha2 = sha2.map(|c| c.commit(p.clone())).map(|(c, q)| (q.prove(&c), c));
    let poseidon1 = poseidon1.map(|c| c.commit(p.clone())).map(|(c, q)| (q.prove(&c), c));
    let poseidon2 = poseidon2.map(|c| c.commit(p)).map(|(c, q)| (q.prove(&c), c));
    Opening { sha2, poseidon1, poseidon2 }
}

/// `tree_roots` of [`starkom_pcs::Commitment`]: the root hashes of all batches.
#[verifier::external_body]
pub(crate) fn outside_tree_roots(opening: &Opening) -> (ret: Vec<[u8; 32]>)
    ensures
        hash_lists(ret@) == opening_roots(*opening),
{
    let roots = if let Some((_, c)) = &opening.sha2 {
        c.tree_roots()
    } else if let Some((_, c)) = &opening.poseidon1 {
        c.tree_roots()
    } else {
        opening.poseidon2.as_ref().unwrap().1.tree_roots()
    };
    roots.iter().map(|hash| hash.0).collect()
}

/// `challenge` of the hash backends of [`starkom_pcs`] on the `transcript_hash` of a
/// [`starkom_pcs::Commitment`]: the same residue as that for a committer with the same hash
/// function and root hashes.
#[verifier::external_body]
pub(crate) fn outside_challenge_at(opening: &Opening, batch_count: usize, dst: Scalar) -> (ret: Scalar)
    requires
        0 < batch_count <= opening_roots(*opening).len(),
    ensures
        ret.value() == challenge(
            opening_setup(*opening).kind,
            opening_roots(*opening).subrange(0, batch_count as int),
            dst.value(),
        ),
{
    let dst = OutsideScalar::try_from(U256(dst.limbs)).unwrap();
    let challenge = if let Some((_, c)) = &opening.sha2 {
        starkom_pcs::hash::Sha2Hash::challenge(dst, [c.transcript_hash(batch_count)])
    } else if let Some((_, c)) = &opening.poseidon1 {
        starkom_pcs::hash::Poseidon1Hash::challenge(dst, [c.transcript_hash(batch_count)])
    } else {
        let hash = opening.poseidon2.as_ref().unwrap().1.transcript_hash(batch_count);
        starkom_pcs::hash::Poseidon2Hash::challenge(dst, [hash])
    };
    Scalar { limbs: challenge.to_u256().0 }
}

/// `degree_bound` of [`starkom_pcs::Proof`]: the proven degree bound.
#[verifier::external_body]
pub(crate) fn outside_degree_bound(opening: &Opening) -> (ret: usize)
    ensures
        ret == opening_setup(*opening).degree_bound,
{
    if let Some((p, _)) = &opening.sha2 {
        p.degree_bound()
    } else if let Some((p, _)) = &opening.poseidon1 {
        p.degree_bound()
    } else {
        opening.poseidon2.as_ref().unwrap().0.degree_bound()
    }
}

/// `blowup_log2` of [`starkom_pcs::Proof`]: the logarithm of the blowup factor.
#[verifier::external_body]
pub(crate) fn outside_blowup_log2(opening: &Opening) -> (ret: usize)
    ensures
        ret == opening_setup(*opening).blowup_log2,
{
    if let Some((p, _)) = &opening.sha2 {
        p.blowup_log2()
    } else if let Some((p, _)) = &opening.poseidon1 {
        p.blowup_log2()
    } else {
        opening.poseidon2.as_ref().unwrap().0.blowup_log2()
    }
}

/// `extended_domain_size` of [`starkom_pcs::Proof`]: the degree bound times the blowup factor.
#[verifier::external_body]
pub(crate) fn outside_extended_domain_size(opening: &Opening) -> (ret: usize)
    requires
        opening_setup(*opening).valid(),
    ensures
        ret == opening_setup(*opening).extended_size(),
{
    if let Some((p, _)) = &opening.sha2 {
        p.extended_domain_size()
    } else if let Some((p, _)) = &opening.poseidon1 {
        p.extended_domain_size()
    } else {
        opening.poseidon2.as_ref().unwrap().0.extended_domain_size()
    }
}

/// `num_polys` of [`starkom_pcs::Proof`]: the number of committed polynomials.
#[verifier::external_body]
pub(crate) fn outside_num_polys(opening: &Opening) -> (ret: usize)
    ensures
        ret == opening_count(*opening),
{
    if let Some((p, _)) = &opening.sha2 {
        p.num_polys()
    } else if let Some((p, _)) = &opening.poseidon1 {
        p.num_polys()
    } else {
        opening.poseidon2.as_ref().unwrap().0.num_polys()
    }
}

/// `points` of [`starkom_pcs::Proof`]: the values of all polynomials at a position, if it is
/// opened.
#[verifier::external_body]
pub(crate) fn outside_points(opening: &Opening, z: Scalar) -> (ret: Option<Vec<Scalar>>)
    ensures
        ret is Some <==> opening_points(*opening).contains_key(z.value()),
        ret matches Some(values) ==> residues(values@) == opening_points(*opening)[z.value()],
{
    let z = OutsideScalar::try_from(U256(z.limbs)).unwrap();
    let points = if let Some((p, _)) = &opening.sha2 {
        p.points()
    } else if let Some((p, _)) = &opening.poseidon1 {
        p.points()
    } else {
        opening.poseidon2.as_ref().unwrap().0.points()
    };
    points.get(&z).map(|values| {
        values.iter().map(|value| Scalar { limbs: value.to_u256().0 }).collect()
    })
}

/// `verify` of [`starkom_pcs::Proof`]: the text of the error if the opening is not proven to be
/// correct.
#[verifier::external_body]
pub(crate) fn outside_verify(opening: &Opening) -> (ret: Option<String>)
    ensures
        ret is None <==> opening_accepted(*opening),
        ret matches Some(text) ==> text@ == opening_fault(*opening),
{
    let result = if let Some((p, c)) = &opening.sha2 {
        p.verify(c)
    } else if let Some((p, c)) = &opening.poseidon1 {
        p.verify(c)
    } else {
        let (p, c) = opening.poseidon2.as_ref().unwrap();
        p.verify(c)
    };
    result.err().map(|error| error.to_string())
}

/// `clone` of [`starkom_pcs::Commitment`] and [`starkom_pcs::Proof`]: an opening that is the same in
/// all that is named here.
#[verifier::external_body]
pub(crate) fn outside_clone(opening: &Opening) -> (ret: Opening)
    ensures
        opening_setup(ret) == opening_setup(*opening),
        opening_roots(ret) == opening_roots(*opening),
        opening_count(ret) == opening_count(*opening),
        opening_points(ret) == opening_points(*opening),
        opening_accepted(ret) == opening_accepted(*opening),
        opening_fault(ret) == opening_fault(*opening),
{
    let (sha2, poseidon1) = (opening.sha2.clone(), opening.poseidon1.clone());
    Opening { sha2, poseidon1, poseidon2: opening.poseidon2.clone() }
}

} // verus!
