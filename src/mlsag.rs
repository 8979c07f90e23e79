//! MLSAG: the multilayered linkable ring signature, one key image per
//! column and a challenge per row over all columns.
use crate::bytes::bytes_eq;
use crate::group::{
    hash_rows, image_of, key_image, key_images_of, point_rows, public_keys, point_rows_to_bytes, public_key, public_key_of,
    scalar_rows, scalar_rows_to_bytes, scalars_to_bytes, scalars_view, Point, Scalar,
};
use crate::kernel::{
    all_scalars, matrix_values, point_matrix, point_seq, responses_wf, scalar_values, Chain,
    ChainSpec,
};
use crate::primitives::{
    encodes, group_order, hash_point, is_point, is_scalar, le_value, random_index,
    scalar_canonical,
};
use crate::codec::{
    count_bound, lemma_point_matrix_injective, lemma_point_matrix_rows, lemma_point_seq_chunks,
    lemma_point_seq_injective, lemma_read_list, lemma_read_list_inverse, lemma_read_matrix,
    lemma_read_matrix_inverse, list_bytes, matrix_bytes, push_chunk, push_list, push_matrix,
    read_chunk, read_chunk_at, read_list, read_list_at, read_matrix, read_matrix_at,
};
use crate::rows::{
    all_points, check_point_rows, check_points, check_scalar_rows, copy_row, copy_rows,
    points_matrix_wf, scalars_matrix_wf, to_vec,
};
use rand_core::OsRng;
use vstd::prelude::*;

verus! {

broadcast use crate::primitives::lemma_le_nonneg;

/// `Hₚ` of every point of a matrix.
pub open spec fn hashed_rows(rings: Seq<Seq<Seq<u8>>>) -> Seq<Seq<Seq<u8>>> {
    rings.map_values(|row: Seq<Seq<u8>>| row.map_values(|p: Seq<u8>| hash_point(p)))
}

/// The ring walk of an MLSAG signature: every column has an image channel
/// over `Hₚ` of its key and that column's image; rows hashed after the
/// message.
pub open spec fn mlsag_chain(
    message: Seq<u8>,
    rings: Seq<Seq<Seq<u8>>>,
    images: Seq<Seq<u8>>,
) -> ChainSpec {
    ChainSpec {
        prefix: message,
        keys: rings,
        bases: hashed_rows(rings),
        images,
        linked: true,
        width: images.len() as int,
    }
}

/// The first images of several signatures agree: every list is non-empty
/// and its first image equals that of the first list.
pub open spec fn first_images_linked(images: Seq<Seq<[u8; 32]>>) -> bool {
    &&& images.len() >= 1
    &&& forall|i: int|
        0 <= i < images.len() ==> (#[trigger] images[i]).len() >= 1 && images[i][0]
            == images[0][0]
}

/// An MLSAG signature: the challenge entering row 0, a response per row and
/// column, the rings in the order signed over, and one image per column.
#[derive(Clone, Debug, PartialEq, Eq)]
pub struct MLSAG {
    pub challenge: [u8; 32],
    pub responses: Vec<Vec<[u8; 32]>>,
    pub rings: Vec<Vec<[u8; 32]>>,
    pub images: Vec<[u8; 32]>,
}

impl MLSAG {
    /// At least one row and one column; every row of the rings and of the
    /// responses as wide as there are images; every scalar and point
    /// canonical.
    pub open spec fn well_formed(&self) -> bool {
        &&& self.rings.len() >= 1
        &&& self.images.len() >= 1
        &&& self.responses.len() == self.rings.len()
        &&& is_scalar(self.challenge@)
        &&& all_points(self.images@)
        &&& points_matrix_wf(self.rings@, self.images.len() as int)
        &&& scalars_matrix_wf(self.responses@, self.images.len() as int)
    }

    /// The ring walk over `message`.
    pub open spec fn chain(&self, message: Seq<u8>) -> ChainSpec {
        mlsag_chain(message, point_matrix(self.rings@), point_seq(self.images@))
    }

    /// The challenge after the first `k` rows of the walk from `challenge`.
    pub open spec fn walk_at(&self, message: Seq<u8>, k: nat) -> int {
        self.chain(message).walk(matrix_values(self.responses@), le_value(self.challenge@), k)
    }

    /// The signature is well formed and its rings close over `message`.
    pub open spec fn accepts(&self, message: Seq<u8>) -> bool {
        &&& self.well_formed()
        &&& self.walk_at(message, self.rings.len() as nat) == le_value(self.challenge@)
    }

    /// The signature is the one that signing `message` with `secrets` over
    /// the decoy rows gives, when the signer's row goes in at `index`, the
    /// nonces are `nonces` and the responses drawn are `draws`.
    pub open spec fn signed_with(
        &self,
        secrets: Seq<int>,
        decoys: Seq<Seq<Seq<u8>>>,
        message: Seq<u8>,
        index: int,
        nonces: Seq<int>,
        draws: Seq<Seq<int>>,
    ) -> bool {
        &&& point_matrix(self.rings@) == decoys.insert(
            index,
            public_keys(secrets),
        )
        &&& point_seq(self.images@) == key_images_of(secrets)
        &&& self.accepts(message)
        &&& forall|i: int|
            0 <= i < self.rings.len() && i != index ==> #[trigger] matrix_values(
                self.responses@,
            )[i] == draws[i]
        &&& self.walk_at(message, (index + 1) as nat) == self.chain(message).opening(index, nonces)
        &&& forall|j: int|
            0 <= j < secrets.len() ==> le_value(#[trigger] self.responses@[index]@[j]@) == (
            nonces[j] - self.walk_at(message, index as nat) * secrets[j]) % group_order()
    }

    /// The key image of each secret.
    pub fn image(secrets: &[Scalar]) -> (r: Vec<Point>)
        ensures
            r.len() == secrets@.len(),
            forall|j: int| 0 <= j < secrets@.len() ==> (#[trigger] r@[j])@ == key_image(secrets@[j]@),
    {
        crate::group::key_images(secrets)
    }

    /// Signs `message` with `secrets` over the decoy rows, the signer's row
    /// going in at `index`, with the given nonces and drawn responses (the
    /// row at `index` is replaced). `None` when there are no secrets or a
    /// decoy row is not as wide as there are secrets.
    pub fn sign_with(
        secrets: &[Scalar],
        rings: Vec<Vec<Point>>,
        message: &[u8],
        index: usize,
        nonces: &Vec<Scalar>,
        draws: &Vec<Vec<Scalar>>,
    ) -> (r: Option<MLSAG>)
        requires
            index <= rings.len(),
            nonces.len() == secrets@.len(),
            draws.len() == rings.len() + 1,
            forall|i: int| 0 <= i < draws.len() ==> (#[trigger] draws@[i]).len() == secrets@.len(),
        ensures
            r is None <==> secrets@.len() == 0 || exists|i: int|
                0 <= i < rings.len() && (#[trigger] rings@[i]).len() != secrets@.len(),
            r matches Some(sig) ==> sig.signed_with(
                scalars_view(secrets@),
                point_rows(rings@),
                message@,
                index as int,
                scalars_view(nonces@),
                scalar_rows(draws@),
            ),
    {
        let y = secrets.len();
        if y == 0 {
            return None;
        }
        let mut i: usize = 0;
        while i < rings.len()
            invariant
                y == secrets@.len(),
                i <= rings.len(),
                forall|k: int| 0 <= k < i ==> (#[trigger] rings@[k]).len() == y,
            decreases rings.len() - i,
        {
            if rings[i].len() != y {
                assert((rings@[i as int]).len() != secrets@.len());
                return None;
            }
            i = i + 1;
        }
        let sb = scalars_to_bytes(secrets);
        let mut pks: Vec<[u8; 32]> = Vec::new();
        let mut imgs: Vec<[u8; 32]> = Vec::new();
        let mut j: usize = 0;
        while j < y
            invariant
                y == sb.len(),
                all_scalars(sb@),
                j <= y,
                pks.len() == j,
                imgs.len() == j,
                forall|k: int|
                    0 <= k < j ==> encodes((#[trigger] pks@[k])@, le_value(sb@[k]@)) && pks@[k]@
                        == public_key(le_value(sb@[k]@)),
                forall|k: int|
                    0 <= k < j ==> encodes(
                        (#[trigger] imgs@[k])@,
                        (le_value(sb@[k]@) * crate::primitives::log_of(
                            hash_point(public_key(le_value(sb@[k]@))),
                        )) % group_order(),
                    ) && imgs@[k]@ == key_image(le_value(sb@[k]@)),
            decreases y - j,
        {
            assert(is_scalar(sb@[j as int]@));
            pks.push(public_key_of(sb[j]));
            imgs.push(image_of(sb[j], sb[j]));
            j = j + 1;
        }
        let mut keys = point_rows_to_bytes(&rings);
        let ghost decoy_keys = keys@;
        keys.insert(index, pks);
        let bases = hash_rows(&keys);
        let mut resp = scalar_rows_to_bytes(draws);
        let a = scalars_to_bytes(nonces.as_slice());
        let chain = Chain { prefix: to_vec(message), keys, bases, images: imgs, linked: true, width: y };
        let ghost spec_chain = mlsag_chain(message@, point_matrix(chain.keys@), point_seq(chain.images@));
        proof {
            let sv = scalar_values(sb@);
            assert(sv =~= scalars_view(secrets@));
            assert forall|k: int| 0 <= k < chain.keys.len() implies (#[trigger] chain.keys@[k]).len() == y
                && all_points(chain.keys@[k]@) by {
                if k < index {
                    assert(chain.keys@[k] == decoy_keys[k]);
                } else if k > index {
                    assert(chain.keys@[k] == decoy_keys[k - 1]);
                } else {
                    assert(chain.keys@[k]@ == pks@);
                    assert forall|jj: int| 0 <= jj < pks@.len() implies is_point(#[trigger] pks@[jj]@) by {
                        crate::primitives::lemma_log_of(pks@[jj]@, le_value(sb@[jj]@));
                    }
                }
            }
            assert(point_matrix(chain.keys@) =~= point_rows(rings@).insert(
                index as int,
                public_keys(sv),
            )) by {
                assert(point_seq(pks@) =~= public_keys(sv));
                assert forall|k: int| 0 <= k < chain.keys.len() implies #[trigger] point_matrix(chain.keys@)[k]
                    == point_rows(rings@).insert(index as int, public_keys(sv))[k] by {
                    if k < index {
                        assert(chain.keys@[k] == decoy_keys[k]);
                    } else if k > index {
                        assert(chain.keys@[k] == decoy_keys[k - 1]);
                    }
                }
            }
            assert forall|jj: int| 0 <= jj < y implies is_point(#[trigger] imgs@[jj]@) by {
                crate::primitives::lemma_log_of(
                    imgs@[jj]@,
                    (le_value(sb@[jj]@) * crate::primitives::log_of(
                        hash_point(public_key(le_value(sb@[jj]@))),
                    )) % group_order(),
                );
            }
            assert(point_seq(imgs@) =~= key_images_of(sv));
            assert(chain@ == spec_chain);
            assert(spec_chain.wf()) by {
                assert forall|k: int, jj: int| 0 <= k < spec_chain.rows() && 0 <= jj < y implies is_point(
                    #[trigger] spec_chain.keys[k][jj],
                ) by {
                    assert(all_points(chain.keys@[k]@));
                }
                assert forall|k: int, jj: int| 0 <= k < spec_chain.rows() && 0 <= jj < y implies is_point(
                    #[trigger] spec_chain.bases[k][jj],
                ) by {
                    assert(all_points(bases@[k]@));
                }
            }
            assert(responses_wf(resp@, spec_chain.rows(), y as int)) by {
                assert forall|k: int, jj: int| 0 <= k < spec_chain.rows() && 0 <= jj < y implies is_scalar(
                    #[trigger] resp@[k]@[jj]@,
                ) by {
                    assert(all_scalars(resp@[k]@));
                }
            }
            assert(spec_chain.holds_secrets(index as int, sv)) by {
                assert forall|jj: int| 0 <= jj < y implies encodes(#[trigger] spec_chain.keys[index as int][jj], sv[jj]) by {
                    assert(spec_chain.keys[index as int][jj] == pks@[jj]@);
                    assert(spec_chain.bases[index as int][jj] == hash_point(pks@[jj]@));
                }
                assert forall|jj: int| 0 <= jj < y implies encodes(
                    spec_chain.images[jj],
                    (sv[jj] * crate::primitives::log_of(#[trigger] spec_chain.bases[index as int][jj])) % group_order(),
                ) by {
                    assert(spec_chain.keys[index as int][jj] == pks@[jj]@);
                    assert(spec_chain.bases[index as int][jj] == hash_point(pks@[jj]@));
                }
            }
        }
        let c0 = chain.sign_walk(&mut resp, index, &a, &sb);
        let r = MLSAG { challenge: c0, responses: resp, rings: chain.keys, images: chain.images };
        proof {
            assert(r.chain(message@) == spec_chain);
            assert(scalar_values(a@) == scalars_view(nonces@));
            assert(r.well_formed()) by {
                assert forall|k: int| 0 <= k < r.responses.len() implies (#[trigger] r.responses@[k]).len() == y
                    && all_scalars(r.responses@[k]@) by {
                    assert forall|jj: int| 0 <= jj < y implies is_scalar(#[trigger] r.responses@[k]@[jj]@) by {
                        assert(is_scalar(resp@[k]@[jj]@));
                    }
                }
            }
        }
        Some(r)
    }

    /// Signs `message` with `secrets` over the decoy rows: the signer's row
    /// goes in at a random position, nonces and responses are drawn from
    /// `rng`. `None` when there are no secrets or a decoy row is not as wide
    /// as there are secrets.
    pub fn sign(rng: &mut OsRng, secrets: &[Scalar], rings: Vec<Vec<Point>>, message: &[u8]) -> (r:
        Option<MLSAG>)
        ensures
            r is None <==> secrets@.len() == 0 || exists|i: int|
                0 <= i < rings.len() && (#[trigger] rings@[i]).len() != secrets@.len(),
            r matches Some(sig) ==> {
                &&& sig.accepts(message@)
                &&& point_seq(sig.images@) == key_images_of(scalars_view(secrets@))
                &&& exists|k: int|
                    0 <= k <= rings.len() && point_matrix(sig.rings@) == #[trigger] point_rows(
                        rings@,
                    ).insert(k, public_keys(scalars_view(secrets@)))
            },
    {
        let index = random_index(rng, rings.len());
        let nonces = crate::group::random_scalars(rng, secrets.len());
        let mut draws: Vec<Vec<Scalar>> = Vec::new();
        while draws.len() <= rings.len()
            invariant
                draws.len() <= rings.len() + 1,
                forall|i: int| 0 <= i < draws.len() ==> (#[trigger] draws@[i]).len() == secrets@.len(),
            decreases rings.len() + 1 - draws.len(),
        {
            draws.push(crate::group::random_scalars(rng, secrets.len()));
        }
        MLSAG::sign_with(secrets, rings, message, index, &nonces, &draws)
    }

    /// Whether the signature is well formed.
    pub fn is_well_formed(&self) -> (r: bool)
        ensures
            r == self.well_formed(),
    {
        let x = self.rings.len();
        let y = self.images.len();
        x != 0 && y != 0 && self.responses.len() == x && scalar_canonical(self.challenge)
            && check_points(&self.images) && check_point_rows(&self.rings, y) && check_scalar_rows(
            &self.responses,
            y,
        )
    }

    /// Every count in the encoding fits its 8 bytes.
    pub open spec fn countable(&self) -> bool {
        &&& self.responses.len() < count_bound(8)
        &&& self.rings.len() < count_bound(8)
        &&& self.images.len() < count_bound(8)
        &&& forall|i: int| 0 <= i < self.responses.len() ==> (#[trigger] self.responses@[i]).len() < count_bound(8)
        &&& forall|i: int| 0 <= i < self.rings.len() ==> (#[trigger] self.rings@[i]).len() < count_bound(8)
    }

    /// The wire encoding: the challenge, the responses and the rings as
    /// matrices, then the images as a sequence.
    pub open spec fn encoding(&self) -> Seq<u8> {
        self.challenge@ + matrix_bytes(point_matrix(self.responses@)) + matrix_bytes(
            point_matrix(self.rings@),
        ) + list_bytes(point_seq(self.images@))
    }

    /// Reading an encoding field by field gives the fields back.
    pub proof fn lemma_encoding_reads(&self)
        requires
            self.countable(),
        ensures
            ({
                let b = self.encoding();
                let p = 32 + matrix_bytes(point_matrix(self.responses@)).len() as int;
                let q = p + matrix_bytes(point_matrix(self.rings@)).len() as int;
                &&& read_chunk(b, 0) == Some((self.challenge@, 32int))
                &&& read_matrix(b, 32) == Some((point_matrix(self.responses@), p))
                &&& read_matrix(b, p) == Some((point_matrix(self.rings@), q))
                &&& read_list(b, q) == Some((point_seq(self.images@), b.len() as int))
            }),
    {
        let b = self.encoding();
        let l1 = matrix_bytes(point_matrix(self.responses@));
        let l2 = matrix_bytes(point_matrix(self.rings@));
        let l3 = list_bytes(point_seq(self.images@));
        let p = 32 + l1.len() as int;
        let q = p + l2.len() as int;
        lemma_point_matrix_rows(self.responses@);
        lemma_point_matrix_rows(self.rings@);
        lemma_point_seq_chunks(self.images@);
        assert(b.subrange(0, 32) =~= self.challenge@);
        assert(b.subrange(32, p) =~= l1);
        lemma_read_matrix(b, 32, point_matrix(self.responses@));
        assert(b.subrange(p, q) =~= l2);
        lemma_read_matrix(b, p, point_matrix(self.rings@));
        assert(b.subrange(q, q + l3.len() as int) =~= l3);
        lemma_read_list(b, q, point_seq(self.images@));
    }

    /// A signature is determined by its encoding: decoding what was encoded
    /// gives back the same challenge, responses, rings and images.
    pub proof fn lemma_encoding_determines(a: MLSAG, b: MLSAG)
        requires
            a.countable(),
            b.countable(),
            a.encoding() == b.encoding(),
        ensures
            a.challenge == b.challenge,
            point_matrix(a.responses@) == point_matrix(b.responses@),
            point_matrix(a.rings@) == point_matrix(b.rings@),
            a.images@ == b.images@,
    {
        a.lemma_encoding_reads();
        b.lemma_encoding_reads();
        assert(a.challenge =~= b.challenge);
        lemma_point_seq_injective(a.images@, b.images@);
    }

    /// The wire encoding.
    pub fn to_bytes(&self) -> (r: Vec<u8>)
        ensures
            r@ == self.encoding(),
    {
        let mut buf: Vec<u8> = Vec::new();
        push_chunk(&mut buf, &self.challenge);
        push_matrix(&mut buf, &self.responses);
        push_matrix(&mut buf, &self.rings);
        push_list(&mut buf, &self.images);
        assert(buf@ =~= self.encoding());
        buf
    }

    /// Decodes a signature; `None` unless the bytes are the encoding of a
    /// well-formed signature.
    pub fn from_bytes(bytes: &[u8]) -> (r: Option<MLSAG>)
        ensures
            r matches Some(sig) ==> sig.well_formed() && sig.encoding() == bytes@,
            (exists|sig: MLSAG| sig.well_formed() && sig.countable() && #[trigger] sig.encoding()
                == bytes@) ==> r is Some,
    {
        let ghost b = bytes@;
        proof {
            if exists|sig: MLSAG| sig.well_formed() && sig.countable() && #[trigger] sig.encoding() == b {
                let sig = choose|sig: MLSAG| sig.well_formed() && sig.countable() && #[trigger] sig.encoding() == b;
                sig.lemma_encoding_reads();
            }
        }
        let (challenge, p1) = match read_chunk_at(bytes, 0) {
            Some(x) => x,
            None => {
                return None;
            },
        };
        let (responses, p2) = match read_matrix_at(bytes, p1) {
            Some(x) => x,
            None => {
                return None;
            },
        };
        let (rings, p3) = match read_matrix_at(bytes, p2) {
            Some(x) => x,
            None => {
                return None;
            },
        };
        let (images, p4) = match read_list_at(bytes, p3) {
            Some(x) => x,
            None => {
                return None;
            },
        };
        if p4 != bytes.len() {
            return None;
        }
        let sig = MLSAG { challenge, responses, rings, images };
        proof {
            lemma_read_matrix_inverse(b, p1 as int);
            lemma_read_matrix_inverse(b, p2 as int);
            lemma_read_list_inverse(b, p3 as int);
            assert(b =~= sig.encoding()) by {
                assert(b =~= b.subrange(0, 32) + b.subrange(32, p2 as int) + b.subrange(p2 as int, p3 as int)
                    + b.subrange(p3 as int, p4 as int));
            }
            if exists|s: MLSAG| s.well_formed() && s.countable() && #[trigger] s.encoding() == b {
                let s = choose|s: MLSAG| s.well_formed() && s.countable() && #[trigger] s.encoding() == b;
                s.lemma_encoding_reads();
                lemma_point_matrix_injective(sig.responses@, s.responses@);
                lemma_point_matrix_injective(sig.rings@, s.rings@);
                lemma_point_seq_injective(sig.images@, s.images@);
                assert(sig.challenge =~= s.challenge);
                let y = s.images.len() as int;
                assert(points_matrix_wf(sig.rings@, y)) by {
                    assert forall|i: int| 0 <= i < sig.rings@.len() implies (#[trigger] sig.rings@[i]).len() == y
                        && all_points(sig.rings@[i]@) by {
                        assert(sig.rings@[i]@ == s.rings@[i]@);
                        assert(s.rings@[i].len() == y && all_points(s.rings@[i]@));
                    }
                }
                assert(scalars_matrix_wf(sig.responses@, y)) by {
                    assert forall|i: int| 0 <= i < sig.responses@.len() implies (#[trigger] sig.responses@[i]).len() == y
                        && all_scalars(sig.responses@[i]@) by {
                        assert(sig.responses@[i]@ == s.responses@[i]@);
                        assert(s.responses@[i].len() == y && all_scalars(s.responses@[i]@));
                    }
                }
            }
        }
        if !sig.is_well_formed() {
            return None;
        }
        Some(sig)
    }

    /// Whether the signature is well formed and its rings close over
    /// `message`.
    pub fn verify(&self, message: &[u8]) -> (r: bool)
        ensures
            r == self.accepts(message@),
    {
        if !self.is_well_formed() {
            return false;
        }
        let x = self.rings.len();
        let y = self.images.len();
        let keys = copy_rows(&self.rings);
        let bases = hash_rows(&keys);
        let chain = Chain {
            prefix: to_vec(message),
            keys,
            bases,
            images: copy_row(&self.images),
            linked: true,
            width: y,
        };
        proof {
            assert(point_matrix(chain.keys@) =~= point_matrix(self.rings@)) by {
                assert forall|k: int| 0 <= k < x implies #[trigger] point_matrix(chain.keys@)[k] == point_matrix(
                    self.rings@,
                )[k] by {
                    assert(chain.keys@[k]@ == self.rings@[k]@);
                }
            }
            let spec_chain = self.chain(message@);
            assert(chain@ == spec_chain);
            assert(spec_chain.wf()) by {
                assert forall|k: int, jj: int| 0 <= k < spec_chain.rows() && 0 <= jj < y implies is_point(
                    #[trigger] spec_chain.keys[k][jj],
                ) by {
                    assert(all_points(self.rings@[k]@));
                }
                assert forall|k: int, jj: int| 0 <= k < spec_chain.rows() && 0 <= jj < y implies is_point(
                    #[trigger] spec_chain.bases[k][jj],
                ) by {
                    assert(all_points(bases@[k]@));
                }
            }
            assert(responses_wf(self.responses@, spec_chain.rows(), y as int)) by {
                assert forall|k: int, jj: int| 0 <= k < spec_chain.rows() && 0 <= jj < y implies is_scalar(
                    #[trigger] self.responses@[k]@[jj]@,
                ) by {
                    assert(all_scalars(self.responses@[k]@));
                }
            }
        }
        chain.verify_walk(&self.responses, &self.challenge)
    }

    /// Whether the signatures' first images agree: every list non-empty and
    /// starting with the first list's first image.
    pub fn link(images: &[&[[u8; 32]]]) -> (r: bool)
        ensures
            r == first_images_linked(images@.map_values(|s: &[[u8; 32]]| s@)),
    {
        first_images_agree(images)
    }
}

/// Whether every list is non-empty and starts with the first list's first
/// image.
pub(crate) fn first_images_agree(images: &[&[[u8; 32]]]) -> (r: bool)
    ensures
        r == first_images_linked(images@.map_values(|s: &[[u8; 32]]| s@)),
{
    let ghost v = images@.map_values(|s: &[[u8; 32]]| s@);
    if images.len() == 0 {
        return false;
    }
    assert(v[0] == images@[0]@);
    if images[0].len() == 0 {
        return false;
    }
    let first = images[0][0];
    let mut i: usize = 0;
    while i < images.len()
        invariant
            v == images@.map_values(|s: &[[u8; 32]]| s@),
            v.len() >= 1,
            v[0].len() >= 1,
            first == v[0][0],
            i <= images@.len(),
            forall|k: int| 0 <= k < i ==> (#[trigger] v[k]).len() >= 1 && v[k][0] == v[0][0],
        decreases images@.len() - i,
    {
        assert(v[i as int] == images@[i as int]@);
        if images[i].len() == 0 {
            return false;
        }
        if !bytes_eq(&images[i][0], &first) {
            return false;
        }
        i = i + 1;
    }
    true
}

} // verus!
