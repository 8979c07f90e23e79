//! BLSAG: the linkable ring signature with one key image.
use crate::bytes::bytes_eq;
use crate::group::{
    hash_points, image_of, key_image, points_to_bytes, points_view, public_key, public_key_of,
    scalars_to_bytes, scalars_view, Point, Scalar,
};
use crate::kernel::{all_scalars, point_seq, scalar_values, Chain, ChainSpec};
use crate::primitives::{
    encoding_of, group_order, hash_point, hash_scalar, is_point, is_scalar, le_value, log_of,
    point_canonical, random_index, scalar_canonical,
};
use crate::codec::{
    count_bound, lemma_point_seq_chunks, lemma_point_seq_injective, lemma_read_list,
    lemma_read_list_inverse, list_bytes, push_chunk, push_list, read_chunk, read_chunk_at,
    read_list, read_list_at,
};
use crate::rows::{all_points, check_points, check_scalars, column, column_of, to_vec};
use rand_core::OsRng;
use vstd::prelude::*;

verus! {

broadcast use crate::primitives::lemma_le_nonneg;

/// The ring walk of a BLSAG signature: one column whose image channel uses
/// `Hₚ` of each member and the signer's image, rows hashed after the message.
pub open spec fn blsag_chain(message: Seq<u8>, ring: Seq<Seq<u8>>, image: Seq<u8>) -> ChainSpec {
    ChainSpec {
        prefix: message,
        keys: column(ring),
        bases: column(ring.map_values(|p: Seq<u8>| hash_point(p))),
        images: seq![image],
        linked: true,
        width: 1,
    }
}

/// Signatures are linked: there is at least one image and all are equal.
pub open spec fn linked_images(images: Seq<[u8; 32]>) -> bool {
    &&& images.len() >= 1
    &&& forall|i: int| 0 <= i < images.len() ==> #[trigger] images[i] == images[0]
}

/// A BLSAG signature: the challenge entering row 0, one response per ring
/// member, the ring in the order it was signed over, and the signer's key
/// image.
#[derive(Clone, Debug, PartialEq, Eq)]
pub struct BLSAG {
    pub challenge: [u8; 32],
    pub response: Vec<[u8; 32]>,
    pub ring: Vec<[u8; 32]>,
    pub image: [u8; 32],
}

impl BLSAG {
    /// A non-empty ring, one response per member, every scalar and point
    /// canonical, the image included.
    pub open spec fn well_formed(&self) -> bool {
        &&& self.ring.len() >= 1
        &&& self.response.len() == self.ring.len()
        &&& is_scalar(self.challenge@)
        &&& all_scalars(self.response@)
        &&& all_points(self.ring@)
        &&& is_point(self.image@)
    }

    /// The challenge after the first `k` rows of the walk from `challenge`.
    pub open spec fn walk_at(&self, message: Seq<u8>, k: nat) -> int {
        blsag_chain(message, point_seq(self.ring@), self.image@).walk(
            column(scalar_values(self.response@)),
            le_value(self.challenge@),
            k,
        )
    }

    /// The signature is well formed and its ring closes over `message`.
    pub open spec fn accepts(&self, message: Seq<u8>) -> bool {
        &&& self.well_formed()
        &&& self.walk_at(message, self.ring.len() as nat) == le_value(self.challenge@)
    }

    /// The signature is the one that signing `message` with `secret` over
    /// the ring `decoys` gives, when the signer's key goes in at `index`,
    /// the nonce is `nonce` and the responses drawn are `draws`.
    pub open spec fn signed_with(
        &self,
        secret: int,
        decoys: Seq<Seq<u8>>,
        message: Seq<u8>,
        index: int,
        nonce: int,
        draws: Seq<int>,
    ) -> bool {
        &&& point_seq(self.ring@) == decoys.insert(index, public_key(secret))
        &&& self.image@ == key_image(secret)
        &&& self.accepts(message)
        &&& forall|i: int|
            0 <= i < self.response.len() && i != index ==> le_value(#[trigger] self.response@[i]@)
                == draws[i]
        &&& self.walk_at(message, (index + 1) as nat) == hash_scalar(
            message + public_key(nonce) + encoding_of(
                (nonce * log_of(hash_point(public_key(secret)))) % group_order(),
            ),
        )
        &&& le_value(self.response@[index]@) == (nonce - self.walk_at(message, index as nat)
            * secret) % group_order()
    }

    /// Signs `data` with `secret` over the ring of decoys, the signer's key
    /// going in at `index`, with the given nonce and drawn responses (the one
    /// at `index` is replaced).
    pub fn sign_with(
        secret: &Scalar,
        ring: Vec<Point>,
        data: &[u8],
        index: usize,
        nonce: &Scalar,
        draws: &Vec<Scalar>,
    ) -> (r: BLSAG)
        requires
            index <= ring.len(),
            draws.len() == ring.len() + 1,
        ensures
            r.signed_with(secret@, points_view(ring@), data@, index as int, nonce@, scalars_view(draws@)),
    {
        let s = secret.to_bytes();
        let mut ring_bytes = points_to_bytes(ring.as_slice());
        let pk = public_key_of(s);
        let ghost decoys = ring_bytes@;
        ring_bytes.insert(index, pk);
        proof {
            assert(point_seq(ring_bytes@) =~= point_seq(decoys).insert(index as int, pk@));
            assert(all_points(ring_bytes@)) by {
                assert forall|k: int| 0 <= k < ring_bytes@.len() implies crate::primitives::is_point(
                    #[trigger] ring_bytes@[k]@,
                ) by {
                    if k < index {
                        assert(ring_bytes@[k] == decoys[k]);
                    } else if k > index {
                        assert(ring_bytes@[k] == decoys[k - 1]);
                    }
                }
            }
        }
        let draw_bytes = scalars_to_bytes(draws.as_slice());
        let mut resp = column_of(&draw_bytes);
        let image = image_of(s, s);
        let mut images: Vec<[u8; 32]> = Vec::new();
        images.push(image);
        let hashes = hash_points(&ring_bytes);
        let chain = Chain {
            prefix: to_vec(data),
            keys: column_of(&ring_bytes),
            bases: column_of(&hashes),
            images,
            linked: true,
            width: 1,
        };
        let mut a: Vec<[u8; 32]> = Vec::new();
        a.push(nonce.to_bytes());
        let mut sv: Vec<[u8; 32]> = Vec::new();
        sv.push(s);
        let ghost spec_chain = blsag_chain(data@, point_seq(ring_bytes@), image@);
        proof {
            assert(point_seq(chain.images@) =~= seq![image@]);
            assert(chain@ == spec_chain);
            assert(spec_chain.bases[index as int][0] == hash_point(pk@));
            assert(spec_chain.wf());
            assert(crate::kernel::responses_wf(resp@, spec_chain.rows(), 1)) by {
                assert forall|i: int, j: int| 0 <= i < spec_chain.rows() && 0 <= j < 1 implies is_scalar(
                    #[trigger] resp@[i]@[j]@,
                ) by {
                    assert(resp@[i]@ == seq![draw_bytes@[i]]);
                }
            }
            assert(all_scalars(a@));
            assert(all_scalars(sv@));
            assert(scalar_values(sv@) =~= seq![le_value(s@)]);
            assert(spec_chain.holds_secrets(index as int, scalar_values(sv@)));
        }
        let c0 = chain.sign_walk(&mut resp, index, &a, &sv);
        let response = crate::rows::first_column(&resp);
        proof {
            let fv = crate::kernel::matrix_values(resp@);
            assert(column(scalar_values(response@)) =~~= fv) by {
                assert forall|i: int| 0 <= i < fv.len() implies #[trigger] fv[i] =~= seq![le_value(response@[i]@)] by {
                    assert(resp@[i]@.len() == 1);
                }
            }
            assert(scalar_values(a@) =~= seq![nonce@]);
            assert(spec_chain.open_bytes(index as int, seq![nonce@], 0) == Seq::<u8>::empty());
            assert(spec_chain.bases[index as int][0] == hash_point(pk@));
            assert(spec_chain.open_bytes(index as int, seq![nonce@], 1) =~= public_key(nonce@)
                + encoding_of((nonce@ * log_of(hash_point(public_key(secret@)))) % group_order()));
            assert(all_scalars(response@)) by {
                assert forall|i: int| 0 <= i < response@.len() implies is_scalar(#[trigger] response@[i]@) by {
                    assert(is_scalar(resp@[i]@[0]@));
                }
            }
            assert forall|i: int| 0 <= i < response@.len() && i != index implies le_value(
                #[trigger] response@[i]@,
            ) == scalars_view(draws@)[i] by {
                assert(resp@[i]@ == seq![draw_bytes@[i]]);
            }
        }
        let r = BLSAG { challenge: c0, response, ring: ring_bytes, image };
        assert(point_seq(r.ring@) == points_view(ring@).insert(index as int, public_key(secret@)));
        assert(r.image@ == key_image(secret@));
        assert(r.accepts(data@));
        let ghost x = encoding_of((nonce@ * log_of(hash_point(public_key(secret@)))) % group_order());
        assert(data@ + public_key(nonce@) + x =~= data@ + (public_key(nonce@) + x));
        assert(r.walk_at(data@, (index + 1) as nat) == hash_scalar(
            data@ + public_key(nonce@) + encoding_of(
                (nonce@ * log_of(hash_point(public_key(secret@)))) % group_order(),
            ),
        ));
        r
    }

    /// Signs `data` with `secret` over the ring of decoys: the signer's key
    /// goes in at a random position, nonce and responses are drawn from
    /// `rng`.
    pub fn sign(rng: &mut OsRng, secret: &Scalar, ring: Vec<Point>, data: &[u8]) -> (r: Option<BLSAG>)
        ensures
            r matches Some(sig) && {
                &&& sig.accepts(data@)
                &&& exists|k: int|
                    0 <= k <= ring.len() && point_seq(sig.ring@) == points_view(ring@).insert(
                        k,
                        public_key(secret@),
                    )
            },
    {
        let index = random_index(rng, ring.len());
        let nonce = crate::group::scalar_random(rng);
        let mut draws: Vec<Scalar> = Vec::new();
        while draws.len() <= ring.len()
            invariant
                draws.len() <= ring.len() + 1,
            decreases ring.len() + 1 - draws.len(),
        {
            draws.push(crate::group::scalar_random(rng));
        }
        let sig = BLSAG::sign_with(secret, ring, data, index, &nonce, &draws);
        Some(sig)
    }

    /// Whether the signature is well formed.
    pub fn is_well_formed(&self) -> (r: bool)
        ensures
            r == self.well_formed(),
    {
        let n = self.ring.len();
        n != 0 && self.response.len() == n && scalar_canonical(self.challenge) && check_scalars(
            &self.response,
        ) && check_points(&self.ring) && point_canonical(&self.image)
    }

    /// Every count in the encoding fits its 8 bytes.
    pub open spec fn countable(&self) -> bool {
        &&& self.response.len() < count_bound(8)
        &&& self.ring.len() < count_bound(8)
    }

    /// The wire encoding: the challenge, the responses and the ring as
    /// sequences, then the image.
    pub open spec fn encoding(&self) -> Seq<u8> {
        self.challenge@ + list_bytes(point_seq(self.response@)) + list_bytes(point_seq(self.ring@))
            + self.image@
    }

    /// Reading an encoding field by field gives the fields back.
    pub proof fn lemma_encoding_reads(&self)
        requires
            self.countable(),
        ensures
            ({
                let b = self.encoding();
                let p = 32 + list_bytes(point_seq(self.response@)).len() as int;
                &&& read_chunk(b, 0) == Some((self.challenge@, 32int))
                &&& read_list(b, 32) == Some((point_seq(self.response@), p))
                &&& read_list(b, p) == Some((point_seq(self.ring@), b.len() - 32))
                &&& read_chunk(b, b.len() - 32) == Some((self.image@, b.len() as int))
            }),
    {
        let b = self.encoding();
        let l1 = list_bytes(point_seq(self.response@));
        let l2 = list_bytes(point_seq(self.ring@));
        let p = 32 + l1.len() as int;
        lemma_point_seq_chunks(self.response@);
        lemma_point_seq_chunks(self.ring@);
        assert(b.subrange(0, 32) =~= self.challenge@);
        assert(b.subrange(32, p) =~= l1);
        lemma_read_list(b, 32, point_seq(self.response@));
        assert(b.subrange(p, p + l2.len() as int) =~= l2);
        lemma_read_list(b, p, point_seq(self.ring@));
        assert(b.subrange(b.len() - 32, b.len() as int) =~= self.image@);
    }

    /// A signature is determined by its encoding: decoding what was encoded
    /// gives back the same challenge, responses and ring.
    pub proof fn lemma_encoding_determines(a: BLSAG, b: BLSAG)
        requires
            a.countable(),
            b.countable(),
            a.encoding() == b.encoding(),
        ensures
            a.challenge == b.challenge,
            a.response@ == b.response@,
            a.ring@ == b.ring@,
            a.image == b.image,
    {
        a.lemma_encoding_reads();
        b.lemma_encoding_reads();
        assert(a.challenge =~= b.challenge);
        lemma_point_seq_injective(a.response@, b.response@);
        lemma_point_seq_injective(a.ring@, b.ring@);
        assert(a.image =~= b.image);
    }

    /// The wire encoding.
    pub fn to_bytes(&self) -> (r: Vec<u8>)
        ensures
            r@ == self.encoding(),
    {
        let mut buf: Vec<u8> = Vec::new();
        push_chunk(&mut buf, &self.challenge);
        push_list(&mut buf, &self.response);
        push_list(&mut buf, &self.ring);
        push_chunk(&mut buf, &self.image);
        assert(buf@ =~= self.encoding());
        buf
    }

    /// Decodes a signature; `None` unless the bytes are the encoding of a
    /// well-formed signature.
    pub fn from_bytes(bytes: &[u8]) -> (r: Option<BLSAG>)
        ensures
            r matches Some(sig) ==> sig.well_formed() && sig.encoding() == bytes@,
            (exists|sig: BLSAG| sig.well_formed() && sig.countable() && #[trigger] sig.encoding()
                == bytes@) ==> r is Some,
    {
        let ghost b = bytes@;
        proof {
            if exists|sig: BLSAG| sig.well_formed() && sig.countable() && #[trigger] sig.encoding() == b {
                let sig = choose|sig: BLSAG| sig.well_formed() && sig.countable() && #[trigger] sig.encoding() == b;
                sig.lemma_encoding_reads();
            }
        }
        let (challenge, p1) = match read_chunk_at(bytes, 0) {
            Some(x) => x,
            None => {
                return None;
            },
        };
        let (response, p2) = match read_list_at(bytes, p1) {
            Some(x) => x,
            None => {
                return None;
            },
        };
        let (ring, p3) = match read_list_at(bytes, p2) {
            Some(x) => x,
            None => {
                return None;
            },
        };
        let (image, p4) = match read_chunk_at(bytes, p3) {
            Some(x) => x,
            None => {
                return None;
            },
        };
        if p4 != bytes.len() {
            return None;
        }
        let sig = BLSAG { challenge, response, ring, image };
        proof {
            lemma_read_list_inverse(b, p1 as int);
            lemma_read_list_inverse(b, p2 as int);
            assert(b =~= sig.encoding()) by {
                assert(b =~= b.subrange(0, 32) + b.subrange(32, p2 as int) + b.subrange(p2 as int, p3 as int)
                    + b.subrange(p3 as int, p4 as int));
            }
            if exists|s: BLSAG| s.well_formed() && s.countable() && #[trigger] s.encoding() == b {
                let s = choose|s: BLSAG| s.well_formed() && s.countable() && #[trigger] s.encoding() == b;
                s.lemma_encoding_reads();
                lemma_point_seq_injective(sig.response@, s.response@);
                lemma_point_seq_injective(sig.ring@, s.ring@);
                assert(sig.challenge =~= s.challenge);
                assert(sig.image =~= s.image);
            }
        }
        if !sig.is_well_formed() {
            return None;
        }
        Some(sig)
    }

    /// Whether the signature is well formed and its ring closes over `data`.
    pub fn verify(&self, data: &[u8]) -> (r: bool)
        ensures
            r == self.accepts(data@),
    {
        if !self.is_well_formed() {
            return false;
        }
        let mut images: Vec<[u8; 32]> = Vec::new();
        images.push(self.image);
        let hashes = hash_points(&self.ring);
        let chain = Chain {
            prefix: to_vec(data),
            keys: column_of(&self.ring),
            bases: column_of(&hashes),
            images,
            linked: true,
            width: 1,
        };
        let resp = column_of(&self.response);
        let ghost spec_chain = blsag_chain(data@, point_seq(self.ring@), self.image@);
        proof {
            assert(point_seq(chain.images@) =~= seq![self.image@]);
            assert(chain@ == spec_chain);
            assert(spec_chain.wf());
            assert(crate::kernel::responses_wf(resp@, spec_chain.rows(), 1)) by {
                assert forall|i: int, j: int| 0 <= i < spec_chain.rows() && 0 <= j < 1 implies is_scalar(
                    #[trigger] resp@[i]@[j]@,
                ) by {
                    assert(resp@[i]@ == seq![self.response@[i]]);
                }
            }
        }
        chain.verify_walk(&resp, &self.challenge)
    }

    /// Whether the images come from one secret: at least one image, all
    /// equal.
    pub fn link(images: &[[u8; 32]]) -> (r: bool)
        ensures
            r == linked_images(images@),
    {
        if images.len() == 0 {
            return false;
        }
        let mut i: usize = 1;
        while i < images.len()
            invariant
                1 <= i <= images@.len(),
                forall|k: int| 0 <= k < i ==> #[trigger] images@[k] == images@[0],
            decreases images@.len() - i,
        {
            if !bytes_eq(&images[i], &images[0]) {
                return false;
            }
            i = i + 1;
        }
        true
    }
}

} // verus!
