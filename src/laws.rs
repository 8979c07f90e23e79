//! Properties that relate several signatures.
use crate::blsag::{linked_images, BLSAG};
use crate::clsag::CLSAG;
use crate::group::key_image;
use crate::kernel::point_seq;
use crate::mlsag::{first_images_linked, MLSAG};
use vstd::prelude::*;

verus! {

/// Two BLSAG signatures made with the same secret carry byte-equal key
/// images, whatever the rings, messages and randomness, and so they link.
pub proof fn lemma_blsag_same_secret_links(
    secret: int,
    sig_a: BLSAG,
    decoys_a: Seq<Seq<u8>>,
    message_a: Seq<u8>,
    index_a: int,
    nonce_a: int,
    draws_a: Seq<int>,
    sig_b: BLSAG,
    decoys_b: Seq<Seq<u8>>,
    message_b: Seq<u8>,
    index_b: int,
    nonce_b: int,
    draws_b: Seq<int>,
)
    requires
        sig_a.signed_with(secret, decoys_a, message_a, index_a, nonce_a, draws_a),
        sig_b.signed_with(secret, decoys_b, message_b, index_b, nonce_b, draws_b),
    ensures
        sig_a.image == sig_b.image,
        linked_images(seq![sig_a.image, sig_b.image]),
{
    assert(sig_a.image =~= sig_b.image);
}

/// Two MLSAG signatures whose first secrets agree carry byte-equal first
/// images, and so they link.
pub proof fn lemma_mlsag_same_secret_links(
    secrets_a: Seq<int>,
    sig_a: MLSAG,
    decoys_a: Seq<Seq<Seq<u8>>>,
    message_a: Seq<u8>,
    index_a: int,
    nonces_a: Seq<int>,
    draws_a: Seq<Seq<int>>,
    secrets_b: Seq<int>,
    sig_b: MLSAG,
    decoys_b: Seq<Seq<Seq<u8>>>,
    message_b: Seq<u8>,
    index_b: int,
    nonces_b: Seq<int>,
    draws_b: Seq<Seq<int>>,
)
    requires
        secrets_a.len() >= 1,
        secrets_b.len() >= 1,
        secrets_a[0] == secrets_b[0],
        sig_a.signed_with(secrets_a, decoys_a, message_a, index_a, nonces_a, draws_a),
        sig_b.signed_with(secrets_b, decoys_b, message_b, index_b, nonces_b, draws_b),
    ensures
        sig_a.images@[0] == sig_b.images@[0],
        first_images_linked(seq![sig_a.images@, sig_b.images@]),
{
    assert(point_seq(sig_a.images@)[0] == point_seq(sig_b.images@)[0]);
    assert(sig_a.images@[0] =~= sig_b.images@[0]);
}

/// Two CLSAG signatures whose first secrets agree carry byte-equal first
/// images, and so they link.
pub proof fn lemma_clsag_same_secret_links(
    secrets_a: Seq<int>,
    sig_a: CLSAG,
    decoys_a: Seq<Seq<Seq<u8>>>,
    message_a: Seq<u8>,
    index_a: int,
    nonce_a: int,
    draws_a: Seq<int>,
    secrets_b: Seq<int>,
    sig_b: CLSAG,
    decoys_b: Seq<Seq<Seq<u8>>>,
    message_b: Seq<u8>,
    index_b: int,
    nonce_b: int,
    draws_b: Seq<int>,
)
    requires
        secrets_a.len() >= 1,
        secrets_b.len() >= 1,
        secrets_a[0] == secrets_b[0],
        sig_a.signed_with(secrets_a, decoys_a, message_a, index_a, nonce_a, draws_a),
        sig_b.signed_with(secrets_b, decoys_b, message_b, index_b, nonce_b, draws_b),
    ensures
        sig_a.images@[0] == sig_b.images@[0],
        first_images_linked(seq![sig_a.images@, sig_b.images@]),
{
    assert(point_seq(sig_a.images@)[0] == point_seq(sig_b.images@)[0]);
    assert(sig_a.images@[0] =~= sig_b.images@[0]);
}

/// A CLSAG and an MLSAG signature whose first secrets agree carry the same
/// first image, the key image of that secret: the two schemes link alike.
pub proof fn lemma_clsag_links_like_mlsag(
    secrets_a: Seq<int>,
    sig_a: CLSAG,
    decoys_a: Seq<Seq<Seq<u8>>>,
    message_a: Seq<u8>,
    index_a: int,
    nonce_a: int,
    draws_a: Seq<int>,
    secrets_b: Seq<int>,
    sig_b: MLSAG,
    decoys_b: Seq<Seq<Seq<u8>>>,
    message_b: Seq<u8>,
    index_b: int,
    nonces_b: Seq<int>,
    draws_b: Seq<Seq<int>>,
)
    requires
        secrets_a.len() >= 1,
        secrets_b.len() >= 1,
        secrets_a[0] == secrets_b[0],
        sig_a.signed_with(secrets_a, decoys_a, message_a, index_a, nonce_a, draws_a),
        sig_b.signed_with(secrets_b, decoys_b, message_b, index_b, nonces_b, draws_b),
    ensures
        sig_a.images@[0]@ == key_image(secrets_a[0]),
        sig_a.images@[0] == sig_b.images@[0],
        first_images_linked(seq![sig_a.images@, sig_b.images@]),
{
    assert(point_seq(sig_a.images@)[0] == point_seq(sig_b.images@)[0]);
    assert(sig_a.images@[0] =~= sig_b.images@[0]);
}

} // verus!
