//! CLSAG: the concise linkable ring signature. Columns are folded into one
//! with weights drawn from domain-separated hashes, so one challenge chain
//! and one response per row suffice.
use crate::group::{
    hash_to_point, image_of, image_over, point_rows, point_rows_to_bytes, public_key, public_key_of,
    public_keys, scalars_to_bytes, scalars_view, Point, Scalar,
};
use crate::kernel::{
    all_scalars, matrix_values, point_matrix, point_seq, responses_wf, scalar_values, Chain,
    ChainSpec,
};
use crate::mlsag::{first_images_agree, first_images_linked};
use crate::primitives::{
    add_points, encodes, group_order, hash_point, hash_scalar, is_point, is_scalar, le_value,
    lemma_log_of, log_of, mul_point, random_index, reduce64, scalar_add, scalar_canonical,
    scalar_mul, sha512,
};
use crate::codec::{
    count_bound, lemma_point_matrix_injective, lemma_point_matrix_rows, lemma_point_seq_chunks,
    lemma_point_seq_injective, lemma_read_list, lemma_read_list_inverse, lemma_read_matrix,
    lemma_read_matrix_inverse, list_bytes, matrix_bytes, push_chunk, push_list, push_matrix,
    read_chunk, read_chunk_at, read_list, read_list_at, read_matrix, read_matrix_at,
};
use crate::rows::{
    all_points, check_point_rows, check_points, check_scalars, column, column_of, first_column,
    points_matrix_wf,
};
use rand_core::OsRng;
use vstd::arithmetic::div_mod::{lemma_add_mod_noop, lemma_mul_mod_noop_left, lemma_mul_mod_noop_right};
use vstd::prelude::*;

verus! {

broadcast use crate::primitives::lemma_le_nonneg;

/// The bytes `CLSAG_` that start each column-weight hash.
pub open spec fn weight_tag() -> Seq<u8> {
    seq![67u8, 76u8, 83u8, 65u8, 71u8, 95u8]
}

/// The bytes `CLSAG_c` that start each row hash.
pub open spec fn row_tag() -> Seq<u8> {
    weight_tag().push(99u8)
}

/// The decimal digits of `n`, as ASCII.
pub open spec fn decimal(n: nat) -> Seq<u8>
    decreases n,
{
    if n < 10 {
        seq![(48 + n) as u8]
    } else {
        decimal(n / 10).push((48 + n % 10) as u8)
    }
}

/// The encodings of a row, one after the other.
pub open spec fn concat(row: Seq<Seq<u8>>) -> Seq<u8>
    decreases row.len(),
{
    if row.len() == 0 {
        Seq::empty()
    } else {
        concat(row.drop_last()) + row.last()
    }
}

/// The encodings of a matrix, row by row.
pub open spec fn flatten(rows: Seq<Seq<Seq<u8>>>) -> Seq<u8>
    decreases rows.len(),
{
    if rows.len() == 0 {
        Seq::empty()
    } else {
        flatten(rows.drop_last()) + concat(rows.last())
    }
}

/// The weight of column `j`: `CLSAG_j`, then all ring points, then all
/// images, hashed to a scalar.
pub open spec fn weight(j: int, rings: Seq<Seq<Seq<u8>>>, images: Seq<Seq<u8>>) -> int {
    hash_scalar(weight_tag() + decimal(j as nat) + flatten(rings) + concat(images))
}

/// The weights of all columns.
pub open spec fn weights(rings: Seq<Seq<Seq<u8>>>, images: Seq<Seq<u8>>) -> Seq<int> {
    Seq::new(images.len(), |j: int| weight(j, rings, images))
}

/// `w[0]·x[0] + ... + w[m-1]·x[m-1]`.
pub open spec fn weighted_sum(w: Seq<int>, x: Seq<int>, m: int) -> int
    decreases m,
{
    if m <= 0 {
        0
    } else {
        weighted_sum(w, x, m - 1) + w[m - 1] * x[m - 1]
    }
}

/// The logarithms of a row of points.
pub open spec fn logs(row: Seq<Seq<u8>>) -> Seq<int> {
    row.map_values(|p: Seq<u8>| log_of(p))
}

/// `Σ w[j]·P[j]`.
pub open spec fn aggregate(w: Seq<int>, row: Seq<Seq<u8>>) -> Seq<u8> {
    encoding_of_sum(w, logs(row))
}

/// The encoding of `Σ w[j]·x[j]·G`.
pub open spec fn encoding_of_sum(w: Seq<int>, x: Seq<int>) -> Seq<u8> {
    crate::primitives::encoding_of(weighted_sum(w, x, w.len() as int) % group_order())
}

/// The images of several secrets over `Hₚ` of the first one's public key.
pub open spec fn shared_images(s: Seq<int>) -> Seq<Seq<u8>> {
    s.map_values(|x: int| image_over(x, s[0]))
}

/// The ring walk of a CLSAG signature: one column of aggregate keys, an
/// image channel over `Hₚ` of each row's first key and the aggregate image,
/// rows hashed after `CLSAG_c`, all ring points and the message.
pub open spec fn clsag_chain(
    message: Seq<u8>,
    rings: Seq<Seq<Seq<u8>>>,
    images: Seq<Seq<u8>>,
) -> ChainSpec {
    ChainSpec {
        prefix: row_tag() + flatten(rings) + message,
        keys: column(rings.map_values(|row: Seq<Seq<u8>>| aggregate(weights(rings, images), row))),
        bases: column(rings.map_values(|row: Seq<Seq<u8>>| hash_point(row[0]))),
        images: seq![aggregate(weights(rings, images), images)],
        linked: true,
        width: 1,
    }
}

/// Appends the decimal digits of `n`.
fn push_decimal(buf: &mut Vec<u8>, n: usize)
    ensures
        final(buf)@ == old(buf)@ + decimal(n as nat),
    decreases n,
{
    if n >= 10 {
        push_decimal(buf, n / 10);
    }
    buf.push((48 + n % 10) as u8);
    proof {
        if n < 10 {
            assert(final(buf)@ =~= old(buf)@ + decimal(n as nat));
        } else {
            assert(final(buf)@ =~= old(buf)@ + decimal(n as nat));
        }
    }
}

/// Appends the bytes `CLSAG_`.
fn push_weight_tag(buf: &mut Vec<u8>)
    ensures
        final(buf)@ == old(buf)@ + weight_tag(),
{
    buf.push(67u8);
    buf.push(76u8);
    buf.push(83u8);
    buf.push(65u8);
    buf.push(71u8);
    buf.push(95u8);
    assert(final(buf)@ =~= old(buf)@ + weight_tag());
}

/// Appends the encodings of a row.
pub(crate) fn push_row(buf: &mut Vec<u8>, row: &Vec<[u8; 32]>)
    ensures
        final(buf)@ == old(buf)@ + concat(point_seq(row@)),
{
    let mut j: usize = 0;
    while j < row.len()
        invariant
            j <= row.len(),
            buf@ == old(buf)@ + concat(point_seq(row@).subrange(0, j as int)),
        decreases row.len() - j,
    {
        crate::bytes::append(buf, row[j].as_slice());
        proof {
            let p = point_seq(row@);
            assert(p.subrange(0, j + 1).drop_last() =~= p.subrange(0, j as int));
            assert(buf@ =~= old(buf)@ + concat(p.subrange(0, j + 1)));
        }
        j = j + 1;
    }
    assert(point_seq(row@).subrange(0, j as int) =~= point_seq(row@));
}

/// Appends the encodings of a matrix, row by row.
fn push_rows(buf: &mut Vec<u8>, rows: &Vec<Vec<[u8; 32]>>)
    ensures
        final(buf)@ == old(buf)@ + flatten(point_matrix(rows@)),
{
    let mut i: usize = 0;
    while i < rows.len()
        invariant
            i <= rows.len(),
            buf@ == old(buf)@ + flatten(point_matrix(rows@).subrange(0, i as int)),
        decreases rows.len() - i,
    {
        push_row(buf, &rows[i]);
        proof {
            let p = point_matrix(rows@);
            assert(p.subrange(0, i + 1).drop_last() =~= p.subrange(0, i as int));
            assert(buf@ =~= old(buf)@ + flatten(p.subrange(0, i + 1)));
        }
        i = i + 1;
    }
    assert(point_matrix(rows@).subrange(0, i as int) =~= point_matrix(rows@));
}

/// The weights of all columns, computed.
fn column_weights(rings: &Vec<Vec<[u8; 32]>>, images: &Vec<[u8; 32]>) -> (r: Vec<[u8; 32]>)
    ensures
        r.len() == images.len(),
        all_scalars(r@),
        scalar_values(r@) == weights(point_matrix(rings@), point_seq(images@)),
{
    let mut r: Vec<[u8; 32]> = Vec::new();
    let mut j: usize = 0;
    while j < images.len()
        invariant
            j <= images.len(),
            r.len() == j,
            forall|k: int|
                0 <= k < j ==> is_scalar((#[trigger] r@[k])@) && le_value(r@[k]@) == weight(
                    k,
                    point_matrix(rings@),
                    point_seq(images@),
                ),
        decreases images.len() - j,
    {
        let mut buf: Vec<u8> = Vec::new();
        push_weight_tag(&mut buf);
        push_decimal(&mut buf, j);
        push_rows(&mut buf, rings);
        push_row(&mut buf, images);
        let h = sha512(buf.as_slice());
        r.push(reduce64(&h));
        j = j + 1;
    }
    assert(scalar_values(r@) =~= weights(point_matrix(rings@), point_seq(images@)));
    r
}

/// `Σ w[j]·P[j]`, computed.
fn aggregate_points(w: &Vec<[u8; 32]>, row: &Vec<[u8; 32]>) -> (r: [u8; 32])
    requires
        w.len() == row.len(),
        w.len() >= 1,
        all_scalars(w@),
        all_points(row@),
    ensures
        r@ == aggregate(scalar_values(w@), point_seq(row@)),
        encodes(
            r@,
            weighted_sum(scalar_values(w@), logs(point_seq(row@)), w.len() as int) % group_order(),
        ),
        is_point(r@),
{
    let ghost wv = scalar_values(w@);
    let ghost xs = logs(point_seq(row@));
    assert(is_scalar(w@[0]@));
    assert(is_point(row@[0]@));
    let mut acc = mul_point(w[0], &row[0]);
    assert(weighted_sum(wv, xs, 0) == 0);
    let mut j: usize = 1;
    while j < w.len()
        invariant
            w.len() == row.len(),
            wv == scalar_values(w@),
            xs == logs(point_seq(row@)),
            all_scalars(w@),
            all_points(row@),
            1 <= j <= w.len(),
            encodes(acc@, weighted_sum(wv, xs, j as int) % group_order()),
        decreases w.len() - j,
    {
        assert(is_scalar(w@[j as int]@));
        assert(is_point(row@[j as int]@));
        let t = mul_point(w[j], &row[j]);
        let ghost sum = weighted_sum(wv, xs, j as int);
        proof {
            lemma_log_of(acc@, sum % group_order());
            lemma_log_of(t@, (wv[j as int] * xs[j as int]) % group_order());
        }
        acc = add_points(&acc, &t);
        proof {
            lemma_add_mod_noop(sum, wv[j as int] * xs[j as int], group_order());
        }
        j = j + 1;
    }
    acc
}

/// `Σ w[j]·s[j] mod ℓ`, computed.
fn aggregate_scalars(w: &Vec<[u8; 32]>, s: &Vec<[u8; 32]>) -> (r: [u8; 32])
    requires
        w.len() == s.len(),
        w.len() >= 1,
        all_scalars(w@),
        all_scalars(s@),
    ensures
        is_scalar(r@),
        le_value(r@) == weighted_sum(scalar_values(w@), scalar_values(s@), w.len() as int)
            % group_order(),
{
    let ghost wv = scalar_values(w@);
    let ghost sv = scalar_values(s@);
    assert(is_scalar(w@[0]@));
    assert(is_scalar(s@[0]@));
    let mut acc = scalar_mul(w[0], s[0]);
    assert(weighted_sum(wv, sv, 0) == 0);
    let mut j: usize = 1;
    while j < w.len()
        invariant
            w.len() == s.len(),
            wv == scalar_values(w@),
            sv == scalar_values(s@),
            all_scalars(w@),
            all_scalars(s@),
            1 <= j <= w.len(),
            is_scalar(acc@),
            le_value(acc@) == weighted_sum(wv, sv, j as int) % group_order(),
        decreases w.len() - j,
    {
        assert(is_scalar(w@[j as int]@));
        assert(is_scalar(s@[j as int]@));
        let t = scalar_mul(w[j], s[j]);
        let ghost sum = weighted_sum(wv, sv, j as int);
        acc = scalar_add(acc, t);
        proof {
            lemma_add_mod_noop(sum, wv[j as int] * sv[j as int], group_order());
        }
        j = j + 1;
    }
    acc
}

/// Summing images `s[j]·H` with weights gives the image of the summed
/// secrets: `Σ w[j]·(s[j]·h mod ℓ) = (Σ w[j]·s[j])·h` mod ℓ.
proof fn lemma_weighted_images(w: Seq<int>, s: Seq<int>, x: Seq<int>, h: int, m: int)
    requires
        0 <= m <= w.len(),
        m <= s.len(),
        m <= x.len(),
        forall|j: int| 0 <= j < m ==> #[trigger] x[j] == (s[j] * h) % group_order(),
    ensures
        weighted_sum(w, x, m) % group_order() == (weighted_sum(w, s, m) * h) % group_order(),
    decreases m,
{
    let l = group_order();
    if m > 0 {
        lemma_weighted_images(w, s, x, h, m - 1);
        let a = weighted_sum(w, x, m - 1);
        let b = weighted_sum(w, s, m - 1);
        let j = m - 1;
        lemma_add_mod_noop(a, w[j] * x[j], l);
        lemma_mul_mod_noop_right(w[j], s[j] * h, l);
        assert(w[j] * (s[j] * h) == (w[j] * s[j]) * h) by (nonlinear_arith);
        lemma_add_mod_noop(b * h, (w[j] * s[j]) * h, l);
        assert(b * h + (w[j] * s[j]) * h == (b + w[j] * s[j]) * h) by (nonlinear_arith);
    }
}

/// The CLSAG ring walk for the given rings, images and message, and the
/// column weights.
fn build_chain(rings: &Vec<Vec<[u8; 32]>>, images: &Vec<[u8; 32]>, message: &[u8]) -> (r: (
    Chain,
    Vec<[u8; 32]>,
))
    requires
        rings.len() >= 1,
        images.len() >= 1,
        points_matrix_wf(rings@, images.len() as int),
        all_points(images@),
    ensures
        r.0@ == clsag_chain(message@, point_matrix(rings@), point_seq(images@)),
        r.0@.wf(),
        r.1.len() == images.len(),
        all_scalars(r.1@),
        scalar_values(r.1@) == weights(point_matrix(rings@), point_seq(images@)),
{
    let ghost rs = point_matrix(rings@);
    let ghost is = point_seq(images@);
    let w = column_weights(rings, images);
    let mut keys: Vec<[u8; 32]> = Vec::new();
    let mut bases: Vec<[u8; 32]> = Vec::new();
    let mut i: usize = 0;
    while i < rings.len()
        invariant
            rings.len() >= 1,
            images.len() >= 1,
            points_matrix_wf(rings@, images.len() as int),
            w.len() == images.len(),
            all_scalars(w@),
            scalar_values(w@) == weights(rs, is),
            rs == point_matrix(rings@),
            i <= rings.len(),
            keys.len() == i,
            bases.len() == i,
            forall|k: int|
                0 <= k < i ==> (#[trigger] keys@[k])@ == aggregate(weights(rs, is), rs[k])
                    && is_point(keys@[k]@),
            forall|k: int|
                0 <= k < i ==> (#[trigger] bases@[k])@ == hash_point(rs[k][0]) && is_point(
                    bases@[k]@,
                ),
        decreases rings.len() - i,
    {
        assert(rings@[i as int].len() == images.len());
        keys.push(aggregate_points(&w, &rings[i]));
        bases.push(hash_to_point(&rings[i][0]));
        i = i + 1;
    }
    let agg_image = aggregate_points(&w, images);
    let mut prefix: Vec<u8> = Vec::new();
    push_weight_tag(&mut prefix);
    prefix.push(99u8);
    push_rows(&mut prefix, rings);
    crate::bytes::append(&mut prefix, message);
    let mut imgs: Vec<[u8; 32]> = Vec::new();
    imgs.push(agg_image);
    let chain = Chain {
        prefix,
        keys: column_of(&keys),
        bases: column_of(&bases),
        images: imgs,
        linked: true,
        width: 1,
    };
    proof {
        let spec_chain = clsag_chain(message@, rs, is);
        assert(point_seq(keys@) =~= rs.map_values(|row: Seq<Seq<u8>>| aggregate(weights(rs, is), row)));
        assert(point_seq(bases@) =~= rs.map_values(|row: Seq<Seq<u8>>| hash_point(row[0])));
        assert(point_seq(chain.images@) =~= seq![aggregate(weights(rs, is), is)]);
        assert(chain.prefix@ =~= row_tag() + flatten(rs) + message@);
        assert(chain@ == spec_chain);
        assert(spec_chain.wf()) by {
            assert forall|k: int, jj: int| 0 <= k < spec_chain.rows() && 0 <= jj < 1 implies is_point(
                #[trigger] spec_chain.keys[k][jj],
            ) by {
                assert(spec_chain.keys[k][jj] == keys@[k]@);
            }
            assert forall|k: int, jj: int| 0 <= k < spec_chain.rows() && 0 <= jj < 1 implies is_point(
                #[trigger] spec_chain.bases[k][jj],
            ) by {
                assert(spec_chain.bases[k][jj] == bases@[k]@);
            }
        }
    }
    (chain, w)
}

/// A CLSAG signature: the challenge entering row 0, one response per row,
/// the rings in the order signed over, and one image per column.
#[derive(Clone, Debug, PartialEq, Eq)]
pub struct CLSAG {
    pub challenge: [u8; 32],
    pub response: Vec<[u8; 32]>,
    pub rings: Vec<Vec<[u8; 32]>>,
    pub images: Vec<[u8; 32]>,
}

impl CLSAG {
    /// At least one row and one column; every ring row as wide as there are
    /// images; one response per row; every scalar and point canonical.
    pub open spec fn well_formed(&self) -> bool {
        &&& self.rings.len() >= 1
        &&& self.images.len() >= 1
        &&& self.response.len() == self.rings.len()
        &&& is_scalar(self.challenge@)
        &&& all_scalars(self.response@)
        &&& all_points(self.images@)
        &&& points_matrix_wf(self.rings@, self.images.len() as int)
    }

    /// The ring walk over `message`.
    pub open spec fn chain(&self, message: Seq<u8>) -> ChainSpec {
        clsag_chain(message, point_matrix(self.rings@), point_seq(self.images@))
    }

    /// The column weights.
    pub open spec fn weights(&self) -> Seq<int> {
        weights(point_matrix(self.rings@), point_seq(self.images@))
    }

    /// The challenge after the first `k` rows of the walk from `challenge`.
    pub open spec fn walk_at(&self, message: Seq<u8>, k: nat) -> int {
        self.chain(message).walk(column(scalar_values(self.response@)), le_value(self.challenge@), k)
    }

    /// The signature is well formed and its ring closes over `message`.
    pub open spec fn accepts(&self, message: Seq<u8>) -> bool {
        &&& self.well_formed()
        &&& self.walk_at(message, self.rings.len() as nat) == le_value(self.challenge@)
    }

    /// The signature is the one that signing `message` with `secrets` over
    /// the decoy rows gives, when the signer's row goes in at `index`, the
    /// nonce is `nonce` and the responses drawn are `draws`.
    pub open spec fn signed_with(
        &self,
        secrets: Seq<int>,
        decoys: Seq<Seq<Seq<u8>>>,
        message: Seq<u8>,
        index: int,
        nonce: int,
        draws: Seq<int>,
    ) -> bool {
        &&& point_matrix(self.rings@) == decoys.insert(index, public_keys(secrets))
        &&& point_seq(self.images@) == shared_images(secrets)
        &&& self.accepts(message)
        &&& forall|i: int|
            0 <= i < self.response.len() && i != index ==> le_value(#[trigger] self.response@[i]@)
                == draws[i]
        &&& self.walk_at(message, (index + 1) as nat) == self.chain(message).opening(
            index,
            seq![nonce],
        )
        &&& le_value(self.response@[index]@) == (nonce - self.walk_at(message, index as nat) * (
        weighted_sum(self.weights(), secrets, secrets.len() as int) % group_order()))
            % group_order()
    }

    /// Signs `message` with `secrets` over the decoy rows, the signer's row
    /// going in at `index`, with the given nonce and drawn responses (the
    /// one at `index` is replaced). `None` when there are no secrets or a
    /// decoy row is not as wide as there are secrets.
    pub fn sign_with(
        secrets: &[Scalar],
        rings: Vec<Vec<Point>>,
        message: &[u8],
        index: usize,
        nonce: &Scalar,
        draws: &Vec<Scalar>,
    ) -> (r: Option<CLSAG>)
        requires
            index <= rings.len(),
            draws.len() == rings.len() + 1,
        ensures
            r is None <==> secrets@.len() == 0 || exists|i: int|
                0 <= i < rings.len() && (#[trigger] rings@[i]).len() != secrets@.len(),
            r matches Some(sig) ==> sig.signed_with(
                scalars_view(secrets@),
                point_rows(rings@),
                message@,
                index as int,
                nonce@,
                scalars_view(draws@),
            ),
    {
        let y = secrets.len();
        if y == 0 {
            return None;
        }
        let mut i: usize = 0;
        while i < rings.len()
            invariant
                y == secrets@.len(),
                i <= rings.len(),
                forall|k: int| 0 <= k < i ==> (#[trigger] rings@[k]).len() == y,
            decreases rings.len() - i,
        {
            if rings[i].len() != y {
                assert((rings@[i as int]).len() != secrets@.len());
                return None;
            }
            i = i + 1;
        }
        let sb = scalars_to_bytes(secrets);
        let ghost sv = scalar_values(sb@);
        assert(is_scalar(sb@[0]@));
        let ghost h = log_of(hash_point(public_key(sv[0])));
        let mut pks: Vec<[u8; 32]> = Vec::new();
        let mut imgs: Vec<[u8; 32]> = Vec::new();
        let mut j: usize = 0;
        while j < y
            invariant
                y == sb.len(),
                y >= 1,
                sv == scalar_values(sb@),
                h == log_of(hash_point(public_key(sv[0]))),
                all_scalars(sb@),
                j <= y,
                pks.len() == j,
                imgs.len() == j,
                forall|k: int|
                    0 <= k < j ==> encodes((#[trigger] pks@[k])@, sv[k]) && pks@[k]@ == public_key(
                        sv[k],
                    ),
                forall|k: int|
                    0 <= k < j ==> encodes((#[trigger] imgs@[k])@, (sv[k] * h) % group_order())
                        && imgs@[k]@ == image_over(sv[k], sv[0]),
            decreases y - j,
        {
            assert(is_scalar(sb@[j as int]@));
            pks.push(public_key_of(sb[j]));
            imgs.push(image_of(sb[j], sb[0]));
            j = j + 1;
        }
        let mut keys = point_rows_to_bytes(&rings);
        let ghost decoy_keys = keys@;
        keys.insert(index, pks);
        proof {
            assert(sv =~= scalars_view(secrets@));
            assert forall|k: int| 0 <= k < keys.len() implies (#[trigger] keys@[k]).len() == y
                && all_points(keys@[k]@) by {
                if k < index {
                    assert(keys@[k] == decoy_keys[k]);
                } else if k > index {
                    assert(keys@[k] == decoy_keys[k - 1]);
                } else {
                    assert forall|jj: int| 0 <= jj < y implies is_point(#[trigger] keys@[k]@[jj]@) by {
                        lemma_log_of(pks@[jj]@, sv[jj]);
                    }
                }
            }
            assert forall|jj: int| 0 <= jj < y implies is_point(#[trigger] imgs@[jj]@) by {
                lemma_log_of(imgs@[jj]@, (sv[jj] * h) % group_order());
            }
            assert(point_matrix(keys@) =~= point_rows(rings@).insert(index as int, public_keys(sv))) by {
                assert(point_seq(pks@) =~= public_keys(sv));
                assert forall|k: int| 0 <= k < keys.len() implies #[trigger] point_matrix(keys@)[k]
                    == point_rows(rings@).insert(index as int, public_keys(sv))[k] by {
                    if k < index {
                        assert(keys@[k] == decoy_keys[k]);
                    } else if k > index {
                        assert(keys@[k] == decoy_keys[k - 1]);
                    }
                }
            }
            assert(point_seq(imgs@) =~= shared_images(sv));
        }
        let (chain, w) = build_chain(&keys, &imgs, message);
        let s_star = aggregate_scalars(&w, &sb);
        let draw_bytes = scalars_to_bytes(draws.as_slice());
        let mut resp = column_of(&draw_bytes);
        let mut a: Vec<[u8; 32]> = Vec::new();
        a.push(nonce.to_bytes());
        let mut sa: Vec<[u8; 32]> = Vec::new();
        sa.push(s_star);
        let ghost spec_chain = chain@;
        let ghost wv = scalar_values(w@);
        proof {
            let rs = point_matrix(keys@);
            assert(responses_wf(resp@, spec_chain.rows(), 1)) by {
                assert forall|k: int, jj: int| 0 <= k < spec_chain.rows() && 0 <= jj < 1 implies is_scalar(
                    #[trigger] resp@[k]@[jj]@,
                ) by {
                    assert(resp@[k]@ == seq![draw_bytes@[k]]);
                }
            }
            assert(all_scalars(a@));
            assert(all_scalars(sa@));
            let star = le_value(s_star@);
            assert(scalar_values(sa@) =~= seq![star]);
            // The signer's aggregate key is the public key of the aggregate secret.
            let row = rs[index as int];
            assert(logs(row) =~= sv) by {
                assert forall|jj: int| 0 <= jj < y implies #[trigger] logs(row)[jj] == sv[jj] by {
                    lemma_log_of(pks@[jj]@, sv[jj]);
                }
            }
            assert(spec_chain.keys[index as int][0] == aggregate(wv, row));
            assert(aggregate_points_value(wv, row, sv));
            // The aggregate image is the aggregate secret's image over the signer's base.
            assert(logs(point_seq(imgs@)) =~= Seq::new(y as nat, |jj: int| (sv[jj] * h) % group_order()))
                by {
                assert forall|jj: int| 0 <= jj < y implies #[trigger] logs(point_seq(imgs@))[jj] == (sv[jj]
                    * h) % group_order() by {
                    lemma_log_of(imgs@[jj]@, (sv[jj] * h) % group_order());
                }
            }
            lemma_weighted_images(wv, sv, logs(point_seq(imgs@)), h, y as int);
            lemma_mul_mod_noop_left(weighted_sum(wv, sv, y as int), h, group_order());
            assert(spec_chain.bases[index as int][0] == hash_point(public_key(sv[0])));
            let img_val = weighted_sum(wv, logs(point_seq(imgs@)), y as int) % group_order();
            assert(0 <= img_val < group_order());
            assert(spec_chain.holds_secrets(index as int, seq![star])) by {
                assert(encodes(spec_chain.keys[index as int][0], star));
                assert(encodes(spec_chain.images[0], (star * h) % group_order()));
            }
        }
        let c0 = chain.sign_walk(&mut resp, index, &a, &sa);
        let response = first_column(&resp);
        let r = CLSAG { challenge: c0, response, rings: keys, images: imgs };
        proof {
            let fv = matrix_values(resp@);
            assert(column(scalar_values(response@)) =~~= fv) by {
                assert forall|k: int| 0 <= k < fv.len() implies #[trigger] fv[k] =~= seq![le_value(response@[k]@)] by {
                    assert(resp@[k]@.len() == 1);
                }
            }
            assert(scalar_values(a@) =~= seq![nonce@]);
            assert(all_scalars(response@)) by {
                assert forall|k: int| 0 <= k < response@.len() implies is_scalar(#[trigger] response@[k]@) by {
                    assert(is_scalar(resp@[k]@[0]@));
                }
            }
            assert forall|k: int| 0 <= k < response@.len() && k != index implies le_value(
                #[trigger] response@[k]@,
            ) == scalars_view(draws@)[k] by {
                assert(resp@[k]@ == seq![draw_bytes@[k]]);
            }
            assert(r.chain(message@) == spec_chain);
            assert(r.weights() == wv);
        }
        Some(r)
    }

    /// Signs `message` with `secrets` over the decoy rows: the signer's row
    /// goes in at a random position, the nonce and responses are drawn from
    /// `rng`. `None` when there are no secrets or a decoy row is not as wide
    /// as there are secrets.
    pub fn sign(rng: &mut OsRng, secrets: &[Scalar], rings: Vec<Vec<Point>>, data: &[u8]) -> (r:
        Option<CLSAG>)
        ensures
            r is None <==> secrets@.len() == 0 || exists|i: int|
                0 <= i < rings.len() && (#[trigger] rings@[i]).len() != secrets@.len(),
            r matches Some(sig) ==> {
                &&& sig.accepts(data@)
                &&& point_seq(sig.images@) == shared_images(scalars_view(secrets@))
                &&& exists|k: int|
                    0 <= k <= rings.len() && point_matrix(sig.rings@) == #[trigger] point_rows(
                        rings@,
                    ).insert(k, public_keys(scalars_view(secrets@)))
            },
    {
        let index = random_index(rng, rings.len());
        let nonce = crate::group::scalar_random(rng);
        let mut draws: Vec<Scalar> = Vec::new();
        while draws.len() <= rings.len()
            invariant
                draws.len() <= rings.len() + 1,
            decreases rings.len() + 1 - draws.len(),
        {
            draws.push(crate::group::scalar_random(rng));
        }
        CLSAG::sign_with(secrets, rings, data, index, &nonce, &draws)
    }

    /// Whether the signature is well formed.
    pub fn is_well_formed(&self) -> (r: bool)
        ensures
            r == self.well_formed(),
    {
        let x = self.rings.len();
        let y = self.images.len();
        x != 0 && y != 0 && self.response.len() == x && scalar_canonical(self.challenge)
            && check_scalars(&self.response) && check_points(&self.images) && check_point_rows(
            &self.rings,
            y,
        )
    }

    /// Every count in the encoding fits its 8 bytes.
    pub open spec fn countable(&self) -> bool {
        &&& self.response.len() < count_bound(8)
        &&& self.rings.len() < count_bound(8)
        &&& self.images.len() < count_bound(8)
        &&& forall|i: int| 0 <= i < self.rings.len() ==> (#[trigger] self.rings@[i]).len() < count_bound(8)
    }

    /// The wire encoding: the challenge, the responses as a sequence, the
    /// rings as a matrix, then the images as a sequence.
    pub open spec fn encoding(&self) -> Seq<u8> {
        self.challenge@ + list_bytes(point_seq(self.response@)) + matrix_bytes(
            point_matrix(self.rings@),
        ) + list_bytes(point_seq(self.images@))
    }

    /// Reading an encoding field by field gives the fields back.
    pub proof fn lemma_encoding_reads(&self)
        requires
            self.countable(),
        ensures
            ({
                let b = self.encoding();
                let p = 32 + list_bytes(point_seq(self.response@)).len() as int;
                let q = p + matrix_bytes(point_matrix(self.rings@)).len() as int;
                &&& read_chunk(b, 0) == Some((self.challenge@, 32int))
                &&& read_list(b, 32) == Some((point_seq(self.response@), p))
                &&& read_matrix(b, p) == Some((point_matrix(self.rings@), q))
                &&& read_list(b, q) == Some((point_seq(self.images@), b.len() as int))
            }),
    {
        let b = self.encoding();
        let l1 = list_bytes(point_seq(self.response@));
        let l2 = matrix_bytes(point_matrix(self.rings@));
        let l3 = list_bytes(point_seq(self.images@));
        let p = 32 + l1.len() as int;
        let q = p + l2.len() as int;
        lemma_point_seq_chunks(self.response@);
        lemma_point_matrix_rows(self.rings@);
        lemma_point_seq_chunks(self.images@);
        assert(b.subrange(0, 32) =~= self.challenge@);
        assert(b.subrange(32, p) =~= l1);
        lemma_read_list(b, 32, point_seq(self.response@));
        assert(b.subrange(p, q) =~= l2);
        lemma_read_matrix(b, p, point_matrix(self.rings@));
        assert(b.subrange(q, q + l3.len() as int) =~= l3);
        lemma_read_list(b, q, point_seq(self.images@));
    }

    /// A signature is determined by its encoding: decoding what was encoded
    /// gives back the same challenge, responses, rings and images.
    pub proof fn lemma_encoding_determines(a: CLSAG, b: CLSAG)
        requires
            a.countable(),
            b.countable(),
            a.encoding() == b.encoding(),
        ensures
            a.challenge == b.challenge,
            a.response@ == b.response@,
            point_matrix(a.rings@) == point_matrix(b.rings@),
            a.images@ == b.images@,
    {
        a.lemma_encoding_reads();
        b.lemma_encoding_reads();
        assert(a.challenge =~= b.challenge);
        lemma_point_seq_injective(a.images@, b.images@);
        lemma_point_seq_injective(a.response@, b.response@);
    }

    /// The wire encoding.
    pub fn to_bytes(&self) -> (r: Vec<u8>)
        ensures
            r@ == self.encoding(),
    {
        let mut buf: Vec<u8> = Vec::new();
        push_chunk(&mut buf, &self.challenge);
        push_list(&mut buf, &self.response);
        push_matrix(&mut buf, &self.rings);
        push_list(&mut buf, &self.images);
        assert(buf@ =~= self.encoding());
        buf
    }

    /// Decodes a signature; `None` unless the bytes are the encoding of a
    /// well-formed signature.
    pub fn from_bytes(bytes: &[u8]) -> (r: Option<CLSAG>)
        ensures
            r matches Some(sig) ==> sig.well_formed() && sig.encoding() == bytes@,
            (exists|sig: CLSAG| sig.well_formed() && sig.countable() && #[trigger] sig.encoding()
                == bytes@) ==> r is Some,
    {
        let ghost b = bytes@;
        proof {
            if exists|sig: CLSAG| sig.well_formed() && sig.countable() && #[trigger] sig.encoding() == b {
                let sig = choose|sig: CLSAG| sig.well_formed() && sig.countable() && #[trigger] sig.encoding() == b;
                sig.lemma_encoding_reads();
            }
        }
        let (challenge, p1) = match read_chunk_at(bytes, 0) {
            Some(x) => x,
            None => {
                return None;
            },
        };
        let (response, p2) = match read_list_at(bytes, p1) {
            Some(x) => x,
            None => {
                return None;
            },
        };
        let (rings, p3) = match read_matrix_at(bytes, p2) {
            Some(x) => x,
            None => {
                return None;
            },
        };
        let (images, p4) = match read_list_at(bytes, p3) {
            Some(x) => x,
            None => {
                return None;
            },
        };
        if p4 != bytes.len() {
            return None;
        }
        let sig = CLSAG { challenge, response, rings, images };
        proof {
            lemma_read_list_inverse(b, p1 as int);
            lemma_read_matrix_inverse(b, p2 as int);
            lemma_read_list_inverse(b, p3 as int);
            assert(b =~= sig.encoding()) by {
                assert(b =~= b.subrange(0, 32) + b.subrange(32, p2 as int) + b.subrange(p2 as int, p3 as int)
                    + b.subrange(p3 as int, p4 as int));
            }
            if exists|s: CLSAG| s.well_formed() && s.countable() && #[trigger] s.encoding() == b {
                let s = choose|s: CLSAG| s.well_formed() && s.countable() && #[trigger] s.encoding() == b;
                s.lemma_encoding_reads();
                lemma_point_seq_injective(sig.response@, s.response@);
                lemma_point_matrix_injective(sig.rings@, s.rings@);
                lemma_point_seq_injective(sig.images@, s.images@);
                assert(sig.challenge =~= s.challenge);
                let y = s.images.len() as int;
                assert(points_matrix_wf(sig.rings@, y)) by {
                    assert forall|i: int| 0 <= i < sig.rings@.len() implies (#[trigger] sig.rings@[i]).len() == y
                        && all_points(sig.rings@[i]@) by {
                        assert(sig.rings@[i]@ == s.rings@[i]@);
                        assert(s.rings@[i].len() == y && all_points(s.rings@[i]@));
                    }
                }
            }
        }
        if !sig.is_well_formed() {
            return None;
        }
        Some(sig)
    }

    /// Whether the signature is well formed and its ring closes over `data`.
    pub fn verify(&self, data: &[u8]) -> (r: bool)
        ensures
            r == self.accepts(data@),
    {
        if !self.is_well_formed() {
            return false;
        }
        let (chain, _w) = build_chain(&self.rings, &self.images, data);
        let resp = column_of(&self.response);
        proof {
            let spec_chain = self.chain(data@);
            assert(responses_wf(resp@, spec_chain.rows(), 1)) by {
                assert forall|k: int, jj: int| 0 <= k < spec_chain.rows() && 0 <= jj < 1 implies is_scalar(
                    #[trigger] resp@[k]@[jj]@,
                ) by {
                    assert(resp@[k]@ == seq![self.response@[k]]);
                }
            }
        }
        chain.verify_walk(&resp, &self.challenge)
    }

    /// Whether the signatures' first images agree: every list non-empty and
    /// starting with the first list's first image.
    pub fn link(images: &[&[[u8; 32]]]) -> (r: bool)
        ensures
            r == first_images_linked(images@.map_values(|s: &[[u8; 32]]| s@)),
    {
        first_images_agree(images)
    }
}

/// The aggregate of a row whose logarithms are `s` encodes `Σ w[j]·s[j]`.
pub open spec fn aggregate_points_value(w: Seq<int>, row: Seq<Seq<u8>>, s: Seq<int>) -> bool {
    logs(row) == s ==> aggregate(w, row) == crate::primitives::encoding_of(
        weighted_sum(w, s, w.len() as int) % group_order(),
    )
}

} // verus!
