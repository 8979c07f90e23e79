//! Scalars, points and key images as the library hands them out.
use crate::primitives::{
    encodes, encoding_of, from_uniform, group_order, hash_point, hash_scalar, is_point, is_scalar,
    le_value, lemma_log_of, log_of, mul_base, mul_point, point_canonical, random_bytes, reduce32,
    reduce64, scalar_canonical, sha512,
};
use crate::bytes::small_scalar;
use crate::kernel::{all_scalars, matrix_values, point_matrix, point_seq, scalar_values};
use crate::rows::all_points;
use rand_core::OsRng;
use vstd::prelude::*;

verus! {

broadcast use crate::primitives::lemma_le_nonneg;

/// An element of the scalar field, below the group order ℓ. Scalars serve
/// as secrets, so the type does not print itself.
#[derive(Clone, Copy)]
pub struct Scalar {
    bytes: [u8; 32],
}

impl View for Scalar {
    type V = int;

    closed spec fn view(&self) -> int {
        le_value(self.bytes@)
    }
}

impl Scalar {
    #[verifier::type_invariant]
    closed spec fn inv(&self) -> bool {
        is_scalar(self.bytes@)
    }

    pub(crate) fn from_encoding(b: [u8; 32]) -> (r: Scalar)
        requires
            is_scalar(b@),
        ensures
            r@ == le_value(b@),
    {
        Scalar { bytes: b }
    }

    /// The canonical 32-byte little-endian encoding.
    pub fn to_bytes(&self) -> (r: [u8; 32])
        ensures
            le_value(r@) == self@,
            is_scalar(r@),
    {
        proof {
            use_type_invariant(self);
        }
        self.bytes
    }

    /// The public key `s·G`.
    pub fn public_key(&self) -> (r: Point)
        ensures
            r@ == public_key(self@),
    {
        Point::from_encoding(public_key_of(self.to_bytes()))
    }
}

/// A point of the Ristretto group.
#[derive(Clone, Copy, Debug)]
pub struct Point {
    bytes: [u8; 32],
}

impl View for Point {
    type V = Seq<u8>;

    closed spec fn view(&self) -> Seq<u8> {
        self.bytes@
    }
}

impl Point {
    #[verifier::type_invariant]
    closed spec fn inv(&self) -> bool {
        is_point(self.bytes@)
    }

    pub(crate) fn from_encoding(b: [u8; 32]) -> (r: Point)
        requires
            is_point(b@),
        ensures
            r@ == b@,
    {
        Point { bytes: b }
    }

    /// The canonical 32-byte compressed encoding.
    pub fn to_bytes(&self) -> (r: [u8; 32])
        ensures
            r@ == self@,
            is_point(r@),
    {
        proof {
            use_type_invariant(self);
        }
        self.bytes
    }
}

/// The public key `s·G` of the secret `s`.
pub open spec fn public_key(s: int) -> Seq<u8> {
    encoding_of(s)
}

/// `s·Hₚ(P)`, where `P = t·G`: the image of `s` over the hashed public key
/// of `t`.
pub open spec fn image_over(s: int, t: int) -> Seq<u8> {
    encoding_of((s * log_of(hash_point(public_key(t)))) % group_order())
}

/// The key image `s·Hₚ(s·G)` of the secret `s`.
pub open spec fn key_image(s: int) -> Seq<u8> {
    image_over(s, s)
}

/// The public keys of several secrets.
pub open spec fn public_keys(s: Seq<int>) -> Seq<Seq<u8>> {
    s.map_values(|x: int| public_key(x))
}

/// The key images of several secrets.
pub open spec fn key_images_of(s: Seq<int>) -> Seq<Seq<u8>> {
    s.map_values(|x: int| key_image(x))
}

/// The scalars of a sequence, as values.
pub open spec fn scalars_view(s: Seq<Scalar>) -> Seq<int> {
    s.map_values(|x: Scalar| x@)
}

/// The encodings of a sequence of points.
pub open spec fn points_view(s: Seq<Point>) -> Seq<Seq<u8>> {
    s.map_values(|p: Point| p@)
}

/// `Hₚ` on an encoding.
pub(crate) fn hash_to_point(b: &[u8; 32]) -> (r: [u8; 32])
    ensures
        r@ == hash_point(b@),
        is_point(r@),
{
    let h = sha512(b);
    from_uniform(&h)
}

/// The public key of a canonical scalar encoding.
pub(crate) fn public_key_of(s: [u8; 32]) -> (r: [u8; 32])
    requires
        is_scalar(s@),
    ensures
        r@ == public_key(le_value(s@)),
        encodes(r@, le_value(s@)),
        is_point(r@),
{
    let r = mul_base(s);
    proof {
        lemma_log_of(r@, le_value(s@));
    }
    r
}

/// The image of the secret `s` over `Hₚ(t·G)`.
pub(crate) fn image_of(s: [u8; 32], t: [u8; 32]) -> (r: [u8; 32])
    requires
        is_scalar(s@),
        is_scalar(t@),
    ensures
        r@ == image_over(le_value(s@), le_value(t@)),
        encodes(r@, (le_value(s@) * log_of(hash_point(public_key(le_value(t@))))) % group_order()),
        is_point(r@),
{
    let p = public_key_of(t);
    let h = hash_to_point(&p);
    let r = mul_point(s, &h);
    proof {
        lemma_log_of(r@, (le_value(s@) * log_of(h@)) % group_order());
    }
    r
}

/// The encodings of a sequence of points.
pub(crate) fn points_to_bytes(v: &[Point]) -> (r: Vec<[u8; 32]>)
    ensures
        point_seq(r@) == points_view(v@),
        all_points(r@),
        r.len() == v@.len(),
{
    let mut r: Vec<[u8; 32]> = Vec::new();
    let mut i: usize = 0;
    while i < v.len()
        invariant
            i <= v@.len(),
            r.len() == i,
            forall|k: int| 0 <= k < i ==> (#[trigger] r@[k])@ == v@[k]@ && is_point(r@[k]@),
        decreases v@.len() - i,
    {
        r.push(v[i].to_bytes());
        i = i + 1;
    }
    assert(point_seq(r@) =~= points_view(v@));
    r
}

/// The encodings of a sequence of scalars.
pub(crate) fn scalars_to_bytes(v: &[Scalar]) -> (r: Vec<[u8; 32]>)
    ensures
        scalar_values(r@) == scalars_view(v@),
        all_scalars(r@),
        r.len() == v@.len(),
{
    let mut r: Vec<[u8; 32]> = Vec::new();
    let mut i: usize = 0;
    while i < v.len()
        invariant
            i <= v@.len(),
            r.len() == i,
            forall|k: int| 0 <= k < i ==> le_value((#[trigger] r@[k])@) == v@[k]@ && is_scalar(r@[k]@),
        decreases v@.len() - i,
    {
        r.push(v[i].to_bytes());
        i = i + 1;
    }
    assert(scalar_values(r@) =~= scalars_view(v@));
    r
}

/// `n` scalars drawn uniformly.
pub(crate) fn random_scalars(rng: &mut OsRng, n: usize) -> (r: Vec<Scalar>)
    ensures
        r.len() == n,
{
    let mut r: Vec<Scalar> = Vec::new();
    while r.len() < n
        invariant
            r.len() <= n,
        decreases n - r.len(),
    {
        r.push(scalar_random(rng));
    }
    r
}

/// `Hₚ` of each point.
pub(crate) fn hash_points(v: &Vec<[u8; 32]>) -> (r: Vec<[u8; 32]>)
    ensures
        point_seq(r@) == point_seq(v@).map_values(|p: Seq<u8>| hash_point(p)),
        all_points(r@),
        r.len() == v.len(),
{
    let mut r: Vec<[u8; 32]> = Vec::new();
    let mut i: usize = 0;
    while i < v.len()
        invariant
            i <= v.len(),
            r.len() == i,
            forall|k: int| 0 <= k < i ==> (#[trigger] r@[k])@ == hash_point(v@[k]@) && is_point(r@[k]@),
        decreases v.len() - i,
    {
        r.push(hash_to_point(&v[i]));
        i = i + 1;
    }
    assert(point_seq(r@) =~= point_seq(v@).map_values(|p: Seq<u8>| hash_point(p)));
    r
}

/// The encodings of the rows of a matrix of points.
pub open spec fn point_rows(m: Seq<Vec<Point>>) -> Seq<Seq<Seq<u8>>> {
    m.map_values(|row: Vec<Point>| points_view(row@))
}

/// The values of the rows of a matrix of scalars.
pub open spec fn scalar_rows(m: Seq<Vec<Scalar>>) -> Seq<Seq<int>> {
    m.map_values(|row: Vec<Scalar>| scalars_view(row@))
}

/// The encodings of a matrix of points.
pub(crate) fn point_rows_to_bytes(m: &Vec<Vec<Point>>) -> (r: Vec<Vec<[u8; 32]>>)
    ensures
        point_matrix(r@) == point_rows(m@),
        r.len() == m.len(),
        forall|i: int| 0 <= i < m.len() ==> (#[trigger] r@[i]).len() == m@[i].len() && all_points(r@[i]@),
{
    let mut r: Vec<Vec<[u8; 32]>> = Vec::new();
    let mut i: usize = 0;
    while i < m.len()
        invariant
            i <= m.len(),
            r.len() == i,
            forall|k: int| 0 <= k < i ==> point_seq((#[trigger] r@[k])@) == points_view(m@[k]@)
                && r@[k].len() == m@[k].len() && all_points(r@[k]@),
        decreases m.len() - i,
    {
        r.push(points_to_bytes(m[i].as_slice()));
        i = i + 1;
    }
    assert(point_matrix(r@) =~= point_rows(m@));
    r
}

/// The encodings of a matrix of scalars.
pub(crate) fn scalar_rows_to_bytes(m: &Vec<Vec<Scalar>>) -> (r: Vec<Vec<[u8; 32]>>)
    ensures
        matrix_values(r@) == scalar_rows(m@),
        r.len() == m.len(),
        forall|i: int| 0 <= i < m.len() ==> (#[trigger] r@[i]).len() == m@[i].len() && all_scalars(r@[i]@),
{
    let mut r: Vec<Vec<[u8; 32]>> = Vec::new();
    let mut i: usize = 0;
    while i < m.len()
        invariant
            i <= m.len(),
            r.len() == i,
            forall|k: int| 0 <= k < i ==> scalar_values((#[trigger] r@[k])@) == scalars_view(m@[k]@)
                && r@[k].len() == m@[k].len() && all_scalars(r@[k]@),
        decreases m.len() - i,
    {
        r.push(scalars_to_bytes(m[i].as_slice()));
        i = i + 1;
    }
    assert(matrix_values(r@) =~= scalar_rows(m@));
    r
}

/// `Hₚ` of every point of a matrix.
pub(crate) fn hash_rows(m: &Vec<Vec<[u8; 32]>>) -> (r: Vec<Vec<[u8; 32]>>)
    ensures
        point_matrix(r@) == point_matrix(m@).map_values(
            |row: Seq<Seq<u8>>| row.map_values(|p: Seq<u8>| hash_point(p)),
        ),
        r.len() == m.len(),
        forall|i: int| 0 <= i < m.len() ==> (#[trigger] r@[i]).len() == m@[i].len() && all_points(r@[i]@),
{
    let mut r: Vec<Vec<[u8; 32]>> = Vec::new();
    let mut i: usize = 0;
    while i < m.len()
        invariant
            i <= m.len(),
            r.len() == i,
            forall|k: int| 0 <= k < i ==> point_seq((#[trigger] r@[k])@) == point_seq(m@[k]@).map_values(
                |p: Seq<u8>| hash_point(p),
            ) && r@[k].len() == m@[k].len() && all_points(r@[k]@),
        decreases m.len() - i,
    {
        r.push(hash_points(&m[i]));
        i = i + 1;
    }
    assert(point_matrix(r@) =~= point_matrix(m@).map_values(
        |row: Seq<Seq<u8>>| row.map_values(|p: Seq<u8>| hash_point(p)),
    ));
    r
}

/// The key image of each secret.
pub(crate) fn key_images(secrets: &[Scalar]) -> (r: Vec<Point>)
    ensures
        r.len() == secrets@.len(),
        forall|j: int| 0 <= j < secrets@.len() ==> (#[trigger] r@[j])@ == key_image(secrets@[j]@),
{
    let mut r: Vec<Point> = Vec::new();
    let mut j: usize = 0;
    while j < secrets.len()
        invariant
            j <= secrets@.len(),
            r.len() == j,
            forall|k: int| 0 <= k < j ==> (#[trigger] r@[k])@ == key_image(secrets@[k]@),
        decreases secrets@.len() - j,
    {
        let s = secrets[j].to_bytes();
        r.push(Point::from_encoding(image_of(s, s)));
        j = j + 1;
    }
    r
}

/// A scalar drawn uniformly: 32 random bytes reduced mod ℓ.
pub fn scalar_random(rng: &mut OsRng) -> (r: Scalar) {
    let b = random_bytes::<32>(rng);
    let s = reduce32(b);
    Scalar::from_encoding(s)
}

/// The scalar that a canonical encoding stands for; `None` when the value is
/// not below ℓ.
pub fn scalar_from_canonical(bytes: [u8; 32]) -> (r: Option<Scalar>)
    ensures
        r is Some <==> le_value(bytes@) < group_order(),
        r matches Some(s) ==> s@ == le_value(bytes@),
{
    if scalar_canonical(bytes) {
        Some(Scalar::from_encoding(bytes))
    } else {
        None
    }
}

/// The scalar zero.
pub fn scalar_zero() -> (r: Scalar)
    ensures
        r@ == 0,
{
    Scalar::from_encoding(small_scalar(0))
}

/// The SHA-512 digest of `data`, reduced mod ℓ.
pub fn scalar_from_hash(data: &[u8]) -> (r: Scalar)
    ensures
        r@ == hash_scalar(data@),
{
    let h = sha512(data);
    Scalar::from_encoding(reduce64(&h))
}

/// The point with the given compressed encoding; `None` when the bytes are
/// not the canonical encoding of a group element.
pub fn point_from_slice(bytes: &[u8; 32]) -> (r: Option<Point>)
    ensures
        r is Some <==> is_point(bytes@),
        r matches Some(p) ==> p@ == bytes@,
{
    if point_canonical(bytes) {
        Some(Point::from_encoding(*bytes))
    } else {
        None
    }
}

/// A point drawn uniformly: 64 random bytes fed to the uniform-bytes map.
pub fn point_random(rng: &mut OsRng) -> (r: Point) {
    let b = random_bytes::<64>(rng);
    Point::from_encoding(from_uniform(&b))
}

/// The hash-to-point map `Hₚ`.
pub fn point_hash(point: Point) -> (r: Point)
    ensures
        r@ == hash_point(point@),
{
    let b = point.to_bytes();
    Point::from_encoding(hash_to_point(&b))
}

/// The key image `s·Hₚ(s·G)` of a secret.
pub fn image(secret: &Scalar) -> (r: Point)
    ensures
        r@ == key_image(secret@),
{
    let s = secret.to_bytes();
    Point::from_encoding(image_of(s, s))
}

/// The images of several secrets over one base, `Hₚ` of the first
/// secret's public key: `sⱼ·Hₚ(s₀·G)`.
pub fn images(secrets: &[Scalar]) -> (r: Vec<Point>)
    ensures
        r.len() == secrets@.len(),
        forall|j: int|
            0 <= j < secrets@.len() ==> (#[trigger] r@[j])@ == image_over(secrets@[j]@, secrets@[0]@),
{
    let mut r: Vec<Point> = Vec::new();
    if secrets.len() == 0 {
        return r;
    }
    let t = secrets[0].to_bytes();
    let mut j: usize = 0;
    while j < secrets.len()
        invariant
            j <= secrets@.len(),
            secrets@.len() >= 1,
            le_value(t@) == secrets@[0]@,
            is_scalar(t@),
            r.len() == j,
            forall|k: int| 0 <= k < j ==> (#[trigger] r@[k])@ == image_over(secrets@[k]@, secrets@[0]@),
        decreases secrets@.len() - j,
    {
        let s = secrets[j].to_bytes();
        r.push(Point::from_encoding(image_of(s, t)));
        j = j + 1;
    }
    r
}

} // verus!
