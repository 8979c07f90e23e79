//! The challenge chain shared by all four schemes.
//!
//! A ring has `n` rows of `width` columns. Row `i` holds the public keys
//! `P[i][j]`, and, for linkable schemes, the bases `B[i][j]` of the image
//! channel; there is one image `I[j]` per column. Given the challenge `c` that
//! enters row `i` and the row's responses `r[j]`, the next challenge is
//!
//!     c' = H(prefix || r[0]·G + c·P[i][0] || r[0]·B[i][0] + c·I[0] || ...)
//!
//! (the image terms only when linked). Verification walks the rows in order
//! from the published challenge and accepts when it comes back to it. The
//! signer starts one row after its own, from a commitment to fresh nonces,
//! walks around the ring and closes it with its secrets.
use crate::bytes::{append, scalar_eq, small_scalar};
use crate::primitives::{
    double_mul, encodes, encoding_of, group_order, hash_scalar, is_point, is_scalar, le_value,
    lemma_log_of, lin, log_of, mul_base, mul_point, reduce64, scalar_mul, scalar_sub, sha512,
};
use vstd::arithmetic::div_mod::{
    lemma_fundamental_div_mod, lemma_mod_multiples_vanish, lemma_small_mod, lemma_sub_mod_noop_right,
};
use vstd::prelude::*;

verus! {

broadcast use crate::primitives::lemma_le_nonneg;

/// The encoding of the basepoint `G`.
pub open spec fn basepoint() -> Seq<u8> {
    encoding_of(1)
}

/// The bytes that one column of a row adds to the row's hash, for response
/// `r` and incoming challenge `c`.
pub open spec fn pair_bytes(
    r: int,
    c: int,
    key: Seq<u8>,
    base: Seq<u8>,
    image: Seq<u8>,
    linked: bool,
) -> Seq<u8> {
    if linked {
        lin(r, basepoint(), c, key) + lin(r, base, c, image)
    } else {
        lin(r, basepoint(), c, key)
    }
}

/// The bytes that one column of the signer's row adds to the opening hash,
/// for nonce `a`: `a·G`, and `a·B` when linked.
pub open spec fn open_pair(a: int, base: Seq<u8>, linked: bool) -> Seq<u8> {
    if linked {
        encoding_of(a) + encoding_of((a * log_of(base)) % group_order())
    } else {
        encoding_of(a)
    }
}

/// The row visited `k` steps after the one that follows row `pi`, in a ring
/// of `n` rows (for `k < n`).
pub open spec fn visit(pi: int, n: int, k: int) -> int {
    if pi + 1 + k < n {
        pi + 1 + k
    } else {
        pi + 1 + k - n
    }
}

/// `n` rows of `width` canonical scalars.
pub open spec fn responses_wf(resp: Seq<Vec<[u8; 32]>>, n: int, width: int) -> bool {
    &&& resp.len() == n
    &&& forall|i: int| 0 <= i < n ==> (#[trigger] resp[i]).len() == width
    &&& forall|i: int, j: int|
        0 <= i < n && 0 <= j < width ==> is_scalar(#[trigger] resp[i]@[j]@)
}

/// Every entry of a sequence is a canonical scalar.
pub open spec fn all_scalars(s: Seq<[u8; 32]>) -> bool {
    forall|j: int| 0 <= j < s.len() ==> is_scalar(#[trigger] s[j]@)
}

/// The public data of a ring walk, as values.
pub struct ChainSpec {
    /// What every row hash starts with.
    pub prefix: Seq<u8>,
    /// The public keys, one row per ring member, `width` columns each.
    pub keys: Seq<Seq<Seq<u8>>>,
    /// The bases of the image channel, same shape as `keys` (when linked).
    pub bases: Seq<Seq<Seq<u8>>>,
    /// One image per column (when linked).
    pub images: Seq<Seq<u8>>,
    /// Whether rows carry the image channel.
    pub linked: bool,
    /// The number of columns.
    pub width: int,
}

impl ChainSpec {
    pub open spec fn rows(&self) -> int {
        self.keys.len() as int
    }

    /// At least one row; every row `width` valid points wide; when linked,
    /// bases of the same shape and `width` valid images.
    pub open spec fn wf(&self) -> bool {
        &&& self.keys.len() >= 1
        &&& self.width >= 0
        &&& forall|i: int| 0 <= i < self.rows() ==> (#[trigger] self.keys[i]).len() == self.width
        &&& forall|i: int, j: int|
            0 <= i < self.rows() && 0 <= j < self.width ==> is_point(#[trigger] self.keys[i][j])
        &&& self.linked ==> {
            &&& self.bases.len() == self.keys.len()
            &&& self.images.len() == self.width
            &&& forall|i: int| 0 <= i < self.rows() ==> (#[trigger] self.bases[i]).len() == self.width
            &&& forall|i: int, j: int|
                0 <= i < self.rows() && 0 <= j < self.width ==> is_point(
                    #[trigger] self.bases[i][j],
                )
            &&& forall|j: int| 0 <= j < self.width ==> is_point(#[trigger] self.images[j])
        }
    }

    /// What the first `m` columns of row `i` add to its hash, for responses
    /// `r` and incoming challenge `c`.
    pub open spec fn row_bytes(&self, i: int, r: Seq<int>, c: int, m: int) -> Seq<u8>
        decreases m,
    {
        if m <= 0 {
            Seq::empty()
        } else {
            self.row_bytes(i, r, c, m - 1) + pair_bytes(
                r[m - 1],
                c,
                self.keys[i][m - 1],
                self.bases[i][m - 1],
                self.images[m - 1],
                self.linked,
            )
        }
    }

    /// What the first `m` columns of the signer's row `pi` add to the
    /// opening hash, for nonces `a`.
    pub open spec fn open_bytes(&self, pi: int, a: Seq<int>, m: int) -> Seq<u8>
        decreases m,
    {
        if m <= 0 {
            Seq::empty()
        } else {
            self.open_bytes(pi, a, m - 1) + open_pair(a[m - 1], self.bases[pi][m - 1], self.linked)
        }
    }

    /// The challenge that leaves row `i` when `c` enters it.
    pub open spec fn step(&self, resp: Seq<Seq<int>>, i: int, c: int) -> int {
        hash_scalar(self.prefix + self.row_bytes(i, resp[i], c, self.width))
    }

    /// The challenge after walking the first `k` rows from `c0`.
    pub open spec fn walk(&self, resp: Seq<Seq<int>>, c0: int, k: nat) -> int
        decreases k,
    {
        if k == 0 {
            c0
        } else {
            self.step(resp, k - 1, self.walk(resp, c0, (k - 1) as nat))
        }
    }

    /// The walk over all rows comes back to the challenge it started from.
    pub open spec fn closes(&self, resp: Seq<Seq<int>>, c0: int) -> bool {
        self.walk(resp, c0, self.rows() as nat) == c0
    }

    /// The challenge that the signer's nonces commit to.
    pub open spec fn opening(&self, pi: int, a: Seq<int>) -> int {
        hash_scalar(self.prefix + self.open_bytes(pi, a, self.width))
    }

    /// Row `pi` holds the public keys of the secrets `s`, and the images
    /// are those of `s` over the row's bases.
    pub open spec fn holds_secrets(&self, pi: int, s: Seq<int>) -> bool {
        forall|j: int|
            0 <= j < self.width ==> {
                &&& encodes(#[trigger] self.keys[pi][j], s[j])
                &&& self.linked ==> encodes(
                    self.images[j],
                    (s[j] * log_of(self.bases[pi][j])) % group_order(),
                )
            }
    }
}

/// The values of a sequence of canonical scalar encodings.
pub open spec fn scalar_values(s: Seq<[u8; 32]>) -> Seq<int> {
    s.map_values(|x: [u8; 32]| le_value(x@))
}

/// The values of a matrix of canonical scalar encodings.
pub open spec fn matrix_values(m: Seq<Vec<[u8; 32]>>) -> Seq<Seq<int>> {
    m.map_values(|row: Vec<[u8; 32]>| scalar_values(row@))
}

/// The encodings in a sequence of points.
pub open spec fn point_seq(s: Seq<[u8; 32]>) -> Seq<Seq<u8>> {
    s.map_values(|x: [u8; 32]| x@)
}

/// The encodings in a matrix of points.
pub open spec fn point_matrix(m: Seq<Vec<[u8; 32]>>) -> Seq<Seq<Seq<u8>>> {
    m.map_values(|row: Vec<[u8; 32]>| point_seq(row@))
}

/// The public data of a ring walk.
pub struct Chain {
    pub prefix: Vec<u8>,
    pub keys: Vec<Vec<[u8; 32]>>,
    pub bases: Vec<Vec<[u8; 32]>>,
    pub images: Vec<[u8; 32]>,
    pub linked: bool,
    pub width: usize,
}

impl View for Chain {
    type V = ChainSpec;

    open spec fn view(&self) -> ChainSpec {
        ChainSpec {
            prefix: self.prefix@,
            keys: point_matrix(self.keys@),
            bases: point_matrix(self.bases@),
            images: point_seq(self.images@),
            linked: self.linked,
            width: self.width as int,
        }
    }
}

/// The exec shape of a chain matches its view.
pub open spec fn chain_shape(c: Chain) -> bool {
    &&& forall|i: int| 0 <= i < c.keys.len() ==> (#[trigger] c.keys[i]).len() == c.width
    &&& c.linked ==> forall|i: int| 0 <= i < c.bases.len() ==> (#[trigger] c.bases[i]).len() == c.width
}

impl Chain {
    proof fn lemma_shape(&self)
        requires
            self@.wf(),
        ensures
            chain_shape(*self),
            self.keys.len() >= 1,
            self.linked ==> self.bases.len() == self.keys.len() && self.images.len() == self.width,
    {
        assert forall|i: int| 0 <= i < self.keys.len() implies (#[trigger] self.keys[i]).len() == self.width by {
            assert(self@.keys[i].len() == self.width);
        }
        if self.linked {
            assert forall|i: int| 0 <= i < self.bases.len() implies (#[trigger] self.bases[i]).len() == self.width by {
                assert(self@.bases[i].len() == self.width);
            }
        }
    }

    /// The challenge that leaves row `i`, computed.
    fn row_challenge(&self, g: &[u8; 32], row: &Vec<[u8; 32]>, i: usize, c: &[u8; 32]) -> (r: [u8; 32])
        requires
            self@.wf(),
            i < self@.rows(),
            row.len() == self.width,
            all_scalars(row@),
            is_scalar(c@),
            encodes(g@, 1),
        ensures
            is_scalar(r@),
            le_value(r@) == hash_scalar(
                self@.prefix + self@.row_bytes(i as int, scalar_values(row@), le_value(c@), self.width as int),
            ),
    {
        proof {
            lemma_log_of(g@, 1);
            self.lemma_shape();
        }
        let mut buf: Vec<u8> = Vec::new();
        append(&mut buf, self.prefix.as_slice());
        let mut j: usize = 0;
        while j < self.width
            invariant
                self@.wf(),
                chain_shape(*self),
                self.linked ==> self.bases.len() == self.keys.len() && self.images.len() == self.width,
                i < self@.rows(),
                row.len() == self.width,
                all_scalars(row@),
                is_scalar(c@),
                encodes(g@, 1),
                log_of(g@) == 1,
                j <= self.width,
                buf@ == self@.prefix + self@.row_bytes(i as int, scalar_values(row@), le_value(c@), j as int),
            decreases self.width - j,
        {
            assert(is_point(self@.keys[i as int][j as int]));
            let key = &self.keys[i][j];
            assert(is_scalar(row@[j as int]@));
            let l = double_mul(row[j], g, *c, key);
            let ghost before = buf@;
            append(&mut buf, l.as_slice());
            if self.linked {
                assert(is_point(self@.bases[i as int][j as int]));
                assert(is_point(self@.images[j as int]));
                let rr = double_mul(row[j], &self.bases[i][j], *c, &self.images[j]);
                append(&mut buf, rr.as_slice());
            }
            proof {
                let pb = pair_bytes(
                    scalar_values(row@)[j as int],
                    le_value(c@),
                    self@.keys[i as int][j as int],
                    self@.bases[i as int][j as int],
                    self@.images[j as int],
                    self.linked,
                );
                assert(buf@ =~= before + pb);
            }
            j = j + 1;
        }
        let h = sha512(buf.as_slice());
        let r = reduce64(&h);
        r
    }

    /// The challenge that the signer's nonces commit to, computed.
    fn open_challenge(&self, pi: usize, a: &Vec<[u8; 32]>) -> (r: [u8; 32])
        requires
            self@.wf(),
            pi < self@.rows(),
            a.len() == self.width,
            all_scalars(a@),
        ensures
            is_scalar(r@),
            le_value(r@) == self@.opening(pi as int, scalar_values(a@)),
    {
        proof {
            self.lemma_shape();
        }
        let mut buf: Vec<u8> = Vec::new();
        append(&mut buf, self.prefix.as_slice());
        let mut j: usize = 0;
        while j < self.width
            invariant
                self@.wf(),
                chain_shape(*self),
                self.linked ==> self.bases.len() == self.keys.len() && self.images.len() == self.width,
                pi < self@.rows(),
                a.len() == self.width,
                all_scalars(a@),
                j <= self.width,
                buf@ == self@.prefix + self@.open_bytes(pi as int, scalar_values(a@), j as int),
            decreases self.width - j,
        {
            assert(is_scalar(a@[j as int]@));
            let l = mul_base(a[j]);
            let ghost before = buf@;
            append(&mut buf, l.as_slice());
            if self.linked {
                assert(is_point(self@.bases[pi as int][j as int]));
                let rr = mul_point(a[j], &self.bases[pi][j]);
                append(&mut buf, rr.as_slice());
            }
            proof {
                let ob = open_pair(
                    scalar_values(a@)[j as int],
                    self@.bases[pi as int][j as int],
                    self.linked,
                );
                assert(buf@ =~= before + ob);
            }
            j = j + 1;
        }
        let h = sha512(buf.as_slice());
        reduce64(&h)
    }

    /// Walks the ring from `c0` and reports whether it closes.
    pub fn verify_walk(&self, resp: &Vec<Vec<[u8; 32]>>, c0: &[u8; 32]) -> (r: bool)
        requires
            self@.wf(),
            responses_wf(resp@, self@.rows(), self.width as int),
            is_scalar(c0@),
        ensures
            r == self@.closes(matrix_values(resp@), le_value(c0@)),
    {
        let g = mul_base(small_scalar(1));
        let n = self.keys.len();
        let mut c = *c0;
        let mut i: usize = 0;
        while i < n
            invariant
                self@.wf(),
                n == self@.rows(),
                responses_wf(resp@, self@.rows(), self.width as int),
                encodes(g@, 1),
                i <= n,
                is_scalar(c@),
                le_value(c@) == self@.walk(matrix_values(resp@), le_value(c0@), i as nat),
            decreases n - i,
        {
            assert(all_scalars(resp@[i as int]@)) by {
                assert forall|j: int| 0 <= j < resp@[i as int]@.len() implies is_scalar(
                    #[trigger] resp@[i as int]@[j]@,
                ) by {
                    assert(is_scalar(resp@[i as int]@[j]@));
                }
            }
            c = self.row_challenge(&g, &resp[i], i, &c);
            assert(matrix_values(resp@)[i as int] == scalar_values(resp@[i as int]@));
            i = i + 1;
        }
        scalar_eq(&c, c0)
    }
}

/// The ring position after `i`.
pub open spec fn next_row(i: int, n: int) -> int {
    if i + 1 == n {
        0
    } else {
        i + 1
    }
}

/// When the signer's responses are `a - c·s`, its row hashes the same bytes
/// as its opening did.
proof fn lemma_row_closes(
    chain: ChainSpec,
    pi: int,
    row: Seq<int>,
    a: Seq<int>,
    s: Seq<int>,
    c: int,
    m: int,
)
    requires
        chain.wf(),
        0 <= pi < chain.rows(),
        0 <= m <= chain.width,
        0 <= c < group_order(),
        row.len() == chain.width,
        a.len() == chain.width,
        s.len() == chain.width,
        forall|j: int| 0 <= j < chain.width ==> 0 <= #[trigger] a[j] < group_order(),
        forall|j: int| 0 <= j < chain.width ==> 0 <= #[trigger] s[j] < group_order(),
        encodes(basepoint(), 1),
        chain.holds_secrets(pi, s),
        forall|j: int|
            0 <= j < chain.width ==> #[trigger] row[j] == (a[j] - c * s[j]) % group_order(),
    ensures
        chain.row_bytes(pi, row, c, m) == chain.open_bytes(pi, a, m),
    decreases m,
{
    if m > 0 {
        lemma_row_closes(chain, pi, row, a, s, c, m - 1);
        let j = m - 1;
        assert(0 <= a[j] < group_order());
        assert(0 <= s[j] < group_order());
        assert(encodes(chain.keys[pi][j], s[j]));
        lemma_log_of(basepoint(), 1);
        lemma_log_of(chain.keys[pi][j], s[j]);
        let h = log_of(chain.bases[pi][j]);
        lemma_close(a[j], c, s[j], h);
        if chain.linked {
            lemma_log_of(chain.images[j], (s[j] * h) % group_order());
        }
    }
}

/// A chain of challenges `v` in which each row maps its challenge to the
/// next row's is what the walk from `v[0]` visits.
proof fn lemma_walk_cycle(chain: ChainSpec, resp: Seq<Seq<int>>, v: Seq<int>, k: nat)
    requires
        v.len() == chain.rows(),
        k <= chain.rows(),
        forall|i: int|
            0 <= i < chain.rows() ==> v[next_row(i, chain.rows())] == #[trigger] chain.step(
                resp,
                i,
                v[i],
            ),
    ensures
        chain.walk(resp, v[0], k) == if k == chain.rows() {
            v[0]
        } else {
            v[k as int]
        },
    decreases k,
{
    if k > 0 {
        lemma_walk_cycle(chain, resp, v, (k - 1) as nat);
        let i = k - 1;
        assert(v[next_row(i, chain.rows())] == chain.step(resp, i, v[i]));
    }
}

impl Chain {
    /// Signs with nonces `a` and secrets `s` at row `pi`: fills in row `pi`
    /// of the responses so that the ring closes, and returns the challenge
    /// that enters row 0.
    pub fn sign_walk(
        &self,
        resp: &mut Vec<Vec<[u8; 32]>>,
        pi: usize,
        a: &Vec<[u8; 32]>,
        s: &Vec<[u8; 32]>,
    ) -> (c0: [u8; 32])
        requires
            self@.wf(),
            pi < self@.rows(),
            responses_wf(old(resp)@, self@.rows(), self.width as int),
            a.len() == self.width,
            s.len() == self.width,
            all_scalars(a@),
            all_scalars(s@),
            self@.holds_secrets(pi as int, scalar_values(s@)),
        ensures
            is_scalar(c0@),
            responses_wf(final(resp)@, self@.rows(), self.width as int),
            forall|i: int|
                0 <= i < self@.rows() && i != pi ==> #[trigger] final(resp)@[i] == old(resp)@[i],
            self@.closes(matrix_values(final(resp)@), le_value(c0@)),
            self@.walk(matrix_values(final(resp)@), le_value(c0@), (pi + 1) as nat)
                == self@.opening(pi as int, scalar_values(a@)),
            forall|j: int|
                0 <= j < self.width ==> le_value(#[trigger] final(resp)@[pi as int]@[j]@) == (
                le_value(a@[j]@) - self@.walk(matrix_values(final(resp)@), le_value(c0@), pi as nat)
                    * le_value(s@[j]@)) % group_order(),
    {
        let n = self.keys.len();
        let g = mul_base(small_scalar(1));
        let zero = small_scalar(0);
        let mut ch: Vec<[u8; 32]> = Vec::new();
        let mut k: usize = 0;
        while k < n
            invariant
                k <= n,
                ch.len() == k,
                is_scalar(zero@),
                all_scalars(ch@),
            decreases n - k,
        {
            ch.push(zero);
            k = k + 1;
        }
        let start: usize = if pi + 1 == n {
            0
        } else {
            pi + 1
        };
        let open = self.open_challenge(pi, a);
        ch[start] = open;
        let ghost npi = pi as int;
        let ghost nn = n as int;
        let ghost vals0 = matrix_values(resp@);
        let mut cur = start;
        let mut t: usize = 0;
        while t + 1 < n
            invariant
                self@.wf(),
                n == self@.rows(),
                nn == n,
                npi == pi,
                pi < n,
                encodes(g@, 1),
                resp@ == old(resp)@,
                vals0 == matrix_values(resp@),
                responses_wf(resp@, self@.rows(), self.width as int),
                t < n,
                cur == visit(npi, nn, t as int),
                ch.len() == n,
                all_scalars(ch@),
                le_value(ch@[visit(npi, nn, 0)]@) == self@.opening(npi, scalar_values(a@)),
                forall|k: int|
                    1 <= k <= t ==> le_value(#[trigger] ch@[visit(npi, nn, k)]@) == self@.step(
                        vals0,
                        visit(npi, nn, k - 1),
                        le_value(ch@[visit(npi, nn, k - 1)]@),
                    ),
            decreases n - t,
        {
            let next = if cur + 1 == n {
                0
            } else {
                cur + 1
            };
            assert(all_scalars(resp@[cur as int]@)) by {
                assert forall|j: int| 0 <= j < resp@[cur as int]@.len() implies is_scalar(
                    #[trigger] resp@[cur as int]@[j]@,
                ) by {
                    assert(is_scalar(resp@[cur as int]@[j]@));
                }
            }
            assert(is_scalar(ch@[cur as int]@));
            let c = self.row_challenge(&g, &resp[cur], cur, &ch[cur]);
            assert(vals0[cur as int] == scalar_values(resp@[cur as int]@));
            let ghost before = ch@;
            ch[next] = c;
            proof {
                assert(next == visit(npi, nn, t + 1));
                assert forall|k: int| 0 <= k <= t implies ch@[visit(npi, nn, k)] == before[visit(
                    npi,
                    nn,
                    k,
                )] by {
                    assert(visit(npi, nn, k) != visit(npi, nn, t + 1));
                }
                assert forall|k: int|
                    1 <= k <= t + 1 implies le_value(#[trigger] ch@[visit(npi, nn, k)]@)
                    == self@.step(
                    vals0,
                    visit(npi, nn, k - 1),
                    le_value(ch@[visit(npi, nn, k - 1)]@),
                ) by {
                    if k <= t {
                        assert(ch@[visit(npi, nn, k)] == before[visit(npi, nn, k)]);
                        assert(ch@[visit(npi, nn, k - 1)] == before[visit(npi, nn, k - 1)]);
                    } else {
                        assert(ch@[visit(npi, nn, k - 1)] == before[visit(npi, nn, k - 1)]);
                    }
                }
                assert(ch@[visit(npi, nn, 0)] == before[visit(npi, nn, 0)]);
            }
            cur = next;
            t = t + 1;
        }
        let cpi = ch[pi];
        let mut row: Vec<[u8; 32]> = Vec::new();
        let mut j: usize = 0;
        while j < self.width
            invariant
                a.len() == self.width,
                s.len() == self.width,
                all_scalars(a@),
                all_scalars(s@),
                is_scalar(cpi@),
                j <= self.width,
                row.len() == j,
                all_scalars(row@),
                forall|jj: int|
                    0 <= jj < j ==> le_value(#[trigger] row@[jj]@) == (le_value(a@[jj]@)
                        - le_value(cpi@) * le_value(s@[jj]@)) % group_order(),
            decreases self.width - j,
        {
            assert(is_scalar(a@[j as int]@));
            assert(is_scalar(s@[j as int]@));
            let cs = scalar_mul(cpi, s[j]);
            let r = scalar_sub(a[j], cs);
            proof {
                lemma_close(
                    le_value(a@[j as int]@),
                    le_value(cpi@),
                    le_value(s@[j as int]@),
                    0,
                );
            }
            row.push(r);
            j = j + 1;
        }
        let ghost old_resp = resp@;
        let ghost new_row = row@;
        resp[pi] = row;
        proof {
            let fr = resp@;
            let fv = matrix_values(fr);
            let sv = scalar_values(s@);
            let av = scalar_values(a@);
            assert(fr[npi]@ == new_row);
            assert forall|i: int| 0 <= i < nn && i != npi implies #[trigger] fr[i] == old_resp[i] by {}
            assert(responses_wf(fr, nn, self.width as int)) by {
                assert forall|i: int, jj: int|
                    0 <= i < nn && 0 <= jj < self.width implies is_scalar(
                    #[trigger] fr[i]@[jj]@,
                ) by {
                    if i == npi {
                        assert(is_scalar(new_row[jj]@));
                    } else {
                        assert(fr[i] == old_resp[i]);
                    }
                }
            }
            let v = Seq::new(n as nat, |i: int| le_value(ch@[i]@));
            assert(le_value(cpi@) == v[npi]);
            assert(0 <= le_value(cpi@) < group_order());
            assert(encodes(basepoint(), 1));
            assert forall|jj: int| 0 <= jj < self.width implies 0 <= #[trigger] av[jj] < group_order() by {
                assert(is_scalar(a@[jj]@));
            }
            assert forall|jj: int| 0 <= jj < self.width implies 0 <= #[trigger] sv[jj] < group_order() by {
                assert(is_scalar(s@[jj]@));
            }
            assert forall|jj: int| 0 <= jj < self.width implies #[trigger] fv[npi][jj] == (av[jj] - v[npi] * sv[jj]) % group_order() by {
                assert(fv[npi][jj] == le_value(new_row[jj]@));
            }
            lemma_row_closes(self@, npi, fv[npi], av, sv, v[npi], self.width as int);
            assert forall|i: int| 0 <= i < nn implies v[next_row(i, nn)] == #[trigger] self@.step(
                fv,
                i,
                v[i],
            ) by {
                if i == npi {
                    assert(next_row(i, nn) == visit(npi, nn, 0));
                } else {
                    let k = if i > npi {
                        i - npi - 1
                    } else {
                        i + nn - npi - 1
                    };
                    assert(visit(npi, nn, k) == i);
                    assert(visit(npi, nn, k + 1) == next_row(i, nn));
                    assert(fr[i] == old_resp[i]);
                    assert(fv[i] == vals0[i]);
                    assert(le_value(ch@[visit(npi, nn, k + 1)]@) == self@.step(
                        vals0,
                        visit(npi, nn, k),
                        le_value(ch@[visit(npi, nn, k)]@),
                    ));
                }
            }
            lemma_walk_cycle(self@, fv, v, nn as nat);
            lemma_walk_cycle(self@, fv, v, (npi + 1) as nat);
            lemma_walk_cycle(self@, fv, v, npi as nat);
            assert(visit(npi, nn, 0) == next_row(npi, nn));
        }
        ch[0]
    }
}

/// Closing the ring: with `r = a - c·s`, the signer's row reproduces its
/// opening, `r·G + c·(s·G) = a·G` and `r·H + c·(s·H) = a·H`.
pub proof fn lemma_close(a: int, c: int, s: int, h: int)
    requires
        0 <= a < group_order(),
        0 <= c < group_order(),
        0 <= s < group_order(),
    ensures
        ((a - (c * s) % group_order()) % group_order()) == (a - c * s) % group_order(),
        (((a - c * s) % group_order()) * 1 + c * s) % group_order() == a,
        (((a - c * s) % group_order()) * h + c * ((s * h) % group_order())) % group_order() == (a
            * h) % group_order(),
{
    let m = group_order();
    lemma_sub_mod_noop_right(a, c * s, m);
    let r = (a - c * s) % m;
    lemma_fundamental_div_mod(a - c * s, m);
    let q1 = (a - c * s) / m;
    assert(r == a - c * s - m * q1);
    lemma_mod_multiples_vanish(-q1, a, m);
    lemma_small_mod(a as nat, m as nat);
    assert(r * 1 + c * s == m * (-q1) + a) by (nonlinear_arith)
        requires
            r == a - c * s - m * q1,
    ;
    lemma_fundamental_div_mod(s * h, m);
    let q2 = (s * h) / m;
    let sh = (s * h) % m;
    assert(sh == s * h - m * q2);
    let k = -(q1 * h + c * q2);
    assert(r * h + c * sh == m * k + a * h) by (nonlinear_arith)
        requires
            r == a - c * s - m * q1,
            sh == s * h - m * q2,
            k == -(q1 * h + c * q2),
    ;
    lemma_mod_multiples_vanish(k, a * h, m);
}

} // verus!
