//! Shares of a secret and the polynomials behind them.
//!
//! A secret field element is hidden as the constant term of a random
//! polynomial; a share is one evaluation of every chunk's polynomial at a
//! common random point. Enough shares with pairwise distinct points give the
//! constant terms back by Lagrange interpolation at zero.

use vstd::prelude::*;
use vstd::arithmetic::div_mod::{
    lemma_add_mod_noop, lemma_add_mod_noop_right, lemma_fundamental_div_mod_converse_mod,
    lemma_mod_bound, lemma_mul_mod_noop_general, lemma_small_mod,
};
use crate::field::{
    all_wf, fe_add, fe_eq, fe_invert, fe_mul, fe_random, fe_sub, fe_vals, group_order, inv_val,
    le_bytes32, le_val, lemma_fe_bytes, lemma_inv_val_unique, lemma_le_bytes32_roundtrip, FieldElem,
};

verus! {

/// One share: an evaluation point `x` and, per secret chunk, the value of
/// that chunk's polynomial at `x`.
#[derive(Clone, Debug)]
pub struct Share {
    pub x: FieldElem,
    pub y: Vec<FieldElem>,
}

impl Share {
    /// Every element of the share is in canonical form.
    pub open spec fn wf(self) -> bool {
        self.x.wf() && all_wf(self.y@)
    }

    /// Serialize for transport: the evaluation point's encoding, then each
    /// chunk evaluation's encoding, in chunk order. A share of an `n`-chunk
    /// secret takes `(1 + n) * 32` bytes.
    pub fn to_bytes(&self) -> (r: Vec<u8>)
        ensures
            r@ == share_bytes(self@),
    {
        let mut r = self.x.to_bytes();
        proof {
            lemma_fe_bytes(self.x);
            lemma_le_bytes32_roundtrip(self.x.byte_seq());
            assert(r@ =~= le_bytes32(self@.x) + y_bytes(self@.y, 0));
        }
        let mut j: usize = 0;
        while j < self.y.len()
            invariant
                j <= self.y@.len(),
                r@ == le_bytes32(self@.x) + y_bytes(self@.y, j as int),
            decreases self.y@.len() - j,
        {
            let mut chunk = self.y[j].to_bytes();
            proof {
                lemma_fe_bytes(self.y@[j as int]);
                lemma_le_bytes32_roundtrip(self.y@[j as int].byte_seq());
            }
            r.append(&mut chunk);
            proof {
                assert(r@ =~= le_bytes32(self@.x) + y_bytes(self@.y, j + 1));
            }
            j += 1;
        }
        r
    }

    /// Parse a serialized share; fails unless the length is a whole number
    /// of encodings — at least the evaluation point's — and every encoding
    /// is canonical. A share of a zero-chunk secret parses back too, so
    /// everything [`Share::to_bytes`] emits round-trips.
    pub fn from_bytes(bytes: &Vec<u8>) -> (r: Option<Share>)
        ensures
            r is Some <==> bytes@.len() >= 32 && bytes@.len() % 32 == 0 && blocks_valid(bytes@),
            r matches Some(sh) ==> sh.wf() && share_bytes(sh@) == bytes@ && sh@.y.len() == bytes@.len() / 32 - 1,
    {
        if bytes.len() < 32 || bytes.len() % 32 != 0 {
            return None;
        }
        let n = bytes.len() / 32 - 1;
        proof {
            vstd::arithmetic::div_mod::lemma_fundamental_div_mod(bytes@.len() as int, 32);
        }
        let x = match crate::field::fe_decode_at(bytes, 0) {
            Some(x) => x,
            None => {
                proof {
                    crate::field::lemma_le_val_nonneg(bytes@.subrange(0, 32));
                    assert(bytes@.subrange(32 * 0int, 32 * 0int + 32) == bytes@.subrange(0, 32));
                    assert(!blocks_valid(bytes@));
                }
                return None;
            },
        };
        let mut y: Vec<FieldElem> = Vec::new();
        let mut j: usize = 0;
        while j < n
            invariant
                j <= n,
                n == bytes@.len() / 32 - 1,
                bytes@.len() == 32 * (n + 1),
                bytes@.len() <= usize::MAX,
                y@.len() == j,
                all_wf(y@),
                forall|p: int| 0 <= p < j ==> (#[trigger] y@[p]).byte_seq() == bytes@.subrange(
                    32 * (p + 1),
                    32 * (p + 1) + 32,
                ),
            decreases n - j,
        {
            let off = 32 * (j + 1);
            let fe = match crate::field::fe_decode_at(bytes, off) {
                Some(fe) => fe,
                None => {
                    proof {
                        crate::field::lemma_le_val_nonneg(
                            bytes@.subrange(off as int, off as int + 32),
                        );
                        assert(bytes@.subrange(32 * (j as int + 1), 32 * (j as int + 1) + 32)
                            == bytes@.subrange(off as int, off as int + 32));
                        assert(!blocks_valid(bytes@));
                    }
                    return None;
                },
            };
            y.push(fe);
            j += 1;
        }
        let sh = Share { x, y };
        proof {
            assert forall|p: int| 0 <= p < bytes@.len() / 32 implies 0 <= le_val(
                #[trigger] bytes@.subrange(32 * p, 32 * p + 32),
            ) < group_order() by {
                if p == 0 {
                    lemma_fe_bytes(x);
                } else {
                    assert(sh.y@[p - 1].byte_seq() == bytes@.subrange(32 * p, 32 * p + 32));
                    lemma_fe_bytes(sh.y@[p - 1]);
                }
            }
            lemma_fe_bytes(x);
            lemma_le_bytes32_roundtrip(x.byte_seq());
            lemma_parsed_y_rebuild(sh, bytes@, n as int);
            assert(share_bytes(sh@) =~= bytes@);
        }
        Some(sh)
    }
}

/// Every 32-byte block of a serialized share encodes a reduced element.
pub open spec fn blocks_valid(bytes: Seq<u8>) -> bool {
    forall|p: int| 0 <= p < bytes.len() / 32 ==> 0 <= le_val(
        #[trigger] bytes.subrange(32 * p, 32 * p + 32),
    ) < group_order()
}

/// The serialized form of a share's chunk evaluations, first `n` entries.
pub open spec fn y_bytes(y: Seq<int>, n: int) -> Seq<u8>
    decreases n,
{
    if n <= 0 {
        Seq::empty()
    } else {
        y_bytes(y, n - 1) + le_bytes32(y[n - 1])
    }
}

/// The serialized form of a share: the evaluation point's canonical
/// encoding, then each chunk evaluation's, in chunk order.
pub open spec fn share_bytes(s: ShareV) -> Seq<u8> {
    le_bytes32(s.x) + y_bytes(s.y, s.y.len() as int)
}

/// A parsed share's first `n` entries serialize back to the bytes they
/// were read from.
proof fn lemma_parsed_y_rebuild(sh: Share, bytes: Seq<u8>, n: int)
    requires
        0 <= n,
        sh.y@.len() == n,
        32 * (n + 1) == bytes.len(),
        forall|p: int| 0 <= p < n ==> (#[trigger] sh.y@[p]).byte_seq() == bytes.subrange(
            32 * (p + 1),
            32 * (p + 1) + 32,
        ),
    ensures
        y_bytes(sh@.y, n) =~= bytes.subrange(32, 32 * (n + 1)),
    decreases n,
{
    if n > 0 {
        let head = sh.y@[n - 1];
        lemma_fe_bytes(head);
        lemma_le_bytes32_roundtrip(head.byte_seq());
        assert(sh@.y[n - 1] == head.value());
        lemma_parsed_y_rebuild_prefix(sh, bytes, n);
    } else {
        assert(bytes.subrange(32, 32) =~= Seq::<u8>::empty());
    }
}

/// Helper for the rebuild: split off the last entry.
proof fn lemma_parsed_y_rebuild_prefix(sh: Share, bytes: Seq<u8>, n: int)
    requires
        1 <= n,
        sh.y@.len() >= n,
        32 * (n + 1) <= bytes.len(),
        forall|p: int| 0 <= p < n ==> (#[trigger] sh.y@[p]).byte_seq() == bytes.subrange(
            32 * (p + 1),
            32 * (p + 1) + 32,
        ),
    ensures
        y_bytes(sh@.y, n) =~= bytes.subrange(32, 32 * (n + 1)),
    decreases n,
{
    let head = sh.y@[n - 1];
    lemma_fe_bytes(head);
    lemma_le_bytes32_roundtrip(head.byte_seq());
    if n == 1 {
        assert(y_bytes(sh@.y, 0) =~= Seq::<u8>::empty());
        assert(y_bytes(sh@.y, 1) =~= le_bytes32(sh@.y[0]));
        assert(le_bytes32(sh@.y[0]) =~= bytes.subrange(32, 64));
    } else {
        lemma_parsed_y_rebuild_prefix(sh, bytes, n - 1);
        assert(y_bytes(sh@.y, n) =~= bytes.subrange(32, 32 * (n + 1)));
    }
}

/// The mathematical content of one share: the evaluation point and the
/// chunk evaluations, as integers.
pub struct ShareV {
    pub x: int,
    pub y: Seq<int>,
}

impl View for Share {
    type V = ShareV;

    open spec fn view(&self) -> ShareV {
        ShareV { x: self.x.value(), y: fe_vals(self.y@) }
    }
}

/// The views of a sequence of shares.
pub open spec fn views_of(shares: Seq<Share>) -> Seq<ShareV> {
    shares.map_values(|s: Share| s@)
}

/// The evaluation points of a sequence of shares.
pub open spec fn xs_of(shares: Seq<ShareV>) -> Seq<int> {
    shares.map_values(|s: ShareV| s.x)
}

/// Column `j` of the shares' values: the evaluations of chunk `j`'s
/// polynomial.
pub open spec fn col(shares: Seq<ShareV>, j: int) -> Seq<int> {
    shares.map_values(|s: ShareV| s.y[j])
}

/// No two entries are equal.
pub open spec fn distinct_vals(xs: Seq<int>) -> bool {
    forall|i: int, k: int| 0 <= i < k < xs.len() ==> xs[i] != xs[k]
}

/// All shares carry one evaluation per chunk of an `n`-chunk secret, in
/// canonical form.
pub open spec fn shares_wf(shares: Seq<Share>, n: int) -> bool {
    forall|i: int| 0 <= i < shares.len()
        ==> (#[trigger] shares[i]).wf() && shares[i].y@.len() == n
}

/// The value at `x` of the polynomial with the given coefficients, low
/// degree first, modulo the group order (Horner form).
pub open spec fn poly_eval(coeffs: Seq<int>, x: int) -> int
    decreases coeffs.len(),
{
    if coeffs.len() == 0 {
        0
    } else {
        (coeffs[0] + x * poly_eval(coeffs.drop_first(), x)) % group_order()
    }
}

/// The product of the other evaluation points, from index `k` on: the
/// numerator of point `i`'s basis polynomial at zero.
pub open spec fn num_from(xs: Seq<int>, i: int, k: int) -> int
    decreases xs.len() - k,
{
    if k < 0 || k >= xs.len() {
        1
    } else if k == i {
        num_from(xs, i, k + 1)
    } else {
        (xs[k] * num_from(xs, i, k + 1)) % group_order()
    }
}

/// The product of the differences to the other evaluation points, from
/// index `k` on: the denominator of point `i`'s basis polynomial at zero.
pub open spec fn den_from(xs: Seq<int>, i: int, k: int) -> int
    decreases xs.len() - k,
{
    if k < 0 || k >= xs.len() {
        1
    } else if k == i {
        den_from(xs, i, k + 1)
    } else {
        (((xs[k] - xs[i]) % group_order()) * den_from(xs, i, k + 1)) % group_order()
    }
}

/// The Lagrange basis polynomial for point `i`, evaluated at zero: the
/// product over the other points `x_k` of `x_k / (x_k - x_i)`.
pub open spec fn basis0(xs: Seq<int>, i: int) -> int {
    (num_from(xs, i, 0) * inv_val(den_from(xs, i, 0))) % group_order()
}

/// The interpolated value at zero of the terms from index `i` on: the sum
/// of each point's `y`-value weighted by its basis polynomial at zero.
pub open spec fn lagrange0_from(xs: Seq<int>, ys: Seq<int>, i: int) -> int
    decreases xs.len() - i,
{
    if i < 0 || i >= xs.len() {
        0
    } else {
        (ys[i] * basis0(xs, i) + lagrange0_from(xs, ys, i + 1)) % group_order()
    }
}

/// The value at zero of the unique polynomial through the points
/// `(xs[i], ys[i])`, modulo the group order.
pub open spec fn lagrange0(xs: Seq<int>, ys: Seq<int>) -> int {
    lagrange0_from(xs, ys, 0)
}

/// The byte string recovery returns for the first `n` chunks: each chunk's
/// interpolated constant term, canonically encoded, in chunk order.
pub open spec fn recovered_bytes(shares: Seq<ShareV>, n: int) -> Seq<u8>
    decreases n,
{
    if n <= 0 {
        Seq::empty()
    } else {
        recovered_bytes(shares, n - 1) + le_bytes32(
            lagrange0(xs_of(shares), col(shares, n - 1)),
        )
    }
}

/// Reduced values that differ stay apart modulo the group order.
proof fn lemma_sub_mod_nonzero(a: int, b: int)
    requires
        0 <= a < group_order(),
        0 <= b < group_order(),
        a != b,
    ensures
        (a - b) % group_order() != 0,
{
    let m = group_order();
    if a > b {
        lemma_small_mod((a - b) as nat, m as nat);
    } else {
        lemma_fundamental_div_mod_converse_mod(a - b, m, -1, a - b + m);
    }
}

/// A partial interpolation sum is already reduced.
proof fn lemma_lagrange0_from_bound(xs: Seq<int>, ys: Seq<int>, i: int)
    ensures
        0 <= lagrange0_from(xs, ys, i) < group_order(),
{
    if i < 0 || i >= xs.len() {
    } else {
        lemma_mod_bound(ys[i] * basis0(xs, i) + lagrange0_from(xs, ys, i + 1), group_order());
    }
}

/// Inverses of the factors multiply to an inverse of the product.
proof fn lemma_inverse_product(a: int, ia: int, b: int, ib: int)
    requires
        (a * ia) % group_order() == 1,
        (b * ib) % group_order() == 1,
    ensures
        (((a * b) % group_order()) * ((ia * ib) % group_order())) % group_order() == 1,
{
    let m = group_order();
    lemma_mul_mod_noop_general(a * b, ia * ib, m);
    assert((a * b) * (ia * ib) == (a * ia) * (b * ib)) by (nonlinear_arith);
    lemma_mul_mod_noop_general(a * ia, b * ib, m);
    lemma_small_mod(1, m as nat);
}

/// The inverse of point `i`'s basis denominator, built factor by factor:
/// each difference to another point is nonzero (the points are distinct),
/// its inverse is taken directly, and the inverses multiply up.
fn invert_differences(shares: &Vec<Share>, i: usize) -> (r: FieldElem)
    requires
        shares@.len() >= 1,
        i < shares@.len(),
        shares_wf(shares@, shares@[0].y@.len() as int),
        distinct_vals(xs_of(views_of(shares@))),
    ensures
        r.wf(),
        r.value() == inv_val(den_from(xs_of(views_of(shares@)), i as int, 0)),
{
    let ghost xs = xs_of(views_of(shares@));
    let n = shares.len();
    let mut acc = one_elem();
    proof {
        lemma_small_mod(1, group_order() as nat);
    }
    let mut k = n;
    while k > 0
        invariant
            k <= n,
            n == shares@.len(),
            i < n,
            xs == xs_of(views_of(shares@)),
            shares_wf(shares@, shares@[0].y@.len() as int),
            distinct_vals(xs),
            acc.wf(),
            (den_from(xs, i as int, k as int) * acc.value()) % group_order() == 1,
        decreases k,
    {
        k = k - 1;
        if k != i {
            let d = fe_sub(&shares[k].x, &shares[i].x);
            proof {
                if k < i {
                    assert(xs[k as int] != xs[i as int]);
                } else {
                    assert(xs[i as int] != xs[k as int]);
                }
                lemma_sub_mod_nonzero(xs[k as int], xs[i as int]);
            }
            let di = fe_invert(&d);
            let next = fe_mul(&di, &acc);
            proof {
                lemma_inverse_product(
                    d.value(),
                    di.value(),
                    den_from(xs, i as int, k + 1),
                    acc.value(),
                );
            }
            acc = next;
        }
    }
    proof {
        lemma_mod_bound(den_from(xs, i as int, 0) * acc.value(), group_order());
        lemma_inv_val_unique(den_from(xs, i as int, 0), acc.value());
    }
    acc
}

/// Evaluate one polynomial at `x`.
fn eval_poly_at(coeffs: &Vec<FieldElem>, x: &FieldElem) -> (r: FieldElem)
    requires
        all_wf(coeffs@),
        coeffs@.len() >= 1,
        x.wf(),
    ensures
        r.wf(),
        r.value() == poly_eval(fe_vals(coeffs@), x.value()),
{
    let ghost cs = fe_vals(coeffs@);
    let mut k = coeffs.len() - 1;
    let mut acc = coeffs[k];
    proof {
        let whole = cs.subrange(k as int, cs.len() as int);
        assert(whole.len() == 1);
        assert(whole[0] == cs[k as int]);
        assert(whole.drop_first().len() == 0);
        assert(poly_eval(whole.drop_first(), x.value()) == 0);
        assert(cs[k as int] == coeffs@[k as int].value());
        lemma_small_mod(acc.value() as nat, group_order() as nat);
        assert(poly_eval(whole, x.value()) == (cs[k as int] + x.value() * 0) % group_order());
    }
    while k > 0
        invariant
            k < coeffs@.len(),
            all_wf(coeffs@),
            x.wf(),
            acc.wf(),
            cs == fe_vals(coeffs@),
            acc.value() == poly_eval(cs.subrange(k as int, cs.len() as int), x.value()),
        decreases k,
    {
        k = k - 1;
        let m = fe_mul(x, &acc);
        let next = fe_add(&coeffs[k], &m);
        proof {
            let tail = cs.subrange(k + 1, cs.len() as int);
            let whole = cs.subrange(k as int, cs.len() as int);
            assert(whole.drop_first() =~= tail);
            lemma_add_mod_noop_right(cs[k as int], x.value() * acc.value(), group_order());
            assert(next.value() == poly_eval(whole, x.value()));
        }
        acc = next;
    }
    proof {
        assert(cs.subrange(0, cs.len() as int) =~= cs);
    }
    acc
}

/// Build the polynomial hiding one secret chunk: constant term the chunk
/// itself, the remaining `threshold - 1` coefficients drawn at random.
pub fn random_polynomial(element: FieldElem, threshold: u32) -> (r: Vec<FieldElem>)
    requires
        element.wf(),
        threshold >= 1,
    ensures
        r@.len() == threshold,
        all_wf(r@),
        r@[0] == element,
{
    let mut r: Vec<FieldElem> = Vec::new();
    r.push(element);
    let mut i: u32 = 1;
    while i < threshold
        invariant
            1 <= i <= threshold,
            r@.len() == i,
            all_wf(r@),
            r@[0] == element,
        decreases threshold - i,
    {
        r.push(fe_random());
        i = i + 1;
    }
    r
}

/// The dealer's state for one secret: one polynomial per chunk. It hands
/// out as many freshly sampled shares as are asked for; the evaluation
/// point of each is drawn anew, so distinct draws may collide and recovery
/// deduplicates them.
#[derive(Debug)]
pub struct Evaluator {
    polys: Vec<Vec<FieldElem>>,
}

impl Evaluator {
    /// The coefficient values of the held polynomials, one row per chunk.
    pub closed spec fn coeffs(self) -> Seq<Seq<int>> {
        self.polys@.map_values(|p: Vec<FieldElem>| fe_vals(p@))
    }

    /// Every polynomial is nonempty with canonical coefficients.
    pub closed spec fn wf(self) -> bool {
        forall|j: int| 0 <= j < self.polys@.len()
            ==> all_wf((#[trigger] self.polys@[j])@) && self.polys@[j]@.len() >= 1
    }

    /// Draw one fresh share: a random evaluation point, and every
    /// polynomial's value there.
    pub fn gen(&self) -> (s: Share)
        requires
            self.wf(),
        ensures
            s.wf(),
            s.y@.len() == self.coeffs().len(),
            forall|j: int| 0 <= j < s.y@.len()
                ==> (#[trigger] s.y@[j]).value() == poly_eval(self.coeffs()[j], s.x.value()),
    {
        let x = fe_random();
        let mut y: Vec<FieldElem> = Vec::new();
        let mut j: usize = 0;
        while j < self.polys.len()
            invariant
                j <= self.polys@.len(),
                self.wf(),
                x.wf(),
                y@.len() == j,
                all_wf(y@),
                forall|i: int| 0 <= i < j
                    ==> (#[trigger] y@[i]).value() == poly_eval(self.coeffs()[i], x.value()),
            decreases self.polys@.len() - j,
        {
            y.push(eval_poly_at(&self.polys[j], &x));
            j = j + 1;
        }
        Share { x, y }
    }
}

/// Wrap the polynomials of one dealing into an [`Evaluator`].
pub fn get_evaluator(polys: Vec<Vec<FieldElem>>) -> (r: Evaluator)
    requires
        forall|j: int| 0 <= j < polys@.len()
            ==> all_wf((#[trigger] polys@[j])@) && polys@[j]@.len() >= 1,
    ensures
        r.wf(),
        r.coeffs() == polys@.map_values(|p: Vec<FieldElem>| fe_vals(p@)),
{
    Evaluator { polys }
}

/// Reconstruct the secret from shares with pairwise distinct evaluation
/// points: every chunk's constant term by Lagrange interpolation at zero,
/// encoded in chunk order.
pub fn interpolate(shares: &Vec<Share>) -> (r: Vec<u8>)
    requires
        shares@.len() >= 1,
        shares_wf(shares@, shares@[0].y@.len() as int),
        distinct_vals(xs_of(views_of(shares@))),
    ensures
        r@ == recovered_bytes(views_of(shares@), shares@[0].y@.len() as int),
{
    let ghost xs = xs_of(views_of(shares@));
    let n = shares.len();
    let y_len = shares[0].y.len();

    // The basis polynomial of every share, evaluated at zero.
    let mut bases: Vec<FieldElem> = Vec::new();
    let mut i: usize = 0;
    while i < n
        invariant
            i <= n,
            n == shares@.len(),
            xs == xs_of(views_of(shares@)),
            shares_wf(shares@, shares@[0].y@.len() as int),
            distinct_vals(xs),
            bases@.len() == i,
            all_wf(bases@),
            forall|p: int| 0 <= p < i ==> (#[trigger] bases@[p]).value() == basis0(xs, p),
        decreases n - i,
    {
        let mut num = one_elem();
        let mut den = one_elem();
        let mut k = n;
        while k > 0
            invariant
                k <= n,
                n == shares@.len(),
                i < n,
                xs == xs_of(views_of(shares@)),
                shares_wf(shares@, shares@[0].y@.len() as int),
                num.wf(),
                den.wf(),
                num.value() == num_from(xs, i as int, k as int),
                den.value() == den_from(xs, i as int, k as int),
            decreases k,
        {
            k = k - 1;
            if k != i {
                num = fe_mul(&shares[k].x, &num);
                let d = fe_sub(&shares[k].x, &shares[i].x);
                den = fe_mul(&d, &den);
            }
        }
        // One inversion covers the whole denominator; the product check
        // below witnesses that it really is the inverse. Should the check
        // ever fail, the denominator is inverted factor by factor instead,
        // where each factor's inverse is witnessed directly.
        let inv = fe_invert(&den);
        let check = fe_mul(&den, &inv);
        let one = one_elem();
        let basis = if fe_eq(&check, &one) {
            proof {
                lemma_inv_val_unique(den.value(), inv.value());
            }
            fe_mul(&num, &inv)
        } else {
            let slow = invert_differences(shares, i);
            fe_mul(&num, &slow)
        };
        bases.push(basis);
        i = i + 1;
    }

    // Each chunk's constant term: the basis-weighted sum of its column.
    let mut r: Vec<u8> = Vec::new();
    let mut j: usize = 0;
    while j < y_len
        invariant
            j <= y_len,
            n == shares@.len(),
            n >= 1,
            y_len == shares@[0].y@.len(),
            xs == xs_of(views_of(shares@)),
            shares_wf(shares@, y_len as int),
            bases@.len() == n,
            all_wf(bases@),
            forall|p: int| 0 <= p < n ==> (#[trigger] bases@[p]).value() == basis0(xs, p),
            r@ == recovered_bytes(views_of(shares@), j as int),
        decreases y_len - j,
    {
        let ghost ys = col(views_of(shares@), j as int);
        let mut k = n - 1;
        let mut acc = fe_mul(&shares[k].y[j], &bases[k]);
        proof {
            assert(ys[k as int] == shares@[k as int].y@[j as int].value());
            assert(bases@[k as int].value() == basis0(xs, k as int));
            assert(lagrange0_from(xs, ys, n as int) == 0);
            assert(acc.value() == (ys[k as int] * basis0(xs, k as int) + 0) % group_order());
        }
        while k > 0
            invariant
                k < n,
                n == shares@.len(),
                j < y_len,
                y_len == shares@[0].y@.len(),
                xs == xs_of(views_of(shares@)),
                ys == col(views_of(shares@), j as int),
                shares_wf(shares@, y_len as int),
                bases@.len() == n,
                all_wf(bases@),
                forall|p: int| 0 <= p < n ==> (#[trigger] bases@[p]).value() == basis0(xs, p),
                acc.wf(),
                acc.value() == lagrange0_from(xs, ys, k as int),
            decreases k,
        {
            k = k - 1;
            let t = fe_mul(&shares[k].y[j], &bases[k]);
            let next = fe_add(&t, &acc);
            proof {
                assert(ys[k as int] == shares@[k as int].y@[j as int].value());
                assert(bases@[k as int].value() == basis0(xs, k as int));
                let m = group_order();
                let x = ys[k as int] * basis0(xs, k as int);
                let y = lagrange0_from(xs, ys, k + 1);
                lemma_lagrange0_from_bound(xs, ys, k + 1);
                lemma_small_mod(y as nat, m as nat);
                lemma_add_mod_noop(x, y, m);
            }
            acc = next;
        }
        proof {
            lemma_fe_bytes(acc);
            lemma_le_bytes32_roundtrip(acc.byte_seq());
        }
        let mut chunk = acc.to_bytes();
        r.append(&mut chunk);
        j = j + 1;
    }
    r
}

/// The field's one, as an element.
fn one_elem() -> (r: FieldElem)
    ensures
        r.wf(),
        r.value() == 1,
{
    let mut bytes: Vec<u8> = Vec::new();
    bytes.push(1u8);
    let mut i: usize = 0;
    while i < 31
        invariant
            i <= 31,
            bytes@.len() == i + 1,
            bytes@[0] == 1u8,
            forall|p: int| 1 <= p < bytes@.len() ==> bytes@[p] == 0u8,
        decreases 31 - i,
    {
        bytes.push(0u8);
        i = i + 1;
    }
    proof {
        lemma_le_val_small_prefix(bytes@);
    }
    FieldElem::from_bytes(&bytes).unwrap()
}

/// A byte string whose bytes beyond the first are zero encodes its first
/// byte.
proof fn lemma_le_val_small_prefix(s: Seq<u8>)
    requires
        s.len() >= 1,
        forall|p: int| 1 <= p < s.len() ==> s[p] == 0u8,
    ensures
        crate::field::le_val(s) == s[0],
{
    let t = s.drop_first();
    assert(forall|p: int| 0 <= p < t.len() ==> t[p] == s[p + 1]);
    assert(forall|p: int| 0 <= p < t.len() ==> t[p] == 0u8);
    lemma_le_val_zero(t);
}

/// An all-zero byte string encodes zero.
proof fn lemma_le_val_zero(s: Seq<u8>)
    requires
        forall|p: int| 0 <= p < s.len() ==> s[p] == 0u8,
    ensures
        crate::field::le_val(s) == 0,
    decreases s.len(),
{
    if s.len() > 0 {
        lemma_le_val_zero(s.drop_first());
    }
}

} // verus!
