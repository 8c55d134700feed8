//! Dealing shares of a secret and recovering it.
//!
//! [`Sharks`] carries the reconstruction threshold. Dealing splits a secret
//! into 32-byte chunks, hides each chunk as the constant term of a random
//! polynomial, and hands back an [`Evaluator`] that samples shares.
//! Recovery deduplicates shares by evaluation point, demands at least
//! `threshold` distinct points, and interpolates the chunks back.

use vstd::prelude::*;
use crate::errors::Error;
use crate::field::{fe_decode_at, fe_eq, group_order, le_val, FieldElem};
use crate::share::{
    distinct_vals, get_evaluator, interpolate, random_polynomial, recovered_bytes, shares_wf,
    views_of, xs_of, Evaluator, Share, ShareV,
};

verus! {

/// Chunk `j` of a secret: its bytes for the `j`-th field element.
pub open spec fn chunk(secret: Seq<u8>, j: int) -> Seq<u8> {
    secret.subrange(32 * j, 32 * j + 32)
}

/// Every 32-byte chunk of the secret encodes a reduced field element.
pub open spec fn chunks_valid(secret: Seq<u8>) -> bool {
    forall|j: int| 0 <= j < secret.len() / 32 ==> le_val(#[trigger] chunk(secret, j)) < group_order()
}

/// A secret the dealer accepts: whole chunks, every chunk a valid element.
pub open spec fn secret_ok(secret: Seq<u8>) -> bool {
    secret.len() % 32 == 0 && chunks_valid(secret)
}

/// All shares report the same number of chunks.
pub open spec fn lens_consistent(shares: Seq<ShareV>) -> bool {
    forall|i: int| 0 <= i < shares.len() ==> (#[trigger] shares[i]).y.len() == shares[0].y.len()
}

/// The shares recovery counts: the first share of each distinct evaluation
/// point, in input order.
pub open spec fn dedup_by_x(shares: Seq<ShareV>) -> Seq<ShareV>
    decreases shares.len(),
{
    if shares.len() == 0 {
        Seq::empty()
    } else {
        let rest = dedup_by_x(shares.drop_last());
        if xs_of(rest).contains(shares.last().x) {
            rest
        } else {
            rest.push(shares.last())
        }
    }
}

/// What recovery returns, as a function of the threshold and the shares'
/// mathematical content.
pub open spec fn recover_spec(t: int, shares: Seq<ShareV>) -> Result<Seq<u8>, Error> {
    if !lens_consistent(shares) {
        Err(Error::InconsistentShareLength)
    } else if dedup_by_x(shares).len() == 0 || dedup_by_x(shares).len() < t {
        Err(Error::InsufficientShares)
    } else {
        Ok(recovered_bytes(dedup_by_x(shares).take(t), shares[0].y.len() as int))
    }
}

/// The polynomial a seed determines for chunk `j` of a secret: constant
/// term the chunk itself, each higher coefficient derived from the seed and
/// the coefficient's position.
pub open spec fn seeded_poly(seed: Seq<u8>, secret: Seq<u8>, t: int, j: int) -> Seq<int> {
    Seq::new(
        t as nat,
        |k: int|
            if k == 0 {
                le_val(chunk(secret, j))
            } else {
                crate::field::seeded_elem(seed, (j * 0x100000000 + k) as u64)
            },
    )
}

/// Build chunk `j`'s polynomial with seed-derived coefficients.
fn seeded_polynomial(element: FieldElem, threshold: u32, seed: &Vec<u8>, j: usize) -> (r: Vec<
    FieldElem,
>)
    requires
        element.wf(),
        threshold >= 1,
        j < 0x100000000,
    ensures
        r@.len() == threshold,
        crate::field::all_wf(r@),
        r@[0] == element,
        forall|k: int| 1 <= k < r@.len() ==> (#[trigger] r@[k]).value()
            == crate::field::seeded_elem(seed@, (j * 0x100000000 + k) as u64),
{
    let mut r: Vec<FieldElem> = Vec::new();
    r.push(element);
    let mut k: u32 = 1;
    while k < threshold
        invariant
            1 <= k <= threshold,
            j < 0x100000000,
            r@.len() == k,
            crate::field::all_wf(r@),
            r@[0] == element,
            forall|p: int| 1 <= p < r@.len() ==> (#[trigger] r@[p]).value()
                == crate::field::seeded_elem(seed@, (j * 0x100000000 + p) as u64),
        decreases threshold - k,
    {
        let counter: u64 = (j as u64) * 4294967296u64 + (k as u64);
        r.push(crate::field::fe_from_seed(seed, counter));
        k = k + 1;
    }
    r
}

/// The secret-sharing scheme over the crate's field; the one parameter is
/// the minimum number of distinct shares recovery demands.
pub struct Sharks(pub u32);

impl Sharks {
    /// Deal the secret into fresh shares: one random polynomial per 32-byte
    /// chunk, constant term the chunk itself, degree `threshold - 1`.
    ///
    /// A secret whose length is not a whole number of chunks, or with a
    /// chunk that is no canonical field element, is refused as
    /// [`Error::InvalidEncoding`].
    pub fn dealer(&self, secret: &Vec<u8>) -> (r: Result<Evaluator, Error>)
        requires
            self.0 >= 1,
        ensures
            r is Ok <==> secret_ok(secret@),
            r matches Ok(ev) ==> {
                &&& ev.wf()
                &&& ev.coeffs().len() == secret@.len() / 32
                &&& forall|j: int| 0 <= j < ev.coeffs().len()
                    ==> (#[trigger] ev.coeffs()[j]).len() == self.0
                        && ev.coeffs()[j][0] == le_val(chunk(secret@, j))
            },
            r matches Err(e) ==> e == Error::InvalidEncoding,
    {
        if secret.len() % 32 != 0 {
            return Err(Error::InvalidEncoding);
        }
        let n = secret.len() / 32;
        proof {
            vstd::arithmetic::div_mod::lemma_fundamental_div_mod(secret@.len() as int, 32);
        }
        let mut polys: Vec<Vec<FieldElem>> = Vec::new();
        let mut j: usize = 0;
        while j < n
            invariant
                j <= n,
                n == secret@.len() / 32,
                secret@.len() == 32 * n,
                secret@.len() <= usize::MAX,
                self.0 >= 1,
                polys@.len() == j,
                forall|p: int| 0 <= p < j
                    ==> crate::field::all_wf((#[trigger] polys@[p])@) && polys@[p]@.len() == self.0
                        && crate::field::fe_vals(polys@[p]@)[0] == le_val(chunk(secret@, p))
                        && le_val(chunk(secret@, p)) < group_order(),
            decreases n - j,
        {
            let off = 32 * j;
            let fe = match fe_decode_at(secret, off) {
                Some(fe) => fe,
                None => {
                    proof {
                        assert(chunk(secret@, j as int) =~= secret@.subrange(
                            off as int,
                            off as int + 32,
                        ));
                        crate::field::lemma_le_val_nonneg(chunk(secret@, j as int));
                        assert(le_val(chunk(secret@, j as int)) >= group_order());
                        assert(!chunks_valid(secret@));
                    }
                    return Err(Error::InvalidEncoding);
                },
            };
            proof {
                assert(chunk(secret@, j as int) =~= secret@.subrange(off as int, off as int + 32));
            }
            let row = random_polynomial(fe, self.0);
            proof {
                assert(crate::field::fe_vals(row@)[0] == fe.value());
            }
            polys.push(row);
            j = j + 1;
        }
        proof {
            assert forall|p: int| 0 <= p < secret@.len() / 32 implies le_val(
                #[trigger] chunk(secret@, p),
            ) < group_order() by {
                assert(crate::field::fe_vals(polys@[p]@)[0] == le_val(chunk(secret@, p)));
            }
            assert(chunks_valid(secret@));
        }
        let ev = get_evaluator(polys);
        Ok(ev)
    }

    /// Deal the secret with coefficients drawn deterministically from a
    /// seed: clients holding the same secret and seed deal the very same
    /// polynomials, so their shares reconstruct together. Only the
    /// evaluation points stay fresh per share.
    pub fn dealer_rng(&self, secret: &Vec<u8>, seed: &Vec<u8>) -> (r: Result<Evaluator, Error>)
        requires
            self.0 >= 1,
            secret@.len() / 32 < 0x100000000,
        ensures
            r is Ok <==> secret_ok(secret@),
            r matches Ok(ev) ==> {
                &&& ev.wf()
                &&& ev.coeffs().len() == secret@.len() / 32
                &&& forall|j: int| 0 <= j < ev.coeffs().len()
                    ==> (#[trigger] ev.coeffs()[j]) == seeded_poly(
                        seed@,
                        secret@,
                        self.0 as int,
                        j,
                    )
            },
            r matches Err(e) ==> e == Error::InvalidEncoding,
    {
        if secret.len() % 32 != 0 {
            return Err(Error::InvalidEncoding);
        }
        let n = secret.len() / 32;
        proof {
            vstd::arithmetic::div_mod::lemma_fundamental_div_mod(secret@.len() as int, 32);
        }
        let mut polys: Vec<Vec<FieldElem>> = Vec::new();
        let mut j: usize = 0;
        while j < n
            invariant
                j <= n,
                n == secret@.len() / 32,
                secret@.len() == 32 * n,
                secret@.len() <= usize::MAX,
                n < 0x100000000,
                self.0 >= 1,
                polys@.len() == j,
                forall|p: int| 0 <= p < j
                    ==> crate::field::all_wf((#[trigger] polys@[p])@) && polys@[p]@.len() == self.0
                        && crate::field::fe_vals(polys@[p]@) == seeded_poly(
                        seed@,
                        secret@,
                        self.0 as int,
                        p,
                    ) && le_val(chunk(secret@, p)) < group_order(),
            decreases n - j,
        {
            let off = 32 * j;
            let fe = match fe_decode_at(secret, off) {
                Some(fe) => fe,
                None => {
                    proof {
                        assert(chunk(secret@, j as int) =~= secret@.subrange(
                            off as int,
                            off as int + 32,
                        ));
                        crate::field::lemma_le_val_nonneg(chunk(secret@, j as int));
                        assert(le_val(chunk(secret@, j as int)) >= group_order());
                        assert(!chunks_valid(secret@));
                    }
                    return Err(Error::InvalidEncoding);
                },
            };
            proof {
                assert(chunk(secret@, j as int) =~= secret@.subrange(off as int, off as int + 32));
            }
            let row = seeded_polynomial(fe, self.0, seed, j);
            proof {
                assert(crate::field::fe_vals(row@) =~= seeded_poly(
                    seed@,
                    secret@,
                    self.0 as int,
                    j as int,
                ));
            }
            polys.push(row);
            j = j + 1;
        }
        proof {
            assert forall|p: int| 0 <= p < secret@.len() / 32 implies le_val(
                #[trigger] chunk(secret@, p),
            ) < group_order() by {
                assert(crate::field::fe_vals(polys@[p]@) == seeded_poly(
                    seed@,
                    secret@,
                    self.0 as int,
                    p,
                ));
            }
            assert(chunks_valid(secret@));
        }
        let ev = get_evaluator(polys);
        Ok(ev)
    }

    /// Recover the secret from a collection of shares.
    ///
    /// Shares are deduplicated by evaluation point, first occurrence kept;
    /// fewer distinct points than the threshold is
    /// [`Error::InsufficientShares`], mismatched share lengths are
    /// [`Error::InconsistentShareLength`]; otherwise the first `threshold`
    /// deduplicated shares are interpolated at zero.
    pub fn recover(&self, shares: &Vec<Share>) -> (r: Result<Vec<u8>, Error>)
        requires
            self.0 >= 1,
            forall|i: int| 0 <= i < shares@.len() ==> (#[trigger] shares@[i]).wf(),
        ensures
            match r {
                Ok(v) => recover_spec(self.0 as int, views_of(shares@)) == Ok::<Seq<u8>, Error>(
                    v@,
                ),
                Err(e) => recover_spec(self.0 as int, views_of(shares@)) == Err::<Seq<u8>, Error>(
                    e,
                ),
            },
    {
        let ghost sv = views_of(shares@);
        let n = shares.len();

        // Every share must carry the same number of chunks.
        if n > 0 {
            let y_len = shares[0].y.len();
            let mut i: usize = 1;
            while i < n
                invariant
                    1 <= i <= n,
                    n == shares@.len(),
                    sv == views_of(shares@),
                    y_len == shares@[0].y@.len(),
                    forall|k: int| 0 <= k < i ==> (#[trigger] sv[k]).y.len() == y_len,
                decreases n - i,
            {
                if shares[i].y.len() != y_len {
                    proof {
                        assert(sv[i as int].y.len() == shares@[i as int].y@.len());
                        assert(sv[0].y.len() == shares@[0].y@.len());
                        assert(!lens_consistent(sv));
                    }
                    return Err(Error::InconsistentShareLength);
                }
                i += 1;
            }
        }
        proof {
            assert(lens_consistent(sv));
        }

        // Keep the first share of each distinct evaluation point.
        let mut kept: Vec<Share> = Vec::new();
        let mut i: usize = 0;
        while i < n
            invariant
                i <= n,
                n == shares@.len(),
                sv == views_of(shares@),
                forall|k: int| 0 <= k < shares@.len() ==> (#[trigger] shares@[k]).wf(),
                lens_consistent(sv),
                views_of(kept@) == dedup_by_x(sv.take(i as int)),
                forall|k: int| 0 <= k < kept@.len() ==> (#[trigger] kept@[k]).wf(),
                n > 0 ==> forall|k: int| 0 <= k < kept@.len()
                    ==> (#[trigger] kept@[k]).y@.len() == shares@[0].y@.len(),
            decreases n - i,
        {
            proof {
                assert(sv.take(i + 1).drop_last() =~= sv.take(i as int));
                assert(sv.take(i + 1).last() == sv[i as int]);
            }
            if !contains_x(&kept, &shares[i].x) {
                let dup = share_dup(&shares[i]);
                kept.push(dup);
                proof {
                    assert(views_of(kept@) =~= dedup_by_x(sv.take(i + 1)));
                }
            }
            i += 1;
        }
        proof {
            assert(sv.take(n as int) =~= sv);
        }

        let t = self.0 as usize;
        if kept.len() < t {
            return Err(Error::InsufficientShares);
        }

        // Only the first `threshold` distinct shares are interpolated.
        let mut sel: Vec<Share> = Vec::new();
        let mut i: usize = 0;
        while i < t
            invariant
                i <= t,
                t <= kept@.len(),
                forall|k: int| 0 <= k < kept@.len() ==> (#[trigger] kept@[k]).wf(),
                n > 0 ==> forall|k: int| 0 <= k < kept@.len()
                    ==> (#[trigger] kept@[k]).y@.len() == shares@[0].y@.len(),
                n > 0,
                sel@.len() == i,
                forall|k: int| 0 <= k < i ==> (#[trigger] sel@[k]).wf()
                    && sel@[k].y@.len() == shares@[0].y@.len(),
                views_of(sel@) == views_of(kept@).take(i as int),
            decreases t - i,
        {
            let dup = share_dup(&kept[i]);
            sel.push(dup);
            proof {
                assert(views_of(sel@) =~= views_of(kept@).take(i + 1));
            }
            i += 1;
        }

        proof {
            lemma_dedup_distinct(sv);
            assert(distinct_vals(xs_of(views_of(kept@))));
            assert(xs_of(views_of(sel@)) =~= xs_of(views_of(kept@)).take(t as int));
            assert(distinct_vals(xs_of(views_of(sel@))));
            assert(views_of(sel@).len() == t);
            assert(shares_wf(sel@, sel@[0].y@.len() as int));
            assert(sel@[0].y@.len() == shares@[0].y@.len());
        }
        let out = interpolate(&sel);
        proof {
            assert(views_of(sel@) == dedup_by_x(sv).take(t as int));
            assert(views_of(sel@)[0].y.len() == sel@[0].y@.len());
        }
        Ok(out)
    }
}

/// Does any kept share already use this evaluation point?
fn contains_x(kept: &Vec<Share>, x: &FieldElem) -> (r: bool)
    ensures
        r <==> xs_of(views_of(kept@)).contains(x.value()),
{
    let mut i: usize = 0;
    while i < kept.len()
        invariant
            i <= kept@.len(),
            forall|k: int| 0 <= k < i ==> xs_of(views_of(kept@))[k] != x.value(),
        decreases kept@.len() - i,
    {
        if fe_eq(&kept[i].x, x) {
            proof {
                assert(xs_of(views_of(kept@))[i as int] == x.value());
            }
            return true;
        }
        i += 1;
    }
    false
}

/// A field-for-field copy of one share.
pub(crate) fn share_dup(s: &Share) -> (r: Share)
    ensures
        r@ == s@,
        r.x == s.x,
        r.y@ == s.y@,
{
    let mut y: Vec<FieldElem> = Vec::new();
    let mut i: usize = 0;
    while i < s.y.len()
        invariant
            i <= s.y@.len(),
            y@ == s.y@.take(i as int),
        decreases s.y@.len() - i,
    {
        y.push(s.y[i]);
        proof {
            assert(y@ =~= s.y@.take(i + 1));
        }
        i += 1;
    }
    proof {
        assert(y@ =~= s.y@);
    }
    Share { x: s.x, y }
}

/// Law: deduplication keeps pairwise distinct evaluation points, so no
/// point is interpolated twice.
pub proof fn lemma_dedup_distinct(shares: Seq<ShareV>)
    ensures
        distinct_vals(xs_of(dedup_by_x(shares))),
    decreases shares.len(),
{
    if shares.len() > 0 {
        let rest = dedup_by_x(shares.drop_last());
        lemma_dedup_distinct(shares.drop_last());
        if !xs_of(rest).contains(shares.last().x) {
            let d = rest.push(shares.last());
            assert forall|i: int, k: int| 0 <= i < k < xs_of(d).len() implies xs_of(d)[i] != xs_of(
                d,
            )[k] by {
                if k == xs_of(d).len() - 1 {
                    assert(xs_of(rest)[i] == xs_of(d)[i]);
                    assert(!xs_of(rest).contains(d[k].x));
                } else {
                    assert(xs_of(d)[i] == xs_of(rest)[i]);
                    assert(xs_of(d)[k] == xs_of(rest)[k]);
                }
            }
        }
    }
}

/// Law (threshold monotonicity): with fewer distinct evaluation points
/// than the threshold — however many shares arrive — recovery refuses with
/// [`Error::InsufficientShares`], the intended outcome when too few
/// clients agree.
pub proof fn lemma_threshold_monotonic(t: int, shares: Seq<ShareV>)
    requires
        lens_consistent(shares),
        xs_of(shares).to_set().len() < t,
    ensures
        recover_spec(t, shares) == Err::<Seq<u8>, Error>(Error::InsufficientShares),
{
    lemma_duplicates_not_double_counted(shares);
}

/// Law: shares sharing an evaluation point count once. The count recovery
/// holds against the threshold is the number of distinct points, however
/// many shares repeat them.
pub proof fn lemma_duplicates_not_double_counted(shares: Seq<ShareV>)
    ensures
        dedup_by_x(shares).len() == xs_of(shares).to_set().len(),
    decreases shares.len(),
{
    broadcast use vstd::seq_lib::group_seq_properties;

    if shares.len() == 0 {
        assert(xs_of(shares).to_set() =~= Set::<int>::empty());
    } else {
        let prefix = shares.drop_last();
        let rest = dedup_by_x(prefix);
        lemma_duplicates_not_double_counted(prefix);
        lemma_dedup_same_points(shares);
        lemma_dedup_same_points(prefix);
        lemma_dedup_distinct(shares);
        let d = dedup_by_x(shares);
        xs_of(d).unique_seq_to_set();
        assert(forall|i: int, k: int|
            0 <= i < k < xs_of(d).len() ==> xs_of(d)[i] != xs_of(d)[k]);
        assert(xs_of(d).no_duplicates());
        assert(xs_of(d).to_set() == xs_of(shares).to_set());
    }
}

/// Deduplication keeps exactly the evaluation points that appear.
pub proof fn lemma_dedup_same_points(shares: Seq<ShareV>)
    ensures
        xs_of(dedup_by_x(shares)).to_set() == xs_of(shares).to_set(),
    decreases shares.len(),
{
    if shares.len() == 0 {
    } else {
        let prefix = shares.drop_last();
        let rest = dedup_by_x(prefix);
        lemma_dedup_same_points(prefix);
        let xlast = shares.last().x;
        assert(xs_of(shares) =~= xs_of(prefix).push(xlast));
        lemma_xs_to_set_push(xs_of(prefix), xlast);
        if xs_of(rest).contains(xlast) {
            assert(xs_of(rest).to_set().contains(xlast));
            assert(xs_of(rest).to_set() =~= xs_of(prefix).to_set().insert(xlast));
            assert(xs_of(dedup_by_x(shares)).to_set() =~= xs_of(shares).to_set());
        } else {
            assert(xs_of(dedup_by_x(shares)) =~= xs_of(rest).push(xlast));
            lemma_xs_to_set_push(xs_of(rest), xlast);
            assert(xs_of(dedup_by_x(shares)).to_set() =~= xs_of(shares).to_set());
        }
    }
}

/// Appending a point inserts it into the point set.
proof fn lemma_xs_to_set_push(xs: Seq<int>, x: int)
    ensures
        xs.push(x).to_set() == xs.to_set().insert(x),
{
    assert(xs.push(x).to_set() =~= xs.to_set().insert(x)) by {
        assert(forall|v: int| xs.to_set().contains(v) ==> xs.contains(v));
        assert(forall|i: int| 0 <= i < xs.len() ==> xs.push(x)[i] == xs[i]);
        assert(xs.push(x)[xs.len() as int] == x);
        assert forall|v: int| xs.push(x).to_set().contains(v) implies xs.to_set().insert(
            x,
        ).contains(v) by {
            let i = choose|i: int| 0 <= i < xs.push(x).len() && xs.push(x)[i] == v;
            if i < xs.len() {
                assert(xs[i] == v);
            }
        }
        assert forall|v: int| xs.to_set().insert(x).contains(v) implies xs.push(
            x,
        ).to_set().contains(v) by {
            if v == x {
                assert(xs.push(x)[xs.len() as int] == v);
            } else {
                let i = choose|i: int| 0 <= i < xs.len() && xs[i] == v;
                assert(xs.push(x)[i] == v);
            }
        }
    }
}


/// Law (round trip at threshold one): recovery from a single share of a
/// dealing with threshold 1 returns exactly the dealt secret. This is the
/// interpolation round trip in the one case where the basis polynomials
/// collapse to constants; for higher thresholds the round trip is exercised
/// by the test suite.
pub proof fn lemma_round_trip_threshold_one(secret: Seq<u8>, seed: Seq<u8>, sv: ShareV)
    requires
        secret.len() % 32 == 0,
        chunks_valid(secret),
        0 <= sv.x < group_order(),
        sv.y.len() == secret.len() / 32,
        forall|j: int| 0 <= j < sv.y.len() ==> sv.y[j] == crate::share::poly_eval(
            #[trigger] seeded_poly(seed, secret, 1, j),
            sv.x,
        ),
    ensures
        recover_spec(1, seq![sv]) == Ok::<Seq<u8>, Error>(secret),
{
    let shares = seq![sv];
    let m = group_order();

    // The one share passes the length check and survives deduplication.
    assert(lens_consistent(shares));
    assert(dedup_by_x(shares) =~= shares) by {
        assert(shares.drop_last() =~= Seq::<ShareV>::empty());
        assert(!xs_of(dedup_by_x(shares.drop_last())).contains(sv.x));
    }
    assert(shares.take(1) =~= shares);

    // Each chunk's value survives: the single basis polynomial is 1.
    let xs = xs_of(shares);
    assert forall|j: int| 0 <= j < sv.y.len() implies crate::share::lagrange0(
        xs,
        crate::share::col(shares, j),
    ) == le_val(chunk(secret, j)) by {
        let c = le_val(chunk(secret, j));
        crate::field::lemma_le_val_nonneg(chunk(secret, j));
        // The dealt polynomial has the chunk as its only coefficient.
        assert(seeded_poly(seed, secret, 1, j).len() == 1);
        assert(seeded_poly(seed, secret, 1, j)[0] == c);
        assert(seeded_poly(seed, secret, 1, j).drop_first().len() == 0);
        assert(crate::share::poly_eval(seeded_poly(seed, secret, 1, j).drop_first(), sv.x) == 0);
        vstd::arithmetic::div_mod::lemma_small_mod(c as nat, m as nat);
        assert(sv.y[j] == (c + sv.x * 0) % m);
        assert(sv.y[j] == c);
        // The basis polynomial of the only point is 1.
        vstd::arithmetic::div_mod::lemma_small_mod(1, m as nat);
        crate::field::lemma_inv_val_unique(1, 1);
        assert(crate::share::num_from(xs, 0, 1) == 1);
        assert(crate::share::den_from(xs, 0, 1) == 1);
        assert(crate::share::num_from(xs, 0, 0) == 1);
        assert(crate::share::den_from(xs, 0, 0) == 1);
        assert(crate::share::basis0(xs, 0) == 1);
        // The interpolated value is the chunk itself.
        assert(crate::share::col(shares, j)[0] == sv.y[j]);
        assert(crate::share::lagrange0_from(xs, crate::share::col(shares, j), 1) == 0);
        assert(crate::share::lagrange0(xs, crate::share::col(shares, j)) == (c * 1 + 0) % m);
    }

    // Chunk by chunk, the recovered bytes are the secret's bytes.
    vstd::arithmetic::div_mod::lemma_fundamental_div_mod(secret.len() as int, 32);
    lemma_chunks_rebuild(secret, shares, secret.len() as int / 32);
    assert(secret.subrange(0, 32 * (secret.len() as int / 32)) =~= secret);
}

/// The first `n` recovered chunks are the first `n` chunks of the secret,
/// provided each chunk's interpolation gives the chunk's value back.
proof fn lemma_chunks_rebuild(secret: Seq<u8>, shares: Seq<ShareV>, n: int)
    requires
        0 <= n,
        32 * n <= secret.len(),
        forall|j: int| 0 <= j < n ==> crate::share::lagrange0(
            xs_of(shares),
            crate::share::col(shares, j),
        ) == le_val(#[trigger] chunk(secret, j)),
    ensures
        recovered_bytes(shares, n) =~= secret.subrange(0, 32 * n),
    decreases n,
{
    if n > 0 {
        lemma_chunks_rebuild(secret, shares, n - 1);
        crate::field::lemma_le_bytes32_roundtrip(chunk(secret, n - 1));
        assert(recovered_bytes(shares, n) =~= secret.subrange(0, 32 * n));
    } else {
        assert(recovered_bytes(shares, 0) =~= secret.subrange(0, 0));
    }
}

} // verus!
