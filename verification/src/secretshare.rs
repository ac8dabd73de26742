//! Byte-wise (k, n)-threshold secret sharing over GF(2^8), with recovery by
//! Lagrange interpolation.
//!
//! A secret of `L` bytes is shared through `L` polynomials of degree
//! `threshold - 1`: the polynomial for byte `t` has the secret byte as its
//! constant term and fresh random higher coefficients.  A share carries an
//! x-coordinate in `1..=255` followed by the evaluation of every polynomial
//! at that coordinate; `threshold` shares with distinct coordinates
//! determine the polynomials, and with them the secret.

use vstd::prelude::*;

use crate::crypto;
use crate::error::{PPHError, PPHErrorKind};
use crate::math::polynomial;

verus! {

/// The byte sequences carried by a vector of shares.
pub open spec fn share_views(shares: Seq<Vec<u8>>) -> Seq<Seq<u8>> {
    Seq::new(shares.len(), |i: int| shares[i]@)
}

/// `shares` with every repeated share removed, keeping first occurrences in
/// order.
pub open spec fn dedup_shares(shares: Seq<Seq<u8>>) -> Seq<Seq<u8>>
    decreases shares.len(),
{
    if shares.len() == 0 {
        Seq::empty()
    } else {
        let prefix = dedup_shares(shares.drop_last());
        if prefix.contains(shares.last()) {
            prefix
        } else {
            prefix.push(shares.last())
        }
    }
}

/// Deduplication only drops shares: everything it keeps was in the input.
pub proof fn lemma_dedup_subset(s: Seq<Seq<u8>>)
    ensures
        forall|j: int|
            0 <= j < dedup_shares(s).len() ==> s.contains(#[trigger] dedup_shares(s)[j]),
    decreases s.len(),
{
    if s.len() > 0 {
        lemma_dedup_subset(s.drop_last());
        assert forall|j: int|
            0 <= j < dedup_shares(s).len() implies s.contains(#[trigger] dedup_shares(s)[j]) by {
            let prefix = dedup_shares(s.drop_last());
            if j < prefix.len() {
                assert(s.drop_last().contains(prefix[j]));
                let w = choose|w: int|
                    0 <= w < s.drop_last().len() && s.drop_last()[w] == prefix[j];
                assert(s[w] == prefix[j]);
            } else {
                assert(dedup_shares(s)[j] == s.last());
                assert(s[s.len() - 1] == s.last());
            }
        }
    }
}

/// All shares have one common length, and that length covers at least the
/// x-coordinate byte.
pub open spec fn shares_uniform(d: Seq<Seq<u8>>) -> bool {
    &&& d.len() > 0 ==> d[0].len() >= 1
    &&& forall|i: int| 0 <= i < d.len() ==> (#[trigger] d[i].len()) == d[0].len()
}

/// No two shares carry the same x-coordinate.
pub open spec fn xs_distinct(d: Seq<Seq<u8>>) -> bool {
    forall|i: int, j: int| 0 <= i < j < d.len() ==> d[i][0] != d[j][0]
}

/// The polynomials recovered from the first `k` of the shares `d`: for each
/// data byte position, the interpolation of that byte across the shares.
pub open spec fn recovered_coeffs(k: int, d: Seq<Seq<u8>>) -> Seq<Seq<u8>> {
    Seq::new(
        (d[0].len() - 1) as nat,
        |t: int|
            polynomial::lagrange_spec(
                Seq::new(k as nat, |i: int| d[i][0]),
                Seq::new(k as nat, |i: int| d[i][t + 1]),
            ),
    )
}

/// A fresh vector with the same bytes.
fn copy_share(s: &Vec<u8>) -> (r: Vec<u8>)
    ensures
        r@ == s@,
{
    let mut r: Vec<u8> = Vec::new();
    let mut i: usize = 0;
    while i < s.len()
        invariant
            i <= s@.len(),
            r@.len() == i,
            forall|k: int| 0 <= k < i ==> r@[k] == s@[k],
        decreases s@.len() - i,
    {
        r.push(s[i]);
        i = i + 1;
    }
    proof {
        assert(r@ =~= s@);
    }
    r
}

/// Byte-wise equality of two vectors.
fn vec_u8_eq(a: &Vec<u8>, b: &Vec<u8>) -> (r: bool)
    ensures
        r == (a@ == b@),
{
    if a.len() != b.len() {
        proof {
            assert(a@ != b@) by {
                if a@ == b@ {
                    assert(a@.len() == b@.len());
                    assert(false);
                }
            }
        }
        return false;
    }
    let mut i: usize = 0;
    while i < a.len()
        invariant
            a@.len() == b@.len(),
            i <= a@.len(),
            forall|k: int| 0 <= k < i ==> a@[k] == b@[k],
        decreases a@.len() - i,
    {
        if a[i] != b[i] {
            proof {
                assert(a@ != b@) by {
                    if a@ == b@ {
                        assert(a@[i as int] == b@[i as int]);
                        assert(false);
                    }
                }
            }
            return false;
        }
        i = i + 1;
    }
    proof {
        assert(a@ =~= b@);
    }
    true
}

/// Whether some share in `list` carries the same bytes as `s`.
fn contains_share(list: &Vec<Vec<u8>>, s: &Vec<u8>) -> (r: bool)
    ensures
        r == share_views(list@).contains(s@),
{
    let mut k: usize = 0;
    while k < list.len()
        invariant
            k <= list@.len(),
            forall|t: int| 0 <= t < k ==> list@[t]@ != s@,
        decreases list@.len() - k,
    {
        if vec_u8_eq(&list[k], s) {
            proof {
                assert(share_views(list@)[k as int] == s@);
            }
            return true;
        }
        k = k + 1;
    }
    proof {
        assert(!share_views(list@).contains(s@)) by {
            if share_views(list@).contains(s@) {
                let t = choose|t: int|
                    0 <= t < share_views(list@).len() && share_views(list@)[t] == s@;
                assert(list@[t]@ != s@);
                assert(false);
            }
        }
    }
    false
}

/// `shares` with repeats removed, first occurrences kept in order.
fn dedup_shares_x(shares: &Vec<Vec<u8>>) -> (r: Vec<Vec<u8>>)
    ensures
        share_views(r@) == dedup_shares(share_views(shares@)),
{
    let mut news: Vec<Vec<u8>> = Vec::new();
    let mut i: usize = 0;
    while i < shares.len()
        invariant
            i <= shares@.len(),
            share_views(news@) == dedup_shares(share_views(shares@).take(i as int)),
        decreases shares@.len() - i,
    {
        let ghost pre = share_views(shares@).take(i as int);
        let ghost cur = share_views(shares@).take(i + 1);
        proof {
            assert(cur.drop_last() =~= pre);
            assert(cur.last() == shares@[i as int]@);
        }
        let included = contains_share(&news, &shares[i]);
        if !included {
            let copied = copy_share(&shares[i]);
            news.push(copied);
            proof {
                assert(share_views(news@) =~= dedup_shares(pre).push(shares@[i as int]@));
            }
        }
        i = i + 1;
    }
    proof {
        assert(share_views(shares@).take(shares@.len() as int) =~= share_views(shares@));
    }
    news
}

/// The secret-sharing engine: a threshold, the secret when it is known, and
/// one polynomial per secret byte.  `coefficients` is empty exactly when the
/// instance does not know the secret (awaiting `recover_secretdata`).
#[derive(Debug, Clone)]
pub struct ShamirSecret {
    pub threshold: u8,
    pub secretdata: Option<Vec<u8>>,
    pub coefficients: Vec<Vec<u8>>,
}

impl ShamirSecret {
    /// The per-byte polynomials, as sequences of coefficients.
    pub open spec fn coeffs(&self) -> Seq<Seq<u8>> {
        Seq::new(self.coefficients@.len(), |t: int| self.coefficients@[t]@)
    }

    /// The instance knows its secret: it holds at least one polynomial.
    pub open spec fn has_secret(&self) -> bool {
        self.coefficients@.len() > 0
    }

    /// Well-formedness: the threshold makes the scheme non-trivial, and the
    /// polynomials, when present, are one per secret byte, each of length
    /// `threshold` with the secret byte as constant term.
    pub open spec fn wf(&self) -> bool {
        &&& self.threshold >= 2
        &&& match self.secretdata {
            Option::None => self.coefficients@.len() == 0,
            Option::Some(d) => {
                &&& self.coefficients@.len() == d@.len()
                &&& forall|t: int|
                    0 <= t < self.coefficients@.len() ==> (#[trigger] self.coefficients@[t]@.len())
                        == self.threshold
                &&& forall|t: int|
                    0 <= t < self.coefficients@.len() ==> (#[trigger] self.coefficients@[t]@[0])
                        == d@[t]
            },
        }
    }

    /// The full share at coordinate `x`: `x` followed by the evaluation of
    /// every per-byte polynomial at `x`.
    pub open spec fn share_of(coeffs: Seq<Seq<u8>>, x: u8) -> Seq<u8> {
        seq![x] + Seq::new(coeffs.len(), |t: int| polynomial::poly_eval_spec(coeffs[t], x))
    }

    /// A candidate share agrees with the polynomials: it has a nonzero
    /// coordinate and at least one data byte, carries no more bytes than the
    /// full share, and every data byte it carries matches the evaluation at
    /// its coordinate.  (A stored password hash keeps only the first 32
    /// bytes of a share, so a candidate may be shorter than the full share.)
    pub open spec fn share_matches(coeffs: Seq<Seq<u8>>, share: Seq<u8>) -> bool {
        &&& 2 <= share.len() <= coeffs.len() + 1
        &&& share[0] != 0
        &&& forall|t: int|
            0 <= t < share.len() - 1 ==> (#[trigger] share[t + 1]) == polynomial::poly_eval_spec(
                coeffs[t],
                share[0],
            )
    }

    /// Builds an engine.  With a secret: one polynomial per secret byte,
    /// constant term the secret byte, the `threshold - 1` higher
    /// coefficients drawn fresh from the random source for every byte.
    /// Without: an empty engine awaiting `recover_secretdata`.
    pub fn new(threshold: u8, secretdata: Option<Vec<u8>>) -> (r: ShamirSecret)
        requires
            threshold >= 2,
        ensures
            r.wf(),
            r.threshold == threshold,
            r.secretdata == secretdata,
    {
        let mut coefficients: Vec<Vec<u8>> = Vec::new();
        match secretdata {
            Option::Some(data) => {
                let mut i: usize = 0;
                while i < data.len()
                    invariant
                        i <= data@.len(),
                        threshold >= 2,
                        coefficients@.len() == i,
                        forall|t: int|
                            0 <= t < i ==> (#[trigger] coefficients@[t]@.len()) == threshold,
                        forall|t: int|
                            0 <= t < i ==> (#[trigger] coefficients@[t]@[0]) == data@[t],
                    decreases data@.len() - i,
                {
                    let rand_bytes = crypto::random_bytes((threshold - 1) as usize);
                    let mut coefficient: Vec<u8> = Vec::new();
                    coefficient.push(data[i]);
                    let mut j: usize = 0;
                    while j < rand_bytes.len()
                        invariant
                            j <= rand_bytes@.len(),
                            coefficient@.len() == j + 1,
                            coefficient@[0] == data@[i as int],
                        decreases rand_bytes@.len() - j,
                    {
                        coefficient.push(rand_bytes[j]);
                        j = j + 1;
                    }
                    coefficients.push(coefficient);
                    i = i + 1;
                }
                ShamirSecret { threshold, secretdata: Option::Some(data), coefficients }
            },
            Option::None => ShamirSecret { threshold, secretdata: Option::None, coefficients },
        }
    }

    /// The share at coordinate `x`, as `[x, f_0(x), f_1(x), ...]`.  Rejected
    /// with a `ShardError` when `x` is 0 (the secret coordinate) or when the
    /// instance does not know the secret.
    pub fn compute_share(&self, x: u8) -> (r: Result<Vec<u8>, PPHError>)
        ensures
            x >= 1 && self.has_secret() ==> (r matches Ok(s) && s@ == Self::share_of(
                self.coeffs(),
                x,
            )),
            x < 1 || !self.has_secret() ==> (r matches Err(e) && e.kind
                == PPHErrorKind::ShardError),
    {
        if x < 1 {
            return Err(PPHError::new(PPHErrorKind::ShardError, "coordinate must be nonzero"));
        }
        if self.coefficients.len() == 0 {
            return Err(PPHError::new(PPHErrorKind::ShardError, "coefficients not initialized"));
        }
        let mut sharebytes: Vec<u8> = Vec::new();
        sharebytes.push(x);
        let mut t: usize = 0;
        while t < self.coefficients.len()
            invariant
                x >= 1,
                t <= self.coefficients@.len(),
                sharebytes@.len() == t + 1,
                sharebytes@[0] == x,
                forall|k: int|
                    0 <= k < t ==> (#[trigger] sharebytes@[k + 1])
                        == polynomial::poly_eval_spec(self.coefficients@[k]@, x),
            decreases self.coefficients@.len() - t,
        {
            let y = polynomial::poly_eval_nz(x, &self.coefficients[t]);
            sharebytes.push(y);
            t = t + 1;
        }
        proof {
            let full = Self::share_of(self.coeffs(), x);
            assert forall|m: int| 0 <= m < sharebytes@.len() implies sharebytes@[m] == full[m] by {
                if m > 0 {
                    assert(sharebytes@[(m - 1) + 1] == polynomial::poly_eval_spec(
                        self.coefficients@[m - 1]@,
                        x,
                    ));
                }
            }
            assert(sharebytes@ =~= full);
        }
        Ok(sharebytes)
    }

    /// Whether `share` belongs to the polynomials: its coordinate is read
    /// from its first byte and the remaining bytes are compared with the
    /// freshly computed share at that coordinate.  Rejected with a
    /// `ShardError` when the instance does not know the secret.
    pub fn is_valid_share(&self, share: Vec<u8>) -> (r: Result<bool, PPHError>)
        ensures
            self.has_secret() ==> (r matches Ok(b) && b == Self::share_matches(
                self.coeffs(),
                share@,
            )),
            !self.has_secret() ==> (r matches Err(e) && e.kind == PPHErrorKind::ShardError),
    {
        if self.coefficients.len() == 0 {
            return Err(PPHError::new(PPHErrorKind::ShardError, "coefficients not initialized"));
        }
        if share.len() < 2 {
            return Ok(false);
        }
        if share.len() - 1 > self.coefficients.len() {
            return Ok(false);
        }
        let x = share[0];
        if x == 0 {
            return Ok(false);
        }
        let mut t: usize = 0;
        while t < share.len() - 1
            invariant
                x == share@[0],
                x != 0,
                2 <= share@.len() <= self.coefficients@.len() + 1,
                t <= share@.len() - 1,
                forall|k: int|
                    0 <= k < t ==> (#[trigger] share@[k + 1]) == polynomial::poly_eval_spec(
                        self.coefficients@[k]@,
                        x,
                    ),
            decreases share@.len() - t,
        {
            let y = polynomial::poly_eval_nz(x, &self.coefficients[t]);
            if share[t + 1] != y {
                proof {
                    assert(!Self::share_matches(self.coeffs(), share@)) by {
                        if Self::share_matches(self.coeffs(), share@) {
                            assert(share@[t + 1] == polynomial::poly_eval_spec(
                                self.coeffs()[t as int],
                                share@[0],
                            ));
                            assert(false);
                        }
                    }
                }
                return Ok(false);
            }
            t = t + 1;
        }
        proof {
            assert(Self::share_matches(self.coeffs(), share@));
        }
        Ok(true)
    }

    /// Law: a share the engine computes is a share the engine accepts.  For
    /// any engine that knows a secret of at least one byte and any
    /// coordinate in `1..=255`, the freshly computed share matches the
    /// polynomials byte for byte.
    pub proof fn lemma_computed_share_is_valid(s: ShamirSecret, x: u8)
        requires
            s.has_secret(),
            x >= 1,
        ensures
            ShamirSecret::share_matches(s.coeffs(), ShamirSecret::share_of(s.coeffs(), x)),
    {
        let coeffs = s.coeffs();
        let sh = ShamirSecret::share_of(coeffs, x);
        assert(sh.len() == 1 + coeffs.len());
        assert(sh[0] == x);
        assert forall|t: int| 0 <= t < sh.len() - 1 implies (#[trigger] sh[t + 1])
            == polynomial::poly_eval_spec(coeffs[t], sh[0]) by {
            assert(sh[t + 1] == Seq::new(
                coeffs.len(),
                |t2: int| polynomial::poly_eval_spec(coeffs[t2], x),
            )[t]);
        }
    }

    /// Rebuilds the secret from shares.  The shares are first deduplicated;
    /// then at least `threshold` of them must remain, all of one length that
    /// covers the x-coordinate byte, with pairwise distinct x-coordinates —
    /// each violation is a `ShardError`, checked in that order, and leaves
    /// the instance untouched.  On success the first `threshold` shares are
    /// interpolated byte-wise: the instance afterwards holds the recovered
    /// per-byte polynomials and, as its secret, their constant terms.
    pub fn recover_secretdata(&mut self, shares: Vec<Vec<u8>>) -> (r: Result<(), PPHError>)
        requires
            old(self).wf(),
        ensures
            ({
                let d = dedup_shares(share_views(shares@));
                let k = old(self).threshold as int;
                &&& (r matches Err(e) ==> e.kind == PPHErrorKind::ShardError && *final(self)
                    == *old(self))
                &&& (d.len() < k ==> r is Err)
                &&& (d.len() >= k && !shares_uniform(d) ==> r is Err)
                &&& (d.len() >= k && shares_uniform(d) && !xs_distinct(d) ==> r is Err)
                &&& (d.len() >= k && shares_uniform(d) && xs_distinct(d) ==> {
                    &&& r is Ok
                    &&& final(self).threshold == old(self).threshold
                    &&& final(self).coeffs() == recovered_coeffs(k, d)
                    &&& (final(self).secretdata matches Some(s) && s@ == Seq::new(
                        (d[0].len() - 1) as nat,
                        |t: int| recovered_coeffs(k, d)[t][0],
                    ))
                    &&& final(self).wf()
                })
            }),
    {
        let ghost d = dedup_shares(share_views(shares@));
        let newshares = dedup_shares_x(&shares);
        proof {
            assert(share_views(newshares@).len() == newshares@.len());
        }
        if (self.threshold as usize) > newshares.len() {
            return Err(
                PPHError::new(PPHErrorKind::ShardError, "not enough distinct shares"),
            );
        }
        let len0 = newshares[0].len();
        proof {
            assert(d[0] == newshares@[0]@);
        }
        if len0 < 1 {
            return Err(PPHError::new(PPHErrorKind::ShardError, "empty share"));
        }
        let mut i: usize = 1;
        while i < newshares.len()
            invariant
                1 <= i <= newshares@.len(),
                d == dedup_shares(share_views(shares@)),
                share_views(newshares@) == d,
                len0 == d[0].len(),
                forall|t: int| 0 <= t < i ==> (#[trigger] d[t].len()) == d[0].len(),
            decreases newshares@.len() - i,
        {
            if newshares[i].len() != len0 {
                proof {
                    assert(d[i as int] == newshares@[i as int]@);
                    assert(!shares_uniform(d)) by {
                        if shares_uniform(d) {
                            assert(d[i as int].len() == d[0].len());
                            assert(false);
                        }
                    }
                }
                return Err(
                    PPHError::new(PPHErrorKind::ShardError, "shares have different lengths"),
                );
            }
            i = i + 1;
        }
        proof {
            assert(shares_uniform(d));
        }
        let mut i: usize = 0;
        while i < newshares.len()
            invariant
                i <= newshares@.len(),
                d == dedup_shares(share_views(shares@)),
                share_views(newshares@) == d,
                shares_uniform(d),
                1 <= len0 == d[0].len(),
                forall|i0: int, j0: int|
                    0 <= i0 < i && i0 < j0 < d.len() ==> d[i0][0] != d[j0][0],
            decreases newshares@.len() - i,
        {
            let mut j: usize = i + 1;
            while j < newshares.len()
                invariant
                    i < j <= newshares@.len(),
                    d == dedup_shares(share_views(shares@)),
                    share_views(newshares@) == d,
                    shares_uniform(d),
                    1 <= len0 == d[0].len(),
                    forall|j0: int| i < j0 < j ==> d[i as int][0] != d[j0][0],
                decreases newshares@.len() - j,
            {
                proof {
                    assert(d[i as int] == newshares@[i as int]@);
                    assert(d[j as int] == newshares@[j as int]@);
                    assert(d[i as int].len() == d[0].len());
                    assert(d[j as int].len() == d[0].len());
                }
                if newshares[i][0] == newshares[j][0] {
                    proof {
                        assert(d[i as int][0] == d[j as int][0]);
                        assert(!xs_distinct(d)) by {
                            if xs_distinct(d) {
                                assert(d[i as int][0] != d[j as int][0]);
                                assert(false);
                            }
                        }
                    }
                    return Err(
                        PPHError::new(PPHErrorKind::ShardError, "shares with equal coordinates"),
                    );
                }
                j = j + 1;
            }
            i = i + 1;
        }
        proof {
            assert(xs_distinct(d));
        }
        let k = self.threshold as usize;
        let ghost kk = old(self).threshold as int;
        let byte_walk = len0 - 1;
        let mut mycoefficients: Vec<Vec<u8>> = Vec::new();
        let mut mysecretdata: Vec<u8> = Vec::new();
        let mut t: usize = 0;
        while t < byte_walk
            invariant
                t <= byte_walk,
                byte_walk == len0 - 1,
                1 <= len0 == d[0].len(),
                k == kk,
                2 <= kk <= d.len(),
                share_views(newshares@) == d,
                shares_uniform(d),
                xs_distinct(d),
                mycoefficients@.len() == t,
                mysecretdata@.len() == t,
                forall|u: int|
                    0 <= u < t ==> (#[trigger] mycoefficients@[u]@) == recovered_coeffs(kk, d)[u],
                forall|u: int|
                    0 <= u < t ==> (#[trigger] mysecretdata@[u]) == recovered_coeffs(kk, d)[u][0],
                forall|u: int| 0 <= u < t ==> (#[trigger] mycoefficients@[u]@.len()) == kk,
            decreases byte_walk - t,
        {
            let mut xs: Vec<u8> = Vec::new();
            let mut fxs: Vec<u8> = Vec::new();
            let mut i: usize = 0;
            while i < k
                invariant
                    i <= k,
                    k == kk,
                    kk <= d.len(),
                    t < byte_walk,
                    byte_walk == len0 - 1,
                    1 <= len0 == d[0].len(),
                    share_views(newshares@) == d,
                    shares_uniform(d),
                    xs@.len() == i,
                    fxs@.len() == i,
                    forall|i0: int| 0 <= i0 < i ==> (#[trigger] xs@[i0]) == d[i0][0],
                    forall|i0: int| 0 <= i0 < i ==> (#[trigger] fxs@[i0]) == d[i0][t + 1],
                decreases k - i,
            {
                proof {
                    assert(d[i as int].len() == d[0].len());
                }
                xs.push(newshares[i][0]);
                fxs.push(newshares[i][1 + t]);
                i = i + 1;
            }
            let ghost xs_spec = Seq::new(kk as nat, |i0: int| d[i0][0]);
            let ghost fxs_spec = Seq::new(kk as nat, |i0: int| d[i0][t + 1]);
            proof {
                assert(xs@ =~= xs_spec);
                assert(fxs@ =~= fxs_spec);
                assert(polynomial::distinct(xs@)) by {
                    assert forall|i0: int, j0: int| 0 <= i0 < j0 < xs@.len() implies xs@[i0]
                        != xs@[j0] by {
                        assert(d[i0][0] != d[j0][0]);
                    }
                }
            }
            let result_polynomial = match polynomial::full_lagrange(xs, fxs) {
                Ok(p) => p,
                Err(e) => {
                    proof {
                        assert(false);
                    }
                    return Err(e);
                },
            };
            proof {
                polynomial::lemma_lagrange_len(xs_spec, fxs_spec, kk);
                assert(result_polynomial@ == recovered_coeffs(kk, d)[t as int]);
            }
            mysecretdata.push(result_polynomial[0]);
            mycoefficients.push(result_polynomial);
            t = t + 1;
        }
        self.coefficients = mycoefficients;
        self.secretdata = Some(mysecretdata);
        proof {
            assert(self.coeffs() =~= recovered_coeffs(kk, d));
            assert(self.secretdata matches Some(s) && s@ =~= Seq::new(
                (d[0].len() - 1) as nat,
                |u: int| recovered_coeffs(kk, d)[u][0],
            ));
        }
        Ok(())
    }
}

} // verus!
