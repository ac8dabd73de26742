//! PolyPasswordHasher: a threshold credential store.
//!
//! Stored password hashes are individually useless unless a threshold of
//! correct logins is assembled: each account's hash is masked with one share
//! of a Shamir secret-sharing polynomial over GF(2^8) whose constant terms
//! form a process-wide master secret.

pub mod account;
pub mod crypto;
pub mod error;
pub mod math;
pub mod persist;
pub mod secretshare;

use vstd::prelude::*;

use crate::account::{accounts_wf, Account};
use crate::error::{PPHError, PPHErrorKind, PPHResult};
use crate::math::polynomial;
use crate::secretshare::ShamirSecret;
use vstd::string::StrSliceExecFns;

verus! {

/// The salted hash input: the salt bytes followed by the password's UTF-8
/// bytes.
pub open spec fn salted_input(salt: Seq<u8>, password: Seq<char>) -> Seq<u8> {
    salt + vstd::utf8::encode_utf8(password)
}

/// The 33-byte `passhash` stored for a newly created account: the salted
/// SHA-256 of the password, its first 32 bytes XORed with the evaluations of
/// the first 32 secret polynomials at the account's share coordinate, then
/// the raw hash's last byte in clear for partial verification.
pub open spec fn fresh_passhash(
    coeffs: Seq<Seq<u8>>,
    x: u8,
    salt: Seq<u8>,
    password: Seq<char>,
) -> Seq<u8> {
    let raw = crypto::sha256_of(salted_input(salt, password));
    Seq::new(32, |i: int| raw[i] ^ polynomial::poly_eval_spec(coeffs[i], x)).push(raw[31])
}

/// The candidate share rebuilt from an account and a password attempt: the
/// share coordinate followed by the salted hash XORed back out of the stored
/// mask.  For the correct password this is the share issued at creation,
/// truncated to 32 data bytes.
pub open spec fn candidate_share(acc: Account, password: Seq<char>) -> Seq<u8> {
    seq![acc.sharenumber] + Seq::new(
        32,
        |i: int| crypto::sha256_of(salted_input(acc.salt@, password))[i] ^ acc.passhash@[i],
    )
}

/// The greatest share coordinate among the first `i` accounts, 0 when there
/// are none.
pub open spec fn max_sharenumber(accs: Seq<Account>, i: int) -> int
    decreases i,
{
    if i <= 0 {
        0
    } else {
        let m = max_sharenumber(accs, i - 1);
        if accs[i - 1].sharenumber > m {
            accs[i - 1].sharenumber as int
        } else {
            m
        }
    }
}

/// Some account carries this username.
pub open spec fn username_known(accs: Seq<Account>, username: Seq<char>) -> bool {
    exists|i: int| 0 <= i < accs.len() && accs[i].username@ == username
}

/// The candidate shares gathered from the first `i` accounts for one login:
/// one candidate per account under this username whose share coordinate is
/// not the tombstone 0.
pub open spec fn shares_for_login(
    accs: Seq<Account>,
    username: Seq<char>,
    password: Seq<char>,
    i: int,
) -> Seq<Seq<u8>>
    decreases i,
{
    if i <= 0 {
        Seq::empty()
    } else {
        let prefix = shares_for_login(accs, username, password, i - 1);
        if accs[i - 1].username@ == username && accs[i - 1].sharenumber != 0 {
            prefix.push(candidate_share(accs[i - 1], password))
        } else {
            prefix
        }
    }
}

/// The candidate shares gathered from the first `j` login pairs, in order.
pub open spec fn shares_for_logins(
    accs: Seq<Account>,
    logins: Seq<(String, String)>,
    j: int,
) -> Seq<Seq<u8>>
    decreases j,
{
    if j <= 0 {
        Seq::empty()
    } else {
        shares_for_logins(accs, logins, j - 1) + shares_for_login(
            accs,
            logins[j - 1].0@,
            logins[j - 1].1@,
            accs.len() as int,
        )
    }
}

/// Every login pair names a username on record among the first `j`.
pub open spec fn logins_known(accs: Seq<Account>, logins: Seq<(String, String)>, j: int) -> bool {
    forall|t: int| 0 <= t < j ==> username_known(accs, (#[trigger] logins[t]).0@)
}

/// Law: an account written by `create_account` always verifies against its
/// own password while the vault is unlocked.  For any account whose stored
/// hash is `fresh_passhash` of its salt, its coordinate and the password,
/// the candidate share rebuilt at login time lies on the secret polynomials:
/// the XOR mask cancels and the first 32 share bytes reappear exactly.
pub proof fn lemma_created_account_verifies(
    coeffs: Seq<Seq<u8>>,
    acc: Account,
    password: Seq<char>,
)
    requires
        acc.sharenumber >= 1,
        coeffs.len() >= 32,
        acc.passhash@ == fresh_passhash(coeffs, acc.sharenumber, acc.salt@, password),
    ensures
        ShamirSecret::share_matches(coeffs, candidate_share(acc, password)),
{
    let raw = crypto::sha256_of(salted_input(acc.salt@, password));
    let cand = candidate_share(acc, password);
    assert(cand.len() == 33);
    assert(cand[0] == acc.sharenumber);
    assert forall|t: int| 0 <= t < 32 implies (#[trigger] cand[t + 1])
        == polynomial::poly_eval_spec(coeffs[t], acc.sharenumber) by {
        let r = raw[t];
        let e = polynomial::poly_eval_spec(coeffs[t], acc.sharenumber);
        assert(acc.passhash@[t] == (r ^ e));
        assert(cand[t + 1] == (r ^ (r ^ e)));
        assert((r ^ (r ^ e)) == e) by (bit_vector);
    }
    assert forall|t: int| 0 <= t < cand.len() - 1 implies (#[trigger] cand[t + 1])
        == polynomial::poly_eval_spec(coeffs[t], cand[0]) by {
        assert(cand[t + 1] == polynomial::poly_eval_spec(coeffs[t], acc.sharenumber));
    }
}

/// Every sharenumber among the first `n` accounts is at most the maximum.
proof fn lemma_max_sharenumber(accs: Seq<Account>, i: int, n: int)
    requires
        0 <= i < n,
    ensures
        accs[i].sharenumber <= max_sharenumber(accs, n),
    decreases n,
{
    if i < n - 1 {
        lemma_max_sharenumber(accs, i, n - 1);
    }
}

/// The credential store: a threshold, the account list, the secret-sharing
/// engine, and the locked/unlocked state.  `knownsecret` is true exactly
/// when the engine knows the master secret; only then may accounts be
/// created or committed.
#[derive(Debug)]
pub struct PolyPasswordHasher {
    threshold: u8,
    accounts: Vec<Account>,
    shamirsecretobj: ShamirSecret,
    knownsecret: bool,
    saltsize: u8,
    partialbytes: u8,
    nextavailableshare: u16,
}

impl PolyPasswordHasher {
    /// The `(k, n)` threshold.
    pub closed spec fn spec_threshold(&self) -> u8 {
        self.threshold
    }

    /// The stored accounts, in creation order.
    pub closed spec fn spec_accounts(&self) -> Seq<Account> {
        self.accounts@
    }

    /// The secret-sharing engine.
    pub closed spec fn spec_shamir(&self) -> ShamirSecret {
        self.shamirsecretobj
    }

    /// Whether the vault may create accounts and commit: fresh and unlocked
    /// vaults can, vaults loaded from disk cannot until `unlock_database`.
    pub closed spec fn spec_unlocked(&self) -> bool {
        self.knownsecret
    }

    /// The next share coordinate to issue, between 1 and 256.
    pub closed spec fn spec_next_share(&self) -> int {
        self.nextavailableshare as int
    }

    /// The vault invariant: a non-trivial threshold, a well-formed engine on
    /// the same threshold that knows its secret exactly when the vault is
    /// unlocked (a secret of at least 32 bytes), well-shaped accounts whose
    /// share coordinates all lie below the next coordinate to issue, and a
    /// bounded account count (the reader refuses files beyond a million
    /// entries, so ids stay well within `i64`).
    pub closed spec fn wf(&self) -> bool {
        &&& self.threshold >= 2
        &&& self.saltsize == 16
        &&& self.partialbytes == 1
        &&& self.shamirsecretobj.wf()
        &&& self.shamirsecretobj.threshold == self.threshold
        &&& (self.knownsecret <==> self.shamirsecretobj.has_secret())
        &&& (self.knownsecret ==> self.shamirsecretobj.coeffs().len() >= 32)
        &&& 1 <= self.nextavailableshare <= 256
        &&& accounts_wf(self.accounts@)
        &&& forall|i: int|
            0 <= i < self.accounts@.len() ==> (#[trigger] self.accounts@[i]).sharenumber
                < self.nextavailableshare
        &&& self.accounts@.len() <= 1000000 + self.nextavailableshare
    }

    /// Whether the account accepts this password in the vault's current
    /// mode.  Unlocked: the candidate share rebuilt from the stored mask
    /// must lie on the secret polynomials (an exact check).  Locked: the
    /// clear trailing byte of the stored hash must match the salted hash of
    /// the attempt (partial verification, one byte's worth of confidence).
    pub open spec fn login_matches(
        acc: Account,
        password: Seq<char>,
        shamir: ShamirSecret,
        unlocked: bool,
    ) -> bool {
        if unlocked {
            ShamirSecret::share_matches(shamir.coeffs(), candidate_share(acc, password))
        } else {
            crypto::sha256_of(salted_input(acc.salt@, password))[31] == acc.passhash@[32]
        }
    }

    /// XOR of two equal-length byte vectors.
    fn do_bytearray_xor(a: Vec<u8>, b: Vec<u8>) -> (r: Vec<u8>)
        requires
            a@.len() == b@.len(),
        ensures
            r@ == Seq::new(a@.len(), |i: int| a@[i] ^ b@[i]),
    {
        let mut result: Vec<u8> = Vec::new();
        let mut position: usize = 0;
        while position < a.len()
            invariant
                a@.len() == b@.len(),
                position <= a@.len(),
                result@.len() == position,
                forall|k: int| 0 <= k < position ==> result@[k] == (a@[k] ^ b@[k]),
            decreases a@.len() - position,
        {
            result.push(a[position] ^ b[position]);
            position = position + 1;
        }
        proof {
            assert(result@ =~= Seq::new(a@.len(), |i: int| a@[i] ^ b@[i]));
        }
        result
    }

    /// The salt followed by the password bytes, ready for hashing.
    fn salted_password(salt: &Vec<u8>, password: &String) -> (r: Vec<u8>)
        ensures
            r@ == salted_input(salt@, password@),
    {
        let mut v: Vec<u8> = Vec::new();
        let mut i: usize = 0;
        while i < salt.len()
            invariant
                i <= salt@.len(),
                v@.len() == i,
                forall|k: int| 0 <= k < i ==> v@[k] == salt@[k],
            decreases salt@.len() - i,
        {
            v.push(salt[i]);
            i = i + 1;
        }
        let pb = password.as_str().as_bytes_vec();
        let mut j: usize = 0;
        while j < pb.len()
            invariant
                j <= pb@.len(),
                v@.len() == salt@.len() + j,
                forall|k: int| 0 <= k < salt@.len() ==> v@[k] == salt@[k],
                forall|k: int| 0 <= k < j ==> v@[salt@.len() + k] == pb@[k],
            decreases pb@.len() - j,
        {
            v.push(pb[j]);
            j = j + 1;
        }
        proof {
            assert(v@ =~= salted_input(salt@, password@));
        }
        v
    }

    /// The candidate share for an account and a password attempt.
    fn build_candidate(acc: &Account, password: &String) -> (r: Vec<u8>)
        requires
            acc.passhash@.len() == 33,
        ensures
            r@ == candidate_share(*acc, password@),
    {
        let sp = Self::salted_password(&acc.salt, password);
        let raw = crypto::sha256(&sp);
        let mut prefix: Vec<u8> = Vec::new();
        let mut i: usize = 0;
        while i < 32
            invariant
                i <= 32,
                acc.passhash@.len() == 33,
                prefix@.len() == i,
                forall|k: int| 0 <= k < i ==> prefix@[k] == acc.passhash@[k],
            decreases 32 - i,
        {
            prefix.push(acc.passhash[i]);
            i = i + 1;
        }
        let body = Self::do_bytearray_xor(raw, prefix);
        let mut cand: Vec<u8> = Vec::new();
        cand.push(acc.sharenumber);
        let mut j: usize = 0;
        while j < body.len()
            invariant
                j <= body@.len(),
                cand@.len() == j + 1,
                cand@[0] == acc.sharenumber,
                forall|k: int| 0 <= k < j ==> cand@[k + 1] == body@[k],
            decreases body@.len() - j,
        {
            cand.push(body[j]);
            j = j + 1;
        }
        proof {
            let spec_cand = candidate_share(*acc, password@);
            assert forall|m: int| 0 <= m < cand@.len() implies cand@[m] == spec_cand[m] by {
                if m > 0 {
                    assert(cand@[(m - 1) + 1] == body@[m - 1]);
                }
            }
            assert(cand@ =~= spec_cand);
        }
        cand
    }

    /// Creates a vault.  Without a password file: a fresh, unlocked vault
    /// whose 256-byte master secret is drawn from the random source.  With
    /// one (the file's bytes): the accounts are read back and the vault
    /// starts locked, the next share coordinate following the largest one on
    /// record; an unreadable file is a `SerError`.  `partialbytes`, when
    /// given, must be 1, the one value the 33-byte stored format supports.
    pub fn new(threshold: u8, passwordfile: Option<Vec<u8>>, partialbytes: Option<u8>) -> (r:
        PPHResult<Self>)
        requires
            threshold >= 2,
        ensures
            (partialbytes matches Some(p) && p != 1) ==> (r matches Err(e) && e.kind
                == PPHErrorKind::AuthError),
            (partialbytes matches Some(p) ==> p == 1) ==> (match passwordfile {
                Option::None => (r matches Ok(v) && {
                    &&& v.wf()
                    &&& v.spec_threshold() == threshold
                    &&& v.spec_unlocked()
                    &&& v.spec_accounts().len() == 0
                    &&& v.spec_next_share() == 1
                    &&& v.spec_shamir().coeffs().len() == 256
                }),
                Option::Some(bytes) => {
                    &&& (r matches Ok(v) ==> {
                        &&& v.wf()
                        &&& v.spec_threshold() == threshold
                        &&& !v.spec_unlocked()
                        &&& persist::spec_serialize(v.spec_accounts()) == bytes@
                        &&& v.spec_next_share() == max_sharenumber(
                            v.spec_accounts(),
                            v.spec_accounts().len() as int,
                        ) + 1
                    })
                    &&& (r matches Err(e) ==> e.kind == PPHErrorKind::SerError)
                    &&& (r is Ok <==> exists|accs0: Seq<Account>|
                        accounts_wf(accs0) && accs0.len() <= 1000000 && bytes@
                            == persist::spec_serialize(accs0))
                },
            }),
    {
        crypto::crypto_init();
        match partialbytes {
            Option::Some(p) => {
                if p != 1 {
                    return Err(
                        PPHError::new(
                            PPHErrorKind::AuthError,
                            "the stored format supports exactly one partial byte",
                        ),
                    );
                }
            },
            Option::None => {},
        }
        match passwordfile {
            Option::None => {
                let buffer = crypto::random_bytes(256);
                let shamirsecretobj = ShamirSecret::new(threshold, Option::Some(buffer));
                Ok(
                    PolyPasswordHasher {
                        threshold,
                        accounts: Vec::new(),
                        shamirsecretobj,
                        knownsecret: true,
                        saltsize: 16,
                        partialbytes: 1,
                        nextavailableshare: 1,
                    },
                )
            },
            Option::Some(bytes) => {
                let ghost w: Option<Seq<Account>> = if exists|accs0: Seq<Account>|
                    accounts_wf(accs0) && accs0.len() <= 1000000 && bytes@ == persist::spec_serialize(
                        accs0,
                    ) {
                    Some(
                        choose|accs0: Seq<Account>|
                            accounts_wf(accs0) && accs0.len() <= 1000000 && bytes@
                                == persist::spec_serialize(accs0),
                    )
                } else {
                    None
                };
                let accounts = match persist::parse_accounts(&bytes, Ghost(w)) {
                    Ok(a) => a,
                    Err(e) => {
                        return Err(e);
                    },
                };
                let shamirsecretobj = ShamirSecret::new(threshold, Option::None);
                let mut nextavailableshare: u16 = 1;
                let mut i: usize = 0;
                while i < accounts.len()
                    invariant
                        i <= accounts@.len(),
                        nextavailableshare == max_sharenumber(accounts@, i as int) + 1,
                        1 <= nextavailableshare <= 256,
                    decreases accounts@.len() - i,
                {
                    if accounts[i].sharenumber as u16 + 1 > nextavailableshare {
                        nextavailableshare = accounts[i].sharenumber as u16 + 1;
                    }
                    i = i + 1;
                }
                let v = PolyPasswordHasher {
                    threshold,
                    accounts,
                    shamirsecretobj,
                    knownsecret: false,
                    saltsize: 16,
                    partialbytes: 1,
                    nextavailableshare,
                };
                proof {
                    assert(accounts_wf(v.accounts@) && v.accounts@.len() <= 1000000 && bytes@
                        == persist::spec_serialize(v.accounts@));
                    assert forall|k: int|
                        0 <= k < v.accounts@.len() implies (
                    #[trigger] v.accounts@[k]).sharenumber < v.nextavailableshare by {
                        lemma_max_sharenumber(v.accounts@, k, v.accounts@.len() as int);
                    }
                }
                Ok(v)
            },
        }
    }

    /// Serializes the account list for persistence.  Refused with an
    /// `AuthError` while the vault is locked, and with a `ShardError` when
    /// fewer distinct shares than the threshold have been issued: such a
    /// file could never be unlocked again.
    pub fn commit(&self) -> (r: PPHResult<Vec<u8>>)
        requires
            self.wf(),
        ensures
            !self.spec_unlocked() ==> (r matches Err(e) && e.kind == PPHErrorKind::AuthError),
            self.spec_unlocked() && self.spec_threshold() >= self.spec_next_share() ==> (
            r matches Err(e) && e.kind == PPHErrorKind::ShardError),
            self.spec_unlocked() && self.spec_threshold() < self.spec_next_share() ==> (
            r matches Ok(bytes) && bytes@ == persist::spec_serialize(self.spec_accounts())),
    {
        if !self.knownsecret {
            return Err(PPHError::new(PPHErrorKind::AuthError, "password file is locked"));
        }
        if self.threshold as u16 >= self.nextavailableshare {
            return Err(
                PPHError::new(PPHErrorKind::ShardError, "must have more shares in order to write"),
            );
        }
        Ok(persist::serialize_accounts(&self.accounts))
    }

    /// Creates a new user with `shares` accounts, one per issued share
    /// coordinate.  Each account gets a fresh 16-byte salt and a `passhash`
    /// masking the salted password hash with that account's share.  Refused
    /// with an `AuthError` when the username already exists, the vault is
    /// locked, no share is requested, or fewer than `shares` coordinates
    /// remain; a refused call leaves the vault unchanged, a successful one
    /// inserts all `shares` records and advances the share counter.
    pub fn create_account(&mut self, username: String, password: String, shares: u8) -> (r:
        PPHResult<()>)
        requires
            old(self).wf(),
        ensures
            final(self).wf(),
            ({
                let ok = old(self).spec_unlocked() && shares >= 1 && old(self).spec_next_share()
                    + shares <= 256 && !username_known(old(self).spec_accounts(), username@);
                &&& (r is Ok <==> ok)
                &&& (r matches Err(e) ==> e.kind == PPHErrorKind::AuthError && *final(self)
                    == *old(self))
                &&& (ok ==> {
                    let n0 = old(self).spec_accounts().len() as int;
                    &&& final(self).spec_threshold() == old(self).spec_threshold()
                    &&& final(self).spec_shamir() == old(self).spec_shamir()
                    &&& final(self).spec_unlocked()
                    &&& final(self).spec_next_share() == old(self).spec_next_share() + shares
                    &&& final(self).spec_accounts().len() == n0 + shares
                    &&& final(self).spec_accounts().take(n0) == old(self).spec_accounts()
                    &&& forall|j: int|
                        0 <= j < shares ==> {
                            let acc = #[trigger] final(self).spec_accounts()[n0 + j];
                            &&& acc.username@ == username@
                            &&& acc.sharenumber == old(self).spec_next_share() + j
                            &&& acc.salt@.len() == 16
                            &&& acc.passhash@ == fresh_passhash(
                                old(self).spec_shamir().coeffs(),
                                acc.sharenumber,
                                acc.salt@,
                                password@,
                            )
                        }
                })
            }),
    {
        let mut taken = false;
        let mut i: usize = 0;
        while i < self.accounts.len()
            invariant
                i <= self.accounts@.len(),
                *self == *old(self),
                !taken ==> forall|k: int|
                    0 <= k < i ==> (#[trigger] self.accounts@[k]).username@ != username@,
                taken ==> username_known(self.accounts@, username@),
            decreases self.accounts@.len() - i,
        {
            if self.accounts[i].username == username {
                taken = true;
                proof {
                    assert(self.accounts@[i as int].username@ == username@);
                }
            }
            i = i + 1;
        }
        if taken {
            return Err(
                PPHError::new(PPHErrorKind::AuthError, "username already exists in database"),
            );
        }
        proof {
            assert(!username_known(self.accounts@, username@)) by {
                if username_known(self.accounts@, username@) {
                    let w = choose|w: int|
                        0 <= w < self.accounts@.len() && self.accounts@[w].username@ == username@;
                    assert(self.accounts@[w].username@ != username@);
                    assert(false);
                }
            }
        }
        if !self.knownsecret {
            return Err(PPHError::new(PPHErrorKind::AuthError, "password file is locked"));
        }
        if shares < 1 {
            return Err(
                PPHError::new(PPHErrorKind::AuthError, "at least one share must be requested"),
            );
        }
        if 256 - self.nextavailableshare < shares as u16 {
            return Err(PPHError::new(PPHErrorKind::AuthError, "share space exhausted"));
        }
        let n0 = self.accounts.len();
        let mut j: u8 = 0;
        while j < shares
            invariant
                j <= shares,
                old(self).wf(),
                old(self).spec_unlocked(),
                shares >= 1,
                old(self).spec_next_share() + shares <= 256,
                self.threshold == old(self).threshold,
                self.shamirsecretobj == old(self).shamirsecretobj,
                self.knownsecret == old(self).knownsecret,
                self.saltsize == old(self).saltsize,
                self.partialbytes == old(self).partialbytes,
                self.nextavailableshare == old(self).nextavailableshare,
                n0 == old(self).spec_accounts().len(),
                self.accounts@.len() == n0 + j,
                self.accounts@.take(n0 as int) == old(self).spec_accounts(),
                accounts_wf(self.accounts@),
                forall|u: int|
                    0 <= u < j ==> {
                        let acc = #[trigger] self.accounts@[n0 + u];
                        &&& acc.username@ == username@
                        &&& acc.sharenumber == old(self).spec_next_share() + u
                        &&& acc.salt@.len() == 16
                        &&& acc.passhash@ == fresh_passhash(
                            old(self).spec_shamir().coeffs(),
                            acc.sharenumber,
                            acc.salt@,
                            password@,
                        )
                    },
            decreases shares - j,
        {
            let x: u16 = self.nextavailableshare + (j as u16);
            let share = match self.shamirsecretobj.compute_share(x as u8) {
                Ok(s) => s,
                Err(e) => {
                    proof {
                        assert(false);
                    }
                    return Err(e);
                },
            };
            proof {
                assert(share@.len() == 1 + self.shamirsecretobj.coeffs().len());
            }
            let salt = crypto::random_bytes(16);
            let sp = Self::salted_password(&salt, &password);
            let raw = crypto::sha256(&sp);
            let mut passhash: Vec<u8> = Vec::new();
            let mut b: usize = 0;
            while b < 32
                invariant
                    b <= 32,
                    raw@.len() == 32,
                    share@.len() >= 33,
                    passhash@.len() == b,
                    forall|k: int| 0 <= k < b ==> (#[trigger] passhash@[k]) == (raw@[k] ^ share@[k
                        + 1]),
                decreases 32 - b,
            {
                passhash.push(raw[b] ^ share[1 + b]);
                b = b + 1;
            }
            passhash.push(raw[31]);
            proof {
                let coeffs = old(self).spec_shamir().coeffs();
                let target = fresh_passhash(coeffs, x as u8, salt@, password@);
                assert forall|m: int| 0 <= m < passhash@.len() implies passhash@[m]
                    == target[m] by {
                    if m < 32 {
                        assert(passhash@[m] == (raw@[m] ^ share@[m + 1]));
                        assert(share@[m + 1] == polynomial::poly_eval_spec(coeffs[m], x as u8));
                    }
                }
                assert(passhash@ =~= target);
            }
            let id = (self.accounts.len() as i64) + 1;
            let ghost before = self.accounts@;
            let acc = Account {
                id,
                username: username.clone(),
                salt,
                sharenumber: x as u8,
                passhash,
            };
            self.accounts.push(acc);
            proof {
                assert(self.accounts@.take(n0 as int) =~= before.take(n0 as int));
                assert(accounts_wf(self.accounts@)) by {
                    assert forall|t: int| 0 <= t < self.accounts@.len() implies {
                        &&& (#[trigger] self.accounts@[t]).id == t + 1
                        &&& self.accounts@[t].salt@.len() == 16
                        &&& self.accounts@[t].passhash@.len() == 33
                    } by {
                        if t < self.accounts@.len() - 1 {
                            assert(self.accounts@[t] == before[t]);
                            assert(accounts_wf(before));
                            assert(before[t].id == t + 1);
                        }
                    }
                }
            }
            j = j + 1;
        }
        self.nextavailableshare = self.nextavailableshare + (shares as u16);
        proof {
            assert forall|t: int|
                0 <= t < self.accounts@.len() implies (#[trigger] self.accounts@[t]).sharenumber
                < self.nextavailableshare by {
                if t < n0 {
                    assert(self.accounts@.take(n0 as int)[t] == self.accounts@[t]);
                    assert(old(self).spec_accounts()[t].sharenumber < old(self).spec_next_share());
                } else {
                    let u = t - n0;
                    assert(self.accounts@[n0 + u].sharenumber == old(self).spec_next_share() + u);
                }
            }
        }
        Ok(())
    }

    /// Whether `username` can authenticate with `password`.  Unknown
    /// usernames are an `AuthError`.  Otherwise the answer is whether any
    /// account under that username accepts the password: exactly (through
    /// its share) when the vault is unlocked, and by the one clear hash
    /// byte (partial verification) while it is locked.
    pub fn is_valid_login(&self, username: String, password: String) -> (r: PPHResult<bool>)
        requires
            self.wf(),
        ensures
            !username_known(self.spec_accounts(), username@) ==> (r matches Err(e) && e.kind
                == PPHErrorKind::AuthError),
            username_known(self.spec_accounts(), username@) ==> (r matches Ok(b) && (b
                <==> exists|k: int|
                0 <= k < self.spec_accounts().len() && (#[trigger] self.spec_accounts()[k]).username@
                    == username@ && Self::login_matches(
                    self.spec_accounts()[k],
                    password@,
                    self.spec_shamir(),
                    self.spec_unlocked(),
                ))),
    {
        let mut found_user = false;
        let mut found_valid = false;
        let mut i: usize = 0;
        while i < self.accounts.len()
            invariant
                i <= self.accounts@.len(),
                self.wf(),
                !found_user ==> forall|k: int|
                    0 <= k < i ==> (#[trigger] self.accounts@[k]).username@ != username@,
                found_user ==> username_known(self.accounts@, username@),
                found_valid ==> exists|k: int|
                    0 <= k < self.accounts@.len() && (#[trigger] self.accounts@[k]).username@
                        == username@ && Self::login_matches(
                        self.accounts@[k],
                        password@,
                        self.shamirsecretobj,
                        self.knownsecret,
                    ),
                !found_valid ==> forall|k: int|
                    0 <= k < i ==> !((#[trigger] self.accounts@[k]).username@ == username@
                        && Self::login_matches(
                        self.accounts@[k],
                        password@,
                        self.shamirsecretobj,
                        self.knownsecret,
                    )),
            decreases self.accounts@.len() - i,
        {
            let acc = &self.accounts[i];
            if acc.username == username {
                found_user = true;
                proof {
                    assert(self.accounts@[i as int].username@ == username@);
                }
                let matches_now: bool;
                if self.knownsecret {
                    let cand = Self::build_candidate(acc, &password);
                    matches_now =
                    match self.shamirsecretobj.is_valid_share(cand) {
                        Ok(valid) => valid,
                        Err(e) => {
                            proof {
                                assert(false);
                            }
                            return Err(e);
                        },
                    };
                } else {
                    let sp = Self::salted_password(&acc.salt, &password);
                    let raw = crypto::sha256(&sp);
                    matches_now = raw[31] == acc.passhash[32];
                }
                proof {
                    assert(matches_now == Self::login_matches(
                        self.accounts@[i as int],
                        password@,
                        self.shamirsecretobj,
                        self.knownsecret,
                    ));
                }
                if matches_now {
                    found_valid = true;
                }
            }
            i = i + 1;
        }
        if !found_user {
            proof {
                assert(!username_known(self.accounts@, username@)) by {
                    if username_known(self.accounts@, username@) {
                        let w = choose|w: int|
                            0 <= w < self.accounts@.len() && self.accounts@[w].username@
                                == username@;
                        assert(self.accounts@[w].username@ != username@);
                        assert(false);
                    }
                }
            }
            return Err(PPHError::new(PPHErrorKind::AuthError, "username is not known to database"));
        }
        proof {
            if !found_valid {
                assert forall|k: int|
                    0 <= k < self.accounts@.len() implies !((
                #[trigger] self.accounts@[k]).username@ == username@ && Self::login_matches(
                    self.accounts@[k],
                    password@,
                    self.shamirsecretobj,
                    self.knownsecret,
                )) by {}
            }
        }
        Ok(found_valid)
    }

    /// Unlocks a vault loaded from disk by presenting username/password
    /// pairs.  Each pair contributes one candidate share per account under
    /// that username (tombstone coordinates are skipped); the candidates are
    /// handed to the secret-sharing engine for recovery.  An already
    /// unlocked vault, an unknown username, or a candidate set the engine
    /// rejects is a `ShardError` that leaves the vault unchanged.  The
    /// engine only checks the candidates' shape: enough wrong but
    /// well-formed passwords reconstruct a wrong secret without complaint,
    /// after which no stored password verifies.
    pub fn unlock_database(&mut self, logindata: Vec<(String, String)>) -> (r: PPHResult<()>)
        requires
            old(self).wf(),
        ensures
            final(self).wf(),
            old(self).spec_unlocked() ==> (r matches Err(e) && e.kind == PPHErrorKind::ShardError
                && *final(self) == *old(self)),
            !old(self).spec_unlocked() && !logins_known(
                old(self).spec_accounts(),
                logindata@,
                logindata@.len() as int,
            ) ==> (r matches Err(e) && e.kind == PPHErrorKind::ShardError && *final(self) == *old(
                self,
            )),
            !old(self).spec_unlocked() && logins_known(
                old(self).spec_accounts(),
                logindata@,
                logindata@.len() as int,
            ) ==> ({
                let cands = shares_for_logins(
                    old(self).spec_accounts(),
                    logindata@,
                    logindata@.len() as int,
                );
                let d = secretshare::dedup_shares(cands);
                let k = old(self).spec_threshold() as int;
                &&& (r is Ok <==> d.len() >= k && secretshare::shares_uniform(d)
                    && secretshare::xs_distinct(d))
                &&& (r matches Err(e) ==> e.kind == PPHErrorKind::ShardError && *final(self)
                    == *old(self))
                &&& (r is Ok ==> {
                    &&& final(self).spec_threshold() == old(self).spec_threshold()
                    &&& final(self).spec_accounts() == old(self).spec_accounts()
                    &&& final(self).spec_next_share() == old(self).spec_next_share()
                    &&& final(self).spec_unlocked()
                    &&& final(self).spec_shamir().coeffs() == secretshare::recovered_coeffs(k, d)
                })
            }),
    {
        if self.knownsecret {
            return Err(PPHError::new(PPHErrorKind::ShardError, "password file is already unlocked"));
        }
        let mut sharelist: Vec<Vec<u8>> = Vec::new();
        let mut t: usize = 0;
        while t < logindata.len()
            invariant
                t <= logindata@.len(),
                *self == *old(self),
                old(self).wf(),
                !self.knownsecret,
                logins_known(self.accounts@, logindata@, t as int),
                secretshare::share_views(sharelist@) == shares_for_logins(
                    self.accounts@,
                    logindata@,
                    t as int,
                ),
                forall|m: int| 0 <= m < sharelist@.len() ==> (#[trigger] sharelist@[m]@).len()
                    == 33,
            decreases logindata@.len() - t,
        {
            let pair = &logindata[t];
            let mut found = false;
            let mut i: usize = 0;
            while i < self.accounts.len()
                invariant
                    i <= self.accounts@.len(),
                    *self == *old(self),
                    old(self).wf(),
                    t < logindata@.len(),
                    pair == logindata@[t as int],
                    !found ==> forall|k: int|
                        0 <= k < i ==> (#[trigger] self.accounts@[k]).username@ != pair.0@,
                    found ==> username_known(self.accounts@, pair.0@),
                decreases self.accounts@.len() - i,
            {
                if self.accounts[i].username == pair.0 {
                    found = true;
                    proof {
                        assert(self.accounts@[i as int].username@ == pair.0@);
                    }
                }
                i = i + 1;
            }
            if !found {
                proof {
                    assert(!username_known(self.accounts@, pair.0@)) by {
                        if username_known(self.accounts@, pair.0@) {
                            let w = choose|w: int|
                                0 <= w < self.accounts@.len() && self.accounts@[w].username@
                                    == pair.0@;
                            assert(self.accounts@[w].username@ != pair.0@);
                            assert(false);
                        }
                    }
                    assert(!logins_known(
                        self.accounts@,
                        logindata@,
                        logindata@.len() as int,
                    )) by {
                        if logins_known(self.accounts@, logindata@, logindata@.len() as int) {
                            assert(username_known(self.accounts@, logindata@[t as int].0@));
                            assert(false);
                        }
                    }
                }
                return Err(
                    PPHError::new(PPHErrorKind::ShardError, "username is unknown to database"),
                );
            }
            let mut i: usize = 0;
            proof {
                assert(shares_for_login(self.accounts@, pair.0@, pair.1@, 0) =~= Seq::<
                    Seq<u8>,
                >::empty());
                assert(secretshare::share_views(sharelist@) =~= shares_for_logins(
                    self.accounts@,
                    logindata@,
                    t as int,
                ) + shares_for_login(self.accounts@, pair.0@, pair.1@, 0));
            }
            while i < self.accounts.len()
                invariant
                    i <= self.accounts@.len(),
                    *self == *old(self),
                    old(self).wf(),
                    t < logindata@.len(),
                    pair == logindata@[t as int],
                    secretshare::share_views(sharelist@) == shares_for_logins(
                        self.accounts@,
                        logindata@,
                        t as int,
                    ) + shares_for_login(self.accounts@, pair.0@, pair.1@, i as int),
                    forall|m: int| 0 <= m < sharelist@.len() ==> (#[trigger] sharelist@[m]@).len()
                        == 33,
                decreases self.accounts@.len() - i,
            {
                let ghost prev = sharelist@;
                let acc = &self.accounts[i];
                if acc.username == pair.0 && acc.sharenumber != 0 {
                    proof {
                        assert(accounts_wf(self.accounts@));
                        assert(self.accounts@[i as int].passhash@.len() == 33);
                    }
                    let cand = Self::build_candidate(acc, &pair.1);
                    proof {
                        assert(cand@.len() == 33);
                    }
                    sharelist.push(cand);
                    proof {
                        assert(secretshare::share_views(sharelist@) =~= secretshare::share_views(
                            prev,
                        ).push(candidate_share(self.accounts@[i as int], pair.1@)));
                    }
                }
                i = i + 1;
            }
            proof {
                assert(shares_for_logins(self.accounts@, logindata@, t + 1)
                    == shares_for_logins(self.accounts@, logindata@, t as int) + shares_for_login(
                    self.accounts@,
                    logindata@[t as int].0@,
                    logindata@[t as int].1@,
                    self.accounts@.len() as int,
                ));
            }
            t = t + 1;
        }
        let ghost cands = shares_for_logins(
            self.accounts@,
            logindata@,
            logindata@.len() as int,
        );
        let ghost cand_views = secretshare::share_views(sharelist@);
        proof {
            assert(cand_views == cands);
            assert(forall|m: int|
                0 <= m < cand_views.len() ==> (#[trigger] cand_views[m]).len() == 33);
        }
        let res = self.shamirsecretobj.recover_secretdata(sharelist);
        match res {
            Ok(_) => {
                self.knownsecret = true;
                proof {
                    let d = secretshare::dedup_shares(cands);
                    secretshare::lemma_dedup_subset(cands);
                    assert(d.len() >= old(self).spec_threshold());
                    assert(cands.contains(d[0]));
                    let w = choose|w: int| 0 <= w < cands.len() && cands[w] == d[0];
                    assert(cand_views[w].len() == 33);
                    assert(d[0].len() == 33);
                }
                Ok(())
            },
            Err(e) => {
                proof {
                    assert(*self == *old(self));
                }
                Err(e)
            },
        }
    }
}

} // verus!
