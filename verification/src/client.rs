//! One reporting client, and the triple it submits.
//!
//! A client holds one measurement for one epoch. It samples randomness —
//! locally, as a pseudorandom function of measurement and epoch, or
//! obliviously, by querying the randomness server — and derives from it two
//! separate values: a dealing seed, which stays with the client, and the
//! grouping tag, which travels. It secret-shares the measurement (with any
//! auxiliary payload) under its threshold with that seed, so reports of one
//! measurement deal the same polynomials while their tags reveal nothing of
//! the coefficients. The triple it emits carries the tag, one share, and
//! the epoch.

use vstd::prelude::*;
use sha2::Digest;
use crate::errors::Error;
use crate::field::{copy_bytes, le_val};
use crate::oprf::{is_point_encoding, RandomnessServer};
use crate::share::{poly_eval, Share, ShareV};
use crate::sharks::{chunk, secret_ok, seeded_poly, Sharks};

verus! {

/// The digest of the outside hash function, a function of the input bytes
/// alone.
pub uninterp spec fn sha256_of(input: Seq<u8>) -> Seq<u8>;

/// The output of the oblivious protocol's finalization step, a function of
/// the input, the metadata tag and the unblinded point alone.
pub uninterp spec fn finalize_of(input: Seq<u8>, md: u8, point: Seq<u8>) -> Seq<u8>;

/// Relies on sha2::Sha256: a 32-byte digest determined by the input bytes.
#[verifier::external_body]
fn sha256(input: &Vec<u8>) -> (r: Vec<u8>)
    ensures
        r@ == sha256_of(input@),
        r@.len() == 32,
{
    sha2::Sha256::digest(&input[..]).to_vec()
}

/// Relies on ppoprf::ppoprf::Client::blind: the input hashed to a curve
/// point and masked by a fresh random blinding scalar; both come back
/// compressed to 32 bytes. Nothing is stated about which values: the mask
/// is random.
#[verifier::external_body]
fn oprf_blind(input: &Vec<u8>) -> (r: (Vec<u8>, Vec<u8>))
    ensures
        r.0@.len() == 32 && is_point_encoding(r.0@),
        r.1@.len() == 32,
{
    let (point, mask) = ppoprf::ppoprf::Client::blind(&input[..]);
    let mask_scalar: curve25519_dalek::scalar::Scalar = mask.into();
    (point.as_bytes().to_vec(), mask_scalar.to_bytes().to_vec())
}

/// Relies on ppoprf::ppoprf::Client::unblind: the evaluated point with the
/// blinding mask taken off, again a compressed point.
#[verifier::external_body]
fn oprf_unblind(point: &Vec<u8>, mask: &Vec<u8>) -> (r: Vec<u8>)
    requires
        point@.len() == 32,
        is_point_encoding(point@),
        mask@.len() == 32,
    ensures
        r@.len() == 32,
{
    let p = ppoprf::ppoprf::Point::from(&point[..]);
    let mut bytes = [0u8; 32];
    bytes.copy_from_slice(&mask[..]);
    let m = ppoprf::ppoprf::CurveScalar::from(bytes);
    ppoprf::ppoprf::Client::unblind(&p, &m).as_bytes().to_vec()
}

/// Relies on ppoprf::ppoprf::Client::finalize: a 32-byte hash of input,
/// metadata tag and unblinded point, determined by those three alone.
#[verifier::external_body]
fn oprf_finalize(input: &Vec<u8>, md: u8, unblinded: &Vec<u8>) -> (r: Vec<u8>)
    requires
        unblinded@.len() == 32,
    ensures
        r@ == finalize_of(input@, md, unblinded@),
        r@.len() == 32,
{
    let p = ppoprf::ppoprf::Point::from(&unblinded[..]);
    let mut out = vec![0u8; 32];
    ppoprf::ppoprf::Client::finalize(&input[..], md, &p, &mut out);
    out
}

/// What the local randomness strategy hashes: the measurement with the
/// epoch tag appended (the epoch is one fixed byte, so the framing is
/// unambiguous).
pub open spec fn local_tag_input(measurement: Seq<u8>, epoch: u8) -> Seq<u8> {
    measurement.push(epoch)
}

/// The secret a client shares: its measurement, then any auxiliary payload.
pub open spec fn client_secret(c: Client) -> Seq<u8> {
    c.measurement@ + match c.aux {
        Option::Some(a) => a@,
        Option::None => Seq::empty(),
    }
}

/// One share hides one secret under threshold `t`: per chunk there is a
/// polynomial of `t` coefficients whose constant term is the chunk, and the
/// share's entries are those polynomials' values at the share's point.
pub open spec fn share_of_secret(s: ShareV, secret: Seq<u8>, t: int) -> bool {
    &&& s.y.len() == secret.len() / 32
    &&& exists|cs: Seq<Seq<int>>|
        {
            &&& cs.len() == secret.len() / 32
            &&& (forall|j: int| 0 <= j < cs.len()
                ==> (#[trigger] cs[j]).len() == t && cs[j][0] == le_val(chunk(secret, j)))
            &&& (forall|j: int| 0 <= j < cs.len() ==> s.y[j] == poly_eval(#[trigger] cs[j], s.x))
        }
}

/// The dealing seed derived from the sampled randomness. It is
/// domain-separated from the transmitted tag, so a triple's tag reveals
/// nothing of the polynomial coefficients it seeds.
pub open spec fn seed_of(rnd: Seq<u8>) -> Seq<u8> {
    sha256_of(rnd.push(0u8))
}

/// The grouping tag derived from the sampled randomness: what a triple
/// transmits. Reports with equal randomness collide on it.
pub open spec fn tag_of(rnd: Seq<u8>) -> Seq<u8> {
    sha256_of(rnd.push(1u8))
}

/// Derive one labelled value from the sampled randomness.
fn derive_from_randomness(rnd: &Vec<u8>, label: u8) -> (r: Vec<u8>)
    ensures
        r@ == sha256_of(rnd@.push(label)),
        r@.len() == 32,
{
    let mut input = copy_bytes(rnd);
    input.push(label);
    sha256(&input)
}

/// One reporting client's configuration for one epoch.
pub struct Client {
    /// The private measurement being reported.
    pub measurement: Vec<u8>,
    /// How many clients must agree before the measurement can be learnt.
    pub threshold: u32,
    /// The reporting epoch's tag.
    pub epoch: u8,
    /// An optional auxiliary payload, recovered along with the measurement.
    pub aux: Option<Vec<u8>>,
}

impl Client {
    /// A client holding one measurement.
    pub fn new(measurement: Vec<u8>, threshold: u32, epoch: u8, aux: Option<Vec<u8>>) -> (r:
        Client)
        ensures
            r.measurement == measurement,
            r.threshold == threshold,
            r.epoch == epoch,
            r.aux == aux,
    {
        Client { measurement, threshold, epoch, aux }
    }

    /// The local randomness strategy: the tag is a pseudorandom function of
    /// measurement and epoch, computed entirely client-side.
    pub fn sample_local_randomness(&self) -> (r: Vec<u8>)
        ensures
            r@ == sha256_of(local_tag_input(self.measurement@, self.epoch)),
            r@.len() == 32,
    {
        let mut input = copy_bytes(&self.measurement);
        input.push(self.epoch);
        let r = sha256(&input);
        r
    }

    /// The oblivious randomness strategy: blind the measurement, have the
    /// server evaluate it under this epoch's key, unblind and finalize. A
    /// punctured epoch fails with [`Error::EpochPunctured`] — and only a
    /// punctured one is reported so; under a live, configured epoch the
    /// tag comes back or the service's own failure does. The server never
    /// sees the measurement.
    pub fn sample_oprf_randomness(&self, server: &RandomnessServer) -> (r: Result<Vec<u8>, Error>)
        ensures
            server.punctured_tags().contains(self.epoch) ==> r == Err::<Vec<u8>, Error>(
                Error::EpochPunctured,
            ),
            r == Err::<Vec<u8>, Error>(Error::EpochPunctured)
                ==> server.punctured_tags().contains(self.epoch),
            server.tags().contains(self.epoch) && !server.punctured_tags().contains(self.epoch)
                ==> r is Ok || r == Err::<Vec<u8>, Error>(Error::InvalidEncoding) || r == Err::<
                Vec<u8>,
                Error,
            >(Error::ServiceUnavailable),
            r matches Ok(v) ==> v@.len() == 32 && server.tags().contains(self.epoch)
                && !server.punctured_tags().contains(self.epoch),
    {
        let (blinded, mask) = oprf_blind(&self.measurement);
        let evaluated = match server.eval(&blinded, self.epoch, false) {
            Ok(v) => v,
            Err(e) => {
                return Err(e);
            },
        };
        let unblinded = oprf_unblind(&evaluated, &mask);
        Ok(oprf_finalize(&self.measurement, self.epoch, &unblinded))
    }
}

/// One client's complete report: the grouping tag, one share of the
/// secret-shared measurement, and the epoch it belongs to.
#[derive(Debug)]
pub struct Triple {
    pub tag: Vec<u8>,
    pub share: Share,
    pub epoch: u8,
}

impl Triple {
    /// Generate one report: sample randomness by whichever strategy is
    /// configured, derive from it a dealing seed and the transported tag
    /// (domain-separated, so the tag reveals nothing of the coefficients),
    /// deal `measurement ‖ aux` as the secret with that seed, and emit one
    /// fresh share of it.
    ///
    /// A secret that is not a whole number of valid chunks is refused as
    /// [`Error::InvalidEncoding`]; with an oblivious server, a punctured
    /// epoch fails with [`Error::EpochPunctured`], and only a punctured
    /// one is reported so: under a live, configured epoch and a valid
    /// secret, a report comes out unless the service's own failure is
    /// surfaced.
    pub fn generate(client: &Client, oprf: Option<&RandomnessServer>) -> (r: Result<Triple, Error>)
        requires
            client.threshold >= 1,
            client_secret(*client).len() / 32 < 0x100000000,
        ensures
            r matches Ok(tr) ==> {
                &&& tr.epoch == client.epoch
                &&& tr.tag@.len() == 32
                &&& tr.share.wf()
                &&& share_of_secret(tr.share@, client_secret(*client), client.threshold as int)
                &&& secret_ok(client_secret(*client))
                &&& (oprf is None ==> tr.tag@ == tag_of(
                    sha256_of(local_tag_input(client.measurement@, client.epoch)),
                ))
                &&& (oprf is None ==> forall|j: int| 0 <= j < tr.share@.y.len()
                    ==> tr.share@.y[j] == poly_eval(
                        seeded_poly(
                            seed_of(
                                sha256_of(local_tag_input(client.measurement@, client.epoch)),
                            ),
                            client_secret(*client),
                            client.threshold as int,
                            j,
                        ),
                        tr.share@.x,
                    ))
            },
            oprf is None ==> (r is Ok <==> secret_ok(client_secret(*client))),
            oprf is None && r is Err ==> r == Err::<Triple, Error>(Error::InvalidEncoding),
            oprf matches Some(s) && s.punctured_tags().contains(client.epoch) ==> r == Err::<
                Triple,
                Error,
            >(Error::EpochPunctured),
            r == Err::<Triple, Error>(Error::EpochPunctured) ==> (oprf matches Some(s)
                && s.punctured_tags().contains(client.epoch)),
            (oprf matches Some(s) && s.tags().contains(client.epoch)
                && !s.punctured_tags().contains(client.epoch) && secret_ok(client_secret(*client)))
                ==> r is Ok || r == Err::<Triple, Error>(Error::InvalidEncoding) || r == Err::<
                Triple,
                Error,
            >(Error::ServiceUnavailable),
    {
        let rnd = match oprf {
            Option::None => client.sample_local_randomness(),
            Option::Some(server) => {
                match client.sample_oprf_randomness(server) {
                    Ok(t) => t,
                    Err(e) => {
                        return Err(e);
                    },
                }
            },
        };
        // The seed stays with the dealing; only the tag travels.
        let seed = derive_from_randomness(&rnd, 0u8);
        let tag = derive_from_randomness(&rnd, 1u8);
        let mut secret = copy_bytes(&client.measurement);
        match &client.aux {
            Option::Some(a) => {
                let mut extra = copy_bytes(a);
                secret.append(&mut extra);
            },
            Option::None => {},
        }
        proof {
            assert(secret@ == client_secret(*client));
        }
        let sharks = Sharks(client.threshold);
        let ev = match sharks.dealer_rng(&secret, &seed) {
            Ok(ev) => ev,
            Err(e) => {
                return Err(e);
            },
        };
        let share = ev.gen();
        proof {
            let cs = ev.coeffs();
            assert(share_of_secret(share@, client_secret(*client), client.threshold as int)) by {
                assert(cs.len() == client_secret(*client).len() / 32);
                assert(forall|j: int| 0 <= j < cs.len()
                    ==> (#[trigger] cs[j]).len() == client.threshold
                        && cs[j][0] == le_val(chunk(client_secret(*client), j)));
                assert(forall|j: int| 0 <= j < cs.len()
                    ==> share@.y[j] == poly_eval(#[trigger] cs[j], share@.x));
            }
        }
        Ok(Triple { tag, share, epoch: client.epoch })
    }
}

} // verus!
