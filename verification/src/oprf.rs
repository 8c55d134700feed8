//! The puncturable oblivious randomness service.
//!
//! The evaluation itself is the outside service's work, reached through the
//! trusted wrappers below. What this module verifies is the key's
//! lifecycle: which metadata tags the server was created for, which have
//! been punctured, and that an evaluation under a punctured tag fails
//! closed — never silently succeeds — whatever the service would answer.

use vstd::prelude::*;
use crate::errors::Error;

verus! {

#[verifier::external_type_specification]
#[verifier::external_body]
pub struct ExPpoprfServer(ppoprf::ppoprf::Server);

/// Whether a byte string is a well-formed encoding of a curve point, as the
/// outside curve library judges it.
pub uninterp spec fn is_point_encoding(s: Seq<u8>) -> bool;

/// Relies on ppoprf::ppoprf::Server::new: a fresh server instance keyed for
/// the given metadata tags. Whatever goes wrong is surfaced as the service
/// being unavailable.
#[verifier::external_body]
fn server_new(mds: Vec<u8>) -> (r: Result<ppoprf::ppoprf::Server, Error>)
    ensures
        r matches Err(e) ==> e == Error::ServiceUnavailable,
{
    ppoprf::ppoprf::Server::new(mds).map_err(|_| Error::ServiceUnavailable)
}

/// Relies on ppoprf::ppoprf::Server::eval: the PRF value at the given
/// compressed point under the tag's key, itself a compressed point. The
/// `verifiable` flag asks the service to attach a proof of correct
/// evaluation; the proof is not carried across this interface.
#[verifier::external_body]
fn server_eval(
    s: &ppoprf::ppoprf::Server,
    point: &Vec<u8>,
    md: u8,
    verifiable: bool,
) -> (r: Result<Vec<u8>, Error>)
    requires
        point@.len() == 32,
    ensures
        r matches Ok(v) ==> v@.len() == 32 && is_point_encoding(v@),
        r matches Err(e) ==> e == Error::InvalidEncoding || e == Error::ServiceUnavailable,
{
    let p = ppoprf::ppoprf::Point::from(&point[..]);
    match s.eval(&p, md, verifiable) {
        Ok(ev) => Ok(ev.output.as_bytes().to_vec()),
        Err(ppoprf::PPRFError::BadPointEncoding) => Err(Error::InvalidEncoding),
        Err(_) => Err(Error::ServiceUnavailable),
    }
}

/// Relies on ppoprf::ppoprf::Server::puncture: it irreversibly removes the
/// tag's key from the server's puncturable PRF. Whatever goes wrong is
/// surfaced as the service being unavailable.
#[verifier::external_body]
fn server_puncture(s: &mut ppoprf::ppoprf::Server, md: u8) -> (r: Result<(), Error>)
    ensures
        r matches Err(e) ==> e == Error::ServiceUnavailable,
{
    s.puncture(md).map_err(|_| Error::ServiceUnavailable)
}

/// The randomness server: an opaque service handle together with the
/// verified record of its key lifecycle.
pub struct RandomnessServer {
    inner: ppoprf::ppoprf::Server,
    mds: Vec<u8>,
    punctured: Vec<u8>,
}

impl RandomnessServer {
    /// The metadata (epoch) tags the server was created for.
    pub closed spec fn tags(self) -> Seq<u8> {
        self.mds@
    }

    /// The tags whose keys have been punctured.
    pub closed spec fn punctured_tags(self) -> Seq<u8> {
        self.punctured@
    }

    /// Construct a server instance keyed for the given metadata tags, with
    /// nothing punctured yet; the only failure is the service itself.
    pub fn create(mds: Vec<u8>) -> (r: Result<RandomnessServer, Error>)
        ensures
            r matches Ok(s) ==> s.tags() == mds@ && s.punctured_tags() == Seq::<u8>::empty(),
            r matches Err(e) ==> e == Error::ServiceUnavailable,
    {
        let kept = crate::field::copy_bytes(&mds);
        match server_new(mds) {
            Ok(inner) => Ok(RandomnessServer { inner, mds: kept, punctured: Vec::new() }),
            Err(e) => Err(e),
        }
    }

    /// Evaluate the PRF at a compressed point under the key for `md`.
    ///
    /// A punctured tag fails closed with [`Error::EpochPunctured`] before
    /// the service is consulted — and only a punctured tag is ever reported
    /// so; a tag the server was not created for is
    /// [`Error::ServiceUnavailable`]; an input of the wrong width is
    /// [`Error::InvalidEncoding`]. A live, configured tag with a 32-byte
    /// point is handed to the service, whose answer or mapped failure comes
    /// back unchanged.
    pub fn eval(&self, point: &Vec<u8>, md: u8, verifiable: bool) -> (r: Result<Vec<u8>, Error>)
        ensures
            self.punctured_tags().contains(md) ==> r == Err::<Vec<u8>, Error>(
                Error::EpochPunctured,
            ),
            r == Err::<Vec<u8>, Error>(Error::EpochPunctured) ==> self.punctured_tags().contains(
                md,
            ),
            !self.punctured_tags().contains(md) && self.tags().contains(md) && point@.len() == 32
                ==> r is Ok || r == Err::<Vec<u8>, Error>(Error::InvalidEncoding) || r == Err::<
                Vec<u8>,
                Error,
            >(Error::ServiceUnavailable),
            !self.punctured_tags().contains(md) && !self.tags().contains(md) ==> r == Err::<
                Vec<u8>,
                Error,
            >(Error::ServiceUnavailable),
            !self.punctured_tags().contains(md) && self.tags().contains(md) && point@.len() != 32
                ==> r == Err::<Vec<u8>, Error>(Error::InvalidEncoding),
            r matches Ok(v) ==> v@.len() == 32 && is_point_encoding(v@) && self.tags().contains(md)
                && !self.punctured_tags().contains(md) && point@.len() == 32,
    {
        if contains_u8(&self.punctured, md) {
            return Err(Error::EpochPunctured);
        }
        if !contains_u8(&self.mds, md) {
            return Err(Error::ServiceUnavailable);
        }
        if point.len() != 32 {
            return Err(Error::InvalidEncoding);
        }
        server_eval(&self.inner, point, md, verifiable)
    }

    /// Irreversibly remove the key for `md`: later evaluations under it
    /// fail, whatever the service holds. Only an already-punctured tag is
    /// refused as [`Error::EpochPunctured`]; a live, configured tag is
    /// punctured or the service's failure is surfaced.
    pub fn puncture(&mut self, md: u8) -> (r: Result<(), Error>)
        ensures
            final(self).tags() == old(self).tags(),
            old(self).punctured_tags().contains(md) ==> r == Err::<(), Error>(
                Error::EpochPunctured,
            ) && final(self).punctured_tags() == old(self).punctured_tags(),
            r == Err::<(), Error>(Error::EpochPunctured) ==> old(self).punctured_tags().contains(
                md,
            ),
            !old(self).punctured_tags().contains(md) && old(self).tags().contains(md) ==> r is Ok
                || r == Err::<(), Error>(Error::ServiceUnavailable),
            !old(self).punctured_tags().contains(md) && !old(self).tags().contains(md) ==> r
                == Err::<(), Error>(Error::ServiceUnavailable) && final(self).punctured_tags()
                == old(self).punctured_tags(),
            r is Ok ==> final(self).punctured_tags() == old(self).punctured_tags().push(md)
                && final(self).punctured_tags().contains(md),
            r is Err ==> final(self).punctured_tags() == old(self).punctured_tags(),
    {
        if contains_u8(&self.punctured, md) {
            return Err(Error::EpochPunctured);
        }
        if !contains_u8(&self.mds, md) {
            return Err(Error::ServiceUnavailable);
        }
        match server_puncture(&mut self.inner, md) {
            Ok(()) => {
                self.punctured.push(md);
                proof {
                    assert(self.punctured@.last() == md);
                    assert(self.punctured@.contains(md));
                }
                Ok(())
            },
            Err(e) => Err(e),
        }
    }
}

/// Does the byte string hold this value?
fn contains_u8(v: &Vec<u8>, x: u8) -> (r: bool)
    ensures
        r <==> v@.contains(x),
{
    let mut i: usize = 0;
    while i < v.len()
        invariant
            i <= v@.len(),
            forall|k: int| 0 <= k < i ==> v@[k] != x,
        decreases v@.len() - i,
    {
        if v[i] == x {
            return true;
        }
        i += 1;
    }
    false
}

} // verus!
