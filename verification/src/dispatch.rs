//! What the listener decides for each datagram and for each error.

use crate::cache::{cache_response, cache_update, Cache};
use crate::dns::buf::BUF_LEN;
use vstd::prelude::*;

verus! {

/// How many exchanges with a UDP upstream may run at the same time.
pub const UDP_PERMITS: usize = 64;

/// Why a receive on the listening socket has failed.
#[derive(Clone, Copy, Debug, PartialEq, Eq, Structural)]
pub enum RecvError {
    ConnectionRefused,
    ConnectionAborted,
    ConnectionReset,
    Other,
}

/// Whether the listener goes on after a receive has failed with `e`: it
/// does where a peer has refused, aborted or reset, and ends on every other
/// error.
pub fn connection_error(e: RecvError) -> (r: bool)
    ensures
        r == (e == RecvError::ConnectionRefused || e == RecvError::ConnectionAborted || e
            == RecvError::ConnectionReset),
{
    match e {
        RecvError::ConnectionRefused => true,
        RecvError::ConnectionAborted => true,
        RecvError::ConnectionReset => true,
        RecvError::Other => false,
    }
}

/// How a round of attempts goes on after one of them.
#[derive(Debug, PartialEq, Eq)]
pub enum Round<T, E> {
    /// The attempt has succeeded: the round is over and this is its result.
    Won(T),
    /// The attempt has failed: the next one follows, and this failure is
    /// the result of the round where none is left.
    Next(E),
}

/// Takes the outcome of one attempt in a round, such as binding one of the
/// listen addresses or connecting to one of the upstreams. The first
/// success wins; a failure is kept until the next attempt ends, so that the
/// last failure stands for a round without success.
pub fn after_try<T, E>(outcome: Result<T, E>) -> (r: Round<T, E>)
    ensures
        r == match outcome {
            Ok(won) => Round::<T, E>::Won(won),
            Err(failed) => Round::<T, E>::Next(failed),
        },
{
    match outcome {
        Ok(won) => Round::Won(won),
        Err(failed) => Round::Next(failed),
    }
}

/// What is to be done with a datagram.
#[derive(Debug, PartialEq, Eq)]
pub enum EitherBuf {
    /// The cache has answered: these bytes go back to the client.
    Cache(Vec<u8>),
    /// The request goes to the upstream as it came.
    Req(Vec<u8>),
}

/// Consults the cache for the request in `buf` at `now`: the response of
/// the cache where it gives one, and the request itself where it does not.
pub fn forward(cache: &Cache, buf: &mut [u8], now: u64) -> (r: EitherBuf)
    requires
        cache.wf(),
    ensures
        final(buf)@ == old(buf)@,
        match cache_response(cache@, old(buf)@, now) {
            Some(bytes) => r matches EitherBuf::Cache(hit) && hit@ == bytes,
            None => r matches EitherBuf::Req(request) && request@ == old(buf)@,
        },
        r matches EitherBuf::Cache(hit) ==> hit@.len() <= BUF_LEN,
{
    match cache.get(buf, now) {
        Some(hit) => EitherBuf::Cache(hit),
        None => {
            EitherBuf::Req(vstd::slice::slice_to_vec(buf))
        },
    }
}

/// Takes what the upstream has answered at `now`: the cache is handed the
/// response, and the response goes back to the client as it came.
pub fn answered(cache: &mut Cache, res: Vec<u8>, now: u64) -> (r: Vec<u8>)
    requires
        old(cache).wf(),
    ensures
        final(cache).wf(),
        r@ == res@,
        final(cache)@ == cache_update(old(cache)@, res@, now),
{
    let mut res = res;
    cache.set(res.as_mut_slice(), now);
    res
}

} // verus!
