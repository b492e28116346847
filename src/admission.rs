//! The decision a request handler acts on.
use vstd::prelude::*;
use vstd::string::*;
use crate::counter::StoreProcessResult;
use crate::identity::RequestIdentifier;
use crate::store::{InMemoryStore, store_step};

verus! {

/// What becomes of one inbound request.
#[derive(Copy, Clone, Debug, PartialEq, Eq, Structural)]
pub enum Admission {
    /// Pass the request on to its upstream.
    Proceed,
    /// The caller could not be identified.
    BadRequest,
    /// No route or backend covers the path.
    NotFound,
    /// The caller has used up its quota for the window.
    TooManyRequests,
}

/// The admission that a store outcome calls for.
pub open spec fn admission_of(o: StoreProcessResult) -> Admission {
    match o {
        StoreProcessResult::Continue => Admission::Proceed,
        StoreProcessResult::NotFound => Admission::NotFound,
        StoreProcessResult::RateLimitExceeded => Admission::TooManyRequests,
    }
}

pub open spec fn status_of(a: Admission) -> u16 {
    match a {
        Admission::Proceed => 200,
        Admission::BadRequest => 400,
        Admission::NotFound => 404,
        Admission::TooManyRequests => 429,
    }
}

pub open spec fn error_of(a: Admission) -> Seq<char> {
    match a {
        Admission::Proceed => Seq::empty(),
        Admission::BadRequest => "Could not identify request origin"@,
        Admission::NotFound => "Requested resource was not found on this server"@,
        Admission::TooManyRequests => "The rate limit has been exceeded"@,
    }
}

pub open spec fn message_of(a: Admission) -> Seq<char> {
    match a {
        Admission::Proceed => Seq::empty(),
        Admission::BadRequest => "No valid authorization token or IP address found"@,
        Admission::NotFound => "The requested resource of route was not found"@,
        Admission::TooManyRequests => "The rate limit has been exceeded for the request identifier"@,
    }
}

impl Admission {
    /// The HTTP status that answers the request; 200 when it proceeds.
    pub fn status_code(&self) -> (r: u16)
        ensures
            r == status_of(*self),
    {
        match self {
            Admission::Proceed => 200,
            Admission::BadRequest => 400,
            Admission::NotFound => 404,
            Admission::TooManyRequests => 429,
        }
    }

    /// The `error` field of a rejection's body; empty when the request proceeds.
    pub fn error_text(&self) -> (r: String)
        ensures
            r@ == error_of(*self),
    {
        match self {
            Admission::Proceed => String::new(),
            Admission::BadRequest => String::from_str("Could not identify request origin"),
            Admission::NotFound => String::from_str("Requested resource was not found on this server"),
            Admission::TooManyRequests => String::from_str("The rate limit has been exceeded"),
        }
    }

    /// The `message` field of a rejection's body; empty when the request proceeds.
    pub fn message_text(&self) -> (r: String)
        ensures
            r@ == message_of(*self),
    {
        match self {
            Admission::Proceed => String::new(),
            Admission::BadRequest => String::from_str("No valid authorization token or IP address found"),
            Admission::NotFound => String::from_str("The requested resource of route was not found"),
            Admission::TooManyRequests => String::from_str(
                "The rate limit has been exceeded for the request identifier",
            ),
        }
    }
}

/// Decides a request for `path` from caller `id` at `now`: an unidentified
/// caller is refused without touching the store; any other is charged
/// against the store, whose outcome gives the decision.
pub fn decide_request(store: &mut InMemoryStore, path: String, id: RequestIdentifier, now: u64) -> (r: Admission)
    requires
        old(store).wf(),
    ensures
        final(store).wf(),
        id@ is NoParse ==> r == Admission::BadRequest && final(store)@ == old(store)@,
        !(id@ is NoParse) ==> {
            let (o, s) = store_step(old(store)@, path@, id@, now);
            r == admission_of(o) && final(store)@ == s
        },
{
    if let RequestIdentifier::NoParse = id {
        return Admission::BadRequest;
    }
    match store.process(path, id, now) {
        StoreProcessResult::Continue => Admission::Proceed,
        StoreProcessResult::NotFound => Admission::NotFound,
        StoreProcessResult::RateLimitExceeded => Admission::TooManyRequests,
    }
}

} // verus!
