//! The error taxonomy: client-visible rejections, missing resources, method
//! guards, and internal failures.

use vstd::prelude::*;

verus! {

/// The machine-usable reason carried by a `BadRequest` rejection.
#[derive(PartialEq, Eq, Structural, Clone, Copy, Debug)]
pub enum BadReason {
    MissingId,
    MissingType,
    UnknownType,
    InvalidObject,
    ObjectNotFound,
    InvalidTarget,
    TargetNotFound,
    NotACollection,
    OriginNotACollection,
    NoItems,
    InvalidOrigin,
    OriginNotFound,
    NameNotString,
    BadUrl,
}

/// An error surfaced by the library.
#[derive(PartialEq, Eq, Structural, Clone, Copy, Debug)]
pub enum Error {
    /// Malformed or unprocessable input, with a short reason.
    BadRequest(BadReason),
    /// Dereference of a nonexistent (or not-yet-existing-at-that-time) identity.
    NotFound,
    /// Wrong method on a content-negotiated route.
    MethodNotAllowed,
    /// Storage or codec failure, or a shape invariant broken upstream.
    Internal,
    /// A dispatch target that exists but carries no semantics yet.
    Unimplemented,
}

impl BadReason {
    /// The short client-facing message for this reason.
    pub fn message(&self) -> (r: &'static str)
        ensures
            r@.len() > 0,
    {
        let m: &'static str = match self {
            BadReason::MissingId => "`id` is missing",
            BadReason::MissingType => "missing `type`",
            BadReason::UnknownType => "unrecognized activity type",
            BadReason::InvalidObject => "invalid `object`",
            BadReason::ObjectNotFound => "`object` not found",
            BadReason::InvalidTarget => "invalid `target`",
            BadReason::TargetNotFound => "`target` not found",
            BadReason::NotACollection => "`target` must be a collection",
            BadReason::OriginNotACollection => "`origin` must be a collection",
            BadReason::NoItems => "collection carries no direct `items`",
            BadReason::InvalidOrigin => "invalid `origin`",
            BadReason::OriginNotFound => "`origin` not found",
            BadReason::NameNotString => "`name` must be string",
            BadReason::BadUrl => "Found bad URL",
        };
        proof {
            reveal_strlit("`id` is missing");
            reveal_strlit("missing `type`");
            reveal_strlit("unrecognized activity type");
            reveal_strlit("invalid `object`");
            reveal_strlit("`object` not found");
            reveal_strlit("invalid `target`");
            reveal_strlit("`target` not found");
            reveal_strlit("`target` must be a collection");
            reveal_strlit("`origin` must be a collection");
            reveal_strlit("collection carries no direct `items`");
            reveal_strlit("invalid `origin`");
            reveal_strlit("`origin` not found");
            reveal_strlit("`name` must be string");
            reveal_strlit("Found bad URL");
        }
        m
    }
}

} // verus!
