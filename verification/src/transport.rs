//! The transport error that requests and subscriptions end in.
use alloy::transports::TransportError;
use vstd::prelude::*;

verus! {

/// Declares `alloy`'s RPC error. A value of it is carried through and never looked into.
#[verifier::external_type_specification]
#[verifier::external_body]
#[verifier::reject_recursive_types(E)]
#[verifier::reject_recursive_types(ErrResp)]
pub struct ExRpcError<E, ErrResp>(alloy::transports::RpcError<E, ErrResp>);

/// Declares the kind of failure that a transport error of `alloy` wraps.
#[verifier::external_type_specification]
#[verifier::external_body]
pub struct ExTransportErrorKind(alloy::transports::TransportErrorKind);

/// Declares the raw JSON text that a server's error response carries.
#[verifier::external_type_specification]
#[verifier::external_body]
pub struct ExRawValue(serde_json::value::RawValue);

/// The error that `RpcError::local_usage_str` makes of a message.
pub uninterp spec fn local_usage_error(message: Seq<char>) -> TransportError;

/// Calls `alloy`'s `RpcError::local_usage_str`, which wraps the message in the
/// `LocalUsageError` variant. The contract claims that the error is determined by the
/// message alone. What the error prints is left unsaid: the error type is opaque here.
#[verifier::external_body]
pub(crate) fn local_usage_str(message: &str) -> (error: TransportError)
    ensures
        error == local_usage_error(message@),
{
    TransportError::local_usage_str(message)
}

} // verus!
