//! Errors of the operator.

use std::num::ParseIntError;
use std::str::ParseBoolError;
use vstd::prelude::*;

verus! {

/// Everything that can go wrong while turning cluster resources into load
/// balancer settings.
#[derive(Debug)]
pub enum RobotLBError {
    /// A node selector could not be parsed; holds the selector text.
    InvalidNodeFilter(String),
    /// An annotation that should hold an integer does not.
    InvalidIntegerValue(ParseIntError),
    /// An annotation that should hold a boolean does not.
    InvalidBooleanValue(ParseBoolError),
    /// The balancing algorithm is neither `round-robin` nor `least-connections`.
    UnknownLBAlgorithm,
    /// The service is not handled by this operator.
    SkipService,
    /// The gateway is not handled by this operator.
    SkipGateway,
    /// A route names no parent gateway at all.
    RouteWithoutParentRefs,
    /// A call to the Hetzner Cloud API failed; holds the message.
    HCloudError(String),
    /// A call to the Kubernetes API failed; holds the message.
    KubeError(String),
}

/// The result of the operator's fallible steps.
pub type RobotLBResult<T> = Result<T, RobotLBError>;

} // verus!
