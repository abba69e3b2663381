//! The connection-shaped transport over real TCP.

use vstd::prelude::*;

verus! {

/// A connection per request, over a real TCP socket. What happens on a
/// connection once it is open is [`super::stream_framing`].
pub struct TcpTransport;

} // verus!
