//! The coordinator's pure decisions: token allocation, per-download
//! state, the transfer-negotiation step, and the reconnection backoff.
//! The surrounding program performs the socket work and feeds events
//! back into these functions.

use vstd::prelude::*;

use crate::constants::{ConnectionType, TransferDirection, TransferRejectionReason};
use crate::peer::PeerMessage;
use crate::server::ServerResponse;

verus! {

/// The monotonic token counter shared by searches and transfers. It
/// starts at 1: peers use token 0 for direct, unpierced connections.
pub struct TokenCounter {
    next: u32,
}

impl TokenCounter {
    pub closed spec fn current(&self) -> u32 {
        self.next
    }

    pub fn new() -> (r: TokenCounter)
        ensures
            r.current() == 1,
    {
        TokenCounter { next: 1 }
    }

    /// Hands out the current token and advances, wrapping like the
    /// counter it models.
    pub fn next_token(&mut self) -> (r: u32)
        ensures
            r == old(self).current(),
            final(self).current() == (if old(self).current() == u32::MAX {
                0u32
            } else {
                (old(self).current() + 1) as u32
            }),
    {
        let t = self.next;
        if self.next == u32::MAX {
            self.next = 0;
        } else {
            self.next = self.next + 1;
        }
        t
    }
}

/// The state of one download.
#[derive(Debug, Clone)]
pub enum DownloadStatus {
    Queued,
    Connecting,
    Downloading,
    Completed,
    Failed(String),
}

/// One download as the user sees it.
#[derive(Debug, Clone)]
pub struct Download {
    pub id: u32,
    pub username: String,
    pub filename: String,
    pub size: u64,
    pub downloaded: u64,
    pub status: DownloadStatus,
}

/// A user-level command entering the coordinator.
#[derive(Debug, Clone)]
pub enum ClientCommand {
    Search(String),
    BrowseUser(String),
    DownloadFile { username: String, filename: String, size: u64 },
    FetchPlaylist(String),
    SearchPlaylistTrack { track_index: usize, query: String },
    DownloadPlaylistTrack { track_index: usize },
}

/// What the transfer-negotiation dialog does in reaction to one peer
/// message, while waiting for the uploader to open the transfer.
#[derive(Debug, Clone)]
pub enum NegotiationAction {
    /// Reply with an accepting `TransferResponse` carrying this token
    /// and remember it for the file connection; the size, when given,
    /// supersedes the expected one.
    Accept { token: u32, size: Option<u64> },
    /// Report the queue position and keep waiting.
    ReportQueued { place: u32 },
    /// Terminate the download with this reason.
    Fail { reason: TransferRejectionReason },
    /// Terminate the download: the uploader reported a failure.
    FailUpload,
    /// The message does not concern this download; keep waiting.
    Ignore,
}

/// True when the message is an upload-direction transfer request for
/// the named file.
pub open spec fn is_matching_request(m: PeerMessage, filename: Seq<char>) -> bool {
    m is TransferRequest && m->TransferRequest_direction is Upload
        && m->TransferRequest_filename@ == filename
}

/// The transfer-negotiation step: given the file this download asked
/// to queue and one incoming peer message, decide the dialog's next
/// action. A matching `TransferRequest` is accepted; a queue-position
/// report is surfaced; a denial or failure for this file ends the
/// download; everything else is ignored.
pub fn negotiation_step(filename: &String, msg: &PeerMessage) -> (r: NegotiationAction)
    ensures
        match r {
            NegotiationAction::Accept { token, size } => is_matching_request(*msg, filename@)
                && token == msg->TransferRequest_token && size == msg->TransferRequest_file_size,
            NegotiationAction::ReportQueued { place } => msg is PlaceInQueueResponse
                && msg->PlaceInQueueResponse_filename@ == filename@ && place
                == msg->PlaceInQueueResponse_place,
            NegotiationAction::Fail { reason } => msg is UploadDenied
                && msg->UploadDenied_filename@ == filename@ && reason == msg->UploadDenied_reason,
            NegotiationAction::FailUpload => msg is UploadFailed && msg->UploadFailed_filename@
                == filename@,
            NegotiationAction::Ignore => {
                &&& !is_matching_request(*msg, filename@)
                &&& !(msg is PlaceInQueueResponse && msg->PlaceInQueueResponse_filename@
                    == filename@)
                &&& !(msg is UploadDenied && msg->UploadDenied_filename@ == filename@)
                &&& !(msg is UploadFailed && msg->UploadFailed_filename@ == filename@)
            },
        },
{
    match msg {
        PeerMessage::TransferRequest { direction, token, filename: f, file_size } => {
            let is_upload = direction.as_u32() == 1;
            proof {
                assert(is_upload == (msg->TransferRequest_direction is Upload));
            }
            if is_upload && f.eq(filename) {
                proof {
                    assert(msg is TransferRequest);
                    assert(msg->TransferRequest_direction is Upload);
                    assert(msg->TransferRequest_filename@ == filename@);
                    assert(is_matching_request(*msg, filename@));
                    assert(*token == msg->TransferRequest_token);
                    assert(*file_size == msg->TransferRequest_file_size);
                }
                NegotiationAction::Accept { token: *token, size: *file_size }
            } else {
                NegotiationAction::Ignore
            }
        },
        PeerMessage::PlaceInQueueResponse { filename: f, place } => {
            if f.eq(filename) {
                NegotiationAction::ReportQueued { place: *place }
            } else {
                NegotiationAction::Ignore
            }
        },
        PeerMessage::UploadDenied { filename: f, reason } => {
            if f.eq(filename) {
                NegotiationAction::Fail { reason: reason.duplicate() }
            } else {
                NegotiationAction::Ignore
            }
        },
        PeerMessage::UploadFailed { filename: f } => {
            if f.eq(filename) {
                NegotiationAction::FailUpload
            } else {
                NegotiationAction::Ignore
            }
        },
        _ => NegotiationAction::Ignore,
    }
}

/// A finished transfer counts as complete when at least 95% of the
/// expected bytes arrived: peers sometimes close slightly short.
pub fn download_complete(received: u64, expected: u64) -> (r: bool)
    ensures
        r == (received as int * 100 >= expected as int * 95),
{
    (received as u128) * 100 >= (expected as u128) * 95
}

/// The reconnection delay, in seconds: `30 * attempt` after a rate
/// limit or a reset, else exponential from 10 seconds, capped at 60.
pub fn backoff_delay_secs(attempt: u32, rate_limited: bool) -> (r: u64)
    requires
        1 <= attempt,
    ensures
        rate_limited ==> r == 30 * attempt as int,
        !rate_limited ==> r == (if attempt == 1 {
            10int
        } else if attempt == 2 {
            20int
        } else if attempt == 3 {
            40int
        } else {
            60int
        }),
{
    if rate_limited {
        30 * (attempt as u64)
    } else {
        if attempt == 1 {
            10
        } else if attempt == 2 {
            20
        } else if attempt == 3 {
            40
        } else {
            60
        }
    }
}


/// The coordinator's standing state between server events.
pub struct CoordState {
    /// True once a login succeeded.
    pub authenticated: bool,
    /// The port the listener is bound to, advertised after login.
    pub listen_port: u32,
}

/// What the coordinator tells its surroundings to do in reaction to
/// one server event. The surrounding program performs the sends and
/// the dialing.
#[derive(Debug, Clone, PartialEq, Eq, Structural)]
pub enum CoordAction {
    /// Send `SetStatus` with the online status.
    SendSetStatusOnline,
    /// Send `SetWaitPort` advertising this port.
    SendSetWaitPort { port: u32 },
    /// Dial this address and answer with `PierceFirewall` carrying
    /// this token.
    Pierce { ip: crate::protocol::Ipv4Addr, port: u32, token: u32 },
    /// Stop: the server rejected the login, which is fatal.
    AbandonLogin,
}

/// The coordinator's reaction to one server event. A successful login
/// authenticates the session and emits `SetStatus(Online)` then
/// `SetWaitPort(listen_port)`; a rejected login is fatal; a relayed
/// peer-connection push of kind P is answered by piercing at the given
/// address with the given token; every other event changes nothing
/// here and is left to its subscriber.
pub fn coordinator_step(st: &mut CoordState, ev: &ServerResponse) -> (acts: Vec<CoordAction>)
    ensures
        final(st).listen_port == old(st).listen_port,
        match ev {
            ServerResponse::LoginSuccess { .. } => {
                &&& final(st).authenticated
                &&& acts@ =~= seq![
                    CoordAction::SendSetStatusOnline,
                    CoordAction::SendSetWaitPort { port: old(st).listen_port },
                ]
            },
            ServerResponse::LoginFailure { .. } => {
                &&& !final(st).authenticated
                &&& acts@ =~= seq![CoordAction::AbandonLogin]
            },
            ServerResponse::ConnectToPeer { connection_type, ip, port, token, .. } => {
                &&& final(st).authenticated == old(st).authenticated
                &&& (connection_type is Peer ==> acts@ =~= seq![
                    CoordAction::Pierce { ip: *ip, port: *port, token: *token },
                ])
                &&& (!(connection_type is Peer) ==> acts@ =~= Seq::<CoordAction>::empty())
            },
            _ => final(st).authenticated == old(st).authenticated && acts@ =~= Seq::<
                CoordAction,
            >::empty(),
        },
{
    let mut acts: Vec<CoordAction> = Vec::new();
    match ev {
        ServerResponse::LoginSuccess { .. } => {
            st.authenticated = true;
            acts.push(CoordAction::SendSetStatusOnline);
            acts.push(CoordAction::SendSetWaitPort { port: st.listen_port });
        },
        ServerResponse::LoginFailure { .. } => {
            st.authenticated = false;
            acts.push(CoordAction::AbandonLogin);
        },
        ServerResponse::ConnectToPeer { connection_type, ip, port, token, .. } => {
            if matches!(connection_type, ConnectionType::Peer) {
                acts.push(CoordAction::Pierce { ip: *ip, port: *port, token: *token });
            }
        },
        _ => {},
    }
    acts
}

} // verus!
