//! Server message types.
//!
//! Server messages flow on the single long-lived TCP channel to the
//! central server: framed requests from the client, framed responses
//! back. The client encodes requests and decodes responses; the
//! inversion proof is carried for the response kinds listed in
//! `server_round_trip_kind`.

use vstd::prelude::*;
use vstd::bytes::spec_u32_from_le_bytes;
use vstd::utf8::encode_utf8;

use crate::constants::{
    connection_type_chars, lemma_connection_type_ascii, lemma_connection_type_parse,
    lemma_login_rejection_unique, login_rejection_chars, login_rejection_matches,
    obfuscation_type_u32, spec_obfuscation_type_from, spec_parse_connection_type,
    spec_user_status_from, user_status_u32, wf_login_rejection, ConnectionType,
    LoginRejectionReason, ObfuscationType, UserStatus,
};
use crate::protocol::{
    enc_bool, enc_i32, enc_ipv4, enc_str, enc_u16, enc_u32, enc_u64, enc_u8, frame_fits_u32,
    frame_u32, login_hash, login_hash_chars, match_str_at, message_size, prefix_at, read_bool,
    read_i32, read_ipv4, read_rest, read_string, read_u16, read_u32, read_u64, read_u8,
    spec_message_size, split_bool, split_ipv4, split_str, split_u16, split_u32, split_u8,
    str_fits, take_prefix_at, write_bool, write_i32, write_ipv4, write_raw, write_str, write_u16,
    write_u32, write_u8, Error, Ipv4Addr,
};

verus! {

broadcast use crate::protocol::group_enc_facts;

/// Server message codes.
#[derive(Debug, Clone, Copy, PartialEq, Eq, Structural)]
pub enum ServerCode {
    Login,
    SetWaitPort,
    GetPeerAddress,
    WatchUser,
    UnwatchUser,
    GetUserStatus,
    SayChatroom,
    JoinRoom,
    LeaveRoom,
    UserJoinedRoom,
    UserLeftRoom,
    ConnectToPeer,
    MessageUser,
    MessageAcked,
    FileSearch,
    SetStatus,
    ServerPing,
    SharedFoldersFiles,
    GetUserStats,
    Relogged,
    UserSearch,
    InterestAdd,
    InterestRemove,
    GetRecommendations,
    GetGlobalRecommendations,
    GetUserInterests,
    RoomList,
    AdminMessage,
    PrivilegedUsers,
    HaveNoParent,
    ParentMinSpeed,
    ParentSpeedRatio,
    CheckPrivileges,
    EmbeddedMessage,
    AcceptChildren,
    PossibleParents,
    WishlistSearch,
    WishlistInterval,
    GetSimilarUsers,
    GetItemRecommendations,
    GetItemSimilarUsers,
    RoomTickerState,
    RoomTickerAdd,
    RoomTickerRemove,
    RoomTickerSet,
    HatedInterestAdd,
    HatedInterestRemove,
    RoomSearch,
    SendUploadSpeed,
    GivePrivileges,
    BranchLevel,
    BranchRoot,
    ResetDistributed,
    RoomMembers,
    AddRoomMember,
    RemoveRoomMember,
    CancelRoomMembership,
    CancelRoomOwnership,
    RoomMembershipGranted,
    RoomMembershipRevoked,
    EnableRoomInvitations,
    ChangePassword,
    AddRoomOperator,
    RemoveRoomOperator,
    RoomOperatorshipGranted,
    RoomOperatorshipRevoked,
    RoomOperators,
    MessageUsers,
    JoinGlobalRoom,
    LeaveGlobalRoom,
    GlobalRoomMessage,
    ExcludedSearchPhrases,
    CantConnectToPeer,
    CantCreateRoom,
}

pub open spec fn server_code_u32(c: ServerCode) -> u32 {
    match c {
        ServerCode::Login => 1,
        ServerCode::SetWaitPort => 2,
        ServerCode::GetPeerAddress => 3,
        ServerCode::WatchUser => 5,
        ServerCode::UnwatchUser => 6,
        ServerCode::GetUserStatus => 7,
        ServerCode::SayChatroom => 13,
        ServerCode::JoinRoom => 14,
        ServerCode::LeaveRoom => 15,
        ServerCode::UserJoinedRoom => 16,
        ServerCode::UserLeftRoom => 17,
        ServerCode::ConnectToPeer => 18,
        ServerCode::MessageUser => 22,
        ServerCode::MessageAcked => 23,
        ServerCode::FileSearch => 26,
        ServerCode::SetStatus => 28,
        ServerCode::ServerPing => 32,
        ServerCode::SharedFoldersFiles => 35,
        ServerCode::GetUserStats => 36,
        ServerCode::Relogged => 41,
        ServerCode::UserSearch => 42,
        ServerCode::InterestAdd => 51,
        ServerCode::InterestRemove => 52,
        ServerCode::GetRecommendations => 54,
        ServerCode::GetGlobalRecommendations => 56,
        ServerCode::GetUserInterests => 57,
        ServerCode::RoomList => 64,
        ServerCode::AdminMessage => 66,
        ServerCode::PrivilegedUsers => 69,
        ServerCode::HaveNoParent => 71,
        ServerCode::ParentMinSpeed => 83,
        ServerCode::ParentSpeedRatio => 84,
        ServerCode::CheckPrivileges => 92,
        ServerCode::EmbeddedMessage => 93,
        ServerCode::AcceptChildren => 100,
        ServerCode::PossibleParents => 102,
        ServerCode::WishlistSearch => 103,
        ServerCode::WishlistInterval => 104,
        ServerCode::GetSimilarUsers => 110,
        ServerCode::GetItemRecommendations => 111,
        ServerCode::GetItemSimilarUsers => 112,
        ServerCode::RoomTickerState => 113,
        ServerCode::RoomTickerAdd => 114,
        ServerCode::RoomTickerRemove => 115,
        ServerCode::RoomTickerSet => 116,
        ServerCode::HatedInterestAdd => 117,
        ServerCode::HatedInterestRemove => 118,
        ServerCode::RoomSearch => 120,
        ServerCode::SendUploadSpeed => 121,
        ServerCode::GivePrivileges => 123,
        ServerCode::BranchLevel => 126,
        ServerCode::BranchRoot => 127,
        ServerCode::ResetDistributed => 130,
        ServerCode::RoomMembers => 133,
        ServerCode::AddRoomMember => 134,
        ServerCode::RemoveRoomMember => 135,
        ServerCode::CancelRoomMembership => 136,
        ServerCode::CancelRoomOwnership => 137,
        ServerCode::RoomMembershipGranted => 139,
        ServerCode::RoomMembershipRevoked => 140,
        ServerCode::EnableRoomInvitations => 141,
        ServerCode::ChangePassword => 142,
        ServerCode::AddRoomOperator => 143,
        ServerCode::RemoveRoomOperator => 144,
        ServerCode::RoomOperatorshipGranted => 145,
        ServerCode::RoomOperatorshipRevoked => 146,
        ServerCode::RoomOperators => 148,
        ServerCode::MessageUsers => 149,
        ServerCode::JoinGlobalRoom => 150,
        ServerCode::LeaveGlobalRoom => 151,
        ServerCode::GlobalRoomMessage => 152,
        ServerCode::ExcludedSearchPhrases => 160,
        ServerCode::CantConnectToPeer => 1001,
        ServerCode::CantCreateRoom => 1003,
    }
}

pub open spec fn spec_server_code_from(v: u32) -> Option<ServerCode> {
    if v == 1 {
        Some(ServerCode::Login)
    } else if v == 2 {
        Some(ServerCode::SetWaitPort)
    } else if v == 3 {
        Some(ServerCode::GetPeerAddress)
    } else if v == 5 {
        Some(ServerCode::WatchUser)
    } else if v == 6 {
        Some(ServerCode::UnwatchUser)
    } else if v == 7 {
        Some(ServerCode::GetUserStatus)
    } else if v == 13 {
        Some(ServerCode::SayChatroom)
    } else if v == 14 {
        Some(ServerCode::JoinRoom)
    } else if v == 15 {
        Some(ServerCode::LeaveRoom)
    } else if v == 16 {
        Some(ServerCode::UserJoinedRoom)
    } else if v == 17 {
        Some(ServerCode::UserLeftRoom)
    } else if v == 18 {
        Some(ServerCode::ConnectToPeer)
    } else if v == 22 {
        Some(ServerCode::MessageUser)
    } else if v == 23 {
        Some(ServerCode::MessageAcked)
    } else if v == 26 {
        Some(ServerCode::FileSearch)
    } else if v == 28 {
        Some(ServerCode::SetStatus)
    } else if v == 32 {
        Some(ServerCode::ServerPing)
    } else if v == 35 {
        Some(ServerCode::SharedFoldersFiles)
    } else if v == 36 {
        Some(ServerCode::GetUserStats)
    } else if v == 41 {
        Some(ServerCode::Relogged)
    } else if v == 42 {
        Some(ServerCode::UserSearch)
    } else if v == 51 {
        Some(ServerCode::InterestAdd)
    } else if v == 52 {
        Some(ServerCode::InterestRemove)
    } else if v == 54 {
        Some(ServerCode::GetRecommendations)
    } else if v == 56 {
        Some(ServerCode::GetGlobalRecommendations)
    } else if v == 57 {
        Some(ServerCode::GetUserInterests)
    } else if v == 64 {
        Some(ServerCode::RoomList)
    } else if v == 66 {
        Some(ServerCode::AdminMessage)
    } else if v == 69 {
        Some(ServerCode::PrivilegedUsers)
    } else if v == 71 {
        Some(ServerCode::HaveNoParent)
    } else if v == 83 {
        Some(ServerCode::ParentMinSpeed)
    } else if v == 84 {
        Some(ServerCode::ParentSpeedRatio)
    } else if v == 92 {
        Some(ServerCode::CheckPrivileges)
    } else if v == 93 {
        Some(ServerCode::EmbeddedMessage)
    } else if v == 100 {
        Some(ServerCode::AcceptChildren)
    } else if v == 102 {
        Some(ServerCode::PossibleParents)
    } else if v == 103 {
        Some(ServerCode::WishlistSearch)
    } else if v == 104 {
        Some(ServerCode::WishlistInterval)
    } else if v == 110 {
        Some(ServerCode::GetSimilarUsers)
    } else if v == 111 {
        Some(ServerCode::GetItemRecommendations)
    } else if v == 112 {
        Some(ServerCode::GetItemSimilarUsers)
    } else if v == 113 {
        Some(ServerCode::RoomTickerState)
    } else if v == 114 {
        Some(ServerCode::RoomTickerAdd)
    } else if v == 115 {
        Some(ServerCode::RoomTickerRemove)
    } else if v == 116 {
        Some(ServerCode::RoomTickerSet)
    } else if v == 117 {
        Some(ServerCode::HatedInterestAdd)
    } else if v == 118 {
        Some(ServerCode::HatedInterestRemove)
    } else if v == 120 {
        Some(ServerCode::RoomSearch)
    } else if v == 121 {
        Some(ServerCode::SendUploadSpeed)
    } else if v == 123 {
        Some(ServerCode::GivePrivileges)
    } else if v == 126 {
        Some(ServerCode::BranchLevel)
    } else if v == 127 {
        Some(ServerCode::BranchRoot)
    } else if v == 130 {
        Some(ServerCode::ResetDistributed)
    } else if v == 133 {
        Some(ServerCode::RoomMembers)
    } else if v == 134 {
        Some(ServerCode::AddRoomMember)
    } else if v == 135 {
        Some(ServerCode::RemoveRoomMember)
    } else if v == 136 {
        Some(ServerCode::CancelRoomMembership)
    } else if v == 137 {
        Some(ServerCode::CancelRoomOwnership)
    } else if v == 139 {
        Some(ServerCode::RoomMembershipGranted)
    } else if v == 140 {
        Some(ServerCode::RoomMembershipRevoked)
    } else if v == 141 {
        Some(ServerCode::EnableRoomInvitations)
    } else if v == 142 {
        Some(ServerCode::ChangePassword)
    } else if v == 143 {
        Some(ServerCode::AddRoomOperator)
    } else if v == 144 {
        Some(ServerCode::RemoveRoomOperator)
    } else if v == 145 {
        Some(ServerCode::RoomOperatorshipGranted)
    } else if v == 146 {
        Some(ServerCode::RoomOperatorshipRevoked)
    } else if v == 148 {
        Some(ServerCode::RoomOperators)
    } else if v == 149 {
        Some(ServerCode::MessageUsers)
    } else if v == 150 {
        Some(ServerCode::JoinGlobalRoom)
    } else if v == 151 {
        Some(ServerCode::LeaveGlobalRoom)
    } else if v == 152 {
        Some(ServerCode::GlobalRoomMessage)
    } else if v == 160 {
        Some(ServerCode::ExcludedSearchPhrases)
    } else if v == 1001 {
        Some(ServerCode::CantConnectToPeer)
    } else if v == 1003 {
        Some(ServerCode::CantCreateRoom)
    } else {
        None
    }
}

impl ServerCode {
    pub fn as_u32(&self) -> (r: u32)
        ensures
            r == server_code_u32(*self),
    {
        match self {
            ServerCode::Login => 1,
            ServerCode::SetWaitPort => 2,
            ServerCode::GetPeerAddress => 3,
            ServerCode::WatchUser => 5,
            ServerCode::UnwatchUser => 6,
            ServerCode::GetUserStatus => 7,
            ServerCode::SayChatroom => 13,
            ServerCode::JoinRoom => 14,
            ServerCode::LeaveRoom => 15,
            ServerCode::UserJoinedRoom => 16,
            ServerCode::UserLeftRoom => 17,
            ServerCode::ConnectToPeer => 18,
            ServerCode::MessageUser => 22,
            ServerCode::MessageAcked => 23,
            ServerCode::FileSearch => 26,
            ServerCode::SetStatus => 28,
            ServerCode::ServerPing => 32,
            ServerCode::SharedFoldersFiles => 35,
            ServerCode::GetUserStats => 36,
            ServerCode::Relogged => 41,
            ServerCode::UserSearch => 42,
            ServerCode::InterestAdd => 51,
            ServerCode::InterestRemove => 52,
            ServerCode::GetRecommendations => 54,
            ServerCode::GetGlobalRecommendations => 56,
            ServerCode::GetUserInterests => 57,
            ServerCode::RoomList => 64,
            ServerCode::AdminMessage => 66,
            ServerCode::PrivilegedUsers => 69,
            ServerCode::HaveNoParent => 71,
            ServerCode::ParentMinSpeed => 83,
            ServerCode::ParentSpeedRatio => 84,
            ServerCode::CheckPrivileges => 92,
            ServerCode::EmbeddedMessage => 93,
            ServerCode::AcceptChildren => 100,
            ServerCode::PossibleParents => 102,
            ServerCode::WishlistSearch => 103,
            ServerCode::WishlistInterval => 104,
            ServerCode::GetSimilarUsers => 110,
            ServerCode::GetItemRecommendations => 111,
            ServerCode::GetItemSimilarUsers => 112,
            ServerCode::RoomTickerState => 113,
            ServerCode::RoomTickerAdd => 114,
            ServerCode::RoomTickerRemove => 115,
            ServerCode::RoomTickerSet => 116,
            ServerCode::HatedInterestAdd => 117,
            ServerCode::HatedInterestRemove => 118,
            ServerCode::RoomSearch => 120,
            ServerCode::SendUploadSpeed => 121,
            ServerCode::GivePrivileges => 123,
            ServerCode::BranchLevel => 126,
            ServerCode::BranchRoot => 127,
            ServerCode::ResetDistributed => 130,
            ServerCode::RoomMembers => 133,
            ServerCode::AddRoomMember => 134,
            ServerCode::RemoveRoomMember => 135,
            ServerCode::CancelRoomMembership => 136,
            ServerCode::CancelRoomOwnership => 137,
            ServerCode::RoomMembershipGranted => 139,
            ServerCode::RoomMembershipRevoked => 140,
            ServerCode::EnableRoomInvitations => 141,
            ServerCode::ChangePassword => 142,
            ServerCode::AddRoomOperator => 143,
            ServerCode::RemoveRoomOperator => 144,
            ServerCode::RoomOperatorshipGranted => 145,
            ServerCode::RoomOperatorshipRevoked => 146,
            ServerCode::RoomOperators => 148,
            ServerCode::MessageUsers => 149,
            ServerCode::JoinGlobalRoom => 150,
            ServerCode::LeaveGlobalRoom => 151,
            ServerCode::GlobalRoomMessage => 152,
            ServerCode::ExcludedSearchPhrases => 160,
            ServerCode::CantConnectToPeer => 1001,
            ServerCode::CantCreateRoom => 1003,
        }
    }

    pub fn try_from(value: u32) -> (r: Result<ServerCode, Error>)
        ensures
            match r {
                Ok(c) => spec_server_code_from(value) == Some(c),
                Err(e) => spec_server_code_from(value) is None && (e matches
                Error::InvalidMessageCode(v) && v == value),
            },
    {
        if value == 1 {
            Ok(ServerCode::Login)
        } else if value == 2 {
            Ok(ServerCode::SetWaitPort)
        } else if value == 3 {
            Ok(ServerCode::GetPeerAddress)
        } else if value == 5 {
            Ok(ServerCode::WatchUser)
        } else if value == 6 {
            Ok(ServerCode::UnwatchUser)
        } else if value == 7 {
            Ok(ServerCode::GetUserStatus)
        } else if value == 13 {
            Ok(ServerCode::SayChatroom)
        } else if value == 14 {
            Ok(ServerCode::JoinRoom)
        } else if value == 15 {
            Ok(ServerCode::LeaveRoom)
        } else if value == 16 {
            Ok(ServerCode::UserJoinedRoom)
        } else if value == 17 {
            Ok(ServerCode::UserLeftRoom)
        } else if value == 18 {
            Ok(ServerCode::ConnectToPeer)
        } else if value == 22 {
            Ok(ServerCode::MessageUser)
        } else if value == 23 {
            Ok(ServerCode::MessageAcked)
        } else if value == 26 {
            Ok(ServerCode::FileSearch)
        } else if value == 28 {
            Ok(ServerCode::SetStatus)
        } else if value == 32 {
            Ok(ServerCode::ServerPing)
        } else if value == 35 {
            Ok(ServerCode::SharedFoldersFiles)
        } else if value == 36 {
            Ok(ServerCode::GetUserStats)
        } else if value == 41 {
            Ok(ServerCode::Relogged)
        } else if value == 42 {
            Ok(ServerCode::UserSearch)
        } else if value == 51 {
            Ok(ServerCode::InterestAdd)
        } else if value == 52 {
            Ok(ServerCode::InterestRemove)
        } else if value == 54 {
            Ok(ServerCode::GetRecommendations)
        } else if value == 56 {
            Ok(ServerCode::GetGlobalRecommendations)
        } else if value == 57 {
            Ok(ServerCode::GetUserInterests)
        } else if value == 64 {
            Ok(ServerCode::RoomList)
        } else if value == 66 {
            Ok(ServerCode::AdminMessage)
        } else if value == 69 {
            Ok(ServerCode::PrivilegedUsers)
        } else if value == 71 {
            Ok(ServerCode::HaveNoParent)
        } else if value == 83 {
            Ok(ServerCode::ParentMinSpeed)
        } else if value == 84 {
            Ok(ServerCode::ParentSpeedRatio)
        } else if value == 92 {
            Ok(ServerCode::CheckPrivileges)
        } else if value == 93 {
            Ok(ServerCode::EmbeddedMessage)
        } else if value == 100 {
            Ok(ServerCode::AcceptChildren)
        } else if value == 102 {
            Ok(ServerCode::PossibleParents)
        } else if value == 103 {
            Ok(ServerCode::WishlistSearch)
        } else if value == 104 {
            Ok(ServerCode::WishlistInterval)
        } else if value == 110 {
            Ok(ServerCode::GetSimilarUsers)
        } else if value == 111 {
            Ok(ServerCode::GetItemRecommendations)
        } else if value == 112 {
            Ok(ServerCode::GetItemSimilarUsers)
        } else if value == 113 {
            Ok(ServerCode::RoomTickerState)
        } else if value == 114 {
            Ok(ServerCode::RoomTickerAdd)
        } else if value == 115 {
            Ok(ServerCode::RoomTickerRemove)
        } else if value == 116 {
            Ok(ServerCode::RoomTickerSet)
        } else if value == 117 {
            Ok(ServerCode::HatedInterestAdd)
        } else if value == 118 {
            Ok(ServerCode::HatedInterestRemove)
        } else if value == 120 {
            Ok(ServerCode::RoomSearch)
        } else if value == 121 {
            Ok(ServerCode::SendUploadSpeed)
        } else if value == 123 {
            Ok(ServerCode::GivePrivileges)
        } else if value == 126 {
            Ok(ServerCode::BranchLevel)
        } else if value == 127 {
            Ok(ServerCode::BranchRoot)
        } else if value == 130 {
            Ok(ServerCode::ResetDistributed)
        } else if value == 133 {
            Ok(ServerCode::RoomMembers)
        } else if value == 134 {
            Ok(ServerCode::AddRoomMember)
        } else if value == 135 {
            Ok(ServerCode::RemoveRoomMember)
        } else if value == 136 {
            Ok(ServerCode::CancelRoomMembership)
        } else if value == 137 {
            Ok(ServerCode::CancelRoomOwnership)
        } else if value == 139 {
            Ok(ServerCode::RoomMembershipGranted)
        } else if value == 140 {
            Ok(ServerCode::RoomMembershipRevoked)
        } else if value == 141 {
            Ok(ServerCode::EnableRoomInvitations)
        } else if value == 142 {
            Ok(ServerCode::ChangePassword)
        } else if value == 143 {
            Ok(ServerCode::AddRoomOperator)
        } else if value == 144 {
            Ok(ServerCode::RemoveRoomOperator)
        } else if value == 145 {
            Ok(ServerCode::RoomOperatorshipGranted)
        } else if value == 146 {
            Ok(ServerCode::RoomOperatorshipRevoked)
        } else if value == 148 {
            Ok(ServerCode::RoomOperators)
        } else if value == 149 {
            Ok(ServerCode::MessageUsers)
        } else if value == 150 {
            Ok(ServerCode::JoinGlobalRoom)
        } else if value == 151 {
            Ok(ServerCode::LeaveGlobalRoom)
        } else if value == 152 {
            Ok(ServerCode::GlobalRoomMessage)
        } else if value == 160 {
            Ok(ServerCode::ExcludedSearchPhrases)
        } else if value == 1001 {
            Ok(ServerCode::CantConnectToPeer)
        } else if value == 1003 {
            Ok(ServerCode::CantCreateRoom)
        } else {
            Err(Error::InvalidMessageCode(value))
        }
    }
}

/// User statistics.
#[derive(Debug, Clone, Copy, PartialEq, Eq, Structural)]
pub struct UserStats {
    pub avg_speed: u32,
    pub upload_num: u32,
    pub unknown: u32,
    pub files: u32,
    pub dirs: u32,
}

pub open spec fn enc_stats(s: UserStats) -> Seq<u8> {
    enc_u32(s.avg_speed) + (enc_u32(s.upload_num) + (enc_u32(s.unknown) + (enc_u32(s.files)
        + enc_u32(s.dirs))))
}

/// Splits a user-statistics encoding at offset `j` into its fields.
pub proof fn stats_parts(data: Seq<u8>, j: int, s: UserStats)
    requires
        prefix_at(data, j, enc_stats(s)),
    ensures
        j + 20 <= data.len(),
        data.subrange(j, j + 4) == enc_u32(s.avg_speed),
        data.subrange(j + 4, j + 8) == enc_u32(s.upload_num),
        data.subrange(j + 8, j + 12) == enc_u32(s.unknown),
        data.subrange(j + 12, j + 16) == enc_u32(s.files),
        data.subrange(j + 16, j + 20) == enc_u32(s.dirs),
{
    broadcast use crate::protocol::group_enc_facts;

    split_u32(data, j, s.avg_speed, enc_u32(s.upload_num) + (enc_u32(s.unknown) + (enc_u32(
        s.files,
    ) + enc_u32(s.dirs))));
    split_u32(data, j + 4, s.upload_num, enc_u32(s.unknown) + (enc_u32(s.files) + enc_u32(
        s.dirs,
    )));
    split_u32(data, j + 8, s.unknown, enc_u32(s.files) + enc_u32(s.dirs));
    split_u32(data, j + 12, s.files, enc_u32(s.dirs));
}

impl UserStats {
    pub fn read_from(data: &Vec<u8>, pos: &mut usize) -> (r: Result<UserStats, Error>)
        requires
            *old(pos) <= data@.len(),
        ensures
            *old(pos) <= *final(pos) <= data@.len(),
            match r {
                Ok(s) => *final(pos) == *old(pos) + 20 && *old(pos) + 20 <= data@.len()
                    && data@.subrange(*old(pos) as int, *old(pos) + 20) == enc_stats(s),
                Err(_) => *final(pos) == *old(pos),
            },
            forall|s: UserStats|
                #[trigger] prefix_at(data@, *old(pos) as int, enc_stats(s)) ==> (r matches Ok(v)
                    && v == s && *final(pos) == *old(pos) + 20),
    {
        broadcast use crate::protocol::group_enc_facts;

        let ghost start = *pos as int;
        if data.len() - *pos < 20 {
            proof {
                assert forall|s: UserStats| #[trigger] prefix_at(
                    data@,
                    start,
                    enc_stats(s),
                ) implies false by {
                    stats_parts(data@, start, s);
                }
            }
            return Err(Error::BufferUnderflow { needed: 20, available: data.len() - *pos });
        }
        let avg_speed = match read_u32(data, pos) {
            Ok(v) => v,
            Err(e) => {
                proof {
                    assert(false);
                }
                return Err(e);
            },
        };
        let upload_num = match read_u32(data, pos) {
            Ok(v) => v,
            Err(e) => {
                proof {
                    assert(false);
                }
                return Err(e);
            },
        };
        let unknown = match read_u32(data, pos) {
            Ok(v) => v,
            Err(e) => {
                proof {
                    assert(false);
                }
                return Err(e);
            },
        };
        let files = match read_u32(data, pos) {
            Ok(v) => v,
            Err(e) => {
                proof {
                    assert(false);
                }
                return Err(e);
            },
        };
        let dirs = match read_u32(data, pos) {
            Ok(v) => v,
            Err(e) => {
                proof {
                    assert(false);
                }
                return Err(e);
            },
        };
        let s = UserStats { avg_speed, upload_num, unknown, files, dirs };
        proof {
            assert(data@.subrange(start, start + 20) =~= enc_stats(s));
            assert forall|f: UserStats| #[trigger] prefix_at(
                data@,
                start,
                enc_stats(f),
            ) implies s == f by {
                stats_parts(data@, start, f);
            }
        }
        Ok(s)
    }

    pub fn write_to(&self, out: &mut Vec<u8>)
        ensures
            final(out)@ == old(out)@ + enc_stats(*self),
    {
        write_u32(out, self.avg_speed);
        write_u32(out, self.upload_num);
        write_u32(out, self.unknown);
        write_u32(out, self.files);
        write_u32(out, self.dirs);
        proof {
            assert(out@ =~= old(out)@ + enc_stats(*self));
        }
    }
}

/// A user listed in a room.
#[derive(Debug, Clone)]
pub struct RoomUser {
    pub username: String,
    pub status: UserStatus,
    pub stats: UserStats,
    pub slots_full: bool,
    pub country_code: String,
}

/// A possible parent for the distributed network.
#[derive(Debug, Clone)]
pub struct PossibleParent {
    pub username: String,
    pub ip: Ipv4Addr,
    pub port: u32,
}

/// A room ticker entry.
#[derive(Debug, Clone)]
pub struct RoomTicker {
    pub username: String,
    pub ticker: String,
}


// ---------------------------------------------------------------------------
// String lists.
// ---------------------------------------------------------------------------

/// The concatenated encodings of a sequence of strings.
pub open spec fn enc_string_seq(s: Seq<Seq<char>>) -> Seq<u8>
    decreases s.len(),
{
    if s.len() == 0 {
        Seq::empty()
    } else {
        enc_str(s[0]) + enc_string_seq(s.drop_first())
    }
}

/// The wire encoding of a string list: count, then each string.
pub open spec fn enc_string_list(s: Seq<String>) -> Seq<u8> {
    enc_u32(s.len() as u32) + enc_string_seq(s.map_values(|x: String| x@))
}

pub open spec fn wf_string_seq(s: Seq<String>) -> bool {
    forall|i: int| 0 <= i < s.len() ==> str_fits(#[trigger] s[i]@)
}

proof fn lemma_enc_string_seq_snoc(s: Seq<Seq<char>>, i: int)
    requires
        0 <= i < s.len(),
    ensures
        enc_string_seq(s.take(i + 1)) == enc_string_seq(s.take(i)) + enc_str(s[i]),
    decreases i,
{
    if i == 0 {
        assert(s.take(1) =~= seq![s[0]]);
        assert(s.take(1)[0] == s[0]);
        assert(s.take(1).drop_first() =~= Seq::<Seq<char>>::empty());
        assert(s.take(0) =~= Seq::<Seq<char>>::empty());
        assert(enc_string_seq(s.take(1)) == enc_str(s[0]) + enc_string_seq(
            Seq::<Seq<char>>::empty(),
        ));
        assert(enc_str(s[0]) + Seq::<u8>::empty() =~= enc_str(s[0]));
        assert(Seq::<u8>::empty() + enc_str(s[0]) =~= enc_str(s[0]));
    } else {
        lemma_enc_string_seq_snoc(s.drop_first(), i - 1);
        assert(s.take(i + 1).drop_first() =~= s.drop_first().take(i));
        assert(s.take(i).drop_first() =~= s.drop_first().take(i - 1));
        assert(s.take(i + 1)[0] == s[0]);
        assert(s.take(i)[0] == s[0]);
        assert(s.drop_first()[i - 1] == s[i]);
        assert(enc_string_seq(s.take(i + 1)) == enc_str(s[0]) + enc_string_seq(
            s.drop_first().take(i),
        ));
        assert(enc_string_seq(s.take(i)) == enc_str(s[0]) + enc_string_seq(
            s.drop_first().take(i - 1),
        ));
        assert(enc_str(s[0]) + (enc_string_seq(s.drop_first().take(i - 1)) + enc_str(s[i])) =~= (
        enc_str(s[0]) + enc_string_seq(s.drop_first().take(i - 1))) + enc_str(s[i]));
    }
}

/// Appends a string list: a `u32` count, then each string.
pub fn write_string_list(out: &mut Vec<u8>, items: &Vec<String>)
    requires
        items@.len() <= u32::MAX,
        wf_string_seq(items@),
    ensures
        final(out)@ == old(out)@ + enc_string_list(items@),
{
    write_u32(out, items.len() as u32);
    let mut i: usize = 0;
    proof {
        assert(items@.take(0).map_values(|x: String| x@) =~= Seq::<Seq<char>>::empty());
        assert(items@.map_values(|x: String| x@).take(0) =~= Seq::<Seq<char>>::empty());
    }
    while i < items.len()
        invariant
            i <= items@.len() <= u32::MAX,
            wf_string_seq(items@),
            out@ == old(out)@ + enc_u32(items@.len() as u32) + enc_string_seq(
                items@.map_values(|x: String| x@).take(i as int),
            ),
        decreases items@.len() - i,
    {
        write_str(out, items[i].as_str());
        proof {
            lemma_enc_string_seq_snoc(items@.map_values(|x: String| x@), i as int);
        }
        i = i + 1;
    }
    proof {
        assert(items@.map_values(|x: String| x@).take(items@.len() as int) =~= items@.map_values(
            |x: String| x@,
        ));
        assert(out@ =~= old(out)@ + enc_string_list(items@));
    }
}

/// Elementwise view equality of two string vectors.
pub open spec fn string_seq_eq(a: Seq<String>, b: Seq<String>) -> bool {
    a.len() == b.len() && forall|i: int| 0 <= i < a.len() ==> (#[trigger] a[i])@ == (#[trigger] b[i])@
}

/// A string sequence's encoding splits at any index.
pub proof fn lemma_enc_string_seq_split(s: Seq<Seq<char>>, i: int)
    requires
        0 <= i <= s.len(),
    ensures
        enc_string_seq(s) == enc_string_seq(s.take(i)) + enc_string_seq(s.skip(i)),
    decreases i,
{
    if i == 0 {
        assert(s.take(0) =~= Seq::<Seq<char>>::empty());
        assert(s.skip(0) =~= s);
        assert(Seq::<u8>::empty() + enc_string_seq(s) =~= enc_string_seq(s));
    } else {
        lemma_enc_string_seq_split(s, i - 1);
        lemma_enc_string_seq_snoc(s, i - 1);
        assert(s.skip(i - 1)[0] == s[i - 1]);
        assert(s.skip(i - 1).drop_first() =~= s.skip(i));
        assert(enc_string_seq(s.skip(i - 1)) == enc_str(s[i - 1]) + enc_string_seq(s.skip(i)));
        assert((enc_string_seq(s.take(i - 1)) + enc_str(s[i - 1])) + enc_string_seq(s.skip(i))
            =~= enc_string_seq(s.take(i - 1)) + (enc_str(s[i - 1]) + enc_string_seq(s.skip(i))));
    }
}

/// Reads a string list: a `u32` count, then that many strings.
pub fn read_string_list(data: &Vec<u8>, pos: &mut usize) -> (r: Result<Vec<String>, Error>)
    requires
        *old(pos) <= data@.len(),
    ensures
        *old(pos) <= *final(pos) <= data@.len(),
        data@.len() < *old(pos) + 4 ==> (r matches Err(e) && (e matches
        Error::BufferUnderflow { needed: 4, available } && available == data@.len() - *old(
            pos,
        ))),
        match r {
            Ok(v) => {
                &&& wf_string_seq(v@)
                &&& v@.len() <= u32::MAX
                &&& *final(pos) == *old(pos) + enc_string_list(v@).len()
                &&& data@.subrange(*old(pos) as int, *old(pos) + 4) == enc_u32(v@.len() as u32)
                &&& data@.subrange(
                    *old(pos) + 4,
                    *old(pos) + 4 + enc_string_seq(v@.map_values(|x: String| x@)).len(),
                ) == enc_string_seq(v@.map_values(|x: String| x@))
                &&& enc_string_list(v@).len() == 4 + enc_string_seq(
                    v@.map_values(|x: String| x@),
                ).len()
            },
            Err(_) => true,
        },
        forall|s: Seq<String>|
            wf_string_seq(s) && s.len() <= u32::MAX && #[trigger] prefix_at(
                data@,
                *old(pos) as int,
                enc_string_list(s),
            ) ==> (r matches Ok(v) && string_seq_eq(v@, s) && *final(pos) == *old(pos)
                + enc_string_list(s).len()),
{
    broadcast use crate::protocol::group_enc_facts;

    let ghost start = *pos as int;
    let count = match read_u32(data, pos) {
        Ok(v) => v,
        Err(e) => {
            proof {
                assert forall|s: Seq<String>|
                    wf_string_seq(s) && s.len() <= u32::MAX && #[trigger] prefix_at(
                        data@,
                        start,
                        enc_string_list(s),
                    ) implies false by {
                    split_u32(data@, start, s.len() as u32, enc_string_seq(
                        s.map_values(|x: String| x@),
                    ));
                }
            }
            return Err(e);
        },
    };
    let mut items: Vec<String> = Vec::new();
    let mut i: u32 = 0;
    proof {
        assert(enc_string_seq(items@.map_values(|x: String| x@)) =~= Seq::<u8>::empty());
        assert forall|s: Seq<String>|
            wf_string_seq(s) && s.len() <= u32::MAX && #[trigger] prefix_at(
                data@,
                start,
                enc_string_list(s),
            ) implies count == s.len() && enc_string_seq(items@.map_values(|x: String| x@))
            == enc_string_seq(s.map_values(|x: String| x@).take(0)) by {
            split_u32(data@, start, s.len() as u32, enc_string_seq(s.map_values(|x: String| x@)));
            assert(s.map_values(|x: String| x@).take(0) =~= Seq::<Seq<char>>::empty());
        }
    }
    while i < count
        invariant
            start == *old(pos) as int,
            i <= count,
            items@.len() == i,
            wf_string_seq(items@),
            start + 4 <= *pos <= data@.len(),
            *pos == start + 4 + enc_string_seq(items@.map_values(|x: String| x@)).len(),
            data@.subrange(start, start + 4) == enc_u32(count),
            data@.subrange(start + 4, *pos as int) == enc_string_seq(
                items@.map_values(|x: String| x@),
            ),
            forall|s: Seq<String>|
                wf_string_seq(s) && s.len() <= u32::MAX && #[trigger] prefix_at(
                    data@,
                    start,
                    enc_string_list(s),
                ) ==> (count == s.len() && string_seq_eq(items@, s.take(i as int))
                    && enc_string_seq(items@.map_values(|x: String| x@)) == enc_string_seq(
                    s.map_values(|x: String| x@).take(i as int),
                )),
        decreases count - i,
    {
        broadcast use crate::protocol::group_enc_facts;

        proof {
            assert forall|s: Seq<String>|
                wf_string_seq(s) && s.len() <= u32::MAX && #[trigger] prefix_at(
                    data@,
                    start,
                    enc_string_list(s),
                ) implies prefix_at(data@, *pos as int, enc_str(s[i as int]@)) && str_fits(
                s[i as int]@,
            ) by {
                let vs = s.map_values(|x: String| x@);
                split_u32(data@, start, s.len() as u32, enc_string_seq(vs));
                lemma_enc_string_seq_split(vs, i as int);
                take_prefix_at(
                    data@,
                    start + 4,
                    start + 4 + enc_string_seq(vs).len(),
                    enc_string_seq(vs.take(i as int)),
                    enc_string_seq(vs.skip(i as int)),
                );
                assert(vs.skip(i as int)[0] == vs[i as int]);
                assert(enc_string_seq(vs.skip(i as int)) == enc_str(vs[i as int]) + enc_string_seq(
                    vs.skip(i as int).drop_first(),
                ));
                take_prefix_at(
                    data@,
                    start + 4 + enc_string_seq(vs.take(i as int)).len(),
                    start + 4 + enc_string_seq(vs).len(),
                    enc_str(vs[i as int]),
                    enc_string_seq(vs.skip(i as int).drop_first()),
                );
            }
        }
        let ghost items_old = items@;
        let ghost pos_elem = *pos as int;
        let s_elem = match read_string(data, pos) {
            Ok(v) => v,
            Err(e) => {
                proof {
                    assert forall|s: Seq<String>|
                        wf_string_seq(s) && s.len() <= u32::MAX && #[trigger] prefix_at(
                            data@,
                            start,
                            enc_string_list(s),
                        ) implies false by {
                        assert(crate::protocol::str_starts_at(data@, *pos as int));
                    }
                }
                return Err(e);
            },
        };
        items.push(s_elem);
        i = i + 1;
        proof {
            assert(items@ =~= items_old.push(s_elem));
            assert(items@.map_values(|x: String| x@) =~= items_old.map_values(|x: String| x@).push(
                s_elem@,
            ));
            assert(items@.map_values(|x: String| x@).take(items_old.len() as int)
                =~= items_old.map_values(|x: String| x@));
            lemma_enc_string_seq_snoc(items@.map_values(|x: String| x@), items_old.len() as int);
            assert(items@.map_values(|x: String| x@).take(items_old.len() as int + 1)
                =~= items@.map_values(|x: String| x@));
            assert(data@.subrange(start + 4, *pos as int) =~= enc_string_seq(
                items_old.map_values(|x: String| x@),
            ) + enc_str(s_elem@));
            assert(wf_string_seq(items@)) by {
                assert(forall|k: int|
                    0 <= k < items_old.len() ==> #[trigger] items@[k] == items_old[k]);
            }
            assert forall|s: Seq<String>|
                wf_string_seq(s) && s.len() <= u32::MAX && #[trigger] prefix_at(
                    data@,
                    start,
                    enc_string_list(s),
                ) implies string_seq_eq(items@, s.take(i as int)) && enc_string_seq(
                items@.map_values(|x: String| x@),
            ) == enc_string_seq(s.map_values(|x: String| x@).take(i as int)) by {
                let vs = s.map_values(|x: String| x@);
                split_u32(data@, start, s.len() as u32, enc_string_seq(vs));
                lemma_enc_string_seq_split(vs, i - 1);
                take_prefix_at(
                    data@,
                    start + 4,
                    start + 4 + enc_string_seq(vs).len(),
                    enc_string_seq(vs.take(i - 1)),
                    enc_string_seq(vs.skip(i - 1)),
                );
                assert(vs.skip(i - 1)[0] == vs[i - 1]);
                assert(enc_string_seq(vs.skip(i - 1)) == enc_str(vs[i - 1]) + enc_string_seq(
                    vs.skip(i - 1).drop_first(),
                ));
                assert(prefix_at(data@, pos_elem, enc_str(vs[i - 1]) + enc_string_seq(
                    vs.skip(i - 1).drop_first(),
                )));
                split_str(data@, pos_elem, vs[i - 1], enc_string_seq(
                    vs.skip(i - 1).drop_first(),
                ));
                match_str_at(data@, pos_elem, s_elem@, vs[i - 1]);
                lemma_enc_string_seq_split(vs, i as int);
                take_prefix_at(
                    data@,
                    start + 4,
                    start + 4 + enc_string_seq(vs).len(),
                    enc_string_seq(vs.take(i as int)),
                    enc_string_seq(vs.skip(i as int)),
                );
                assert forall|k: int| 0 <= k < i implies (#[trigger] items@[k])@ == (
                #[trigger] s.take(i as int)[k])@ by {
                    if k < i - 1 {
                        assert(items_old[k]@ == s.take(i - 1)[k]@);
                    }
                }
                lemma_enc_string_seq_snoc(vs, i - 1);
                assert(vs.take(i as int) =~= vs.take(i - 1).push(vs[i - 1]));
                assert(enc_string_seq(vs.take(i as int)).len() == enc_string_seq(vs.take(i - 1)).len()
                    + enc_str(vs[i - 1]).len());
                assert(enc_string_seq(items@.map_values(|x: String| x@)) =~= data@.subrange(
                    start + 4,
                    start + 4 + enc_string_seq(vs.take(i as int)).len(),
                ));
            }
        }
    }
    proof {
        assert(count == items@.len() as u32);
        assert forall|s: Seq<String>|
            wf_string_seq(s) && s.len() <= u32::MAX && #[trigger] prefix_at(
                data@,
                start,
                enc_string_list(s),
            ) implies string_seq_eq(items@, s) && *pos == start + enc_string_list(s).len() by {
            assert(s.take(s.len() as int) =~= s);
            assert(s.map_values(|x: String| x@).take(s.len() as int) =~= s.map_values(
                |x: String| x@,
            ));
        }
    }
    Ok(items)
}

// ---------------------------------------------------------------------------
// Requests.
// ---------------------------------------------------------------------------

/// Messages the client sends to the server.
#[derive(Debug, Clone)]
pub enum ServerRequest {
    Login { username: String, password: String, version: u32, minor_version: u32 },
    SetWaitPort { port: u32, obfuscation_type: Option<ObfuscationType>, obfuscated_port: Option<u32> },
    GetPeerAddress { username: String },
    WatchUser { username: String },
    UnwatchUser { username: String },
    GetUserStatus { username: String },
    SayChatroom { room: String, message: String },
    JoinRoom { room: String, private: bool },
    LeaveRoom { room: String },
    ConnectToPeer { token: u32, username: String, connection_type: ConnectionType },
    MessageUser { username: String, message: String },
    MessageAcked { message_id: u32 },
    FileSearch { token: u32, query: String },
    SetStatus { status: UserStatus },
    ServerPing,
    SharedFoldersFiles { dirs: u32, files: u32 },
    GetUserStats { username: String },
    UserSearch { username: String, token: u32, query: String },
    InterestAdd { item: String },
    InterestRemove { item: String },
    GetRecommendations,
    GetGlobalRecommendations,
    GetUserInterests { username: String },
    RoomList,
    HaveNoParent { no_parent: bool },
    CheckPrivileges,
    AcceptChildren { accept: bool },
    WishlistSearch { token: u32, query: String },
    GetSimilarUsers,
    GetItemRecommendations { item: String },
    GetItemSimilarUsers { item: String },
    RoomTickerSet { room: String, ticker: String },
    HatedInterestAdd { item: String },
    HatedInterestRemove { item: String },
    RoomSearch { room: String, token: u32, query: String },
    SendUploadSpeed { speed: u32 },
    GivePrivileges { username: String, days: u32 },
    BranchLevel { level: u32 },
    BranchRoot { root: String },
    AddRoomMember { room: String, username: String },
    RemoveRoomMember { room: String, username: String },
    CancelRoomMembership { room: String },
    CancelRoomOwnership { room: String },
    EnableRoomInvitations { enable: bool },
    ChangePassword { password: String },
    AddRoomOperator { room: String, username: String },
    RemoveRoomOperator { room: String, username: String },
    MessageUsers { usernames: Vec<String>, message: String },
    JoinGlobalRoom,
    LeaveGlobalRoom,
    CantConnectToPeer { token: u32, username: String },
}

pub open spec fn server_req_code(m: ServerRequest) -> ServerCode {
    match m {
        ServerRequest::Login { .. } => ServerCode::Login,
        ServerRequest::SetWaitPort { .. } => ServerCode::SetWaitPort,
        ServerRequest::GetPeerAddress { .. } => ServerCode::GetPeerAddress,
        ServerRequest::WatchUser { .. } => ServerCode::WatchUser,
        ServerRequest::UnwatchUser { .. } => ServerCode::UnwatchUser,
        ServerRequest::GetUserStatus { .. } => ServerCode::GetUserStatus,
        ServerRequest::SayChatroom { .. } => ServerCode::SayChatroom,
        ServerRequest::JoinRoom { .. } => ServerCode::JoinRoom,
        ServerRequest::LeaveRoom { .. } => ServerCode::LeaveRoom,
        ServerRequest::ConnectToPeer { .. } => ServerCode::ConnectToPeer,
        ServerRequest::MessageUser { .. } => ServerCode::MessageUser,
        ServerRequest::MessageAcked { .. } => ServerCode::MessageAcked,
        ServerRequest::FileSearch { .. } => ServerCode::FileSearch,
        ServerRequest::SetStatus { .. } => ServerCode::SetStatus,
        ServerRequest::ServerPing => ServerCode::ServerPing,
        ServerRequest::SharedFoldersFiles { .. } => ServerCode::SharedFoldersFiles,
        ServerRequest::GetUserStats { .. } => ServerCode::GetUserStats,
        ServerRequest::UserSearch { .. } => ServerCode::UserSearch,
        ServerRequest::InterestAdd { .. } => ServerCode::InterestAdd,
        ServerRequest::InterestRemove { .. } => ServerCode::InterestRemove,
        ServerRequest::GetRecommendations => ServerCode::GetRecommendations,
        ServerRequest::GetGlobalRecommendations => ServerCode::GetGlobalRecommendations,
        ServerRequest::GetUserInterests { .. } => ServerCode::GetUserInterests,
        ServerRequest::RoomList => ServerCode::RoomList,
        ServerRequest::HaveNoParent { .. } => ServerCode::HaveNoParent,
        ServerRequest::CheckPrivileges => ServerCode::CheckPrivileges,
        ServerRequest::AcceptChildren { .. } => ServerCode::AcceptChildren,
        ServerRequest::WishlistSearch { .. } => ServerCode::WishlistSearch,
        ServerRequest::GetSimilarUsers => ServerCode::GetSimilarUsers,
        ServerRequest::GetItemRecommendations { .. } => ServerCode::GetItemRecommendations,
        ServerRequest::GetItemSimilarUsers { .. } => ServerCode::GetItemSimilarUsers,
        ServerRequest::RoomTickerSet { .. } => ServerCode::RoomTickerSet,
        ServerRequest::HatedInterestAdd { .. } => ServerCode::HatedInterestAdd,
        ServerRequest::HatedInterestRemove { .. } => ServerCode::HatedInterestRemove,
        ServerRequest::RoomSearch { .. } => ServerCode::RoomSearch,
        ServerRequest::SendUploadSpeed { .. } => ServerCode::SendUploadSpeed,
        ServerRequest::GivePrivileges { .. } => ServerCode::GivePrivileges,
        ServerRequest::BranchLevel { .. } => ServerCode::BranchLevel,
        ServerRequest::BranchRoot { .. } => ServerCode::BranchRoot,
        ServerRequest::AddRoomMember { .. } => ServerCode::AddRoomMember,
        ServerRequest::RemoveRoomMember { .. } => ServerCode::RemoveRoomMember,
        ServerRequest::CancelRoomMembership { .. } => ServerCode::CancelRoomMembership,
        ServerRequest::CancelRoomOwnership { .. } => ServerCode::CancelRoomOwnership,
        ServerRequest::EnableRoomInvitations { .. } => ServerCode::EnableRoomInvitations,
        ServerRequest::ChangePassword { .. } => ServerCode::ChangePassword,
        ServerRequest::AddRoomOperator { .. } => ServerCode::AddRoomOperator,
        ServerRequest::RemoveRoomOperator { .. } => ServerCode::RemoveRoomOperator,
        ServerRequest::MessageUsers { .. } => ServerCode::MessageUsers,
        ServerRequest::JoinGlobalRoom => ServerCode::JoinGlobalRoom,
        ServerRequest::LeaveGlobalRoom => ServerCode::LeaveGlobalRoom,
        ServerRequest::CantConnectToPeer { .. } => ServerCode::CantConnectToPeer,
    }
}

/// Structural bounds that let a request be framed, together with the
/// pairing of the optional obfuscation fields of `SetWaitPort`.
pub open spec fn wf_server_request(m: ServerRequest) -> bool {
    match m {
        ServerRequest::Login { username, password, .. } => str_fits(username@) && str_fits(password@),
        ServerRequest::SetWaitPort { obfuscation_type, obfuscated_port, .. } => (obfuscation_type is Some <==> obfuscated_port is Some),
        ServerRequest::GetPeerAddress { username, .. } => str_fits(username@),
        ServerRequest::WatchUser { username, .. } => str_fits(username@),
        ServerRequest::UnwatchUser { username, .. } => str_fits(username@),
        ServerRequest::GetUserStatus { username, .. } => str_fits(username@),
        ServerRequest::SayChatroom { room, message, .. } => str_fits(room@) && str_fits(message@),
        ServerRequest::JoinRoom { room, .. } => str_fits(room@),
        ServerRequest::LeaveRoom { room, .. } => str_fits(room@),
        ServerRequest::ConnectToPeer { username, .. } => str_fits(username@),
        ServerRequest::MessageUser { username, message, .. } => str_fits(username@) && str_fits(message@),
        ServerRequest::FileSearch { query, .. } => str_fits(query@),
        ServerRequest::GetUserStats { username, .. } => str_fits(username@),
        ServerRequest::UserSearch { username, query, .. } => str_fits(username@) && str_fits(query@),
        ServerRequest::InterestAdd { item, .. } => str_fits(item@),
        ServerRequest::InterestRemove { item, .. } => str_fits(item@),
        ServerRequest::GetUserInterests { username, .. } => str_fits(username@),
        ServerRequest::WishlistSearch { query, .. } => str_fits(query@),
        ServerRequest::GetItemRecommendations { item, .. } => str_fits(item@),
        ServerRequest::GetItemSimilarUsers { item, .. } => str_fits(item@),
        ServerRequest::RoomTickerSet { room, ticker, .. } => str_fits(room@) && str_fits(ticker@),
        ServerRequest::HatedInterestAdd { item, .. } => str_fits(item@),
        ServerRequest::HatedInterestRemove { item, .. } => str_fits(item@),
        ServerRequest::RoomSearch { room, query, .. } => str_fits(room@) && str_fits(query@),
        ServerRequest::GivePrivileges { username, .. } => str_fits(username@),
        ServerRequest::BranchRoot { root, .. } => str_fits(root@),
        ServerRequest::AddRoomMember { room, username, .. } => str_fits(room@) && str_fits(username@),
        ServerRequest::RemoveRoomMember { room, username, .. } => str_fits(room@) && str_fits(username@),
        ServerRequest::CancelRoomMembership { room, .. } => str_fits(room@),
        ServerRequest::CancelRoomOwnership { room, .. } => str_fits(room@),
        ServerRequest::ChangePassword { password, .. } => str_fits(password@),
        ServerRequest::AddRoomOperator { room, username, .. } => str_fits(room@) && str_fits(username@),
        ServerRequest::RemoveRoomOperator { room, username, .. } => str_fits(room@) && str_fits(username@),
        ServerRequest::MessageUsers { usernames, message, .. } => usernames@.len() <= u32::MAX && wf_string_seq(usernames@) && str_fits(message@),
        ServerRequest::CantConnectToPeer { username, .. } => str_fits(username@),
        _ => true,
    }
}

/// The payload bytes of a request: what follows the `u32` code. The
/// `Login` payload embeds the MD5 login hash computed from the
/// credentials.
pub open spec fn server_req_payload(m: ServerRequest) -> Seq<u8> {
    match m {
        ServerRequest::Login { username, password, version, minor_version } => enc_str(username@) + (enc_str(password@) + (enc_u32(version) + (enc_str(
        login_hash_chars(username@, password@),
    ) + enc_u32(minor_version)))),
        ServerRequest::SetWaitPort { port, obfuscation_type, obfuscated_port } => enc_u32(port) + (match (obfuscation_type, obfuscated_port) {
            (Some(t), Some(p)) => enc_u32(obfuscation_type_u32(t)) + enc_u32(p),
            _ => Seq::empty(),
        }),
        ServerRequest::GetPeerAddress { username } => enc_str(username@),
        ServerRequest::WatchUser { username } => enc_str(username@),
        ServerRequest::UnwatchUser { username } => enc_str(username@),
        ServerRequest::GetUserStatus { username } => enc_str(username@),
        ServerRequest::SayChatroom { room, message } => enc_str(room@) + (enc_str(message@)),
        ServerRequest::JoinRoom { room, private } => enc_str(room@) + (enc_u32(if private { 1 } else { 0 })),
        ServerRequest::LeaveRoom { room } => enc_str(room@),
        ServerRequest::ConnectToPeer { token, username, connection_type } => enc_u32(token) + (enc_str(username@) + (enc_str(connection_type_chars(connection_type)))),
        ServerRequest::MessageUser { username, message } => enc_str(username@) + (enc_str(message@)),
        ServerRequest::MessageAcked { message_id } => enc_u32(message_id),
        ServerRequest::FileSearch { token, query } => enc_u32(token) + (enc_str(query@)),
        ServerRequest::SetStatus { status } => enc_u32(user_status_u32(status)),
        ServerRequest::ServerPing => Seq::empty(),
        ServerRequest::SharedFoldersFiles { dirs, files } => enc_u32(dirs) + (enc_u32(files)),
        ServerRequest::GetUserStats { username } => enc_str(username@),
        ServerRequest::UserSearch { username, token, query } => enc_str(username@) + (enc_u32(token) + (enc_str(query@))),
        ServerRequest::InterestAdd { item } => enc_str(item@),
        ServerRequest::InterestRemove { item } => enc_str(item@),
        ServerRequest::GetRecommendations => Seq::empty(),
        ServerRequest::GetGlobalRecommendations => Seq::empty(),
        ServerRequest::GetUserInterests { username } => enc_str(username@),
        ServerRequest::RoomList => Seq::empty(),
        ServerRequest::HaveNoParent { no_parent } => enc_bool(no_parent),
        ServerRequest::CheckPrivileges => Seq::empty(),
        ServerRequest::AcceptChildren { accept } => enc_bool(accept),
        ServerRequest::WishlistSearch { token, query } => enc_u32(token) + (enc_str(query@)),
        ServerRequest::GetSimilarUsers => Seq::empty(),
        ServerRequest::GetItemRecommendations { item } => enc_str(item@),
        ServerRequest::GetItemSimilarUsers { item } => enc_str(item@),
        ServerRequest::RoomTickerSet { room, ticker } => enc_str(room@) + (enc_str(ticker@)),
        ServerRequest::HatedInterestAdd { item } => enc_str(item@),
        ServerRequest::HatedInterestRemove { item } => enc_str(item@),
        ServerRequest::RoomSearch { room, token, query } => enc_str(room@) + (enc_u32(token) + (enc_str(query@))),
        ServerRequest::SendUploadSpeed { speed } => enc_u32(speed),
        ServerRequest::GivePrivileges { username, days } => enc_str(username@) + (enc_u32(days)),
        ServerRequest::BranchLevel { level } => enc_u32(level),
        ServerRequest::BranchRoot { root } => enc_str(root@),
        ServerRequest::AddRoomMember { room, username } => enc_str(room@) + (enc_str(username@)),
        ServerRequest::RemoveRoomMember { room, username } => enc_str(room@) + (enc_str(username@)),
        ServerRequest::CancelRoomMembership { room } => enc_str(room@),
        ServerRequest::CancelRoomOwnership { room } => enc_str(room@),
        ServerRequest::EnableRoomInvitations { enable } => enc_bool(enable),
        ServerRequest::ChangePassword { password } => enc_str(password@),
        ServerRequest::AddRoomOperator { room, username } => enc_str(room@) + (enc_str(username@)),
        ServerRequest::RemoveRoomOperator { room, username } => enc_str(room@) + (enc_str(username@)),
        ServerRequest::MessageUsers { usernames, message } => enc_string_list(usernames@) + (enc_str(message@)),
        ServerRequest::JoinGlobalRoom => Seq::empty(),
        ServerRequest::LeaveGlobalRoom => Seq::empty(),
        ServerRequest::CantConnectToPeer { token, username } => enc_u32(token) + (enc_str(username@)),
    }
}

/// The complete frame of a request.
pub open spec fn server_req_frame(m: ServerRequest) -> Seq<u8> {
    frame_u32(server_code_u32(server_req_code(m)), server_req_payload(m))
}

impl ServerRequest {
    /// The code of this request.
    pub fn code(&self) -> (r: ServerCode)
        ensures
            r == server_req_code(*self),
    {
        match self {
            ServerRequest::Login { .. } => ServerCode::Login,
            ServerRequest::SetWaitPort { .. } => ServerCode::SetWaitPort,
            ServerRequest::GetPeerAddress { .. } => ServerCode::GetPeerAddress,
            ServerRequest::WatchUser { .. } => ServerCode::WatchUser,
            ServerRequest::UnwatchUser { .. } => ServerCode::UnwatchUser,
            ServerRequest::GetUserStatus { .. } => ServerCode::GetUserStatus,
            ServerRequest::SayChatroom { .. } => ServerCode::SayChatroom,
            ServerRequest::JoinRoom { .. } => ServerCode::JoinRoom,
            ServerRequest::LeaveRoom { .. } => ServerCode::LeaveRoom,
            ServerRequest::ConnectToPeer { .. } => ServerCode::ConnectToPeer,
            ServerRequest::MessageUser { .. } => ServerCode::MessageUser,
            ServerRequest::MessageAcked { .. } => ServerCode::MessageAcked,
            ServerRequest::FileSearch { .. } => ServerCode::FileSearch,
            ServerRequest::SetStatus { .. } => ServerCode::SetStatus,
            ServerRequest::ServerPing => ServerCode::ServerPing,
            ServerRequest::SharedFoldersFiles { .. } => ServerCode::SharedFoldersFiles,
            ServerRequest::GetUserStats { .. } => ServerCode::GetUserStats,
            ServerRequest::UserSearch { .. } => ServerCode::UserSearch,
            ServerRequest::InterestAdd { .. } => ServerCode::InterestAdd,
            ServerRequest::InterestRemove { .. } => ServerCode::InterestRemove,
            ServerRequest::GetRecommendations => ServerCode::GetRecommendations,
            ServerRequest::GetGlobalRecommendations => ServerCode::GetGlobalRecommendations,
            ServerRequest::GetUserInterests { .. } => ServerCode::GetUserInterests,
            ServerRequest::RoomList => ServerCode::RoomList,
            ServerRequest::HaveNoParent { .. } => ServerCode::HaveNoParent,
            ServerRequest::CheckPrivileges => ServerCode::CheckPrivileges,
            ServerRequest::AcceptChildren { .. } => ServerCode::AcceptChildren,
            ServerRequest::WishlistSearch { .. } => ServerCode::WishlistSearch,
            ServerRequest::GetSimilarUsers => ServerCode::GetSimilarUsers,
            ServerRequest::GetItemRecommendations { .. } => ServerCode::GetItemRecommendations,
            ServerRequest::GetItemSimilarUsers { .. } => ServerCode::GetItemSimilarUsers,
            ServerRequest::RoomTickerSet { .. } => ServerCode::RoomTickerSet,
            ServerRequest::HatedInterestAdd { .. } => ServerCode::HatedInterestAdd,
            ServerRequest::HatedInterestRemove { .. } => ServerCode::HatedInterestRemove,
            ServerRequest::RoomSearch { .. } => ServerCode::RoomSearch,
            ServerRequest::SendUploadSpeed { .. } => ServerCode::SendUploadSpeed,
            ServerRequest::GivePrivileges { .. } => ServerCode::GivePrivileges,
            ServerRequest::BranchLevel { .. } => ServerCode::BranchLevel,
            ServerRequest::BranchRoot { .. } => ServerCode::BranchRoot,
            ServerRequest::AddRoomMember { .. } => ServerCode::AddRoomMember,
            ServerRequest::RemoveRoomMember { .. } => ServerCode::RemoveRoomMember,
            ServerRequest::CancelRoomMembership { .. } => ServerCode::CancelRoomMembership,
            ServerRequest::CancelRoomOwnership { .. } => ServerCode::CancelRoomOwnership,
            ServerRequest::EnableRoomInvitations { .. } => ServerCode::EnableRoomInvitations,
            ServerRequest::ChangePassword { .. } => ServerCode::ChangePassword,
            ServerRequest::AddRoomOperator { .. } => ServerCode::AddRoomOperator,
            ServerRequest::RemoveRoomOperator { .. } => ServerCode::RemoveRoomOperator,
            ServerRequest::MessageUsers { .. } => ServerCode::MessageUsers,
            ServerRequest::JoinGlobalRoom => ServerCode::JoinGlobalRoom,
            ServerRequest::LeaveGlobalRoom => ServerCode::LeaveGlobalRoom,
            ServerRequest::CantConnectToPeer { .. } => ServerCode::CantConnectToPeer,
        }
    }
}

/// Appends the payload of `msg` (no length prefix, no code).
#[verifier::rlimit(100)]
pub fn write_server_request_payload(msg: &ServerRequest, out: &mut Vec<u8>)
    requires
        wf_server_request(*msg),
    ensures
        final(out)@ == old(out)@ + server_req_payload(*msg),
{
    match msg {
        ServerRequest::Login { username, password, version, minor_version } => {
            write_str(out, username.as_str());
            write_str(out, password.as_str());
            write_u32(out, *version);
            let hash = login_hash(username.as_str(), password.as_str());
            proof {
                vstd::utf8::is_ascii_chars_encode_utf8(hash@);
            }
            write_str(out, hash.as_str());
            write_u32(out, *minor_version);
            proof {
                assert(out@ =~= old(out)@ + server_req_payload(*msg));
            }
        },
        ServerRequest::SetWaitPort { port, obfuscation_type, obfuscated_port } => {
            write_u32(out, *port);
            match (obfuscation_type, obfuscated_port) {
                (Some(t), Some(p)) => {
                    write_u32(out, t.as_u32());
                    write_u32(out, *p);
                },
                _ => {},
            }
            proof {
                assert(out@ =~= old(out)@ + server_req_payload(*msg));
            }
        },
        ServerRequest::GetPeerAddress { username } => {
            write_str(out, username.as_str());
            proof {
                assert(out@ =~= old(out)@ + server_req_payload(*msg));
            }
        },
        ServerRequest::WatchUser { username } => {
            write_str(out, username.as_str());
            proof {
                assert(out@ =~= old(out)@ + server_req_payload(*msg));
            }
        },
        ServerRequest::UnwatchUser { username } => {
            write_str(out, username.as_str());
            proof {
                assert(out@ =~= old(out)@ + server_req_payload(*msg));
            }
        },
        ServerRequest::GetUserStatus { username } => {
            write_str(out, username.as_str());
            proof {
                assert(out@ =~= old(out)@ + server_req_payload(*msg));
            }
        },
        ServerRequest::SayChatroom { room, message } => {
            write_str(out, room.as_str());
            write_str(out, message.as_str());
            proof {
                assert(out@ =~= old(out)@ + server_req_payload(*msg));
            }
        },
        ServerRequest::JoinRoom { room, private } => {
            write_str(out, room.as_str());
            write_u32(out, if *private { 1 } else { 0 });
            proof {
                assert(out@ =~= old(out)@ + server_req_payload(*msg));
            }
        },
        ServerRequest::LeaveRoom { room } => {
            write_str(out, room.as_str());
            proof {
                assert(out@ =~= old(out)@ + server_req_payload(*msg));
            }
        },
        ServerRequest::ConnectToPeer { token, username, connection_type } => {
            write_u32(out, *token);
            write_str(out, username.as_str());
            proof {
                lemma_connection_type_ascii(*connection_type);
            }
            write_str(out, connection_type.as_str());
            proof {
                assert(out@ =~= old(out)@ + server_req_payload(*msg));
            }
        },
        ServerRequest::MessageUser { username, message } => {
            write_str(out, username.as_str());
            write_str(out, message.as_str());
            proof {
                assert(out@ =~= old(out)@ + server_req_payload(*msg));
            }
        },
        ServerRequest::MessageAcked { message_id } => {
            write_u32(out, *message_id);
            proof {
                assert(out@ =~= old(out)@ + server_req_payload(*msg));
            }
        },
        ServerRequest::FileSearch { token, query } => {
            write_u32(out, *token);
            write_str(out, query.as_str());
            proof {
                assert(out@ =~= old(out)@ + server_req_payload(*msg));
            }
        },
        ServerRequest::SetStatus { status } => {
            write_u32(out, status.as_u32());
            proof {
                assert(out@ =~= old(out)@ + server_req_payload(*msg));
            }
        },
        ServerRequest::ServerPing => {
            proof {
                assert(out@ =~= old(out)@ + server_req_payload(*msg));
            }
        },
        ServerRequest::SharedFoldersFiles { dirs, files } => {
            write_u32(out, *dirs);
            write_u32(out, *files);
            proof {
                assert(out@ =~= old(out)@ + server_req_payload(*msg));
            }
        },
        ServerRequest::GetUserStats { username } => {
            write_str(out, username.as_str());
            proof {
                assert(out@ =~= old(out)@ + server_req_payload(*msg));
            }
        },
        ServerRequest::UserSearch { username, token, query } => {
            write_str(out, username.as_str());
            write_u32(out, *token);
            write_str(out, query.as_str());
            proof {
                assert(out@ =~= old(out)@ + server_req_payload(*msg));
            }
        },
        ServerRequest::InterestAdd { item } => {
            write_str(out, item.as_str());
            proof {
                assert(out@ =~= old(out)@ + server_req_payload(*msg));
            }
        },
        ServerRequest::InterestRemove { item } => {
            write_str(out, item.as_str());
            proof {
                assert(out@ =~= old(out)@ + server_req_payload(*msg));
            }
        },
        ServerRequest::GetRecommendations => {
            proof {
                assert(out@ =~= old(out)@ + server_req_payload(*msg));
            }
        },
        ServerRequest::GetGlobalRecommendations => {
            proof {
                assert(out@ =~= old(out)@ + server_req_payload(*msg));
            }
        },
        ServerRequest::GetUserInterests { username } => {
            write_str(out, username.as_str());
            proof {
                assert(out@ =~= old(out)@ + server_req_payload(*msg));
            }
        },
        ServerRequest::RoomList => {
            proof {
                assert(out@ =~= old(out)@ + server_req_payload(*msg));
            }
        },
        ServerRequest::HaveNoParent { no_parent } => {
            write_bool(out, *no_parent);
            proof {
                assert(out@ =~= old(out)@ + server_req_payload(*msg));
            }
        },
        ServerRequest::CheckPrivileges => {
            proof {
                assert(out@ =~= old(out)@ + server_req_payload(*msg));
            }
        },
        ServerRequest::AcceptChildren { accept } => {
            write_bool(out, *accept);
            proof {
                assert(out@ =~= old(out)@ + server_req_payload(*msg));
            }
        },
        ServerRequest::WishlistSearch { token, query } => {
            write_u32(out, *token);
            write_str(out, query.as_str());
            proof {
                assert(out@ =~= old(out)@ + server_req_payload(*msg));
            }
        },
        ServerRequest::GetSimilarUsers => {
            proof {
                assert(out@ =~= old(out)@ + server_req_payload(*msg));
            }
        },
        ServerRequest::GetItemRecommendations { item } => {
            write_str(out, item.as_str());
            proof {
                assert(out@ =~= old(out)@ + server_req_payload(*msg));
            }
        },
        ServerRequest::GetItemSimilarUsers { item } => {
            write_str(out, item.as_str());
            proof {
                assert(out@ =~= old(out)@ + server_req_payload(*msg));
            }
        },
        ServerRequest::RoomTickerSet { room, ticker } => {
            write_str(out, room.as_str());
            write_str(out, ticker.as_str());
            proof {
                assert(out@ =~= old(out)@ + server_req_payload(*msg));
            }
        },
        ServerRequest::HatedInterestAdd { item } => {
            write_str(out, item.as_str());
            proof {
                assert(out@ =~= old(out)@ + server_req_payload(*msg));
            }
        },
        ServerRequest::HatedInterestRemove { item } => {
            write_str(out, item.as_str());
            proof {
                assert(out@ =~= old(out)@ + server_req_payload(*msg));
            }
        },
        ServerRequest::RoomSearch { room, token, query } => {
            write_str(out, room.as_str());
            write_u32(out, *token);
            write_str(out, query.as_str());
            proof {
                assert(out@ =~= old(out)@ + server_req_payload(*msg));
            }
        },
        ServerRequest::SendUploadSpeed { speed } => {
            write_u32(out, *speed);
            proof {
                assert(out@ =~= old(out)@ + server_req_payload(*msg));
            }
        },
        ServerRequest::GivePrivileges { username, days } => {
            write_str(out, username.as_str());
            write_u32(out, *days);
            proof {
                assert(out@ =~= old(out)@ + server_req_payload(*msg));
            }
        },
        ServerRequest::BranchLevel { level } => {
            write_u32(out, *level);
            proof {
                assert(out@ =~= old(out)@ + server_req_payload(*msg));
            }
        },
        ServerRequest::BranchRoot { root } => {
            write_str(out, root.as_str());
            proof {
                assert(out@ =~= old(out)@ + server_req_payload(*msg));
            }
        },
        ServerRequest::AddRoomMember { room, username } => {
            write_str(out, room.as_str());
            write_str(out, username.as_str());
            proof {
                assert(out@ =~= old(out)@ + server_req_payload(*msg));
            }
        },
        ServerRequest::RemoveRoomMember { room, username } => {
            write_str(out, room.as_str());
            write_str(out, username.as_str());
            proof {
                assert(out@ =~= old(out)@ + server_req_payload(*msg));
            }
        },
        ServerRequest::CancelRoomMembership { room } => {
            write_str(out, room.as_str());
            proof {
                assert(out@ =~= old(out)@ + server_req_payload(*msg));
            }
        },
        ServerRequest::CancelRoomOwnership { room } => {
            write_str(out, room.as_str());
            proof {
                assert(out@ =~= old(out)@ + server_req_payload(*msg));
            }
        },
        ServerRequest::EnableRoomInvitations { enable } => {
            write_bool(out, *enable);
            proof {
                assert(out@ =~= old(out)@ + server_req_payload(*msg));
            }
        },
        ServerRequest::ChangePassword { password } => {
            write_str(out, password.as_str());
            proof {
                assert(out@ =~= old(out)@ + server_req_payload(*msg));
            }
        },
        ServerRequest::AddRoomOperator { room, username } => {
            write_str(out, room.as_str());
            write_str(out, username.as_str());
            proof {
                assert(out@ =~= old(out)@ + server_req_payload(*msg));
            }
        },
        ServerRequest::RemoveRoomOperator { room, username } => {
            write_str(out, room.as_str());
            write_str(out, username.as_str());
            proof {
                assert(out@ =~= old(out)@ + server_req_payload(*msg));
            }
        },
        ServerRequest::MessageUsers { usernames, message } => {
            write_string_list(out, usernames);
            write_str(out, message.as_str());
            proof {
                assert(out@ =~= old(out)@ + server_req_payload(*msg));
            }
        },
        ServerRequest::JoinGlobalRoom => {
            proof {
                assert(out@ =~= old(out)@ + server_req_payload(*msg));
            }
        },
        ServerRequest::LeaveGlobalRoom => {
            proof {
                assert(out@ =~= old(out)@ + server_req_payload(*msg));
            }
        },
        ServerRequest::CantConnectToPeer { token, username } => {
            write_u32(out, *token);
            write_str(out, username.as_str());
            proof {
                assert(out@ =~= old(out)@ + server_req_payload(*msg));
            }
        },
    }
}

/// Appends the complete frame of `msg`: length prefix, code, payload.
/// Fails, leaving `out` untouched, only when the payload is too large
/// for the `u32` length prefix.
pub fn write_server_request(msg: &ServerRequest, out: &mut Vec<u8>) -> (r: Result<(), Error>)
    requires
        wf_server_request(*msg),
    ensures
        match r {
            Ok(()) => frame_fits_u32(server_req_payload(*msg)) && final(out)@ == old(out)@
                + server_req_frame(*msg),
            Err(_) => !frame_fits_u32(server_req_payload(*msg)) && final(out)@ == old(out)@,
        },
{
    let mut payload: Vec<u8> = Vec::new();
    write_server_request_payload(msg, &mut payload);
    if payload.len() > u32::MAX as usize - 4 {
        return Err(Error::Protocol(String::from_str("message too large to frame")));
    }
    write_u32(out, 4 + payload.len() as u32);
    write_u32(out, msg.code().as_u32());
    write_raw(out, &payload);
    proof {
        assert(out@ =~= old(out)@ + server_req_frame(*msg));
    }
    Ok(())
}



/// The wire form of a name paired with a signed count.
pub open spec fn enc_si_pair(e: (String, i32)) -> Seq<u8> {
    enc_str(e.0@) + enc_i32(e.1)
}

pub open spec fn enc_si_pair_seq(s: Seq<(String, i32)>) -> Seq<u8>
    decreases s.len(),
{
    if s.len() == 0 {
        Seq::empty()
    } else {
        enc_si_pair(s[0]) + enc_si_pair_seq(s.drop_first())
    }
}

pub open spec fn enc_si_pair_list(s: Seq<(String, i32)>) -> Seq<u8> {
    enc_u32(s.len() as u32) + enc_si_pair_seq(s)
}

proof fn lemma_enc_si_pair_seq_snoc(s: Seq<(String, i32)>, i: int)
    requires
        0 <= i < s.len(),
    ensures
        enc_si_pair_seq(s.take(i + 1)) == enc_si_pair_seq(s.take(i)) + enc_si_pair(s[i]),
    decreases i,
{
    if i == 0 {
        assert(s.take(1) =~= seq![s[0]]);
        assert(s.take(1)[0] == s[0]);
        assert(s.take(1).drop_first() =~= Seq::<(String, i32)>::empty());
        assert(s.take(0) =~= Seq::<(String, i32)>::empty());
        assert(enc_si_pair_seq(s.take(1)) == enc_si_pair(s[0]) + enc_si_pair_seq(Seq::<(String, i32)>::empty()));
        assert(enc_si_pair(s[0]) + Seq::<u8>::empty() =~= enc_si_pair(s[0]));
        assert(Seq::<u8>::empty() + enc_si_pair(s[0]) =~= enc_si_pair(s[0]));
    } else {
        lemma_enc_si_pair_seq_snoc(s.drop_first(), i - 1);
        assert(s.take(i + 1).drop_first() =~= s.drop_first().take(i));
        assert(s.take(i).drop_first() =~= s.drop_first().take(i - 1));
        assert(s.take(i + 1)[0] == s[0]);
        assert(s.take(i)[0] == s[0]);
        assert(s.drop_first()[i - 1] == s[i]);
        assert(enc_si_pair_seq(s.take(i + 1)) == enc_si_pair(s[0]) + enc_si_pair_seq(s.drop_first().take(i)));
        assert(enc_si_pair_seq(s.take(i)) == enc_si_pair(s[0]) + enc_si_pair_seq(s.drop_first().take(i - 1)));
        assert(enc_si_pair(s[0]) + (enc_si_pair_seq(s.drop_first().take(i - 1)) + enc_si_pair(s[i])) =~= (enc_si_pair(
            s[0],
        ) + enc_si_pair_seq(s.drop_first().take(i - 1))) + enc_si_pair(s[i]));
    }
}

/// The wire form of a name paired with an unsigned count.
pub open spec fn enc_su_pair(e: (String, u32)) -> Seq<u8> {
    enc_str(e.0@) + enc_u32(e.1)
}

pub open spec fn enc_su_pair_seq(s: Seq<(String, u32)>) -> Seq<u8>
    decreases s.len(),
{
    if s.len() == 0 {
        Seq::empty()
    } else {
        enc_su_pair(s[0]) + enc_su_pair_seq(s.drop_first())
    }
}

pub open spec fn enc_su_pair_list(s: Seq<(String, u32)>) -> Seq<u8> {
    enc_u32(s.len() as u32) + enc_su_pair_seq(s)
}

proof fn lemma_enc_su_pair_seq_snoc(s: Seq<(String, u32)>, i: int)
    requires
        0 <= i < s.len(),
    ensures
        enc_su_pair_seq(s.take(i + 1)) == enc_su_pair_seq(s.take(i)) + enc_su_pair(s[i]),
    decreases i,
{
    if i == 0 {
        assert(s.take(1) =~= seq![s[0]]);
        assert(s.take(1)[0] == s[0]);
        assert(s.take(1).drop_first() =~= Seq::<(String, u32)>::empty());
        assert(s.take(0) =~= Seq::<(String, u32)>::empty());
        assert(enc_su_pair_seq(s.take(1)) == enc_su_pair(s[0]) + enc_su_pair_seq(Seq::<(String, u32)>::empty()));
        assert(enc_su_pair(s[0]) + Seq::<u8>::empty() =~= enc_su_pair(s[0]));
        assert(Seq::<u8>::empty() + enc_su_pair(s[0]) =~= enc_su_pair(s[0]));
    } else {
        lemma_enc_su_pair_seq_snoc(s.drop_first(), i - 1);
        assert(s.take(i + 1).drop_first() =~= s.drop_first().take(i));
        assert(s.take(i).drop_first() =~= s.drop_first().take(i - 1));
        assert(s.take(i + 1)[0] == s[0]);
        assert(s.take(i)[0] == s[0]);
        assert(s.drop_first()[i - 1] == s[i]);
        assert(enc_su_pair_seq(s.take(i + 1)) == enc_su_pair(s[0]) + enc_su_pair_seq(s.drop_first().take(i)));
        assert(enc_su_pair_seq(s.take(i)) == enc_su_pair(s[0]) + enc_su_pair_seq(s.drop_first().take(i - 1)));
        assert(enc_su_pair(s[0]) + (enc_su_pair_seq(s.drop_first().take(i - 1)) + enc_su_pair(s[i])) =~= (enc_su_pair(
            s[0],
        ) + enc_su_pair_seq(s.drop_first().take(i - 1))) + enc_su_pair(s[i]));
    }
}

/// The wire form of one room ticker entry.
pub open spec fn enc_ticker(e: RoomTicker) -> Seq<u8> {
    enc_str(e.username@) + enc_str(e.ticker@)
}

pub open spec fn enc_ticker_seq(s: Seq<RoomTicker>) -> Seq<u8>
    decreases s.len(),
{
    if s.len() == 0 {
        Seq::empty()
    } else {
        enc_ticker(s[0]) + enc_ticker_seq(s.drop_first())
    }
}

pub open spec fn enc_ticker_list(s: Seq<RoomTicker>) -> Seq<u8> {
    enc_u32(s.len() as u32) + enc_ticker_seq(s)
}

proof fn lemma_enc_ticker_seq_snoc(s: Seq<RoomTicker>, i: int)
    requires
        0 <= i < s.len(),
    ensures
        enc_ticker_seq(s.take(i + 1)) == enc_ticker_seq(s.take(i)) + enc_ticker(s[i]),
    decreases i,
{
    if i == 0 {
        assert(s.take(1) =~= seq![s[0]]);
        assert(s.take(1)[0] == s[0]);
        assert(s.take(1).drop_first() =~= Seq::<RoomTicker>::empty());
        assert(s.take(0) =~= Seq::<RoomTicker>::empty());
        assert(enc_ticker_seq(s.take(1)) == enc_ticker(s[0]) + enc_ticker_seq(Seq::<RoomTicker>::empty()));
        assert(enc_ticker(s[0]) + Seq::<u8>::empty() =~= enc_ticker(s[0]));
        assert(Seq::<u8>::empty() + enc_ticker(s[0]) =~= enc_ticker(s[0]));
    } else {
        lemma_enc_ticker_seq_snoc(s.drop_first(), i - 1);
        assert(s.take(i + 1).drop_first() =~= s.drop_first().take(i));
        assert(s.take(i).drop_first() =~= s.drop_first().take(i - 1));
        assert(s.take(i + 1)[0] == s[0]);
        assert(s.take(i)[0] == s[0]);
        assert(s.drop_first()[i - 1] == s[i]);
        assert(enc_ticker_seq(s.take(i + 1)) == enc_ticker(s[0]) + enc_ticker_seq(s.drop_first().take(i)));
        assert(enc_ticker_seq(s.take(i)) == enc_ticker(s[0]) + enc_ticker_seq(s.drop_first().take(i - 1)));
        assert(enc_ticker(s[0]) + (enc_ticker_seq(s.drop_first().take(i - 1)) + enc_ticker(s[i])) =~= (enc_ticker(
            s[0],
        ) + enc_ticker_seq(s.drop_first().take(i - 1))) + enc_ticker(s[i]));
    }
}

/// The wire form of one possible distributed parent.
pub open spec fn enc_parent(e: PossibleParent) -> Seq<u8> {
    enc_str(e.username@) + (enc_ipv4(e.ip) + enc_u32(e.port))
}

pub open spec fn enc_parent_seq(s: Seq<PossibleParent>) -> Seq<u8>
    decreases s.len(),
{
    if s.len() == 0 {
        Seq::empty()
    } else {
        enc_parent(s[0]) + enc_parent_seq(s.drop_first())
    }
}

pub open spec fn enc_parent_list(s: Seq<PossibleParent>) -> Seq<u8> {
    enc_u32(s.len() as u32) + enc_parent_seq(s)
}

proof fn lemma_enc_parent_seq_snoc(s: Seq<PossibleParent>, i: int)
    requires
        0 <= i < s.len(),
    ensures
        enc_parent_seq(s.take(i + 1)) == enc_parent_seq(s.take(i)) + enc_parent(s[i]),
    decreases i,
{
    if i == 0 {
        assert(s.take(1) =~= seq![s[0]]);
        assert(s.take(1)[0] == s[0]);
        assert(s.take(1).drop_first() =~= Seq::<PossibleParent>::empty());
        assert(s.take(0) =~= Seq::<PossibleParent>::empty());
        assert(enc_parent_seq(s.take(1)) == enc_parent(s[0]) + enc_parent_seq(Seq::<PossibleParent>::empty()));
        assert(enc_parent(s[0]) + Seq::<u8>::empty() =~= enc_parent(s[0]));
        assert(Seq::<u8>::empty() + enc_parent(s[0]) =~= enc_parent(s[0]));
    } else {
        lemma_enc_parent_seq_snoc(s.drop_first(), i - 1);
        assert(s.take(i + 1).drop_first() =~= s.drop_first().take(i));
        assert(s.take(i).drop_first() =~= s.drop_first().take(i - 1));
        assert(s.take(i + 1)[0] == s[0]);
        assert(s.take(i)[0] == s[0]);
        assert(s.drop_first()[i - 1] == s[i]);
        assert(enc_parent_seq(s.take(i + 1)) == enc_parent(s[0]) + enc_parent_seq(s.drop_first().take(i)));
        assert(enc_parent_seq(s.take(i)) == enc_parent(s[0]) + enc_parent_seq(s.drop_first().take(i - 1)));
        assert(enc_parent(s[0]) + (enc_parent_seq(s.drop_first().take(i - 1)) + enc_parent(s[i])) =~= (enc_parent(
            s[0],
        ) + enc_parent_seq(s.drop_first().take(i - 1))) + enc_parent(s[i]));
    }
}

/// The username projection of a room user.
pub open spec fn enc_user_name(e: RoomUser) -> Seq<u8> {
    enc_str(e.username@)
}

pub open spec fn enc_user_name_seq(s: Seq<RoomUser>) -> Seq<u8>
    decreases s.len(),
{
    if s.len() == 0 {
        Seq::empty()
    } else {
        enc_user_name(s[0]) + enc_user_name_seq(s.drop_first())
    }
}

pub open spec fn enc_user_name_list(s: Seq<RoomUser>) -> Seq<u8> {
    enc_u32(s.len() as u32) + enc_user_name_seq(s)
}

proof fn lemma_enc_user_name_seq_snoc(s: Seq<RoomUser>, i: int)
    requires
        0 <= i < s.len(),
    ensures
        enc_user_name_seq(s.take(i + 1)) == enc_user_name_seq(s.take(i)) + enc_user_name(s[i]),
    decreases i,
{
    if i == 0 {
        assert(s.take(1) =~= seq![s[0]]);
        assert(s.take(1)[0] == s[0]);
        assert(s.take(1).drop_first() =~= Seq::<RoomUser>::empty());
        assert(s.take(0) =~= Seq::<RoomUser>::empty());
        assert(enc_user_name_seq(s.take(1)) == enc_user_name(s[0]) + enc_user_name_seq(Seq::<RoomUser>::empty()));
        assert(enc_user_name(s[0]) + Seq::<u8>::empty() =~= enc_user_name(s[0]));
        assert(Seq::<u8>::empty() + enc_user_name(s[0]) =~= enc_user_name(s[0]));
    } else {
        lemma_enc_user_name_seq_snoc(s.drop_first(), i - 1);
        assert(s.take(i + 1).drop_first() =~= s.drop_first().take(i));
        assert(s.take(i).drop_first() =~= s.drop_first().take(i - 1));
        assert(s.take(i + 1)[0] == s[0]);
        assert(s.take(i)[0] == s[0]);
        assert(s.drop_first()[i - 1] == s[i]);
        assert(enc_user_name_seq(s.take(i + 1)) == enc_user_name(s[0]) + enc_user_name_seq(s.drop_first().take(i)));
        assert(enc_user_name_seq(s.take(i)) == enc_user_name(s[0]) + enc_user_name_seq(s.drop_first().take(i - 1)));
        assert(enc_user_name(s[0]) + (enc_user_name_seq(s.drop_first().take(i - 1)) + enc_user_name(s[i])) =~= (enc_user_name(
            s[0],
        ) + enc_user_name_seq(s.drop_first().take(i - 1))) + enc_user_name(s[i]));
    }
}

/// The status projection of a room user.
pub open spec fn enc_user_status(e: RoomUser) -> Seq<u8> {
    enc_u32(user_status_u32(e.status))
}

pub open spec fn enc_user_status_seq(s: Seq<RoomUser>) -> Seq<u8>
    decreases s.len(),
{
    if s.len() == 0 {
        Seq::empty()
    } else {
        enc_user_status(s[0]) + enc_user_status_seq(s.drop_first())
    }
}

pub open spec fn enc_user_status_list(s: Seq<RoomUser>) -> Seq<u8> {
    enc_u32(s.len() as u32) + enc_user_status_seq(s)
}

proof fn lemma_enc_user_status_seq_snoc(s: Seq<RoomUser>, i: int)
    requires
        0 <= i < s.len(),
    ensures
        enc_user_status_seq(s.take(i + 1)) == enc_user_status_seq(s.take(i)) + enc_user_status(s[i]),
    decreases i,
{
    if i == 0 {
        assert(s.take(1) =~= seq![s[0]]);
        assert(s.take(1)[0] == s[0]);
        assert(s.take(1).drop_first() =~= Seq::<RoomUser>::empty());
        assert(s.take(0) =~= Seq::<RoomUser>::empty());
        assert(enc_user_status_seq(s.take(1)) == enc_user_status(s[0]) + enc_user_status_seq(Seq::<RoomUser>::empty()));
        assert(enc_user_status(s[0]) + Seq::<u8>::empty() =~= enc_user_status(s[0]));
        assert(Seq::<u8>::empty() + enc_user_status(s[0]) =~= enc_user_status(s[0]));
    } else {
        lemma_enc_user_status_seq_snoc(s.drop_first(), i - 1);
        assert(s.take(i + 1).drop_first() =~= s.drop_first().take(i));
        assert(s.take(i).drop_first() =~= s.drop_first().take(i - 1));
        assert(s.take(i + 1)[0] == s[0]);
        assert(s.take(i)[0] == s[0]);
        assert(s.drop_first()[i - 1] == s[i]);
        assert(enc_user_status_seq(s.take(i + 1)) == enc_user_status(s[0]) + enc_user_status_seq(s.drop_first().take(i)));
        assert(enc_user_status_seq(s.take(i)) == enc_user_status(s[0]) + enc_user_status_seq(s.drop_first().take(i - 1)));
        assert(enc_user_status(s[0]) + (enc_user_status_seq(s.drop_first().take(i - 1)) + enc_user_status(s[i])) =~= (enc_user_status(
            s[0],
        ) + enc_user_status_seq(s.drop_first().take(i - 1))) + enc_user_status(s[i]));
    }
}

/// The statistics projection of a room user.
pub open spec fn enc_user_stats(e: RoomUser) -> Seq<u8> {
    enc_stats(e.stats)
}

pub open spec fn enc_user_stats_seq(s: Seq<RoomUser>) -> Seq<u8>
    decreases s.len(),
{
    if s.len() == 0 {
        Seq::empty()
    } else {
        enc_user_stats(s[0]) + enc_user_stats_seq(s.drop_first())
    }
}

pub open spec fn enc_user_stats_list(s: Seq<RoomUser>) -> Seq<u8> {
    enc_u32(s.len() as u32) + enc_user_stats_seq(s)
}

proof fn lemma_enc_user_stats_seq_snoc(s: Seq<RoomUser>, i: int)
    requires
        0 <= i < s.len(),
    ensures
        enc_user_stats_seq(s.take(i + 1)) == enc_user_stats_seq(s.take(i)) + enc_user_stats(s[i]),
    decreases i,
{
    if i == 0 {
        assert(s.take(1) =~= seq![s[0]]);
        assert(s.take(1)[0] == s[0]);
        assert(s.take(1).drop_first() =~= Seq::<RoomUser>::empty());
        assert(s.take(0) =~= Seq::<RoomUser>::empty());
        assert(enc_user_stats_seq(s.take(1)) == enc_user_stats(s[0]) + enc_user_stats_seq(Seq::<RoomUser>::empty()));
        assert(enc_user_stats(s[0]) + Seq::<u8>::empty() =~= enc_user_stats(s[0]));
        assert(Seq::<u8>::empty() + enc_user_stats(s[0]) =~= enc_user_stats(s[0]));
    } else {
        lemma_enc_user_stats_seq_snoc(s.drop_first(), i - 1);
        assert(s.take(i + 1).drop_first() =~= s.drop_first().take(i));
        assert(s.take(i).drop_first() =~= s.drop_first().take(i - 1));
        assert(s.take(i + 1)[0] == s[0]);
        assert(s.take(i)[0] == s[0]);
        assert(s.drop_first()[i - 1] == s[i]);
        assert(enc_user_stats_seq(s.take(i + 1)) == enc_user_stats(s[0]) + enc_user_stats_seq(s.drop_first().take(i)));
        assert(enc_user_stats_seq(s.take(i)) == enc_user_stats(s[0]) + enc_user_stats_seq(s.drop_first().take(i - 1)));
        assert(enc_user_stats(s[0]) + (enc_user_stats_seq(s.drop_first().take(i - 1)) + enc_user_stats(s[i])) =~= (enc_user_stats(
            s[0],
        ) + enc_user_stats_seq(s.drop_first().take(i - 1))) + enc_user_stats(s[i]));
    }
}

/// The slots-full projection of a room user, as the wire's u32.
pub open spec fn enc_user_slots(e: RoomUser) -> Seq<u8> {
    enc_u32(
        if e.slots_full {
            1u32
        } else {
            0u32
        },
    )
}

pub open spec fn enc_user_slots_seq(s: Seq<RoomUser>) -> Seq<u8>
    decreases s.len(),
{
    if s.len() == 0 {
        Seq::empty()
    } else {
        enc_user_slots(s[0]) + enc_user_slots_seq(s.drop_first())
    }
}

pub open spec fn enc_user_slots_list(s: Seq<RoomUser>) -> Seq<u8> {
    enc_u32(s.len() as u32) + enc_user_slots_seq(s)
}

proof fn lemma_enc_user_slots_seq_snoc(s: Seq<RoomUser>, i: int)
    requires
        0 <= i < s.len(),
    ensures
        enc_user_slots_seq(s.take(i + 1)) == enc_user_slots_seq(s.take(i)) + enc_user_slots(s[i]),
    decreases i,
{
    if i == 0 {
        assert(s.take(1) =~= seq![s[0]]);
        assert(s.take(1)[0] == s[0]);
        assert(s.take(1).drop_first() =~= Seq::<RoomUser>::empty());
        assert(s.take(0) =~= Seq::<RoomUser>::empty());
        assert(enc_user_slots_seq(s.take(1)) == enc_user_slots(s[0]) + enc_user_slots_seq(Seq::<RoomUser>::empty()));
        assert(enc_user_slots(s[0]) + Seq::<u8>::empty() =~= enc_user_slots(s[0]));
        assert(Seq::<u8>::empty() + enc_user_slots(s[0]) =~= enc_user_slots(s[0]));
    } else {
        lemma_enc_user_slots_seq_snoc(s.drop_first(), i - 1);
        assert(s.take(i + 1).drop_first() =~= s.drop_first().take(i));
        assert(s.take(i).drop_first() =~= s.drop_first().take(i - 1));
        assert(s.take(i + 1)[0] == s[0]);
        assert(s.take(i)[0] == s[0]);
        assert(s.drop_first()[i - 1] == s[i]);
        assert(enc_user_slots_seq(s.take(i + 1)) == enc_user_slots(s[0]) + enc_user_slots_seq(s.drop_first().take(i)));
        assert(enc_user_slots_seq(s.take(i)) == enc_user_slots(s[0]) + enc_user_slots_seq(s.drop_first().take(i - 1)));
        assert(enc_user_slots(s[0]) + (enc_user_slots_seq(s.drop_first().take(i - 1)) + enc_user_slots(s[i])) =~= (enc_user_slots(
            s[0],
        ) + enc_user_slots_seq(s.drop_first().take(i - 1))) + enc_user_slots(s[i]));
    }
}

/// The country-code projection of a room user.
pub open spec fn enc_user_country(e: RoomUser) -> Seq<u8> {
    enc_str(e.country_code@)
}

pub open spec fn enc_user_country_seq(s: Seq<RoomUser>) -> Seq<u8>
    decreases s.len(),
{
    if s.len() == 0 {
        Seq::empty()
    } else {
        enc_user_country(s[0]) + enc_user_country_seq(s.drop_first())
    }
}

pub open spec fn enc_user_country_list(s: Seq<RoomUser>) -> Seq<u8> {
    enc_u32(s.len() as u32) + enc_user_country_seq(s)
}

proof fn lemma_enc_user_country_seq_snoc(s: Seq<RoomUser>, i: int)
    requires
        0 <= i < s.len(),
    ensures
        enc_user_country_seq(s.take(i + 1)) == enc_user_country_seq(s.take(i)) + enc_user_country(s[i]),
    decreases i,
{
    if i == 0 {
        assert(s.take(1) =~= seq![s[0]]);
        assert(s.take(1)[0] == s[0]);
        assert(s.take(1).drop_first() =~= Seq::<RoomUser>::empty());
        assert(s.take(0) =~= Seq::<RoomUser>::empty());
        assert(enc_user_country_seq(s.take(1)) == enc_user_country(s[0]) + enc_user_country_seq(Seq::<RoomUser>::empty()));
        assert(enc_user_country(s[0]) + Seq::<u8>::empty() =~= enc_user_country(s[0]));
        assert(Seq::<u8>::empty() + enc_user_country(s[0]) =~= enc_user_country(s[0]));
    } else {
        lemma_enc_user_country_seq_snoc(s.drop_first(), i - 1);
        assert(s.take(i + 1).drop_first() =~= s.drop_first().take(i));
        assert(s.take(i).drop_first() =~= s.drop_first().take(i - 1));
        assert(s.take(i + 1)[0] == s[0]);
        assert(s.take(i)[0] == s[0]);
        assert(s.drop_first()[i - 1] == s[i]);
        assert(enc_user_country_seq(s.take(i + 1)) == enc_user_country(s[0]) + enc_user_country_seq(s.drop_first().take(i)));
        assert(enc_user_country_seq(s.take(i)) == enc_user_country(s[0]) + enc_user_country_seq(s.drop_first().take(i - 1)));
        assert(enc_user_country(s[0]) + (enc_user_country_seq(s.drop_first().take(i - 1)) + enc_user_country(s[i])) =~= (enc_user_country(
            s[0],
        ) + enc_user_country_seq(s.drop_first().take(i - 1))) + enc_user_country(s[i]));
    }
}

/// The name projection of a room entry.
pub open spec fn enc_room_name(e: (String, u32)) -> Seq<u8> {
    enc_str(e.0@)
}

pub open spec fn enc_room_name_seq(s: Seq<(String, u32)>) -> Seq<u8>
    decreases s.len(),
{
    if s.len() == 0 {
        Seq::empty()
    } else {
        enc_room_name(s[0]) + enc_room_name_seq(s.drop_first())
    }
}

pub open spec fn enc_room_name_list(s: Seq<(String, u32)>) -> Seq<u8> {
    enc_u32(s.len() as u32) + enc_room_name_seq(s)
}

proof fn lemma_enc_room_name_seq_snoc(s: Seq<(String, u32)>, i: int)
    requires
        0 <= i < s.len(),
    ensures
        enc_room_name_seq(s.take(i + 1)) == enc_room_name_seq(s.take(i)) + enc_room_name(s[i]),
    decreases i,
{
    if i == 0 {
        assert(s.take(1) =~= seq![s[0]]);
        assert(s.take(1)[0] == s[0]);
        assert(s.take(1).drop_first() =~= Seq::<(String, u32)>::empty());
        assert(s.take(0) =~= Seq::<(String, u32)>::empty());
        assert(enc_room_name_seq(s.take(1)) == enc_room_name(s[0]) + enc_room_name_seq(Seq::<(String, u32)>::empty()));
        assert(enc_room_name(s[0]) + Seq::<u8>::empty() =~= enc_room_name(s[0]));
        assert(Seq::<u8>::empty() + enc_room_name(s[0]) =~= enc_room_name(s[0]));
    } else {
        lemma_enc_room_name_seq_snoc(s.drop_first(), i - 1);
        assert(s.take(i + 1).drop_first() =~= s.drop_first().take(i));
        assert(s.take(i).drop_first() =~= s.drop_first().take(i - 1));
        assert(s.take(i + 1)[0] == s[0]);
        assert(s.take(i)[0] == s[0]);
        assert(s.drop_first()[i - 1] == s[i]);
        assert(enc_room_name_seq(s.take(i + 1)) == enc_room_name(s[0]) + enc_room_name_seq(s.drop_first().take(i)));
        assert(enc_room_name_seq(s.take(i)) == enc_room_name(s[0]) + enc_room_name_seq(s.drop_first().take(i - 1)));
        assert(enc_room_name(s[0]) + (enc_room_name_seq(s.drop_first().take(i - 1)) + enc_room_name(s[i])) =~= (enc_room_name(
            s[0],
        ) + enc_room_name_seq(s.drop_first().take(i - 1))) + enc_room_name(s[i]));
    }
}

/// The user-count projection of a room entry.
pub open spec fn enc_room_count(e: (String, u32)) -> Seq<u8> {
    enc_u32(e.1)
}

pub open spec fn enc_room_count_seq(s: Seq<(String, u32)>) -> Seq<u8>
    decreases s.len(),
{
    if s.len() == 0 {
        Seq::empty()
    } else {
        enc_room_count(s[0]) + enc_room_count_seq(s.drop_first())
    }
}

pub open spec fn enc_room_count_list(s: Seq<(String, u32)>) -> Seq<u8> {
    enc_u32(s.len() as u32) + enc_room_count_seq(s)
}

proof fn lemma_enc_room_count_seq_snoc(s: Seq<(String, u32)>, i: int)
    requires
        0 <= i < s.len(),
    ensures
        enc_room_count_seq(s.take(i + 1)) == enc_room_count_seq(s.take(i)) + enc_room_count(s[i]),
    decreases i,
{
    if i == 0 {
        assert(s.take(1) =~= seq![s[0]]);
        assert(s.take(1)[0] == s[0]);
        assert(s.take(1).drop_first() =~= Seq::<(String, u32)>::empty());
        assert(s.take(0) =~= Seq::<(String, u32)>::empty());
        assert(enc_room_count_seq(s.take(1)) == enc_room_count(s[0]) + enc_room_count_seq(Seq::<(String, u32)>::empty()));
        assert(enc_room_count(s[0]) + Seq::<u8>::empty() =~= enc_room_count(s[0]));
        assert(Seq::<u8>::empty() + enc_room_count(s[0]) =~= enc_room_count(s[0]));
    } else {
        lemma_enc_room_count_seq_snoc(s.drop_first(), i - 1);
        assert(s.take(i + 1).drop_first() =~= s.drop_first().take(i));
        assert(s.take(i).drop_first() =~= s.drop_first().take(i - 1));
        assert(s.take(i + 1)[0] == s[0]);
        assert(s.take(i)[0] == s[0]);
        assert(s.drop_first()[i - 1] == s[i]);
        assert(enc_room_count_seq(s.take(i + 1)) == enc_room_count(s[0]) + enc_room_count_seq(s.drop_first().take(i)));
        assert(enc_room_count_seq(s.take(i)) == enc_room_count(s[0]) + enc_room_count_seq(s.drop_first().take(i - 1)));
        assert(enc_room_count(s[0]) + (enc_room_count_seq(s.drop_first().take(i - 1)) + enc_room_count(s[i])) =~= (enc_room_count(
            s[0],
        ) + enc_room_count_seq(s.drop_first().take(i - 1))) + enc_room_count(s[i]));
    }
}

/// Appends a `u32` count, then each element's wire form.
fn write_si_pair_list(out: &mut Vec<u8>, items: &Vec<(String, i32)>)
    requires
        items@.len() <= u32::MAX,
        forall|k: int| 0 <= k < items@.len() ==> str_fits((#[trigger] items@[k]).0@),
    ensures
        final(out)@ == old(out)@ + enc_si_pair_list(items@),
{
    write_u32(out, items.len() as u32);
    let mut i: usize = 0;
    proof {
        assert(items@.take(0) =~= Seq::<(String, i32)>::empty());
    }
    while i < items.len()
        invariant
            i <= items@.len() <= u32::MAX,
            forall|k: int| 0 <= k < items@.len() ==> str_fits((#[trigger] items@[k]).0@),
            out@ == old(out)@ + enc_u32(items@.len() as u32) + enc_si_pair_seq(items@.take(i as int)),
        decreases items@.len() - i,
    {
        write_str(out, items[i].0.as_str());
        write_i32(out, items[i].1);
        proof {
            lemma_enc_si_pair_seq_snoc(items@, i as int);
            assert(out@ =~= old(out)@ + enc_u32(items@.len() as u32) + enc_si_pair_seq(
                items@.take(i + 1),
            ));
        }
        i = i + 1;
    }
    proof {
        assert(items@.take(items@.len() as int) =~= items@);
        assert(out@ =~= old(out)@ + enc_si_pair_list(items@));
    }
}

/// Appends a `u32` count, then each element's wire form.
fn write_su_pair_list(out: &mut Vec<u8>, items: &Vec<(String, u32)>)
    requires
        items@.len() <= u32::MAX,
        forall|k: int| 0 <= k < items@.len() ==> str_fits((#[trigger] items@[k]).0@),
    ensures
        final(out)@ == old(out)@ + enc_su_pair_list(items@),
{
    write_u32(out, items.len() as u32);
    let mut i: usize = 0;
    proof {
        assert(items@.take(0) =~= Seq::<(String, u32)>::empty());
    }
    while i < items.len()
        invariant
            i <= items@.len() <= u32::MAX,
            forall|k: int| 0 <= k < items@.len() ==> str_fits((#[trigger] items@[k]).0@),
            out@ == old(out)@ + enc_u32(items@.len() as u32) + enc_su_pair_seq(items@.take(i as int)),
        decreases items@.len() - i,
    {
        write_str(out, items[i].0.as_str());
        write_u32(out, items[i].1);
        proof {
            lemma_enc_su_pair_seq_snoc(items@, i as int);
            assert(out@ =~= old(out)@ + enc_u32(items@.len() as u32) + enc_su_pair_seq(
                items@.take(i + 1),
            ));
        }
        i = i + 1;
    }
    proof {
        assert(items@.take(items@.len() as int) =~= items@);
        assert(out@ =~= old(out)@ + enc_su_pair_list(items@));
    }
}

/// Appends a `u32` count, then each element's wire form.
fn write_ticker_list(out: &mut Vec<u8>, items: &Vec<RoomTicker>)
    requires
        items@.len() <= u32::MAX,
        forall|k: int|
            0 <= k < items@.len() ==> str_fits((#[trigger] items@[k]).username@) && str_fits(
                items@[k].ticker@,
            ),
    ensures
        final(out)@ == old(out)@ + enc_ticker_list(items@),
{
    write_u32(out, items.len() as u32);
    let mut i: usize = 0;
    proof {
        assert(items@.take(0) =~= Seq::<RoomTicker>::empty());
    }
    while i < items.len()
        invariant
            i <= items@.len() <= u32::MAX,
            forall|k: int|
                0 <= k < items@.len() ==> str_fits((#[trigger] items@[k]).username@) && str_fits(
                        items@[k].ticker@,
                ),
            out@ == old(out)@ + enc_u32(items@.len() as u32) + enc_ticker_seq(items@.take(i as int)),
        decreases items@.len() - i,
    {
        write_str(out, items[i].username.as_str());
        write_str(out, items[i].ticker.as_str());
        proof {
            lemma_enc_ticker_seq_snoc(items@, i as int);
            assert(out@ =~= old(out)@ + enc_u32(items@.len() as u32) + enc_ticker_seq(
                items@.take(i + 1),
            ));
        }
        i = i + 1;
    }
    proof {
        assert(items@.take(items@.len() as int) =~= items@);
        assert(out@ =~= old(out)@ + enc_ticker_list(items@));
    }
}

/// Appends a `u32` count, then each element's wire form.
fn write_parent_list(out: &mut Vec<u8>, items: &Vec<PossibleParent>)
    requires
        items@.len() <= u32::MAX,
        forall|k: int| 0 <= k < items@.len() ==> str_fits((#[trigger] items@[k]).username@),
    ensures
        final(out)@ == old(out)@ + enc_parent_list(items@),
{
    write_u32(out, items.len() as u32);
    let mut i: usize = 0;
    proof {
        assert(items@.take(0) =~= Seq::<PossibleParent>::empty());
    }
    while i < items.len()
        invariant
            i <= items@.len() <= u32::MAX,
            forall|k: int| 0 <= k < items@.len() ==> str_fits((#[trigger] items@[k]).username@),
            out@ == old(out)@ + enc_u32(items@.len() as u32) + enc_parent_seq(items@.take(i as int)),
        decreases items@.len() - i,
    {
        write_str(out, items[i].username.as_str());
        write_ipv4(out, &items[i].ip);
        write_u32(out, items[i].port);
        proof {
            lemma_enc_parent_seq_snoc(items@, i as int);
            assert(out@ =~= old(out)@ + enc_u32(items@.len() as u32) + enc_parent_seq(
                items@.take(i + 1),
            ));
        }
        i = i + 1;
    }
    proof {
        assert(items@.take(items@.len() as int) =~= items@);
        assert(out@ =~= old(out)@ + enc_parent_list(items@));
    }
}

/// Appends a `u32` count, then each element's wire form.
fn write_user_name_list(out: &mut Vec<u8>, items: &Vec<RoomUser>)
    requires
        items@.len() <= u32::MAX,
        forall|k: int| 0 <= k < items@.len() ==> str_fits((#[trigger] items@[k]).username@),
    ensures
        final(out)@ == old(out)@ + enc_user_name_list(items@),
{
    write_u32(out, items.len() as u32);
    let mut i: usize = 0;
    proof {
        assert(items@.take(0) =~= Seq::<RoomUser>::empty());
    }
    while i < items.len()
        invariant
            i <= items@.len() <= u32::MAX,
            forall|k: int| 0 <= k < items@.len() ==> str_fits((#[trigger] items@[k]).username@),
            out@ == old(out)@ + enc_u32(items@.len() as u32) + enc_user_name_seq(items@.take(i as int)),
        decreases items@.len() - i,
    {
        write_str(out, items[i].username.as_str());
        proof {
            lemma_enc_user_name_seq_snoc(items@, i as int);
            assert(out@ =~= old(out)@ + enc_u32(items@.len() as u32) + enc_user_name_seq(
                items@.take(i + 1),
            ));
        }
        i = i + 1;
    }
    proof {
        assert(items@.take(items@.len() as int) =~= items@);
        assert(out@ =~= old(out)@ + enc_user_name_list(items@));
    }
}

/// Appends a `u32` count, then each element's wire form.
fn write_user_status_list(out: &mut Vec<u8>, items: &Vec<RoomUser>)
    requires
        items@.len() <= u32::MAX,
    ensures
        final(out)@ == old(out)@ + enc_user_status_list(items@),
{
    write_u32(out, items.len() as u32);
    let mut i: usize = 0;
    proof {
        assert(items@.take(0) =~= Seq::<RoomUser>::empty());
    }
    while i < items.len()
        invariant
            i <= items@.len() <= u32::MAX,
            out@ == old(out)@ + enc_u32(items@.len() as u32) + enc_user_status_seq(items@.take(i as int)),
        decreases items@.len() - i,
    {
        write_u32(out, items[i].status.as_u32());
        proof {
            lemma_enc_user_status_seq_snoc(items@, i as int);
            assert(out@ =~= old(out)@ + enc_u32(items@.len() as u32) + enc_user_status_seq(
                items@.take(i + 1),
            ));
        }
        i = i + 1;
    }
    proof {
        assert(items@.take(items@.len() as int) =~= items@);
        assert(out@ =~= old(out)@ + enc_user_status_list(items@));
    }
}

/// Appends a `u32` count, then each element's wire form.
fn write_user_stats_list(out: &mut Vec<u8>, items: &Vec<RoomUser>)
    requires
        items@.len() <= u32::MAX,
    ensures
        final(out)@ == old(out)@ + enc_user_stats_list(items@),
{
    write_u32(out, items.len() as u32);
    let mut i: usize = 0;
    proof {
        assert(items@.take(0) =~= Seq::<RoomUser>::empty());
    }
    while i < items.len()
        invariant
            i <= items@.len() <= u32::MAX,
            out@ == old(out)@ + enc_u32(items@.len() as u32) + enc_user_stats_seq(items@.take(i as int)),
        decreases items@.len() - i,
    {
        items[i].stats.write_to(out);
        proof {
            lemma_enc_user_stats_seq_snoc(items@, i as int);
            assert(out@ =~= old(out)@ + enc_u32(items@.len() as u32) + enc_user_stats_seq(
                items@.take(i + 1),
            ));
        }
        i = i + 1;
    }
    proof {
        assert(items@.take(items@.len() as int) =~= items@);
        assert(out@ =~= old(out)@ + enc_user_stats_list(items@));
    }
}

/// Appends a `u32` count, then each element's wire form.
fn write_user_slots_list(out: &mut Vec<u8>, items: &Vec<RoomUser>)
    requires
        items@.len() <= u32::MAX,
    ensures
        final(out)@ == old(out)@ + enc_user_slots_list(items@),
{
    write_u32(out, items.len() as u32);
    let mut i: usize = 0;
    proof {
        assert(items@.take(0) =~= Seq::<RoomUser>::empty());
    }
    while i < items.len()
        invariant
            i <= items@.len() <= u32::MAX,
            out@ == old(out)@ + enc_u32(items@.len() as u32) + enc_user_slots_seq(items@.take(i as int)),
        decreases items@.len() - i,
    {
        write_u32(
            out,
            if items[i].slots_full {
                1
            } else {
                0
            },
        );
        proof {
            lemma_enc_user_slots_seq_snoc(items@, i as int);
            assert(out@ =~= old(out)@ + enc_u32(items@.len() as u32) + enc_user_slots_seq(
                items@.take(i + 1),
            ));
        }
        i = i + 1;
    }
    proof {
        assert(items@.take(items@.len() as int) =~= items@);
        assert(out@ =~= old(out)@ + enc_user_slots_list(items@));
    }
}

/// Appends a `u32` count, then each element's wire form.
fn write_user_country_list(out: &mut Vec<u8>, items: &Vec<RoomUser>)
    requires
        items@.len() <= u32::MAX,
        forall|k: int| 0 <= k < items@.len() ==> str_fits((#[trigger] items@[k]).country_code@),
    ensures
        final(out)@ == old(out)@ + enc_user_country_list(items@),
{
    write_u32(out, items.len() as u32);
    let mut i: usize = 0;
    proof {
        assert(items@.take(0) =~= Seq::<RoomUser>::empty());
    }
    while i < items.len()
        invariant
            i <= items@.len() <= u32::MAX,
            forall|k: int| 0 <= k < items@.len() ==> str_fits((#[trigger] items@[k]).country_code@),
            out@ == old(out)@ + enc_u32(items@.len() as u32) + enc_user_country_seq(items@.take(i as int)),
        decreases items@.len() - i,
    {
        write_str(out, items[i].country_code.as_str());
        proof {
            lemma_enc_user_country_seq_snoc(items@, i as int);
            assert(out@ =~= old(out)@ + enc_u32(items@.len() as u32) + enc_user_country_seq(
                items@.take(i + 1),
            ));
        }
        i = i + 1;
    }
    proof {
        assert(items@.take(items@.len() as int) =~= items@);
        assert(out@ =~= old(out)@ + enc_user_country_list(items@));
    }
}

/// Appends a `u32` count, then each element's wire form.
fn write_room_name_list(out: &mut Vec<u8>, items: &Vec<(String, u32)>)
    requires
        items@.len() <= u32::MAX,
        forall|k: int| 0 <= k < items@.len() ==> str_fits((#[trigger] items@[k]).0@),
    ensures
        final(out)@ == old(out)@ + enc_room_name_list(items@),
{
    write_u32(out, items.len() as u32);
    let mut i: usize = 0;
    proof {
        assert(items@.take(0) =~= Seq::<(String, u32)>::empty());
    }
    while i < items.len()
        invariant
            i <= items@.len() <= u32::MAX,
            forall|k: int| 0 <= k < items@.len() ==> str_fits((#[trigger] items@[k]).0@),
            out@ == old(out)@ + enc_u32(items@.len() as u32) + enc_room_name_seq(items@.take(i as int)),
        decreases items@.len() - i,
    {
        write_str(out, items[i].0.as_str());
        proof {
            lemma_enc_room_name_seq_snoc(items@, i as int);
            assert(out@ =~= old(out)@ + enc_u32(items@.len() as u32) + enc_room_name_seq(
                items@.take(i + 1),
            ));
        }
        i = i + 1;
    }
    proof {
        assert(items@.take(items@.len() as int) =~= items@);
        assert(out@ =~= old(out)@ + enc_room_name_list(items@));
    }
}

/// Appends a `u32` count, then each element's wire form.
fn write_room_count_list(out: &mut Vec<u8>, items: &Vec<(String, u32)>)
    requires
        items@.len() <= u32::MAX,
    ensures
        final(out)@ == old(out)@ + enc_room_count_list(items@),
{
    write_u32(out, items.len() as u32);
    let mut i: usize = 0;
    proof {
        assert(items@.take(0) =~= Seq::<(String, u32)>::empty());
    }
    while i < items.len()
        invariant
            i <= items@.len() <= u32::MAX,
            out@ == old(out)@ + enc_u32(items@.len() as u32) + enc_room_count_seq(items@.take(i as int)),
        decreases items@.len() - i,
    {
        write_u32(out, items[i].1);
        proof {
            lemma_enc_room_count_seq_snoc(items@, i as int);
            assert(out@ =~= old(out)@ + enc_u32(items@.len() as u32) + enc_room_count_seq(
                items@.take(i + 1),
            ));
        }
        i = i + 1;
    }
    proof {
        assert(items@.take(items@.len() as int) =~= items@);
        assert(out@ =~= old(out)@ + enc_room_count_list(items@));
    }
}

// ---------------------------------------------------------------------------
// Responses.
// ---------------------------------------------------------------------------

/// Messages received from the server.
#[derive(Debug, Clone)]
pub enum ServerResponse {
    /// Successful login, with the server's greeting.
    LoginSuccess { greet: String, own_ip: Ipv4Addr, password_hash: String, is_supporter: bool },
    /// Rejected login.
    LoginFailure { reason: LoginRejectionReason, detail: Option<String> },
    /// A peer's address. The address `0.0.0.0` means the user is offline.
    GetPeerAddress {
        username: String,
        ip: Ipv4Addr,
        port: u32,
        obfuscation_type: ObfuscationType,
        obfuscated_port: u16,
    },
    /// Watch-user response.
    WatchUser {
        username: String,
        exists: bool,
        status: Option<UserStatus>,
        stats: Option<UserStats>,
        country_code: Option<String>,
    },
    /// User status update.
    GetUserStatus { username: String, status: UserStatus, privileged: bool },
    /// Chat room message.
    SayChatroom { room: String, username: String, message: String },
    /// Join room response.
    JoinRoom { room: String, users: Vec<RoomUser>, owner: Option<String>, operators: Vec<String> },
    /// Leave room response.
    LeaveRoom { room: String },
    /// A user joined a room we are in.
    UserJoinedRoom {
        room: String,
        username: String,
        status: UserStatus,
        stats: UserStats,
        slots_full: bool,
        country_code: String,
    },
    /// A user left a room we are in.
    UserLeftRoom { room: String, username: String },
    /// The server relays a peer's wish to connect: we should pierce.
    ConnectToPeer {
        username: String,
        connection_type: ConnectionType,
        ip: Ipv4Addr,
        port: u32,
        token: u32,
        privileged: bool,
        obfuscation_type: ObfuscationType,
        obfuscated_port: u32,
    },
    /// Private message received.
    MessageUser { id: u32, timestamp: u32, username: String, message: String, new_message: bool },
    /// A file search request relayed by the server.
    FileSearch { username: String, token: u32, query: String },
    /// User stats update.
    GetUserStats { username: String, stats: UserStats },
    /// We were logged in elsewhere.
    Relogged,
    /// Recommendations response.
    Recommendations {
        recommendations: Vec<(String, i32)>,
        unrecommendations: Vec<(String, i32)>,
    },
    /// Global recommendations response.
    GlobalRecommendations {
        recommendations: Vec<(String, i32)>,
        unrecommendations: Vec<(String, i32)>,
    },
    /// User interests response.
    UserInterests { username: String, likes: Vec<String>, hates: Vec<String> },
    /// Room list response, tiered by room kind.
    RoomList {
        rooms: Vec<(String, u32)>,
        owned_private_rooms: Vec<(String, u32)>,
        private_rooms: Vec<(String, u32)>,
        operated_private_rooms: Vec<String>,
    },
    /// Admin or global message.
    AdminMessage { message: String },
    /// List of privileged users.
    PrivilegedUsers { users: Vec<String> },
    /// Minimum upload speed to be a parent.
    ParentMinSpeed { speed: u32 },
    /// Speed ratio determining the number of children.
    ParentSpeedRatio { ratio: u32 },
    /// Privileges check response.
    CheckPrivileges { time_left: u32 },
    /// Embedded distributed message.
    EmbeddedMessage { code: u8, data: Vec<u8> },
    /// Possible parents for the distributed network.
    PossibleParents { parents: Vec<PossibleParent> },
    /// Wishlist search interval.
    WishlistInterval { interval: u32 },
    /// Similar users response.
    SimilarUsers { users: Vec<(String, u32)> },
    /// Item recommendations response.
    ItemRecommendations { item: String, recommendations: Vec<(String, i32)> },
    /// Item similar users response.
    ItemSimilarUsers { item: String, users: Vec<String> },
    /// Room ticker state.
    RoomTickerState { room: String, tickers: Vec<RoomTicker> },
    /// Room ticker added.
    RoomTickerAdd { room: String, username: String, ticker: String },
    /// Room ticker removed.
    RoomTickerRemove { room: String, username: String },
    /// Room invitations enabled or disabled.
    EnableRoomInvitations { enable: bool },
    /// Password changed.
    ChangePassword { password: String },
    /// Room operator added.
    AddRoomOperator { room: String, username: String },
    /// Room operator removed.
    RemoveRoomOperator { room: String, username: String },
    /// We were granted room operatorship.
    RoomOperatorshipGranted { room: String },
    /// Our room operatorship was revoked.
    RoomOperatorshipRevoked { room: String },
    /// List of room operators.
    RoomOperators { room: String, operators: Vec<String> },
    /// Room membership granted.
    RoomMembershipGranted { room: String },
    /// Room membership revoked.
    RoomMembershipRevoked { room: String },
    /// Room members list.
    RoomMembers { room: String, members: Vec<String> },
    /// Room member added.
    AddRoomMember { room: String, username: String },
    /// Room member removed.
    RemoveRoomMember { room: String, username: String },
    /// Reset the distributed network.
    ResetDistributed,
    /// Global room message.
    GlobalRoomMessage { room: String, username: String, message: String },
    /// Excluded search phrases.
    ExcludedSearchPhrases { phrases: Vec<String> },
    /// A peer could not connect to us.
    CantConnectToPeer { token: u32, username: String },
    /// A room could not be created.
    CantCreateRoom { room: String },
}

/// The kinds whose decoding is proved to invert their encoding: the
/// login replies and the connection-brokering kinds the coordinator
/// acts on. The remaining kinds are encoded and decoded like the rest
/// and their wire form is modelled in `server_resp_payload`, but the
/// decoder's inversion proof is not carried for them.
pub open spec fn server_round_trip_kind(m: ServerResponse) -> bool {
    match m {
        ServerResponse::LoginSuccess { .. } => true,
        ServerResponse::LoginFailure { .. } => true,
        ServerResponse::GetPeerAddress { .. } => true,
        ServerResponse::ConnectToPeer { .. } => true,
        ServerResponse::FileSearch { .. } => true,
        ServerResponse::CantConnectToPeer { .. } => true,
        _ => false,
    }
}

pub open spec fn server_resp_code(m: ServerResponse) -> ServerCode {
    match m {
        ServerResponse::LoginSuccess { .. } => ServerCode::Login,
        ServerResponse::LoginFailure { .. } => ServerCode::Login,
        ServerResponse::GetPeerAddress { .. } => ServerCode::GetPeerAddress,
        ServerResponse::WatchUser { .. } => ServerCode::WatchUser,
        ServerResponse::GetUserStatus { .. } => ServerCode::GetUserStatus,
        ServerResponse::SayChatroom { .. } => ServerCode::SayChatroom,
        ServerResponse::JoinRoom { .. } => ServerCode::JoinRoom,
        ServerResponse::LeaveRoom { .. } => ServerCode::LeaveRoom,
        ServerResponse::UserJoinedRoom { .. } => ServerCode::UserJoinedRoom,
        ServerResponse::UserLeftRoom { .. } => ServerCode::UserLeftRoom,
        ServerResponse::ConnectToPeer { .. } => ServerCode::ConnectToPeer,
        ServerResponse::MessageUser { .. } => ServerCode::MessageUser,
        ServerResponse::FileSearch { .. } => ServerCode::FileSearch,
        ServerResponse::GetUserStats { .. } => ServerCode::GetUserStats,
        ServerResponse::Relogged => ServerCode::Relogged,
        ServerResponse::Recommendations { .. } => ServerCode::GetRecommendations,
        ServerResponse::GlobalRecommendations { .. } => ServerCode::GetGlobalRecommendations,
        ServerResponse::UserInterests { .. } => ServerCode::GetUserInterests,
        ServerResponse::RoomList { .. } => ServerCode::RoomList,
        ServerResponse::AdminMessage { .. } => ServerCode::AdminMessage,
        ServerResponse::PrivilegedUsers { .. } => ServerCode::PrivilegedUsers,
        ServerResponse::ParentMinSpeed { .. } => ServerCode::ParentMinSpeed,
        ServerResponse::ParentSpeedRatio { .. } => ServerCode::ParentSpeedRatio,
        ServerResponse::CheckPrivileges { .. } => ServerCode::CheckPrivileges,
        ServerResponse::EmbeddedMessage { .. } => ServerCode::EmbeddedMessage,
        ServerResponse::PossibleParents { .. } => ServerCode::PossibleParents,
        ServerResponse::WishlistInterval { .. } => ServerCode::WishlistInterval,
        ServerResponse::SimilarUsers { .. } => ServerCode::GetSimilarUsers,
        ServerResponse::ItemRecommendations { .. } => ServerCode::GetItemRecommendations,
        ServerResponse::ItemSimilarUsers { .. } => ServerCode::GetItemSimilarUsers,
        ServerResponse::RoomTickerState { .. } => ServerCode::RoomTickerState,
        ServerResponse::RoomTickerAdd { .. } => ServerCode::RoomTickerAdd,
        ServerResponse::RoomTickerRemove { .. } => ServerCode::RoomTickerRemove,
        ServerResponse::EnableRoomInvitations { .. } => ServerCode::EnableRoomInvitations,
        ServerResponse::ChangePassword { .. } => ServerCode::ChangePassword,
        ServerResponse::AddRoomOperator { .. } => ServerCode::AddRoomOperator,
        ServerResponse::RemoveRoomOperator { .. } => ServerCode::RemoveRoomOperator,
        ServerResponse::RoomOperatorshipGranted { .. } => ServerCode::RoomOperatorshipGranted,
        ServerResponse::RoomOperatorshipRevoked { .. } => ServerCode::RoomOperatorshipRevoked,
        ServerResponse::RoomOperators { .. } => ServerCode::RoomOperators,
        ServerResponse::RoomMembershipGranted { .. } => ServerCode::RoomMembershipGranted,
        ServerResponse::RoomMembershipRevoked { .. } => ServerCode::RoomMembershipRevoked,
        ServerResponse::RoomMembers { .. } => ServerCode::RoomMembers,
        ServerResponse::AddRoomMember { .. } => ServerCode::AddRoomMember,
        ServerResponse::RemoveRoomMember { .. } => ServerCode::RemoveRoomMember,
        ServerResponse::ResetDistributed => ServerCode::ResetDistributed,
        ServerResponse::GlobalRoomMessage { .. } => ServerCode::GlobalRoomMessage,
        ServerResponse::ExcludedSearchPhrases { .. } => ServerCode::ExcludedSearchPhrases,
        ServerResponse::CantConnectToPeer { .. } => ServerCode::CantConnectToPeer,
        ServerResponse::CantCreateRoom { .. } => ServerCode::CantCreateRoom,
    }
}

/// Structural bounds for the kinds whose inversion proof is carried.
pub open spec fn wf_server_response(m: ServerResponse) -> bool {
    match m {
        ServerResponse::LoginSuccess { greet, password_hash, .. } => str_fits(greet@) && str_fits(
            password_hash@,
        ),
        ServerResponse::LoginFailure { reason, detail } => {
            &&& wf_login_rejection(reason)
            &&& str_fits(login_rejection_chars(reason))
            &&& match detail {
                Some(d) => str_fits(d@) && reason is InvalidUsername,
                None => true,
            }
        },
        ServerResponse::GetPeerAddress { username, .. } => str_fits(username@),
        ServerResponse::ConnectToPeer { username, .. } => str_fits(username@),
        ServerResponse::FileSearch { username, query, .. } => str_fits(username@) && str_fits(
            query@,
        ),
        ServerResponse::CantConnectToPeer { username, .. } => str_fits(username@),
        ServerResponse::WatchUser { username, exists, status, stats, country_code } => {
            &&& str_fits(username@)
            &&& exists ==> status is Some && stats is Some
            &&& !exists ==> status is None && stats is None && country_code is None
            &&& (exists && status == Some(UserStatus::Offline)) ==> country_code is None
            &&& match country_code { Some(c) => str_fits(c@), None => true }
        },
        ServerResponse::GetUserStatus { username, status, privileged } => {
            &&& str_fits(username@)
        },
        ServerResponse::SayChatroom { room, username, message } => {
            &&& str_fits(room@)
            &&& str_fits(username@)
            &&& str_fits(message@)
        },
        ServerResponse::JoinRoom { room, users, owner, operators } => {
            &&& str_fits(room@)
            &&& users@.len() <= u32::MAX
            &&& forall|k: int| 0 <= k < users@.len() ==> str_fits((#[trigger] users@[k]).username@) && str_fits(users@[k].country_code@)
            &&& match owner { Some(o) => str_fits(o@), None => operators@.len() == 0 }
            &&& wf_string_seq(operators@) && operators@.len() <= u32::MAX
        },
        ServerResponse::LeaveRoom { room } => {
            &&& str_fits(room@)
        },
        ServerResponse::UserJoinedRoom { room, username, status, stats, slots_full, country_code } => {
            &&& str_fits(room@)
            &&& str_fits(username@)
            &&& str_fits(country_code@)
        },
        ServerResponse::UserLeftRoom { room, username } => {
            &&& str_fits(room@)
            &&& str_fits(username@)
        },
        ServerResponse::MessageUser { id, timestamp, username, message, new_message } => {
            &&& str_fits(username@)
            &&& str_fits(message@)
        },
        ServerResponse::GetUserStats { username, stats } => {
            &&& str_fits(username@)
        },
        ServerResponse::Recommendations { recommendations, unrecommendations } => {
            &&& recommendations@.len() <= u32::MAX && (forall|k: int| 0 <= k < recommendations@.len() ==> str_fits((#[trigger] recommendations@[k]).0@))
            &&& unrecommendations@.len() <= u32::MAX && (forall|k: int| 0 <= k < unrecommendations@.len() ==> str_fits((#[trigger] unrecommendations@[k]).0@))
        },
        ServerResponse::GlobalRecommendations { recommendations, unrecommendations } => {
            &&& recommendations@.len() <= u32::MAX && (forall|k: int| 0 <= k < recommendations@.len() ==> str_fits((#[trigger] recommendations@[k]).0@))
            &&& unrecommendations@.len() <= u32::MAX && (forall|k: int| 0 <= k < unrecommendations@.len() ==> str_fits((#[trigger] unrecommendations@[k]).0@))
        },
        ServerResponse::UserInterests { username, likes, hates } => {
            &&& str_fits(username@)
            &&& wf_string_seq(likes@) && likes@.len() <= u32::MAX
            &&& wf_string_seq(hates@) && hates@.len() <= u32::MAX
        },
        ServerResponse::RoomList { rooms, owned_private_rooms, private_rooms, operated_private_rooms } => {
            &&& rooms@.len() <= u32::MAX && (forall|k: int| 0 <= k < rooms@.len() ==> str_fits((#[trigger] rooms@[k]).0@))
            &&& owned_private_rooms@.len() <= u32::MAX && (forall|k: int| 0 <= k < owned_private_rooms@.len() ==> str_fits((#[trigger] owned_private_rooms@[k]).0@))
            &&& private_rooms@.len() <= u32::MAX && (forall|k: int| 0 <= k < private_rooms@.len() ==> str_fits((#[trigger] private_rooms@[k]).0@))
            &&& wf_string_seq(operated_private_rooms@) && operated_private_rooms@.len() <= u32::MAX
        },
        ServerResponse::AdminMessage { message } => {
            &&& str_fits(message@)
        },
        ServerResponse::PrivilegedUsers { users } => {
            &&& wf_string_seq(users@) && users@.len() <= u32::MAX
        },
        ServerResponse::PossibleParents { parents } => {
            &&& parents@.len() <= u32::MAX && (forall|k: int| 0 <= k < parents@.len() ==> str_fits((#[trigger] parents@[k]).username@))
        },
        ServerResponse::SimilarUsers { users } => {
            &&& users@.len() <= u32::MAX && (forall|k: int| 0 <= k < users@.len() ==> str_fits((#[trigger] users@[k]).0@))
        },
        ServerResponse::ItemRecommendations { item, recommendations } => {
            &&& str_fits(item@)
            &&& recommendations@.len() <= u32::MAX && (forall|k: int| 0 <= k < recommendations@.len() ==> str_fits((#[trigger] recommendations@[k]).0@))
        },
        ServerResponse::ItemSimilarUsers { item, users } => {
            &&& str_fits(item@)
            &&& wf_string_seq(users@) && users@.len() <= u32::MAX
        },
        ServerResponse::RoomTickerState { room, tickers } => {
            &&& str_fits(room@)
            &&& tickers@.len() <= u32::MAX && (forall|k: int| 0 <= k < tickers@.len() ==> str_fits((#[trigger] tickers@[k]).username@) && str_fits(tickers@[k].ticker@))
        },
        ServerResponse::RoomTickerAdd { room, username, ticker } => {
            &&& str_fits(room@)
            &&& str_fits(username@)
            &&& str_fits(ticker@)
        },
        ServerResponse::RoomTickerRemove { room, username } => {
            &&& str_fits(room@)
            &&& str_fits(username@)
        },
        ServerResponse::ChangePassword { password } => {
            &&& str_fits(password@)
        },
        ServerResponse::AddRoomOperator { room, username } => {
            &&& str_fits(room@)
            &&& str_fits(username@)
        },
        ServerResponse::RemoveRoomOperator { room, username } => {
            &&& str_fits(room@)
            &&& str_fits(username@)
        },
        ServerResponse::RoomOperatorshipGranted { room } => {
            &&& str_fits(room@)
        },
        ServerResponse::RoomOperatorshipRevoked { room } => {
            &&& str_fits(room@)
        },
        ServerResponse::RoomOperators { room, operators } => {
            &&& str_fits(room@)
            &&& wf_string_seq(operators@) && operators@.len() <= u32::MAX
        },
        ServerResponse::RoomMembershipGranted { room } => {
            &&& str_fits(room@)
        },
        ServerResponse::RoomMembershipRevoked { room } => {
            &&& str_fits(room@)
        },
        ServerResponse::RoomMembers { room, members } => {
            &&& str_fits(room@)
            &&& wf_string_seq(members@) && members@.len() <= u32::MAX
        },
        ServerResponse::AddRoomMember { room, username } => {
            &&& str_fits(room@)
            &&& str_fits(username@)
        },
        ServerResponse::RemoveRoomMember { room, username } => {
            &&& str_fits(room@)
            &&& str_fits(username@)
        },
        ServerResponse::GlobalRoomMessage { room, username, message } => {
            &&& str_fits(room@)
            &&& str_fits(username@)
            &&& str_fits(message@)
        },
        ServerResponse::ExcludedSearchPhrases { phrases } => {
            &&& wf_string_seq(phrases@) && phrases@.len() <= u32::MAX
        },
        ServerResponse::CantCreateRoom { room } => {
            &&& str_fits(room@)
        },
        _ => true,
    }
}

/// The payload bytes of a response: what follows the `u32` code. The
/// room list writes each tier's names and counts as two parallel lists,
/// matching how they are read.
pub open spec fn server_resp_payload(m: ServerResponse) -> Seq<u8> {
    match m {
        ServerResponse::LoginSuccess { greet, own_ip, password_hash, is_supporter } => enc_bool(
            true,
        ) + (enc_str(greet@) + (enc_ipv4(own_ip) + (enc_str(password_hash@) + enc_bool(
            is_supporter,
        )))),
        ServerResponse::LoginFailure { reason, detail } => enc_bool(false) + (enc_str(
            login_rejection_chars(reason),
        ) + (match detail {
            Some(d) => enc_str(d@),
            None => Seq::empty(),
        })),
        ServerResponse::GetPeerAddress { username, ip, port, obfuscation_type, obfuscated_port } => enc_str(
            username@,
        ) + (enc_ipv4(ip) + (enc_u32(port) + (enc_u32(obfuscation_type_u32(obfuscation_type))
            + enc_u16(obfuscated_port)))),
        ServerResponse::ConnectToPeer {
            username,
            connection_type,
            ip,
            port,
            token,
            privileged,
            obfuscation_type,
            obfuscated_port,
        } => enc_str(username@) + (enc_str(connection_type_chars(connection_type)) + (enc_ipv4(ip)
            + (enc_u32(port) + (enc_u32(token) + (enc_bool(privileged) + (enc_u32(
            obfuscation_type_u32(obfuscation_type),
        ) + enc_u32(obfuscated_port))))))),
        ServerResponse::FileSearch { username, token, query } => enc_str(username@) + (enc_u32(
            token,
        ) + enc_str(query@)),
        ServerResponse::CantConnectToPeer { token, username } => enc_u32(token) + enc_str(
            username@,
        ),
        ServerResponse::Relogged => Seq::empty(),
        ServerResponse::ResetDistributed => Seq::empty(),
        ServerResponse::WatchUser { username, exists, status, stats, country_code } => enc_str(username@) + (enc_bool(exists) + (if exists {
            enc_u32(user_status_u32(status->0)) + (enc_stats(stats->0) + (match country_code {
                Some(c) => enc_str(c@),
                None => Seq::<u8>::empty(),
            }))
        } else {
            Seq::<u8>::empty()
        })),
        ServerResponse::GetUserStatus { username, status, privileged } => enc_str(username@) + (enc_u32(user_status_u32(status)) + (enc_bool(privileged))),
        ServerResponse::SayChatroom { room, username, message } => enc_str(room@) + (enc_str(username@) + (enc_str(message@))),
        ServerResponse::JoinRoom { room, users, owner, operators } => enc_str(room@) + (enc_user_name_list(users@) + (enc_user_status_list(users@) + (
        enc_user_stats_list(users@) + (enc_user_slots_list(users@) + (enc_user_country_list(
            users@,
        ) + (match owner {
            Some(o) => enc_str(o@) + enc_string_list(operators@),
            None => Seq::<u8>::empty(),
        })))))),
        ServerResponse::LeaveRoom { room } => enc_str(room@),
        ServerResponse::UserJoinedRoom { room, username, status, stats, slots_full, country_code } => enc_str(room@) + (enc_str(username@) + (enc_u32(user_status_u32(status)) + (enc_stats(stats) + (enc_u32(
            if slots_full {
                1u32
            } else {
                0u32
            },
        ) + (enc_str(country_code@)))))),
        ServerResponse::UserLeftRoom { room, username } => enc_str(room@) + (enc_str(username@)),
        ServerResponse::MessageUser { id, timestamp, username, message, new_message } => enc_u32(id) + (enc_u32(timestamp) + (enc_str(username@) + (enc_str(message@) + (enc_bool(new_message))))),
        ServerResponse::GetUserStats { username, stats } => enc_str(username@) + (enc_stats(stats)),
        ServerResponse::Recommendations { recommendations, unrecommendations } => enc_si_pair_list(recommendations@) + (enc_si_pair_list(unrecommendations@)),
        ServerResponse::GlobalRecommendations { recommendations, unrecommendations } => enc_si_pair_list(recommendations@) + (enc_si_pair_list(unrecommendations@)),
        ServerResponse::UserInterests { username, likes, hates } => enc_str(username@) + (enc_string_list(likes@) + (enc_string_list(hates@))),
        ServerResponse::RoomList { rooms, owned_private_rooms, private_rooms, operated_private_rooms } => enc_room_name_list(rooms@) + (enc_room_count_list(rooms@) + (enc_room_name_list(
            owned_private_rooms@,
        ) + (enc_room_count_list(owned_private_rooms@) + (enc_room_name_list(private_rooms@) + (
        enc_room_count_list(private_rooms@) + enc_string_list(operated_private_rooms@)))))),
        ServerResponse::AdminMessage { message } => enc_str(message@),
        ServerResponse::PrivilegedUsers { users } => enc_string_list(users@),
        ServerResponse::ParentMinSpeed { speed } => enc_u32(speed),
        ServerResponse::ParentSpeedRatio { ratio } => enc_u32(ratio),
        ServerResponse::CheckPrivileges { time_left } => enc_u32(time_left),
        ServerResponse::EmbeddedMessage { code, data } => enc_u8(code) + data@,
        ServerResponse::PossibleParents { parents } => enc_parent_list(parents@),
        ServerResponse::WishlistInterval { interval } => enc_u32(interval),
        ServerResponse::SimilarUsers { users } => enc_su_pair_list(users@),
        ServerResponse::ItemRecommendations { item, recommendations } => enc_str(item@) + (enc_si_pair_list(recommendations@)),
        ServerResponse::ItemSimilarUsers { item, users } => enc_str(item@) + (enc_string_list(users@)),
        ServerResponse::RoomTickerState { room, tickers } => enc_str(room@) + (enc_ticker_list(tickers@)),
        ServerResponse::RoomTickerAdd { room, username, ticker } => enc_str(room@) + (enc_str(username@) + (enc_str(ticker@))),
        ServerResponse::RoomTickerRemove { room, username } => enc_str(room@) + (enc_str(username@)),
        ServerResponse::EnableRoomInvitations { enable } => enc_bool(enable),
        ServerResponse::ChangePassword { password } => enc_str(password@),
        ServerResponse::AddRoomOperator { room, username } => enc_str(room@) + (enc_str(username@)),
        ServerResponse::RemoveRoomOperator { room, username } => enc_str(room@) + (enc_str(username@)),
        ServerResponse::RoomOperatorshipGranted { room } => enc_str(room@),
        ServerResponse::RoomOperatorshipRevoked { room } => enc_str(room@),
        ServerResponse::RoomOperators { room, operators } => enc_str(room@) + (enc_string_list(operators@)),
        ServerResponse::RoomMembershipGranted { room } => enc_str(room@),
        ServerResponse::RoomMembershipRevoked { room } => enc_str(room@),
        ServerResponse::RoomMembers { room, members } => enc_str(room@) + (enc_string_list(members@)),
        ServerResponse::AddRoomMember { room, username } => enc_str(room@) + (enc_str(username@)),
        ServerResponse::RemoveRoomMember { room, username } => enc_str(room@) + (enc_str(username@)),
        ServerResponse::GlobalRoomMessage { room, username, message } => enc_str(room@) + (enc_str(username@) + (enc_str(message@))),
        ServerResponse::ExcludedSearchPhrases { phrases } => enc_string_list(phrases@),
        ServerResponse::CantCreateRoom { room } => enc_str(room@),
    }
}

/// The complete frame of a response kind that `server_resp_payload`
/// models.
pub open spec fn server_resp_frame(m: ServerResponse) -> Seq<u8> {
    frame_u32(server_code_u32(server_resp_code(m)), server_resp_payload(m))
}

/// Equality up to content for the kinds whose inversion proof is
/// carried; false elsewhere, where it is never consulted.
pub open spec fn server_resp_eq(a: ServerResponse, b: ServerResponse) -> bool {
    match (a, b) {
        (
            ServerResponse::LoginSuccess {
                greet: g1,
                own_ip: i1,
                password_hash: h1,
                is_supporter: s1,
            },
            ServerResponse::LoginSuccess {
                greet: g2,
                own_ip: i2,
                password_hash: h2,
                is_supporter: s2,
            },
        ) => g1@ == g2@ && i1 == i2 && h1@ == h2@ && s1 == s2,
        (
            ServerResponse::LoginFailure { reason: r1, detail: d1 },
            ServerResponse::LoginFailure { reason: r2, detail: d2 },
        ) => login_rejection_chars(r1) == login_rejection_chars(r2) && (r1 is Other <==> r2
            is Other) && (match (d1, d2) {
            (Some(x1), Some(x2)) => x1@ == x2@,
            (None, None) => true,
            _ => false,
        }),
        (
            ServerResponse::GetPeerAddress {
                username: u1,
                ip: i1,
                port: p1,
                obfuscation_type: o1,
                obfuscated_port: q1,
            },
            ServerResponse::GetPeerAddress {
                username: u2,
                ip: i2,
                port: p2,
                obfuscation_type: o2,
                obfuscated_port: q2,
            },
        ) => u1@ == u2@ && i1 == i2 && p1 == p2 && o1 == o2 && q1 == q2,
        (
            ServerResponse::ConnectToPeer {
                username: u1,
                connection_type: c1,
                ip: i1,
                port: p1,
                token: t1,
                privileged: v1,
                obfuscation_type: o1,
                obfuscated_port: q1,
            },
            ServerResponse::ConnectToPeer {
                username: u2,
                connection_type: c2,
                ip: i2,
                port: p2,
                token: t2,
                privileged: v2,
                obfuscation_type: o2,
                obfuscated_port: q2,
            },
        ) => u1@ == u2@ && c1 == c2 && i1 == i2 && p1 == p2 && t1 == t2 && v1 == v2 && o1 == o2
            && q1 == q2,
        (
            ServerResponse::FileSearch { username: u1, token: t1, query: q1 },
            ServerResponse::FileSearch { username: u2, token: t2, query: q2 },
        ) => u1@ == u2@ && t1 == t2 && q1@ == q2@,
        (
            ServerResponse::CantConnectToPeer { token: t1, username: u1 },
            ServerResponse::CantConnectToPeer { token: t2, username: u2 },
        ) => t1 == t2 && u1@ == u2@,
        _ => false,
    }
}


/// Splits a response frame at offset `i` into its parts.
proof fn server_frame_parts(data: Seq<u8>, i: int, m: ServerResponse)
    requires
        wf_server_response(m),
        frame_fits_u32(server_resp_payload(m)),
        prefix_at(data, i, server_resp_frame(m)),
    ensures
        i + 8 + server_resp_payload(m).len() <= data.len(),
        data.subrange(i, i + 4) == enc_u32((4 + server_resp_payload(m).len()) as u32),
        data.subrange(i + 4, i + 8) == enc_u32(server_code_u32(server_resp_code(m))),
        prefix_at(data, i + 8, server_resp_payload(m)),
        server_resp_frame(m).len() == 8 + server_resp_payload(m).len(),
{
    broadcast use crate::protocol::group_enc_facts;

    let pl = server_resp_payload(m);
    let code = server_code_u32(server_resp_code(m));
    take_prefix_at(
        data,
        i,
        i + server_resp_frame(m).len(),
        enc_u32((4 + pl.len()) as u32),
        enc_u32(code) + pl,
    );
    split_u32(data, i + 4, code, pl);
}


/// Splits a login-reply frame at offset `i` into its parts.
proof fn resp_login_parts(data: Seq<u8>, i: int, m: ServerResponse, frame_end: int)
    requires
        wf_server_response(m),
        frame_fits_u32(server_resp_payload(m)),
        prefix_at(data, i, server_resp_frame(m)),
        data.subrange(i + 4, i + 8) == enc_u32(1),
        data.subrange(i, i + 4) == enc_u32((frame_end - i - 4) as u32),
        frame_end - i - 4 <= u32::MAX,
        i + 8 <= frame_end,
    ensures
        m is LoginSuccess || m is LoginFailure,
        i + 8 + server_resp_payload(m).len() <= data.len(),
        server_resp_frame(m).len() == 8 + server_resp_payload(m).len(),
        frame_end == i + server_resp_frame(m).len(),
        prefix_at(data, i + 8, server_resp_payload(m)),
        m is LoginSuccess ==> {
            let pstart = i + 8;
            let g = m->LoginSuccess_greet@;
            let h = m->LoginSuccess_password_hash@;
            let n1 = pstart + 1 + enc_str(g).len();
            let n2 = n1 + 4;
            &&& data[pstart] == 1
            &&& data.subrange(pstart + 1, pstart + 5) == enc_u32(encode_utf8(g).len() as u32)
            &&& data.subrange(pstart + 5, pstart + 1 + enc_str(g).len()) == encode_utf8(g)
            &&& crate::protocol::str_starts_at(data, pstart + 1)
            &&& data.subrange(n1, n2) == enc_ipv4(m->LoginSuccess_own_ip)
            &&& data.subrange(n2, n2 + 4) == enc_u32(encode_utf8(h).len() as u32)
            &&& data.subrange(n2 + 4, n2 + enc_str(h).len()) == encode_utf8(h)
            &&& crate::protocol::str_starts_at(data, n2)
            &&& data[n2 + enc_str(h).len()] == (if m->LoginSuccess_is_supporter {
                1u8
            } else {
                0u8
            })
            &&& n2 + enc_str(h).len() + 1 == i + server_resp_frame(m).len()
        },
        m is LoginFailure ==> {
            let pstart = i + 8;
            let rc = login_rejection_chars(m->LoginFailure_reason);
            let n1 = pstart + 1 + enc_str(rc).len();
            &&& data[pstart] == 0
            &&& data.subrange(pstart + 1, pstart + 5) == enc_u32(encode_utf8(rc).len() as u32)
            &&& data.subrange(pstart + 5, n1) == encode_utf8(rc)
            &&& crate::protocol::str_starts_at(data, pstart + 1)
            &&& match m->LoginFailure_detail {
                Some(d) => {
                    &&& data.subrange(n1, n1 + 4) == enc_u32(encode_utf8(d@).len() as u32)
                    &&& data.subrange(n1 + 4, n1 + enc_str(d@).len()) == encode_utf8(d@)
                    &&& crate::protocol::str_starts_at(data, n1)
                    &&& n1 + enc_str(d@).len() == i + server_resp_frame(m).len()
                },
                None => n1 == i + server_resp_frame(m).len(),
            }
        },
{
    broadcast use crate::protocol::group_enc_facts;

    server_frame_parts(data, i, m);
    assert(m is LoginSuccess || m is LoginFailure);
    let pstart = i + 8;
    if m is LoginSuccess {
        let g = m->LoginSuccess_greet@;
        let h = m->LoginSuccess_password_hash@;
        assert(server_resp_payload(m) =~= enc_bool(true) + (enc_str(g) + (enc_ipv4(
            m->LoginSuccess_own_ip,
        ) + (enc_str(h) + (enc_bool(m->LoginSuccess_is_supporter) + Seq::<u8>::empty())))));
        split_bool(data, pstart, true, enc_str(g) + (enc_ipv4(m->LoginSuccess_own_ip) + (enc_str(
            h,
        ) + (enc_bool(m->LoginSuccess_is_supporter) + Seq::<u8>::empty()))));
        split_str(data, pstart + 1, g, enc_ipv4(m->LoginSuccess_own_ip) + (enc_str(h) + (enc_bool(
            m->LoginSuccess_is_supporter,
        ) + Seq::<u8>::empty())));
        let n1 = pstart + 1 + enc_str(g).len();
        split_ipv4(data, n1, m->LoginSuccess_own_ip, enc_str(h) + (enc_bool(
            m->LoginSuccess_is_supporter,
        ) + Seq::<u8>::empty()));
        split_str(data, n1 + 4, h, enc_bool(m->LoginSuccess_is_supporter) + Seq::<u8>::empty());
        split_bool(
            data,
            n1 + 4 + enc_str(h).len(),
            m->LoginSuccess_is_supporter,
            Seq::<u8>::empty(),
        );
    } else {
        let rc = login_rejection_chars(m->LoginFailure_reason);
        let dpart = match m->LoginFailure_detail {
            Some(d) => enc_str(d@),
            None => Seq::<u8>::empty(),
        };
        assert(server_resp_payload(m) =~= enc_bool(false) + (enc_str(rc) + dpart));
        split_bool(data, pstart, false, enc_str(rc) + dpart);
        split_str(data, pstart + 1, rc, dpart);
        match m->LoginFailure_detail {
            Some(d) => {
                assert(dpart =~= enc_str(d@) + Seq::<u8>::empty());
                split_str(data, pstart + 1 + enc_str(rc).len(), d@, Seq::<u8>::empty());
            },
            None => {},
        }
    }
}

#[verifier::rlimit(100)]
fn read_login_response_body(data: &Vec<u8>, pos: &mut usize, frame_end: usize, Ghost(start): Ghost<
    int,
>) -> (r: Result<ServerResponse, Error>)
    requires
        0 <= start,
        *old(pos) == start + 8,
        *old(pos) <= frame_end <= data@.len(),
        frame_end - start - 4 <= u32::MAX,
        data@.subrange(start, start + 4) == enc_u32((frame_end - start - 4) as u32),
        data@.subrange(start + 4, start + 8) == enc_u32(1),
    ensures
        *old(pos) <= *final(pos) <= data@.len(),
        forall|m: ServerResponse|
            wf_server_response(m) && frame_fits_u32(server_resp_payload(m))
                && server_round_trip_kind(m) && #[trigger] prefix_at(
                data@,
                start,
                server_resp_frame(m),
            ) ==> (r matches Ok(v) && server_resp_eq(v, m) && *final(pos) == start
                + server_resp_frame(m).len()),
{
    broadcast use crate::protocol::group_enc_facts;

    let ghost pstart = start + 8;
    let success = match read_bool(data, pos) {
        Ok(v) => v,
        Err(e) => {
            proof {
            assert forall|m: ServerResponse| wf_server_response(m) && frame_fits_u32(server_resp_payload(m))
                && server_round_trip_kind(m) && #[trigger] prefix_at(
                data@,
                start,
                server_resp_frame(m),
            ) implies false by {
                resp_login_parts(data@, start, m, frame_end as int);
            }
        }
            return Err(e);
        },
    };
    if success {
        let greet = match read_string(data, pos) {
            Ok(v) => v,
        Err(e) => {
            proof {
            assert forall|m: ServerResponse| wf_server_response(m) && frame_fits_u32(server_resp_payload(m))
                && server_round_trip_kind(m) && #[trigger] prefix_at(
                data@,
                start,
                server_resp_frame(m),
            ) implies false by {
                resp_login_parts(data@, start, m, frame_end as int);
                assert(m is LoginSuccess);
            }
        }
            return Err(e);
        },
        };
        let own_ip = match read_ipv4(data, pos) {
            Ok(v) => v,
        Err(e) => {
            proof {
            assert forall|m: ServerResponse| wf_server_response(m) && frame_fits_u32(server_resp_payload(m))
                && server_round_trip_kind(m) && #[trigger] prefix_at(
                data@,
                start,
                server_resp_frame(m),
            ) implies false by {
                resp_login_parts(data@, start, m, frame_end as int);
                assert(m is LoginSuccess);
                match_str_at(data@, pstart + 1, greet@, m->LoginSuccess_greet@);
            }
        }
            return Err(e);
        },
        };
        let password_hash = match read_string(data, pos) {
            Ok(v) => v,
        Err(e) => {
            proof {
            assert forall|m: ServerResponse| wf_server_response(m) && frame_fits_u32(server_resp_payload(m))
                && server_round_trip_kind(m) && #[trigger] prefix_at(
                data@,
                start,
                server_resp_frame(m),
            ) implies false by {
                resp_login_parts(data@, start, m, frame_end as int);
                assert(m is LoginSuccess);
                match_str_at(data@, pstart + 1, greet@, m->LoginSuccess_greet@);
            }
        }
            return Err(e);
        },
        };
        let is_supporter = match read_bool(data, pos) {
            Ok(v) => v,
        Err(e) => {
            proof {
            assert forall|m: ServerResponse| wf_server_response(m) && frame_fits_u32(server_resp_payload(m))
                && server_round_trip_kind(m) && #[trigger] prefix_at(
                data@,
                start,
                server_resp_frame(m),
            ) implies false by {
                resp_login_parts(data@, start, m, frame_end as int);
                assert(m is LoginSuccess);
                match_str_at(data@, pstart + 1, greet@, m->LoginSuccess_greet@);
                match_str_at(
                    data@,
                    pstart + 5 + enc_str(m->LoginSuccess_greet@).len(),
                    password_hash@,
                    m->LoginSuccess_password_hash@,
                );
            }
        }
            return Err(e);
        },
        };
        let v = ServerResponse::LoginSuccess { greet, own_ip, password_hash, is_supporter };
        proof {
            assert forall|m: ServerResponse| wf_server_response(m) && frame_fits_u32(server_resp_payload(m))
                && server_round_trip_kind(m) && #[trigger] prefix_at(
                data@,
                start,
                server_resp_frame(m),
            ) implies server_resp_eq(v, m) && *pos == start + server_resp_frame(m).len() by {
                resp_login_parts(data@, start, m, frame_end as int);
                assert(m is LoginSuccess);
                match_str_at(data@, pstart + 1, greet@, m->LoginSuccess_greet@);
                match_str_at(
                    data@,
                    pstart + 5 + enc_str(m->LoginSuccess_greet@).len(),
                    password_hash@,
                    m->LoginSuccess_password_hash@,
                );
            }
        }
        Ok(v)
    } else {
        let reason_str = match read_string(data, pos) {
            Ok(v) => v,
        Err(e) => {
            proof {
            assert forall|m: ServerResponse| wf_server_response(m) && frame_fits_u32(server_resp_payload(m))
                && server_round_trip_kind(m) && #[trigger] prefix_at(
                data@,
                start,
                server_resp_frame(m),
            ) implies false by {
                resp_login_parts(data@, start, m, frame_end as int);
                assert(m is LoginFailure);
            }
        }
            return Err(e);
        },
        };
        let ghost reason_chars = reason_str@;
        let vreason = LoginRejectionReason::from_string(reason_str);
        let detail = if matches!(vreason, LoginRejectionReason::InvalidUsername) && *pos
            < frame_end {
            match read_string(data, pos) {
                Ok(d) => Some(d),
        Err(e) => {
            proof {
            assert forall|m: ServerResponse| wf_server_response(m) && frame_fits_u32(server_resp_payload(m))
                && server_round_trip_kind(m) && #[trigger] prefix_at(
                data@,
                start,
                server_resp_frame(m),
            ) implies false by {
                resp_login_parts(data@, start, m, frame_end as int);
                assert(m is LoginFailure);
                match_str_at(
                    data@,
                    pstart + 1,
                    reason_chars,
                    login_rejection_chars(m->LoginFailure_reason),
                );
                crate::constants::lemma_login_rejection_variant(vreason, m->LoginFailure_reason);
            }
        }
            return Err(e);
        },
            }
        } else {
            None
        };
        let v = ServerResponse::LoginFailure { reason: vreason, detail };
        proof {
            assert forall|m: ServerResponse| wf_server_response(m) && frame_fits_u32(server_resp_payload(m))
                && server_round_trip_kind(m) && #[trigger] prefix_at(
                data@,
                start,
                server_resp_frame(m),
            ) implies server_resp_eq(v, m) && *pos == start + server_resp_frame(m).len() by {
                resp_login_parts(data@, start, m, frame_end as int);
                assert(m is LoginFailure);
                match_str_at(
                    data@,
                    pstart + 1,
                    reason_chars,
                    login_rejection_chars(m->LoginFailure_reason),
                );
                crate::constants::lemma_login_rejection_variant(vreason, m->LoginFailure_reason);
                match (detail, m->LoginFailure_detail) {
                    (Some(vd), Some(md)) => {
                        match_str_at(
                            data@,
                            pstart + 1 + enc_str(
                                login_rejection_chars(m->LoginFailure_reason),
                            ).len(),
                            vd@,
                            md@,
                        );
                    },
                    _ => {},
                }
            }
        }
        Ok(v)
    }
}

#[verifier::rlimit(60)]
fn read_get_peer_address_body(data: &Vec<u8>, pos: &mut usize, frame_end: usize, Ghost(start): Ghost<int>) -> (r: Result<
    ServerResponse,
    Error,
>)
    requires
        0 <= start,
        *old(pos) == start + 8,
        *old(pos) <= frame_end <= data@.len(),
        frame_end - start - 4 <= u32::MAX,
        data@.subrange(start, start + 4) == enc_u32((frame_end - start - 4) as u32),
        data@.subrange(start + 4, start + 8) == enc_u32(3),
    ensures
        *old(pos) <= *final(pos) <= data@.len(),
        forall|m: ServerResponse|
            wf_server_response(m) && frame_fits_u32(server_resp_payload(m))
                && server_round_trip_kind(m) && #[trigger] prefix_at(
                data@,
                start,
                server_resp_frame(m),
            ) ==> (r matches Ok(v) && server_resp_eq(v, m) && *final(pos) == start
                + server_resp_frame(m).len()),
{
    broadcast use crate::protocol::group_enc_facts;

    let ghost pstart = start + 8;
    let username = match read_string(data, pos) {
        Ok(v) => v,
        Err(e) => {
            proof {
            assert forall|m: ServerResponse| wf_server_response(m) && frame_fits_u32(server_resp_payload(m))
                && server_round_trip_kind(m) && #[trigger] prefix_at(
                data@,
                start,
                server_resp_frame(m),
            ) implies false by {
                server_frame_parts(data@, start, m);
                assert(m is GetPeerAddress);
                assert(server_resp_payload(m) =~= enc_str(m->GetPeerAddress_username@) + (enc_ipv4(
                    m->GetPeerAddress_ip,
                ) + (enc_u32(m->GetPeerAddress_port) + (enc_u32(
                    obfuscation_type_u32(m->GetPeerAddress_obfuscation_type),
                ) + enc_u16(m->GetPeerAddress_obfuscated_port)))));
                split_str(data@, pstart, m->GetPeerAddress_username@, enc_ipv4(
                    m->GetPeerAddress_ip,
                ) + (enc_u32(m->GetPeerAddress_port) + (enc_u32(
                    obfuscation_type_u32(m->GetPeerAddress_obfuscation_type),
                ) + enc_u16(m->GetPeerAddress_obfuscated_port))));
                split_ipv4(
                    data@,
                    pstart + enc_str(m->GetPeerAddress_username@).len(),
                    m->GetPeerAddress_ip,
                    enc_u32(m->GetPeerAddress_port) + (enc_u32(
                        obfuscation_type_u32(m->GetPeerAddress_obfuscation_type),
                    ) + enc_u16(m->GetPeerAddress_obfuscated_port)),
                );
                split_u32(
                    data@,
                    pstart + enc_str(m->GetPeerAddress_username@).len() + 4,
                    m->GetPeerAddress_port,
                    enc_u32(obfuscation_type_u32(m->GetPeerAddress_obfuscation_type)) + enc_u16(
                        m->GetPeerAddress_obfuscated_port,
                    ),
                );
                split_u32(
                    data@,
                    pstart + enc_str(m->GetPeerAddress_username@).len() + 8,
                    obfuscation_type_u32(m->GetPeerAddress_obfuscation_type),
                    enc_u16(m->GetPeerAddress_obfuscated_port),
                );
                split_u16(
                    data@,
                    pstart + enc_str(m->GetPeerAddress_username@).len() + 12,
                    m->GetPeerAddress_obfuscated_port,
                    Seq::<u8>::empty(),
                );
                assert(spec_obfuscation_type_from(
                    obfuscation_type_u32(m->GetPeerAddress_obfuscation_type),
                ) == Some(m->GetPeerAddress_obfuscation_type));
            }
        }
            return Err(e);
        },
    };
    let ip = match read_ipv4(data, pos) {
        Ok(v) => v,
        Err(e) => {
            proof {
            assert forall|m: ServerResponse| wf_server_response(m) && frame_fits_u32(server_resp_payload(m))
                && server_round_trip_kind(m) && #[trigger] prefix_at(
                data@,
                start,
                server_resp_frame(m),
            ) implies false by {
                server_frame_parts(data@, start, m);
                assert(m is GetPeerAddress);
                assert(server_resp_payload(m) =~= enc_str(m->GetPeerAddress_username@) + (enc_ipv4(
                    m->GetPeerAddress_ip,
                ) + (enc_u32(m->GetPeerAddress_port) + (enc_u32(
                    obfuscation_type_u32(m->GetPeerAddress_obfuscation_type),
                ) + enc_u16(m->GetPeerAddress_obfuscated_port)))));
                split_str(data@, pstart, m->GetPeerAddress_username@, enc_ipv4(
                    m->GetPeerAddress_ip,
                ) + (enc_u32(m->GetPeerAddress_port) + (enc_u32(
                    obfuscation_type_u32(m->GetPeerAddress_obfuscation_type),
                ) + enc_u16(m->GetPeerAddress_obfuscated_port))));
                split_ipv4(
                    data@,
                    pstart + enc_str(m->GetPeerAddress_username@).len(),
                    m->GetPeerAddress_ip,
                    enc_u32(m->GetPeerAddress_port) + (enc_u32(
                        obfuscation_type_u32(m->GetPeerAddress_obfuscation_type),
                    ) + enc_u16(m->GetPeerAddress_obfuscated_port)),
                );
                split_u32(
                    data@,
                    pstart + enc_str(m->GetPeerAddress_username@).len() + 4,
                    m->GetPeerAddress_port,
                    enc_u32(obfuscation_type_u32(m->GetPeerAddress_obfuscation_type)) + enc_u16(
                        m->GetPeerAddress_obfuscated_port,
                    ),
                );
                split_u32(
                    data@,
                    pstart + enc_str(m->GetPeerAddress_username@).len() + 8,
                    obfuscation_type_u32(m->GetPeerAddress_obfuscation_type),
                    enc_u16(m->GetPeerAddress_obfuscated_port),
                );
                split_u16(
                    data@,
                    pstart + enc_str(m->GetPeerAddress_username@).len() + 12,
                    m->GetPeerAddress_obfuscated_port,
                    Seq::<u8>::empty(),
                );
                assert(spec_obfuscation_type_from(
                    obfuscation_type_u32(m->GetPeerAddress_obfuscation_type),
                ) == Some(m->GetPeerAddress_obfuscation_type));
                match_str_at(data@, pstart, username@, m->GetPeerAddress_username@);
            }
        }
            return Err(e);
        },
    };
    let port = match read_u32(data, pos) {
        Ok(v) => v,
        Err(e) => {
            proof {
            assert forall|m: ServerResponse| wf_server_response(m) && frame_fits_u32(server_resp_payload(m))
                && server_round_trip_kind(m) && #[trigger] prefix_at(
                data@,
                start,
                server_resp_frame(m),
            ) implies false by {
                server_frame_parts(data@, start, m);
                assert(m is GetPeerAddress);
                assert(server_resp_payload(m) =~= enc_str(m->GetPeerAddress_username@) + (enc_ipv4(
                    m->GetPeerAddress_ip,
                ) + (enc_u32(m->GetPeerAddress_port) + (enc_u32(
                    obfuscation_type_u32(m->GetPeerAddress_obfuscation_type),
                ) + enc_u16(m->GetPeerAddress_obfuscated_port)))));
                split_str(data@, pstart, m->GetPeerAddress_username@, enc_ipv4(
                    m->GetPeerAddress_ip,
                ) + (enc_u32(m->GetPeerAddress_port) + (enc_u32(
                    obfuscation_type_u32(m->GetPeerAddress_obfuscation_type),
                ) + enc_u16(m->GetPeerAddress_obfuscated_port))));
                split_ipv4(
                    data@,
                    pstart + enc_str(m->GetPeerAddress_username@).len(),
                    m->GetPeerAddress_ip,
                    enc_u32(m->GetPeerAddress_port) + (enc_u32(
                        obfuscation_type_u32(m->GetPeerAddress_obfuscation_type),
                    ) + enc_u16(m->GetPeerAddress_obfuscated_port)),
                );
                split_u32(
                    data@,
                    pstart + enc_str(m->GetPeerAddress_username@).len() + 4,
                    m->GetPeerAddress_port,
                    enc_u32(obfuscation_type_u32(m->GetPeerAddress_obfuscation_type)) + enc_u16(
                        m->GetPeerAddress_obfuscated_port,
                    ),
                );
                split_u32(
                    data@,
                    pstart + enc_str(m->GetPeerAddress_username@).len() + 8,
                    obfuscation_type_u32(m->GetPeerAddress_obfuscation_type),
                    enc_u16(m->GetPeerAddress_obfuscated_port),
                );
                split_u16(
                    data@,
                    pstart + enc_str(m->GetPeerAddress_username@).len() + 12,
                    m->GetPeerAddress_obfuscated_port,
                    Seq::<u8>::empty(),
                );
                assert(spec_obfuscation_type_from(
                    obfuscation_type_u32(m->GetPeerAddress_obfuscation_type),
                ) == Some(m->GetPeerAddress_obfuscation_type));
                match_str_at(data@, pstart, username@, m->GetPeerAddress_username@);
            }
        }
            return Err(e);
        },
    };
    let obs_val = match read_u32(data, pos) {
        Ok(v) => v,
        Err(e) => {
            proof {
            assert forall|m: ServerResponse| wf_server_response(m) && frame_fits_u32(server_resp_payload(m))
                && server_round_trip_kind(m) && #[trigger] prefix_at(
                data@,
                start,
                server_resp_frame(m),
            ) implies false by {
                server_frame_parts(data@, start, m);
                assert(m is GetPeerAddress);
                assert(server_resp_payload(m) =~= enc_str(m->GetPeerAddress_username@) + (enc_ipv4(
                    m->GetPeerAddress_ip,
                ) + (enc_u32(m->GetPeerAddress_port) + (enc_u32(
                    obfuscation_type_u32(m->GetPeerAddress_obfuscation_type),
                ) + enc_u16(m->GetPeerAddress_obfuscated_port)))));
                split_str(data@, pstart, m->GetPeerAddress_username@, enc_ipv4(
                    m->GetPeerAddress_ip,
                ) + (enc_u32(m->GetPeerAddress_port) + (enc_u32(
                    obfuscation_type_u32(m->GetPeerAddress_obfuscation_type),
                ) + enc_u16(m->GetPeerAddress_obfuscated_port))));
                split_ipv4(
                    data@,
                    pstart + enc_str(m->GetPeerAddress_username@).len(),
                    m->GetPeerAddress_ip,
                    enc_u32(m->GetPeerAddress_port) + (enc_u32(
                        obfuscation_type_u32(m->GetPeerAddress_obfuscation_type),
                    ) + enc_u16(m->GetPeerAddress_obfuscated_port)),
                );
                split_u32(
                    data@,
                    pstart + enc_str(m->GetPeerAddress_username@).len() + 4,
                    m->GetPeerAddress_port,
                    enc_u32(obfuscation_type_u32(m->GetPeerAddress_obfuscation_type)) + enc_u16(
                        m->GetPeerAddress_obfuscated_port,
                    ),
                );
                split_u32(
                    data@,
                    pstart + enc_str(m->GetPeerAddress_username@).len() + 8,
                    obfuscation_type_u32(m->GetPeerAddress_obfuscation_type),
                    enc_u16(m->GetPeerAddress_obfuscated_port),
                );
                split_u16(
                    data@,
                    pstart + enc_str(m->GetPeerAddress_username@).len() + 12,
                    m->GetPeerAddress_obfuscated_port,
                    Seq::<u8>::empty(),
                );
                assert(spec_obfuscation_type_from(
                    obfuscation_type_u32(m->GetPeerAddress_obfuscation_type),
                ) == Some(m->GetPeerAddress_obfuscation_type));
                match_str_at(data@, pstart, username@, m->GetPeerAddress_username@);
            }
        }
            return Err(e);
        },
    };
    let obfuscation_type = match ObfuscationType::try_from(obs_val) {
        Ok(v) => v,
        Err(e) => {
            proof {
            assert forall|m: ServerResponse| wf_server_response(m) && frame_fits_u32(server_resp_payload(m))
                && server_round_trip_kind(m) && #[trigger] prefix_at(
                data@,
                start,
                server_resp_frame(m),
            ) implies false by {
                server_frame_parts(data@, start, m);
                assert(m is GetPeerAddress);
                assert(server_resp_payload(m) =~= enc_str(m->GetPeerAddress_username@) + (enc_ipv4(
                    m->GetPeerAddress_ip,
                ) + (enc_u32(m->GetPeerAddress_port) + (enc_u32(
                    obfuscation_type_u32(m->GetPeerAddress_obfuscation_type),
                ) + enc_u16(m->GetPeerAddress_obfuscated_port)))));
                split_str(data@, pstart, m->GetPeerAddress_username@, enc_ipv4(
                    m->GetPeerAddress_ip,
                ) + (enc_u32(m->GetPeerAddress_port) + (enc_u32(
                    obfuscation_type_u32(m->GetPeerAddress_obfuscation_type),
                ) + enc_u16(m->GetPeerAddress_obfuscated_port))));
                split_ipv4(
                    data@,
                    pstart + enc_str(m->GetPeerAddress_username@).len(),
                    m->GetPeerAddress_ip,
                    enc_u32(m->GetPeerAddress_port) + (enc_u32(
                        obfuscation_type_u32(m->GetPeerAddress_obfuscation_type),
                    ) + enc_u16(m->GetPeerAddress_obfuscated_port)),
                );
                split_u32(
                    data@,
                    pstart + enc_str(m->GetPeerAddress_username@).len() + 4,
                    m->GetPeerAddress_port,
                    enc_u32(obfuscation_type_u32(m->GetPeerAddress_obfuscation_type)) + enc_u16(
                        m->GetPeerAddress_obfuscated_port,
                    ),
                );
                split_u32(
                    data@,
                    pstart + enc_str(m->GetPeerAddress_username@).len() + 8,
                    obfuscation_type_u32(m->GetPeerAddress_obfuscation_type),
                    enc_u16(m->GetPeerAddress_obfuscated_port),
                );
                split_u16(
                    data@,
                    pstart + enc_str(m->GetPeerAddress_username@).len() + 12,
                    m->GetPeerAddress_obfuscated_port,
                    Seq::<u8>::empty(),
                );
                assert(spec_obfuscation_type_from(
                    obfuscation_type_u32(m->GetPeerAddress_obfuscation_type),
                ) == Some(m->GetPeerAddress_obfuscation_type));
                match_str_at(data@, pstart, username@, m->GetPeerAddress_username@);
            }
        }
            return Err(e);
        },
    };
    let obfuscated_port = match read_u16(data, pos) {
        Ok(v) => v,
        Err(e) => {
            proof {
            assert forall|m: ServerResponse| wf_server_response(m) && frame_fits_u32(server_resp_payload(m))
                && server_round_trip_kind(m) && #[trigger] prefix_at(
                data@,
                start,
                server_resp_frame(m),
            ) implies false by {
                server_frame_parts(data@, start, m);
                assert(m is GetPeerAddress);
                assert(server_resp_payload(m) =~= enc_str(m->GetPeerAddress_username@) + (enc_ipv4(
                    m->GetPeerAddress_ip,
                ) + (enc_u32(m->GetPeerAddress_port) + (enc_u32(
                    obfuscation_type_u32(m->GetPeerAddress_obfuscation_type),
                ) + enc_u16(m->GetPeerAddress_obfuscated_port)))));
                split_str(data@, pstart, m->GetPeerAddress_username@, enc_ipv4(
                    m->GetPeerAddress_ip,
                ) + (enc_u32(m->GetPeerAddress_port) + (enc_u32(
                    obfuscation_type_u32(m->GetPeerAddress_obfuscation_type),
                ) + enc_u16(m->GetPeerAddress_obfuscated_port))));
                split_ipv4(
                    data@,
                    pstart + enc_str(m->GetPeerAddress_username@).len(),
                    m->GetPeerAddress_ip,
                    enc_u32(m->GetPeerAddress_port) + (enc_u32(
                        obfuscation_type_u32(m->GetPeerAddress_obfuscation_type),
                    ) + enc_u16(m->GetPeerAddress_obfuscated_port)),
                );
                split_u32(
                    data@,
                    pstart + enc_str(m->GetPeerAddress_username@).len() + 4,
                    m->GetPeerAddress_port,
                    enc_u32(obfuscation_type_u32(m->GetPeerAddress_obfuscation_type)) + enc_u16(
                        m->GetPeerAddress_obfuscated_port,
                    ),
                );
                split_u32(
                    data@,
                    pstart + enc_str(m->GetPeerAddress_username@).len() + 8,
                    obfuscation_type_u32(m->GetPeerAddress_obfuscation_type),
                    enc_u16(m->GetPeerAddress_obfuscated_port),
                );
                split_u16(
                    data@,
                    pstart + enc_str(m->GetPeerAddress_username@).len() + 12,
                    m->GetPeerAddress_obfuscated_port,
                    Seq::<u8>::empty(),
                );
                assert(spec_obfuscation_type_from(
                    obfuscation_type_u32(m->GetPeerAddress_obfuscation_type),
                ) == Some(m->GetPeerAddress_obfuscation_type));
                match_str_at(data@, pstart, username@, m->GetPeerAddress_username@);
            }
        }
            return Err(e);
        },
    };
    let v = ServerResponse::GetPeerAddress { username, ip, port, obfuscation_type, obfuscated_port };
    proof {
            assert forall|m: ServerResponse| wf_server_response(m) && frame_fits_u32(server_resp_payload(m))
                && server_round_trip_kind(m) && #[trigger] prefix_at(
                data@,
                start,
                server_resp_frame(m),
            ) implies server_resp_eq(v, m) && *pos == start + server_resp_frame(m).len() by {
                server_frame_parts(data@, start, m);
                assert(m is GetPeerAddress);
                assert(server_resp_payload(m) =~= enc_str(m->GetPeerAddress_username@) + (enc_ipv4(
                    m->GetPeerAddress_ip,
                ) + (enc_u32(m->GetPeerAddress_port) + (enc_u32(
                    obfuscation_type_u32(m->GetPeerAddress_obfuscation_type),
                ) + enc_u16(m->GetPeerAddress_obfuscated_port)))));
                split_str(data@, pstart, m->GetPeerAddress_username@, enc_ipv4(
                    m->GetPeerAddress_ip,
                ) + (enc_u32(m->GetPeerAddress_port) + (enc_u32(
                    obfuscation_type_u32(m->GetPeerAddress_obfuscation_type),
                ) + enc_u16(m->GetPeerAddress_obfuscated_port))));
                split_ipv4(
                    data@,
                    pstart + enc_str(m->GetPeerAddress_username@).len(),
                    m->GetPeerAddress_ip,
                    enc_u32(m->GetPeerAddress_port) + (enc_u32(
                        obfuscation_type_u32(m->GetPeerAddress_obfuscation_type),
                    ) + enc_u16(m->GetPeerAddress_obfuscated_port)),
                );
                split_u32(
                    data@,
                    pstart + enc_str(m->GetPeerAddress_username@).len() + 4,
                    m->GetPeerAddress_port,
                    enc_u32(obfuscation_type_u32(m->GetPeerAddress_obfuscation_type)) + enc_u16(
                        m->GetPeerAddress_obfuscated_port,
                    ),
                );
                split_u32(
                    data@,
                    pstart + enc_str(m->GetPeerAddress_username@).len() + 8,
                    obfuscation_type_u32(m->GetPeerAddress_obfuscation_type),
                    enc_u16(m->GetPeerAddress_obfuscated_port),
                );
                split_u16(
                    data@,
                    pstart + enc_str(m->GetPeerAddress_username@).len() + 12,
                    m->GetPeerAddress_obfuscated_port,
                    Seq::<u8>::empty(),
                );
                assert(spec_obfuscation_type_from(
                    obfuscation_type_u32(m->GetPeerAddress_obfuscation_type),
                ) == Some(m->GetPeerAddress_obfuscation_type));
                match_str_at(data@, pstart, username@, m->GetPeerAddress_username@);
            }
        }
    Ok(v)
}


/// Splits a peer-connection push frame at offset `i` into its parts.
proof fn resp_connect_parts(data: Seq<u8>, i: int, m: ServerResponse)
    requires
        wf_server_response(m),
        frame_fits_u32(server_resp_payload(m)),
        prefix_at(data, i, server_resp_frame(m)),
        data.subrange(i + 4, i + 8) == enc_u32(18),
    ensures
        m is ConnectToPeer,
        i + 8 + server_resp_payload(m).len() <= data.len(),
        server_resp_frame(m).len() == 8 + server_resp_payload(m).len(),
        data.subrange(i, i + 4) == enc_u32((4 + server_resp_payload(m).len()) as u32),
        ({
            let pstart = i + 8;
            let u = m->ConnectToPeer_username@;
            let cc = connection_type_chars(m->ConnectToPeer_connection_type);
            let n1 = pstart + enc_str(u).len();
            let n2 = n1 + enc_str(cc).len();
            &&& data.subrange(pstart, pstart + 4) == enc_u32(encode_utf8(u).len() as u32)
            &&& data.subrange(pstart + 4, n1) == encode_utf8(u)
            &&& crate::protocol::str_starts_at(data, pstart)
            &&& data.subrange(n1, n1 + 4) == enc_u32(encode_utf8(cc).len() as u32)
            &&& data.subrange(n1 + 4, n2) == encode_utf8(cc)
            &&& crate::protocol::str_starts_at(data, n1)
            &&& data.subrange(n2, n2 + 4) == enc_ipv4(m->ConnectToPeer_ip)
            &&& data.subrange(n2 + 4, n2 + 8) == enc_u32(m->ConnectToPeer_port)
            &&& data.subrange(n2 + 8, n2 + 12) == enc_u32(m->ConnectToPeer_token)
            &&& data[n2 + 12] == (if m->ConnectToPeer_privileged {
                1u8
            } else {
                0u8
            })
            &&& data.subrange(n2 + 13, n2 + 17) == enc_u32(
                obfuscation_type_u32(m->ConnectToPeer_obfuscation_type),
            )
            &&& data.subrange(n2 + 17, n2 + 21) == enc_u32(m->ConnectToPeer_obfuscated_port)
            &&& n2 + 21 == i + server_resp_frame(m).len()
            &&& spec_obfuscation_type_from(obfuscation_type_u32(m->ConnectToPeer_obfuscation_type))
                == Some(m->ConnectToPeer_obfuscation_type)
        }),
{
    broadcast use crate::protocol::group_enc_facts;

    server_frame_parts(data, i, m);
    assert(m is ConnectToPeer);
    let pstart = i + 8;
    let u = m->ConnectToPeer_username@;
    let cc = connection_type_chars(m->ConnectToPeer_connection_type);
    let rest1 = enc_str(cc) + (enc_ipv4(m->ConnectToPeer_ip) + (enc_u32(m->ConnectToPeer_port) + (
    enc_u32(m->ConnectToPeer_token) + (enc_bool(m->ConnectToPeer_privileged) + (enc_u32(
        obfuscation_type_u32(m->ConnectToPeer_obfuscation_type),
    ) + enc_u32(m->ConnectToPeer_obfuscated_port))))));
    assert(server_resp_payload(m) =~= enc_str(u) + rest1);
    split_str(data, pstart, u, rest1);
    let n1 = pstart + enc_str(u).len();
    lemma_connection_type_ascii(m->ConnectToPeer_connection_type);
    split_str(data, n1, cc, enc_ipv4(m->ConnectToPeer_ip) + (enc_u32(m->ConnectToPeer_port) + (
    enc_u32(m->ConnectToPeer_token) + (enc_bool(m->ConnectToPeer_privileged) + (enc_u32(
        obfuscation_type_u32(m->ConnectToPeer_obfuscation_type),
    ) + enc_u32(m->ConnectToPeer_obfuscated_port))))));
    let n2 = n1 + enc_str(cc).len();
    split_ipv4(data, n2, m->ConnectToPeer_ip, enc_u32(m->ConnectToPeer_port) + (enc_u32(
        m->ConnectToPeer_token,
    ) + (enc_bool(m->ConnectToPeer_privileged) + (enc_u32(
        obfuscation_type_u32(m->ConnectToPeer_obfuscation_type),
    ) + enc_u32(m->ConnectToPeer_obfuscated_port)))));
    split_u32(data, n2 + 4, m->ConnectToPeer_port, enc_u32(m->ConnectToPeer_token) + (enc_bool(
        m->ConnectToPeer_privileged,
    ) + (enc_u32(obfuscation_type_u32(m->ConnectToPeer_obfuscation_type)) + enc_u32(
        m->ConnectToPeer_obfuscated_port,
    ))));
    split_u32(data, n2 + 8, m->ConnectToPeer_token, enc_bool(m->ConnectToPeer_privileged) + (
    enc_u32(obfuscation_type_u32(m->ConnectToPeer_obfuscation_type)) + enc_u32(
        m->ConnectToPeer_obfuscated_port,
    )));
    split_bool(data, n2 + 12, m->ConnectToPeer_privileged, enc_u32(
        obfuscation_type_u32(m->ConnectToPeer_obfuscation_type),
    ) + enc_u32(m->ConnectToPeer_obfuscated_port));
    split_u32(data, n2 + 13, obfuscation_type_u32(m->ConnectToPeer_obfuscation_type), enc_u32(
        m->ConnectToPeer_obfuscated_port,
    ));
    split_u32(data, n2 + 17, m->ConnectToPeer_obfuscated_port, Seq::<u8>::empty());
}

#[verifier::rlimit(100)]
fn read_connect_to_peer_body(data: &Vec<u8>, pos: &mut usize, frame_end: usize, Ghost(start): Ghost<
    int,
>) -> (r: Result<ServerResponse, Error>)
    requires
        0 <= start,
        *old(pos) == start + 8,
        *old(pos) <= frame_end <= data@.len(),
        frame_end - start - 4 <= u32::MAX,
        data@.subrange(start, start + 4) == enc_u32((frame_end - start - 4) as u32),
        data@.subrange(start + 4, start + 8) == enc_u32(18),
    ensures
        *old(pos) <= *final(pos) <= data@.len(),
        forall|m: ServerResponse|
            wf_server_response(m) && frame_fits_u32(server_resp_payload(m))
                && server_round_trip_kind(m) && #[trigger] prefix_at(
                data@,
                start,
                server_resp_frame(m),
            ) ==> (r matches Ok(v) && server_resp_eq(v, m) && *final(pos) == start
                + server_resp_frame(m).len()),
{
    broadcast use crate::protocol::group_enc_facts;

    let ghost pstart = start + 8;
    let username = match read_string(data, pos) {
        Ok(v) => v,
        Err(e) => {
            proof {
            assert forall|m: ServerResponse| wf_server_response(m) && frame_fits_u32(server_resp_payload(m))
                && server_round_trip_kind(m) && #[trigger] prefix_at(
                data@,
                start,
                server_resp_frame(m),
            ) implies false by {
                resp_connect_parts(data@, start, m);
            }
        }
            return Err(e);
        },
    };
    let conn_str = match read_string(data, pos) {
        Ok(v) => v,
        Err(e) => {
            proof {
            assert forall|m: ServerResponse| wf_server_response(m) && frame_fits_u32(server_resp_payload(m))
                && server_round_trip_kind(m) && #[trigger] prefix_at(
                data@,
                start,
                server_resp_frame(m),
            ) implies false by {
                resp_connect_parts(data@, start, m);
                match_str_at(data@, pstart, username@, m->ConnectToPeer_username@);
            }
        }
            return Err(e);
        },
    };
    let connection_type = match ConnectionType::parse(conn_str.as_str()) {
        Ok(v) => v,
        Err(e) => {
            proof {
            assert forall|m: ServerResponse| wf_server_response(m) && frame_fits_u32(server_resp_payload(m))
                && server_round_trip_kind(m) && #[trigger] prefix_at(
                data@,
                start,
                server_resp_frame(m),
            ) implies false by {
                resp_connect_parts(data@, start, m);
                match_str_at(data@, pstart, username@, m->ConnectToPeer_username@);
                match_str_at(
                    data@,
                    pstart + enc_str(m->ConnectToPeer_username@).len(),
                    conn_str@,
                    connection_type_chars(m->ConnectToPeer_connection_type),
                );
                lemma_connection_type_parse(m->ConnectToPeer_connection_type);
            }
        }
            return Err(e);
        },
    };
    if data.len() - *pos < 21 {
        proof {
            assert forall|m: ServerResponse| wf_server_response(m) && frame_fits_u32(server_resp_payload(m))
                && server_round_trip_kind(m) && #[trigger] prefix_at(
                data@,
                start,
                server_resp_frame(m),
            ) implies false by {
                resp_connect_parts(data@, start, m);
                match_str_at(data@, pstart, username@, m->ConnectToPeer_username@);
                match_str_at(
                    data@,
                    pstart + enc_str(m->ConnectToPeer_username@).len(),
                    conn_str@,
                    connection_type_chars(m->ConnectToPeer_connection_type),
                );
                lemma_connection_type_parse(m->ConnectToPeer_connection_type);
            }
        }
        return Err(Error::BufferUnderflow { needed: 21, available: data.len() - *pos });
    }
    let ip = match read_ipv4(data, pos) {
        Ok(v) => v,
        Err(e) => {
            proof {
                assert(false);
            }
            return Err(e);
        },
    };
    let port = match read_u32(data, pos) {
        Ok(v) => v,
        Err(e) => {
            proof {
                assert(false);
            }
            return Err(e);
        },
    };
    let token = match read_u32(data, pos) {
        Ok(v) => v,
        Err(e) => {
            proof {
                assert(false);
            }
            return Err(e);
        },
    };
    let privileged = match read_bool(data, pos) {
        Ok(v) => v,
        Err(e) => {
            proof {
                assert(false);
            }
            return Err(e);
        },
    };
    let obs_val = match read_u32(data, pos) {
        Ok(v) => v,
        Err(e) => {
            proof {
                assert(false);
            }
            return Err(e);
        },
    };
    let obfuscation_type = match ObfuscationType::try_from(obs_val) {
        Ok(v) => v,
        Err(e) => {
            proof {
            assert forall|m: ServerResponse| wf_server_response(m) && frame_fits_u32(server_resp_payload(m))
                && server_round_trip_kind(m) && #[trigger] prefix_at(
                data@,
                start,
                server_resp_frame(m),
            ) implies false by {
                resp_connect_parts(data@, start, m);
                match_str_at(data@, pstart, username@, m->ConnectToPeer_username@);
                match_str_at(
                    data@,
                    pstart + enc_str(m->ConnectToPeer_username@).len(),
                    conn_str@,
                    connection_type_chars(m->ConnectToPeer_connection_type),
                );
                lemma_connection_type_parse(m->ConnectToPeer_connection_type);
            }
        }
            return Err(e);
        },
    };
    let obfuscated_port = match read_u32(data, pos) {
        Ok(v) => v,
        Err(e) => {
            proof {
                assert(false);
            }
            return Err(e);
        },
    };
    let v = ServerResponse::ConnectToPeer {
        username,
        connection_type,
        ip,
        port,
        token,
        privileged,
        obfuscation_type,
        obfuscated_port,
    };
    proof {
            assert forall|m: ServerResponse| wf_server_response(m) && frame_fits_u32(server_resp_payload(m))
                && server_round_trip_kind(m) && #[trigger] prefix_at(
                data@,
                start,
                server_resp_frame(m),
            ) implies server_resp_eq(v, m) && *pos == start + server_resp_frame(m).len() by {
                resp_connect_parts(data@, start, m);
                match_str_at(data@, pstart, username@, m->ConnectToPeer_username@);
                match_str_at(
                    data@,
                    pstart + enc_str(m->ConnectToPeer_username@).len(),
                    conn_str@,
                    connection_type_chars(m->ConnectToPeer_connection_type),
                );
                lemma_connection_type_parse(m->ConnectToPeer_connection_type);
            }
        }
    Ok(v)
}

#[verifier::rlimit(60)]
fn read_file_search_body(data: &Vec<u8>, pos: &mut usize, frame_end: usize, Ghost(start): Ghost<int>) -> (r: Result<
    ServerResponse,
    Error,
>)
    requires
        0 <= start,
        *old(pos) == start + 8,
        *old(pos) <= frame_end <= data@.len(),
        frame_end - start - 4 <= u32::MAX,
        data@.subrange(start, start + 4) == enc_u32((frame_end - start - 4) as u32),
        data@.subrange(start + 4, start + 8) == enc_u32(26),
    ensures
        *old(pos) <= *final(pos) <= data@.len(),
        forall|m: ServerResponse|
            wf_server_response(m) && frame_fits_u32(server_resp_payload(m))
                && server_round_trip_kind(m) && #[trigger] prefix_at(
                data@,
                start,
                server_resp_frame(m),
            ) ==> (r matches Ok(v) && server_resp_eq(v, m) && *final(pos) == start
                + server_resp_frame(m).len()),
{
    broadcast use crate::protocol::group_enc_facts;

    let ghost pstart = start + 8;
    let username = match read_string(data, pos) {
        Ok(v) => v,
        Err(e) => {
            proof {
            assert forall|m: ServerResponse| wf_server_response(m) && frame_fits_u32(server_resp_payload(m))
                && server_round_trip_kind(m) && #[trigger] prefix_at(
                data@,
                start,
                server_resp_frame(m),
            ) implies false by {
                server_frame_parts(data@, start, m);
                assert(m is FileSearch);
                split_str(data@, pstart, m->FileSearch_username@, enc_u32(m->FileSearch_token)
                    + enc_str(m->FileSearch_query@));
                let n1 = pstart + enc_str(m->FileSearch_username@).len();
                split_u32(data@, n1, m->FileSearch_token, enc_str(m->FileSearch_query@));
                assert(enc_str(m->FileSearch_query@) =~= enc_str(m->FileSearch_query@)
                    + Seq::<u8>::empty());
                split_str(data@, n1 + 4, m->FileSearch_query@, Seq::<u8>::empty());
            }
        }
            return Err(e);
        },
    };
    let token = match read_u32(data, pos) {
        Ok(v) => v,
        Err(e) => {
            proof {
            assert forall|m: ServerResponse| wf_server_response(m) && frame_fits_u32(server_resp_payload(m))
                && server_round_trip_kind(m) && #[trigger] prefix_at(
                data@,
                start,
                server_resp_frame(m),
            ) implies false by {
                server_frame_parts(data@, start, m);
                assert(m is FileSearch);
                split_str(data@, pstart, m->FileSearch_username@, enc_u32(m->FileSearch_token)
                    + enc_str(m->FileSearch_query@));
                let n1 = pstart + enc_str(m->FileSearch_username@).len();
                split_u32(data@, n1, m->FileSearch_token, enc_str(m->FileSearch_query@));
                assert(enc_str(m->FileSearch_query@) =~= enc_str(m->FileSearch_query@)
                    + Seq::<u8>::empty());
                split_str(data@, n1 + 4, m->FileSearch_query@, Seq::<u8>::empty());
                match_str_at(data@, pstart, username@, m->FileSearch_username@);
            }
        }
            return Err(e);
        },
    };
    let query = match read_string(data, pos) {
        Ok(v) => v,
        Err(e) => {
            proof {
            assert forall|m: ServerResponse| wf_server_response(m) && frame_fits_u32(server_resp_payload(m))
                && server_round_trip_kind(m) && #[trigger] prefix_at(
                data@,
                start,
                server_resp_frame(m),
            ) implies false by {
                server_frame_parts(data@, start, m);
                assert(m is FileSearch);
                split_str(data@, pstart, m->FileSearch_username@, enc_u32(m->FileSearch_token)
                    + enc_str(m->FileSearch_query@));
                let n1 = pstart + enc_str(m->FileSearch_username@).len();
                split_u32(data@, n1, m->FileSearch_token, enc_str(m->FileSearch_query@));
                assert(enc_str(m->FileSearch_query@) =~= enc_str(m->FileSearch_query@)
                    + Seq::<u8>::empty());
                split_str(data@, n1 + 4, m->FileSearch_query@, Seq::<u8>::empty());
                match_str_at(data@, pstart, username@, m->FileSearch_username@);
            }
        }
            return Err(e);
        },
    };
    let v = ServerResponse::FileSearch { username, token, query };
    proof {
            assert forall|m: ServerResponse| wf_server_response(m) && frame_fits_u32(server_resp_payload(m))
                && server_round_trip_kind(m) && #[trigger] prefix_at(
                data@,
                start,
                server_resp_frame(m),
            ) implies server_resp_eq(v, m) && *pos == start + server_resp_frame(m).len() by {
                server_frame_parts(data@, start, m);
                assert(m is FileSearch);
                split_str(data@, pstart, m->FileSearch_username@, enc_u32(m->FileSearch_token)
                    + enc_str(m->FileSearch_query@));
                let n1 = pstart + enc_str(m->FileSearch_username@).len();
                split_u32(data@, n1, m->FileSearch_token, enc_str(m->FileSearch_query@));
                assert(enc_str(m->FileSearch_query@) =~= enc_str(m->FileSearch_query@)
                    + Seq::<u8>::empty());
                split_str(data@, n1 + 4, m->FileSearch_query@, Seq::<u8>::empty());
                match_str_at(data@, pstart, username@, m->FileSearch_username@);
                match_str_at(
                    data@,
                    pstart + enc_str(m->FileSearch_username@).len() + 4,
                    query@,
                    m->FileSearch_query@,
                );
            }
        }
    Ok(v)
}

#[verifier::rlimit(60)]
fn read_cant_connect_body(data: &Vec<u8>, pos: &mut usize, frame_end: usize, Ghost(start): Ghost<int>) -> (r: Result<
    ServerResponse,
    Error,
>)
    requires
        0 <= start,
        *old(pos) == start + 8,
        *old(pos) <= frame_end <= data@.len(),
        frame_end - start - 4 <= u32::MAX,
        data@.subrange(start, start + 4) == enc_u32((frame_end - start - 4) as u32),
        data@.subrange(start + 4, start + 8) == enc_u32(1001),
    ensures
        *old(pos) <= *final(pos) <= data@.len(),
        forall|m: ServerResponse|
            wf_server_response(m) && frame_fits_u32(server_resp_payload(m))
                && server_round_trip_kind(m) && #[trigger] prefix_at(
                data@,
                start,
                server_resp_frame(m),
            ) ==> (r matches Ok(v) && server_resp_eq(v, m) && *final(pos) == start
                + server_resp_frame(m).len()),
{
    broadcast use crate::protocol::group_enc_facts;

    let ghost pstart = start + 8;
    let token = match read_u32(data, pos) {
        Ok(v) => v,
        Err(e) => {
            proof {
            assert forall|m: ServerResponse| wf_server_response(m) && frame_fits_u32(server_resp_payload(m))
                && server_round_trip_kind(m) && #[trigger] prefix_at(
                data@,
                start,
                server_resp_frame(m),
            ) implies false by {
                server_frame_parts(data@, start, m);
                assert(m is CantConnectToPeer);
                assert(server_resp_payload(m) =~= enc_u32(m->CantConnectToPeer_token) + (enc_str(
                    m->CantConnectToPeer_username@,
                ) + Seq::<u8>::empty()));
                split_u32(data@, pstart, m->CantConnectToPeer_token, enc_str(
                    m->CantConnectToPeer_username@,
                ) + Seq::<u8>::empty());
                split_str(data@, pstart + 4, m->CantConnectToPeer_username@, Seq::<u8>::empty());
            }
        }
            return Err(e);
        },
    };
    let username = match read_string(data, pos) {
        Ok(v) => v,
        Err(e) => {
            proof {
            assert forall|m: ServerResponse| wf_server_response(m) && frame_fits_u32(server_resp_payload(m))
                && server_round_trip_kind(m) && #[trigger] prefix_at(
                data@,
                start,
                server_resp_frame(m),
            ) implies false by {
                server_frame_parts(data@, start, m);
                assert(m is CantConnectToPeer);
                assert(server_resp_payload(m) =~= enc_u32(m->CantConnectToPeer_token) + (enc_str(
                    m->CantConnectToPeer_username@,
                ) + Seq::<u8>::empty()));
                split_u32(data@, pstart, m->CantConnectToPeer_token, enc_str(
                    m->CantConnectToPeer_username@,
                ) + Seq::<u8>::empty());
                split_str(data@, pstart + 4, m->CantConnectToPeer_username@, Seq::<u8>::empty());
            }
        }
            return Err(e);
        },
    };
    let v = ServerResponse::CantConnectToPeer { token, username };
    proof {
            assert forall|m: ServerResponse| wf_server_response(m) && frame_fits_u32(server_resp_payload(m))
                && server_round_trip_kind(m) && #[trigger] prefix_at(
                data@,
                start,
                server_resp_frame(m),
            ) implies server_resp_eq(v, m) && *pos == start + server_resp_frame(m).len() by {
                server_frame_parts(data@, start, m);
                assert(m is CantConnectToPeer);
                assert(server_resp_payload(m) =~= enc_u32(m->CantConnectToPeer_token) + (enc_str(
                    m->CantConnectToPeer_username@,
                ) + Seq::<u8>::empty()));
                split_u32(data@, pstart, m->CantConnectToPeer_token, enc_str(
                    m->CantConnectToPeer_username@,
                ) + Seq::<u8>::empty());
                split_str(data@, pstart + 4, m->CantConnectToPeer_username@, Seq::<u8>::empty());
                match_str_at(data@, pstart + 4, username@, m->CantConnectToPeer_username@);
            }
        }
    Ok(v)
}


/// Reads a list of `(String, i32)` pairs.
fn read_string_i32_pairs(data: &Vec<u8>, pos: &mut usize) -> (r: Result<Vec<(String, i32)>, Error>)
    requires
        *old(pos) <= data@.len(),
    ensures
        *old(pos) <= *final(pos) <= data@.len(),
{
    let count = match read_u32(data, pos) {
        Ok(v) => v,
        Err(e) => {
            return Err(e);
        },
    };
    let mut items: Vec<(String, i32)> = Vec::new();
    let mut i: u32 = 0;
    while i < count
        invariant
            *old(pos) <= *pos <= data@.len(),
        decreases count - i,
    {
        let name = match read_string(data, pos) {
            Ok(v) => v,
            Err(e) => {
                return Err(e);
            },
        };
        let value = match read_i32(data, pos) {
            Ok(v) => v,
            Err(e) => {
                return Err(e);
            },
        };
        items.push((name, value));
        i = i + 1;
    }
    Ok(items)
}

/// Reads a list of `u32` values.
fn read_u32_list(data: &Vec<u8>, pos: &mut usize) -> (r: Result<Vec<u32>, Error>)
    requires
        *old(pos) <= data@.len(),
    ensures
        *old(pos) <= *final(pos) <= data@.len(),
{
    let count = match read_u32(data, pos) {
        Ok(v) => v,
        Err(e) => {
            return Err(e);
        },
    };
    let mut items: Vec<u32> = Vec::new();
    let mut i: u32 = 0;
    while i < count
        invariant
            *old(pos) <= *pos <= data@.len(),
        decreases count - i,
    {
        let value = match read_u32(data, pos) {
            Ok(v) => v,
            Err(e) => {
                return Err(e);
            },
        };
        items.push(value);
        i = i + 1;
    }
    Ok(items)
}

/// Reads a list of user statistics.
fn read_stats_list(data: &Vec<u8>, pos: &mut usize) -> (r: Result<Vec<UserStats>, Error>)
    requires
        *old(pos) <= data@.len(),
    ensures
        *old(pos) <= *final(pos) <= data@.len(),
{
    let count = match read_u32(data, pos) {
        Ok(v) => v,
        Err(e) => {
            return Err(e);
        },
    };
    let mut items: Vec<UserStats> = Vec::new();
    let mut i: u32 = 0;
    while i < count
        invariant
            *old(pos) <= *pos <= data@.len(),
        decreases count - i,
    {
        let s = match UserStats::read_from(data, pos) {
            Ok(v) => v,
            Err(e) => {
                return Err(e);
            },
        };
        items.push(s);
        i = i + 1;
    }
    Ok(items)
}

/// Reads zipped name and count lists, as in the room list.
fn read_room_counts(data: &Vec<u8>, pos: &mut usize) -> (r: Result<Vec<(String, u32)>, Error>)
    requires
        *old(pos) <= data@.len(),
    ensures
        *old(pos) <= *final(pos) <= data@.len(),
{
    let names = match read_string_list(data, pos) {
        Ok(v) => v,
        Err(e) => {
            return Err(e);
        },
    };
    let counts = match read_u32_list(data, pos) {
        Ok(v) => v,
        Err(e) => {
            return Err(e);
        },
    };
    let mut items: Vec<(String, u32)> = Vec::new();
    let mut i: usize = 0;
    while i < names.len()
        invariant
            i <= names@.len(),
        decreases names@.len() - i,
    {
        let c = if i < counts.len() {
            counts[i]
        } else {
            0
        };
        items.push((names[i].clone(), c));
        i = i + 1;
    }
    Ok(items)
}

/// Decodes the response kinds whose inversion proof is not carried; see
/// `server_round_trip_kind`.
fn read_server_response_other(
    code_val: u32,
    data: &Vec<u8>,
    pos: &mut usize,
    frame_end: usize,
) -> (r: Result<ServerResponse, Error>)
    requires
        *old(pos) <= data@.len(),
        frame_end <= data@.len(),
    ensures
        *old(pos) <= *final(pos) <= data@.len(),
        spec_server_code_from(code_val) is None ==> r == Err::<ServerResponse, Error>(
            Error::InvalidMessageCode(code_val),
        ),
{
    if code_val == 5 {
        let username = match read_string(data, pos) {
            Ok(v) => v,
            Err(e) => {
                return Err(e);
            },
        };
        let exists = match read_bool(data, pos) {
            Ok(v) => v,
            Err(e) => {
                return Err(e);
            },
        };
        if exists {
            let status_val = match read_u32(data, pos) {
                Ok(v) => v,
                Err(e) => {
                    return Err(e);
                },
            };
            let status = match UserStatus::try_from(status_val) {
                Ok(v) => v,
                Err(e) => {
                    return Err(e);
                },
            };
            let stats = match UserStats::read_from(data, pos) {
                Ok(v) => v,
                Err(e) => {
                    return Err(e);
                },
            };
            let country_code = if !matches!(status, UserStatus::Offline) && *pos < frame_end {
                match read_string(data, pos) {
                    Ok(v) => Some(v),
                    Err(e) => {
                        return Err(e);
                    },
                }
            } else {
                None
            };
            return Ok(
                ServerResponse::WatchUser {
                    username,
                    exists: true,
                    status: Some(status),
                    stats: Some(stats),
                    country_code,
                },
            );
        }
        Ok(ServerResponse::WatchUser { username, exists: false, status: None, stats: None, country_code: None })
    } else if code_val == 7 {
        let username = match read_string(data, pos) {
            Ok(v) => v,
            Err(e) => {
                return Err(e);
            },
        };
        let status_val = match read_u32(data, pos) {
            Ok(v) => v,
            Err(e) => {
                return Err(e);
            },
        };
        let status = match UserStatus::try_from(status_val) {
            Ok(v) => v,
            Err(e) => {
                return Err(e);
            },
        };
        let privileged = match read_bool(data, pos) {
            Ok(v) => v,
            Err(e) => {
                return Err(e);
            },
        };
        Ok(ServerResponse::GetUserStatus { username, status, privileged })
    } else if code_val == 13 {
        let room = match read_string(data, pos) {
            Ok(v) => v,
            Err(e) => {
                return Err(e);
            },
        };
        let username = match read_string(data, pos) {
            Ok(v) => v,
            Err(e) => {
                return Err(e);
            },
        };
        let message = match read_string(data, pos) {
            Ok(v) => v,
            Err(e) => {
                return Err(e);
            },
        };
        Ok(ServerResponse::SayChatroom { room, username, message })
    } else if code_val == 14 {
        let room = match read_string(data, pos) {
            Ok(v) => v,
            Err(e) => {
                return Err(e);
            },
        };
        let usernames = match read_string_list(data, pos) {
            Ok(v) => v,
            Err(e) => {
                return Err(e);
            },
        };
        let statuses = match read_u32_list(data, pos) {
            Ok(v) => v,
            Err(e) => {
                return Err(e);
            },
        };
        let stats_list = match read_stats_list(data, pos) {
            Ok(v) => v,
            Err(e) => {
                return Err(e);
            },
        };
        let slots_full_list = match read_u32_list(data, pos) {
            Ok(v) => v,
            Err(e) => {
                return Err(e);
            },
        };
        let countries = match read_string_list(data, pos) {
            Ok(v) => v,
            Err(e) => {
                return Err(e);
            },
        };
        let mut users: Vec<RoomUser> = Vec::new();
        let mut i: usize = 0;
        while i < usernames.len()
            invariant
            spec_server_code_from(code_val) is Some,
                i <= usernames@.len(),
                *old(pos) <= *pos <= data@.len(),
            decreases usernames@.len() - i,
        {
            let status_val = if i < statuses.len() {
                statuses[i]
            } else {
                0
            };
            let status = match UserStatus::try_from(status_val) {
                Ok(v) => v,
                Err(e) => {
                    return Err(e);
                },
            };
            let stats = if i < stats_list.len() {
                stats_list[i]
            } else {
                UserStats { avg_speed: 0, upload_num: 0, unknown: 0, files: 0, dirs: 0 }
            };
            let slots_full = if i < slots_full_list.len() {
                slots_full_list[i] != 0
            } else {
                false
            };
            let country_code = if i < countries.len() {
                countries[i].clone()
            } else {
                String::new()
            };
            users.push(RoomUser { username: usernames[i].clone(), status, stats, slots_full, country_code });
            i = i + 1;
        }
        let (owner, operators) = if *pos < frame_end {
            let o = match read_string(data, pos) {
                Ok(v) => v,
                Err(e) => {
                    return Err(e);
                },
            };
            let ops = match read_string_list(data, pos) {
                Ok(v) => v,
                Err(e) => {
                    return Err(e);
                },
            };
            (Some(o), ops)
        } else {
            (None, Vec::new())
        };
        Ok(ServerResponse::JoinRoom { room, users, owner, operators })
    } else if code_val == 15 {
        let room = match read_string(data, pos) {
            Ok(v) => v,
            Err(e) => {
                return Err(e);
            },
        };
        Ok(ServerResponse::LeaveRoom { room })
    } else if code_val == 16 {
        let room = match read_string(data, pos) {
            Ok(v) => v,
            Err(e) => {
                return Err(e);
            },
        };
        let username = match read_string(data, pos) {
            Ok(v) => v,
            Err(e) => {
                return Err(e);
            },
        };
        let status_val = match read_u32(data, pos) {
            Ok(v) => v,
            Err(e) => {
                return Err(e);
            },
        };
        let status = match UserStatus::try_from(status_val) {
            Ok(v) => v,
            Err(e) => {
                return Err(e);
            },
        };
        let stats = match UserStats::read_from(data, pos) {
            Ok(v) => v,
            Err(e) => {
                return Err(e);
            },
        };
        let slots_val = match read_u32(data, pos) {
            Ok(v) => v,
            Err(e) => {
                return Err(e);
            },
        };
        let country_code = match read_string(data, pos) {
            Ok(v) => v,
            Err(e) => {
                return Err(e);
            },
        };
        let slots_full = slots_val != 0;
        Ok(ServerResponse::UserJoinedRoom { room, username, status, stats, slots_full, country_code })
    } else if code_val == 17 {
        let room = match read_string(data, pos) {
            Ok(v) => v,
            Err(e) => {
                return Err(e);
            },
        };
        let username = match read_string(data, pos) {
            Ok(v) => v,
            Err(e) => {
                return Err(e);
            },
        };
        Ok(ServerResponse::UserLeftRoom { room, username })
    } else if code_val == 22 {
        let id = match read_u32(data, pos) {
            Ok(v) => v,
            Err(e) => {
                return Err(e);
            },
        };
        let timestamp = match read_u32(data, pos) {
            Ok(v) => v,
            Err(e) => {
                return Err(e);
            },
        };
        let username = match read_string(data, pos) {
            Ok(v) => v,
            Err(e) => {
                return Err(e);
            },
        };
        let message = match read_string(data, pos) {
            Ok(v) => v,
            Err(e) => {
                return Err(e);
            },
        };
        let new_message = match read_bool(data, pos) {
            Ok(v) => v,
            Err(e) => {
                return Err(e);
            },
        };
        Ok(ServerResponse::MessageUser { id, timestamp, username, message, new_message })
    } else if code_val == 36 {
        let username = match read_string(data, pos) {
            Ok(v) => v,
            Err(e) => {
                return Err(e);
            },
        };
        let stats = match UserStats::read_from(data, pos) {
            Ok(v) => v,
            Err(e) => {
                return Err(e);
            },
        };
        Ok(ServerResponse::GetUserStats { username, stats })
    } else if code_val == 41 {
        Ok(ServerResponse::Relogged)
    } else if code_val == 54 {
        let recommendations = match read_string_i32_pairs(data, pos) {
            Ok(v) => v,
            Err(e) => {
                return Err(e);
            },
        };
        let unrecommendations = match read_string_i32_pairs(data, pos) {
            Ok(v) => v,
            Err(e) => {
                return Err(e);
            },
        };
        Ok(ServerResponse::Recommendations { recommendations, unrecommendations })
    } else if code_val == 56 {
        let recommendations = match read_string_i32_pairs(data, pos) {
            Ok(v) => v,
            Err(e) => {
                return Err(e);
            },
        };
        let unrecommendations = match read_string_i32_pairs(data, pos) {
            Ok(v) => v,
            Err(e) => {
                return Err(e);
            },
        };
        Ok(ServerResponse::GlobalRecommendations { recommendations, unrecommendations })
    } else if code_val == 57 {
        let username = match read_string(data, pos) {
            Ok(v) => v,
            Err(e) => {
                return Err(e);
            },
        };
        let likes = match read_string_list(data, pos) {
            Ok(v) => v,
            Err(e) => {
                return Err(e);
            },
        };
        let hates = match read_string_list(data, pos) {
            Ok(v) => v,
            Err(e) => {
                return Err(e);
            },
        };
        Ok(ServerResponse::UserInterests { username, likes, hates })
    } else if code_val == 64 {
        let rooms = match read_room_counts(data, pos) {
            Ok(v) => v,
            Err(e) => {
                return Err(e);
            },
        };
        let owned_private_rooms = match read_room_counts(data, pos) {
            Ok(v) => v,
            Err(e) => {
                return Err(e);
            },
        };
        let private_rooms = match read_room_counts(data, pos) {
            Ok(v) => v,
            Err(e) => {
                return Err(e);
            },
        };
        let operated_private_rooms = match read_string_list(data, pos) {
            Ok(v) => v,
            Err(e) => {
                return Err(e);
            },
        };
        Ok(ServerResponse::RoomList { rooms, owned_private_rooms, private_rooms, operated_private_rooms })
    } else if code_val == 66 {
        let message = match read_string(data, pos) {
            Ok(v) => v,
            Err(e) => {
                return Err(e);
            },
        };
        Ok(ServerResponse::AdminMessage { message })
    } else if code_val == 69 {
        let users = match read_string_list(data, pos) {
            Ok(v) => v,
            Err(e) => {
                return Err(e);
            },
        };
        Ok(ServerResponse::PrivilegedUsers { users })
    } else if code_val == 83 {
        let speed = match read_u32(data, pos) {
            Ok(v) => v,
            Err(e) => {
                return Err(e);
            },
        };
        Ok(ServerResponse::ParentMinSpeed { speed })
    } else if code_val == 84 {
        let ratio = match read_u32(data, pos) {
            Ok(v) => v,
            Err(e) => {
                return Err(e);
            },
        };
        Ok(ServerResponse::ParentSpeedRatio { ratio })
    } else if code_val == 92 {
        let time_left = match read_u32(data, pos) {
            Ok(v) => v,
            Err(e) => {
                return Err(e);
            },
        };
        Ok(ServerResponse::CheckPrivileges { time_left })
    } else if code_val == 93 {
        let code = match read_u8(data, pos) {
            Ok(v) => v,
            Err(e) => {
                return Err(e);
            },
        };
        let data_bytes = if *pos <= frame_end {
            crate::protocol::copy_range(data, *pos, frame_end)
        } else {
            Vec::new()
        };
        if *pos <= frame_end {
            *pos = frame_end;
        }
        Ok(ServerResponse::EmbeddedMessage { code, data: data_bytes })
    } else if code_val == 102 {
        let count = match read_u32(data, pos) {
            Ok(v) => v,
            Err(e) => {
                return Err(e);
            },
        };
        let mut parents: Vec<PossibleParent> = Vec::new();
        let mut i: u32 = 0;
        while i < count
            invariant
            spec_server_code_from(code_val) is Some,
                *old(pos) <= *pos <= data@.len(),
            decreases count - i,
        {
            let username = match read_string(data, pos) {
                Ok(v) => v,
                Err(e) => {
                    return Err(e);
                },
            };
            let ip = match read_ipv4(data, pos) {
                Ok(v) => v,
                Err(e) => {
                    return Err(e);
                },
            };
            let port = match read_u32(data, pos) {
                Ok(v) => v,
                Err(e) => {
                    return Err(e);
                },
            };
            parents.push(PossibleParent { username, ip, port });
            i = i + 1;
        }
        Ok(ServerResponse::PossibleParents { parents })
    } else if code_val == 104 {
        let interval = match read_u32(data, pos) {
            Ok(v) => v,
            Err(e) => {
                return Err(e);
            },
        };
        Ok(ServerResponse::WishlistInterval { interval })
    } else if code_val == 110 {
        let count = match read_u32(data, pos) {
            Ok(v) => v,
            Err(e) => {
                return Err(e);
            },
        };
        let mut users: Vec<(String, u32)> = Vec::new();
        let mut i: u32 = 0;
        while i < count
            invariant
            spec_server_code_from(code_val) is Some,
                *old(pos) <= *pos <= data@.len(),
            decreases count - i,
        {
            let username = match read_string(data, pos) {
                Ok(v) => v,
                Err(e) => {
                    return Err(e);
                },
            };
            let rating = match read_u32(data, pos) {
                Ok(v) => v,
                Err(e) => {
                    return Err(e);
                },
            };
            users.push((username, rating));
            i = i + 1;
        }
        Ok(ServerResponse::SimilarUsers { users })
    } else if code_val == 111 {
        let item = match read_string(data, pos) {
            Ok(v) => v,
            Err(e) => {
                return Err(e);
            },
        };
        let recommendations = match read_string_i32_pairs(data, pos) {
            Ok(v) => v,
            Err(e) => {
                return Err(e);
            },
        };
        Ok(ServerResponse::ItemRecommendations { item, recommendations })
    } else if code_val == 112 {
        let item = match read_string(data, pos) {
            Ok(v) => v,
            Err(e) => {
                return Err(e);
            },
        };
        let users = match read_string_list(data, pos) {
            Ok(v) => v,
            Err(e) => {
                return Err(e);
            },
        };
        Ok(ServerResponse::ItemSimilarUsers { item, users })
    } else if code_val == 113 {
        let room = match read_string(data, pos) {
            Ok(v) => v,
            Err(e) => {
                return Err(e);
            },
        };
        let count = match read_u32(data, pos) {
            Ok(v) => v,
            Err(e) => {
                return Err(e);
            },
        };
        let mut tickers: Vec<RoomTicker> = Vec::new();
        let mut i: u32 = 0;
        while i < count
            invariant
            spec_server_code_from(code_val) is Some,
                *old(pos) <= *pos <= data@.len(),
            decreases count - i,
        {
            let username = match read_string(data, pos) {
                Ok(v) => v,
                Err(e) => {
                    return Err(e);
                },
            };
            let ticker = match read_string(data, pos) {
                Ok(v) => v,
                Err(e) => {
                    return Err(e);
                },
            };
            tickers.push(RoomTicker { username, ticker });
            i = i + 1;
        }
        Ok(ServerResponse::RoomTickerState { room, tickers })
    } else if code_val == 114 {
        let room = match read_string(data, pos) {
            Ok(v) => v,
            Err(e) => {
                return Err(e);
            },
        };
        let username = match read_string(data, pos) {
            Ok(v) => v,
            Err(e) => {
                return Err(e);
            },
        };
        let ticker = match read_string(data, pos) {
            Ok(v) => v,
            Err(e) => {
                return Err(e);
            },
        };
        Ok(ServerResponse::RoomTickerAdd { room, username, ticker })
    } else if code_val == 115 {
        let room = match read_string(data, pos) {
            Ok(v) => v,
            Err(e) => {
                return Err(e);
            },
        };
        let username = match read_string(data, pos) {
            Ok(v) => v,
            Err(e) => {
                return Err(e);
            },
        };
        Ok(ServerResponse::RoomTickerRemove { room, username })
    } else if code_val == 130 {
        Ok(ServerResponse::ResetDistributed)
    } else if code_val == 133 {
        let room = match read_string(data, pos) {
            Ok(v) => v,
            Err(e) => {
                return Err(e);
            },
        };
        let members = match read_string_list(data, pos) {
            Ok(v) => v,
            Err(e) => {
                return Err(e);
            },
        };
        Ok(ServerResponse::RoomMembers { room, members })
    } else if code_val == 134 {
        let room = match read_string(data, pos) {
            Ok(v) => v,
            Err(e) => {
                return Err(e);
            },
        };
        let username = match read_string(data, pos) {
            Ok(v) => v,
            Err(e) => {
                return Err(e);
            },
        };
        Ok(ServerResponse::AddRoomMember { room, username })
    } else if code_val == 135 {
        let room = match read_string(data, pos) {
            Ok(v) => v,
            Err(e) => {
                return Err(e);
            },
        };
        let username = match read_string(data, pos) {
            Ok(v) => v,
            Err(e) => {
                return Err(e);
            },
        };
        Ok(ServerResponse::RemoveRoomMember { room, username })
    } else if code_val == 139 {
        let room = match read_string(data, pos) {
            Ok(v) => v,
            Err(e) => {
                return Err(e);
            },
        };
        Ok(ServerResponse::RoomMembershipGranted { room })
    } else if code_val == 140 {
        let room = match read_string(data, pos) {
            Ok(v) => v,
            Err(e) => {
                return Err(e);
            },
        };
        Ok(ServerResponse::RoomMembershipRevoked { room })
    } else if code_val == 141 {
        let enable = match read_bool(data, pos) {
            Ok(v) => v,
            Err(e) => {
                return Err(e);
            },
        };
        Ok(ServerResponse::EnableRoomInvitations { enable })
    } else if code_val == 142 {
        let password = match read_string(data, pos) {
            Ok(v) => v,
            Err(e) => {
                return Err(e);
            },
        };
        Ok(ServerResponse::ChangePassword { password })
    } else if code_val == 143 {
        let room = match read_string(data, pos) {
            Ok(v) => v,
            Err(e) => {
                return Err(e);
            },
        };
        let username = match read_string(data, pos) {
            Ok(v) => v,
            Err(e) => {
                return Err(e);
            },
        };
        Ok(ServerResponse::AddRoomOperator { room, username })
    } else if code_val == 144 {
        let room = match read_string(data, pos) {
            Ok(v) => v,
            Err(e) => {
                return Err(e);
            },
        };
        let username = match read_string(data, pos) {
            Ok(v) => v,
            Err(e) => {
                return Err(e);
            },
        };
        Ok(ServerResponse::RemoveRoomOperator { room, username })
    } else if code_val == 145 {
        let room = match read_string(data, pos) {
            Ok(v) => v,
            Err(e) => {
                return Err(e);
            },
        };
        Ok(ServerResponse::RoomOperatorshipGranted { room })
    } else if code_val == 146 {
        let room = match read_string(data, pos) {
            Ok(v) => v,
            Err(e) => {
                return Err(e);
            },
        };
        Ok(ServerResponse::RoomOperatorshipRevoked { room })
    } else if code_val == 148 {
        let room = match read_string(data, pos) {
            Ok(v) => v,
            Err(e) => {
                return Err(e);
            },
        };
        let operators = match read_string_list(data, pos) {
            Ok(v) => v,
            Err(e) => {
                return Err(e);
            },
        };
        Ok(ServerResponse::RoomOperators { room, operators })
    } else if code_val == 152 {
        let room = match read_string(data, pos) {
            Ok(v) => v,
            Err(e) => {
                return Err(e);
            },
        };
        let username = match read_string(data, pos) {
            Ok(v) => v,
            Err(e) => {
                return Err(e);
            },
        };
        let message = match read_string(data, pos) {
            Ok(v) => v,
            Err(e) => {
                return Err(e);
            },
        };
        Ok(ServerResponse::GlobalRoomMessage { room, username, message })
    } else if code_val == 160 {
        let phrases = match read_string_list(data, pos) {
            Ok(v) => v,
            Err(e) => {
                return Err(e);
            },
        };
        Ok(ServerResponse::ExcludedSearchPhrases { phrases })
    } else if code_val == 1003 {
        let room = match read_string(data, pos) {
            Ok(v) => v,
            Err(e) => {
                return Err(e);
            },
        };
        Ok(ServerResponse::CantCreateRoom { room })
    } else {
        // A recognised code that the server never sends, or an unknown one.
        match ServerCode::try_from(code_val) {
            Ok(_) => Err(
                Error::Protocol(String::from_str("code is send-only, not expected in a response")),
            ),
            Err(e) => Err(e),
        }
    }
}

/// Reads one server response: the `u32` length prefix, the `u32` code,
/// and the payload. Trailing bytes past the frame are not consumed.
pub fn read_server_message(data: &Vec<u8>, pos: &mut usize) -> (r: Result<ServerResponse, Error>)
    requires
        *old(pos) <= data@.len(),
    ensures
        *old(pos) <= *final(pos) <= data@.len(),
        forall|m: ServerResponse|
            wf_server_response(m) && frame_fits_u32(server_resp_payload(m))
                && server_round_trip_kind(m) && #[trigger] prefix_at(
                data@,
                *old(pos) as int,
                server_resp_frame(m),
            ) ==> (r matches Ok(v) && server_resp_eq(v, m) && *final(pos) == *old(pos)
                + server_resp_frame(m).len()),
        // A frame carrying a code this client does not know fails with
        // that code, so the channel can skip the frame and go on.
        ({
            let i = *old(pos) as int;
            let declared_len = spec_u32_from_le_bytes(data@.subrange(i, i + 4));
            let code = spec_u32_from_le_bytes(data@.subrange(i + 4, i + 8));
            (i + 8 <= data@.len() && 4 <= declared_len && declared_len <= data@.len() - i - 4
                && spec_server_code_from(code) is None) ==> r == Err::<ServerResponse, Error>(
                Error::InvalidMessageCode(code),
            )
        }),
{
    broadcast use crate::protocol::group_enc_facts;

    let ghost start = *pos as int;
    let declared = match read_u32(data, pos) {
        Ok(v) => v,
        Err(e) => {
            proof {
                assert forall|m: ServerResponse|
                    wf_server_response(m) && frame_fits_u32(server_resp_payload(m))
                        && server_round_trip_kind(m) && #[trigger] prefix_at(
                        data@,
                        start,
                        server_resp_frame(m),
                    ) implies false by {
                    server_frame_parts(data@, start, m);
                }
            }
            return Err(e);
        },
    };
    if declared < 4 {
        proof {
            assert forall|m: ServerResponse|
                wf_server_response(m) && frame_fits_u32(server_resp_payload(m))
                    && server_round_trip_kind(m) && #[trigger] prefix_at(
                    data@,
                    start,
                    server_resp_frame(m),
                ) implies false by {
                server_frame_parts(data@, start, m);
            }
        }
        return Err(Error::Protocol(String::from_str("declared length shorter than the code")));
    }
    if declared as usize > data.len() - *pos {
        proof {
            assert forall|m: ServerResponse|
                wf_server_response(m) && frame_fits_u32(server_resp_payload(m))
                    && server_round_trip_kind(m) && #[trigger] prefix_at(
                    data@,
                    start,
                    server_resp_frame(m),
                ) implies false by {
                server_frame_parts(data@, start, m);
            }
        }
        return Err(
            Error::BufferUnderflow { needed: declared as usize, available: data.len() - *pos },
        );
    }
    let frame_end = *pos + declared as usize;
    let code_val = match read_u32(data, pos) {
        Ok(v) => v,
        Err(e) => {
            proof {
                assert(false);
            }
            return Err(e);
        },
    };
    proof {
        assert(spec_u32_from_le_bytes(data@.subrange(start, start + 4)) == declared);
        assert(spec_u32_from_le_bytes(data@.subrange(start + 4, start + 8)) == code_val);
    }
    if code_val == 1 {
        read_login_response_body(data, pos, frame_end, Ghost(start))
    } else if code_val == 3 {
        read_get_peer_address_body(data, pos, frame_end, Ghost(start))
    } else if code_val == 18 {
        read_connect_to_peer_body(data, pos, frame_end, Ghost(start))
    } else if code_val == 26 {
        read_file_search_body(data, pos, frame_end, Ghost(start))
    } else if code_val == 1001 {
        read_cant_connect_body(data, pos, frame_end, Ghost(start))
    } else {
        let r = read_server_response_other(code_val, data, pos, frame_end);
        proof {
            assert forall|m: ServerResponse|
                wf_server_response(m) && frame_fits_u32(server_resp_payload(m))
                    && server_round_trip_kind(m) && #[trigger] prefix_at(
                    data@,
                    start,
                    server_resp_frame(m),
                ) implies (r matches Ok(v) && server_resp_eq(v, m) && *pos == start
                + server_resp_frame(m).len()) by {
                server_frame_parts(data@, start, m);
                assert(server_code_u32(server_resp_code(m)) == code_val);
                assert(false);
            }
        }
        r
    }
}





/// Equality of requests up to string and list contents. The login hash
/// is derived from the credentials and carried by no field.
pub open spec fn server_req_eq(a: ServerRequest, b: ServerRequest) -> bool {
    match (a, b) {
        (
            ServerRequest::Login { username: u1, password: p1, version: v1, minor_version: n1 },
            ServerRequest::Login { username: u2, password: p2, version: v2, minor_version: n2 },
        ) => u1@ == u2@ && p1@ == p2@ && v1 == v2 && n1 == n2,
        (
            ServerRequest::SetWaitPort { port: p1, obfuscation_type: t1, obfuscated_port: o1 },
            ServerRequest::SetWaitPort { port: p2, obfuscation_type: t2, obfuscated_port: o2 },
        ) => p1 == p2 && t1 == t2 && o1 == o2,
        (
            ServerRequest::JoinRoom { room: r1, private: p1 },
            ServerRequest::JoinRoom { room: r2, private: p2 },
        ) => r1@ == r2@ && p1 == p2,
        (
            ServerRequest::SetStatus { status: s1 },
            ServerRequest::SetStatus { status: s2 },
        ) => s1 == s2,
        (
            ServerRequest::GetPeerAddress { username: username1 },
            ServerRequest::GetPeerAddress { username: username2 },
        ) => username1@ == username2@,
        (
            ServerRequest::WatchUser { username: username1 },
            ServerRequest::WatchUser { username: username2 },
        ) => username1@ == username2@,
        (
            ServerRequest::UnwatchUser { username: username1 },
            ServerRequest::UnwatchUser { username: username2 },
        ) => username1@ == username2@,
        (
            ServerRequest::GetUserStatus { username: username1 },
            ServerRequest::GetUserStatus { username: username2 },
        ) => username1@ == username2@,
        (
            ServerRequest::SayChatroom { room: room1, message: message1 },
            ServerRequest::SayChatroom { room: room2, message: message2 },
        ) => room1@ == room2@ && message1@ == message2@,
        (
            ServerRequest::LeaveRoom { room: room1 },
            ServerRequest::LeaveRoom { room: room2 },
        ) => room1@ == room2@,
        (
            ServerRequest::ConnectToPeer { token: token1, username: username1, connection_type: connection_type1 },
            ServerRequest::ConnectToPeer { token: token2, username: username2, connection_type: connection_type2 },
        ) => token1 == token2 && username1@ == username2@ && connection_type1 == connection_type2,
        (
            ServerRequest::MessageUser { username: username1, message: message1 },
            ServerRequest::MessageUser { username: username2, message: message2 },
        ) => username1@ == username2@ && message1@ == message2@,
        (
            ServerRequest::MessageAcked { message_id: message_id1 },
            ServerRequest::MessageAcked { message_id: message_id2 },
        ) => message_id1 == message_id2,
        (
            ServerRequest::FileSearch { token: token1, query: query1 },
            ServerRequest::FileSearch { token: token2, query: query2 },
        ) => token1 == token2 && query1@ == query2@,
        (ServerRequest::ServerPing, ServerRequest::ServerPing) => true,
        (
            ServerRequest::SharedFoldersFiles { dirs: dirs1, files: files1 },
            ServerRequest::SharedFoldersFiles { dirs: dirs2, files: files2 },
        ) => dirs1 == dirs2 && files1 == files2,
        (
            ServerRequest::GetUserStats { username: username1 },
            ServerRequest::GetUserStats { username: username2 },
        ) => username1@ == username2@,
        (
            ServerRequest::UserSearch { username: username1, token: token1, query: query1 },
            ServerRequest::UserSearch { username: username2, token: token2, query: query2 },
        ) => username1@ == username2@ && token1 == token2 && query1@ == query2@,
        (
            ServerRequest::InterestAdd { item: item1 },
            ServerRequest::InterestAdd { item: item2 },
        ) => item1@ == item2@,
        (
            ServerRequest::InterestRemove { item: item1 },
            ServerRequest::InterestRemove { item: item2 },
        ) => item1@ == item2@,
        (ServerRequest::GetRecommendations, ServerRequest::GetRecommendations) => true,
        (ServerRequest::GetGlobalRecommendations, ServerRequest::GetGlobalRecommendations) => true,
        (
            ServerRequest::GetUserInterests { username: username1 },
            ServerRequest::GetUserInterests { username: username2 },
        ) => username1@ == username2@,
        (ServerRequest::RoomList, ServerRequest::RoomList) => true,
        (
            ServerRequest::HaveNoParent { no_parent: no_parent1 },
            ServerRequest::HaveNoParent { no_parent: no_parent2 },
        ) => no_parent1 == no_parent2,
        (ServerRequest::CheckPrivileges, ServerRequest::CheckPrivileges) => true,
        (
            ServerRequest::AcceptChildren { accept: accept1 },
            ServerRequest::AcceptChildren { accept: accept2 },
        ) => accept1 == accept2,
        (
            ServerRequest::WishlistSearch { token: token1, query: query1 },
            ServerRequest::WishlistSearch { token: token2, query: query2 },
        ) => token1 == token2 && query1@ == query2@,
        (ServerRequest::GetSimilarUsers, ServerRequest::GetSimilarUsers) => true,
        (
            ServerRequest::GetItemRecommendations { item: item1 },
            ServerRequest::GetItemRecommendations { item: item2 },
        ) => item1@ == item2@,
        (
            ServerRequest::GetItemSimilarUsers { item: item1 },
            ServerRequest::GetItemSimilarUsers { item: item2 },
        ) => item1@ == item2@,
        (
            ServerRequest::RoomTickerSet { room: room1, ticker: ticker1 },
            ServerRequest::RoomTickerSet { room: room2, ticker: ticker2 },
        ) => room1@ == room2@ && ticker1@ == ticker2@,
        (
            ServerRequest::HatedInterestAdd { item: item1 },
            ServerRequest::HatedInterestAdd { item: item2 },
        ) => item1@ == item2@,
        (
            ServerRequest::HatedInterestRemove { item: item1 },
            ServerRequest::HatedInterestRemove { item: item2 },
        ) => item1@ == item2@,
        (
            ServerRequest::RoomSearch { room: room1, token: token1, query: query1 },
            ServerRequest::RoomSearch { room: room2, token: token2, query: query2 },
        ) => room1@ == room2@ && token1 == token2 && query1@ == query2@,
        (
            ServerRequest::SendUploadSpeed { speed: speed1 },
            ServerRequest::SendUploadSpeed { speed: speed2 },
        ) => speed1 == speed2,
        (
            ServerRequest::GivePrivileges { username: username1, days: days1 },
            ServerRequest::GivePrivileges { username: username2, days: days2 },
        ) => username1@ == username2@ && days1 == days2,
        (
            ServerRequest::BranchLevel { level: level1 },
            ServerRequest::BranchLevel { level: level2 },
        ) => level1 == level2,
        (
            ServerRequest::BranchRoot { root: root1 },
            ServerRequest::BranchRoot { root: root2 },
        ) => root1@ == root2@,
        (
            ServerRequest::AddRoomMember { room: room1, username: username1 },
            ServerRequest::AddRoomMember { room: room2, username: username2 },
        ) => room1@ == room2@ && username1@ == username2@,
        (
            ServerRequest::RemoveRoomMember { room: room1, username: username1 },
            ServerRequest::RemoveRoomMember { room: room2, username: username2 },
        ) => room1@ == room2@ && username1@ == username2@,
        (
            ServerRequest::CancelRoomMembership { room: room1 },
            ServerRequest::CancelRoomMembership { room: room2 },
        ) => room1@ == room2@,
        (
            ServerRequest::CancelRoomOwnership { room: room1 },
            ServerRequest::CancelRoomOwnership { room: room2 },
        ) => room1@ == room2@,
        (
            ServerRequest::EnableRoomInvitations { enable: enable1 },
            ServerRequest::EnableRoomInvitations { enable: enable2 },
        ) => enable1 == enable2,
        (
            ServerRequest::ChangePassword { password: password1 },
            ServerRequest::ChangePassword { password: password2 },
        ) => password1@ == password2@,
        (
            ServerRequest::AddRoomOperator { room: room1, username: username1 },
            ServerRequest::AddRoomOperator { room: room2, username: username2 },
        ) => room1@ == room2@ && username1@ == username2@,
        (
            ServerRequest::RemoveRoomOperator { room: room1, username: username1 },
            ServerRequest::RemoveRoomOperator { room: room2, username: username2 },
        ) => room1@ == room2@ && username1@ == username2@,
        (
            ServerRequest::MessageUsers { usernames: usernames1, message: message1 },
            ServerRequest::MessageUsers { usernames: usernames2, message: message2 },
        ) => string_seq_eq(usernames1@, usernames2@) && message1@ == message2@,
        (ServerRequest::JoinGlobalRoom, ServerRequest::JoinGlobalRoom) => true,
        (ServerRequest::LeaveGlobalRoom, ServerRequest::LeaveGlobalRoom) => true,
        (
            ServerRequest::CantConnectToPeer { token: token1, username: username1 },
            ServerRequest::CantConnectToPeer { token: token2, username: username2 },
        ) => token1 == token2 && username1@ == username2@,
        _ => false,
    }
}

/// Splits a request frame at offset `i` into its parts.
proof fn server_req_frame_parts(data: Seq<u8>, i: int, m: ServerRequest)
    requires
        wf_server_request(m),
        frame_fits_u32(server_req_payload(m)),
        prefix_at(data, i, server_req_frame(m)),
    ensures
        i + 8 + server_req_payload(m).len() <= data.len(),
        data.subrange(i, i + 4) == enc_u32((4 + server_req_payload(m).len()) as u32),
        data.subrange(i + 4, i + 8) == enc_u32(server_code_u32(server_req_code(m))),
        prefix_at(data, i + 8, server_req_payload(m)),
        server_req_frame(m).len() == 8 + server_req_payload(m).len(),
{
    broadcast use crate::protocol::group_enc_facts;

    let pl = server_req_payload(m);
    let code = server_code_u32(server_req_code(m));
    take_prefix_at(
        data,
        i,
        i + server_req_frame(m).len(),
        enc_u32((4 + pl.len()) as u32),
        enc_u32(code) + pl,
    );
    split_u32(data, i + 4, code, pl);
}

/// The parts of a `GetPeerAddress` frame at offset `i`.
proof fn req_getpeeraddress_parts(data: Seq<u8>, i: int, m: ServerRequest)
    requires
        wf_server_request(m),
        frame_fits_u32(server_req_payload(m)),
        prefix_at(data, i, server_req_frame(m)),
        data.subrange(i + 4, i + 8) == enc_u32(3),
    ensures
        m is GetPeerAddress,
        i + server_req_frame(m).len() <= data.len(),
        server_req_frame(m).len() == 8 + server_req_payload(m).len(),
        data.subrange(i + 8, i + 8 + 4) == enc_u32(encode_utf8(m->GetPeerAddress_username@).len() as u32),
        data.subrange(i + 8 + 4, i + 8 + 4 + encode_utf8(m->GetPeerAddress_username@).len()) == encode_utf8(m->GetPeerAddress_username@),
        crate::protocol::str_starts_at(data, i + 8),
        i + 8 + enc_str(m->GetPeerAddress_username@).len() as int == i + server_req_frame(m).len(),
{
    broadcast use crate::protocol::group_enc_facts;

    server_req_frame_parts(data, i, m);
    assert(m is GetPeerAddress);
    assert(server_req_payload(m) =~= enc_str(m->GetPeerAddress_username@));
    split_str(data, i + 8, m->GetPeerAddress_username@, Seq::<u8>::empty());
}

fn read_req_getpeeraddress_body(data: &Vec<u8>, pos: &mut usize, frame_end: usize, Ghost(start): Ghost<
    int,
>) -> (r: Result<ServerRequest, Error>)
    requires
        0 <= start,
        *old(pos) == start + 8,
        *old(pos) <= frame_end <= data@.len(),
        frame_end - start - 4 <= u32::MAX,
        data@.subrange(start, start + 4) == enc_u32((frame_end - start - 4) as u32),
        data@.subrange(start + 4, start + 8) == enc_u32(3),
    ensures
        *old(pos) <= *final(pos) <= data@.len(),
        forall|m: ServerRequest|
            wf_server_request(m) && frame_fits_u32(server_req_payload(m)) && #[trigger] prefix_at(
                data@,
                start,
                server_req_frame(m),
            ) ==> (r matches Ok(v) && server_req_eq(v, m) && *final(pos) == start
                + server_req_frame(m).len()),
{
    broadcast use crate::protocol::group_enc_facts;

    let ghost pstart = start + 8;
    let username = match read_string(data, pos) {
        Ok(v) => v,
        Err(e) => {
            proof {
            assert forall|m: ServerRequest| wf_server_request(m) && frame_fits_u32(server_req_payload(m)) && #[trigger] prefix_at(
                data@,
                start,
                server_req_frame(m),
            ) implies false by {
                req_getpeeraddress_parts(data@, start, m);
            }
        }
            return Err(e);
        },
    };
    let v = ServerRequest::GetPeerAddress { username };
    proof {
            assert forall|m: ServerRequest| wf_server_request(m) && frame_fits_u32(server_req_payload(m)) && #[trigger] prefix_at(
                data@,
                start,
                server_req_frame(m),
            ) implies server_req_eq(v, m) && *pos == start + server_req_frame(m).len() by {
                req_getpeeraddress_parts(data@, start, m);
                match_str_at(data@, pstart, username@, m->GetPeerAddress_username@);
            }
        }
    Ok(v)
}

/// The parts of a `WatchUser` frame at offset `i`.
proof fn req_watchuser_parts(data: Seq<u8>, i: int, m: ServerRequest)
    requires
        wf_server_request(m),
        frame_fits_u32(server_req_payload(m)),
        prefix_at(data, i, server_req_frame(m)),
        data.subrange(i + 4, i + 8) == enc_u32(5),
    ensures
        m is WatchUser,
        i + server_req_frame(m).len() <= data.len(),
        server_req_frame(m).len() == 8 + server_req_payload(m).len(),
        data.subrange(i + 8, i + 8 + 4) == enc_u32(encode_utf8(m->WatchUser_username@).len() as u32),
        data.subrange(i + 8 + 4, i + 8 + 4 + encode_utf8(m->WatchUser_username@).len()) == encode_utf8(m->WatchUser_username@),
        crate::protocol::str_starts_at(data, i + 8),
        i + 8 + enc_str(m->WatchUser_username@).len() as int == i + server_req_frame(m).len(),
{
    broadcast use crate::protocol::group_enc_facts;

    server_req_frame_parts(data, i, m);
    assert(m is WatchUser);
    assert(server_req_payload(m) =~= enc_str(m->WatchUser_username@));
    split_str(data, i + 8, m->WatchUser_username@, Seq::<u8>::empty());
}

fn read_req_watchuser_body(data: &Vec<u8>, pos: &mut usize, frame_end: usize, Ghost(start): Ghost<
    int,
>) -> (r: Result<ServerRequest, Error>)
    requires
        0 <= start,
        *old(pos) == start + 8,
        *old(pos) <= frame_end <= data@.len(),
        frame_end - start - 4 <= u32::MAX,
        data@.subrange(start, start + 4) == enc_u32((frame_end - start - 4) as u32),
        data@.subrange(start + 4, start + 8) == enc_u32(5),
    ensures
        *old(pos) <= *final(pos) <= data@.len(),
        forall|m: ServerRequest|
            wf_server_request(m) && frame_fits_u32(server_req_payload(m)) && #[trigger] prefix_at(
                data@,
                start,
                server_req_frame(m),
            ) ==> (r matches Ok(v) && server_req_eq(v, m) && *final(pos) == start
                + server_req_frame(m).len()),
{
    broadcast use crate::protocol::group_enc_facts;

    let ghost pstart = start + 8;
    let username = match read_string(data, pos) {
        Ok(v) => v,
        Err(e) => {
            proof {
            assert forall|m: ServerRequest| wf_server_request(m) && frame_fits_u32(server_req_payload(m)) && #[trigger] prefix_at(
                data@,
                start,
                server_req_frame(m),
            ) implies false by {
                req_watchuser_parts(data@, start, m);
            }
        }
            return Err(e);
        },
    };
    let v = ServerRequest::WatchUser { username };
    proof {
            assert forall|m: ServerRequest| wf_server_request(m) && frame_fits_u32(server_req_payload(m)) && #[trigger] prefix_at(
                data@,
                start,
                server_req_frame(m),
            ) implies server_req_eq(v, m) && *pos == start + server_req_frame(m).len() by {
                req_watchuser_parts(data@, start, m);
                match_str_at(data@, pstart, username@, m->WatchUser_username@);
            }
        }
    Ok(v)
}

/// The parts of a `UnwatchUser` frame at offset `i`.
proof fn req_unwatchuser_parts(data: Seq<u8>, i: int, m: ServerRequest)
    requires
        wf_server_request(m),
        frame_fits_u32(server_req_payload(m)),
        prefix_at(data, i, server_req_frame(m)),
        data.subrange(i + 4, i + 8) == enc_u32(6),
    ensures
        m is UnwatchUser,
        i + server_req_frame(m).len() <= data.len(),
        server_req_frame(m).len() == 8 + server_req_payload(m).len(),
        data.subrange(i + 8, i + 8 + 4) == enc_u32(encode_utf8(m->UnwatchUser_username@).len() as u32),
        data.subrange(i + 8 + 4, i + 8 + 4 + encode_utf8(m->UnwatchUser_username@).len()) == encode_utf8(m->UnwatchUser_username@),
        crate::protocol::str_starts_at(data, i + 8),
        i + 8 + enc_str(m->UnwatchUser_username@).len() as int == i + server_req_frame(m).len(),
{
    broadcast use crate::protocol::group_enc_facts;

    server_req_frame_parts(data, i, m);
    assert(m is UnwatchUser);
    assert(server_req_payload(m) =~= enc_str(m->UnwatchUser_username@));
    split_str(data, i + 8, m->UnwatchUser_username@, Seq::<u8>::empty());
}

fn read_req_unwatchuser_body(data: &Vec<u8>, pos: &mut usize, frame_end: usize, Ghost(start): Ghost<
    int,
>) -> (r: Result<ServerRequest, Error>)
    requires
        0 <= start,
        *old(pos) == start + 8,
        *old(pos) <= frame_end <= data@.len(),
        frame_end - start - 4 <= u32::MAX,
        data@.subrange(start, start + 4) == enc_u32((frame_end - start - 4) as u32),
        data@.subrange(start + 4, start + 8) == enc_u32(6),
    ensures
        *old(pos) <= *final(pos) <= data@.len(),
        forall|m: ServerRequest|
            wf_server_request(m) && frame_fits_u32(server_req_payload(m)) && #[trigger] prefix_at(
                data@,
                start,
                server_req_frame(m),
            ) ==> (r matches Ok(v) && server_req_eq(v, m) && *final(pos) == start
                + server_req_frame(m).len()),
{
    broadcast use crate::protocol::group_enc_facts;

    let ghost pstart = start + 8;
    let username = match read_string(data, pos) {
        Ok(v) => v,
        Err(e) => {
            proof {
            assert forall|m: ServerRequest| wf_server_request(m) && frame_fits_u32(server_req_payload(m)) && #[trigger] prefix_at(
                data@,
                start,
                server_req_frame(m),
            ) implies false by {
                req_unwatchuser_parts(data@, start, m);
            }
        }
            return Err(e);
        },
    };
    let v = ServerRequest::UnwatchUser { username };
    proof {
            assert forall|m: ServerRequest| wf_server_request(m) && frame_fits_u32(server_req_payload(m)) && #[trigger] prefix_at(
                data@,
                start,
                server_req_frame(m),
            ) implies server_req_eq(v, m) && *pos == start + server_req_frame(m).len() by {
                req_unwatchuser_parts(data@, start, m);
                match_str_at(data@, pstart, username@, m->UnwatchUser_username@);
            }
        }
    Ok(v)
}

/// The parts of a `GetUserStatus` frame at offset `i`.
proof fn req_getuserstatus_parts(data: Seq<u8>, i: int, m: ServerRequest)
    requires
        wf_server_request(m),
        frame_fits_u32(server_req_payload(m)),
        prefix_at(data, i, server_req_frame(m)),
        data.subrange(i + 4, i + 8) == enc_u32(7),
    ensures
        m is GetUserStatus,
        i + server_req_frame(m).len() <= data.len(),
        server_req_frame(m).len() == 8 + server_req_payload(m).len(),
        data.subrange(i + 8, i + 8 + 4) == enc_u32(encode_utf8(m->GetUserStatus_username@).len() as u32),
        data.subrange(i + 8 + 4, i + 8 + 4 + encode_utf8(m->GetUserStatus_username@).len()) == encode_utf8(m->GetUserStatus_username@),
        crate::protocol::str_starts_at(data, i + 8),
        i + 8 + enc_str(m->GetUserStatus_username@).len() as int == i + server_req_frame(m).len(),
{
    broadcast use crate::protocol::group_enc_facts;

    server_req_frame_parts(data, i, m);
    assert(m is GetUserStatus);
    assert(server_req_payload(m) =~= enc_str(m->GetUserStatus_username@));
    split_str(data, i + 8, m->GetUserStatus_username@, Seq::<u8>::empty());
}

fn read_req_getuserstatus_body(data: &Vec<u8>, pos: &mut usize, frame_end: usize, Ghost(start): Ghost<
    int,
>) -> (r: Result<ServerRequest, Error>)
    requires
        0 <= start,
        *old(pos) == start + 8,
        *old(pos) <= frame_end <= data@.len(),
        frame_end - start - 4 <= u32::MAX,
        data@.subrange(start, start + 4) == enc_u32((frame_end - start - 4) as u32),
        data@.subrange(start + 4, start + 8) == enc_u32(7),
    ensures
        *old(pos) <= *final(pos) <= data@.len(),
        forall|m: ServerRequest|
            wf_server_request(m) && frame_fits_u32(server_req_payload(m)) && #[trigger] prefix_at(
                data@,
                start,
                server_req_frame(m),
            ) ==> (r matches Ok(v) && server_req_eq(v, m) && *final(pos) == start
                + server_req_frame(m).len()),
{
    broadcast use crate::protocol::group_enc_facts;

    let ghost pstart = start + 8;
    let username = match read_string(data, pos) {
        Ok(v) => v,
        Err(e) => {
            proof {
            assert forall|m: ServerRequest| wf_server_request(m) && frame_fits_u32(server_req_payload(m)) && #[trigger] prefix_at(
                data@,
                start,
                server_req_frame(m),
            ) implies false by {
                req_getuserstatus_parts(data@, start, m);
            }
        }
            return Err(e);
        },
    };
    let v = ServerRequest::GetUserStatus { username };
    proof {
            assert forall|m: ServerRequest| wf_server_request(m) && frame_fits_u32(server_req_payload(m)) && #[trigger] prefix_at(
                data@,
                start,
                server_req_frame(m),
            ) implies server_req_eq(v, m) && *pos == start + server_req_frame(m).len() by {
                req_getuserstatus_parts(data@, start, m);
                match_str_at(data@, pstart, username@, m->GetUserStatus_username@);
            }
        }
    Ok(v)
}

/// The parts of a `SayChatroom` frame at offset `i`.
proof fn req_saychatroom_parts(data: Seq<u8>, i: int, m: ServerRequest)
    requires
        wf_server_request(m),
        frame_fits_u32(server_req_payload(m)),
        prefix_at(data, i, server_req_frame(m)),
        data.subrange(i + 4, i + 8) == enc_u32(13),
    ensures
        m is SayChatroom,
        i + server_req_frame(m).len() <= data.len(),
        server_req_frame(m).len() == 8 + server_req_payload(m).len(),
        data.subrange(i + 8, i + 8 + 4) == enc_u32(encode_utf8(m->SayChatroom_room@).len() as u32),
        data.subrange(i + 8 + 4, i + 8 + 4 + encode_utf8(m->SayChatroom_room@).len()) == encode_utf8(m->SayChatroom_room@),
        crate::protocol::str_starts_at(data, i + 8),
        data.subrange(i + 8 + enc_str(m->SayChatroom_room@).len() as int, i + 8 + enc_str(m->SayChatroom_room@).len() as int + 4) == enc_u32(encode_utf8(m->SayChatroom_message@).len() as u32),
        data.subrange(i + 8 + enc_str(m->SayChatroom_room@).len() as int + 4, i + 8 + enc_str(m->SayChatroom_room@).len() as int + 4 + encode_utf8(m->SayChatroom_message@).len()) == encode_utf8(m->SayChatroom_message@),
        crate::protocol::str_starts_at(data, i + 8 + enc_str(m->SayChatroom_room@).len() as int),
        i + 8 + enc_str(m->SayChatroom_room@).len() as int + enc_str(m->SayChatroom_message@).len() as int == i + server_req_frame(m).len(),
{
    broadcast use crate::protocol::group_enc_facts;

    server_req_frame_parts(data, i, m);
    assert(m is SayChatroom);
    assert(server_req_payload(m) =~= enc_str(m->SayChatroom_room@) + (enc_str(m->SayChatroom_message@)));
    split_str(data, i + 8, m->SayChatroom_room@, enc_str(m->SayChatroom_message@));
    split_str(data, i + 8 + enc_str(m->SayChatroom_room@).len() as int, m->SayChatroom_message@, Seq::<u8>::empty());
}

fn read_req_saychatroom_body(data: &Vec<u8>, pos: &mut usize, frame_end: usize, Ghost(start): Ghost<
    int,
>) -> (r: Result<ServerRequest, Error>)
    requires
        0 <= start,
        *old(pos) == start + 8,
        *old(pos) <= frame_end <= data@.len(),
        frame_end - start - 4 <= u32::MAX,
        data@.subrange(start, start + 4) == enc_u32((frame_end - start - 4) as u32),
        data@.subrange(start + 4, start + 8) == enc_u32(13),
    ensures
        *old(pos) <= *final(pos) <= data@.len(),
        forall|m: ServerRequest|
            wf_server_request(m) && frame_fits_u32(server_req_payload(m)) && #[trigger] prefix_at(
                data@,
                start,
                server_req_frame(m),
            ) ==> (r matches Ok(v) && server_req_eq(v, m) && *final(pos) == start
                + server_req_frame(m).len()),
{
    broadcast use crate::protocol::group_enc_facts;

    let ghost pstart = start + 8;
    let room = match read_string(data, pos) {
        Ok(v) => v,
        Err(e) => {
            proof {
            assert forall|m: ServerRequest| wf_server_request(m) && frame_fits_u32(server_req_payload(m)) && #[trigger] prefix_at(
                data@,
                start,
                server_req_frame(m),
            ) implies false by {
                req_saychatroom_parts(data@, start, m);
            }
        }
            return Err(e);
        },
    };
    let message = match read_string(data, pos) {
        Ok(v) => v,
        Err(e) => {
            proof {
            assert forall|m: ServerRequest| wf_server_request(m) && frame_fits_u32(server_req_payload(m)) && #[trigger] prefix_at(
                data@,
                start,
                server_req_frame(m),
            ) implies false by {
                req_saychatroom_parts(data@, start, m);
                match_str_at(data@, pstart, room@, m->SayChatroom_room@);
            }
        }
            return Err(e);
        },
    };
    let v = ServerRequest::SayChatroom { room, message };
    proof {
            assert forall|m: ServerRequest| wf_server_request(m) && frame_fits_u32(server_req_payload(m)) && #[trigger] prefix_at(
                data@,
                start,
                server_req_frame(m),
            ) implies server_req_eq(v, m) && *pos == start + server_req_frame(m).len() by {
                req_saychatroom_parts(data@, start, m);
                match_str_at(data@, pstart, room@, m->SayChatroom_room@);
                match_str_at(data@, pstart + enc_str(m->SayChatroom_room@).len() as int, message@, m->SayChatroom_message@);
            }
        }
    Ok(v)
}

/// The parts of a `LeaveRoom` frame at offset `i`.
proof fn req_leaveroom_parts(data: Seq<u8>, i: int, m: ServerRequest)
    requires
        wf_server_request(m),
        frame_fits_u32(server_req_payload(m)),
        prefix_at(data, i, server_req_frame(m)),
        data.subrange(i + 4, i + 8) == enc_u32(15),
    ensures
        m is LeaveRoom,
        i + server_req_frame(m).len() <= data.len(),
        server_req_frame(m).len() == 8 + server_req_payload(m).len(),
        data.subrange(i + 8, i + 8 + 4) == enc_u32(encode_utf8(m->LeaveRoom_room@).len() as u32),
        data.subrange(i + 8 + 4, i + 8 + 4 + encode_utf8(m->LeaveRoom_room@).len()) == encode_utf8(m->LeaveRoom_room@),
        crate::protocol::str_starts_at(data, i + 8),
        i + 8 + enc_str(m->LeaveRoom_room@).len() as int == i + server_req_frame(m).len(),
{
    broadcast use crate::protocol::group_enc_facts;

    server_req_frame_parts(data, i, m);
    assert(m is LeaveRoom);
    assert(server_req_payload(m) =~= enc_str(m->LeaveRoom_room@));
    split_str(data, i + 8, m->LeaveRoom_room@, Seq::<u8>::empty());
}

fn read_req_leaveroom_body(data: &Vec<u8>, pos: &mut usize, frame_end: usize, Ghost(start): Ghost<
    int,
>) -> (r: Result<ServerRequest, Error>)
    requires
        0 <= start,
        *old(pos) == start + 8,
        *old(pos) <= frame_end <= data@.len(),
        frame_end - start - 4 <= u32::MAX,
        data@.subrange(start, start + 4) == enc_u32((frame_end - start - 4) as u32),
        data@.subrange(start + 4, start + 8) == enc_u32(15),
    ensures
        *old(pos) <= *final(pos) <= data@.len(),
        forall|m: ServerRequest|
            wf_server_request(m) && frame_fits_u32(server_req_payload(m)) && #[trigger] prefix_at(
                data@,
                start,
                server_req_frame(m),
            ) ==> (r matches Ok(v) && server_req_eq(v, m) && *final(pos) == start
                + server_req_frame(m).len()),
{
    broadcast use crate::protocol::group_enc_facts;

    let ghost pstart = start + 8;
    let room = match read_string(data, pos) {
        Ok(v) => v,
        Err(e) => {
            proof {
            assert forall|m: ServerRequest| wf_server_request(m) && frame_fits_u32(server_req_payload(m)) && #[trigger] prefix_at(
                data@,
                start,
                server_req_frame(m),
            ) implies false by {
                req_leaveroom_parts(data@, start, m);
            }
        }
            return Err(e);
        },
    };
    let v = ServerRequest::LeaveRoom { room };
    proof {
            assert forall|m: ServerRequest| wf_server_request(m) && frame_fits_u32(server_req_payload(m)) && #[trigger] prefix_at(
                data@,
                start,
                server_req_frame(m),
            ) implies server_req_eq(v, m) && *pos == start + server_req_frame(m).len() by {
                req_leaveroom_parts(data@, start, m);
                match_str_at(data@, pstart, room@, m->LeaveRoom_room@);
            }
        }
    Ok(v)
}

/// The parts of a `ConnectToPeer` frame at offset `i`.
proof fn req_connecttopeer_parts(data: Seq<u8>, i: int, m: ServerRequest)
    requires
        wf_server_request(m),
        frame_fits_u32(server_req_payload(m)),
        prefix_at(data, i, server_req_frame(m)),
        data.subrange(i + 4, i + 8) == enc_u32(18),
    ensures
        m is ConnectToPeer,
        i + server_req_frame(m).len() <= data.len(),
        server_req_frame(m).len() == 8 + server_req_payload(m).len(),
        data.subrange(i + 8, i + 8 + 4) == enc_u32(m->ConnectToPeer_token),
        data.subrange(i + 8 + 4, i + 8 + 4 + 4) == enc_u32(encode_utf8(m->ConnectToPeer_username@).len() as u32),
        data.subrange(i + 8 + 4 + 4, i + 8 + 4 + 4 + encode_utf8(m->ConnectToPeer_username@).len()) == encode_utf8(m->ConnectToPeer_username@),
        crate::protocol::str_starts_at(data, i + 8 + 4),
        data.subrange(i + 8 + 4 + enc_str(m->ConnectToPeer_username@).len() as int, i + 8 + 4 + enc_str(m->ConnectToPeer_username@).len() as int + 4) == enc_u32(encode_utf8(connection_type_chars(m->ConnectToPeer_connection_type)).len() as u32),
        data.subrange(i + 8 + 4 + enc_str(m->ConnectToPeer_username@).len() as int + 4, i + 8 + 4 + enc_str(m->ConnectToPeer_username@).len() as int + 4 + encode_utf8(connection_type_chars(m->ConnectToPeer_connection_type)).len()) == encode_utf8(connection_type_chars(m->ConnectToPeer_connection_type)),
        crate::protocol::str_starts_at(data, i + 8 + 4 + enc_str(m->ConnectToPeer_username@).len() as int),
        i + 8 + 4 + enc_str(m->ConnectToPeer_username@).len() as int + enc_str(connection_type_chars(m->ConnectToPeer_connection_type)).len() as int == i + server_req_frame(m).len(),
{
    broadcast use crate::protocol::group_enc_facts;

    server_req_frame_parts(data, i, m);
    assert(m is ConnectToPeer);
    assert(server_req_payload(m) =~= enc_u32(m->ConnectToPeer_token) + (enc_str(m->ConnectToPeer_username@) + (enc_str(connection_type_chars(m->ConnectToPeer_connection_type)))));
    split_u32(data, i + 8, m->ConnectToPeer_token, enc_str(m->ConnectToPeer_username@) + (enc_str(connection_type_chars(m->ConnectToPeer_connection_type))));
    split_str(data, i + 8 + 4, m->ConnectToPeer_username@, enc_str(connection_type_chars(m->ConnectToPeer_connection_type)));
    lemma_connection_type_ascii(m->ConnectToPeer_connection_type);
    split_str(data, i + 8 + 4 + enc_str(m->ConnectToPeer_username@).len() as int, connection_type_chars(m->ConnectToPeer_connection_type), Seq::<u8>::empty());
}

fn read_req_connecttopeer_body(data: &Vec<u8>, pos: &mut usize, frame_end: usize, Ghost(start): Ghost<
    int,
>) -> (r: Result<ServerRequest, Error>)
    requires
        0 <= start,
        *old(pos) == start + 8,
        *old(pos) <= frame_end <= data@.len(),
        frame_end - start - 4 <= u32::MAX,
        data@.subrange(start, start + 4) == enc_u32((frame_end - start - 4) as u32),
        data@.subrange(start + 4, start + 8) == enc_u32(18),
    ensures
        *old(pos) <= *final(pos) <= data@.len(),
        forall|m: ServerRequest|
            wf_server_request(m) && frame_fits_u32(server_req_payload(m)) && #[trigger] prefix_at(
                data@,
                start,
                server_req_frame(m),
            ) ==> (r matches Ok(v) && server_req_eq(v, m) && *final(pos) == start
                + server_req_frame(m).len()),
{
    broadcast use crate::protocol::group_enc_facts;

    let ghost pstart = start + 8;
    let token = match read_u32(data, pos) {
        Ok(v) => v,
        Err(e) => {
            proof {
            assert forall|m: ServerRequest| wf_server_request(m) && frame_fits_u32(server_req_payload(m)) && #[trigger] prefix_at(
                data@,
                start,
                server_req_frame(m),
            ) implies false by {
                req_connecttopeer_parts(data@, start, m);
            }
        }
            return Err(e);
        },
    };
    let username = match read_string(data, pos) {
        Ok(v) => v,
        Err(e) => {
            proof {
            assert forall|m: ServerRequest| wf_server_request(m) && frame_fits_u32(server_req_payload(m)) && #[trigger] prefix_at(
                data@,
                start,
                server_req_frame(m),
            ) implies false by {
                req_connecttopeer_parts(data@, start, m);
            }
        }
            return Err(e);
        },
    };
    let conn_str = match read_string(data, pos) {
        Ok(v) => v,
        Err(e) => {
            proof {
            assert forall|m: ServerRequest| wf_server_request(m) && frame_fits_u32(server_req_payload(m)) && #[trigger] prefix_at(
                data@,
                start,
                server_req_frame(m),
            ) implies false by {
                req_connecttopeer_parts(data@, start, m);
                match_str_at(data@, pstart + 4, username@, m->ConnectToPeer_username@);
            }
        }
            return Err(e);
        },
    };
    let connection_type = match ConnectionType::parse(conn_str.as_str()) {
        Ok(v) => v,
        Err(e) => {
            proof {
            assert forall|m: ServerRequest| wf_server_request(m) && frame_fits_u32(server_req_payload(m)) && #[trigger] prefix_at(
                data@,
                start,
                server_req_frame(m),
            ) implies false by {
                req_connecttopeer_parts(data@, start, m);
                match_str_at(data@, pstart + 4, username@, m->ConnectToPeer_username@);
                match_str_at(data@, pstart + 4 + enc_str(m->ConnectToPeer_username@).len() as int, conn_str@, connection_type_chars(m->ConnectToPeer_connection_type));
                lemma_connection_type_parse(m->ConnectToPeer_connection_type);
            }
        }
            return Err(e);
        },
    };
    let v = ServerRequest::ConnectToPeer { token, username, connection_type };
    proof {
            assert forall|m: ServerRequest| wf_server_request(m) && frame_fits_u32(server_req_payload(m)) && #[trigger] prefix_at(
                data@,
                start,
                server_req_frame(m),
            ) implies server_req_eq(v, m) && *pos == start + server_req_frame(m).len() by {
                req_connecttopeer_parts(data@, start, m);
                match_str_at(data@, pstart + 4, username@, m->ConnectToPeer_username@);
                match_str_at(data@, pstart + 4 + enc_str(m->ConnectToPeer_username@).len() as int, conn_str@, connection_type_chars(m->ConnectToPeer_connection_type));
                lemma_connection_type_parse(m->ConnectToPeer_connection_type);
            }
        }
    Ok(v)
}

/// The parts of a `MessageUser` frame at offset `i`.
proof fn req_messageuser_parts(data: Seq<u8>, i: int, m: ServerRequest)
    requires
        wf_server_request(m),
        frame_fits_u32(server_req_payload(m)),
        prefix_at(data, i, server_req_frame(m)),
        data.subrange(i + 4, i + 8) == enc_u32(22),
    ensures
        m is MessageUser,
        i + server_req_frame(m).len() <= data.len(),
        server_req_frame(m).len() == 8 + server_req_payload(m).len(),
        data.subrange(i + 8, i + 8 + 4) == enc_u32(encode_utf8(m->MessageUser_username@).len() as u32),
        data.subrange(i + 8 + 4, i + 8 + 4 + encode_utf8(m->MessageUser_username@).len()) == encode_utf8(m->MessageUser_username@),
        crate::protocol::str_starts_at(data, i + 8),
        data.subrange(i + 8 + enc_str(m->MessageUser_username@).len() as int, i + 8 + enc_str(m->MessageUser_username@).len() as int + 4) == enc_u32(encode_utf8(m->MessageUser_message@).len() as u32),
        data.subrange(i + 8 + enc_str(m->MessageUser_username@).len() as int + 4, i + 8 + enc_str(m->MessageUser_username@).len() as int + 4 + encode_utf8(m->MessageUser_message@).len()) == encode_utf8(m->MessageUser_message@),
        crate::protocol::str_starts_at(data, i + 8 + enc_str(m->MessageUser_username@).len() as int),
        i + 8 + enc_str(m->MessageUser_username@).len() as int + enc_str(m->MessageUser_message@).len() as int == i + server_req_frame(m).len(),
{
    broadcast use crate::protocol::group_enc_facts;

    server_req_frame_parts(data, i, m);
    assert(m is MessageUser);
    assert(server_req_payload(m) =~= enc_str(m->MessageUser_username@) + (enc_str(m->MessageUser_message@)));
    split_str(data, i + 8, m->MessageUser_username@, enc_str(m->MessageUser_message@));
    split_str(data, i + 8 + enc_str(m->MessageUser_username@).len() as int, m->MessageUser_message@, Seq::<u8>::empty());
}

fn read_req_messageuser_body(data: &Vec<u8>, pos: &mut usize, frame_end: usize, Ghost(start): Ghost<
    int,
>) -> (r: Result<ServerRequest, Error>)
    requires
        0 <= start,
        *old(pos) == start + 8,
        *old(pos) <= frame_end <= data@.len(),
        frame_end - start - 4 <= u32::MAX,
        data@.subrange(start, start + 4) == enc_u32((frame_end - start - 4) as u32),
        data@.subrange(start + 4, start + 8) == enc_u32(22),
    ensures
        *old(pos) <= *final(pos) <= data@.len(),
        forall|m: ServerRequest|
            wf_server_request(m) && frame_fits_u32(server_req_payload(m)) && #[trigger] prefix_at(
                data@,
                start,
                server_req_frame(m),
            ) ==> (r matches Ok(v) && server_req_eq(v, m) && *final(pos) == start
                + server_req_frame(m).len()),
{
    broadcast use crate::protocol::group_enc_facts;

    let ghost pstart = start + 8;
    let username = match read_string(data, pos) {
        Ok(v) => v,
        Err(e) => {
            proof {
            assert forall|m: ServerRequest| wf_server_request(m) && frame_fits_u32(server_req_payload(m)) && #[trigger] prefix_at(
                data@,
                start,
                server_req_frame(m),
            ) implies false by {
                req_messageuser_parts(data@, start, m);
            }
        }
            return Err(e);
        },
    };
    let message = match read_string(data, pos) {
        Ok(v) => v,
        Err(e) => {
            proof {
            assert forall|m: ServerRequest| wf_server_request(m) && frame_fits_u32(server_req_payload(m)) && #[trigger] prefix_at(
                data@,
                start,
                server_req_frame(m),
            ) implies false by {
                req_messageuser_parts(data@, start, m);
                match_str_at(data@, pstart, username@, m->MessageUser_username@);
            }
        }
            return Err(e);
        },
    };
    let v = ServerRequest::MessageUser { username, message };
    proof {
            assert forall|m: ServerRequest| wf_server_request(m) && frame_fits_u32(server_req_payload(m)) && #[trigger] prefix_at(
                data@,
                start,
                server_req_frame(m),
            ) implies server_req_eq(v, m) && *pos == start + server_req_frame(m).len() by {
                req_messageuser_parts(data@, start, m);
                match_str_at(data@, pstart, username@, m->MessageUser_username@);
                match_str_at(data@, pstart + enc_str(m->MessageUser_username@).len() as int, message@, m->MessageUser_message@);
            }
        }
    Ok(v)
}

/// The parts of a `MessageAcked` frame at offset `i`.
proof fn req_messageacked_parts(data: Seq<u8>, i: int, m: ServerRequest)
    requires
        wf_server_request(m),
        frame_fits_u32(server_req_payload(m)),
        prefix_at(data, i, server_req_frame(m)),
        data.subrange(i + 4, i + 8) == enc_u32(23),
    ensures
        m is MessageAcked,
        i + server_req_frame(m).len() <= data.len(),
        server_req_frame(m).len() == 8 + server_req_payload(m).len(),
        data.subrange(i + 8, i + 8 + 4) == enc_u32(m->MessageAcked_message_id),
        i + 8 + 4 == i + server_req_frame(m).len(),
{
    broadcast use crate::protocol::group_enc_facts;

    server_req_frame_parts(data, i, m);
    assert(m is MessageAcked);
    assert(server_req_payload(m) =~= enc_u32(m->MessageAcked_message_id));
    split_u32(data, i + 8, m->MessageAcked_message_id, Seq::<u8>::empty());
}

fn read_req_messageacked_body(data: &Vec<u8>, pos: &mut usize, frame_end: usize, Ghost(start): Ghost<
    int,
>) -> (r: Result<ServerRequest, Error>)
    requires
        0 <= start,
        *old(pos) == start + 8,
        *old(pos) <= frame_end <= data@.len(),
        frame_end - start - 4 <= u32::MAX,
        data@.subrange(start, start + 4) == enc_u32((frame_end - start - 4) as u32),
        data@.subrange(start + 4, start + 8) == enc_u32(23),
    ensures
        *old(pos) <= *final(pos) <= data@.len(),
        forall|m: ServerRequest|
            wf_server_request(m) && frame_fits_u32(server_req_payload(m)) && #[trigger] prefix_at(
                data@,
                start,
                server_req_frame(m),
            ) ==> (r matches Ok(v) && server_req_eq(v, m) && *final(pos) == start
                + server_req_frame(m).len()),
{
    broadcast use crate::protocol::group_enc_facts;

    let ghost pstart = start + 8;
    let message_id = match read_u32(data, pos) {
        Ok(v) => v,
        Err(e) => {
            proof {
            assert forall|m: ServerRequest| wf_server_request(m) && frame_fits_u32(server_req_payload(m)) && #[trigger] prefix_at(
                data@,
                start,
                server_req_frame(m),
            ) implies false by {
                req_messageacked_parts(data@, start, m);
            }
        }
            return Err(e);
        },
    };
    let v = ServerRequest::MessageAcked { message_id };
    proof {
            assert forall|m: ServerRequest| wf_server_request(m) && frame_fits_u32(server_req_payload(m)) && #[trigger] prefix_at(
                data@,
                start,
                server_req_frame(m),
            ) implies server_req_eq(v, m) && *pos == start + server_req_frame(m).len() by {
                req_messageacked_parts(data@, start, m);
            }
        }
    Ok(v)
}

/// The parts of a `FileSearch` frame at offset `i`.
proof fn req_filesearch_parts(data: Seq<u8>, i: int, m: ServerRequest)
    requires
        wf_server_request(m),
        frame_fits_u32(server_req_payload(m)),
        prefix_at(data, i, server_req_frame(m)),
        data.subrange(i + 4, i + 8) == enc_u32(26),
    ensures
        m is FileSearch,
        i + server_req_frame(m).len() <= data.len(),
        server_req_frame(m).len() == 8 + server_req_payload(m).len(),
        data.subrange(i + 8, i + 8 + 4) == enc_u32(m->FileSearch_token),
        data.subrange(i + 8 + 4, i + 8 + 4 + 4) == enc_u32(encode_utf8(m->FileSearch_query@).len() as u32),
        data.subrange(i + 8 + 4 + 4, i + 8 + 4 + 4 + encode_utf8(m->FileSearch_query@).len()) == encode_utf8(m->FileSearch_query@),
        crate::protocol::str_starts_at(data, i + 8 + 4),
        i + 8 + 4 + enc_str(m->FileSearch_query@).len() as int == i + server_req_frame(m).len(),
{
    broadcast use crate::protocol::group_enc_facts;

    server_req_frame_parts(data, i, m);
    assert(m is FileSearch);
    assert(server_req_payload(m) =~= enc_u32(m->FileSearch_token) + (enc_str(m->FileSearch_query@)));
    split_u32(data, i + 8, m->FileSearch_token, enc_str(m->FileSearch_query@));
    split_str(data, i + 8 + 4, m->FileSearch_query@, Seq::<u8>::empty());
}

fn read_req_filesearch_body(data: &Vec<u8>, pos: &mut usize, frame_end: usize, Ghost(start): Ghost<
    int,
>) -> (r: Result<ServerRequest, Error>)
    requires
        0 <= start,
        *old(pos) == start + 8,
        *old(pos) <= frame_end <= data@.len(),
        frame_end - start - 4 <= u32::MAX,
        data@.subrange(start, start + 4) == enc_u32((frame_end - start - 4) as u32),
        data@.subrange(start + 4, start + 8) == enc_u32(26),
    ensures
        *old(pos) <= *final(pos) <= data@.len(),
        forall|m: ServerRequest|
            wf_server_request(m) && frame_fits_u32(server_req_payload(m)) && #[trigger] prefix_at(
                data@,
                start,
                server_req_frame(m),
            ) ==> (r matches Ok(v) && server_req_eq(v, m) && *final(pos) == start
                + server_req_frame(m).len()),
{
    broadcast use crate::protocol::group_enc_facts;

    let ghost pstart = start + 8;
    let token = match read_u32(data, pos) {
        Ok(v) => v,
        Err(e) => {
            proof {
            assert forall|m: ServerRequest| wf_server_request(m) && frame_fits_u32(server_req_payload(m)) && #[trigger] prefix_at(
                data@,
                start,
                server_req_frame(m),
            ) implies false by {
                req_filesearch_parts(data@, start, m);
            }
        }
            return Err(e);
        },
    };
    let query = match read_string(data, pos) {
        Ok(v) => v,
        Err(e) => {
            proof {
            assert forall|m: ServerRequest| wf_server_request(m) && frame_fits_u32(server_req_payload(m)) && #[trigger] prefix_at(
                data@,
                start,
                server_req_frame(m),
            ) implies false by {
                req_filesearch_parts(data@, start, m);
            }
        }
            return Err(e);
        },
    };
    let v = ServerRequest::FileSearch { token, query };
    proof {
            assert forall|m: ServerRequest| wf_server_request(m) && frame_fits_u32(server_req_payload(m)) && #[trigger] prefix_at(
                data@,
                start,
                server_req_frame(m),
            ) implies server_req_eq(v, m) && *pos == start + server_req_frame(m).len() by {
                req_filesearch_parts(data@, start, m);
                match_str_at(data@, pstart + 4, query@, m->FileSearch_query@);
            }
        }
    Ok(v)
}

/// The parts of a `ServerPing` frame at offset `i`.
proof fn req_serverping_parts(data: Seq<u8>, i: int, m: ServerRequest)
    requires
        wf_server_request(m),
        frame_fits_u32(server_req_payload(m)),
        prefix_at(data, i, server_req_frame(m)),
        data.subrange(i + 4, i + 8) == enc_u32(32),
    ensures
        m is ServerPing,
        i + server_req_frame(m).len() <= data.len(),
        server_req_frame(m).len() == 8 + server_req_payload(m).len(),

        i + 8 == i + server_req_frame(m).len(),
{
    broadcast use crate::protocol::group_enc_facts;

    server_req_frame_parts(data, i, m);
    assert(m is ServerPing);
}

fn read_req_serverping_body(data: &Vec<u8>, pos: &mut usize, frame_end: usize, Ghost(start): Ghost<
    int,
>) -> (r: Result<ServerRequest, Error>)
    requires
        0 <= start,
        *old(pos) == start + 8,
        *old(pos) <= frame_end <= data@.len(),
        frame_end - start - 4 <= u32::MAX,
        data@.subrange(start, start + 4) == enc_u32((frame_end - start - 4) as u32),
        data@.subrange(start + 4, start + 8) == enc_u32(32),
    ensures
        *old(pos) <= *final(pos) <= data@.len(),
        forall|m: ServerRequest|
            wf_server_request(m) && frame_fits_u32(server_req_payload(m)) && #[trigger] prefix_at(
                data@,
                start,
                server_req_frame(m),
            ) ==> (r matches Ok(v) && server_req_eq(v, m) && *final(pos) == start
                + server_req_frame(m).len()),
{
    broadcast use crate::protocol::group_enc_facts;

    let ghost pstart = start + 8;
    let v = ServerRequest::ServerPing;
    proof {
            assert forall|m: ServerRequest| wf_server_request(m) && frame_fits_u32(server_req_payload(m)) && #[trigger] prefix_at(
                data@,
                start,
                server_req_frame(m),
            ) implies server_req_eq(v, m) && *pos == start + server_req_frame(m).len() by {
                req_serverping_parts(data@, start, m);
            }
        }
    Ok(v)
}

/// The parts of a `SharedFoldersFiles` frame at offset `i`.
proof fn req_sharedfoldersfiles_parts(data: Seq<u8>, i: int, m: ServerRequest)
    requires
        wf_server_request(m),
        frame_fits_u32(server_req_payload(m)),
        prefix_at(data, i, server_req_frame(m)),
        data.subrange(i + 4, i + 8) == enc_u32(35),
    ensures
        m is SharedFoldersFiles,
        i + server_req_frame(m).len() <= data.len(),
        server_req_frame(m).len() == 8 + server_req_payload(m).len(),
        data.subrange(i + 8, i + 8 + 4) == enc_u32(m->SharedFoldersFiles_dirs),
        data.subrange(i + 8 + 4, i + 8 + 4 + 4) == enc_u32(m->SharedFoldersFiles_files),
        i + 8 + 4 + 4 == i + server_req_frame(m).len(),
{
    broadcast use crate::protocol::group_enc_facts;

    server_req_frame_parts(data, i, m);
    assert(m is SharedFoldersFiles);
    assert(server_req_payload(m) =~= enc_u32(m->SharedFoldersFiles_dirs) + (enc_u32(m->SharedFoldersFiles_files)));
    split_u32(data, i + 8, m->SharedFoldersFiles_dirs, enc_u32(m->SharedFoldersFiles_files));
    split_u32(data, i + 8 + 4, m->SharedFoldersFiles_files, Seq::<u8>::empty());
}

fn read_req_sharedfoldersfiles_body(data: &Vec<u8>, pos: &mut usize, frame_end: usize, Ghost(start): Ghost<
    int,
>) -> (r: Result<ServerRequest, Error>)
    requires
        0 <= start,
        *old(pos) == start + 8,
        *old(pos) <= frame_end <= data@.len(),
        frame_end - start - 4 <= u32::MAX,
        data@.subrange(start, start + 4) == enc_u32((frame_end - start - 4) as u32),
        data@.subrange(start + 4, start + 8) == enc_u32(35),
    ensures
        *old(pos) <= *final(pos) <= data@.len(),
        forall|m: ServerRequest|
            wf_server_request(m) && frame_fits_u32(server_req_payload(m)) && #[trigger] prefix_at(
                data@,
                start,
                server_req_frame(m),
            ) ==> (r matches Ok(v) && server_req_eq(v, m) && *final(pos) == start
                + server_req_frame(m).len()),
{
    broadcast use crate::protocol::group_enc_facts;

    let ghost pstart = start + 8;
    let dirs = match read_u32(data, pos) {
        Ok(v) => v,
        Err(e) => {
            proof {
            assert forall|m: ServerRequest| wf_server_request(m) && frame_fits_u32(server_req_payload(m)) && #[trigger] prefix_at(
                data@,
                start,
                server_req_frame(m),
            ) implies false by {
                req_sharedfoldersfiles_parts(data@, start, m);
            }
        }
            return Err(e);
        },
    };
    let files = match read_u32(data, pos) {
        Ok(v) => v,
        Err(e) => {
            proof {
            assert forall|m: ServerRequest| wf_server_request(m) && frame_fits_u32(server_req_payload(m)) && #[trigger] prefix_at(
                data@,
                start,
                server_req_frame(m),
            ) implies false by {
                req_sharedfoldersfiles_parts(data@, start, m);
            }
        }
            return Err(e);
        },
    };
    let v = ServerRequest::SharedFoldersFiles { dirs, files };
    proof {
            assert forall|m: ServerRequest| wf_server_request(m) && frame_fits_u32(server_req_payload(m)) && #[trigger] prefix_at(
                data@,
                start,
                server_req_frame(m),
            ) implies server_req_eq(v, m) && *pos == start + server_req_frame(m).len() by {
                req_sharedfoldersfiles_parts(data@, start, m);
            }
        }
    Ok(v)
}

/// The parts of a `GetUserStats` frame at offset `i`.
proof fn req_getuserstats_parts(data: Seq<u8>, i: int, m: ServerRequest)
    requires
        wf_server_request(m),
        frame_fits_u32(server_req_payload(m)),
        prefix_at(data, i, server_req_frame(m)),
        data.subrange(i + 4, i + 8) == enc_u32(36),
    ensures
        m is GetUserStats,
        i + server_req_frame(m).len() <= data.len(),
        server_req_frame(m).len() == 8 + server_req_payload(m).len(),
        data.subrange(i + 8, i + 8 + 4) == enc_u32(encode_utf8(m->GetUserStats_username@).len() as u32),
        data.subrange(i + 8 + 4, i + 8 + 4 + encode_utf8(m->GetUserStats_username@).len()) == encode_utf8(m->GetUserStats_username@),
        crate::protocol::str_starts_at(data, i + 8),
        i + 8 + enc_str(m->GetUserStats_username@).len() as int == i + server_req_frame(m).len(),
{
    broadcast use crate::protocol::group_enc_facts;

    server_req_frame_parts(data, i, m);
    assert(m is GetUserStats);
    assert(server_req_payload(m) =~= enc_str(m->GetUserStats_username@));
    split_str(data, i + 8, m->GetUserStats_username@, Seq::<u8>::empty());
}

fn read_req_getuserstats_body(data: &Vec<u8>, pos: &mut usize, frame_end: usize, Ghost(start): Ghost<
    int,
>) -> (r: Result<ServerRequest, Error>)
    requires
        0 <= start,
        *old(pos) == start + 8,
        *old(pos) <= frame_end <= data@.len(),
        frame_end - start - 4 <= u32::MAX,
        data@.subrange(start, start + 4) == enc_u32((frame_end - start - 4) as u32),
        data@.subrange(start + 4, start + 8) == enc_u32(36),
    ensures
        *old(pos) <= *final(pos) <= data@.len(),
        forall|m: ServerRequest|
            wf_server_request(m) && frame_fits_u32(server_req_payload(m)) && #[trigger] prefix_at(
                data@,
                start,
                server_req_frame(m),
            ) ==> (r matches Ok(v) && server_req_eq(v, m) && *final(pos) == start
                + server_req_frame(m).len()),
{
    broadcast use crate::protocol::group_enc_facts;

    let ghost pstart = start + 8;
    let username = match read_string(data, pos) {
        Ok(v) => v,
        Err(e) => {
            proof {
            assert forall|m: ServerRequest| wf_server_request(m) && frame_fits_u32(server_req_payload(m)) && #[trigger] prefix_at(
                data@,
                start,
                server_req_frame(m),
            ) implies false by {
                req_getuserstats_parts(data@, start, m);
            }
        }
            return Err(e);
        },
    };
    let v = ServerRequest::GetUserStats { username };
    proof {
            assert forall|m: ServerRequest| wf_server_request(m) && frame_fits_u32(server_req_payload(m)) && #[trigger] prefix_at(
                data@,
                start,
                server_req_frame(m),
            ) implies server_req_eq(v, m) && *pos == start + server_req_frame(m).len() by {
                req_getuserstats_parts(data@, start, m);
                match_str_at(data@, pstart, username@, m->GetUserStats_username@);
            }
        }
    Ok(v)
}

/// The parts of a `UserSearch` frame at offset `i`.
proof fn req_usersearch_parts(data: Seq<u8>, i: int, m: ServerRequest)
    requires
        wf_server_request(m),
        frame_fits_u32(server_req_payload(m)),
        prefix_at(data, i, server_req_frame(m)),
        data.subrange(i + 4, i + 8) == enc_u32(42),
    ensures
        m is UserSearch,
        i + server_req_frame(m).len() <= data.len(),
        server_req_frame(m).len() == 8 + server_req_payload(m).len(),
        data.subrange(i + 8, i + 8 + 4) == enc_u32(encode_utf8(m->UserSearch_username@).len() as u32),
        data.subrange(i + 8 + 4, i + 8 + 4 + encode_utf8(m->UserSearch_username@).len()) == encode_utf8(m->UserSearch_username@),
        crate::protocol::str_starts_at(data, i + 8),
        data.subrange(i + 8 + enc_str(m->UserSearch_username@).len() as int, i + 8 + enc_str(m->UserSearch_username@).len() as int + 4) == enc_u32(m->UserSearch_token),
        data.subrange(i + 8 + enc_str(m->UserSearch_username@).len() as int + 4, i + 8 + enc_str(m->UserSearch_username@).len() as int + 4 + 4) == enc_u32(encode_utf8(m->UserSearch_query@).len() as u32),
        data.subrange(i + 8 + enc_str(m->UserSearch_username@).len() as int + 4 + 4, i + 8 + enc_str(m->UserSearch_username@).len() as int + 4 + 4 + encode_utf8(m->UserSearch_query@).len()) == encode_utf8(m->UserSearch_query@),
        crate::protocol::str_starts_at(data, i + 8 + enc_str(m->UserSearch_username@).len() as int + 4),
        i + 8 + enc_str(m->UserSearch_username@).len() as int + 4 + enc_str(m->UserSearch_query@).len() as int == i + server_req_frame(m).len(),
{
    broadcast use crate::protocol::group_enc_facts;

    server_req_frame_parts(data, i, m);
    assert(m is UserSearch);
    assert(server_req_payload(m) =~= enc_str(m->UserSearch_username@) + (enc_u32(m->UserSearch_token) + (enc_str(m->UserSearch_query@))));
    split_str(data, i + 8, m->UserSearch_username@, enc_u32(m->UserSearch_token) + (enc_str(m->UserSearch_query@)));
    split_u32(data, i + 8 + enc_str(m->UserSearch_username@).len() as int, m->UserSearch_token, enc_str(m->UserSearch_query@));
    split_str(data, i + 8 + enc_str(m->UserSearch_username@).len() as int + 4, m->UserSearch_query@, Seq::<u8>::empty());
}

fn read_req_usersearch_body(data: &Vec<u8>, pos: &mut usize, frame_end: usize, Ghost(start): Ghost<
    int,
>) -> (r: Result<ServerRequest, Error>)
    requires
        0 <= start,
        *old(pos) == start + 8,
        *old(pos) <= frame_end <= data@.len(),
        frame_end - start - 4 <= u32::MAX,
        data@.subrange(start, start + 4) == enc_u32((frame_end - start - 4) as u32),
        data@.subrange(start + 4, start + 8) == enc_u32(42),
    ensures
        *old(pos) <= *final(pos) <= data@.len(),
        forall|m: ServerRequest|
            wf_server_request(m) && frame_fits_u32(server_req_payload(m)) && #[trigger] prefix_at(
                data@,
                start,
                server_req_frame(m),
            ) ==> (r matches Ok(v) && server_req_eq(v, m) && *final(pos) == start
                + server_req_frame(m).len()),
{
    broadcast use crate::protocol::group_enc_facts;

    let ghost pstart = start + 8;
    let username = match read_string(data, pos) {
        Ok(v) => v,
        Err(e) => {
            proof {
            assert forall|m: ServerRequest| wf_server_request(m) && frame_fits_u32(server_req_payload(m)) && #[trigger] prefix_at(
                data@,
                start,
                server_req_frame(m),
            ) implies false by {
                req_usersearch_parts(data@, start, m);
            }
        }
            return Err(e);
        },
    };
    let token = match read_u32(data, pos) {
        Ok(v) => v,
        Err(e) => {
            proof {
            assert forall|m: ServerRequest| wf_server_request(m) && frame_fits_u32(server_req_payload(m)) && #[trigger] prefix_at(
                data@,
                start,
                server_req_frame(m),
            ) implies false by {
                req_usersearch_parts(data@, start, m);
                match_str_at(data@, pstart, username@, m->UserSearch_username@);
            }
        }
            return Err(e);
        },
    };
    let query = match read_string(data, pos) {
        Ok(v) => v,
        Err(e) => {
            proof {
            assert forall|m: ServerRequest| wf_server_request(m) && frame_fits_u32(server_req_payload(m)) && #[trigger] prefix_at(
                data@,
                start,
                server_req_frame(m),
            ) implies false by {
                req_usersearch_parts(data@, start, m);
                match_str_at(data@, pstart, username@, m->UserSearch_username@);
            }
        }
            return Err(e);
        },
    };
    let v = ServerRequest::UserSearch { username, token, query };
    proof {
            assert forall|m: ServerRequest| wf_server_request(m) && frame_fits_u32(server_req_payload(m)) && #[trigger] prefix_at(
                data@,
                start,
                server_req_frame(m),
            ) implies server_req_eq(v, m) && *pos == start + server_req_frame(m).len() by {
                req_usersearch_parts(data@, start, m);
                match_str_at(data@, pstart, username@, m->UserSearch_username@);
                match_str_at(data@, pstart + enc_str(m->UserSearch_username@).len() as int + 4, query@, m->UserSearch_query@);
            }
        }
    Ok(v)
}

/// The parts of a `InterestAdd` frame at offset `i`.
proof fn req_interestadd_parts(data: Seq<u8>, i: int, m: ServerRequest)
    requires
        wf_server_request(m),
        frame_fits_u32(server_req_payload(m)),
        prefix_at(data, i, server_req_frame(m)),
        data.subrange(i + 4, i + 8) == enc_u32(51),
    ensures
        m is InterestAdd,
        i + server_req_frame(m).len() <= data.len(),
        server_req_frame(m).len() == 8 + server_req_payload(m).len(),
        data.subrange(i + 8, i + 8 + 4) == enc_u32(encode_utf8(m->InterestAdd_item@).len() as u32),
        data.subrange(i + 8 + 4, i + 8 + 4 + encode_utf8(m->InterestAdd_item@).len()) == encode_utf8(m->InterestAdd_item@),
        crate::protocol::str_starts_at(data, i + 8),
        i + 8 + enc_str(m->InterestAdd_item@).len() as int == i + server_req_frame(m).len(),
{
    broadcast use crate::protocol::group_enc_facts;

    server_req_frame_parts(data, i, m);
    assert(m is InterestAdd);
    assert(server_req_payload(m) =~= enc_str(m->InterestAdd_item@));
    split_str(data, i + 8, m->InterestAdd_item@, Seq::<u8>::empty());
}

fn read_req_interestadd_body(data: &Vec<u8>, pos: &mut usize, frame_end: usize, Ghost(start): Ghost<
    int,
>) -> (r: Result<ServerRequest, Error>)
    requires
        0 <= start,
        *old(pos) == start + 8,
        *old(pos) <= frame_end <= data@.len(),
        frame_end - start - 4 <= u32::MAX,
        data@.subrange(start, start + 4) == enc_u32((frame_end - start - 4) as u32),
        data@.subrange(start + 4, start + 8) == enc_u32(51),
    ensures
        *old(pos) <= *final(pos) <= data@.len(),
        forall|m: ServerRequest|
            wf_server_request(m) && frame_fits_u32(server_req_payload(m)) && #[trigger] prefix_at(
                data@,
                start,
                server_req_frame(m),
            ) ==> (r matches Ok(v) && server_req_eq(v, m) && *final(pos) == start
                + server_req_frame(m).len()),
{
    broadcast use crate::protocol::group_enc_facts;

    let ghost pstart = start + 8;
    let item = match read_string(data, pos) {
        Ok(v) => v,
        Err(e) => {
            proof {
            assert forall|m: ServerRequest| wf_server_request(m) && frame_fits_u32(server_req_payload(m)) && #[trigger] prefix_at(
                data@,
                start,
                server_req_frame(m),
            ) implies false by {
                req_interestadd_parts(data@, start, m);
            }
        }
            return Err(e);
        },
    };
    let v = ServerRequest::InterestAdd { item };
    proof {
            assert forall|m: ServerRequest| wf_server_request(m) && frame_fits_u32(server_req_payload(m)) && #[trigger] prefix_at(
                data@,
                start,
                server_req_frame(m),
            ) implies server_req_eq(v, m) && *pos == start + server_req_frame(m).len() by {
                req_interestadd_parts(data@, start, m);
                match_str_at(data@, pstart, item@, m->InterestAdd_item@);
            }
        }
    Ok(v)
}

/// The parts of a `InterestRemove` frame at offset `i`.
proof fn req_interestremove_parts(data: Seq<u8>, i: int, m: ServerRequest)
    requires
        wf_server_request(m),
        frame_fits_u32(server_req_payload(m)),
        prefix_at(data, i, server_req_frame(m)),
        data.subrange(i + 4, i + 8) == enc_u32(52),
    ensures
        m is InterestRemove,
        i + server_req_frame(m).len() <= data.len(),
        server_req_frame(m).len() == 8 + server_req_payload(m).len(),
        data.subrange(i + 8, i + 8 + 4) == enc_u32(encode_utf8(m->InterestRemove_item@).len() as u32),
        data.subrange(i + 8 + 4, i + 8 + 4 + encode_utf8(m->InterestRemove_item@).len()) == encode_utf8(m->InterestRemove_item@),
        crate::protocol::str_starts_at(data, i + 8),
        i + 8 + enc_str(m->InterestRemove_item@).len() as int == i + server_req_frame(m).len(),
{
    broadcast use crate::protocol::group_enc_facts;

    server_req_frame_parts(data, i, m);
    assert(m is InterestRemove);
    assert(server_req_payload(m) =~= enc_str(m->InterestRemove_item@));
    split_str(data, i + 8, m->InterestRemove_item@, Seq::<u8>::empty());
}

fn read_req_interestremove_body(data: &Vec<u8>, pos: &mut usize, frame_end: usize, Ghost(start): Ghost<
    int,
>) -> (r: Result<ServerRequest, Error>)
    requires
        0 <= start,
        *old(pos) == start + 8,
        *old(pos) <= frame_end <= data@.len(),
        frame_end - start - 4 <= u32::MAX,
        data@.subrange(start, start + 4) == enc_u32((frame_end - start - 4) as u32),
        data@.subrange(start + 4, start + 8) == enc_u32(52),
    ensures
        *old(pos) <= *final(pos) <= data@.len(),
        forall|m: ServerRequest|
            wf_server_request(m) && frame_fits_u32(server_req_payload(m)) && #[trigger] prefix_at(
                data@,
                start,
                server_req_frame(m),
            ) ==> (r matches Ok(v) && server_req_eq(v, m) && *final(pos) == start
                + server_req_frame(m).len()),
{
    broadcast use crate::protocol::group_enc_facts;

    let ghost pstart = start + 8;
    let item = match read_string(data, pos) {
        Ok(v) => v,
        Err(e) => {
            proof {
            assert forall|m: ServerRequest| wf_server_request(m) && frame_fits_u32(server_req_payload(m)) && #[trigger] prefix_at(
                data@,
                start,
                server_req_frame(m),
            ) implies false by {
                req_interestremove_parts(data@, start, m);
            }
        }
            return Err(e);
        },
    };
    let v = ServerRequest::InterestRemove { item };
    proof {
            assert forall|m: ServerRequest| wf_server_request(m) && frame_fits_u32(server_req_payload(m)) && #[trigger] prefix_at(
                data@,
                start,
                server_req_frame(m),
            ) implies server_req_eq(v, m) && *pos == start + server_req_frame(m).len() by {
                req_interestremove_parts(data@, start, m);
                match_str_at(data@, pstart, item@, m->InterestRemove_item@);
            }
        }
    Ok(v)
}

/// The parts of a `GetRecommendations` frame at offset `i`.
proof fn req_getrecommendations_parts(data: Seq<u8>, i: int, m: ServerRequest)
    requires
        wf_server_request(m),
        frame_fits_u32(server_req_payload(m)),
        prefix_at(data, i, server_req_frame(m)),
        data.subrange(i + 4, i + 8) == enc_u32(54),
    ensures
        m is GetRecommendations,
        i + server_req_frame(m).len() <= data.len(),
        server_req_frame(m).len() == 8 + server_req_payload(m).len(),

        i + 8 == i + server_req_frame(m).len(),
{
    broadcast use crate::protocol::group_enc_facts;

    server_req_frame_parts(data, i, m);
    assert(m is GetRecommendations);
}

fn read_req_getrecommendations_body(data: &Vec<u8>, pos: &mut usize, frame_end: usize, Ghost(start): Ghost<
    int,
>) -> (r: Result<ServerRequest, Error>)
    requires
        0 <= start,
        *old(pos) == start + 8,
        *old(pos) <= frame_end <= data@.len(),
        frame_end - start - 4 <= u32::MAX,
        data@.subrange(start, start + 4) == enc_u32((frame_end - start - 4) as u32),
        data@.subrange(start + 4, start + 8) == enc_u32(54),
    ensures
        *old(pos) <= *final(pos) <= data@.len(),
        forall|m: ServerRequest|
            wf_server_request(m) && frame_fits_u32(server_req_payload(m)) && #[trigger] prefix_at(
                data@,
                start,
                server_req_frame(m),
            ) ==> (r matches Ok(v) && server_req_eq(v, m) && *final(pos) == start
                + server_req_frame(m).len()),
{
    broadcast use crate::protocol::group_enc_facts;

    let ghost pstart = start + 8;
    let v = ServerRequest::GetRecommendations;
    proof {
            assert forall|m: ServerRequest| wf_server_request(m) && frame_fits_u32(server_req_payload(m)) && #[trigger] prefix_at(
                data@,
                start,
                server_req_frame(m),
            ) implies server_req_eq(v, m) && *pos == start + server_req_frame(m).len() by {
                req_getrecommendations_parts(data@, start, m);
            }
        }
    Ok(v)
}

/// The parts of a `GetGlobalRecommendations` frame at offset `i`.
proof fn req_getglobalrecommendations_parts(data: Seq<u8>, i: int, m: ServerRequest)
    requires
        wf_server_request(m),
        frame_fits_u32(server_req_payload(m)),
        prefix_at(data, i, server_req_frame(m)),
        data.subrange(i + 4, i + 8) == enc_u32(56),
    ensures
        m is GetGlobalRecommendations,
        i + server_req_frame(m).len() <= data.len(),
        server_req_frame(m).len() == 8 + server_req_payload(m).len(),

        i + 8 == i + server_req_frame(m).len(),
{
    broadcast use crate::protocol::group_enc_facts;

    server_req_frame_parts(data, i, m);
    assert(m is GetGlobalRecommendations);
}

fn read_req_getglobalrecommendations_body(data: &Vec<u8>, pos: &mut usize, frame_end: usize, Ghost(start): Ghost<
    int,
>) -> (r: Result<ServerRequest, Error>)
    requires
        0 <= start,
        *old(pos) == start + 8,
        *old(pos) <= frame_end <= data@.len(),
        frame_end - start - 4 <= u32::MAX,
        data@.subrange(start, start + 4) == enc_u32((frame_end - start - 4) as u32),
        data@.subrange(start + 4, start + 8) == enc_u32(56),
    ensures
        *old(pos) <= *final(pos) <= data@.len(),
        forall|m: ServerRequest|
            wf_server_request(m) && frame_fits_u32(server_req_payload(m)) && #[trigger] prefix_at(
                data@,
                start,
                server_req_frame(m),
            ) ==> (r matches Ok(v) && server_req_eq(v, m) && *final(pos) == start
                + server_req_frame(m).len()),
{
    broadcast use crate::protocol::group_enc_facts;

    let ghost pstart = start + 8;
    let v = ServerRequest::GetGlobalRecommendations;
    proof {
            assert forall|m: ServerRequest| wf_server_request(m) && frame_fits_u32(server_req_payload(m)) && #[trigger] prefix_at(
                data@,
                start,
                server_req_frame(m),
            ) implies server_req_eq(v, m) && *pos == start + server_req_frame(m).len() by {
                req_getglobalrecommendations_parts(data@, start, m);
            }
        }
    Ok(v)
}

/// The parts of a `GetUserInterests` frame at offset `i`.
proof fn req_getuserinterests_parts(data: Seq<u8>, i: int, m: ServerRequest)
    requires
        wf_server_request(m),
        frame_fits_u32(server_req_payload(m)),
        prefix_at(data, i, server_req_frame(m)),
        data.subrange(i + 4, i + 8) == enc_u32(57),
    ensures
        m is GetUserInterests,
        i + server_req_frame(m).len() <= data.len(),
        server_req_frame(m).len() == 8 + server_req_payload(m).len(),
        data.subrange(i + 8, i + 8 + 4) == enc_u32(encode_utf8(m->GetUserInterests_username@).len() as u32),
        data.subrange(i + 8 + 4, i + 8 + 4 + encode_utf8(m->GetUserInterests_username@).len()) == encode_utf8(m->GetUserInterests_username@),
        crate::protocol::str_starts_at(data, i + 8),
        i + 8 + enc_str(m->GetUserInterests_username@).len() as int == i + server_req_frame(m).len(),
{
    broadcast use crate::protocol::group_enc_facts;

    server_req_frame_parts(data, i, m);
    assert(m is GetUserInterests);
    assert(server_req_payload(m) =~= enc_str(m->GetUserInterests_username@));
    split_str(data, i + 8, m->GetUserInterests_username@, Seq::<u8>::empty());
}

fn read_req_getuserinterests_body(data: &Vec<u8>, pos: &mut usize, frame_end: usize, Ghost(start): Ghost<
    int,
>) -> (r: Result<ServerRequest, Error>)
    requires
        0 <= start,
        *old(pos) == start + 8,
        *old(pos) <= frame_end <= data@.len(),
        frame_end - start - 4 <= u32::MAX,
        data@.subrange(start, start + 4) == enc_u32((frame_end - start - 4) as u32),
        data@.subrange(start + 4, start + 8) == enc_u32(57),
    ensures
        *old(pos) <= *final(pos) <= data@.len(),
        forall|m: ServerRequest|
            wf_server_request(m) && frame_fits_u32(server_req_payload(m)) && #[trigger] prefix_at(
                data@,
                start,
                server_req_frame(m),
            ) ==> (r matches Ok(v) && server_req_eq(v, m) && *final(pos) == start
                + server_req_frame(m).len()),
{
    broadcast use crate::protocol::group_enc_facts;

    let ghost pstart = start + 8;
    let username = match read_string(data, pos) {
        Ok(v) => v,
        Err(e) => {
            proof {
            assert forall|m: ServerRequest| wf_server_request(m) && frame_fits_u32(server_req_payload(m)) && #[trigger] prefix_at(
                data@,
                start,
                server_req_frame(m),
            ) implies false by {
                req_getuserinterests_parts(data@, start, m);
            }
        }
            return Err(e);
        },
    };
    let v = ServerRequest::GetUserInterests { username };
    proof {
            assert forall|m: ServerRequest| wf_server_request(m) && frame_fits_u32(server_req_payload(m)) && #[trigger] prefix_at(
                data@,
                start,
                server_req_frame(m),
            ) implies server_req_eq(v, m) && *pos == start + server_req_frame(m).len() by {
                req_getuserinterests_parts(data@, start, m);
                match_str_at(data@, pstart, username@, m->GetUserInterests_username@);
            }
        }
    Ok(v)
}

/// The parts of a `RoomList` frame at offset `i`.
proof fn req_roomlist_parts(data: Seq<u8>, i: int, m: ServerRequest)
    requires
        wf_server_request(m),
        frame_fits_u32(server_req_payload(m)),
        prefix_at(data, i, server_req_frame(m)),
        data.subrange(i + 4, i + 8) == enc_u32(64),
    ensures
        m is RoomList,
        i + server_req_frame(m).len() <= data.len(),
        server_req_frame(m).len() == 8 + server_req_payload(m).len(),

        i + 8 == i + server_req_frame(m).len(),
{
    broadcast use crate::protocol::group_enc_facts;

    server_req_frame_parts(data, i, m);
    assert(m is RoomList);
}

fn read_req_roomlist_body(data: &Vec<u8>, pos: &mut usize, frame_end: usize, Ghost(start): Ghost<
    int,
>) -> (r: Result<ServerRequest, Error>)
    requires
        0 <= start,
        *old(pos) == start + 8,
        *old(pos) <= frame_end <= data@.len(),
        frame_end - start - 4 <= u32::MAX,
        data@.subrange(start, start + 4) == enc_u32((frame_end - start - 4) as u32),
        data@.subrange(start + 4, start + 8) == enc_u32(64),
    ensures
        *old(pos) <= *final(pos) <= data@.len(),
        forall|m: ServerRequest|
            wf_server_request(m) && frame_fits_u32(server_req_payload(m)) && #[trigger] prefix_at(
                data@,
                start,
                server_req_frame(m),
            ) ==> (r matches Ok(v) && server_req_eq(v, m) && *final(pos) == start
                + server_req_frame(m).len()),
{
    broadcast use crate::protocol::group_enc_facts;

    let ghost pstart = start + 8;
    let v = ServerRequest::RoomList;
    proof {
            assert forall|m: ServerRequest| wf_server_request(m) && frame_fits_u32(server_req_payload(m)) && #[trigger] prefix_at(
                data@,
                start,
                server_req_frame(m),
            ) implies server_req_eq(v, m) && *pos == start + server_req_frame(m).len() by {
                req_roomlist_parts(data@, start, m);
            }
        }
    Ok(v)
}

/// The parts of a `HaveNoParent` frame at offset `i`.
proof fn req_havenoparent_parts(data: Seq<u8>, i: int, m: ServerRequest)
    requires
        wf_server_request(m),
        frame_fits_u32(server_req_payload(m)),
        prefix_at(data, i, server_req_frame(m)),
        data.subrange(i + 4, i + 8) == enc_u32(71),
    ensures
        m is HaveNoParent,
        i + server_req_frame(m).len() <= data.len(),
        server_req_frame(m).len() == 8 + server_req_payload(m).len(),
        data[i + 8] == (if m->HaveNoParent_no_parent {
            1u8
        } else {
            0u8
        }),
        i + 8 + 1 == i + server_req_frame(m).len(),
{
    broadcast use crate::protocol::group_enc_facts;

    server_req_frame_parts(data, i, m);
    assert(m is HaveNoParent);
    assert(server_req_payload(m) =~= enc_bool(m->HaveNoParent_no_parent));
    split_bool(data, i + 8, m->HaveNoParent_no_parent, Seq::<u8>::empty());
}

fn read_req_havenoparent_body(data: &Vec<u8>, pos: &mut usize, frame_end: usize, Ghost(start): Ghost<
    int,
>) -> (r: Result<ServerRequest, Error>)
    requires
        0 <= start,
        *old(pos) == start + 8,
        *old(pos) <= frame_end <= data@.len(),
        frame_end - start - 4 <= u32::MAX,
        data@.subrange(start, start + 4) == enc_u32((frame_end - start - 4) as u32),
        data@.subrange(start + 4, start + 8) == enc_u32(71),
    ensures
        *old(pos) <= *final(pos) <= data@.len(),
        forall|m: ServerRequest|
            wf_server_request(m) && frame_fits_u32(server_req_payload(m)) && #[trigger] prefix_at(
                data@,
                start,
                server_req_frame(m),
            ) ==> (r matches Ok(v) && server_req_eq(v, m) && *final(pos) == start
                + server_req_frame(m).len()),
{
    broadcast use crate::protocol::group_enc_facts;

    let ghost pstart = start + 8;
    let no_parent = match read_bool(data, pos) {
        Ok(v) => v,
        Err(e) => {
            proof {
            assert forall|m: ServerRequest| wf_server_request(m) && frame_fits_u32(server_req_payload(m)) && #[trigger] prefix_at(
                data@,
                start,
                server_req_frame(m),
            ) implies false by {
                req_havenoparent_parts(data@, start, m);
            }
        }
            return Err(e);
        },
    };
    let v = ServerRequest::HaveNoParent { no_parent };
    proof {
            assert forall|m: ServerRequest| wf_server_request(m) && frame_fits_u32(server_req_payload(m)) && #[trigger] prefix_at(
                data@,
                start,
                server_req_frame(m),
            ) implies server_req_eq(v, m) && *pos == start + server_req_frame(m).len() by {
                req_havenoparent_parts(data@, start, m);
            }
        }
    Ok(v)
}

/// The parts of a `CheckPrivileges` frame at offset `i`.
proof fn req_checkprivileges_parts(data: Seq<u8>, i: int, m: ServerRequest)
    requires
        wf_server_request(m),
        frame_fits_u32(server_req_payload(m)),
        prefix_at(data, i, server_req_frame(m)),
        data.subrange(i + 4, i + 8) == enc_u32(92),
    ensures
        m is CheckPrivileges,
        i + server_req_frame(m).len() <= data.len(),
        server_req_frame(m).len() == 8 + server_req_payload(m).len(),

        i + 8 == i + server_req_frame(m).len(),
{
    broadcast use crate::protocol::group_enc_facts;

    server_req_frame_parts(data, i, m);
    assert(m is CheckPrivileges);
}

fn read_req_checkprivileges_body(data: &Vec<u8>, pos: &mut usize, frame_end: usize, Ghost(start): Ghost<
    int,
>) -> (r: Result<ServerRequest, Error>)
    requires
        0 <= start,
        *old(pos) == start + 8,
        *old(pos) <= frame_end <= data@.len(),
        frame_end - start - 4 <= u32::MAX,
        data@.subrange(start, start + 4) == enc_u32((frame_end - start - 4) as u32),
        data@.subrange(start + 4, start + 8) == enc_u32(92),
    ensures
        *old(pos) <= *final(pos) <= data@.len(),
        forall|m: ServerRequest|
            wf_server_request(m) && frame_fits_u32(server_req_payload(m)) && #[trigger] prefix_at(
                data@,
                start,
                server_req_frame(m),
            ) ==> (r matches Ok(v) && server_req_eq(v, m) && *final(pos) == start
                + server_req_frame(m).len()),
{
    broadcast use crate::protocol::group_enc_facts;

    let ghost pstart = start + 8;
    let v = ServerRequest::CheckPrivileges;
    proof {
            assert forall|m: ServerRequest| wf_server_request(m) && frame_fits_u32(server_req_payload(m)) && #[trigger] prefix_at(
                data@,
                start,
                server_req_frame(m),
            ) implies server_req_eq(v, m) && *pos == start + server_req_frame(m).len() by {
                req_checkprivileges_parts(data@, start, m);
            }
        }
    Ok(v)
}

/// The parts of a `AcceptChildren` frame at offset `i`.
proof fn req_acceptchildren_parts(data: Seq<u8>, i: int, m: ServerRequest)
    requires
        wf_server_request(m),
        frame_fits_u32(server_req_payload(m)),
        prefix_at(data, i, server_req_frame(m)),
        data.subrange(i + 4, i + 8) == enc_u32(100),
    ensures
        m is AcceptChildren,
        i + server_req_frame(m).len() <= data.len(),
        server_req_frame(m).len() == 8 + server_req_payload(m).len(),
        data[i + 8] == (if m->AcceptChildren_accept {
            1u8
        } else {
            0u8
        }),
        i + 8 + 1 == i + server_req_frame(m).len(),
{
    broadcast use crate::protocol::group_enc_facts;

    server_req_frame_parts(data, i, m);
    assert(m is AcceptChildren);
    assert(server_req_payload(m) =~= enc_bool(m->AcceptChildren_accept));
    split_bool(data, i + 8, m->AcceptChildren_accept, Seq::<u8>::empty());
}

fn read_req_acceptchildren_body(data: &Vec<u8>, pos: &mut usize, frame_end: usize, Ghost(start): Ghost<
    int,
>) -> (r: Result<ServerRequest, Error>)
    requires
        0 <= start,
        *old(pos) == start + 8,
        *old(pos) <= frame_end <= data@.len(),
        frame_end - start - 4 <= u32::MAX,
        data@.subrange(start, start + 4) == enc_u32((frame_end - start - 4) as u32),
        data@.subrange(start + 4, start + 8) == enc_u32(100),
    ensures
        *old(pos) <= *final(pos) <= data@.len(),
        forall|m: ServerRequest|
            wf_server_request(m) && frame_fits_u32(server_req_payload(m)) && #[trigger] prefix_at(
                data@,
                start,
                server_req_frame(m),
            ) ==> (r matches Ok(v) && server_req_eq(v, m) && *final(pos) == start
                + server_req_frame(m).len()),
{
    broadcast use crate::protocol::group_enc_facts;

    let ghost pstart = start + 8;
    let accept = match read_bool(data, pos) {
        Ok(v) => v,
        Err(e) => {
            proof {
            assert forall|m: ServerRequest| wf_server_request(m) && frame_fits_u32(server_req_payload(m)) && #[trigger] prefix_at(
                data@,
                start,
                server_req_frame(m),
            ) implies false by {
                req_acceptchildren_parts(data@, start, m);
            }
        }
            return Err(e);
        },
    };
    let v = ServerRequest::AcceptChildren { accept };
    proof {
            assert forall|m: ServerRequest| wf_server_request(m) && frame_fits_u32(server_req_payload(m)) && #[trigger] prefix_at(
                data@,
                start,
                server_req_frame(m),
            ) implies server_req_eq(v, m) && *pos == start + server_req_frame(m).len() by {
                req_acceptchildren_parts(data@, start, m);
            }
        }
    Ok(v)
}

/// The parts of a `WishlistSearch` frame at offset `i`.
proof fn req_wishlistsearch_parts(data: Seq<u8>, i: int, m: ServerRequest)
    requires
        wf_server_request(m),
        frame_fits_u32(server_req_payload(m)),
        prefix_at(data, i, server_req_frame(m)),
        data.subrange(i + 4, i + 8) == enc_u32(103),
    ensures
        m is WishlistSearch,
        i + server_req_frame(m).len() <= data.len(),
        server_req_frame(m).len() == 8 + server_req_payload(m).len(),
        data.subrange(i + 8, i + 8 + 4) == enc_u32(m->WishlistSearch_token),
        data.subrange(i + 8 + 4, i + 8 + 4 + 4) == enc_u32(encode_utf8(m->WishlistSearch_query@).len() as u32),
        data.subrange(i + 8 + 4 + 4, i + 8 + 4 + 4 + encode_utf8(m->WishlistSearch_query@).len()) == encode_utf8(m->WishlistSearch_query@),
        crate::protocol::str_starts_at(data, i + 8 + 4),
        i + 8 + 4 + enc_str(m->WishlistSearch_query@).len() as int == i + server_req_frame(m).len(),
{
    broadcast use crate::protocol::group_enc_facts;

    server_req_frame_parts(data, i, m);
    assert(m is WishlistSearch);
    assert(server_req_payload(m) =~= enc_u32(m->WishlistSearch_token) + (enc_str(m->WishlistSearch_query@)));
    split_u32(data, i + 8, m->WishlistSearch_token, enc_str(m->WishlistSearch_query@));
    split_str(data, i + 8 + 4, m->WishlistSearch_query@, Seq::<u8>::empty());
}

fn read_req_wishlistsearch_body(data: &Vec<u8>, pos: &mut usize, frame_end: usize, Ghost(start): Ghost<
    int,
>) -> (r: Result<ServerRequest, Error>)
    requires
        0 <= start,
        *old(pos) == start + 8,
        *old(pos) <= frame_end <= data@.len(),
        frame_end - start - 4 <= u32::MAX,
        data@.subrange(start, start + 4) == enc_u32((frame_end - start - 4) as u32),
        data@.subrange(start + 4, start + 8) == enc_u32(103),
    ensures
        *old(pos) <= *final(pos) <= data@.len(),
        forall|m: ServerRequest|
            wf_server_request(m) && frame_fits_u32(server_req_payload(m)) && #[trigger] prefix_at(
                data@,
                start,
                server_req_frame(m),
            ) ==> (r matches Ok(v) && server_req_eq(v, m) && *final(pos) == start
                + server_req_frame(m).len()),
{
    broadcast use crate::protocol::group_enc_facts;

    let ghost pstart = start + 8;
    let token = match read_u32(data, pos) {
        Ok(v) => v,
        Err(e) => {
            proof {
            assert forall|m: ServerRequest| wf_server_request(m) && frame_fits_u32(server_req_payload(m)) && #[trigger] prefix_at(
                data@,
                start,
                server_req_frame(m),
            ) implies false by {
                req_wishlistsearch_parts(data@, start, m);
            }
        }
            return Err(e);
        },
    };
    let query = match read_string(data, pos) {
        Ok(v) => v,
        Err(e) => {
            proof {
            assert forall|m: ServerRequest| wf_server_request(m) && frame_fits_u32(server_req_payload(m)) && #[trigger] prefix_at(
                data@,
                start,
                server_req_frame(m),
            ) implies false by {
                req_wishlistsearch_parts(data@, start, m);
            }
        }
            return Err(e);
        },
    };
    let v = ServerRequest::WishlistSearch { token, query };
    proof {
            assert forall|m: ServerRequest| wf_server_request(m) && frame_fits_u32(server_req_payload(m)) && #[trigger] prefix_at(
                data@,
                start,
                server_req_frame(m),
            ) implies server_req_eq(v, m) && *pos == start + server_req_frame(m).len() by {
                req_wishlistsearch_parts(data@, start, m);
                match_str_at(data@, pstart + 4, query@, m->WishlistSearch_query@);
            }
        }
    Ok(v)
}

/// The parts of a `GetSimilarUsers` frame at offset `i`.
proof fn req_getsimilarusers_parts(data: Seq<u8>, i: int, m: ServerRequest)
    requires
        wf_server_request(m),
        frame_fits_u32(server_req_payload(m)),
        prefix_at(data, i, server_req_frame(m)),
        data.subrange(i + 4, i + 8) == enc_u32(110),
    ensures
        m is GetSimilarUsers,
        i + server_req_frame(m).len() <= data.len(),
        server_req_frame(m).len() == 8 + server_req_payload(m).len(),

        i + 8 == i + server_req_frame(m).len(),
{
    broadcast use crate::protocol::group_enc_facts;

    server_req_frame_parts(data, i, m);
    assert(m is GetSimilarUsers);
}

fn read_req_getsimilarusers_body(data: &Vec<u8>, pos: &mut usize, frame_end: usize, Ghost(start): Ghost<
    int,
>) -> (r: Result<ServerRequest, Error>)
    requires
        0 <= start,
        *old(pos) == start + 8,
        *old(pos) <= frame_end <= data@.len(),
        frame_end - start - 4 <= u32::MAX,
        data@.subrange(start, start + 4) == enc_u32((frame_end - start - 4) as u32),
        data@.subrange(start + 4, start + 8) == enc_u32(110),
    ensures
        *old(pos) <= *final(pos) <= data@.len(),
        forall|m: ServerRequest|
            wf_server_request(m) && frame_fits_u32(server_req_payload(m)) && #[trigger] prefix_at(
                data@,
                start,
                server_req_frame(m),
            ) ==> (r matches Ok(v) && server_req_eq(v, m) && *final(pos) == start
                + server_req_frame(m).len()),
{
    broadcast use crate::protocol::group_enc_facts;

    let ghost pstart = start + 8;
    let v = ServerRequest::GetSimilarUsers;
    proof {
            assert forall|m: ServerRequest| wf_server_request(m) && frame_fits_u32(server_req_payload(m)) && #[trigger] prefix_at(
                data@,
                start,
                server_req_frame(m),
            ) implies server_req_eq(v, m) && *pos == start + server_req_frame(m).len() by {
                req_getsimilarusers_parts(data@, start, m);
            }
        }
    Ok(v)
}

/// The parts of a `GetItemRecommendations` frame at offset `i`.
proof fn req_getitemrecommendations_parts(data: Seq<u8>, i: int, m: ServerRequest)
    requires
        wf_server_request(m),
        frame_fits_u32(server_req_payload(m)),
        prefix_at(data, i, server_req_frame(m)),
        data.subrange(i + 4, i + 8) == enc_u32(111),
    ensures
        m is GetItemRecommendations,
        i + server_req_frame(m).len() <= data.len(),
        server_req_frame(m).len() == 8 + server_req_payload(m).len(),
        data.subrange(i + 8, i + 8 + 4) == enc_u32(encode_utf8(m->GetItemRecommendations_item@).len() as u32),
        data.subrange(i + 8 + 4, i + 8 + 4 + encode_utf8(m->GetItemRecommendations_item@).len()) == encode_utf8(m->GetItemRecommendations_item@),
        crate::protocol::str_starts_at(data, i + 8),
        i + 8 + enc_str(m->GetItemRecommendations_item@).len() as int == i + server_req_frame(m).len(),
{
    broadcast use crate::protocol::group_enc_facts;

    server_req_frame_parts(data, i, m);
    assert(m is GetItemRecommendations);
    assert(server_req_payload(m) =~= enc_str(m->GetItemRecommendations_item@));
    split_str(data, i + 8, m->GetItemRecommendations_item@, Seq::<u8>::empty());
}

fn read_req_getitemrecommendations_body(data: &Vec<u8>, pos: &mut usize, frame_end: usize, Ghost(start): Ghost<
    int,
>) -> (r: Result<ServerRequest, Error>)
    requires
        0 <= start,
        *old(pos) == start + 8,
        *old(pos) <= frame_end <= data@.len(),
        frame_end - start - 4 <= u32::MAX,
        data@.subrange(start, start + 4) == enc_u32((frame_end - start - 4) as u32),
        data@.subrange(start + 4, start + 8) == enc_u32(111),
    ensures
        *old(pos) <= *final(pos) <= data@.len(),
        forall|m: ServerRequest|
            wf_server_request(m) && frame_fits_u32(server_req_payload(m)) && #[trigger] prefix_at(
                data@,
                start,
                server_req_frame(m),
            ) ==> (r matches Ok(v) && server_req_eq(v, m) && *final(pos) == start
                + server_req_frame(m).len()),
{
    broadcast use crate::protocol::group_enc_facts;

    let ghost pstart = start + 8;
    let item = match read_string(data, pos) {
        Ok(v) => v,
        Err(e) => {
            proof {
            assert forall|m: ServerRequest| wf_server_request(m) && frame_fits_u32(server_req_payload(m)) && #[trigger] prefix_at(
                data@,
                start,
                server_req_frame(m),
            ) implies false by {
                req_getitemrecommendations_parts(data@, start, m);
            }
        }
            return Err(e);
        },
    };
    let v = ServerRequest::GetItemRecommendations { item };
    proof {
            assert forall|m: ServerRequest| wf_server_request(m) && frame_fits_u32(server_req_payload(m)) && #[trigger] prefix_at(
                data@,
                start,
                server_req_frame(m),
            ) implies server_req_eq(v, m) && *pos == start + server_req_frame(m).len() by {
                req_getitemrecommendations_parts(data@, start, m);
                match_str_at(data@, pstart, item@, m->GetItemRecommendations_item@);
            }
        }
    Ok(v)
}

/// The parts of a `GetItemSimilarUsers` frame at offset `i`.
proof fn req_getitemsimilarusers_parts(data: Seq<u8>, i: int, m: ServerRequest)
    requires
        wf_server_request(m),
        frame_fits_u32(server_req_payload(m)),
        prefix_at(data, i, server_req_frame(m)),
        data.subrange(i + 4, i + 8) == enc_u32(112),
    ensures
        m is GetItemSimilarUsers,
        i + server_req_frame(m).len() <= data.len(),
        server_req_frame(m).len() == 8 + server_req_payload(m).len(),
        data.subrange(i + 8, i + 8 + 4) == enc_u32(encode_utf8(m->GetItemSimilarUsers_item@).len() as u32),
        data.subrange(i + 8 + 4, i + 8 + 4 + encode_utf8(m->GetItemSimilarUsers_item@).len()) == encode_utf8(m->GetItemSimilarUsers_item@),
        crate::protocol::str_starts_at(data, i + 8),
        i + 8 + enc_str(m->GetItemSimilarUsers_item@).len() as int == i + server_req_frame(m).len(),
{
    broadcast use crate::protocol::group_enc_facts;

    server_req_frame_parts(data, i, m);
    assert(m is GetItemSimilarUsers);
    assert(server_req_payload(m) =~= enc_str(m->GetItemSimilarUsers_item@));
    split_str(data, i + 8, m->GetItemSimilarUsers_item@, Seq::<u8>::empty());
}

fn read_req_getitemsimilarusers_body(data: &Vec<u8>, pos: &mut usize, frame_end: usize, Ghost(start): Ghost<
    int,
>) -> (r: Result<ServerRequest, Error>)
    requires
        0 <= start,
        *old(pos) == start + 8,
        *old(pos) <= frame_end <= data@.len(),
        frame_end - start - 4 <= u32::MAX,
        data@.subrange(start, start + 4) == enc_u32((frame_end - start - 4) as u32),
        data@.subrange(start + 4, start + 8) == enc_u32(112),
    ensures
        *old(pos) <= *final(pos) <= data@.len(),
        forall|m: ServerRequest|
            wf_server_request(m) && frame_fits_u32(server_req_payload(m)) && #[trigger] prefix_at(
                data@,
                start,
                server_req_frame(m),
            ) ==> (r matches Ok(v) && server_req_eq(v, m) && *final(pos) == start
                + server_req_frame(m).len()),
{
    broadcast use crate::protocol::group_enc_facts;

    let ghost pstart = start + 8;
    let item = match read_string(data, pos) {
        Ok(v) => v,
        Err(e) => {
            proof {
            assert forall|m: ServerRequest| wf_server_request(m) && frame_fits_u32(server_req_payload(m)) && #[trigger] prefix_at(
                data@,
                start,
                server_req_frame(m),
            ) implies false by {
                req_getitemsimilarusers_parts(data@, start, m);
            }
        }
            return Err(e);
        },
    };
    let v = ServerRequest::GetItemSimilarUsers { item };
    proof {
            assert forall|m: ServerRequest| wf_server_request(m) && frame_fits_u32(server_req_payload(m)) && #[trigger] prefix_at(
                data@,
                start,
                server_req_frame(m),
            ) implies server_req_eq(v, m) && *pos == start + server_req_frame(m).len() by {
                req_getitemsimilarusers_parts(data@, start, m);
                match_str_at(data@, pstart, item@, m->GetItemSimilarUsers_item@);
            }
        }
    Ok(v)
}

/// The parts of a `RoomTickerSet` frame at offset `i`.
proof fn req_roomtickerset_parts(data: Seq<u8>, i: int, m: ServerRequest)
    requires
        wf_server_request(m),
        frame_fits_u32(server_req_payload(m)),
        prefix_at(data, i, server_req_frame(m)),
        data.subrange(i + 4, i + 8) == enc_u32(116),
    ensures
        m is RoomTickerSet,
        i + server_req_frame(m).len() <= data.len(),
        server_req_frame(m).len() == 8 + server_req_payload(m).len(),
        data.subrange(i + 8, i + 8 + 4) == enc_u32(encode_utf8(m->RoomTickerSet_room@).len() as u32),
        data.subrange(i + 8 + 4, i + 8 + 4 + encode_utf8(m->RoomTickerSet_room@).len()) == encode_utf8(m->RoomTickerSet_room@),
        crate::protocol::str_starts_at(data, i + 8),
        data.subrange(i + 8 + enc_str(m->RoomTickerSet_room@).len() as int, i + 8 + enc_str(m->RoomTickerSet_room@).len() as int + 4) == enc_u32(encode_utf8(m->RoomTickerSet_ticker@).len() as u32),
        data.subrange(i + 8 + enc_str(m->RoomTickerSet_room@).len() as int + 4, i + 8 + enc_str(m->RoomTickerSet_room@).len() as int + 4 + encode_utf8(m->RoomTickerSet_ticker@).len()) == encode_utf8(m->RoomTickerSet_ticker@),
        crate::protocol::str_starts_at(data, i + 8 + enc_str(m->RoomTickerSet_room@).len() as int),
        i + 8 + enc_str(m->RoomTickerSet_room@).len() as int + enc_str(m->RoomTickerSet_ticker@).len() as int == i + server_req_frame(m).len(),
{
    broadcast use crate::protocol::group_enc_facts;

    server_req_frame_parts(data, i, m);
    assert(m is RoomTickerSet);
    assert(server_req_payload(m) =~= enc_str(m->RoomTickerSet_room@) + (enc_str(m->RoomTickerSet_ticker@)));
    split_str(data, i + 8, m->RoomTickerSet_room@, enc_str(m->RoomTickerSet_ticker@));
    split_str(data, i + 8 + enc_str(m->RoomTickerSet_room@).len() as int, m->RoomTickerSet_ticker@, Seq::<u8>::empty());
}

fn read_req_roomtickerset_body(data: &Vec<u8>, pos: &mut usize, frame_end: usize, Ghost(start): Ghost<
    int,
>) -> (r: Result<ServerRequest, Error>)
    requires
        0 <= start,
        *old(pos) == start + 8,
        *old(pos) <= frame_end <= data@.len(),
        frame_end - start - 4 <= u32::MAX,
        data@.subrange(start, start + 4) == enc_u32((frame_end - start - 4) as u32),
        data@.subrange(start + 4, start + 8) == enc_u32(116),
    ensures
        *old(pos) <= *final(pos) <= data@.len(),
        forall|m: ServerRequest|
            wf_server_request(m) && frame_fits_u32(server_req_payload(m)) && #[trigger] prefix_at(
                data@,
                start,
                server_req_frame(m),
            ) ==> (r matches Ok(v) && server_req_eq(v, m) && *final(pos) == start
                + server_req_frame(m).len()),
{
    broadcast use crate::protocol::group_enc_facts;

    let ghost pstart = start + 8;
    let room = match read_string(data, pos) {
        Ok(v) => v,
        Err(e) => {
            proof {
            assert forall|m: ServerRequest| wf_server_request(m) && frame_fits_u32(server_req_payload(m)) && #[trigger] prefix_at(
                data@,
                start,
                server_req_frame(m),
            ) implies false by {
                req_roomtickerset_parts(data@, start, m);
            }
        }
            return Err(e);
        },
    };
    let ticker = match read_string(data, pos) {
        Ok(v) => v,
        Err(e) => {
            proof {
            assert forall|m: ServerRequest| wf_server_request(m) && frame_fits_u32(server_req_payload(m)) && #[trigger] prefix_at(
                data@,
                start,
                server_req_frame(m),
            ) implies false by {
                req_roomtickerset_parts(data@, start, m);
                match_str_at(data@, pstart, room@, m->RoomTickerSet_room@);
            }
        }
            return Err(e);
        },
    };
    let v = ServerRequest::RoomTickerSet { room, ticker };
    proof {
            assert forall|m: ServerRequest| wf_server_request(m) && frame_fits_u32(server_req_payload(m)) && #[trigger] prefix_at(
                data@,
                start,
                server_req_frame(m),
            ) implies server_req_eq(v, m) && *pos == start + server_req_frame(m).len() by {
                req_roomtickerset_parts(data@, start, m);
                match_str_at(data@, pstart, room@, m->RoomTickerSet_room@);
                match_str_at(data@, pstart + enc_str(m->RoomTickerSet_room@).len() as int, ticker@, m->RoomTickerSet_ticker@);
            }
        }
    Ok(v)
}

/// The parts of a `HatedInterestAdd` frame at offset `i`.
proof fn req_hatedinterestadd_parts(data: Seq<u8>, i: int, m: ServerRequest)
    requires
        wf_server_request(m),
        frame_fits_u32(server_req_payload(m)),
        prefix_at(data, i, server_req_frame(m)),
        data.subrange(i + 4, i + 8) == enc_u32(117),
    ensures
        m is HatedInterestAdd,
        i + server_req_frame(m).len() <= data.len(),
        server_req_frame(m).len() == 8 + server_req_payload(m).len(),
        data.subrange(i + 8, i + 8 + 4) == enc_u32(encode_utf8(m->HatedInterestAdd_item@).len() as u32),
        data.subrange(i + 8 + 4, i + 8 + 4 + encode_utf8(m->HatedInterestAdd_item@).len()) == encode_utf8(m->HatedInterestAdd_item@),
        crate::protocol::str_starts_at(data, i + 8),
        i + 8 + enc_str(m->HatedInterestAdd_item@).len() as int == i + server_req_frame(m).len(),
{
    broadcast use crate::protocol::group_enc_facts;

    server_req_frame_parts(data, i, m);
    assert(m is HatedInterestAdd);
    assert(server_req_payload(m) =~= enc_str(m->HatedInterestAdd_item@));
    split_str(data, i + 8, m->HatedInterestAdd_item@, Seq::<u8>::empty());
}

fn read_req_hatedinterestadd_body(data: &Vec<u8>, pos: &mut usize, frame_end: usize, Ghost(start): Ghost<
    int,
>) -> (r: Result<ServerRequest, Error>)
    requires
        0 <= start,
        *old(pos) == start + 8,
        *old(pos) <= frame_end <= data@.len(),
        frame_end - start - 4 <= u32::MAX,
        data@.subrange(start, start + 4) == enc_u32((frame_end - start - 4) as u32),
        data@.subrange(start + 4, start + 8) == enc_u32(117),
    ensures
        *old(pos) <= *final(pos) <= data@.len(),
        forall|m: ServerRequest|
            wf_server_request(m) && frame_fits_u32(server_req_payload(m)) && #[trigger] prefix_at(
                data@,
                start,
                server_req_frame(m),
            ) ==> (r matches Ok(v) && server_req_eq(v, m) && *final(pos) == start
                + server_req_frame(m).len()),
{
    broadcast use crate::protocol::group_enc_facts;

    let ghost pstart = start + 8;
    let item = match read_string(data, pos) {
        Ok(v) => v,
        Err(e) => {
            proof {
            assert forall|m: ServerRequest| wf_server_request(m) && frame_fits_u32(server_req_payload(m)) && #[trigger] prefix_at(
                data@,
                start,
                server_req_frame(m),
            ) implies false by {
                req_hatedinterestadd_parts(data@, start, m);
            }
        }
            return Err(e);
        },
    };
    let v = ServerRequest::HatedInterestAdd { item };
    proof {
            assert forall|m: ServerRequest| wf_server_request(m) && frame_fits_u32(server_req_payload(m)) && #[trigger] prefix_at(
                data@,
                start,
                server_req_frame(m),
            ) implies server_req_eq(v, m) && *pos == start + server_req_frame(m).len() by {
                req_hatedinterestadd_parts(data@, start, m);
                match_str_at(data@, pstart, item@, m->HatedInterestAdd_item@);
            }
        }
    Ok(v)
}

/// The parts of a `HatedInterestRemove` frame at offset `i`.
proof fn req_hatedinterestremove_parts(data: Seq<u8>, i: int, m: ServerRequest)
    requires
        wf_server_request(m),
        frame_fits_u32(server_req_payload(m)),
        prefix_at(data, i, server_req_frame(m)),
        data.subrange(i + 4, i + 8) == enc_u32(118),
    ensures
        m is HatedInterestRemove,
        i + server_req_frame(m).len() <= data.len(),
        server_req_frame(m).len() == 8 + server_req_payload(m).len(),
        data.subrange(i + 8, i + 8 + 4) == enc_u32(encode_utf8(m->HatedInterestRemove_item@).len() as u32),
        data.subrange(i + 8 + 4, i + 8 + 4 + encode_utf8(m->HatedInterestRemove_item@).len()) == encode_utf8(m->HatedInterestRemove_item@),
        crate::protocol::str_starts_at(data, i + 8),
        i + 8 + enc_str(m->HatedInterestRemove_item@).len() as int == i + server_req_frame(m).len(),
{
    broadcast use crate::protocol::group_enc_facts;

    server_req_frame_parts(data, i, m);
    assert(m is HatedInterestRemove);
    assert(server_req_payload(m) =~= enc_str(m->HatedInterestRemove_item@));
    split_str(data, i + 8, m->HatedInterestRemove_item@, Seq::<u8>::empty());
}

fn read_req_hatedinterestremove_body(data: &Vec<u8>, pos: &mut usize, frame_end: usize, Ghost(start): Ghost<
    int,
>) -> (r: Result<ServerRequest, Error>)
    requires
        0 <= start,
        *old(pos) == start + 8,
        *old(pos) <= frame_end <= data@.len(),
        frame_end - start - 4 <= u32::MAX,
        data@.subrange(start, start + 4) == enc_u32((frame_end - start - 4) as u32),
        data@.subrange(start + 4, start + 8) == enc_u32(118),
    ensures
        *old(pos) <= *final(pos) <= data@.len(),
        forall|m: ServerRequest|
            wf_server_request(m) && frame_fits_u32(server_req_payload(m)) && #[trigger] prefix_at(
                data@,
                start,
                server_req_frame(m),
            ) ==> (r matches Ok(v) && server_req_eq(v, m) && *final(pos) == start
                + server_req_frame(m).len()),
{
    broadcast use crate::protocol::group_enc_facts;

    let ghost pstart = start + 8;
    let item = match read_string(data, pos) {
        Ok(v) => v,
        Err(e) => {
            proof {
            assert forall|m: ServerRequest| wf_server_request(m) && frame_fits_u32(server_req_payload(m)) && #[trigger] prefix_at(
                data@,
                start,
                server_req_frame(m),
            ) implies false by {
                req_hatedinterestremove_parts(data@, start, m);
            }
        }
            return Err(e);
        },
    };
    let v = ServerRequest::HatedInterestRemove { item };
    proof {
            assert forall|m: ServerRequest| wf_server_request(m) && frame_fits_u32(server_req_payload(m)) && #[trigger] prefix_at(
                data@,
                start,
                server_req_frame(m),
            ) implies server_req_eq(v, m) && *pos == start + server_req_frame(m).len() by {
                req_hatedinterestremove_parts(data@, start, m);
                match_str_at(data@, pstart, item@, m->HatedInterestRemove_item@);
            }
        }
    Ok(v)
}

/// The parts of a `RoomSearch` frame at offset `i`.
proof fn req_roomsearch_parts(data: Seq<u8>, i: int, m: ServerRequest)
    requires
        wf_server_request(m),
        frame_fits_u32(server_req_payload(m)),
        prefix_at(data, i, server_req_frame(m)),
        data.subrange(i + 4, i + 8) == enc_u32(120),
    ensures
        m is RoomSearch,
        i + server_req_frame(m).len() <= data.len(),
        server_req_frame(m).len() == 8 + server_req_payload(m).len(),
        data.subrange(i + 8, i + 8 + 4) == enc_u32(encode_utf8(m->RoomSearch_room@).len() as u32),
        data.subrange(i + 8 + 4, i + 8 + 4 + encode_utf8(m->RoomSearch_room@).len()) == encode_utf8(m->RoomSearch_room@),
        crate::protocol::str_starts_at(data, i + 8),
        data.subrange(i + 8 + enc_str(m->RoomSearch_room@).len() as int, i + 8 + enc_str(m->RoomSearch_room@).len() as int + 4) == enc_u32(m->RoomSearch_token),
        data.subrange(i + 8 + enc_str(m->RoomSearch_room@).len() as int + 4, i + 8 + enc_str(m->RoomSearch_room@).len() as int + 4 + 4) == enc_u32(encode_utf8(m->RoomSearch_query@).len() as u32),
        data.subrange(i + 8 + enc_str(m->RoomSearch_room@).len() as int + 4 + 4, i + 8 + enc_str(m->RoomSearch_room@).len() as int + 4 + 4 + encode_utf8(m->RoomSearch_query@).len()) == encode_utf8(m->RoomSearch_query@),
        crate::protocol::str_starts_at(data, i + 8 + enc_str(m->RoomSearch_room@).len() as int + 4),
        i + 8 + enc_str(m->RoomSearch_room@).len() as int + 4 + enc_str(m->RoomSearch_query@).len() as int == i + server_req_frame(m).len(),
{
    broadcast use crate::protocol::group_enc_facts;

    server_req_frame_parts(data, i, m);
    assert(m is RoomSearch);
    assert(server_req_payload(m) =~= enc_str(m->RoomSearch_room@) + (enc_u32(m->RoomSearch_token) + (enc_str(m->RoomSearch_query@))));
    split_str(data, i + 8, m->RoomSearch_room@, enc_u32(m->RoomSearch_token) + (enc_str(m->RoomSearch_query@)));
    split_u32(data, i + 8 + enc_str(m->RoomSearch_room@).len() as int, m->RoomSearch_token, enc_str(m->RoomSearch_query@));
    split_str(data, i + 8 + enc_str(m->RoomSearch_room@).len() as int + 4, m->RoomSearch_query@, Seq::<u8>::empty());
}

fn read_req_roomsearch_body(data: &Vec<u8>, pos: &mut usize, frame_end: usize, Ghost(start): Ghost<
    int,
>) -> (r: Result<ServerRequest, Error>)
    requires
        0 <= start,
        *old(pos) == start + 8,
        *old(pos) <= frame_end <= data@.len(),
        frame_end - start - 4 <= u32::MAX,
        data@.subrange(start, start + 4) == enc_u32((frame_end - start - 4) as u32),
        data@.subrange(start + 4, start + 8) == enc_u32(120),
    ensures
        *old(pos) <= *final(pos) <= data@.len(),
        forall|m: ServerRequest|
            wf_server_request(m) && frame_fits_u32(server_req_payload(m)) && #[trigger] prefix_at(
                data@,
                start,
                server_req_frame(m),
            ) ==> (r matches Ok(v) && server_req_eq(v, m) && *final(pos) == start
                + server_req_frame(m).len()),
{
    broadcast use crate::protocol::group_enc_facts;

    let ghost pstart = start + 8;
    let room = match read_string(data, pos) {
        Ok(v) => v,
        Err(e) => {
            proof {
            assert forall|m: ServerRequest| wf_server_request(m) && frame_fits_u32(server_req_payload(m)) && #[trigger] prefix_at(
                data@,
                start,
                server_req_frame(m),
            ) implies false by {
                req_roomsearch_parts(data@, start, m);
            }
        }
            return Err(e);
        },
    };
    let token = match read_u32(data, pos) {
        Ok(v) => v,
        Err(e) => {
            proof {
            assert forall|m: ServerRequest| wf_server_request(m) && frame_fits_u32(server_req_payload(m)) && #[trigger] prefix_at(
                data@,
                start,
                server_req_frame(m),
            ) implies false by {
                req_roomsearch_parts(data@, start, m);
                match_str_at(data@, pstart, room@, m->RoomSearch_room@);
            }
        }
            return Err(e);
        },
    };
    let query = match read_string(data, pos) {
        Ok(v) => v,
        Err(e) => {
            proof {
            assert forall|m: ServerRequest| wf_server_request(m) && frame_fits_u32(server_req_payload(m)) && #[trigger] prefix_at(
                data@,
                start,
                server_req_frame(m),
            ) implies false by {
                req_roomsearch_parts(data@, start, m);
                match_str_at(data@, pstart, room@, m->RoomSearch_room@);
            }
        }
            return Err(e);
        },
    };
    let v = ServerRequest::RoomSearch { room, token, query };
    proof {
            assert forall|m: ServerRequest| wf_server_request(m) && frame_fits_u32(server_req_payload(m)) && #[trigger] prefix_at(
                data@,
                start,
                server_req_frame(m),
            ) implies server_req_eq(v, m) && *pos == start + server_req_frame(m).len() by {
                req_roomsearch_parts(data@, start, m);
                match_str_at(data@, pstart, room@, m->RoomSearch_room@);
                match_str_at(data@, pstart + enc_str(m->RoomSearch_room@).len() as int + 4, query@, m->RoomSearch_query@);
            }
        }
    Ok(v)
}

/// The parts of a `SendUploadSpeed` frame at offset `i`.
proof fn req_senduploadspeed_parts(data: Seq<u8>, i: int, m: ServerRequest)
    requires
        wf_server_request(m),
        frame_fits_u32(server_req_payload(m)),
        prefix_at(data, i, server_req_frame(m)),
        data.subrange(i + 4, i + 8) == enc_u32(121),
    ensures
        m is SendUploadSpeed,
        i + server_req_frame(m).len() <= data.len(),
        server_req_frame(m).len() == 8 + server_req_payload(m).len(),
        data.subrange(i + 8, i + 8 + 4) == enc_u32(m->SendUploadSpeed_speed),
        i + 8 + 4 == i + server_req_frame(m).len(),
{
    broadcast use crate::protocol::group_enc_facts;

    server_req_frame_parts(data, i, m);
    assert(m is SendUploadSpeed);
    assert(server_req_payload(m) =~= enc_u32(m->SendUploadSpeed_speed));
    split_u32(data, i + 8, m->SendUploadSpeed_speed, Seq::<u8>::empty());
}

fn read_req_senduploadspeed_body(data: &Vec<u8>, pos: &mut usize, frame_end: usize, Ghost(start): Ghost<
    int,
>) -> (r: Result<ServerRequest, Error>)
    requires
        0 <= start,
        *old(pos) == start + 8,
        *old(pos) <= frame_end <= data@.len(),
        frame_end - start - 4 <= u32::MAX,
        data@.subrange(start, start + 4) == enc_u32((frame_end - start - 4) as u32),
        data@.subrange(start + 4, start + 8) == enc_u32(121),
    ensures
        *old(pos) <= *final(pos) <= data@.len(),
        forall|m: ServerRequest|
            wf_server_request(m) && frame_fits_u32(server_req_payload(m)) && #[trigger] prefix_at(
                data@,
                start,
                server_req_frame(m),
            ) ==> (r matches Ok(v) && server_req_eq(v, m) && *final(pos) == start
                + server_req_frame(m).len()),
{
    broadcast use crate::protocol::group_enc_facts;

    let ghost pstart = start + 8;
    let speed = match read_u32(data, pos) {
        Ok(v) => v,
        Err(e) => {
            proof {
            assert forall|m: ServerRequest| wf_server_request(m) && frame_fits_u32(server_req_payload(m)) && #[trigger] prefix_at(
                data@,
                start,
                server_req_frame(m),
            ) implies false by {
                req_senduploadspeed_parts(data@, start, m);
            }
        }
            return Err(e);
        },
    };
    let v = ServerRequest::SendUploadSpeed { speed };
    proof {
            assert forall|m: ServerRequest| wf_server_request(m) && frame_fits_u32(server_req_payload(m)) && #[trigger] prefix_at(
                data@,
                start,
                server_req_frame(m),
            ) implies server_req_eq(v, m) && *pos == start + server_req_frame(m).len() by {
                req_senduploadspeed_parts(data@, start, m);
            }
        }
    Ok(v)
}

/// The parts of a `GivePrivileges` frame at offset `i`.
proof fn req_giveprivileges_parts(data: Seq<u8>, i: int, m: ServerRequest)
    requires
        wf_server_request(m),
        frame_fits_u32(server_req_payload(m)),
        prefix_at(data, i, server_req_frame(m)),
        data.subrange(i + 4, i + 8) == enc_u32(123),
    ensures
        m is GivePrivileges,
        i + server_req_frame(m).len() <= data.len(),
        server_req_frame(m).len() == 8 + server_req_payload(m).len(),
        data.subrange(i + 8, i + 8 + 4) == enc_u32(encode_utf8(m->GivePrivileges_username@).len() as u32),
        data.subrange(i + 8 + 4, i + 8 + 4 + encode_utf8(m->GivePrivileges_username@).len()) == encode_utf8(m->GivePrivileges_username@),
        crate::protocol::str_starts_at(data, i + 8),
        data.subrange(i + 8 + enc_str(m->GivePrivileges_username@).len() as int, i + 8 + enc_str(m->GivePrivileges_username@).len() as int + 4) == enc_u32(m->GivePrivileges_days),
        i + 8 + enc_str(m->GivePrivileges_username@).len() as int + 4 == i + server_req_frame(m).len(),
{
    broadcast use crate::protocol::group_enc_facts;

    server_req_frame_parts(data, i, m);
    assert(m is GivePrivileges);
    assert(server_req_payload(m) =~= enc_str(m->GivePrivileges_username@) + (enc_u32(m->GivePrivileges_days)));
    split_str(data, i + 8, m->GivePrivileges_username@, enc_u32(m->GivePrivileges_days));
    split_u32(data, i + 8 + enc_str(m->GivePrivileges_username@).len() as int, m->GivePrivileges_days, Seq::<u8>::empty());
}

fn read_req_giveprivileges_body(data: &Vec<u8>, pos: &mut usize, frame_end: usize, Ghost(start): Ghost<
    int,
>) -> (r: Result<ServerRequest, Error>)
    requires
        0 <= start,
        *old(pos) == start + 8,
        *old(pos) <= frame_end <= data@.len(),
        frame_end - start - 4 <= u32::MAX,
        data@.subrange(start, start + 4) == enc_u32((frame_end - start - 4) as u32),
        data@.subrange(start + 4, start + 8) == enc_u32(123),
    ensures
        *old(pos) <= *final(pos) <= data@.len(),
        forall|m: ServerRequest|
            wf_server_request(m) && frame_fits_u32(server_req_payload(m)) && #[trigger] prefix_at(
                data@,
                start,
                server_req_frame(m),
            ) ==> (r matches Ok(v) && server_req_eq(v, m) && *final(pos) == start
                + server_req_frame(m).len()),
{
    broadcast use crate::protocol::group_enc_facts;

    let ghost pstart = start + 8;
    let username = match read_string(data, pos) {
        Ok(v) => v,
        Err(e) => {
            proof {
            assert forall|m: ServerRequest| wf_server_request(m) && frame_fits_u32(server_req_payload(m)) && #[trigger] prefix_at(
                data@,
                start,
                server_req_frame(m),
            ) implies false by {
                req_giveprivileges_parts(data@, start, m);
            }
        }
            return Err(e);
        },
    };
    let days = match read_u32(data, pos) {
        Ok(v) => v,
        Err(e) => {
            proof {
            assert forall|m: ServerRequest| wf_server_request(m) && frame_fits_u32(server_req_payload(m)) && #[trigger] prefix_at(
                data@,
                start,
                server_req_frame(m),
            ) implies false by {
                req_giveprivileges_parts(data@, start, m);
                match_str_at(data@, pstart, username@, m->GivePrivileges_username@);
            }
        }
            return Err(e);
        },
    };
    let v = ServerRequest::GivePrivileges { username, days };
    proof {
            assert forall|m: ServerRequest| wf_server_request(m) && frame_fits_u32(server_req_payload(m)) && #[trigger] prefix_at(
                data@,
                start,
                server_req_frame(m),
            ) implies server_req_eq(v, m) && *pos == start + server_req_frame(m).len() by {
                req_giveprivileges_parts(data@, start, m);
                match_str_at(data@, pstart, username@, m->GivePrivileges_username@);
            }
        }
    Ok(v)
}

/// The parts of a `BranchLevel` frame at offset `i`.
proof fn req_branchlevel_parts(data: Seq<u8>, i: int, m: ServerRequest)
    requires
        wf_server_request(m),
        frame_fits_u32(server_req_payload(m)),
        prefix_at(data, i, server_req_frame(m)),
        data.subrange(i + 4, i + 8) == enc_u32(126),
    ensures
        m is BranchLevel,
        i + server_req_frame(m).len() <= data.len(),
        server_req_frame(m).len() == 8 + server_req_payload(m).len(),
        data.subrange(i + 8, i + 8 + 4) == enc_u32(m->BranchLevel_level),
        i + 8 + 4 == i + server_req_frame(m).len(),
{
    broadcast use crate::protocol::group_enc_facts;

    server_req_frame_parts(data, i, m);
    assert(m is BranchLevel);
    assert(server_req_payload(m) =~= enc_u32(m->BranchLevel_level));
    split_u32(data, i + 8, m->BranchLevel_level, Seq::<u8>::empty());
}

fn read_req_branchlevel_body(data: &Vec<u8>, pos: &mut usize, frame_end: usize, Ghost(start): Ghost<
    int,
>) -> (r: Result<ServerRequest, Error>)
    requires
        0 <= start,
        *old(pos) == start + 8,
        *old(pos) <= frame_end <= data@.len(),
        frame_end - start - 4 <= u32::MAX,
        data@.subrange(start, start + 4) == enc_u32((frame_end - start - 4) as u32),
        data@.subrange(start + 4, start + 8) == enc_u32(126),
    ensures
        *old(pos) <= *final(pos) <= data@.len(),
        forall|m: ServerRequest|
            wf_server_request(m) && frame_fits_u32(server_req_payload(m)) && #[trigger] prefix_at(
                data@,
                start,
                server_req_frame(m),
            ) ==> (r matches Ok(v) && server_req_eq(v, m) && *final(pos) == start
                + server_req_frame(m).len()),
{
    broadcast use crate::protocol::group_enc_facts;

    let ghost pstart = start + 8;
    let level = match read_u32(data, pos) {
        Ok(v) => v,
        Err(e) => {
            proof {
            assert forall|m: ServerRequest| wf_server_request(m) && frame_fits_u32(server_req_payload(m)) && #[trigger] prefix_at(
                data@,
                start,
                server_req_frame(m),
            ) implies false by {
                req_branchlevel_parts(data@, start, m);
            }
        }
            return Err(e);
        },
    };
    let v = ServerRequest::BranchLevel { level };
    proof {
            assert forall|m: ServerRequest| wf_server_request(m) && frame_fits_u32(server_req_payload(m)) && #[trigger] prefix_at(
                data@,
                start,
                server_req_frame(m),
            ) implies server_req_eq(v, m) && *pos == start + server_req_frame(m).len() by {
                req_branchlevel_parts(data@, start, m);
            }
        }
    Ok(v)
}

/// The parts of a `BranchRoot` frame at offset `i`.
proof fn req_branchroot_parts(data: Seq<u8>, i: int, m: ServerRequest)
    requires
        wf_server_request(m),
        frame_fits_u32(server_req_payload(m)),
        prefix_at(data, i, server_req_frame(m)),
        data.subrange(i + 4, i + 8) == enc_u32(127),
    ensures
        m is BranchRoot,
        i + server_req_frame(m).len() <= data.len(),
        server_req_frame(m).len() == 8 + server_req_payload(m).len(),
        data.subrange(i + 8, i + 8 + 4) == enc_u32(encode_utf8(m->BranchRoot_root@).len() as u32),
        data.subrange(i + 8 + 4, i + 8 + 4 + encode_utf8(m->BranchRoot_root@).len()) == encode_utf8(m->BranchRoot_root@),
        crate::protocol::str_starts_at(data, i + 8),
        i + 8 + enc_str(m->BranchRoot_root@).len() as int == i + server_req_frame(m).len(),
{
    broadcast use crate::protocol::group_enc_facts;

    server_req_frame_parts(data, i, m);
    assert(m is BranchRoot);
    assert(server_req_payload(m) =~= enc_str(m->BranchRoot_root@));
    split_str(data, i + 8, m->BranchRoot_root@, Seq::<u8>::empty());
}

fn read_req_branchroot_body(data: &Vec<u8>, pos: &mut usize, frame_end: usize, Ghost(start): Ghost<
    int,
>) -> (r: Result<ServerRequest, Error>)
    requires
        0 <= start,
        *old(pos) == start + 8,
        *old(pos) <= frame_end <= data@.len(),
        frame_end - start - 4 <= u32::MAX,
        data@.subrange(start, start + 4) == enc_u32((frame_end - start - 4) as u32),
        data@.subrange(start + 4, start + 8) == enc_u32(127),
    ensures
        *old(pos) <= *final(pos) <= data@.len(),
        forall|m: ServerRequest|
            wf_server_request(m) && frame_fits_u32(server_req_payload(m)) && #[trigger] prefix_at(
                data@,
                start,
                server_req_frame(m),
            ) ==> (r matches Ok(v) && server_req_eq(v, m) && *final(pos) == start
                + server_req_frame(m).len()),
{
    broadcast use crate::protocol::group_enc_facts;

    let ghost pstart = start + 8;
    let root = match read_string(data, pos) {
        Ok(v) => v,
        Err(e) => {
            proof {
            assert forall|m: ServerRequest| wf_server_request(m) && frame_fits_u32(server_req_payload(m)) && #[trigger] prefix_at(
                data@,
                start,
                server_req_frame(m),
            ) implies false by {
                req_branchroot_parts(data@, start, m);
            }
        }
            return Err(e);
        },
    };
    let v = ServerRequest::BranchRoot { root };
    proof {
            assert forall|m: ServerRequest| wf_server_request(m) && frame_fits_u32(server_req_payload(m)) && #[trigger] prefix_at(
                data@,
                start,
                server_req_frame(m),
            ) implies server_req_eq(v, m) && *pos == start + server_req_frame(m).len() by {
                req_branchroot_parts(data@, start, m);
                match_str_at(data@, pstart, root@, m->BranchRoot_root@);
            }
        }
    Ok(v)
}

/// The parts of a `AddRoomMember` frame at offset `i`.
proof fn req_addroommember_parts(data: Seq<u8>, i: int, m: ServerRequest)
    requires
        wf_server_request(m),
        frame_fits_u32(server_req_payload(m)),
        prefix_at(data, i, server_req_frame(m)),
        data.subrange(i + 4, i + 8) == enc_u32(134),
    ensures
        m is AddRoomMember,
        i + server_req_frame(m).len() <= data.len(),
        server_req_frame(m).len() == 8 + server_req_payload(m).len(),
        data.subrange(i + 8, i + 8 + 4) == enc_u32(encode_utf8(m->AddRoomMember_room@).len() as u32),
        data.subrange(i + 8 + 4, i + 8 + 4 + encode_utf8(m->AddRoomMember_room@).len()) == encode_utf8(m->AddRoomMember_room@),
        crate::protocol::str_starts_at(data, i + 8),
        data.subrange(i + 8 + enc_str(m->AddRoomMember_room@).len() as int, i + 8 + enc_str(m->AddRoomMember_room@).len() as int + 4) == enc_u32(encode_utf8(m->AddRoomMember_username@).len() as u32),
        data.subrange(i + 8 + enc_str(m->AddRoomMember_room@).len() as int + 4, i + 8 + enc_str(m->AddRoomMember_room@).len() as int + 4 + encode_utf8(m->AddRoomMember_username@).len()) == encode_utf8(m->AddRoomMember_username@),
        crate::protocol::str_starts_at(data, i + 8 + enc_str(m->AddRoomMember_room@).len() as int),
        i + 8 + enc_str(m->AddRoomMember_room@).len() as int + enc_str(m->AddRoomMember_username@).len() as int == i + server_req_frame(m).len(),
{
    broadcast use crate::protocol::group_enc_facts;

    server_req_frame_parts(data, i, m);
    assert(m is AddRoomMember);
    assert(server_req_payload(m) =~= enc_str(m->AddRoomMember_room@) + (enc_str(m->AddRoomMember_username@)));
    split_str(data, i + 8, m->AddRoomMember_room@, enc_str(m->AddRoomMember_username@));
    split_str(data, i + 8 + enc_str(m->AddRoomMember_room@).len() as int, m->AddRoomMember_username@, Seq::<u8>::empty());
}

fn read_req_addroommember_body(data: &Vec<u8>, pos: &mut usize, frame_end: usize, Ghost(start): Ghost<
    int,
>) -> (r: Result<ServerRequest, Error>)
    requires
        0 <= start,
        *old(pos) == start + 8,
        *old(pos) <= frame_end <= data@.len(),
        frame_end - start - 4 <= u32::MAX,
        data@.subrange(start, start + 4) == enc_u32((frame_end - start - 4) as u32),
        data@.subrange(start + 4, start + 8) == enc_u32(134),
    ensures
        *old(pos) <= *final(pos) <= data@.len(),
        forall|m: ServerRequest|
            wf_server_request(m) && frame_fits_u32(server_req_payload(m)) && #[trigger] prefix_at(
                data@,
                start,
                server_req_frame(m),
            ) ==> (r matches Ok(v) && server_req_eq(v, m) && *final(pos) == start
                + server_req_frame(m).len()),
{
    broadcast use crate::protocol::group_enc_facts;

    let ghost pstart = start + 8;
    let room = match read_string(data, pos) {
        Ok(v) => v,
        Err(e) => {
            proof {
            assert forall|m: ServerRequest| wf_server_request(m) && frame_fits_u32(server_req_payload(m)) && #[trigger] prefix_at(
                data@,
                start,
                server_req_frame(m),
            ) implies false by {
                req_addroommember_parts(data@, start, m);
            }
        }
            return Err(e);
        },
    };
    let username = match read_string(data, pos) {
        Ok(v) => v,
        Err(e) => {
            proof {
            assert forall|m: ServerRequest| wf_server_request(m) && frame_fits_u32(server_req_payload(m)) && #[trigger] prefix_at(
                data@,
                start,
                server_req_frame(m),
            ) implies false by {
                req_addroommember_parts(data@, start, m);
                match_str_at(data@, pstart, room@, m->AddRoomMember_room@);
            }
        }
            return Err(e);
        },
    };
    let v = ServerRequest::AddRoomMember { room, username };
    proof {
            assert forall|m: ServerRequest| wf_server_request(m) && frame_fits_u32(server_req_payload(m)) && #[trigger] prefix_at(
                data@,
                start,
                server_req_frame(m),
            ) implies server_req_eq(v, m) && *pos == start + server_req_frame(m).len() by {
                req_addroommember_parts(data@, start, m);
                match_str_at(data@, pstart, room@, m->AddRoomMember_room@);
                match_str_at(data@, pstart + enc_str(m->AddRoomMember_room@).len() as int, username@, m->AddRoomMember_username@);
            }
        }
    Ok(v)
}

/// The parts of a `RemoveRoomMember` frame at offset `i`.
proof fn req_removeroommember_parts(data: Seq<u8>, i: int, m: ServerRequest)
    requires
        wf_server_request(m),
        frame_fits_u32(server_req_payload(m)),
        prefix_at(data, i, server_req_frame(m)),
        data.subrange(i + 4, i + 8) == enc_u32(135),
    ensures
        m is RemoveRoomMember,
        i + server_req_frame(m).len() <= data.len(),
        server_req_frame(m).len() == 8 + server_req_payload(m).len(),
        data.subrange(i + 8, i + 8 + 4) == enc_u32(encode_utf8(m->RemoveRoomMember_room@).len() as u32),
        data.subrange(i + 8 + 4, i + 8 + 4 + encode_utf8(m->RemoveRoomMember_room@).len()) == encode_utf8(m->RemoveRoomMember_room@),
        crate::protocol::str_starts_at(data, i + 8),
        data.subrange(i + 8 + enc_str(m->RemoveRoomMember_room@).len() as int, i + 8 + enc_str(m->RemoveRoomMember_room@).len() as int + 4) == enc_u32(encode_utf8(m->RemoveRoomMember_username@).len() as u32),
        data.subrange(i + 8 + enc_str(m->RemoveRoomMember_room@).len() as int + 4, i + 8 + enc_str(m->RemoveRoomMember_room@).len() as int + 4 + encode_utf8(m->RemoveRoomMember_username@).len()) == encode_utf8(m->RemoveRoomMember_username@),
        crate::protocol::str_starts_at(data, i + 8 + enc_str(m->RemoveRoomMember_room@).len() as int),
        i + 8 + enc_str(m->RemoveRoomMember_room@).len() as int + enc_str(m->RemoveRoomMember_username@).len() as int == i + server_req_frame(m).len(),
{
    broadcast use crate::protocol::group_enc_facts;

    server_req_frame_parts(data, i, m);
    assert(m is RemoveRoomMember);
    assert(server_req_payload(m) =~= enc_str(m->RemoveRoomMember_room@) + (enc_str(m->RemoveRoomMember_username@)));
    split_str(data, i + 8, m->RemoveRoomMember_room@, enc_str(m->RemoveRoomMember_username@));
    split_str(data, i + 8 + enc_str(m->RemoveRoomMember_room@).len() as int, m->RemoveRoomMember_username@, Seq::<u8>::empty());
}

fn read_req_removeroommember_body(data: &Vec<u8>, pos: &mut usize, frame_end: usize, Ghost(start): Ghost<
    int,
>) -> (r: Result<ServerRequest, Error>)
    requires
        0 <= start,
        *old(pos) == start + 8,
        *old(pos) <= frame_end <= data@.len(),
        frame_end - start - 4 <= u32::MAX,
        data@.subrange(start, start + 4) == enc_u32((frame_end - start - 4) as u32),
        data@.subrange(start + 4, start + 8) == enc_u32(135),
    ensures
        *old(pos) <= *final(pos) <= data@.len(),
        forall|m: ServerRequest|
            wf_server_request(m) && frame_fits_u32(server_req_payload(m)) && #[trigger] prefix_at(
                data@,
                start,
                server_req_frame(m),
            ) ==> (r matches Ok(v) && server_req_eq(v, m) && *final(pos) == start
                + server_req_frame(m).len()),
{
    broadcast use crate::protocol::group_enc_facts;

    let ghost pstart = start + 8;
    let room = match read_string(data, pos) {
        Ok(v) => v,
        Err(e) => {
            proof {
            assert forall|m: ServerRequest| wf_server_request(m) && frame_fits_u32(server_req_payload(m)) && #[trigger] prefix_at(
                data@,
                start,
                server_req_frame(m),
            ) implies false by {
                req_removeroommember_parts(data@, start, m);
            }
        }
            return Err(e);
        },
    };
    let username = match read_string(data, pos) {
        Ok(v) => v,
        Err(e) => {
            proof {
            assert forall|m: ServerRequest| wf_server_request(m) && frame_fits_u32(server_req_payload(m)) && #[trigger] prefix_at(
                data@,
                start,
                server_req_frame(m),
            ) implies false by {
                req_removeroommember_parts(data@, start, m);
                match_str_at(data@, pstart, room@, m->RemoveRoomMember_room@);
            }
        }
            return Err(e);
        },
    };
    let v = ServerRequest::RemoveRoomMember { room, username };
    proof {
            assert forall|m: ServerRequest| wf_server_request(m) && frame_fits_u32(server_req_payload(m)) && #[trigger] prefix_at(
                data@,
                start,
                server_req_frame(m),
            ) implies server_req_eq(v, m) && *pos == start + server_req_frame(m).len() by {
                req_removeroommember_parts(data@, start, m);
                match_str_at(data@, pstart, room@, m->RemoveRoomMember_room@);
                match_str_at(data@, pstart + enc_str(m->RemoveRoomMember_room@).len() as int, username@, m->RemoveRoomMember_username@);
            }
        }
    Ok(v)
}

/// The parts of a `CancelRoomMembership` frame at offset `i`.
proof fn req_cancelroommembership_parts(data: Seq<u8>, i: int, m: ServerRequest)
    requires
        wf_server_request(m),
        frame_fits_u32(server_req_payload(m)),
        prefix_at(data, i, server_req_frame(m)),
        data.subrange(i + 4, i + 8) == enc_u32(136),
    ensures
        m is CancelRoomMembership,
        i + server_req_frame(m).len() <= data.len(),
        server_req_frame(m).len() == 8 + server_req_payload(m).len(),
        data.subrange(i + 8, i + 8 + 4) == enc_u32(encode_utf8(m->CancelRoomMembership_room@).len() as u32),
        data.subrange(i + 8 + 4, i + 8 + 4 + encode_utf8(m->CancelRoomMembership_room@).len()) == encode_utf8(m->CancelRoomMembership_room@),
        crate::protocol::str_starts_at(data, i + 8),
        i + 8 + enc_str(m->CancelRoomMembership_room@).len() as int == i + server_req_frame(m).len(),
{
    broadcast use crate::protocol::group_enc_facts;

    server_req_frame_parts(data, i, m);
    assert(m is CancelRoomMembership);
    assert(server_req_payload(m) =~= enc_str(m->CancelRoomMembership_room@));
    split_str(data, i + 8, m->CancelRoomMembership_room@, Seq::<u8>::empty());
}

fn read_req_cancelroommembership_body(data: &Vec<u8>, pos: &mut usize, frame_end: usize, Ghost(start): Ghost<
    int,
>) -> (r: Result<ServerRequest, Error>)
    requires
        0 <= start,
        *old(pos) == start + 8,
        *old(pos) <= frame_end <= data@.len(),
        frame_end - start - 4 <= u32::MAX,
        data@.subrange(start, start + 4) == enc_u32((frame_end - start - 4) as u32),
        data@.subrange(start + 4, start + 8) == enc_u32(136),
    ensures
        *old(pos) <= *final(pos) <= data@.len(),
        forall|m: ServerRequest|
            wf_server_request(m) && frame_fits_u32(server_req_payload(m)) && #[trigger] prefix_at(
                data@,
                start,
                server_req_frame(m),
            ) ==> (r matches Ok(v) && server_req_eq(v, m) && *final(pos) == start
                + server_req_frame(m).len()),
{
    broadcast use crate::protocol::group_enc_facts;

    let ghost pstart = start + 8;
    let room = match read_string(data, pos) {
        Ok(v) => v,
        Err(e) => {
            proof {
            assert forall|m: ServerRequest| wf_server_request(m) && frame_fits_u32(server_req_payload(m)) && #[trigger] prefix_at(
                data@,
                start,
                server_req_frame(m),
            ) implies false by {
                req_cancelroommembership_parts(data@, start, m);
            }
        }
            return Err(e);
        },
    };
    let v = ServerRequest::CancelRoomMembership { room };
    proof {
            assert forall|m: ServerRequest| wf_server_request(m) && frame_fits_u32(server_req_payload(m)) && #[trigger] prefix_at(
                data@,
                start,
                server_req_frame(m),
            ) implies server_req_eq(v, m) && *pos == start + server_req_frame(m).len() by {
                req_cancelroommembership_parts(data@, start, m);
                match_str_at(data@, pstart, room@, m->CancelRoomMembership_room@);
            }
        }
    Ok(v)
}

/// The parts of a `CancelRoomOwnership` frame at offset `i`.
proof fn req_cancelroomownership_parts(data: Seq<u8>, i: int, m: ServerRequest)
    requires
        wf_server_request(m),
        frame_fits_u32(server_req_payload(m)),
        prefix_at(data, i, server_req_frame(m)),
        data.subrange(i + 4, i + 8) == enc_u32(137),
    ensures
        m is CancelRoomOwnership,
        i + server_req_frame(m).len() <= data.len(),
        server_req_frame(m).len() == 8 + server_req_payload(m).len(),
        data.subrange(i + 8, i + 8 + 4) == enc_u32(encode_utf8(m->CancelRoomOwnership_room@).len() as u32),
        data.subrange(i + 8 + 4, i + 8 + 4 + encode_utf8(m->CancelRoomOwnership_room@).len()) == encode_utf8(m->CancelRoomOwnership_room@),
        crate::protocol::str_starts_at(data, i + 8),
        i + 8 + enc_str(m->CancelRoomOwnership_room@).len() as int == i + server_req_frame(m).len(),
{
    broadcast use crate::protocol::group_enc_facts;

    server_req_frame_parts(data, i, m);
    assert(m is CancelRoomOwnership);
    assert(server_req_payload(m) =~= enc_str(m->CancelRoomOwnership_room@));
    split_str(data, i + 8, m->CancelRoomOwnership_room@, Seq::<u8>::empty());
}

fn read_req_cancelroomownership_body(data: &Vec<u8>, pos: &mut usize, frame_end: usize, Ghost(start): Ghost<
    int,
>) -> (r: Result<ServerRequest, Error>)
    requires
        0 <= start,
        *old(pos) == start + 8,
        *old(pos) <= frame_end <= data@.len(),
        frame_end - start - 4 <= u32::MAX,
        data@.subrange(start, start + 4) == enc_u32((frame_end - start - 4) as u32),
        data@.subrange(start + 4, start + 8) == enc_u32(137),
    ensures
        *old(pos) <= *final(pos) <= data@.len(),
        forall|m: ServerRequest|
            wf_server_request(m) && frame_fits_u32(server_req_payload(m)) && #[trigger] prefix_at(
                data@,
                start,
                server_req_frame(m),
            ) ==> (r matches Ok(v) && server_req_eq(v, m) && *final(pos) == start
                + server_req_frame(m).len()),
{
    broadcast use crate::protocol::group_enc_facts;

    let ghost pstart = start + 8;
    let room = match read_string(data, pos) {
        Ok(v) => v,
        Err(e) => {
            proof {
            assert forall|m: ServerRequest| wf_server_request(m) && frame_fits_u32(server_req_payload(m)) && #[trigger] prefix_at(
                data@,
                start,
                server_req_frame(m),
            ) implies false by {
                req_cancelroomownership_parts(data@, start, m);
            }
        }
            return Err(e);
        },
    };
    let v = ServerRequest::CancelRoomOwnership { room };
    proof {
            assert forall|m: ServerRequest| wf_server_request(m) && frame_fits_u32(server_req_payload(m)) && #[trigger] prefix_at(
                data@,
                start,
                server_req_frame(m),
            ) implies server_req_eq(v, m) && *pos == start + server_req_frame(m).len() by {
                req_cancelroomownership_parts(data@, start, m);
                match_str_at(data@, pstart, room@, m->CancelRoomOwnership_room@);
            }
        }
    Ok(v)
}

/// The parts of a `EnableRoomInvitations` frame at offset `i`.
proof fn req_enableroominvitations_parts(data: Seq<u8>, i: int, m: ServerRequest)
    requires
        wf_server_request(m),
        frame_fits_u32(server_req_payload(m)),
        prefix_at(data, i, server_req_frame(m)),
        data.subrange(i + 4, i + 8) == enc_u32(141),
    ensures
        m is EnableRoomInvitations,
        i + server_req_frame(m).len() <= data.len(),
        server_req_frame(m).len() == 8 + server_req_payload(m).len(),
        data[i + 8] == (if m->EnableRoomInvitations_enable {
            1u8
        } else {
            0u8
        }),
        i + 8 + 1 == i + server_req_frame(m).len(),
{
    broadcast use crate::protocol::group_enc_facts;

    server_req_frame_parts(data, i, m);
    assert(m is EnableRoomInvitations);
    assert(server_req_payload(m) =~= enc_bool(m->EnableRoomInvitations_enable));
    split_bool(data, i + 8, m->EnableRoomInvitations_enable, Seq::<u8>::empty());
}

fn read_req_enableroominvitations_body(data: &Vec<u8>, pos: &mut usize, frame_end: usize, Ghost(start): Ghost<
    int,
>) -> (r: Result<ServerRequest, Error>)
    requires
        0 <= start,
        *old(pos) == start + 8,
        *old(pos) <= frame_end <= data@.len(),
        frame_end - start - 4 <= u32::MAX,
        data@.subrange(start, start + 4) == enc_u32((frame_end - start - 4) as u32),
        data@.subrange(start + 4, start + 8) == enc_u32(141),
    ensures
        *old(pos) <= *final(pos) <= data@.len(),
        forall|m: ServerRequest|
            wf_server_request(m) && frame_fits_u32(server_req_payload(m)) && #[trigger] prefix_at(
                data@,
                start,
                server_req_frame(m),
            ) ==> (r matches Ok(v) && server_req_eq(v, m) && *final(pos) == start
                + server_req_frame(m).len()),
{
    broadcast use crate::protocol::group_enc_facts;

    let ghost pstart = start + 8;
    let enable = match read_bool(data, pos) {
        Ok(v) => v,
        Err(e) => {
            proof {
            assert forall|m: ServerRequest| wf_server_request(m) && frame_fits_u32(server_req_payload(m)) && #[trigger] prefix_at(
                data@,
                start,
                server_req_frame(m),
            ) implies false by {
                req_enableroominvitations_parts(data@, start, m);
            }
        }
            return Err(e);
        },
    };
    let v = ServerRequest::EnableRoomInvitations { enable };
    proof {
            assert forall|m: ServerRequest| wf_server_request(m) && frame_fits_u32(server_req_payload(m)) && #[trigger] prefix_at(
                data@,
                start,
                server_req_frame(m),
            ) implies server_req_eq(v, m) && *pos == start + server_req_frame(m).len() by {
                req_enableroominvitations_parts(data@, start, m);
            }
        }
    Ok(v)
}

/// The parts of a `ChangePassword` frame at offset `i`.
proof fn req_changepassword_parts(data: Seq<u8>, i: int, m: ServerRequest)
    requires
        wf_server_request(m),
        frame_fits_u32(server_req_payload(m)),
        prefix_at(data, i, server_req_frame(m)),
        data.subrange(i + 4, i + 8) == enc_u32(142),
    ensures
        m is ChangePassword,
        i + server_req_frame(m).len() <= data.len(),
        server_req_frame(m).len() == 8 + server_req_payload(m).len(),
        data.subrange(i + 8, i + 8 + 4) == enc_u32(encode_utf8(m->ChangePassword_password@).len() as u32),
        data.subrange(i + 8 + 4, i + 8 + 4 + encode_utf8(m->ChangePassword_password@).len()) == encode_utf8(m->ChangePassword_password@),
        crate::protocol::str_starts_at(data, i + 8),
        i + 8 + enc_str(m->ChangePassword_password@).len() as int == i + server_req_frame(m).len(),
{
    broadcast use crate::protocol::group_enc_facts;

    server_req_frame_parts(data, i, m);
    assert(m is ChangePassword);
    assert(server_req_payload(m) =~= enc_str(m->ChangePassword_password@));
    split_str(data, i + 8, m->ChangePassword_password@, Seq::<u8>::empty());
}

fn read_req_changepassword_body(data: &Vec<u8>, pos: &mut usize, frame_end: usize, Ghost(start): Ghost<
    int,
>) -> (r: Result<ServerRequest, Error>)
    requires
        0 <= start,
        *old(pos) == start + 8,
        *old(pos) <= frame_end <= data@.len(),
        frame_end - start - 4 <= u32::MAX,
        data@.subrange(start, start + 4) == enc_u32((frame_end - start - 4) as u32),
        data@.subrange(start + 4, start + 8) == enc_u32(142),
    ensures
        *old(pos) <= *final(pos) <= data@.len(),
        forall|m: ServerRequest|
            wf_server_request(m) && frame_fits_u32(server_req_payload(m)) && #[trigger] prefix_at(
                data@,
                start,
                server_req_frame(m),
            ) ==> (r matches Ok(v) && server_req_eq(v, m) && *final(pos) == start
                + server_req_frame(m).len()),
{
    broadcast use crate::protocol::group_enc_facts;

    let ghost pstart = start + 8;
    let password = match read_string(data, pos) {
        Ok(v) => v,
        Err(e) => {
            proof {
            assert forall|m: ServerRequest| wf_server_request(m) && frame_fits_u32(server_req_payload(m)) && #[trigger] prefix_at(
                data@,
                start,
                server_req_frame(m),
            ) implies false by {
                req_changepassword_parts(data@, start, m);
            }
        }
            return Err(e);
        },
    };
    let v = ServerRequest::ChangePassword { password };
    proof {
            assert forall|m: ServerRequest| wf_server_request(m) && frame_fits_u32(server_req_payload(m)) && #[trigger] prefix_at(
                data@,
                start,
                server_req_frame(m),
            ) implies server_req_eq(v, m) && *pos == start + server_req_frame(m).len() by {
                req_changepassword_parts(data@, start, m);
                match_str_at(data@, pstart, password@, m->ChangePassword_password@);
            }
        }
    Ok(v)
}

/// The parts of a `AddRoomOperator` frame at offset `i`.
proof fn req_addroomoperator_parts(data: Seq<u8>, i: int, m: ServerRequest)
    requires
        wf_server_request(m),
        frame_fits_u32(server_req_payload(m)),
        prefix_at(data, i, server_req_frame(m)),
        data.subrange(i + 4, i + 8) == enc_u32(143),
    ensures
        m is AddRoomOperator,
        i + server_req_frame(m).len() <= data.len(),
        server_req_frame(m).len() == 8 + server_req_payload(m).len(),
        data.subrange(i + 8, i + 8 + 4) == enc_u32(encode_utf8(m->AddRoomOperator_room@).len() as u32),
        data.subrange(i + 8 + 4, i + 8 + 4 + encode_utf8(m->AddRoomOperator_room@).len()) == encode_utf8(m->AddRoomOperator_room@),
        crate::protocol::str_starts_at(data, i + 8),
        data.subrange(i + 8 + enc_str(m->AddRoomOperator_room@).len() as int, i + 8 + enc_str(m->AddRoomOperator_room@).len() as int + 4) == enc_u32(encode_utf8(m->AddRoomOperator_username@).len() as u32),
        data.subrange(i + 8 + enc_str(m->AddRoomOperator_room@).len() as int + 4, i + 8 + enc_str(m->AddRoomOperator_room@).len() as int + 4 + encode_utf8(m->AddRoomOperator_username@).len()) == encode_utf8(m->AddRoomOperator_username@),
        crate::protocol::str_starts_at(data, i + 8 + enc_str(m->AddRoomOperator_room@).len() as int),
        i + 8 + enc_str(m->AddRoomOperator_room@).len() as int + enc_str(m->AddRoomOperator_username@).len() as int == i + server_req_frame(m).len(),
{
    broadcast use crate::protocol::group_enc_facts;

    server_req_frame_parts(data, i, m);
    assert(m is AddRoomOperator);
    assert(server_req_payload(m) =~= enc_str(m->AddRoomOperator_room@) + (enc_str(m->AddRoomOperator_username@)));
    split_str(data, i + 8, m->AddRoomOperator_room@, enc_str(m->AddRoomOperator_username@));
    split_str(data, i + 8 + enc_str(m->AddRoomOperator_room@).len() as int, m->AddRoomOperator_username@, Seq::<u8>::empty());
}

fn read_req_addroomoperator_body(data: &Vec<u8>, pos: &mut usize, frame_end: usize, Ghost(start): Ghost<
    int,
>) -> (r: Result<ServerRequest, Error>)
    requires
        0 <= start,
        *old(pos) == start + 8,
        *old(pos) <= frame_end <= data@.len(),
        frame_end - start - 4 <= u32::MAX,
        data@.subrange(start, start + 4) == enc_u32((frame_end - start - 4) as u32),
        data@.subrange(start + 4, start + 8) == enc_u32(143),
    ensures
        *old(pos) <= *final(pos) <= data@.len(),
        forall|m: ServerRequest|
            wf_server_request(m) && frame_fits_u32(server_req_payload(m)) && #[trigger] prefix_at(
                data@,
                start,
                server_req_frame(m),
            ) ==> (r matches Ok(v) && server_req_eq(v, m) && *final(pos) == start
                + server_req_frame(m).len()),
{
    broadcast use crate::protocol::group_enc_facts;

    let ghost pstart = start + 8;
    let room = match read_string(data, pos) {
        Ok(v) => v,
        Err(e) => {
            proof {
            assert forall|m: ServerRequest| wf_server_request(m) && frame_fits_u32(server_req_payload(m)) && #[trigger] prefix_at(
                data@,
                start,
                server_req_frame(m),
            ) implies false by {
                req_addroomoperator_parts(data@, start, m);
            }
        }
            return Err(e);
        },
    };
    let username = match read_string(data, pos) {
        Ok(v) => v,
        Err(e) => {
            proof {
            assert forall|m: ServerRequest| wf_server_request(m) && frame_fits_u32(server_req_payload(m)) && #[trigger] prefix_at(
                data@,
                start,
                server_req_frame(m),
            ) implies false by {
                req_addroomoperator_parts(data@, start, m);
                match_str_at(data@, pstart, room@, m->AddRoomOperator_room@);
            }
        }
            return Err(e);
        },
    };
    let v = ServerRequest::AddRoomOperator { room, username };
    proof {
            assert forall|m: ServerRequest| wf_server_request(m) && frame_fits_u32(server_req_payload(m)) && #[trigger] prefix_at(
                data@,
                start,
                server_req_frame(m),
            ) implies server_req_eq(v, m) && *pos == start + server_req_frame(m).len() by {
                req_addroomoperator_parts(data@, start, m);
                match_str_at(data@, pstart, room@, m->AddRoomOperator_room@);
                match_str_at(data@, pstart + enc_str(m->AddRoomOperator_room@).len() as int, username@, m->AddRoomOperator_username@);
            }
        }
    Ok(v)
}

/// The parts of a `RemoveRoomOperator` frame at offset `i`.
proof fn req_removeroomoperator_parts(data: Seq<u8>, i: int, m: ServerRequest)
    requires
        wf_server_request(m),
        frame_fits_u32(server_req_payload(m)),
        prefix_at(data, i, server_req_frame(m)),
        data.subrange(i + 4, i + 8) == enc_u32(144),
    ensures
        m is RemoveRoomOperator,
        i + server_req_frame(m).len() <= data.len(),
        server_req_frame(m).len() == 8 + server_req_payload(m).len(),
        data.subrange(i + 8, i + 8 + 4) == enc_u32(encode_utf8(m->RemoveRoomOperator_room@).len() as u32),
        data.subrange(i + 8 + 4, i + 8 + 4 + encode_utf8(m->RemoveRoomOperator_room@).len()) == encode_utf8(m->RemoveRoomOperator_room@),
        crate::protocol::str_starts_at(data, i + 8),
        data.subrange(i + 8 + enc_str(m->RemoveRoomOperator_room@).len() as int, i + 8 + enc_str(m->RemoveRoomOperator_room@).len() as int + 4) == enc_u32(encode_utf8(m->RemoveRoomOperator_username@).len() as u32),
        data.subrange(i + 8 + enc_str(m->RemoveRoomOperator_room@).len() as int + 4, i + 8 + enc_str(m->RemoveRoomOperator_room@).len() as int + 4 + encode_utf8(m->RemoveRoomOperator_username@).len()) == encode_utf8(m->RemoveRoomOperator_username@),
        crate::protocol::str_starts_at(data, i + 8 + enc_str(m->RemoveRoomOperator_room@).len() as int),
        i + 8 + enc_str(m->RemoveRoomOperator_room@).len() as int + enc_str(m->RemoveRoomOperator_username@).len() as int == i + server_req_frame(m).len(),
{
    broadcast use crate::protocol::group_enc_facts;

    server_req_frame_parts(data, i, m);
    assert(m is RemoveRoomOperator);
    assert(server_req_payload(m) =~= enc_str(m->RemoveRoomOperator_room@) + (enc_str(m->RemoveRoomOperator_username@)));
    split_str(data, i + 8, m->RemoveRoomOperator_room@, enc_str(m->RemoveRoomOperator_username@));
    split_str(data, i + 8 + enc_str(m->RemoveRoomOperator_room@).len() as int, m->RemoveRoomOperator_username@, Seq::<u8>::empty());
}

fn read_req_removeroomoperator_body(data: &Vec<u8>, pos: &mut usize, frame_end: usize, Ghost(start): Ghost<
    int,
>) -> (r: Result<ServerRequest, Error>)
    requires
        0 <= start,
        *old(pos) == start + 8,
        *old(pos) <= frame_end <= data@.len(),
        frame_end - start - 4 <= u32::MAX,
        data@.subrange(start, start + 4) == enc_u32((frame_end - start - 4) as u32),
        data@.subrange(start + 4, start + 8) == enc_u32(144),
    ensures
        *old(pos) <= *final(pos) <= data@.len(),
        forall|m: ServerRequest|
            wf_server_request(m) && frame_fits_u32(server_req_payload(m)) && #[trigger] prefix_at(
                data@,
                start,
                server_req_frame(m),
            ) ==> (r matches Ok(v) && server_req_eq(v, m) && *final(pos) == start
                + server_req_frame(m).len()),
{
    broadcast use crate::protocol::group_enc_facts;

    let ghost pstart = start + 8;
    let room = match read_string(data, pos) {
        Ok(v) => v,
        Err(e) => {
            proof {
            assert forall|m: ServerRequest| wf_server_request(m) && frame_fits_u32(server_req_payload(m)) && #[trigger] prefix_at(
                data@,
                start,
                server_req_frame(m),
            ) implies false by {
                req_removeroomoperator_parts(data@, start, m);
            }
        }
            return Err(e);
        },
    };
    let username = match read_string(data, pos) {
        Ok(v) => v,
        Err(e) => {
            proof {
            assert forall|m: ServerRequest| wf_server_request(m) && frame_fits_u32(server_req_payload(m)) && #[trigger] prefix_at(
                data@,
                start,
                server_req_frame(m),
            ) implies false by {
                req_removeroomoperator_parts(data@, start, m);
                match_str_at(data@, pstart, room@, m->RemoveRoomOperator_room@);
            }
        }
            return Err(e);
        },
    };
    let v = ServerRequest::RemoveRoomOperator { room, username };
    proof {
            assert forall|m: ServerRequest| wf_server_request(m) && frame_fits_u32(server_req_payload(m)) && #[trigger] prefix_at(
                data@,
                start,
                server_req_frame(m),
            ) implies server_req_eq(v, m) && *pos == start + server_req_frame(m).len() by {
                req_removeroomoperator_parts(data@, start, m);
                match_str_at(data@, pstart, room@, m->RemoveRoomOperator_room@);
                match_str_at(data@, pstart + enc_str(m->RemoveRoomOperator_room@).len() as int, username@, m->RemoveRoomOperator_username@);
            }
        }
    Ok(v)
}

/// The parts of a `MessageUsers` frame at offset `i`.
proof fn req_messageusers_parts(data: Seq<u8>, i: int, m: ServerRequest)
    requires
        wf_server_request(m),
        frame_fits_u32(server_req_payload(m)),
        prefix_at(data, i, server_req_frame(m)),
        data.subrange(i + 4, i + 8) == enc_u32(149),
    ensures
        m is MessageUsers,
        i + server_req_frame(m).len() <= data.len(),
        server_req_frame(m).len() == 8 + server_req_payload(m).len(),
        prefix_at(data, i + 8, enc_string_list(m->MessageUsers_usernames@)),
        data.subrange(i + 8 + enc_string_list(m->MessageUsers_usernames@).len() as int, i + 8 + enc_string_list(m->MessageUsers_usernames@).len() as int + 4) == enc_u32(encode_utf8(m->MessageUsers_message@).len() as u32),
        data.subrange(i + 8 + enc_string_list(m->MessageUsers_usernames@).len() as int + 4, i + 8 + enc_string_list(m->MessageUsers_usernames@).len() as int + 4 + encode_utf8(m->MessageUsers_message@).len()) == encode_utf8(m->MessageUsers_message@),
        crate::protocol::str_starts_at(data, i + 8 + enc_string_list(m->MessageUsers_usernames@).len() as int),
        i + 8 + enc_string_list(m->MessageUsers_usernames@).len() as int + enc_str(m->MessageUsers_message@).len() as int == i + server_req_frame(m).len(),
{
    broadcast use crate::protocol::group_enc_facts;

    server_req_frame_parts(data, i, m);
    assert(m is MessageUsers);
    assert(server_req_payload(m) =~= enc_string_list(m->MessageUsers_usernames@) + (enc_str(m->MessageUsers_message@)));
    take_prefix_at(data, i + 8, i + 8 + (enc_string_list(m->MessageUsers_usernames@) + (enc_str(m->MessageUsers_message@))).len(), enc_string_list(m->MessageUsers_usernames@), enc_str(m->MessageUsers_message@));
    split_str(data, i + 8 + enc_string_list(m->MessageUsers_usernames@).len() as int, m->MessageUsers_message@, Seq::<u8>::empty());
}

fn read_req_messageusers_body(data: &Vec<u8>, pos: &mut usize, frame_end: usize, Ghost(start): Ghost<
    int,
>) -> (r: Result<ServerRequest, Error>)
    requires
        0 <= start,
        *old(pos) == start + 8,
        *old(pos) <= frame_end <= data@.len(),
        frame_end - start - 4 <= u32::MAX,
        data@.subrange(start, start + 4) == enc_u32((frame_end - start - 4) as u32),
        data@.subrange(start + 4, start + 8) == enc_u32(149),
    ensures
        *old(pos) <= *final(pos) <= data@.len(),
        forall|m: ServerRequest|
            wf_server_request(m) && frame_fits_u32(server_req_payload(m)) && #[trigger] prefix_at(
                data@,
                start,
                server_req_frame(m),
            ) ==> (r matches Ok(v) && server_req_eq(v, m) && *final(pos) == start
                + server_req_frame(m).len()),
{
    broadcast use crate::protocol::group_enc_facts;

    let ghost pstart = start + 8;
    let usernames = match read_string_list(data, pos) {
        Ok(v) => v,
        Err(e) => {
            proof {
            assert forall|m: ServerRequest| wf_server_request(m) && frame_fits_u32(server_req_payload(m)) && #[trigger] prefix_at(
                data@,
                start,
                server_req_frame(m),
            ) implies false by {
                req_messageusers_parts(data@, start, m);
            }
        }
            return Err(e);
        },
    };
    let message = match read_string(data, pos) {
        Ok(v) => v,
        Err(e) => {
            proof {
            assert forall|m: ServerRequest| wf_server_request(m) && frame_fits_u32(server_req_payload(m)) && #[trigger] prefix_at(
                data@,
                start,
                server_req_frame(m),
            ) implies false by {
                req_messageusers_parts(data@, start, m);
            }
        }
            return Err(e);
        },
    };
    let v = ServerRequest::MessageUsers { usernames, message };
    proof {
            assert forall|m: ServerRequest| wf_server_request(m) && frame_fits_u32(server_req_payload(m)) && #[trigger] prefix_at(
                data@,
                start,
                server_req_frame(m),
            ) implies server_req_eq(v, m) && *pos == start + server_req_frame(m).len() by {
                req_messageusers_parts(data@, start, m);
                match_str_at(data@, pstart + enc_string_list(m->MessageUsers_usernames@).len() as int, message@, m->MessageUsers_message@);
            }
        }
    Ok(v)
}

/// The parts of a `JoinGlobalRoom` frame at offset `i`.
proof fn req_joinglobalroom_parts(data: Seq<u8>, i: int, m: ServerRequest)
    requires
        wf_server_request(m),
        frame_fits_u32(server_req_payload(m)),
        prefix_at(data, i, server_req_frame(m)),
        data.subrange(i + 4, i + 8) == enc_u32(150),
    ensures
        m is JoinGlobalRoom,
        i + server_req_frame(m).len() <= data.len(),
        server_req_frame(m).len() == 8 + server_req_payload(m).len(),

        i + 8 == i + server_req_frame(m).len(),
{
    broadcast use crate::protocol::group_enc_facts;

    server_req_frame_parts(data, i, m);
    assert(m is JoinGlobalRoom);
}

fn read_req_joinglobalroom_body(data: &Vec<u8>, pos: &mut usize, frame_end: usize, Ghost(start): Ghost<
    int,
>) -> (r: Result<ServerRequest, Error>)
    requires
        0 <= start,
        *old(pos) == start + 8,
        *old(pos) <= frame_end <= data@.len(),
        frame_end - start - 4 <= u32::MAX,
        data@.subrange(start, start + 4) == enc_u32((frame_end - start - 4) as u32),
        data@.subrange(start + 4, start + 8) == enc_u32(150),
    ensures
        *old(pos) <= *final(pos) <= data@.len(),
        forall|m: ServerRequest|
            wf_server_request(m) && frame_fits_u32(server_req_payload(m)) && #[trigger] prefix_at(
                data@,
                start,
                server_req_frame(m),
            ) ==> (r matches Ok(v) && server_req_eq(v, m) && *final(pos) == start
                + server_req_frame(m).len()),
{
    broadcast use crate::protocol::group_enc_facts;

    let ghost pstart = start + 8;
    let v = ServerRequest::JoinGlobalRoom;
    proof {
            assert forall|m: ServerRequest| wf_server_request(m) && frame_fits_u32(server_req_payload(m)) && #[trigger] prefix_at(
                data@,
                start,
                server_req_frame(m),
            ) implies server_req_eq(v, m) && *pos == start + server_req_frame(m).len() by {
                req_joinglobalroom_parts(data@, start, m);
            }
        }
    Ok(v)
}

/// The parts of a `LeaveGlobalRoom` frame at offset `i`.
proof fn req_leaveglobalroom_parts(data: Seq<u8>, i: int, m: ServerRequest)
    requires
        wf_server_request(m),
        frame_fits_u32(server_req_payload(m)),
        prefix_at(data, i, server_req_frame(m)),
        data.subrange(i + 4, i + 8) == enc_u32(151),
    ensures
        m is LeaveGlobalRoom,
        i + server_req_frame(m).len() <= data.len(),
        server_req_frame(m).len() == 8 + server_req_payload(m).len(),

        i + 8 == i + server_req_frame(m).len(),
{
    broadcast use crate::protocol::group_enc_facts;

    server_req_frame_parts(data, i, m);
    assert(m is LeaveGlobalRoom);
}

fn read_req_leaveglobalroom_body(data: &Vec<u8>, pos: &mut usize, frame_end: usize, Ghost(start): Ghost<
    int,
>) -> (r: Result<ServerRequest, Error>)
    requires
        0 <= start,
        *old(pos) == start + 8,
        *old(pos) <= frame_end <= data@.len(),
        frame_end - start - 4 <= u32::MAX,
        data@.subrange(start, start + 4) == enc_u32((frame_end - start - 4) as u32),
        data@.subrange(start + 4, start + 8) == enc_u32(151),
    ensures
        *old(pos) <= *final(pos) <= data@.len(),
        forall|m: ServerRequest|
            wf_server_request(m) && frame_fits_u32(server_req_payload(m)) && #[trigger] prefix_at(
                data@,
                start,
                server_req_frame(m),
            ) ==> (r matches Ok(v) && server_req_eq(v, m) && *final(pos) == start
                + server_req_frame(m).len()),
{
    broadcast use crate::protocol::group_enc_facts;

    let ghost pstart = start + 8;
    let v = ServerRequest::LeaveGlobalRoom;
    proof {
            assert forall|m: ServerRequest| wf_server_request(m) && frame_fits_u32(server_req_payload(m)) && #[trigger] prefix_at(
                data@,
                start,
                server_req_frame(m),
            ) implies server_req_eq(v, m) && *pos == start + server_req_frame(m).len() by {
                req_leaveglobalroom_parts(data@, start, m);
            }
        }
    Ok(v)
}

/// The parts of a `CantConnectToPeer` frame at offset `i`.
proof fn req_cantconnecttopeer_parts(data: Seq<u8>, i: int, m: ServerRequest)
    requires
        wf_server_request(m),
        frame_fits_u32(server_req_payload(m)),
        prefix_at(data, i, server_req_frame(m)),
        data.subrange(i + 4, i + 8) == enc_u32(1001),
    ensures
        m is CantConnectToPeer,
        i + server_req_frame(m).len() <= data.len(),
        server_req_frame(m).len() == 8 + server_req_payload(m).len(),
        data.subrange(i + 8, i + 8 + 4) == enc_u32(m->CantConnectToPeer_token),
        data.subrange(i + 8 + 4, i + 8 + 4 + 4) == enc_u32(encode_utf8(m->CantConnectToPeer_username@).len() as u32),
        data.subrange(i + 8 + 4 + 4, i + 8 + 4 + 4 + encode_utf8(m->CantConnectToPeer_username@).len()) == encode_utf8(m->CantConnectToPeer_username@),
        crate::protocol::str_starts_at(data, i + 8 + 4),
        i + 8 + 4 + enc_str(m->CantConnectToPeer_username@).len() as int == i + server_req_frame(m).len(),
{
    broadcast use crate::protocol::group_enc_facts;

    server_req_frame_parts(data, i, m);
    assert(m is CantConnectToPeer);
    assert(server_req_payload(m) =~= enc_u32(m->CantConnectToPeer_token) + (enc_str(m->CantConnectToPeer_username@)));
    split_u32(data, i + 8, m->CantConnectToPeer_token, enc_str(m->CantConnectToPeer_username@));
    split_str(data, i + 8 + 4, m->CantConnectToPeer_username@, Seq::<u8>::empty());
}

fn read_req_cantconnecttopeer_body(data: &Vec<u8>, pos: &mut usize, frame_end: usize, Ghost(start): Ghost<
    int,
>) -> (r: Result<ServerRequest, Error>)
    requires
        0 <= start,
        *old(pos) == start + 8,
        *old(pos) <= frame_end <= data@.len(),
        frame_end - start - 4 <= u32::MAX,
        data@.subrange(start, start + 4) == enc_u32((frame_end - start - 4) as u32),
        data@.subrange(start + 4, start + 8) == enc_u32(1001),
    ensures
        *old(pos) <= *final(pos) <= data@.len(),
        forall|m: ServerRequest|
            wf_server_request(m) && frame_fits_u32(server_req_payload(m)) && #[trigger] prefix_at(
                data@,
                start,
                server_req_frame(m),
            ) ==> (r matches Ok(v) && server_req_eq(v, m) && *final(pos) == start
                + server_req_frame(m).len()),
{
    broadcast use crate::protocol::group_enc_facts;

    let ghost pstart = start + 8;
    let token = match read_u32(data, pos) {
        Ok(v) => v,
        Err(e) => {
            proof {
            assert forall|m: ServerRequest| wf_server_request(m) && frame_fits_u32(server_req_payload(m)) && #[trigger] prefix_at(
                data@,
                start,
                server_req_frame(m),
            ) implies false by {
                req_cantconnecttopeer_parts(data@, start, m);
            }
        }
            return Err(e);
        },
    };
    let username = match read_string(data, pos) {
        Ok(v) => v,
        Err(e) => {
            proof {
            assert forall|m: ServerRequest| wf_server_request(m) && frame_fits_u32(server_req_payload(m)) && #[trigger] prefix_at(
                data@,
                start,
                server_req_frame(m),
            ) implies false by {
                req_cantconnecttopeer_parts(data@, start, m);
            }
        }
            return Err(e);
        },
    };
    let v = ServerRequest::CantConnectToPeer { token, username };
    proof {
            assert forall|m: ServerRequest| wf_server_request(m) && frame_fits_u32(server_req_payload(m)) && #[trigger] prefix_at(
                data@,
                start,
                server_req_frame(m),
            ) implies server_req_eq(v, m) && *pos == start + server_req_frame(m).len() by {
                req_cantconnecttopeer_parts(data@, start, m);
                match_str_at(data@, pstart + 4, username@, m->CantConnectToPeer_username@);
            }
        }
    Ok(v)
}

/// The parts of a `Login` frame at offset `i`: the embedded hash string
/// fits because the whole payload fits the frame's length prefix.
proof fn req_login_parts(data: Seq<u8>, i: int, m: ServerRequest)
    requires
        wf_server_request(m),
        frame_fits_u32(server_req_payload(m)),
        prefix_at(data, i, server_req_frame(m)),
        data.subrange(i + 4, i + 8) == enc_u32(1),
    ensures
        m is Login,
        i + server_req_frame(m).len() <= data.len(),
        server_req_frame(m).len() == 8 + server_req_payload(m).len(),
        str_fits(login_hash_chars(m->Login_username@, m->Login_password@)),
        ({
            let u = m->Login_username@;
            let p = m->Login_password@;
            let h = login_hash_chars(u, p);
            let n1 = i + 8 + enc_str(u).len();
            let n2 = n1 + enc_str(p).len();
            let n3 = n2 + 4;
            let n4 = n3 + enc_str(h).len();
            &&& data.subrange(i + 8, i + 12) == enc_u32(encode_utf8(u).len() as u32)
            &&& data.subrange(i + 12, i + 8 + enc_str(u).len()) == encode_utf8(u)
            &&& crate::protocol::str_starts_at(data, i + 8)
            &&& data.subrange(n1, n1 + 4) == enc_u32(encode_utf8(p).len() as u32)
            &&& data.subrange(n1 + 4, n2) == encode_utf8(p)
            &&& crate::protocol::str_starts_at(data, n1)
            &&& data.subrange(n2, n3) == enc_u32(m->Login_version)
            &&& data.subrange(n3, n3 + 4) == enc_u32(encode_utf8(h).len() as u32)
            &&& data.subrange(n3 + 4, n4) == encode_utf8(h)
            &&& crate::protocol::str_starts_at(data, n3)
            &&& data.subrange(n4, n4 + 4) == enc_u32(m->Login_minor_version)
            &&& n4 + 4 == i + server_req_frame(m).len()
        }),
{
    broadcast use crate::protocol::group_enc_facts;

    server_req_frame_parts(data, i, m);
    assert(m is Login);
    let u = m->Login_username@;
    let p = m->Login_password@;
    let h = login_hash_chars(u, p);
    assert(server_req_payload(m) =~= enc_str(u) + (enc_str(p) + (enc_u32(m->Login_version) + (
    enc_str(h) + enc_u32(m->Login_minor_version)))));
    assert(str_fits(h)) by {
        assert(enc_str(h).len() <= server_req_payload(m).len());
    }
    split_str(data, i + 8, u, enc_str(p) + (enc_u32(m->Login_version) + (enc_str(h) + enc_u32(
        m->Login_minor_version,
    ))));
    let n1 = i + 8 + enc_str(u).len();
    split_str(data, n1, p, enc_u32(m->Login_version) + (enc_str(h) + enc_u32(
        m->Login_minor_version,
    )));
    let n2 = n1 + enc_str(p).len();
    split_u32(data, n2, m->Login_version, enc_str(h) + enc_u32(m->Login_minor_version));
    split_str(data, n2 + 4, h, enc_u32(m->Login_minor_version));
    split_u32(data, n2 + 4 + enc_str(h).len(), m->Login_minor_version, Seq::<u8>::empty());
}

#[verifier::rlimit(100)]
fn read_req_login_body(data: &Vec<u8>, pos: &mut usize, frame_end: usize, Ghost(start): Ghost<
    int,
>) -> (r: Result<ServerRequest, Error>)
    requires
        0 <= start,
        *old(pos) == start + 8,
        *old(pos) <= frame_end <= data@.len(),
        frame_end - start - 4 <= u32::MAX,
        data@.subrange(start, start + 4) == enc_u32((frame_end - start - 4) as u32),
        data@.subrange(start + 4, start + 8) == enc_u32(1),
    ensures
        *old(pos) <= *final(pos) <= data@.len(),
        forall|m: ServerRequest|
            wf_server_request(m) && frame_fits_u32(server_req_payload(m)) && #[trigger] prefix_at(
                data@,
                start,
                server_req_frame(m),
            ) ==> (r matches Ok(v) && server_req_eq(v, m) && *final(pos) == start
                + server_req_frame(m).len()),
{
    broadcast use crate::protocol::group_enc_facts;

    let ghost pstart = start + 8;
    let username = match read_string(data, pos) {
        Ok(v) => v,
        Err(e) => {
            proof {
            assert forall|m: ServerRequest| wf_server_request(m) && frame_fits_u32(server_req_payload(m)) && #[trigger] prefix_at(
                data@,
                start,
                server_req_frame(m),
            ) implies false by {
                req_login_parts(data@, start, m);
            }
        }
            return Err(e);
        },
    };
    let password = match read_string(data, pos) {
        Ok(v) => v,
        Err(e) => {
            proof {
            assert forall|m: ServerRequest| wf_server_request(m) && frame_fits_u32(server_req_payload(m)) && #[trigger] prefix_at(
                data@,
                start,
                server_req_frame(m),
            ) implies false by {
                req_login_parts(data@, start, m);
                match_str_at(data@, pstart, username@, m->Login_username@);
            }
        }
            return Err(e);
        },
    };
    let version = match read_u32(data, pos) {
        Ok(v) => v,
        Err(e) => {
            proof {
            assert forall|m: ServerRequest| wf_server_request(m) && frame_fits_u32(server_req_payload(m)) && #[trigger] prefix_at(
                data@,
                start,
                server_req_frame(m),
            ) implies false by {
                req_login_parts(data@, start, m);
                match_str_at(data@, pstart, username@, m->Login_username@);
                match_str_at(
                    data@,
                    pstart + enc_str(m->Login_username@).len(),
                    password@,
                    m->Login_password@,
                );
            }
        }
            return Err(e);
        },
    };
    // The embedded MD5 hash is read and discarded: it is derived from
    // the credentials and carried by no field.
    let hash_str = match read_string(data, pos) {
        Ok(v) => v,
        Err(e) => {
            proof {
            assert forall|m: ServerRequest| wf_server_request(m) && frame_fits_u32(server_req_payload(m)) && #[trigger] prefix_at(
                data@,
                start,
                server_req_frame(m),
            ) implies false by {
                req_login_parts(data@, start, m);
                match_str_at(data@, pstart, username@, m->Login_username@);
                match_str_at(
                    data@,
                    pstart + enc_str(m->Login_username@).len(),
                    password@,
                    m->Login_password@,
                );
            }
        }
            return Err(e);
        },
    };
    let minor_version = match read_u32(data, pos) {
        Ok(v) => v,
        Err(e) => {
            proof {
            assert forall|m: ServerRequest| wf_server_request(m) && frame_fits_u32(server_req_payload(m)) && #[trigger] prefix_at(
                data@,
                start,
                server_req_frame(m),
            ) implies false by {
                req_login_parts(data@, start, m);
                match_str_at(data@, pstart, username@, m->Login_username@);
                match_str_at(
                    data@,
                    pstart + enc_str(m->Login_username@).len(),
                    password@,
                    m->Login_password@,
                );
                match_str_at(
                    data@,
                    pstart + enc_str(m->Login_username@).len() + enc_str(
                        m->Login_password@,
                    ).len() + 4,
                    hash_str@,
                    login_hash_chars(m->Login_username@, m->Login_password@),
                );
            }
        }
            return Err(e);
        },
    };
    let v = ServerRequest::Login { username, password, version, minor_version };
    proof {
            assert forall|m: ServerRequest| wf_server_request(m) && frame_fits_u32(server_req_payload(m)) && #[trigger] prefix_at(
                data@,
                start,
                server_req_frame(m),
            ) implies server_req_eq(v, m) && *pos == start + server_req_frame(m).len() by {
                req_login_parts(data@, start, m);
                match_str_at(data@, pstart, username@, m->Login_username@);
                match_str_at(
                    data@,
                    pstart + enc_str(m->Login_username@).len(),
                    password@,
                    m->Login_password@,
                );
                match_str_at(
                    data@,
                    pstart + enc_str(m->Login_username@).len() + enc_str(
                        m->Login_password@,
                    ).len() + 4,
                    hash_str@,
                    login_hash_chars(m->Login_username@, m->Login_password@),
                );
            }
        }
    Ok(v)
}

/// The parts of a `SetWaitPort` frame at offset `i`.
proof fn req_setwaitport_parts(data: Seq<u8>, i: int, m: ServerRequest)
    requires
        wf_server_request(m),
        frame_fits_u32(server_req_payload(m)),
        prefix_at(data, i, server_req_frame(m)),
        data.subrange(i + 4, i + 8) == enc_u32(2),
    ensures
        m is SetWaitPort,
        i + server_req_frame(m).len() <= data.len(),
        server_req_frame(m).len() == 8 + server_req_payload(m).len(),
        data.subrange(i, i + 4) == enc_u32((4 + server_req_payload(m).len()) as u32),
        data.subrange(i + 8, i + 12) == enc_u32(m->SetWaitPort_port),
        match (m->SetWaitPort_obfuscation_type, m->SetWaitPort_obfuscated_port) {
            (Some(t), Some(p)) => {
                &&& data.subrange(i + 12, i + 16) == enc_u32(obfuscation_type_u32(t))
                &&& data.subrange(i + 16, i + 20) == enc_u32(p)
                &&& i + 20 == i + server_req_frame(m).len()
            },
            _ => m->SetWaitPort_obfuscation_type is None && m->SetWaitPort_obfuscated_port
                is None && i + 12 == i + server_req_frame(m).len(),
        },
{
    broadcast use crate::protocol::group_enc_facts;

    server_req_frame_parts(data, i, m);
    assert(m is SetWaitPort);
    match (m->SetWaitPort_obfuscation_type, m->SetWaitPort_obfuscated_port) {
        (Some(t), Some(p)) => {
            assert(server_req_payload(m) =~= enc_u32(m->SetWaitPort_port) + (enc_u32(
                obfuscation_type_u32(t),
            ) + enc_u32(p)));
            split_u32(data, i + 8, m->SetWaitPort_port, enc_u32(obfuscation_type_u32(t))
                + enc_u32(p));
            split_u32(data, i + 12, obfuscation_type_u32(t), enc_u32(p));
            split_u32(data, i + 16, p, Seq::<u8>::empty());
        },
        _ => {
            assert(server_req_payload(m) =~= enc_u32(m->SetWaitPort_port) + Seq::<u8>::empty());
            split_u32(data, i + 8, m->SetWaitPort_port, Seq::<u8>::empty());
        },
    }
}

#[verifier::rlimit(100)]
fn read_req_setwaitport_body(data: &Vec<u8>, pos: &mut usize, frame_end: usize, Ghost(start): Ghost<
    int,
>) -> (r: Result<ServerRequest, Error>)
    requires
        0 <= start,
        *old(pos) == start + 8,
        *old(pos) <= frame_end <= data@.len(),
        frame_end - start - 4 <= u32::MAX,
        data@.subrange(start, start + 4) == enc_u32((frame_end - start - 4) as u32),
        data@.subrange(start + 4, start + 8) == enc_u32(2),
    ensures
        *old(pos) <= *final(pos) <= data@.len(),
        forall|m: ServerRequest|
            wf_server_request(m) && frame_fits_u32(server_req_payload(m)) && #[trigger] prefix_at(
                data@,
                start,
                server_req_frame(m),
            ) ==> (r matches Ok(v) && server_req_eq(v, m) && *final(pos) == start
                + server_req_frame(m).len()),
{
    broadcast use crate::protocol::group_enc_facts;

    let ghost pstart = start + 8;
    let port = match read_u32(data, pos) {
        Ok(v) => v,
        Err(e) => {
            proof {
            assert forall|m: ServerRequest| wf_server_request(m) && frame_fits_u32(server_req_payload(m)) && #[trigger] prefix_at(
                data@,
                start,
                server_req_frame(m),
            ) implies false by {
                req_setwaitport_parts(data@, start, m);
                assert((frame_end - start - 4) as u32 == (4 + server_req_payload(m).len()) as u32);
                assert(frame_end - start - 4 == 4 + server_req_payload(m).len());
            }
        }
            return Err(e);
        },
    };
    let (obfuscation_type, obfuscated_port) = if *pos < frame_end {
        let obs_val = match read_u32(data, pos) {
            Ok(v) => v,
        Err(e) => {
            proof {
            assert forall|m: ServerRequest| wf_server_request(m) && frame_fits_u32(server_req_payload(m)) && #[trigger] prefix_at(
                data@,
                start,
                server_req_frame(m),
            ) implies false by {
                req_setwaitport_parts(data@, start, m);
                assert((frame_end - start - 4) as u32 == (4 + server_req_payload(m).len()) as u32);
                assert(frame_end - start - 4 == 4 + server_req_payload(m).len());
            }
        }
            return Err(e);
        },
        };
        let obs = match ObfuscationType::try_from(obs_val) {
            Ok(v) => v,
        Err(e) => {
            proof {
            assert forall|m: ServerRequest| wf_server_request(m) && frame_fits_u32(server_req_payload(m)) && #[trigger] prefix_at(
                data@,
                start,
                server_req_frame(m),
            ) implies false by {
                req_setwaitport_parts(data@, start, m);
                assert((frame_end - start - 4) as u32 == (4 + server_req_payload(m).len()) as u32);
                assert(frame_end - start - 4 == 4 + server_req_payload(m).len());
                match m->SetWaitPort_obfuscation_type {
                    Some(t) => {
                        assert(spec_obfuscation_type_from(obfuscation_type_u32(t)) == Some(t));
                    },
                    None => {},
                }
            }
        }
            return Err(e);
        },
        };
        let obs_port = match read_u32(data, pos) {
            Ok(v) => v,
        Err(e) => {
            proof {
            assert forall|m: ServerRequest| wf_server_request(m) && frame_fits_u32(server_req_payload(m)) && #[trigger] prefix_at(
                data@,
                start,
                server_req_frame(m),
            ) implies false by {
                req_setwaitport_parts(data@, start, m);
                assert((frame_end - start - 4) as u32 == (4 + server_req_payload(m).len()) as u32);
                assert(frame_end - start - 4 == 4 + server_req_payload(m).len());
                match m->SetWaitPort_obfuscation_type {
                    Some(t) => {
                        assert(spec_obfuscation_type_from(obfuscation_type_u32(t)) == Some(t));
                    },
                    None => {},
                }
            }
        }
            return Err(e);
        },
        };
        (Some(obs), Some(obs_port))
    } else {
        (None, None)
    };
    let v = ServerRequest::SetWaitPort { port, obfuscation_type, obfuscated_port };
    proof {
            assert forall|m: ServerRequest| wf_server_request(m) && frame_fits_u32(server_req_payload(m)) && #[trigger] prefix_at(
                data@,
                start,
                server_req_frame(m),
            ) implies server_req_eq(v, m) && *pos == start + server_req_frame(m).len() by {
                req_setwaitport_parts(data@, start, m);
                assert((frame_end - start - 4) as u32 == (4 + server_req_payload(m).len()) as u32);
                assert(frame_end - start - 4 == 4 + server_req_payload(m).len());
                match m->SetWaitPort_obfuscation_type {
                    Some(t) => {
                        assert(spec_obfuscation_type_from(obfuscation_type_u32(t)) == Some(t));
                    },
                    None => {},
                }
            }
        }
    Ok(v)
}

/// The parts of a `JoinRoom` frame at offset `i`.
proof fn req_joinroom_parts(data: Seq<u8>, i: int, m: ServerRequest)
    requires
        wf_server_request(m),
        frame_fits_u32(server_req_payload(m)),
        prefix_at(data, i, server_req_frame(m)),
        data.subrange(i + 4, i + 8) == enc_u32(14),
    ensures
        m is JoinRoom,
        i + server_req_frame(m).len() <= data.len(),
        server_req_frame(m).len() == 8 + server_req_payload(m).len(),
        data.subrange(i, i + 4) == enc_u32((4 + server_req_payload(m).len()) as u32),
        data.subrange(i + 8, i + 12) == enc_u32(encode_utf8(m->JoinRoom_room@).len() as u32),
        data.subrange(i + 12, i + 8 + enc_str(m->JoinRoom_room@).len()) == encode_utf8(
            m->JoinRoom_room@,
        ),
        crate::protocol::str_starts_at(data, i + 8),
        data.subrange(
            i + 8 + enc_str(m->JoinRoom_room@).len(),
            i + 12 + enc_str(m->JoinRoom_room@).len(),
        ) == enc_u32(
            if m->JoinRoom_private {
                1u32
            } else {
                0u32
            },
        ),
        i + 12 + enc_str(m->JoinRoom_room@).len() == i + server_req_frame(m).len(),
{
    broadcast use crate::protocol::group_enc_facts;

    server_req_frame_parts(data, i, m);
    assert(m is JoinRoom);
    let flag = if m->JoinRoom_private {
        1u32
    } else {
        0u32
    };
    assert(server_req_payload(m) =~= enc_str(m->JoinRoom_room@) + (enc_u32(flag)
        + Seq::<u8>::empty()));
    split_str(data, i + 8, m->JoinRoom_room@, enc_u32(flag) + Seq::<u8>::empty());
    split_u32(data, i + 8 + enc_str(m->JoinRoom_room@).len(), flag, Seq::<u8>::empty());
}

#[verifier::rlimit(60)]
fn read_req_joinroom_body(data: &Vec<u8>, pos: &mut usize, frame_end: usize, Ghost(start): Ghost<
    int,
>) -> (r: Result<ServerRequest, Error>)
    requires
        0 <= start,
        *old(pos) == start + 8,
        *old(pos) <= frame_end <= data@.len(),
        frame_end - start - 4 <= u32::MAX,
        data@.subrange(start, start + 4) == enc_u32((frame_end - start - 4) as u32),
        data@.subrange(start + 4, start + 8) == enc_u32(14),
    ensures
        *old(pos) <= *final(pos) <= data@.len(),
        forall|m: ServerRequest|
            wf_server_request(m) && frame_fits_u32(server_req_payload(m)) && #[trigger] prefix_at(
                data@,
                start,
                server_req_frame(m),
            ) ==> (r matches Ok(v) && server_req_eq(v, m) && *final(pos) == start
                + server_req_frame(m).len()),
{
    broadcast use crate::protocol::group_enc_facts;

    let ghost pstart = start + 8;
    let room = match read_string(data, pos) {
        Ok(v) => v,
        Err(e) => {
            proof {
            assert forall|m: ServerRequest| wf_server_request(m) && frame_fits_u32(server_req_payload(m)) && #[trigger] prefix_at(
                data@,
                start,
                server_req_frame(m),
            ) implies false by {
                req_joinroom_parts(data@, start, m);
                assert((frame_end - start - 4) as u32 == (4 + server_req_payload(m).len()) as u32);
                assert(frame_end - start - 4 == 4 + server_req_payload(m).len());
            }
        }
            return Err(e);
        },
    };
    let private = if *pos < frame_end {
        let flag = match read_u32(data, pos) {
            Ok(v) => v,
        Err(e) => {
            proof {
            assert forall|m: ServerRequest| wf_server_request(m) && frame_fits_u32(server_req_payload(m)) && #[trigger] prefix_at(
                data@,
                start,
                server_req_frame(m),
            ) implies false by {
                req_joinroom_parts(data@, start, m);
                assert((frame_end - start - 4) as u32 == (4 + server_req_payload(m).len()) as u32);
                assert(frame_end - start - 4 == 4 + server_req_payload(m).len());
                match_str_at(data@, pstart, room@, m->JoinRoom_room@);
            }
        }
            return Err(e);
        },
        };
        flag != 0
    } else {
        false
    };
    let v = ServerRequest::JoinRoom { room, private };
    proof {
            assert forall|m: ServerRequest| wf_server_request(m) && frame_fits_u32(server_req_payload(m)) && #[trigger] prefix_at(
                data@,
                start,
                server_req_frame(m),
            ) implies server_req_eq(v, m) && *pos == start + server_req_frame(m).len() by {
                req_joinroom_parts(data@, start, m);
                assert((frame_end - start - 4) as u32 == (4 + server_req_payload(m).len()) as u32);
                assert(frame_end - start - 4 == 4 + server_req_payload(m).len());
                match_str_at(data@, pstart, room@, m->JoinRoom_room@);
            }
        }
    Ok(v)
}

/// The parts of a `SetStatus` frame at offset `i`.
proof fn req_setstatus_parts(data: Seq<u8>, i: int, m: ServerRequest)
    requires
        wf_server_request(m),
        frame_fits_u32(server_req_payload(m)),
        prefix_at(data, i, server_req_frame(m)),
        data.subrange(i + 4, i + 8) == enc_u32(28),
    ensures
        m is SetStatus,
        i + server_req_frame(m).len() <= data.len(),
        server_req_frame(m).len() == 12,
        data.subrange(i + 8, i + 12) == enc_u32(user_status_u32(m->SetStatus_status)),
        spec_user_status_from(user_status_u32(m->SetStatus_status)) == Some(m->SetStatus_status),
{
    broadcast use crate::protocol::group_enc_facts;

    server_req_frame_parts(data, i, m);
    assert(m is SetStatus);
    assert(server_req_payload(m) =~= enc_u32(user_status_u32(m->SetStatus_status))
        + Seq::<u8>::empty());
    split_u32(data, i + 8, user_status_u32(m->SetStatus_status), Seq::<u8>::empty());
}

#[verifier::rlimit(60)]
fn read_req_setstatus_body(data: &Vec<u8>, pos: &mut usize, frame_end: usize, Ghost(start): Ghost<
    int,
>) -> (r: Result<ServerRequest, Error>)
    requires
        0 <= start,
        *old(pos) == start + 8,
        *old(pos) <= frame_end <= data@.len(),
        frame_end - start - 4 <= u32::MAX,
        data@.subrange(start, start + 4) == enc_u32((frame_end - start - 4) as u32),
        data@.subrange(start + 4, start + 8) == enc_u32(28),
    ensures
        *old(pos) <= *final(pos) <= data@.len(),
        forall|m: ServerRequest|
            wf_server_request(m) && frame_fits_u32(server_req_payload(m)) && #[trigger] prefix_at(
                data@,
                start,
                server_req_frame(m),
            ) ==> (r matches Ok(v) && server_req_eq(v, m) && *final(pos) == start
                + server_req_frame(m).len()),
{
    broadcast use crate::protocol::group_enc_facts;

    let ghost pstart = start + 8;
    let status_val = match read_i32(data, pos) {
        Ok(v) => v,
        Err(e) => {
            proof {
            assert forall|m: ServerRequest| wf_server_request(m) && frame_fits_u32(server_req_payload(m)) && #[trigger] prefix_at(
                data@,
                start,
                server_req_frame(m),
            ) implies false by {
                req_setstatus_parts(data@, start, m);
            }
        }
            return Err(e);
        },
    };
    #[verifier::truncate]
    let as_unsigned: u32 = status_val as u32;
    proof {
        assert((status_val as u32) as i32 == status_val) by (bit_vector);
    }
    let status = match UserStatus::try_from(as_unsigned) {
        Ok(v) => v,
        Err(e) => {
            proof {
            assert forall|m: ServerRequest| wf_server_request(m) && frame_fits_u32(server_req_payload(m)) && #[trigger] prefix_at(
                data@,
                start,
                server_req_frame(m),
            ) implies false by {
                req_setstatus_parts(data@, start, m);
                crate::protocol::enc_u32_injective(as_unsigned, user_status_u32(
                    m->SetStatus_status,
                ));
            }
        }
            return Err(e);
        },
    };
    let v = ServerRequest::SetStatus { status };
    proof {
            assert forall|m: ServerRequest| wf_server_request(m) && frame_fits_u32(server_req_payload(m)) && #[trigger] prefix_at(
                data@,
                start,
                server_req_frame(m),
            ) implies server_req_eq(v, m) && *pos == start + server_req_frame(m).len() by {
                req_setstatus_parts(data@, start, m);
                crate::protocol::enc_u32_injective(as_unsigned, user_status_u32(
                    m->SetStatus_status,
                ));
            }
        }
    Ok(v)
}

/// Reads one framed client request: the `u32` length prefix, the `u32`
/// code, and the payload. Decoding inverts `write_server_request` for
/// every request kind, and a frame carrying an unknown code fails with
/// that code, so the channel can skip the frame and go on.
pub fn read_server_request(data: &Vec<u8>, pos: &mut usize) -> (r: Result<ServerRequest, Error>)
    requires
        *old(pos) <= data@.len(),
    ensures
        *old(pos) <= *final(pos) <= data@.len(),
        forall|m: ServerRequest|
            wf_server_request(m) && frame_fits_u32(server_req_payload(m)) && #[trigger] prefix_at(
                data@,
                *old(pos) as int,
                server_req_frame(m),
            ) ==> (r matches Ok(v) && server_req_eq(v, m) && *final(pos) == *old(pos)
                + server_req_frame(m).len()),
        ({
            let i = *old(pos) as int;
            let declared_len = spec_u32_from_le_bytes(data@.subrange(i, i + 4));
            let code = spec_u32_from_le_bytes(data@.subrange(i + 4, i + 8));
            (i + 8 <= data@.len() && 4 <= declared_len && declared_len <= data@.len() - i - 4
                && spec_server_code_from(code) is None) ==> r == Err::<ServerRequest, Error>(
                Error::InvalidMessageCode(code),
            )
        }),
{
    broadcast use crate::protocol::group_enc_facts;

    let ghost start = *pos as int;
    let declared = match read_u32(data, pos) {
        Ok(v) => v,
        Err(e) => {
            proof {
                assert forall|m: ServerRequest|
                    wf_server_request(m) && frame_fits_u32(server_req_payload(m))
                        && #[trigger] prefix_at(data@, start, server_req_frame(m)) implies false by {
                    server_req_frame_parts(data@, start, m);
                }
            }
            return Err(e);
        },
    };
    if declared < 4 {
        proof {
            assert forall|m: ServerRequest|
                wf_server_request(m) && frame_fits_u32(server_req_payload(m))
                    && #[trigger] prefix_at(data@, start, server_req_frame(m)) implies false by {
                server_req_frame_parts(data@, start, m);
            }
        }
        return Err(Error::Protocol(String::from_str("declared length shorter than the code")));
    }
    if declared as usize > data.len() - *pos {
        proof {
            assert forall|m: ServerRequest|
                wf_server_request(m) && frame_fits_u32(server_req_payload(m))
                    && #[trigger] prefix_at(data@, start, server_req_frame(m)) implies false by {
                server_req_frame_parts(data@, start, m);
            }
        }
        return Err(
            Error::BufferUnderflow { needed: declared as usize, available: data.len() - *pos },
        );
    }
    let frame_end = *pos + declared as usize;
    let code_val = match read_u32(data, pos) {
        Ok(v) => v,
        Err(e) => {
            proof {
                assert(false);
            }
            return Err(e);
        },
    };
    proof {
        assert(spec_u32_from_le_bytes(data@.subrange(start, start + 4)) == declared);
        assert(spec_u32_from_le_bytes(data@.subrange(start + 4, start + 8)) == code_val);
    }
    if code_val == 1 {
        read_req_login_body(data, pos, frame_end, Ghost(start))
    } else if code_val == 2 {
        read_req_setwaitport_body(data, pos, frame_end, Ghost(start))
    } else if code_val == 3 {
        read_req_getpeeraddress_body(data, pos, frame_end, Ghost(start))
    } else if code_val == 5 {
        read_req_watchuser_body(data, pos, frame_end, Ghost(start))
    } else if code_val == 6 {
        read_req_unwatchuser_body(data, pos, frame_end, Ghost(start))
    } else if code_val == 7 {
        read_req_getuserstatus_body(data, pos, frame_end, Ghost(start))
    } else if code_val == 13 {
        read_req_saychatroom_body(data, pos, frame_end, Ghost(start))
    } else if code_val == 14 {
        read_req_joinroom_body(data, pos, frame_end, Ghost(start))
    } else if code_val == 15 {
        read_req_leaveroom_body(data, pos, frame_end, Ghost(start))
    } else if code_val == 18 {
        read_req_connecttopeer_body(data, pos, frame_end, Ghost(start))
    } else if code_val == 22 {
        read_req_messageuser_body(data, pos, frame_end, Ghost(start))
    } else if code_val == 23 {
        read_req_messageacked_body(data, pos, frame_end, Ghost(start))
    } else if code_val == 26 {
        read_req_filesearch_body(data, pos, frame_end, Ghost(start))
    } else if code_val == 28 {
        read_req_setstatus_body(data, pos, frame_end, Ghost(start))
    } else if code_val == 32 {
        read_req_serverping_body(data, pos, frame_end, Ghost(start))
    } else if code_val == 35 {
        read_req_sharedfoldersfiles_body(data, pos, frame_end, Ghost(start))
    } else if code_val == 36 {
        read_req_getuserstats_body(data, pos, frame_end, Ghost(start))
    } else if code_val == 42 {
        read_req_usersearch_body(data, pos, frame_end, Ghost(start))
    } else if code_val == 51 {
        read_req_interestadd_body(data, pos, frame_end, Ghost(start))
    } else if code_val == 52 {
        read_req_interestremove_body(data, pos, frame_end, Ghost(start))
    } else if code_val == 54 {
        read_req_getrecommendations_body(data, pos, frame_end, Ghost(start))
    } else if code_val == 56 {
        read_req_getglobalrecommendations_body(data, pos, frame_end, Ghost(start))
    } else if code_val == 57 {
        read_req_getuserinterests_body(data, pos, frame_end, Ghost(start))
    } else if code_val == 64 {
        read_req_roomlist_body(data, pos, frame_end, Ghost(start))
    } else if code_val == 71 {
        read_req_havenoparent_body(data, pos, frame_end, Ghost(start))
    } else if code_val == 92 {
        read_req_checkprivileges_body(data, pos, frame_end, Ghost(start))
    } else if code_val == 100 {
        read_req_acceptchildren_body(data, pos, frame_end, Ghost(start))
    } else if code_val == 103 {
        read_req_wishlistsearch_body(data, pos, frame_end, Ghost(start))
    } else if code_val == 110 {
        read_req_getsimilarusers_body(data, pos, frame_end, Ghost(start))
    } else if code_val == 111 {
        read_req_getitemrecommendations_body(data, pos, frame_end, Ghost(start))
    } else if code_val == 112 {
        read_req_getitemsimilarusers_body(data, pos, frame_end, Ghost(start))
    } else if code_val == 116 {
        read_req_roomtickerset_body(data, pos, frame_end, Ghost(start))
    } else if code_val == 117 {
        read_req_hatedinterestadd_body(data, pos, frame_end, Ghost(start))
    } else if code_val == 118 {
        read_req_hatedinterestremove_body(data, pos, frame_end, Ghost(start))
    } else if code_val == 120 {
        read_req_roomsearch_body(data, pos, frame_end, Ghost(start))
    } else if code_val == 121 {
        read_req_senduploadspeed_body(data, pos, frame_end, Ghost(start))
    } else if code_val == 123 {
        read_req_giveprivileges_body(data, pos, frame_end, Ghost(start))
    } else if code_val == 126 {
        read_req_branchlevel_body(data, pos, frame_end, Ghost(start))
    } else if code_val == 127 {
        read_req_branchroot_body(data, pos, frame_end, Ghost(start))
    } else if code_val == 134 {
        read_req_addroommember_body(data, pos, frame_end, Ghost(start))
    } else if code_val == 135 {
        read_req_removeroommember_body(data, pos, frame_end, Ghost(start))
    } else if code_val == 136 {
        read_req_cancelroommembership_body(data, pos, frame_end, Ghost(start))
    } else if code_val == 137 {
        read_req_cancelroomownership_body(data, pos, frame_end, Ghost(start))
    } else if code_val == 141 {
        read_req_enableroominvitations_body(data, pos, frame_end, Ghost(start))
    } else if code_val == 142 {
        read_req_changepassword_body(data, pos, frame_end, Ghost(start))
    } else if code_val == 143 {
        read_req_addroomoperator_body(data, pos, frame_end, Ghost(start))
    } else if code_val == 144 {
        read_req_removeroomoperator_body(data, pos, frame_end, Ghost(start))
    } else if code_val == 149 {
        read_req_messageusers_body(data, pos, frame_end, Ghost(start))
    } else if code_val == 150 {
        read_req_joinglobalroom_body(data, pos, frame_end, Ghost(start))
    } else if code_val == 151 {
        read_req_leaveglobalroom_body(data, pos, frame_end, Ghost(start))
    } else if code_val == 1001 {
        read_req_cantconnecttopeer_body(data, pos, frame_end, Ghost(start))
    } else {
        let r = match ServerCode::try_from(code_val) {
            Ok(_) => Err(
                Error::Protocol(String::from_str("code is response-only, not expected in a request")),
            ),
            Err(e) => Err(e),
        };
        proof {
            assert forall|m: ServerRequest|
                wf_server_request(m) && frame_fits_u32(server_req_payload(m)) && #[trigger] prefix_at(
                    data@,
                    start,
                    server_req_frame(m),
                ) implies false by {
                server_req_frame_parts(data@, start, m);
                assert(server_code_u32(server_req_code(m)) == code_val);
            }
        }
        r
    }
}



/// Appends a `JoinRoom` reply body: the room, the five parallel lists
/// projected from the users, and the private-room owner block.
#[verifier::rlimit(100)]
fn write_join_room_body(
    room: &String,
    users: &Vec<RoomUser>,
    owner: &Option<String>,
    operators: &Vec<String>,
    out: &mut Vec<u8>,
)
    requires
        str_fits(room@),
        users@.len() <= u32::MAX,
        forall|k: int|
            0 <= k < users@.len() ==> str_fits((#[trigger] users@[k]).username@) && str_fits(
                users@[k].country_code@,
            ),
        match owner {
            Some(o) => str_fits(o@),
            None => operators@.len() == 0,
        },
        wf_string_seq(operators@) && operators@.len() <= u32::MAX,
    ensures
        final(out)@ == old(out)@ + (enc_str(room@) + (enc_user_name_list(users@) + (
        enc_user_status_list(users@) + (enc_user_stats_list(users@) + (enc_user_slots_list(users@)
            + (enc_user_country_list(users@) + (match owner {
            Some(o) => enc_str(o@) + enc_string_list(operators@),
            None => Seq::<u8>::empty(),
        }))))))),
{
    write_str(out, room.as_str());
    write_user_name_list(out, users);
    write_user_status_list(out, users);
    write_user_stats_list(out, users);
    write_user_slots_list(out, users);
    write_user_country_list(out, users);
    match owner {
        Some(o) => {
            write_str(out, o.as_str());
            write_string_list(out, operators);
        },
        None => {},
    }
    proof {
        assert(out@ =~= old(out)@ + (enc_str(room@) + (enc_user_name_list(users@) + (
        enc_user_status_list(users@) + (enc_user_stats_list(users@) + (enc_user_slots_list(users@)
            + (enc_user_country_list(users@) + (match owner {
            Some(o) => enc_str(o@) + enc_string_list(operators@),
            None => Seq::<u8>::empty(),
        }))))))));
    }
}

/// Appends a `RoomList` reply body: each tier's names and counts as two
/// parallel lists, then the operated rooms.
fn write_room_list_body(
    rooms: &Vec<(String, u32)>,
    owned_private_rooms: &Vec<(String, u32)>,
    private_rooms: &Vec<(String, u32)>,
    operated_private_rooms: &Vec<String>,
    out: &mut Vec<u8>,
)
    requires
        rooms@.len() <= u32::MAX,
        forall|k: int| 0 <= k < rooms@.len() ==> str_fits((#[trigger] rooms@[k]).0@),
        owned_private_rooms@.len() <= u32::MAX,
        forall|k: int|
            0 <= k < owned_private_rooms@.len() ==> str_fits(
                (#[trigger] owned_private_rooms@[k]).0@,
            ),
        private_rooms@.len() <= u32::MAX,
        forall|k: int| 0 <= k < private_rooms@.len() ==> str_fits((#[trigger] private_rooms@[k]).0@),
        wf_string_seq(operated_private_rooms@) && operated_private_rooms@.len() <= u32::MAX,
    ensures
        final(out)@ == old(out)@ + (enc_room_name_list(rooms@) + (enc_room_count_list(rooms@) + (
        enc_room_name_list(owned_private_rooms@) + (enc_room_count_list(owned_private_rooms@) + (
        enc_room_name_list(private_rooms@) + (enc_room_count_list(private_rooms@)
            + enc_string_list(operated_private_rooms@))))))),
{
    write_room_name_list(out, rooms);
    write_room_count_list(out, rooms);
    write_room_name_list(out, owned_private_rooms);
    write_room_count_list(out, owned_private_rooms);
    write_room_name_list(out, private_rooms);
    write_room_count_list(out, private_rooms);
    write_string_list(out, operated_private_rooms);
    proof {
        assert(out@ =~= old(out)@ + (enc_room_name_list(rooms@) + (enc_room_count_list(rooms@) + (
        enc_room_name_list(owned_private_rooms@) + (enc_room_count_list(owned_private_rooms@) + (
        enc_room_name_list(private_rooms@) + (enc_room_count_list(private_rooms@)
            + enc_string_list(operated_private_rooms@))))))));
    }
}

/// Appends the payload of the remaining response kinds; the first
/// group is handled by `write_server_response_payload` itself.
#[verifier::rlimit(100)]
fn write_server_response_payload_upper(msg: &ServerResponse, out: &mut Vec<u8>)
    requires
        wf_server_response(*msg),
        !(msg is LoginSuccess) && !(msg is LoginFailure) && !(msg is GetPeerAddress) && !(msg is ConnectToPeer) && !(msg is FileSearch) && !(msg is CantConnectToPeer) && !(msg is WatchUser) && !(msg is GetUserStatus) && !(msg is SayChatroom) && !(msg is JoinRoom) && !(msg is LeaveRoom) && !(msg is UserJoinedRoom) && !(msg is UserLeftRoom) && !(msg is MessageUser) && !(msg is GetUserStats) && !(msg is Recommendations) && !(msg is GlobalRecommendations) && !(msg is UserInterests) && !(msg is RoomList) && !(msg is AdminMessage) && !(msg is PrivilegedUsers) && !(msg is ParentMinSpeed) && !(msg is ParentSpeedRatio) && !(msg is CheckPrivileges) && !(msg is Relogged),
    ensures
        final(out)@ == old(out)@ + server_resp_payload(*msg),
{
    match msg {
        ServerResponse::EmbeddedMessage { code, data } => {
            write_u8(out, *code);
            write_raw(out, data);
            proof {
                assert(out@ =~= old(out)@ + server_resp_payload(*msg));
            }
        },
        ServerResponse::PossibleParents { parents } => {
            write_parent_list(out, parents);
            proof {
                assert(out@ =~= old(out)@ + server_resp_payload(*msg));
            }
        },
        ServerResponse::WishlistInterval { interval } => {
            write_u32(out, *interval);
            proof {
                assert(out@ =~= old(out)@ + server_resp_payload(*msg));
            }
        },
        ServerResponse::SimilarUsers { users } => {
            write_su_pair_list(out, users);
            proof {
                assert(out@ =~= old(out)@ + server_resp_payload(*msg));
            }
        },
        ServerResponse::ItemRecommendations { item, recommendations } => {
            write_str(out, item.as_str());
            write_si_pair_list(out, recommendations);
            proof {
                assert(out@ =~= old(out)@ + server_resp_payload(*msg));
            }
        },
        ServerResponse::ItemSimilarUsers { item, users } => {
            write_str(out, item.as_str());
            write_string_list(out, users);
            proof {
                assert(out@ =~= old(out)@ + server_resp_payload(*msg));
            }
        },
        ServerResponse::RoomTickerState { room, tickers } => {
            write_str(out, room.as_str());
            write_ticker_list(out, tickers);
            proof {
                assert(out@ =~= old(out)@ + server_resp_payload(*msg));
            }
        },
        ServerResponse::RoomTickerAdd { room, username, ticker } => {
            write_str(out, room.as_str());
            write_str(out, username.as_str());
            write_str(out, ticker.as_str());
            proof {
                assert(out@ =~= old(out)@ + server_resp_payload(*msg));
            }
        },
        ServerResponse::RoomTickerRemove { room, username } => {
            write_str(out, room.as_str());
            write_str(out, username.as_str());
            proof {
                assert(out@ =~= old(out)@ + server_resp_payload(*msg));
            }
        },
        ServerResponse::EnableRoomInvitations { enable } => {
            write_bool(out, *enable);
            proof {
                assert(out@ =~= old(out)@ + server_resp_payload(*msg));
            }
        },
        ServerResponse::ChangePassword { password } => {
            write_str(out, password.as_str());
            proof {
                assert(out@ =~= old(out)@ + server_resp_payload(*msg));
            }
        },
        ServerResponse::AddRoomOperator { room, username } => {
            write_str(out, room.as_str());
            write_str(out, username.as_str());
            proof {
                assert(out@ =~= old(out)@ + server_resp_payload(*msg));
            }
        },
        ServerResponse::RemoveRoomOperator { room, username } => {
            write_str(out, room.as_str());
            write_str(out, username.as_str());
            proof {
                assert(out@ =~= old(out)@ + server_resp_payload(*msg));
            }
        },
        ServerResponse::RoomOperatorshipGranted { room } => {
            write_str(out, room.as_str());
            proof {
                assert(out@ =~= old(out)@ + server_resp_payload(*msg));
            }
        },
        ServerResponse::RoomOperatorshipRevoked { room } => {
            write_str(out, room.as_str());
            proof {
                assert(out@ =~= old(out)@ + server_resp_payload(*msg));
            }
        },
        ServerResponse::RoomOperators { room, operators } => {
            write_str(out, room.as_str());
            write_string_list(out, operators);
            proof {
                assert(out@ =~= old(out)@ + server_resp_payload(*msg));
            }
        },
        ServerResponse::RoomMembershipGranted { room } => {
            write_str(out, room.as_str());
            proof {
                assert(out@ =~= old(out)@ + server_resp_payload(*msg));
            }
        },
        ServerResponse::RoomMembershipRevoked { room } => {
            write_str(out, room.as_str());
            proof {
                assert(out@ =~= old(out)@ + server_resp_payload(*msg));
            }
        },
        ServerResponse::RoomMembers { room, members } => {
            write_str(out, room.as_str());
            write_string_list(out, members);
            proof {
                assert(out@ =~= old(out)@ + server_resp_payload(*msg));
            }
        },
        ServerResponse::AddRoomMember { room, username } => {
            write_str(out, room.as_str());
            write_str(out, username.as_str());
            proof {
                assert(out@ =~= old(out)@ + server_resp_payload(*msg));
            }
        },
        ServerResponse::RemoveRoomMember { room, username } => {
            write_str(out, room.as_str());
            write_str(out, username.as_str());
            proof {
                assert(out@ =~= old(out)@ + server_resp_payload(*msg));
            }
        },
        ServerResponse::GlobalRoomMessage { room, username, message } => {
            write_str(out, room.as_str());
            write_str(out, username.as_str());
            write_str(out, message.as_str());
            proof {
                assert(out@ =~= old(out)@ + server_resp_payload(*msg));
            }
        },
        ServerResponse::ExcludedSearchPhrases { phrases } => {
            write_string_list(out, phrases);
            proof {
                assert(out@ =~= old(out)@ + server_resp_payload(*msg));
            }
        },
        ServerResponse::CantCreateRoom { room } => {
            write_str(out, room.as_str());
            proof {
                assert(out@ =~= old(out)@ + server_resp_payload(*msg));
            }
        },
        ServerResponse::ResetDistributed => {
            proof {
                assert(out@ =~= old(out)@ + server_resp_payload(*msg));
            }
        },
        _ => {
            proof {
                assert(false);
            }
        },
    }
}

/// Appends the payload of the room and profile response kinds; the
/// connection-brokering kinds are handled by the caller and the rest by
/// `write_server_response_payload_upper`.
#[verifier::rlimit(100)]
fn write_server_response_payload_middle(msg: &ServerResponse, out: &mut Vec<u8>)
    requires
        wf_server_response(*msg),
        !(msg is LoginSuccess) && !(msg is LoginFailure) && !(msg is GetPeerAddress) && !(msg is ConnectToPeer) && !(msg is FileSearch) && !(msg is CantConnectToPeer) && !(msg is Relogged),
    ensures
        final(out)@ == old(out)@ + server_resp_payload(*msg),
{
    match msg {
        ServerResponse::WatchUser { username, exists, status, stats, country_code } => {
            write_str(out, username.as_str());
            write_bool(out, *exists);
            if *exists {
                match status {
                    Some(st) => {
                        write_u32(out, st.as_u32());
                    },
                    None => {},
                }
                match stats {
                    Some(st) => {
                        st.write_to(out);
                    },
                    None => {},
                }
                match country_code {
                    Some(c) => {
                        write_str(out, c.as_str());
                    },
                    None => {},
                }
            }
            proof {
                assert(out@ =~= old(out)@ + server_resp_payload(*msg));
            }
        },
        ServerResponse::GetUserStatus { username, status, privileged } => {
            write_str(out, username.as_str());
            write_u32(out, status.as_u32());
            write_bool(out, *privileged);
            proof {
                assert(out@ =~= old(out)@ + server_resp_payload(*msg));
            }
        },
        ServerResponse::SayChatroom { room, username, message } => {
            write_str(out, room.as_str());
            write_str(out, username.as_str());
            write_str(out, message.as_str());
            proof {
                assert(out@ =~= old(out)@ + server_resp_payload(*msg));
            }
        },
        ServerResponse::JoinRoom { room, users, owner, operators } => {
            write_join_room_body(room, users, owner, operators, out);
            proof {
                assert(out@ =~= old(out)@ + server_resp_payload(*msg));
            }
        },
        ServerResponse::LeaveRoom { room } => {
            write_str(out, room.as_str());
            proof {
                assert(out@ =~= old(out)@ + server_resp_payload(*msg));
            }
        },
        ServerResponse::UserJoinedRoom { room, username, status, stats, slots_full, country_code } => {
            write_str(out, room.as_str());
            write_str(out, username.as_str());
            write_u32(out, status.as_u32());
            stats.write_to(out);
            write_u32(
                out,
                if *slots_full {
                    1
                } else {
                    0
                },
            );
            write_str(out, country_code.as_str());
            proof {
                assert(out@ =~= old(out)@ + server_resp_payload(*msg));
            }
        },
        ServerResponse::UserLeftRoom { room, username } => {
            write_str(out, room.as_str());
            write_str(out, username.as_str());
            proof {
                assert(out@ =~= old(out)@ + server_resp_payload(*msg));
            }
        },
        ServerResponse::MessageUser { id, timestamp, username, message, new_message } => {
            write_u32(out, *id);
            write_u32(out, *timestamp);
            write_str(out, username.as_str());
            write_str(out, message.as_str());
            write_bool(out, *new_message);
            proof {
                assert(out@ =~= old(out)@ + server_resp_payload(*msg));
            }
        },
        ServerResponse::GetUserStats { username, stats } => {
            write_str(out, username.as_str());
            stats.write_to(out);
            proof {
                assert(out@ =~= old(out)@ + server_resp_payload(*msg));
            }
        },
        ServerResponse::Recommendations { recommendations, unrecommendations } => {
            write_si_pair_list(out, recommendations);
            write_si_pair_list(out, unrecommendations);
            proof {
                assert(out@ =~= old(out)@ + server_resp_payload(*msg));
            }
        },
        ServerResponse::GlobalRecommendations { recommendations, unrecommendations } => {
            write_si_pair_list(out, recommendations);
            write_si_pair_list(out, unrecommendations);
            proof {
                assert(out@ =~= old(out)@ + server_resp_payload(*msg));
            }
        },
        ServerResponse::UserInterests { username, likes, hates } => {
            write_str(out, username.as_str());
            write_string_list(out, likes);
            write_string_list(out, hates);
            proof {
                assert(out@ =~= old(out)@ + server_resp_payload(*msg));
            }
        },
        ServerResponse::RoomList { rooms, owned_private_rooms, private_rooms, operated_private_rooms } => {
            write_room_list_body(rooms, owned_private_rooms, private_rooms, operated_private_rooms, out);
            proof {
                assert(out@ =~= old(out)@ + server_resp_payload(*msg));
            }
        },
        ServerResponse::AdminMessage { message } => {
            write_str(out, message.as_str());
            proof {
                assert(out@ =~= old(out)@ + server_resp_payload(*msg));
            }
        },
        ServerResponse::PrivilegedUsers { users } => {
            write_string_list(out, users);
            proof {
                assert(out@ =~= old(out)@ + server_resp_payload(*msg));
            }
        },
        ServerResponse::ParentMinSpeed { speed } => {
            write_u32(out, *speed);
            proof {
                assert(out@ =~= old(out)@ + server_resp_payload(*msg));
            }
        },
        ServerResponse::ParentSpeedRatio { ratio } => {
            write_u32(out, *ratio);
            proof {
                assert(out@ =~= old(out)@ + server_resp_payload(*msg));
            }
        },
        ServerResponse::CheckPrivileges { time_left } => {
            write_u32(out, *time_left);
            proof {
                assert(out@ =~= old(out)@ + server_resp_payload(*msg));
            }
        },
        _ => {
            write_server_response_payload_upper(msg, out);
        },
    }
}

/// Appends the payload of `msg` (no length prefix, no code).
#[verifier::rlimit(100)]
pub fn write_server_response_payload(msg: &ServerResponse, out: &mut Vec<u8>)
    requires
        wf_server_response(*msg),
    ensures
        final(out)@ == old(out)@ + server_resp_payload(*msg),
{
    match msg {
        ServerResponse::LoginSuccess { greet, own_ip, password_hash, is_supporter } => {
            write_bool(out, true);
            write_str(out, greet.as_str());
            write_ipv4(out, own_ip);
            write_str(out, password_hash.as_str());
            write_bool(out, *is_supporter);
            proof {
                assert(out@ =~= old(out)@ + server_resp_payload(*msg));
            }
        },
        ServerResponse::LoginFailure { reason, detail } => {
            write_bool(out, false);
            write_str(out, reason.as_reason_str());
            match detail {
                Some(d) => {
                    write_str(out, d.as_str());
                },
                None => {},
            }
            proof {
                assert(out@ =~= old(out)@ + server_resp_payload(*msg));
            }
        },
        ServerResponse::GetPeerAddress { username, ip, port, obfuscation_type, obfuscated_port } => {
            write_str(out, username.as_str());
            write_ipv4(out, ip);
            write_u32(out, *port);
            write_u32(out, obfuscation_type.as_u32());
            write_u16(out, *obfuscated_port);
            proof {
                assert(out@ =~= old(out)@ + server_resp_payload(*msg));
            }
        },
        ServerResponse::ConnectToPeer {
            username,
            connection_type,
            ip,
            port,
            token,
            privileged,
            obfuscation_type,
            obfuscated_port,
        } => {
            write_str(out, username.as_str());
            proof {
                lemma_connection_type_ascii(*connection_type);
            }
            write_str(out, connection_type.as_str());
            write_ipv4(out, ip);
            write_u32(out, *port);
            write_u32(out, *token);
            write_bool(out, *privileged);
            write_u32(out, obfuscation_type.as_u32());
            write_u32(out, *obfuscated_port);
            proof {
                assert(out@ =~= old(out)@ + server_resp_payload(*msg));
            }
        },
        ServerResponse::FileSearch { username, token, query } => {
            write_str(out, username.as_str());
            write_u32(out, *token);
            write_str(out, query.as_str());
            proof {
                assert(out@ =~= old(out)@ + server_resp_payload(*msg));
            }
        },
        ServerResponse::CantConnectToPeer { token, username } => {
            write_u32(out, *token);
            write_str(out, username.as_str());
            proof {
                assert(out@ =~= old(out)@ + server_resp_payload(*msg));
            }
        },
        ServerResponse::Relogged => {
            proof {
                assert(out@ =~= old(out)@ + server_resp_payload(*msg));
            }
        },
        _ => {
            write_server_response_payload_middle(msg, out);
        },
    }
}

/// Appends the complete frame of `msg`: length prefix, code, payload.
/// Fails, leaving `out` untouched, only when the payload is too large
/// for the `u32` length prefix.
pub fn write_server_response(msg: &ServerResponse, out: &mut Vec<u8>) -> (r: Result<(), Error>)
    requires
        wf_server_response(*msg),
    ensures
        match r {
            Ok(()) => frame_fits_u32(server_resp_payload(*msg)) && final(out)@ == old(out)@
                + server_resp_frame(*msg),
            Err(_) => !frame_fits_u32(server_resp_payload(*msg)) && final(out)@ == old(out)@,
        },
{
    let mut payload: Vec<u8> = Vec::new();
    write_server_response_payload(msg, &mut payload);
    if payload.len() > u32::MAX as usize - 4 {
        return Err(Error::Protocol(String::from_str("message too large to frame")));
    }
    write_u32(out, 4 + payload.len() as u32);
    write_u32(out, msg.code().as_u32());
    write_raw(out, &payload);
    proof {
        assert(out@ =~= old(out)@ + server_resp_frame(*msg));
    }
    Ok(())
}

impl ServerResponse {
    /// The code of this response.
    pub fn code(&self) -> (r: ServerCode)
        ensures
            r == server_resp_code(*self),
    {
        match self {
            ServerResponse::LoginSuccess { .. } => ServerCode::Login,
            ServerResponse::LoginFailure { .. } => ServerCode::Login,
            ServerResponse::GetPeerAddress { .. } => ServerCode::GetPeerAddress,
            ServerResponse::WatchUser { .. } => ServerCode::WatchUser,
            ServerResponse::GetUserStatus { .. } => ServerCode::GetUserStatus,
            ServerResponse::SayChatroom { .. } => ServerCode::SayChatroom,
            ServerResponse::JoinRoom { .. } => ServerCode::JoinRoom,
            ServerResponse::LeaveRoom { .. } => ServerCode::LeaveRoom,
            ServerResponse::UserJoinedRoom { .. } => ServerCode::UserJoinedRoom,
            ServerResponse::UserLeftRoom { .. } => ServerCode::UserLeftRoom,
            ServerResponse::ConnectToPeer { .. } => ServerCode::ConnectToPeer,
            ServerResponse::MessageUser { .. } => ServerCode::MessageUser,
            ServerResponse::FileSearch { .. } => ServerCode::FileSearch,
            ServerResponse::GetUserStats { .. } => ServerCode::GetUserStats,
            ServerResponse::Relogged => ServerCode::Relogged,
            ServerResponse::Recommendations { .. } => ServerCode::GetRecommendations,
            ServerResponse::GlobalRecommendations { .. } => ServerCode::GetGlobalRecommendations,
            ServerResponse::UserInterests { .. } => ServerCode::GetUserInterests,
            ServerResponse::RoomList { .. } => ServerCode::RoomList,
            ServerResponse::AdminMessage { .. } => ServerCode::AdminMessage,
            ServerResponse::PrivilegedUsers { .. } => ServerCode::PrivilegedUsers,
            ServerResponse::ParentMinSpeed { .. } => ServerCode::ParentMinSpeed,
            ServerResponse::ParentSpeedRatio { .. } => ServerCode::ParentSpeedRatio,
            ServerResponse::CheckPrivileges { .. } => ServerCode::CheckPrivileges,
            ServerResponse::EmbeddedMessage { .. } => ServerCode::EmbeddedMessage,
            ServerResponse::PossibleParents { .. } => ServerCode::PossibleParents,
            ServerResponse::WishlistInterval { .. } => ServerCode::WishlistInterval,
            ServerResponse::SimilarUsers { .. } => ServerCode::GetSimilarUsers,
            ServerResponse::ItemRecommendations { .. } => ServerCode::GetItemRecommendations,
            ServerResponse::ItemSimilarUsers { .. } => ServerCode::GetItemSimilarUsers,
            ServerResponse::RoomTickerState { .. } => ServerCode::RoomTickerState,
            ServerResponse::RoomTickerAdd { .. } => ServerCode::RoomTickerAdd,
            ServerResponse::RoomTickerRemove { .. } => ServerCode::RoomTickerRemove,
            ServerResponse::EnableRoomInvitations { .. } => ServerCode::EnableRoomInvitations,
            ServerResponse::ChangePassword { .. } => ServerCode::ChangePassword,
            ServerResponse::AddRoomOperator { .. } => ServerCode::AddRoomOperator,
            ServerResponse::RemoveRoomOperator { .. } => ServerCode::RemoveRoomOperator,
            ServerResponse::RoomOperatorshipGranted { .. } => ServerCode::RoomOperatorshipGranted,
            ServerResponse::RoomOperatorshipRevoked { .. } => ServerCode::RoomOperatorshipRevoked,
            ServerResponse::RoomOperators { .. } => ServerCode::RoomOperators,
            ServerResponse::RoomMembershipGranted { .. } => ServerCode::RoomMembershipGranted,
            ServerResponse::RoomMembershipRevoked { .. } => ServerCode::RoomMembershipRevoked,
            ServerResponse::RoomMembers { .. } => ServerCode::RoomMembers,
            ServerResponse::AddRoomMember { .. } => ServerCode::AddRoomMember,
            ServerResponse::RemoveRoomMember { .. } => ServerCode::RemoveRoomMember,
            ServerResponse::ResetDistributed => ServerCode::ResetDistributed,
            ServerResponse::GlobalRoomMessage { .. } => ServerCode::GlobalRoomMessage,
            ServerResponse::ExcludedSearchPhrases { .. } => ServerCode::ExcludedSearchPhrases,
            ServerResponse::CantConnectToPeer { .. } => ServerCode::CantConnectToPeer,
            ServerResponse::CantCreateRoom { .. } => ServerCode::CantCreateRoom,
        }
    }
}

} // verus!
