//! Protocol constants and enumerations.

use vstd::prelude::*;

use crate::protocol::Error;

verus! {

/// Default client version (matches Nicotine+).
pub const CLIENT_VERSION: u32 = 160;

/// Default listen port for peers.
pub const DEFAULT_PEER_PORT: u16 = 2234;

/// Default server port.
pub const DEFAULT_SERVER_PORT: u16 = 2242;

/// Default Soulseek server address.
pub const DEFAULT_SERVER_HOST: &'static str = "server.slsknet.org";

/// Connection types used in the protocol.
#[derive(Debug, Clone, Copy, PartialEq, Eq, Structural)]
pub enum ConnectionType {
    /// Peer to peer connection.
    Peer,
    /// File transfer connection.
    File,
    /// Distributed network connection.
    Distributed,
}

/// The one-character string naming a connection type on the wire.
pub open spec fn connection_type_chars(t: ConnectionType) -> Seq<char> {
    match t {
        ConnectionType::Peer => seq!['P'],
        ConnectionType::File => seq!['F'],
        ConnectionType::Distributed => seq!['D'],
    }
}

/// The connection type a one-character string names, if any.
pub open spec fn spec_parse_connection_type(s: Seq<char>) -> Option<ConnectionType> {
    if s == connection_type_chars(ConnectionType::Peer) {
        Some(ConnectionType::Peer)
    } else if s == connection_type_chars(ConnectionType::File) {
        Some(ConnectionType::File)
    } else if s == connection_type_chars(ConnectionType::Distributed) {
        Some(ConnectionType::Distributed)
    } else {
        None
    }
}

impl ConnectionType {
    pub fn as_str(&self) -> (r: &'static str)
        ensures
            r@ == connection_type_chars(*self),
    {
        proof {
            reveal_strlit("P");
            reveal_strlit("F");
            reveal_strlit("D");
        }
        let r = match self {
            ConnectionType::Peer => "P",
            ConnectionType::File => "F",
            ConnectionType::Distributed => "D",
        };
        proof {
            assert(r@ =~= connection_type_chars(*self));
        }
        r
    }

    pub fn parse(s: &str) -> (r: Result<ConnectionType, Error>)
        ensures
            match r {
                Ok(t) => spec_parse_connection_type(s@) == Some(t),
                Err(e) => spec_parse_connection_type(s@) is None && (e matches
                    Error::InvalidConnectionType(t) && t@ == s@),
            },
    {
        proof {
            reveal_strlit("P");
            reveal_strlit("F");
            reveal_strlit("D");
        }
        if s.unicode_len() == 1 {
            let c = s.get_char(0);
            proof {
                assert(s@ =~= seq![s@[0]]);
            }
            if c == 'P' {
                return Ok(ConnectionType::Peer);
            }
            if c == 'F' {
                return Ok(ConnectionType::File);
            }
            if c == 'D' {
                return Ok(ConnectionType::Distributed);
            }
        }
        Err(Error::InvalidConnectionType(String::from_str(s)))
    }
}

/// User status codes.
#[derive(Debug, Clone, Copy, PartialEq, Eq, Structural)]
pub enum UserStatus {
    Offline,
    Away,
    Online,
}

pub open spec fn user_status_u32(s: UserStatus) -> u32 {
    match s {
        UserStatus::Offline => 0,
        UserStatus::Away => 1,
        UserStatus::Online => 2,
    }
}

pub open spec fn spec_user_status_from(v: u32) -> Option<UserStatus> {
    if v == 0 {
        Some(UserStatus::Offline)
    } else if v == 1 {
        Some(UserStatus::Away)
    } else if v == 2 {
        Some(UserStatus::Online)
    } else {
        None
    }
}

impl UserStatus {
    pub fn as_u32(&self) -> (r: u32)
        ensures
            r == user_status_u32(*self),
    {
        match self {
            UserStatus::Offline => 0,
            UserStatus::Away => 1,
            UserStatus::Online => 2,
        }
    }

    pub fn try_from(value: u32) -> (r: Result<UserStatus, Error>)
        ensures
            match r {
                Ok(s) => spec_user_status_from(value) == Some(s),
                Err(e) => spec_user_status_from(value) is None && (e matches
                Error::InvalidUserStatus(v) && v == value),
            },
    {
        if value == 0 {
            Ok(UserStatus::Offline)
        } else if value == 1 {
            Ok(UserStatus::Away)
        } else if value == 2 {
            Ok(UserStatus::Online)
        } else {
            Err(Error::InvalidUserStatus(value))
        }
    }
}

impl core::convert::From<UserStatus> for u32 {
    fn from(status: UserStatus) -> (r: u32) {
        status.as_u32()
    }
}

impl vstd::std_specs::convert::FromSpecImpl<UserStatus> for u32 {
    open spec fn obeys_from_spec() -> bool {
        true
    }

    open spec fn from_spec(s: UserStatus) -> u32 {
        user_status_u32(s)
    }
}

/// Upload permission settings.
#[derive(Debug, Clone, Copy, PartialEq, Eq, Structural)]
pub enum UploadPermission {
    NoOne,
    Everyone,
    UsersInList,
    PermittedUsers,
}

pub open spec fn upload_permission_u32(p: UploadPermission) -> u32 {
    match p {
        UploadPermission::NoOne => 0,
        UploadPermission::Everyone => 1,
        UploadPermission::UsersInList => 2,
        UploadPermission::PermittedUsers => 3,
    }
}

pub open spec fn spec_upload_permission_from(v: u32) -> Option<UploadPermission> {
    if v == 0 {
        Some(UploadPermission::NoOne)
    } else if v == 1 {
        Some(UploadPermission::Everyone)
    } else if v == 2 {
        Some(UploadPermission::UsersInList)
    } else if v == 3 {
        Some(UploadPermission::PermittedUsers)
    } else {
        None
    }
}

impl UploadPermission {
    pub fn as_u32(&self) -> (r: u32)
        ensures
            r == upload_permission_u32(*self),
    {
        match self {
            UploadPermission::NoOne => 0,
            UploadPermission::Everyone => 1,
            UploadPermission::UsersInList => 2,
            UploadPermission::PermittedUsers => 3,
        }
    }

    pub fn try_from(value: u32) -> (r: Result<UploadPermission, Error>)
        ensures
            match r {
                Ok(p) => spec_upload_permission_from(value) == Some(p),
                Err(e) => spec_upload_permission_from(value) is None && e matches Error::Protocol(
                    _,
                ),
            },
    {
        if value == 0 {
            Ok(UploadPermission::NoOne)
        } else if value == 1 {
            Ok(UploadPermission::Everyone)
        } else if value == 2 {
            Ok(UploadPermission::UsersInList)
        } else if value == 3 {
            Ok(UploadPermission::PermittedUsers)
        } else {
            Err(Error::Protocol(String::from_str("invalid upload permission")))
        }
    }
}

/// Transfer direction.
#[derive(Debug, Clone, Copy, PartialEq, Eq, Structural)]
pub enum TransferDirection {
    /// Download from peer.
    Download,
    /// Upload to peer.
    Upload,
}

pub open spec fn transfer_direction_u32(d: TransferDirection) -> u32 {
    match d {
        TransferDirection::Download => 0,
        TransferDirection::Upload => 1,
    }
}

pub open spec fn spec_transfer_direction_from(v: u32) -> Option<TransferDirection> {
    if v == 0 {
        Some(TransferDirection::Download)
    } else if v == 1 {
        Some(TransferDirection::Upload)
    } else {
        None
    }
}

impl TransferDirection {
    pub fn as_u32(&self) -> (r: u32)
        ensures
            r == transfer_direction_u32(*self),
    {
        match self {
            TransferDirection::Download => 0,
            TransferDirection::Upload => 1,
        }
    }

    pub fn try_from(value: u32) -> (r: Result<TransferDirection, Error>)
        ensures
            match r {
                Ok(d) => spec_transfer_direction_from(value) == Some(d),
                Err(e) => spec_transfer_direction_from(value) is None && (e matches
                Error::InvalidTransferDirection(v) && v == value),
            },
    {
        if value == 0 {
            Ok(TransferDirection::Download)
        } else if value == 1 {
            Ok(TransferDirection::Upload)
        } else {
            Err(Error::InvalidTransferDirection(value))
        }
    }
}

impl core::convert::From<TransferDirection> for u32 {
    fn from(dir: TransferDirection) -> (r: u32) {
        dir.as_u32()
    }
}

impl vstd::std_specs::convert::FromSpecImpl<TransferDirection> for u32 {
    open spec fn obeys_from_spec() -> bool {
        true
    }

    open spec fn from_spec(d: TransferDirection) -> u32 {
        transfer_direction_u32(d)
    }
}

/// File attribute types.
#[derive(Debug, Clone, Copy, PartialEq, Eq, Structural)]
pub enum FileAttributeType {
    /// Bitrate in kbps.
    Bitrate,
    /// Duration in seconds.
    Duration,
    /// Variable bitrate flag.
    Vbr,
    /// Encoder (unused).
    Encoder,
    /// Sample rate in Hz.
    SampleRate,
    /// Bit depth in bits.
    BitDepth,
}

pub open spec fn file_attribute_type_u32(t: FileAttributeType) -> u32 {
    match t {
        FileAttributeType::Bitrate => 0,
        FileAttributeType::Duration => 1,
        FileAttributeType::Vbr => 2,
        FileAttributeType::Encoder => 3,
        FileAttributeType::SampleRate => 4,
        FileAttributeType::BitDepth => 5,
    }
}

pub open spec fn spec_file_attribute_type_from(v: u32) -> Option<FileAttributeType> {
    if v == 0 {
        Some(FileAttributeType::Bitrate)
    } else if v == 1 {
        Some(FileAttributeType::Duration)
    } else if v == 2 {
        Some(FileAttributeType::Vbr)
    } else if v == 3 {
        Some(FileAttributeType::Encoder)
    } else if v == 4 {
        Some(FileAttributeType::SampleRate)
    } else if v == 5 {
        Some(FileAttributeType::BitDepth)
    } else {
        None
    }
}

impl FileAttributeType {
    pub fn as_u32(&self) -> (r: u32)
        ensures
            r == file_attribute_type_u32(*self),
    {
        match self {
            FileAttributeType::Bitrate => 0,
            FileAttributeType::Duration => 1,
            FileAttributeType::Vbr => 2,
            FileAttributeType::Encoder => 3,
            FileAttributeType::SampleRate => 4,
            FileAttributeType::BitDepth => 5,
        }
    }

    pub fn try_from(value: u32) -> (r: Result<FileAttributeType, Error>)
        ensures
            match r {
                Ok(t) => spec_file_attribute_type_from(value) == Some(t),
                Err(e) => spec_file_attribute_type_from(value) is None && e matches
                    Error::Protocol(_),
            },
    {
        if value == 0 {
            Ok(FileAttributeType::Bitrate)
        } else if value == 1 {
            Ok(FileAttributeType::Duration)
        } else if value == 2 {
            Ok(FileAttributeType::Vbr)
        } else if value == 3 {
            Ok(FileAttributeType::Encoder)
        } else if value == 4 {
            Ok(FileAttributeType::SampleRate)
        } else if value == 5 {
            Ok(FileAttributeType::BitDepth)
        } else {
            Err(Error::Protocol(String::from_str("unknown file attribute type")))
        }
    }
}

/// Obfuscation types.
#[derive(Debug, Clone, Copy, PartialEq, Eq, Structural)]
pub enum ObfuscationType {
    NoObfuscation,
    Rotated,
}

pub open spec fn obfuscation_type_u32(t: ObfuscationType) -> u32 {
    match t {
        ObfuscationType::NoObfuscation => 0,
        ObfuscationType::Rotated => 1,
    }
}

pub open spec fn spec_obfuscation_type_from(v: u32) -> Option<ObfuscationType> {
    if v == 0 {
        Some(ObfuscationType::NoObfuscation)
    } else if v == 1 {
        Some(ObfuscationType::Rotated)
    } else {
        None
    }
}

impl ObfuscationType {
    pub fn as_u32(&self) -> (r: u32)
        ensures
            r == obfuscation_type_u32(*self),
    {
        match self {
            ObfuscationType::NoObfuscation => 0,
            ObfuscationType::Rotated => 1,
        }
    }

    pub fn try_from(value: u32) -> (r: Result<ObfuscationType, Error>)
        ensures
            match r {
                Ok(t) => spec_obfuscation_type_from(value) == Some(t),
                Err(e) => spec_obfuscation_type_from(value) is None && e matches Error::Protocol(
                    _,
                ),
            },
    {
        if value == 0 {
            Ok(ObfuscationType::NoObfuscation)
        } else if value == 1 {
            Ok(ObfuscationType::Rotated)
        } else {
            Err(Error::Protocol(String::from_str("unknown obfuscation type")))
        }
    }
}

/// Common transfer rejection reasons.
#[derive(Debug, Clone)]
pub enum TransferRejectionReason {
    Banned,
    Cancelled,
    Complete,
    FileNotShared,
    FileReadError,
    PendingShutdown,
    Queued,
    TooManyFiles,
    TooManyMegabytes,
    Other(String),
}

/// The wire string for a rejection reason.
pub open spec fn rejection_chars(r: TransferRejectionReason) -> Seq<char> {
    match r {
        TransferRejectionReason::Banned => "Banned"@,
        TransferRejectionReason::Cancelled => "Cancelled"@,
        TransferRejectionReason::Complete => "Complete"@,
        TransferRejectionReason::FileNotShared => "File not shared."@,
        TransferRejectionReason::FileReadError => "File read error."@,
        TransferRejectionReason::PendingShutdown => "Pending shutdown."@,
        TransferRejectionReason::Queued => "Queued"@,
        TransferRejectionReason::TooManyFiles => "Too many files"@,
        TransferRejectionReason::TooManyMegabytes => "Too many megabytes"@,
        TransferRejectionReason::Other(s) => s@,
    }
}

/// True when `s` is one of the named rejection strings.
pub open spec fn is_known_rejection(s: Seq<char>) -> bool {
    ||| s == "Banned"@
    ||| s == "Cancelled"@
    ||| s == "Complete"@
    ||| s == "File not shared."@
    ||| s == "File read error."@
    ||| s == "Pending shutdown."@
    ||| s == "Queued"@
    ||| s == "Too many files"@
    ||| s == "Too many megabytes"@
}

/// True when `r` is the rejection reason that the wire string `s` parses to.
pub open spec fn rejection_matches(r: TransferRejectionReason, s: Seq<char>) -> bool {
    match r {
        TransferRejectionReason::Banned => s == "Banned"@,
        TransferRejectionReason::Cancelled => s == "Cancelled"@,
        TransferRejectionReason::Complete => s == "Complete"@,
        TransferRejectionReason::FileNotShared => s == "File not shared."@,
        TransferRejectionReason::FileReadError => s == "File read error."@,
        TransferRejectionReason::PendingShutdown => s == "Pending shutdown."@,
        TransferRejectionReason::Queued => s == "Queued"@,
        TransferRejectionReason::TooManyFiles => s == "Too many files"@,
        TransferRejectionReason::TooManyMegabytes => s == "Too many megabytes"@,
        TransferRejectionReason::Other(t) => t@ == s && !is_known_rejection(s),
    }
}

/// A rejection reason round-trips through its wire string unless it is an
/// `Other` that spells one of the named reasons.
pub open spec fn wf_rejection(r: TransferRejectionReason) -> bool {
    match r {
        TransferRejectionReason::Other(s) => !is_known_rejection(s@),
        _ => true,
    }
}

impl TransferRejectionReason {
    pub fn as_str(&self) -> (r: &str)
        ensures
            r@ == rejection_chars(*self),
    {
        match self {
            TransferRejectionReason::Banned => "Banned",
            TransferRejectionReason::Cancelled => "Cancelled",
            TransferRejectionReason::Complete => "Complete",
            TransferRejectionReason::FileNotShared => "File not shared.",
            TransferRejectionReason::FileReadError => "File read error.",
            TransferRejectionReason::PendingShutdown => "Pending shutdown.",
            TransferRejectionReason::Queued => "Queued",
            TransferRejectionReason::TooManyFiles => "Too many files",
            TransferRejectionReason::TooManyMegabytes => "Too many megabytes",
            TransferRejectionReason::Other(s) => s.as_str(),
        }
    }

    /// A copy equal to this reason. The derived clone of a
    /// `String`-bearing enum carries no specification, so copying goes
    /// through this method where contracts need the value pinned.
    pub fn duplicate(&self) -> (r: TransferRejectionReason)
        ensures
            r == *self,
    {
        match self {
            TransferRejectionReason::Banned => TransferRejectionReason::Banned,
            TransferRejectionReason::Cancelled => TransferRejectionReason::Cancelled,
            TransferRejectionReason::Complete => TransferRejectionReason::Complete,
            TransferRejectionReason::FileNotShared => TransferRejectionReason::FileNotShared,
            TransferRejectionReason::FileReadError => TransferRejectionReason::FileReadError,
            TransferRejectionReason::PendingShutdown => TransferRejectionReason::PendingShutdown,
            TransferRejectionReason::Queued => TransferRejectionReason::Queued,
            TransferRejectionReason::TooManyFiles => TransferRejectionReason::TooManyFiles,
            TransferRejectionReason::TooManyMegabytes => TransferRejectionReason::TooManyMegabytes,
            TransferRejectionReason::Other(s) => TransferRejectionReason::Other(s.clone()),
        }
    }

    pub fn from_string(s: String) -> (r: TransferRejectionReason)
        ensures
            rejection_matches(r, s@),
    {
        if s == String::from_str("Banned") {
            TransferRejectionReason::Banned
        } else if s == String::from_str("Cancelled") {
            TransferRejectionReason::Cancelled
        } else if s == String::from_str("Complete") {
            TransferRejectionReason::Complete
        } else if s == String::from_str("File not shared.") {
            TransferRejectionReason::FileNotShared
        } else if s == String::from_str("File read error.") {
            TransferRejectionReason::FileReadError
        } else if s == String::from_str("Pending shutdown.") {
            TransferRejectionReason::PendingShutdown
        } else if s == String::from_str("Queued") {
            TransferRejectionReason::Queued
        } else if s == String::from_str("Too many files") {
            TransferRejectionReason::TooManyFiles
        } else if s == String::from_str("Too many megabytes") {
            TransferRejectionReason::TooManyMegabytes
        } else {
            TransferRejectionReason::Other(s)
        }
    }
}

impl PartialEq for TransferRejectionReason {
    fn eq(&self, other: &Self) -> (r: bool) {
        match (self, other) {
            (TransferRejectionReason::Banned, TransferRejectionReason::Banned) => true,
            (TransferRejectionReason::Cancelled, TransferRejectionReason::Cancelled) => true,
            (TransferRejectionReason::Complete, TransferRejectionReason::Complete) => true,
            (TransferRejectionReason::FileNotShared, TransferRejectionReason::FileNotShared) => true,
            (TransferRejectionReason::FileReadError, TransferRejectionReason::FileReadError) => true,
            (
                TransferRejectionReason::PendingShutdown,
                TransferRejectionReason::PendingShutdown,
            ) => true,
            (TransferRejectionReason::Queued, TransferRejectionReason::Queued) => true,
            (TransferRejectionReason::TooManyFiles, TransferRejectionReason::TooManyFiles) => true,
            (
                TransferRejectionReason::TooManyMegabytes,
                TransferRejectionReason::TooManyMegabytes,
            ) => true,
            (TransferRejectionReason::Other(a), TransferRejectionReason::Other(b)) => a.eq(b),
            _ => false,
        }
    }
}

impl vstd::std_specs::cmp::PartialEqSpecImpl for TransferRejectionReason {
    open spec fn obeys_eq_spec() -> bool {
        true
    }

    open spec fn eq_spec(&self, other: &Self) -> bool {
        match (self, other) {
            (TransferRejectionReason::Banned, TransferRejectionReason::Banned) => true,
            (TransferRejectionReason::Cancelled, TransferRejectionReason::Cancelled) => true,
            (TransferRejectionReason::Complete, TransferRejectionReason::Complete) => true,
            (TransferRejectionReason::FileNotShared, TransferRejectionReason::FileNotShared) => true,
            (TransferRejectionReason::FileReadError, TransferRejectionReason::FileReadError) => true,
            (
                TransferRejectionReason::PendingShutdown,
                TransferRejectionReason::PendingShutdown,
            ) => true,
            (TransferRejectionReason::Queued, TransferRejectionReason::Queued) => true,
            (TransferRejectionReason::TooManyFiles, TransferRejectionReason::TooManyFiles) => true,
            (
                TransferRejectionReason::TooManyMegabytes,
                TransferRejectionReason::TooManyMegabytes,
            ) => true,
            (TransferRejectionReason::Other(a), TransferRejectionReason::Other(b)) => a@ == b@,
            _ => false,
        }
    }
}

/// Login rejection reasons.
#[derive(Debug, Clone)]
pub enum LoginRejectionReason {
    InvalidUsername,
    EmptyPassword,
    InvalidPassword,
    InvalidVersion,
    ServerFull,
    ServerPrivate,
    Other(String),
}

/// The wire string for a login rejection reason.
pub open spec fn login_rejection_chars(r: LoginRejectionReason) -> Seq<char> {
    match r {
        LoginRejectionReason::InvalidUsername => "INVALIDUSERNAME"@,
        LoginRejectionReason::EmptyPassword => "EMPTYPASSWORD"@,
        LoginRejectionReason::InvalidPassword => "INVALIDPASS"@,
        LoginRejectionReason::InvalidVersion => "INVALIDVERSION"@,
        LoginRejectionReason::ServerFull => "SVRFULL"@,
        LoginRejectionReason::ServerPrivate => "SVRPRIVATE"@,
        LoginRejectionReason::Other(s) => s@,
    }
}

/// True when `s` is one of the named login rejection strings.
pub open spec fn is_known_login_rejection(s: Seq<char>) -> bool {
    ||| s == "INVALIDUSERNAME"@
    ||| s == "EMPTYPASSWORD"@
    ||| s == "INVALIDPASS"@
    ||| s == "INVALIDVERSION"@
    ||| s == "SVRFULL"@
    ||| s == "SVRPRIVATE"@
}

/// True when `r` is the login rejection that the wire string `s` parses to.
pub open spec fn login_rejection_matches(r: LoginRejectionReason, s: Seq<char>) -> bool {
    match r {
        LoginRejectionReason::InvalidUsername => s == "INVALIDUSERNAME"@,
        LoginRejectionReason::EmptyPassword => s == "EMPTYPASSWORD"@,
        LoginRejectionReason::InvalidPassword => s == "INVALIDPASS"@,
        LoginRejectionReason::InvalidVersion => s == "INVALIDVERSION"@,
        LoginRejectionReason::ServerFull => s == "SVRFULL"@,
        LoginRejectionReason::ServerPrivate => s == "SVRPRIVATE"@,
        LoginRejectionReason::Other(t) => t@ == s && !is_known_login_rejection(s),
    }
}

/// A login rejection round-trips through its wire string unless it is an
/// `Other` that spells one of the named reasons.
pub open spec fn wf_login_rejection(r: LoginRejectionReason) -> bool {
    match r {
        LoginRejectionReason::Other(s) => !is_known_login_rejection(s@),
        _ => true,
    }
}

impl LoginRejectionReason {
    pub fn from_string(s: String) -> (r: LoginRejectionReason)
        ensures
            login_rejection_matches(r, s@),
    {
        if s == String::from_str("INVALIDUSERNAME") {
            LoginRejectionReason::InvalidUsername
        } else if s == String::from_str("EMPTYPASSWORD") {
            LoginRejectionReason::EmptyPassword
        } else if s == String::from_str("INVALIDPASS") {
            LoginRejectionReason::InvalidPassword
        } else if s == String::from_str("INVALIDVERSION") {
            LoginRejectionReason::InvalidVersion
        } else if s == String::from_str("SVRFULL") {
            LoginRejectionReason::ServerFull
        } else if s == String::from_str("SVRPRIVATE") {
            LoginRejectionReason::ServerPrivate
        } else {
            LoginRejectionReason::Other(s)
        }
    }
}

impl PartialEq for LoginRejectionReason {
    fn eq(&self, other: &Self) -> (r: bool) {
        match (self, other) {
            (LoginRejectionReason::InvalidUsername, LoginRejectionReason::InvalidUsername) => true,
            (LoginRejectionReason::EmptyPassword, LoginRejectionReason::EmptyPassword) => true,
            (LoginRejectionReason::InvalidPassword, LoginRejectionReason::InvalidPassword) => true,
            (LoginRejectionReason::InvalidVersion, LoginRejectionReason::InvalidVersion) => true,
            (LoginRejectionReason::ServerFull, LoginRejectionReason::ServerFull) => true,
            (LoginRejectionReason::ServerPrivate, LoginRejectionReason::ServerPrivate) => true,
            (LoginRejectionReason::Other(a), LoginRejectionReason::Other(b)) => a.eq(b),
            _ => false,
        }
    }
}

impl vstd::std_specs::cmp::PartialEqSpecImpl for LoginRejectionReason {
    open spec fn obeys_eq_spec() -> bool {
        true
    }

    open spec fn eq_spec(&self, other: &Self) -> bool {
        match (self, other) {
            (LoginRejectionReason::InvalidUsername, LoginRejectionReason::InvalidUsername) => true,
            (LoginRejectionReason::EmptyPassword, LoginRejectionReason::EmptyPassword) => true,
            (LoginRejectionReason::InvalidPassword, LoginRejectionReason::InvalidPassword) => true,
            (LoginRejectionReason::InvalidVersion, LoginRejectionReason::InvalidVersion) => true,
            (LoginRejectionReason::ServerFull, LoginRejectionReason::ServerFull) => true,
            (LoginRejectionReason::ServerPrivate, LoginRejectionReason::ServerPrivate) => true,
            (LoginRejectionReason::Other(a), LoginRejectionReason::Other(b)) => a@ == b@,
            _ => false,
        }
    }
}


/// The wire string of a connection type is one ASCII character, so its
/// UTF-8 encoding is a single byte.
pub proof fn lemma_connection_type_ascii(t: ConnectionType)
    ensures
        vstd::utf8::is_ascii_chars(connection_type_chars(t)),
        vstd::utf8::encode_utf8(connection_type_chars(t)).len() == 1,
{
    broadcast use vstd::utf8::is_ascii_chars_encode_utf8;

    assert(vstd::utf8::is_ascii_chars(connection_type_chars(t)));
}


/// Parsing the wire string of a connection type yields that type.
pub proof fn lemma_connection_type_parse(t: ConnectionType)
    ensures
        spec_parse_connection_type(connection_type_chars(t)) == Some(t),
{
    assert(connection_type_chars(ConnectionType::Peer)[0] == 'P');
    assert(connection_type_chars(ConnectionType::File)[0] == 'F');
    assert(connection_type_chars(ConnectionType::Distributed)[0] == 'D');
}


/// A reason parsed back from another reason's wire string carries the
/// same wire string, and is `Other` exactly when the original was.
pub proof fn lemma_rejection_unique(a: TransferRejectionReason, b: TransferRejectionReason)
    requires
        wf_rejection(b),
        rejection_matches(a, rejection_chars(b)),
    ensures
        rejection_chars(a) == rejection_chars(b),
        a is Other <==> b is Other,
{
}

/// What `rejection_matches` says of the parsed value: its wire string
/// is the input, and it is well formed.
pub proof fn lemma_rejection_matches_chars(r: TransferRejectionReason, s: Seq<char>)
    requires
        rejection_matches(r, s),
    ensures
        rejection_chars(r) == s,
        wf_rejection(r),
{
}

/// The login counterpart of `lemma_rejection_unique`.
pub proof fn lemma_login_rejection_unique(a: LoginRejectionReason, b: LoginRejectionReason)
    requires
        wf_login_rejection(b),
        login_rejection_matches(a, login_rejection_chars(b)),
    ensures
        login_rejection_chars(a) == login_rejection_chars(b),
        a is Other <==> b is Other,
{
}

/// The login counterpart of `lemma_rejection_matches_chars`.
pub proof fn lemma_login_rejection_matches_chars(r: LoginRejectionReason, s: Seq<char>)
    requires
        login_rejection_matches(r, s),
    ensures
        login_rejection_chars(r) == s,
        wf_login_rejection(r),
{
}


/// The named login-rejection strings have pairwise different lengths,
/// so a reason parsed back from a well-formed reason's wire string is
/// the same named reason, or `Other` exactly when the original was.
pub proof fn lemma_login_rejection_variant(a: LoginRejectionReason, b: LoginRejectionReason)
    requires
        wf_login_rejection(b),
        login_rejection_matches(a, login_rejection_chars(b)),
    ensures
        login_rejection_chars(a) == login_rejection_chars(b),
        a is Other <==> b is Other,
        a is InvalidUsername <==> b is InvalidUsername,
{
    reveal_strlit("INVALIDUSERNAME");
    reveal_strlit("EMPTYPASSWORD");
    reveal_strlit("INVALIDPASS");
    reveal_strlit("INVALIDVERSION");
    reveal_strlit("SVRFULL");
    reveal_strlit("SVRPRIVATE");
    assert("INVALIDUSERNAME"@.len() == 15);
    assert("EMPTYPASSWORD"@.len() == 13);
    assert("INVALIDPASS"@.len() == 11);
    assert("INVALIDVERSION"@.len() == 14);
    assert("SVRFULL"@.len() == 7);
    assert("SVRPRIVATE"@.len() == 10);
}


impl LoginRejectionReason {
    /// The wire string of this reason.
    pub fn as_reason_str(&self) -> (r: &str)
        ensures
            r@ == login_rejection_chars(*self),
    {
        match self {
            LoginRejectionReason::InvalidUsername => "INVALIDUSERNAME",
            LoginRejectionReason::EmptyPassword => "EMPTYPASSWORD",
            LoginRejectionReason::InvalidPassword => "INVALIDPASS",
            LoginRejectionReason::InvalidVersion => "INVALIDVERSION",
            LoginRejectionReason::ServerFull => "SVRFULL",
            LoginRejectionReason::ServerPrivate => "SVRPRIVATE",
            LoginRejectionReason::Other(s) => s.as_str(),
        }
    }
}

} // verus!
