//! Tests of the request catalogue, the rate limiter, the selector, the
//! negotiation step, and the playlist mapping.

use slsk_rs::client::{coordinator_step, negotiation_step, CoordAction, CoordState, NegotiationAction, TokenCounter};
use slsk_rs::constants::{
    ConnectionType, FileAttributeType, LoginRejectionReason, ObfuscationType,
    TransferDirection, TransferRejectionReason, UploadPermission, UserStatus,
};
use slsk_rs::peer::{FileAttribute, PeerMessage, SearchResultFile, SharedDirectory, SharedFile};
use slsk_rs::peer_init::{read_peer_init_message, write_peer_init_message, PeerInitMessage};
use slsk_rs::playlist::{SoulseekPlaylist, SoulseekPlaylistTrack, MatchedFile, SpotifyPlaylist, SpotifyTrack};
use slsk_rs::protocol::{write_str, write_u32, Error, Ipv4Addr};
use slsk_rs::ratelimit::{QueuedSearch, SearchDecision, SearchRateLimiter};
use slsk_rs::select::{get_bitrate, pick_best_file, pick_best_files, AccumulatedResult};
use slsk_rs::server::{
    read_server_message, write_server_request, write_server_response, ServerCode, ServerRequest,
    ServerResponse, UserStats,
};

#[test]
fn test_set_wait_port_request() {
    let req = ServerRequest::SetWaitPort { port: 2234, obfuscation_type: None, obfuscated_port: None };
    let mut buf = Vec::new();
    write_server_request(&req, &mut buf).unwrap();
    assert!(buf.len() > 8);
}

#[test]
fn test_get_peer_address_request() {
    let req = ServerRequest::GetPeerAddress { username: "testuser".to_string() };
    let mut buf = Vec::new();
    write_server_request(&req, &mut buf).unwrap();
    assert!(buf.len() > 8);
}

#[test]
fn integration_test_file_search_request() {
    let req = ServerRequest::FileSearch { token: 12345, query: "pink floyd mp3".to_string() };
    let mut buf = Vec::new();
    write_server_request(&req, &mut buf).unwrap();
    assert!(buf.len() > 8);
}

#[test]
fn test_join_room_request() {
    let req = ServerRequest::JoinRoom { room: "Music".to_string(), private: false };
    let mut buf = Vec::new();
    write_server_request(&req, &mut buf).unwrap();
    assert!(buf.len() > 8);
}

#[test]
fn test_message_user_request() {
    let req = ServerRequest::MessageUser {
        username: "friend".to_string(),
        message: "Hello there!".to_string(),
    };
    let mut buf = Vec::new();
    write_server_request(&req, &mut buf).unwrap();
    assert!(buf.len() > 8);
}

#[test]
fn test_user_stats_roundtrip() {
    let stats = UserStats { avg_speed: 100000, upload_num: 50, unknown: 0, files: 1000, dirs: 100 };
    let mut buf = Vec::new();
    stats.write_to(&mut buf);
    let mut pos = 0;
    let parsed = UserStats::read_from(&buf, &mut pos).unwrap();
    assert_eq!(parsed.avg_speed, 100000);
    assert_eq!(parsed.files, 1000);
    assert_eq!(parsed.dirs, 100);
}

#[test]
fn test_server_code_conversions() {
    assert_eq!(ServerCode::Login.as_u32(), 1);
    assert_eq!(ServerCode::FileSearch.as_u32(), 26);
    assert_eq!(ServerCode::JoinRoom.as_u32(), 14);

    assert_eq!(ServerCode::try_from(1).unwrap(), ServerCode::Login);
    assert_eq!(ServerCode::try_from(26).unwrap(), ServerCode::FileSearch);
    assert!(ServerCode::try_from(9999).is_err());
}

#[test]
fn test_connection_type_strings() {
    assert_eq!(ConnectionType::Peer.as_str(), "P");
    assert_eq!(ConnectionType::File.as_str(), "F");
    assert_eq!(ConnectionType::Distributed.as_str(), "D");

    assert_eq!(ConnectionType::parse("P").unwrap(), ConnectionType::Peer);
    assert_eq!(ConnectionType::parse("F").unwrap(), ConnectionType::File);
    assert_eq!(ConnectionType::parse("D").unwrap(), ConnectionType::Distributed);
    assert!(ConnectionType::parse("X").is_err());
}

#[test]
fn test_user_status_conversions() {
    assert_eq!(UserStatus::try_from(0).unwrap(), UserStatus::Offline);
    assert_eq!(UserStatus::try_from(1).unwrap(), UserStatus::Away);
    assert_eq!(UserStatus::try_from(2).unwrap(), UserStatus::Online);
    assert!(UserStatus::try_from(99).is_err());

    assert_eq!(u32::from(UserStatus::Offline), 0);
    assert_eq!(u32::from(UserStatus::Online), 2);
}

#[test]
fn test_upload_permission_conversions() {
    assert_eq!(UploadPermission::try_from(0).unwrap(), UploadPermission::NoOne);
    assert_eq!(UploadPermission::try_from(1).unwrap(), UploadPermission::Everyone);
    assert_eq!(UploadPermission::try_from(2).unwrap(), UploadPermission::UsersInList);
    assert_eq!(UploadPermission::try_from(3).unwrap(), UploadPermission::PermittedUsers);
    assert!(UploadPermission::try_from(99).is_err());
}

#[test]
fn test_transfer_direction_conversions() {
    assert_eq!(TransferDirection::try_from(0).unwrap(), TransferDirection::Download);
    assert_eq!(TransferDirection::try_from(1).unwrap(), TransferDirection::Upload);
    assert!(TransferDirection::try_from(99).is_err());

    assert_eq!(u32::from(TransferDirection::Download), 0);
    assert_eq!(u32::from(TransferDirection::Upload), 1);
}

#[test]
fn test_file_attribute_type_conversions() {
    assert_eq!(FileAttributeType::try_from(0).unwrap(), FileAttributeType::Bitrate);
    assert_eq!(FileAttributeType::try_from(1).unwrap(), FileAttributeType::Duration);
    assert_eq!(FileAttributeType::try_from(4).unwrap(), FileAttributeType::SampleRate);
    assert!(FileAttributeType::try_from(99).is_err());
}

#[test]
fn test_obfuscation_type_conversions() {
    assert_eq!(ObfuscationType::try_from(0).unwrap(), ObfuscationType::NoObfuscation);
    assert_eq!(ObfuscationType::try_from(1).unwrap(), ObfuscationType::Rotated);
    assert!(ObfuscationType::try_from(99).is_err());
}

#[test]
fn test_transfer_rejection_reason() {
    assert_eq!(TransferRejectionReason::Banned.as_str(), "Banned");
    assert_eq!(TransferRejectionReason::FileNotShared.as_str(), "File not shared.");

    assert_eq!(
        TransferRejectionReason::from_string("Banned".to_string()),
        TransferRejectionReason::Banned
    );
    assert_eq!(
        TransferRejectionReason::from_string("Custom reason".to_string()),
        TransferRejectionReason::Other("Custom reason".to_string())
    );
}

#[test]
fn test_login_rejection_reason() {
    assert_eq!(
        LoginRejectionReason::from_string("INVALIDUSERNAME".to_string()),
        LoginRejectionReason::InvalidUsername
    );
    assert_eq!(
        LoginRejectionReason::from_string("INVALIDPASS".to_string()),
        LoginRejectionReason::InvalidPassword
    );
    assert_eq!(
        LoginRejectionReason::from_string("UNKNOWN".to_string()),
        LoginRejectionReason::Other("UNKNOWN".to_string())
    );
}

#[test]
fn test_file_attribute() {
    let attr = FileAttribute { code: 0, value: 320 };
    let mut buf = Vec::new();
    slsk_rs::protocol::write_u32(&mut buf, attr.code);
    slsk_rs::protocol::write_u32(&mut buf, attr.value);
    let mut pos = 0;
    assert_eq!(slsk_rs::protocol::read_u32(&buf, &mut pos).unwrap(), 0);
    assert_eq!(slsk_rs::protocol::read_u32(&buf, &mut pos).unwrap(), 320);
}

#[test]
fn test_shared_file() {
    let file = SharedFile {
        filename: "track.mp3".to_string(),
        size: 5_000_000,
        extension: "mp3".to_string(),
        attributes: vec![
            FileAttribute { code: 0, value: 320 },
            FileAttribute { code: 1, value: 180 },
        ],
    };
    let mut buf = Vec::new();
    file.write_to(&mut buf);
    let mut pos = 0;
    let parsed = SharedFile::read_from(&buf, &mut pos).unwrap();
    assert_eq!(parsed.filename, "track.mp3");
    assert_eq!(parsed.size, 5_000_000);
    assert_eq!(parsed.attributes.len(), 2);
}

#[test]
fn test_shared_directory() {
    let dir = SharedDirectory {
        path: "Music/Jazz".to_string(),
        files: vec![
            SharedFile {
                filename: "song1.mp3".to_string(),
                size: 1000,
                extension: "mp3".to_string(),
                attributes: vec![],
            },
            SharedFile {
                filename: "song2.flac".to_string(),
                size: 50000000,
                extension: "flac".to_string(),
                attributes: vec![FileAttribute { code: 0, value: 1411 }],
            },
        ],
    };
    let mut buf = Vec::new();
    dir.write_to(&mut buf);
    let mut pos = 0;
    let parsed = SharedDirectory::read_from(&buf, &mut pos).unwrap();
    assert_eq!(parsed.path, "Music/Jazz");
    assert_eq!(parsed.files.len(), 2);
    assert_eq!(parsed.files[1].extension, "flac");
}

#[test]
fn test_search_result_file() {
    let file = SearchResultFile {
        filename: "found.mp3".to_string(),
        size: 10_000_000,
        extension: "mp3".to_string(),
        attributes: vec![
            FileAttribute { code: 0, value: 256 },
            FileAttribute { code: 1, value: 300 },
        ],
    };
    let mut buf = Vec::new();
    file.write_to(&mut buf);
    let mut pos = 0;
    let parsed = SearchResultFile::read_from(&buf, &mut pos).unwrap();
    assert_eq!(parsed.filename, "found.mp3");
    assert_eq!(parsed.size, 10_000_000);
    assert_eq!(parsed.attributes.len(), 2);
}

fn result(username: &str, filename: &str, bitrate: Option<u32>) -> AccumulatedResult {
    let mut attributes = Vec::new();
    if let Some(b) = bitrate {
        attributes.push(FileAttribute { code: 0, value: b });
    }
    AccumulatedResult {
        username: username.to_string(),
        file: SearchResultFile {
            filename: filename.to_string(),
            size: 1000,
            extension: String::new(),
            attributes,
        },
    }
}

#[test]
fn test_flac_beats_mp3_at_equal_bitrate() {
    let results = vec![
        result("alice", "a.mp3", Some(320)),
        result("bob", "b.flac", Some(320)),
    ];
    assert_eq!(pick_best_file(&results), Some(1));
}

#[test]
fn test_higher_bitrate_wins() {
    let results = vec![
        result("alice", "a.mp3", Some(128)),
        result("bob", "b.mp3", Some(320)),
    ];
    assert_eq!(pick_best_file(&results), Some(1));
}

#[test]
fn test_non_audio_never_selected() {
    let results = vec![
        result("alice", "readme.txt", Some(999)),
        result("bob", "b.mp3", Some(128)),
    ];
    assert_eq!(pick_best_file(&results), Some(1));
    let only_text = vec![result("alice", "notes.pdf", None)];
    assert_eq!(pick_best_file(&only_text), None);
}

#[test]
fn test_case_insensitive_extension() {
    let results = vec![result("alice", "LOUD.MP3", Some(192))];
    assert_eq!(pick_best_file(&results), Some(0));
    assert_eq!(get_bitrate(&results[0].file.attributes), Some(192));
}

#[test]
fn test_search_aggregation_prefers_flac() {
    // Two peers answer one search; the lossless file wins.
    let results = vec![
        result("bob", "Q/Bohemian.flac", None),
        result("carol", "Q/Boh.mp3", Some(320)),
    ];
    assert_eq!(pick_best_file(&results), Some(0));
}

#[test]
fn test_rate_limiter_blocks_after_budget() {
    let mut limiter = SearchRateLimiter::new();
    // 34 sends within one second.
    for i in 0..34u64 {
        assert!(limiter.can_search(i * 29));
        limiter.record_search(i * 29);
    }
    // The budget is spent for the rest of the window.
    assert!(!limiter.can_search(1_000));
    assert!(!limiter.can_search(120_000));
    assert!(!limiter.can_search(219_999));
    let wait = limiter.time_until_next_slot(1_000).unwrap();
    assert_eq!(wait, 219_000);
}

#[test]
fn test_rate_limiter_frees_after_window() {
    let mut limiter = SearchRateLimiter::new();
    for i in 0..34u64 {
        limiter.record_search(i * 29);
    }
    assert!(!limiter.can_search(1_000));
    // After the window passes every slot is free again.
    assert!(limiter.can_search(221_000));
    assert_eq!(limiter.time_until_next_slot(221_000), None);
}

#[test]
fn test_rate_limited_queue_drains() {
    let mut limiter = SearchRateLimiter::new();
    let mut sent: Vec<String> = Vec::new();
    for i in 0..35u64 {
        let query = format!("query {}", i);
        if limiter.can_search(i) {
            limiter.record_search(i);
            sent.push(query);
        } else {
            limiter.queue_search(QueuedSearch::Regular { query });
        }
    }
    // Exactly 34 sent, the 35th queued.
    assert_eq!(sent.len(), 34);
    assert_eq!(limiter.queued_count(), 1);
    // After 220 s the queued search goes out.
    let now = 220_100;
    assert!(limiter.can_search(now));
    match limiter.pop_queued() {
        Some(QueuedSearch::Regular { query }) => {
            limiter.record_search(now);
            sent.push(query);
        },
        _ => panic!("expected the parked search"),
    }
    assert_eq!(sent.len(), 35);
    assert_eq!(sent[34], "query 34");
    assert_eq!(limiter.queued_count(), 0);
}

#[test]
fn test_token_counter_starts_at_one() {
    let mut counter = TokenCounter::new();
    assert_eq!(counter.next_token(), 1);
    assert_eq!(counter.next_token(), 2);
}

#[test]
fn test_negotiation_accepts_matching_request() {
    let filename = "Music/track.mp3".to_string();
    let msg = PeerMessage::TransferRequest {
        direction: TransferDirection::Upload,
        token: 99,
        filename: filename.clone(),
        file_size: Some(5_242_880),
    };
    match negotiation_step(&filename, &msg) {
        NegotiationAction::Accept { token, size } => {
            assert_eq!(token, 99);
            assert_eq!(size, Some(5_242_880));
        },
        _ => panic!("expected acceptance"),
    }
    let queued = PeerMessage::PlaceInQueueResponse { filename: filename.clone(), place: 5 };
    match negotiation_step(&filename, &queued) {
        NegotiationAction::ReportQueued { place } => assert_eq!(place, 5),
        _ => panic!("expected a queue report"),
    }
    let denied = PeerMessage::UploadDenied {
        filename: filename.clone(),
        reason: TransferRejectionReason::Banned,
    };
    match negotiation_step(&filename, &denied) {
        NegotiationAction::Fail { reason } => assert_eq!(reason, TransferRejectionReason::Banned),
        _ => panic!("expected failure"),
    }
    let other = PeerMessage::UploadFailed { filename: "other.mp3".to_string() };
    match negotiation_step(&filename, &other) {
        NegotiationAction::Ignore => {},
        _ => panic!("expected the message to be ignored"),
    }
}

#[test]
fn test_login_response_roundtrip() {
    // A successful login reply decodes to the same fields.
    let mut buf = Vec::new();
    // frame: length, code 1, then bool + greet + ip + hash + bool
    let mut payload = Vec::new();
    slsk_rs::protocol::write_bool(&mut payload, true);
    write_str(&mut payload, "Hello");
    slsk_rs::protocol::write_ipv4(&mut payload, &Ipv4Addr::new(203, 0, 113, 5));
    write_str(&mut payload, "d51c9a7e9353746a6020f9602d452929");
    slsk_rs::protocol::write_bool(&mut payload, false);
    write_u32(&mut buf, 4 + payload.len() as u32);
    write_u32(&mut buf, 1);
    buf.extend_from_slice(&payload);

    let mut pos = 0;
    match read_server_message(&buf, &mut pos).unwrap() {
        ServerResponse::LoginSuccess { greet, own_ip, password_hash, is_supporter } => {
            assert_eq!(greet, "Hello");
            assert_eq!(own_ip, Ipv4Addr::new(203, 0, 113, 5));
            assert_eq!(password_hash, "d51c9a7e9353746a6020f9602d452929");
            assert!(!is_supporter);
        },
        _ => panic!("Wrong message type"),
    }
    assert_eq!(pos, buf.len());
}

#[test]
fn test_connect_to_peer_push_roundtrip() {
    // The server pushes a pierce invitation; the decoder recovers it.
    let mut payload = Vec::new();
    write_str(&mut payload, "dave");
    write_str(&mut payload, "P");
    slsk_rs::protocol::write_ipv4(&mut payload, &Ipv4Addr::new(198, 51, 100, 9));
    write_u32(&mut payload, 34567);
    write_u32(&mut payload, 42);
    slsk_rs::protocol::write_bool(&mut payload, false);
    write_u32(&mut payload, 0);
    write_u32(&mut payload, 0);
    let mut buf = Vec::new();
    write_u32(&mut buf, 4 + payload.len() as u32);
    write_u32(&mut buf, 18);
    buf.extend_from_slice(&payload);

    let mut pos = 0;
    match read_server_message(&buf, &mut pos).unwrap() {
        ServerResponse::ConnectToPeer { username, connection_type, ip, port, token, .. } => {
            assert_eq!(username, "dave");
            assert_eq!(connection_type, ConnectionType::Peer);
            assert_eq!(ip, Ipv4Addr::new(198, 51, 100, 9));
            assert_eq!(port, 34567);
            assert_eq!(token, 42);
            // Piercing answers the push with the same token.
            let pierce = PeerInitMessage::PierceFirewall { token };
            let mut out = Vec::new();
            write_peer_init_message(&pierce, &mut out).unwrap();
            let mut p2 = 0;
            match read_peer_init_message(&out, &mut p2).unwrap() {
                PeerInitMessage::PierceFirewall { token: t } => assert_eq!(t, 42),
                _ => panic!("Wrong message type"),
            }
        },
        _ => panic!("Wrong message type"),
    }
}

#[test]
fn test_upload_denied_roundtrip() {
    let msg = PeerMessage::UploadDenied {
        filename: "x.mp3".to_string(),
        reason: TransferRejectionReason::TooManyFiles,
    };
    let mut buf = Vec::new();
    slsk_rs::peer::write_peer_message(&msg, &mut buf).unwrap();
    let mut pos = 0;
    match slsk_rs::peer::read_peer_message(&buf, &mut pos).unwrap() {
        PeerMessage::UploadDenied { filename, reason } => {
            assert_eq!(filename, "x.mp3");
            assert_eq!(reason, TransferRejectionReason::TooManyFiles);
        },
        _ => panic!("Wrong message type"),
    }
}

#[test]
fn test_file_search_response_zlib_roundtrip() {
    let msg = PeerMessage::FileSearchResponse {
        username: "bob".to_string(),
        token: 7,
        results: vec![SearchResultFile {
            filename: "Q/Bohemian.flac".to_string(),
            size: 50_000_000,
            extension: "flac".to_string(),
            attributes: vec![],
        }],
        slot_free: true,
        avg_speed: 1000,
        queue_length: 0,
        private_results: vec![],
    };
    let mut buf = Vec::new();
    slsk_rs::peer::write_peer_message(&msg, &mut buf).unwrap();
    let mut pos = 0;
    match slsk_rs::peer::read_peer_message(&buf, &mut pos).unwrap() {
        PeerMessage::FileSearchResponse { username, token, results, slot_free, .. } => {
            assert_eq!(username, "bob");
            assert_eq!(token, 7);
            assert_eq!(results.len(), 1);
            assert_eq!(results[0].filename, "Q/Bohemian.flac");
            assert_eq!(results[0].size, 50_000_000);
            assert!(slot_free);
        },
        _ => panic!("Wrong message type"),
    }
}

#[test]
fn test_track_to_search_query() {
    let track = SpotifyTrack {
        id: "abc".to_string(),
        name: "Bohemian Rhapsody".to_string(),
        artists: vec!["Queen".to_string()],
        album: "A Night at the Opera".to_string(),
        duration_ms: 354000,
    };
    assert_eq!(track.to_search_query(), "Queen Bohemian Rhapsody");
}

#[test]
fn test_track_display_name() {
    let track = SpotifyTrack {
        id: "abc".to_string(),
        name: "Under Pressure".to_string(),
        artists: vec!["Queen".to_string(), "David Bowie".to_string()],
        album: "Hot Space".to_string(),
        duration_ms: 248000,
    };
    assert_eq!(track.display_name(), "Queen, David Bowie - Under Pressure");
}

#[test]
fn test_soulseek_playlist_from_spotify() {
    let spotify_playlist = SpotifyPlaylist {
        id: "123".to_string(),
        name: "Test Playlist".to_string(),
        tracks: vec![
            SpotifyTrack {
                id: "1".to_string(),
                name: "Song One".to_string(),
                artists: vec!["Artist A".to_string()],
                album: "Album".to_string(),
                duration_ms: 180000,
            },
            SpotifyTrack {
                id: "2".to_string(),
                name: "Song Two".to_string(),
                artists: vec!["Artist B".to_string()],
                album: "Album".to_string(),
                duration_ms: 200000,
            },
        ],
    };

    let slsk_playlist = SoulseekPlaylist::from_spotify_playlist(spotify_playlist);

    assert_eq!(slsk_playlist.name, "Test Playlist");
    assert_eq!(slsk_playlist.tracks.len(), 2);
    assert_eq!(slsk_playlist.tracks[0].search_query, "Artist A Song One");
    assert_eq!(slsk_playlist.tracks[1].search_query, "Artist B Song Two");
    assert_eq!(slsk_playlist.matched_count(), 0);
}

#[test]
fn test_matched_count() {
    let mut playlist = SoulseekPlaylist {
        name: "Test".to_string(),
        tracks: vec![
            SoulseekPlaylistTrack {
                spotify_track: SpotifyTrack {
                    id: "1".to_string(),
                    name: "Song".to_string(),
                    artists: vec!["Artist".to_string()],
                    album: "Album".to_string(),
                    duration_ms: 180000,
                },
                search_query: "Artist Song".to_string(),
                matched_file: None,
            },
            SoulseekPlaylistTrack {
                spotify_track: SpotifyTrack {
                    id: "2".to_string(),
                    name: "Song 2".to_string(),
                    artists: vec!["Artist".to_string()],
                    album: "Album".to_string(),
                    duration_ms: 180000,
                },
                search_query: "Artist Song 2".to_string(),
                matched_file: Some(MatchedFile {
                    username: "user".to_string(),
                    filename: "song2.mp3".to_string(),
                    size: 5000000,
                    bitrate: Some(320),
                }),
            },
        ],
    };

    assert_eq!(playlist.matched_count(), 1);
    assert_eq!(playlist.unmatched_tracks().len(), 1);

    playlist.tracks[0].matched_file = Some(MatchedFile {
        username: "user".to_string(),
        filename: "song.mp3".to_string(),
        size: 4000000,
        bitrate: Some(320),
    });

    assert_eq!(playlist.matched_count(), 2);
    assert_eq!(playlist.unmatched_tracks().len(), 0);
}

#[test]
fn test_pick_best_files_one_per_username() {
    // Duplicate usernames yield one candidate each, the user's best.
    let results = vec![
        result("alice", "low.mp3", Some(128)),
        result("alice", "high.mp3", Some(320)),
        result("bob", "song.flac", None),
        result("carol", "notes.txt", Some(999)),
    ];
    let picks = pick_best_files(&results, &Vec::new());
    assert_eq!(picks.len(), 2);
    let users: Vec<&str> = picks.iter().map(|&i| results[i].username.as_str()).collect();
    assert!(users.contains(&"alice"));
    assert!(users.contains(&"bob"));
    // alice's pick is her best file.
    for &i in &picks {
        if results[i].username == "alice" {
            assert_eq!(results[i].file.filename, "high.mp3");
        }
    }
}

#[test]
fn test_pick_best_files_excludes_users() {
    let results = vec![
        result("alice", "a.mp3", Some(320)),
        result("bob", "b.mp3", Some(128)),
    ];
    let picks = pick_best_files(&results, &vec!["alice".to_string()]);
    assert_eq!(picks.len(), 1);
    assert_eq!(results[picks[0]].username, "bob");
}

#[test]
fn test_coordinator_login_sequencing() {
    let mut st = CoordState { authenticated: false, listen_port: 2234 };
    let ok = ServerResponse::LoginSuccess {
        greet: "Hello".to_string(),
        own_ip: Ipv4Addr::new(203, 0, 113, 5),
        password_hash: "d51c9a7e9353746a6020f9602d452929".to_string(),
        is_supporter: false,
    };
    let acts = coordinator_step(&mut st, &ok);
    assert!(st.authenticated);
    assert_eq!(acts, vec![
        CoordAction::SendSetStatusOnline,
        CoordAction::SendSetWaitPort { port: 2234 },
    ]);
}

#[test]
fn test_coordinator_pierces_peer_push() {
    let mut st = CoordState { authenticated: true, listen_port: 2234 };
    let push = ServerResponse::ConnectToPeer {
        username: "dave".to_string(),
        connection_type: ConnectionType::Peer,
        ip: Ipv4Addr::new(198, 51, 100, 9),
        port: 34567,
        token: 42,
        privileged: false,
        obfuscation_type: ObfuscationType::NoObfuscation,
        obfuscated_port: 0,
    };
    let acts = coordinator_step(&mut st, &push);
    assert_eq!(acts, vec![CoordAction::Pierce {
        ip: Ipv4Addr::new(198, 51, 100, 9),
        port: 34567,
        token: 42,
    }]);
}

#[test]
fn test_unknown_server_code_fails_frame() {
    let mut buf = Vec::new();
    write_u32(&mut buf, 8);
    write_u32(&mut buf, 9999);
    write_u32(&mut buf, 7);
    let mut pos = 0;
    match read_server_message(&buf, &mut pos) {
        Err(Error::InvalidMessageCode(c)) => assert_eq!(c, 9999),
        _ => panic!("expected an unknown-code failure"),
    }
}

#[test]
fn test_read_server_request_roundtrip() {
    // The relay side parses back what the client encodes.
    let req = ServerRequest::FileSearch { token: 31, query: "led zeppelin".to_string() };
    let mut buf = Vec::new();
    write_server_request(&req, &mut buf).unwrap();
    let mut pos = 0;
    match slsk_rs::server::read_server_request(&buf, &mut pos).unwrap() {
        ServerRequest::FileSearch { token, query } => {
            assert_eq!(token, 31);
            assert_eq!(query, "led zeppelin");
        },
        _ => panic!("Wrong message type"),
    }
    assert_eq!(pos, buf.len());

    let login = ServerRequest::Login {
        username: "alice".to_string(),
        password: "s3cret".to_string(),
        version: 160,
        minor_version: 3,
    };
    let mut buf2 = Vec::new();
    write_server_request(&login, &mut buf2).unwrap();
    let mut pos2 = 0;
    match slsk_rs::server::read_server_request(&buf2, &mut pos2).unwrap() {
        ServerRequest::Login { username, password, version, minor_version } => {
            assert_eq!(username, "alice");
            assert_eq!(password, "s3cret");
            assert_eq!(version, 160);
            assert_eq!(minor_version, 3);
        },
        _ => panic!("Wrong message type"),
    }
    assert_eq!(pos2, buf2.len());
}

#[test]
fn test_unknown_request_code_fails_frame() {
    let mut buf = Vec::new();
    write_u32(&mut buf, 8);
    write_u32(&mut buf, 8888);
    write_u32(&mut buf, 7);
    let mut pos = 0;
    match slsk_rs::server::read_server_request(&buf, &mut pos) {
        Err(Error::InvalidMessageCode(c)) => assert_eq!(c, 8888),
        _ => panic!("expected an unknown-code failure"),
    }
}

#[test]
fn test_submit_search_sends_or_parks() {
    let mut limiter = SearchRateLimiter::new();
    let mut sent = 0;
    let mut parked = 0;
    for i in 0..35u64 {
        match limiter.submit_search(QueuedSearch::Regular { query: format!("q{}", i) }, i * 28) {
            SearchDecision::SendNow => sent += 1,
            SearchDecision::Parked => parked += 1,
        }
    }
    assert_eq!(sent, 34);
    assert_eq!(parked, 1);
    assert_eq!(limiter.queued_count(), 1);
    // The parked search goes out once the window has passed.
    assert!(limiter.can_search(221_000));
    assert!(limiter.pop_queued().is_some());
    match limiter.submit_search(QueuedSearch::Regular { query: "q34".to_string() }, 221_000) {
        SearchDecision::SendNow => {},
        SearchDecision::Parked => panic!("a slot was free"),
    }
}

#[test]
fn test_write_server_response_roundtrip() {
    let reply = ServerResponse::LoginSuccess {
        greet: "Hello".to_string(),
        own_ip: Ipv4Addr::new(203, 0, 113, 5),
        password_hash: "d51c9a7e9353746a6020f9602d452929".to_string(),
        is_supporter: false,
    };
    let mut buf = Vec::new();
    write_server_response(&reply, &mut buf).unwrap();
    let mut pos = 0;
    match read_server_message(&buf, &mut pos).unwrap() {
        ServerResponse::LoginSuccess { greet, own_ip, password_hash, is_supporter } => {
            assert_eq!(greet, "Hello");
            assert_eq!(own_ip, Ipv4Addr::new(203, 0, 113, 5));
            assert_eq!(password_hash, "d51c9a7e9353746a6020f9602d452929");
            assert!(!is_supporter);
        },
        _ => panic!("Wrong message type"),
    }
    assert_eq!(pos, buf.len());

    // A room reply: the five parallel user lists zip back together.
    let room_reply = ServerResponse::JoinRoom {
        room: "Music".to_string(),
        users: vec![slsk_rs::server::RoomUser {
            username: "erin".to_string(),
            status: UserStatus::Online,
            stats: UserStats { avg_speed: 9, upload_num: 1, unknown: 0, files: 2, dirs: 1 },
            slots_full: false,
            country_code: "DE".to_string(),
        }],
        owner: None,
        operators: vec![],
    };
    let mut buf2 = Vec::new();
    write_server_response(&room_reply, &mut buf2).unwrap();
    let mut pos2 = 0;
    match read_server_message(&buf2, &mut pos2).unwrap() {
        ServerResponse::JoinRoom { room, users, owner, operators } => {
            assert_eq!(room, "Music");
            assert_eq!(users.len(), 1);
            assert_eq!(users[0].username, "erin");
            assert_eq!(users[0].status, UserStatus::Online);
            assert_eq!(users[0].stats.avg_speed, 9);
            assert!(!users[0].slots_full);
            assert_eq!(users[0].country_code, "DE");
            assert!(owner.is_none());
            assert!(operators.is_empty());
        },
        _ => panic!("Wrong message type"),
    }
    assert_eq!(pos2, buf2.len());
}
