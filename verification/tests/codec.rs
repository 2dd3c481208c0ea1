//! Round-trip and framing tests for the four wire protocols.

use slsk_rs::constants::{ConnectionType, TransferDirection, UserStatus};
use slsk_rs::distributed::{read_distributed_message, write_distributed_message, DistributedMessage};
use slsk_rs::file::{FileOffset, FileTransferInit};
use slsk_rs::peer::{
    read_peer_message, write_peer_message, FileAttribute, PeerMessage, SharedDirectory, SharedFile,
};
use slsk_rs::peer_init::{
    peer_init_message_size, read_peer_init_message, write_peer_init_message, PeerInitMessage,
};
use slsk_rs::protocol::{
    login_hash, message_size, read_bool, read_i32, read_ipv4, read_string, read_u16, read_u32,
    read_u64, read_u8, write_bool, write_i32, write_ipv4, write_str, write_u16, write_u32,
    write_u64, write_u8, zlib_compress, zlib_decompress, Error, Ipv4Addr,
};
use slsk_rs::server::{write_server_request, ServerRequest};

#[test]
fn protocol_test_u32_roundtrip() {
    let mut buf = Vec::new();
    write_u32(&mut buf, 42u32);
    let mut pos = 0;
    assert_eq!(read_u32(&buf, &mut pos).unwrap(), 42);
}

#[test]
fn protocol_test_string_roundtrip() {
    let mut buf = Vec::new();
    write_str(&mut buf, "hello");
    let mut pos = 0;
    assert_eq!(read_string(&buf, &mut pos).unwrap(), "hello");
}

#[test]
fn test_ip_roundtrip() {
    let mut buf = Vec::new();
    let ip = Ipv4Addr::new(192, 168, 1, 1);
    write_ipv4(&mut buf, &ip);
    let mut pos = 0;
    assert_eq!(read_ipv4(&buf, &mut pos).unwrap(), ip);
}

#[test]
fn test_login_hash() {
    let hash = login_hash("username", "password");
    assert_eq!(hash, "d51c9a7e9353746a6020f9602d452929");
}

#[test]
fn protocol_test_zlib_roundtrip() {
    let original = b"hello world, this is a test of compression".to_vec();
    let compressed = zlib_compress(&original);
    let decompressed = zlib_decompress(&compressed).unwrap();
    assert_eq!(decompressed, original);
}

#[test]
fn peer_init_test_pierce_firewall_roundtrip() {
    let msg = PeerInitMessage::PierceFirewall { token: 12345 };
    let mut buf = Vec::new();
    write_peer_init_message(&msg, &mut buf).unwrap();
    let mut pos = 0;
    match read_peer_init_message(&buf, &mut pos).unwrap() {
        PeerInitMessage::PierceFirewall { token } => assert_eq!(token, 12345),
        _ => panic!("Wrong message type"),
    }
}

#[test]
fn test_peer_init_roundtrip() {
    let msg = PeerInitMessage::PeerInit {
        username: "testuser".to_string(),
        connection_type: ConnectionType::Peer,
        token: 0,
    };
    let mut buf = Vec::new();
    write_peer_init_message(&msg, &mut buf).unwrap();
    let mut pos = 0;
    match read_peer_init_message(&buf, &mut pos).unwrap() {
        PeerInitMessage::PeerInit { username, connection_type, token } => {
            assert_eq!(username, "testuser");
            assert_eq!(connection_type, ConnectionType::Peer);
            assert_eq!(token, 0);
        },
        _ => panic!("Wrong message type"),
    }
}

#[test]
fn test_read_peer_init_incomplete_length() {
    let buf = vec![0u8, 1, 2];
    let mut pos = 0;
    assert!(read_peer_init_message(&buf, &mut pos).is_err());
}

#[test]
fn test_read_peer_init_incomplete_payload() {
    let msg = PeerInitMessage::PeerInit {
        username: "testuser".to_string(),
        connection_type: ConnectionType::Peer,
        token: 12345,
    };
    let mut buf = Vec::new();
    write_peer_init_message(&msg, &mut buf).unwrap();
    buf.truncate(6);
    let mut pos = 0;
    assert!(read_peer_init_message(&buf, &mut pos).is_err());
}

#[test]
fn test_read_peer_init_with_trailing_data() {
    let msg = PeerInitMessage::PeerInit {
        username: "testuser".to_string(),
        connection_type: ConnectionType::Peer,
        token: 42,
    };
    let mut buf = Vec::new();
    write_peer_init_message(&msg, &mut buf).unwrap();
    let frame_len = buf.len();
    buf.extend_from_slice(&[0xDE, 0xAD, 0xBE, 0xEF, 0x01, 0x02, 0x03, 0x04]);

    let mut pos = 0;
    match read_peer_init_message(&buf, &mut pos).unwrap() {
        PeerInitMessage::PeerInit { username, token, .. } => {
            assert_eq!(username, "testuser");
            assert_eq!(token, 42);
        },
        _ => panic!("Wrong message type"),
    }
    // Trailing data is not consumed.
    assert_eq!(pos, frame_len);
    assert_eq!(buf.len() - pos, 8);
    assert_eq!(&buf[pos..pos + 4], &[0xDE, 0xAD, 0xBE, 0xEF]);
}

#[test]
fn test_peer_init_message_size() {
    let msg = PeerInitMessage::PeerInit {
        username: "user".to_string(),
        connection_type: ConnectionType::Peer,
        token: 1,
    };
    let mut buf = Vec::new();
    write_peer_init_message(&msg, &mut buf).unwrap();
    let complete_len = buf.len();

    assert_eq!(peer_init_message_size(&Vec::new()), None);
    assert_eq!(peer_init_message_size(&buf[..3].to_vec()), None);
    assert_eq!(peer_init_message_size(&buf[..4].to_vec()), None);
    assert_eq!(peer_init_message_size(&buf[..complete_len - 1].to_vec()), None);
    assert_eq!(peer_init_message_size(&buf), Some(complete_len));

    buf.extend_from_slice(&[1, 2, 3, 4]);
    assert_eq!(peer_init_message_size(&buf), Some(complete_len));
}

#[test]
fn peer_test_queue_upload_roundtrip() {
    let msg = PeerMessage::QueueUpload { filename: "Music/test.mp3".to_string() };
    let mut buf = Vec::new();
    write_peer_message(&msg, &mut buf).unwrap();
    let mut pos = 0;
    match read_peer_message(&buf, &mut pos).unwrap() {
        PeerMessage::QueueUpload { filename } => assert_eq!(filename, "Music/test.mp3"),
        _ => panic!("Wrong message type"),
    }
}

#[test]
fn test_transfer_request_roundtrip() {
    let msg = PeerMessage::TransferRequest {
        direction: TransferDirection::Upload,
        token: 12345,
        filename: "test.mp3".to_string(),
        file_size: Some(1024),
    };
    let mut buf = Vec::new();
    write_peer_message(&msg, &mut buf).unwrap();
    let mut pos = 0;
    match read_peer_message(&buf, &mut pos).unwrap() {
        PeerMessage::TransferRequest { direction, token, filename, file_size } => {
            assert_eq!(direction, TransferDirection::Upload);
            assert_eq!(token, 12345);
            assert_eq!(filename, "test.mp3");
            assert_eq!(file_size, Some(1024));
        },
        _ => panic!("Wrong message type"),
    }
}

#[test]
fn distributed_test_search_roundtrip() {
    let msg = DistributedMessage::Search {
        unknown: 0,
        username: "testuser".to_string(),
        token: 12345,
        query: "test query".to_string(),
    };
    let mut buf = Vec::new();
    write_distributed_message(&msg, &mut buf).unwrap();
    let mut pos = 0;
    match read_distributed_message(&buf, &mut pos).unwrap() {
        DistributedMessage::Search { unknown, username, token, query } => {
            assert_eq!(unknown, 0);
            assert_eq!(username, "testuser");
            assert_eq!(token, 12345);
            assert_eq!(query, "test query");
        },
        _ => panic!("Wrong message type"),
    }
}

#[test]
fn distributed_test_branch_level_roundtrip() {
    let msg = DistributedMessage::BranchLevel { level: 5 };
    let mut buf = Vec::new();
    write_distributed_message(&msg, &mut buf).unwrap();
    let mut pos = 0;
    match read_distributed_message(&buf, &mut pos).unwrap() {
        DistributedMessage::BranchLevel { level } => assert_eq!(level, 5),
        _ => panic!("Wrong message type"),
    }
}

#[test]
fn file_test_file_transfer_init_roundtrip() {
    let init = FileTransferInit::new(12345);
    let mut buf = Vec::new();
    init.write_to(&mut buf);
    let mut pos = 0;
    assert_eq!(FileTransferInit::read_from(&buf, &mut pos).unwrap().token, 12345);
}

#[test]
fn file_test_file_offset_roundtrip() {
    let offset = FileOffset::new(1024 * 1024 * 500);
    let mut buf = Vec::new();
    offset.write_to(&mut buf);
    let mut pos = 0;
    assert_eq!(FileOffset::read_from(&buf, &mut pos).unwrap().offset, 1024 * 1024 * 500);
}

#[test]
fn test_login_request() {
    let req = ServerRequest::Login {
        username: "testuser".to_string(),
        password: "testpass".to_string(),
        version: 160,
        minor_version: 1,
    };
    let mut buf = Vec::new();
    write_server_request(&req, &mut buf).unwrap();
    assert!(buf.len() > 8);
}

#[test]
fn server_test_file_search_request() {
    let req = ServerRequest::FileSearch { token: 12345, query: "test query".to_string() };
    let mut buf = Vec::new();
    write_server_request(&req, &mut buf).unwrap();
    assert!(buf.len() > 8);
}

#[test]
fn test_u8_roundtrip() {
    let mut buf = Vec::new();
    write_u8(&mut buf, 255u8);
    let mut pos = 0;
    assert_eq!(read_u8(&buf, &mut pos).unwrap(), 255);
}

#[test]
fn test_u16_roundtrip() {
    let mut buf = Vec::new();
    write_u16(&mut buf, 65535u16);
    let mut pos = 0;
    assert_eq!(read_u16(&buf, &mut pos).unwrap(), 65535);
}

#[test]
fn integration_test_u32_roundtrip() {
    let mut buf = Vec::new();
    write_u32(&mut buf, 0xDEADBEEFu32);
    let mut pos = 0;
    assert_eq!(read_u32(&buf, &mut pos).unwrap(), 0xDEADBEEF);
}

#[test]
fn test_i32_roundtrip() {
    let mut buf = Vec::new();
    write_i32(&mut buf, -12345i32);
    let mut pos = 0;
    assert_eq!(read_i32(&buf, &mut pos).unwrap(), -12345);
}

#[test]
fn test_u64_roundtrip() {
    let mut buf = Vec::new();
    write_u64(&mut buf, 0xDEADBEEFCAFEBABEu64);
    let mut pos = 0;
    assert_eq!(read_u64(&buf, &mut pos).unwrap(), 0xDEADBEEFCAFEBABE);
}

#[test]
fn test_bool_roundtrip() {
    let mut buf = Vec::new();
    write_bool(&mut buf, true);
    write_bool(&mut buf, false);
    let mut pos = 0;
    assert!(read_bool(&buf, &mut pos).unwrap());
    assert!(!read_bool(&buf, &mut pos).unwrap());
}

#[test]
fn integration_test_string_roundtrip() {
    let mut buf = Vec::new();
    write_str(&mut buf, "hello world");
    let mut pos = 0;
    assert_eq!(read_string(&buf, &mut pos).unwrap(), "hello world");
}

#[test]
fn test_empty_string_roundtrip() {
    let mut buf = Vec::new();
    write_str(&mut buf, "");
    let mut pos = 0;
    assert_eq!(read_string(&buf, &mut pos).unwrap(), "");
}

#[test]
fn test_unicode_string_roundtrip() {
    let mut buf = Vec::new();
    write_str(&mut buf, "日本語テスト 🎵");
    let mut pos = 0;
    assert_eq!(read_string(&buf, &mut pos).unwrap(), "日本語テスト 🎵");
}

#[test]
fn test_ipv4_roundtrip() {
    let mut buf = Vec::new();
    let ip = Ipv4Addr::new(192, 168, 1, 100);
    write_ipv4(&mut buf, &ip);
    let mut pos = 0;
    assert_eq!(read_ipv4(&buf, &mut pos).unwrap(), ip);
    // The dotted quad a.b.c.d travels reversed: d, c, b, a.
    assert_eq!(buf, vec![100u8, 1, 168, 192]);
}

#[test]
fn test_buffer_underflow_u32() {
    let buf = vec![0u8, 1, 2];
    let mut pos = 0;
    match read_u32(&buf, &mut pos) {
        Err(Error::BufferUnderflow { needed, available }) => {
            assert_eq!(needed, 4);
            assert_eq!(available, 3);
        },
        _ => panic!("expected a buffer underflow"),
    }
    // Nothing was consumed.
    assert_eq!(pos, 0);
}

#[test]
fn integration_test_zlib_roundtrip() {
    let original = b"The quick brown fox jumps over the lazy dog".to_vec();
    let compressed = zlib_compress(&original);
    let decompressed = zlib_decompress(&compressed).unwrap();
    assert_eq!(decompressed, original);
}

#[test]
fn test_zlib_empty() {
    let original: Vec<u8> = Vec::new();
    let compressed = zlib_compress(&original);
    let decompressed = zlib_decompress(&compressed).unwrap();
    assert_eq!(decompressed, original);
}

#[test]
fn test_zlib_large_data() {
    let original: Vec<u8> = (0..10000).map(|i| (i % 256) as u8).collect();
    let compressed = zlib_compress(&original);
    let decompressed = zlib_decompress(&compressed).unwrap();
    assert_eq!(decompressed, original);
    assert!(compressed.len() < original.len());
}

#[test]
fn test_login_hash_known_value() {
    let hash = login_hash("username", "password");
    assert_eq!(hash, "d51c9a7e9353746a6020f9602d452929");
}

#[test]
fn test_message_size_probe() {
    let msg = PeerMessage::QueueUpload { filename: "a.mp3".to_string() };
    let mut buf = Vec::new();
    write_peer_message(&msg, &mut buf).unwrap();
    let n = buf.len();
    for cut in 0..n {
        assert_eq!(message_size(&buf[..cut].to_vec()), None);
    }
    assert_eq!(message_size(&buf), Some(n));
}

#[test]
fn test_ping_roundtrip() {
    let msg = DistributedMessage::Ping;
    let mut buf = Vec::new();
    write_distributed_message(&msg, &mut buf).unwrap();
    let mut pos = 0;
    assert!(matches!(
        read_distributed_message(&buf, &mut pos).unwrap(),
        DistributedMessage::Ping
    ));
}

#[test]
fn test_branch_root_roundtrip() {
    let msg = DistributedMessage::BranchRoot { root: "rootuser".to_string() };
    let mut buf = Vec::new();
    write_distributed_message(&msg, &mut buf).unwrap();
    let mut pos = 0;
    match read_distributed_message(&buf, &mut pos).unwrap() {
        DistributedMessage::BranchRoot { root } => assert_eq!(root, "rootuser"),
        _ => panic!("Wrong message type"),
    }
}

#[test]
fn test_child_depth_roundtrip() {
    let msg = DistributedMessage::ChildDepth { depth: 3 };
    let mut buf = Vec::new();
    write_distributed_message(&msg, &mut buf).unwrap();
    let mut pos = 0;
    match read_distributed_message(&buf, &mut pos).unwrap() {
        DistributedMessage::ChildDepth { depth } => assert_eq!(depth, 3),
        _ => panic!("Wrong message type"),
    }
}

#[test]
fn test_peer_init_p_connection() {
    let msg = PeerInitMessage::PeerInit {
        username: "testuser".to_string(),
        connection_type: ConnectionType::Peer,
        token: 12345,
    };
    let mut buf = Vec::new();
    write_peer_init_message(&msg, &mut buf).unwrap();
    let mut pos = 0;
    match read_peer_init_message(&buf, &mut pos).unwrap() {
        PeerInitMessage::PeerInit { username, connection_type, token } => {
            assert_eq!(username, "testuser");
            assert_eq!(connection_type, ConnectionType::Peer);
            assert_eq!(token, 12345);
        },
        _ => panic!("Wrong message type"),
    }
}

#[test]
fn test_peer_init_f_connection() {
    let msg = PeerInitMessage::PeerInit {
        username: "uploader".to_string(),
        connection_type: ConnectionType::File,
        token: 99999,
    };
    let mut buf = Vec::new();
    write_peer_init_message(&msg, &mut buf).unwrap();
    let mut pos = 0;
    match read_peer_init_message(&buf, &mut pos).unwrap() {
        PeerInitMessage::PeerInit { username, connection_type, token } => {
            assert_eq!(username, "uploader");
            assert_eq!(connection_type, ConnectionType::File);
            assert_eq!(token, 99999);
        },
        _ => panic!("Wrong message type"),
    }
}

#[test]
fn test_peer_init_d_connection() {
    let msg = PeerInitMessage::PeerInit {
        username: "parent".to_string(),
        connection_type: ConnectionType::Distributed,
        token: 0,
    };
    let mut buf = Vec::new();
    write_peer_init_message(&msg, &mut buf).unwrap();
    let mut pos = 0;
    match read_peer_init_message(&buf, &mut pos).unwrap() {
        PeerInitMessage::PeerInit { username, connection_type, .. } => {
            assert_eq!(username, "parent");
            assert_eq!(connection_type, ConnectionType::Distributed);
        },
        _ => panic!("Wrong message type"),
    }
}

#[test]
fn test_transfer_request_download_roundtrip() {
    let msg = PeerMessage::TransferRequest {
        direction: TransferDirection::Download,
        token: 99999,
        filename: "test.mp3".to_string(),
        file_size: None,
    };
    let mut buf = Vec::new();
    write_peer_message(&msg, &mut buf).unwrap();
    let mut pos = 0;
    match read_peer_message(&buf, &mut pos).unwrap() {
        PeerMessage::TransferRequest { direction, token, filename, file_size } => {
            assert_eq!(direction, TransferDirection::Download);
            assert_eq!(token, 99999);
            assert_eq!(filename, "test.mp3");
            assert!(file_size.is_none());
        },
        _ => panic!("Wrong message type"),
    }
}

#[test]
fn test_place_in_queue_response_roundtrip() {
    let msg = PeerMessage::PlaceInQueueResponse { filename: "track.mp3".to_string(), place: 5 };
    let mut buf = Vec::new();
    write_peer_message(&msg, &mut buf).unwrap();
    let mut pos = 0;
    match read_peer_message(&buf, &mut pos).unwrap() {
        PeerMessage::PlaceInQueueResponse { filename, place } => {
            assert_eq!(filename, "track.mp3");
            assert_eq!(place, 5);
        },
        _ => panic!("Wrong message type"),
    }
}

#[test]
fn test_upload_failed_roundtrip() {
    let msg = PeerMessage::UploadFailed { filename: "missing.mp3".to_string() };
    let mut buf = Vec::new();
    write_peer_message(&msg, &mut buf).unwrap();
    let mut pos = 0;
    match read_peer_message(&buf, &mut pos).unwrap() {
        PeerMessage::UploadFailed { filename } => assert_eq!(filename, "missing.mp3"),
        _ => panic!("Wrong message type"),
    }
}

#[test]
fn test_user_info_request_roundtrip() {
    let msg = PeerMessage::UserInfoRequest;
    let mut buf = Vec::new();
    write_peer_message(&msg, &mut buf).unwrap();
    let mut pos = 0;
    assert!(matches!(read_peer_message(&buf, &mut pos).unwrap(), PeerMessage::UserInfoRequest));
}

#[test]
fn test_shared_file_list_request_roundtrip() {
    let msg = PeerMessage::SharedFileListRequest;
    let mut buf = Vec::new();
    write_peer_message(&msg, &mut buf).unwrap();
    let mut pos = 0;
    assert!(matches!(
        read_peer_message(&buf, &mut pos).unwrap(),
        PeerMessage::SharedFileListRequest
    ));
}

#[test]
fn test_folder_contents_request_roundtrip() {
    let msg = PeerMessage::FolderContentsRequest { token: 42, folder: "Music/Jazz".to_string() };
    let mut buf = Vec::new();
    write_peer_message(&msg, &mut buf).unwrap();
    let mut pos = 0;
    match read_peer_message(&buf, &mut pos).unwrap() {
        PeerMessage::FolderContentsRequest { token, folder } => {
            assert_eq!(token, 42);
            assert_eq!(folder, "Music/Jazz");
        },
        _ => panic!("Wrong message type"),
    }
}

#[test]
fn test_file_offset_zero() {
    let offset = FileOffset::new(0);
    let mut buf = Vec::new();
    offset.write_to(&mut buf);
    let mut pos = 0;
    assert_eq!(FileOffset::read_from(&buf, &mut pos).unwrap().offset, 0);
}

#[test]
fn test_shared_directory_roundtrip() {
    // A directory with two files survives a write and read.
    let dir = SharedDirectory {
        path: "Music/Jazz".to_string(),
        files: vec![
            SharedFile {
                filename: "a.mp3".to_string(),
                size: 9,
                extension: "mp3".to_string(),
                attributes: vec![FileAttribute { code: 0, value: 320 }],
            },
            SharedFile {
                filename: "b.flac".to_string(),
                size: 11,
                extension: "flac".to_string(),
                attributes: vec![],
            },
        ],
    };
    let mut buf = Vec::new();
    dir.write_to(&mut buf);
    let mut pos = 0;
    let parsed = SharedDirectory::read_from(&buf, &mut pos).unwrap();
    assert_eq!(parsed.path, "Music/Jazz");
    assert_eq!(parsed.files.len(), 2);
    assert_eq!(parsed.files[0].attributes[0].value, 320);
    assert_eq!(pos, buf.len());
}

#[test]
fn test_shared_file_list_response_zlib_roundtrip() {
    let msg = PeerMessage::SharedFileListResponse {
        directories: vec![SharedDirectory {
            path: "Music".to_string(),
            files: vec![SharedFile {
                filename: "a.mp3".to_string(),
                size: 7,
                extension: "mp3".to_string(),
                attributes: vec![FileAttribute { code: 0, value: 192 }],
            }],
        }],
        private_directories: vec![],
    };
    let mut buf = Vec::new();
    write_peer_message(&msg, &mut buf).unwrap();
    let mut pos = 0;
    match read_peer_message(&buf, &mut pos).unwrap() {
        PeerMessage::SharedFileListResponse { directories, private_directories } => {
            assert_eq!(directories.len(), 1);
            assert_eq!(directories[0].path, "Music");
            assert_eq!(directories[0].files[0].filename, "a.mp3");
            assert_eq!(directories[0].files[0].attributes[0].value, 192);
            assert!(private_directories.is_empty());
        },
        _ => panic!("Wrong message type"),
    }
    assert_eq!(pos, buf.len());
}

#[test]
fn test_user_info_response_roundtrip() {
    let msg = PeerMessage::UserInfoResponse {
        description: "hi".to_string(),
        picture: Some(vec![1, 2, 3]),
        total_uploads: 4,
        queue_size: 5,
        slots_free: true,
        upload_permitted: Some(slsk_rs::constants::UploadPermission::Everyone),
    };
    let mut buf = Vec::new();
    write_peer_message(&msg, &mut buf).unwrap();
    let mut pos = 0;
    match read_peer_message(&buf, &mut pos).unwrap() {
        PeerMessage::UserInfoResponse {
            description,
            picture,
            total_uploads,
            queue_size,
            slots_free,
            upload_permitted,
        } => {
            assert_eq!(description, "hi");
            assert_eq!(picture, Some(vec![1, 2, 3]));
            assert_eq!(total_uploads, 4);
            assert_eq!(queue_size, 5);
            assert!(slots_free);
            assert_eq!(upload_permitted, Some(slsk_rs::constants::UploadPermission::Everyone));
        },
        _ => panic!("Wrong message type"),
    }
    assert_eq!(pos, buf.len());
}

#[test]
fn integration_test_queue_upload_roundtrip() {
    let msg = PeerMessage::QueueUpload { filename: "Music/Artist/Album/track01.mp3".to_string() };
    let mut buf = Vec::new();
    write_peer_message(&msg, &mut buf).unwrap();
    let mut pos = 0;
    match read_peer_message(&buf, &mut pos).unwrap() {
        PeerMessage::QueueUpload { filename } => {
            assert_eq!(filename, "Music/Artist/Album/track01.mp3");
        },
        _ => panic!("Wrong message type"),
    }
}

#[test]
fn test_transfer_request_upload_roundtrip() {
    let msg = PeerMessage::TransferRequest {
        direction: TransferDirection::Upload,
        token: 12345,
        filename: "song.flac".to_string(),
        file_size: Some(50_000_000),
    };
    let mut buf = Vec::new();
    write_peer_message(&msg, &mut buf).unwrap();
    let mut pos = 0;
    match read_peer_message(&buf, &mut pos).unwrap() {
        PeerMessage::TransferRequest { direction, token, filename, file_size } => {
            assert_eq!(direction, TransferDirection::Upload);
            assert_eq!(token, 12345);
            assert_eq!(filename, "song.flac");
            assert_eq!(file_size, Some(50_000_000));
        },
        _ => panic!("Wrong message type"),
    }
}

#[test]
fn integration_test_pierce_firewall_roundtrip() {
    let msg = PeerInitMessage::PierceFirewall { token: 0xCAFEBABE };
    let mut buf = Vec::new();
    write_peer_init_message(&msg, &mut buf).unwrap();
    let mut pos = 0;
    match read_peer_init_message(&buf, &mut pos).unwrap() {
        PeerInitMessage::PierceFirewall { token } => assert_eq!(token, 0xCAFEBABE),
        _ => panic!("Wrong message type"),
    }
}

#[test]
fn integration_test_search_roundtrip() {
    let msg = DistributedMessage::Search {
        unknown: 0,
        username: "searcher".to_string(),
        token: 54321,
        query: "beatles mp3".to_string(),
    };
    let mut buf = Vec::new();
    write_distributed_message(&msg, &mut buf).unwrap();
    let mut pos = 0;
    match read_distributed_message(&buf, &mut pos).unwrap() {
        DistributedMessage::Search { unknown, username, token, query } => {
            assert_eq!(unknown, 0);
            assert_eq!(username, "searcher");
            assert_eq!(token, 54321);
            assert_eq!(query, "beatles mp3");
        },
        _ => panic!("Wrong message type"),
    }
}

#[test]
fn integration_test_branch_level_roundtrip() {
    let msg = DistributedMessage::BranchLevel { level: -1 };
    let mut buf = Vec::new();
    write_distributed_message(&msg, &mut buf).unwrap();
    let mut pos = 0;
    match read_distributed_message(&buf, &mut pos).unwrap() {
        DistributedMessage::BranchLevel { level } => assert_eq!(level, -1),
        _ => panic!("Wrong message type"),
    }
}

#[test]
fn integration_test_file_transfer_init_roundtrip() {
    let init = FileTransferInit::new(0xDEADBEEF);
    let mut buf = Vec::new();
    init.write_to(&mut buf);
    let mut pos = 0;
    assert_eq!(FileTransferInit::read_from(&buf, &mut pos).unwrap().token, 0xDEADBEEF);
}

#[test]
fn integration_test_file_offset_roundtrip() {
    let offset = FileOffset::new(1024 * 1024 * 1024 * 5);
    let mut buf = Vec::new();
    offset.write_to(&mut buf);
    let mut pos = 0;
    assert_eq!(FileOffset::read_from(&buf, &mut pos).unwrap().offset, 1024 * 1024 * 1024 * 5);
}
