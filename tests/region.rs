use tikv::region::{
    check_key_in_region, check_key_in_region_inclusive, conf_change_type_str, find_peer,
    is_epoch_stale, is_first_vote_msg, new_peer, remove_peer, ConfChangeType, Message,
    MessageType, RaftMessage, Region, RegionEpoch, RAFT_INIT_LOG_TERM,
};

fn region(id: u64, start: &str, end: &str) -> Region {
    Region {
        id,
        start_key: start.as_bytes().to_vec(),
        end_key: end.as_bytes().to_vec(),
        region_epoch: RegionEpoch { conf_ver: 0, version: 0 },
        peers: vec![],
    }
}

#[test]
fn test_check_key_in_region() {
    let test_cases = vec![
        ("", "", "", true, true),
        ("", "", "6", true, true),
        ("", "3", "6", false, false),
        ("4", "3", "6", true, true),
        ("4", "3", "", true, true),
        ("2", "3", "6", false, false),
        ("", "3", "6", false, false),
        ("", "3", "", false, false),
        ("6", "3", "6", false, true),
    ];
    for (key, start_key, end_key, is_in_region, is_in_region_inclusive) in test_cases {
        let region = region(0, start_key, end_key);
        let mut result = check_key_in_region(key.as_bytes(), &region);
        assert_eq!(result.is_ok(), is_in_region);
        result = check_key_in_region_inclusive(key.as_bytes(), &region);
        assert_eq!(result.is_ok(), is_in_region_inclusive)
    }
}

#[test]
fn test_peer() {
    let mut region = region(1, "", "");
    region.peers.push(new_peer(1, 1));

    assert!(find_peer(&region, 1).is_some());
    assert!(find_peer(&region, 10).is_none());

    assert!(remove_peer(&mut region, 1).is_some());
    assert!(remove_peer(&mut region, 1).is_none());
    assert!(find_peer(&region, 1).is_none());
}

#[test]
fn test_first_vote_msg() {
    let tbl = vec![
        (MessageType::MsgRequestVote, RAFT_INIT_LOG_TERM + 1, true),
        (MessageType::MsgRequestVote, RAFT_INIT_LOG_TERM, false),
        (MessageType::MsgHup, RAFT_INIT_LOG_TERM + 1, false),
    ];

    for (msg_type, term, is_vote) in tbl {
        let m = RaftMessage { region_id: 0, message: Message { msg_type, term } };
        assert_eq!(is_first_vote_msg(&m), is_vote);
    }
}

#[test]
fn test_conf_change_type_str() {
    assert_eq!(conf_change_type_str(&ConfChangeType::AddNode), "AddNode");
    assert_eq!(conf_change_type_str(&ConfChangeType::RemoveNode), "RemoveNode");
}

#[test]
fn test_epoch_stale() {
    let epoch = RegionEpoch { version: 10, conf_ver: 10 };
    let tbl = vec![(11, 10, true), (10, 11, true), (10, 10, false), (10, 9, false)];
    for (version, conf_version, is_stale) in tbl {
        let check_epoch = RegionEpoch { version, conf_ver: conf_version };
        assert_eq!(is_epoch_stale(&epoch, &check_epoch), is_stale);
    }
}

#[test]
fn remove_peer_takes_first_match_only() {
    let mut r = region(2, "a", "z");
    r.peers = vec![new_peer(1, 10), new_peer(2, 20), new_peer(2, 21)];
    assert_eq!(find_peer(&r, 2).unwrap().id, 20);
    assert_eq!(remove_peer(&mut r, 2).unwrap().id, 20);
    assert_eq!(r.peers, vec![new_peer(1, 10), new_peer(2, 21)]);
}
