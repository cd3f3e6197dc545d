//! The metadata quorum: membership, elections, replication and durability.
use blitz::meta::catalog::{KvMap, NodeState};
use blitz::meta::client::{leader_poll, next_attempt, MetaClient, Poll, PutResult, Retry};
use blitz::meta::config::peer_list;
use blitz::meta::message::{get_answer, replicate_message, snapshot_message};
use blitz::meta::node::{yes_reply, MetaNode, Outcome};
use blitz::meta::persist::{
    catalog_path, load_catalog, load_raft, raft_path, save_catalog, save_raft, LoadError,
};
use blitz::meta::raft::{
    AppendEntries, AppendEntriesResponse, LogEntry, RaftNode, RaftState, RequestVote,
    RequestVoteResponse,
};

#[test]
fn add_peer_grows_cluster() {
    let mut n = RaftNode::new("a".into(), vec!["b".into()]);
    assert_eq!(n.cluster_size(), 2);
    let e = LogEntry::add_peer(1, 1, "c");
    // A follower applies it at once.
    assert!(n.apply_config_entry(&e).is_none());
    assert_eq!(n.cluster_size(), 3);
    assert_eq!(n.majority(), 2);
}

#[test]
fn leader_defers_add_until_activate() {
    let mut n = RaftNode::new("a".into(), vec!["b".into()]);
    n.become_leader();
    let e = LogEntry::add_peer(1, 1, "c");
    assert_eq!(n.apply_config_entry(&e).as_deref(), Some("c"));
    assert_eq!(n.cluster_size(), 2); // not yet active
    n.activate_peer("c");
    assert_eq!(n.cluster_size(), 3);
}

#[test]
fn remove_peer_shrinks() {
    let mut n = RaftNode::new("a".into(), vec!["b".into(), "c".into()]);
    let e = LogEntry::remove_peer(1, 1, "c");
    assert!(n.apply_config_entry(&e).is_none());
    assert_eq!(n.peers, vec!["b".to_string()]);
}

#[test]
fn roundtrip_raft_and_catalog() {
    let mut raft = RaftNode::new("a".into(), vec!["b".into()]);
    raft.current_term = 7;
    raft.voted_for = Some("a".into());
    raft.append_entry("k".into(), "v".into());
    raft.commit_index = 1;
    raft.last_applied = 1;
    let file = save_raft(&raft);

    let loaded = load_raft(&file, "a").unwrap();
    assert_eq!(loaded.current_term, 7);
    assert_eq!(loaded.log.len(), 1);
    assert_eq!(loaded.peers, vec!["b".to_string()]);

    let mut map = KvMap::new();
    map.insert("iceberg.table.t".into(), "s3://w/t".into());
    let st = NodeState {
        epoch: 7,
        is_leader: false,
        map,
        log: vec![],
        alive: true,
        awaiting_snapshot: false,
    };
    let file = save_catalog(&st);
    let (epoch, map, _) = load_catalog(&file).unwrap();
    assert_eq!(epoch, 7);
    assert_eq!(map.get("iceberg.table.t").as_deref(), Some("s3://w/t"));
}

#[test]
fn damaged_files_are_refused() {
    let raft = RaftNode::new("a".into(), vec![]);
    let file = save_raft(&raft);
    assert!(matches!(load_raft(b"junk", "a"), Err(LoadError::BadMagic)));
    assert!(matches!(
        load_raft(&file[..file.len() - 1], "a"),
        Err(LoadError::Truncated)
    ));
    assert_eq!(raft_path("/d"), "/d/raft.bin");
    assert_eq!(catalog_path("/d"), "/d/catalog.bin");
}

fn index_of(nodes: &[MetaNode], addr: &str) -> usize {
    nodes.iter().position(|n| n.addr == addr).unwrap()
}

/// Carries a request to a node and everything it sets off.
fn call(nodes: &mut Vec<MetaNode>, i: usize, bytes: &[u8]) -> Vec<u8> {
    match nodes[i].handle(bytes) {
        Outcome::Reply(b) => b,
        Outcome::Propose(mut p) => {
            let peers = p.peers.clone();
            for peer in &peers {
                let k = index_of(nodes, peer);
                let m = nodes[i].raft.send_append_entries_to_peer(&[p.entry.copy()]);
                let answer = get_answer(&call(nodes, k, &m))
                    .map(|(term, success)| AppendEntriesResponse { term, success });
                let r = replicate_message(p.epoch, p.entry.index, &p.entry.key, &p.entry.val);
                let stored = call(nodes, k, &r).first().copied();
                p.record(answer, stored);
            }
            match nodes[i].conclude(&p) {
                Ok(added) => {
                    for addr in added {
                        nodes[i].activate(&addr);
                        let m = snapshot_message(&nodes[i].take_snapshot());
                        let k = index_of(nodes, &addr);
                        assert_eq!(call(nodes, k, &m)[0], 1);
                    }
                    yes_reply(p.entry.index)
                }
                Err(c) => vec![c],
            }
        }
        Outcome::More | Outcome::Close => vec![],
    }
}

fn elect(nodes: &mut Vec<MetaNode>, i: usize) -> bool {
    nodes[i].raft.set_clock(10_000);
    let mut e = nodes[i].tick().unwrap();
    let peers = e.peers.clone();
    for peer in &peers {
        let m = nodes[i].raft.send_request_vote_to_peer();
        let k = index_of(nodes, peer);
        let answer = get_answer(&call(nodes, k, &m)).map(|(term, vote_granted)| {
            RequestVoteResponse { term, vote_granted }
        });
        e.record(answer);
    }
    nodes[i].conclude_election(&e)
}

fn three() -> Vec<MetaNode> {
    let all = ["a", "b", "c"];
    all.iter()
        .map(|x| {
            let peers = all.iter().filter(|y| *y != x).map(|y| y.to_string()).collect();
            MetaNode::start(x, peers)
        })
        .collect()
}

#[test]
fn a_committed_write_is_read() {
    let mut nodes = three();
    assert!(elect(&mut nodes, 0));
    let c = MetaClient::new("a");
    let reply = call(&mut nodes, 0, &c.put("k", "v"));
    assert_eq!(
        MetaClient::put_reply(Some(&reply[..])),
        PutResult::Committed(1)
    );
    let reply = call(&mut nodes, 0, &c.get("k"));
    assert_eq!(MetaClient::get_reply(&reply).as_deref(), Some("v"));
    let reply = call(&mut nodes, 0, &c.get("other"));
    assert_eq!(MetaClient::get_reply(&reply), None);
}

#[test]
fn followers_refuse_writes() {
    let mut nodes = three();
    assert!(elect(&mut nodes, 0));
    let c = MetaClient::new("b");
    let reply = call(&mut nodes, 1, &c.put("k", "v"));
    assert_eq!(MetaClient::put_reply(Some(&reply[..])), PutResult::NotLeader);
    assert_eq!(MetaClient::put_reply(None), PutResult::Unreachable);
}

#[test]
fn a_joiner_catches_up_by_snapshot() {
    let mut nodes = vec![
        MetaNode::start("a", vec!["b".into()]),
        MetaNode::start("b", vec!["a".into()]),
        MetaNode::start_joiner("c"),
    ];
    assert!(elect(&mut nodes, 0));
    let c = MetaClient::new("a");
    call(&mut nodes, 0, &c.put("history.key", "before-add"));
    nodes[2].raft.set_clock(60_000);
    assert!(nodes[2].tick().is_none());
    let reply = call(&mut nodes, 0, &c.add_peer("c"));
    assert_eq!(
        MetaClient::put_reply(Some(&reply[..])),
        PutResult::Committed(2)
    );
    assert_eq!(nodes[0].peers(), vec!["b".to_string(), "c".to_string()]);
    let reply = call(&mut nodes, 2, &c.get("history.key"));
    assert_eq!(MetaClient::get_reply(&reply).as_deref(), Some("before-add"));
    call(&mut nodes, 0, &c.remove_peer("c"));
    assert_eq!(nodes[0].peers(), vec!["b".to_string()]);
}

#[test]
fn a_joiner_is_admitted_behind_pending_members() {
    let mut n = MetaNode::start("a", vec!["b".into()]);
    n.raft.set_clock(10_000);
    let mut e = n.tick().unwrap();
    e.record(Some(RequestVoteResponse { term: e.term, vote_granted: true }));
    assert!(n.conclude_election(&e));
    let c = MetaClient::new("a");
    // Membership changes that no majority has acknowledged yet.
    for m in [c.put("k", "v"), c.add_peer("x"), c.remove_peer("b")] {
        assert!(matches!(n.handle(&m), Outcome::Propose(_)));
    }
    let added = match n.handle(&c.add_peer("c")) {
        Outcome::Propose(mut p) => {
            p.record(Some(AppendEntriesResponse { term: p.term, success: true }), Some(1));
            n.conclude(&p).unwrap_or_default()
        }
        _ => panic!("a proposal"),
    };
    assert_eq!(added, vec!["x".to_string(), "c".to_string()]);
    for a in &added {
        n.activate(a);
    }
    assert_eq!(n.peers(), vec!["x".to_string(), "c".to_string()]);
    let mut joiner = MetaNode::start_joiner("c");
    joiner.apply_snapshot(n.take_snapshot());
    assert!(joiner.peers().contains(&"a".to_string()));
    assert!(!joiner.peers().contains(&"c".to_string()));
    match joiner.handle(&c.get("k")) {
        Outcome::Reply(b) => assert_eq!(MetaClient::get_reply(&b).as_deref(), Some("v")),
        _ => panic!("a reply"),
    }
}

#[test]
fn no_commit_without_a_quorum() {
    let mut n = MetaNode::start("a", vec!["b".into(), "c".into()]);
    n.raft.set_clock(10_000);
    let mut e = n.tick().unwrap();
    e.record(Some(RequestVoteResponse {
        term: e.term,
        vote_granted: true,
    }));
    e.record(None);
    assert!(n.conclude_election(&e));
    match n.handle(&MetaClient::new("a").put("k", "v")) {
        Outcome::Propose(mut p) => {
            p.record(None, None);
            p.record(None, Some(3));
            assert!(matches!(n.conclude(&p), Err(3)));
        }
        _ => panic!("a proposal"),
    }
}

#[test]
fn promotion_needs_a_later_epoch() {
    let mut nodes = three();
    let reply = call(&mut nodes, 1, &MetaClient::promote(2));
    assert!(MetaClient::promote_reply(&reply));
    let reply = call(&mut nodes, 1, &MetaClient::promote(2));
    assert!(!MetaClient::promote_reply(&reply));
    let reply = call(&mut nodes, 1, &MetaClient::status());
    let (leader, epoch, _, peers) = MetaClient::status_reply(&reply).unwrap();
    assert!(leader);
    assert_eq!(epoch, 2);
    assert_eq!(peers, 2);
    let r = replicate_message(1, 1, "k", "v");
    assert_ne!(call(&mut nodes, 1, &r)[0], 1);
}

#[test]
fn a_dead_node_answers_nothing() {
    let mut nodes = three();
    nodes[0].kill();
    assert!(matches!(
        nodes[0].handle(&MetaClient::new("a").get("k")),
        Outcome::Close
    ));
}

#[test]
fn requests_arrive_in_pieces() {
    let mut n = MetaNode::start("a", vec![]);
    let m = MetaClient::new("a").put("key", "value");
    assert!(matches!(n.handle(&m[..5]), Outcome::More));
    assert_eq!(n.log_len(), 0);
}

#[test]
fn one_vote_per_term() {
    let mut n = RaftNode::new("a".into(), vec!["b".into(), "c".into()]);
    let ask = |who: &str, term: u64| RequestVote {
        term,
        candidate_id: who.to_string(),
        last_log_index: 0,
        last_log_term: 0,
    };
    assert!(n.handle_request_vote(&ask("b", 1)).vote_granted);
    assert!(!n.handle_request_vote(&ask("c", 1)).vote_granted);
    assert!(n.handle_request_vote(&ask("c", 2)).vote_granted);
    assert!(!n.handle_request_vote(&ask("b", 1)).vote_granted);
}

#[test]
fn stale_logs_get_no_vote() {
    let mut n = RaftNode::new("a".into(), vec!["b".into()]);
    n.current_term = 3;
    n.append_entry("k".into(), "v".into());
    let r = n.handle_request_vote(&RequestVote {
        term: 4,
        candidate_id: "b".into(),
        last_log_index: 0,
        last_log_term: 0,
    });
    assert!(!r.vote_granted);
}

#[test]
fn appended_entries_match_the_leader() {
    let mut n = RaftNode::new("a".into(), vec!["b".into()]);
    let req = AppendEntries {
        term: 1,
        leader_id: "b".into(),
        prev_log_index: 0,
        prev_log_term: 0,
        entries: vec![LogEntry {
            term: 1,
            index: 1,
            key: "k".into(),
            val: "v".into(),
        }],
        leader_commit: 1,
    };
    assert!(n.handle_append_entries(&req).success);
    assert_eq!(n.state, RaftState::Follower);
    assert_eq!(n.log.len(), 1);
    assert_eq!(n.commit_index, 1);
    let applied = n.take_applicable();
    assert_eq!(applied.len(), 1);
    assert_eq!(applied[0].key, "k");
    assert_eq!(n.take_applicable().len(), 0);
    let gap = AppendEntries {
        prev_log_index: 9,
        prev_log_term: 1,
        ..req.clone()
    };
    assert!(!n.handle_append_entries(&gap).success);
    let stale = AppendEntries { term: 0, ..req };
    assert!(!n.handle_append_entries(&stale).success);
}

#[test]
fn heartbeats_come_from_leaders() {
    let mut nodes = three();
    assert!(nodes[0].heartbeat_due().is_none());
    assert!(elect(&mut nodes, 0));
    nodes[0].raft.set_clock(20_000);
    assert!(nodes[0].heartbeat_due().is_some());
}

#[test]
fn tables_are_kept_under_their_names() {
    let c = MetaClient::new("a");
    assert_eq!(
        c.commit_table("t", "/w/t/v2.json"),
        c.put("iceberg.table.t", "/w/t/v2.json")
    );
    assert_eq!(c.load_table("t"), c.get("iceberg.table.t"));
}

#[test]
fn peers_come_from_a_list() {
    assert_eq!(
        peer_list(" a:1 ,,b:2,", None),
        vec!["a:1".to_string(), "b:2".to_string()]
    );
    assert_eq!(
        peer_list(
            "m-0.blitz-meta-headless.blitz.svc.cluster.local:7401,x:1",
            Some("m-0")
        ),
        vec!["x:1".to_string()]
    );
    assert!(peer_list("", None).is_empty());
}

#[test]
fn one_winner_per_term() {
    let mut nodes = three();
    let mut second = {
        nodes[2].raft.set_clock(10_000);
        nodes[2].tick().unwrap()
    };
    assert!(elect(&mut nodes, 0));
    assert_eq!(nodes[0].raft.current_term, second.term);
    for k in [0, 1] {
        let m = nodes[2].raft.send_request_vote_to_peer();
        let (term, vote_granted) = get_answer(&call(&mut nodes, k, &m)).unwrap();
        assert!(!vote_granted);
        second.record(Some(RequestVoteResponse { term, vote_granted }));
    }
    assert!(!nodes[2].conclude_election(&second));
}

#[test]
fn a_deposed_leader_commits_nothing() {
    let mut nodes = three();
    assert!(elect(&mut nodes, 0));
    let epoch = nodes[0].state.epoch;
    for k in [1, 2] {
        nodes[k].raft.current_term += 1;
        let reply = call(&mut nodes, k, &MetaClient::promote(epoch + 1));
        assert!(MetaClient::promote_reply(&reply));
    }
    let reply = call(&mut nodes, 0, &MetaClient::new("a").put("k", "v"));
    assert_eq!(reply, vec![3]);
    let reply = call(&mut nodes, 0, &MetaClient::new("a").get("k"));
    assert_eq!(MetaClient::get_reply(&reply), None);
}

#[test]
fn an_acknowledged_write_is_stored() {
    let mut nodes = three();
    let r = replicate_message(1, 1, "k", "v");
    assert_eq!(call(&mut nodes, 1, &r), vec![1]);
    let reply = call(&mut nodes, 1, &MetaClient::new("b").get("k"));
    assert_eq!(MetaClient::get_reply(&reply).as_deref(), Some("v"));
}

#[test]
fn files_with_bad_text_are_refused() {
    let mut raft = RaftNode::new("a".into(), vec![]);
    raft.voted_for = Some("a".into());
    let mut file = save_raft(&raft);
    let at = file.iter().position(|b| *b == b'a').unwrap();
    let last = file[8..].iter().position(|b| *b == b'a').unwrap() + 8;
    assert!(at <= last);
    file[last] = 0xff;
    assert!(matches!(load_raft(&file, "a"), Err(LoadError::NotUtf8)));
    assert!(matches!(load_catalog(b"x"), Err(LoadError::Truncated | LoadError::BadMagic)));
}

#[test]
fn replies_are_told_apart() {
    assert_eq!(MetaClient::put_reply(Some(&[3])), PutResult::Fenced);
    assert_eq!(MetaClient::put_reply(Some(&[2])), PutResult::NotLeader);
    assert_eq!(MetaClient::put_reply(Some(&[1])), PutResult::Committed(0));
    assert_eq!(MetaClient::put_reply(Some(&[])), PutResult::Unreachable);
}

#[test]
fn snapshots_are_sent_again() {
    assert_eq!(next_attempt(1, Some(1)), Retry::Over(true));
    assert_eq!(next_attempt(5, Some(0)), Retry::Over(false));
    assert_eq!(next_attempt(1, None), Retry::Wait(40));
    assert_eq!(next_attempt(4, None), Retry::Wait(160));
    assert_eq!(next_attempt(5, None), Retry::Over(false));
}

#[test]
fn leaders_are_polled_for() {
    assert_eq!(leader_poll(2, None, 0, 100), Poll::Ask(0));
    assert_eq!(leader_poll(2, Some((0, false)), 500, 100), Poll::Ask(1));
    assert_eq!(leader_poll(2, Some((1, false)), 50, 100), Poll::Sleep(50));
    assert_eq!(leader_poll(2, Some((1, true)), 500, 100), Poll::Found(1));
    assert_eq!(leader_poll(2, None, 100, 100), Poll::GiveUp);
    assert_eq!(leader_poll(0, None, 0, 100), Poll::Sleep(50));
}

#[test]
fn a_committed_table_is_loaded() {
    let mut nodes = three();
    assert!(elect(&mut nodes, 0));
    let c = MetaClient::new("a");
    let reply = call(&mut nodes, 0, &c.commit_table("t", "/w/t/v1.json"));
    assert_eq!(
        MetaClient::put_reply(Some(&reply[..])),
        PutResult::Committed(1)
    );
    call(&mut nodes, 0, &c.commit_table("u", "/w/u/v1.json"));
    let reply = call(&mut nodes, 0, &c.load_table("t"));
    assert_eq!(MetaClient::get_reply(&reply).as_deref(), Some("/w/t/v1.json"));
    let reply = call(&mut nodes, 0, &c.load_table("tt"));
    assert_eq!(MetaClient::get_reply(&reply), None);
}
