use ruft::events::Event;
use ruft::result::AppendResult;
use ruft::ruft::election::VoteTally;
use ruft::ruft::node::Answer;
use ruft::ruft::{ApplyMsg, Role, Ruft, RuftSnapshot};
use ruft::storage::MemoryStorage;
use ruft::utilis::types::NodeId;
use std::collections::{HashMap, HashSet, VecDeque};

/// A cluster whose calls are carried out one after the other.
struct Cluster {
    members: Vec<NodeId>,
    nodes: HashMap<NodeId, Ruft<MemoryStorage>>,
    closed: HashSet<(NodeId, NodeId)>,
    stopped: HashSet<NodeId>,
    queue: VecDeque<(NodeId, Event)>,
    applied: HashMap<NodeId, Vec<(u64, Vec<u8>)>>,
}

impl Cluster {
    fn start(members: Vec<NodeId>) -> Self {
        let nodes = members
            .iter()
            .map(|id| (*id, Ruft::new(*id, members.clone()).expect("create in-memory node")))
            .collect();
        Cluster {
            members,
            nodes,
            closed: HashSet::new(),
            stopped: HashSet::new(),
            queue: VecDeque::new(),
            applied: HashMap::new(),
        }
    }

    fn open(&self, from: NodeId, to: NodeId) -> bool {
        !self.closed.contains(&(from, to))
            && !self.stopped.contains(&from)
            && !self.stopped.contains(&to)
    }

    fn partition(&mut self, left: &[NodeId], right: &[NodeId]) {
        for from in left {
            for to in right {
                self.closed.insert((*from, *to));
                self.closed.insert((*to, *from));
            }
        }
    }

    fn heal_all(&mut self) {
        self.closed.clear();
    }

    fn handle(&mut self, id: NodeId, event: Event) -> Answer {
        let node = self.nodes.get_mut(&id).expect("node by id");
        assert!(node.admits(&event));
        let answer = node.handle_event(event);
        let outbox = node.take_outbox();
        for ApplyMsg { index, data } in outbox.applied {
            self.applied.entry(id).or_default().push((index, data));
        }
        for event in outbox.events {
            self.queue.push_back((id, event));
        }
        for (target, args) in outbox.append_requests {
            if self.open(id, target) {
                match self.handle(target, Event::AppendEntries(args)) {
                    Answer::AppendEntries(reply) => {
                        self.queue.push_back((id, Event::AppendEntriesReply(reply)))
                    }
                    other => panic!("unexpected answer {other:?}"),
                }
            }
        }
        for election in outbox.elections {
            let mut tally = VoteTally::new(&election);
            for target in self.members.clone() {
                if target == id || tally.is_won() {
                    continue;
                }
                let reply = if self.open(id, target) {
                    match self.handle(target, Event::RequestVote(election.args)) {
                        Answer::RequestVote(reply) => Some(reply),
                        other => panic!("unexpected answer {other:?}"),
                    }
                } else {
                    None
                };
                for event in tally.on_reply(reply) {
                    self.queue.push_back((id, event));
                }
            }
        }
        answer
    }

    fn settle(&mut self) {
        while let Some((id, event)) = self.queue.pop_front() {
            if !self.stopped.contains(&id) {
                self.handle(id, event);
            }
        }
    }

    fn time_out(&mut self, id: NodeId) {
        self.handle(id, Event::ElectionTimeout);
        self.settle();
    }

    fn heartbeats(&mut self, rounds: usize) {
        for _ in 0..rounds {
            for id in self.members.clone() {
                if !self.stopped.contains(&id) {
                    self.handle(id, Event::Heartbeat);
                    self.settle();
                }
            }
        }
    }

    fn append(&mut self, id: NodeId, command: &[u8]) -> AppendResult {
        let answer = self.handle(id, Event::NewLogEntries(command.to_vec()));
        self.settle();
        match answer {
            Answer::Command(result) => result,
            other => panic!("unexpected answer {other:?}"),
        }
    }

    fn info(&self, id: NodeId) -> RuftSnapshot {
        self.nodes[&id].snapshot()
    }

    fn leaders(&self) -> Vec<NodeId> {
        let mut leaders: Vec<NodeId> = self
            .members
            .iter()
            .copied()
            .filter(|id| !self.stopped.contains(id) && self.info(*id).role == Role::Leader)
            .collect();
        leaders.sort();
        leaders
    }

    fn applied(&self, id: NodeId) -> Vec<(u64, Vec<u8>)> {
        self.applied.get(&id).cloned().unwrap_or_default()
    }
}

#[test]
fn three_nodes_elect_one_leader_and_replicate_log() {
    let mut cluster = Cluster::start(vec![1, 2, 3]);
    cluster.time_out(2);
    assert_eq!(cluster.leaders(), vec![2]);

    assert_eq!(
        cluster.append(2, b"set x=1"),
        AppendResult::Accepted { index: 1, term: 1 }
    );
    cluster.heartbeats(1);

    for id in [1, 2, 3] {
        assert_eq!(cluster.applied(id), vec![(1, b"set x=1".to_vec())]);
    }
}

#[test]
fn follower_rejects_client_append() {
    let mut cluster = Cluster::start(vec![1, 2, 3]);
    cluster.time_out(1);

    assert_eq!(
        cluster.append(2, b"should not append"),
        AppendResult::NotLeader
    );
    cluster.heartbeats(2);

    for id in [1, 2, 3] {
        assert_eq!(cluster.info(id).commit_index, 0, "node {} commit index", id);
        assert_eq!(cluster.info(id).log_len, 1, "node {} log length", id);
    }
}

#[test]
fn leader_replicates_multiple_logs_in_order() {
    let mut cluster = Cluster::start(vec![1, 2, 3]);
    cluster.time_out(3);
    let commands = vec![b"set x=1".to_vec(), b"set y=2".to_vec(), b"commit".to_vec()];

    for command in &commands {
        assert!(matches!(
            cluster.append(3, command),
            AppendResult::Accepted { .. }
        ));
    }
    cluster.heartbeats(1);

    let expected: Vec<(u64, Vec<u8>)> = (1..).zip(commands).collect();
    for id in [1, 2, 3] {
        assert_eq!(cluster.applied(id), expected, "node {} applied log order", id);
    }
}

#[test]
fn cluster_elects_new_leader_after_current_leader_stops() {
    let mut cluster = Cluster::start(vec![1, 2, 3]);
    cluster.time_out(1);
    cluster.stopped.insert(1);

    cluster.time_out(2);
    assert_eq!(cluster.leaders(), vec![2]);
    assert!(matches!(
        cluster.append(2, b"after failover"),
        AppendResult::Accepted { index: 1, .. }
    ));
    cluster.heartbeats(1);

    for id in [2, 3] {
        assert_eq!(cluster.applied(id), vec![(1, b"after failover".to_vec())]);
    }
}

#[test]
fn old_leader_uncommitted_tail_is_replaced_by_majority_log() {
    let members = vec![31_001, 31_002, 31_003];
    let mut cluster = Cluster::start(members.clone());
    cluster.time_out(31_001);
    let old_term = cluster.info(31_001).current_term;
    let majority = [31_002, 31_003];

    cluster.partition(&[31_001], &majority);
    assert!(matches!(
        cluster.append(31_001, b"old leader uncommitted tail"),
        AppendResult::Accepted { index: 1, .. }
    ));
    cluster.heartbeats(4);
    assert!(cluster.applied(31_001).is_empty());
    assert_eq!(
        cluster.info(31_001).commit_index,
        0,
        "a one-node partition must not commit its local entry"
    );

    cluster.time_out(31_003);
    let replacement = b"majority replacement".to_vec();
    assert!(matches!(
        cluster.append(31_003, &replacement),
        AppendResult::Accepted { index: 1, term } if term > old_term
    ));
    cluster.heartbeats(1);
    for id in majority {
        assert_eq!(
            cluster.applied(id),
            vec![(1, replacement.clone())],
            "majority node {id} applied replacement"
        );
    }

    cluster.heal_all();
    cluster.heartbeats(3);
    assert_eq!(
        cluster.applied(31_001),
        vec![(1, replacement)],
        "the former leader must apply the majority entry, never its uncommitted tail"
    );

    for id in &members {
        let info = cluster.info(*id);
        assert_eq!(info.commit_index, 1, "node {} commit index", info.node_id);
        assert_eq!(info.last_applied, 1, "node {} applied index", info.node_id);
        assert_eq!(info.log_len, 2, "node {} log length", info.node_id);
        assert!(info.current_term > old_term);
    }
}

#[test]
fn majority_partition_elects_new_leader_and_cluster_recovers() {
    let members = vec![33_001, 33_002, 33_003];
    let mut cluster = Cluster::start(members.clone());
    cluster.time_out(33_002);
    let old_term = cluster.info(33_002).current_term;
    let majority = [33_001, 33_003];

    let baseline = b"before partition".to_vec();
    assert!(matches!(
        cluster.append(33_002, &baseline),
        AppendResult::Accepted { index: 1, term } if term == old_term
    ));
    cluster.heartbeats(1);
    for id in &members {
        assert_eq!(cluster.applied(*id), vec![(1, baseline.clone())]);
    }

    cluster.partition(&[33_002], &majority);
    cluster.time_out(33_001);
    let new_term = cluster.info(33_001).current_term;
    assert_eq!(cluster.info(33_001).role, Role::Leader);
    assert!(new_term > old_term);

    let majority_command = b"committed by new majority leader".to_vec();
    assert!(matches!(
        cluster.append(33_001, &majority_command),
        AppendResult::Accepted { index: 2, term } if term == new_term
    ));
    cluster.heartbeats(1);
    for id in majority {
        assert_eq!(
            cluster.applied(id).last(),
            Some(&(2, majority_command.clone()))
        );
    }

    cluster.heal_all();
    cluster.heartbeats(3);
    assert_eq!(
        cluster.applied(33_002).last(),
        Some(&(2, majority_command)),
        "the former leader must catch up after healing"
    );

    assert_eq!(cluster.leaders().len(), 1);
    let recovered_term = cluster.info(cluster.leaders()[0]).current_term;
    for id in &members {
        let info = cluster.info(*id);
        assert_eq!(info.current_term, recovered_term);
        assert_eq!(info.commit_index, 2);
        assert_eq!(info.last_applied, 2);
        assert_eq!(info.log_len, 3);
    }
    assert!(recovered_term >= new_term);
}

#[test]
fn lagging_follower_is_caught_up_entry_by_entry() {
    let mut cluster = Cluster::start(vec![1, 2, 3]);
    cluster.time_out(1);
    cluster.partition(&[3], &[1, 2]);
    for command in [b"a", b"b", b"c"] {
        cluster.append(1, command);
    }
    cluster.time_out(3);
    cluster.heal_all();
    cluster.time_out(2);
    cluster.time_out(2);
    assert_eq!(cluster.leaders(), vec![2]);
    cluster.append(2, b"d");
    cluster.heartbeats(6);
    assert_eq!(cluster.nodes[&3].log, cluster.nodes[&2].log);
    assert_eq!(cluster.applied(3).len(), 4);
    assert_eq!(cluster.applied(3), cluster.applied(1));
}
