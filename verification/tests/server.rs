use ruft::rpc::append_entries::AppendEntriesReply;
use ruft::rpc::client::{OpenLinks, RouteError, RpcLinkPolicy, RuftClient};
use ruft::rpc::install_snapshot::InstallSnapshotReply;
use ruft::rpc::request_vote::RequestVoteReply;
use ruft::ruft::{Ruft, RuftServer};
use std::collections::HashMap;

#[test]
fn server_passes_the_node_s_replies_on() {
    let server = RuftServer::new(5);
    let appended = AppendEntriesReply {
        node_id: 5,
        term: 3,
        success: true,
        match_index: 8,
    };
    let voted = RequestVoteReply {
        term: 3,
        vote_granted: true,
    };
    let installed = InstallSnapshotReply { node_id: 5, term: 3 };
    assert_eq!(server.append_entries(Some(appended)), appended);
    assert_eq!(server.request_vote(Some(voted)), voted);
    assert_eq!(server.install_snapshot(Some(installed)), installed);
}

#[test]
fn server_answers_with_term_zero_where_the_node_is_silent() {
    let server = Ruft::new(5, vec![5, 6]).expect("memory node").server();
    assert_eq!(
        server.append_entries(None),
        AppendEntriesReply {
            node_id: 5,
            term: 0,
            success: false,
            match_index: 0
        }
    );
    assert_eq!(
        server.request_vote(None),
        RequestVoteReply {
            term: 0,
            vote_granted: false
        }
    );
    assert_eq!(
        server.install_snapshot(None),
        InstallSnapshotReply { node_id: 5, term: 0 }
    );
    assert_eq!(server.append_entries_error(), server.append_entries(None));
    assert_eq!(server.request_vote_error(), server.request_vote(None));
    assert_eq!(server.install_snapshot_error(), server.install_snapshot(None));
}

/// A policy that closes every link to one node.
struct Without(u64);

impl RpcLinkPolicy for Without {
    type Permit = (u64, u64);

    fn permit(&self, source: u64, target: u64) -> Option<(u64, u64)> {
        if target == self.0 {
            None
        } else {
            Some((source, target))
        }
    }
}

fn connections() -> HashMap<u64, &'static str> {
    HashMap::from([(1, "one"), (2, "two"), (3, "three")])
}

#[test]
fn open_links_lead_to_every_connection() {
    let client: RuftClient<&str, OpenLinks> = RuftClient::new(1, connections());
    assert_eq!(client.len(), 3);
    assert_eq!(*client.open_route(2).expect("route").1, "two");
    assert_eq!(client.open_route(9), Err(RouteError::Shutdown));
    let mut targets = client.vote_targets();
    targets.sort();
    assert_eq!(targets, vec![2, 3]);
}

#[test]
fn closed_links_carry_no_calls() {
    let client = RuftClient::with_link_policy(1, connections(), Without(3));
    assert_eq!(client.open_route(3), Err(RouteError::Shutdown));
    let (permit, conn) = client.open_route(2).expect("route");
    assert_eq!(permit, (1, 2));
    assert_eq!(*conn, "two");
    assert_eq!(client.route::<u8>(2, None), Err(RouteError::Shutdown));
}
