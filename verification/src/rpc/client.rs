//! The connections of a node to its peers, and the policy that opens and closes links.
use crate::utilis::collections::{lemma_push_contains, map_keys};
use crate::utilis::types::NodeId;
use std::collections::HashMap;
use vstd::prelude::*;

verus! {

broadcast use vstd::std_specs::hash::group_hash_axioms;

/// Decides whether an outgoing link may be used. The permit is held for the length of one call.
pub trait RpcLinkPolicy {
    /// What is held while a call is under way.
    type Permit;

    /// Asks for the link from `source` to `target`.
    fn permit(&self, source: NodeId, target: NodeId) -> Option<Self::Permit>;
}

/// The policy that opens every link.
#[derive(Clone, Copy, Debug)]
pub struct OpenLinks;

impl RpcLinkPolicy for OpenLinks {
    type Permit = ();

    fn permit(&self, source: NodeId, target: NodeId) -> (permit: Option<()>)
        ensures
            permit is Some,
    {
        Some(())
    }
}

/// A call that never went out.
#[derive(Clone, Copy, Debug, PartialEq, Eq, Structural)]
pub enum RouteError {
    /// The link is closed or there is no connection behind it.
    Shutdown,
}

/// The RPC connections of one node. `C` is a connection.
pub struct RuftClient<C, P> {
    node_id: NodeId,
    conn: HashMap<NodeId, C>,
    link_policy: P,
}

impl<C, P> RuftClient<C, P> {
    /// The node whose connections these are.
    pub closed spec fn source(&self) -> NodeId {
        self.node_id
    }

    /// The connections by the id of the peer.
    pub closed spec fn connections(&self) -> Map<NodeId, C> {
        self.conn@
    }

    /// The policy that outgoing calls ask.
    pub closed spec fn policy(&self) -> P {
        self.link_policy
    }
}

impl<C> RuftClient<C, OpenLinks> {
    /// Collects the connections of a node, all of whose links are open.
    pub fn new(node_id: NodeId, conn: HashMap<NodeId, C>) -> (client: Self)
        ensures
            client.source() == node_id,
            client.connections() == conn@,
    {
        RuftClient { node_id, conn, link_policy: OpenLinks }
    }
}

impl<C, P> RuftClient<C, P> {
    /// Collects the connections of a node whose links follow a policy.
    pub fn with_link_policy(node_id: NodeId, conn: HashMap<NodeId, C>, link_policy: P) -> (client:
        Self)
        ensures
            client.source() == node_id,
            client.connections() == conn@,
            client.policy() == link_policy,
    {
        RuftClient { node_id, conn, link_policy }
    }

    /// The number of connections.
    pub fn len(&self) -> (n: usize)
        ensures
            n == self.connections().len(),
    {
        self.conn.len()
    }

    /// The connection for a call to `target`, given what the link policy said: a closed link and a
    /// missing connection both mean that the call does not go out.
    pub fn route<K>(&self, target: NodeId, permit: Option<K>) -> (route: Result<
        (K, &C),
        RouteError,
    >)
        ensures
            route is Ok <==> permit is Some && self.connections().contains_key(target),
            route matches Ok((held, conn)) ==> permit == Some(held) && *conn
                == self.connections()[target],
            route matches Err(e) ==> e == RouteError::Shutdown,
    {
        match permit {
            None => Err(RouteError::Shutdown),
            Some(held) => match self.conn.get(&target) {
                None => Err(RouteError::Shutdown),
                Some(conn) => Ok((held, conn)),
            },
        }
    }

    /// The peers that a candidate asks for votes: everyone it is connected to but itself, each once.
    pub fn vote_targets(&self) -> (targets: Vec<NodeId>)
        ensures
            targets@.no_duplicates(),
            targets@.to_set() == self.connections().dom().remove(self.source()),
    {
        let peers = map_keys(&self.conn);
        let mut targets: Vec<NodeId> = Vec::new();
        let mut i: usize = 0;
        while i < peers.len()
            invariant
                i <= peers@.len(),
                peers@.no_duplicates(),
                targets@.no_duplicates(),
                forall|t: NodeId| #[trigger]
                    targets@.contains(t) <==> t != self.node_id && peers@.take(i as int).contains(t),
            decreases peers@.len() - i,
        {
            let peer: NodeId = peers[i];
            let ghost before = targets@;
            let ghost seen = peers@.take(i as int);
            if peer != self.node_id {
                targets.push(peer);
            }
            proof {
                let next = peers@.take(i + 1);
                assert(next =~= seen.push(peer));
                assert(!seen.contains(peer));
                assert(!before.contains(peer));
                assert forall|t: NodeId| #[trigger]
                    targets@.contains(t) <==> t != self.node_id && next.contains(t) by {
                    lemma_push_contains(seen, peer, t);
                    lemma_push_contains(before, peer, t);
                }
            }
            i = i + 1;
        }
        proof {
            assert(peers@.take(i as int) =~= peers@);
            assert forall|t: NodeId| #[trigger]
                targets@.to_set().contains(t) <==> self.conn@.dom().remove(self.node_id).contains(
                    t,
                ) by {
                assert(peers@.to_set().contains(t) <==> peers@.contains(t));
                assert(targets@.to_set().contains(t) <==> targets@.contains(t));
            }
            assert(targets@.to_set() =~= self.conn@.dom().remove(self.node_id));
        }
        targets
    }
}

impl<C, P: RpcLinkPolicy> RuftClient<C, P> {
    /// Asks the policy for the link to `target` and finds the connection behind it.
    pub fn open_route(&self, target: NodeId) -> (route: Result<(P::Permit, &C), RouteError>)
        ensures
            !self.connections().contains_key(target) ==> route is Err,
            self.connections().contains_key(target) ==> match route {
                Ok((held, conn)) => {
                    &&& *conn == self.connections()[target]
                    &&& call_ensures(
                        P::permit,
                        (&self.policy(), self.source(), target),
                        Some(held),
                    )
                },
                Err(_) => call_ensures(
                    P::permit,
                    (&self.policy(), self.source(), target),
                    None::<P::Permit>,
                ),
            },
            route matches Err(e) ==> e == RouteError::Shutdown,
    {
        let permit = self.link_policy.permit(self.node_id, target);
        self.route(target, permit)
    }
}

} // verus!
