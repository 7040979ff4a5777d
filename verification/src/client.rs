//! What a node knows about itself and the other nodes.
use crate::config::Identity;
use vstd::prelude::*;

verus! {

/// The running node: its id, its RSA key pair (PKCS#1 PEM text) and the
/// identities of all nodes, indexed by node id.
pub struct Client {
    pub local_node_id: u64,
    pub private_key: String,
    pub public_key: String,
    pub identities: Vec<Identity>,
    pub nodes_number: u64,
}

impl Client {
    /// A node knows as many nodes as it has identities, and it knows at least one.
    pub open spec fn well_formed(&self) -> bool {
        &&& self.nodes_number == self.identities@.len()
        &&& self.nodes_number > 0
    }

    /// The node id of the primary of a view: the view number modulo the number of nodes.
    pub open spec fn primary_of(&self, view_number: u64) -> u64 {
        (view_number % self.nodes_number) as u64
    }

    /// The public key of the node with the given id.
    pub open spec fn public_key_of(&self, node_id: u64) -> Seq<char> {
        self.identities@[node_id as int].public_key@
    }

    pub fn new(
        local_node_id: u64,
        private_key: String,
        public_key: String,
        identities: Vec<Identity>,
    ) -> (client: Self)
        ensures
            client.local_node_id == local_node_id,
            client.private_key@ == private_key@,
            client.public_key@ == public_key@,
            client.identities@ == identities@,
            client.nodes_number == identities@.len(),
    {
        let nodes_number = identities.len() as u64;
        Client { local_node_id, private_key, public_key, identities, nodes_number }
    }

    /// Whether this node is the primary of the view.
    pub fn is_primarry(&self, view_number: u64) -> (res: bool)
        requires
            self.nodes_number > 0,
        ensures
            res == (self.primary_of(view_number) == self.local_node_id),
    {
        view_number % self.nodes_number == self.local_node_id
    }
}

} // verus!
