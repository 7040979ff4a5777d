//! The node's configuration: who the nodes are, and the settings it runs with.
use crate::key::{check_public_key, pkcs1_public_key_parses};
use vstd::prelude::*;

verus! {

/// A node of the network: its id, where it listens, and its RSA public key
/// (PKCS#1 PEM text).
#[derive(Debug, Clone)]
pub struct Identity {
    pub node_id: u64,
    pub ip: String,
    pub port: u64,
    pub public_key: String,
}

/// Settings that do not change while a node runs.
#[derive(Debug, Clone)]
pub struct ConstantConfig {
    pub database_name: String,
    pub multi_cast_addr: String,
    pub multi_cast_ip: String,
    pub multi_cast_port: u64,
    pub block_size: u64,
    pub variable_config_path: String,
}

/// Settings that a node updates and keeps: the view it is in.
#[derive(Debug, Clone, Copy, PartialEq, Eq, Structural)]
pub struct VariableConfig {
    pub view_number: u64,
}

/// The position of the first identity with the given node id, if there is one.
pub fn find_identity(identities: &Vec<Identity>, node_id: u64) -> (res: Option<usize>)
    ensures
        match res {
            Some(i) => i < identities@.len() && identities@[i as int].node_id == node_id && forall|
                j: int,
            | 0 <= j < i ==> identities@[j].node_id != node_id,
            None => forall|j: int| 0 <= j < identities@.len() ==> identities@[j].node_id != node_id,
        },
{
    let mut i: usize = 0;
    while i < identities.len()
        invariant
            i <= identities@.len(),
            forall|j: int| 0 <= j < i ==> identities@[j].node_id != node_id,
        decreases identities@.len() - i,
    {
        if identities[i].node_id == node_id {
            return Some(i);
        }
        i = i + 1;
    }
    None
}

/// Checks that every identity's public key text is an RSA public key in
/// PKCS#1 PEM; the first that is not gives the error.
pub fn check_identities(identities: &Vec<Identity>) -> (res: Result<(), String>)
    ensures
        res is Ok <==> forall|i: int|
            0 <= i < identities@.len() ==> pkcs1_public_key_parses(#[trigger] identities@[i].public_key@),
{
    let mut i: usize = 0;
    while i < identities.len()
        invariant
            i <= identities@.len(),
            forall|j: int| 0 <= j < i ==> pkcs1_public_key_parses(#[trigger] identities@[j].public_key@),
        decreases identities@.len() - i,
    {
        match check_public_key(identities[i].public_key.as_str()) {
            Ok(()) => {},
            Err(e) => return Err(e),
        }
        i = i + 1;
    }
    Ok(())
}

} // verus!
