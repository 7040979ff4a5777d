//! What a node keeps besides its consensus state: pending requests and its chain.
use crate::message::Request;
use crate::database::{written, KeyValueStore};
use crate::store::{block_write_views, genesis_view, last_block_index_key, RocksDBBlockStore};
use vstd::prelude::*;

verus! {

/// The requests a node holds for the next block, and its block store.
pub struct State<D> {
    pub request_buffer: Vec<Request>,
    pub rocksdb: RocksDBBlockStore<D>,
}

impl<D: KeyValueStore> State<D> {
    /// A state with no pending requests, on a block store opened on `db`.
    pub fn new(db: D) -> (res: Result<Self, String>)
        ensures
            db.never_fails() && db.contents().contains_key(last_block_index_key()) ==> res is Ok,
            res matches Ok(state) ==> state.rocksdb.db.never_fails() == db.never_fails(),
            res matches Ok(state) ==> state.request_buffer@.len() == 0 && if db.contents().contains_key(
                last_block_index_key(),
            ) {
                state.rocksdb.db.contents() == db.contents()
            } else {
                exists|t: u64|
                    state.rocksdb.db.contents() == written(
                        db.contents(),
                        block_write_views(#[trigger] genesis_view(t)),
                    )
            },
    {
        match RocksDBBlockStore::new(db) {
            Ok(rocksdb) => Ok(State { request_buffer: Vec::new(), rocksdb }),
            Err(e) => Err(e),
        }
    }

    /// Appends a request to the pending requests.
    pub fn add_request(&mut self, request: Request)
        ensures
            final(self).request_buffer@ == old(self).request_buffer@.push(request),
            final(self).rocksdb == old(self).rocksdb,
    {
        self.request_buffer.push(request);
    }
}

} // verus!
