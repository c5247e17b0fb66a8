use std::sync::Arc;
use vstd::prelude::*;
use vstd::rwlock::{RwLock, RwLockPredicate};
use crate::codec::Command;
use crate::store::{keeps_alive, Store};

verus! {

/// The invariant that the shared lock keeps: the store is well formed.
pub struct StoreWf;

impl RwLockPredicate<Store> for StoreWf {
    open spec fn inv(self, v: Store) -> bool {
        v.wf()
    }
}

/// A store shared by all connections, behind one lock.
pub type SharedStore = Arc<RwLock<Store, StoreWf>>;

/// Makes an empty shared store.
pub fn new_shared_store() -> (r: SharedStore)
    ensures
        r.pred() == StoreWf,
{
    Arc::new(RwLock::new(Store::new(), Ghost(StoreWf)))
}

/// The request handler of one connection: it applies commands to the shared store.
pub struct KV {
    store: SharedStore,
}

impl KV {
    /// The shared store that this handler works on.
    pub closed spec fn shared(&self) -> SharedStore {
        self.store
    }

    /// A handler over the given shared store.
    pub fn new(store: SharedStore) -> (r: KV)
        ensures
            r.shared() == store,
    {
        KV { store: store }
    }

    /// Applies `req` to the shared store while holding its lock, so that the
    /// read and the write of one command are atomic with respect to other
    /// connections. Returns the response and whether the connection stays open;
    /// `Quit` gives an empty response and closes.
    pub fn call(&self, req: Command) -> (r: (String, bool))
        ensures
            r.1 == keeps_alive(req@),
            req is Quit ==> r.0@.len() == 0,
    {
        let (mut store, handle) = self.store.acquire_write();
        let r = store.apply(req);
        handle.release_write(store);
        r
    }
}

} // verus!
