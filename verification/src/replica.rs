//! Replica identity: who authored an event. The storage asks for it at store
//! time; domain code never sees it.

use vstd::prelude::*;

verus! {

#[derive(Debug)]
pub struct ReplicaIdProvider {
    replica_id: String,
}

impl View for ReplicaIdProvider {
    type V = Seq<char>;

    closed spec fn view(&self) -> Seq<char> {
        self.replica_id@
    }
}

impl Clone for ReplicaIdProvider {
    fn clone(&self) -> (r: Self)
        ensures
            r@ == self@,
    {
        ReplicaIdProvider { replica_id: self.replica_id.clone() }
    }
}

impl ReplicaIdProvider {
    pub fn new(replica_id: String) -> (r: Self)
        ensures
            r@ == replica_id@,
    {
        ReplicaIdProvider { replica_id }
    }

    pub fn get(&self) -> (r: String)
        ensures
            r@ == self@,
    {
        self.replica_id.clone()
    }
}

} // verus!
