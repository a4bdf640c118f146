use vstd::prelude::*;

verus! {

/// A snapshot of the backup repository, as the snapshot catalog lists it.
/// Two snapshots are the same snapshot when their identifiers are equal.
#[derive(Debug)]
pub struct Snapshot {
    pub id: String,
    pub time: String,
}

impl Snapshot {
    /// A copy of this snapshot.
    pub fn copy(&self) -> (r: Snapshot)
        ensures
            r == *self,
    {
        Snapshot { id: self.id.clone(), time: self.time.clone() }
    }
}

/// The identifiers of a list of snapshots.
pub open spec fn ids_of(s: Seq<Snapshot>) -> Seq<Seq<char>> {
    s.map_values(|x: Snapshot| x.id@)
}

} // verus!
