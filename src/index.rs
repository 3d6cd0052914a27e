use vstd::prelude::*;
use crate::hash::Digest;
use crate::layout::{count_of, decoded_slots, entries_of, parse_error, LayoutError};
use crate::table::Table;

verus! {

/// Read-only digest to frame-offset lookup over one archive's table.
pub struct Index {
    pub table: Table,
}

impl Index {
    pub open spec fn wf(&self) -> bool {
        self.table.wf()
    }

    pub open spec fn view(&self) -> Map<u64, u64> {
        self.table@
    }

    /// Opens a persisted layout.
    pub fn open(bytes: &[u8]) -> (r: Result<Index, LayoutError>)
        ensures
            match r {
                Ok(ix) => parse_error(bytes@) is None && ix.wf() && ix@ == entries_of(
                    decoded_slots(bytes@),
                ) && ix.table.count == count_of(bytes@),
                Err(e) => parse_error(bytes@) == Some(e),
            },
    {
        match Table::deserialize(bytes) {
            Ok(table) => Ok(Index { table }),
            Err(e) => Err(e),
        }
    }

    /// Wraps a table built in memory.
    pub fn from_table(table: Table) -> (r: Index)
        requires
            table.wf(),
        ensures
            r.wf(),
            r@ == table@,
    {
        Index { table }
    }

    /// Frame offset of the content with digest `digest`, if indexed.
    pub fn get(&self, digest: Digest) -> (r: Option<u64>)
        requires
            self.wf(),
        ensures
            r == if self@.contains_key(digest.0) {
                Some(self@[digest.0])
            } else {
                None::<u64>
            },
    {
        self.table.lookup(digest.0)
    }
}

} // verus!
