use vstd::prelude::*;
use crate::types::{Address, DbError};

verus! {

/// An append-only sequence of records addressed by position.
///
/// A log can be switched to read-only, after which every append fails with
/// `DbError::LogIo`, as a device that refuses writes would.
pub struct Log<R> {
    records: Vec<R>,
    writable: bool,
}

impl<R> Log<R> {
    pub closed spec fn records(&self) -> Seq<R> {
        self.records@
    }

    pub closed spec fn is_writable(&self) -> bool {
        self.writable
    }

    pub fn new() -> (r: Log<R>)
        ensures
            r.records() == Seq::<R>::empty(),
            r.is_writable(),
    {
        Log { records: Vec::new(), writable: true }
    }

    pub fn from_records(records: Vec<R>) -> (r: Log<R>)
        ensures
            r.records() == records@,
            r.is_writable(),
    {
        Log { records, writable: true }
    }

    pub fn records_vec(&self) -> (r: &Vec<R>)
        ensures
            r@ == self.records(),
    {
        &self.records
    }

    pub fn len(&self) -> (r: usize)
        ensures
            r == self.records().len(),
    {
        self.records.len()
    }

    pub fn writable(&self) -> (r: bool)
        ensures
            r == self.is_writable(),
    {
        self.writable
    }

    pub fn set_writable(&mut self, writable: bool)
        ensures
            final(self).records() == old(self).records(),
            final(self).is_writable() == writable,
    {
        self.writable = writable;
    }

    /// Appends a record and returns its address.
    pub fn append(&mut self, record: R) -> (r: Result<Address, DbError>)
        ensures
            old(self).is_writable() ==> r.is_ok() && r.unwrap().0 == old(self).records().len()
                && final(self).records() == old(self).records().push(record),
            !old(self).is_writable() ==> r == Err::<Address, DbError>(DbError::LogIo)
                && final(self).records() == old(self).records(),
            final(self).is_writable() == old(self).is_writable(),
    {
        if !self.writable {
            return Err(DbError::LogIo);
        }
        let at = self.records.len();
        self.records.push(record);
        Ok(Address(at))
    }

    /// The record at an address, if the log holds one there.
    pub fn read_at(&self, address: Address) -> (r: Option<&R>)
        ensures
            address.0 < self.records().len() ==> r == Some(&self.records()[address.0 as int]),
            address.0 >= self.records().len() ==> r.is_none(),
    {
        if address.0 < self.records.len() {
            Some(&self.records[address.0])
        } else {
            None
        }
    }
}

} // verus!
