use crate::text::{ascii, bytes_of};
use vstd::prelude::*;

verus! {

/// A request to merge one branch into another.
#[derive(Debug)]
pub struct PullRequest {
    pub id: u8,
    pub title: Vec<u8>,
    pub description: Vec<u8>,
    pub head: Vec<u8>,
    pub base: Vec<u8>,
    pub status: Vec<u8>,
}

impl PullRequest {
    /// A new request, which is open.
    pub fn new(id: u8, title: Vec<u8>, description: Vec<u8>, head: Vec<u8>, base: Vec<u8>) -> (r:
        PullRequest)
        ensures
            r.id == id,
            r.title@ == title@,
            r.description@ == description@,
            r.head@ == head@,
            r.base@ == base@,
            r.status@ == ascii("open"@),
    {
        proof {
            reveal_strlit("open");
        }
        PullRequest { id, title, description, head, base, status: bytes_of("open") }
    }

    /// The branch to merge.
    pub fn get_branch_name(&self) -> (r: Vec<u8>)
        ensures
            r@ == self.head@,
    {
        self.head.clone()
    }

    /// The branch to merge into.
    pub fn get_base_name(&self) -> (r: Vec<u8>)
        ensures
            r@ == self.base@,
    {
        self.base.clone()
    }

    /// Whether the request is open or closed.
    pub fn get_status(&self) -> (r: &Vec<u8>)
        ensures
            r@ == self.status@,
    {
        &self.status
    }

    /// Closes the request; nothing else of it changes.
    pub fn close(&mut self)
        ensures
            final(self).status@ == ascii("closed"@),
            final(self).id == old(self).id,
            final(self).title@ == old(self).title@,
            final(self).description@ == old(self).description@,
            final(self).head@ == old(self).head@,
            final(self).base@ == old(self).base@,
    {
        proof {
            reveal_strlit("closed");
        }
        self.status = bytes_of("closed");
    }
}

} // verus!
