//! Stable identities for the object spine.
//!
//! Durable identity uses opaque stable ids, never visual labels. Object ids
//! (`WorkspaceId`, `DocumentId`, `BlockId`) are assigned by the client; `OpId`
//! is content-derived (see `envelope`), which gives tamper-evidence and
//! idempotent dedup on replay. Distinct newtypes keep one kind of id from
//! standing in for another.

use vstd::prelude::*;

verus! {

/// Identity of an account.
#[derive(PartialEq, Eq, Hash, PartialOrd, Ord, Debug)]
pub struct AccountId(pub String);

impl View for AccountId {
    type V = Seq<char>;

    open spec fn view(&self) -> Seq<char> {
        self.0@
    }
}

impl Clone for AccountId {
    fn clone(&self) -> (r: Self)
        ensures
            r == *self,
    {
        AccountId(self.0.clone())
    }
}

impl AccountId {
    pub fn new(s: &str) -> (r: Self)
        ensures
            r@ == s@,
    {
        AccountId(s.to_owned())
    }

    pub fn as_str(&self) -> (s: &str)
        ensures
            s@ == self@,
    {
        self.0.as_str()
    }

    /// Same id text.
    pub fn same(&self, other: &Self) -> (b: bool)
        ensures
            b == (self@ == other@),
    {
        self.0 == other.0
    }
}

/// Device that authors operations.
#[derive(PartialEq, Eq, Hash, PartialOrd, Ord, Debug)]
pub struct DeviceId(pub String);

impl View for DeviceId {
    type V = Seq<char>;

    open spec fn view(&self) -> Seq<char> {
        self.0@
    }
}

impl Clone for DeviceId {
    fn clone(&self) -> (r: Self)
        ensures
            r == *self,
    {
        DeviceId(self.0.clone())
    }
}

impl DeviceId {
    pub fn new(s: &str) -> (r: Self)
        ensures
            r@ == s@,
    {
        DeviceId(s.to_owned())
    }

    pub fn as_str(&self) -> (s: &str)
        ensures
            s@ == self@,
    {
        self.0.as_str()
    }

    /// Same id text.
    pub fn same(&self, other: &Self) -> (b: bool)
        ensures
            b == (self@ == other@),
    {
        self.0 == other.0
    }
}

/// A workspace, assigned by the client.
#[derive(PartialEq, Eq, Hash, PartialOrd, Ord, Debug)]
pub struct WorkspaceId(pub String);

impl View for WorkspaceId {
    type V = Seq<char>;

    open spec fn view(&self) -> Seq<char> {
        self.0@
    }
}

impl Clone for WorkspaceId {
    fn clone(&self) -> (r: Self)
        ensures
            r == *self,
    {
        WorkspaceId(self.0.clone())
    }
}

impl WorkspaceId {
    pub fn new(s: &str) -> (r: Self)
        ensures
            r@ == s@,
    {
        WorkspaceId(s.to_owned())
    }

    pub fn as_str(&self) -> (s: &str)
        ensures
            s@ == self@,
    {
        self.0.as_str()
    }

    /// Same id text.
    pub fn same(&self, other: &Self) -> (b: bool)
        ensures
            b == (self@ == other@),
    {
        self.0 == other.0
    }
}

/// A document, assigned by the client.
#[derive(PartialEq, Eq, Hash, PartialOrd, Ord, Debug)]
pub struct DocumentId(pub String);

impl View for DocumentId {
    type V = Seq<char>;

    open spec fn view(&self) -> Seq<char> {
        self.0@
    }
}

impl Clone for DocumentId {
    fn clone(&self) -> (r: Self)
        ensures
            r == *self,
    {
        DocumentId(self.0.clone())
    }
}

impl DocumentId {
    pub fn new(s: &str) -> (r: Self)
        ensures
            r@ == s@,
    {
        DocumentId(s.to_owned())
    }

    pub fn as_str(&self) -> (s: &str)
        ensures
            s@ == self@,
    {
        self.0.as_str()
    }

    /// Same id text.
    pub fn same(&self, other: &Self) -> (b: bool)
        ensures
            b == (self@ == other@),
    {
        self.0 == other.0
    }
}

/// A text block inside a document, assigned by the client.
#[derive(PartialEq, Eq, Hash, PartialOrd, Ord, Debug)]
pub struct BlockId(pub String);

impl View for BlockId {
    type V = Seq<char>;

    open spec fn view(&self) -> Seq<char> {
        self.0@
    }
}

impl Clone for BlockId {
    fn clone(&self) -> (r: Self)
        ensures
            r == *self,
    {
        BlockId(self.0.clone())
    }
}

impl BlockId {
    pub fn new(s: &str) -> (r: Self)
        ensures
            r@ == s@,
    {
        BlockId(s.to_owned())
    }

    pub fn as_str(&self) -> (s: &str)
        ensures
            s@ == self@,
    {
        self.0.as_str()
    }

    /// Same id text.
    pub fn same(&self, other: &Self) -> (b: bool)
        ensures
            b == (self@ == other@),
    {
        self.0 == other.0
    }
}

/// Content-derived operation id: hex SHA-256 of the envelope core.
#[derive(PartialEq, Eq, Hash, PartialOrd, Ord, Debug)]
pub struct OpId(pub String);

impl View for OpId {
    type V = Seq<char>;

    open spec fn view(&self) -> Seq<char> {
        self.0@
    }
}

impl Clone for OpId {
    fn clone(&self) -> (r: Self)
        ensures
            r == *self,
    {
        OpId(self.0.clone())
    }
}

impl OpId {
    pub fn new(s: &str) -> (r: Self)
        ensures
            r@ == s@,
    {
        OpId(s.to_owned())
    }

    pub fn as_str(&self) -> (s: &str)
        ensures
            s@ == self@,
    {
        self.0.as_str()
    }

    /// Same id text.
    pub fn same(&self, other: &Self) -> (b: bool)
        ensures
            b == (self@ == other@),
    {
        self.0 == other.0
    }
}

} // verus!
