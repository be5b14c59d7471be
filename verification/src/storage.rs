//! The interface of a storage backend. None of its operations exists yet: each of them says so.

use crate::terms::{Quad, Term};
use vstd::prelude::*;

verus! {

/// An operation of the backend.
#[derive(Clone, Copy, Debug, PartialEq, Eq, Structural)]
pub enum Operation {
    /// Open a storage.
    Open,
    /// Take a snapshot.
    Snapshot,
    /// Count the quads.
    Len,
    /// Tell whether there are quads.
    IsEmpty,
    /// Tell whether there is a quad.
    Contains,
    /// Find quads.
    QuadsForPattern,
    /// List the graphs.
    NamedGraphs,
    /// Tell whether there is a graph.
    ContainsNamedGraph,
    /// Tell whether there is a string.
    ContainsStr,
    /// Find a string.
    GetStr,
    /// Check the storage.
    Validate,
    /// Go on with a list of quads.
    NextQuad,
    /// Go on with a list of graphs.
    NextGraph,
}

/// An error of the backend.
#[derive(Clone, Copy, Debug, PartialEq, Eq, Structural)]
pub enum StorageError {
    /// The operation does not exist yet.
    NotYetImplemented(Operation),
}

/// A storage.
pub struct SuccinctStorage {}

/// A snapshot of a storage.
pub struct SuccinctStorageReader<'a> {
    /// The storage.
    pub storage: &'a SuccinctStorage,
}

/// A list of quads.
pub struct SuccinctQuadIterator<'a> {
    /// The storage.
    pub storage: &'a SuccinctStorage,
}

/// A list of graphs.
pub struct SuccinctDecodingGraphIterator<'a> {
    /// The storage.
    pub storage: &'a SuccinctStorage,
}

impl SuccinctStorage {
    /// Opens a storage.
    pub fn open(_path: &str) -> (res: Result<Self, StorageError>)
        ensures
            res is Err && res->Err_0 == StorageError::NotYetImplemented(Operation::Open),
    {
        Err(StorageError::NotYetImplemented(Operation::Open))
    }

    /// Takes a snapshot.
    pub fn snapshot(&self) -> (res: Result<SuccinctStorageReader<'static>, StorageError>)
        ensures
            res is Err && res->Err_0 == StorageError::NotYetImplemented(Operation::Snapshot),
    {
        Err(StorageError::NotYetImplemented(Operation::Snapshot))
    }
}

impl<'a> SuccinctStorageReader<'a> {
    /// The number of quads.
    pub fn len(&self) -> (res: Result<usize, StorageError>)
        ensures
            res is Err && res->Err_0 == StorageError::NotYetImplemented(Operation::Len),
    {
        Err(StorageError::NotYetImplemented(Operation::Len))
    }

    /// Whether there are no quads.
    pub fn is_empty(&self) -> (res: Result<bool, StorageError>)
        ensures
            res is Err && res->Err_0 == StorageError::NotYetImplemented(Operation::IsEmpty),
    {
        Err(StorageError::NotYetImplemented(Operation::IsEmpty))
    }

    /// Whether there is a quad.
    pub fn contains(&self, _quad: &Quad) -> (res: Result<bool, StorageError>)
        ensures
            res is Err && res->Err_0 == StorageError::NotYetImplemented(Operation::Contains),
    {
        Err(StorageError::NotYetImplemented(Operation::Contains))
    }

    /// The quads that match a pattern.
    pub fn quads_for_pattern(
        &self,
        _subject: Option<&Term>,
        _predicate: Option<&Term>,
        _object: Option<&Term>,
        _graph_name: Option<&Term>,
    ) -> (res: Result<SuccinctQuadIterator<'a>, StorageError>)
        ensures
            res is Err && res->Err_0 == StorageError::NotYetImplemented(Operation::QuadsForPattern),
    {
        Err(StorageError::NotYetImplemented(Operation::QuadsForPattern))
    }

    /// The graphs.
    pub fn named_graphs(&self) -> (res: Result<SuccinctDecodingGraphIterator<'a>, StorageError>)
        ensures
            res is Err && res->Err_0 == StorageError::NotYetImplemented(Operation::NamedGraphs),
    {
        Err(StorageError::NotYetImplemented(Operation::NamedGraphs))
    }

    /// Whether there is a graph.
    pub fn contains_named_graph(&self, _graph_name: &Term) -> (res: Result<bool, StorageError>)
        ensures
            res is Err && res->Err_0 == StorageError::NotYetImplemented(
                Operation::ContainsNamedGraph,
            ),
    {
        Err(StorageError::NotYetImplemented(Operation::ContainsNamedGraph))
    }

    /// Whether there is a string with a given hash.
    pub fn contains_str(&self, _key: u128) -> (res: Result<bool, StorageError>)
        ensures
            res is Err && res->Err_0 == StorageError::NotYetImplemented(Operation::ContainsStr),
    {
        Err(StorageError::NotYetImplemented(Operation::ContainsStr))
    }

    /// The string with a given hash, if there is one.
    pub fn get_str(&self, _key: u128) -> (res: Result<Option<String>, StorageError>)
        ensures
            res is Err && res->Err_0 == StorageError::NotYetImplemented(Operation::GetStr),
    {
        Err(StorageError::NotYetImplemented(Operation::GetStr))
    }

    /// Checks the storage.
    pub fn validate(&self) -> (res: Result<(), StorageError>)
        ensures
            res is Err && res->Err_0 == StorageError::NotYetImplemented(Operation::Validate),
    {
        Err(StorageError::NotYetImplemented(Operation::Validate))
    }
}

impl<'a> SuccinctQuadIterator<'a> {
    /// The next quad.
    pub fn next(&mut self) -> (res: Result<Option<Quad>, StorageError>)
        ensures
            res is Err && res->Err_0 == StorageError::NotYetImplemented(Operation::NextQuad),
    {
        Err(StorageError::NotYetImplemented(Operation::NextQuad))
    }
}

impl<'a> SuccinctDecodingGraphIterator<'a> {
    /// The next graph.
    pub fn next(&mut self) -> (res: Result<Option<Term>, StorageError>)
        ensures
            res is Err && res->Err_0 == StorageError::NotYetImplemented(Operation::NextGraph),
    {
        Err(StorageError::NotYetImplemented(Operation::NextGraph))
    }
}

} // verus!
