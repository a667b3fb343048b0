//! The changes that a transaction asks for.

use crate::buf::bytes_view;
use bytes::Bytes;
use vstd::prelude::*;

verus! {

/// One change of a key.
#[derive(Debug)]
pub enum Mutation {
    /// Insert or overwrite a key.
    Put {
        /// Key.
        key: Bytes,
        /// New value.
        value: Bytes,
    },
    /// Delete a key.
    Delete {
        /// Key.
        key: Bytes,
    },
}

/// What a mutation asks for: the key, and its new value or none.
#[verifier::ext_equal]
pub struct MutationModel {
    /// Key.
    pub key: Seq<u8>,
    /// New value; none deletes.
    pub value: Option<Seq<u8>>,
}

impl View for Mutation {
    type V = MutationModel;

    open spec fn view(&self) -> MutationModel {
        match *self {
            Mutation::Put { key, value } => MutationModel {
                key: bytes_view(key),
                value: Some(bytes_view(value)),
            },
            Mutation::Delete { key } => MutationModel { key: bytes_view(key), value: None },
        }
    }
}

impl Clone for Mutation {
    fn clone(&self) -> (r: Self)
        ensures
            r@ == self@,
    {
        match self {
            Mutation::Put { key, value } => Mutation::Put { key: key.clone(), value: value.clone() },
            Mutation::Delete { key } => Mutation::Delete { key: key.clone() },
        }
    }
}

/// What a list of mutations asks for.
pub open spec fn mutation_models(ms: Seq<Mutation>) -> Seq<MutationModel> {
    ms.map_values(|m: Mutation| m@)
}

impl Mutation {
    /// Lends the key.
    pub fn key(&self) -> (r: &Bytes)
        ensures
            bytes_view(*r) == self@.key,
    {
        match self {
            Mutation::Put { key, .. } => key,
            Mutation::Delete { key } => key,
        }
    }
}

} // verus!
