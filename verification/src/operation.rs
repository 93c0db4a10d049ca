//! What a patch does to its target.

use vstd::prelude::*;
use crate::document::Operator;

verus! {

/// The operation of a patch on a node or on a key.
#[derive(Debug, PartialEq, Eq)]
pub enum Op {
    Insert,
    Copy,
    /// Otherwise known as 'paste'.
    CopyFrom { path: String, target: String },
    Edit,
    EditOrCreate,
    DefaultValue,
    Delete,
    Rename,
}

/// An operation with its texts as character sequences.
pub enum OpModel {
    Insert,
    Copy,
    CopyFrom { path: Seq<char>, target: Seq<char> },
    Edit,
    EditOrCreate,
    DefaultValue,
    Delete,
    Rename,
}

impl View for Op {
    type V = OpModel;

    open spec fn view(&self) -> OpModel {
        match self {
            Op::Insert => OpModel::Insert,
            Op::Copy => OpModel::Copy,
            Op::CopyFrom { path, target } => OpModel::CopyFrom { path: path@, target: target@ },
            Op::Edit => OpModel::Edit,
            Op::EditOrCreate => OpModel::EditOrCreate,
            Op::DefaultValue => OpModel::DefaultValue,
            Op::Delete => OpModel::Delete,
            Op::Rename => OpModel::Rename,
        }
    }
}

/// The operation that an operator stands for. Where no operator is written,
/// a source path makes the statement a copy from that path, and without one
/// it is an insertion.
pub open spec fn op_of(operator: Option<Operator>, copy_from: Option<(Seq<char>, Seq<char>)>) -> OpModel {
    match operator {
        None | Some(Operator::Plain) => match copy_from {
            Some((path, target)) => OpModel::CopyFrom { path, target },
            None => OpModel::Insert,
        },
        Some(Operator::Edit) => OpModel::Edit,
        Some(Operator::EditOrCreate) => OpModel::EditOrCreate,
        Some(Operator::CreateIfNotFound) => OpModel::DefaultValue,
        Some(Operator::Copy) => OpModel::Copy,
        Some(Operator::Delete) | Some(Operator::DeleteAlt) => OpModel::Delete,
        Some(Operator::Rename) => OpModel::Rename,
    }
}

/// A source path and a target, as texts.
pub open spec fn pair_text(pair: Option<(String, String)>) -> Option<(Seq<char>, Seq<char>)> {
    match pair {
        Some((path, target)) => Some((path@, target@)),
        None => None,
    }
}

impl Default for Op {
    fn default() -> (r: Self)
        ensures
            r@ is Insert,
    {
        Op::Insert
    }
}

impl Clone for Op {
    fn clone(&self) -> (r: Self)
        ensures
            r@ == self@,
    {
        match self {
            Op::Insert => Op::Insert,
            Op::Copy => Op::Copy,
            Op::CopyFrom { path, target } => Op::CopyFrom { path: path.clone(), target: target.clone() },
            Op::Edit => Op::Edit,
            Op::EditOrCreate => Op::EditOrCreate,
            Op::DefaultValue => Op::DefaultValue,
            Op::Delete => Op::Delete,
            Op::Rename => Op::Rename,
        }
    }
}

impl Op {
    pub fn new(operator: Option<Operator>, copy_from: Option<(String, String)>) -> (r: Self)
        ensures
            r@ == op_of(operator, pair_text(copy_from)),
    {
        let operator = match operator {
            Some(operator) => operator,
            None => Operator::Plain,
        };
        match operator {
            Operator::Plain => match copy_from {
                Some((path, target)) => Op::CopyFrom { path, target },
                None => Op::Insert,
            },
            Operator::Edit => Op::Edit,
            Operator::EditOrCreate => Op::EditOrCreate,
            Operator::CreateIfNotFound => Op::DefaultValue,
            Operator::Copy => Op::Copy,
            Operator::Delete | Operator::DeleteAlt => Op::Delete,
            Operator::Rename => Op::Rename,
        }
    }

    /// Whether the operation is a plain insertion.
    pub fn is_insert(&self) -> (r: bool)
        ensures
            r == (self@ is Insert),
    {
        match self {
            Op::Insert => true,
            _ => false,
        }
    }
}

} // verus!
