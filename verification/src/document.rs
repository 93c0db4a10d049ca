//! The parsed form of a patch document, as the engine takes it in.
//!
//! A document is a list of statements. A statement is a node, with its
//! operator, its selector and a block of statements of its own; or a key with
//! its value; or a comment or an empty line, which the engine passes over.

use vstd::prelude::*;

verus! {

/// The operator written in front of a node or a key.
#[derive(Clone, Copy, Debug, PartialEq, Eq, Structural)]
pub enum Operator {
    /// No operator is written.
    Plain,
    Edit,
    EditOrCreate,
    CreateIfNotFound,
    Copy,
    Delete,
    DeleteAlt,
    Rename,
}

/// How a key's value is combined with the value that is there.
#[derive(Clone, Copy, Debug, PartialEq, Eq, Structural)]
pub enum AssignmentOperator {
    Assign,
    Add,
    Subtract,
    Multiply,
    Divide,
    Power,
    RegexReplace,
}

/// Which of the matches a patch is meant for.
#[derive(Clone, Copy, Debug, PartialEq, Eq, Structural)]
pub enum Index {
    All,
    Number(i32),
}

/// A position inside a value that holds a list.
#[derive(Clone, Copy, Debug, PartialEq, Eq)]
pub struct ArrayIndex {
    pub index: Option<i32>,
    pub separator: Option<char>,
}

/// The pass that a top-level node is tagged with.
#[derive(Debug, PartialEq, Eq)]
pub enum Pass {
    Default,
    First,
    Before(String),
    For(String),
    After(String),
    Last(String),
    Final,
}

/// One mod that a patch needs, or needs to be absent.
#[derive(Debug, PartialEq, Eq)]
pub struct ModClause {
    pub negated: bool,
    pub name: String,
}

/// Alternatives, of which one has to hold.
#[derive(Debug, PartialEq, Eq)]
pub struct OrClause {
    pub mod_clauses: Vec<ModClause>,
}

/// The condition under which a patch is kept: every clause has to hold.
#[derive(Debug, PartialEq, Eq)]
pub struct NeedsBlock {
    pub or_clauses: Vec<OrClause>,
}

/// Something that a node must have, or must not have, to be a target.
#[derive(Debug, PartialEq, Eq)]
pub enum HasPredicate {
    NodePredicate { negated: bool, node_type: String, name: Option<String>, has_block: Option<HasBlock> },
    KeyPredicate { negated: bool, key: String, value: Option<String> },
}

/// What a node must have to be a target: every predicate has to hold.
#[derive(Debug, PartialEq, Eq)]
pub struct HasBlock {
    pub predicates: Vec<HasPredicate>,
}

/// A key with its value.
#[derive(Clone, Debug, PartialEq, Eq)]
pub struct KeyVal {
    pub path: Option<String>,
    pub operator: Option<Operator>,
    pub key: String,
    pub needs: Option<NeedsBlock>,
    pub index: Option<Index>,
    pub array_index: Option<ArrayIndex>,
    pub assignment_operator: AssignmentOperator,
    pub val: String,
}

/// A node with its block.
#[derive(Debug, PartialEq, Eq)]
pub struct Node {
    pub path: Option<String>,
    pub operator: Option<Operator>,
    pub identifier: String,
    pub name: Option<String>,
    pub has: Option<HasBlock>,
    pub needs: Option<NeedsBlock>,
    pub pass: Pass,
    pub index: Option<Index>,
    pub block: Vec<NodeItem>,
}

/// One statement.
#[derive(Debug, PartialEq, Eq)]
pub enum NodeItem {
    Node(Node),
    KeyVal(KeyVal),
    Comment(String),
    EmptyLine,
}

/// A whole file.
#[derive(Debug, PartialEq, Eq, Default)]
pub struct Document {
    pub statements: Vec<NodeItem>,
}

impl Clone for Pass {
    fn clone(&self) -> (r: Self)
        ensures
            r == *self,
    {
        match self {
            Pass::Default => Pass::Default,
            Pass::First => Pass::First,
            Pass::Before(ident) => Pass::Before(ident.clone()),
            Pass::For(ident) => Pass::For(ident.clone()),
            Pass::After(ident) => Pass::After(ident.clone()),
            Pass::Last(ident) => Pass::Last(ident.clone()),
            Pass::Final => Pass::Final,
        }
    }
}

/// A text that may be absent.
pub open spec fn text_of(text: Option<String>) -> Option<Seq<char>> {
    match text {
        Some(text) => Some(text@),
        None => None,
    }
}

/// One mod that a patch needs, or needs to be absent.
pub struct NeedModel {
    pub negated: bool,
    pub name: Seq<char>,
}

impl View for ModClause {
    type V = NeedModel;

    open spec fn view(&self) -> NeedModel {
        NeedModel { negated: self.negated, name: self.name@ }
    }
}

impl View for OrClause {
    type V = Seq<NeedModel>;

    open spec fn view(&self) -> Seq<NeedModel> {
        Seq::new(self.mod_clauses@.len(), |i: int| self.mod_clauses@[i]@)
    }
}

/// A condition as a list of lists of needs.
pub open spec fn needs_model(needs: Seq<OrClause>) -> Seq<Seq<NeedModel>> {
    Seq::new(needs.len(), |i: int| needs[i]@)
}

/// Something that a node must have, or must not have, to be a target.
pub enum CapabilityModel {
    /// A child with this identifier, this name if one is given, and these capabilities.
    Node { negated: bool, ident: Seq<char>, name: Option<Seq<char>>, nested: Seq<CapabilityModel> },
    /// A key with this identifier and, if one is given, this value.
    Key { negated: bool, ident: Seq<char>, value: Option<Seq<char>> },
}

pub open spec fn capability_model(predicate: HasPredicate) -> CapabilityModel
    decreases predicate,
{
    match predicate {
        HasPredicate::NodePredicate { negated, node_type, name, has_block } => CapabilityModel::Node {
            negated,
            ident: node_type@,
            name: text_of(name),
            nested: match has_block {
                Some(block) => Seq::new(
                    block.predicates@.len(),
                    |i: int|
                        if 0 <= i < block.predicates@.len() {
                            capability_model(block.predicates@[i])
                        } else {
                            arbitrary()
                        },
                ),
                None => Seq::empty(),
            },
        },
        HasPredicate::KeyPredicate { negated, key, value } => CapabilityModel::Key {
            negated,
            ident: key@,
            value: text_of(value),
        },
    }
}

impl View for HasPredicate {
    type V = CapabilityModel;

    open spec fn view(&self) -> CapabilityModel {
        capability_model(*self)
    }
}

/// Some capabilities, in order.
pub open spec fn capabilities_model(predicates: Seq<HasPredicate>) -> Seq<CapabilityModel> {
    Seq::new(predicates.len(), |i: int| predicates[i]@)
}

impl Clone for ModClause {
    fn clone(&self) -> (r: Self)
        ensures
            r@ == self@,
    {
        ModClause { negated: self.negated, name: self.name.clone() }
    }
}

impl Clone for OrClause {
    fn clone(&self) -> (r: Self)
        ensures
            r@ == self@,
    {
        let mut mod_clauses: Vec<ModClause> = Vec::new();
        let mut i: usize = 0;
        while i < self.mod_clauses.len()
            invariant
                i <= self.mod_clauses@.len(),
                mod_clauses@.len() == i,
                forall|k: int| 0 <= k < i ==> (#[trigger] mod_clauses@[k])@ == self.mod_clauses@[k]@,
            decreases self.mod_clauses@.len() - i,
        {
            mod_clauses.push(self.mod_clauses[i].clone());
            i = i + 1;
        }
        let r = OrClause { mod_clauses };
        assert(r@ =~= self@);
        r
    }
}

/// A copy of a condition.
pub fn copy_needs(needs: &Vec<OrClause>) -> (r: Vec<OrClause>)
    ensures
        needs_model(r@) == needs_model(needs@),
{
    let mut out: Vec<OrClause> = Vec::new();
    let mut i: usize = 0;
    while i < needs.len()
        invariant
            i <= needs@.len(),
            out@.len() == i,
            forall|k: int| 0 <= k < i ==> (#[trigger] out@[k])@ == needs@[k]@,
        decreases needs@.len() - i,
    {
        out.push(needs[i].clone());
        i = i + 1;
    }
    assert(needs_model(out@) =~= needs_model(needs@));
    out
}

impl Clone for NeedsBlock {
    fn clone(&self) -> (r: Self)
        ensures
            needs_model(r.or_clauses@) == needs_model(self.or_clauses@),
    {
        NeedsBlock { or_clauses: copy_needs(&self.or_clauses) }
    }
}

/// A copy of a text that may be absent.
pub fn copy_text(text: &Option<String>) -> (r: Option<String>)
    ensures
        text_of(r) == text_of(*text),
{
    match text {
        Some(text) => Some(text.clone()),
        None => None,
    }
}

/// A copy of a capability.
pub fn copy_predicate(predicate: &HasPredicate) -> (r: HasPredicate)
    ensures
        r@ == predicate@,
    decreases predicate,
{
    proof {
        lemma_nested_capabilities(*predicate);
    }
    match predicate {
        HasPredicate::NodePredicate { negated, node_type, name, has_block } => {
            let r = HasPredicate::NodePredicate {
                negated: *negated,
                node_type: node_type.clone(),
                name: copy_text(name),
                has_block: match has_block {
                    Some(block) => Some(HasBlock { predicates: copy_predicates(&block.predicates) }),
                    None => None,
                },
            };
            proof {
                lemma_nested_capabilities(r);
            }
            r
        },
        HasPredicate::KeyPredicate { negated, key, value } => HasPredicate::KeyPredicate {
            negated: *negated,
            key: key.clone(),
            value: copy_text(value),
        },
    }
}

/// A copy of a list of capabilities.
pub fn copy_predicates(predicates: &Vec<HasPredicate>) -> (r: Vec<HasPredicate>)
    ensures
        capabilities_model(r@) == capabilities_model(predicates@),
    decreases predicates,
{
    let mut out: Vec<HasPredicate> = Vec::new();
    let mut i: usize = 0;
    while i < predicates.len()
        invariant
            i <= predicates@.len(),
            out@.len() == i,
            forall|k: int| 0 <= k < i ==> (#[trigger] out@[k])@ == predicates@[k]@,
        decreases predicates@.len() - i,
    {
        out.push(copy_predicate(&predicates[i]));
        i = i + 1;
    }
    assert(capabilities_model(out@) =~= capabilities_model(predicates@));
    out
}

impl Clone for HasPredicate {
    fn clone(&self) -> (r: Self)
        ensures
            r@ == self@,
    {
        copy_predicate(self)
    }
}

impl Clone for HasBlock {
    fn clone(&self) -> (r: Self)
        ensures
            capabilities_model(r.predicates@) == capabilities_model(self.predicates@),
    {
        HasBlock { predicates: copy_predicates(&self.predicates) }
    }
}

/// The capabilities nested in a node predicate are those of its block.
pub proof fn lemma_nested_capabilities(predicate: HasPredicate)
    ensures
        match predicate {
            HasPredicate::NodePredicate { has_block: Some(block), .. } => predicate@->nested
                == capabilities_model(block.predicates@),
            HasPredicate::NodePredicate { has_block: None, .. } => predicate@->nested
                == Seq::<CapabilityModel>::empty(),
            _ => true,
        },
{
    match predicate {
        HasPredicate::NodePredicate { has_block: Some(block), .. } => {
            assert(predicate@->nested =~= capabilities_model(block.predicates@));
        },
        _ => {},
    }
}

} // verus!
