//! The database: the top-level nodes that the patches have produced.

use vstd::prelude::*;
use vstd::string::*;
use crate::config_node::{
    lemma_children, node_text, nodes_model, nodes_wf, spaces, ConfigKey, ConfigNode, KeyModel,
    NodeList, NodeModel,
};
use crate::{internal_error, ErrorModel, PatchingError};

verus! {

/// The top-level nodes, in the order in which they were inserted.
#[derive(Debug, PartialEq)]
pub struct Database(pub NodeList);

impl View for Database {
    type V = Seq<NodeModel>;

    open spec fn view(&self) -> Seq<NodeModel> {
        nodes_model(self.0@)
    }
}

/// Every node of the list carries the path of the file that inserted it.
pub open spec fn all_top_level(nodes: Seq<NodeModel>) -> bool {
    forall|i: int| 0 <= i < nodes.len() ==> (#[trigger] nodes[i]).origin is Some
}

/// The node that wraps a top-level node when the database is written out:
/// it records the path of the node's file in a key.
pub open spec fn wrapped(node: NodeModel) -> NodeModel {
    NodeModel {
        origin: None,
        ident: "URL_CONFIG"@,
        keys: seq![KeyModel { ident: "parentUrl"@, value: node.origin->0 }],
        children: seq![node],
    }
}

/// The lines of the first `n` nodes of a database, each node wrapped,
/// without a margin and with four spaces for each level.
pub open spec fn database_text(nodes: Seq<NodeModel>, n: int) -> Seq<char>
    decreases n,
{
    if n <= 0 || n > nodes.len() {
        Seq::empty()
    } else {
        database_text(nodes, n - 1) + node_text(wrapped(nodes[n - 1]), Seq::empty(), spaces(4))
    }
}

impl Default for Database {
    fn default() -> (r: Self)
        ensures
            r@ == Seq::<NodeModel>::empty(),
            r.0@.len() == 0,
            r.wf(),
    {
        let r = Database(Vec::new());
        assert(r@ =~= Seq::<NodeModel>::empty());
        r
    }
}

impl Clone for Database {
    fn clone(&self) -> (r: Self)
        ensures
            r@ == self@,
            r.wf() == self.wf(),
    {
        let mut nodes: Vec<Option<ConfigNode>> = Vec::new();
        let mut i: usize = 0;
        while i < self.0.len()
            invariant
                i <= self.0@.len(),
                nodes@.len() == i,
                forall|k: int| 0 <= k < i ==> (#[trigger] nodes@[k]) is Some == self.0@[k] is Some,
                forall|k: int|
                    0 <= k < i && self.0@[k] is Some ==> {
                        &&& (#[trigger] nodes@[k])->0@ == self.0@[k]->0@
                        &&& nodes@[k]->0.wf() == self.0@[k]->0.wf()
                    },
            decreases self.0@.len() - i,
        {
            let slot = match &self.0[i] {
                Some(node) => {
                    let copy = node.clone();
                    Some(copy)
                },
                None => None,
            };
            nodes.push(slot);
            i = i + 1;
        }
        let r = Database(nodes);
        proof {
            assert(r@ =~= self@);
            if self.wf() {
                assert forall|k: int| 0 <= k < r.0@.len() implies (#[trigger] r.0@[k]) is Some
                    && r.0@[k]->0.wf() by {
                    assert(self.0@[k] is Some);
                }
            }
            if r.wf() {
                assert forall|k: int| 0 <= k < self.0@.len() implies (#[trigger] self.0@[k]) is Some
                    && self.0@[k]->0.wf() by {
                    assert(r.0@[k] is Some);
                }
            }
        }
        r
    }
}

impl Database {
    /// No slot is empty, at any depth, and every top-level node carries the
    /// path of its file.
    pub open spec fn wf(&self) -> bool {
        nodes_wf(self.0@) && all_top_level(self@)
    }

    /// Appends a top-level node. A node that does not carry the path of its
    /// file is refused with an internal error.
    pub fn insert(&mut self, top_level_node: ConfigNode) -> (r: Result<(), PatchingError>)
        ensures
            match r {
                Ok(()) => {
                    &&& top_level_node@.origin is Some
                    &&& final(self).0@ == old(self).0@.push(Some(top_level_node))
                    &&& top_level_node.wf() ==> final(self)@ == old(self)@.push(top_level_node@)
                    &&& old(self).wf() && top_level_node.wf() ==> final(self).wf()
                },
                Err(e) => e@ is Internal && top_level_node@.origin is None && *final(self) == *old(self),
            },
    {
        if !top_level_node.is_top_level() {
            return internal_error("attempted to insert top-level-node nor marked as such");
        }
        self.0.push(Some(top_level_node));
        assert(self@ =~= old(self)@.push(top_level_node@));
        Ok(())
    }

    /// The database as text: every top-level node, wrapped in a node that
    /// names its file.
    pub fn render(&self) -> (r: String)
        requires
            self.wf(),
        ensures
            r@ == database_text(self@, self@.len() as int),
    {
        let mut out = String::new();
        let mut i: usize = 0;
        while i < self.0.len()
            invariant
                i <= self.0@.len(),
                self.wf(),
                out@ == database_text(self@, i as int),
            decreases self.0@.len() - i,
        {
            match &self.0[i] {
                Some(node) => {
                    let path = match &node.file_path {
                        Some(path) => path.as_str(),
                        None => "",
                    };
                    let mut keys: Vec<ConfigKey> = Vec::new();
                    keys.push(ConfigKey::new("parentUrl", path));
                    let mut nodes: Vec<Option<ConfigNode>> = Vec::new();
                    nodes.push(Some(node.clone()));
                    let wrapper = ConfigNode { file_path: None, ident: "URL_CONFIG".to_owned(), nodes, keys };
                    proof {
                        lemma_children(wrapper);
                        assert(self@[i as int] == node@);
                        assert(node@.origin is Some);
                        assert(wrapper@.keys =~= wrapped(node@).keys);
                        assert(wrapper@.children =~= wrapped(node@).children);
                        assert(spaces(0) =~= Seq::<char>::empty());
                    }
                    wrapper.fmt_into(&mut out, 0, 4);
                },
                None => {},
            }
            i = i + 1;
        }
        out
    }
}

} // verus!
