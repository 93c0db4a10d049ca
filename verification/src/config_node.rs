//! The nodes and keys of the result tree.

use vstd::prelude::*;
use vstd::string::*;
use crate::text;

verus! {

/// One `identifier = value` line of a node.
#[derive(Debug, PartialEq, Eq)]
pub struct ConfigKey {
    pub ident: String,
    pub value: String,
}

/// A node of the result tree. Only a top-level node carries the path of the
/// file that inserted it.
#[derive(Debug, PartialEq, Eq)]
pub struct ConfigNode {
    pub file_path: Option<String>,
    pub ident: String,
    pub nodes: NodeList,
    pub keys: Vec<ConfigKey>,
}

/// A list of slots. A slot is empty only while its node is checked out.
pub type NodeList = Vec<Option<ConfigNode>>;

/// A key as a pair of texts.
pub struct KeyModel {
    pub ident: Seq<char>,
    pub value: Seq<char>,
}

/// The tree that a node without empty slots denotes.
pub struct NodeModel {
    pub origin: Option<Seq<char>>,
    pub ident: Seq<char>,
    pub keys: Seq<KeyModel>,
    pub children: Seq<NodeModel>,
}

impl View for ConfigKey {
    type V = KeyModel;

    open spec fn view(&self) -> KeyModel {
        KeyModel { ident: self.ident@, value: self.value@ }
    }
}

/// The keys of a list, in order.
pub open spec fn keys_model(keys: Seq<ConfigKey>) -> Seq<KeyModel> {
    Seq::new(keys.len(), |i: int| keys[i]@)
}

/// The tree that `node` denotes. An empty slot has no meaning in the model:
/// see `ConfigNode::wf`.
pub open spec fn node_model(node: ConfigNode) -> NodeModel
    decreases node,
{
    NodeModel {
        origin: match node.file_path {
            Some(path) => Some(path@),
            None => None,
        },
        ident: node.ident@,
        keys: keys_model(node.keys@),
        children: Seq::new(
            node.nodes@.len(),
            |i: int|
                if 0 <= i < node.nodes@.len() && node.nodes@[i] is Some {
                    node_model(node.nodes@[i]->0)
                } else {
                    arbitrary()
                },
        ),
    }
}

impl View for ConfigNode {
    type V = NodeModel;

    open spec fn view(&self) -> NodeModel {
        node_model(*self)
    }
}

/// The nodes of a list of slots, in order.
pub open spec fn nodes_model(slots: Seq<Option<ConfigNode>>) -> Seq<NodeModel> {
    Seq::new(
        slots.len(),
        |i: int|
            if 0 <= i < slots.len() && slots[i] is Some {
                slots[i]->0@
            } else {
                arbitrary()
            },
    )
}

/// The children of a node's model are the models of its slots.
pub proof fn lemma_children(node: ConfigNode)
    ensures
        node@.children == nodes_model(node.nodes@),
        node@.keys == keys_model(node.keys@),
        node.wf() == nodes_wf(node.nodes@),
{
    assert(node@.children =~= nodes_model(node.nodes@));
}

/// No slot of the list is empty, at any depth.
pub open spec fn nodes_wf(slots: Seq<Option<ConfigNode>>) -> bool {
    forall|i: int| 0 <= i < slots.len() ==> (#[trigger] slots[i]) is Some && slots[i]->0.wf()
}

/// The index of the first key named `ident`, or the number of keys if there is none.
pub open spec fn first_key(keys: Seq<KeyModel>, ident: Seq<char>) -> int
    decreases keys.len(),
{
    if keys.len() == 0 || keys[0].ident == ident {
        0
    } else {
        1 + first_key(keys.drop_first(), ident)
    }
}

/// `first_key` is the least index of a key with that name.
pub proof fn lemma_first_key(keys: Seq<KeyModel>, ident: Seq<char>)
    ensures
        0 <= first_key(keys, ident) <= keys.len(),
        first_key(keys, ident) < keys.len() ==> keys[first_key(keys, ident)].ident == ident,
        forall|j: int| 0 <= j < first_key(keys, ident) ==> (#[trigger] keys[j]).ident != ident,
    decreases keys.len(),
{
    if keys.len() == 0 || keys[0].ident == ident {
    } else {
        let rest = keys.drop_first();
        lemma_first_key(rest, ident);
        assert forall|j: int| 0 <= j < first_key(keys, ident) implies (#[trigger] keys[j]).ident
            != ident by {
            if j > 0 {
                assert(keys[j] == rest[j - 1]);
            }
        }
    }
}

/// The least index with a property is `first_key`.
pub proof fn lemma_first_key_is(keys: Seq<KeyModel>, ident: Seq<char>, i: int)
    requires
        0 <= i <= keys.len(),
        i < keys.len() ==> keys[i].ident == ident,
        forall|j: int| 0 <= j < i ==> (#[trigger] keys[j]).ident != ident,
    ensures
        first_key(keys, ident) == i,
{
    lemma_first_key(keys, ident);
    let f = first_key(keys, ident);
    if f < i {
        assert(keys[f].ident != ident);
    }
}

/// The value of the key called `name`, if the node has one.
pub open spec fn name_of(node: NodeModel) -> Option<Seq<char>> {
    let i = first_key(node.keys, "name"@);
    if i < node.keys.len() {
        Some(node.keys[i].value)
    } else {
        None
    }
}

/// `n` spaces.
pub open spec fn spaces(n: nat) -> Seq<char> {
    Seq::new(n, |i: int| ' ')
}

/// The line of a key behind the margin `pad`.
pub open spec fn key_text(key: KeyModel, pad: Seq<char>) -> Seq<char> {
    pad + key.ident + " = "@ + key.value + "\n"@
}

/// The lines of some keys, one after the other.
pub open spec fn keys_text(keys: Seq<KeyModel>, pad: Seq<char>) -> Seq<char>
    decreases keys.len(),
{
    if keys.len() == 0 {
        Seq::empty()
    } else {
        keys_text(keys.drop_last(), pad) + key_text(keys.last(), pad)
    }
}

/// The lines of a node behind the margin `pad`: its identifier, an opening
/// brace, its keys, its children, a closing brace. What is inside the braces
/// stands behind a margin that is wider by `step`.
pub open spec fn node_text(node: NodeModel, pad: Seq<char>, step: Seq<char>) -> Seq<char>
    decreases node, 1nat,
{
    pad + node.ident + "\n"@ + pad + "{\n"@ + keys_text(node.keys, pad + step) + nodes_text(
        node.children,
        node.children.len() as int,
        pad + step,
        step,
    ) + pad + "}\n"@
}

/// The lines of the first `n` nodes of a list, one node after the other.
pub open spec fn nodes_text(nodes: Seq<NodeModel>, n: int, pad: Seq<char>, step: Seq<char>) -> Seq<char>
    decreases nodes, 0nat, n,
{
    if n <= 0 || n > nodes.len() {
        Seq::empty()
    } else {
        nodes_text(nodes, n - 1, pad, step) + node_text(nodes[n - 1], pad, step)
    }
}

impl Clone for ConfigKey {
    fn clone(&self) -> (r: Self)
        ensures
            r@ == self@,
    {
        ConfigKey { ident: self.ident.clone(), value: self.value.clone() }
    }
}

impl Default for ConfigKey {
    fn default() -> (r: Self)
        ensures
            r@ == (KeyModel { ident: Seq::empty(), value: Seq::empty() }),
    {
        ConfigKey { ident: String::new(), value: String::new() }
    }
}

impl ConfigKey {
    pub fn new(ident: &str, value: &str) -> (r: Self)
        ensures
            r@ == (KeyModel { ident: ident@, value: value@ }),
    {
        ConfigKey { ident: ident.to_owned(), value: value.to_owned() }
    }

    /// Appends the key's line to `out`, behind a margin of `indent * indent_size` spaces.
    pub fn fmt_into(&self, out: &mut String, indent: usize, indent_size: usize)
        ensures
            final(out)@ == old(out)@ + key_text(self@, spaces(indent as nat * indent_size as nat)),
    {
        let pad = margin(indent, indent_size);
        self.write(out, pad.as_str());
    }

    /// The key's line without a margin.
    pub fn render(&self) -> (r: String)
        ensures
            r@ == key_text(self@, Seq::empty()),
    {
        let mut out = String::new();
        self.write(&mut out, "");
        proof {
            reveal_strlit("");
            assert(""@ =~= Seq::<char>::empty());
            assert(Seq::<char>::empty() + key_text(self@, Seq::empty()) =~= key_text(self@, Seq::empty()));
        }
        out
    }

    fn write(&self, out: &mut String, pad: &str)
        ensures
            final(out)@ == old(out)@ + key_text(self@, pad@),
    {
        out.append(pad);
        out.append(self.ident.as_str());
        out.append(" = ");
        out.append(self.value.as_str());
        out.append("\n");
        assert(out@ =~= old(out)@ + key_text(self@, pad@));
    }
}

/// A string of `indent * indent_size` spaces.
pub fn margin(indent: usize, indent_size: usize) -> (r: String)
    ensures
        r@ == spaces(indent as nat * indent_size as nat),
{
    let step = blanks(indent_size);
    let mut out = String::new();
    let mut i: usize = 0;
    while i < indent
        invariant
            i <= indent,
            step@ == spaces(indent_size as nat),
            out@ == spaces(i as nat * indent_size as nat),
        decreases indent - i,
    {
        out.append(step.as_str());
        proof {
            assert((i + 1) as nat * indent_size as nat == i as nat * indent_size as nat + indent_size as nat)
                by (nonlinear_arith);
            assert(out@ =~= spaces((i + 1) as nat * indent_size as nat));
        }
        i = i + 1;
    }
    out
}

/// A string of `n` spaces.
pub fn blanks(n: usize) -> (r: String)
    ensures
        r@ == spaces(n as nat),
{
    let mut out = String::new();
    let mut i: usize = 0;
    while i < n
        invariant
            i <= n,
            out@ == spaces(i as nat),
        decreases n - i,
    {
        out.append(" ");
        proof {
            reveal_strlit(" ");
            assert(out@ =~= spaces((i + 1) as nat));
        }
        i = i + 1;
    }
    out
}

impl Clone for ConfigNode {
    fn clone(&self) -> (r: Self)
        ensures
            r@ == self@,
            r.wf() == self.wf(),
        decreases self,
    {
        let mut keys: Vec<ConfigKey> = Vec::new();
        let mut i: usize = 0;
        while i < self.keys.len()
            invariant
                i <= self.keys@.len(),
                keys@.len() == i,
                forall|k: int| 0 <= k < i ==> keys@[k]@ == self.keys@[k]@,
            decreases self.keys@.len() - i,
        {
            keys.push(self.keys[i].clone());
            i = i + 1;
        }
        let mut nodes: Vec<Option<ConfigNode>> = Vec::new();
        let mut j: usize = 0;
        while j < self.nodes.len()
            invariant
                j <= self.nodes@.len(),
                nodes@.len() == j,
                forall|k: int| 0 <= k < j ==> (#[trigger] nodes@[k]) is Some == self.nodes@[k] is Some,
                forall|k: int|
                    0 <= k < j && self.nodes@[k] is Some ==> (#[trigger] nodes@[k])->0@
                        == self.nodes@[k]->0@ && nodes@[k]->0.wf() == self.nodes@[k]->0.wf(),
            decreases self.nodes@.len() - j,
        {
            let slot = match &self.nodes[j] {
                Some(child) => Some(child.clone()),
                None => None,
            };
            nodes.push(slot);
            j = j + 1;
        }
        let file_path = match &self.file_path {
            Some(path) => Some(path.clone()),
            None => None,
        };
        let r = ConfigNode { file_path, ident: self.ident.clone(), nodes, keys };
        proof {
            assert(r@.keys =~= self@.keys);
            assert(r@.children =~= self@.children);
            if self.wf() {
                assert forall|k: int| 0 <= k < r.nodes@.len() implies (#[trigger] r.nodes@[k]) is Some
                    && r.nodes@[k]->0.wf() by {
                    assert(self.nodes@[k] is Some);
                }
            }
            if r.wf() {
                assert forall|k: int| 0 <= k < self.nodes@.len() implies (#[trigger] self.nodes@[k]) is Some
                    && self.nodes@[k]->0.wf() by {
                    assert(r.nodes@[k] is Some);
                }
            }
        }
        r
    }
}

impl Default for ConfigNode {
    fn default() -> (r: Self)
        ensures
            r@ == (NodeModel {
                origin: None,
                ident: Seq::empty(),
                keys: Seq::empty(),
                children: Seq::empty(),
            }),
            r.wf(),
    {
        let r = ConfigNode { file_path: None, ident: String::new(), nodes: Vec::new(), keys: Vec::new() };
        proof {
            assert(r@.keys =~= Seq::<KeyModel>::empty());
            assert(r@.children =~= Seq::<NodeModel>::empty());
        }
        r
    }
}

impl ConfigNode {
    /// No slot is empty, in this node or below it.
    pub open spec fn wf(&self) -> bool
        decreases self,
    {
        forall|i: int|
            0 <= i < self.nodes@.len() ==> (#[trigger] self.nodes@[i]) is Some
                && self.nodes@[i]->0.wf()
    }

    pub fn is_top_level(&self) -> (r: bool)
        ensures
            r == self@.origin.is_some(),
    {
        self.file_path.is_some()
    }

    /// The value of the first key called `name`.
    pub fn name_key(&self) -> (r: Option<&str>)
        ensures
            match r {
                Some(name) => name_of(self@) == Some(name@),
                None => name_of(self@) is None,
            },
    {
        let mut i: usize = 0;
        while i < self.keys.len()
            invariant
                i <= self.keys@.len(),
                forall|j: int| 0 <= j < i ==> (#[trigger] self@.keys[j]).ident != "name"@,
            decreases self.keys@.len() - i,
        {
            if text::same(self.keys[i].ident.as_str(), "name") {
                proof {
                    lemma_first_key_is(self@.keys, "name"@, i as int);
                }
                return Some(self.keys[i].value.as_str());
            }
            i = i + 1;
        }
        proof {
            lemma_first_key_is(self@.keys, "name"@, i as int);
        }
        None
    }

    /// Appends the node's lines to `out`, behind a margin of
    /// `indent * indent_size` spaces; each level below is indented by
    /// `indent_size` more.
    pub fn fmt_into(&self, out: &mut String, indent: usize, indent_size: usize)
        requires
            self.wf(),
        ensures
            final(out)@ == old(out)@ + node_text(
                self@,
                spaces(indent as nat * indent_size as nat),
                spaces(indent_size as nat),
            ),
    {
        let pad = margin(indent, indent_size);
        let step = blanks(indent_size);
        self.write(out, pad.as_str(), step.as_str());
    }

    /// The node's lines without a margin, each level indented by four spaces.
    pub fn render(&self) -> (r: String)
        requires
            self.wf(),
        ensures
            r@ == node_text(self@, Seq::empty(), spaces(4)),
    {
        let mut out = String::new();
        self.fmt_into(&mut out, 0, 4);
        proof {
            assert(spaces(0) =~= Seq::<char>::empty());
            assert(Seq::<char>::empty() + node_text(self@, Seq::empty(), spaces(4)) =~= node_text(
                self@,
                Seq::empty(),
                spaces(4),
            ));
        }
        out
    }

    fn write(&self, out: &mut String, pad: &str, step: &str)
        requires
            self.wf(),
        ensures
            final(out)@ == old(out)@ + node_text(self@, pad@, step@),
        decreases self,
    {
        out.append(pad);
        out.append(self.ident.as_str());
        out.append("\n");
        out.append(pad);
        out.append("{\n");
        let mut inner = pad.to_owned();
        inner.append(step);
        let ghost head = out@;
        let mut i: usize = 0;
        while i < self.keys.len()
            invariant
                i <= self.keys@.len(),
                out@ == head + keys_text(self@.keys.take(i as int), inner@),
            decreases self.keys@.len() - i,
        {
            self.keys[i].write(out, inner.as_str());
            proof {
                let next = self@.keys.take(i + 1);
                assert(next.drop_last() =~= self@.keys.take(i as int));
                assert(next.last() == self.keys@[i as int]@);
                assert(out@ =~= head + keys_text(next, inner@));
            }
            i = i + 1;
        }
        assert(self@.keys.take(i as int) =~= self@.keys);
        let ghost body = out@;
        let mut j: usize = 0;
        while j < self.nodes.len()
            invariant
                j <= self.nodes@.len(),
                self.wf(),
                out@ == body + nodes_text(self@.children, j as int, inner@, step@),
            decreases self.nodes@.len() - j,
        {
            match &self.nodes[j] {
                Some(child) => {
                    child.write(out, inner.as_str(), step);
                    assert(self@.children[j as int] == child@);
                },
                None => {
                    assert(false);
                },
            }
            assert(out@ =~= body + nodes_text(self@.children, j + 1, inner@, step@));
            j = j + 1;
        }
        out.append(pad);
        out.append("}\n");
        assert(out@ =~= old(out)@ + node_text(self@, pad@, step@));
    }
}

} // verus!
