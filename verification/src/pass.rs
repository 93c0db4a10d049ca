//! Passes: the tags that say when a patch runs, and their order.

use std::cmp::Ordering;
use vstd::prelude::*;
use vstd::std_specs::cmp::{PartialEqSpecImpl, PartialOrdSpecImpl};
use vstd::std_specs::convert::FromSpecImpl;
use vstd::string::*;
use crate::text::{
    lemma_lt_asymmetric, lemma_lt_irreflexive, lemma_lt_total, lemma_lt_transitive, precedes, text_lt, Order,
};

verus! {

/// The name of a mod or of a group of patches.
#[derive(Debug, Eq, Ord, Hash)]
pub struct PassIdentifier(pub String);

/// When a patch runs.
#[derive(Debug, Eq, Hash)]
pub enum Pass {
    Default,
    First,
    Before(PassIdentifier),
    For(PassIdentifier),
    After(PassIdentifier),
    Last(PassIdentifier),
    Final,
}

/// A pass with its identifier as a text.
pub enum PassModel {
    Default,
    First,
    Before(Seq<char>),
    For(Seq<char>),
    After(Seq<char>),
    Last(Seq<char>),
    Final,
}

impl View for PassIdentifier {
    type V = Seq<char>;

    open spec fn view(&self) -> Seq<char> {
        self.0@
    }
}

impl View for Pass {
    type V = PassModel;

    open spec fn view(&self) -> PassModel {
        match self {
            Pass::Default => PassModel::Default,
            Pass::First => PassModel::First,
            Pass::Before(ident) => PassModel::Before(ident@),
            Pass::For(ident) => PassModel::For(ident@),
            Pass::After(ident) => PassModel::After(ident@),
            Pass::Last(ident) => PassModel::Last(ident@),
            Pass::Final => PassModel::Final,
        }
    }
}

impl PassModel {
    /// The rank of the pass's category.
    pub open spec fn rank(self) -> int {
        match self {
            PassModel::Default => 0,
            PassModel::First => 1,
            PassModel::Before(_) => 2,
            PassModel::For(_) => 3,
            PassModel::After(_) => 4,
            PassModel::Last(_) => 5,
            PassModel::Final => 6,
        }
    }

    /// Whether the pass runs relative to the patches of a mod.
    pub open spec fn anchored(self) -> bool {
        self is Before || self is For || self is After
    }

    /// The identifier that the pass names, if it names one.
    pub open spec fn ident(self) -> Seq<char> {
        match self {
            PassModel::Before(ident) => ident,
            PassModel::For(ident) => ident,
            PassModel::After(ident) => ident,
            PassModel::Last(ident) => ident,
            _ => Seq::empty(),
        }
    }
}

/// The order in which passes run. Passes that are anchored to a mod are
/// ordered by the mod's identifier first and by category second; two `Last`
/// passes by identifier; every other pair by category.
pub open spec fn pass_lt(a: PassModel, b: PassModel) -> bool {
    if a.anchored() && b.anchored() {
        text_lt(a.ident(), b.ident()) || (a.ident() == b.ident() && a.rank() < b.rank())
    } else if a is Last && b is Last {
        text_lt(a.ident(), b.ident())
    } else {
        a.rank() < b.rank()
    }
}

/// The order of passes is a strict total order: no pass runs before itself,
/// of two different passes exactly one runs first, and the order is
/// transitive.
pub proof fn lemma_pass_order_strict_total(a: PassModel, b: PassModel, c: PassModel)
    ensures
        !pass_lt(a, a),
        pass_lt(a, b) ==> !pass_lt(b, a),
        pass_lt(a, b) || a == b || pass_lt(b, a),
        pass_lt(a, b) && pass_lt(b, c) ==> pass_lt(a, c),
{
    lemma_lt_irreflexive(a.ident(), Order::Bytes);
    lemma_lt_total(a.ident(), b.ident(), Order::Bytes);
    lemma_lt_total(b.ident(), c.ident(), Order::Bytes);
    lemma_lt_total(a.ident(), c.ident(), Order::Bytes);
    if text_lt(a.ident(), b.ident()) {
        lemma_lt_asymmetric(a.ident(), b.ident(), Order::Bytes);
        if text_lt(b.ident(), c.ident()) {
            lemma_lt_transitive(a.ident(), b.ident(), c.ident(), Order::Bytes);
        }
    }
    if text_lt(b.ident(), a.ident()) {
        lemma_lt_asymmetric(b.ident(), a.ident(), Order::Bytes);
    }
    if text_lt(b.ident(), c.ident()) {
        lemma_lt_asymmetric(b.ident(), c.ident(), Order::Bytes);
    }
    if text_lt(a.ident(), c.ident()) {
        lemma_lt_asymmetric(a.ident(), c.ident(), Order::Bytes);
    }
}

/// The shape of the order: `Default` runs first, then `First`, then the
/// anchored passes, then the `Last` passes, then `Final`. Among the anchored
/// passes the identifier decides, and for one identifier `Before` runs before
/// `For`, and `For` before `After`. Among the `Last` passes the identifier
/// alone decides.
pub proof fn lemma_pass_order_shape(x: Seq<char>, y: Seq<char>, p: PassModel, q: PassModel)
    ensures
        pass_lt(PassModel::Default, PassModel::First),
        pass_lt(PassModel::First, PassModel::Before(x)),
        pass_lt(PassModel::Before(x), PassModel::For(x)),
        pass_lt(PassModel::For(x), PassModel::After(x)),
        pass_lt(PassModel::After(x), PassModel::Last(y)),
        pass_lt(PassModel::Last(x), PassModel::Final),
        p.anchored() && q.anchored() && text_lt(p.ident(), q.ident()) ==> pass_lt(p, q),
        pass_lt(PassModel::Last(x), PassModel::Last(y)) <==> text_lt(x, y),
{
    lemma_lt_irreflexive(x, Order::Bytes);
}

impl Clone for PassIdentifier {
    fn clone(&self) -> (r: Self)
        ensures
            r == *self,
    {
        PassIdentifier(self.0.clone())
    }
}

impl PartialEq for PassIdentifier {
    fn eq(&self, other: &PassIdentifier) -> (r: bool) {
        self.0 == other.0
    }
}

impl PartialEqSpecImpl for PassIdentifier {
    open spec fn obeys_eq_spec() -> bool {
        true
    }

    open spec fn eq_spec(&self, other: &PassIdentifier) -> bool {
        self@ == other@
    }
}

impl PartialOrd for PassIdentifier {
    fn partial_cmp(&self, other: &PassIdentifier) -> (r: Option<Ordering>) {
        Some(order_of(self.0.as_str(), other.0.as_str()))
    }
}

impl PartialOrdSpecImpl for PassIdentifier {
    open spec fn obeys_partial_cmp_spec() -> bool {
        true
    }

    open spec fn partial_cmp_spec(&self, other: &PassIdentifier) -> Option<Ordering> {
        Some(text_order(self@, other@))
    }
}

impl From<&str> for PassIdentifier {
    fn from(value: &str) -> (r: Self)
        ensures
            r@ == value@,
    {
        PassIdentifier(value.to_owned())
    }
}

impl FromSpecImpl<&str> for PassIdentifier {
    open spec fn obeys_from_spec() -> bool {
        false
    }

    open spec fn from_spec(value: &str) -> Self {
        arbitrary()
    }
}

impl From<String> for PassIdentifier {
    fn from(value: String) -> (r: Self) {
        PassIdentifier(value)
    }
}

impl FromSpecImpl<String> for PassIdentifier {
    open spec fn obeys_from_spec() -> bool {
        true
    }

    open spec fn from_spec(value: String) -> Self {
        PassIdentifier(value)
    }
}

/// The pass that a parsed pass stands for.
pub open spec fn pass_of(pass: crate::document::Pass) -> PassModel {
    match pass {
        crate::document::Pass::Default => PassModel::Default,
        crate::document::Pass::First => PassModel::First,
        crate::document::Pass::Before(ident) => PassModel::Before(ident@),
        crate::document::Pass::For(ident) => PassModel::For(ident@),
        crate::document::Pass::After(ident) => PassModel::After(ident@),
        crate::document::Pass::Last(ident) => PassModel::Last(ident@),
        crate::document::Pass::Final => PassModel::Final,
    }
}

impl From<crate::document::Pass> for Pass {
    fn from(value: crate::document::Pass) -> (r: Self)
        ensures
            r@ == pass_of(value),
    {
        match value {
            crate::document::Pass::Default => Pass::Default,
            crate::document::Pass::First => Pass::First,
            crate::document::Pass::Before(ident) => Pass::Before(PassIdentifier(ident)),
            crate::document::Pass::For(ident) => Pass::For(PassIdentifier(ident)),
            crate::document::Pass::After(ident) => Pass::After(PassIdentifier(ident)),
            crate::document::Pass::Last(ident) => Pass::Last(PassIdentifier(ident)),
            crate::document::Pass::Final => Pass::Final,
        }
    }
}

impl FromSpecImpl<crate::document::Pass> for Pass {
    open spec fn obeys_from_spec() -> bool {
        true
    }

    open spec fn from_spec(value: crate::document::Pass) -> Self {
        match value {
            crate::document::Pass::Default => Pass::Default,
            crate::document::Pass::First => Pass::First,
            crate::document::Pass::Before(ident) => Pass::Before(PassIdentifier(ident)),
            crate::document::Pass::For(ident) => Pass::For(PassIdentifier(ident)),
            crate::document::Pass::After(ident) => Pass::After(PassIdentifier(ident)),
            crate::document::Pass::Last(ident) => Pass::Last(PassIdentifier(ident)),
            crate::document::Pass::Final => Pass::Final,
        }
    }
}

impl PassIdentifier {
    /// The identifier's text.
    pub fn render(&self) -> (r: String)
        ensures
            r@ == self@,
    {
        self.0.clone()
    }
}

/// How two texts compare.
pub open spec fn text_order(a: Seq<char>, b: Seq<char>) -> Ordering {
    if text_lt(a, b) {
        Ordering::Less
    } else if a == b {
        Ordering::Equal
    } else {
        Ordering::Greater
    }
}

/// How two passes compare.
pub open spec fn pass_order(a: PassModel, b: PassModel) -> Ordering {
    if pass_lt(a, b) {
        Ordering::Less
    } else if a == b {
        Ordering::Equal
    } else {
        Ordering::Greater
    }
}

/// Compares two texts.
pub fn order_of(a: &str, b: &str) -> (r: Ordering)
    ensures
        r == text_order(a@, b@),
        r is Greater <==> text_lt(b@, a@),
{
    proof {
        lemma_lt_total(a@, b@, Order::Bytes);
        lemma_lt_irreflexive(a@, Order::Bytes);
        if text_lt(a@, b@) {
            lemma_lt_asymmetric(a@, b@, Order::Bytes);
        }
    }
    if precedes(a, b) {
        Ordering::Less
    } else if precedes(b, a) {
        Ordering::Greater
    } else {
        Ordering::Equal
    }
}

/// Compares two ranks.
fn order_of_ranks(a: u8, b: u8) -> (r: Ordering)
    ensures
        r == if a < b {
            Ordering::Less
        } else if a == b {
            Ordering::Equal
        } else {
            Ordering::Greater
        },
{
    if a < b {
        Ordering::Less
    } else if a == b {
        Ordering::Equal
    } else {
        Ordering::Greater
    }
}

impl Clone for Pass {
    fn clone(&self) -> (r: Self)
        ensures
            r == *self,
    {
        match self {
            Pass::Default => Pass::Default,
            Pass::First => Pass::First,
            Pass::Before(ident) => Pass::Before(ident.clone()),
            Pass::For(ident) => Pass::For(ident.clone()),
            Pass::After(ident) => Pass::After(ident.clone()),
            Pass::Last(ident) => Pass::Last(ident.clone()),
            Pass::Final => Pass::Final,
        }
    }
}

impl PartialEq for Pass {
    fn eq(&self, other: &Pass) -> (r: bool) {
        match (self, other) {
            (Pass::Default, Pass::Default) => true,
            (Pass::First, Pass::First) => true,
            (Pass::Before(a), Pass::Before(b)) => a.0 == b.0,
            (Pass::For(a), Pass::For(b)) => a.0 == b.0,
            (Pass::After(a), Pass::After(b)) => a.0 == b.0,
            (Pass::Last(a), Pass::Last(b)) => a.0 == b.0,
            (Pass::Final, Pass::Final) => true,
            _ => false,
        }
    }
}

impl PartialEqSpecImpl for Pass {
    open spec fn obeys_eq_spec() -> bool {
        true
    }

    open spec fn eq_spec(&self, other: &Pass) -> bool {
        self@ == other@
    }
}

impl PartialOrd for Pass {
    fn partial_cmp(&self, other: &Pass) -> (r: Option<Ordering>) {
        Some(self.cmp(other))
    }
}

impl PartialOrdSpecImpl for Pass {
    open spec fn obeys_partial_cmp_spec() -> bool {
        true
    }

    open spec fn partial_cmp_spec(&self, other: &Pass) -> Option<Ordering> {
        Some(pass_order(self@, other@))
    }
}

impl Pass {
    /// The rank of the pass's category.
    pub fn numerical_ordering(&self) -> (r: u8)
        ensures
            r == self@.rank(),
    {
        match self {
            Pass::Default => 0,
            Pass::First => 1,
            Pass::Before(_) => 2,
            Pass::For(_) => 3,
            Pass::After(_) => 4,
            Pass::Last(_) => 5,
            Pass::Final => 6,
        }
    }

    /// The identifier of an anchored pass.
    fn anchor(&self) -> (r: Option<&PassIdentifier>)
        ensures
            r is Some == self@.anchored(),
            r matches Some(ident) ==> ident@ == self@.ident(),
    {
        match self {
            Pass::Before(ident) => Some(ident),
            Pass::For(ident) => Some(ident),
            Pass::After(ident) => Some(ident),
            _ => None,
        }
    }

    /// How this pass compares with `other` in the order of passes.
    pub fn cmp(&self, other: &Pass) -> (r: Ordering)
        ensures
            r == pass_order(self@, other@),
            r is Less <==> pass_lt(self@, other@),
            r is Equal <==> self@ == other@,
            r is Greater <==> pass_lt(other@, self@),
    {
        proof {
            lemma_pass_order_strict_total(self@, other@, self@);
            lemma_lt_total(self@.ident(), other@.ident(), Order::Bytes);
        }
        match (self.anchor(), other.anchor()) {
            (Some(a), Some(b)) => {
                let by_ident = order_of(a.0.as_str(), b.0.as_str());
                match by_ident {
                    Ordering::Equal => order_of_ranks(self.numerical_ordering(), other.numerical_ordering()),
                    _ => by_ident,
                }
            },
            _ => match (self, other) {
                (Pass::Last(a), Pass::Last(b)) => order_of(a.0.as_str(), b.0.as_str()),
                _ => order_of_ranks(self.numerical_ordering(), other.numerical_ordering()),
            },
        }
    }

    /// Whether this pass runs before `other`.
    pub fn runs_before(&self, other: &Pass) -> (r: bool)
        ensures
            r == pass_lt(self@, other@),
    {
        match self.cmp(other) {
            Ordering::Less => true,
            _ => false,
        }
    }

    /// The pass as it is written behind a node's name.
    pub open spec fn text(self) -> Seq<char> {
        match self {
            Pass::Default => ":<DEFAULT>"@,
            Pass::First => ":FIRST"@,
            Pass::Before(ident) => ":BEFORE["@ + ident@ + "]"@,
            Pass::For(ident) => ":FOR["@ + ident@ + "]"@,
            Pass::After(ident) => ":AFTER["@ + ident@ + "]"@,
            Pass::Last(ident) => ":LAST["@ + ident@ + "]"@,
            Pass::Final => ":FINAL"@,
        }
    }

    pub fn render(&self) -> (r: String)
        ensures
            r@ == self.text(),
    {
        match self {
            Pass::Default => ":<DEFAULT>".to_owned(),
            Pass::First => ":FIRST".to_owned(),
            Pass::Before(ident) => bracketed(":BEFORE[", ident),
            Pass::For(ident) => bracketed(":FOR[", ident),
            Pass::After(ident) => bracketed(":AFTER[", ident),
            Pass::Last(ident) => bracketed(":LAST[", ident),
            Pass::Final => ":FINAL".to_owned(),
        }
    }
}

fn bracketed(head: &str, ident: &PassIdentifier) -> (r: String)
    ensures
        r@ == head@ + ident@ + "]"@,
{
    let mut out = head.to_owned();
    out.append(ident.0.as_str());
    out.append("]");
    out
}

} // verus!
