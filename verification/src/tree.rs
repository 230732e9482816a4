//! The combination tree: residual classes combined by intersection, union,
//! symmetric difference, and inversion, with recursive membership evaluation
//! and canonical text rendering.

use vstd::prelude::*;

verus! {

use vstd::string::StrSliceExecFns;
use vstd::string::StringExecFns;

use crate::residual::Residual;

/// A node in the tree of residual classes combined by logical operations.
#[derive(Debug)]
pub enum SieveNode {
    Unit(Residual),
    Intersection(Box<SieveNode>, Box<SieveNode>),
    Union(Box<SieveNode>, Box<SieveNode>),
    SymmetricDifference(Box<SieveNode>, Box<SieveNode>),
    Inversion(Box<SieveNode>),
}

impl SieveNode {
    /// Every residual class in the tree is in canonical form.
    pub open spec fn wf(self) -> bool
        decreases self,
    {
        match self {
            SieveNode::Unit(r) => r.wf(),
            SieveNode::Intersection(lhs, rhs) => lhs.wf() && rhs.wf(),
            SieveNode::Union(lhs, rhs) => lhs.wf() && rhs.wf(),
            SieveNode::SymmetricDifference(lhs, rhs) => lhs.wf() && rhs.wf(),
            SieveNode::Inversion(part) => part.wf(),
        }
    }

    /// Membership semantics: intersection is conjunction, union is
    /// disjunction, symmetric difference is exclusive or, and inversion is
    /// negation.
    pub open spec fn spec_contains(self, value: int) -> bool
        decreases self,
    {
        match self {
            SieveNode::Unit(r) => r.spec_contains(value),
            SieveNode::Intersection(lhs, rhs) => lhs.spec_contains(value) && rhs.spec_contains(
                value,
            ),
            SieveNode::Union(lhs, rhs) => lhs.spec_contains(value) || rhs.spec_contains(value),
            SieveNode::SymmetricDifference(lhs, rhs) => lhs.spec_contains(value)
                != rhs.spec_contains(value),
            SieveNode::Inversion(part) => !part.spec_contains(value),
        }
    }

    /// The canonical text form: binary nodes render as
    /// `"{left}{operator}{right}"` with no added parentheses, and an inverted
    /// subexpression renders as `"!({child})"`.
    pub open spec fn spec_text(self) -> Seq<char>
        decreases self,
    {
        match self {
            SieveNode::Unit(r) => r.spec_text(),
            SieveNode::Intersection(lhs, rhs) => lhs.spec_text() + seq!['&'] + rhs.spec_text(),
            SieveNode::Union(lhs, rhs) => lhs.spec_text() + seq!['|'] + rhs.spec_text(),
            SieveNode::SymmetricDifference(lhs, rhs) => lhs.spec_text() + seq!['^']
                + rhs.spec_text(),
            SieveNode::Inversion(part) => seq!['!', '('] + part.spec_text() + seq![')'],
        }
    }

    /// Whether `value` is contained within this subtree.
    pub fn contains(&self, value: i128) -> (r: bool)
        requires
            self.wf(),
        ensures
            r == self.spec_contains(value as int),
        decreases self,
    {
        match self {
            SieveNode::Unit(residual) => residual.contains(value),
            SieveNode::Intersection(lhs, rhs) => {
                let a = lhs.contains(value);
                let b = rhs.contains(value);
                a && b
            },
            SieveNode::Union(lhs, rhs) => {
                let a = lhs.contains(value);
                let b = rhs.contains(value);
                a || b
            },
            SieveNode::SymmetricDifference(lhs, rhs) => {
                let a = lhs.contains(value);
                let b = rhs.contains(value);
                a != b
            },
            SieveNode::Inversion(part) => !part.contains(value),
        }
    }

    /// A structurally equal copy of the tree.
    pub fn duplicate(&self) -> (r: SieveNode)
        ensures
            r == *self,
        decreases self,
    {
        match self {
            SieveNode::Unit(residual) => SieveNode::Unit(*residual),
            SieveNode::Intersection(lhs, rhs) => SieveNode::Intersection(
                Box::new(lhs.duplicate()),
                Box::new(rhs.duplicate()),
            ),
            SieveNode::Union(lhs, rhs) => SieveNode::Union(
                Box::new(lhs.duplicate()),
                Box::new(rhs.duplicate()),
            ),
            SieveNode::SymmetricDifference(lhs, rhs) => SieveNode::SymmetricDifference(
                Box::new(lhs.duplicate()),
                Box::new(rhs.duplicate()),
            ),
            SieveNode::Inversion(part) => SieveNode::Inversion(Box::new(part.duplicate())),
        }
    }

    /// Renders the canonical text form of the subtree.
    pub fn to_text(&self) -> (r: String)
        ensures
            r@ == self.spec_text(),
        decreases self,
    {
        match self {
            SieveNode::Unit(residual) => residual.to_text(),
            SieveNode::Intersection(lhs, rhs) => {
                let mut s = lhs.to_text();
                s.append("&");
                let t = rhs.to_text();
                s.append(t.as_str());
                proof {
                    reveal_strlit("&");
                    assert(s@ =~= self.spec_text());
                }
                s
            },
            SieveNode::Union(lhs, rhs) => {
                let mut s = lhs.to_text();
                s.append("|");
                let t = rhs.to_text();
                s.append(t.as_str());
                proof {
                    reveal_strlit("|");
                    assert(s@ =~= self.spec_text());
                }
                s
            },
            SieveNode::SymmetricDifference(lhs, rhs) => {
                let mut s = lhs.to_text();
                s.append("^");
                let t = rhs.to_text();
                s.append(t.as_str());
                proof {
                    reveal_strlit("^");
                    assert(s@ =~= self.spec_text());
                }
                s
            },
            SieveNode::Inversion(part) => {
                let mut s = String::from_str("!(");
                let t = part.to_text();
                s.append(t.as_str());
                s.append(")");
                proof {
                    reveal_strlit("!(");
                    reveal_strlit(")");
                    assert(s@ =~= self.spec_text());
                }
                s
            },
        }
    }
}

/// Union is commutative pointwise: swapping the children of a union node
/// leaves membership unchanged, for every integer.
pub proof fn lemma_union_commutative(a: SieveNode, b: SieveNode, v: int)
    ensures
        SieveNode::Union(Box::new(a), Box::new(b)).spec_contains(v) == SieveNode::Union(
            Box::new(b),
            Box::new(a),
        ).spec_contains(v),
{
}

/// Intersection is commutative pointwise.
pub proof fn lemma_intersection_commutative(a: SieveNode, b: SieveNode, v: int)
    ensures
        SieveNode::Intersection(Box::new(a), Box::new(b)).spec_contains(v)
            == SieveNode::Intersection(Box::new(b), Box::new(a)).spec_contains(v),
{
}

/// Symmetric difference is commutative pointwise.
pub proof fn lemma_symmetric_difference_commutative(a: SieveNode, b: SieveNode, v: int)
    ensures
        SieveNode::SymmetricDifference(Box::new(a), Box::new(b)).spec_contains(v)
            == SieveNode::SymmetricDifference(Box::new(b), Box::new(a)).spec_contains(v),
{
}

/// Double negation: inverting a tree twice leaves membership unchanged, for
/// every integer.
pub proof fn lemma_double_inversion(a: SieveNode, v: int)
    ensures
        SieveNode::Inversion(Box::new(SieveNode::Inversion(Box::new(a)))).spec_contains(v)
            == a.spec_contains(v),
{
    let inner = SieveNode::Inversion(Box::new(a));
    assert(inner.spec_contains(v) == !a.spec_contains(v));
    assert(SieveNode::Inversion(Box::new(inner)).spec_contains(v) == !inner.spec_contains(v));
}

/// De Morgan: the inversion of a union has the same members as the
/// intersection of the inversions, for every integer.
pub proof fn lemma_de_morgan_union(a: SieveNode, b: SieveNode, v: int)
    ensures
        SieveNode::Inversion(
            Box::new(SieveNode::Union(Box::new(a), Box::new(b))),
        ).spec_contains(v) == SieveNode::Intersection(
            Box::new(SieveNode::Inversion(Box::new(a))),
            Box::new(SieveNode::Inversion(Box::new(b))),
        ).spec_contains(v),
{
    let u = SieveNode::Union(Box::new(a), Box::new(b));
    assert(u.spec_contains(v) == (a.spec_contains(v) || b.spec_contains(v)));
    assert(SieveNode::Inversion(Box::new(u)).spec_contains(v) == !u.spec_contains(v));
    let na = SieveNode::Inversion(Box::new(a));
    let nb = SieveNode::Inversion(Box::new(b));
    assert(na.spec_contains(v) == !a.spec_contains(v));
    assert(nb.spec_contains(v) == !b.spec_contains(v));
    assert(SieveNode::Intersection(Box::new(na), Box::new(nb)).spec_contains(v) == (
    na.spec_contains(v) && nb.spec_contains(v)));
}

} // verus!
