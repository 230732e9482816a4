//! The sieve facade: construction from expression text, membership queries,
//! combinators, and the three sequence adapters (value filter, boolean-state
//! map, inter-occurrence interval).

use vstd::prelude::*;

verus! {

use vstd::string::StrSliceExecFns;
use vstd::string::StringExecFns;

use crate::parse::eval_postfix;
use crate::parse::infix_to_postfix;
use crate::parse::residual_to_ints;
use crate::parse::spec_compile;
use crate::parse::SieveError;
use crate::residual::Residual;
use crate::tree::SieveNode;

/// A Xenakis sieve: a Boolean combination of residual classes, queryable for
/// integer membership, built from a string notation (Ariza 2005).
#[derive(Debug)]
pub struct Sieve {
    pub root: SieveNode,
}

impl Sieve {
    /// Every residual class in the tree is canonical.
    pub open spec fn wf(self) -> bool {
        self.root.wf()
    }

    /// Membership in the combined set.
    pub open spec fn spec_contains(self, value: int) -> bool {
        self.root.spec_contains(value)
    }

    /// The canonical text form `"Sieve{...}"`.
    pub open spec fn spec_text(self) -> Seq<char> {
        seq!['S', 'i', 'e', 'v', 'e', '{'] + self.root.spec_text() + seq!['}']
    }

    /// Compiles a sieve from its string notation: tokens in postfix order are
    /// evaluated into a combination tree. Any failure of the compiler (an
    /// unsupported character, a malformed residual literal, missing operands,
    /// or a malformed expression shape) is returned as the corresponding
    /// error.
    pub fn new(value: &str) -> (r: Result<Sieve, SieveError>)
        ensures
            match spec_compile(value@) {
                Ok(node) => r matches Ok(s) && s.root == node && s.wf(),
                Err(e) => r matches Err(e2) && e2 == e,
            },
    {
        let tokens = match infix_to_postfix(value) {
            Ok(t) => t,
            Err(e) => {
                return Err(e);
            },
        };
        let ghost toks = tokens.deep_view();
        proof {
            assert(forall|j: int|
                0 <= j < toks.len() ==> toks[j] == #[trigger] tokens@[j].deep_view());
        }
        let n = tokens.len();
        let mut stack: Vec<SieveNode> = Vec::new();
        let mut i: usize = 0;
        while i < n
            invariant
                i <= n == tokens@.len(),
                toks == tokens.deep_view(),
                toks.len() == tokens@.len(),
                forall|j: int| 0 <= j < toks.len() ==> toks[j] == #[trigger] tokens@[j]@,
                forall|j: int| 0 <= j < stack@.len() ==> (#[trigger] stack@[j]).wf(),
                spec_compile(value@) == eval_postfix(toks, 0, Seq::empty()),
                eval_postfix(toks, 0, Seq::empty()) == eval_postfix(toks, i as int, stack@),
            decreases n - i,
        {
            let token = &tokens[i];
            let ghost t = toks[i as int];
            let ghost st0 = stack@;
            let tlen = token.as_str().unicode_len();
            let mut is_operator = false;
            let mut c = ' ';
            if tlen == 1 {
                c = token.as_str().get_char(0);
                if c == '!' || c == '&' || c == '^' || c == '|' {
                    is_operator = true;
                    proof {
                        assert(t =~= seq![c]);
                    }
                }
            }
            if is_operator {
                proof {
                    if c == '!' {
                        assert(t == seq!['!']);
                    } else {
                        assert(t != seq!['!'] && (t == seq!['&'] || t == seq!['^'] || t
                            == seq!['|']));
                    }
                }
                if c == '!' {
                    let part = match stack.pop() {
                        Some(p) => p,
                        None => {
                            proof {
                                assert(eval_postfix(toks, i as int, st0) == Err::<
                                    SieveNode,
                                    SieveError,
                                >(SieveError::MissingOperand));
                            }
                            return Err(SieveError::MissingOperand);
                        },
                    };
                    stack.push(SieveNode::Inversion(Box::new(part)));
                    proof {
                        assert(stack@ =~= st0.drop_last().push(
                            SieveNode::Inversion(Box::new(st0.last())),
                        ));
                        assert(eval_postfix(toks, i as int, st0) == eval_postfix(
                            toks,
                            i as int + 1,
                            stack@,
                        ));
                    }
                } else {
                    if stack.len() < 2 {
                        proof {
                            assert(eval_postfix(toks, i as int, st0) == Err::<
                                SieveNode,
                                SieveError,
                            >(SieveError::MissingOperand));
                        }
                        return Err(SieveError::MissingOperand);
                    }
                    let right = match stack.pop() {
                        Some(p) => p,
                        None => {
                            proof {
                                assert(false);
                            }
                            return Err(SieveError::MissingOperand);
                        },
                    };
                    let left = match stack.pop() {
                        Some(p) => p,
                        None => {
                            proof {
                                assert(false);
                            }
                            return Err(SieveError::MissingOperand);
                        },
                    };
                    let node = if c == '&' {
                        SieveNode::Intersection(Box::new(left), Box::new(right))
                    } else if c == '^' {
                        SieveNode::SymmetricDifference(Box::new(left), Box::new(right))
                    } else {
                        SieveNode::Union(Box::new(left), Box::new(right))
                    };
                    stack.push(node);
                    proof {
                        assert(stack@ =~= st0.drop_last().drop_last().push(node));
                        assert(eval_postfix(toks, i as int, st0) == eval_postfix(
                            toks,
                            i as int + 1,
                            stack@,
                        ));
                    }
                }
            } else {
                proof {
                    if tlen == 1 {
                        assert(t =~= seq![c]);
                        assert(t != seq!['!'] && t != seq!['&'] && t != seq!['^'] && t
                            != seq!['|']);
                    } else {
                        assert(t != seq!['!'] && t != seq!['&'] && t != seq!['^'] && t
                            != seq!['|']);
                    }
                }
                let (m, s) = match residual_to_ints(token.as_str()) {
                    Ok(p) => p,
                    Err(_) => {
                        proof {
                            assert(eval_postfix(toks, i as int, st0) == Err::<
                                SieveNode,
                                SieveError,
                            >(SieveError::InvalidResidual));
                        }
                        return Err(SieveError::InvalidResidual);
                    },
                };
                let r = Residual::new(m, s);
                proof {
                    assert(r == crate::parse::spec_residual_new(
                        crate::parse::literal_modulus(t),
                        crate::parse::literal_shift(t),
                    ));
                }
                stack.push(SieveNode::Unit(r));
                proof {
                    assert(stack@ =~= st0.push(SieveNode::Unit(r)));
                    assert(eval_postfix(toks, i as int, st0) == eval_postfix(
                        toks,
                        i as int + 1,
                        stack@,
                    ));
                }
            }
            i += 1;
        }
        if stack.len() != 1 {
            return Err(SieveError::InvalidExpression);
        }
        let root = match stack.pop() {
            Some(p) => p,
            None => {
                proof {
                    assert(false);
                }
                return Err(SieveError::InvalidExpression);
            },
        };
        Ok(Sieve { root })
    }

    /// Whether `value` is a member of the sieve.
    pub fn contains(&self, value: i128) -> (r: bool)
        requires
            self.wf(),
        ensures
            r == self.spec_contains(value as int),
    {
        self.root.contains(value)
    }

    /// The sieve of integers in both operands.
    pub fn intersect(&self, rhs: &Sieve) -> (r: Sieve)
        ensures
            r.root == SieveNode::Intersection(Box::new(self.root), Box::new(rhs.root)),
            self.wf() && rhs.wf() ==> r.wf(),
            forall|v: int|
                #[trigger] r.spec_contains(v) == (self.spec_contains(v) && rhs.spec_contains(v)),
    {
        Sieve {
            root: SieveNode::Intersection(
                Box::new(self.root.duplicate()),
                Box::new(rhs.root.duplicate()),
            ),
        }
    }

    /// The sieve of integers in either operand.
    pub fn union(&self, rhs: &Sieve) -> (r: Sieve)
        ensures
            r.root == SieveNode::Union(Box::new(self.root), Box::new(rhs.root)),
            self.wf() && rhs.wf() ==> r.wf(),
            forall|v: int|
                #[trigger] r.spec_contains(v) == (self.spec_contains(v) || rhs.spec_contains(v)),
    {
        Sieve {
            root: SieveNode::Union(Box::new(self.root.duplicate()), Box::new(rhs.root.duplicate())),
        }
    }

    /// The sieve of integers in exactly one operand.
    pub fn symmetric_difference(&self, rhs: &Sieve) -> (r: Sieve)
        ensures
            r.root == SieveNode::SymmetricDifference(Box::new(self.root), Box::new(rhs.root)),
            self.wf() && rhs.wf() ==> r.wf(),
            forall|v: int|
                #[trigger] r.spec_contains(v) == (self.spec_contains(v) != rhs.spec_contains(v)),
    {
        Sieve {
            root: SieveNode::SymmetricDifference(
                Box::new(self.root.duplicate()),
                Box::new(rhs.root.duplicate()),
            ),
        }
    }

    /// The sieve of integers not in the operand.
    pub fn invert(&self) -> (r: Sieve)
        ensures
            r.root == SieveNode::Inversion(Box::new(self.root)),
            self.wf() ==> r.wf(),
            forall|v: int| #[trigger] r.spec_contains(v) == !self.spec_contains(v),
    {
        Sieve { root: SieveNode::Inversion(Box::new(self.root.duplicate())) }
    }

    /// Renders the canonical text form `"Sieve{...}"`.
    pub fn to_text(&self) -> (r: String)
        ensures
            r@ == self.spec_text(),
    {
        let mut s = String::from_str("Sieve{");
        let t = self.root.to_text();
        s.append(t.as_str());
        s.append("}");
        proof {
            reveal_strlit("Sieve{");
            reveal_strlit("}");
            assert(s@ =~= self.spec_text());
        }
        s
    }

    /// A deep copy of the sieve.
    pub fn duplicate(&self) -> (r: Sieve)
        ensures
            r == *self,
    {
        Sieve { root: self.root.duplicate() }
    }

    /// The subsequence of `source` values contained in the sieve, consumed
    /// lazily through `IterValue::next`.
    pub fn iter_value(&self, source: Vec<i128>) -> (it: IterValue)
        requires
            self.wf(),
        ensures
            it.node == self.root,
            it.source == source,
            it.index == 0,
            it.wf(),
    {
        IterValue { node: self.root.duplicate(), source, index: 0 }
    }

    /// The membership status of each `source` value in turn, consumed lazily
    /// through `IterState::next`.
    pub fn iter_state(&self, source: Vec<i128>) -> (it: IterState)
        requires
            self.wf(),
        ensures
            it.node == self.root,
            it.source == source,
            it.index == 0,
            it.wf(),
    {
        IterState { node: self.root.duplicate(), source, index: 0 }
    }

    /// The differences between successive contained `source` values (the
    /// first contained value is recorded but not emitted), consumed lazily
    /// through `IterInterval::next`.
    pub fn iter_interval(&self, source: Vec<i128>) -> (it: IterInterval)
        requires
            self.wf(),
        ensures
            it.node == self.root,
            it.source == source,
            it.index == 0,
            it.last == PositionLast::Init,
            it.wf(),
    {
        IterInterval { node: self.root.duplicate(), source, index: 0, last: PositionLast::Init }
    }
}

/// What one `IterValue::next` call returns and where it leaves the cursor:
/// the first contained value at or after `i`, or `None` with the cursor at
/// the end.
pub open spec fn value_step(node: SieveNode, src: Seq<i128>, i: int) -> (Option<i128>, int)
    decreases src.len() - i,
{
    if i < 0 || i >= src.len() {
        (None, src.len() as int)
    } else if node.spec_contains(src[i] as int) {
        (Some(src[i]), i + 1)
    } else {
        value_step(node, src, i + 1)
    }
}

/// The lazy value filter returned by `Sieve::iter_value`.
pub struct IterValue {
    pub node: SieveNode,
    pub source: Vec<i128>,
    pub index: usize,
}

impl IterValue {
    /// The tree is canonical and the cursor is within bounds.
    pub open spec fn wf(self) -> bool {
        self.node.wf() && self.index <= self.source@.len()
    }

    /// The next `source` value contained in the sieve, or `None` when the
    /// source is exhausted.
    pub fn next(&mut self) -> (r: Option<i128>)
        requires
            old(self).wf(),
        ensures
            final(self).wf(),
            final(self).node == old(self).node,
            final(self).source == old(self).source,
            (r, final(self).index as int) == value_step(
                old(self).node,
                old(self).source@,
                old(self).index as int,
            ),
    {
        let ghost i0 = old(self).index as int;
        while self.index < self.source.len()
            invariant
                self.wf(),
                self.node == old(self).node,
                self.source == old(self).source,
                i0 == old(self).index as int,
                i0 <= self.index,
                value_step(self.node, self.source@, i0) == value_step(
                    self.node,
                    self.source@,
                    self.index as int,
                ),
            decreases self.source@.len() - self.index,
        {
            let p = self.source[self.index];
            if self.node.contains(p) {
                proof {
                    assert(value_step(self.node, self.source@, self.index as int) == (
                    Some(p),
                    self.index as int + 1,
                    ));
                }
                self.index += 1;
                return Some(p);
            }
            self.index += 1;
        }
        None
    }
}

/// The lazy membership-status map returned by `Sieve::iter_state`.
pub struct IterState {
    pub node: SieveNode,
    pub source: Vec<i128>,
    pub index: usize,
}

impl IterState {
    /// The tree is canonical and the cursor is within bounds.
    pub open spec fn wf(self) -> bool {
        self.node.wf() && self.index <= self.source@.len()
    }

    /// The membership status of the next `source` value, or `None` when the
    /// source is exhausted.
    pub fn next(&mut self) -> (r: Option<bool>)
        requires
            old(self).wf(),
        ensures
            final(self).wf(),
            final(self).node == old(self).node,
            final(self).source == old(self).source,
            if old(self).index < old(self).source@.len() {
                r == Some(
                    old(self).node.spec_contains(old(self).source@[old(self).index as int] as int),
                ) && final(self).index == old(self).index + 1
            } else {
                r is None && final(self).index == old(self).index
            },
    {
        if self.index < self.source.len() {
            let p = self.source[self.index];
            self.index += 1;
            Some(self.node.contains(p))
        } else {
            None
        }
    }
}

/// The interval adapter's memory: whether a contained value has been seen,
/// and if so which one came last.
#[derive(Clone, Copy, Debug)]
pub enum PositionLast {
    Init,
    Value(i128),
}

/// What one `IterInterval::next` call returns and the state it leaves: scan
/// for contained values; the first one seen is recorded without emission, and
/// each later one emits its distance from the previous.
pub open spec fn interval_step(
    node: SieveNode,
    src: Seq<i128>,
    i: int,
    last: PositionLast,
) -> (Option<i128>, int, PositionLast)
    decreases src.len() - i,
{
    if i < 0 || i >= src.len() {
        (None, src.len() as int, last)
    } else if node.spec_contains(src[i] as int) {
        match last {
            PositionLast::Init => interval_step(node, src, i + 1, PositionLast::Value(src[i])),
            PositionLast::Value(q) => (
                Some((src[i] - q) as i128),
                i + 1,
                PositionLast::Value(src[i]),
            ),
        }
    } else {
        interval_step(node, src, i + 1, last)
    }
}

/// The next emitted interval, if any, fits in an `i128`.
pub open spec fn interval_delta_fits(
    node: SieveNode,
    src: Seq<i128>,
    i: int,
    last: PositionLast,
) -> bool
    decreases src.len() - i,
{
    if i < 0 || i >= src.len() {
        true
    } else if node.spec_contains(src[i] as int) {
        match last {
            PositionLast::Init => interval_delta_fits(node, src, i + 1, PositionLast::Value(src[i])),
            PositionLast::Value(q) => i128::MIN <= src[i] - q <= i128::MAX,
        }
    } else {
        interval_delta_fits(node, src, i + 1, last)
    }
}

/// The lazy inter-occurrence interval adapter returned by
/// `Sieve::iter_interval`.
pub struct IterInterval {
    pub node: SieveNode,
    pub source: Vec<i128>,
    pub index: usize,
    pub last: PositionLast,
}

impl IterInterval {
    /// The tree is canonical and the cursor is within bounds.
    pub open spec fn wf(self) -> bool {
        self.node.wf() && self.index <= self.source@.len()
    }

    /// The distance from the previous contained `source` value to the next
    /// one, or `None` when the source is exhausted. The first contained value
    /// only arms the adapter and emits nothing.
    pub fn next(&mut self) -> (r: Option<i128>)
        requires
            old(self).wf(),
            interval_delta_fits(
                old(self).node,
                old(self).source@,
                old(self).index as int,
                old(self).last,
            ),
        ensures
            final(self).wf(),
            final(self).node == old(self).node,
            final(self).source == old(self).source,
            (r, final(self).index as int, final(self).last) == interval_step(
                old(self).node,
                old(self).source@,
                old(self).index as int,
                old(self).last,
            ),
    {
        let ghost i0 = old(self).index as int;
        let ghost l0 = old(self).last;
        while self.index < self.source.len()
            invariant
                self.wf(),
                self.node == old(self).node,
                self.source == old(self).source,
                i0 == old(self).index as int,
                l0 == old(self).last,
                i0 <= self.index,
                interval_step(self.node, self.source@, i0, l0) == interval_step(
                    self.node,
                    self.source@,
                    self.index as int,
                    self.last,
                ),
                interval_delta_fits(self.node, self.source@, self.index as int, self.last),
            decreases self.source@.len() - self.index,
        {
            let p = self.source[self.index];
            if self.node.contains(p) {
                match self.last {
                    PositionLast::Init => {
                        // the first contained value is recorded, not emitted
                        self.last = PositionLast::Value(p);
                        self.index += 1;
                    },
                    PositionLast::Value(q) => {
                        proof {
                            assert(interval_step(
                                self.node,
                                self.source@,
                                self.index as int,
                                self.last,
                            ) == (Some((p - q) as i128), self.index as int + 1, PositionLast::Value(p)));
                        }
                        let delta = p - q;
                        self.last = PositionLast::Value(p);
                        self.index += 1;
                        return Some(delta);
                    },
                }
            } else {
                self.index += 1;
            }
        }
        None
    }
}

} // verus!
