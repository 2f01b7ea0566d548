//! The genome's expression tree: a scalar field built from smooth node kinds,
//! with preorder addressing so that mutation and crossover can replace any
//! subtree.

use crate::motion::MOVER_COUNT;
use crate::random::{random_below, random_ratio};
use rand::rngs::StdRng;
use vstd::prelude::*;

verus! {

/// Every genome carries the same number of parameter slots so that trees can be
/// crossed between two genomes without renumbering `Expr::Param` indices.
pub const PARAM_COUNT: usize = 24;

pub const MAX_SYMMETRY: u32 = 12;

/// Most layers a genome can stack.
pub const MAX_LAYERS: usize = 3;

#[derive(Debug, PartialEq)]
pub enum Expr {
    X,
    Y,
    Radius,
    Theta,
    Time,
    Param(usize),
    /// Distance from a mover, measured in unfolded screen coordinates.
    MoverDistance(usize),
    /// Falls to zero at the distance where a wrapping mover's nearest copy
    /// changes. Anything measured from a mover is multiplied by this, so the
    /// change of copy never shows as an edge.
    MoverWindow(usize),
    Sin(Box<Expr>),
    Cos(Box<Expr>),
    Neg(Box<Expr>),
    Add(Box<Expr>, Box<Expr>),
    Sub(Box<Expr>, Box<Expr>),
    Mul(Box<Expr>, Box<Expr>),
    Hypot(Box<Expr>, Box<Expr>),
}

impl Expr {
    /// Number of nodes in the tree, counting the root.
    pub open spec fn size(self) -> nat
        decreases self,
    {
        match self {
            Expr::Sin(a) => 1 + a.size(),
            Expr::Cos(a) => 1 + a.size(),
            Expr::Neg(a) => 1 + a.size(),
            Expr::Add(a, b) => 1 + a.size() + b.size(),
            Expr::Sub(a, b) => 1 + a.size() + b.size(),
            Expr::Mul(a, b) => 1 + a.size() + b.size(),
            Expr::Hypot(a, b) => 1 + a.size() + b.size(),
            _ => 1,
        }
    }

    /// The first child of a node, if it has one.
    pub open spec fn first_child(self) -> Option<Expr> {
        match self {
            Expr::Sin(a) => Some(*a),
            Expr::Cos(a) => Some(*a),
            Expr::Neg(a) => Some(*a),
            Expr::Add(a, _) => Some(*a),
            Expr::Sub(a, _) => Some(*a),
            Expr::Mul(a, _) => Some(*a),
            Expr::Hypot(a, _) => Some(*a),
            _ => None,
        }
    }

    /// The second child of a node, which only the two-argument kinds have.
    pub open spec fn second_child(self) -> Option<Expr> {
        match self {
            Expr::Add(_, b) => Some(*b),
            Expr::Sub(_, b) => Some(*b),
            Expr::Mul(_, b) => Some(*b),
            Expr::Hypot(_, b) => Some(*b),
            _ => None,
        }
    }

    /// The same node kind over new children; a child the node does not have
    /// is ignored.
    pub open spec fn with_children(self, a: Expr, b: Expr) -> Expr {
        match self {
            Expr::Sin(_) => Expr::Sin(Box::new(a)),
            Expr::Cos(_) => Expr::Cos(Box::new(a)),
            Expr::Neg(_) => Expr::Neg(Box::new(a)),
            Expr::Add(_, _) => Expr::Add(Box::new(a), Box::new(b)),
            Expr::Sub(_, _) => Expr::Sub(Box::new(a), Box::new(b)),
            Expr::Mul(_, _) => Expr::Mul(Box::new(a), Box::new(b)),
            Expr::Hypot(_, _) => Expr::Hypot(Box::new(a), Box::new(b)),
            _ => self,
        }
    }

    /// The subtree rooted at preorder position `index`: the root is 0, then
    /// the whole first subtree, then the second. Meaningful for
    /// `index < self.size()`.
    pub open spec fn subtree(self, index: nat) -> Expr
        decreases self,
    {
        if index == 0 {
            self
        } else {
            match self {
                Expr::Sin(a) => a.subtree((index - 1) as nat),
                Expr::Cos(a) => a.subtree((index - 1) as nat),
                Expr::Neg(a) => a.subtree((index - 1) as nat),
                Expr::Add(a, b) => if index - 1 < a.size() {
                    a.subtree((index - 1) as nat)
                } else {
                    b.subtree((index - 1 - a.size()) as nat)
                },
                Expr::Sub(a, b) => if index - 1 < a.size() {
                    a.subtree((index - 1) as nat)
                } else {
                    b.subtree((index - 1 - a.size()) as nat)
                },
                Expr::Mul(a, b) => if index - 1 < a.size() {
                    a.subtree((index - 1) as nat)
                } else {
                    b.subtree((index - 1 - a.size()) as nat)
                },
                Expr::Hypot(a, b) => if index - 1 < a.size() {
                    a.subtree((index - 1) as nat)
                } else {
                    b.subtree((index - 1 - a.size()) as nat)
                },
                _ => self,
            }
        }
    }

    /// The tree with the subtree at preorder position `index` replaced by
    /// `node`. Unchanged when `index` is past the last node.
    pub open spec fn replace(self, index: nat, node: Expr) -> Expr
        decreases self,
    {
        if index == 0 {
            node
        } else {
            match self {
                Expr::Sin(a) => Expr::Sin(Box::new(a.replace((index - 1) as nat, node))),
                Expr::Cos(a) => Expr::Cos(Box::new(a.replace((index - 1) as nat, node))),
                Expr::Neg(a) => Expr::Neg(Box::new(a.replace((index - 1) as nat, node))),
                Expr::Add(a, b) => if index - 1 < a.size() {
                    Expr::Add(Box::new(a.replace((index - 1) as nat, node)), b)
                } else {
                    Expr::Add(a, Box::new(b.replace((index - 1 - a.size()) as nat, node)))
                },
                Expr::Sub(a, b) => if index - 1 < a.size() {
                    Expr::Sub(Box::new(a.replace((index - 1) as nat, node)), b)
                } else {
                    Expr::Sub(a, Box::new(b.replace((index - 1 - a.size()) as nat, node)))
                },
                Expr::Mul(a, b) => if index - 1 < a.size() {
                    Expr::Mul(Box::new(a.replace((index - 1) as nat, node)), b)
                } else {
                    Expr::Mul(a, Box::new(b.replace((index - 1 - a.size()) as nat, node)))
                },
                Expr::Hypot(a, b) => if index - 1 < a.size() {
                    Expr::Hypot(Box::new(a.replace((index - 1) as nat, node)), b)
                } else {
                    Expr::Hypot(a, Box::new(b.replace((index - 1 - a.size()) as nat, node)))
                },
                _ => self,
            }
        }
    }

    /// Number of nodes in the tree, counting this one.
    pub fn node_count(&self) -> (count: usize)
        requires
            self.size() <= usize::MAX,
        ensures
            count == self.size(),
            count >= 1,
        decreases self,
    {
        match self {
            Expr::Sin(a) => 1 + a.node_count(),
            Expr::Cos(a) => 1 + a.node_count(),
            Expr::Neg(a) => 1 + a.node_count(),
            Expr::Add(a, b) => 1 + a.node_count() + b.node_count(),
            Expr::Sub(a, b) => 1 + a.node_count() + b.node_count(),
            Expr::Mul(a, b) => 1 + a.node_count() + b.node_count(),
            Expr::Hypot(a, b) => 1 + a.node_count() + b.node_count(),
            _ => 1,
        }
    }
}

impl Expr {
    /// Depth-first lookup of the `index`th node, used by mutation and crossover
    /// to pick a subtree to replace. Whatever is written through the returned
    /// reference lands at that position of the tree.
    pub fn subtree_at_mut(&mut self, index: usize) -> (found: Option<&mut Expr>)
        ensures
            index < old(self).size() ==> {
                &&& found is Some
                &&& *found.unwrap() == old(self).subtree(index as nat)
                &&& *final(self) == old(self).replace(index as nat, *final(found.unwrap()))
            },
            index >= old(self).size() ==> found is None && *final(self) == *old(self),
    {
        let mut remaining = index;
        self.walk_mut(&mut remaining)
    }

    fn walk_mut(&mut self, remaining: &mut usize) -> (found: Option<&mut Expr>)
        ensures
            *old(remaining) < old(self).size() ==> {
                &&& found is Some
                &&& *found.unwrap() == old(self).subtree(*old(remaining) as nat)
                &&& *final(self) == old(self).replace(
                    *old(remaining) as nat,
                    *final(found.unwrap()),
                )
                &&& *final(remaining) == 0
            },
            *old(remaining) >= old(self).size() ==> {
                &&& found is None
                &&& *final(self) == *old(self)
                &&& *final(remaining) == *old(remaining) - old(self).size()
            },
        decreases *old(self),
    {
        if *remaining == 0 {
            return Some(self);
        }
        *remaining -= 1;
        let (left, right) = self.children_mut();
        if let Some(child) = left {
            if let Some(found) = child.walk_mut(remaining) {
                return Some(found);
            }
        }
        if let Some(child) = right {
            if let Some(found) = child.walk_mut(remaining) {
                return Some(found);
            }
        }
        None
    }

    fn children_mut(&mut self) -> (children: (Option<&mut Expr>, Option<&mut Expr>))
        ensures
            children.0 is Some <==> old(self).first_child() is Some,
            children.1 is Some <==> old(self).second_child() is Some,
            children.1 is Some ==> children.0 is Some,
            old(self).size() == 1 + (match old(self).first_child() {
                Some(a) => a.size(),
                None => 0,
            }) + (match old(self).second_child() {
                Some(b) => b.size(),
                None => 0,
            }),
            children.0 is Some ==> *children.0.unwrap() == old(self).first_child().unwrap(),
            children.1 is Some ==> *children.1.unwrap() == old(self).second_child().unwrap(),
            children.0 is None ==> *final(self) == *old(self),
            children.0 is Some && children.1 is None ==> *final(self) == old(self).with_children(
                *final(children.0.unwrap()),
                *final(children.0.unwrap()),
            ),
            children.0 is Some && children.1 is Some ==> *final(self) == old(self).with_children(
                *final(children.0.unwrap()),
                *final(children.1.unwrap()),
            ),
    {
        match self {
            Expr::Sin(a) => (Some(&mut **a), None),
            Expr::Cos(a) => (Some(&mut **a), None),
            Expr::Neg(a) => (Some(&mut **a), None),
            Expr::Add(a, b) => (Some(&mut **a), Some(&mut **b)),
            Expr::Sub(a, b) => (Some(&mut **a), Some(&mut **b)),
            Expr::Mul(a, b) => (Some(&mut **a), Some(&mut **b)),
            Expr::Hypot(a, b) => (Some(&mut **a), Some(&mut **b)),
            _ => (None, None),
        }
    }
}

/// Slots have roles by index so that generated expressions get real frequency
/// content instead of a screenful of one slow gradient. Low slots are spatial
/// frequencies, middle slots are general constants, high slots are phases.
pub fn frequency_slot(rng: &mut StdRng) -> (slot: usize)
    ensures
        slot < 8,
{
    random_below(rng, 0, 8)
}

pub fn phase_slot(rng: &mut StdRng) -> (slot: usize)
    ensures
        16 <= slot < PARAM_COUNT,
{
    random_below(rng, 16, PARAM_COUNT)
}

/// A slot holding a general constant of moderate size.
pub fn constant_slot(rng: &mut StdRng) -> (slot: usize)
    ensures
        8 <= slot < 16,
{
    random_below(rng, 8, 16)
}

pub fn lobe_slot(rng: &mut StdRng) -> (slot: usize)
    ensures
        8 <= slot < 12,
{
    random_below(rng, 8, 12)
}

impl Expr {
    /// A parameter node whose slot lies in `low..high`.
    pub open spec fn is_param_in(self, low: nat, high: nat) -> bool {
        match self {
            Expr::Param(slot) => low <= slot < high,
            _ => false,
        }
    }

    /// The leaves random generation draws: a coordinate, the clock, or a
    /// general constant.
    pub open spec fn is_random_leaf(self) -> bool {
        match self {
            Expr::X => true,
            Expr::Y => true,
            Expr::Radius => true,
            Expr::Theta => true,
            Expr::Time => true,
            Expr::Param(slot) => 8 <= slot < 16,
            _ => false,
        }
    }

    /// A tree random generation can grow from a budget of `depth`: random
    /// leaves, joined by smooth node kinds only, at most `depth` levels above
    /// the leaves.
    pub open spec fn is_grown(self, depth: nat) -> bool
        decreases self,
    {
        self.is_random_leaf() || (depth > 0 && match self {
            Expr::Sin(a) => a.is_grown((depth - 1) as nat),
            Expr::Cos(a) => a.is_grown((depth - 1) as nat),
            Expr::Neg(a) => a.is_grown((depth - 1) as nat),
            Expr::Add(a, b) => a.is_grown((depth - 1) as nat) && b.is_grown((depth - 1) as nat),
            Expr::Mul(a, b) => a.is_grown((depth - 1) as nat) && b.is_grown((depth - 1) as nat),
            Expr::Hypot(a, b) => a.is_grown((depth - 1) as nat) && b.is_grown((depth - 1) as nat),
            _ => false,
        })
    }

    /// `frequency * inner + phase`, the argument of a wave term.
    pub open spec fn is_wave_argument(self, depth: nat) -> bool {
        match self {
            Expr::Add(scaled, phase) => phase.is_param_in(16, PARAM_COUNT as nat) && match *scaled {
                Expr::Mul(frequency, inner) => frequency.is_param_in(0, 8) && inner.is_grown(depth),
                _ => false,
            },
            _ => false,
        }
    }

    /// One oscillating term: `sin` or `cos` of a grown subtree scaled by a
    /// frequency parameter and offset by a phase parameter.
    pub open spec fn is_wave(self, depth: nat) -> bool {
        match self {
            Expr::Sin(argument) => argument.is_wave_argument(depth),
            Expr::Cos(argument) => argument.is_wave_argument(depth),
            _ => false,
        }
    }

    /// `sin(frequency * moverDistance(m) + phase * time)`, rings travelling
    /// out from mover `m`.
    pub open spec fn is_travelling_rings(self, mover: nat) -> bool {
        match self {
            Expr::Sin(argument) => match *argument {
                Expr::Add(rings, travel) => (match *rings {
                    Expr::Mul(frequency, distance) => frequency.is_param_in(0, 8) && *distance
                        == Expr::MoverDistance(mover as usize),
                    _ => false,
                }) && (match *travel {
                    Expr::Mul(phase, clock) => phase.is_param_in(16, PARAM_COUNT as nat) && *clock
                        == Expr::Time,
                    _ => false,
                }),
                _ => false,
            },
            _ => false,
        }
    }

    /// Travelling rings from one mover, multiplied by that mover's window.
    pub open spec fn is_mover_wave(self) -> bool {
        match self {
            Expr::Mul(window, rings) => match *window {
                Expr::MoverWindow(mover) => mover < MOVER_COUNT && rings.is_travelling_rings(
                    mover as nat,
                ),
                _ => false,
            },
            _ => false,
        }
    }

    /// A term of a field: a wave of depth three or a mover wave.
    pub open spec fn is_field_term(self) -> bool {
        self.is_wave(3) || self.is_mover_wave()
    }

    /// `count` field terms folded left to right with `+` and `*`, the first of
    /// them a plain wave.
    pub open spec fn is_term_chain(self, count: nat) -> bool
        decreases count,
    {
        if count <= 1 {
            count == 1 && self.is_wave(3)
        } else {
            match self {
                Expr::Add(front, term) => front.is_term_chain((count - 1) as nat)
                    && term.is_field_term(),
                Expr::Mul(front, term) => front.is_term_chain((count - 1) as nat)
                    && term.is_field_term(),
                _ => false,
            }
        }
    }

    /// A whole random field: a chain of two to four terms scaled by a general
    /// constant.
    pub open spec fn is_random_field(self) -> bool {
        match self {
            Expr::Mul(constant, chain) => constant.is_param_in(8, 16) && (chain.is_term_chain(2)
                || chain.is_term_chain(3) || chain.is_term_chain(4)),
            _ => false,
        }
    }

    /// Every parameter slot the tree reads exists in a genome, and every
    /// mover it measures from exists in the motion.
    pub open spec fn indexes_in_range(self) -> bool
        decreases self,
    {
        match self {
            Expr::Param(slot) => slot < PARAM_COUNT,
            Expr::MoverDistance(mover) => mover < MOVER_COUNT,
            Expr::MoverWindow(mover) => mover < MOVER_COUNT,
            Expr::Sin(a) => a.indexes_in_range(),
            Expr::Cos(a) => a.indexes_in_range(),
            Expr::Neg(a) => a.indexes_in_range(),
            Expr::Add(a, b) => a.indexes_in_range() && b.indexes_in_range(),
            Expr::Sub(a, b) => a.indexes_in_range() && b.indexes_in_range(),
            Expr::Mul(a, b) => a.indexes_in_range() && b.indexes_in_range(),
            Expr::Hypot(a, b) => a.indexes_in_range() && b.indexes_in_range(),
            _ => true,
        }
    }

    /// Some node of the tree reads a parameter slot below `bound`.
    pub open spec fn reads_param_below(self, bound: nat) -> bool
        decreases self,
    {
        match self {
            Expr::Param(slot) => slot < bound,
            Expr::Sin(a) => a.reads_param_below(bound),
            Expr::Cos(a) => a.reads_param_below(bound),
            Expr::Neg(a) => a.reads_param_below(bound),
            Expr::Add(a, b) => a.reads_param_below(bound) || b.reads_param_below(bound),
            Expr::Sub(a, b) => a.reads_param_below(bound) || b.reads_param_below(bound),
            Expr::Mul(a, b) => a.reads_param_below(bound) || b.reads_param_below(bound),
            Expr::Hypot(a, b) => a.reads_param_below(bound) || b.reads_param_below(bound),
            _ => false,
        }
    }

    /// No node measures distance from a mover other than `mover`.
    pub open spec fn measures_only_from(self, mover: nat) -> bool
        decreases self,
    {
        match self {
            Expr::MoverDistance(other) => other == mover,
            Expr::Sin(a) => a.measures_only_from(mover),
            Expr::Cos(a) => a.measures_only_from(mover),
            Expr::Neg(a) => a.measures_only_from(mover),
            Expr::Add(a, b) => a.measures_only_from(mover) && b.measures_only_from(mover),
            Expr::Sub(a, b) => a.measures_only_from(mover) && b.measures_only_from(mover),
            Expr::Mul(a, b) => a.measures_only_from(mover) && b.measures_only_from(mover),
            Expr::Hypot(a, b) => a.measures_only_from(mover) && b.measures_only_from(mover),
            _ => true,
        }
    }

    /// Every distance measured from a mover sits inside a product whose first
    /// factor is that same mover's window, so it fades out before the wrap
    /// distance.
    pub open spec fn is_windowed(self) -> bool
        decreases self,
    {
        match self {
            Expr::MoverDistance(_) => false,
            Expr::Sin(a) => a.is_windowed(),
            Expr::Cos(a) => a.is_windowed(),
            Expr::Neg(a) => a.is_windowed(),
            Expr::Add(a, b) => a.is_windowed() && b.is_windowed(),
            Expr::Sub(a, b) => a.is_windowed() && b.is_windowed(),
            Expr::Mul(a, b) => match *a {
                Expr::MoverWindow(mover) => b.measures_only_from(mover as nat),
                _ => a.is_windowed() && b.is_windowed(),
            },
            Expr::Hypot(a, b) => a.is_windowed() && b.is_windowed(),
            _ => true,
        }
    }
}

/// The node random growth puts at a position.
#[derive(Clone, Copy, Debug, PartialEq, Eq, Structural)]
pub enum Growth {
    Leaf,
    Sin,
    Cos,
    Neg,
    Add,
    Mul,
    Hypot,
}

/// Growth for a draw from `0..12`: a leaf one time in six, `sin` and `cos` a
/// quarter of the time each, and `neg`, `+`, `*` and `hypot` one time in
/// twelve each. A higher draw grows `hypot`.
pub open spec fn growth_of_draw(draw: nat) -> Growth {
    if draw <= 1 {
        Growth::Leaf
    } else if draw <= 4 {
        Growth::Sin
    } else if draw <= 7 {
        Growth::Cos
    } else if draw == 8 {
        Growth::Neg
    } else if draw == 9 {
        Growth::Add
    } else if draw == 10 {
        Growth::Mul
    } else {
        Growth::Hypot
    }
}

pub fn growth_for_draw(draw: usize) -> (growth: Growth)
    ensures
        growth == growth_of_draw(draw as nat),
{
    if draw <= 1 {
        Growth::Leaf
    } else if draw <= 4 {
        Growth::Sin
    } else if draw <= 7 {
        Growth::Cos
    } else if draw == 8 {
        Growth::Neg
    } else if draw == 9 {
        Growth::Add
    } else if draw == 10 {
        Growth::Mul
    } else {
        Growth::Hypot
    }
}

/// The leaf for a draw from `0..10`: each coordinate two times in ten, the
/// clock one time in ten, and one time in ten a general constant, whose slot
/// is drawn next (`None`). A higher draw also stands for a constant.
pub open spec fn leaf_of_draw(draw: nat) -> Option<Expr> {
    if draw <= 1 {
        Some(Expr::X)
    } else if draw <= 3 {
        Some(Expr::Y)
    } else if draw <= 5 {
        Some(Expr::Radius)
    } else if draw <= 7 {
        Some(Expr::Theta)
    } else if draw == 8 {
        Some(Expr::Time)
    } else {
        None
    }
}

pub fn leaf_for_draw(draw: usize) -> (leaf: Option<Expr>)
    ensures
        leaf == leaf_of_draw(draw as nat),
{
    if draw <= 1 {
        Some(Expr::X)
    } else if draw <= 3 {
        Some(Expr::Y)
    } else if draw <= 5 {
        Some(Expr::Radius)
    } else if draw <= 7 {
        Some(Expr::Theta)
    } else if draw == 8 {
        Some(Expr::Time)
    } else {
        None
    }
}

impl Expr {
    /// Build a random tree. `depth` is the remaining budget; at zero only
    /// leaves are produced. Every node kind here is smooth, since a crease or
    /// a jump anywhere in the tree draws a visible line across the screen.
    pub fn random(rng: &mut StdRng, depth: u32) -> (tree: Expr)
        ensures
            tree.is_grown(depth as nat),
            tree.indexes_in_range(),
        decreases depth,
    {
        if depth == 0 {
            return Expr::random_leaf(rng);
        }
        let kind = random_below(rng, 0, 12);
        match growth_for_draw(kind) {
            Growth::Leaf => Expr::random_leaf(rng),
            Growth::Sin => Expr::Sin(Box::new(Expr::random(rng, depth - 1))),
            Growth::Cos => Expr::Cos(Box::new(Expr::random(rng, depth - 1))),
            Growth::Neg => Expr::Neg(Box::new(Expr::random(rng, depth - 1))),
            Growth::Add => {
                let a = Expr::random(rng, depth - 1);
                let b = Expr::random(rng, depth - 1);
                Expr::Add(Box::new(a), Box::new(b))
            },
            Growth::Mul => {
                let a = Expr::random(rng, depth - 1);
                let b = Expr::random(rng, depth - 1);
                Expr::Mul(Box::new(a), Box::new(b))
            },
            Growth::Hypot => {
                let a = Expr::random(rng, depth - 1);
                let b = Expr::random(rng, depth - 1);
                Expr::Hypot(Box::new(a), Box::new(b))
            },
        }
    }

    fn random_leaf(rng: &mut StdRng) -> (leaf: Expr)
        ensures
            leaf.is_random_leaf(),
    {
        let kind = random_below(rng, 0, 10);
        match leaf_for_draw(kind) {
            Some(leaf) => leaf,
            None => Expr::Param(random_below(rng, 8, 16)),
        }
    }

    /// One oscillating term: a random subtree scaled by a frequency parameter
    /// and offset by a phase. Building the field out of these guarantees the
    /// fine banding the pattern needs, which a purely random tree rarely finds.
    pub fn random_wave(rng: &mut StdRng, depth: u32) -> (wave: Expr)
        ensures
            wave.is_wave(depth as nat),
            wave.indexes_in_range(),
    {
        let inner = Expr::random(rng, depth);
        let scaled = Expr::Mul(Box::new(Expr::Param(frequency_slot(rng))), Box::new(inner));
        let offset = Expr::Add(Box::new(scaled), Box::new(Expr::Param(phase_slot(rng))));
        assert(offset.indexes_in_range()) by {
            reveal_with_fuel(Expr::indexes_in_range, 3);
        }
        if random_ratio(rng, 1, 2) {
            Expr::Sin(Box::new(offset))
        } else {
            Expr::Cos(Box::new(offset))
        }
    }

    /// A field is a combination of two to four wave terms, some of which are
    /// tied to a mover so they travel across the screen.
    pub fn random_field(rng: &mut StdRng) -> (field: Expr)
        ensures
            field.is_random_field(),
            field.reads_param_below(8),
            field.is_windowed(),
            field.indexes_in_range(),
    {
        let term_count = random_below(rng, 2, 5);
        let mut field = Expr::random_wave(rng, 3);
        let mut built: usize = 1;
        while built < term_count
            invariant
                1 <= built <= term_count <= 4,
                field.is_term_chain(built as nat),
                field.indexes_in_range(),
            decreases term_count - built,
        {
            let term = if random_ratio(rng, 3, 10) {
                Expr::random_mover_wave(rng)
            } else {
                Expr::random_wave(rng, 3)
            };
            field = if random_ratio(rng, 3, 5) {
                Expr::Add(Box::new(field), Box::new(term))
            } else {
                Expr::Mul(Box::new(field), Box::new(term))
            };
            built = built + 1;
        }
        proof {
            Expr::lemma_chain_is_windowed_and_tuned(field, built as nat);
        }
        // A mid range multiplier: enough to fold the waves into each other,
        // not so much that the result aliases into noise.
        let constant = constant_slot(rng);
        let result = Expr::Mul(Box::new(Expr::Param(constant)), Box::new(field));
        assert(result.is_windowed()) by {
            reveal_with_fuel(Expr::is_windowed, 2);
        }
        assert(result.indexes_in_range()) by {
            reveal_with_fuel(Expr::indexes_in_range, 2);
        }
        result
    }

    /// Rings spreading from one mover. A term like this puts a traveling wave
    /// source in a layer, since the mover it is measured from crosses the
    /// screen.
    pub fn random_mover_wave(rng: &mut StdRng) -> (wave: Expr)
        ensures
            wave.is_mover_wave(),
            wave.is_windowed(),
            wave.indexes_in_range(),
    {
        let mover = random_below(rng, 0, MOVER_COUNT);
        let rings = Expr::Mul(
            Box::new(Expr::Param(frequency_slot(rng))),
            Box::new(Expr::MoverDistance(mover)),
        );
        let travelling = Expr::Sin(
            Box::new(
                Expr::Add(
                    Box::new(rings),
                    Box::new(Expr::Mul(Box::new(Expr::Param(phase_slot(rng))), Box::new(Expr::Time))),
                ),
            ),
        );
        let wave = Expr::Mul(Box::new(Expr::MoverWindow(mover)), Box::new(travelling));
        proof {
            Expr::lemma_mover_wave_is_windowed_and_tuned(wave);
            reveal_with_fuel(Expr::indexes_in_range, 5);
        }
        wave
    }
}

impl Expr {
    proof fn lemma_grown_is_windowed(tree: Expr, depth: nat)
        requires
            tree.is_grown(depth),
        ensures
            tree.is_windowed(),
        decreases tree,
    {
        if !tree.is_random_leaf() {
            match tree {
                Expr::Sin(a) => Expr::lemma_grown_is_windowed(*a, (depth - 1) as nat),
                Expr::Cos(a) => Expr::lemma_grown_is_windowed(*a, (depth - 1) as nat),
                Expr::Neg(a) => Expr::lemma_grown_is_windowed(*a, (depth - 1) as nat),
                Expr::Add(a, b) => {
                    Expr::lemma_grown_is_windowed(*a, (depth - 1) as nat);
                    Expr::lemma_grown_is_windowed(*b, (depth - 1) as nat);
                },
                Expr::Mul(a, b) => {
                    Expr::lemma_grown_is_windowed(*a, (depth - 1) as nat);
                    Expr::lemma_grown_is_windowed(*b, (depth - 1) as nat);
                    assert(!(*a is MoverWindow)) by {
                        reveal_with_fuel(Expr::is_grown, 2);
                    }
                },
                Expr::Hypot(a, b) => {
                    Expr::lemma_grown_is_windowed(*a, (depth - 1) as nat);
                    Expr::lemma_grown_is_windowed(*b, (depth - 1) as nat);
                },
                _ => {},
            }
        }
    }

    proof fn lemma_term_is_windowed_and_tuned(term: Expr)
        requires
            term.is_field_term(),
        ensures
            term.is_windowed(),
            term.reads_param_below(8),
    {
        if term.is_wave(3) {
            let argument = match term {
                Expr::Sin(argument) => *argument,
                Expr::Cos(argument) => *argument,
                _ => term,
            };
            match argument {
                Expr::Add(scaled, _) => match *scaled {
                    Expr::Mul(_, inner) => Expr::lemma_grown_is_windowed(*inner, 3),
                    _ => {},
                },
                _ => {},
            }
            reveal_with_fuel(Expr::reads_param_below, 4);
            reveal_with_fuel(Expr::is_windowed, 4);
        } else {
            Expr::lemma_mover_wave_is_windowed_and_tuned(term);
        }
    }

    proof fn lemma_mover_wave_is_windowed_and_tuned(wave: Expr)
        requires
            wave.is_mover_wave(),
        ensures
            wave.is_windowed(),
            wave.reads_param_below(8),
    {
        reveal_with_fuel(Expr::measures_only_from, 5);
        reveal_with_fuel(Expr::reads_param_below, 5);
    }

    proof fn lemma_chain_is_windowed_and_tuned(chain: Expr, count: nat)
        requires
            chain.is_term_chain(count),
        ensures
            chain.is_windowed(),
            chain.reads_param_below(8),
        decreases count,
    {
        if count <= 1 {
            Expr::lemma_term_is_windowed_and_tuned(chain);
        } else {
            match chain {
                Expr::Add(front, term) => {
                    Expr::lemma_chain_is_windowed_and_tuned(*front, (count - 1) as nat);
                    Expr::lemma_term_is_windowed_and_tuned(*term);
                },
                Expr::Mul(front, term) => {
                    Expr::lemma_chain_is_windowed_and_tuned(*front, (count - 1) as nat);
                    Expr::lemma_term_is_windowed_and_tuned(*term);
                    assert(!(*front is MoverWindow));
                },
                _ => {},
            }
        }
    }
}

impl Expr {
    /// A copy of the whole tree, node for node.
    fn duplicate(&self) -> (copy: Expr)
        ensures
            copy == *self,
        decreases self,
    {
        match self {
            Expr::X => Expr::X,
            Expr::Y => Expr::Y,
            Expr::Radius => Expr::Radius,
            Expr::Theta => Expr::Theta,
            Expr::Time => Expr::Time,
            Expr::Param(slot) => Expr::Param(*slot),
            Expr::MoverDistance(mover) => Expr::MoverDistance(*mover),
            Expr::MoverWindow(mover) => Expr::MoverWindow(*mover),
            Expr::Sin(a) => Expr::Sin(Box::new(a.duplicate())),
            Expr::Cos(a) => Expr::Cos(Box::new(a.duplicate())),
            Expr::Neg(a) => Expr::Neg(Box::new(a.duplicate())),
            Expr::Add(a, b) => Expr::Add(Box::new(a.duplicate()), Box::new(b.duplicate())),
            Expr::Sub(a, b) => Expr::Sub(Box::new(a.duplicate()), Box::new(b.duplicate())),
            Expr::Mul(a, b) => Expr::Mul(Box::new(a.duplicate()), Box::new(b.duplicate())),
            Expr::Hypot(a, b) => Expr::Hypot(Box::new(a.duplicate()), Box::new(b.duplicate())),
        }
    }
}

impl Clone for Expr {
    fn clone(&self) -> (copy: Self)
        ensures
            copy == *self,
    {
        self.duplicate()
    }
}

impl Expr {
    proof fn lemma_replace_keeps_indexes(tree: Expr, index: nat, node: Expr)
        requires
            tree.indexes_in_range(),
            node.indexes_in_range(),
        ensures
            tree.replace(index, node).indexes_in_range(),
        decreases tree,
    {
        if index > 0 {
            match tree {
                Expr::Sin(a) => Expr::lemma_replace_keeps_indexes(*a, (index - 1) as nat, node),
                Expr::Cos(a) => Expr::lemma_replace_keeps_indexes(*a, (index - 1) as nat, node),
                Expr::Neg(a) => Expr::lemma_replace_keeps_indexes(*a, (index - 1) as nat, node),
                Expr::Add(a, b) => if index - 1 < a.size() {
                    Expr::lemma_replace_keeps_indexes(*a, (index - 1) as nat, node);
                } else {
                    Expr::lemma_replace_keeps_indexes(*b, (index - 1 - a.size()) as nat, node);
                },
                Expr::Sub(a, b) => if index - 1 < a.size() {
                    Expr::lemma_replace_keeps_indexes(*a, (index - 1) as nat, node);
                } else {
                    Expr::lemma_replace_keeps_indexes(*b, (index - 1 - a.size()) as nat, node);
                },
                Expr::Mul(a, b) => if index - 1 < a.size() {
                    Expr::lemma_replace_keeps_indexes(*a, (index - 1) as nat, node);
                } else {
                    Expr::lemma_replace_keeps_indexes(*b, (index - 1 - a.size()) as nat, node);
                },
                Expr::Hypot(a, b) => if index - 1 < a.size() {
                    Expr::lemma_replace_keeps_indexes(*a, (index - 1) as nat, node);
                } else {
                    Expr::lemma_replace_keeps_indexes(*b, (index - 1 - a.size()) as nat, node);
                },
                _ => {},
            }
        }
    }

    proof fn lemma_subtree_keeps_indexes(tree: Expr, index: nat)
        requires
            tree.indexes_in_range(),
        ensures
            tree.subtree(index).indexes_in_range(),
        decreases tree,
    {
        if index > 0 {
            match tree {
                Expr::Sin(a) => Expr::lemma_subtree_keeps_indexes(*a, (index - 1) as nat),
                Expr::Cos(a) => Expr::lemma_subtree_keeps_indexes(*a, (index - 1) as nat),
                Expr::Neg(a) => Expr::lemma_subtree_keeps_indexes(*a, (index - 1) as nat),
                Expr::Add(a, b) => if index - 1 < a.size() {
                    Expr::lemma_subtree_keeps_indexes(*a, (index - 1) as nat);
                } else {
                    Expr::lemma_subtree_keeps_indexes(*b, (index - 1 - a.size()) as nat);
                },
                Expr::Sub(a, b) => if index - 1 < a.size() {
                    Expr::lemma_subtree_keeps_indexes(*a, (index - 1) as nat);
                } else {
                    Expr::lemma_subtree_keeps_indexes(*b, (index - 1 - a.size()) as nat);
                },
                Expr::Mul(a, b) => if index - 1 < a.size() {
                    Expr::lemma_subtree_keeps_indexes(*a, (index - 1) as nat);
                } else {
                    Expr::lemma_subtree_keeps_indexes(*b, (index - 1 - a.size()) as nat);
                },
                Expr::Hypot(a, b) => if index - 1 < a.size() {
                    Expr::lemma_subtree_keeps_indexes(*a, (index - 1) as nat);
                } else {
                    Expr::lemma_subtree_keeps_indexes(*b, (index - 1 - a.size()) as nat);
                },
                _ => {},
            }
        }
    }
}

impl Expr {
    /// The mutation a layer's field undergoes: a node picked by preorder
    /// index is replaced with a fresh wave of depth two.
    pub fn regrow_random_subtree(&mut self, rng: &mut StdRng)
        requires
            old(self).size() <= usize::MAX,
        ensures
            exists|index: nat, wave: Expr|
                #![trigger old(self).replace(index, wave)]
                index < old(self).size() && wave.is_wave(2) && *final(self) == old(self).replace(
                    index,
                    wave,
                ),
            old(self).indexes_in_range() ==> final(self).indexes_in_range(),
    {
        let count = self.node_count();
        let index = random_below(rng, 0, count);
        let ghost before = *self;
        match self.subtree_at_mut(index) {
            Some(node) => {
                let wave = Expr::random_wave(rng, 2);
                *node = wave.duplicate();
                assert(before.replace(index as nat, wave) == *self);
                proof {
                    if before.indexes_in_range() {
                        Expr::lemma_replace_keeps_indexes(before, index as nat, wave);
                    }
                }
            },
            None => {},
        }
    }

    /// The crossover a layer's field undergoes: a subtree of `donor`, picked
    /// by preorder index, replaces a node of this tree picked the same way.
    pub fn graft_random_subtree(&mut self, donor: &Expr, rng: &mut StdRng)
        requires
            old(self).size() <= usize::MAX,
            donor.size() <= usize::MAX,
        ensures
            exists|from: nat, to: nat|
                #![trigger donor.subtree(from), old(self).replace(to, donor.subtree(from))]
                from < donor.size() && to < old(self).size() && *final(self) == old(self).replace(
                    to,
                    donor.subtree(from),
                ),
            old(self).indexes_in_range() && donor.indexes_in_range()
                ==> final(self).indexes_in_range(),
    {
        let mut copy = donor.duplicate();
        let from = random_below(rng, 0, donor.node_count());
        let graft = match copy.subtree_at_mut(from) {
            Some(node) => node.duplicate(),
            None => Expr::X,
        };
        let to = random_below(rng, 0, self.node_count());
        let ghost before = *self;
        match self.subtree_at_mut(to) {
            Some(node) => {
                *node = graft;
            },
            None => {},
        }
        assert(before.replace(to as nat, donor.subtree(from as nat)) == *self);
        proof {
            if before.indexes_in_range() && donor.indexes_in_range() {
                Expr::lemma_subtree_keeps_indexes(*donor, from as nat);
                Expr::lemma_replace_keeps_indexes(before, to as nat, donor.subtree(from as nat));
            }
        }
    }
}

/// How many layers a fresh genome stacks: two up to `MAX_LAYERS`.
pub fn random_layer_count(rng: &mut StdRng) -> (count: usize)
    ensures
        2 <= count <= MAX_LAYERS,
{
    random_below(rng, 2, MAX_LAYERS + 1)
}

/// Mutation may add a fresh layer on top of the stack or drop the top one, but
/// never takes the stack past `MAX_LAYERS` or below two. Returns the new count.
pub fn mutated_layer_count(rng: &mut StdRng, count: usize) -> (next: usize)
    ensures
        next == count || (count < MAX_LAYERS && next == count + 1) || (count > 2 && next == count
            - 1),
        2 <= count <= MAX_LAYERS ==> 2 <= next <= MAX_LAYERS,
{
    let grow = random_ratio(rng, 3, 10);
    let shrink = if grow && count < MAX_LAYERS {
        false
    } else {
        random_ratio(rng, 1, 4)
    };
    layer_count_after(count, grow, shrink)
}

/// The layer count mutation leaves, given its two coin flips: growing wins
/// when there is room on the stack; otherwise the top layer is dropped when
/// the stack holds more than two.
pub open spec fn layer_count_after_flips(count: nat, grow: bool, shrink: bool) -> nat {
    if grow && count < MAX_LAYERS {
        count + 1
    } else if shrink && count > 2 {
        (count - 1) as nat
    } else {
        count
    }
}

/// What the two flips of a layer-count mutation do: the stack grows by one
/// exactly when the grow flip hits and it has room; otherwise it loses its top
/// layer exactly when the shrink flip hits and it holds more than two; in
/// every other case it is kept. It never moves by more than one, and a stack
/// of two to `MAX_LAYERS` layers stays in that range.
pub proof fn lemma_layer_count_flips(count: nat, grow: bool, shrink: bool)
    ensures
        layer_count_after_flips(count, grow, shrink) == count + 1 <==> grow && count < MAX_LAYERS,
        layer_count_after_flips(count, grow, shrink) + 1 == count <==> !(grow && count
            < MAX_LAYERS) && shrink && count > 2,
        layer_count_after_flips(count, grow, shrink) == count <==> !(grow && count < MAX_LAYERS)
            && !(shrink && count > 2),
        layer_count_after_flips(count, false, false) == count,
        2 <= count <= MAX_LAYERS ==> 2 <= layer_count_after_flips(count, grow, shrink)
            <= MAX_LAYERS,
{
}

pub fn layer_count_after(count: usize, grow: bool, shrink: bool) -> (next: usize)
    ensures
        next == layer_count_after_flips(count as nat, grow, shrink),
{
    if grow && count < MAX_LAYERS {
        count + 1
    } else if shrink && count > 2 {
        count - 1
    } else {
        count
    }
}

fn holds_symmetry(taken: &Vec<u32>, symmetry: u32) -> (found: bool)
    ensures
        found == taken@.contains(symmetry),
{
    let mut index: usize = 0;
    while index < taken.len()
        invariant
            index <= taken@.len(),
            forall|k: int| 0 <= k < index ==> taken@[k] != symmetry,
        decreases taken.len() - index,
    {
        if taken[index] == symmetry {
            return true;
        }
        index = index + 1;
    }
    false
}

/// Every symmetry from 1 to `MAX_SYMMETRY` being held by a list without
/// repeats takes at least `MAX_SYMMETRY` entries.
proof fn lemma_all_symmetries_taken(taken: Seq<u32>)
    requires
        taken.no_duplicates(),
        forall|v: u32| 1 <= v <= MAX_SYMMETRY ==> #[trigger] taken.contains(v),
    ensures
        taken.len() >= MAX_SYMMETRY,
{
    let every = Seq::new(MAX_SYMMETRY as nat, |i: int| (i + 1) as u32);
    assert(every.no_duplicates());
    every.unique_seq_to_set();
    taken.unique_seq_to_set();
    vstd::seq_lib::seq_to_set_is_finite(taken);
    assert forall|v: u32| every.to_set().contains(v) implies taken.to_set().contains(v) by {
        let i = choose|i: int| 0 <= i < every.len() && every[i] == v;
        assert(1 <= v <= MAX_SYMMETRY);
        assert(taken.contains(v));
    }
    vstd::set_lib::lemma_len_subset(every.to_set(), taken.to_set());
}

/// Two layers folded the same way read as one pattern, so every layer is given
/// a symmetry no layer before it has. A layer whose symmetry is taken redraws
/// from `1..=MAX_SYMMETRY`, up to sixteen times; if every redraw is taken as
/// well, it takes the smallest symmetry no layer before it has. A stack of at
/// most `MAX_SYMMETRY` layers so ends with no two layers folded alike.
pub fn give_distinct_symmetries(symmetries: &mut Vec<u32>, rng: &mut StdRng)
    ensures
        final(symmetries)@.len() == old(symmetries)@.len(),
        forall|i: int|
            0 <= i < old(symmetries)@.len() && !final(symmetries)@.subrange(0, i).contains(
                #[trigger] old(symmetries)@[i],
            ) ==> final(symmetries)@[i] == old(symmetries)@[i],
        forall|i: int|
            0 <= i < old(symmetries)@.len() ==> #[trigger] final(symmetries)@[i] == old(
                symmetries,
            )@[i] || 1 <= final(symmetries)@[i] <= MAX_SYMMETRY,
        forall|i: int|
            0 <= i < old(symmetries)@.len() && final(symmetries)@.subrange(0, i).contains(
                #[trigger] old(symmetries)@[i],
            ) ==> 1 <= final(symmetries)@[i] <= MAX_SYMMETRY,
        old(symmetries)@.len() <= MAX_SYMMETRY ==> forall|i: int, j: int|
            0 <= i < j < old(symmetries)@.len() ==> #[trigger] final(symmetries)@[i]
                != #[trigger] final(symmetries)@[j],
{
    let mut taken: Vec<u32> = Vec::new();
    let mut layer: usize = 0;
    while layer < symmetries.len()
        invariant
            layer <= symmetries@.len(),
            symmetries@.len() == old(symmetries)@.len(),
            taken@ == symmetries@.subrange(0, layer as int),
            forall|j: int| layer <= j < symmetries@.len() ==> symmetries@[j] == old(symmetries)@[j],
            forall|i: int|
                0 <= i < layer && !symmetries@.subrange(0, i).contains(#[trigger] old(symmetries)@[i])
                    ==> symmetries@[i] == old(symmetries)@[i],
            forall|i: int|
                0 <= i < layer ==> #[trigger] symmetries@[i] == old(symmetries)@[i] || 1
                    <= symmetries@[i] <= MAX_SYMMETRY,
            forall|i: int|
                0 <= i < layer && symmetries@.subrange(0, i).contains(#[trigger] old(symmetries)@[i])
                    ==> 1 <= symmetries@[i] <= MAX_SYMMETRY,
            symmetries@.len() <= MAX_SYMMETRY ==> taken@.no_duplicates(),
        decreases symmetries.len() - layer,
    {
        let current = symmetries[layer];
        let mut symmetry = current;
        let mut attempt: u32 = 0;
        while attempt < 16
            invariant
                attempt <= 16,
                symmetry == current || 1 <= symmetry <= MAX_SYMMETRY,
                !taken@.contains(current) ==> symmetry == current,
                attempt == 0 ==> symmetry == current,
                attempt > 0 ==> 1 <= symmetry <= MAX_SYMMETRY,
            ensures
                symmetry == current || 1 <= symmetry <= MAX_SYMMETRY,
                !taken@.contains(current) ==> symmetry == current,
                taken@.contains(current) ==> 1 <= symmetry <= MAX_SYMMETRY,
            decreases 16 - attempt,
        {
            if !holds_symmetry(&taken, symmetry) {
                break;
            }
            symmetry = random_below(rng, 1, (MAX_SYMMETRY + 1) as usize) as u32;
            attempt = attempt + 1;
        }
        if holds_symmetry(&taken, symmetry) {
            let mut candidate: u32 = 1;
            while candidate <= MAX_SYMMETRY
                invariant_except_break
                    taken@.contains(symmetry),
                    forall|v: u32| 1 <= v < candidate ==> #[trigger] taken@.contains(v),
                invariant
                    1 <= candidate <= MAX_SYMMETRY + 1,
                    taken@.contains(current),
                    1 <= symmetry <= MAX_SYMMETRY,
                ensures
                    1 <= symmetry <= MAX_SYMMETRY,
                    taken@.contains(current),
                    taken@.contains(symmetry) ==> forall|v: u32|
                        1 <= v <= MAX_SYMMETRY ==> #[trigger] taken@.contains(v),
                decreases MAX_SYMMETRY + 1 - candidate,
            {
                if !holds_symmetry(&taken, candidate) {
                    symmetry = candidate;
                    break;
                }
                candidate = candidate + 1;
            }
        }
        proof {
            if symmetries@.len() <= MAX_SYMMETRY && taken@.contains(symmetry) {
                lemma_all_symmetries_taken(taken@);
            }
        }
        let ghost earlier = symmetries@;
        symmetries.set(layer, symmetry);
        assert forall|i: int| 0 <= i <= layer implies symmetries@.subrange(0, i)
            == earlier.subrange(0, i) by {
            assert(symmetries@.subrange(0, i) =~= earlier.subrange(0, i));
        }
        let ghost before = taken@;
        taken.push(symmetry);
        assert(taken@ == symmetries@.subrange(0, layer + 1));
        proof {
            if symmetries@.len() <= MAX_SYMMETRY {
                assert(!before.contains(symmetry));
                assert forall|i: int, j: int|
                    0 <= i < taken@.len() && 0 <= j < taken@.len() && i != j implies taken@[i]
                    != taken@[j] by {
                    if i < before.len() && j < before.len() {
                        assert(before[i] != before[j]);
                    } else if i == before.len() {
                        assert(before[j] == taken@[j]);
                    } else {
                        assert(before[i] == taken@[i]);
                    }
                }
            }
        }
        layer = layer + 1;
    }
    assert(taken@ =~= symmetries@);
}

impl Expr {
    /// A random field reads at least one frequency parameter, and every
    /// distance it measures from a mover is windowed by that mover.
    pub proof fn lemma_random_field_properties(field: Expr)
        requires
            field.is_random_field(),
        ensures
            field.reads_param_below(8),
            field.is_windowed(),
    {
        match field {
            Expr::Mul(constant, chain) => {
                if chain.is_term_chain(2) {
                    Expr::lemma_chain_is_windowed_and_tuned(*chain, 2);
                } else if chain.is_term_chain(3) {
                    Expr::lemma_chain_is_windowed_and_tuned(*chain, 3);
                } else {
                    Expr::lemma_chain_is_windowed_and_tuned(*chain, 4);
                }
                assert(field.is_windowed()) by {
                    reveal_with_fuel(Expr::is_windowed, 2);
                }
            },
            _ => {},
        }
    }

    /// The position a subtree is written to stays inside the tree.
    proof fn lemma_position_survives_replace(tree: Expr, index: nat, node: Expr)
        requires
            index < tree.size(),
        ensures
            index < tree.replace(index, node).size(),
        decreases tree,
    {
        if index > 0 {
            match tree {
                Expr::Sin(a) => Expr::lemma_position_survives_replace(*a, (index - 1) as nat, node),
                Expr::Cos(a) => Expr::lemma_position_survives_replace(*a, (index - 1) as nat, node),
                Expr::Neg(a) => Expr::lemma_position_survives_replace(*a, (index - 1) as nat, node),
                Expr::Add(a, b) => if index - 1 < a.size() {
                    Expr::lemma_position_survives_replace(*a, (index - 1) as nat, node);
                } else {
                    Expr::lemma_position_survives_replace(*b, (index - 1 - a.size()) as nat, node);
                },
                Expr::Sub(a, b) => if index - 1 < a.size() {
                    Expr::lemma_position_survives_replace(*a, (index - 1) as nat, node);
                } else {
                    Expr::lemma_position_survives_replace(*b, (index - 1 - a.size()) as nat, node);
                },
                Expr::Mul(a, b) => if index - 1 < a.size() {
                    Expr::lemma_position_survives_replace(*a, (index - 1) as nat, node);
                } else {
                    Expr::lemma_position_survives_replace(*b, (index - 1 - a.size()) as nat, node);
                },
                Expr::Hypot(a, b) => if index - 1 < a.size() {
                    Expr::lemma_position_survives_replace(*a, (index - 1) as nat, node);
                } else {
                    Expr::lemma_position_survives_replace(*b, (index - 1 - a.size()) as nat, node);
                },
                _ => {},
            }
        }
    }

    /// Reading position `index` back after writing `node` there gives `node`.
    pub proof fn lemma_replaced_subtree_reads_back(tree: Expr, index: nat, node: Expr)
        requires
            index < tree.size(),
        ensures
            tree.replace(index, node).subtree(index) == node,
        decreases tree,
    {
        if index > 0 {
            match tree {
                Expr::Sin(a) => Expr::lemma_replaced_subtree_reads_back(*a, (index - 1) as nat, node),
                Expr::Cos(a) => Expr::lemma_replaced_subtree_reads_back(*a, (index - 1) as nat, node),
                Expr::Neg(a) => Expr::lemma_replaced_subtree_reads_back(*a, (index - 1) as nat, node),
                Expr::Add(a, b) => if index - 1 < a.size() {
                    Expr::lemma_replaced_subtree_reads_back(*a, (index - 1) as nat, node);
                    Expr::lemma_position_survives_replace(*a, (index - 1) as nat, node);
                } else {
                    Expr::lemma_replaced_subtree_reads_back(*b, (index - 1 - a.size()) as nat, node);
                },
                Expr::Sub(a, b) => if index - 1 < a.size() {
                    Expr::lemma_replaced_subtree_reads_back(*a, (index - 1) as nat, node);
                    Expr::lemma_position_survives_replace(*a, (index - 1) as nat, node);
                } else {
                    Expr::lemma_replaced_subtree_reads_back(*b, (index - 1 - a.size()) as nat, node);
                },
                Expr::Mul(a, b) => if index - 1 < a.size() {
                    Expr::lemma_replaced_subtree_reads_back(*a, (index - 1) as nat, node);
                    Expr::lemma_position_survives_replace(*a, (index - 1) as nat, node);
                } else {
                    Expr::lemma_replaced_subtree_reads_back(*b, (index - 1 - a.size()) as nat, node);
                },
                Expr::Hypot(a, b) => if index - 1 < a.size() {
                    Expr::lemma_replaced_subtree_reads_back(*a, (index - 1) as nat, node);
                    Expr::lemma_position_survives_replace(*a, (index - 1) as nat, node);
                } else {
                    Expr::lemma_replaced_subtree_reads_back(*b, (index - 1 - a.size()) as nat, node);
                },
                _ => {},
            }
        }
    }

    /// Writing back the subtree that sits at a position changes nothing.
    pub proof fn lemma_replacing_with_own_subtree(tree: Expr, index: nat)
        requires
            index < tree.size(),
        ensures
            tree.replace(index, tree.subtree(index)) == tree,
        decreases tree,
    {
        if index > 0 {
            match tree {
                Expr::Sin(a) => Expr::lemma_replacing_with_own_subtree(*a, (index - 1) as nat),
                Expr::Cos(a) => Expr::lemma_replacing_with_own_subtree(*a, (index - 1) as nat),
                Expr::Neg(a) => Expr::lemma_replacing_with_own_subtree(*a, (index - 1) as nat),
                Expr::Add(a, b) => if index - 1 < a.size() {
                    Expr::lemma_replacing_with_own_subtree(*a, (index - 1) as nat);
                } else {
                    Expr::lemma_replacing_with_own_subtree(*b, (index - 1 - a.size()) as nat);
                },
                Expr::Sub(a, b) => if index - 1 < a.size() {
                    Expr::lemma_replacing_with_own_subtree(*a, (index - 1) as nat);
                } else {
                    Expr::lemma_replacing_with_own_subtree(*b, (index - 1 - a.size()) as nat);
                },
                Expr::Mul(a, b) => if index - 1 < a.size() {
                    Expr::lemma_replacing_with_own_subtree(*a, (index - 1) as nat);
                } else {
                    Expr::lemma_replacing_with_own_subtree(*b, (index - 1 - a.size()) as nat);
                },
                Expr::Hypot(a, b) => if index - 1 < a.size() {
                    Expr::lemma_replacing_with_own_subtree(*a, (index - 1) as nat);
                } else {
                    Expr::lemma_replacing_with_own_subtree(*b, (index - 1 - a.size()) as nat);
                },
                _ => {},
            }
        }
    }

    /// Replacing the subtree at a position changes the node count by the
    /// difference between the new subtree and the old one.
    pub proof fn lemma_replaced_size(tree: Expr, index: nat, node: Expr)
        requires
            index < tree.size(),
        ensures
            tree.replace(index, node).size() + tree.subtree(index).size() == tree.size()
                + node.size(),
        decreases tree,
    {
        if index > 0 {
            match tree {
                Expr::Sin(a) => Expr::lemma_replaced_size(*a, (index - 1) as nat, node),
                Expr::Cos(a) => Expr::lemma_replaced_size(*a, (index - 1) as nat, node),
                Expr::Neg(a) => Expr::lemma_replaced_size(*a, (index - 1) as nat, node),
                Expr::Add(a, b) => if index - 1 < a.size() {
                    Expr::lemma_replaced_size(*a, (index - 1) as nat, node);
                } else {
                    Expr::lemma_replaced_size(*b, (index - 1 - a.size()) as nat, node);
                },
                Expr::Sub(a, b) => if index - 1 < a.size() {
                    Expr::lemma_replaced_size(*a, (index - 1) as nat, node);
                } else {
                    Expr::lemma_replaced_size(*b, (index - 1 - a.size()) as nat, node);
                },
                Expr::Mul(a, b) => if index - 1 < a.size() {
                    Expr::lemma_replaced_size(*a, (index - 1) as nat, node);
                } else {
                    Expr::lemma_replaced_size(*b, (index - 1 - a.size()) as nat, node);
                },
                Expr::Hypot(a, b) => if index - 1 < a.size() {
                    Expr::lemma_replaced_size(*a, (index - 1) as nat, node);
                } else {
                    Expr::lemma_replaced_size(*b, (index - 1 - a.size()) as nat, node);
                },
                _ => {},
            }
        }
    }
}

} // verus!
