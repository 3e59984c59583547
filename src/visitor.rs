//! Traversal of the tree by node kind, read-only or mutating.
//!
//! Each method does nothing by default, so an implementation overrides only
//! what it needs. A traversal is pre-order and depth-first, and visits the
//! children of a node in document order; an implementation that recurses
//! into children does so from within its own methods.
use crate::node::{AtRule, Declaration, Root, Rule};
use vstd::prelude::*;

verus! {

/// A read-only visitor.
pub trait Visit {
    fn visit_root(&mut self, root: &Root) {
    }

    fn visit_rule(&mut self, rule: &Rule) {
    }

    fn visit_at_rule(&mut self, at_rule: &AtRule) {
    }

    fn visit_declaration(&mut self, decl: &Declaration) {
    }
}

/// A visitor that may edit the nodes in place. It does not reorder siblings
/// unless an implementation does so itself.
pub trait VisitMut {
    fn visit_root(&mut self, root: &mut Root) {
    }

    fn visit_rule(&mut self, rule: &mut Rule) {
    }

    fn visit_at_rule(&mut self, at_rule: &mut AtRule) {
    }

    fn visit_declaration(&mut self, decl: &mut Declaration) {
    }
}

} // verus!
