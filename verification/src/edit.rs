//! The document edits the editor's tools produce, in application order.
use vstd::prelude::*;
use crate::geom::{DrawShape, ShapeModel};

verus! {

/// One undoable change to a cell of the document.
#[derive(Clone, PartialEq, Eq, Debug)]
pub enum Edit {
    /// Append `shape` to the cell named `cell`.
    AddShape {
        /// The target cell's name.
        cell: String,
        /// The shape to append.
        shape: DrawShape,
    },
    /// Remove the shape at `index` from the cell named `cell`.
    RemoveShape {
        /// The target cell's name.
        cell: String,
        /// The index of the shape to remove.
        index: usize,
    },
}

/// An edit as plain values.
pub enum EditModel {
    /// Append a shape to a cell: `(cell, shape)`.
    AddShape(Seq<char>, ShapeModel),
    /// Remove a shape from a cell: `(cell, index)`.
    RemoveShape(Seq<char>, usize),
}

impl View for Edit {
    type V = EditModel;

    open spec fn view(&self) -> EditModel {
        match self {
            Edit::AddShape { cell, shape } => EditModel::AddShape(cell@, shape@),
            Edit::RemoveShape { cell, index } => EditModel::RemoveShape(cell@, *index),
        }
    }
}

} // verus!
