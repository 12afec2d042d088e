//! The labelled tree that a dump of the routes draws.

use vstd::prelude::*;

verus! {

/// A node of a dump as a mathematical value: a label and the trees below.
pub struct DumpView {
    pub label: Seq<char>,
    pub children: Seq<DumpView>,
}

/// A node of a dump: a label and the trees below it.
#[derive(Debug, PartialEq, Eq)]
pub struct DumpNode {
    pub label: String,
    pub children: Vec<DumpNode>,
}

impl DumpNode {
    /// The node as a mathematical value.
    pub open spec fn model(&self) -> DumpView
        decreases self, 1int,
    {
        DumpView { label: self.label@, children: forest_view(self.children@) }
    }
}

impl View for DumpNode {
    type V = DumpView;

    open spec fn view(&self) -> DumpView {
        self.model()
    }
}

/// A list of dump nodes as mathematical values.
pub open spec fn forest_view(nodes: Seq<DumpNode>) -> Seq<DumpView>
    decreases nodes, 0int,
{
    if nodes.len() == 0 {
        Seq::empty()
    } else {
        forest_view(nodes.drop_last()).push(nodes.last().model())
    }
}

/// The view of a list holds the view of each node, in the same place.
pub proof fn lemma_forest_view(nodes: Seq<DumpNode>)
    ensures
        forest_view(nodes).len() == nodes.len(),
        forall|i: int| 0 <= i < nodes.len() ==> #[trigger] forest_view(nodes)[i] == nodes[i].model(),
    decreases nodes.len(),
{
    if nodes.len() > 0 {
        lemma_forest_view(nodes.drop_last());
    }
}

} // verus!
