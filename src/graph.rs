//! A serialized e-graph as plain values: nodes with operator text and child
//! node indices, and classes with their names and member nodes.
use vstd::prelude::*;

verus! {

/// One e-node: its operator text, its children (node indices) and its class.
pub struct Node {
    pub op: String,
    pub children: Vec<usize>,
    pub eclass: usize,
}

/// An e-graph. Class `c` is named `class_names[c]` and holds the nodes listed
/// in `class_nodes[c]`.
pub struct Graph {
    pub nodes: Vec<Node>,
    pub class_names: Vec<String>,
    pub class_nodes: Vec<Vec<usize>>,
}

impl Graph {
    pub open spec fn num_classes(&self) -> int {
        self.class_names@.len() as int
    }

    pub open spec fn node(&self, i: int) -> Node {
        self.nodes@[i]
    }

    /// Every index points into the graph, every class holds at least one node,
    /// and no two classes share a name.
    pub open spec fn wf(&self) -> bool {
        &&& self.class_nodes@.len() == self.class_names@.len()
        &&& forall|i: int|
            0 <= i < self.nodes@.len() ==> #[trigger] self.nodes@[i].eclass < self.class_names@.len()
        &&& forall|i: int, k: int|
            0 <= i < self.nodes@.len() && 0 <= k < self.nodes@[i].children@.len()
                ==> #[trigger] self.nodes@[i].children@[k] < self.nodes@.len()
        &&& forall|c: int|
            0 <= c < self.class_nodes@.len() ==> #[trigger] self.class_nodes@[c]@.len() > 0
        &&& forall|c: int, k: int|
            0 <= c < self.class_nodes@.len() && 0 <= k < self.class_nodes@[c]@.len()
                ==> #[trigger] self.class_nodes@[c]@[k] < self.nodes@.len()
        &&& forall|c: int, d: int|
            0 <= c < d < self.class_names@.len() ==> #[trigger] self.class_names@[c]@
                != #[trigger] self.class_names@[d]@
    }

    /// A choice of one node for each class.
    pub open spec fn valid_choices(&self, choices: Seq<usize>) -> bool {
        &&& choices.len() == self.class_names@.len()
        &&& forall|c: int| 0 <= c < choices.len() ==> #[trigger] choices[c] < self.nodes@.len()
    }

    /// Checks the well-formedness conditions of [`Graph::wf`].
    pub fn is_well_formed(&self) -> (r: bool)
        ensures
            r == self.wf(),
    {
        let nc = self.class_names.len();
        let nn = self.nodes.len();
        if self.class_nodes.len() != nc {
            return false;
        }
        let mut i: usize = 0;
        while i < nn
            invariant
                nn == self.nodes@.len(),
                nc == self.class_names@.len(),
                i <= nn,
                forall|j: int| 0 <= j < i ==> #[trigger] self.nodes@[j].eclass < nc,
                forall|j: int, k: int|
                    0 <= j < i && 0 <= k < self.nodes@[j].children@.len()
                        ==> #[trigger] self.nodes@[j].children@[k] < nn,
            decreases nn - i,
        {
            let node = &self.nodes[i];
            if node.eclass >= nc {
                return false;
            }
            let mut k: usize = 0;
            while k < node.children.len()
                invariant
                    nn == self.nodes@.len(),
                    0 <= i < nn,
                    *node == self.nodes@[i as int],
                    k <= node.children@.len(),
                    forall|m: int| 0 <= m < k ==> #[trigger] node.children@[m] < nn,
                decreases node.children@.len() - k,
            {
                if node.children[k] >= nn {
                    return false;
                }
                k = k + 1;
            }
            i = i + 1;
        }
        let mut c: usize = 0;
        while c < nc
            invariant
                nn == self.nodes@.len(),
                nc == self.class_names@.len() == self.class_nodes@.len(),
                c <= nc,
                forall|d: int| 0 <= d < c ==> #[trigger] self.class_nodes@[d]@.len() > 0,
                forall|d: int, k: int|
                    0 <= d < c && 0 <= k < self.class_nodes@[d]@.len()
                        ==> #[trigger] self.class_nodes@[d]@[k] < nn,
                forall|d: int, e: int|
                    0 <= d < e < c ==> #[trigger] self.class_names@[d]@
                        != #[trigger] self.class_names@[e]@,
            decreases nc - c,
        {
            let members = &self.class_nodes[c];
            if members.len() == 0 {
                return false;
            }
            let mut k: usize = 0;
            while k < members.len()
                invariant
                    nn == self.nodes@.len(),
                    nc == self.class_nodes@.len(),
                    0 <= c < nc,
                    *members == self.class_nodes@[c as int],
                    k <= members@.len(),
                    forall|m: int| 0 <= m < k ==> #[trigger] members@[m] < nn,
                decreases members@.len() - k,
            {
                if members[k] >= nn {
                    return false;
                }
                k = k + 1;
            }
            let mut d: usize = 0;
            while d < c
                invariant
                    nc == self.class_names@.len(),
                    0 <= c < nc,
                    d <= c,
                    forall|e: int| 0 <= e < d ==> #[trigger] self.class_names@[e]@
                        != self.class_names@[c as int]@,
                decreases c - d,
            {
                if self.class_names[d] == self.class_names[c] {
                    return false;
                }
                d = d + 1;
            }
            c = c + 1;
        }
        true
    }

    /// Checks that `choices` picks a node index for each class.
    pub fn are_valid_choices(&self, choices: &Vec<usize>) -> (r: bool)
        ensures
            r == self.valid_choices(choices@),
    {
        if choices.len() != self.class_names.len() {
            return false;
        }
        let mut c: usize = 0;
        while c < choices.len()
            invariant
                c <= choices@.len(),
                forall|d: int| 0 <= d < c ==> #[trigger] choices@[d] < self.nodes@.len(),
            decreases choices@.len() - c,
        {
            if choices[c] >= self.nodes.len() {
                return false;
            }
            c = c + 1;
        }
        true
    }
}

/// Chooses, for every class, the first node that the class lists.
pub struct AnythingExtractor;

impl AnythingExtractor {
    pub fn extract(&self, egraph: &Graph, _roots: &[usize]) -> (r: Vec<usize>)
        requires
            egraph.wf(),
        ensures
            r@.len() == egraph.class_nodes@.len(),
            forall|c: int| 0 <= c < r@.len() ==> #[trigger] r@[c] == egraph.class_nodes@[c]@[0],
            egraph.valid_choices(r@),
    {
        let mut r: Vec<usize> = Vec::new();
        let mut c: usize = 0;
        while c < egraph.class_nodes.len()
            invariant
                egraph.wf(),
                c <= egraph.class_nodes@.len(),
                r@.len() == c,
                forall|d: int| 0 <= d < c ==> #[trigger] r@[d] == egraph.class_nodes@[d]@[0],
            decreases egraph.class_nodes@.len() - c,
        {
            r.push(egraph.class_nodes[c][0]);
            c = c + 1;
        }
        r
    }
}

} // verus!
