//! The section structure of a list of elements: every element after a title,
//! up to the next title, belongs to that title's section.

use vstd::prelude::*;
use crate::element::{views, Element, ElementView};

verus! {

/// The value of an element graph: for each element, its parent title, its
/// children, and whether it is a title.
pub struct GraphView {
    pub parents: Seq<Option<usize>>,
    pub children: Seq<Seq<usize>>,
    pub titles: Seq<bool>,
}

/// Parent, children and title links between the elements of a document.
pub struct ElementGraph {
    parents: Vec<Option<usize>>,
    children: Vec<Vec<usize>>,
    titles: Vec<bool>,
}

/// The children lists of a graph.
pub open spec fn children_view(children: Seq<Vec<usize>>) -> Seq<Seq<usize>> {
    children.map_values(|v: Vec<usize>| v@)
}

/// The graph state after the elements `es`: parents, children, whether each
/// is a title, and the title whose section is open.
pub open spec fn graph_fold(es: Seq<ElementView>) -> (
    Seq<Option<usize>>,
    Seq<Seq<usize>>,
    Seq<bool>,
    Option<usize>,
)
    decreases es.len(),
{
    if es.len() == 0 {
        (Seq::empty(), Seq::empty(), Seq::empty(), None)
    } else {
        let st = graph_fold(es.drop_last());
        let i = (es.len() - 1) as usize;
        if es.last() is Title {
            (st.0.push(None), st.1.push(Seq::empty()), st.2.push(true), Some(i))
        } else {
            let children = match st.3 {
                Some(t) => st.1.update(t as int, st.1[t as int].push(i)).push(Seq::empty()),
                None => st.1.push(Seq::empty()),
            };
            (st.0.push(st.3), children, st.2.push(false), st.3)
        }
    }
}

/// The graph of `es`: a title opens a section that every following element
/// up to the next title belongs to.
pub open spec fn graph_of(es: Seq<ElementView>) -> GraphView {
    let st = graph_fold(es);
    GraphView { parents: st.0, children: st.1, titles: st.2 }
}

/// The titles among the first `n` nodes that have no parent, in order.
pub open spec fn top_sections(g: GraphView, n: int) -> Seq<usize>
    decreases n,
{
    if n <= 0 {
        Seq::empty()
    } else if g.titles[n - 1] && g.parents[n - 1] is None {
        top_sections(g, n - 1).push((n - 1) as usize)
    } else {
        top_sections(g, n - 1)
    }
}

/// Every top-level section among the first `n` nodes is one of them.
pub proof fn lemma_top_sections_in_range(g: GraphView, n: int)
    requires
        n <= usize::MAX,
    ensures
        forall|k: int| 0 <= k < top_sections(g, n).len() ==> #[trigger] top_sections(g, n)[k] < n,
    decreases n,
{
    if n > 0 {
        lemma_top_sections_in_range(g, n - 1);
        let t = top_sections(g, n - 1);
        assert forall|k: int| 0 <= k < top_sections(g, n).len() implies #[trigger] top_sections(
            g,
            n,
        )[k] < n by {
            if k < t.len() {
                assert(top_sections(g, n)[k] == t[k]);
            }
        }
    }
}

impl ElementGraph {
    /// Node counts agree and every link points at a node.
    pub closed spec fn wf(&self) -> bool {
        &&& self.parents@.len() == self.children@.len()
        &&& self.titles@.len() == self.children@.len()
        &&& forall|i: int|
            0 <= i < self.parents@.len() && (#[trigger] self.parents@[i]) is Some
                ==> self.parents@[i]->0 < self.parents@.len()
        &&& forall|i: int, j: int|
            0 <= i < self.children@.len() && 0 <= j < self.children@[i]@.len()
                ==> #[trigger] self.children@[i]@[j] < self.children@.len()
    }

    /// The value of the graph.
    pub closed spec fn view(&self) -> GraphView {
        GraphView {
            parents: self.parents@,
            children: children_view(self.children@),
            titles: self.titles@,
        }
    }

    /// The number of nodes.
    pub closed spec fn node_count(&self) -> nat {
        self.parents@.len()
    }

    /// Every link of the graph points at one of its nodes.
    pub proof fn lemma_links_in_range(&self)
        requires
            self.wf(),
        ensures
            self.view().parents.len() == self.node_count(),
            self.view().children.len() == self.node_count(),
            self.view().titles.len() == self.node_count(),
            self.node_count() <= usize::MAX,
            forall|i: int, j: int|
                0 <= i < self.node_count() && 0 <= j < self.view().children[i].len()
                    ==> #[trigger] self.view().children[i][j] < self.node_count(),
    {
        assert(self.parents.len() == self.parents@.len());
        assert forall|i: int, j: int|
            0 <= i < self.node_count() && 0 <= j < self.view().children[i].len()
                implies #[trigger] self.view().children[i][j] < self.node_count() by {
            assert(self.view().children[i] == self.children@[i]@);
        }
    }

    /// The graph of `elements`.
    pub fn build(elements: &[Element]) -> (g: ElementGraph)
        ensures
            g.view() == graph_of(views(elements@)),
            g.node_count() == elements@.len(),
            g.wf(),
    {
        let ghost es = views(elements@);
        let mut parents: Vec<Option<usize>> = Vec::new();
        let mut children: Vec<Vec<usize>> = Vec::new();
        let mut titles: Vec<bool> = Vec::new();
        let mut current: Option<usize> = None;
        for i in 0..elements.len()
            invariant
                es == views(elements@),
                (parents@, children_view(children@), titles@, current) == graph_fold(
                    es.take(i as int),
                ),
                parents@.len() == i,
                children@.len() == i,
                titles@.len() == i,
                current matches Some(t) ==> t < i,
                forall|k: int| 0 <= k < i && (#[trigger] parents@[k]) is Some ==> parents@[k]->0 < i,
                forall|k: int, j: int|
                    0 <= k < i && 0 <= j < children@[k]@.len() ==> #[trigger] children@[k]@[j] < i,
        {
            proof {
                assert(es.take(i + 1).drop_last() =~= es.take(i as int));
                assert(es.take(i + 1).last() == es[i as int]);
            }
            let ghost c0 = children@;
            if matches!(elements[i], Element::Title(_)) {
                parents.push(None);
                children.push(Vec::new());
                titles.push(true);
                current = Some(i);
                proof {
                    assert(children_view(children@) =~= children_view(c0).push(Seq::empty()));
                }
            } else {
                parents.push(current);
                titles.push(false);
                match current {
                    Some(t) => {
                        let mut kids: Vec<usize> = Vec::new();
                        std::mem::swap(&mut kids, &mut children[t]);
                        kids.push(i);
                        let ghost k1 = kids@;
                        children.set(t, kids);
                        children.push(Vec::new());
                        proof {
                            assert(k1 =~= c0[t as int]@.push(i));
                            assert(children_view(children@) =~= children_view(c0).update(
                                t as int,
                                children_view(c0)[t as int].push(i),
                            ).push(Seq::empty()));
                        }
                    },
                    None => {
                        children.push(Vec::new());
                        proof {
                            assert(children_view(children@) =~= children_view(c0).push(
                                Seq::empty(),
                            ));
                        }
                    },
                }
            }
            proof {
                assert forall|k: int, j: int|
                    0 <= k < i + 1 && 0 <= j < children@[k]@.len() implies #[trigger] children@[k]@[j]
                    < i + 1 by {
                    if k < i && !(current matches Some(t) && k == t) {
                        assert(children@[k] == c0[k]);
                    }
                }
            }
        }
        assert(es.take(elements.len() as int) =~= es);
        ElementGraph { parents, children, titles }
    }

    /// The titles that have no parent, in order.
    pub fn top_level_sections(&self) -> (r: Vec<usize>)
        requires
            self.wf(),
        ensures
            r@ == top_sections(self.view(), self.node_count() as int),
    {
        let mut r: Vec<usize> = Vec::new();
        for i in 0..self.parents.len()
            invariant
                self.wf(),
                r@ == top_sections(self.view(), i as int),
        {
            if self.titles[i] && self.parents[i].is_none() {
                r.push(i);
            }
        }
        r
    }

    /// The children of node `idx`, in order; none when there is no such
    /// node.
    pub fn elements_in_section(&self, idx: usize) -> (r: Vec<usize>)
        requires
            self.wf(),
        ensures
            idx < self.node_count() ==> r@ == self.view().children[idx as int],
            idx >= self.node_count() ==> r@.len() == 0,
    {
        if idx < self.children.len() {
            self.children[idx].clone()
        } else {
            Vec::new()
        }
    }

    /// The parent of node `idx`, if any.
    pub fn parent_of(&self, idx: usize) -> (r: Option<usize>)
        requires
            self.wf(),
        ensures
            idx < self.node_count() ==> r == self.view().parents[idx as int],
            idx >= self.node_count() ==> r is None,
    {
        if idx < self.parents.len() {
            self.parents[idx]
        } else {
            None
        }
    }
}

} // verus!
