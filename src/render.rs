use vstd::prelude::*;

use crate::content::{caches_unique, ids_unique, scan_document, find_by_id, find_node, index_spec, job_view, nodes_view, poll_spec, reconcile_spec, Content, Crop, Job, JobView, Node, NodeDim, NodeModel};
use crate::scan::{add_sat, sat_add};
use crate::scan::{header_lines, scan_regions};
use crate::error::Error;
use crate::node_view::{classify_spec, range_ok, NodeView};

verus! {

/// Viewport state supplied by the host, replaced wholesale on each update.
#[derive(Debug, Clone, Copy)]
pub struct Metadata {
    /// First and last document line in the window.
    pub file_range: (u64, u64),
    /// Window size; the first component is the number of rows.
    pub viewport: (u64, u64),
    pub cursor: u64,
    /// Screen position (row, column) of the window's top left corner.
    pub winpos: (usize, usize),
    /// Height of a character cell in pixels.
    pub char_height: usize,
}

impl Metadata {
    pub fn new() -> (r: Metadata)
        ensures
            r.file_range == (1u64, 1u64),
            r.viewport == (1u64, 1u64),
            r.cursor == 1,
            r.winpos == (1usize, 1usize),
            r.char_height == 0,
    {
        Metadata { file_range: (1, 1), viewport: (1, 1), cursor: 1, winpos: (1, 1), char_height: 0 }
    }
}

} // verus!

verus! {

/// Whether a fold is open or folded up to an end line.
#[derive(PartialEq, Eq, Structural, Clone, Copy, Debug)]
pub enum FoldState {
    Folded(usize),
    Open,
}

/// A collapsible section anchored at a header line.
#[derive(PartialEq, Eq, Structural, Clone, Copy, Debug)]
pub struct Fold {
    pub line: usize,
    pub state: FoldState,
}

/// An entry of the ordered index: a fold, or a node by identity with the
/// view it was last drawn with.
pub enum FoldInner {
    Fold(Fold),
    Node((CodeId, NodeView)),
}

/// Identity of a node: the first hex digits of its content's digest.
pub type CodeId = String;

/// An index entry with the identity as its characters.
pub ghost enum EntryView {
    Fold(Fold),
    Node(Seq<char>, NodeView),
}

impl View for FoldInner {
    type V = EntryView;

    open spec fn view(&self) -> EntryView {
        match self {
            FoldInner::Fold(f) => EntryView::Fold(*f),
            FoldInner::Node((id, v)) => EntryView::Node(id@, *v),
        }
    }
}

/// Entries strictly ordered by line.
pub open spec fn index_sorted(v: Seq<(usize, FoldInner)>) -> bool {
    forall|i: int, j: int| 0 <= i < j < v.len() ==> v[i].0 < v[j].0
}

/// The index as a map from line to entry.
pub open spec fn index_map(v: Seq<(usize, FoldInner)>) -> Map<usize, EntryView>
    decreases v.len(),
{
    if v.len() == 0 {
        Map::empty()
    } else {
        index_map(v.drop_last()).insert(v.last().0, v.last().1@)
    }
}

pub proof fn lemma_index_map(v: Seq<(usize, FoldInner)>)
    requires
        index_sorted(v),
    ensures
        forall|k: usize|
            index_map(v).contains_key(k) <==> exists|i: int| 0 <= i < v.len() && v[i].0 == k,
        forall|i: int| 0 <= i < v.len() ==> index_map(v)[v[i].0] == v[i].1@,
    decreases v.len(),
{
    if v.len() > 0 {
        let w = v.drop_last();
        lemma_index_map(w);
        assert forall|k: usize| index_map(v).contains_key(k) implies exists|i: int|
            0 <= i < v.len() && v[i].0 == k by {
            if k != v.last().0 {
                assert(index_map(w).contains_key(k));
                let i = choose|i: int| 0 <= i < w.len() && w[i].0 == k;
                assert(w[i] == v[i]);
                assert(v[i].0 == k);
            } else {
                assert(v[v.len() - 1].0 == k);
            }
        }
        assert forall|k: usize| (exists|i: int| 0 <= i < v.len() && v[i].0 == k) implies index_map(
            v,
        ).contains_key(k) by {
            let i = choose|i: int| 0 <= i < v.len() && v[i].0 == k;
            if i < v.len() - 1 {
                assert(w[i] == v[i]);
                assert(w[i].0 == k);
            }
        }
        assert forall|i: int| 0 <= i < v.len() implies index_map(v)[v[i].0] == v[i].1@ by {
            if i < v.len() - 1 {
                assert(w[i] == v[i]);
                assert(v[i].0 < v.last().0);
            }
        }
    }
}

/// Puts `e` at `line` into the index, in place of an entry already there.
pub fn index_insert(v: &mut Vec<(usize, FoldInner)>, line: usize, e: FoldInner)
    requires
        index_sorted(old(v)@),
    ensures
        index_sorted(final(v)@),
        index_map(final(v)@) == index_map(old(v)@).insert(line, e@),
{
    let ghost ev = e@;
    let ghost pre = v@;
    let mut i = v.len();
    while i > 0 && v[i - 1].0 > line
        invariant
            i <= v.len(),
            v@ == pre,
            forall|j: int| i <= j < v.len() ==> v[j].0 > line,
        decreases i,
    {
        i = i - 1;
    }
    proof {
        lemma_index_map(pre);
    }
    if i > 0 && v[i - 1].0 == line {
        v.set(i - 1, (line, e));
        proof {
            assert forall|a: int, b: int| 0 <= a < b < v@.len() implies v@[a].0 < v@[b].0 by {
                assert(pre[a].0 < pre[b].0);
            }
            lemma_index_map(v@);
            assert forall|k: usize| index_map(v@).contains_key(k) == index_map(pre).insert(line, ev).contains_key(k) by {
                if k == line {
                    assert(v@[i - 1].0 == k);
                }
                if exists|j: int| 0 <= j < v@.len() && v@[j].0 == k {
                    let j = choose|j: int| 0 <= j < v@.len() && v@[j].0 == k;
                    if j != i - 1 {
                        assert(pre[j].0 == k);
                    }
                }
                if exists|j: int| 0 <= j < pre.len() && pre[j].0 == k {
                    let j = choose|j: int| 0 <= j < pre.len() && pre[j].0 == k;
                    assert(v@[j].0 == k);
                }
            }
            assert forall|k: usize| #[trigger] index_map(v@).contains_key(k) implies index_map(v@)[k]
                == index_map(pre).insert(line, ev)[k] by {
                let j = choose|j: int| 0 <= j < v@.len() && v@[j].0 == k;
                if j != i - 1 {
                    assert(pre[j] == v@[j]);
                }
            }
            assert(index_map(v@) =~= index_map(pre).insert(line, ev));
        }
    } else {
        v.insert(i, (line, e));
        proof {
            assert forall|a: int, b: int| 0 <= a < b < v@.len() implies v@[a].0 < v@[b].0 by {
                if a < i as int && b > i as int {
                    assert(pre[a].0 < pre[b - 1].0 || pre[a].0 <= line);
                }
            }
            lemma_index_map(v@);
            assert forall|k: usize| index_map(v@).contains_key(k) == index_map(pre).insert(line, ev).contains_key(k) by {
                if k == line {
                    assert(v@[i as int].0 == k);
                }
                if exists|j: int| 0 <= j < v@.len() && v@[j].0 == k {
                    let j = choose|j: int| 0 <= j < v@.len() && v@[j].0 == k;
                    if j < i {
                        assert(pre[j].0 == k);
                    } else if j > i {
                        assert(pre[j - 1].0 == k);
                    }
                }
                if exists|j: int| 0 <= j < pre.len() && pre[j].0 == k {
                    let j = choose|j: int| 0 <= j < pre.len() && pre[j].0 == k;
                    if j < i {
                        assert(v@[j].0 == k);
                    } else {
                        assert(v@[j + 1].0 == k);
                    }
                }
            }
            assert forall|k: usize| #[trigger] index_map(v@).contains_key(k) implies index_map(v@)[k]
                == index_map(pre).insert(line, ev)[k] by {
                let j = choose|j: int| 0 <= j < v@.len() && v@[j].0 == k;
                if j < i {
                    assert(pre[j] == v@[j]);
                } else if j > i {
                    assert(pre[j - 1] == v@[j]);
                }
            }
            assert(index_map(v@) =~= index_map(pre).insert(line, ev));
        }
    }
}

} // verus!

verus! {

/// The index as a sequence of lines and entry views.
pub open spec fn index_view(v: Seq<(usize, FoldInner)>) -> Seq<(usize, EntryView)> {
    v.map_values(|x: (usize, FoldInner)| (x.0, x.1@))
}

/// The lines of the fold entries of an index, in order.
pub open spec fn fold_lines(ix: Seq<(usize, EntryView)>) -> Seq<usize>
    decreases ix.len(),
{
    if ix.len() == 0 {
        Seq::empty()
    } else {
        let rest = fold_lines(ix.drop_last());
        match ix.last().1 {
            EntryView::Fold(_) => rest.push(ix.last().0),
            EntryView::Node(_, _) => rest,
        }
    }
}

/// The state that a fold command gives: a negative end line means open.
pub open spec fn command_state(end: isize) -> FoldState {
    if end < 0 {
        FoldState::Open
    } else {
        FoldState::Folded(end as usize)
    }
}

/// The state of a pass of fold commands over the index.
pub ghost struct FoldPass {
    pub index: Seq<(usize, EntryView)>,
    /// Commands used so far.
    pub used: int,
    /// End of the body of the last fold that was closed by this pass.
    pub closing: Option<usize>,
    pub changed: bool,
}

/// One entry of the pass: a fold takes the next command, and a fold that
/// was open and is now closed marks its body, up to and including its end
/// line (where such folds nest, up to the largest end); a node inside such
/// a body is made hidden, so that it is drawn anew when it comes back into
/// view.
pub open spec fn fold_step(p: FoldPass, i: int, cmds: Seq<(usize, isize)>) -> FoldPass {
    let (line, e) = p.index[i];
    let closing = match p.closing {
        Some(t) => if t < line {
            None
        } else {
            Some(t)
        },
        None => None,
    };
    match e {
        EntryView::Fold(f) => {
            let end = cmds[p.used].1;
            let ns = command_state(end);
            FoldPass {
                index: p.index.update(i, (line, EntryView::Fold(Fold { line: f.line, state: ns }))),
                used: p.used + 1,
                closing: if end >= 0 && f.state == FoldState::Open {
                    match closing {
                        Some(t) => if t > end as usize {
                            Some(t)
                        } else {
                            Some(end as usize)
                        },
                        None => Some(end as usize),
                    }
                } else {
                    closing
                },
                changed: p.changed || f.state != ns,
            }
        },
        EntryView::Node(id, _) => {
            let hide = match closing {
                Some(t) => line <= t,
                None => false,
            };
            FoldPass {
                index: if hide {
                    p.index.update(i, (line, EntryView::Node(id, NodeView::Hidden)))
                } else {
                    p.index
                },
                closing,
                ..p
            }
        },
    }
}

pub open spec fn fold_pass(ix: Seq<(usize, EntryView)>, cmds: Seq<(usize, isize)>, n: int) -> FoldPass
    decreases n,
{
    if n <= 0 {
        FoldPass { index: ix, used: 0, closing: None, changed: false }
    } else {
        fold_step(fold_pass(ix, cmds, n - 1), n - 1, cmds)
    }
}

/// Result of a content update: whether to redraw, and the header lines.
pub struct RedrawState {
    pub should_redraw: bool,
    pub update_folding: Option<Vec<usize>>,
}

} // verus!

verus! {

pub proof fn lemma_fold_lines_prefix(ix: Seq<(usize, EntryView)>, i: int)
    requires
        0 <= i < ix.len(),
    ensures
        fold_lines(ix.subrange(0, i + 1)) == match ix[i].1 {
            EntryView::Fold(_) => fold_lines(ix.subrange(0, i)).push(ix[i].0),
            EntryView::Node(_, _) => fold_lines(ix.subrange(0, i)),
        },
{
    assert(ix.subrange(0, i + 1).drop_last() =~= ix.subrange(0, i));
}

pub proof fn lemma_fold_lines_grow(ix: Seq<(usize, EntryView)>, i: int, j: int)
    requires
        0 <= i <= j <= ix.len(),
    ensures
        fold_lines(ix.subrange(0, i)).len() <= fold_lines(ix.subrange(0, j)).len(),
        i < j && ix[i].1 is Fold ==> fold_lines(ix.subrange(0, i)).len() < fold_lines(
            ix.subrange(0, j),
        ).len(),
    decreases j - i,
{
    if i < j {
        lemma_fold_lines_grow(ix, i + 1, j);
        lemma_fold_lines_prefix(ix, i);
    }
}

/// The rendering engine: nodes, ordered index, viewport and scanner.
pub struct Render<A> {
    pub blocks: Vec<Node<A>>,
    pub strcts: Vec<(usize, FoldInner)>,
    pub metadata: Metadata,
    pub content: Content,
}

impl<A> Render<A> {
    /// Whether the engine's parts fit together: the index is ordered by
    /// line, no two nodes share an identity, no cache holds a geometry
    /// twice, and every node's range has a countable height.
    pub open spec fn wf(&self) -> bool {
        &&& index_sorted(self.strcts@)
        &&& ids_unique(nodes_view(self.blocks@))
        &&& caches_unique(nodes_view(self.blocks@))
        &&& forall|i: int| 0 <= i < self.blocks.len() ==> range_ok(#[trigger] self.blocks[i].range)
    }

    pub fn new() -> (r: Render<A>)
        ensures
            r.wf(),
            r.blocks@.len() == 0,
            r.strcts@.len() == 0,
    {
        Render {
            blocks: Vec::new(),
            strcts: Vec::new(),
            metadata: Metadata::new(),
            content: Content::new(),
        }
    }

    /// Marks every node entry of the index as hidden, so that the next draw
    /// renders every node in view anew.
    pub fn clear_all(&mut self)
        requires
            old(self).wf(),
        ensures
            final(self).wf(),
            final(self).blocks == old(self).blocks,
            final(self).metadata == old(self).metadata,
            index_view(final(self).strcts@) == all_hidden(index_view(old(self).strcts@)),
    {
        let ghost ix = index_view(self.strcts@);
        let mut i: usize = 0;
        while i < self.strcts.len()
            invariant
                old(self).wf(),
                self.blocks == old(self).blocks,
                self.metadata == old(self).metadata,
                i <= self.strcts.len(),
                self.strcts.len() == ix.len(),
                ix == index_view(old(self).strcts@),
                forall|j: int| 0 <= j < ix.len() ==> (#[trigger] self.strcts@[j]).0 == ix[j].0,
                forall|j: int| 0 <= j < i ==> index_view(self.strcts@)[j] == all_hidden(ix)[j],
                forall|j: int| i <= j < ix.len() ==> index_view(self.strcts@)[j] == ix[j],
            decreases ix.len() - i,
        {
            let line = self.strcts[i].0;
            let id = match &self.strcts[i].1 {
                FoldInner::Node((id, _)) => Some(id.clone()),
                FoldInner::Fold(_) => None,
            };
            if let Some(id) = id {
                self.strcts.set(i, (line, FoldInner::Node((id, NodeView::Hidden))));
            }
            i = i + 1;
        }
        assert(index_view(self.strcts@) =~= all_hidden(ix));
        assert(index_sorted(self.strcts@)) by {
            assert forall|a: int, b: int| 0 <= a < b < self.strcts@.len() implies self.strcts@[a].0
                < self.strcts@[b].0 by {
                assert(old(self).strcts@[a].0 < old(self).strcts@[b].0);
            }
        }
    }

    /// Applies fold commands, one for each fold of the index in order: the
    /// anchor line and the end line (negative: open). Returns whether any
    /// fold changed. Commands that do not match the folds leave the engine
    /// as it was and are an error.
    pub fn set_folds(&mut self, folds: &Vec<(usize, isize)>) -> (r: Result<bool, Error>)
        requires
            old(self).wf(),
        ensures
            final(self).wf(),
            final(self).blocks == old(self).blocks,
            final(self).metadata == old(self).metadata,
            fold_lines(index_view(old(self).strcts@)) != folds@.map_values(
                |c: (usize, isize)| c.0,
            ) ==> r is Err && final(self).strcts@ == old(self).strcts@,
            fold_lines(index_view(old(self).strcts@)) == folds@.map_values(
                |c: (usize, isize)| c.0,
            ) ==> r is Ok && {
                let p = fold_pass(
                    index_view(old(self).strcts@),
                    folds@,
                    old(self).strcts@.len() as int,
                );
                &&& index_view(final(self).strcts@) == p.index
                &&& r->Ok_0 == p.changed
            },
    {
        let ghost ix = index_view(self.strcts@);
        let ghost anchors = folds@.map_values(|c: (usize, isize)| c.0);
        // check that the commands match the folds
        let mut k: usize = 0;
        let mut i: usize = 0;
        assert(ix.subrange(0, 0) =~= Seq::<(usize, EntryView)>::empty());
        while i < self.strcts.len()
            invariant
                old(self).wf(),
                self.strcts == old(self).strcts,
                self.blocks == old(self).blocks,
                self.metadata == old(self).metadata,
                ix == index_view(self.strcts@),
                i <= self.strcts.len(),
                k <= folds.len(),
                anchors == folds@.map_values(|c: (usize, isize)| c.0),
                fold_lines(ix.subrange(0, i as int)) == anchors.subrange(0, k as int),
            decreases self.strcts.len() - i,
        {
            proof {
                lemma_fold_lines_prefix(ix, i as int);
            }
            let line = self.strcts[i].0;
            if let FoldInner::Fold(_) = &self.strcts[i].1 {
                if k >= folds.len() || folds[k].0 != line {
                    proof {
                        if fold_lines(ix) == anchors {
                            lemma_fold_lines_grow(ix, i as int, ix.len() as int);
                            lemma_fold_lines_grow(ix, i as int + 1, ix.len() as int);
                            assert(ix.subrange(0, ix.len() as int) =~= ix);
                            let pre = fold_lines(ix.subrange(0, i as int + 1));
                            assert(pre[k as int] == fold_lines(ix)[k as int]) by {
                                lemma_fold_lines_prefix_of(ix, i as int + 1, ix.len() as int);
                            }
                        }
                    }
                    return Err(Error::FoldMismatch(line));
                }
                assert(anchors.subrange(0, k + 1) =~= anchors.subrange(0, k as int).push(line));
                k = k + 1;
            }
            i = i + 1;
        }
        assert(ix.subrange(0, ix.len() as int) =~= ix);
        if k != folds.len() {
            proof {
                assert(fold_lines(ix).len() != anchors.len());
            }
            return Err(Error::FoldMismatch(0));
        }
        assert(anchors.subrange(0, k as int) =~= anchors);
        // apply them
        let mut changed = false;
        let mut closing: Option<usize> = None;
        let mut used: usize = 0;
        let mut i: usize = 0;
        while i < self.strcts.len()
            invariant
                old(self).wf(),
                self.blocks == old(self).blocks,
                self.metadata == old(self).metadata,
                ix == index_view(old(self).strcts@),
                fold_lines(ix) == anchors,
                anchors == folds@.map_values(|c: (usize, isize)| c.0),
                i <= self.strcts.len(),
                self.strcts.len() == ix.len(),
                forall|j: int| i <= j < ix.len() ==> index_view(self.strcts@)[j] == ix[j],
                forall|j: int| 0 <= j < ix.len() ==> (#[trigger] self.strcts@[j]).0 == ix[j].0,
                used == fold_lines(ix.subrange(0, i as int)).len(),
                fold_pass(ix, folds@, i as int) == (FoldPass {
                    index: index_view(self.strcts@),
                    used: used as int,
                    closing,
                    changed,
                }),
            decreases ix.len() - i,
        {
            proof {
                lemma_fold_lines_prefix(ix, i as int);
                lemma_fold_lines_grow(ix, i as int, ix.len() as int);
                assert(ix.subrange(0, ix.len() as int) =~= ix);
                assert(anchors.len() == folds.len());
            }
            let line = self.strcts[i].0;
            match closing {
                Some(t) => if t < line {
                    closing = None;
                },
                None => {},
            }
            let entry = match &self.strcts[i].1 {
                FoldInner::Fold(f) => {
                    assert(ix[i as int].1 is Fold);
                    let end = folds[used].1;
                    let ns = if end < 0 {
                        FoldState::Open
                    } else {
                        FoldState::Folded(end as usize)
                    };
                    if end >= 0 && f.state == FoldState::Open {
                        closing = match closing {
                            Some(t) => if t > end as usize {
                                Some(t)
                            } else {
                                Some(end as usize)
                            },
                            None => Some(end as usize),
                        };
                    }
                    if f.state != ns {
                        changed = true;
                    }
                    used = used + 1;
                    Some(FoldInner::Fold(Fold { line: f.line, state: ns }))
                },
                FoldInner::Node((id, _)) => {
                    let hide = match closing {
                        Some(t) => line <= t,
                        None => false,
                    };
                    if hide {
                        Some(FoldInner::Node((id.clone(), NodeView::Hidden)))
                    } else {
                        None
                    }
                },
            };
            if let Some(e) = entry {
                self.strcts.set(i, (line, e));
            }
            proof {
                assert(index_view(self.strcts@) =~= fold_pass(ix, folds@, i + 1).index);
            }
            i = i + 1;
        }
        assert(index_sorted(self.strcts@)) by {
            assert forall|a: int, b: int| 0 <= a < b < self.strcts@.len() implies self.strcts@[a].0
                < self.strcts@[b].0 by {
                assert(old(self).strcts@[a].0 < old(self).strcts@[b].0);
            }
        }
        Ok(changed)
    }
}

impl<A> Render<A> {
    /// Replaces the viewport state. A change of the window size hides every
    /// node entry, so that the next draw renders all anew.
    pub fn update_metadata(&mut self, metadata: Metadata)
        requires
            old(self).wf(),
        ensures
            final(self).wf(),
            final(self).metadata == metadata,
            final(self).blocks == old(self).blocks,
            metadata.viewport != old(self).metadata.viewport ==> index_view(final(self).strcts@)
                == all_hidden(index_view(old(self).strcts@)),
            metadata.viewport == old(self).metadata.viewport ==> final(self).strcts
                == old(self).strcts,
    {
        if metadata.viewport.0 != self.metadata.viewport.0 || metadata.viewport.1
            != self.metadata.viewport.1 {
            self.clear_all();
        }
        self.metadata = metadata;
    }

    /// Scans the document anew and reconciles its regions with the current
    /// nodes. Returns whether any node was added, removed or moved, and the
    /// lines of the section headers. A fenced block of unknown kind is an
    /// error, and leaves the nodes and the index as they were.
    pub fn update_content(&mut self, content: &str) -> (r: Result<RedrawState, Error>)
        requires
            old(self).wf(),
            content@.len() < usize::MAX - 16,
        ensures
            final(self).wf(),
            final(self).metadata == old(self).metadata,
            match scan_regions(content@) {
                Err(n) => r matches Err(Error::UnknownFence(s)) && s@ == n && final(self).blocks
                    == old(self).blocks && final(self).strcts == old(self).strcts,
                Ok(rs) => r is Ok && {
                    let out = r->Ok_0;
                    let rec = reconcile_spec(rs, nodes_view(old(self).blocks@));
                    let folds = header_lines(content@, content@.len() as int);
                    &&& nodes_view(final(self).blocks@) == rec.0
                    &&& index_map(final(self).strcts@) == index_spec(folds, rs)
                    &&& out.should_redraw == (rec.2 || rec.1.len() > 0)
                    &&& out.update_folding matches Some(f) && f@ == folds
                },
            },
    {
        let (regions, folds) = match scan_document(content) {
            Ok(found) => found,
            Err(e) => return Err(e),
        };
        let mut old_blocks: Vec<Node<A>> = Vec::new();
        std::mem::swap(&mut self.blocks, &mut old_blocks);
        let (nodes, strcts, folds, any_changed) = self.content.reconcile(regions, folds, old_blocks);
        self.blocks = nodes;
        self.strcts = strcts;
        Ok(RedrawState { should_redraw: any_changed, update_folding: Some(folds) })
    }
}

/// The index with every node entry hidden.
pub open spec fn all_hidden(ix: Seq<(usize, EntryView)>) -> Seq<(usize, EntryView)> {
    ix.map_values(
        |x: (usize, EntryView)|
            match x.1 {
                EntryView::Node(id, _) => (x.0, EntryView::Node(id, NodeView::Hidden)),
                EntryView::Fold(f) => x,
            },
    )
}

pub proof fn lemma_fold_lines_prefix_of(ix: Seq<(usize, EntryView)>, i: int, j: int)
    requires
        0 <= i <= j <= ix.len(),
    ensures
        fold_lines(ix.subrange(0, i)).len() <= fold_lines(ix.subrange(0, j)).len(),
        forall|m: int|
            0 <= m < fold_lines(ix.subrange(0, i)).len() ==> fold_lines(ix.subrange(0, i))[m]
                == fold_lines(ix.subrange(0, j))[m],
    decreases j - i,
{
    if i < j {
        lemma_fold_lines_prefix_of(ix, i, j - 1);
        lemma_fold_lines_prefix(ix, j - 1);
    }
}

} // verus!

verus! {

/// `a * b`, or `usize::MAX` where that is larger.
pub open spec fn sat_mul(a: int, b: int) -> usize {
    if a * b <= usize::MAX {
        (a * b) as usize
    } else {
        usize::MAX
    }
}

fn mul_sat(a: usize, b: usize) -> (r: usize)
    ensures
        r == sat_mul(a as int, b as int),
{
    if b != 0 && a > usize::MAX / b {
        assert(a * b > usize::MAX) by (nonlinear_arith)
            requires
                b > 0,
                a > usize::MAX / b,
        ;
        usize::MAX
    } else {
        assert(a * b <= usize::MAX) by (nonlinear_arith)
            requires
                b == 0 || a <= usize::MAX / b,
        ;
        a * b
    }
}

/// The decimal digits of `n`, as ASCII bytes.
pub open spec fn decimal(n: nat) -> Seq<u8>
    decreases n,
{
    if n < 10 {
        seq![(48 + n) as u8]
    } else {
        decimal(n / 10).push((48 + n % 10) as u8)
    }
}

fn push_decimal(out: &mut Vec<u8>, n: usize)
    ensures
        final(out)@ == old(out)@ + decimal(n as nat),
    decreases n,
{
    if n >= 10 {
        push_decimal(out, n / 10);
    }
    out.push((48 + n % 10) as u8);
    assert(out@ =~= old(out)@ + decimal(n as nat));
}

/// What is written to the terminal to show `blob` with its top left corner
/// at screen row `row` and column `col`: save the cursor, move it, the
/// blob, restore the cursor.
pub open spec fn frame_bytes(row: nat, col: nat, blob: Seq<u8>) -> Seq<u8> {
    seq![27u8, 91u8, 115u8, 27u8, 91u8] + decimal(row) + seq![59u8] + decimal(col) + seq![72u8]
        + blob + seq![27u8, 91u8, 117u8]
}

fn frame(row: usize, col: usize, blob: Vec<u8>) -> (r: Vec<u8>)
    ensures
        r@ == frame_bytes(row as nat, col as nat, blob@),
{
    let mut out: Vec<u8> = vec![27u8, 91u8, 115u8, 27u8, 91u8];
    push_decimal(&mut out, row);
    out.push(59u8);
    push_decimal(&mut out, col);
    out.push(72u8);
    let mut i: usize = 0;
    let ghost head = out@;
    while i < blob.len()
        invariant
            i <= blob.len(),
            out@ == head + blob@.subrange(0, i as int),
        decreases blob.len() - i,
    {
        out.push(blob[i]);
        assert(blob@.subrange(0, i + 1) =~= blob@.subrange(0, i as int).push(blob@[i as int]));
        i = i + 1;
    }
    out.push(27u8);
    out.push(91u8);
    out.push(117u8);
    assert(blob@.subrange(0, blob.len() as int) =~= blob@);
    assert(out@ =~= frame_bytes(row as nat, col as nat, blob@));
    out
}

/// Number of lines of a node's range.
pub open spec fn node_height(range: (usize, usize)) -> int {
    range.1 - range.0 + 1
}

/// Whether going from view `old` to view `new` needs new pixels, and if so
/// the screen row (relative to the window) to draw at and the crop window
/// in pixels, with `ch` pixels per row. Reaching `Visible` from any other
/// view draws the whole node; entering the top or bottom edge from
/// `Hidden`, or showing strictly more of a node at that edge, draws a crop;
/// everything else draws nothing.
pub open spec fn transition(old: NodeView, new: NodeView, ch: int) -> Option<(usize, Option<Crop>)> {
    match (old, new) {
        (NodeView::Visible(_, _), NodeView::Visible(_, _)) => None,
        (_, NodeView::Visible(pos, _)) => Some((pos, None)),
        (NodeView::Hidden, NodeView::LowerBorder(pos, h)) => Some(
            (pos, Some(Crop { window: sat_mul(h as int, ch), offset: 0 })),
        ),
        (NodeView::LowerBorder(_, h_old), NodeView::LowerBorder(pos, h)) => if h_old < h {
            Some((pos, Some(Crop { window: sat_mul(h as int, ch), offset: 0 })))
        } else {
            None
        },
        (NodeView::Hidden, NodeView::UpperBorder(y, h)) => Some(
            (0, Some(Crop { window: sat_mul(h as int, ch), offset: sat_mul(y as int, ch) })),
        ),
        (NodeView::UpperBorder(y_old, _), NodeView::UpperBorder(y, h)) => if y < y_old {
            Some((0, Some(Crop { window: sat_mul(h as int, ch), offset: sat_mul(y as int, ch) })))
        } else {
            None
        },
        _ => None,
    }
}

fn transition_exec(old: NodeView, new: NodeView, ch: usize) -> (r: Option<(usize, Option<Crop>)>)
    ensures
        r == transition(old, new, ch as int),
{
    match (old, new) {
        (NodeView::Visible(_, _), NodeView::Visible(_, _)) => None,
        (_, NodeView::Visible(pos, _)) => Some((pos, None)),
        (NodeView::Hidden, NodeView::LowerBorder(pos, h)) => Some(
            (pos, Some(Crop { window: mul_sat(h, ch), offset: 0 })),
        ),
        (NodeView::LowerBorder(_, h_old), NodeView::LowerBorder(pos, h)) => if h_old < h {
            Some((pos, Some(Crop { window: mul_sat(h, ch), offset: 0 })))
        } else {
            None
        },
        (NodeView::Hidden, NodeView::UpperBorder(y, h)) => Some(
            (0, Some(Crop { window: mul_sat(h, ch), offset: mul_sat(y, ch) })),
        ),
        (NodeView::UpperBorder(y_old, _), NodeView::UpperBorder(y, h)) => if y < y_old {
            Some((0, Some(Crop { window: mul_sat(h, ch), offset: mul_sat(y, ch) })))
        } else {
            None
        },
        _ => None,
    }
}

/// The outcome of drawing one node.
pub ghost struct NodeDraw<A> {
    pub node: NodeModel<A>,
    /// The view to remember for the node's entry.
    pub view: NodeView,
    /// Bytes to write to the terminal.
    pub frame: Option<Seq<u8>>,
    pub job: Option<JobView<A>>,
    pub error: Option<Error>,
    /// Whether the pixels were not ready yet.
    pub pending: bool,
}

/// Draws node `n`, last drawn with view `old`, at `offset` rows below the
/// top of the window. Where the change of view needs pixels, the geometry
/// (the node's full height in pixels, and the crop) is requested: a ready
/// blob is framed at its screen position and the new view remembered; an
/// error is passed on and the old view kept; with nothing ready the old
/// view is kept and the draw is pending. Where no pixels are needed the new
/// view is remembered.
pub open spec fn draw_node_spec<A>(n: NodeModel<A>, old: NodeView, offset: int, md: Metadata) -> NodeDraw<A> {
    let new = classify_spec(n.range.0 as int, n.range.1 as int, md.viewport.0 as int, offset);
    match transition(old, new, md.char_height as int) {
        None => NodeDraw { node: n, view: new, frame: None, job: None, error: None, pending: false },
        Some((pos, crop)) => {
            let dim = NodeDim { height: sat_mul(node_height(n.range), md.char_height as int), crop };
            let (n2, ans, job) = poll_spec(n, dim);
            match ans {
                Some(Ok(b)) => NodeDraw {
                    node: n2,
                    view: new,
                    frame: Some(frame_bytes(sat_add(pos as int, md.winpos.0 as int) as nat, md.winpos.1 as nat, b)),
                    job,
                    error: None,
                    pending: false,
                },
                Some(Err(e)) => NodeDraw { node: n2, view: old, frame: None, job, error: Some(e), pending: false },
                None => NodeDraw { node: n2, view: old, frame: None, job, error: None, pending: true },
            }
        },
    }
}

/// The exec outcome of drawing one node.
pub struct Drawn<A> {
    pub view: NodeView,
    pub frame: Option<Vec<u8>>,
    pub job: Option<Job<A>>,
    pub error: Option<Error>,
    pub pending: bool,
}

pub open spec fn frame_view(f: Option<Vec<u8>>) -> Option<Seq<u8>> {
    match f {
        Some(b) => Some(b@),
        None => None,
    }
}

impl<A> Render<A> {
    /// Draws one node; see `draw_node_spec`.
    pub fn draw_node(metadata: &Metadata, node: &mut Node<A>, view: NodeView, top_offset: isize) -> (r: Drawn<A>)
        requires
            range_ok(old(node).range),
        ensures
            ({
                let d = draw_node_spec(old(node)@, view, top_offset as int, *metadata);
                &&& final(node)@ == d.node
                &&& r.view == d.view
                &&& frame_view(r.frame) == d.frame
                &&& job_view(r.job) == d.job
                &&& r.error == d.error
                &&& r.pending == d.pending
            }),
    {
        let new_view = NodeView::new(node, metadata, top_offset);
        let ch = metadata.char_height;
        match transition_exec(view, new_view, ch) {
            None => Drawn { view: new_view, frame: None, job: None, error: None, pending: false },
            Some((pos, crop)) => {
                let dim = NodeDim { height: mul_sat(node.range.1 - node.range.0 + 1, ch), crop };
                let (ans, job) = node.get_sixel(dim);
                match ans {
                    Some(Ok(b)) => {
                        let row = add_sat(pos, metadata.winpos.0);
                        Drawn { view: new_view, frame: Some(frame(row, metadata.winpos.1, b)), job, error: None, pending: false }
                    },
                    Some(Err(e)) => Drawn { view, frame: None, job, error: Some(e), pending: false },
                    None => Drawn { view, frame: None, job, error: None, pending: true },
                }
            },
        }
    }
}

} // verus!

verus! {

/// Whether the index entry at `line` overlaps the visible lines: a node
/// by the lines from `line` that its node's range spans, a fold by its
/// line. A node entry whose identity has no node is not.
pub open spec fn entry_in_view<A>(line: usize, e: EntryView, nodes: Seq<NodeModel<A>>, md: Metadata) -> bool {
    match e {
        EntryView::Node(id, _) => {
            let k = find_node(nodes, id);
            &&& k >= 0
            &&& line as int + (nodes[k].range.1 - nodes[k].range.0) >= md.file_range.0 as int
            &&& line as int <= md.file_range.1 as int
        },
        EntryView::Fold(f) => md.file_range.0 as int <= f.line as int <= md.file_range.1 as int,
    }
}

impl FoldInner {
    /// Whether the entry, standing at `line`, overlaps the visible lines of
    /// `metadata`.
    pub fn is_in_view<A>(&self, line: usize, metadata: &Metadata, blocks: &Vec<Node<A>>) -> (r: bool)
        ensures
            r == entry_in_view(line, self@, nodes_view(blocks@), *metadata),
    {
        match self {
            FoldInner::Node((id, _)) => match find_by_id(blocks, id) {
                Some(k) => {
                    let range = blocks[k].range;
                    line as i128 + (range.1 as i128 - range.0 as i128) >= metadata.file_range.0 as i128
                        && line as u64 <= metadata.file_range.1
                },
                None => false,
            },
            FoldInner::Fold(fold) => fold.line as u64 >= metadata.file_range.0 && fold.line as u64
                <= metadata.file_range.1,
        }
    }
}

/// `x`, held within the range of `isize`.
pub open spec fn clamp_isize(x: int) -> int {
    if x < isize::MIN {
        isize::MIN as int
    } else if x > isize::MAX {
        isize::MAX as int
    } else {
        x
    }
}

/// The state of the walk over the index: the last line passed, the offset
/// in rows of that line from the top of the window, and the end of the body
/// of a folded fold whose entries are being skipped.
pub ghost struct Walk {
    pub last: int,
    pub top: int,
    pub skip: Option<usize>,
}

/// One entry of the walk, and the offset at which a node entry is drawn.
/// Entries out of view are passed over. Within the body of a folded fold,
/// entries are skipped: they change nothing and are not drawn. A node
/// advances the offset by the lines from the last line to its entry's line;
/// a fold does the same to its header line, and a folded one then continues
/// from the end of its body.
pub open spec fn walk_step<A>(w: Walk, e: (usize, EntryView), nodes: Seq<NodeModel<A>>, md: Metadata) -> (
    Walk,
    Option<int>,
) {
    if !entry_in_view(e.0, e.1, nodes, md) {
        (w, None)
    } else if w.skip matches Some(s) && e.0 <= s {
        (w, None)
    } else {
        match e.1 {
            EntryView::Node(id, _) => {
                let start = e.0 as int;
                let top = clamp_isize(w.top + start - w.last);
                (Walk { last: start, top, skip: None }, Some(top))
            },
            EntryView::Fold(f) => {
                let top = clamp_isize(w.top + f.line - w.last);
                match f.state {
                    FoldState::Folded(end) => (Walk { last: end as int, top, skip: Some(end) }, None),
                    FoldState::Open => (Walk { last: f.line as int, top, skip: None }, None),
                }
            },
        }
    }
}

/// The walk after the first `n` entries, starting at the first visible line
/// with offset 0.
pub open spec fn walk<A>(ix: Seq<(usize, EntryView)>, nodes: Seq<NodeModel<A>>, md: Metadata, n: int) -> Walk
    decreases n,
{
    if n <= 0 {
        Walk { last: md.file_range.0 as int, top: 0, skip: None }
    } else {
        walk_step(walk(ix, nodes, md, n - 1), ix[n - 1], nodes, md).0
    }
}

/// The offset at which entry `i` is drawn, if it is.
pub open spec fn offset_at<A>(ix: Seq<(usize, EntryView)>, nodes: Seq<NodeModel<A>>, md: Metadata, i: int) -> Option<int> {
    walk_step(walk(ix, nodes, md, i), ix[i], nodes, md).1
}

/// The state of a draw pass.
pub ghost struct DrawModel<A> {
    pub nodes: Seq<NodeModel<A>>,
    pub index: Seq<(usize, EntryView)>,
    pub frames: Seq<Seq<u8>>,
    pub jobs: Seq<JobView<A>>,
    pub errors: Seq<Error>,
    pub pending: bool,
}

pub open spec fn push_some<T>(s: Seq<T>, x: Option<T>) -> Seq<T> {
    match x {
        Some(v) => s.push(v),
        None => s,
    }
}

/// One entry of a draw pass over index `ix0` of nodes `nodes0`: a node out
/// of view becomes hidden; a node drawn at an offset is drawn as
/// `draw_node_spec` says.
pub open spec fn draw_entry<A>(
    m: DrawModel<A>,
    i: int,
    ix0: Seq<(usize, EntryView)>,
    nodes0: Seq<NodeModel<A>>,
    md: Metadata,
) -> DrawModel<A> {
    let (line, e) = m.index[i];
    match e {
        EntryView::Fold(_) => m,
        EntryView::Node(id, old) => if !entry_in_view(line, e, nodes0, md) {
            DrawModel { index: m.index.update(i, (line, EntryView::Node(id, NodeView::Hidden))), ..m }
        } else {
            match offset_at(ix0, nodes0, md, i) {
                None => m,
                Some(o) => {
                    let k = find_node(m.nodes, id);
                    let d = draw_node_spec(m.nodes[k], old, o, md);
                    DrawModel {
                        nodes: m.nodes.update(k, d.node),
                        index: m.index.update(i, (line, EntryView::Node(id, d.view))),
                        frames: push_some(m.frames, d.frame),
                        jobs: push_some(m.jobs, d.job),
                        errors: push_some(m.errors, d.error),
                        pending: m.pending || d.pending,
                    }
                },
            }
        },
    }
}

/// A draw pass over the first `n` entries.
pub open spec fn draw_pass<A>(ix0: Seq<(usize, EntryView)>, nodes0: Seq<NodeModel<A>>, md: Metadata, n: int) -> DrawModel<A>
    decreases n,
{
    if n <= 0 {
        DrawModel {
            nodes: nodes0,
            index: ix0,
            frames: Seq::empty(),
            jobs: Seq::empty(),
            errors: Seq::empty(),
            pending: false,
        }
    } else {
        draw_entry(draw_pass(ix0, nodes0, md, n - 1), n - 1, ix0, nodes0, md)
    }
}

/// What a draw pass hands to the caller.
pub struct DrawOutput<A> {
    /// Bytes to write to the terminal, each as one uninterrupted write.
    pub frames: Vec<Vec<u8>>,
    /// Background work to start.
    pub jobs: Vec<Job<A>>,
    /// Failures of nodes, each reported once.
    pub errors: Vec<Error>,
    /// Whether some pixels were not ready: the caller should draw again.
    pub pending: bool,
}

pub open spec fn job_seq<A>(v: Seq<Job<A>>) -> Seq<JobView<A>> {
    v.map_values(|j: Job<A>| job_view(Some(j))->0)
}

pub open spec fn frames_seq(v: Seq<Vec<u8>>) -> Seq<Seq<u8>> {
    v.map_values(|b: Vec<u8>| b@)
}

pub proof fn lemma_find_node_ids<A>(s: Seq<NodeModel<A>>, t: Seq<NodeModel<A>>, id: Seq<char>)
    requires
        s.len() == t.len(),
        forall|j: int| 0 <= j < s.len() ==> s[j].id == t[j].id,
    ensures
        find_node(s, id) == find_node(t, id),
        -1 <= find_node(s, id) < s.len(),
        find_node(s, id) >= 0 ==> s[find_node(s, id)].id == id,
    decreases s.len(),
{
    if s.len() > 0 {
        lemma_find_node_ids(s.drop_last(), t.drop_last(), id);
    }
}

} // verus!

verus! {

fn clamp_to_isize(x: i128) -> (r: isize)
    ensures
        r as int == clamp_isize(x as int),
{
    if x < isize::MIN as i128 {
        isize::MIN
    } else if x > isize::MAX as i128 {
        isize::MAX
    } else {
        x as isize
    }
}

impl<A> Render<A> {
    /// One draw pass over the ordered index; see `draw_pass`. Every node
    /// entry out of view becomes hidden; the entries in view are walked in
    /// line order, skipping the bodies of folded folds, and each node is
    /// drawn at its offset from the top of the window.
    #[verifier::rlimit(50)]
    pub fn draw(&mut self) -> (r: DrawOutput<A>)
        requires
            old(self).wf(),
        ensures
            final(self).wf(),
            final(self).metadata == old(self).metadata,
            ({
                let m = draw_pass(
                    index_view(old(self).strcts@),
                    nodes_view(old(self).blocks@),
                    old(self).metadata,
                    old(self).strcts@.len() as int,
                );
                &&& nodes_view(final(self).blocks@) == m.nodes
                &&& index_view(final(self).strcts@) == m.index
                &&& frames_seq(r.frames@) == m.frames
                &&& job_seq(r.jobs@) == m.jobs
                &&& r.errors@ == m.errors
                &&& r.pending == m.pending
            }),
    {
        let ghost ix0 = index_view(self.strcts@);
        let ghost nodes0 = nodes_view(self.blocks@);
        let ghost md = self.metadata;
        let mut frames: Vec<Vec<u8>> = Vec::new();
        let mut jobs: Vec<Job<A>> = Vec::new();
        let mut errors: Vec<Error> = Vec::new();
        let mut pending = false;
        let mut last: i128 = self.metadata.file_range.0 as i128;
        let mut top: isize = 0;
        let mut skip: Option<usize> = None;
        let mut i: usize = 0;
        assert(frames_seq(frames@) =~= Seq::<Seq<u8>>::empty());
        assert(job_seq(jobs@) =~= Seq::<JobView<A>>::empty());
        assert(errors@ =~= Seq::<Error>::empty());
        while i < self.strcts.len()
            invariant
                old(self).wf(),
                ix0 == index_view(old(self).strcts@),
                nodes0 == nodes_view(old(self).blocks@),
                md == old(self).metadata,
                self.metadata == md,
                i <= self.strcts.len(),
                self.strcts.len() == ix0.len(),
                forall|j: int| 0 <= j < ix0.len() ==> (#[trigger] self.strcts@[j]).0 == ix0[j].0,
                forall|j: int| i <= j < ix0.len() ==> index_view(self.strcts@)[j] == ix0[j],
                self.blocks.len() == nodes0.len(),
                forall|j: int|
                    0 <= j < nodes0.len() ==> (#[trigger] self.blocks@[j]).id@ == nodes0[j].id
                        && self.blocks@[j].range == nodes0[j].range && self.blocks@[j]@.cache
                        == nodes0[j].cache,
                walk(ix0, nodes0, md, i as int) == (Walk { last: last as int, top: top as int, skip }),
                0 <= last,
                last <= u64::MAX,
                draw_pass(ix0, nodes0, md, i as int) == (DrawModel {
                    nodes: nodes_view(self.blocks@),
                    index: index_view(self.strcts@),
                    frames: frames_seq(frames@),
                    jobs: job_seq(jobs@),
                    errors: errors@,
                    pending,
                }),
            decreases ix0.len() - i,
        {
            let ghost m = draw_pass(ix0, nodes0, md, i as int);
            proof {
                assert forall|j: int| 0 <= j < nodes0.len() implies nodes_view(self.blocks@)[j].id
                    == nodes0[j].id by {}
            }
            let line = self.strcts[i].0;
            let in_view = self.strcts[i].1.is_in_view(line, &self.metadata, &self.blocks);
            proof {
                match ix0[i as int].1 {
                    EntryView::Node(id, _) => {
                        lemma_find_node_ids(nodes_view(self.blocks@), nodes0, id);
                    },
                    EntryView::Fold(_) => {},
                }
                assert(in_view == entry_in_view(line, ix0[i as int].1, nodes0, md));
            }
            // walk
            let mut off: Option<isize> = None;
            if in_view {
                let skipped = match skip {
                    Some(s) => line <= s,
                    None => false,
                };
                if !skipped {
                    match &self.strcts[i].1 {
                        FoldInner::Node((id, _)) => {
                            match find_by_id(&self.blocks, id) {
                                Some(_) => {
                                    let start = line;
                                    top = clamp_to_isize(top as i128 + start as i128 - last);
                                    last = start as i128;
                                    skip = None;
                                    off = Some(top);
                                },
                                None => {},
                            }
                        },
                        FoldInner::Fold(f) => {
                            top = clamp_to_isize(top as i128 + f.line as i128 - last);
                            match f.state {
                                FoldState::Folded(end) => {
                                    last = end as i128;
                                    skip = Some(end);
                                },
                                FoldState::Open => {
                                    last = f.line as i128;
                                    skip = None;
                                },
                            }
                        },
                    }
                }
            }
            assert(walk(ix0, nodes0, md, i + 1) == (Walk { last: last as int, top: top as int, skip }));
            assert(match off {
                Some(o) => offset_at(ix0, nodes0, md, i as int) == Some(o as int),
                None => offset_at(ix0, nodes0, md, i as int) is None,
            });
            // draw
            let node_entry = match &self.strcts[i].1 {
                FoldInner::Node((id, v)) => Some((id.clone(), *v)),
                FoldInner::Fold(_) => None,
            };
            match node_entry {
                Some((id, oldv)) => {
                    if !in_view {
                        self.strcts.set(i, (line, FoldInner::Node((id, NodeView::Hidden))));
                    } else {
                        match off {
                            Some(o) => {
                                match find_by_id(&self.blocks, &id) {
                                    Some(k) => {
                                        let ghost bv = nodes_view(self.blocks@);
                                        let mut node = self.blocks.remove(k);
                                        assert(node@ == bv[k as int]);
                                        let d = Self::draw_node(&self.metadata, &mut node, oldv, o);
                                        self.blocks.insert(k, node);
                                        assert(nodes_view(self.blocks@) =~= bv.update(k as int, node@));
                                        self.strcts.set(i, (line, FoldInner::Node((id, d.view))));
                                        match d.frame {
                                            Some(f) => {
                                                let ghost fs = frames_seq(frames@);
                                                frames.push(f);
                                                assert(frames_seq(frames@) =~= fs.push(f@));
                                            },
                                            None => {},
                                        }
                                        match d.job {
                                            Some(j) => {
                                                let ghost js = job_seq(jobs@);
                                                let ghost jv = job_view(Some(j))->0;
                                                jobs.push(j);
                                                assert(job_seq(jobs@) =~= js.push(jv));
                                            },
                                            None => {},
                                        }
                                        match d.error {
                                            Some(e) => {
                                                errors.push(e);
                                            },
                                            None => {},
                                        }
                                        pending = pending || d.pending;
                                    },
                                    None => {},
                                }
                            },
                            None => {},
                        }
                    }
                },
                None => {},
            }
            assert(index_view(self.strcts@) =~= draw_pass(ix0, nodes0, md, i + 1).index);
            i = i + 1;
        }
        assert(index_sorted(self.strcts@)) by {
            assert forall|a: int, b: int| 0 <= a < b < self.strcts@.len() implies self.strcts@[a].0
                < self.strcts@[b].0 by {
                assert(old(self).strcts@[a].0 < old(self).strcts@[b].0);
            }
        }
        assert forall|j: int| 0 <= j < self.blocks.len() implies range_ok(#[trigger] self.blocks[j].range) by {
            assert(old(self).blocks[j].range == nodes0[j].range);
        }
        DrawOutput { frames, jobs, errors, pending }
    }
}

} // verus!

verus! {

/// Scrolling a node into view across the top edge of the window (its
/// offset rising towards 0, in a window tall enough for the whole node):
/// each step from a hidden or partly shown view to one that shows more
/// needs new pixels, up to and including the step to fully visible.
pub proof fn lemma_scroll_in_from_top(range: (usize, usize), rows: u64, o1: int, o2: int, ch: int)
    requires
        range_ok(range),
        rows as int >= node_height(range),
        o1 < o2 <= 0,
        o2 > -node_height(range),
    ensures
        transition(
            classify_spec(range.0 as int, range.1 as int, rows as int, o1),
            classify_spec(range.0 as int, range.1 as int, rows as int, o2),
            ch,
        ) is Some,
{
}

/// Scrolling a node out of view across the top edge (its offset falling
/// from 0 or below): no step needs new pixels, whether the node still
/// shows in part or is hidden. (A window of no rows hides the node at
/// offset 0, so that the step after it enters anew.)
pub proof fn lemma_scroll_out_at_top(range: (usize, usize), rows: u64, o1: int, o2: int, ch: int)
    requires
        range_ok(range),
        rows > 0,
        o2 < o1 <= 0,
    ensures
        transition(
            classify_spec(range.0 as int, range.1 as int, rows as int, o1),
            classify_spec(range.0 as int, range.1 as int, rows as int, o2),
            ch,
        ) is None,
{
}

/// Scrolling a node into view across the bottom edge (its offset falling
/// towards 0): each step from a view that is not fully visible to one that
/// is not hidden needs new pixels.
pub proof fn lemma_scroll_in_from_bottom(range: (usize, usize), rows: u64, o1: int, o2: int, ch: int)
    requires
        range_ok(range),
        0 <= o2 < o1,
        o2 < rows,
        !(classify_spec(range.0 as int, range.1 as int, rows as int, o1) is Visible),
    ensures
        transition(
            classify_spec(range.0 as int, range.1 as int, rows as int, o1),
            classify_spec(range.0 as int, range.1 as int, rows as int, o2),
            ch,
        ) is Some,
{
}

/// Scrolling a node out of view across the bottom edge (its offset rising
/// from 0 or more): no step needs new pixels.
pub proof fn lemma_scroll_out_at_bottom(range: (usize, usize), rows: u64, o1: int, o2: int, ch: int)
    requires
        range_ok(range),
        0 <= o1 < o2,
    ensures
        transition(
            classify_spec(range.0 as int, range.1 as int, rows as int, o1),
            classify_spec(range.0 as int, range.1 as int, rows as int, o2),
            ch,
        ) is None,
{
}

/// Entries inside the body of a folded fold are skipped: while the walk
/// skips up to line `s`, an entry at a line up to `s` is not drawn and
/// leaves the walk (last line and offset) as it was.
pub proof fn lemma_fold_skip<A>(ix: Seq<(usize, EntryView)>, nodes: Seq<NodeModel<A>>, md: Metadata, i: int)
    requires
        0 <= i < ix.len(),
        walk(ix, nodes, md, i).skip matches Some(s) && ix[i].0 <= s,
    ensures
        offset_at(ix, nodes, md, i) is None,
        walk(ix, nodes, md, i + 1) == walk(ix, nodes, md, i),
{
}

/// A folded fold in view, reached outside any skipped body, makes the walk
/// skip up to the end of its body and go on from there: the offset gains
/// the lines up to the fold's header, and the lines of the body count for
/// nothing.
pub proof fn lemma_fold_closes<A>(ix: Seq<(usize, EntryView)>, nodes: Seq<NodeModel<A>>, md: Metadata, i: int, end: usize)
    requires
        0 <= i < ix.len(),
        ix[i].1 matches EntryView::Fold(f) && f.state == FoldState::Folded(end),
        entry_in_view(ix[i].0, ix[i].1, nodes, md),
        !(walk(ix, nodes, md, i).skip matches Some(s) && ix[i].0 <= s),
    ensures
        ({
            let w = walk(ix, nodes, md, i);
            let f = ix[i].1->Fold_0;
            walk(ix, nodes, md, i + 1) == (Walk {
                last: end as int,
                top: clamp_isize(w.top + f.line - w.last),
                skip: Some(end),
            })
        }),
{
}

} // verus!

verus! {

/// Lines of the index strictly increasing.
pub open spec fn lines_increasing(ix: Seq<(usize, EntryView)>) -> bool {
    forall|p: int, q: int| 0 <= p < q < ix.len() ==> ix[p].0 < ix[q].0
}

proof fn lemma_pass_frame(ix: Seq<(usize, EntryView)>, cmds: Seq<(usize, isize)>, n: int)
    requires
        0 <= n <= ix.len(),
    ensures
        fold_pass(ix, cmds, n).index.len() == ix.len(),
        forall|q: int| n <= q < ix.len() ==> fold_pass(ix, cmds, n).index[q] == ix[q],
        forall|q: int| 0 <= q < ix.len() ==> (#[trigger] fold_pass(ix, cmds, n).index[q]).0 == ix[q].0,
        fold_pass(ix, cmds, n).used == fold_lines(ix.subrange(0, n)).len(),
    decreases n,
{
    if n > 0 {
        lemma_pass_frame(ix, cmds, n - 1);
        lemma_fold_lines_prefix(ix, n - 1);
    } else {
        assert(ix.subrange(0, 0) =~= Seq::<(usize, EntryView)>::empty());
    }
}

proof fn lemma_pass_keeps(ix: Seq<(usize, EntryView)>, cmds: Seq<(usize, isize)>, p: int, n: int)
    requires
        0 <= p < n <= ix.len(),
    ensures
        fold_pass(ix, cmds, n).index[p] == fold_pass(ix, cmds, p + 1).index[p],
    decreases n,
{
    if n > p + 1 {
        lemma_pass_keeps(ix, cmds, p, n - 1);
        lemma_pass_frame(ix, cmds, n - 1);
    }
}

proof fn lemma_pass_closing(ix: Seq<(usize, EntryView)>, cmds: Seq<(usize, isize)>, a: int, e: int, n: int)
    requires
        0 <= a < n <= ix.len(),
        forall|q: int| a < q < n ==> ix[q].0 <= e,
        fold_pass(ix, cmds, a + 1).closing matches Some(t) && t >= e,
    ensures
        fold_pass(ix, cmds, n).closing matches Some(t) && t >= e,
    decreases n,
{
    if n > a + 1 {
        lemma_pass_closing(ix, cmds, a, e, n - 1);
        lemma_pass_frame(ix, cmds, n - 1);
    }
}

/// Closing a fold hides its body: when the commands turn an open fold into
/// one folded up to line `e`, every node entry after the fold, up to and
/// including line `e`, is hidden, whatever folds nest inside it.
pub proof fn lemma_closed_fold_hides(ix: Seq<(usize, EntryView)>, cmds: Seq<(usize, isize)>, a: int, j: int)
    requires
        lines_increasing(ix),
        0 <= a < j < ix.len(),
        ix[a].1 matches EntryView::Fold(f) && f.state == FoldState::Open,
        fold_lines(ix.subrange(0, a)).len() < cmds.len(),
        cmds[fold_lines(ix.subrange(0, a)).len() as int].1 >= 0,
        ix[j].1 is Node,
        ix[j].0 as int <= cmds[fold_lines(ix.subrange(0, a)).len() as int].1 as int,
    ensures
        fold_pass(ix, cmds, ix.len() as int).index[j] == (
            ix[j].0,
            EntryView::Node(ix[j].1->Node_0, NodeView::Hidden),
        ),
{
    let e = cmds[fold_lines(ix.subrange(0, a)).len() as int].1 as int;
    lemma_pass_frame(ix, cmds, a);
    lemma_pass_closing(ix, cmds, a, e, j);
    lemma_pass_frame(ix, cmds, j);
    lemma_pass_keeps(ix, cmds, j, ix.len() as int);
}

} // verus!
