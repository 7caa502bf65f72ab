use vstd::prelude::*;

use crate::error::Error;
use crate::node_view::{range_ok, NodeView};
use crate::render::{index_insert, index_map, index_sorted, EntryView, Fold, FoldInner, FoldState};
use crate::scan::{
    header_lines, headers, line_table, regions, regions_view, scan_regions, to_chars, Region, RegionItem,
};
use crate::utils::{hash, same_text, spec_hash};

verus! {

/// Encoded pixel data in the terminal's graphics format.
pub type Sixel = Vec<u8>;

/// Directory that holds the rendered vector artifacts, keyed by identity.
pub const ART_PATH: &'static str = "/tmp/nvim_arts/";

/// Extension of a rendered vector artifact.
pub const ART_EXT: &'static str = ".svg";

/// A crop window in pixels: its height and its offset from the top.
#[derive(PartialEq, Eq, Structural, Hash, Debug, Clone, Copy)]
pub struct Crop {
    pub window: usize,
    pub offset: usize,
}

/// A requested output geometry: pixel height of the whole node and an
/// optional crop window.
#[derive(PartialEq, Eq, Structural, Hash, Debug, Clone, Copy)]
pub struct NodeDim {
    pub height: usize,
    pub crop: Option<Crop>,
}

/// The kind of a region of content.
#[derive(PartialEq, Eq, Structural, Debug, Clone, Copy)]
pub enum ContentType {
    Math,
    Gnuplot,
    Tex,
    File,
}

/// The fence keyword that names each kind, as `from_fence` reads it.
pub open spec fn fence_kind(kind: Seq<char>) -> Option<ContentType> {
    if kind == "math"@ {
        Some(ContentType::Math)
    } else if kind == "gnuplot"@ {
        Some(ContentType::Gnuplot)
    } else if kind == "latex"@ || kind == "tex"@ {
        Some(ContentType::Tex)
    } else {
        None
    }
}

/// Where the artifact of content `c` of kind `k` is found.
pub open spec fn artifact_path(k: ContentType, c: Seq<char>) -> Seq<char> {
    if k == ContentType::File {
        c
    } else {
        ART_PATH@ + spec_hash(c) + ART_EXT@
    }
}

impl ContentType {
    /// The kind named by a fence keyword; an unknown keyword is an error that
    /// carries it.
    pub fn from_fence(kind: &str) -> (r: Result<Self, Error>)
        ensures
            fence_kind(kind@) is Some ==> r == Ok::<Self, Error>(fence_kind(kind@)->0),
            fence_kind(kind@) is None ==> (r matches Err(Error::UnknownFence(s)) && s@ == kind@),
    {
        if same_text(kind, "math") {
            Ok(ContentType::Math)
        } else if same_text(kind, "gnuplot") {
            Ok(ContentType::Gnuplot)
        } else if same_text(kind, "latex") || same_text(kind, "tex") {
            Ok(ContentType::Tex)
        } else {
            Err(Error::UnknownFence(String::from_str(kind)))
        }
    }

    /// Path of the artifact for `content`: the content itself for a file
    /// reference, else the scratch file named by the content's identity.
    pub fn path(&self, content: &str) -> (r: String)
        ensures
            r@ == artifact_path(*self, content@),
    {
        match self {
            ContentType::File => String::from_str(content),
            _ => {
                let id = hash(content);
                let mut p = String::from_str(ART_PATH);
                p.append(id.as_str());
                p.append(ART_EXT);
                p
            },
        }
    }
}

} // verus!

verus! {

/// Generation state of a node's artifact. `A` is the caller's handle to a
/// rendered vector artifact.
pub enum ContentState<A> {
    /// Nothing generated yet, or the last failure was reported.
    Empty,
    /// One background job runs for the node.
    Running,
    /// The artifact is ready for geometry requests.
    Ready(A),
    /// Generation failed; reported once to the next request.
    Failed(Error),
}

impl<A> ContentState<A> {
    pub fn new() -> (r: ContentState<A>)
        ensures
            r is Empty,
    {
        ContentState::Empty
    }
}

/// Background work that the caller performs for a node and reports back.
pub enum Job<A> {
    /// Produce the artifact for `content` of kind `kind`, then report it with
    /// `Node::finish_generation`.
    Generate { id: String, kind: ContentType, content: String },
    /// Render `artifact` at `dim`, then report the blob and hand the artifact
    /// back with `Node::finish_render`.
    Render { id: String, artifact: A, dim: NodeDim },
}

/// What a job is about, in terms of views.
pub ghost enum JobView<A> {
    Generate(Seq<char>, ContentType, Seq<char>),
    Render(Seq<char>, A, NodeDim),
}

pub open spec fn job_view<A>(j: Option<Job<A>>) -> Option<JobView<A>> {
    match j {
        Some(Job::Generate { id, kind, content }) => Some(JobView::Generate(id@, kind, content@)),
        Some(Job::Render { id, artifact, dim }) => Some(JobView::Render(id@, artifact, dim)),
        None => None,
    }
}

/// What a request hands back: a blob, an error, or nothing yet.
pub open spec fn answer_view(a: Option<Result<Sixel, Error>>) -> Option<Result<Seq<u8>, Error>> {
    match a {
        Some(Ok(b)) => Some(Ok(b@)),
        Some(Err(e)) => Some(Err(e)),
        None => None,
    }
}

/// A node: one renderable unit, bound to one content identity.
pub ghost struct NodeModel<A> {
    pub id: Seq<char>,
    pub range: (usize, usize),
    pub content: Seq<char>,
    pub kind: ContentType,
    pub state: ContentState<A>,
    /// Cached blobs by geometry, oldest first.
    pub cache: Seq<(NodeDim, Seq<u8>)>,
}

/// The blob cached for `d`, if any.
pub open spec fn cache_get(c: Seq<(NodeDim, Seq<u8>)>, d: NodeDim) -> Option<Seq<u8>>
    decreases c.len(),
{
    if c.len() == 0 {
        None
    } else if c.last().0 == d {
        Some(c.last().1)
    } else {
        cache_get(c.drop_last(), d)
    }
}

/// No two cached blobs share a geometry.
pub open spec fn cache_keys_unique(c: Seq<(NodeDim, Seq<u8>)>) -> bool {
    forall|i: int, j: int| 0 <= i < j < c.len() ==> c[i].0 != c[j].0
}

/// A geometry with no cached blob is no key of the cache.
pub proof fn lemma_cache_get_none(c: Seq<(NodeDim, Seq<u8>)>, d: NodeDim)
    requires
        cache_get(c, d) is None,
    ensures
        forall|i: int| 0 <= i < c.len() ==> c[i].0 != d,
    decreases c.len(),
{
    if c.len() > 0 {
        lemma_cache_get_none(c.drop_last(), d);
        assert forall|i: int| 0 <= i < c.len() implies c[i].0 != d by {
            if i < c.len() - 1 {
                assert(c.drop_last()[i] == c[i]);
            }
        }
    }
}

/// A request for geometry `dim`: the node afterwards, the answer, and the
/// job to start. A cached blob is answered at once; otherwise an idle node
/// starts generating, a ready one starts rendering, a running one waits, and
/// a failed one reports its error once and becomes idle.
pub open spec fn poll_spec<A>(n: NodeModel<A>, dim: NodeDim) -> (
    NodeModel<A>,
    Option<Result<Seq<u8>, Error>>,
    Option<JobView<A>>,
) {
    match cache_get(n.cache, dim) {
        Some(b) => (n, Some(Ok(b)), None),
        None => match n.state {
            ContentState::Empty => (
                NodeModel { state: ContentState::Running, ..n },
                None,
                Some(JobView::Generate(n.id, n.kind, n.content)),
            ),
            ContentState::Running => (n, None, None),
            ContentState::Ready(a) => (
                NodeModel { state: ContentState::Running, ..n },
                None,
                Some(JobView::Render(n.id, a, dim)),
            ),
            ContentState::Failed(e) => (NodeModel { state: ContentState::Empty, ..n }, Some(Err(e)), None),
        },
    }
}

/// The end of a generation job: a running node stores its result; any other
/// node ignores a result it is not waiting for.
pub open spec fn generated_spec<A>(n: NodeModel<A>, res: Result<A, Error>) -> NodeModel<A> {
    if n.state is Running {
        match res {
            Ok(a) => NodeModel { state: ContentState::Ready(a), ..n },
            Err(e) => NodeModel { state: ContentState::Failed(e), ..n },
        }
    } else {
        n
    }
}

/// The end of a render job: the blob is added for `dim` unless one is there
/// already (entries are never rewritten), and a running node gets its
/// artifact back.
pub open spec fn rendered_spec<A>(n: NodeModel<A>, dim: NodeDim, blob: Seq<u8>, a: A) -> NodeModel<A> {
    let cache = if cache_get(n.cache, dim) is None {
        n.cache.push((dim, blob))
    } else {
        n.cache
    };
    let state = if n.state is Running {
        ContentState::Ready(a)
    } else {
        n.state
    };
    NodeModel { state, cache, ..n }
}

/// A persistent node: identity, line range, content, generation state and
/// the cache of encoded blobs by geometry.
pub struct Node<A> {
    pub id: String,
    pub range: (usize, usize),
    pub content: (String, ContentType),
    pub state: ContentState<A>,
    pub sixel_cache: Vec<(NodeDim, Sixel)>,
}

impl<A> View for Node<A> {
    type V = NodeModel<A>;

    open spec fn view(&self) -> NodeModel<A> {
        NodeModel {
            id: self.id@,
            range: self.range,
            content: self.content.0@,
            kind: self.content.1,
            state: self.state,
            cache: self.sixel_cache@.map_values(|e: (NodeDim, Sixel)| (e.0, e.1@)),
        }
    }
}

/// Copies a blob.
fn copy_blob(b: &Sixel) -> (r: Sixel)
    ensures
        r@ == b@,
{
    let mut r: Sixel = Vec::new();
    let mut i: usize = 0;
    while i < b.len()
        invariant
            i <= b.len(),
            r@ == b@.subrange(0, i as int),
        decreases b.len() - i,
    {
        r.push(b[i]);
        i = i + 1;
    }
    assert(r@ =~= b@);
    r
}

impl<A> Node<A> {
    pub fn new(id: String, range: (usize, usize), content: &str, kind: ContentType) -> (r: Node<A>)
        ensures
            r@ == (NodeModel::<A> {
                id: id@,
                range,
                content: content@,
                kind,
                state: ContentState::Empty,
                cache: Seq::empty(),
            }),
    {
        let r = Node {
            id,
            range,
            content: (String::from_str(content), kind),
            state: ContentState::new(),
            sixel_cache: Vec::new(),
        };
        assert(r@.cache =~= Seq::empty());
        r
    }

    /// Position in the cache of the blob for `dim`, searching from the newest.
    fn find_cached(&self, dim: &NodeDim) -> (r: Option<usize>)
        ensures
            match r {
                Some(i) => i < self.sixel_cache.len() && cache_get(self@.cache, *dim) == Some(
                    self.sixel_cache@[i as int].1@,
                ),
                None => cache_get(self@.cache, *dim) is None,
            },
    {
        let ghost c = self@.cache;
        let mut i: usize = self.sixel_cache.len();
        assert(c.subrange(0, i as int) =~= c);
        while i > 0
            invariant
                i <= self.sixel_cache.len(),
                c == self@.cache,
                cache_get(c, *dim) == cache_get(c.subrange(0, i as int), *dim),
            decreases i,
        {
            let ghost pre = c.subrange(0, i as int);
            assert(pre.drop_last() == c.subrange(0, i - 1));
            if self.sixel_cache[i - 1].0 == *dim {
                return Some(i - 1);
            }
            i = i - 1;
        }
        None
    }

    /// Requests the blob for geometry `dim`. The answer is the cached blob,
    /// the node's reported failure, or nothing yet; a job to start is handed
    /// out only by a node that had none running.
    pub fn get_sixel(&mut self, dim: NodeDim) -> (r: (Option<Result<Sixel, Error>>, Option<Job<A>>))
        ensures
            (final(self)@, answer_view(r.0), job_view(r.1)) == poll_spec(old(self)@, dim),
    {
        match self.find_cached(&dim) {
            Some(i) => {
                let blob = copy_blob(&self.sixel_cache[i].1);
                return (Some(Ok(blob)), None);
            },
            None => {},
        }
        let mut st = ContentState::Empty;
        std::mem::swap(&mut self.state, &mut st);
        match st {
            ContentState::Empty => {
                self.state = ContentState::Running;
                let job = Job::Generate {
                    id: self.id.clone(),
                    kind: self.content.1,
                    content: self.content.0.clone(),
                };
                (None, Some(job))
            },
            ContentState::Running => {
                self.state = ContentState::Running;
                (None, None)
            },
            ContentState::Ready(a) => {
                self.state = ContentState::Running;
                (None, Some(Job::Render { id: self.id.clone(), artifact: a, dim }))
            },
            ContentState::Failed(e) => (Some(Err(e)), None),
        }
    }

    /// Records the result of the generation job.
    pub fn finish_generation(&mut self, res: Result<A, Error>)
        ensures
            final(self)@ == generated_spec(old(self)@, res),
    {
        if let ContentState::Running = self.state {
            self.state = match res {
                Ok(a) => ContentState::Ready(a),
                Err(e) => ContentState::Failed(e),
            };
        }
    }

    /// Records the blob of a render job for `dim` and takes the artifact back.
    pub fn finish_render(&mut self, dim: NodeDim, blob: Sixel, artifact: A)
        ensures
            final(self)@ == rendered_spec(old(self)@, dim, blob@, artifact),
            cache_keys_unique(old(self)@.cache) ==> cache_keys_unique(final(self)@.cache),
    {
        let ghost c = self@.cache;
        if self.find_cached(&dim).is_none() {
            proof {
                lemma_cache_get_none(c, dim);
            }
            self.sixel_cache.push((dim, blob));
            assert(self@.cache =~= c.push((dim, blob@)));
        }
        if let ContentState::Running = self.state {
            self.state = ContentState::Ready(artifact);
        }
    }
}

} // verus!

verus! {

/// While a job runs for a node, requests start no other job: each leaves
/// the node as it was, and a geometry that is not cached is answered with
/// nothing yet, for a first request and for a second.
pub proof fn lemma_one_job_in_flight<A>(n: NodeModel<A>, d1: NodeDim, d2: NodeDim)
    requires
        n.state is Running,
    ensures
        poll_spec(n, d1).0 == n,
        poll_spec(n, d1).2 is None,
        cache_get(n.cache, d1) is None ==> poll_spec(n, d1).1 is None,
        poll_spec(poll_spec(n, d1).0, d2).0 == n,
        poll_spec(poll_spec(n, d1).0, d2).2 is None,
        cache_get(n.cache, d2) is None ==> poll_spec(poll_spec(n, d1).0, d2).1 is None,
{
}

/// A request hands out a job only when none runs for the node, and the node
/// is then marked running, so that the next request starts none.
pub proof fn lemma_job_only_when_idle<A>(n: NodeModel<A>, d: NodeDim)
    ensures
        poll_spec(n, d).2 is Some ==> !(n.state is Running) && poll_spec(n, d).0.state is Running,
{
}

/// Once the render for `dim` has completed, every request for `dim` returns
/// the same bytes from the cache and starts no job.
pub proof fn lemma_cache_round_trip<A>(n: NodeModel<A>, dim: NodeDim, blob: Seq<u8>, a: A)
    requires
        cache_get(n.cache, dim) is None,
    ensures
        poll_spec(rendered_spec(n, dim, blob, a), dim) == (
            rendered_spec(n, dim, blob, a),
            Some(Ok::<Seq<u8>, Error>(blob)),
            None::<JobView<A>>,
        ),
        poll_spec(poll_spec(rendered_spec(n, dim, blob, a), dim).0, dim) == (
            rendered_spec(n, dim, blob, a),
            Some(Ok::<Seq<u8>, Error>(blob)),
            None::<JobView<A>>,
        ),
{
    let m = rendered_spec(n, dim, blob, a);
    assert(m.cache.drop_last() == n.cache);
}

} // verus!

verus! {

pub open spec fn nodes_view<A>(s: Seq<Node<A>>) -> Seq<NodeModel<A>> {
    s.map_values(|n: Node<A>| n@)
}

/// Position of the last node of `s` with identity `id`, or -1.
pub open spec fn find_node<A>(s: Seq<NodeModel<A>>, id: Seq<char>) -> int
    decreases s.len(),
{
    if s.len() == 0 {
        -1
    } else if s.last().id == id {
        s.len() - 1
    } else {
        find_node(s.drop_last(), id)
    }
}

/// The node created for a region seen for the first time.
pub open spec fn fresh_node<A>(r: Region) -> NodeModel<A> {
    NodeModel {
        id: spec_hash(r.content),
        range: r.range,
        content: r.content,
        kind: r.kind,
        state: ContentState::Empty,
        cache: Seq::empty(),
    }
}

/// Reconciles scanned regions with the previous nodes, region by region:
/// the new node set, the previous nodes not claimed (yet), and whether a
/// node was added or moved. A region whose identity is in the new set
/// already adds nothing; one whose identity is among the previous nodes
/// takes that node over with the region's range; any other gets a fresh
/// node.
pub open spec fn reconcile_spec<A>(rs: Seq<Region>, old: Seq<NodeModel<A>>) -> (
    Seq<NodeModel<A>>,
    Seq<NodeModel<A>>,
    bool,
)
    decreases rs.len(),
{
    if rs.len() == 0 {
        (Seq::empty(), old, false)
    } else {
        let (nodes, rest, changed) = reconcile_spec(rs.drop_last(), old);
        let r = rs.last();
        let id = spec_hash(r.content);
        if find_node(nodes, id) >= 0 {
            (nodes, rest, changed)
        } else {
            let i = find_node(rest, id);
            if i >= 0 {
                (
                    nodes.push(NodeModel { range: r.range, ..rest[i] }),
                    rest.remove(i),
                    changed || rest[i].range != r.range,
                )
            } else {
                (nodes.push(fresh_node(r)), rest, true)
            }
        }
    }
}

/// The index entries of the section headers: an open fold at each.
pub open spec fn fold_map(folds: Seq<usize>) -> Map<usize, EntryView>
    decreases folds.len(),
{
    if folds.len() == 0 {
        Map::empty()
    } else {
        fold_map(folds.drop_last()).insert(
            folds.last(),
            EntryView::Fold(Fold { line: folds.last(), state: FoldState::Open }),
        )
    }
}

/// The ordered index after a scan: the folds, then a hidden node entry at
/// the first line of each region, a later entry taking the place of an
/// earlier one at the same line.
pub open spec fn index_spec(folds: Seq<usize>, rs: Seq<Region>) -> Map<usize, EntryView>
    decreases rs.len(),
{
    if rs.len() == 0 {
        fold_map(folds)
    } else {
        index_spec(folds, rs.drop_last()).insert(
            rs.last().range.0,
            EntryView::Node(spec_hash(rs.last().content), NodeView::Hidden),
        )
    }
}

/// Position of the last node of `v` with identity `id`.
pub fn find_by_id<A>(v: &Vec<Node<A>>, id: &String) -> (r: Option<usize>)
    ensures
        match r {
            Some(i) => i < v.len() && find_node(nodes_view(v@), id@) == i,
            None => find_node(nodes_view(v@), id@) == -1,
        },
{
    let ghost s = nodes_view(v@);
    let mut i = v.len();
    assert(s.subrange(0, i as int) =~= s);
    while i > 0
        invariant
            i <= v.len(),
            s == nodes_view(v@),
            find_node(s, id@) == find_node(s.subrange(0, i as int), id@),
        decreases i,
    {
        assert(s.subrange(0, i as int).drop_last() =~= s.subrange(0, i - 1));
        if v[i - 1].id == *id {
            return Some(i - 1);
        }
        i = i - 1;
    }
    None
}

/// The regions and the section header lines of `content`; a fenced block
/// of unknown kind is an error that names its keyword.
pub fn scan_document(content: &str) -> (r: Result<(Vec<RegionItem>, Vec<usize>), Error>)
    requires
        content@.len() < usize::MAX - 16,
    ensures
        match scan_regions(content@) {
            Err(n) => r matches Err(Error::UnknownFence(s)) && s@ == n,
            Ok(rs) => r is Ok && regions_view(r->Ok_0.0@) == rs && r->Ok_0.1@ == header_lines(
                content@,
                content@.len() as int,
            ),
        },
        r is Ok ==> forall|i: int|
            0 <= i < r->Ok_0.0@.len() ==> 1 <= (#[trigger] r->Ok_0.0@[i]).range.0
                <= r->Ok_0.0@[i].range.1,
{
    let t = to_chars(content);
    let lines = line_table(&t);
    let folds = headers(&t, &lines);
    match regions(content, &t, &lines) {
        Ok(rs) => Ok((rs, folds)),
        Err(e) => Err(e),
    }
}

/// The document scanner.
pub struct Content {}

impl Content {
    pub fn new() -> Content {
        Content {}
    }

    /// Scans `content` and reconciles what it finds with `old_nodes`, which
    /// the caller gives up. Returns the new nodes, the ordered index, the
    /// lines of the section headers, and whether any node was added,
    /// removed or moved. A fenced block of unknown kind fails the scan.
    pub fn process<A>(&self, content: &str, old_nodes: Vec<Node<A>>) -> (r: Result<
        (Vec<Node<A>>, Vec<(usize, FoldInner)>, Vec<usize>, bool),
        Error,
    >)
        requires
            content@.len() < usize::MAX - 16,
        ensures
            match scan_regions(content@) {
                Err(n) => r matches Err(Error::UnknownFence(s)) && s@ == n,
                Ok(rs) => r is Ok && {
                    let out = r->Ok_0;
                    let rec = reconcile_spec(rs, nodes_view(old_nodes@));
                    &&& nodes_view(out.0@) == rec.0
                    &&& index_sorted(out.1@)
                    &&& index_map(out.1@) == index_spec(
                        header_lines(content@, content@.len() as int),
                        rs,
                    )
                    &&& out.2@ == header_lines(content@, content@.len() as int)
                    &&& out.3 == (rec.2 || rec.1.len() > 0)
                },
            },
            r is Ok ==> ids_unique(nodes_view(r->Ok_0.0@)),
            r is Ok ==> forall|i: int|
                0 <= i < r->Ok_0.0@.len() ==> range_ok(#[trigger] r->Ok_0.0@[i].range),
    {
        match scan_document(content) {
            Ok((regions, folds)) => Ok(self.reconcile(regions, folds, old_nodes)),
            Err(e) => Err(e),
        }
    }

    /// Reconciles scanned regions and header lines with `old_nodes`, which
    /// the caller gives up: the new nodes, the ordered index, the header
    /// lines, and whether any node was added, removed or moved.
    pub fn reconcile<A>(&self, regions: Vec<RegionItem>, folds: Vec<usize>, old_nodes: Vec<Node<A>>) -> (r: (
        Vec<Node<A>>,
        Vec<(usize, FoldInner)>,
        Vec<usize>,
        bool,
    ))
        requires
            forall|i: int|
                0 <= i < regions@.len() ==> 1 <= (#[trigger] regions@[i]).range.0 <= regions@[i].range.1,
        ensures
            ({
                let rs = regions_view(regions@);
                let rec = reconcile_spec(rs, nodes_view(old_nodes@));
                &&& nodes_view(r.0@) == rec.0
                &&& index_sorted(r.1@)
                &&& index_map(r.1@) == index_spec(folds@, rs)
                &&& r.2@ == folds@
                &&& r.3 == (rec.2 || rec.1.len() > 0)
            }),
            ids_unique(nodes_view(r.0@)),
            caches_unique(nodes_view(old_nodes@)) ==> caches_unique(nodes_view(r.0@)),
            forall|i: int| 0 <= i < r.0@.len() ==> range_ok(#[trigger] r.0@[i].range),
    {
        let ghost rv = regions_view(regions@);
        let ghost fv = folds@;
        let mut index: Vec<(usize, FoldInner)> = Vec::new();
        let mut k: usize = 0;
        assert(fv.subrange(0, 0) =~= Seq::<usize>::empty());
        assert(index_map(index@) =~= Map::empty());
        while k < folds.len()
            invariant
                fv == folds@,
                k <= folds.len(),
                index_sorted(index@),
                index_map(index@) == fold_map(fv.subrange(0, k as int)),
            decreases folds.len() - k,
        {
            let line = folds[k];
            index_insert(&mut index, line, FoldInner::Fold(Fold { line, state: FoldState::Open }));
            assert(fv.subrange(0, k + 1).drop_last() =~= fv.subrange(0, k as int));
            k = k + 1;
        }
        assert(fv.subrange(0, folds.len() as int) =~= fv);
        let ghost old_view = nodes_view(old_nodes@);
        let mut old = old_nodes;
        let mut nodes: Vec<Node<A>> = Vec::new();
        let mut changed = false;
        let mut j: usize = 0;
        assert(rv.subrange(0, 0) =~= Seq::<Region>::empty());
        assert(nodes_view(nodes@) =~= Seq::<NodeModel<A>>::empty());
        while j < regions.len()
            invariant
                rv == regions_view(regions@),
                j <= regions.len(),
                index_sorted(index@),
                index_map(index@) == index_spec(fv, rv.subrange(0, j as int)),
                forall|i: int| 0 <= i < regions@.len() ==> 1 <= (#[trigger] regions@[i]).range.0 <= regions@[i].range.1,
                forall|i: int| 0 <= i < nodes@.len() ==> range_ok(#[trigger] nodes@[i].range),
                (nodes_view(nodes@), nodes_view(old@), changed) == reconcile_spec(
                    rv.subrange(0, j as int),
                    old_view,
                ),
            decreases regions.len() - j,
        {
            let r = &regions[j];
            assert(rv.subrange(0, j + 1).drop_last() =~= rv.subrange(0, j as int));
            assert(rv.subrange(0, j + 1).last() == r@);
            let id = hash(r.content.as_str());
            if find_by_id(&nodes, &id).is_none() {
                match find_by_id(&old, &id) {
                    Some(i) => {
                        let ghost ov = nodes_view(old@);
                        let ghost nv = nodes_view(nodes@);
                        let mut n = old.remove(i);
                        if n.range.0 != r.range.0 || n.range.1 != r.range.1 {
                            changed = true;
                        }
                        n.range = r.range;
                        nodes.push(n);
                        assert(nodes_view(old@) =~= ov.remove(i as int));
                        assert(nodes_view(nodes@) =~= nv.push(NodeModel { range: r.range, ..ov[i as int] }));
                    },
                    None => {
                        let ghost nv = nodes_view(nodes@);
                        changed = true;
                        let n = Node::new(id.clone(), r.range, r.content.as_str(), r.kind);
                        nodes.push(n);
                        assert(nodes_view(nodes@) =~= nv.push(fresh_node(r@)));
                    },
                }
            }
            index_insert(&mut index, r.range.0, FoldInner::Node((id, NodeView::Hidden)));
            j = j + 1;
        }
        assert(rv.subrange(0, regions.len() as int) =~= rv);
        if old.len() > 0 {
            changed = true;
        }
        proof {
            lemma_reconcile_unique(rv, old_view);
            if caches_unique(old_view) {
                lemma_reconcile_caches(rv, old_view);
            }
        }
        (nodes, index, folds, changed)
    }
}

} // verus!

verus! {

/// No two nodes share an identity.
pub open spec fn ids_unique<A>(s: Seq<NodeModel<A>>) -> bool {
    forall|i: int, j: int| 0 <= i < j < s.len() ==> s[i].id != s[j].id
}

proof fn lemma_find_node<A>(s: Seq<NodeModel<A>>, id: Seq<char>)
    ensures
        -1 <= find_node(s, id) < s.len(),
        find_node(s, id) >= 0 ==> s[find_node(s, id)].id == id,
        find_node(s, id) == -1 ==> forall|j: int| 0 <= j < s.len() ==> s[j].id != id,
    decreases s.len(),
{
    if s.len() > 0 {
        lemma_find_node(s.drop_last(), id);
        if s.last().id != id && find_node(s, id) == -1 {
            assert forall|j: int| 0 <= j < s.len() implies s[j].id != id by {
                if j < s.len() - 1 {
                    assert(s.drop_last()[j] == s[j]);
                }
            }
        }
    }
}

proof fn lemma_find_unique<A>(s: Seq<NodeModel<A>>, j: int)
    requires
        ids_unique(s),
        0 <= j < s.len(),
    ensures
        find_node(s, s[j].id) == j,
    decreases s.len(),
{
    if j < s.len() - 1 {
        assert(s.drop_last()[j] == s[j]);
        lemma_find_unique(s.drop_last(), j);
    }
}

/// Each step of reconciliation keeps the nodes found so far and adds at
/// most the node of the region at hand, with that region's identity and
/// range; and the identities stay unique.
proof fn lemma_reconcile_step<A>(rs: Seq<Region>, old: Seq<NodeModel<A>>)
    requires
        rs.len() > 0,
    ensures
        ({
            let p = reconcile_spec(rs.drop_last(), old).0;
            let q = reconcile_spec(rs, old).0;
            let id = spec_hash(rs.last().content);
            &&& find_node(p, id) >= 0 ==> q == p
            &&& find_node(p, id) < 0 ==> q.len() == p.len() + 1 && q.drop_last() == p && q.last().id
                == id && q.last().range == rs.last().range
        }),
{
    let (nodes, rest, changed) = reconcile_spec(rs.drop_last(), old);
    let id = spec_hash(rs.last().content);
    lemma_find_node(rest, id);
    let q = reconcile_spec(rs, old).0;
    if find_node(nodes, id) < 0 {
        assert(q.drop_last() =~= nodes);
    }
}

proof fn lemma_reconcile_unique<A>(rs: Seq<Region>, old: Seq<NodeModel<A>>)
    ensures
        ids_unique(reconcile_spec(rs, old).0),
    decreases rs.len(),
{
    if rs.len() > 0 {
        lemma_reconcile_unique(rs.drop_last(), old);
        lemma_reconcile_step(rs, old);
        let p = reconcile_spec(rs.drop_last(), old).0;
        let q = reconcile_spec(rs, old).0;
        let id = spec_hash(rs.last().content);
        lemma_find_node(p, id);
        if find_node(p, id) < 0 {
            assert forall|i: int, j: int| 0 <= i < j < q.len() implies q[i].id != q[j].id by {
                if j == q.len() - 1 {
                    assert(q[i] == p[i]);
                } else {
                    assert(q[i] == p[i] && q[j] == p[j]);
                }
            }
        }
    }
}

/// The nodes after the first `k` regions are the first nodes of the result.
proof fn lemma_reconcile_prefix<A>(rs: Seq<Region>, old: Seq<NodeModel<A>>, k: int)
    requires
        0 <= k <= rs.len(),
    ensures
        ({
            let p = reconcile_spec(rs.subrange(0, k), old).0;
            let n = reconcile_spec(rs, old).0;
            p.len() <= n.len() && p == n.subrange(0, p.len() as int)
        }),
    decreases rs.len(),
{
    if k == rs.len() {
        assert(rs.subrange(0, k) =~= rs);
        let n = reconcile_spec(rs, old).0;
        assert(n.subrange(0, n.len() as int) =~= n);
    } else {
        lemma_reconcile_prefix(rs.drop_last(), old, k);
        assert(rs.drop_last().subrange(0, k) =~= rs.subrange(0, k));
        lemma_reconcile_step(rs, old);
        let p = reconcile_spec(rs.subrange(0, k), old).0;
        let m = reconcile_spec(rs.drop_last(), old).0;
        let n = reconcile_spec(rs, old).0;
        assert(p =~= n.subrange(0, p.len() as int));
    }
}

/// Every region's identity has a node after reconciliation.
proof fn lemma_reconcile_covers<A>(rs: Seq<Region>, old: Seq<NodeModel<A>>, k: int)
    requires
        0 <= k < rs.len(),
    ensures
        find_node(reconcile_spec(rs, old).0, spec_hash(rs[k].content)) >= 0,
{
    let rk = rs.subrange(0, k + 1);
    assert(rk.drop_last() =~= rs.subrange(0, k));
    assert(rk.last() == rs[k]);
    lemma_reconcile_step(rk, old);
    lemma_reconcile_prefix(rs, old, k + 1);
    let id = spec_hash(rs[k].content);
    let p = reconcile_spec(rs.subrange(0, k), old).0;
    let q = reconcile_spec(rk, old).0;
    let n = reconcile_spec(rs, old).0;
    lemma_find_node(p, id);
    lemma_find_node(n, id);
    let j = if find_node(p, id) >= 0 {
        find_node(p, id)
    } else {
        q.len() - 1
    };
    assert(q[j].id == id);
    assert(n[j] == q[j]);
}

proof fn lemma_second_pass<A>(rs: Seq<Region>, old: Seq<NodeModel<A>>, k: int)
    requires
        0 <= k <= rs.len(),
    ensures
        ({
            let n = reconcile_spec(rs, old).0;
            let p = reconcile_spec(rs.subrange(0, k), old).0;
            reconcile_spec(rs.subrange(0, k), n) == (p, n.subrange(p.len() as int, n.len() as int), false)
        }),
    decreases k,
{
    let n = reconcile_spec(rs, old).0;
    lemma_reconcile_unique(rs, old);
    lemma_reconcile_prefix(rs, old, k);
    if k == 0 {
        assert(rs.subrange(0, 0) =~= Seq::<Region>::empty());
        assert(n.subrange(0, n.len() as int) =~= n);
    } else {
        lemma_second_pass(rs, old, k - 1);
        let rk = rs.subrange(0, k);
        assert(rk.drop_last() =~= rs.subrange(0, k - 1));
        assert(rk.last() == rs[k - 1]);
        lemma_reconcile_step(rk, old);
        lemma_reconcile_prefix(rs, old, k - 1);
        let p0 = reconcile_spec(rs.subrange(0, k - 1), old).0;
        let id = spec_hash(rs[k - 1].content);
        let rest = n.subrange(p0.len() as int, n.len() as int);
        if find_node(p0, id) < 0 {
            let x = n[p0.len() as int];
            assert(rest[0] == x);
            assert(ids_unique(rest)) by {
                assert forall|a: int, b: int| 0 <= a < b < rest.len() implies rest[a].id != rest[b].id by {
                    assert(rest[a] == n[p0.len() + a] && rest[b] == n[p0.len() + b]);
                }
            }
            lemma_find_unique(rest, 0);
            assert((NodeModel { range: rs[k - 1].range, ..rest[0] }) == x);
            assert(rest.remove(0) =~= n.subrange(p0.len() as int + 1, n.len() as int));
            let p = reconcile_spec(rk, old).0;
            assert(p =~= p0.push(x));
        }
    }
}

/// Every node of a sequence has a cache without repeated geometries.
pub open spec fn caches_unique<A>(s: Seq<NodeModel<A>>) -> bool {
    forall|j: int| 0 <= j < s.len() ==> cache_keys_unique(#[trigger] s[j].cache)
}

/// Reconciliation keeps caches as they are: nodes are either fresh, with
/// an empty cache, or previous nodes.
pub proof fn lemma_reconcile_caches<A>(rs: Seq<Region>, old: Seq<NodeModel<A>>)
    requires
        caches_unique(old),
    ensures
        caches_unique(reconcile_spec(rs, old).0),
        caches_unique(reconcile_spec(rs, old).1),
    decreases rs.len(),
{
    if rs.len() > 0 {
        lemma_reconcile_caches(rs.drop_last(), old);
        let (nodes, rest, changed) = reconcile_spec(rs.drop_last(), old);
        let id = spec_hash(rs.last().content);
        lemma_find_node(rest, id);
        let (n2, r2, c2) = reconcile_spec(rs, old);
        assert forall|j: int| 0 <= j < n2.len() implies cache_keys_unique(#[trigger] n2[j].cache) by {
            if j < nodes.len() {
                assert(n2[j] == nodes[j]);
            }
        }
        assert forall|j: int| 0 <= j < r2.len() implies cache_keys_unique(#[trigger] r2[j].cache) by {
            if find_node(nodes, id) < 0 && find_node(rest, id) >= 0 {
                let i = find_node(rest, id);
                if j < i {
                    assert(r2[j] == rest[j]);
                } else {
                    assert(r2[j] == rest[j + 1]);
                }
            }
        }
    }
}

/// Scanning the same regions twice in a row: the second reconciliation
/// gives back every node of the first unchanged (identity, range,
/// generation state and cache), leaves no node unclaimed and reports no
/// change.
pub proof fn lemma_identity_stable<A>(rs: Seq<Region>, old: Seq<NodeModel<A>>)
    ensures
        ({
            let first = reconcile_spec(rs, old);
            let second = reconcile_spec(rs, first.0);
            &&& second.0 == first.0
            &&& second.1.len() == 0
            &&& !second.2
        }),
{
    lemma_second_pass(rs, old, rs.len() as int);
    assert(rs.subrange(0, rs.len() as int) =~= rs);
}

/// Regions with the same content share one node: after reconciliation
/// their identity has a node, and no other node has that identity.
pub proof fn lemma_dedup_by_content<A>(rs: Seq<Region>, old: Seq<NodeModel<A>>, i: int, j: int)
    requires
        0 <= i < rs.len(),
        0 <= j < rs.len(),
        rs[i].content == rs[j].content,
    ensures
        ({
            let n = reconcile_spec(rs, old).0;
            let k = find_node(n, spec_hash(rs[i].content));
            &&& spec_hash(rs[i].content) == spec_hash(rs[j].content)
            &&& 0 <= k < n.len()
            &&& n[k].id == spec_hash(rs[j].content)
            &&& forall|m: int| 0 <= m < n.len() && n[m].id == spec_hash(rs[j].content) ==> m == k
        }),
{
    lemma_reconcile_covers(rs, old, i);
    lemma_reconcile_unique(rs, old);
    let n = reconcile_spec(rs, old).0;
    lemma_find_node(n, spec_hash(rs[i].content));
}

} // verus!

verus! {

/// What produces the artifact of a region that has none on disk yet.
#[derive(PartialEq, Eq, Structural, Clone, Copy, Debug)]
pub enum Preparation {
    /// Typeset the content as a displayed equation.
    Equation,
    /// Typeset the content as a LaTeX document.
    Typeset,
    /// Run the content as a gnuplot script, then typeset its output.
    Plot,
    /// Nothing can: the referenced file is missing.
    Missing,
}

pub open spec fn preparation_of(k: ContentType) -> Preparation {
    match k {
        ContentType::Math => Preparation::Equation,
        ContentType::Tex => Preparation::Typeset,
        ContentType::Gnuplot => Preparation::Plot,
        ContentType::File => Preparation::Missing,
    }
}

impl ContentType {
    /// What produces the artifact of this kind where none is on disk yet.
    pub fn preparation(&self) -> (r: Preparation)
        ensures
            r == preparation_of(*self),
    {
        match self {
            ContentType::Math => Preparation::Equation,
            ContentType::Tex => Preparation::Typeset,
            ContentType::Gnuplot => Preparation::Plot,
            ContentType::File => Preparation::Missing,
        }
    }
}

/// How a referenced file becomes a loadable image.
#[derive(PartialEq, Eq, Structural, Clone, Copy, Debug)]
pub enum FileConversion {
    /// It is one already.
    Image,
    /// It is a LaTeX document to typeset.
    Typeset,
    /// It is a gnuplot script to run and typeset.
    Plot,
}

/// The extension of the file name of a path, as `Path::extension` gives it.
pub uninterp spec fn path_extension(s: Seq<char>) -> Option<Seq<char>>;

/// Relies on `std::path::Path::extension`: the text after the last dot of
/// the path's file name, where there is one that does not start the name.
#[verifier::external_body]
fn extension(path: &str) -> (r: Option<String>)
    ensures
        match r {
            Some(e) => path_extension(path@) == Some(e@),
            None => path_extension(path@) is None,
        },
{
    std::path::Path::new(path).extension().map(|e| e.to_string_lossy().to_string())
}

pub open spec fn conversion_of(ext: Option<Seq<char>>) -> FileConversion {
    if ext == Some("tex"@) {
        FileConversion::Typeset
    } else if ext == Some("plt"@) {
        FileConversion::Plot
    } else {
        FileConversion::Image
    }
}

/// The conversion that a file with extension `ext` needs: `tex` files are
/// typeset, `plt` files plotted, anything else is loaded as it is.
pub fn conversion_for(ext: Option<&str>) -> (r: FileConversion)
    ensures
        r == conversion_of(
            match ext {
                Some(e) => Some(e@),
                None => None,
            },
        ),
{
    match ext {
        Some(e) => {
            if same_text(e, "tex") {
                FileConversion::Typeset
            } else if same_text(e, "plt") {
                FileConversion::Plot
            } else {
                FileConversion::Image
            }
        },
        None => FileConversion::Image,
    }
}

/// The conversion that the referenced file `path` needs, by its extension.
pub fn file_conversion(path: &str) -> (r: FileConversion)
    ensures
        r == conversion_of(path_extension(path@)),
{
    match extension(path) {
        Some(e) => conversion_for(Some(e.as_str())),
        None => conversion_for(None),
    }
}

} // verus!

verus! {

/// The index entry at the first line of region `k` names that region's
/// identity, unless a later region starts at the same line.
pub proof fn lemma_index_entry(folds: Seq<usize>, rs: Seq<Region>, k: int)
    requires
        0 <= k < rs.len(),
        forall|m: int| k < m < rs.len() ==> rs[m].range.0 != rs[k].range.0,
    ensures
        index_spec(folds, rs).contains_key(rs[k].range.0),
        index_spec(folds, rs)[rs[k].range.0] == EntryView::Node(spec_hash(rs[k].content), NodeView::Hidden),
    decreases rs.len(),
{
    if k < rs.len() - 1 {
        lemma_index_entry(folds, rs.drop_last(), k);
    }
}

/// Regions with the same content share one identity in the index too:
/// the index entries at both their lines name the same node.
pub proof fn lemma_dedup_in_index(folds: Seq<usize>, rs: Seq<Region>, i: int, j: int)
    requires
        0 <= i < rs.len(),
        0 <= j < rs.len(),
        rs[i].content == rs[j].content,
        forall|m: int| i < m < rs.len() ==> rs[m].range.0 != rs[i].range.0,
        forall|m: int| j < m < rs.len() ==> rs[m].range.0 != rs[j].range.0,
    ensures
        index_spec(folds, rs)[rs[i].range.0] == index_spec(folds, rs)[rs[j].range.0],
        index_spec(folds, rs)[rs[i].range.0] == EntryView::Node(spec_hash(rs[i].content), NodeView::Hidden),
{
    lemma_index_entry(folds, rs, i);
    lemma_index_entry(folds, rs, j);
}

} // verus!
