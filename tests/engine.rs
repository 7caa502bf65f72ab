use inline_graphics::content::{Content, ContentState, ContentType, Job, Node, NodeDim};
use inline_graphics::error::Error;
use inline_graphics::node_view::NodeView;
use inline_graphics::render::{Fold, FoldInner, FoldState, Metadata, Render};
use inline_graphics::utils::hash;

const DOC: &str = "# Title\n\n```math\nx^2\n```\n\n## Part\n\n![plot](pics/a.png)\n\n\nend\n";

fn node_ids(r: &Render<u32>) -> Vec<(usize, String, NodeView)> {
    let mut out = Vec::new();
    for (line, e) in r.strcts.iter() {
        if let FoldInner::Node((id, v)) = e {
            out.push((*line, id.clone(), *v));
        }
    }
    out
}

#[test]
fn scan_finds_regions_and_headers() {
    let (nodes, index, folds, changed) = Content::new().process::<u32>(DOC, Vec::new()).unwrap();
    assert!(changed);
    assert_eq!(folds, vec![7]);
    assert_eq!(nodes.len(), 2);
    assert_eq!(nodes[0].id, hash("x^2\n"));
    assert_eq!(nodes[0].range, (3, 5));
    assert_eq!(nodes[0].content.0, "x^2\n");
    assert_eq!(nodes[0].content.1, ContentType::Math);
    assert_eq!(nodes[1].id, hash("pics/a.png"));
    assert_eq!(nodes[1].range, (9, 11));
    assert_eq!(nodes[1].content.1, ContentType::File);
    let lines: Vec<usize> = index.iter().map(|e| e.0).collect();
    assert_eq!(lines, vec![3, 7, 9]);
    assert!(matches!(index[1].1, FoldInner::Fold(Fold { line: 7, state: FoldState::Open })));
}

#[test]
fn explicit_height_and_kinds() {
    let doc = "```gnuplot,height=4\nplot x\n```\n```tex\n\\alpha\n```";
    let (nodes, _, _, _) = Content::new().process::<u32>(doc, Vec::new()).unwrap();
    assert_eq!(nodes.len(), 2);
    assert_eq!(nodes[0].range, (1, 5));
    assert_eq!(nodes[0].content.1, ContentType::Gnuplot);
    assert_eq!(nodes[1].range, (4, 6));
    assert_eq!(nodes[1].content.1, ContentType::Tex);
}

#[test]
fn unknown_fence_fails_scan() {
    let doc = "text\n```rust\nfn main() {}\n```\n";
    match Content::new().process::<u32>(doc, Vec::new()) {
        Err(Error::UnknownFence(k)) => assert_eq!(k, "rust"),
        _ => panic!("unknown fence must fail"),
    }
    let mut r: Render<u32> = Render::new();
    r.update_content(DOC).unwrap();
    let d = NodeDim { height: 30, crop: None };
    let _ = r.blocks[0].get_sixel(d);
    r.blocks[0].finish_generation(Ok(4));
    let ids_before = node_ids(&r);
    assert!(r.update_content(doc).is_err());
    // what was there stays: nodes, their state, and the index
    assert_eq!(r.blocks.len(), 2);
    assert!(matches!(r.blocks[0].state, ContentState::Ready(4)));
    assert_eq!(node_ids(&r), ids_before);
    assert_eq!(r.strcts.len(), 3);
}

#[test]
fn empty_and_malformed_regions_are_skipped() {
    let doc = "```ma\nx\n```\n\n![a]()\n```math\n```";
    let (nodes, index, _, changed) = Content::new().process::<u32>(doc, Vec::new()).unwrap();
    assert!(nodes.is_empty());
    assert!(index.is_empty());
    assert!(!changed);
    // the inner text runs to the first closing backticks after its first character
    let doc = "```math\n```\n```math\ny\n```";
    let (nodes, _, _, _) = Content::new().process::<u32>(doc, Vec::new()).unwrap();
    assert_eq!(nodes.len(), 1);
    assert_eq!(nodes[0].content.0, "```\n");
}

#[test]
fn identity_stable_across_updates() {
    let mut r: Render<u32> = Render::new();
    let first = r.update_content(DOC).unwrap();
    assert!(first.should_redraw);
    assert_eq!(first.update_folding, Some(vec![7]));
    // fill the cache of the first node
    let d = NodeDim { height: 30, crop: None };
    let _ = r.blocks[0].get_sixel(d);
    r.blocks[0].finish_generation(Ok(1));
    let _ = r.blocks[0].get_sixel(d);
    r.blocks[0].finish_render(d, vec![8, 9], 1);
    let ids_before = node_ids(&r);
    let second = r.update_content(DOC).unwrap();
    assert!(!second.should_redraw);
    assert_eq!(node_ids(&r), ids_before);
    assert_eq!(r.blocks.len(), 2);
    assert_eq!(r.blocks[0].sixel_cache.len(), 1);
    assert!(matches!(r.blocks[0].state, ContentState::Ready(1)));
    let (answer, job) = r.blocks[0].get_sixel(d);
    assert_eq!(answer.unwrap().unwrap(), vec![8, 9]);
    assert!(job.is_none());
}

#[test]
fn dedup_by_content() {
    let doc = "```math\na+b\n```\n\n```tex\na+b\n```\n";
    let mut r: Render<u32> = Render::new();
    r.update_content(doc).unwrap();
    assert_eq!(r.blocks.len(), 1);
    let entries = node_ids(&r);
    assert_eq!(entries.len(), 2);
    assert_eq!(entries[0].1, entries[1].1);
    assert_eq!(entries[0].1, hash("a+b\n"));
    assert_eq!(r.blocks[0].range, (1, 3));
    assert!(!r.update_content(doc).unwrap().should_redraw);
}

#[test]
fn moved_and_removed_nodes_are_changes() {
    let mut r: Render<u32> = Render::new();
    r.update_content(DOC).unwrap();
    let moved = format!("\n{}", DOC);
    assert!(r.update_content(&moved).unwrap().should_redraw);
    assert_eq!(r.blocks[0].range, (4, 6));
    let removed = "\n# Title\n\n```math\nx^2\n```\n";
    assert!(r.update_content(removed).unwrap().should_redraw);
    assert_eq!(r.blocks.len(), 1);
    assert!(!r.update_content(removed).unwrap().should_redraw);
}

#[test]
fn fold_commands() {
    let mut r: Render<u32> = Render::new();
    r.update_content(DOC).unwrap();
    assert!(matches!(r.set_folds(&vec![(8, 12)]), Err(Error::FoldMismatch(7))));
    assert!(r.set_folds(&vec![]).is_err());
    assert!(r.set_folds(&vec![(7, 12), (9, 10)]).is_err());
    assert!(matches!(r.strcts[1].1, FoldInner::Fold(Fold { line: 7, state: FoldState::Open })));
    r.strcts[2].1 = FoldInner::Node((hash("pics/a.png"), NodeView::Visible(2, 3)));
    assert!(r.set_folds(&vec![(7, 12)]).unwrap());
    assert!(matches!(r.strcts[1].1, FoldInner::Fold(Fold { line: 7, state: FoldState::Folded(12) })));
    assert_eq!(node_ids(&r)[1].2, NodeView::Hidden);
    assert!(!r.set_folds(&vec![(7, 12)]).unwrap());
    assert!(r.set_folds(&vec![(7, -1)]).unwrap());
    assert!(matches!(r.strcts[1].1, FoldInner::Fold(Fold { line: 7, state: FoldState::Open })));
}

fn fold_index(entries: &[(usize, Option<&str>)]) -> Render<u32> {
    let mut r: Render<u32> = Render::new();
    for (line, id) in entries {
        match id {
            Some(c) => {
                r.blocks.push(Node::new(hash(c), (*line, *line), c, ContentType::Math));
                r.strcts.push((*line, FoldInner::Node((hash(c), NodeView::Visible(0, 1)))));
            }
            None => r.strcts.push((*line, FoldInner::Fold(Fold { line: *line, state: FoldState::Open }))),
        }
    }
    r
}

#[test]
fn closing_fold_hides_its_end_line() {
    let mut r = fold_index(&[(1, None), (3, Some("a")), (4, Some("b"))]);
    assert!(r.set_folds(&vec![(1, 3)]).unwrap());
    let views = node_ids(&r);
    assert_eq!(views[0].2, NodeView::Hidden);
    assert_eq!(views[1].2, NodeView::Visible(0, 1));
}

#[test]
fn nested_closing_folds_hide_the_outer_body() {
    let mut r = fold_index(&[(1, None), (2, None), (3, Some("a")), (6, Some("b")), (9, Some("c"))]);
    assert!(r.set_folds(&vec![(1, 8), (2, 4)]).unwrap());
    let views = node_ids(&r);
    assert_eq!(views[0].2, NodeView::Hidden);
    assert_eq!(views[1].2, NodeView::Hidden);
    assert_eq!(views[2].2, NodeView::Visible(0, 1));
}

#[test]
fn viewport_resize_hides_all() {
    let mut r: Render<u32> = Render::new();
    r.update_content(DOC).unwrap();
    r.strcts[0].1 = FoldInner::Node((hash("x^2\n"), NodeView::Visible(0, 3)));
    let mut md = Metadata::new();
    md.viewport = (1, 1);
    md.cursor = 4;
    r.update_metadata(md);
    assert_eq!(node_ids(&r)[0].2, NodeView::Visible(0, 3));
    assert_eq!(r.metadata.cursor, 4);
    md.viewport = (40, 100);
    r.update_metadata(md);
    assert_eq!(node_ids(&r)[0].2, NodeView::Hidden);
    r.strcts[0].1 = FoldInner::Node((hash("x^2\n"), NodeView::UpperBorder(1, 2)));
    r.clear_all();
    assert_eq!(node_ids(&r)[0].2, NodeView::Hidden);
}

fn ready_node(id: &str, range: (usize, usize), ch: usize) -> Node<u32> {
    let mut n = Node::new(hash(id), range, id, ContentType::Math);
    n.state = ContentState::Ready(0);
    let d = NodeDim { height: (range.1 - range.0 + 1) * ch, crop: None };
    n.sixel_cache.push((d, vec![1, 2, 3]));
    n
}

fn fold_scene(state: FoldState) -> Render<u32> {
    let mut r: Render<u32> = Render::new();
    r.blocks = vec![ready_node("a", (6, 7), 10), ready_node("b", (8, 9), 10), ready_node("c", (15, 16), 10)];
    r.strcts = vec![
        (5, FoldInner::Fold(Fold { line: 5, state })),
        (6, FoldInner::Node((hash("a"), NodeView::Hidden))),
        (8, FoldInner::Node((hash("b"), NodeView::Hidden))),
        (15, FoldInner::Node((hash("c"), NodeView::Hidden))),
    ];
    let mut md = Metadata::new();
    md.file_range = (1, 20);
    md.viewport = (20, 80);
    md.winpos = (1, 1);
    md.char_height = 10;
    r.metadata = md;
    r
}

fn frame(row: usize, blob: &[u8]) -> Vec<u8> {
    let mut f = format!("\x1b[s\x1b[{};1H", row).into_bytes();
    f.extend_from_slice(blob);
    f.extend_from_slice(b"\x1b[u");
    f
}

#[test]
fn fold_skip() {
    let mut r = fold_scene(FoldState::Folded(12));
    let out = r.draw();
    assert!(!out.pending);
    assert!(out.jobs.is_empty());
    assert!(out.errors.is_empty());
    // only the node after the fold is drawn, 4 + (15 - 12) rows down
    assert_eq!(out.frames, vec![frame(8, &[1, 2, 3])]);
    let views = node_ids(&r);
    assert_eq!(views[0].2, NodeView::Hidden);
    assert_eq!(views[1].2, NodeView::Hidden);
    assert_eq!(views[2].2, NodeView::Visible(7, 2));
    // drawing again needs no new pixels
    assert!(r.draw().frames.is_empty());
}

#[test]
fn open_fold_draws_all() {
    let mut r = fold_scene(FoldState::Open);
    let out = r.draw();
    assert_eq!(out.frames, vec![frame(6, &[1, 2, 3]), frame(8, &[1, 2, 3]), frame(15, &[1, 2, 3])]);
    let views = node_ids(&r);
    assert_eq!(views[0].2, NodeView::Visible(5, 2));
    assert_eq!(views[2].2, NodeView::Visible(14, 2));
}

#[test]
fn out_of_view_entries_are_hidden() {
    let mut r = fold_scene(FoldState::Open);
    r.strcts[3].1 = FoldInner::Node((hash("c"), NodeView::Visible(3, 2)));
    r.metadata.file_range = (1, 10);
    let out = r.draw();
    assert_eq!(out.frames.len(), 2);
    assert_eq!(node_ids(&r)[2].2, NodeView::Hidden);
}

#[test]
fn draw_pending_until_ready() {
    let mut r: Render<u32> = Render::new();
    r.update_content("```math\nx\n```\n").unwrap();
    let mut md = Metadata::new();
    md.file_range = (1, 10);
    md.viewport = (10, 80);
    md.char_height = 10;
    r.update_metadata(md);
    let out = r.draw();
    assert!(out.pending);
    assert!(out.frames.is_empty());
    assert_eq!(out.jobs.len(), 1);
    assert!(matches!(&out.jobs[0], Job::Generate { .. }));
    // nothing new is started while the job runs
    let out = r.draw();
    assert!(out.pending && out.jobs.is_empty());
    r.blocks[0].finish_generation(Ok(5));
    let out = r.draw();
    assert!(out.pending);
    let d = match &out.jobs[0] {
        Job::Render { dim, artifact, .. } => {
            assert_eq!(*artifact, 5);
            *dim
        }
        _ => panic!("expected a render job"),
    };
    assert_eq!(d, NodeDim { height: 30, crop: None });
    r.blocks[0].finish_render(d, vec![7], 5);
    let out = r.draw();
    assert!(!out.pending);
    assert_eq!(out.frames, vec![frame(1, &[7])]);
    assert!(r.draw().frames.is_empty());
}

#[test]
fn draw_reports_failure_once() {
    let mut r: Render<u32> = Render::new();
    r.update_content("```math\nx\n```\n").unwrap();
    let mut md = Metadata::new();
    md.file_range = (1, 10);
    md.viewport = (10, 80);
    r.update_metadata(md);
    let _ = r.draw();
    r.blocks[0].finish_generation(Err(Error::InvalidImage("x.svg".to_string())));
    let out = r.draw();
    assert_eq!(out.errors.len(), 1);
    assert!(!out.pending);
    let out = r.draw();
    assert!(out.errors.is_empty());
    assert_eq!(out.jobs.len(), 1);
}

fn needs_pixels(n: &mut Node<u32>, md: &Metadata, old: NodeView, offset: isize) -> bool {
    let d = Render::draw_node(md, n, old, offset);
    d.pending || d.frame.is_some()
}

#[test]
fn monotonic_transition_table() {
    let mut md = Metadata::new();
    md.viewport = (20, 80);
    md.char_height = 10;
    let mut n = Node::<u32>::new(hash("m"), (10, 14), "m", ContentType::Math);
    n.state = ContentState::Running;
    // scrolling in from the top: every step needs pixels until fully visible
    let mut view = NodeView::Hidden;
    for offset in [-6isize, -4, -3, -1, 0] {
        let new = NodeView::new(&n, &md, offset);
        let need = needs_pixels(&mut n, &md, view, offset);
        assert_eq!(need, new != NodeView::Hidden, "offset {}", offset);
        view = new;
    }
    assert_eq!(view, NodeView::Visible(0, 5));
    // scrolling back out: nothing until hidden
    for offset in [-1isize, -3, -4, -5, -8] {
        let new = NodeView::new(&n, &md, offset);
        assert!(!needs_pixels(&mut n, &md, view, offset), "offset {}", offset);
        let d = Render::draw_node(&md, &mut n, view, offset);
        assert_eq!(d.view, new);
        view = new;
    }
    assert_eq!(view, NodeView::Hidden);
    // and in again from the bottom
    for offset in [20isize, 18, 16, 15] {
        let new = NodeView::new(&n, &md, offset);
        assert_eq!(needs_pixels(&mut n, &md, view, offset), new != NodeView::Hidden);
        view = new;
    }
    assert_eq!(view, NodeView::Visible(15, 5));
}

#[test]
fn cropped_requests() {
    let mut md = Metadata::new();
    md.viewport = (20, 80);
    md.char_height = 10;
    md.winpos = (3, 4);
    let mut n = Node::<u32>::new(hash("m"), (10, 14), "m", ContentType::Math);
    n.state = ContentState::Ready(2);
    let d = Render::draw_node(&md, &mut n, NodeView::Hidden, -3);
    assert!(d.pending);
    assert_eq!(d.view, NodeView::Hidden);
    match d.job {
        Some(Job::Render { dim, .. }) => {
            assert_eq!(dim.height, 50);
            let c = dim.crop.unwrap();
            assert_eq!((c.window, c.offset), (20, 30));
        }
        _ => panic!("expected a render job"),
    }
    let mut n = Node::<u32>::new(hash("m"), (10, 14), "m", ContentType::Math);
    n.state = ContentState::Ready(2);
    let d = Render::draw_node(&md, &mut n, NodeView::Hidden, 17);
    match d.job {
        Some(Job::Render { dim, .. }) => {
            let c = dim.crop.unwrap();
            assert_eq!((c.window, c.offset), (30, 0));
        }
        _ => panic!("expected a render job"),
    }
    // a ready crop is framed at the window position
    n.finish_render(NodeDim { height: 50, crop: dim_crop(30, 0) }, vec![1], 2);
    let d = Render::draw_node(&md, &mut n, NodeView::Hidden, 17);
    assert_eq!(d.frame.unwrap(), b"\x1b[s\x1b[20;4H\x01\x1b[u".to_vec());
    assert_eq!(d.view, NodeView::LowerBorder(17, 3));
}

fn dim_crop(window: usize, offset: usize) -> Option<inline_graphics::content::Crop> {
    Some(inline_graphics::content::Crop { window, offset })
}

#[test]
fn duplicate_entries_drawn_at_their_own_lines() {
    let mut r: Render<u32> = Render::new();
    r.blocks = vec![ready_node("a", (2, 3), 10)];
    r.strcts = vec![
        (2, FoldInner::Node((hash("a"), NodeView::Hidden))),
        (10, FoldInner::Node((hash("a"), NodeView::Hidden))),
    ];
    let mut md = Metadata::new();
    md.file_range = (1, 20);
    md.viewport = (20, 80);
    md.winpos = (1, 1);
    md.char_height = 10;
    r.metadata = md;
    let out = r.draw();
    assert_eq!(out.frames, vec![frame(2, &[1, 2, 3]), frame(10, &[1, 2, 3])]);
    let views = node_ids(&r);
    assert_eq!(views[0].2, NodeView::Visible(1, 2));
    assert_eq!(views[1].2, NodeView::Visible(9, 2));
}
