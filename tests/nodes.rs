use inline_graphics::content::{ContentState, ContentType, Crop, Job, Node, NodeDim};
use inline_graphics::error::Error;
use inline_graphics::node_view::NodeView;
use inline_graphics::render::Metadata;
use inline_graphics::utils::hash;

fn dim(height: usize) -> NodeDim {
    NodeDim { height, crop: None }
}

fn node(range: (usize, usize)) -> Node<u32> {
    Node::new(hash("x^2"), range, "x^2", ContentType::Math)
}

fn metadata(rows: u64) -> Metadata {
    let mut md = Metadata::new();
    md.file_range = (1, 20);
    md.viewport = (rows, 80);
    md
}

#[test]
fn hash_is_digest_prefix() {
    assert_eq!(hash("abc"), "ba7816bf8f01cfea414140de");
    assert_eq!(hash(""), "e3b0c44298fc1c149afbf4c8");
    assert_eq!(hash("x^2").len(), 24);
}

#[test]
fn fence_keywords() {
    assert_eq!(ContentType::from_fence("math").unwrap(), ContentType::Math);
    assert_eq!(ContentType::from_fence("gnuplot").unwrap(), ContentType::Gnuplot);
    assert_eq!(ContentType::from_fence("latex").unwrap(), ContentType::Tex);
    assert_eq!(ContentType::from_fence("tex").unwrap(), ContentType::Tex);
    match ContentType::from_fence("rust") {
        Err(Error::UnknownFence(k)) => assert_eq!(k, "rust"),
        _ => panic!("unknown keyword accepted"),
    }
}

#[test]
fn artifact_paths() {
    assert_eq!(ContentType::File.path("pics/a.png"), "pics/a.png");
    assert_eq!(ContentType::Math.path("abc"), "/tmp/nvim_arts/ba7816bf8f01cfea414140de.svg");
    assert_eq!(ContentType::Tex.path(""), "/tmp/nvim_arts/e3b0c44298fc1c149afbf4c8.svg");
}

#[test]
fn metadata_defaults() {
    let md = Metadata::new();
    assert_eq!(md.file_range, (1, 1));
    assert_eq!(md.viewport, (1, 1));
    assert_eq!(md.cursor, 1);
    assert_eq!(md.winpos, (1, 1));
    assert_eq!(md.char_height, 0);
}

#[test]
fn viewport_classification_boundary() {
    let n = node((10, 14));
    let md = metadata(20);
    assert_eq!(NodeView::new(&n, &md, -5), NodeView::Hidden);
    assert_eq!(NodeView::new(&n, &md, -7), NodeView::Hidden);
    assert_eq!(NodeView::new(&n, &md, -3), NodeView::UpperBorder(3, 2));
    assert_eq!(NodeView::new(&n, &md, 0), NodeView::Visible(0, 5));
    assert_eq!(NodeView::new(&n, &md, 15), NodeView::Visible(15, 5));
    assert_eq!(NodeView::new(&n, &md, 17), NodeView::LowerBorder(17, 3));
    assert_eq!(NodeView::new(&n, &md, 20), NodeView::Hidden);
    let short = metadata(3);
    assert_eq!(NodeView::new(&n, &short, 0), NodeView::LowerBorder(0, 3));
}

#[test]
fn visibility_flag() {
    assert!(!NodeView::Hidden.is_visible());
    assert!(NodeView::UpperBorder(1, 1).is_visible());
    assert!(NodeView::LowerBorder(0, 1).is_visible());
    assert!(NodeView::Visible(0, 1).is_visible());
}

#[test]
fn at_most_one_job_in_flight() {
    let mut n = node((1, 2));
    let (answer, job) = n.get_sixel(dim(20));
    assert!(answer.is_none());
    match job {
        Some(Job::Generate { id, kind, content }) => {
            assert_eq!(id, hash("x^2"));
            assert_eq!(kind, ContentType::Math);
            assert_eq!(content, "x^2");
        }
        _ => panic!("first request must start generation"),
    }
    assert!(matches!(n.state, ContentState::Running));
    for height in [20, 30, 20] {
        let (answer, job) = n.get_sixel(dim(height));
        assert!(answer.is_none());
        assert!(job.is_none());
    }
}

#[test]
fn cached_geometry_round_trip() {
    let mut n = node((1, 2));
    let _ = n.get_sixel(dim(20));
    n.finish_generation(Ok(7));
    let (answer, job) = n.get_sixel(dim(20));
    assert!(answer.is_none());
    match job {
        Some(Job::Render { artifact, dim: d, .. }) => {
            assert_eq!(artifact, 7);
            assert_eq!(d, dim(20));
        }
        _ => panic!("ready artifact must be rendered"),
    }
    // a second request while rendering starts nothing
    let (answer, job) = n.get_sixel(dim(20));
    assert!(answer.is_none() && job.is_none());
    n.finish_render(dim(20), vec![1, 2, 3], 7);
    assert!(matches!(n.state, ContentState::Ready(7)));
    for _ in 0..2 {
        let (answer, job) = n.get_sixel(dim(20));
        assert_eq!(answer.unwrap().unwrap(), vec![1, 2, 3]);
        assert!(job.is_none());
    }
    // entries are never rewritten
    n.finish_render(dim(20), vec![9], 7);
    let (answer, _) = n.get_sixel(dim(20));
    assert_eq!(answer.unwrap().unwrap(), vec![1, 2, 3]);
    assert_eq!(n.sixel_cache.len(), 1);
}

#[test]
fn cropped_geometries_are_distinct() {
    let mut n = node((1, 2));
    let cropped = NodeDim { height: 20, crop: Some(Crop { window: 10, offset: 0 }) };
    let _ = n.get_sixel(dim(20));
    n.finish_generation(Ok(1));
    let _ = n.get_sixel(dim(20));
    n.finish_render(dim(20), vec![5], 1);
    let (answer, job) = n.get_sixel(cropped);
    assert!(answer.is_none());
    assert!(matches!(job, Some(Job::Render { .. })));
}

#[test]
fn failure_reported_once_then_retried() {
    let mut n = node((1, 2));
    let _ = n.get_sixel(dim(20));
    n.finish_generation(Err(Error::FileNotFound("a.png".to_string())));
    let (answer, job) = n.get_sixel(dim(20));
    match answer {
        Some(Err(Error::FileNotFound(p))) => assert_eq!(p, "a.png"),
        _ => panic!("failure must be reported"),
    }
    assert!(job.is_none());
    assert!(matches!(n.state, ContentState::Empty));
    let (answer, job) = n.get_sixel(dim(20));
    assert!(answer.is_none());
    assert!(matches!(job, Some(Job::Generate { .. })));
}

#[test]
fn stale_results_are_ignored() {
    let mut n = node((1, 2));
    n.finish_generation(Ok(3));
    assert!(matches!(n.state, ContentState::Empty));
    n.finish_render(dim(20), vec![4], 3);
    assert!(matches!(n.state, ContentState::Empty));
    let (answer, _) = n.get_sixel(dim(20));
    assert_eq!(answer.unwrap().unwrap(), vec![4]);
}
