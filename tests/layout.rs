use taffy::geometry::{AvailableSpace, Dimension, Rect, Size};
use taffy::node::{NodeId, TaffyError};
use taffy::style::{AlignItems, AspectRatio, Display, FlexDirection, GridTrack, JustifyContent, Style};
use taffy::tree::TaffyTree;

fn definite(w: u32, h: u32) -> Size<AvailableSpace> {
    Size { width: AvailableSpace::Definite(w), height: AvailableSpace::Definite(h) }
}

fn max_content() -> Size<AvailableSpace> {
    Size { width: AvailableSpace::MaxContent, height: AvailableSpace::MaxContent }
}

fn fixed(w: u32, h: u32) -> Size<Dimension> {
    Size { width: Dimension::Length(w), height: Dimension::Length(h) }
}

fn margin(left: u32, right: u32, top: u32, bottom: u32) -> Rect<u32> {
    Rect { left, right, top, bottom }
}

fn widths(tree: &TaffyTree, ids: &[NodeId]) -> Vec<u32> {
    ids.iter().map(|id| tree.layout(*id).unwrap().size.width).collect()
}

#[test]
fn block_siblings_collapse_margins() {
    let mut tree = TaffyTree::new();
    let a = tree
        .new_leaf(Style { size: fixed(100, 50), margin: margin(0, 0, 0, 10), ..Default::default() })
        .unwrap();
    let b = tree
        .new_leaf(Style { size: fixed(100, 50), margin: margin(0, 0, 20, 0), ..Default::default() })
        .unwrap();
    let root = tree.new_with_children(Style { display: Display::Block, ..Default::default() }, &[a, b]).unwrap();
    tree.compute_layout(root, max_content()).unwrap();
    let la = tree.layout(a).unwrap();
    let lb = tree.layout(b).unwrap();
    assert_eq!(la.y, 0);
    assert_eq!(lb.y - (la.y + la.size.height), 20);
    assert_eq!(tree.layout(root).unwrap().size.height, 120);
}

#[test]
fn block_stretches_auto_width() {
    let mut tree = TaffyTree::new();
    let a = tree
        .new_leaf(Style {
            size: Size { width: Dimension::Auto, height: Dimension::Length(30) },
            margin: margin(5, 15, 0, 0),
            ..Default::default()
        })
        .unwrap();
    let root = tree
        .new_with_children(Style { display: Display::Block, size: fixed(200, 100), ..Default::default() }, &[a])
        .unwrap();
    tree.compute_layout(root, max_content()).unwrap();
    let la = tree.layout(a).unwrap();
    assert_eq!((la.x, la.size.width, la.size.height), (5, 180, 30));
}

#[test]
fn flex_grow_shares_free_space() {
    let mut tree = TaffyTree::new();
    let mut kids = Vec::new();
    for g in [1u32, 2, 1] {
        kids.push(tree.new_leaf(Style { flex_basis: Dimension::Length(0), flex_grow: g, ..Default::default() }).unwrap());
    }
    let root = tree.new_with_children(Style { size: fixed(300, 100), ..Default::default() }, &kids).unwrap();
    tree.compute_layout(root, max_content()).unwrap();
    let w = widths(&tree, &kids);
    assert_eq!(w, vec![75, 150, 75]);
    assert_eq!(w.iter().sum::<u32>(), 300);
    let xs: Vec<u32> = kids.iter().map(|k| tree.layout(*k).unwrap().x).collect();
    assert_eq!(xs, vec![0, 75, 225]);
    // stretched across the row
    assert_eq!(tree.layout(kids[0]).unwrap().size.height, 100);
}

#[test]
fn flex_shrink_stops_at_min_size() {
    let mut tree = TaffyTree::new();
    let mut kids = Vec::new();
    for _ in 0..2 {
        kids.push(
            tree.new_leaf(Style {
                flex_basis: Dimension::Length(80),
                flex_shrink: 1,
                min_size: Size { width: Dimension::Length(50), height: Dimension::Auto },
                ..Default::default()
            })
            .unwrap(),
        );
    }
    let root = tree.new_with_children(Style { size: fixed(100, 40), ..Default::default() }, &kids).unwrap();
    tree.compute_layout(root, max_content()).unwrap();
    assert_eq!(widths(&tree, &kids), vec![50, 50]);
}

#[test]
fn flex_shrink_without_shrinkable_items_overflows() {
    let mut tree = TaffyTree::new();
    let mut kids = Vec::new();
    for _ in 0..2 {
        kids.push(tree.new_leaf(Style { flex_basis: Dimension::Length(80), flex_shrink: 0, ..Default::default() }).unwrap());
    }
    let root = tree.new_with_children(Style { size: fixed(100, 40), ..Default::default() }, &kids).unwrap();
    tree.compute_layout(root, max_content()).unwrap();
    assert_eq!(widths(&tree, &kids), vec![80, 80]);
    assert_eq!(tree.layout(kids[1]).unwrap().x, 80);
}

#[test]
fn flex_column_with_gap() {
    let mut tree = TaffyTree::new();
    let a = tree.new_leaf(Style { size: fixed(10, 20), ..Default::default() }).unwrap();
    let b = tree.new_leaf(Style { size: fixed(10, 30), ..Default::default() }).unwrap();
    let root = tree
        .new_with_children(
            Style {
                flex_direction: FlexDirection::Column,
                gap: Size { width: 0, height: 5 },
                ..Default::default()
            },
            &[a, b],
        )
        .unwrap();
    tree.compute_layout(root, max_content()).unwrap();
    assert_eq!(tree.layout(b).unwrap().y, 25);
    assert_eq!(tree.layout(root).unwrap().size, Size { width: 10, height: 55 });
}

#[test]
fn grid_fr_columns() {
    let mut tree = TaffyTree::new();
    let mut kids = Vec::new();
    for _ in 0..3 {
        kids.push(tree.new_leaf(Style::default()).unwrap());
    }
    let root = tree
        .new_with_children(
            Style {
                display: Display::Grid,
                size: fixed(300, 50),
                grid_template_columns: vec![GridTrack::Fr(1), GridTrack::Fr(2), GridTrack::Fr(1)],
                ..Default::default()
            },
            &kids,
        )
        .unwrap();
    tree.compute_layout(root, max_content()).unwrap();
    assert_eq!(widths(&tree, &kids), vec![75, 150, 75]);
    let xs: Vec<u32> = kids.iter().map(|k| tree.layout(*k).unwrap().x).collect();
    assert_eq!(xs, vec![0, 75, 225]);
}

#[test]
fn grid_wraps_rows_and_sizes_fixed_and_auto_columns() {
    let mut tree = TaffyTree::new();
    let mut kids = Vec::new();
    for h in [10u32, 20, 30] {
        kids.push(tree.new_leaf(Style { size: fixed(40, h), ..Default::default() }).unwrap());
    }
    let root = tree
        .new_with_children(
            Style {
                display: Display::Grid,
                grid_template_columns: vec![GridTrack::Length(100), GridTrack::Auto],
                gap: Size { width: 10, height: 4 },
                ..Default::default()
            },
            &kids,
        )
        .unwrap();
    tree.compute_layout(root, max_content()).unwrap();
    let third = tree.layout(kids[2]).unwrap();
    assert_eq!((third.x, third.y), (0, 24));
    assert_eq!(tree.layout(kids[1]).unwrap().x, 110);
    assert_eq!(tree.layout(root).unwrap().size, Size { width: 150, height: 54 });
}

#[test]
fn aspect_ratio_gives_height() {
    let mut tree = TaffyTree::new();
    let leaf = tree
        .new_leaf(Style {
            size: Size { width: Dimension::Length(100), height: Dimension::Auto },
            aspect_ratio: Some(AspectRatio { width: 2, height: 1 }),
            ..Default::default()
        })
        .unwrap();
    tree.compute_layout(leaf, max_content()).unwrap();
    assert_eq!(tree.layout(leaf).unwrap().size, Size { width: 100, height: 50 });
}

#[test]
fn percent_and_content_size() {
    let mut tree = TaffyTree::new();
    let leaf = tree
        .new_leaf(Style {
            size: Size { width: Dimension::Percent(5000), height: Dimension::Auto },
            padding: margin(1, 1, 2, 2),
            ..Default::default()
        })
        .unwrap();
    tree.set_content_size(leaf, Size { width: 7, height: 9 }).unwrap();
    tree.compute_layout(leaf, definite(300, 300)).unwrap();
    assert_eq!(tree.layout(leaf).unwrap().size, Size { width: 150, height: 13 });
}

#[test]
fn min_and_max_size_clamp() {
    let mut tree = TaffyTree::new();
    let leaf = tree
        .new_leaf(Style {
            size: fixed(500, 5),
            max_size: Size { width: Dimension::Length(200), height: Dimension::Auto },
            min_size: Size { width: Dimension::Auto, height: Dimension::Length(20) },
            ..Default::default()
        })
        .unwrap();
    tree.compute_layout(leaf, max_content()).unwrap();
    assert_eq!(tree.layout(leaf).unwrap().size, Size { width: 200, height: 20 });
}

#[test]
fn layout_twice_gives_the_same_geometry() {
    let mut tree = TaffyTree::new();
    let a = tree.new_leaf(Style { flex_grow: 1, ..Default::default() }).unwrap();
    let b = tree.new_leaf(Style { size: fixed(30, 30), ..Default::default() }).unwrap();
    let root = tree.new_with_children(Style { size: fixed(100, 50), ..Default::default() }, &[a, b]).unwrap();
    tree.compute_layout(root, max_content()).unwrap();
    let first: Vec<_> = [root, a, b].iter().map(|n| tree.layout(*n).unwrap()).collect();
    tree.compute_layout(root, max_content()).unwrap();
    let second: Vec<_> = [root, a, b].iter().map(|n| tree.layout(*n).unwrap()).collect();
    assert_eq!(first, second);
    assert_eq!(first[1].size.width, 70);
}

#[test]
fn cache_does_not_change_results() {
    // One tree laid out after its caches were cleared by a change of style,
    // the other fresh: both agree.
    let build = |tree: &mut TaffyTree| {
        let a = tree.new_leaf(Style { flex_grow: 1, ..Default::default() }).unwrap();
        let b = tree.new_leaf(Style { size: fixed(30, 30), ..Default::default() }).unwrap();
        let root = tree.new_with_children(Style { size: fixed(100, 50), ..Default::default() }, &[a, b]).unwrap();
        (root, a)
    };
    let mut warm = TaffyTree::new();
    let (root1, a1) = build(&mut warm);
    warm.compute_layout(root1, max_content()).unwrap();
    warm.compute_layout(root1, definite(10, 10)).unwrap();
    warm.compute_layout(root1, max_content()).unwrap();
    let mut cold = TaffyTree::new();
    let (root2, a2) = build(&mut cold);
    cold.compute_layout(root2, max_content()).unwrap();
    assert_eq!(warm.layout(a1).unwrap(), cold.layout(a2).unwrap());
    assert_eq!(warm.layout(root1).unwrap(), cold.layout(root2).unwrap());
}

#[test]
fn cycle_is_rejected() {
    let mut tree = TaffyTree::new();
    let c = tree.new_leaf(Style::default()).unwrap();
    let b = tree.new_with_children(Style::default(), &[c]).unwrap();
    let a = tree.new_with_children(Style::default(), &[b]).unwrap();
    assert_eq!(tree.set_children(c, &[a]), Err(TaffyError::CycleDetected));
    assert_eq!(tree.set_children(c, &[c]), Err(TaffyError::CycleDetected));
    assert_eq!(tree.children(c).unwrap(), Vec::<NodeId>::new());
    assert_eq!(tree.children(a).unwrap(), vec![b]);
    assert_eq!(tree.parent(a), None);
}

#[test]
fn child_already_parented() {
    let mut tree = TaffyTree::new();
    let c = tree.new_leaf(Style::default()).unwrap();
    let p = tree.new_with_children(Style::default(), &[c]).unwrap();
    let q = tree.new_leaf(Style::default()).unwrap();
    assert_eq!(tree.set_children(q, &[c]), Err(TaffyError::ChildAlreadyParented));
    let d = tree.new_leaf(Style::default()).unwrap();
    assert_eq!(tree.set_children(q, &[d, d]), Err(TaffyError::ChildAlreadyParented));
    assert_eq!(tree.new_with_children(Style::default(), &[c]), Err(TaffyError::ChildAlreadyParented));
    assert_eq!(tree.parent(c), Some(p));
    // giving a parent its own child again is fine
    assert_eq!(tree.set_children(p, &[c, d]), Ok(()));
    assert_eq!(tree.children(p).unwrap(), vec![c, d]);
}

#[test]
fn remove_needs_no_children_and_detaches() {
    let mut tree = TaffyTree::new();
    let c = tree.new_leaf(Style::default()).unwrap();
    let d = tree.new_leaf(Style::default()).unwrap();
    let p = tree.new_with_children(Style::default(), &[c, d]).unwrap();
    assert_eq!(tree.remove(p), Err(TaffyError::NodeHasChildren));
    assert_eq!(tree.remove(c), Ok(c));
    assert_eq!(tree.children(p).unwrap(), vec![d]);
    assert_eq!(tree.remove(c), Err(TaffyError::InvalidNodeHandle));
    assert_eq!(tree.layout(c), Err(TaffyError::InvalidNodeHandle));
    // the slot is reused under a new generation; the old handle stays invalid
    let e = tree.new_leaf(Style::default()).unwrap();
    assert_eq!(e.index, c.index);
    assert_ne!(e, c);
    assert!(!tree.is_valid(c));
    assert!(tree.is_valid(e));
}

#[test]
fn invalid_handles() {
    let mut tree = TaffyTree::new();
    let a = tree.new_leaf(Style::default()).unwrap();
    let ghost = NodeId { index: 7, generation: 0 };
    assert_eq!(tree.set_children(a, &[ghost]), Err(TaffyError::InvalidNodeHandle));
    assert_eq!(tree.set_children(ghost, &[a]), Err(TaffyError::InvalidNodeHandle));
    assert_eq!(tree.compute_layout(ghost, max_content()), Err(TaffyError::InvalidNodeHandle));
    assert_eq!(tree.set_style(ghost, Style::default()), Err(TaffyError::InvalidNodeHandle));
    assert!(tree.style(ghost).is_err());
}

#[test]
fn depth_limit_fails_without_touching_layouts() {
    let mut tree = TaffyTree::new();
    let c = tree.new_leaf(Style { size: fixed(10, 10), ..Default::default() }).unwrap();
    let root = tree.new_with_children(Style::default(), &[c]).unwrap();
    tree.compute_layout(root, max_content()).unwrap();
    let before = tree.layout(c).unwrap();
    tree.set_style(c, Style { size: fixed(20, 20), ..Default::default() }).unwrap();
    tree.set_max_depth(1);
    assert_eq!(tree.compute_layout(root, max_content()), Err(TaffyError::DepthLimitExceeded));
    assert_eq!(tree.layout(c).unwrap(), before);
    tree.set_max_depth(2);
    tree.compute_layout(root, max_content()).unwrap();
    assert_eq!(tree.layout(c).unwrap().size, Size { width: 20, height: 20 });
}

#[test]
fn hidden_node_takes_no_space() {
    let mut tree = TaffyTree::new();
    let c = tree.new_leaf(Style { size: fixed(10, 10), ..Default::default() }).unwrap();
    let root = tree.new_with_children(Style { display: Display::Hidden, ..Default::default() }, &[c]).unwrap();
    tree.compute_layout(root, max_content()).unwrap();
    assert_eq!(tree.layout(root).unwrap().size, Size { width: 0, height: 0 });
}

#[test]
fn empty_container_has_zero_content() {
    let mut tree = TaffyTree::new();
    let root = tree.new_leaf(Style { padding: margin(3, 4, 5, 6), ..Default::default() }).unwrap();
    tree.compute_layout(root, max_content()).unwrap();
    assert_eq!(tree.layout(root).unwrap().size, Size { width: 7, height: 11 });
}

fn justified_xs(j: JustifyContent) -> Vec<u32> {
    let mut tree = TaffyTree::new();
    let mut kids = Vec::new();
    for _ in 0..2 {
        kids.push(tree.new_leaf(Style { size: fixed(50, 10), ..Default::default() }).unwrap());
    }
    let root = tree
        .new_with_children(Style { size: fixed(300, 100), justify_content: j, ..Default::default() }, &kids)
        .unwrap();
    tree.compute_layout(root, max_content()).unwrap();
    kids.iter().map(|k| tree.layout(*k).unwrap().x).collect()
}

#[test]
fn justify_content_places_free_space() {
    assert_eq!(justified_xs(JustifyContent::Start), vec![0, 50]);
    assert_eq!(justified_xs(JustifyContent::End), vec![200, 250]);
    assert_eq!(justified_xs(JustifyContent::Center), vec![100, 150]);
    assert_eq!(justified_xs(JustifyContent::SpaceBetween), vec![0, 250]);
    assert_eq!(justified_xs(JustifyContent::SpaceAround), vec![50, 200]);
    assert_eq!(justified_xs(JustifyContent::SpaceEvenly), vec![66, 182]);
}

#[test]
fn align_items_places_across() {
    let mut tree = TaffyTree::new();
    let a = tree.new_leaf(Style { size: fixed(10, 20), ..Default::default() }).unwrap();
    let b = tree.new_leaf(Style { size: Size { width: Dimension::Length(10), height: Dimension::Auto }, ..Default::default() }).unwrap();
    let root = tree
        .new_with_children(Style { size: fixed(100, 100), align_items: AlignItems::Center, ..Default::default() }, &[a, b])
        .unwrap();
    tree.compute_layout(root, max_content()).unwrap();
    assert_eq!(tree.layout(a).unwrap().y, 40);
    assert_eq!(tree.layout(b).unwrap().size.height, 0);
    tree.set_style(root, Style { size: fixed(100, 100), align_items: AlignItems::End, ..Default::default() }).unwrap();
    tree.compute_layout(root, max_content()).unwrap();
    assert_eq!(tree.layout(a).unwrap().y, 80);
    tree.set_style(root, Style { size: fixed(100, 100), ..Default::default() }).unwrap();
    tree.compute_layout(root, max_content()).unwrap();
    assert_eq!(tree.layout(a).unwrap().y, 0);
    assert_eq!(tree.layout(b).unwrap().size.height, 100);
}

#[test]
fn grid_row_template_sizes_rows() {
    let mut tree = TaffyTree::new();
    let mut kids = Vec::new();
    for _ in 0..4 {
        kids.push(tree.new_leaf(Style::default()).unwrap());
    }
    let root = tree
        .new_with_children(
            Style {
                display: Display::Grid,
                size: fixed(300, 200),
                grid_template_columns: vec![GridTrack::Fr(1), GridTrack::Fr(1)],
                grid_template_rows: vec![GridTrack::Length(50), GridTrack::Fr(1)],
                ..Default::default()
            },
            &kids,
        )
        .unwrap();
    tree.compute_layout(root, max_content()).unwrap();
    let first = tree.layout(kids[0]).unwrap();
    let last = tree.layout(kids[3]).unwrap();
    assert_eq!((first.x, first.y, first.size.width, first.size.height), (0, 0, 150, 50));
    assert_eq!((last.x, last.y, last.size.width, last.size.height), (150, 50, 150, 150));
}

#[test]
fn align_self_overrides_container() {
    let mut tree = TaffyTree::new();
    let a = tree
        .new_leaf(Style { size: fixed(10, 20), align_self: Some(AlignItems::End), ..Default::default() })
        .unwrap();
    let b = tree.new_leaf(Style { size: fixed(10, 20), ..Default::default() }).unwrap();
    let root = tree
        .new_with_children(Style { size: fixed(100, 100), align_items: AlignItems::Center, ..Default::default() }, &[a, b])
        .unwrap();
    tree.compute_layout(root, max_content()).unwrap();
    assert_eq!(tree.layout(a).unwrap().y, 80);
    assert_eq!(tree.layout(b).unwrap().y, 40);
}

#[test]
fn clearing_the_cache_before_each_layout_changes_nothing() {
    let mut tree = TaffyTree::new();
    let a = tree.new_leaf(Style { flex_basis: Dimension::Length(10), flex_grow: 3, ..Default::default() }).unwrap();
    let b = tree.new_leaf(Style { flex_basis: Dimension::Length(10), flex_grow: 1, ..Default::default() }).unwrap();
    let root = tree.new_with_children(Style { size: fixed(120, 10), ..Default::default() }, &[a, b]).unwrap();
    tree.compute_layout(root, max_content()).unwrap();
    let cached: Vec<_> = [root, a, b].iter().map(|n| tree.layout(*n).unwrap()).collect();
    tree.clear_cache();
    tree.compute_layout(root, max_content()).unwrap();
    let fresh: Vec<_> = [root, a, b].iter().map(|n| tree.layout(*n).unwrap()).collect();
    assert_eq!(cached, fresh);
    assert_eq!((fresh[1].size.width, fresh[2].size.width), (85, 35));
}

#[test]
fn flex_redistributes_after_a_max_clamp() {
    let mut tree = TaffyTree::new();
    let a = tree.new_leaf(Style { flex_basis: Dimension::Length(0), flex_grow: 1, ..Default::default() }).unwrap();
    let b = tree
        .new_leaf(Style {
            flex_basis: Dimension::Length(0),
            flex_grow: 1,
            max_size: Size { width: Dimension::Length(50), height: Dimension::Auto },
            ..Default::default()
        })
        .unwrap();
    let root = tree.new_with_children(Style { size: fixed(300, 10), ..Default::default() }, &[a, b]).unwrap();
    tree.compute_layout(root, max_content()).unwrap();
    assert_eq!(widths(&tree, &[a, b]), vec![250, 50]);
}

#[test]
fn flex_shrink_redistributes_after_a_min_clamp() {
    let mut tree = TaffyTree::new();
    let a = tree.new_leaf(Style { flex_basis: Dimension::Length(100), ..Default::default() }).unwrap();
    let b = tree
        .new_leaf(Style {
            flex_basis: Dimension::Length(100),
            min_size: Size { width: Dimension::Length(90), height: Dimension::Auto },
            ..Default::default()
        })
        .unwrap();
    let root = tree.new_with_children(Style { size: fixed(120, 10), ..Default::default() }, &[a, b]).unwrap();
    tree.compute_layout(root, max_content()).unwrap();
    assert_eq!(widths(&tree, &[a, b]), vec![30, 90]);
}

#[test]
fn deep_tree_laid_out_at_every_level() {
    let mut tree = TaffyTree::new();
    let leaf = tree.new_leaf(Style { size: fixed(10, 10), margin: margin(3, 0, 4, 0), ..Default::default() }).unwrap();
    let mid = tree.new_with_children(Style { display: Display::Block, padding: margin(1, 1, 1, 1), ..Default::default() }, &[leaf]).unwrap();
    let root = tree.new_with_children(Style { size: fixed(100, 100), ..Default::default() }, &[mid]).unwrap();
    tree.compute_layout(root, max_content()).unwrap();
    let first: Vec<_> = [root, mid, leaf].iter().map(|n| tree.layout(*n).unwrap()).collect();
    let l = first[2];
    assert_eq!((l.x, l.y, l.size.width, l.size.height), (3, 4, 10, 10));
    tree.compute_layout(root, definite(5, 5)).unwrap();
    tree.compute_layout(root, max_content()).unwrap();
    let again: Vec<_> = [root, mid, leaf].iter().map(|n| tree.layout(*n).unwrap()).collect();
    assert_eq!(first, again);
}
