use taffy::geometry::{AvailableSpace, Dimension, Size};
use taffy::node::NodeId;
use taffy::node_builder::{NodeIdHandle, StyleNode};
use taffy::style::{FlexDirection, Style};
use taffy::style_builder::{RefHandle, StyleBuilder};
use taffy::tree::TaffyTree;

fn max_content() -> Size<AvailableSpace> {
    Size { width: AvailableSpace::MaxContent, height: AvailableSpace::MaxContent }
}

fn length(v: u32) -> Dimension {
    Dimension::Length(v)
}

fn auto() -> Dimension {
    Dimension::Auto
}

/// The tree both builders are compared against: a column of a header and a
/// growing body.
fn reference_tree() -> (TaffyTree, NodeId, NodeId, NodeId) {
    let mut tree = TaffyTree::new();
    let header_node = tree
        .new_leaf(Style { size: Size { width: length(800), height: length(100) }, ..Default::default() })
        .unwrap();
    let body_node = tree
        .new_leaf(Style { size: Size { width: length(800), height: auto() }, flex_grow: 1, ..Default::default() })
        .unwrap();
    let root_node = tree
        .new_with_children(
            Style {
                flex_direction: FlexDirection::Column,
                size: Size { width: length(800), height: length(600) },
                ..Default::default()
            },
            &[header_node, body_node],
        )
        .unwrap();
    tree.compute_layout(root_node, max_content()).unwrap();
    (tree, root_node, header_node, body_node)
}

#[test]
fn builder_defaults_match_defaults() {
    assert_eq!(StyleBuilder::default().build_style(), Style::default())
}

#[test]
fn builder_readme_example() {
    let (tree, root_node, header_node, body_node) = reference_tree();

    let mut builder_tree = TaffyTree::new();
    let header_node_handle = RefHandle::new();
    let body_node_handle = RefHandle::new();

    let builder_root_node = StyleBuilder::new()
        .flex_direction(FlexDirection::Column)
        .size(Size { width: length(800), height: length(600) })
        .child(
            StyleBuilder::new()
                .size(Size { width: length(800), height: length(100) })
                .handle(header_node_handle.clone()),
        )
        .child(
            StyleBuilder::new()
                .size(Size { width: length(800), height: auto() })
                .flex_grow(1)
                .handle(body_node_handle.clone()),
        )
        .build(&mut builder_tree)
        .unwrap();

    builder_tree.compute_layout(builder_root_node, max_content()).unwrap();

    assert_eq!(
        tree.layout(root_node).unwrap().size.width,
        builder_tree.layout(builder_root_node).unwrap().size.width
    );
    assert_eq!(
        tree.layout(root_node).unwrap().size.height,
        builder_tree.layout(builder_root_node).unwrap().size.height
    );
    assert_eq!(
        tree.layout(header_node).unwrap().size.width,
        builder_tree.layout(header_node_handle.get().unwrap()).unwrap().size.width
    );
    assert_eq!(
        tree.layout(header_node).unwrap().size.height,
        builder_tree.layout(header_node_handle.get().unwrap()).unwrap().size.height
    );
    assert_eq!(
        tree.layout(body_node).unwrap().size.width,
        builder_tree.layout(body_node_handle.get().unwrap()).unwrap().size.width
    );
    assert_eq!(
        tree.layout(body_node).unwrap().size.height,
        builder_tree.layout(body_node_handle.get().unwrap()).unwrap().size.height
    );
}

#[test]
fn row() {
    assert_eq!(StyleBuilder::row().build_style(), Style { flex_direction: FlexDirection::Row, ..Default::default() })
}

#[test]
fn column() {
    assert_eq!(
        StyleBuilder::column().build_style(),
        Style { flex_direction: FlexDirection::Column, ..Default::default() }
    )
}

#[test]
fn readme_example() {
    let (tree, root_node, header_node, body_node) = reference_tree();

    let mut builder_tree = TaffyTree::new();
    let header_node_handle = NodeIdHandle::new();
    let body_node_handle = NodeIdHandle::new();

    let builder_root_node = StyleNode::new()
        .style(|s| {
            s.flex_direction(FlexDirection::Column).size(Size { width: length(800), height: length(600) });
        })
        .child(|c| {
            c.style(|s| {
                s.size(Size { width: length(800), height: length(100) });
            })
            .handle(Some(header_node_handle.clone()));
        })
        .child(|c| {
            c.style(|s| {
                s.size(Size { width: length(800), height: auto() }).flex_grow(1);
            })
            .handle(Some(body_node_handle.clone()));
        })
        .build(&mut builder_tree)
        .unwrap();

    builder_tree.compute_layout(builder_root_node, max_content()).unwrap();

    assert_eq!(
        tree.layout(root_node).unwrap().size.width,
        builder_tree.layout(builder_root_node).unwrap().size.width
    );
    assert_eq!(
        tree.layout(root_node).unwrap().size.height,
        builder_tree.layout(builder_root_node).unwrap().size.height
    );
    assert_eq!(
        tree.layout(header_node).unwrap().size.width,
        builder_tree.layout(header_node_handle.get().unwrap()).unwrap().size.width
    );
    assert_eq!(
        tree.layout(header_node).unwrap().size.height,
        builder_tree.layout(header_node_handle.get().unwrap()).unwrap().size.height
    );
    assert_eq!(
        tree.layout(body_node).unwrap().size.width,
        builder_tree.layout(body_node_handle.get().unwrap()).unwrap().size.width
    );
    assert_eq!(
        tree.layout(body_node).unwrap().size.height,
        builder_tree.layout(body_node_handle.get().unwrap()).unwrap().size.height
    );
}

#[test]
fn readme_example_sizes() {
    let (tree, root_node, header_node, body_node) = reference_tree();
    assert_eq!(tree.layout(root_node).unwrap().size, Size { width: 800, height: 600 });
    let header = tree.layout(header_node).unwrap();
    assert_eq!((header.x, header.y, header.size.width, header.size.height), (0, 0, 800, 100));
    let body = tree.layout(body_node).unwrap();
    assert_eq!((body.x, body.y, body.size.width, body.size.height), (0, 100, 800, 500));
}

#[test]
fn builder_handle_receives_the_node() {
    let mut tree = TaffyTree::new();
    let handle = RefHandle::new();
    assert_eq!(handle.get(), None);
    let root = StyleBuilder::row().handle(handle.clone()).build(&mut tree).unwrap();
    assert_eq!(handle.get(), Some(root));
    assert_eq!(tree.style(root).unwrap().flex_direction, FlexDirection::Row);
}

#[test]
fn style_node_grow_one_two_one() {
    let mut tree = TaffyTree::new();
    let handles = [NodeIdHandle::new(), NodeIdHandle::new(), NodeIdHandle::new()];
    let mut root = StyleNode::new();
    root.style(|s| {
        s.flex_direction(FlexDirection::Row).size(Size { width: length(300), height: auto() });
    });
    for (h, g) in handles.iter().zip([1u32, 2, 1]) {
        root.child(|c| {
            c.style(|s| {
                s.flex_basis(length(0)).flex_grow(g);
            })
            .handle(Some(h.clone()));
        });
    }
    let r = root.build(&mut tree).unwrap();
    tree.compute_layout(r, max_content()).unwrap();
    let w: Vec<u32> = handles.iter().map(|h| tree.layout(h.get().unwrap()).unwrap().size.width).collect();
    assert_eq!(w, vec![75, 150, 75]);
}

#[test]
fn builder_makes_grandchildren() {
    let mut tree = TaffyTree::new();
    let h = RefHandle::new();
    let mut grandchild = StyleBuilder::new();
    grandchild.size(Size { width: length(5), height: length(6) });
    let grandchild = grandchild.handle(h.clone());
    let mut child = StyleBuilder::column();
    let child = child.child(grandchild);
    let root = StyleBuilder::new().child(child).build(&mut tree).unwrap();
    let g = h.get().unwrap();
    let c = tree.parent(g).unwrap();
    assert_eq!(tree.parent(c), Some(root));
    assert_eq!(tree.children(root).unwrap(), vec![c]);
    tree.compute_layout(root, max_content()).unwrap();
    assert_eq!(tree.layout(g).unwrap().size, Size { width: 5, height: 6 });
}
