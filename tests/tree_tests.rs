use retained_ui::gui::{Gui, Node, NodeKind, RenderItem};
use retained_ui::style::{Cursor, Display, Style};

fn children(gui: &Gui, n: Node) -> Vec<Node> {
    let mut out = vec![];
    let mut at = gui.get_first_child(n);
    while let Some(c) = at {
        out.push(c);
        at = gui.get_next_sibling(c);
    }
    out
}

fn children_rev(gui: &Gui, n: Node) -> Vec<Node> {
    let mut out = vec![];
    let mut at = gui.get_last_child(n);
    while let Some(c) = at {
        out.push(c);
        at = gui.get_prev_sibling(c);
    }
    out.reverse();
    out
}

#[test]
fn append_prepend_insert() {
    let mut gui = Gui::new();
    let root = gui.root();
    let a = gui.create_node(NodeKind::Div);
    let b = gui.create_node(NodeKind::Div);
    let c = gui.create_node(NodeKind::Div);
    let d = gui.create_node(NodeKind::Div);
    gui.append_child(root, a);
    gui.append_child(root, c);
    gui.prepend_child(root, b);
    gui.insert_before_child(root, Some(c), d);
    assert_eq!(children(&gui, root), vec![b, a, d, c]);
    assert_eq!(children_rev(&gui, root), vec![b, a, d, c]);
    gui.insert_after_child(root, Some(b), c);
    assert_eq!(children(&gui, root), vec![b, c, a, d]);
    gui.insert_after_child(root, Some(c), c);
    assert_eq!(children(&gui, root), vec![b, c, a, d]);
    gui.insert_after_child(root, None, d);
    assert_eq!(children(&gui, root), vec![d, b, c, a]);
    gui.insert_before_child(root, None, d);
    assert_eq!(children(&gui, root), vec![b, c, a, d]);
    assert_eq!(gui.get_parent(a), Some(root));
    assert_eq!(gui.get_parent(root), None);
}

#[test]
fn moving_a_node_detaches_it_first() {
    let mut gui = Gui::new();
    let root = gui.root();
    let a = gui.create_node(NodeKind::Div);
    let b = gui.create_node(NodeKind::Div);
    let x = gui.create_node(NodeKind::Span);
    gui.append_child(root, a);
    gui.append_child(root, b);
    gui.append_child(a, x);
    gui.append_child(b, x);
    assert!(children(&gui, a).is_empty());
    assert_eq!(children(&gui, b), vec![x]);
    assert_eq!(gui.get_parent(x), Some(b));
    assert!(gui.is_in_subtree(x, root));
    assert!(!gui.is_in_subtree(root, x));
}

#[test]
fn destroy_frees_subtree_and_stales_handles() {
    let mut gui = Gui::new();
    let root = gui.root();
    let a = gui.create_node(NodeKind::Div);
    let b = gui.create_node(NodeKind::Button);
    let t = gui.create_text("hi");
    let keep = gui.create_node(NodeKind::Div);
    gui.append_child(root, a);
    gui.append_child(a, b);
    gui.append_child(b, t);
    gui.append_child(root, keep);
    gui.on_mouse_move(Some(b));
    gui.on_mouse_down(Some((t, 1)));
    assert_eq!(gui.get_cursor(), Cursor::Pointer);
    gui.destroy_node(a);
    assert!(!gui.is_live(a));
    assert!(!gui.is_live(b));
    assert!(!gui.is_live(t));
    assert!(gui.is_live(keep));
    assert_eq!(children(&gui, root), vec![keep]);
    assert_eq!(gui.get_cursor(), Cursor::Default);
    // a freed slot is reused under a new generation
    let n = gui.create_node(NodeKind::Div);
    assert!(gui.is_live(n));
    assert!(!gui.is_live(a));
    assert_ne!(n, a);
}

#[test]
fn remove_keep_alive_then_reattach() {
    let mut gui = Gui::new();
    let root = gui.root();
    let a = gui.create_node(NodeKind::Div);
    let b = gui.create_node(NodeKind::Div);
    gui.append_child(root, a);
    gui.append_child(a, b);
    gui.remove_child(root, a, true);
    assert!(gui.is_live(a));
    assert!(gui.is_live(b));
    assert_eq!(gui.get_parent(a), None);
    assert_eq!(gui.get_parent(b), Some(a));
    assert!(children(&gui, root).is_empty());
    gui.remove_node(a, false);
    assert!(!gui.is_live(a));
    assert!(!gui.is_live(b));
}

#[test]
fn pre_order_walk() {
    let mut gui = Gui::new();
    let root = gui.root();
    let a = gui.create_node(NodeKind::Div);
    let a1 = gui.create_node(NodeKind::Div);
    let a2 = gui.create_node(NodeKind::Div);
    let b = gui.create_node(NodeKind::Div);
    gui.append_child(root, a);
    gui.append_child(a, a1);
    gui.append_child(a, a2);
    gui.append_child(root, b);
    let mut order = vec![];
    let mut at = gui.next_node_pre_order(root);
    while let Some(n) = at {
        order.push(n);
        at = gui.next_node_pre_order(n);
    }
    assert_eq!(order, vec![a, a1, a2, b]);
    let mut back = vec![];
    let mut at = gui.prev_node_pre_order(b);
    while let Some(n) = at {
        back.push(n);
        at = gui.prev_node_pre_order(n);
    }
    assert_eq!(back, vec![a2, a1, a, root]);
}

#[test]
fn style_pass_inherits_text_color() {
    let mut gui = Gui::new();
    let root = gui.root();
    let a = gui.create_node(NodeKind::Div);
    let s = gui.create_node(NodeKind::Span);
    gui.append_child(root, a);
    gui.append_child(a, s);
    let mut st = Style::new();
    st.insert("text_color".to_string(), "ff0000".to_string());
    st.insert("width".to_string(), "10".to_string());
    gui.set_style(a, st);
    let mut own = Style::new();
    own.insert("display".to_string(), "block".to_string());
    gui.set_style(s, own);
    gui.style_node(root);
    gui.style_node(a);
    gui.style_node(s);
    let cs = gui.computed_style(s);
    assert_eq!(cs.get("text_color").map(|v| v.as_str()), Some("ff0000"));
    assert_eq!(cs.get("width"), None);
    assert_eq!(gui.display(s), Display::Block);
    assert_eq!(gui.display(a), Display::Block);
    let t = gui.create_text("x");
    assert_eq!(gui.display(t), Display::Inline);
    gui.set_text(t, "y".to_string());
    assert_eq!(gui.text(t), "y");
    assert_eq!(gui.kind(t), NodeKind::Text);
    assert_eq!(gui.cursor(t), Cursor::Text);
}

#[test]
fn kinds() {
    assert!(NodeKind::Div.is_container());
    assert!(NodeKind::Button.is_container());
    assert!(!NodeKind::Span.is_container());
    assert!(!NodeKind::Text.is_container());
    assert_eq!(NodeKind::Div.default_display(), Display::Block);
    assert_eq!(NodeKind::Button.default_display(), Display::Inline);
    assert_eq!(NodeKind::Text.default_display(), Display::Inline);
    assert!(NodeKind::Button.takes_focus());
    assert!(!NodeKind::Div.takes_focus());
}

#[test]
fn replace_swaps_in_new_node() {
    let mut gui = Gui::new();
    let root = gui.root();
    let a = gui.create_node(NodeKind::Div);
    let b = gui.create_node(NodeKind::Div);
    let c = gui.create_node(NodeKind::Div);
    let n = gui.create_node(NodeKind::Div);
    gui.append_child(root, a);
    gui.append_child(root, b);
    gui.append_child(root, c);
    gui.replace_child(root, b, n, false);
    assert_eq!(children(&gui, root), vec![a, n, c]);
    assert!(!gui.is_live(b));
}

#[test]
fn swap_exchanges_places() {
    let mut gui = Gui::new();
    let root = gui.root();
    let p = gui.create_node(NodeKind::Div);
    let q = gui.create_node(NodeKind::Div);
    let a = gui.create_node(NodeKind::Div);
    let x = gui.create_node(NodeKind::Div);
    let b = gui.create_node(NodeKind::Div);
    gui.append_child(root, p);
    gui.append_child(root, q);
    gui.append_child(p, a);
    gui.append_child(p, x);
    gui.append_child(q, b);
    gui.swap_nodes(a, b);
    assert_eq!(children(&gui, p), vec![b, x]);
    assert_eq!(children(&gui, q), vec![a]);
    // adjacent siblings
    gui.swap_nodes(b, x);
    assert_eq!(children(&gui, p), vec![x, b]);
    // a detached node takes the other's place
    let d = gui.create_node(NodeKind::Div);
    gui.swap_nodes(d, x);
    assert_eq!(children(&gui, p), vec![d, b]);
    assert_eq!(gui.get_parent(x), None);
    assert!(gui.is_live(x));
}

#[test]
fn set_children_replaces_and_frees_the_rest() {
    let mut gui = Gui::new();
    let root = gui.root();
    let a = gui.create_node(NodeKind::Div);
    let b = gui.create_node(NodeKind::Div);
    let c = gui.create_node(NodeKind::Div);
    let other = gui.create_node(NodeKind::Div);
    let grand = gui.create_node(NodeKind::Div);
    gui.append_child(root, a);
    gui.append_child(root, b);
    gui.append_child(root, other);
    gui.append_child(b, grand);
    gui.set_children(root, &vec![c, a, grand]);
    assert_eq!(children(&gui, root), vec![c, a, grand]);
    assert!(!gui.is_live(b));
    assert!(!gui.is_live(other));
    assert!(gui.is_live(grand));
    gui.set_children(root, &vec![]);
    assert!(children(&gui, root).is_empty());
    assert!(!gui.is_live(a));
}

#[test]
fn post_order_walk() {
    let mut gui = Gui::new();
    let root = gui.root();
    let a = gui.create_node(NodeKind::Div);
    let a1 = gui.create_node(NodeKind::Div);
    let a2 = gui.create_node(NodeKind::Div);
    let b = gui.create_node(NodeKind::Div);
    gui.append_child(root, a);
    gui.append_child(a, a1);
    gui.append_child(a, a2);
    gui.append_child(root, b);
    let mut order = vec![a1];
    let mut at = gui.next_node_post_order(a1);
    while let Some(n) = at {
        order.push(n);
        at = gui.next_node_post_order(n);
    }
    assert_eq!(order, vec![a1, a2, a, b, root]);
    let mut back = vec![root];
    let mut at = gui.prev_node_post_order(root);
    while let Some(n) = at {
        back.push(n);
        at = gui.prev_node_post_order(n);
    }
    assert_eq!(back, vec![root, b, a, a2, a1]);
}

#[test]
fn inline_button_is_embedded_in_one_text_run() {
    let mut gui = Gui::new();
    let root = gui.root();
    let a = gui.create_text("a ");
    let button = gui.create_node(NodeKind::Button);
    let label = gui.create_text("BUTTON");
    let b = gui.create_text(" b");
    gui.append_child(button, label);
    gui.append_child(root, a);
    gui.append_child(root, button);
    gui.append_child(root, b);
    let items = gui.render_children(root);
    assert_eq!(items.len(), 1);
    match &items[0] {
        RenderItem::Text { text, objects } => {
            assert_eq!(text, &b"a \0 b".to_vec());
            assert_eq!(objects, &vec![button]);
        }
        RenderItem::Block(_) => panic!("expected a text run"),
    }
}

#[test]
fn blocks_split_text_runs_and_spans_open() {
    let mut gui = Gui::new();
    let root = gui.root();
    let t1 = gui.create_text("x");
    let block = gui.create_node(NodeKind::Div);
    let span = gui.create_node(NodeKind::Span);
    let t2 = gui.create_text("y");
    let hidden = gui.create_node(NodeKind::Span);
    let t3 = gui.create_text("z");
    gui.append_child(span, t2);
    gui.append_child(hidden, t3);
    gui.append_child(root, t1);
    gui.append_child(root, block);
    gui.append_child(root, span);
    gui.append_child(root, hidden);
    let mut none = Style::new();
    none.insert("display".to_string(), "none".to_string());
    gui.set_style(hidden, none);
    gui.style_node(hidden);
    let items = gui.render_children(root);
    assert_eq!(items.len(), 3);
    assert!(matches!(&items[0], RenderItem::Text { text, objects } if text == &b"x".to_vec() && objects.is_empty()));
    assert!(matches!(&items[1], RenderItem::Block(n) if *n == block));
    assert!(matches!(&items[2], RenderItem::Text { text, .. } if text == &b"y".to_vec()));
}

#[test]
fn invalid_display_is_detected() {
    let mut gui = Gui::new();
    let root = gui.root();
    let a = gui.create_node(NodeKind::Div);
    gui.append_child(root, a);
    assert!(gui.check_displays());
    let mut st = Style::new();
    st.insert("display".to_string(), "grid".to_string());
    gui.set_style(a, st);
    gui.style_node(a);
    assert!(!gui.check_displays());
}

#[test]
fn insert_relative_to_itself_changes_nothing() {
    let mut gui = Gui::new();
    let root = gui.root();
    let a = gui.create_node(NodeKind::Div);
    let b = gui.create_node(NodeKind::Div);
    gui.append_child(root, a);
    gui.insert_before_child(root, Some(b), b);
    assert_eq!(gui.get_parent(b), None);
    assert_eq!(children(&gui, root), vec![a]);
    gui.insert_before_child(root, Some(a), b);
    assert_eq!(children(&gui, root), vec![b, a]);
    assert_eq!(gui.get_next_sibling(b), Some(a));
}

#[test]
fn destroy_keeps_focus_outside_subtree() {
    let mut gui = Gui::new();
    let root = gui.root();
    let a = gui.create_node(NodeKind::Div);
    let b = gui.create_node(NodeKind::Button);
    gui.append_child(root, a);
    gui.append_child(root, b);
    gui.set_on_click(b);
    gui.on_mouse_move(Some(b));
    gui.on_mouse_down(Some((b, 0)));
    gui.on_mouse_up();
    gui.destroy_node(a);
    assert_eq!(gui.on_char('\r', false), Some(retained_ui::gui::Event { target: b }));
    assert_eq!(gui.get_cursor(), Cursor::Pointer);
}

#[test]
fn style_tree_cascades_down_every_level() {
    let mut gui = Gui::new();
    let root = gui.root();
    let a = gui.create_node(NodeKind::Div);
    let b = gui.create_node(NodeKind::Span);
    let c = gui.create_node(NodeKind::Span);
    gui.append_child(root, a);
    gui.append_child(a, b);
    gui.append_child(b, c);
    let mut st = Style::new();
    st.insert("text_color".to_string(), "112233".to_string());
    st.insert("width".to_string(), "4".to_string());
    gui.set_style(root, st);
    let mut own = Style::new();
    own.insert("text_color".to_string(), "445566".to_string());
    gui.set_style(b, own);
    gui.style_tree();
    let get = |gui: &Gui, n: Node, k: &str| gui.computed_style(n).get(k).map(|v| v.clone());
    assert_eq!(get(&gui, root, "text_color").as_deref(), Some("112233"));
    assert_eq!(get(&gui, a, "text_color").as_deref(), Some("112233"));
    assert_eq!(get(&gui, a, "width"), None);
    assert_eq!(get(&gui, b, "text_color").as_deref(), Some("445566"));
    assert_eq!(get(&gui, c, "text_color").as_deref(), Some("445566"));
    assert!(gui.depth_is(c, 3));
    assert!(!gui.depth_is(c, 2));
}
