use retained_ui::gui::{Event, Gui, NodeKind};

#[test]
fn click_fires_once_on_same_button() {
    let mut gui = Gui::new();
    let root = gui.root();
    let b = gui.create_node(NodeKind::Button);
    gui.append_child(root, b);
    gui.set_on_click(b);
    gui.on_mouse_move(Some(b));
    gui.on_mouse_down(Some((b, 0)));
    assert_eq!(gui.on_mouse_up(), Some(Event { target: b }));
    assert_eq!(gui.on_mouse_up(), None);
}

#[test]
fn moving_off_before_release_suppresses_click() {
    let mut gui = Gui::new();
    let root = gui.root();
    let b = gui.create_node(NodeKind::Button);
    gui.append_child(root, b);
    gui.set_on_click(b);
    gui.on_mouse_move(Some(b));
    gui.on_mouse_down(Some((b, 0)));
    gui.on_mouse_move(Some(root));
    assert_eq!(gui.on_mouse_up(), None);
}

#[test]
fn tab_visits_focusable_nodes_only() {
    let mut gui = Gui::new();
    let root = gui.root();
    let d = gui.create_node(NodeKind::Div);
    let b1 = gui.create_node(NodeKind::Button);
    let t = gui.create_text("x");
    let b2 = gui.create_node(NodeKind::Button);
    gui.append_child(root, d);
    gui.append_child(d, t);
    gui.append_child(d, b1);
    gui.append_child(root, b2);
    gui.on_char('\t', false);
    assert_eq!(gui.pre_order_find(root, true, true), Some(b1));
    gui.set_on_click(b1);
    assert_eq!(gui.on_char('\r', false), Some(Event { target: b1 }));
    gui.on_char('\t', false);
    assert_eq!(gui.on_char('\r', false), None);
    // Shift-Tab back from the first focusable node leaves no focus.
    gui.on_char('\t', true);
    assert_eq!(gui.on_char('\r', false), Some(Event { target: b1 }));
    gui.on_char('\t', true);
    assert_eq!(gui.on_char('\r', false), None);
    gui.on_char('\t', false);
    assert_eq!(gui.on_char('\r', false), Some(Event { target: b1 }));
}

#[test]
fn mouse_down_focuses_buttons_only() {
    let mut gui = Gui::new();
    let root = gui.root();
    let d = gui.create_node(NodeKind::Div);
    let b = gui.create_node(NodeKind::Button);
    gui.append_child(root, d);
    gui.append_child(root, b);
    gui.set_on_click(b);
    gui.on_mouse_move(Some(b));
    gui.on_mouse_down(Some((b, 0)));
    gui.on_mouse_up();
    assert_eq!(gui.on_char('\r', false), Some(Event { target: b }));
    gui.on_mouse_move(Some(d));
    gui.on_mouse_down(Some((d, 0)));
    gui.on_mouse_up();
    assert_eq!(gui.on_char('\r', false), None);
    // Tab from the last click on the plain container finds the button.
    gui.on_char('\t', false);
    assert_eq!(gui.on_char('\r', false), Some(Event { target: b }));
}
