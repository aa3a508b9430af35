use eggplant::graphics::render::{DrawCall, Dummy, Render, RenderManager};
use eggplant::graphics::scenegraph::{GraphError, Node, NodeIds, SceneGraph};
use std::cell::RefCell;
use std::rc::Rc;

struct TestObj {
    rendered: bool,
}

impl Render for TestObj {
    fn render(&mut self, _rm: &mut RenderManager) {
        self.rendered = true;
    }
}

impl Default for TestObj {
    fn default() -> TestObj {
        TestObj { rendered: false }
    }
}

/// A payload that several owners can look at: what is behind it renders.
struct Shared<T>(Rc<RefCell<Box<T>>>);

impl<T: Render> Render for Shared<T> {
    fn render(&mut self, rm: &mut RenderManager) {
        self.0.borrow_mut().render(rm)
    }
}

/// Writes its name into a journal that it shares with others.
struct Named {
    name: &'static str,
    journal: Rc<RefCell<Vec<&'static str>>>,
    rendered: Rc<RefCell<bool>>,
}

impl Render for Named {
    fn render(&mut self, _rm: &mut RenderManager) {
        *self.rendered.borrow_mut() = true;
        self.journal.borrow_mut().push(self.name);
    }
}

/// Submits one call and gives the frame up.
struct Failing {
    mesh: u32,
}

impl Render for Failing {
    fn render(&mut self, rm: &mut RenderManager) {
        rm.submit(call(1, self.mesh));
        rm.fail();
        rm.submit(call(1, self.mesh + 1));
    }
}

fn named(
    ids: &mut NodeIds,
    name: &'static str,
    journal: &Rc<RefCell<Vec<&'static str>>>,
) -> Node {
    let rendered = Rc::new(RefCell::new(false));
    Node::new(ids, Some(Box::new(Named { name: name, journal: journal.clone(), rendered: rendered })))
}

fn call(program: u32, mesh: u32) -> DrawCall {
    DrawCall { program: program, mesh: mesh }
}

fn leaf(ids: &mut NodeIds, mesh: u32) -> Node {
    Node::new(ids, Some(Box::new(call(1, mesh))))
}

fn child_ids(node: &Node) -> Vec<u32> {
    node.children().iter().map(|kid| kid.id()).collect()
}

#[test]
fn test_traversal() {
    let mut ids = NodeIds::new();
    let mut graph = SceneGraph::new(Box::new(Node::default(&mut ids)));
    let testobj_l: TestObj = Default::default();
    let testobj = Rc::new(RefCell::new(Box::new(testobj_l)));
    let testnode = Node::new(&mut ids, Some(Box::new(Shared(testobj.clone()))));

    graph.insert_at_root(testnode).unwrap();

    let mut rm = RenderManager::new();
    graph.render(&mut rm);

    assert_eq!(testobj.borrow().rendered, true);
}

#[test]
fn test_find_node() {
    let mut ids = NodeIds::new();
    let obj1: TestObj = Default::default();
    let obj2: TestObj = Default::default();
    let obj3: TestObj = Default::default();
    let mut node = Node::new(&mut ids, Some(Box::new(obj1)));
    let node2 = Node::new(&mut ids, Some(Box::new(obj2)));
    let node3 = Node::new(&mut ids, Some(Box::new(obj3)));
    let id3 = node3.id();

    node.insert(node2).unwrap();
    node.insert(node3).unwrap();

    assert_eq!(node.find(id3), Some(1));
}

#[test]
fn ids_count_up_from_one() {
    let mut ids = NodeIds::new();
    assert_eq!(ids.get_node_id(), 0);
    assert!(!ids.exhausted());
    ids.incr_node_id();
    assert_eq!(ids.get_node_id(), 1);
    let a = Node::new(&mut ids, None);
    let b = Node::default(&mut ids);
    assert_eq!(a.id(), 2);
    assert_eq!(b.id(), 3);
    assert_eq!(ids.get_node_id(), 3);
}

#[test]
fn new_node_has_no_children() {
    let mut ids = NodeIds::new();
    let group = Node::new(&mut ids, None);
    assert_eq!(group.children().len(), 0);
    assert!(!group.has_payload());
    let drawn = leaf(&mut ids, 7);
    assert_eq!(drawn.children().len(), 0);
    assert!(drawn.has_payload());
    assert!(Node::default(&mut ids).has_payload());
}

#[test]
fn children_keep_insertion_order() {
    let mut ids = NodeIds::new();
    let mut parent = Node::new(&mut ids, None);
    let mut expected = Vec::new();
    for mesh in 0..5 {
        let kid = leaf(&mut ids, mesh);
        expected.push(kid.id());
        assert_eq!(parent.insert(kid), Ok(()));
    }
    assert_eq!(child_ids(&parent), expected);
    assert_eq!(child_ids(&parent), vec![2, 3, 4, 5, 6]);
}

#[test]
fn find_returns_first_match_among_three() {
    let mut ids = NodeIds::new();
    let mut parent = Node::new(&mut ids, None);
    let a = Node::new(&mut ids, None);
    let b = Node::new(&mut ids, None);
    let c = Node::new(&mut ids, None);
    let (ida, idb, idc) = (a.id(), b.id(), c.id());
    parent.insert(a).unwrap();
    parent.insert(b).unwrap();
    parent.insert(c).unwrap();
    assert_eq!(parent.find(ida), Some(0));
    assert_eq!(parent.find(idb), Some(1));
    assert_eq!(parent.find(idc), Some(2));
    assert_eq!(parent.find(99), None);
    assert_eq!(parent.find(parent.id()), None);
}

#[test]
fn find_breaks_a_tie_by_insertion_order() {
    let mut first = NodeIds::new();
    let mut second = NodeIds::new();
    let mut parent = Node::new(&mut first, None);
    second.incr_node_id();
    let a = Node::new(&mut first, None);
    let twin = Node::new(&mut second, None);
    assert_eq!(a.id(), 2);
    assert_eq!(twin.id(), 2);
    parent.insert(a).unwrap();
    parent.insert(twin).unwrap();
    assert_eq!(parent.find(2), Some(0));
}

#[test]
fn find_does_not_look_below_the_children() {
    let mut ids = NodeIds::new();
    let mut parent = Node::new(&mut ids, None);
    let mut kid = Node::new(&mut ids, None);
    let grandkid = Node::new(&mut ids, None);
    let deep = grandkid.id();
    kid.insert(grandkid).unwrap();
    parent.insert(kid).unwrap();
    assert_eq!(parent.find(deep), None);
    assert!(parent.contains_id(deep));
    assert_eq!(parent.children()[0].find(deep), Some(0));
}

#[test]
fn removed_child_is_not_found() {
    let mut ids = NodeIds::new();
    let mut parent = Node::new(&mut ids, None);
    for mesh in 0..4 {
        parent.insert(leaf(&mut ids, mesh)).unwrap();
    }
    let gone = match parent.remove(1) {
        Ok(node) => node,
        Err(_) => panic!("there is a child at 1"),
    };
    assert_eq!(gone.id(), 3);
    assert_eq!(parent.find(3), None);
    assert_eq!(parent.children().len(), 3);
    assert_eq!(child_ids(&parent), vec![2, 4, 5]);
}

#[test]
fn remove_out_of_range_changes_nothing() {
    let mut ids = NodeIds::new();
    let mut parent = Node::new(&mut ids, None);
    parent.insert(leaf(&mut ids, 0)).unwrap();
    parent.insert(leaf(&mut ids, 1)).unwrap();
    assert!(matches!(parent.remove(2), Err(GraphError::IndexOutOfRange)));
    assert!(matches!(parent.remove(usize::MAX), Err(GraphError::IndexOutOfRange)));
    assert_eq!(child_ids(&parent), vec![2, 3]);
    let mut rm = RenderManager::new();
    parent.render(&mut rm);
    assert_eq!(*rm.submissions(), vec![call(1, 0), call(1, 1)]);
    let mut empty = Node::new(&mut ids, None);
    assert!(matches!(empty.remove(0), Err(GraphError::IndexOutOfRange)));
    assert_eq!(empty.children().len(), 0);
}

#[test]
fn insert_turns_down_a_child_that_holds_the_parents_id() {
    let mut first = NodeIds::new();
    let mut second = NodeIds::new();
    let mut parent = Node::new(&mut first, None);
    parent.insert(Node::new(&mut first, None)).unwrap();
    let twin = Node::new(&mut second, None);
    assert_eq!(twin.id(), parent.id());
    assert_eq!(parent.insert(twin), Err(GraphError::Cycle));
    assert_eq!(child_ids(&parent), vec![2]);

    let mut carrier = Node::new(&mut first, None);
    carrier.insert(Node::new(&mut NodeIds::new(), None)).unwrap();
    assert!(carrier.contains_id(1));
    assert_eq!(parent.insert(carrier), Err(GraphError::Cycle));
    assert_eq!(child_ids(&parent), vec![2]);
}

#[test]
fn contains_id_searches_the_whole_subtree() {
    let mut ids = NodeIds::new();
    let mut root = Node::new(&mut ids, None);
    let mut mid = Node::new(&mut ids, None);
    mid.insert(Node::new(&mut ids, None)).unwrap();
    root.insert(Node::new(&mut ids, None)).unwrap();
    root.insert(mid).unwrap();
    for id in 1..=4 {
        assert!(root.contains_id(id));
    }
    assert!(!root.contains_id(0));
    assert!(!root.contains_id(5));
}

#[test]
fn render_is_depth_first_parent_before_children() {
    let mut ids = NodeIds::new();
    let mut root = leaf(&mut ids, 100);
    let mut left = leaf(&mut ids, 200);
    left.insert(leaf(&mut ids, 210)).unwrap();
    left.insert(leaf(&mut ids, 220)).unwrap();
    let mut right = Node::new(&mut ids, None);
    right.insert(leaf(&mut ids, 310)).unwrap();
    root.insert(left).unwrap();
    root.insert(right).unwrap();
    root.insert(leaf(&mut ids, 400)).unwrap();

    let mut rm = RenderManager::new();
    rm.submit(call(9, 9));
    root.render(&mut rm);
    let meshes: Vec<u32> = rm.submissions().iter().map(|c| c.mesh).collect();
    assert!(!rm.failed());
    assert_eq!(meshes, vec![9, 100, 200, 210, 220, 310, 400]);
    assert_eq!(rm.submissions()[1], call(1, 100));
}

#[test]
fn scene_with_a_group_renders_every_payload_in_order() {
    let journal = Rc::new(RefCell::new(Vec::new()));
    let x_rendered = Rc::new(RefCell::new(false));
    let z_rendered = Rc::new(RefCell::new(false));
    let mut ids = NodeIds::new();
    let mut graph = SceneGraph::new(Box::new(Node::new(&mut ids, None)));
    let x = Node::new(
        &mut ids,
        Some(Box::new(Named { name: "X", journal: journal.clone(), rendered: x_rendered.clone() })),
    );
    let mut y = Node::new(&mut ids, None);
    let z = Node::new(
        &mut ids,
        Some(Box::new(Named { name: "Z", journal: journal.clone(), rendered: z_rendered.clone() })),
    );
    y.insert(z).unwrap();
    graph.insert_at_root(x).unwrap();
    graph.insert_at_root(y).unwrap();

    let mut rm = RenderManager::new();
    graph.render(&mut rm);

    assert_eq!(*x_rendered.borrow(), true);
    assert_eq!(*z_rendered.borrow(), true);
    assert_eq!(*journal.borrow(), vec!["X", "Z"]);
    assert_eq!(graph.root().children().len(), 2);
    assert_eq!(graph.root().children()[1].children().len(), 1);
    assert_eq!(rm.submissions().len(), 0);
}

#[test]
fn second_render_submits_what_the_first_did() {
    let mut ids = NodeIds::new();
    let mut graph = SceneGraph::new(Box::new(Node::default(&mut ids)));
    let mut group = Node::new(&mut ids, None);
    group.insert(leaf(&mut ids, 5)).unwrap();
    graph.insert_at_root(leaf(&mut ids, 3)).unwrap();
    graph.insert_at_root(group).unwrap();

    let mut rm = RenderManager::new();
    graph.render(&mut rm);
    let first: Vec<DrawCall> = rm.submissions().clone();
    assert_eq!(first, vec![call(1, 3), call(1, 5)]);
    assert!(!rm.failed());
    graph.render(&mut rm);
    assert!(!rm.failed());
    assert_eq!(rm.submissions().len(), 4);
    assert_eq!(rm.submissions()[..2], first[..]);
    assert_eq!(rm.submissions()[2..], first[..]);
    assert_eq!(child_ids(graph.root()), vec![4, 2]);
}

#[test]
fn render_manager_keeps_submissions_in_order() {
    let mut rm = RenderManager::new();
    assert_eq!(rm.submissions().len(), 0);
    rm.submit(call(1, 2));
    rm.submit(call(3, 4));
    rm.submit(call(1, 2));
    assert_eq!(*rm.submissions(), vec![call(1, 2), call(3, 4), call(1, 2)]);
}

#[test]
fn dummy_and_empty_slot_draw_nothing() {
    let mut rm = RenderManager::new();
    Dummy::new().render(&mut rm);
    let mut slot: Option<Box<dyn Render>> = None;
    slot.render(&mut rm);
    assert_eq!(rm.submissions().len(), 0);
    let mut full: Option<Box<dyn Render>> = Some(Box::new(call(4, 2)));
    full.render(&mut rm);
    assert_eq!(*rm.submissions(), vec![call(4, 2)]);
    let mut ids = NodeIds::new();
    let mut node = Node::default(&mut ids);
    node.render(&mut rm);
    assert_eq!(rm.submissions().len(), 1);
}

#[test]
fn nodes_are_equal_by_identity() {
    let mut first = NodeIds::new();
    let mut second = NodeIds::new();
    let a = leaf(&mut first, 1);
    let b = Node::new(&mut first, None);
    let twin = Node::new(&mut second, None);
    assert!(a == twin);
    assert!(a != b);
}

#[test]
fn clear_keeps_the_root() {
    let mut ids = NodeIds::new();
    let mut graph = SceneGraph::new(Box::new(leaf(&mut ids, 1)));
    graph.insert_at_root(leaf(&mut ids, 2)).unwrap();
    graph.clear();
    assert_eq!(graph.root().id(), 1);
    assert!(!graph.root().has_payload());
    assert_eq!(graph.root().children().len(), 0);
    let mut rm = RenderManager::new();
    graph.render(&mut rm);
    assert_eq!(rm.submissions().len(), 0);
    graph.insert_at_root(leaf(&mut ids, 3)).unwrap();
    graph.render(&mut rm);
    assert_eq!(*rm.submissions(), vec![call(1, 3)]);
}

#[test]
fn the_graph_reaches_below_its_root() {
    let mut ids = NodeIds::new();
    let mut graph = SceneGraph::new(Box::new(Node::new(&mut ids, None)));
    graph.insert_at_root(leaf(&mut ids, 2)).unwrap();
    graph.insert_at_root(leaf(&mut ids, 3)).unwrap();
    assert_eq!(graph.root().find(3), Some(1));
    let gone = graph.remove_at_root(0);
    assert!(matches!(gone, Ok(_)));
    assert_eq!(graph.root().find(3), Some(0));
    assert_eq!(graph.root().find(2), None);
    assert!(matches!(graph.remove_at_root(1), Err(GraphError::IndexOutOfRange)));
    assert_eq!(graph.root().id(), 1);

    let late = leaf(&mut ids, 4);
    match graph.child_mut(0) {
        Some(child) => assert_eq!(child.insert(late), Ok(())),
        None => panic!("there is a child at 0"),
    }
    assert!(graph.child_mut(1).is_none());
    assert_eq!(child_ids(&graph.root().children()[0]), vec![4]);
    assert_eq!(graph.root().id(), 1);
    let mut rm = RenderManager::new();
    graph.render(&mut rm);
    assert!(!rm.failed());
    assert_eq!(*rm.submissions(), vec![call(1, 3), call(1, 4)]);
}

#[test]
fn render_manager_takes_nothing_after_a_failure() {
    let mut rm = RenderManager::new();
    assert!(!rm.failed());
    rm.submit(call(1, 1));
    rm.fail();
    assert!(rm.failed());
    assert_eq!(*rm.submissions(), vec![call(1, 1)]);
    rm.submit(call(1, 2));
    assert_eq!(*rm.submissions(), vec![call(1, 1)]);
    rm.fail();
    assert!(rm.failed());
    assert_eq!(*rm.submissions(), vec![call(1, 1)]);
}

#[test]
fn a_failure_ends_the_walk() {
    let journal = Rc::new(RefCell::new(Vec::new()));
    let mut ids = NodeIds::new();
    let mut graph = SceneGraph::new(Box::new(Node::new(&mut ids, None)));
    graph.insert_at_root(named(&mut ids, "X", &journal)).unwrap();
    graph.insert_at_root(leaf(&mut ids, 10)).unwrap();
    graph.insert_at_root(Node::new(&mut ids, Some(Box::new(Failing { mesh: 20 })))).unwrap();
    graph.insert_at_root(named(&mut ids, "Z", &journal)).unwrap();
    graph.insert_at_root(leaf(&mut ids, 30)).unwrap();

    let mut rm = RenderManager::new();
    graph.render(&mut rm);

    assert!(rm.failed());
    assert_eq!(*journal.borrow(), vec!["X"]);
    assert_eq!(*rm.submissions(), vec![call(1, 10), call(1, 20)]);
    assert_eq!(child_ids(graph.root()), vec![2, 3, 4, 5, 6]);
}

#[test]
fn a_failure_below_ends_the_walk_above() {
    let journal = Rc::new(RefCell::new(Vec::new()));
    let mut ids = NodeIds::new();
    let mut root = named(&mut ids, "root", &journal);
    let mut a = named(&mut ids, "a", &journal);
    a.insert(named(&mut ids, "a1", &journal)).unwrap();
    a.insert(Node::new(&mut ids, Some(Box::new(Failing { mesh: 1 })))).unwrap();
    a.insert(named(&mut ids, "a3", &journal)).unwrap();
    root.insert(a).unwrap();
    root.insert(named(&mut ids, "b", &journal)).unwrap();

    let mut rm = RenderManager::new();
    root.render(&mut rm);

    assert!(rm.failed());
    assert_eq!(*journal.borrow(), vec!["root", "a", "a1"]);
    assert_eq!(*rm.submissions(), vec![call(1, 1)]);
}

#[test]
fn a_failing_root_payload_keeps_the_children_from_rendering() {
    let journal = Rc::new(RefCell::new(Vec::new()));
    let mut ids = NodeIds::new();
    let mut root = Node::new(&mut ids, Some(Box::new(Failing { mesh: 5 })));
    root.insert(named(&mut ids, "kid", &journal)).unwrap();
    let mut rm = RenderManager::new();
    rm.submit(call(2, 2));
    root.render(&mut rm);
    assert!(rm.failed());
    assert!(journal.borrow().is_empty());
    assert_eq!(*rm.submissions(), vec![call(2, 2), call(1, 5)]);
}

#[test]
fn a_failed_frame_is_not_drawn_into() {
    let journal = Rc::new(RefCell::new(Vec::new()));
    let mut ids = NodeIds::new();
    let mut graph = SceneGraph::new(Box::new(named(&mut ids, "root", &journal)));
    graph.insert_at_root(leaf(&mut ids, 1)).unwrap();
    let mut rm = RenderManager::new();
    rm.submit(call(7, 7));
    rm.fail();
    graph.render(&mut rm);
    assert!(rm.failed());
    assert!(journal.borrow().is_empty());
    assert_eq!(*rm.submissions(), vec![call(7, 7)]);

    let mut fresh = RenderManager::new();
    graph.render(&mut fresh);
    assert!(!fresh.failed());
    assert_eq!(*journal.borrow(), vec!["root"]);
    assert_eq!(*fresh.submissions(), vec![call(1, 1)]);
}

#[test]
fn a_twin_of_a_removed_child_is_still_found() {
    let mut first = NodeIds::new();
    let mut second = NodeIds::new();
    let mut parent = Node::new(&mut first, None);
    second.incr_node_id();
    parent.insert(Node::new(&mut first, None)).unwrap();
    parent.insert(Node::new(&mut second, None)).unwrap();
    assert_eq!(child_ids(&parent), vec![2, 2]);
    assert!(matches!(parent.remove(0), Ok(_)));
    assert_eq!(parent.find(2), Some(0));
    assert_eq!(parent.children().len(), 1);
}

#[test]
fn child_mut_reaches_below_a_child() {
    let mut ids = NodeIds::new();
    let mut parent = Node::new(&mut ids, None);
    parent.insert(leaf(&mut ids, 1)).unwrap();
    parent.insert(leaf(&mut ids, 2)).unwrap();
    let late = leaf(&mut ids, 3);
    match parent.child_mut(1) {
        Some(child) => assert_eq!(child.insert(late), Ok(())),
        None => panic!("there is a child at 1"),
    }
    assert!(parent.child_mut(2).is_none());
    assert_eq!(child_ids(&parent), vec![2, 3]);
    assert_eq!(child_ids(&parent.children()[1]), vec![4]);
    let mut rm = RenderManager::new();
    parent.render(&mut rm);
    assert_eq!(*rm.submissions(), vec![call(1, 1), call(1, 2), call(1, 3)]);
}

#[test]
fn a_scene_of_draw_calls_is_drawn_whole_and_twice_the_same() {
    let mut ids = NodeIds::new();
    let mut graph = SceneGraph::new(Box::new(Node::new(&mut ids, None)));
    let x = leaf(&mut ids, 10);
    let mut y = Node::new(&mut ids, None);
    y.insert(leaf(&mut ids, 30)).unwrap();
    graph.insert_at_root(x).unwrap();
    graph.insert_at_root(y).unwrap();

    let mut rm = RenderManager::new();
    graph.render(&mut rm);
    assert!(!rm.failed());
    assert_eq!(*rm.submissions(), vec![call(1, 10), call(1, 30)]);
    graph.render(&mut rm);
    assert!(!rm.failed());
    assert_eq!(*rm.submissions(), vec![call(1, 10), call(1, 30), call(1, 10), call(1, 30)]);
}

#[test]
fn a_default_root_draws_its_child() {
    let mut ids = NodeIds::new();
    let mut graph = SceneGraph::new(Box::new(Node::default(&mut ids)));
    graph.insert_at_root(leaf(&mut ids, 7)).unwrap();
    let mut rm = RenderManager::new();
    graph.render(&mut rm);
    assert!(!rm.failed());
    assert_eq!(*rm.submissions(), vec![call(1, 7)]);
}
