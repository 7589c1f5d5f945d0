use ruster::route_node::RouteError;
use ruster::route_node::RouteNode;

#[test]
fn route_node_new_route_node_should_have_path() {
    let route_node = RouteNode::<u32>::new("/hello/world", None);

    assert_eq!(route_node.path, "/hello/world");
    assert_eq!(route_node.children.len(), 0);
}

#[test]
fn route_node_add_route_should_create_new_node() {
    let handler = 1u32;
    let mut route_node = RouteNode::new("/hello/world", None);

    route_node.add("goodbye", handler);

    assert_eq!(route_node.path, "/");
    assert!(route_node.handler.is_none());
    assert_eq!(route_node.children.len(), 2);
    assert_eq!(route_node.children[0].path, "hello/world");
    assert_eq!(route_node.children[1].path, "goodbye");
}

#[test]
fn add_route_should_swap_nodes_if_new_path_shorter() {
    let handler = 1u32;
    let mut route_node = RouteNode::new("/hello", Some(handler));

    route_node.add("/hell", handler);

    assert_eq!(route_node.path, "/hell");
    assert_eq!(route_node.children.len(), 1);
    assert_eq!(route_node.children[0].path, "o");
}

#[test]
fn add_route_should_add_new_node_to_children_if_new_path_shorter() {
    let handler = 1u32;
    let mut route_node = RouteNode::new("/hell", Some(handler));

    route_node.add("hello", handler);

    assert_eq!(route_node.path, "/hell");
    assert_eq!(route_node.children.len(), 1);
    assert_eq!(route_node.children[0].path, "o");
}

#[test]
fn add_route_should_add_new_node_to_parent_children_if_path_dont_match() {
    let handler = 1u32;
    let mut route_node = RouteNode::new("/hello", Some(handler));

    route_node.add("/hello/world", handler);
    route_node.add("/hello/you", handler);

    assert_eq!(route_node.path, "/hello");
    assert_eq!(route_node.children.len(), 1);
    assert_eq!(route_node.children[0].path, "/");
    let child = &route_node.children[0];
    assert_eq!(child.children.len(), 2);
    assert_eq!(child.children[0].path, "world");
    assert_eq!(child.children[1].path, "you");
}

#[test]
fn add_router_should_work_through_multiple_levels() {
    let handler = 1u32;
    let mut route_node = RouteNode::new("/hello", Some(handler));

    route_node.add("hola", handler);

    assert_eq!(route_node.path, "/h");
    assert_eq!(route_node.children.len(), 2);
    assert_eq!(route_node.children[0].path, "ello");
    assert_eq!(route_node.children[1].path, "ola");

    route_node.add("helli", handler);
    let node = &route_node.children[0];

    assert_eq!(node.children.len(), 2);
    assert_eq!(node.path, "ell");
    assert_eq!(node.children[0].path, "o");
    assert_eq!(node.children[1].path, "i");
}

#[test]
fn route_node_find_route_should_return_route() {
    let route_node = RouteNode::<u32>::new("/hello/world", None);

    let route = route_node.find("/hello/world").unwrap();

    assert_eq!(route.path, "/hello/world");
}

#[test]
fn find_route_should_return_route_in_deep_node() {
    let handler = 1u32;
    let mut route_node = RouteNode::new("/hello", None);
    route_node.add("/hello/world", handler);
    let route = route_node.find("/hello/world").unwrap();

    assert_eq!(route.path, "/world");
}

#[test]
fn find_route_should_return_none_if_not_found() {
    let route_node = RouteNode::<u32>::new("/hello", None);

    assert!(route_node.find("/goodbye").is_none());
}

#[test]
fn found_node_carries_the_registered_handler() {
    let mut route_node = RouteNode::new("/hello", None);
    route_node.add("/hello", 7u32);
    route_node.add("/hellfire", 9u32);

    assert_eq!(route_node.find("/hello").unwrap().handler, Some(7));
    assert_eq!(route_node.find("/hellfire").unwrap().handler, Some(9));
}

fn check_siblings_distinct(node: &RouteNode<u32>) {
    let mut firsts: Vec<char> = Vec::new();
    for child in node.children.iter() {
        let first = child.path.chars().next().unwrap();
        assert!(!firsts.contains(&first));
        firsts.push(first);
        check_siblings_distinct(child);
    }
}

#[test]
fn siblings_never_share_a_first_character() {
    let mut route_node = RouteNode::new("/", None);
    let paths = [
        "/hello", "/hell", "/help", "/goodbye", "/good", "/hello/world", "/hello/you", "/h",
    ];
    for (i, path) in paths.iter().enumerate() {
        route_node.add(path, i as u32);
    }
    check_siblings_distinct(&route_node);
    for (i, path) in paths.iter().enumerate() {
        assert_eq!(route_node.find(path).unwrap().handler, Some(i as u32));
    }
}

#[test]
fn try_add_reports_an_empty_path() {
    let mut route_node = RouteNode::new("/", None);
    assert_eq!(route_node.try_add("", 1u32), Err(RouteError::InvalidPath));
    assert_eq!(route_node.children.len(), 0);
}

#[test]
fn try_add_reports_a_duplicate_route() {
    let mut route_node = RouteNode::new("/", None);
    assert_eq!(route_node.try_add("/hello", 1u32), Ok(()));
    assert_eq!(route_node.try_add("/hello", 2u32), Err(RouteError::DuplicateRoute));
    assert_eq!(route_node.find("/hello").unwrap().handler, Some(1));
}
