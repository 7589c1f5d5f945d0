use ruster::route_parser::RouteNode;

#[test]
fn route_parser_new_route_node_should_have_path() {
    let route_node = RouteNode::new("/");

    assert_eq!(route_node.path, "/");
    assert_eq!(route_node.children.len(), 0);
}

#[test]
fn new_route_node_should_have_recursive_path() {
    let route_node = RouteNode::new("/hello/world");

    assert_eq!(route_node.path, "/");
    assert_eq!(route_node.children.len(), 1);
    assert_eq!(route_node.children[0].path, "hello/");
    assert_eq!(route_node.children[0].children[0].path, "world");
}

#[test]
fn route_parser_add_route_should_create_new_node() {
    let mut route_node = RouteNode::new("/hello/world");

    route_node.add("goodbye");

    assert_eq!(route_node.path, "/");
    assert_eq!(route_node.children.len(), 2);
    assert_eq!(route_node.children[0].path, "hello/");
    assert_eq!(route_node.children[1].path, "goodbye");
}

#[test]
fn add_route_should_create_new_node_deeply() {
    let mut route_node = RouteNode::new("/hello/world/deeply");

    route_node.add("hello/world/so/deep");

    let world_node = &route_node.children[0].children[0];
    assert_eq!(world_node.children.len(), 2);
    assert_eq!(world_node.children[1].path, "so/");
    assert_eq!(world_node.children[1].children[0].path, "deep");
}

#[test]
fn route_parser_find_route_should_return_route() {
    let route_node = RouteNode::new("hello/world");

    let route = route_node.find("hello/world").unwrap();

    assert_eq!(route.path, "world");
}

#[test]
fn find_returns_none_for_a_missing_branch() {
    let route_node = RouteNode::new("/hello/world");

    assert!(route_node.find("/hello/mars").is_none());
    assert!(route_node.find("").is_none());
}
