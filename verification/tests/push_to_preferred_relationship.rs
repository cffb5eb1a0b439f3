use chearmyp_parser::Boundary;
use chearmyp_parser::Fragment;
use chearmyp_parser::Node;
use chearmyp_parser::Relationship;
use chearmyp_parser::ScopeStack;

#[test]
fn can_push_as_contained_node() {
    let node = Node::Complex(Boundary::new(0, 5), Vec::new(), Vec::new());

    let mut scope_stack = ScopeStack::new();

    let expected_last_scope = {
        let mut scope: Vec<Node> = Vec::new();
        let node = Node::Complex(Boundary::new(0, 5), Vec::new(), Vec::new());
        scope.push(node);
        scope
    };
    let expected_scopes = {
        let mut scopes: Vec<Vec<Node>> = Vec::new();
        scopes.push(expected_last_scope);
        scopes
    };

    scope_stack.push_to_preferred_relationship(node);

    assert_eq!(scope_stack.level, 0);
    assert_eq!(scope_stack.last_relationship, Relationship::Contained);
    assert_eq!(scope_stack.fragments, Vec::<Fragment>::new());
    assert_eq!(scope_stack.scopes, expected_scopes);
}

#[test]
fn can_push_attacher_as_attached_node() {
    let concept = Boundary::new(0, 3);
    let label = Boundary::new(3, 5);
    let content = Boundary::new(5, 6);
    let node = Node::Attacher(label, content, Vec::new());

    let mut scope_stack = ScopeStack::new();
    let initial_fragment = Fragment::new_simplex(concept, Vec::new());
    scope_stack.fragments.push(initial_fragment);

    let expected_fragment = Fragment::new_simplex(concept, {
        let mut attached_nodes: Vec<Node> = Vec::new();
        let attacher = Node::Attacher(label, content, Vec::new());
        attached_nodes.push(attacher);
        attached_nodes
    });
    let expected_fragments = {
        let mut fragments: Vec<Fragment> = Vec::new();
        fragments.push(expected_fragment);
        fragments
    };

    scope_stack.push_to_preferred_relationship(node);

    assert_eq!(scope_stack.level, 0);
    assert_eq!(scope_stack.last_relationship, Relationship::Attached);
    assert_eq!(scope_stack.fragments, expected_fragments);
    assert_eq!(scope_stack.scopes, {
        let mut scopes: Vec<Vec<Node>> = Vec::with_capacity(1);
        scopes.push(Vec::new());
        scopes
    });
}

#[test]
fn can_push_attacher_as_contained_node() {
    let label = Boundary::new(3, 5);
    let content = Boundary::new(5, 6);
    let node = Node::Attacher(label, content, Vec::new());

    let mut scope_stack = ScopeStack::new();

    let expected_fragments: Vec<Fragment> = Vec::new();

    scope_stack.push_to_preferred_relationship(node);

    assert_eq!(scope_stack.level, 0);
    assert_eq!(scope_stack.last_relationship, Relationship::Contained);
    assert_eq!(scope_stack.fragments, expected_fragments);
    assert_eq!(scope_stack.scopes, {
        let mut scopes: Vec<Vec<Node>> = Vec::with_capacity(1);
        scopes.push(vec![Node::Attacher(label, content, Vec::new())]);
        scopes
    });
}

#[test]
fn can_push_comment_as_contained_node() {
    let comment = Boundary::new(0, 4);
    let node = Node::LineComment(comment);

    let mut scope_stack = ScopeStack::new();

    let expected_last_scope = {
        let mut scope: Vec<Node> = Vec::new();
        let node = Node::LineComment(comment);
        scope.push(node);
        scope
    };
    let expected_scopes = {
        let mut scopes: Vec<Vec<Node>> = Vec::new();
        scopes.push(expected_last_scope);
        scopes
    };

    scope_stack.push_to_preferred_relationship(node);

    assert_eq!(scope_stack.level, 0);
    assert_eq!(scope_stack.last_relationship, Relationship::Contained);
    assert_eq!(scope_stack.fragments, Vec::<Fragment>::new());
    assert_eq!(scope_stack.scopes, expected_scopes);
}

#[test]
fn can_push_comment_as_attached_node() {
    let concept = Boundary::new(0, 3);
    let comment = Boundary::new(3, 6);
    let node = Node::LineComment(comment);

    let mut scope_stack = ScopeStack::new();
    let initial_fragment = Fragment::new_simplex(concept, Vec::new());
    scope_stack.fragments.push(initial_fragment);
    scope_stack.last_relationship = Relationship::Attached;

    let expected_fragment = Fragment::new_simplex(concept, {
        let mut attached_nodes: Vec<Node> = Vec::new();
        let line_comment = Node::LineComment(comment);
        attached_nodes.push(line_comment);
        attached_nodes
    });
    let expected_fragments = {
        let mut fragments: Vec<Fragment> = Vec::new();
        fragments.push(expected_fragment);
        fragments
    };

    scope_stack.push_to_preferred_relationship(node);

    assert_eq!(scope_stack.level, 0);
    assert_eq!(scope_stack.last_relationship, Relationship::Attached);
    assert_eq!(scope_stack.fragments, expected_fragments);
    assert_eq!(scope_stack.scopes, {
        let mut scopes: Vec<Vec<Node>> = Vec::with_capacity(1);
        scopes.push(Vec::new());
        scopes
    });
}
