use chearmyp_parser::Boundary;
use chearmyp_parser::Fragment;
use chearmyp_parser::Node;
use chearmyp_parser::Relationship;
use chearmyp_parser::ScopeStack;

#[test]
fn flushing_satisfied_target_is_noop_and_repeatable() {
    let concept = Boundary::new(0, 3);
    let mut scope_stack = ScopeStack::new();
    scope_stack.append_complex(concept);
    scope_stack.minimize_scope_level_by(1);

    let expected_fragments = {
        let mut fragments: Vec<Fragment> = Vec::with_capacity(1);
        fragments.push(Fragment::new_complex(concept, Vec::new()));
        fragments
    };
    let expected_scopes = {
        let mut scopes: Vec<Vec<Node>> = Vec::with_capacity(2);
        scopes.push(Vec::new());
        scopes.push(Vec::new());
        scopes
    };

    scope_stack.necessarily_promote_last_fragments();

    assert_eq!(scope_stack.level, 1);
    assert_eq!(scope_stack.last_relationship, Relationship::Contained);
    assert_eq!(scope_stack.fragments, expected_fragments);
    assert_eq!(scope_stack.scopes, expected_scopes);

    scope_stack.necessarily_promote_last_fragments();

    assert_eq!(scope_stack.level, 1);
    assert_eq!(scope_stack.last_relationship, Relationship::Contained);
    assert_eq!(scope_stack.fragments, expected_fragments);
    assert_eq!(scope_stack.scopes, expected_scopes);
}

#[test]
fn scope_level_deeper_than_fragments_promotes_nothing() {
    let concept = Boundary::new(0, 3);
    let mut scope_stack = ScopeStack::new();
    scope_stack.append_simplex(concept);
    scope_stack.minimize_scope_level_by(5);

    let expected_fragments = {
        let mut fragments: Vec<Fragment> = Vec::with_capacity(1);
        fragments.push(Fragment::new_simplex(concept, Vec::new()));
        fragments
    };

    assert_eq!(scope_stack.level, 5);
    assert_eq!(scope_stack.last_relationship, Relationship::Contained);
    assert_eq!(scope_stack.fragments, expected_fragments);
    assert_eq!(scope_stack.scopes, {
        let mut scopes: Vec<Vec<Node>> = Vec::with_capacity(1);
        scopes.push(Vec::new());
        scopes
    });
}

#[test]
fn block_comment_documents_most_recent_attacher() {
    let concept = Boundary::new(0, 3);
    let label = Boundary::new(3, 4);
    let content = Boundary::new(4, 5);
    let comment_line = Boundary::new(5, 9);
    let mut scope_stack = ScopeStack::new();

    scope_stack.append_simplex(concept);
    scope_stack.minimize_scope_level_by(1);
    scope_stack.append_attacher(label, content);
    scope_stack.append_block_comment({
        let mut lines: Vec<Boundary> = Vec::new();
        lines.push(comment_line);
        lines
    });

    let expected_fragments = {
        let mut fragments: Vec<Fragment> = Vec::with_capacity(1);
        fragments.push(Fragment::new_simplex(concept, {
            let mut attachers: Vec<Node> = Vec::new();
            attachers.push(Node::Attacher(label, content, {
                let mut comments: Vec<Node> = Vec::new();
                comments.push(Node::BlockComment({
                    let mut lines: Vec<Boundary> = Vec::new();
                    lines.push(comment_line);
                    lines
                }));
                comments
            }));
            attachers
        }));
        fragments
    };

    assert_eq!(scope_stack.level, 1);
    assert_eq!(scope_stack.last_relationship, Relationship::Attached);
    assert_eq!(scope_stack.fragments, expected_fragments);
}

#[test]
fn othertongue_resets_attachment_history() {
    let concept = Boundary::new(0, 3);
    let label = Boundary::new(3, 4);
    let content = Boundary::new(4, 5);
    let othertongue = Boundary::new(5, 9);
    let comment = Boundary::new(9, 12);
    let mut scope_stack = ScopeStack::new();

    scope_stack.append_simplex(concept);
    scope_stack.minimize_scope_level_by(1);
    scope_stack.append_attacher(label, content);
    scope_stack.append_line_othertongue(othertongue);
    scope_stack.append_line_comment(comment);

    let nodes = scope_stack.finalize();

    // The othertongue and the comment land in the root scope while the
    // simplex is still open; the simplex is promoted after them.
    let expected_nodes = {
        let mut nodes: Vec<Node> = Vec::new();
        nodes.push(Node::LineOthertongue(othertongue));
        nodes.push(Node::LineComment(comment));
        nodes.push(Node::Simplex(concept, {
            let mut attachers: Vec<Node> = Vec::new();
            attachers.push(Node::Attacher(label, content, Vec::new()));
            attachers
        }));
        nodes
    };

    assert_eq!(nodes, expected_nodes);
}
