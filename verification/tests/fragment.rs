use chearmyp_parser::Boundary;
use chearmyp_parser::Fragment;
use chearmyp_parser::Node;

#[test]
fn can_attach() {
    let concept = Boundary::new(0, 6);
    let label = Boundary::new(6, 7);
    let content = Boundary::new(7, 10);
    let mut fragment = Fragment::new_simplex(concept, Vec::new());
    let attacher = Node::Attacher(label, content, Vec::new());
    let expected_fragment = Fragment::new_simplex(concept, {
        let mut attachers: Vec<Node> = Vec::new();
        attachers.push(Node::Attacher(label, content, Vec::new()));
        attachers
    });

    fragment.attach(attacher);

    assert_eq!(fragment, expected_fragment);
}

#[test]
fn can_attach_comment_to_most_recent_attacher() {
    let concept = Boundary::new(0, 4);
    let label = Boundary::new(4, 5);
    let content = Boundary::new(5, 6);
    let comment = Boundary::new(6, 9);
    let mut fragment = Fragment::new_complex(concept, {
        let mut attachers: Vec<Node> = Vec::new();
        attachers.push(Node::Attacher(label, content, Vec::new()));
        attachers
    });
    let expected_fragment = Fragment::new_complex(concept, {
        let mut attachers: Vec<Node> = Vec::new();
        attachers.push(Node::Attacher(label, content, {
            let mut comments: Vec<Node> = Vec::new();
            comments.push(Node::LineComment(comment));
            comments
        }));
        attachers
    });

    fragment.attach_comment(Node::LineComment(comment));

    assert_eq!(fragment, expected_fragment);
}

#[test]
fn can_attach_comment_without_preceding_attacher() {
    let concept = Boundary::new(0, 4);
    let comment = Boundary::new(4, 7);
    let mut fragment = Fragment::new_simplex(concept, Vec::new());
    let expected_fragment = Fragment::new_simplex(concept, {
        let mut entries: Vec<Node> = Vec::new();
        entries.push(Node::LineComment(comment));
        entries
    });

    fragment.attach_comment(Node::LineComment(comment));

    assert_eq!(fragment, expected_fragment);
}
