use chearmyp_parser::Boundary;
use chearmyp_parser::Node;
use chearmyp_parser::Token;
use chearmyp_parser::parse;

#[test]
fn can_parse_short_stream() {
    let mut sample_queue: Vec<Token> = Vec::new();
    sample_queue.push(Token::Complex(Boundary::new(0, 1)));

    let nodes = parse(sample_queue);

    let mut expected_nodes: Vec<Node> = Vec::new();
    expected_nodes.push(Node::Complex(Boundary::new(0, 1), Vec::new(), Vec::new()));
    assert_eq!(nodes, expected_nodes)
}

#[test]
fn can_parse_long_stream() {
    let mut sample_queue: Vec<Token> = Vec::new();
    sample_queue.push(Token::Complex(Boundary::new(1, 2)));
    sample_queue.push(Token::ScopeLevel(1));
    sample_queue.push(Token::Complex(Boundary::new(2, 4)));
    sample_queue.push(Token::Complex(Boundary::new(4, 6)));
    sample_queue.push(Token::ScopeLevel(0));
    sample_queue.push(Token::Complex(Boundary::new(6, 7)));

    let nodes = parse(sample_queue);

    let mut expected_nodes: Vec<Node> = Vec::new();
    expected_nodes.push(Node::Complex(Boundary::new(1, 2), Vec::new(), {
        let mut content: Vec<Node> = Vec::new();
        content.push(Node::Complex(Boundary::new(2, 4), Vec::new(), Vec::new()));
        content.push(Node::Complex(Boundary::new(4, 6), Vec::new(), Vec::new()));
        content
    }));
    expected_nodes.push(Node::Complex(Boundary::new(6, 7), Vec::new(), Vec::new()));

    assert_eq!(nodes, expected_nodes)
}

#[test]
fn can_parse_empty_stream() {
    let sample_queue: Vec<Token> = Vec::new();

    let nodes = parse(sample_queue);

    let expected_nodes: Vec<Node> = Vec::new();
    assert_eq!(nodes, expected_nodes)
}

#[test]
fn can_parse_simplex_with_attacher() {
    let mut sample_queue: Vec<Token> = Vec::new();
    sample_queue.push(Token::Simplex(Boundary::new(0, 2)));
    sample_queue.push(Token::ScopeLevel(1));
    sample_queue.push(Token::Attacher(Boundary::new(3, 4), Boundary::new(5, 6)));

    let nodes = parse(sample_queue);

    let mut expected_nodes: Vec<Node> = Vec::new();
    expected_nodes.push(Node::Simplex(Boundary::new(0, 2), {
        let mut attachers: Vec<Node> = Vec::new();
        attachers.push(Node::Attacher(Boundary::new(3, 4), Boundary::new(5, 6), Vec::new()));
        attachers
    }));
    assert_eq!(nodes, expected_nodes)
}

#[test]
fn can_parse_comment_documenting_attacher() {
    let mut sample_queue: Vec<Token> = Vec::new();
    sample_queue.push(Token::Complex(Boundary::new(0, 1)));
    sample_queue.push(Token::ScopeLevel(1));
    sample_queue.push(Token::Simplex(Boundary::new(2, 3)));
    sample_queue.push(Token::ScopeLevel(2));
    sample_queue.push(Token::Attacher(Boundary::new(4, 5), Boundary::new(6, 7)));
    sample_queue.push(Token::LineComment(Boundary::new(8, 9)));

    let nodes = parse(sample_queue);

    let mut expected_nodes: Vec<Node> = Vec::new();
    expected_nodes.push(Node::Complex(Boundary::new(0, 1), Vec::new(), {
        let mut children: Vec<Node> = Vec::new();
        children.push(Node::Simplex(Boundary::new(2, 3), {
            let mut attachers: Vec<Node> = Vec::new();
            attachers.push(Node::Attacher(Boundary::new(4, 5), Boundary::new(6, 7), {
                let mut comments: Vec<Node> = Vec::new();
                comments.push(Node::LineComment(Boundary::new(8, 9)));
                comments
            }));
            attachers
        }));
        children
    }));
    assert_eq!(nodes, expected_nodes)
}

#[test]
fn can_parse_consecutive_comments_documenting_one_attacher() {
    let mut sample_queue: Vec<Token> = Vec::new();
    sample_queue.push(Token::Simplex(Boundary::new(0, 1)));
    sample_queue.push(Token::ScopeLevel(1));
    sample_queue.push(Token::Attacher(Boundary::new(2, 3), Boundary::new(4, 5)));
    sample_queue.push(Token::LineComment(Boundary::new(6, 7)));
    sample_queue.push(Token::BlockComment({
        let mut lines: Vec<Boundary> = Vec::new();
        lines.push(Boundary::new(8, 9));
        lines
    }));

    let nodes = parse(sample_queue);

    let mut expected_nodes: Vec<Node> = Vec::new();
    expected_nodes.push(Node::Simplex(Boundary::new(0, 1), {
        let mut attachers: Vec<Node> = Vec::new();
        attachers.push(Node::Attacher(Boundary::new(2, 3), Boundary::new(4, 5), {
            let mut comments: Vec<Node> = Vec::new();
            comments.push(Node::LineComment(Boundary::new(6, 7)));
            comments.push(Node::BlockComment({
                let mut lines: Vec<Boundary> = Vec::new();
                lines.push(Boundary::new(8, 9));
                lines
            }));
            comments
        }));
        attachers
    }));
    assert_eq!(nodes, expected_nodes)
}

#[test]
fn can_parse_root_level_attacher() {
    let mut sample_queue: Vec<Token> = Vec::new();
    sample_queue.push(Token::Attacher(Boundary::new(0, 1), Boundary::new(2, 3)));

    let nodes = parse(sample_queue);

    let mut expected_nodes: Vec<Node> = Vec::new();
    expected_nodes.push(Node::Attacher(Boundary::new(0, 1), Boundary::new(2, 3), Vec::new()));
    assert_eq!(nodes, expected_nodes)
}

#[test]
fn can_parse_othertongues_as_standalone_nodes() {
    let mut sample_queue: Vec<Token> = Vec::new();
    sample_queue.push(Token::LineOthertongue(Boundary::new(0, 4)));
    sample_queue.push(Token::BlockOthertongue({
        let mut lines: Vec<Boundary> = Vec::new();
        lines.push(Boundary::new(5, 9));
        lines.push(Boundary::new(10, 14));
        lines
    }));

    let nodes = parse(sample_queue);

    let mut expected_nodes: Vec<Node> = Vec::new();
    expected_nodes.push(Node::LineOthertongue(Boundary::new(0, 4)));
    expected_nodes.push(Node::BlockOthertongue({
        let mut lines: Vec<Boundary> = Vec::new();
        lines.push(Boundary::new(5, 9));
        lines.push(Boundary::new(10, 14));
        lines
    }));
    assert_eq!(nodes, expected_nodes)
}

#[test]
fn can_parse_comment_after_bare_concept_as_sibling() {
    let mut sample_queue: Vec<Token> = Vec::new();
    sample_queue.push(Token::Simplex(Boundary::new(0, 2)));
    sample_queue.push(Token::LineComment(Boundary::new(3, 8)));

    let nodes = parse(sample_queue);

    let mut expected_nodes: Vec<Node> = Vec::new();
    expected_nodes.push(Node::Simplex(Boundary::new(0, 2), Vec::new()));
    expected_nodes.push(Node::LineComment(Boundary::new(3, 8)));
    assert_eq!(nodes, expected_nodes)
}
