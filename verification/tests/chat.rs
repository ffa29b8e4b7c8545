use axon::chat::{
    drawn_embedding, prompt_embedding, read_input, Action, ChatInput, EmbeddingSource, Generation,
    History, Message,
};
use axon::tensor::DType;

fn run(prompt: Vec<u32>, max_tokens: usize, eos: u32, draws: &[usize]) -> (Vec<u32>, Vec<usize>) {
    let mut g = Generation::start(prompt, max_tokens, eos).unwrap();
    let mut seen = Vec::new();
    let mut next = 0;
    loop {
        match g.next_action() {
            Action::Evaluate { pos, .. } => {
                seen.push(pos);
                g.evaluated();
            }
            Action::Draw => {
                if next < draws.len() {
                    g.drawn(draws[next]);
                    next += 1;
                } else {
                    g.stop();
                }
            }
            Action::Finish => return (g.tokens().clone(), seen),
        }
    }
}

#[test]
fn an_empty_prompt_is_refused() {
    assert_eq!(Generation::start(vec![], 4, 2).unwrap_err(), "empty prompt");
}

#[test]
fn a_reply_ends_with_its_last_token() {
    let (tokens, seen) = run(vec![5, 6], 10, 2, &[7, 8, 2, 9]);
    assert_eq!(tokens, vec![7, 8]);
    assert_eq!(seen, vec![0, 1, 2, 3]);
}

#[test]
fn a_reply_is_no_longer_than_asked() {
    let (tokens, seen) = run(vec![5], 3, 2, &[7, 8, 9, 10]);
    assert_eq!(tokens, vec![7, 8, 9]);
    assert_eq!(seen, vec![0, 1, 2, 3]);
    let (tokens, seen) = run(vec![5], 0, 2, &[7]);
    assert!(tokens.is_empty());
    assert_eq!(seen, vec![0]);
    let (tokens, _) = run(vec![5], usize::MAX, 2, &[7, 8]);
    assert_eq!(tokens, vec![7, 8]);
}

#[test]
fn tokens_are_seen_where_they_stand() {
    let mut g = Generation::start(vec![5], 2, 9).unwrap();
    assert_eq!(g.prompt_len(), 1);
    assert_eq!(g.next_action(), Action::Evaluate { token: 5, pos: 0, prompt: true });
    g.evaluated();
    assert_eq!(g.next_action(), Action::Draw);
    g.drawn(4);
    assert_eq!(g.next_action(), Action::Evaluate { token: 4, pos: 1, prompt: false });
}

#[test]
fn embeddings_come_from_where_they_are() {
    assert_eq!(
        drawn_embedding(2, 3, 9),
        EmbeddingSource::Numbers { start: 6, end: 9 }
    );
    assert_eq!(drawn_embedding(3, 3, 9), EmbeddingSource::Zeros);
    assert_eq!(drawn_embedding(usize::MAX, 3, 9), EmbeddingSource::Zeros);
    assert_eq!(
        prompt_embedding(1, 3, DType::F16, 9, None),
        EmbeddingSource::Numbers { start: 3, end: 6 }
    );
    assert_eq!(
        prompt_embedding(1, 32, DType::Q4, 0, Some(36)),
        EmbeddingSource::Bytes { start: 18, end: 36 }
    );
    assert_eq!(
        prompt_embedding(2, 32, DType::Q4, 0, Some(36)),
        EmbeddingSource::Unchanged
    );
    assert_eq!(prompt_embedding(0, 32, DType::Q4, 0, None), EmbeddingSource::Zeros);
}

#[test]
fn lines_are_read() {
    assert!(matches!(read_input("  EXIT \n", false), ChatInput::Leave));
    assert!(matches!(read_input("Quit", false), ChatInput::Leave));
    assert!(matches!(read_input("/exit", true), ChatInput::Leave));
    match read_input("/exit\n", false) {
        ChatInput::Say(t) => assert_eq!(t, "/exit"),
        other => panic!("unexpected {:?}", other),
    }
    assert!(matches!(read_input(" \t\n", true), ChatInput::Nothing));
    match read_input("\u{3000}hello there \r\n", true) {
        ChatInput::Say(t) => assert_eq!(t, "hello there"),
        other => panic!("unexpected {:?}", other),
    }
}

#[test]
fn a_conversation_grows() {
    let mut h = History::new(Some("be kind"));
    assert_eq!(h.as_str(), "<|system|>\nbe kind\n<|end|>\n");
    assert_eq!(
        h.prompt("hi"),
        "<|system|>\nbe kind\n<|end|>\n<|user|>\nhi\n<|end|>\n<|assistant|>\n"
    );
    h.record("hi", "hello");
    assert_eq!(
        h.as_str(),
        "<|system|>\nbe kind\n<|end|>\n<|user|>\nhi\n<|end|>\n<|assistant|>\nhello\n<|end|>\n"
    );
    assert_eq!(History::new(None).as_str(), "");
}

#[test]
fn a_long_conversation_is_cut() {
    let mut h = History::new(None);
    for i in 0..4 {
        h.record(&format!("question {} \u{e9}", i), "answer");
    }
    let before = h.as_str().to_string();
    h.shorten(1000);
    assert_eq!(h.as_str(), before);
    h.shorten(10);
    let half = before.len() / 2;
    let at = half + before[half..].find("<|user|>").unwrap();
    assert_eq!(h.as_str(), &before[at..]);
    assert!(h.as_str().starts_with("<|user|>"));

    let mut h = History::new(Some("no turn at all"));
    let before = h.as_str().to_string();
    h.shorten(0);
    assert_eq!(h.as_str(), before);
}

#[test]
fn messages_have_a_role() {
    let m = Message { role: "user".to_string(), content: "hi".to_string() };
    assert_eq!(m.role, "user");
    assert_eq!(m.content, "hi");
}

#[test]
fn a_shorter_reply_is_the_beginning_of_a_longer_one() {
    let reply = |limit: usize| run(vec![1, 2], limit, 9, &[5, 6, 7, 9, 8]).0;
    assert_eq!(reply(5), vec![5, 6, 7]);
    assert_eq!(reply(2), vec![5, 6]);
    assert_eq!(reply(0), Vec::<u32>::new());
}
