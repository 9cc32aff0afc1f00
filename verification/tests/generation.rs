use rust_dispatcher::generation::{Generation, Step};

#[test]
fn the_first_step_feeds_the_prompt_and_later_ones_the_last_token() {
    let mut g = Generation::new(vec![10, 11, 12, 13], 0, 3, 2);
    assert_eq!(g.next_step(), Some(Step { start_pos: 0, penalty_start: 2 }));
    assert!(g.accept(20));
    assert_eq!(g.next_step(), Some(Step { start_pos: 4, penalty_start: 3 }));
    assert!(g.accept(21));
    assert_eq!(g.next_step(), Some(Step { start_pos: 5, penalty_start: 4 }));
    assert!(g.accept(22));
    assert_eq!(g.next_step(), None);
    assert_eq!(g.generated(), 3);
    assert_eq!(g.tokens(), &vec![10, 11, 12, 13, 20, 21, 22]);
}

#[test]
fn generation_stops_at_the_end_of_text_token() {
    let mut g = Generation::new(vec![1], 7, 500, 64);
    assert_eq!(g.next_step(), Some(Step { start_pos: 0, penalty_start: 0 }));
    assert!(g.accept(3));
    assert!(!g.accept(7));
    assert_eq!(g.next_step(), None);
    assert_eq!(g.generated(), 2);
}

#[test]
fn nothing_is_generated_when_no_tokens_may_be() {
    let g = Generation::new(vec![1, 2], 0, 0, 64);
    assert_eq!(g.next_step(), None);
}
