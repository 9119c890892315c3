use abt::agent::{
    agent_round, make_agents, receive_messages, run_agent, run_agent_rec, send_messages, send_oks,
    try_to_inc_pos, update_pos, AgentState, Outcome,
};
use abt::board::{eq_part_ass, Board};
use abt::detector::{Detector, QUIET_THRESHOLD};
use abt::error::AbtError;
use abt::inbox::order_inbox;
use abt::invariants::is_solution;
use abt::message::Message;
use abt::partition::partition;
use abt::position::{consistent, Position};
use abt::scheduler::{
    all_halted, candidate, deliver, make_channels, make_network, run_round, solve, think_phase,
};
use abt::trial::trial_order;

fn board(cols: &[Option<usize>]) -> Board {
    let mut cells = Vec::new();
    for c in cols {
        cells.push(match c {
            Some(col) => Position::Col(*col),
            None => Position::Unass,
        });
    }
    Board { cells }
}

fn columns(b: &Board) -> Vec<usize> {
    let mut cols = Vec::new();
    for i in 0..b.len() {
        match b.get(i) {
            Position::Col(c) => cols.push(c),
            Position::Unass => panic!("cell {} is unassigned", i),
        }
    }
    cols
}

fn is_heartbeat(m: &Message, from: usize) -> bool {
    matches!(m, Message::Heartbeat(s) if *s == from)
}

#[test]
fn oracle_rejects_shared_column_and_diagonals() {
    assert!(!consistent(0, Position::Col(2), 3, Position::Col(2)));
    assert!(!consistent(0, Position::Col(0), 2, Position::Col(2)));
    assert!(!consistent(1, Position::Col(3), 3, Position::Col(1)));
    assert!(consistent(0, Position::Col(1), 1, Position::Col(3)));
    assert!(consistent(0, Position::Col(0), 1, Position::Col(2)));
}

#[test]
fn oracle_accepts_unassigned_on_either_side() {
    assert!(consistent(0, Position::Unass, 1, Position::Col(0)));
    assert!(consistent(0, Position::Col(0), 1, Position::Unass));
    assert!(consistent(0, Position::Unass, 1, Position::Unass));
}

#[test]
fn oracle_is_symmetric() {
    for ar in 0..5usize {
        for br in 0..5usize {
            for ac in 0..5usize {
                for bc in 0..5usize {
                    assert_eq!(
                        consistent(ar, Position::Col(ac), br, Position::Col(bc)),
                        consistent(br, Position::Col(bc), ar, Position::Col(ac))
                    );
                }
            }
        }
    }
}

#[test]
fn oracle_does_not_overflow_on_large_ids() {
    assert!(!consistent(usize::MAX, Position::Col(usize::MAX), 0, Position::Col(0)));
    assert!(consistent(usize::MAX, Position::Col(0), 0, Position::Col(1)));
}

#[test]
fn nogood_matches_with_wildcards() {
    let nogood = board(&[Some(1), None, Some(0)]);
    assert!(eq_part_ass(&nogood, &board(&[Some(1), Some(3), Some(0), Some(2)])));
    assert!(!eq_part_ass(&nogood, &board(&[Some(1), Some(3), Some(2), Some(2)])));
}

#[test]
fn nogood_does_not_match_an_unassigned_cell() {
    let nogood = board(&[Some(1), Some(3)]);
    assert!(!eq_part_ass(&nogood, &board(&[Some(1), None, Some(0)])));
    assert!(eq_part_ass(&board(&[None, None]), &board(&[None, None])));
}

#[test]
fn nogood_compares_only_the_shorter_length() {
    assert!(eq_part_ass(&board(&[Some(1), Some(3), Some(0)]), &board(&[Some(1), Some(3)])));
    assert!(eq_part_ass(&board(&[]), &board(&[Some(1)])));
}

#[test]
fn board_operations() {
    let mut b = Board::new(3, Position::Col(0));
    assert_eq!(b.len(), 3);
    b.set(1, Position::Unass);
    b.set(2, Position::Col(5));
    assert_eq!(b.get(0), Position::Col(0));
    assert_eq!(b.get(1), Position::Unass);
    assert_eq!(b.get(2), Position::Col(5));
    let head = b.prefix(2);
    assert_eq!(head.cells, vec![Position::Col(0), Position::Unass]);
    assert!(b.same(&b.copy()));
    assert!(!b.same(&head));
    assert!(!b.same(&board(&[Some(0), None, Some(4)])));
}

#[test]
fn trial_order_without_seed_is_rising() {
    assert_eq!(trial_order(5, None, 3), vec![0, 1, 2, 3, 4]);
    assert_eq!(trial_order(0, None, 0), Vec::<usize>::new());
    assert_eq!(trial_order(0, Some(9), 0), Vec::<usize>::new());
}

#[test]
fn trial_order_with_seed_is_a_permutation() {
    for seed in 0..20u64 {
        for id in 0..6usize {
            let mut order = trial_order(9, Some(seed), id);
            assert_eq!(order, trial_order(9, Some(seed), id));
            order.sort();
            assert_eq!(order, vec![0, 1, 2, 3, 4, 5, 6, 7, 8]);
        }
    }
}

#[test]
fn trial_order_with_seed_shuffles() {
    let mut moved = false;
    for id in 0..6usize {
        if trial_order(9, Some(42), id) != vec![0, 1, 2, 3, 4, 5, 6, 7, 8] {
            moved = true;
        }
    }
    assert!(moved);
}

#[test]
fn fresh_agents_stand_on_column_zero() {
    let agents = make_agents(3, None);
    assert_eq!(agents.len(), 3);
    for (i, a) in agents.iter().enumerate() {
        assert_eq!(a.id, i);
        assert_eq!(a.pos.cells, vec![Position::Col(0); 3]);
        assert_eq!(a.pos_seq, vec![0, 1, 2]);
        assert_eq!(a.col_i, 0);
        assert!(a.no_goods.is_empty());
        assert_eq!(a.mess2send.len(), 3);
        assert!(a.mess2send.iter().all(|m| is_heartbeat(m, i)));
        assert_eq!(a.round, 0);
        assert_eq!(a.detector, Detector::Active);
    }
}

fn agent(id: usize, view: &[Option<usize>]) -> AgentState {
    let mut agents = make_agents(view.len(), None);
    let mut a = agents.swap_remove(id);
    a.pos = board(view);
    a
}

#[test]
fn search_takes_first_value_that_fits() {
    let mut a = agent(2, &[Some(1), Some(3), Some(0), Some(0)]);
    assert!(try_to_inc_pos(&mut a, 4));
    assert_eq!(a.pos.get(2), Position::Col(0));
    assert_eq!(a.col_i, 0);

    let mut a = agent(1, &[Some(0), Some(0), Some(0), Some(0)]);
    assert!(try_to_inc_pos(&mut a, 4));
    assert_eq!(a.pos.get(1), Position::Col(2));
    assert_eq!(a.col_i, 2);
}

#[test]
fn search_starts_at_the_cursor() {
    let mut a = agent(1, &[Some(0), Some(0), Some(0), Some(0)]);
    a.col_i = 3;
    assert!(try_to_inc_pos(&mut a, 4));
    assert_eq!(a.pos.get(1), Position::Col(3));
    assert_eq!(a.col_i, 3);
}

#[test]
fn search_follows_the_trial_order() {
    let mut a = agent(1, &[Some(0), Some(0), Some(0), Some(0)]);
    a.pos_seq = vec![1, 3, 0, 2];
    assert!(try_to_inc_pos(&mut a, 4));
    assert_eq!(a.pos.get(1), Position::Col(3));
    assert_eq!(a.col_i, 1);
}

#[test]
fn failed_search_resets_cursor_and_value() {
    let mut a = agent(2, &[Some(0), Some(2), Some(1), Some(0)]);
    a.pos_seq = vec![3, 0, 1, 2];
    a.col_i = 1;
    // columns 0, 1 and 2 all clash with the queens in rows 0 and 1
    assert!(!try_to_inc_pos(&mut a, 4));
    assert_eq!(a.col_i, 0);
    assert_eq!(a.pos.get(2), Position::Col(3));
}

#[test]
fn search_ignores_unassigned_and_higher_agents() {
    let mut a = agent(1, &[None, Some(0), Some(0), Some(0)]);
    assert!(try_to_inc_pos(&mut a, 4));
    assert_eq!(a.pos.get(1), Position::Col(0));
}

#[test]
fn backtracking_blames_the_predecessor() {
    // rows 0 and 1 leave no column for row 2 on a board of three
    let mut a = agent(2, &[Some(0), Some(2), Some(0)]);
    assert_eq!(update_pos(&mut a, 3), Outcome::Backtracked);
    match &a.mess2send[1] {
        Message::Conflict(from, nogood) => {
            assert_eq!(*from, 2);
            assert_eq!(nogood.cells, vec![Position::Col(0), Position::Col(2)]);
        }
        other => panic!("no conflict for agent 1: {:?}", other),
    }
    assert!(is_heartbeat(&a.mess2send[0], 2));
    assert!(is_heartbeat(&a.mess2send[2], 2));
    assert_eq!(a.pos.get(1), Position::Unass);
    assert_eq!(a.pos.get(0), Position::Col(0));
    assert_eq!(a.pos.get(2), Position::Col(1));
    assert_eq!(a.col_i, 1);
}

#[test]
fn backtracking_retries_from_the_first_value() {
    let mut a = agent(3, &[Some(1), Some(3), Some(0), Some(0)]);
    // only column 2 is free; shut it out by starting the search behind it
    a.col_i = 3;
    assert_eq!(update_pos(&mut a, 4), Outcome::Backtracked);
    assert!(matches!(&a.mess2send[2], Message::Conflict(3, n)
        if n.cells == vec![Position::Col(1), Position::Col(3), Position::Col(0)]));
    assert!(is_heartbeat(&a.mess2send[0], 3));
    assert!(is_heartbeat(&a.mess2send[1], 3));
    assert_eq!(a.pos.get(2), Position::Unass);
    // with row 2 forgotten, column 0 fits rows 0 and 1
    assert_eq!(a.pos.get(3), Position::Col(0));
    assert_eq!(a.col_i, 0);
}

#[test]
fn backtracking_goes_on_to_lower_agents() {
    // on a board of five, rows 0 and 1 alone shut out every column of row 4
    let mut a = agent(4, &[Some(0), Some(2), Some(4), Some(1), Some(0)]);
    a.pos = board(&[Some(4), Some(2), None, None, Some(0)]);
    a.pos.set(0, Position::Col(0));
    a.pos.set(1, Position::Col(3));
    a.pos.set(2, Position::Col(2));
    a.pos.set(3, Position::Col(1));
    let end = update_pos(&mut a, 5);
    assert_eq!(end, Outcome::Backtracked);
    let mut blamed = Vec::new();
    for (k, m) in a.mess2send.iter().enumerate() {
        if let Message::Conflict(from, nogood) = m {
            assert_eq!(*from, 4);
            assert_eq!(nogood.cells.len(), k + 1);
            blamed.push(k);
        }
    }
    // the agents blamed are the nearest lower ones, without a gap
    assert!(!blamed.is_empty());
    for (i, k) in blamed.iter().rev().enumerate() {
        assert_eq!(*k, 3 - i);
        assert_eq!(a.pos.get(*k), Position::Unass);
    }
    for k in 0..(4 - blamed.len()) {
        assert!(consistent(k, a.pos.get(k), 4, a.pos.get(4)));
    }
}

#[test]
fn search_without_backtracking_reports_found() {
    let mut a = agent(3, &[Some(1), Some(3), Some(0), Some(0)]);
    assert_eq!(update_pos(&mut a, 4), Outcome::Found);
    assert_eq!(a.pos.get(3), Position::Col(2));
    assert!(a.mess2send.iter().all(|m| is_heartbeat(m, 3)));
}

#[test]
fn agent_zero_underflows_when_its_domain_is_used_up() {
    let mut a = agent(0, &[Some(0), Some(0)]);
    a.col_i = 2;
    assert_eq!(update_pos(&mut a, 2), Outcome::Underflow);
}

#[test]
fn stored_nogood_moves_the_cursor_on() {
    let mut a = agent(1, &[Some(0), Some(0), Some(0), Some(0)]);
    a.no_goods.push(board(&[Some(0), Some(2)]));
    assert_eq!(run_agent_rec(&mut a, 4), Outcome::Found);
    assert_eq!(a.pos.get(1), Position::Col(3));
    assert_eq!(a.col_i, 3);
}

#[test]
fn nogoods_that_rule_out_every_value_force_backtracking() {
    let mut a = agent(1, &[Some(0), Some(0), Some(0), Some(0)]);
    a.no_goods.push(board(&[Some(0), Some(2)]));
    a.no_goods.push(board(&[Some(0), Some(3)]));
    assert_eq!(run_agent_rec(&mut a, 4), Outcome::Backtracked);
    assert!(matches!(&a.mess2send[0], Message::Conflict(1, n) if n.cells == vec![Position::Col(0)]));
    assert_eq!(a.pos.get(0), Position::Unass);
}

#[test]
fn stale_nogood_is_skipped() {
    let mut a = agent(1, &[Some(0), Some(0), Some(0), Some(0)]);
    a.no_goods.push(board(&[Some(1), Some(2)]));
    assert_eq!(run_agent_rec(&mut a, 4), Outcome::Found);
    assert_eq!(a.pos.get(1), Position::Col(2));
}

#[test]
fn changed_value_is_announced_upwards_only() {
    let mut a = agent(1, &[Some(0), Some(0), Some(0), Some(0)]);
    assert_eq!(run_agent(&mut a, 4), Outcome::Found);
    assert!(is_heartbeat(&a.mess2send[0], 1));
    assert!(is_heartbeat(&a.mess2send[1], 1));
    assert!(matches!(a.mess2send[2], Message::ValueUpdate(1, Position::Col(2))));
    assert!(matches!(a.mess2send[3], Message::ValueUpdate(1, Position::Col(2))));
}

#[test]
fn unchanged_value_sends_heartbeats() {
    let mut a = agent(1, &[Some(0), Some(2), Some(0), Some(0)]);
    a.col_i = 2;
    assert_eq!(run_agent(&mut a, 4), Outcome::Found);
    assert!(a.mess2send.iter().all(|m| is_heartbeat(m, 1)));
}

#[test]
fn send_oks_fills_higher_slots() {
    let mut a = agent(0, &[Some(2), Some(0), Some(0)]);
    send_oks(&mut a, 3);
    assert!(is_heartbeat(&a.mess2send[0], 0));
    assert!(matches!(a.mess2send[1], Message::ValueUpdate(0, Position::Col(2))));
    assert!(matches!(a.mess2send[2], Message::ValueUpdate(0, Position::Col(2))));
}

#[test]
fn send_messages_hands_over_and_resets() {
    let mut a = agent(0, &[Some(2), Some(0), Some(0)]);
    send_oks(&mut a, 3);
    let out = send_messages(&mut a);
    assert_eq!(out.len(), 3);
    assert!(matches!(out[2], Message::ValueUpdate(0, Position::Col(2))));
    assert!(a.mess2send.iter().all(|m| is_heartbeat(m, 0)));
}

#[test]
fn value_update_overwrites_view_and_resets_cursor() {
    let mut a = agent(2, &[Some(0), Some(2), Some(3), Some(0)]);
    a.pos_seq = vec![1, 0, 2, 3];
    a.col_i = 3;
    let quiet = receive_messages(4, &mut a, &vec![Message::ValueUpdate(0, Position::Col(1))]);
    assert!(!quiet);
    assert_eq!(a.pos.get(0), Position::Col(1));
    assert_eq!(a.col_i, 0);
    assert_eq!(a.pos.get(2), Position::Col(1));
    assert!(matches!(a.mess2send[3], Message::ValueUpdate(2, Position::Col(1))));
    assert!(is_heartbeat(&a.mess2send[1], 2));
}

#[test]
fn value_update_with_known_value_changes_nothing() {
    let mut a = agent(2, &[Some(0), Some(2), Some(3), Some(0)]);
    a.col_i = 3;
    let quiet = receive_messages(4, &mut a, &vec![Message::ValueUpdate(1, Position::Col(2))]);
    assert!(!quiet);
    assert_eq!(a.col_i, 3);
    assert_eq!(a.pos.get(2), Position::Col(3));
    assert!(a.mess2send.iter().all(|m| is_heartbeat(m, 2)));
}

#[test]
fn value_update_goes_into_the_view_whoever_sent_it() {
    let mut a = agent(1, &[Some(0), Some(2), Some(0), Some(0)]);
    a.col_i = 2;
    receive_messages(4, &mut a, &vec![Message::ValueUpdate(3, Position::Col(2))]);
    assert_eq!(
        a.pos.cells,
        vec![Position::Col(0), Position::Col(0), Position::Col(0), Position::Col(2)]
    );
    assert_eq!(a.col_i, 0);
    assert!(matches!(a.mess2send[2], Message::ValueUpdate(1, Position::Col(0))));
    assert!(matches!(a.mess2send[3], Message::ValueUpdate(1, Position::Col(0))));
    assert!(is_heartbeat(&a.mess2send[0], 1));
}

#[test]
fn value_update_from_outside_the_board_is_ignored() {
    let mut a = agent(1, &[Some(0), Some(2), Some(0)]);
    assert!(!receive_messages(3, &mut a, &vec![Message::ValueUpdate(7, Position::Col(1))]));
    assert_eq!(a.pos.cells, vec![Position::Col(0), Position::Col(2), Position::Col(0)]);
    assert!(a.mess2send.iter().all(|m| is_heartbeat(m, 1)));
}

#[test]
fn backtrack_leaves_heartbeats_for_everybody_not_blamed() {
    let mut a = agent(2, &[Some(0), Some(2), Some(0), Some(0)]);
    a.mess2send[3] = Message::ValueUpdate(2, Position::Col(0));
    assert_eq!(update_pos(&mut a, 4), Outcome::Backtracked);
    assert_eq!(
        a.pos.cells,
        vec![Position::Col(0), Position::Unass, Position::Col(1), Position::Col(0)]
    );
    assert!(is_heartbeat(&a.mess2send[0], 2));
    assert!(matches!(&a.mess2send[1], Message::Conflict(2, n)
        if n.cells == vec![Position::Col(0), Position::Col(2)]));
    assert!(is_heartbeat(&a.mess2send[2], 2));
    assert!(is_heartbeat(&a.mess2send[3], 2));
}

#[test]
fn value_is_announced_after_every_backtrack() {
    // the value that the agent ends on is the one it held, but what waited
    // for the agents above was replaced by heartbeats
    let mut a = agent(2, &[Some(0), Some(2), Some(1), Some(0)]);
    a.mess2send[3] = Message::ValueUpdate(2, Position::Col(1));
    assert_eq!(run_agent(&mut a, 4), Outcome::Backtracked);
    assert_eq!(a.pos.get(2), Position::Col(1));
    assert!(is_heartbeat(&a.mess2send[0], 2));
    assert!(matches!(&a.mess2send[1], Message::Conflict(2, _)));
    assert!(is_heartbeat(&a.mess2send[2], 2));
    assert!(matches!(a.mess2send[3], Message::ValueUpdate(2, Position::Col(1))));
}

#[test]
fn conflict_is_learned_once() {
    let mut a = agent(1, &[Some(0), Some(2), Some(0)]);
    let inbox = vec![
        Message::Conflict(2, board(&[Some(0), Some(2)])),
        Message::Conflict(2, board(&[Some(0), Some(2)])),
    ];
    assert!(!receive_messages(3, &mut a, &inbox));
    assert_eq!(a.no_goods.len(), 1);
    receive_messages(3, &mut a, &inbox);
    assert_eq!(a.no_goods.len(), 1);
    receive_messages(3, &mut a, &vec![Message::Conflict(2, board(&[Some(1), Some(2)]))]);
    assert_eq!(a.no_goods.len(), 2);
    assert_eq!(a.no_goods[1].cells, vec![Position::Col(1), Position::Col(2)]);
}

#[test]
fn conflict_must_end_at_the_receiver_and_come_from_above() {
    let mut a = agent(1, &[Some(0), Some(2), Some(0)]);
    let inbox = vec![
        Message::Conflict(2, board(&[Some(0)])),
        Message::Conflict(2, board(&[Some(0), Some(2), Some(0)])),
        Message::Conflict(0, board(&[Some(0), Some(2)])),
        Message::Conflict(1, board(&[Some(0), Some(2)])),
        Message::Conflict(3, board(&[Some(0), Some(2)])),
    ];
    receive_messages(3, &mut a, &inbox);
    assert!(a.no_goods.is_empty());
}

#[test]
fn heartbeats_and_terminate_are_quiet() {
    let mut a = agent(1, &[Some(0), Some(2), Some(0)]);
    let inbox = vec![Message::Heartbeat(0), Message::Terminate(2, 9), Message::Heartbeat(2)];
    assert!(receive_messages(3, &mut a, &inbox));
    assert_eq!(a.detector, Detector::Terminating(9));
    assert!(receive_messages(3, &mut a, &Vec::new()));
}

#[test]
fn earliest_announced_round_stands() {
    let mut a = agent(1, &[Some(0), Some(2), Some(0)]);
    receive_messages(3, &mut a, &vec![Message::Terminate(2, 9), Message::Terminate(2, 5)]);
    assert_eq!(a.detector, Detector::Terminating(5));
    receive_messages(3, &mut a, &vec![Message::Terminate(2, 7)]);
    assert_eq!(a.detector, Detector::Terminating(5));
}

#[test]
fn detector_counts_quiet_rounds() {
    let d = Detector::Active;
    assert_eq!(d.on_inbox(true, true, 0, 2), (Detector::Quiescent(1), false));
    assert_eq!(Detector::Quiescent(1).on_inbox(true, true, 1, 2), (Detector::Quiescent(2), false));
    assert_eq!(Detector::Quiescent(2).on_inbox(true, true, 2, 2), (Detector::Terminating(3), true));
    assert_eq!(Detector::Quiescent(2).on_inbox(true, false, 2, 2), (Detector::Active, false));
    assert_eq!(Detector::Quiescent(2).on_inbox(false, true, 2, 2), (Detector::Active, false));
    assert_eq!(Detector::Active.on_inbox(true, true, 4, 0), (Detector::Terminating(5), true));
    assert_eq!(Detector::Terminating(3).on_inbox(true, true, 2, 2), (Detector::Terminating(3), false));
    assert_eq!(Detector::Stopped.on_inbox(true, true, 2, 2), (Detector::Stopped, false));
}

#[test]
fn detector_halts_after_the_announced_round() {
    assert_eq!(Detector::Terminating(3).on_round_end(3), Detector::Terminating(3));
    assert_eq!(Detector::Terminating(3).on_round_end(4), Detector::Stopped);
    assert_eq!(Detector::Active.on_round_end(4), Detector::Active);
    assert!(Detector::Stopped.halted());
    assert!(!Detector::Terminating(0).halted());
    assert!(Detector::Terminating(3).overdue(4));
    assert!(!Detector::Terminating(3).overdue(3));
    assert_eq!(Detector::Active.on_terminate(6), Detector::Terminating(6));
    assert_eq!(Detector::Quiescent(4).on_terminate(6), Detector::Terminating(6));
    assert_eq!(Detector::Stopped.on_terminate(6), Detector::Stopped);
}

#[test]
fn sentinel_announces_the_end_after_the_threshold() {
    let mut a = agent(0, &[Some(0)]);
    for round in 0..QUIET_THRESHOLD {
        let out = agent_round(&mut a, &Vec::new(), QUIET_THRESHOLD).unwrap();
        assert_eq!(out.len(), 1);
        assert_eq!(a.detector, Detector::Quiescent(round + 1));
        assert_eq!(a.round, round + 1);
    }
    agent_round(&mut a, &Vec::new(), QUIET_THRESHOLD).unwrap();
    assert_eq!(a.detector, Detector::Terminating(QUIET_THRESHOLD + 1));
    agent_round(&mut a, &Vec::new(), QUIET_THRESHOLD).unwrap();
    assert_eq!(a.detector, Detector::Stopped);
    assert_eq!(a.round, QUIET_THRESHOLD + 2);
}

#[test]
fn sentinel_broadcasts_terminate_for_the_next_round() {
    let mut a = agent(2, &[Some(1), Some(3), Some(0)]);
    a.detector = Detector::Quiescent(10);
    a.round = 20;
    let out = agent_round(&mut a, &vec![Message::Heartbeat(0), Message::Heartbeat(1)], 10).unwrap();
    assert!(matches!(out[0], Message::Terminate(2, 21)));
    assert!(matches!(out[1], Message::Terminate(2, 21)));
    assert!(is_heartbeat(&out[2], 2));
    assert_eq!(a.detector, Detector::Terminating(21));
    assert_eq!(a.round, 21);
}

#[test]
fn only_the_sentinel_counts() {
    let mut a = agent(1, &[Some(1), Some(3), Some(0)]);
    a.detector = Detector::Quiescent(10);
    let out = agent_round(&mut a, &vec![Message::Heartbeat(0)], 10).unwrap();
    assert!(out.iter().all(|m| !matches!(m, Message::Terminate(_, _))));
    assert_eq!(a.detector, Detector::Active);
}

#[test]
fn work_resets_the_quiet_count() {
    let mut a = agent(2, &[Some(1), Some(3), Some(0)]);
    a.detector = Detector::Quiescent(7);
    agent_round(&mut a, &vec![Message::ValueUpdate(0, Position::Col(1))], 10).unwrap();
    assert_eq!(a.detector, Detector::Active);
}

#[test]
fn agent_is_silent_after_the_announced_round() {
    let mut a = agent(1, &[Some(0), Some(0), Some(0)]);
    a.round = 4;
    // the end is announced for round 4: the agent finishes that round
    let out = agent_round(&mut a, &vec![Message::Terminate(2, 4)], 10).unwrap();
    assert_eq!(out.len(), 3);
    assert_eq!(a.detector, Detector::Stopped);
    // from then on it hands over nothing, whatever arrives
    let view = a.pos.copy();
    let out = agent_round(&mut a, &vec![Message::ValueUpdate(0, Position::Col(2))], 10).unwrap();
    assert!(out.is_empty());
    assert!(a.pos.same(&view));
    assert_eq!(a.round, 5);
}

#[test]
fn late_announcement_halts_at_once() {
    let mut a = agent(1, &[Some(0), Some(0), Some(0)]);
    a.round = 6;
    let inbox = vec![Message::ValueUpdate(0, Position::Col(2)), Message::Terminate(2, 4)];
    let out = agent_round(&mut a, &inbox, 10).unwrap();
    assert!(out.is_empty());
    assert_eq!(a.detector, Detector::Stopped);
}

#[test]
fn underflow_is_surfaced_with_the_agent() {
    let mut a = agent(0, &[Some(0), Some(0)]);
    a.col_i = 2;
    assert_eq!(
        agent_round(&mut a, &Vec::new(), 10).err(),
        Some(AbtError::BacktrackUnderflow(0))
    );
}

#[test]
fn partition_sizes_for_ten_agents_on_three_workers() {
    assert_eq!(partition(10, 3), vec![(0, 4), (4, 7), (7, 10)]);
}

#[test]
fn partition_edge_cases() {
    assert_eq!(partition(4, 1), vec![(0, 4)]);
    assert_eq!(partition(4, 4), vec![(0, 1), (1, 2), (2, 3), (3, 4)]);
    assert_eq!(partition(2, 3), vec![(0, 1), (1, 2), (2, 2)]);
    assert_eq!(partition(0, 2), vec![(0, 0), (0, 0)]);
    assert_eq!(partition(7, 2), vec![(0, 4), (4, 7)]);
}

#[test]
fn delivery_goes_by_rising_sender_and_skips_self() {
    let outs = vec![
        vec![Message::Heartbeat(0), Message::ValueUpdate(0, Position::Col(1)), Message::Heartbeat(0)],
        Vec::new(),
        vec![Message::Conflict(2, board(&[Some(3)])), Message::Heartbeat(2), Message::Heartbeat(2)],
    ];
    let inboxes = deliver(&outs);
    assert_eq!(inboxes.len(), 3);
    assert_eq!(inboxes[0].len(), 1);
    assert!(matches!(&inboxes[0][0], Message::Conflict(2, b) if b.cells == vec![Position::Col(3)]));
    assert_eq!(inboxes[1].len(), 2);
    assert!(matches!(inboxes[1][0], Message::ValueUpdate(0, Position::Col(1))));
    assert!(is_heartbeat(&inboxes[1][1], 2));
    assert_eq!(inboxes[2].len(), 1);
    assert!(is_heartbeat(&inboxes[2][0], 0));
}

#[test]
fn channels_start_empty() {
    let boxes = make_channels(3);
    assert_eq!(boxes.len(), 3);
    assert!(boxes.iter().all(|b| b.is_empty()));
}

#[test]
fn four_queens_sequential() {
    let solution = solve(4, 1, None, QUIET_THRESHOLD, 1000).unwrap();
    assert_eq!(columns(&solution), vec![1, 3, 0, 2]);
    assert!(is_solution(&solution));
    let mut sorted = columns(&solution);
    sorted.sort();
    assert_eq!(sorted, vec![0, 1, 2, 3]);
}

#[test]
fn solutions_are_consistent() {
    for n in 4..11usize {
        let solution = solve(n, 1, None, QUIET_THRESHOLD, 100000).unwrap();
        assert_eq!(solution.len(), n);
        assert!(is_solution(&solution), "n = {}: {:?}", n, solution);
    }
    assert_eq!(columns(&solve(1, 1, None, QUIET_THRESHOLD, 100).unwrap()), vec![0]);
    assert_eq!(solve(0, 1, None, QUIET_THRESHOLD, 100).unwrap().len(), 0);
}

#[test]
fn same_seed_gives_same_result() {
    for n in 4..9usize {
        for seed in [None, Some(1), Some(7), Some(12345)] {
            let first = solve(n, 2, seed, QUIET_THRESHOLD, 100000);
            let second = solve(n, 2, seed, QUIET_THRESHOLD, 100000);
            match (first, second) {
                (Ok(a), Ok(b)) => assert!(a.same(&b)),
                (Err(a), Err(b)) => assert_eq!(a, b),
                _ => panic!("two runs of n = {} with seed {:?} differ", n, seed),
            }
        }
    }
}

#[test]
fn seeded_runs_are_consistent() {
    for n in 4..11usize {
        for seed in 0..20u64 {
            let solution = solve(n, 1, Some(seed), QUIET_THRESHOLD, 100000).unwrap();
            assert!(is_solution(&solution), "n {} seed {}: {:?}", n, seed, solution);
        }
    }
}

#[test]
fn hasty_detector_stops_before_the_agents_agree() {
    // with no patience at all the sentinel ends the run after its first
    // quiet round, while values are still on their way
    let early = solve(4, 1, None, 0, 1000).unwrap();
    assert_eq!(columns(&early), vec![0, 2, 3, 1]);
    assert!(!is_solution(&early));
}

#[test]
fn partition_is_not_observable() {
    let single = solve(10, 1, None, QUIET_THRESHOLD, 100000).unwrap();
    let split = solve(10, 3, None, QUIET_THRESHOLD, 100000).unwrap();
    assert!(single.same(&split));
    assert!(is_solution(&single));
    for seed in [3u64, 99] {
        let single = solve(10, 1, Some(seed), QUIET_THRESHOLD, 100000);
        let split = solve(10, 3, Some(seed), QUIET_THRESHOLD, 100000);
        match (single, split) {
            (Ok(a), Ok(b)) => assert!(a.same(&b)),
            (Err(a), Err(b)) => assert_eq!(a, b),
            _ => panic!("the split changed the outcome for seed {}", seed),
        }
    }
}

#[test]
fn unsolvable_boards_underflow_at_agent_zero() {
    assert_eq!(solve(2, 1, None, QUIET_THRESHOLD, 1000).err(), Some(AbtError::BacktrackUnderflow(0)));
    assert_eq!(solve(3, 1, None, QUIET_THRESHOLD, 1000).err(), Some(AbtError::BacktrackUnderflow(0)));
    assert_eq!(solve(3, 3, Some(5), QUIET_THRESHOLD, 1000).err(), Some(AbtError::BacktrackUnderflow(0)));
}

#[test]
fn round_limit_is_reported() {
    assert_eq!(solve(4, 1, None, QUIET_THRESHOLD, 3).err(), Some(AbtError::RoundLimit));
    assert_eq!(solve(4, 1, None, QUIET_THRESHOLD, 0).err(), Some(AbtError::RoundLimit));
    assert!(solve(0, 1, None, QUIET_THRESHOLD, 0).is_ok());
}

#[test]
fn sending_to_a_halted_agent_closes_the_run() {
    let mut net = make_network(3, None);
    net.agents[1].detector = Detector::Stopped;
    let parts = partition(3, 2);
    assert_eq!(run_round(&mut net, &parts, 10).err(), Some(AbtError::ChannelClosed(1)));
}

#[test]
fn rounds_run_in_lockstep() {
    let mut net = make_network(4, None);
    let parts = partition(4, 2);
    assert!(!all_halted(&net));
    run_round(&mut net, &parts, 10).unwrap();
    assert!(net.agents.iter().all(|a| a.round == 1));
    // every agent hears from the three others
    assert!(net.inboxes.iter().all(|b| b.len() == 3));
    // agent 1 moved from column 0 to column 2 and said so to agents 2 and 3 only
    assert!(is_heartbeat(&net.inboxes[0][0], 1));
    assert!(matches!(net.inboxes[2][1], Message::ValueUpdate(1, Position::Col(2))));
    assert!(matches!(net.inboxes[3][1], Message::ValueUpdate(1, Position::Col(2))));
    assert_eq!(candidate(&net).cells, net.agents[3].pos.cells);
}

#[test]
fn think_phase_returns_one_outbox_per_agent() {
    let mut net = make_network(5, None);
    let parts = partition(5, 3);
    let outs = think_phase(&mut net, &parts, 10).unwrap();
    assert_eq!(outs.len(), 5);
    assert!(outs.iter().all(|o| o.len() == 5));
}

#[test]
fn all_agents_halt_in_the_same_round() {
    let mut net = make_network(5, None);
    let parts = partition(5, 2);
    let mut rounds = 0;
    while !all_halted(&net) {
        assert!(net.agents.iter().all(|a| a.detector != Detector::Stopped));
        run_round(&mut net, &parts, QUIET_THRESHOLD).unwrap();
        rounds += 1;
        assert!(rounds < 10000);
    }
    assert!(net.agents.iter().all(|a| a.round == rounds));
    assert!(is_solution(&candidate(&net)));
}

#[test]
fn candidate_validation() {
    assert!(is_solution(&board(&[Some(1), Some(3), Some(0), Some(2)])));
    assert!(!is_solution(&board(&[Some(1), Some(3), Some(0), Some(3)])));
    assert!(!is_solution(&board(&[Some(0), Some(1)])));
    assert!(!is_solution(&board(&[Some(1), None, Some(0), Some(2)])));
    assert!(is_solution(&board(&[])));
    for n in 4..9usize {
        assert!(is_solution(&solve(n, 2, None, QUIET_THRESHOLD, 100000).unwrap()));
    }
}

#[test]
fn inbox_is_ordered_by_sender_and_keeps_each_senders_order() {
    let arrived = vec![
        Message::ValueUpdate(2, Position::Col(1)),
        Message::Heartbeat(0),
        Message::ValueUpdate(2, Position::Col(3)),
        Message::Terminate(5, 9),
        Message::Conflict(1, board(&[Some(4)])),
        Message::ValueUpdate(0, Position::Col(7)),
    ];
    let sorted = order_inbox(&arrived);
    assert_eq!(sorted.len(), 6);
    assert!(is_heartbeat(&sorted[0], 0));
    assert!(matches!(sorted[1], Message::ValueUpdate(0, Position::Col(7))));
    assert!(matches!(&sorted[2], Message::Conflict(1, b) if b.cells == vec![Position::Col(4)]));
    assert!(matches!(sorted[3], Message::ValueUpdate(2, Position::Col(1))));
    assert!(matches!(sorted[4], Message::ValueUpdate(2, Position::Col(3))));
    assert!(matches!(sorted[5], Message::Terminate(5, 9)));
    assert!(order_inbox(&Vec::new()).is_empty());
}

#[test]
fn arrival_order_among_senders_is_not_observable() {
    let first = vec![
        Message::ValueUpdate(1, Position::Col(3)),
        Message::Conflict(3, board(&[Some(0), Some(1), Some(2)])),
        Message::ValueUpdate(0, Position::Col(1)),
        Message::Conflict(3, board(&[Some(1), Some(1), Some(2)])),
    ];
    let second = vec![
        Message::Conflict(3, board(&[Some(0), Some(1), Some(2)])),
        Message::ValueUpdate(0, Position::Col(1)),
        Message::Conflict(3, board(&[Some(1), Some(1), Some(2)])),
        Message::ValueUpdate(1, Position::Col(3)),
    ];
    let mut a = agent(2, &[Some(0), Some(0), Some(2), Some(0)]);
    let mut b = agent(2, &[Some(0), Some(0), Some(2), Some(0)]);
    let quiet_a = receive_messages(4, &mut a, &order_inbox(&first));
    let quiet_b = receive_messages(4, &mut b, &order_inbox(&second));
    assert_eq!(quiet_a, quiet_b);
    assert!(a.pos.same(&b.pos));
    assert_eq!(a.col_i, b.col_i);
    assert_eq!(a.no_goods.len(), 2);
    assert_eq!(b.no_goods.len(), 2);
    for k in 0..2 {
        assert!(a.no_goods[k].same(&b.no_goods[k]));
    }
    assert_eq!(format!("{:?}", a.mess2send), format!("{:?}", b.mess2send));
}
