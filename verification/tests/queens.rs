use web_server::queens::{
    is_attacked_by_chain, linked_to_board, try_solve_low_mem_serial_proc, Queen, QueensBoard,
};

fn q(row: u8, col: u8) -> Queen {
    Queen { row, col }
}

fn no_two_attack(qs: &[Queen]) -> bool {
    for i in 0..qs.len() {
        for j in (i + 1)..qs.len() {
            if qs[i].can_attack(&qs[j]) {
                return false;
            }
        }
    }
    true
}

#[test]
fn can_attack_same_row_col_and_diagonal() {
    assert!(q(0, 0).can_attack(&q(0, 5)));
    assert!(q(2, 3).can_attack(&q(7, 3)));
    assert!(q(1, 1).can_attack(&q(4, 4)));
    assert!(q(4, 1).can_attack(&q(1, 4)));
    assert!(!q(0, 0).can_attack(&q(1, 2)));
    assert!(!q(3, 0).can_attack(&q(0, 1)));
}

#[test]
fn new_board_is_empty_and_not_full() {
    let b = QueensBoard::<4>::new();
    assert_eq!(b.get_queens().len(), 0);
    assert!(!b.is_full());
}

#[test]
fn push_then_pop_gives_queen_back() {
    let mut b = QueensBoard::<4>::new();
    b.push_queen_unchecked(q(1, 0));
    b.push_queen_unchecked(q(3, 1));
    assert_eq!(b.pop_queen(), Some(q(3, 1)));
    assert_eq!(b.get_queens().len(), 1);
    assert_eq!(b.pop_queen(), Some(q(1, 0)));
    assert_eq!(b.pop_queen(), None);
}

#[test]
fn try_push_refuses_on_full_board() {
    let mut b = QueensBoard::<2>::new();
    assert!(b.try_push_queen(q(0, 0)).is_ok());
    assert!(b.try_push_queen(q(1, 1)).is_ok());
    assert!(b.is_full());
    let err = b.try_push_queen(q(0, 1)).unwrap_err();
    assert_eq!(err.kind(), std::io::ErrorKind::OutOfMemory);
    assert_eq!(b.get_queens().len(), 2);
}

#[test]
fn unchecked_push_can_overfill() {
    let mut b = QueensBoard::<1>::new();
    b.push_queen_unchecked(q(0, 0));
    b.push_queen_unchecked(q(0, 1));
    assert_eq!(b.get_queens().len(), 2);
    assert!(b.is_full());
}

#[test]
fn draw_two_by_two_with_one_queen() {
    let mut b = QueensBoard::<2>::new();
    b.push_queen_unchecked(q(0, 0));
    assert_eq!(b.draw(), "QQ\u{2588}\u{2588}\n\u{2588}\u{2588}\u{2591}\u{2591}\n");
}

#[test]
fn draw_empty_three_by_three() {
    let b = QueensBoard::<3>::new();
    let light = "\u{2591}\u{2591}";
    let dark = "\u{2588}\u{2588}";
    let expected = format!(
        "{l}{d}{l}\n{d}{l}{d}\n{l}{d}{l}\n",
        l = light,
        d = dark
    );
    assert_eq!(b.draw(), expected);
}

#[test]
fn draw_puts_queen_at_column_and_row() {
    let mut b = QueensBoard::<3>::new();
    b.push_queen_unchecked(q(2, 1));
    let drawing = b.draw();
    let lines: Vec<&str> = drawing.lines().collect();
    assert_eq!(lines.len(), 3);
    assert_eq!(lines[1], "\u{2588}\u{2588}\u{2591}\u{2591}QQ");
}

#[test]
fn solve_four_queens() {
    let mut b = QueensBoard::<4>::new();
    let (nodes, res) = try_solve_low_mem_serial_proc(&mut b);
    assert_eq!(nodes, 60);
    assert_eq!(res.len(), 2);
    let first: Vec<Queen> = res[0].get_queens().iter().cloned().collect();
    let second: Vec<Queen> = res[1].get_queens().iter().cloned().collect();
    assert_eq!(first, vec![q(1, 0), q(3, 1), q(0, 2), q(2, 3)]);
    assert_eq!(second, vec![q(2, 0), q(0, 1), q(3, 2), q(1, 3)]);
    assert_eq!(b.get_queens().len(), 0);
}

#[test]
fn solve_counts_for_small_boards() {
    let mut b1 = QueensBoard::<1>::new();
    let (n1, r1) = try_solve_low_mem_serial_proc(&mut b1);
    assert_eq!((n1, r1.len()), (1, 1));
    let mut b2 = QueensBoard::<2>::new();
    let (n2, r2) = try_solve_low_mem_serial_proc(&mut b2);
    assert_eq!((n2, r2.len()), (6, 0));
    let mut b3 = QueensBoard::<3>::new();
    let (n3, r3) = try_solve_low_mem_serial_proc(&mut b3);
    assert_eq!((n3, r3.len()), (18, 0));
    let mut b5 = QueensBoard::<5>::new();
    let (n5, r5) = try_solve_low_mem_serial_proc(&mut b5);
    assert_eq!((n5, r5.len()), (220, 10));
}

#[test]
fn solve_eight_queens_all_valid() {
    let mut b = QueensBoard::<8>::new();
    let (nodes, res) = try_solve_low_mem_serial_proc(&mut b);
    assert_eq!(nodes, 15720);
    assert_eq!(res.len(), 92);
    for sol in &res {
        let qs: Vec<Queen> = sol.get_queens().iter().cloned().collect();
        assert_eq!(qs.len(), 8);
        for (i, queen) in qs.iter().enumerate() {
            assert_eq!(queen.col as usize, i);
            assert!(queen.row < 8);
        }
        assert!(no_two_attack(&qs));
    }
}

#[test]
fn solve_six_finds_every_completion() {
    let mut b = QueensBoard::<6>::new();
    let (_, res) = try_solve_low_mem_serial_proc(&mut b);
    let found: Vec<Vec<Queen>> = res.iter().map(|s| s.get_queens().iter().cloned().collect()).collect();
    let mut count = 0;
    for code in 0..(6u32.pow(6)) {
        let mut c = code;
        let mut qs = Vec::new();
        for col in 0..6u8 {
            qs.push(q((c % 6) as u8, col));
            c /= 6;
        }
        if no_two_attack(&qs) {
            count += 1;
            assert!(found.contains(&qs));
        }
    }
    assert_eq!(count, found.len());
}

#[test]
fn solve_from_partial_board_restores_it() {
    let mut b = QueensBoard::<4>::new();
    b.push_queen_unchecked(q(1, 0));
    let (nodes, res) = try_solve_low_mem_serial_proc(&mut b);
    assert_eq!(res.len(), 1);
    assert_eq!(nodes, 12);
    let qs: Vec<Queen> = b.get_queens().iter().cloned().collect();
    assert_eq!(qs, vec![q(1, 0)]);
}

#[test]
fn solve_on_full_board_returns_it() {
    let mut b = QueensBoard::<2>::new();
    b.push_queen_unchecked(q(0, 0));
    b.push_queen_unchecked(q(0, 1));
    let (nodes, res) = try_solve_low_mem_serial_proc(&mut b);
    assert_eq!(nodes, 0);
    assert_eq!(res.len(), 1);
    assert_eq!(res[0], b);
}

#[test]
fn linked_chain_becomes_board_newest_first() {
    let chain = vec![q(2, 2), q(0, 1), q(3, 0)];
    let b = linked_to_board::<4>(&chain);
    let qs: Vec<Queen> = b.get_queens().iter().cloned().collect();
    assert_eq!(qs, chain);
    let small = linked_to_board::<2>(&chain);
    let qs2: Vec<Queen> = small.get_queens().iter().cloned().collect();
    assert_eq!(qs2, vec![q(2, 2), q(0, 1)]);
}

#[test]
fn chain_attack_check() {
    let chain = vec![q(1, 0), q(3, 1)];
    assert!(is_attacked_by_chain(&chain, &q(0, 2)) == false);
    assert!(is_attacked_by_chain(&chain, &q(2, 2)));
    assert!(!is_attacked_by_chain(&Vec::new(), &q(2, 2)));
}
