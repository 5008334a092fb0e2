use vstd::prelude::*;
use rand::rngs::ThreadRng;
use crate::bits::{bit, cells, count_ones, lemma_bit_single};
use crate::board::{pass, execute_pos, lemma_board_on_board, legal_poss, moves, moves_below, Board};
use crate::eval::{check_end_score, end_score, evaluate_board, evaluation, lemma_evaluation_range, MAX_SCORE};
use crate::geometry::{lemma_play_on_board, Position};
use crate::random::{random_below, shuffle};
use crate::table::BoardMap;
use crate::clock::{as_micros, elapsed_micros};
use vstd::string::StrSliceExecFns;
use std::time::{Duration, Instant};

verus! {

/// Below every score that a search can give.
pub open spec fn no_score() -> int {
    -MAX_SCORE - 1
}

/// The score of a finished game, from the side to move.
pub open spec fn end_value(position: Position) -> int {
    match end_score(position) {
        Some((_, score)) => score as int,
        None => 0,
    }
}

/// The position after the `j`-th legal move.
pub open spec fn child(position: Position, j: int) -> Position {
    position.play(cells(moves(position)[j]))
}

/// The value of a position searched `depth` plies deep, from the side to move:
/// the result of a finished game, the static evaluation at the horizon, the
/// opposite of the opponent's value after a pass, or else the best of the children,
/// each worth the opposite of its own value one ply shallower.
pub open spec fn negamax(position: Position, depth: int) -> int
    decreases depth, 2 - position.passes, moves(position).len() + 1,
{
    if end_score(position) is Some {
        end_value(position)
    } else if depth <= 0 {
        evaluation(position)
    } else if moves(position).len() == 0 {
        -negamax(position.pass(), depth)
    } else {
        best_child(position, depth, moves(position).len() as int)
    }
}

/// The best value, from the side to move, of its first `k` legal moves.
pub open spec fn best_child(position: Position, depth: int, k: int) -> int
    decreases depth, 2 - position.passes, k,
{
    if k <= 0 || depth <= 0 || end_score(position) is Some || moves(position).len() < k {
        no_score()
    } else {
        let rest = best_child(position, depth, k - 1);
        let here = -negamax(child(position, k - 1), depth - 1);
        if rest >= here {
            rest
        } else {
            here
        }
    }
}

/// The value of the `j`-th legal move, from the side to move.
pub open spec fn child_value(position: Position, depth: int, j: int) -> int {
    -negamax(child(position, j), depth - 1)
}

/// What a fail-soft alpha-beta search owes for a position of value `v` searched
/// in the window (`alpha`, `beta`): inside the window the value itself; at or
/// below `alpha` an upper bound on it; at or above `beta` a lower bound.
pub open spec fn fail_soft(v: int, alpha: int, beta: int, r: int) -> bool {
    &&& r <= alpha ==> v <= r
    &&& r >= beta ==> v >= r
    &&& alpha < r < beta ==> r == v
}

/// Every searched value lies between a lost and a won game.
pub proof fn lemma_negamax_range(position: Position, depth: int)
    requires
        position.on_board(),
    ensures
        -MAX_SCORE <= negamax(position, depth) <= MAX_SCORE,
    decreases depth, 2 - position.passes, moves(position).len() + 1,
{
    if end_score(position) is Some {
    } else if depth <= 0 {
        lemma_evaluation_range(position);
    } else if moves(position).len() == 0 {
        lemma_play_on_board(position, Set::empty());
        lemma_negamax_range(position.pass(), depth);
    } else {
        lemma_best_child(position, depth, moves(position).len() as int);
    }
}

/// The best of the first `k` children is at least each of them and equal to one.
pub proof fn lemma_best_child(position: Position, depth: int, k: int)
    requires
        1 <= k <= moves(position).len(),
        position.on_board(),
        depth > 0,
        end_score(position) is None,
    ensures
        -MAX_SCORE <= best_child(position, depth, k) <= MAX_SCORE,
        forall|j: int|
            0 <= j < k ==> best_child(position, depth, k) >= #[trigger] child_value(
                position,
                depth,
                j,
            ),
        exists|j: int| 0 <= j < k && best_child(position, depth, k) == child_value(position, depth, j),
    decreases depth, 2 - position.passes, k,
{
    lemma_child_on_board(position, k - 1);
    lemma_negamax_range(child(position, k - 1), depth - 1);
    if k > 1 {
        lemma_best_child(position, depth, k - 1);
    } else {
        assert(best_child(position, depth, 0) == no_score());
        assert(best_child(position, depth, k) == child_value(position, depth, 0));
    }
    let b = best_child(position, depth, k);
    if b == child_value(position, depth, k - 1) {
        assert(0 <= k - 1 < k && b == child_value(position, depth, k - 1));
    }
}

/// The positions after legal moves keep their stones on the board.
proof fn lemma_child_on_board(position: Position, j: int)
    requires
        position.on_board(),
    ensures
        child(position, j).on_board(),
{
    lemma_play_on_board(position, cells(moves(position)[j]));
}

proof fn lemma_moves_below(position: Position, k: int)
    requires
        0 <= k <= 64,
    ensures
        moves_below(position, k).len() <= k,
        forall|j: int|
            0 <= j < moves_below(position, k).len() ==> exists|c: int|
                0 <= c < k && #[trigger] moves_below(position, k)[j] == 1u64 << (c as u64)
                    && position.legal_moves().contains(c),
    decreases k,
{
    if k > 0 {
        lemma_moves_below(position, k - 1);
        let prev = moves_below(position, k - 1);
        let cur = moves_below(position, k);
        assert forall|j: int| 0 <= j < cur.len() implies exists|c: int|
            0 <= c < k && #[trigger] cur[j] == 1u64 << (c as u64) && position.legal_moves().contains(
                c,
            ) by {
            if j < prev.len() {
                assert(cur[j] == prev[j]);
                let c = choose|c: int|
                    0 <= c < k - 1 && #[trigger] prev[j] == 1u64 << (c as u64)
                        && position.legal_moves().contains(c);
                assert(0 <= c < k && cur[j] == 1u64 << (c as u64));
            } else {
                assert(cur[j] == 1u64 << ((k - 1) as u64));
            }
        }
    }
}

/// Each listed move is a single legal cell, and there are at most 64 of them.
proof fn lemma_move_accepted(position: Position, j: int)
    requires
        0 <= j < moves(position).len(),
    ensures
        crate::board::accepts(position, moves(position)[j]),
        moves(position).len() <= 64,
{
    lemma_moves_below(position, 64);
    let c = choose|c: int|
        0 <= c < 64 && #[trigger] moves(position)[j] == 1u64 << (c as u64)
            && position.legal_moves().contains(c);
    lemma_bit_single(c as u64, c);
    assert(bit(moves(position)[j], c));
}

/// Adds node counts, stopping at the largest `i32`.
fn add_nodes(a: i32, b: i32) -> (r: i32)
    requires
        a >= 0,
        b >= 0,
    ensures
        r >= a,
        r >= b,
        r == if a + b <= i32::MAX { a + b } else { i32::MAX as int },
{
    if a <= i32::MAX - b {
        a + b
    } else {
        i32::MAX
    }
}

/// The indexes 0..n in order.
fn indexes(n: usize) -> (r: Vec<usize>)
    ensures
        r@ == Seq::new(n as nat, |i: int| i as usize),
{
    let mut v: Vec<usize> = Vec::new();
    let mut i: usize = 0;
    while i < n
        invariant
            i <= n,
            v@ == Seq::new(i as nat, |k: int| k as usize),
        decreases n - i,
    {
        v.push(i);
        i = i + 1;
        assert(v@ =~= Seq::new(i as nat, |k: int| k as usize));
    }
    v
}

/// The indexes 0..n in a random order: each appears once.
fn shuffled_indexes(n: usize, rng: &mut ThreadRng) -> (r: Vec<usize>)
    ensures
        r@.len() == n,
        forall|t: int| 0 <= t < n ==> #[trigger] r@[t] < n,
        forall|j: usize| j < n ==> #[trigger] r@.contains(j),
{
    let mut choices = indexes(n);
    let ghost before = choices@;
    shuffle(&mut choices, rng);
    proof {
        before.to_multiset_ensures();
        choices@.to_multiset_ensures();
        assert forall|t: int| 0 <= t < n implies #[trigger] choices@[t] < n by {
            let x = choices@[t];
            assert(choices@.contains(x));
            assert(choices@.to_multiset().count(x) > 0);
            assert(before.to_multiset().count(x) > 0);
            assert(before.contains(x));
        }
        assert forall|j: usize| j < n implies #[trigger] choices@.contains(j) by {
            assert(before[j as int] == j);
            assert(before.contains(j));
            assert(before.to_multiset().count(j) > 0);
            assert(choices@.to_multiset().count(j) > 0);
        }
    }
    choices
}

/// Alpha-beta search with the children in a random order.
///
/// Returns the nodes visited, at least one, and a score that meets the
/// fail-soft bounds for the value of `board` searched `depth` plies deep.
fn alpha_beta(board: &Board, rng: &mut ThreadRng, alpha: i32, beta: i32, depth: i32) -> (r: (
    i32,
    i32,
))
    requires
        board@.on_board(),
        -i32::MAX <= alpha < beta,
    ensures
        r.0 >= 1,
        r.1 >= -i32::MAX,
        fail_soft(negamax(board@, depth as int), alpha as int, beta as int, r.1 as int),
    decreases depth, 2 - board.no_legal_command,
{
    let ghost position = board@;
    if let Some((count, score)) = check_end_score(board) {
        return (count, score);
    } else if depth <= 0 {
        let score = evaluate_board(board);
        return (1, score);
    }
    let legal_poss_vec = legal_poss(board);
    if legal_poss_vec.len() == 0 {
        let passed = pass(board);
        proof {
            lemma_play_on_board(position, Set::empty());
        }
        let (count, score) = alpha_beta(&passed, rng, -beta, -alpha, depth);
        return (count, -score);
    }
    let n = legal_poss_vec.len();
    proof {
        lemma_move_accepted(position, 0);
    }
    let choices = shuffled_indexes(n, rng);
    let mut count_sum: i32 = 0;
    let mut best = alpha;
    let ghost alpha0 = best;
    let mut idx: usize = 0;
    while idx < n
        invariant
            position == board@,
            position.on_board(),
            end_score(position) is None,
            depth > 0,
            legal_poss_vec@ == moves(position),
            n == legal_poss_vec@.len(),
            choices@.len() == n,
            forall|t: int| 0 <= t < n ==> #[trigger] choices@[t] < n,
            forall|j: usize| j < n ==> #[trigger] choices@.contains(j),
            0 <= idx <= n,
            alpha0 == alpha,
            alpha0 <= best < beta,
            -i32::MAX <= alpha0,
            count_sum >= 0,
            idx > 0 ==> count_sum >= 1,
            forall|t: int|
                0 <= t < idx ==> #[trigger] child_value(position, depth as int, choices@[t] as int)
                    <= best,
            best > alpha0 ==> exists|t: int|
                0 <= t < idx && child_value(position, depth as int, #[trigger] choices@[t] as int)
                    == best,
        decreases n - idx,
    {
        let i = choices[idx];
        let mut new_board = *board;
        let pos = legal_poss_vec[i];
        proof {
            lemma_move_accepted(position, i as int);
        }
        new_board = execute_pos(&mut new_board, pos);
        proof {
            lemma_child_on_board(position, i as int);
            lemma_best_child(position, depth as int, n as int);
        }
        let (count, child_score) = alpha_beta(&new_board, rng, -beta, -best, depth - 1);
        count_sum = add_nodes(count_sum, count);
        let score = -child_score;
        proof {
            lemma_negamax_range(child(position, i as int), depth - 1);
        }
        let ghost before = best;
        if score > best {
            best = score;
        }
        if best >= beta {
            proof {
                assert(negamax(position, depth as int) == best_child(position, depth as int, n as int));
                assert(child_value(position, depth as int, i as int) >= score);
                assert(best_child(position, depth as int, n as int) >= child_value(
                    position,
                    depth as int,
                    i as int,
                ));
                assert(best == score);
                assert(negamax(position, depth as int) >= best);
                assert(fail_soft(negamax(position, depth as int), alpha0 as int, beta as int, best as int));
            }
            return (count_sum, best);
        }
        proof {
            if score > before {
                assert(child_value(position, depth as int, choices@[idx as int] as int) == best);
            }
        }
        idx = idx + 1;
    }
    proof {
        let v = negamax(position, depth as int);
        assert(v == best_child(position, depth as int, n as int));
        lemma_best_child(position, depth as int, n as int);
        let j = choose|j: int| 0 <= j < n && v == child_value(position, depth as int, j);
        assert(choices@.contains(j as usize));
        let t = choose|t: int| 0 <= t < n && #[trigger] choices@[t] == j as usize;
        assert(child_value(position, depth as int, choices@[t] as int) <= best);
        if best > alpha0 {
            let t2 = choose|t: int|
                0 <= t < idx && child_value(position, depth as int, #[trigger] choices@[t] as int)
                    == best;
            assert(v >= child_value(position, depth as int, choices@[t2] as int));
        }
    }
    (count_sum, best)
}

/// The side to move has a legal move.
pub open spec fn has_move(position: Position) -> bool {
    exists|k: int| position.legal_moves().contains(k)
}

/// `r` holds a single cell, a legal move of the side to move.
pub open spec fn is_move(position: Position, r: u64) -> bool {
    exists|k: int| position.legal_moves().contains(k) && cells(r) == set![k]
}

/// A move for the side to move: 0 exactly when it has no legal move, else one of
/// its legal moves.
pub open spec fn is_choice(position: Position, r: u64) -> bool {
    &&& !has_move(position) ==> r == 0
    &&& has_move(position) ==> is_move(position, r)
}

proof fn lemma_moves_nonempty(position: Position, k: int)
    requires
        0 <= k <= 64,
    ensures
        moves_below(position, k).len() > 0 <==> exists|c: int|
            0 <= c < k && #[trigger] position.legal_moves().contains(c),
    decreases k,
{
    if k > 0 {
        lemma_moves_nonempty(position, k - 1);
    }
}

/// There are listed moves exactly when there is a legal move, and each listed move
/// is one.
proof fn lemma_moves_listed(position: Position)
    ensures
        moves(position).len() > 0 <==> has_move(position),
        forall|i: int| 0 <= i < moves(position).len() ==> is_move(position, #[trigger] moves(position)[i]),
{
    lemma_moves_nonempty(position, 64);
    lemma_moves_below(position, 64);
    assert forall|i: int| 0 <= i < moves(position).len() implies is_move(position, #[trigger] moves(position)[i]) by {
        let c = choose|c: int|
            0 <= c < 64 && #[trigger] moves(position)[i] == 1u64 << (c as u64)
                && position.legal_moves().contains(c);
        assert forall|j: int| #[trigger] bit(moves(position)[i], j) == (j == c) by {
            lemma_bit_single(c as u64, j);
        }
        assert(cells(moves(position)[i]) =~= set![c]);
    }
}

/// A legal move picked at random, or 0 when there is none.
pub fn random_pos(board: &Board) -> (r: u64)
    ensures
        is_choice(board@, r),
{
    let legal_poss_vec: Vec<u64> = legal_poss(&board);
    let len = legal_poss_vec.len();
    proof {
        lemma_moves_listed(board@);
    }
    let mut rng = rand::thread_rng();
    if len == 0 {
        0
    } else {
        let random_index = random_below(&mut rng, len);
        legal_poss_vec[random_index]
    }
}

/// A best move by alpha-beta search `depth` plies deep, trying the moves in a
/// random order; 0 when there is no legal move.
///
/// The move is one whose value is highest among all legal moves.
pub fn alpha_beta_pos(board: &Board, depth: i32) -> (r: u64)
    ensures
        is_choice(board@, r),
        r != 0 ==> exists|i: int|
            0 <= i < moves(board@).len() && moves(board@)[i] == r && forall|j: int|
                0 <= j < moves(board@).len() ==> #[trigger] child_value(board@, depth as int, j)
                    <= child_value(board@, depth as int, i),
{
    let ghost position = board@;
    proof {
        lemma_board_on_board(*board);
    }
    let legal_poss_vec = legal_poss(board);
    let mut best_pos;
    let mut alpha: i32 = i32::MIN + 1;
    proof {
        lemma_moves_listed(board@);
    }
    if legal_poss_vec.len() == 0 {
        return 0;
    }
    let n = legal_poss_vec.len();
    let mut rng = rand::thread_rng();
    let choices = shuffled_indexes(n, &mut rng);
    best_pos = legal_poss_vec[0];
    let ghost mut best_index: int = 0;
    let child_depth = if depth > 0 {
        depth - 1
    } else {
        0
    };
    let mut idx: usize = 0;
    while idx < n
        invariant
            position == board@,
            position.on_board(),
            legal_poss_vec@ == moves(position),
            n == legal_poss_vec@.len(),
            n > 0,
            choices@.len() == n,
            forall|t: int| 0 <= t < n ==> #[trigger] choices@[t] < n,
            forall|j: usize| j < n ==> #[trigger] choices@.contains(j),
            0 <= idx <= n,
            child_depth == if depth > 0 {
                depth - 1
            } else {
                0
            },
            0 <= best_index < n,
            best_pos == moves(position)[best_index],
            i32::MIN + 1 <= alpha < MAX_SCORE,
            idx == 0 ==> alpha == i32::MIN + 1,
            idx > 0 ==> alpha == child_value(position, depth as int, best_index),
            forall|t: int|
                0 <= t < idx ==> #[trigger] child_value(position, depth as int, choices@[t] as int)
                    <= alpha,
        decreases n - idx,
    {
        let i = choices[idx];
        let mut new_board = *board;
        proof {
            lemma_move_accepted(position, i as int);
            lemma_child_on_board(position, i as int);
        }
        new_board = execute_pos(&mut new_board, legal_poss_vec[i]);
        let (_, child_score) = alpha_beta(
            &new_board,
            &mut rng,
            i32::MIN + 1,
            -alpha,
            child_depth,
        );
        let score = -child_score;
        proof {
            lemma_negamax_range(child(position, i as int), depth - 1);
            lemma_negamax_shallow(child(position, i as int), depth - 1, child_depth as int);
        }
        if score >= MAX_SCORE {
            proof {
                assert forall|j: int| 0 <= j < n implies #[trigger] child_value(
                    position,
                    depth as int,
                    j,
                ) <= child_value(position, depth as int, i as int) by {
                    lemma_child_on_board(position, j);
                    lemma_negamax_range(child(position, j), depth - 1);
                }
                lemma_moves_listed(position);
                assert(is_move(position, moves(position)[i as int]));
            }
            return legal_poss_vec[i];
        }
        if score > alpha {
            best_pos = legal_poss_vec[i];
            proof {
                best_index = i as int;
            }
            alpha = score;
        }
        idx = idx + 1;
    }
    proof {
        assert forall|j: int| 0 <= j < n implies #[trigger] child_value(position, depth as int, j)
            <= child_value(position, depth as int, best_index) by {
            assert(choices@.contains(j as usize));
            let t = choose|t: int| 0 <= t < n && #[trigger] choices@[t] == j as usize;
            assert(child_value(position, depth as int, choices@[t] as int) <= alpha);
        }
        lemma_moves_listed(position);
        assert(is_move(position, moves(position)[best_index]));
    }
    best_pos
}

/// At the horizon the depth no longer matters: every depth that is not positive
/// searches alike.
proof fn lemma_negamax_shallow(position: Position, depth: int, used: int)
    requires
        depth <= 0 ==> used == 0,
        depth > 0 ==> used == depth,
    ensures
        negamax(position, depth) == negamax(position, used),
{
}

/// A stored search result: the score of a position searched `depth` plies deep
/// after `passes` passes in a row.
#[derive(Clone, Copy)]
pub struct Entry {
    pub depth: i32,
    pub passes: i32,
    pub score: i32,
}

/// The position that an entry stored under `board` speaks of.
pub open spec fn entry_position(board: Board, entry: Entry) -> Position {
    Position { passes: entry.passes as int, ..board@ }
}

/// The entry stored for `board` was searched at `depth` with the same pass count,
/// so it speaks of this very search.
pub open spec fn hit(table: BoardMap<Entry>, board: Board, depth: int) -> bool {
    table.lookup(board) matches Some(e) && e.depth == depth && e.passes == board.no_legal_command
}

/// Every entry holds the exact value of its position at its depth.
pub open spec fn exact_table(table: BoardMap<Entry>) -> bool {
    forall|b: Board| #[trigger]
        table.lookup(b) matches Some(e) ==> e.score == negamax(entry_position(b, e), e.depth as int)
}

/// No entry of `before` is missing from `after`.
pub open spec fn keeps_entries(before: BoardMap<Entry>, after: BoardMap<Entry>) -> bool {
    forall|b: Board| #[trigger] before.lookup(b) is Some ==> after.lookup(b) is Some
}

/// Every score stored in `table` is within the winning score.
pub open spec fn bounded(table: BoardMap<Entry>) -> bool {
    forall|b: Board| #[trigger]
        table.lookup(b) matches Some(e) ==> -MAX_SCORE <= e.score <= MAX_SCORE
}

/// Exact scores are within the winning score.
proof fn lemma_exact_bounded(table: BoardMap<Entry>)
    requires
        exact_table(table),
    ensures
        bounded(table),
{
    assert forall|b: Board| #[trigger]
        table.lookup(b) is Some implies -MAX_SCORE <= table.lookup(b)->0.score <= MAX_SCORE by {
        let e = table.lookup(b)->0;
        lemma_board_on_board(b);
        lemma_negamax_range(entry_position(b, e), e.depth as int);
    }
}

/// Storing the exact value of a position keeps a table exact.
proof fn lemma_store_exact(before: BoardMap<Entry>, after: BoardMap<Entry>, board: Board, entry: Entry)
    requires
        exact_table(before),
        entry.score == negamax(entry_position(board, entry), entry.depth as int),
        forall|b: Board| #[trigger]
            after.lookup(b) == if b.same_position(board) {
                Some(entry)
            } else {
                before.lookup(b)
            },
    ensures
        exact_table(after),
        keeps_entries(before, after),
{
    assert forall|b: Board| #[trigger]
        after.lookup(b) is Some implies after.lookup(b)->0.score == negamax(
            entry_position(b, after.lookup(b)->0),
            after.lookup(b)->0.depth as int,
        ) by {
        if b.same_position(board) {
            assert(entry_position(b, entry) == entry_position(board, entry));
        }
    }
}

/// The key by which children are tried, highest first.
pub open spec fn ordering_value(position_board: Board, former: BoardMap<Entry>) -> int {
    match former.lookup(position_board) {
        Some(e) => 20 - e.score,
        None => -evaluation(position_board@),
    }
}

/// The move-ordering key of a child: a bonus less its score from the previous
/// iteration where there is one, else the opposite of its static evaluation.
fn calc_move_ordering_value(board: &Board, former_transpose_table: &BoardMap<Entry>) -> (r: i32)
    requires
        bounded(*former_transpose_table),
    ensures
        r == ordering_value(*board, *former_transpose_table),
{
    if let Some(e) = former_transpose_table.get(board) {
        let cache_hit_bonus: i32 = 20;
        cache_hit_bonus - e.score
    } else {
        -evaluate_board(board)
    }
}

/// Relies on `slice::sort_by`: a stable sort, here by `value` from highest to lowest.
#[verifier::external_body]
fn sort_by_value(boards: &mut Vec<Board>)
    ensures
        final(boards)@.to_multiset() == old(boards)@.to_multiset(),
        forall|i: int, j: int|
            0 <= i < j < final(boards)@.len() ==> #[trigger] final(boards)@[i].value
                >= #[trigger] final(boards)@[j].value,
{
    boards.sort_by(|a, b| b.value.cmp(&a.value));
}

/// The positions after each legal move, in the order of the moves.
fn children(board: &Board, legal_poss_vec: &Vec<u64>) -> (r: Vec<Board>)
    requires
        legal_poss_vec@ == moves(board@),
    ensures
        r@.len() == legal_poss_vec@.len(),
        forall|i: int| 0 <= i < r@.len() ==> (#[trigger] r@[i])@ == child(board@, i),
{
    let mut child_boards: Vec<Board> = Vec::new();
    let mut i: usize = 0;
    while i < legal_poss_vec.len()
        invariant
            legal_poss_vec@ == moves(board@),
            i <= legal_poss_vec@.len(),
            child_boards@.len() == i,
            forall|k: int| 0 <= k < i ==> (#[trigger] child_boards@[k])@ == child(board@, k),
        decreases legal_poss_vec@.len() - i,
    {
        let mut child_board = *board;
        proof {
            lemma_move_accepted(board@, i as int);
        }
        child_board = execute_pos(&mut child_board, legal_poss_vec[i]);
        child_boards.push(child_board);
        i = i + 1;
    }
    child_boards
}

/// `boards` are the children of `position` in the order of the moves, or in the
/// reverse order when `reversed`.
pub open spec fn in_move_order(boards: Seq<Board>, position: Position, reversed: bool) -> bool {
    &&& boards.len() == moves(position).len()
    &&& forall|i: int|
        0 <= i < boards.len() ==> (#[trigger] boards[i])@ == child(
            position,
            if reversed { boards.len() - 1 - i } else { i },
        )
}

/// A board of a reordering of the children is one of the children.
proof fn lemma_child_of(
    unsorted: Seq<Board>,
    sorted: Seq<Board>,
    position: Position,
    reversed: bool,
    t: int,
) -> (j: int)
    requires
        unsorted.to_multiset() == sorted.to_multiset(),
        in_move_order(unsorted, position, reversed),
        0 <= t < sorted.len(),
    ensures
        0 <= j < moves(position).len(),
        sorted[t]@ == child(position, j),
{
    unsorted.to_multiset_ensures();
    sorted.to_multiset_ensures();
    assert(sorted.contains(sorted[t]));
    assert(sorted.to_multiset().count(sorted[t]) > 0);
    assert(unsorted.contains(sorted[t]));
    let i = choose|i: int| 0 <= i < unsorted.len() && unsorted[i] == sorted[t];
    assert(unsorted[i]@ == child(position, if reversed { unsorted.len() - 1 - i } else { i }));
    if reversed {
        unsorted.len() - 1 - i
    } else {
        i
    }
}

/// Each child stands somewhere in a reordering of the children.
proof fn lemma_place_of(
    unsorted: Seq<Board>,
    sorted: Seq<Board>,
    position: Position,
    reversed: bool,
    j: int,
) -> (t: int)
    requires
        unsorted.to_multiset() == sorted.to_multiset(),
        in_move_order(unsorted, position, reversed),
        0 <= j < moves(position).len(),
    ensures
        0 <= t < sorted.len(),
        sorted[t]@ == child(position, j),
{
    unsorted.to_multiset_ensures();
    sorted.to_multiset_ensures();
    let i = if reversed {
        unsorted.len() - 1 - j
    } else {
        j
    };
    assert(unsorted[i]@ == child(position, if reversed { unsorted.len() - 1 - i } else { i }));
    assert(unsorted.contains(unsorted[i]));
    assert(unsorted.to_multiset().count(unsorted[i]) > 0);
    assert(sorted.contains(unsorted[i]));
    let t = choose|t: int| 0 <= t < sorted.len() && sorted[t] == unsorted[i];
    t
}

/// Negamax search with alpha-beta pruning and a single-value transposition table.
///
/// A position stored for this depth and pass count is given its stored score
/// without search. Only exact results are stored: those strictly inside the
/// window. A result at or below `alpha` is a bound only, so it is not stored.
#[verifier::rlimit(100)]
#[verifier::spinoff_prover]
fn nega_alpha_transpose(
    board: &Board,
    depth: i32,
    alpha: i32,
    beta: i32,
    transpose_table: &mut BoardMap<Entry>,
) -> (r: (i32, i32))
    requires
        -i32::MAX <= alpha < beta,
        alpha <= MAX_SCORE,
        beta >= -MAX_SCORE,
        exact_table(*old(transpose_table)),
    ensures
        exact_table(*final(transpose_table)),
        keeps_entries(*old(transpose_table), *final(transpose_table)),
        r.0 >= 1,
        -MAX_SCORE <= r.1 <= MAX_SCORE,
        fail_soft(negamax(board@, depth as int), alpha as int, beta as int, r.1 as int),
        end_score(board@) is Some ==> r == end_score(board@)->0 && *final(transpose_table)
            == *old(transpose_table),
        end_score(board@) is None && depth <= 0 ==> r == (1i32, evaluation(board@) as i32)
            && *final(transpose_table) == *old(transpose_table),
        end_score(board@) is None && depth > 0 && hit(*old(transpose_table), *board, depth as int)
            ==> r == (1i32, old(transpose_table).lookup(*board)->0.score)
            && *final(transpose_table) == *old(transpose_table),
        end_score(board@) is None && depth > 0 && !hit(*old(transpose_table), *board, depth as int)
            && moves(board@).len() > 0 && alpha < r.1 < beta
            ==> final(transpose_table).lookup(*board) == Some(
            Entry { depth, passes: board.no_legal_command, score: r.1 },
        ),
    decreases depth, 2 - board.no_legal_command,
{
    let ghost position = board@;
    proof {
        lemma_board_on_board(*board);
    }
    if let Some((count, score)) = check_end_score(board) {
        return (count, score);
    } else if depth <= 0 {
        return (1, evaluate_board(board));
    }
    let found = transpose_table.get(board);
    if let Some(e) = found {
        if e.depth == depth && e.passes == board.no_legal_command {
            proof {
                assert(entry_position(*board, e) == position);
                lemma_negamax_range(position, depth as int);
            }
            return (1, e.score);
        }
    }
    let legal_poss_vec = legal_poss(board);
    if legal_poss_vec.len() == 0 {
        let passed = pass(board);
        proof {
            lemma_play_on_board(position, Set::empty());
        }
        let (count, score) = nega_alpha_transpose(&passed, depth, -beta, -alpha, transpose_table);
        return (count, -score);
    }
    let n = legal_poss_vec.len();
    let mut child_boards = children(board, &legal_poss_vec);
    let ghost unsorted = child_boards@;
    sort_by_value(&mut child_boards);
    proof {
        unsorted.to_multiset_ensures();
        child_boards@.to_multiset_ensures();
    }
    let mut searched_nodes: i32 = 0;
    let mut best = alpha;
    let mut k: usize = 0;
    while k < child_boards.len()
        invariant
            position == board@,
            position.on_board(),
            0 <= k <= child_boards@.len(),
            child_boards@.len() == n,
            n == moves(position).len(),
            n > 0,
            in_move_order(unsorted, position, false),
            unsorted.to_multiset() == child_boards@.to_multiset(),
            depth > 0,
            end_score(position) is None,
            !hit(*old(transpose_table), *board, depth as int),
            -i32::MAX <= alpha <= best < beta,
            best <= MAX_SCORE,
            beta >= -MAX_SCORE,
            k > 0 ==> best >= -MAX_SCORE,
            k > 0 ==> searched_nodes >= 1,
            searched_nodes >= 0,
            exact_table(*transpose_table),
            keeps_entries(*old(transpose_table), *transpose_table),
            forall|t: int|
                0 <= t < k ==> -negamax((#[trigger] child_boards@[t])@, depth - 1) <= best,
            best > alpha ==> exists|t: int|
                0 <= t < k && -negamax((#[trigger] child_boards@[t])@, depth - 1) == best,
        decreases child_boards@.len() - k,
    {
        let child_board = child_boards[k];
        let ghost before_table = *transpose_table;
        proof {
            let j = lemma_child_of(unsorted, child_boards@, position, false, k as int);
            lemma_child_on_board(position, j);
            lemma_negamax_range(child_board@, depth - 1);
        }
        let (count, child_score) = nega_alpha_transpose(
            &child_board,
            depth - 1,
            -beta,
            -best,
            transpose_table,
        );
        let score = -child_score;
        searched_nodes = add_nodes(searched_nodes, count);
        let ghost prev = best;
        if score > best {
            best = score;
        }
        proof {
            assert forall|b: Board| #[trigger] old(transpose_table).lookup(b) is Some
                implies transpose_table.lookup(b) is Some by {
                assert(before_table.lookup(b) is Some);
            }
        }
        if best >= beta {
            proof {
                let j = lemma_child_of(unsorted, child_boards@, position, false, k as int);
                lemma_best_child(position, depth as int, n as int);
                assert(child_value(position, depth as int, j) >= score);
                assert(negamax(position, depth as int) >= best);
            }
            return (searched_nodes, best);
        }
        proof {
            if score > prev {
                assert(-negamax(child_boards@[k as int]@, depth - 1) == best);
            }
        }
        k = k + 1;
    }
    proof {
        let v = negamax(position, depth as int);
        assert(v == best_child(position, depth as int, n as int));
        lemma_best_child(position, depth as int, n as int);
        let j = choose|j: int| 0 <= j < n && v == child_value(position, depth as int, j);
        let t = lemma_place_of(unsorted, child_boards@, position, false, j);
        assert(-negamax(child_boards@[t]@, depth - 1) <= best);
        if best > alpha {
            let t2 = choose|t: int|
                0 <= t < n && -negamax((#[trigger] child_boards@[t])@, depth - 1) == best;
            let j2 = lemma_child_of(unsorted, child_boards@, position, false, t2);
            assert(v >= child_value(position, depth as int, j2));
        }
    }
    if best > alpha {
        let entry = Entry { depth, passes: board.no_legal_command, score: best };
        let ghost before_table = *transpose_table;
        transpose_table.insert(*board, entry);
        proof {
            assert(entry_position(*board, entry) == position);
            lemma_store_exact(before_table, *transpose_table, *board, entry);
            assert forall|b: Board| #[trigger] old(transpose_table).lookup(b) is Some
                implies transpose_table.lookup(b) is Some by {
                assert(before_table.lookup(b) is Some);
            }
            assert(board.same_position(*board));
        }
    }
    (searched_nodes, best)
}

/// `boards` are the children of `position` in the order of the moves, each marked
/// with its move.
pub open spec fn marked_in_order(boards: Seq<Board>, position: Position, reversed: bool) -> bool {
    &&& boards.len() == moves(position).len()
    &&& forall|i: int|
        0 <= i < boards.len() ==> (#[trigger] boards[i])@ == child(position, mirror_index(boards.len() as int, i, reversed))
            && boards[i].before_pos == moves(position)[mirror_index(boards.len() as int, i, reversed)]
}

/// Index `i` counted from the front, or from the back when `reversed`.
pub open spec fn mirror_index(n: int, i: int, reversed: bool) -> int {
    if reversed {
        n - 1 - i
    } else {
        i
    }
}

/// A board of a reordering of the marked children is a child marked with its move.
proof fn lemma_marked_child_of(
    unsorted: Seq<Board>,
    sorted: Seq<Board>,
    position: Position,
    reversed: bool,
    t: int,
) -> (j: int)
    requires
        unsorted.to_multiset() == sorted.to_multiset(),
        marked_in_order(unsorted, position, reversed),
        0 <= t < sorted.len(),
    ensures
        0 <= j < moves(position).len(),
        sorted[t]@ == child(position, j),
        sorted[t].before_pos == moves(position)[j],
{
    unsorted.to_multiset_ensures();
    sorted.to_multiset_ensures();
    assert(sorted.contains(sorted[t]));
    assert(sorted.to_multiset().count(sorted[t]) > 0);
    assert(unsorted.contains(sorted[t]));
    let i = choose|i: int| 0 <= i < unsorted.len() && unsorted[i] == sorted[t];
    assert(unsorted[i]@ == child(position, mirror_index(unsorted.len() as int, i, reversed)));
    mirror_index(unsorted.len() as int, i, reversed)
}

/// Each marked child stands somewhere in a reordering of the marked children.
proof fn lemma_marked_place_of(
    unsorted: Seq<Board>,
    sorted: Seq<Board>,
    position: Position,
    reversed: bool,
    j: int,
) -> (t: int)
    requires
        unsorted.to_multiset() == sorted.to_multiset(),
        marked_in_order(unsorted, position, reversed),
        0 <= j < moves(position).len(),
    ensures
        0 <= t < sorted.len(),
        sorted[t]@ == child(position, j),
{
    unsorted.to_multiset_ensures();
    sorted.to_multiset_ensures();
    let i = mirror_index(unsorted.len() as int, j, reversed);
    assert(unsorted[i]@ == child(position, mirror_index(unsorted.len() as int, i, reversed)));
    assert(unsorted.contains(unsorted[i]));
    assert(unsorted.to_multiset().count(unsorted[i]) > 0);
    assert(sorted.contains(unsorted[i]));
    let t = choose|t: int| 0 <= t < sorted.len() && sorted[t] == unsorted[i];
    t
}

/// The boards with their ordering keys set from the previous iteration's table.
fn with_ordering_values(child_boards: &Vec<Board>, former: &BoardMap<Entry>) -> (r: Vec<Board>)
    requires
        bounded(*former),
    ensures
        r@.len() == child_boards@.len(),
        forall|k: int|
            0 <= k < r@.len() ==> (#[trigger] r@[k])@ == child_boards@[k]@ && r@[k].before_pos
                == child_boards@[k].before_pos,
{
    let mut valued: Vec<Board> = Vec::new();
    let mut i: usize = 0;
    while i < child_boards.len()
        invariant
            bounded(*former),
            i <= child_boards@.len(),
            valued@.len() == i,
            forall|k: int|
                0 <= k < i ==> (#[trigger] valued@[k])@ == child_boards@[k]@ && valued@[k].before_pos
                    == child_boards@[k].before_pos,
        decreases child_boards@.len() - i,
    {
        let mut new_b = child_boards[i];
        new_b.value = calc_move_ordering_value(&new_b, former);
        valued.push(new_b);
        i = i + 1;
    }
    valued
}

/// `pos` is a legal move whose value, searched `depth` plies deep, is the highest.
pub open spec fn best_at(position: Position, depth: int, pos: u64) -> bool {
    exists|i: int|
        0 <= i < moves(position).len() && moves(position)[i] == pos && forall|j: int|
            0 <= j < moves(position).len() ==> #[trigger] child_value(position, depth, j)
                <= child_value(position, depth, i)
}

/// One iteration of iterative deepening at the root: every child searched
/// `depth - 1` plies deep in the given order. Returns a best move at `depth` and its
/// score; a winning move is returned at once.
fn nega_alpha_root(
    board: &Board,
    child_boards: &Vec<Board>,
    depth: i32,
    transpose_table: &mut BoardMap<Entry>,
    Ghost(base): Ghost<Seq<Board>>,
) -> (r: (u64, i32))
    requires
        depth >= 1,
        marked_in_order(base, board@, false),
        base.len() > 0,
        base.to_multiset() == child_boards@.to_multiset(),
        exact_table(*old(transpose_table)),
    ensures
        exact_table(*final(transpose_table)),
        best_at(board@, depth as int, r.0),
{
    let ghost position = board@;
    let n = child_boards.len();
    proof {
        lemma_board_on_board(*board);
        base.to_multiset_ensures();
        child_boards@.to_multiset_ensures();
    }
    let mut alpha: i32 = i32::MIN + 1;
    let beta: i32 = -alpha;
    let mut best_pos: u64 = 0;
    let ghost mut best_index: int = 0;
    let mut k: usize = 0;
    while k < n
        invariant
            position == board@,
            position.on_board(),
            n == child_boards@.len(),
            n == moves(position).len(),
            n > 0,
            marked_in_order(base, position, false),
            base.to_multiset() == child_boards@.to_multiset(),
            depth >= 1,
            k <= n,
            exact_table(*transpose_table),
            i32::MIN + 1 <= alpha < MAX_SCORE,
            beta == i32::MAX,
            k == 0 ==> alpha == i32::MIN + 1,
            k > 0 ==> 0 <= best_index < n && best_pos == moves(position)[best_index]
                && alpha == child_value(position, depth as int, best_index),
            forall|t: int|
                0 <= t < k ==> -negamax((#[trigger] child_boards@[t])@, depth - 1) <= alpha,
        decreases n - k,
    {
        let child_board = child_boards[k];
        let ghost j = lemma_marked_child_of(base, child_boards@, position, false, k as int);
        proof {
            lemma_child_on_board(position, j);
            lemma_negamax_range(child_board@, depth - 1);
        }
        let (_, child_score) = nega_alpha_transpose(
            &child_board,
            depth - 1,
            -beta,
            -alpha,
            transpose_table,
        );
        let score = -child_score;
        if score >= MAX_SCORE {
            proof {
                assert forall|j2: int| 0 <= j2 < n implies #[trigger] child_value(position, depth as int, j2)
                    <= child_value(position, depth as int, j) by {
                    lemma_child_on_board(position, j2);
                    lemma_negamax_range(child(position, j2), depth - 1);
                }
            }
            return (child_board.before_pos, score);
        }
        if score > alpha {
            best_pos = child_board.before_pos;
            proof {
                best_index = j;
            }
            alpha = score;
        }
        k = k + 1;
    }
    proof {
        assert forall|j2: int| 0 <= j2 < n implies #[trigger] child_value(position, depth as int, j2)
            <= child_value(position, depth as int, best_index) by {
            let t = lemma_marked_place_of(base, child_boards@, position, false, j2);
            assert(-negamax(child_boards@[t]@, depth - 1) <= alpha);
        }
    }
    (best_pos, alpha)
}

/// The children of `board`, each marked with the move that leads to it.
fn marked_children(board: &Board, legal_poss_vec: &Vec<u64>) -> (r: Vec<Board>)
    requires
        legal_poss_vec@ == moves(board@),
    ensures
        r@.len() == legal_poss_vec@.len(),
        marked_in_order(r@, board@, false),
        forall|i: int| 0 <= i < r@.len() ==> (#[trigger] r@[i]).before_pos == legal_poss_vec@[i],
{
    let mut child_boards: Vec<Board> = Vec::new();
    let mut i: usize = 0;
    while i < legal_poss_vec.len()
        invariant
            legal_poss_vec@ == moves(board@),
            i <= legal_poss_vec@.len(),
            child_boards@.len() == i,
            forall|k: int|
                0 <= k < i ==> (#[trigger] child_boards@[k]).before_pos == legal_poss_vec@[k]
                    && child_boards@[k]@ == child(board@, k),
        decreases legal_poss_vec@.len() - i,
    {
        let mut child_board = *board;
        proof {
            lemma_move_accepted(board@, i as int);
        }
        child_board = execute_pos(&mut child_board, legal_poss_vec[i]);
        child_board.before_pos = legal_poss_vec[i];
        child_boards.push(child_board);
        i = i + 1;
    }
    child_boards
}

/// Iterative deepening over `nega_alpha_transpose`, from five plies short of `depth`
/// up to `depth`, for at most half a second; 0 when there is no legal move.
///
/// The move is the best of the last iteration that ran, or of the first that found
/// a winning move; when no iteration ran, the first legal move.
pub fn nega_alpha_transpose_pos(board: &Board, depth: i32) -> (r: u64)
    ensures
        is_choice(board@, r),
        has_move(board@) ==> r == moves(board@)[0] || exists|d: int|
            1 <= d <= depth && #[trigger] best_at(board@, d, r),
{
    let start_time = Instant::now();
    let mut transpose_table: BoardMap<Entry> = BoardMap::new();
    let mut former_transpose_table: BoardMap<Entry> = BoardMap::new();
    let legal_poss_vec = legal_poss(board);
    let mut best_pos;
    proof {
        lemma_moves_listed(board@);
    }
    if legal_poss_vec.len() == 0 {
        return 0;
    }
    best_pos = legal_poss_vec[0];
    proof {
        assert(is_move(board@, moves(board@)[0]));
    }
    let start_depth: i32 = if depth > 6 {
        depth - 5
    } else {
        1
    };
    let mut search_depth: i32 = start_depth;
    while search_depth <= depth
        invariant
            legal_poss_vec@ == moves(board@),
            legal_poss_vec@.len() > 0,
            has_move(board@),
            best_pos == moves(board@)[0] || exists|d: int|
                1 <= d <= depth && #[trigger] best_at(board@, d, best_pos),
            is_move(board@, best_pos),
            exact_table(transpose_table),
            exact_table(former_transpose_table),
            search_depth >= 1,
        decreases depth - search_depth,
    {
        if elapsed_micros(&start_time) >= 500_000 {
            return best_pos;
        }
        let mut child_boards = marked_children(board, &legal_poss_vec);
        let ghost mut base = child_boards@;
        if legal_poss_vec.len() >= 2 {
            proof {
                lemma_exact_bounded(former_transpose_table);
            }
            let mut valued = with_ordering_values(&child_boards, &former_transpose_table);
            proof {
                base = valued@;
            }
            sort_by_value(&mut valued);
            child_boards = valued;
        }
        let (pos, score) = nega_alpha_root(
            board,
            &child_boards,
            search_depth,
            &mut transpose_table,
            Ghost(base),
        );
        best_pos = pos;
        proof {
            lemma_moves_listed(board@);
            let i = choose|i: int|
                0 <= i < moves(board@).len() && moves(board@)[i] == pos && forall|j: int|
                    0 <= j < moves(board@).len() ==> #[trigger] child_value(board@, search_depth as int, j)
                        <= child_value(board@, search_depth as int, i);
            assert(is_move(board@, moves(board@)[i]));
            assert(best_at(board@, search_depth as int, best_pos));
        }
        if score >= MAX_SCORE {
            return best_pos;
        }
        former_transpose_table = transpose_table.snapshot();
        transpose_table.clear();
        if search_depth == depth {
            break;
        }
        search_depth = search_depth + 1;
    }
    best_pos
}

/// Every score stored in `table` can be negated.
pub open spec fn negatable(table: BoardMap<Entry>) -> bool {
    forall|b: Board| #[trigger] table.lookup(b) matches Some(e) ==> e.score > i32::MIN
}

/// The upper bound stored for `board` at `depth`, or the largest score.
pub open spec fn stored_upper(table: BoardMap<Entry>, board: Board, depth: int) -> int {
    if hit(table, board, depth) {
        table.lookup(board)->0.score as int
    } else {
        i32::MAX as int
    }
}

/// The lower bound stored for `board` at `depth`, or the smallest score.
pub open spec fn stored_lower(table: BoardMap<Entry>, board: Board, depth: int) -> int {
    if hit(table, board, depth) {
        table.lookup(board)->0.score as int
    } else {
        i32::MIN + 1
    }
}

/// Every entry bounds the value of its position at its depth: from above when
/// `upper`, from below otherwise.
pub open spec fn bound_table(table: BoardMap<Entry>, upper: bool) -> bool {
    forall|b: Board| #[trigger]
        table.lookup(b) matches Some(e) ==> if upper {
            negamax(entry_position(b, e), e.depth as int) <= e.score
        } else {
            negamax(entry_position(b, e), e.depth as int) >= e.score
        }
}

/// Sound tables bound the value of a position searched at a stored depth.
proof fn lemma_stored_bounds(upper: BoardMap<Entry>, lower: BoardMap<Entry>, board: Board, depth: int)
    requires
        bound_table(upper, true),
        bound_table(lower, false),
    ensures
        stored_lower(lower, board, depth) <= negamax(board@, depth) <= stored_upper(upper, board, depth),
{
    lemma_board_on_board(board);
    lemma_negamax_range(board@, depth);
    if hit(upper, board, depth) {
        assert(entry_position(board, upper.lookup(board)->0) == board@);
    }
    if hit(lower, board, depth) {
        assert(entry_position(board, lower.lookup(board)->0) == board@);
    }
}

/// Storing a bound of the value of a position keeps a table of bounds sound.
proof fn lemma_store_bound(
    before: BoardMap<Entry>,
    after: BoardMap<Entry>,
    board: Board,
    entry: Entry,
    upper: bool,
)
    requires
        bound_table(before, upper),
        negatable(before),
        entry.score > i32::MIN,
        entry_position(board, entry) == board@,
        upper ==> negamax(board@, entry.depth as int) <= entry.score,
        !upper ==> negamax(board@, entry.depth as int) >= entry.score,
        forall|b: Board| #[trigger]
            after.lookup(b) == if b.same_position(board) {
                Some(entry)
            } else {
                before.lookup(b)
            },
    ensures
        bound_table(after, upper),
        negatable(after),
        keeps_entries(before, after),
{
    assert forall|b: Board| #[trigger] after.lookup(b) is Some implies (if upper {
        negamax(entry_position(b, after.lookup(b)->0), after.lookup(b)->0.depth as int)
            <= after.lookup(b)->0.score
    } else {
        negamax(entry_position(b, after.lookup(b)->0), after.lookup(b)->0.depth as int)
            >= after.lookup(b)->0.score
    }) by {
        if b.same_position(board) {
            assert(entry_position(b, entry) == entry_position(board, entry));
        }
    }
}

/// In sound tables the lower bound of a position never exceeds its upper bound
/// for the same depth and passes: a search pass that keeps its tables sound keeps
/// them consistent.
pub proof fn lemma_bounds_ordered(upper: BoardMap<Entry>, lower: BoardMap<Entry>, board: Board)
    requires
        bound_table(upper, true),
        bound_table(lower, false),
        upper.lookup(board) is Some,
        lower.lookup(board) is Some,
        upper.lookup(board)->0.depth == lower.lookup(board)->0.depth,
        upper.lookup(board)->0.passes == lower.lookup(board)->0.passes,
    ensures
        lower.lookup(board)->0.score <= upper.lookup(board)->0.score,
{
}

/// Empty tables are sound.
pub proof fn lemma_empty_tables_sound(table: BoardMap<Entry>)
    requires
        forall|b: Board| #[trigger] table.lookup(b) is None,
    ensures
        bound_table(table, true),
        bound_table(table, false),
        exact_table(table),
        negatable(table),
{
}

/// A fail-soft result for the full window is the exact value: so a search that
/// finishes from cleared tables with the full window returns the negamax value,
/// the value that an exact stored entry holds.
pub proof fn lemma_full_window_exact(position: Position, depth: int, r: int)
    requires
        position.on_board(),
        fail_soft(negamax(position, depth), i32::MIN + 1, i32::MAX as int, r),
    ensures
        r == negamax(position, depth),
{
    lemma_negamax_range(position, depth);
}

/// What the window that stored bounds narrow owes gives what the caller's window
/// owes, for a value between the bounds.
proof fn lemma_narrowed(v: int, alpha: int, beta: int, l: int, u: int, r: int)
    requires
        l <= v <= u,
        fail_soft(v, if l > alpha { l } else { alpha }, if u < beta { u } else { beta }, r),
    ensures
        fail_soft(v, alpha, beta, r),
{
}

/// The tolerance added back to the time budget at each level, in microseconds.
pub const SLACK_MICROS: u64 = 100;

/// The budget handed to a child: what is left, plus the slack.
fn child_budget(remaining: u64, elapsed: u64) -> (r: u64)
    requires
        elapsed < remaining,
    ensures
        r == if remaining - elapsed + SLACK_MICROS <= u64::MAX {
            remaining - elapsed + SLACK_MICROS
        } else {
            u64::MAX as int
        },
{
    let left = remaining - elapsed;
    if left <= u64::MAX - SLACK_MICROS {
        left + SLACK_MICROS
    } else {
        u64::MAX
    }
}

/// The move-ordering key of a child for negascout: a bonus less its upper bound from
/// the previous iteration, else less its lower bound, else the opposite of its
/// static evaluation. The key stops at the largest `i32`.
pub open spec fn scout_ordering_value(
    board: Board,
    former_upper: BoardMap<Entry>,
    former_lower: BoardMap<Entry>,
) -> int {
    let bonus = |v: i32| if 20 - v <= i32::MAX { 20 - v } else { i32::MAX as int };
    match former_upper.lookup(board) {
        Some(e) => bonus(e.score),
        None => match former_lower.lookup(board) {
            Some(e) => bonus(e.score),
            None => -evaluation(board@),
        },
    }
}

fn cache_bonus(v: i32) -> (r: i32)
    requires
        v > i32::MIN,
    ensures
        r == if 20 - v <= i32::MAX { 20 - v } else { i32::MAX as int },
{
    let cache_hit_bonus: i32 = 20;
    if v < cache_hit_bonus - i32::MAX {
        i32::MAX
    } else {
        cache_hit_bonus - v
    }
}

fn calc_move_ordering_value_nega_scout(
    board: &Board,
    former_transpose_table_upper: &BoardMap<Entry>,
    former_transpose_table_lower: &BoardMap<Entry>,
) -> (r: i32)
    requires
        negatable(*former_transpose_table_upper),
        negatable(*former_transpose_table_lower),
    ensures
        r == scout_ordering_value(
            *board,
            *former_transpose_table_upper,
            *former_transpose_table_lower,
        ),
{
    if let Some(e) = former_transpose_table_upper.get(board) {
        cache_bonus(e.score)
    } else if let Some(e) = former_transpose_table_lower.get(board) {
        cache_bonus(e.score)
    } else {
        -evaluate_board(board)
    }
}

/// Both tables are as they were.
pub open spec fn unchanged(
    upper_before: BoardMap<Entry>,
    upper_after: BoardMap<Entry>,
    lower_before: BoardMap<Entry>,
    lower_after: BoardMap<Entry>,
) -> bool {
    upper_after == upper_before && lower_after == lower_before
}

/// Storing a score above `i32::MIN` keeps the scores negatable and the entries.
proof fn lemma_store_keeps(before: BoardMap<Entry>, after: BoardMap<Entry>, board: Board, entry: Entry)
    requires
        negatable(before),
        entry.score > i32::MIN,
        forall|b: Board| #[trigger]
            after.lookup(b) == if b.same_position(board) {
                Some(entry)
            } else {
                before.lookup(b)
            },
    ensures
        negatable(after),
        keeps_entries(before, after),
{
}

/// Entries kept through two steps are kept through both.
proof fn lemma_keeps_trans(a: BoardMap<Entry>, b: BoardMap<Entry>, c: BoardMap<Entry>)
    requires
        keeps_entries(a, b),
        keeps_entries(b, c),
    ensures
        keeps_entries(a, c),
{
    assert forall|x: Board| #[trigger] a.lookup(x) is Some implies c.lookup(x) is Some by {
        assert(b.lookup(x) is Some);
    }
}

/// The children of `board`, highest move first.
fn children_desc(board: &Board, legal_poss_vec: &Vec<u64>) -> (r: Vec<Board>)
    requires
        legal_poss_vec@ == moves(board@),
    ensures
        in_move_order(r@, board@, true),
{
    let n = legal_poss_vec.len();
    let mut child_boards: Vec<Board> = Vec::new();
    let mut i: usize = n;
    while i > 0
        invariant
            legal_poss_vec@ == moves(board@),
            n == legal_poss_vec@.len(),
            i <= n,
            child_boards@.len() == n - i,
            forall|t: int| 0 <= t < n - i ==> (#[trigger] child_boards@[t])@ == child(board@, n - 1 - t),
        decreases i,
    {
        i = i - 1;
        let mut child_board = *board;
        proof {
            lemma_move_accepted(board@, i as int);
        }
        child_board = execute_pos(&mut child_board, legal_poss_vec[i]);
        child_boards.push(child_board);
    }
    child_boards
}

/// The boards with their negascout ordering keys set.
fn with_scout_values(
    child_boards: &Vec<Board>,
    former_upper: &BoardMap<Entry>,
    former_lower: &BoardMap<Entry>,
) -> (r: Vec<Board>)
    requires
        negatable(*former_upper),
        negatable(*former_lower),
    ensures
        r@.len() == child_boards@.len(),
        forall|k: int|
            0 <= k < r@.len() ==> (#[trigger] r@[k])@ == child_boards@[k]@ && r@[k].before_pos
                == child_boards@[k].before_pos,
{
    let mut valued: Vec<Board> = Vec::new();
    let mut i: usize = 0;
    while i < child_boards.len()
        invariant
            negatable(*former_upper),
            negatable(*former_lower),
            i <= child_boards@.len(),
            valued@.len() == i,
            forall|k: int|
                0 <= k < i ==> (#[trigger] valued@[k])@ == child_boards@[k]@ && valued@[k].before_pos
                    == child_boards@[k].before_pos,
        decreases child_boards@.len() - i,
    {
        let mut new_b = child_boards[i];
        new_b.value = calc_move_ordering_value_nega_scout(&new_b, former_upper, former_lower);
        valued.push(new_b);
        i = i + 1;
    }
    valued
}

/// One node of the zero-window search that negascout runs on the later children:
/// alpha-beta with split upper and lower bound tables and a time budget.
///
/// Entries count only for the depth and pass count they were searched at. Bounds
/// that agree are returned; otherwise they narrow the window, and a window that
/// they close returns the bound that closes it. At the end the best score is stored
/// as an upper bound, and also as a lower bound when it rose above the narrowed
/// `alpha`, where it is exact. A score at or above `beta` is stored as a lower bound.
/// When the budget runs out the best score so far comes back with `r.2` false: no
/// exact result. A finished search on sound tables is fail-soft and keeps the
/// tables sound.
#[verifier::rlimit(100)]
#[verifier::spinoff_prover]
fn nega_scout_transpose(
    board: &Board,
    depth: i32,
    alpha: i32,
    beta: i32,
    transpose_table_upper: &mut BoardMap<Entry>,
    transpose_table_lower: &mut BoardMap<Entry>,
    former_transpose_table_upper: &BoardMap<Entry>,
    former_transpose_table_lower: &BoardMap<Entry>,
    remaining_time: u64,
) -> (r: (i32, i32, bool))
    requires
        alpha < beta,
        negatable(*old(transpose_table_upper)),
        negatable(*old(transpose_table_lower)),
        negatable(*former_transpose_table_upper),
        negatable(*former_transpose_table_lower),
    ensures
        negatable(*final(transpose_table_upper)),
        negatable(*final(transpose_table_lower)),
        keeps_entries(*old(transpose_table_upper), *final(transpose_table_upper)),
        keeps_entries(*old(transpose_table_lower), *final(transpose_table_lower)),
        r.0 >= 0,
        r.1 > i32::MIN,
        end_score(board@) is Some ==> (r.0, r.1) == end_score(board@)->0 && r.2 && unchanged(
            *old(transpose_table_upper),
            *final(transpose_table_upper),
            *old(transpose_table_lower),
            *final(transpose_table_lower),
        ),
        end_score(board@) is None && depth <= 0 ==> (r.0, r.1) == (1i32, evaluation(board@) as i32)
            && r.2 && unchanged(
            *old(transpose_table_upper),
            *final(transpose_table_upper),
            *old(transpose_table_lower),
            *final(transpose_table_lower),
        ),
        end_score(board@) is None && depth > 0 && stored_upper(
            *old(transpose_table_upper),
            *board,
            depth as int,
        ) == stored_lower(*old(transpose_table_lower), *board, depth as int) ==> (r.0, r.1) == (
            1i32,
            stored_upper(*old(transpose_table_upper), *board, depth as int) as i32,
        ) && r.2 && unchanged(
            *old(transpose_table_upper),
            *final(transpose_table_upper),
            *old(transpose_table_lower),
            *final(transpose_table_lower),
        ),
        r.2 && bound_table(*old(transpose_table_upper), true) && bound_table(
            *old(transpose_table_lower),
            false,
        ) ==> bound_table(*final(transpose_table_upper), true) && bound_table(
            *final(transpose_table_lower),
            false,
        ) && fail_soft(negamax(board@, depth as int), alpha as int, beta as int, r.1 as int),
    decreases depth, 2 - board.no_legal_command,
{
    let start_time = Instant::now();
    let ghost position = board@;
    let ghost ok = bound_table(*old(transpose_table_upper), true) && bound_table(
        *old(transpose_table_lower),
        false,
    );
    proof {
        lemma_board_on_board(*board);
        if ok {
            lemma_stored_bounds(*transpose_table_upper, *transpose_table_lower, *board, depth as int);
        }
    }
    if let Some((count, score)) = check_end_score(board) {
        return (count, score, true);
    } else if depth <= 0 {
        return (1, evaluate_board(board), true);
    }
    let mut u: i32 = i32::MAX;
    let mut l: i32 = i32::MIN + 1;
    if let Some(e) = transpose_table_upper.get(board) {
        if e.depth == depth && e.passes == board.no_legal_command {
            u = e.score;
        }
    }
    if let Some(e) = transpose_table_lower.get(board) {
        if e.depth == depth && e.passes == board.no_legal_command {
            l = e.score;
        }
    }
    proof {
        assert(u == stored_upper(*transpose_table_upper, *board, depth as int));
        assert(l == stored_lower(*transpose_table_lower, *board, depth as int));
    }
    if u == l {
        return (1, u, true);
    }
    let mut lo = alpha;
    let mut hi = beta;
    if l > lo {
        lo = l;
    }
    if u < hi {
        hi = u;
    }
    if lo >= hi {
        // The stored bounds close the window: the bound that closes it is the answer.
        if l >= hi {
            return (1, l, true);
        } else {
            return (1, u, true);
        }
    }
    let a0 = lo;
    let ghost b0 = hi;
    let legal_poss_vec = legal_poss(board);
    let n = legal_poss_vec.len();
    if n == 0 {
        let passed = pass(board);
        proof {
            lemma_play_on_board(position, Set::empty());
        }
        let (count, score, finished) = nega_scout_transpose(
            &passed,
            depth,
            -hi,
            -lo,
            transpose_table_upper,
            transpose_table_lower,
            former_transpose_table_upper,
            former_transpose_table_lower,
            remaining_time,
        );
        proof {
            if finished && ok {
                lemma_narrowed(negamax(position, depth as int), alpha as int, beta as int, l as int, u as int, -score);
            }
        }
        return (count, -score, finished);
    }
    let mut child_boards = children_desc(board, &legal_poss_vec);
    let ghost mut base = child_boards@;
    if n >= 2 {
        let mut valued = with_scout_values(
            &child_boards,
            former_transpose_table_upper,
            former_transpose_table_lower,
        );
        proof {
            base = valued@;
            assert(in_move_order(base, position, true));
        }
        sort_by_value(&mut valued);
        child_boards = valued;
    }
    proof {
        base.to_multiset_ensures();
        child_boards@.to_multiset_ensures();
    }
    let mut searched_nodes: i32 = 0;
    let mut best_score: i32 = i32::MIN + 1;
    let mut all_done = true;
    let mut k: usize = 0;
    while k < child_boards.len()
        invariant
            k <= n,
            position == board@,
            position.on_board(),
            depth > 0,
            end_score(position) is None,
            n == moves(position).len(),
            n > 0,
            child_boards@.len() == n,
            in_move_order(base, position, true),
            base.to_multiset() == child_boards@.to_multiset(),
            i32::MIN < l,
            u != l,
            u == stored_upper(*old(transpose_table_upper), *board, depth as int),
            l == stored_lower(*old(transpose_table_lower), *board, depth as int),
            i32::MIN < lo < hi,
            hi == b0,
            a0 < b0,
            best_score > i32::MIN,
            best_score < hi,
            searched_nodes >= 0,
            negatable(*transpose_table_upper),
            negatable(*transpose_table_lower),
            negatable(*former_transpose_table_upper),
            negatable(*former_transpose_table_lower),
            keeps_entries(*old(transpose_table_upper), *transpose_table_upper),
            keeps_entries(*old(transpose_table_lower), *transpose_table_lower),
            ok == (bound_table(*old(transpose_table_upper), true) && bound_table(
                *old(transpose_table_lower),
                false,
            )),
            ok ==> l <= negamax(position, depth as int) <= u,
            a0 == (if l > alpha { l } else { alpha }),
            b0 == (if u < beta { u } else { beta }),
            all_done && ok ==> bound_table(*transpose_table_upper, true) && bound_table(
                *transpose_table_lower,
                false,
            ),
            all_done && ok ==> lo == (if best_score > a0 { best_score } else { a0 }),
            all_done && ok ==> forall|t: int|
                0 <= t < k ==> -negamax((#[trigger] child_boards@[t])@, depth - 1) <= best_score,
            all_done && ok && best_score > a0 ==> exists|t: int|
                0 <= t < k && -negamax((#[trigger] child_boards@[t])@, depth - 1) == best_score,
        decreases n - k,
    {
        let elapsed = elapsed_micros(&start_time);
        if elapsed >= remaining_time {
            return (searched_nodes, best_score, false);
        }
        let child = child_boards[k];
        let ghost j = lemma_child_of(base, child_boards@, position, true, k as int);
        proof {
            lemma_child_on_board(position, j);
        }
        let ghost up_before = *transpose_table_upper;
        let ghost low_before = *transpose_table_lower;
        let ghost lo_before = lo;
        let (count, child_score, finished) = nega_scout_transpose(
            &child,
            depth - 1,
            -hi,
            -lo,
            transpose_table_upper,
            transpose_table_lower,
            former_transpose_table_upper,
            former_transpose_table_lower,
            child_budget(remaining_time, elapsed),
        );
        all_done = all_done && finished;
        let score = -child_score;
        searched_nodes = add_nodes(searched_nodes, count);
        proof {
            lemma_keeps_trans(*old(transpose_table_upper), up_before, *transpose_table_upper);
            lemma_keeps_trans(*old(transpose_table_lower), low_before, *transpose_table_lower);
            if all_done && ok {
                lemma_best_child(position, depth as int, n as int);
                assert(child_value(position, depth as int, j) <= negamax(position, depth as int));
                if score >= hi {
                    assert(negamax(position, depth as int) >= score);
                }
            }
        }
        if score >= hi {
            if score > l {
                let entry = Entry { depth, passes: board.no_legal_command, score };
                let ghost before_low = *transpose_table_lower;
                transpose_table_lower.insert(*board, entry);
                proof {
                    lemma_store_keeps(before_low, *transpose_table_lower, *board, entry);
                    lemma_keeps_trans(*old(transpose_table_lower), before_low, *transpose_table_lower);
                    if all_done && ok {
                        assert(entry_position(*board, entry) == position);
                        lemma_store_bound(before_low, *transpose_table_lower, *board, entry, false);
                    }
                }
            }
            proof {
                if all_done && ok {
                    lemma_narrowed(negamax(position, depth as int), alpha as int, beta as int, l as int, u as int, score as int);
                }
            }
            return (searched_nodes, score, all_done);
        }
        if score > lo {
            lo = score;
        }
        if best_score < score {
            best_score = score;
        }
        proof {
            if all_done && ok {
                if score > lo_before {
                    assert(-negamax(child_boards@[k as int]@, depth - 1) == score);
                }
            }
        }
        k = k + 1;
    }
    proof {
        if all_done && ok {
            let v = negamax(position, depth as int);
            assert(v == best_child(position, depth as int, n as int));
            lemma_best_child(position, depth as int, n as int);
            let j = choose|j: int| 0 <= j < n && v == child_value(position, depth as int, j);
            let t = lemma_place_of(base, child_boards@, position, true, j);
            assert(-negamax(child_boards@[t]@, depth - 1) <= best_score);
            if best_score > a0 {
                let t2 = choose|t: int|
                    0 <= t < n && -negamax((#[trigger] child_boards@[t])@, depth - 1) == best_score;
                let j2 = lemma_child_of(base, child_boards@, position, true, t2);
                assert(v >= child_value(position, depth as int, j2));
            }
            lemma_narrowed(v, alpha as int, beta as int, l as int, u as int, best_score as int);
        }
    }
    let upper_entry = Entry { depth, passes: board.no_legal_command, score: best_score };
    let ghost before_up = *transpose_table_upper;
    transpose_table_upper.insert(*board, upper_entry);
    proof {
        lemma_store_keeps(before_up, *transpose_table_upper, *board, upper_entry);
        lemma_keeps_trans(*old(transpose_table_upper), before_up, *transpose_table_upper);
        if all_done && ok {
            assert(entry_position(*board, upper_entry) == position);
            lemma_store_bound(before_up, *transpose_table_upper, *board, upper_entry, true);
        }
    }
    if best_score > a0 {
        let ghost before_low = *transpose_table_lower;
        transpose_table_lower.insert(*board, upper_entry);
        proof {
            lemma_store_keeps(before_low, *transpose_table_lower, *board, upper_entry);
            lemma_keeps_trans(*old(transpose_table_lower), before_low, *transpose_table_lower);
            if all_done && ok {
                lemma_store_bound(before_low, *transpose_table_lower, *board, upper_entry, false);
            }
        }
    }
    (searched_nodes, best_score, all_done)
}

/// Principal variation search with split bound tables and a time budget.
///
/// The first child, best by the ordering, is searched with the full window; each
/// later one first with the zero window just above `alpha`, and again with the full
/// window only where that search shows it may be better. The score of the full
/// search then stands for the child: it is exact, where the zero-window score is a
/// bound only. Tables, stores and the time budget work as in
/// `nega_scout_transpose`. A finished search on sound tables is fail-soft and keeps
/// the tables sound.
#[verifier::rlimit(100)]
#[verifier::spinoff_prover]
fn nega_scout(
    board: &Board,
    depth: i32,
    alpha: i32,
    beta: i32,
    transpose_table_upper: &mut BoardMap<Entry>,
    transpose_table_lower: &mut BoardMap<Entry>,
    former_transpose_table_upper: &BoardMap<Entry>,
    former_transpose_table_lower: &BoardMap<Entry>,
    remaining_time: u64,
) -> (r: (i32, i32, bool))
    requires
        alpha < beta,
        negatable(*old(transpose_table_upper)),
        negatable(*old(transpose_table_lower)),
        negatable(*former_transpose_table_upper),
        negatable(*former_transpose_table_lower),
    ensures
        negatable(*final(transpose_table_upper)),
        negatable(*final(transpose_table_lower)),
        keeps_entries(*old(transpose_table_upper), *final(transpose_table_upper)),
        keeps_entries(*old(transpose_table_lower), *final(transpose_table_lower)),
        r.0 >= 0,
        r.1 > i32::MIN,
        end_score(board@) is Some ==> (r.0, r.1) == end_score(board@)->0 && r.2 && unchanged(
            *old(transpose_table_upper),
            *final(transpose_table_upper),
            *old(transpose_table_lower),
            *final(transpose_table_lower),
        ),
        end_score(board@) is None && depth <= 0 ==> (r.0, r.1) == (1i32, evaluation(board@) as i32)
            && r.2 && unchanged(
            *old(transpose_table_upper),
            *final(transpose_table_upper),
            *old(transpose_table_lower),
            *final(transpose_table_lower),
        ),
        end_score(board@) is None && depth > 0 && stored_upper(
            *old(transpose_table_upper),
            *board,
            depth as int,
        ) == stored_lower(*old(transpose_table_lower), *board, depth as int) ==> (r.0, r.1) == (
            1i32,
            stored_upper(*old(transpose_table_upper), *board, depth as int) as i32,
        ) && r.2 && unchanged(
            *old(transpose_table_upper),
            *final(transpose_table_upper),
            *old(transpose_table_lower),
            *final(transpose_table_lower),
        ),
        r.2 && bound_table(*old(transpose_table_upper), true) && bound_table(
            *old(transpose_table_lower),
            false,
        ) ==> bound_table(*final(transpose_table_upper), true) && bound_table(
            *final(transpose_table_lower),
            false,
        ) && fail_soft(negamax(board@, depth as int), alpha as int, beta as int, r.1 as int),
    decreases depth, 2 - board.no_legal_command,
{
    let start_time = Instant::now();
    let ghost position = board@;
    let ghost ok = bound_table(*old(transpose_table_upper), true) && bound_table(
        *old(transpose_table_lower),
        false,
    );
    proof {
        lemma_board_on_board(*board);
        if ok {
            lemma_stored_bounds(*transpose_table_upper, *transpose_table_lower, *board, depth as int);
        }
    }
    if let Some((count, score)) = check_end_score(board) {
        return (count, score, true);
    } else if depth <= 0 {
        return (1, evaluate_board(board), true);
    }
    let mut u: i32 = i32::MAX;
    let mut l: i32 = i32::MIN + 1;
    if let Some(e) = transpose_table_upper.get(board) {
        if e.depth == depth && e.passes == board.no_legal_command {
            u = e.score;
        }
    }
    if let Some(e) = transpose_table_lower.get(board) {
        if e.depth == depth && e.passes == board.no_legal_command {
            l = e.score;
        }
    }
    proof {
        assert(u == stored_upper(*transpose_table_upper, *board, depth as int));
        assert(l == stored_lower(*transpose_table_lower, *board, depth as int));
    }
    if u == l {
        return (1, u, true);
    }
    let mut lo = alpha;
    let mut hi = beta;
    if l > lo {
        lo = l;
    }
    if u < hi {
        hi = u;
    }
    if lo >= hi {
        // The stored bounds close the window: the bound that closes it is the answer.
        if l >= hi {
            return (1, l, true);
        } else {
            return (1, u, true);
        }
    }
    let a0 = lo;
    let ghost b0 = hi;
    let legal_poss_vec = legal_poss(board);
    let n = legal_poss_vec.len();
    if n == 0 {
        let passed = pass(board);
        proof {
            lemma_play_on_board(position, Set::empty());
        }
        let (count, score, finished) = nega_scout(
            &passed,
            depth,
            -hi,
            -lo,
            transpose_table_upper,
            transpose_table_lower,
            former_transpose_table_upper,
            former_transpose_table_lower,
            remaining_time,
        );
        proof {
            if finished && ok {
                lemma_narrowed(negamax(position, depth as int), alpha as int, beta as int, l as int, u as int, -score);
            }
        }
        return (count, -score, finished);
    }
    let mut child_boards = children_desc(board, &legal_poss_vec);
    let ghost mut base = child_boards@;
    if n >= 2 {
        let mut valued = with_scout_values(
            &child_boards,
            former_transpose_table_upper,
            former_transpose_table_lower,
        );
        proof {
            base = valued@;
            assert(in_move_order(base, position, true));
        }
        sort_by_value(&mut valued);
        child_boards = valued;
    }
    proof {
        base.to_multiset_ensures();
        child_boards@.to_multiset_ensures();
    }
    let mut searched_nodes: i32 = 0;
    let first = child_boards[0];
    let ghost j0 = lemma_child_of(base, child_boards@, position, true, 0);
    proof {
        lemma_child_on_board(position, j0);
    }
    let (count, first_score, finished) = nega_scout(
            &first,
            depth - 1,
            -hi,
            -lo,
            transpose_table_upper,
            transpose_table_lower,
            former_transpose_table_upper,
            former_transpose_table_lower,
            remaining_time,
        );
    let mut all_done = finished;
    let score = -first_score;
    searched_nodes = add_nodes(searched_nodes, count);
    proof {
        if all_done && ok {
            lemma_best_child(position, depth as int, n as int);
            assert(child_value(position, depth as int, j0) <= negamax(position, depth as int));
            if score >= hi {
                assert(negamax(position, depth as int) >= score);
            }
        }
    }
    if score >= hi {
        if score > l {
            let entry = Entry { depth, passes: board.no_legal_command, score };
            let ghost before_low = *transpose_table_lower;
            transpose_table_lower.insert(*board, entry);
            proof {
                lemma_store_keeps(before_low, *transpose_table_lower, *board, entry);
                lemma_keeps_trans(*old(transpose_table_lower), before_low, *transpose_table_lower);
                if all_done && ok {
                    assert(entry_position(*board, entry) == position);
                    lemma_store_bound(before_low, *transpose_table_lower, *board, entry, false);
                }
            }
        }
        proof {
            if all_done && ok {
                lemma_narrowed(negamax(position, depth as int), alpha as int, beta as int, l as int, u as int, score as int);
            }
        }
        return (searched_nodes, score, all_done);
    }
    if lo < score {
        lo = score;
    }
    let mut best_score = score;
    proof {
        if all_done && ok {
            if score > a0 {
                assert(-negamax(child_boards@[0]@, depth - 1) == score);
            }
        }
    }
    let mut k: usize = 1;
    while k < child_boards.len()
        invariant
            1 <= k <= n,
            position == board@,
            position.on_board(),
            depth > 0,
            end_score(position) is None,
            n == moves(position).len(),
            n > 0,
            child_boards@.len() == n,
            in_move_order(base, position, true),
            base.to_multiset() == child_boards@.to_multiset(),
            i32::MIN < l,
            u != l,
            u == stored_upper(*old(transpose_table_upper), *board, depth as int),
            l == stored_lower(*old(transpose_table_lower), *board, depth as int),
            i32::MIN < lo < hi,
            hi == b0,
            a0 < b0,
            best_score > i32::MIN,
            best_score < hi,
            searched_nodes >= 0,
            negatable(*transpose_table_upper),
            negatable(*transpose_table_lower),
            negatable(*former_transpose_table_upper),
            negatable(*former_transpose_table_lower),
            keeps_entries(*old(transpose_table_upper), *transpose_table_upper),
            keeps_entries(*old(transpose_table_lower), *transpose_table_lower),
            ok == (bound_table(*old(transpose_table_upper), true) && bound_table(
                *old(transpose_table_lower),
                false,
            )),
            ok ==> l <= negamax(position, depth as int) <= u,
            a0 == (if l > alpha { l } else { alpha }),
            b0 == (if u < beta { u } else { beta }),
            all_done && ok ==> bound_table(*transpose_table_upper, true) && bound_table(
                *transpose_table_lower,
                false,
            ),
            all_done && ok ==> lo == (if best_score > a0 { best_score } else { a0 }),
            all_done && ok ==> forall|t: int|
                0 <= t < k ==> -negamax((#[trigger] child_boards@[t])@, depth - 1) <= best_score,
            all_done && ok && best_score > a0 ==> exists|t: int|
                0 <= t < k && -negamax((#[trigger] child_boards@[t])@, depth - 1) == best_score,
        decreases n - k,
    {
        let elapsed = elapsed_micros(&start_time);
        if elapsed >= remaining_time {
            return (searched_nodes, best_score, false);
        }
        let child = child_boards[k];
        let ghost j = lemma_child_of(base, child_boards@, position, true, k as int);
        proof {
            lemma_child_on_board(position, j);
            lemma_best_child(position, depth as int, n as int);
        }
        let ghost up_before = *transpose_table_upper;
        let ghost low_before = *transpose_table_lower;
        let ghost lo_before = lo;
        let (count, child_score, finished) = nega_scout_transpose(
            &child,
            depth - 1,
            -lo - 1,
            -lo,
            transpose_table_upper,
            transpose_table_lower,
            former_transpose_table_upper,
            former_transpose_table_lower,
            child_budget(remaining_time, elapsed),
        );
        all_done = all_done && finished;
        let mut score = -child_score;
        searched_nodes = add_nodes(searched_nodes, count);
        proof {
            lemma_keeps_trans(*old(transpose_table_upper), up_before, *transpose_table_upper);
            lemma_keeps_trans(*old(transpose_table_lower), low_before, *transpose_table_lower);
            if all_done && ok {
                assert(child_value(position, depth as int, j) <= negamax(position, depth as int));
                if score >= hi {
                    assert(negamax(position, depth as int) >= score);
                }
            }
        }
        if score >= hi {
            if score > l {
                let entry = Entry { depth, passes: board.no_legal_command, score };
                let ghost before_low = *transpose_table_lower;
                transpose_table_lower.insert(*board, entry);
                proof {
                    lemma_store_keeps(before_low, *transpose_table_lower, *board, entry);
                    lemma_keeps_trans(*old(transpose_table_lower), before_low, *transpose_table_lower);
                    if all_done && ok {
                        assert(entry_position(*board, entry) == position);
                        lemma_store_bound(before_low, *transpose_table_lower, *board, entry, false);
                    }
                }
            }
            proof {
                if all_done && ok {
                    lemma_narrowed(negamax(position, depth as int), alpha as int, beta as int, l as int, u as int, score as int);
                }
            }
            return (searched_nodes, score, all_done);
        }
        if score > lo {
            lo = score;
            let elapsed = elapsed_micros(&start_time);
            if elapsed >= remaining_time {
                return (searched_nodes, best_score, false);
            }
            let ghost null_score = score;
            let ghost up_mid = *transpose_table_upper;
            let ghost low_mid = *transpose_table_lower;
            let (count, child_score, finished) = nega_scout(
            &child,
            depth - 1,
            -hi,
            -lo,
            transpose_table_upper,
            transpose_table_lower,
            former_transpose_table_upper,
            former_transpose_table_lower,
            child_budget(remaining_time, elapsed),
        );
            all_done = all_done && finished;
            score = -child_score;
            searched_nodes = add_nodes(searched_nodes, count);
            proof {
                lemma_keeps_trans(*old(transpose_table_upper), up_mid, *transpose_table_upper);
                lemma_keeps_trans(*old(transpose_table_lower), low_mid, *transpose_table_lower);
                if all_done && ok {
                    assert(child_value(position, depth as int, j) <= negamax(position, depth as int));
                    if score < hi {
                        assert(child_value(position, depth as int, j) == score);
                    }
                }
            }
            if score >= hi {
                if score > l {
                    let entry = Entry { depth, passes: board.no_legal_command, score };
                    let ghost before_low = *transpose_table_lower;
                    transpose_table_lower.insert(*board, entry);
                    proof {
                        lemma_store_keeps(before_low, *transpose_table_lower, *board, entry);
                        lemma_keeps_trans(*old(transpose_table_lower), before_low, *transpose_table_lower);
                        if all_done && ok {
                            assert(entry_position(*board, entry) == position);
                            lemma_store_bound(before_low, *transpose_table_lower, *board, entry, false);
                        }
                    }
                }
                proof {
                    if all_done && ok {
                        lemma_narrowed(negamax(position, depth as int), alpha as int, beta as int, l as int, u as int, score as int);
                    }
                }
                return (searched_nodes, score, all_done);
            }
        }
        if lo < score {
            lo = score;
        }
        if best_score < score {
            best_score = score;
        }
        proof {
            if all_done && ok {
                if score > lo_before {
                    assert(-negamax(child_boards@[k as int]@, depth - 1) == score);
                }
            }
        }
        k = k + 1;
    }
    proof {
        if all_done && ok {
            let v = negamax(position, depth as int);
            assert(v == best_child(position, depth as int, n as int));
            lemma_best_child(position, depth as int, n as int);
            let j = choose|j: int| 0 <= j < n && v == child_value(position, depth as int, j);
            let t = lemma_place_of(base, child_boards@, position, true, j);
            assert(-negamax(child_boards@[t]@, depth - 1) <= best_score);
            if best_score > a0 {
                let t2 = choose|t: int|
                    0 <= t < n && -negamax((#[trigger] child_boards@[t])@, depth - 1) == best_score;
                let j2 = lemma_child_of(base, child_boards@, position, true, t2);
                assert(v >= child_value(position, depth as int, j2));
            }
            lemma_narrowed(v, alpha as int, beta as int, l as int, u as int, best_score as int);
        }
    }
    let upper_entry = Entry { depth, passes: board.no_legal_command, score: best_score };
    let ghost before_up = *transpose_table_upper;
    transpose_table_upper.insert(*board, upper_entry);
    proof {
        lemma_store_keeps(before_up, *transpose_table_upper, *board, upper_entry);
        lemma_keeps_trans(*old(transpose_table_upper), before_up, *transpose_table_upper);
        if all_done && ok {
            assert(entry_position(*board, upper_entry) == position);
            lemma_store_bound(before_up, *transpose_table_upper, *board, upper_entry, true);
        }
    }
    if best_score > a0 {
        let ghost before_low = *transpose_table_lower;
        transpose_table_lower.insert(*board, upper_entry);
        proof {
            lemma_store_keeps(before_low, *transpose_table_lower, *board, upper_entry);
            lemma_keeps_trans(*old(transpose_table_lower), before_low, *transpose_table_lower);
            if all_done && ok {
                lemma_store_bound(before_low, *transpose_table_lower, *board, upper_entry, false);
            }
        }
    }
    (searched_nodes, best_score, all_done)
}

/// The children of `board`, highest move first, each marked with its move.
fn marked_children_desc(board: &Board, legal_poss_vec: &Vec<u64>) -> (r: Vec<Board>)
    requires
        legal_poss_vec@ == moves(board@),
    ensures
        marked_in_order(r@, board@, true),
{
    let n = legal_poss_vec.len();
    let mut child_boards: Vec<Board> = Vec::new();
    let mut i: usize = n;
    while i > 0
        invariant
            legal_poss_vec@ == moves(board@),
            n == legal_poss_vec@.len(),
            i <= n,
            child_boards@.len() == n - i,
            forall|t: int|
                0 <= t < n - i ==> (#[trigger] child_boards@[t])@ == child(board@, n - 1 - t)
                    && child_boards@[t].before_pos == moves(board@)[n - 1 - t],
        decreases i,
    {
        i = i - 1;
        let mut child_board = *board;
        proof {
            lemma_move_accepted(board@, i as int);
        }
        child_board = execute_pos(&mut child_board, legal_poss_vec[i]);
        child_board.before_pos = legal_poss_vec[i];
        child_boards.push(child_board);
    }
    child_boards
}

/// One iteration of negascout at the root: the first child in the given order
/// with the full window, the others with the zero window and, where that shows
/// them better, again with the full window. A winning move is returned at once.
/// `r.2` says whether the iteration finished within the budget; when it did, the
/// move is a best move at `depth`.
#[verifier::rlimit(100)]
#[verifier::spinoff_prover]
fn nega_scout_root(
    board: &Board,
    child_boards: &Vec<Board>,
    depth: i32,
    transpose_table_upper: &mut BoardMap<Entry>,
    transpose_table_lower: &mut BoardMap<Entry>,
    former_transpose_table_upper: &BoardMap<Entry>,
    former_transpose_table_lower: &BoardMap<Entry>,
    start_time: &Instant,
    budget: u64,
    Ghost(base): Ghost<Seq<Board>>,
) -> (r: (u64, i32, bool))
    requires
        depth >= 1,
        marked_in_order(base, board@, true),
        base.len() > 0,
        base.to_multiset() == child_boards@.to_multiset(),
        negatable(*old(transpose_table_upper)),
        negatable(*old(transpose_table_lower)),
        negatable(*former_transpose_table_upper),
        negatable(*former_transpose_table_lower),
        bound_table(*old(transpose_table_upper), true),
        bound_table(*old(transpose_table_lower), false),
    ensures
        negatable(*final(transpose_table_upper)),
        negatable(*final(transpose_table_lower)),
        r.2 ==> best_at(board@, depth as int, r.0),
{
    let ghost position = board@;
    let n = child_boards.len();
    proof {
        lemma_board_on_board(*board);
        base.to_multiset_ensures();
        child_boards@.to_multiset_ensures();
    }
    let mut alpha: i32 = i32::MIN + 1;
    let beta: i32 = -alpha;
    let elapsed = elapsed_micros(start_time);
    if elapsed >= budget {
        return (0, alpha, false);
    }
    let first = child_boards[0];
    let ghost j0 = lemma_marked_child_of(base, child_boards@, position, true, 0);
    proof {
        lemma_child_on_board(position, j0);
        lemma_negamax_range(first@, depth - 1);
    }
    let (_, first_score, finished) = nega_scout(
        &first,
        depth - 1,
        -beta,
        -alpha,
        transpose_table_upper,
        transpose_table_lower,
        former_transpose_table_upper,
        former_transpose_table_lower,
        child_budget(budget, elapsed),
    );
    let mut all_done = finished;
    let score = -first_score;
    alpha = score;
    let mut best_pos = first.before_pos;
    let ghost mut best_index: int = j0;
    if score >= MAX_SCORE {
        proof {
            if all_done {
                assert forall|j2: int| 0 <= j2 < n implies #[trigger] child_value(position, depth as int, j2)
                    <= child_value(position, depth as int, j0) by {
                    lemma_child_on_board(position, j2);
                    lemma_negamax_range(child(position, j2), depth - 1);
                }
            }
        }
        return (best_pos, score, all_done);
    }
    let mut k: usize = 1;
    while k < n
        invariant
            position == board@,
            position.on_board(),
            n == child_boards@.len(),
            n == moves(position).len(),
            n > 0,
            1 <= k <= n,
            depth >= 1,
            marked_in_order(base, position, true),
            base.to_multiset() == child_boards@.to_multiset(),
            i32::MIN < alpha < MAX_SCORE,
            beta == i32::MAX,
            negatable(*transpose_table_upper),
            negatable(*transpose_table_lower),
            negatable(*former_transpose_table_upper),
            negatable(*former_transpose_table_lower),
            all_done ==> bound_table(*transpose_table_upper, true) && bound_table(
                *transpose_table_lower,
                false,
            ),
            all_done ==> 0 <= best_index < n && best_pos == moves(position)[best_index]
                && alpha == child_value(position, depth as int, best_index),
            all_done ==> forall|t: int|
                0 <= t < k ==> -negamax((#[trigger] child_boards@[t])@, depth - 1) <= alpha,
        decreases n - k,
    {
        let elapsed = elapsed_micros(start_time);
        if elapsed >= budget {
            return (best_pos, alpha, false);
        }
        let child_board = child_boards[k];
        let ghost j = lemma_marked_child_of(base, child_boards@, position, true, k as int);
        proof {
            lemma_child_on_board(position, j);
            lemma_negamax_range(child_board@, depth - 1);
        }
        let (_, child_score, finished) = nega_scout_transpose(
            &child_board,
            depth - 1,
            -alpha - 1,
            -alpha,
            transpose_table_upper,
            transpose_table_lower,
            former_transpose_table_upper,
            former_transpose_table_lower,
            child_budget(budget, elapsed),
        );
        all_done = all_done && finished;
        let mut score = -child_score;
        if score >= MAX_SCORE {
            proof {
                if all_done {
                    assert forall|j2: int| 0 <= j2 < n implies #[trigger] child_value(position, depth as int, j2)
                        <= child_value(position, depth as int, j) by {
                        lemma_child_on_board(position, j2);
                        lemma_negamax_range(child(position, j2), depth - 1);
                    }
                }
            }
            return (child_board.before_pos, score, all_done);
        }
        if score > alpha {
            best_pos = child_board.before_pos;
            proof {
                best_index = j;
            }
            alpha = score;
            let elapsed = elapsed_micros(start_time);
            if elapsed >= budget {
                return (best_pos, alpha, false);
            }
            let (_, research_score, finished) = nega_scout(
                &child_board,
                depth - 1,
                -beta,
                -alpha,
                transpose_table_upper,
                transpose_table_lower,
                former_transpose_table_upper,
                former_transpose_table_lower,
                child_budget(budget, elapsed),
            );
            all_done = all_done && finished;
            score = -research_score;
            if score >= MAX_SCORE {
                proof {
                    if all_done {
                        assert forall|j2: int| 0 <= j2 < n implies #[trigger] child_value(position, depth as int, j2)
                            <= child_value(position, depth as int, j) by {
                            lemma_child_on_board(position, j2);
                            lemma_negamax_range(child(position, j2), depth - 1);
                        }
                    }
                }
                return (child_board.before_pos, score, all_done);
            }
        }
        if score > alpha {
            alpha = score;
        }
        proof {
            if all_done {
                assert(child_value(position, depth as int, j) <= alpha);
                if best_index == j {
                    assert(alpha == child_value(position, depth as int, j));
                }
            }
        }
        k = k + 1;
    }
    proof {
        if all_done {
            assert forall|j2: int| 0 <= j2 < n implies #[trigger] child_value(position, depth as int, j2)
                <= child_value(position, depth as int, best_index) by {
                let t = lemma_marked_place_of(base, child_boards@, position, true, j2);
                assert(-negamax(child_boards@[t]@, depth - 1) <= alpha);
            }
        }
    }
    (best_pos, alpha, all_done)
}

/// Iterative deepening over negascout, from three plies short of `depth` up to
/// `depth`, within `thinking_time`; 0 when there is no legal move.
///
/// Each iteration's tables become the next one's move-ordering tables. A move that
/// wins outright is returned at once. When time runs out, the best move of the
/// last iteration that finished comes back, or the lowest legal move when none did.
pub fn nega_scout_transpose_pos(board: &Board, depth: i32, thinking_time: Duration) -> (r: u64)
    ensures
        is_choice(board@, r),
        has_move(board@) ==> r == moves(board@)[0] || exists|d: int|
            1 <= d <= depth && #[trigger] best_at(board@, d, r),
{
    let start_time = Instant::now();
    let budget = as_micros(&thinking_time);
    let mut transpose_table_upper: BoardMap<Entry> = BoardMap::new();
    let mut former_transpose_table_upper: BoardMap<Entry> = BoardMap::new();
    let mut transpose_table_lower: BoardMap<Entry> = BoardMap::new();
    let mut former_transpose_table_lower: BoardMap<Entry> = BoardMap::new();
    let legal_poss_vec = legal_poss(board);
    let n = legal_poss_vec.len();
    proof {
        lemma_moves_listed(board@);
    }
    if n == 0 {
        return 0;
    }
    let mut best_pos = legal_poss_vec[0];
    proof {
        assert(is_move(board@, moves(board@)[0]));
    }
    let start_depth: i32 = if depth > 4 {
        depth - 3
    } else {
        1
    };
    let mut search_depth: i32 = start_depth;
    while search_depth <= depth
        invariant
            legal_poss_vec@ == moves(board@),
            n == legal_poss_vec@.len(),
            n > 0,
            has_move(board@),
            best_pos == moves(board@)[0] || exists|d: int|
                1 <= d <= depth && #[trigger] best_at(board@, d, best_pos),
            is_move(board@, best_pos),
            forall|b: Board| #[trigger] transpose_table_upper.lookup(b) is None,
            forall|b: Board| #[trigger] transpose_table_lower.lookup(b) is None,
            negatable(former_transpose_table_upper),
            negatable(former_transpose_table_lower),
            search_depth >= 1,
        decreases depth - search_depth,
    {
        if elapsed_micros(&start_time) >= budget {
            return best_pos;
        }
        let mut child_boards = marked_children_desc(board, &legal_poss_vec);
        let ghost mut base = child_boards@;
        if n >= 2 {
            let mut valued = with_scout_values(
                &child_boards,
                &former_transpose_table_upper,
                &former_transpose_table_lower,
            );
            proof {
                base = valued@;
                assert(marked_in_order(base, board@, true));
            }
            sort_by_value(&mut valued);
            child_boards = valued;
        }
        proof {
            lemma_empty_tables_sound(transpose_table_upper);
            lemma_empty_tables_sound(transpose_table_lower);
        }
        let (pos, score, finished) = nega_scout_root(
            board,
            &child_boards,
            search_depth,
            &mut transpose_table_upper,
            &mut transpose_table_lower,
            &former_transpose_table_upper,
            &former_transpose_table_lower,
            &start_time,
            budget,
            Ghost(base),
        );
        if !finished {
            return best_pos;
        }
        best_pos = pos;
        proof {
            lemma_moves_listed(board@);
            let i = choose|i: int|
                0 <= i < moves(board@).len() && moves(board@)[i] == pos && forall|j: int|
                    0 <= j < moves(board@).len() ==> #[trigger] child_value(board@, search_depth as int, j)
                        <= child_value(board@, search_depth as int, i);
            assert(is_move(board@, moves(board@)[i]));
            assert(best_at(board@, search_depth as int, best_pos));
        }
        if score >= MAX_SCORE {
            return best_pos;
        }
        former_transpose_table_upper = transpose_table_upper.snapshot();
        former_transpose_table_lower = transpose_table_lower.snapshot();
        transpose_table_upper.clear();
        transpose_table_lower.clear();
        if search_depth == depth {
            break;
        }
        search_depth = search_depth + 1;
    }
    best_pos
}

/// The search that picks a move.
#[derive(Clone, Copy, PartialEq, Eq, Structural)]
pub enum Strategy {
    /// A random legal move.
    Random,
    /// Alpha-beta search eight plies deep in random order.
    AlphaBeta,
    /// Iterative deepening over negamax with a transposition table.
    NegaAlpha,
    /// The opening book, else iterative deepening over negascout within the clock.
    NegaScout,
}

/// The strategy that a short name selects: "rn", "ab", "na"; anything else is
/// negascout.
pub open spec fn strategy_named(name: Seq<char>) -> Strategy {
    if name == seq!['r', 'n'] {
        Strategy::Random
    } else if name == seq!['a', 'b'] {
        Strategy::AlphaBeta
    } else if name == seq!['n', 'a'] {
        Strategy::NegaAlpha
    } else {
        Strategy::NegaScout
    }
}

impl Strategy {
    pub fn from_name(name: &str) -> (r: Strategy)
        ensures
            r == strategy_named(name@),
    {
        if name.unicode_len() != 2 {
            return Strategy::NegaScout;
        }
        let a = name.get_char(0);
        let b = name.get_char(1);
        proof {
            assert(name@ == seq![a, b]);
        }
        if a == 'r' && b == 'n' {
            Strategy::Random
        } else if a == 'a' && b == 'b' {
            Strategy::AlphaBeta
        } else if a == 'n' && b == 'a' {
            Strategy::NegaAlpha
        } else {
            Strategy::NegaScout
        }
    }
}

/// The milliseconds to think about one move, from the milliseconds left on the
/// clock and the stones on the board: an eighth of an even share of the clock while
/// at most 20 stones stand, then an even share over half of the moves left. A board
/// whose colours overlap may count more than 64 stones; it has no empty cell.
pub open spec fn thinking_share(remaining_time: int, count: int) -> int {
    let empty = if count < 64 { 64 - count } else { 0 };
    if count <= 20 {
        remaining_time / empty / 8
    } else {
        remaining_time / (empty / 2 + 1)
    }
}

pub fn thinking_millis(remaining_time: u64, count: u64) -> (r: u64)
    ensures
        r == thinking_share(remaining_time as int, count as int),
{
    let empty: u64 = if count < 64 {
        64 - count
    } else {
        0
    };
    if count <= 20 {
        (remaining_time / empty) / 8
    } else {
        remaining_time / (empty / 2 + 1)
    }
}

/// Chooses a move with `strategy` and says how long that took.
///
/// Negascout plays from the book where it holds the position; else it searches
/// `depth` plies, or to the end with twice the time once fewer than 17 cells are empty.
pub fn ai_pos(
    board: &mut Board,
    depth: i32,
    strategy: Strategy,
    book: &BoardMap<u64>,
    remaining_time: u64,
) -> (r: (u64, Duration))
    ensures
        *final(board) == *old(board),
        strategy == Strategy::NegaScout && book.lookup(*old(board)) is Some ==> r.0 == book.lookup(
            *old(board),
        )->0,
        !(strategy == Strategy::NegaScout && book.lookup(*old(board)) is Some) ==> is_choice(
            old(board)@,
            r.0,
        ),
        strategy == Strategy::AlphaBeta && r.0 != 0 ==> exists|i: int|
            0 <= i < moves(old(board)@).len() && moves(old(board)@)[i] == r.0 && forall|j: int|
                0 <= j < moves(old(board)@).len() ==> #[trigger] child_value(old(board)@, 8, j)
                    <= child_value(old(board)@, 8, i),
{
    let start_time = Instant::now();
    let black = count_ones(board.black_board);
    let white = count_ones(board.white_board);
    proof {
        crate::bits::lemma_cells_finite(board.black_board);
        crate::bits::lemma_cells_finite(board.white_board);
    }
    let count: u64 = (black + white) as u64;
    let thinking_time = thinking_millis(remaining_time, count);
    let pos = match strategy {
        Strategy::Random => random_pos(board),
        Strategy::AlphaBeta => alpha_beta_pos(board, 8),
        Strategy::NegaAlpha => nega_alpha_transpose_pos(board, depth),
        Strategy::NegaScout => {
            if let Some(book_pos) = book.get(board) {
                book_pos
            } else if count >= 48 {
                let doubled: u64 = if thinking_time <= u64::MAX / 2 {
                    thinking_time * 2
                } else {
                    u64::MAX
                };
                nega_scout_transpose_pos(board, 65 - count as i32, Duration::from_millis(doubled))
            } else {
                nega_scout_transpose_pos(board, depth, Duration::from_millis(thinking_time))
            }
        },
    };
    let duration = start_time.elapsed();
    (pos, duration)
}

} // verus!
