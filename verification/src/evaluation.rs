//! Depth-limited negamax search with alpha-beta pruning.
//!
//! The specification side defines the *unpruned* negamax value of a
//! position (`negamax`) and the value and move a full-width root scan would
//! report (`root_best`). The executable search prunes with a fail-soft
//! alpha-beta window and an aspiration window at the root, and its
//! contracts state that pruning never changes the reported move, nor the
//! rank of the reported value.

use vstd::prelude::*;

use crate::position::Coordinates;
use crate::position::Evaluation;
use crate::position::PosModel;
use crate::position::Position;
use crate::position::eval_key;
use crate::position::eval_negated;
use crate::position::eval_small;
use crate::position::lemma_key_determines_evaluation;
use crate::position::lemma_nonterminal_has_moves;
use crate::position::lemma_spec_eval_bounded;
use crate::position::lemma_spec_moves_len_le;
use crate::position::spec_eval;
use crate::position::spec_moves;
use crate::position::spec_play;

verus! {

/// One tick of the node counter: it counts one per search call and
/// saturates rather than wrap.
pub open spec fn counter_bump(c: u32) -> u32 {
    if c < u32::MAX {
        (c + 1) as u32
    } else {
        c
    }
}

/// The larger of two evaluations; the second wins ties, as in the search's
/// running fold.
pub open spec fn ev_max(a: Evaluation, b: Evaluation) -> Evaluation {
    if eval_key(b) >= eval_key(a) {
        b
    } else {
        a
    }
}

/// The unpruned negamax value of a position: the static evaluation at a
/// terminal position or at depth 0, otherwise the maximum over all moves of
/// the negated value of the child, one ply shallower.
pub open spec fn negamax(m: PosModel, depth: nat) -> Evaluation
    decreases depth, spec_moves(m).len() + 1,
{
    let s = spec_eval(m);
    if !(s is HeuristicScore) {
        s
    } else if depth == 0 {
        s
    } else {
        negamax_children(m, spec_moves(m).len() as int, depth)
    }
}

/// The running maximum, seeded with `Loss`, of the negated values of the
/// first `n` children of `m`, searched `depth - 1` deep.
pub open spec fn negamax_children(m: PosModel, n: int, depth: nat) -> Evaluation
    decreases depth, n,
{
    if n <= 0 || depth <= 0 {
        Evaluation::Loss
    } else {
        ev_max(
            negamax_children(m, n - 1, depth),
            eval_negated(negamax(spec_play(m, spec_moves(m)[n - 1]), (depth - 1) as nat)),
        )
    }
}

proof fn lemma_negamax_children_monotone(m: PosModel, k: int, n: int, depth: nat)
    requires
        0 <= k <= n,
    ensures
        eval_key(negamax_children(m, k, depth)) <= eval_key(negamax_children(m, n, depth)),
    decreases n,
{
    if k < n {
        lemma_negamax_children_monotone(m, k, n - 1, depth);
    }
}

/// Negamax values never carry a heuristic payload whose negation would not
/// be representable.
proof fn lemma_negamax_small(m: PosModel, depth: nat)
    ensures
        eval_small(negamax(m, depth)),
    decreases depth, spec_moves(m).len() + 1,
{
    lemma_spec_eval_bounded(m);
    if spec_eval(m) is HeuristicScore && depth > 0 {
        lemma_negamax_children_small(m, spec_moves(m).len() as int, depth);
    }
}

proof fn lemma_negamax_children_small(m: PosModel, n: int, depth: nat)
    ensures
        eval_small(negamax_children(m, n, depth)),
    decreases depth, n,
{
    if n > 0 && depth > 0 {
        lemma_negamax_children_small(m, n - 1, depth);
        lemma_negamax_small(spec_play(m, spec_moves(m)[n - 1]), (depth - 1) as nat);
    }
}

proof fn lemma_negamax_children_ge_child(m: PosModel, j: int, n: int, depth: nat)
    requires
        0 <= j < n,
        depth >= 1,
    ensures
        eval_key(negamax_children(m, n, depth)) >= eval_key(
            eval_negated(negamax(spec_play(m, spec_moves(m)[j]), (depth - 1) as nat)),
        ),
{
    lemma_negamax_children_monotone(m, j + 1, n, depth);
}

/// The running best of a full-width root scan over the first `n` moves:
/// the first move is taken up front, and a later move replaces the best
/// only when its value has a strictly greater rank.
pub open spec fn root_best(m: PosModel, n: int, depth: nat) -> (Evaluation, Coordinates)
    recommends
        1 <= n <= spec_moves(m).len(),
    decreases n,
{
    if n <= 1 {
        let v = eval_negated(negamax(spec_play(m, spec_moves(m)[0]), depth));
        (
            if eval_key(v) > eval_key(Evaluation::Loss) {
                v
            } else {
                Evaluation::Loss
            },
            spec_moves(m)[0],
        )
    } else {
        let prev = root_best(m, n - 1, depth);
        let v = eval_negated(negamax(spec_play(m, spec_moves(m)[n - 1]), depth));
        if eval_key(v) > eval_key(prev.0) {
            (v, spec_moves(m)[n - 1])
        } else {
            prev
        }
    }
}

/// The value an unpruned negamax scan of the whole move list reports.
pub open spec fn spec_analysis_value(m: PosModel, depth: nat) -> Evaluation {
    root_best(m, spec_moves(m).len() as int, depth).0
}

/// The move it chooses: the first move of the ordered list whose value
/// attains the best rank.
pub open spec fn spec_best_move(m: PosModel, depth: nat) -> Coordinates {
    root_best(m, spec_moves(m).len() as int, depth).1
}

#[verifier::external_type_specification]
#[verifier::external_body]
pub struct ExInstant(std::time::Instant);

/// Relies on std::time::Instant::now: an opaque reading of the monotonic
/// clock. The result depends on the clock, so nothing is promised of it.
#[verifier::external_body]
fn instant_now() -> std::time::Instant {
    std::time::Instant::now()
}

/// Relies on std::time::Instant::elapsed: the time since `start`. The
/// result depends on the clock, so nothing is promised of it.
#[verifier::external_body]
fn elapsed_since(start: &std::time::Instant) -> std::time::Duration {
    start.elapsed()
}

/// What one search reports: the chosen move, its evaluation, the wall-clock
/// time spent, and how many positions the search visited.
pub struct AnalysisReport {
    pub evaluation: Evaluation,
    pub best_move: Coordinates,
    pub search_time: std::time::Duration,
    pub num_positions_traversed: u32,
}

/// Search `position` and report the move an unpruned negamax scan of depth
/// `depth` per move would choose, together with its value: alpha-beta
/// pruning and the root's aspiration window never change the chosen move
/// nor the rank of the reported evaluation (`Draw` and a zero heuristic
/// score share a rank, and only there may the reported tag differ from the
/// unpruned scan's). The node counter counts one per search call, the root
/// included, and saturates rather than wrap. Terminal positions must not
/// be searched.
#[verifier::rlimit(60)]
pub fn analyse(position: &Position, depth: u8) -> (report: AnalysisReport)
    requires
        position@.wf(),
        spec_eval(position@) is HeuristicScore,
    ensures
        eval_key(report.evaluation) == eval_key(spec_analysis_value(position@, depth as nat)),
        eval_key(report.evaluation) != 0 ==> report.evaluation == spec_analysis_value(
            position@,
            depth as nat,
        ),
        report.best_move == spec_best_move(position@, depth as nat),
        report.best_move.wf() && position@.can_play(report.best_move),
        report.num_positions_traversed as int >= 1 + spec_moves(position@).len(),
        eval_small(report.evaluation),
{
    let start_time = instant_now();

    let mut num_positions_traversed_including_root: u32 = 1;
    let mut best_eval_so_far = Evaluation::Loss;
    let mut best_move_so_far: Option<Coordinates> = None;

    let ghost m = position@;
    let ghost d = depth as nat;
    proof {
        lemma_nonterminal_has_moves(m);
        lemma_spec_moves_len_le(m);
    }

    let moves = position.generate_moves();
    let mut k: usize = 0;
    while k < moves.len()
        invariant
            position@ == m,
            m.wf(),
            spec_eval(m) is HeuristicScore,
            d == depth as nat,
            moves@ == spec_moves(m),
            1 <= moves@.len() <= 16,
            forall|i: int|
                0 <= i < moves@.len() ==> ((#[trigger] moves@[i]).wf() && m.can_play(moves@[i])),
            k <= moves@.len(),
            eval_small(best_eval_so_far),
            num_positions_traversed_including_root as int >= 1 + k as int,
            k == 0 ==> best_move_so_far is None && best_eval_so_far == Evaluation::Loss,
            k >= 1 ==> best_move_so_far == Some(root_best(m, k as int, d).1),
            k >= 1 ==> eval_key(best_eval_so_far) == eval_key(root_best(m, k as int, d).0),
            k >= 1 && eval_key(best_eval_so_far) != 0 ==> best_eval_so_far == root_best(
                m,
                k as int,
                d,
            ).0,
            best_move_so_far matches Some(c) ==> c.wf() && m.can_play(c),
        decreases moves@.len() - k,
    {
        let coordinates = moves[k];
        let new_position = position.play(coordinates);
        let ghost count_before = num_positions_traversed_including_root;
        let child_r = get_negamax_evaluation(
            &new_position,
            depth,
            &mut num_positions_traversed_including_root,
            Evaluation::Loss,
            best_eval_so_far.negate(),
        );
        proof {
            assert(count_before as int >= 1 + k as int);
            assert(num_positions_traversed_including_root >= counter_bump(count_before));
            if count_before < u32::MAX {
                assert(counter_bump(count_before) == count_before + 1);
                assert(num_positions_traversed_including_root as int >= 2 + k as int);
            } else {
                assert(counter_bump(count_before) == u32::MAX);
                assert(num_positions_traversed_including_root as int >= 2 + k as int);
            }
        }
        let evaluation = child_r.negate();
        let ghost prev_best = best_eval_so_far;
        let ghost nmc = negamax(spec_play(m, moves@[k as int]), d);
        let ghost vk = eval_negated(nmc);

        if best_move_so_far.is_none() {
            best_move_so_far = Some(coordinates);
        }
        if evaluation.order_key() > best_eval_so_far.order_key() {
            best_eval_so_far = evaluation;
            best_move_so_far = Some(coordinates);
        }

        proof {
            assert(new_position@ == spec_play(m, moves@[k as int]));
            lemma_negamax_small(spec_play(m, moves@[k as int]), d);
            assert(eval_key(vk) == -eval_key(nmc));
            assert(eval_key(evaluation) == -eval_key(child_r));
            assert(eval_key(eval_negated(prev_best)) == -eval_key(prev_best));
            if eval_key(prev_best) < eval_key(Evaluation::Win) {
                // the aspiration window (Loss, -prev_best) is strict
                if eval_key(child_r) <= eval_key(Evaluation::Loss) {
                    // fail low: the child truly loses, so this move wins
                    assert(child_r == Evaluation::Loss);
                    assert(nmc == Evaluation::Loss);
                    assert(evaluation == Evaluation::Win && vk == Evaluation::Win);
                } else if eval_key(child_r) < eval_key(eval_negated(prev_best)) {
                    // inside the window: the rank is exact, and the value
                    // itself except between Draw and a zero score
                    assert(eval_key(child_r) == eval_key(nmc));
                    if eval_key(child_r) != 0 {
                        lemma_key_determines_evaluation(child_r, nmc);
                        assert(evaluation == vk);
                    }
                } else {
                    // fail high: the move cannot beat the running best, and
                    // neither can its true value
                    assert(eval_key(nmc) >= eval_key(child_r));
                    assert(eval_key(vk) <= eval_key(evaluation));
                    assert(eval_key(evaluation) <= eval_key(prev_best));
                }
            } else {
                // the running best is already a win; nothing replaces it
                assert(prev_best == Evaluation::Win);
                assert(eval_key(evaluation) <= eval_key(prev_best));
                assert(eval_key(vk) <= eval_key(prev_best));
            }
        }
        k = k + 1;
    }

    AnalysisReport {
        evaluation: best_eval_so_far,
        best_move: best_move_so_far.unwrap(),
        search_time: elapsed_since(&start_time),
        num_positions_traversed: num_positions_traversed_including_root,
    }
}

/// Fail-soft alpha-beta negamax. Within a strict window the returned rank
/// is exact for true values inside it, an upper bound on the true value
/// when the result falls at or below alpha, and a lower bound when it falls
/// at or above beta — which is what makes pruning sound.
fn get_negamax_evaluation(
    position: &Position,
    depth: u8,
    num_positions_traversed_so_far: &mut u32,
    alpha: Evaluation,
    beta: Evaluation,
) -> (r: Evaluation)
    requires
        position@.wf(),
        eval_small(alpha),
        eval_small(beta),
        eval_key(alpha) <= eval_key(beta),
    ensures
        *final(num_positions_traversed_so_far) >= counter_bump(*old(num_positions_traversed_so_far)),
        !(spec_eval(position@) is HeuristicScore) || depth == 0
            ==> *final(num_positions_traversed_so_far) == counter_bump(
            *old(num_positions_traversed_so_far),
        ),
        eval_small(r),
        eval_key(alpha) < eval_key(beta) && eval_key(r) <= eval_key(alpha) ==> eval_key(
            negamax(position@, depth as nat),
        ) <= eval_key(r),
        eval_key(alpha) < eval_key(r) && eval_key(r) < eval_key(beta) ==> eval_key(r) == eval_key(
            negamax(position@, depth as nat),
        ),
        eval_key(alpha) < eval_key(beta) && eval_key(r) >= eval_key(beta) ==> eval_key(
            negamax(position@, depth as nat),
        ) >= eval_key(r),
        !(spec_eval(position@) is HeuristicScore) || depth == 0 ==> r == negamax(
            position@,
            depth as nat,
        ),
    decreases depth,
{
    if *num_positions_traversed_so_far < u32::MAX {
        *num_positions_traversed_so_far = *num_positions_traversed_so_far + 1;
    }

    let static_evaluation = position.get_static_evaluation();
    proof {
        lemma_spec_eval_bounded(position@);
    }

    match static_evaluation {
        Evaluation::Win => Evaluation::Win,
        Evaluation::Loss => Evaluation::Loss,
        Evaluation::Draw => Evaluation::Draw,
        Evaluation::HeuristicScore(_) => {
            if depth == 0 {
                return static_evaluation;
            }
            let ghost m = position@;
            let ghost d = depth as nat;

            let moves = position.generate_moves();
            let mut alpha_mut = alpha;
            let mut k: usize = 0;
            while k < moves.len()
                invariant
                    position@ == m,
                    m.wf(),
                    spec_eval(m) is HeuristicScore,
                    1 <= depth,
                    d == depth as nat,
                    moves@ == spec_moves(m),
                    forall|i: int|
                        0 <= i < moves@.len() ==> ((#[trigger] moves@[i]).wf() && m.can_play(
                            moves@[i],
                        )),
                    k <= moves@.len(),
                    eval_small(alpha),
                    eval_small(beta),
                    eval_small(alpha_mut),
                    eval_key(alpha) <= eval_key(alpha_mut) <= eval_key(beta),
                    eval_key(alpha) < eval_key(beta) ==> eval_key(alpha_mut) < eval_key(beta),
                    eval_key(alpha) < eval_key(beta) ==> eval_key(alpha_mut) == (if eval_key(
                        negamax_children(m, k as int, d),
                    ) > eval_key(alpha) {
                        eval_key(negamax_children(m, k as int, d))
                    } else {
                        eval_key(alpha)
                    }),
                    *num_positions_traversed_so_far >= counter_bump(
                        *old(num_positions_traversed_so_far),
                    ),
                decreases moves@.len() - k,
            {
                let coordinates = moves[k];
                let new_position = position.play(coordinates);
                let child_r = get_negamax_evaluation(
                    &new_position,
                    depth - 1,
                    num_positions_traversed_so_far,
                    beta.negate(),
                    alpha_mut.negate(),
                );
                let evaluation = child_r.negate();
                let ghost prev_alpha = alpha_mut;
                let ghost nmc = negamax(spec_play(m, moves@[k as int]), (d - 1) as nat);
                let ghost vk = eval_negated(nmc);

                proof {
                    assert(new_position@ == spec_play(m, moves@[k as int]));
                    assert(negamax_children(m, k as int + 1, d) == ev_max(
                        negamax_children(m, k as int, d),
                        vk,
                    ));
                    lemma_negamax_children_ge_child(m, k as int, moves@.len() as int, d);
                    lemma_negamax_children_monotone(m, k as int + 1, moves@.len() as int, d);
                    lemma_negamax_small(spec_play(m, moves@[k as int]), (d - 1) as nat);
                    assert(eval_key(vk) == -eval_key(nmc));
                    assert(eval_key(evaluation) == -eval_key(child_r));
                    assert(eval_key(eval_negated(beta)) == -eval_key(beta));
                    assert(eval_key(eval_negated(prev_alpha)) == -eval_key(prev_alpha));
                }

                if evaluation.order_key() >= beta.order_key() {
                    proof {
                        assert(negamax(m, d) == negamax_children(m, moves@.len() as int, d));
                        if eval_key(alpha) < eval_key(beta) {
                            // the child window was strict; a fail-high child
                            // cannot reach this cutoff, so the child failed
                            // low or was exact, and its result bounds the
                            // true child value from below
                            if eval_key(child_r) >= eval_key(eval_negated(prev_alpha)) {
                                assert(eval_key(evaluation) <= eval_key(prev_alpha));
                                assert(false);
                            }
                            assert(eval_key(nmc) <= eval_key(child_r));
                            assert(eval_key(vk) >= eval_key(evaluation));
                        }
                    }
                    return evaluation;
                }

                if evaluation.order_key() >= alpha_mut.order_key() {
                    alpha_mut = evaluation;
                }

                proof {
                    if eval_key(alpha) < eval_key(beta) {
                        // no cutoff: the child did not fail low, so it was
                        // exact or failed high
                        assert(eval_key(child_r) > eval_key(eval_negated(beta)));
                        if eval_key(child_r) >= eval_key(eval_negated(prev_alpha)) {
                            // fail-high child: the true child value is no
                            // better than what came back
                            assert(eval_key(nmc) >= eval_key(child_r));
                            assert(eval_key(vk) <= eval_key(evaluation));
                            assert(eval_key(evaluation) <= eval_key(prev_alpha));
                        } else {
                            // exact child
                            assert(eval_key(child_r) == eval_key(nmc));
                            assert(eval_key(vk) == eval_key(evaluation));
                        }
                    }
                }
                k = k + 1;
            }
            proof {
                assert(negamax(m, d) == negamax_children(m, moves@.len() as int, d));
            }
            alpha_mut
        },
    }
}

} // verus!
