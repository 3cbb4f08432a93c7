//! Fusing two sequential operations into one.

use vstd::prelude::*;

use crate::model::{
    append_comps, comp_drop, comp_len, comp_take, compose, is_del, lemma_app1_merged,
    lemma_append_comps_cons, lemma_total_len_cons, lemma_total_len_last, lemma_total_len_nonneg,
    lemma_total_len_skip_step, lemma_trim_end_normalized, merged, nonneg_comps, normalize,
    normalized, same_kind, total_len, Comp,
};
use crate::op::{copy_chars, lemma_op_view_nonneg, Op, OpComponent};

verus! {

/// Compose two sequential operations: applying the result equals applying
/// `op1`, then `op2`. The walk copies `op1` under skips of `op2`, passes
/// inserts of `op2` through, turns skipped text deleted by `op2` into
/// deletes, lets deletes of `op1` pass through untouched, and cancels inserts
/// of `op1` against deletes of `op2`.
pub fn text_compose(op1: Op, op2: &Op) -> (r: Op)
    requires
        total_len(op1@) + total_len(op2@) <= usize::MAX,
    ensures
        r@ == normalize(compose(op1@, op2@)),
        normalized(r@),
{
    let ghost av = op1@;
    let ghost bv = op2@;
    let ghost goal = append_comps(Seq::<Comp>::empty(), compose(av, bv));
    let ghost total0 = total_len(av) + total_len(bv);
    proof {
        lemma_op_view_nonneg(&op1);
        lemma_op_view_nonneg(op2);
        lemma_total_len_nonneg(av);
        lemma_total_len_nonneg(bv);
    }
    let mut result = Op::new();
    let mut iter = op1.into_iter();
    let n = op2.component_count();
    let mut i: usize = 0;
    proof {
        assert(bv.skip(0) =~= bv);
        assert(result@ =~= Seq::<Comp>::empty());
        assert(total_len(result@) == 0);
        assert(merged(result@));
    }
    while i < n
        invariant
            i <= n,
            n as int == bv.len(),
            bv == op2@,
            nonneg_comps(bv),
            iter.wf(),
            nonneg_comps(iter@),
            merged(result@),
            total0 == total_len(av) + total_len(bv),
            total0 <= usize::MAX,
            total_len(result@) >= 0,
            total_len(iter@) >= 0,
            total_len(result@) + total_len(iter@) + total_len(bv.skip(i as int)) <= total0,
            append_comps(result@, compose(iter@, bv.skip(i as int))) == goal,
        decreases n - i,
    {
        let ghost btail = bv.skip(i as int + 1);
        proof {
            assert(bv.skip(i as int).first() == bv[i as int]);
            assert(bv.skip(i as int).drop_first() =~= btail);
            lemma_total_len_skip_step(bv, i as int);
            assert(nonneg_comps(btail)) by {
                assert(forall|j: int|
                    0 <= j < btail.len() ==> #[trigger] btail[j] == bv[i as int + 1 + j]);
            }
            lemma_total_len_nonneg(btail);
        }
        let c = op2.component_at(i);
        match c {
            OpComponent::Skip(len0) => {
                let mut length: usize = *len0;
                proof {
                    assert(bv.skip(i as int) =~= seq![Comp::Skip(length as int)] + btail);
                }
                while length > 0
                    invariant
                        iter.wf(),
                        nonneg_comps(iter@),
                        nonneg_comps(btail),
                        merged(result@),
                        total0 <= usize::MAX,
                        total_len(result@) >= 0,
                        total_len(iter@) >= 0,
                        total_len(btail) >= 0,
                        total_len(result@) + total_len(iter@) + length as int + total_len(btail)
                            <= total0,
                        append_comps(
                            result@,
                            compose(iter@, seq![Comp::Skip(length as int)] + btail),
                        ) == goal,
                    decreases length, iter@.len(),
                {
                    let ghost itv = iter@;
                    let ghost respre = result@;
                    let ghost lenpre = length as int;
                    let ghost brem = seq![Comp::Skip(lenpre)] + btail;
                    proof {
                        assert(brem.first() == Comp::Skip(lenpre));
                        assert(brem.drop_first() =~= btail);
                        if itv.len() > 0 {
                            assert(nonneg_comps(itv.drop_first())) by {
                                assert(forall|j: int|
                                    0 <= j < itv.drop_first().len()
                                        ==> #[trigger] itv.drop_first()[j] == itv[j + 1]);
                            }
                            lemma_total_len_nonneg(itv.drop_first());
                            assert(total_len(itv) == comp_len(itv.first()) + total_len(
                                itv.drop_first(),
                            ));
                        }
                        if respre.len() > 0 {
                            lemma_total_len_last(respre);
                        }
                    }
                    let chunk = iter.take_del(length);
                    let chunk_is_del = chunk.is_del();
                    let clen = chunk.len();
                    let ghost cv = chunk@;
                    let ghost itafter = iter@;
                    proof {
                        crate::op::lemma_comp_view_nonneg(chunk);
                        if itv.len() > 0 {
                            let h = itv.first();
                            if !is_del(h) && comp_len(h) > lenpre {
                                assert(itafter =~= seq![comp_drop(h, lenpre)] + itv.drop_first());
                                assert(nonneg_comps(itafter)) by {
                                    assert(comp_len(comp_drop(h, lenpre)) >= 0);
                                    assert(forall|j: int|
                                        1 <= j < itafter.len() ==> #[trigger] itafter[j]
                                            == itv.drop_first()[j - 1]);
                                }
                                lemma_total_len_cons(comp_drop(h, lenpre), itv.drop_first());
                                assert(total_len(itafter) == total_len(itv) - lenpre);
                            } else {
                                assert(itafter == itv.drop_first());
                                assert(total_len(itafter) == total_len(itv) - comp_len(h));
                            }
                            assert(comp_len(h) <= total_len(itv));
                        }
                        lemma_total_len_nonneg(itafter);
                        assert(comp_len(cv) <= lenpre + total_len(itv));
                        assert(total_len(respre) + comp_len(cv) <= total0);
                    }
                    if !chunk_is_del {
                        length = length - clen;
                    }
                    result.append(chunk);
                    proof {
                        lemma_app1_merged(respre, cv);
                        let brem2 = seq![Comp::Skip(length as int)] + btail;
                        assert(brem2.first() == Comp::Skip(length as int));
                        assert(brem2.drop_first() =~= btail);
                        if itv.len() == 0 {
                            assert(cv == Comp::Skip(lenpre));
                            assert(length == 0);
                            assert(compose(itv, brem) == seq![cv] + compose(itv, btail));
                            lemma_append_comps_cons(respre, cv, compose(itv, btail));
                            assert(compose(itafter, brem2) == compose(itafter, btail));
                        } else {
                            let h = itv.first();
                            if is_del(h) {
                                assert(brem2 =~= brem);
                                assert(compose(itv, brem) == seq![h] + compose(itafter, brem));
                                lemma_append_comps_cons(respre, cv, compose(itafter, brem));
                            } else if comp_len(h) <= 0 {
                                assert(brem2 =~= brem);
                                assert(compose(itv, brem) == compose(itafter, brem));
                                assert(result@ == respre);
                            } else if comp_len(h) <= lenpre {
                                assert(compose(itv, brem) == seq![h] + compose(
                                    itafter,
                                    seq![Comp::Skip(lenpre - comp_len(h))] + btail,
                                ));
                                assert(seq![Comp::Skip(lenpre - comp_len(h))] + btail =~= brem2);
                                lemma_append_comps_cons(respre, cv, compose(itafter, brem2));
                            } else {
                                assert(cv == comp_take(h, lenpre));
                                assert(comp_len(cv) == lenpre);
                                assert(length == 0);
                                assert(compose(itv, brem) == seq![cv] + compose(itafter, btail));
                                lemma_append_comps_cons(respre, cv, compose(itafter, btail));
                                assert(compose(itafter, brem2) == compose(itafter, btail));
                            }
                        }
                    }
                }
                proof {
                    let brem0 = seq![Comp::Skip(0)] + btail;
                    assert(brem0.first() == Comp::Skip(0));
                    assert(brem0.drop_first() =~= btail);
                    assert(compose(iter@, brem0) == compose(iter@, btail));
                }
            },
            OpComponent::Ins(s) => {
                let ghost respre = result@;
                proof {
                    assert(bv.skip(i as int) =~= seq![Comp::Ins(s@)] + btail);
                    assert((seq![Comp::Ins(s@)] + btail).first() == Comp::Ins(s@));
                    assert((seq![Comp::Ins(s@)] + btail).drop_first() =~= btail);
                    assert(compose(iter@, seq![Comp::Ins(s@)] + btail) == seq![Comp::Ins(s@)]
                        + compose(iter@, btail));
                    lemma_append_comps_cons(respre, Comp::Ins(s@), compose(iter@, btail));
                    if respre.len() > 0 {
                        lemma_total_len_last(respre);
                    }
                    lemma_app1_merged(respre, Comp::Ins(s@));
                }
                result.append(OpComponent::Ins(copy_chars(s)));
            },
            OpComponent::Del(len0) => {
                let mut length: usize = *len0;
                proof {
                    assert(bv.skip(i as int) =~= seq![Comp::Del(length as int)] + btail);
                }
                while length > 0
                    invariant
                        iter.wf(),
                        nonneg_comps(iter@),
                        nonneg_comps(btail),
                        merged(result@),
                        total0 <= usize::MAX,
                        total_len(result@) >= 0,
                        total_len(iter@) >= 0,
                        total_len(btail) >= 0,
                        total_len(result@) + total_len(iter@) + length as int + total_len(btail)
                            <= total0,
                        append_comps(
                            result@,
                            compose(iter@, seq![Comp::Del(length as int)] + btail),
                        ) == goal,
                    decreases length, iter@.len(),
                {
                    let ghost itv = iter@;
                    let ghost respre = result@;
                    let ghost lenpre = length as int;
                    let ghost brem = seq![Comp::Del(lenpre)] + btail;
                    proof {
                        assert(brem.first() == Comp::Del(lenpre));
                        assert(brem.drop_first() =~= btail);
                        if itv.len() > 0 {
                            assert(nonneg_comps(itv.drop_first())) by {
                                assert(forall|j: int|
                                    0 <= j < itv.drop_first().len()
                                        ==> #[trigger] itv.drop_first()[j] == itv[j + 1]);
                            }
                            lemma_total_len_nonneg(itv.drop_first());
                            assert(total_len(itv) == comp_len(itv.first()) + total_len(
                                itv.drop_first(),
                            ));
                        }
                        if respre.len() > 0 {
                            lemma_total_len_last(respre);
                        }
                    }
                    let chunk = iter.take_del(length);
                    let ghost cv = chunk@;
                    let ghost itafter = iter@;
                    proof {
                        crate::op::lemma_comp_view_nonneg(chunk);
                        if itv.len() > 0 {
                            let h = itv.first();
                            if !is_del(h) && comp_len(h) > lenpre {
                                assert(itafter =~= seq![comp_drop(h, lenpre)] + itv.drop_first());
                                assert(nonneg_comps(itafter)) by {
                                    assert(comp_len(comp_drop(h, lenpre)) >= 0);
                                    assert(forall|j: int|
                                        1 <= j < itafter.len() ==> #[trigger] itafter[j]
                                            == itv.drop_first()[j - 1]);
                                }
                                lemma_total_len_cons(comp_drop(h, lenpre), itv.drop_first());
                                assert(total_len(itafter) == total_len(itv) - lenpre);
                            } else {
                                assert(itafter == itv.drop_first());
                                assert(total_len(itafter) == total_len(itv) - comp_len(h));
                            }
                            assert(comp_len(h) <= total_len(itv));
                        }
                        lemma_total_len_nonneg(itafter);
                        assert(comp_len(cv) <= lenpre + total_len(itv));
                    }
                    match chunk {
                        OpComponent::Skip(n2) => {
                            proof {
                                assert(total_len(respre) + n2 as int <= total0);
                            }
                            result.append(OpComponent::Del(n2));
                            length = length - n2;
                            proof {
                                lemma_app1_merged(respre, Comp::Del(n2 as int));
                                let brem2 = seq![Comp::Del(length as int)] + btail;
                                assert(brem2.first() == Comp::Del(length as int));
                                assert(brem2.drop_first() =~= btail);
                                if itv.len() == 0 {
                                    assert(cv == Comp::Skip(lenpre));
                                    assert(length == 0);
                                    assert(compose(itv, brem) == seq![Comp::Del(lenpre)]
                                        + compose(itv, btail));
                                    lemma_append_comps_cons(
                                        respre,
                                        Comp::Del(lenpre),
                                        compose(itv, btail),
                                    );
                                    assert(compose(itafter, brem2) == compose(itafter, btail));
                                } else {
                                    let h = itv.first();
                                    if comp_len(h) <= 0 {
                                        assert(n2 == 0);
                                        assert(result@ == respre);
                                        assert(brem2 =~= brem);
                                        assert(compose(itv, brem) == compose(itafter, brem));
                                    } else if comp_len(h) <= lenpre {
                                        assert(h == Comp::Skip(n2 as int));
                                        assert(compose(itv, brem) == seq![Comp::Del(n2 as int)]
                                            + compose(
                                            itafter,
                                            seq![Comp::Del(lenpre - n2 as int)] + btail,
                                        ));
                                        assert(seq![Comp::Del(lenpre - n2 as int)] + btail
                                            =~= brem2);
                                        lemma_append_comps_cons(
                                            respre,
                                            Comp::Del(n2 as int),
                                            compose(itafter, brem2),
                                        );
                                    } else {
                                        assert(h is Skip);
                                        assert(cv == comp_take(h, lenpre));
                                        assert(n2 as int == lenpre);
                                        assert(length == 0);
                                        assert(compose(itv, brem) == seq![Comp::Del(lenpre)]
                                            + compose(itafter, btail));
                                        lemma_append_comps_cons(
                                            respre,
                                            Comp::Del(lenpre),
                                            compose(itafter, btail),
                                        );
                                        assert(compose(itafter, brem2) == compose(
                                            itafter,
                                            btail,
                                        ));
                                    }
                                }
                            }
                        },
                        OpComponent::Ins(s2) => {
                            let slen = s2.len();
                            length = length - slen;
                            proof {
                                let brem2 = seq![Comp::Del(length as int)] + btail;
                                assert(brem2.first() == Comp::Del(length as int));
                                assert(brem2.drop_first() =~= btail);
                                let h = itv.first();
                                assert(itv.len() > 0);
                                assert(h is Ins);
                                if comp_len(h) <= 0 {
                                    assert(slen == 0);
                                    assert(brem2 =~= brem);
                                    assert(compose(itv, brem) == compose(itafter, brem));
                                } else if comp_len(h) <= lenpre {
                                    assert(compose(itv, brem) == compose(
                                        itafter,
                                        seq![Comp::Del(lenpre - comp_len(h))] + btail,
                                    ));
                                    assert(seq![Comp::Del(lenpre - comp_len(h))] + btail
                                        =~= brem2);
                                } else {
                                    assert(cv == comp_take(h, lenpre));
                                    assert(comp_len(cv) == lenpre);
                                    assert(length == 0);
                                    assert(compose(itv, brem) == compose(itafter, btail));
                                    assert(compose(itafter, brem2) == compose(itafter, btail));
                                }
                            }
                        },
                        OpComponent::Del(n2) => {
                            proof {
                                assert(itv.len() > 0);
                                assert(is_del(itv.first()));
                                assert(cv == itv.first());
                                assert(total_len(respre) + comp_len(cv) <= total0);
                            }
                            result.append(OpComponent::Del(n2));
                            proof {
                                lemma_app1_merged(respre, cv);
                                assert(compose(itv, brem) == seq![cv] + compose(itafter, brem));
                                lemma_append_comps_cons(respre, cv, compose(itafter, brem));
                            }
                        },
                    }
                }
                proof {
                    let brem0 = seq![Comp::Del(0)] + btail;
                    assert(brem0.first() == Comp::Del(0));
                    assert(brem0.drop_first() =~= btail);
                    assert(compose(iter@, brem0) == compose(iter@, btail));
                }
            },
        }
        i = i + 1;
    }
    proof {
        assert(bv.skip(n as int) =~= Seq::<Comp>::empty());
        assert(compose(iter@, Seq::<Comp>::empty()) == iter@);
        assert(total_len(bv.skip(n as int)) == 0);
    }
    iter.append_rest(&mut result);
    result.trim();
    proof {
        lemma_trim_end_normalized(goal);
    }
    result
}

} // verus!
