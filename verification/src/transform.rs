//! Rebasing an operation across a concurrent one.

use vstd::prelude::*;

use crate::model::{
    append_comps, comp_drop, comp_len, comp_take, is_ins, lemma_app1_merged,
    lemma_append_comps_cons, lemma_total_len_cons, lemma_total_len_last, lemma_total_len_nonneg,
    lemma_total_len_skip_step, lemma_trim_end_normalized, merged, nonneg_comps, normalize,
    normalized, total_len, transform, Comp,
};
use crate::op::{lemma_op_view_nonneg, Op, OpComponent};

verus! {

/// The tie-breaker for two inserts at the same position: the operation
/// transformed with `Left` keeps its insert in front of the concurrent one.
#[derive(Debug, PartialEq, Eq, Clone, Copy)]
pub enum Side {
    Left,
    Right,
}

/// Rebase `op` across the concurrent `other_op`: skips and deletes of `op`
/// over text deleted by `other_op` vanish, inserts of `op` survive whole, and
/// text inserted by `other_op` is skipped. With `Side::Left`, an insert of
/// `op` at the position of a concurrent insert goes first.
pub fn text_transform(op: Op, other_op: &Op, side: Side) -> (r: Op)
    requires
        total_len(op@) + total_len(other_op@) <= usize::MAX,
    ensures
        r@ == normalize(transform(op@, other_op@, side == Side::Left)),
        normalized(r@),
{
    let ghost av = op@;
    let ghost bv = other_op@;
    let ghost left = (side == Side::Left);
    let ghost goal = append_comps(Seq::<Comp>::empty(), transform(av, bv, left));
    let ghost total0 = total_len(av) + total_len(bv);
    proof {
        lemma_op_view_nonneg(&op);
        lemma_op_view_nonneg(other_op);
        lemma_total_len_nonneg(av);
        lemma_total_len_nonneg(bv);
    }
    let is_left = match side {
        Side::Left => true,
        Side::Right => false,
    };
    let mut result = Op::new();
    let mut iter = op.into_iter();
    let n = other_op.component_count();
    let mut i: usize = 0;
    proof {
        assert(bv.skip(0) =~= bv);
        assert(result@ =~= Seq::<Comp>::empty());
        assert(total_len(result@) == 0);
        assert(merged(result@));
    }
    while i < n
        invariant
            i <= n,
            n as int == bv.len(),
            bv == other_op@,
            nonneg_comps(bv),
            is_left == left,
            iter.wf(),
            nonneg_comps(iter@),
            merged(result@),
            total0 == total_len(av) + total_len(bv),
            total0 <= usize::MAX,
            total_len(result@) >= 0,
            total_len(iter@) >= 0,
            total_len(result@) + total_len(iter@) + total_len(bv.skip(i as int)) <= total0,
            append_comps(result@, transform(iter@, bv.skip(i as int), left)) == goal,
        decreases n - i,
    {
        let ghost btail = bv.skip(i as int + 1);
        proof {
            assert(bv.skip(i as int).first() == bv[i as int]);
            assert(bv.skip(i as int).drop_first() =~= btail);
            lemma_total_len_skip_step(bv, i as int);
            assert(nonneg_comps(btail)) by {
                assert(forall|j: int|
                    0 <= j < btail.len() ==> #[trigger] btail[j] == bv[i as int + 1 + j]);
            }
            lemma_total_len_nonneg(btail);
        }
        let c = other_op.component_at(i);
        match c {
            OpComponent::Skip(len0) => {
                let mut length: usize = *len0;
                proof {
                    assert(bv.skip(i as int) =~= seq![Comp::Skip(length as int)] + btail);
                }
                while length > 0
                    invariant
                        iter.wf(),
                        nonneg_comps(iter@),
                        nonneg_comps(btail),
                        merged(result@),
                        total0 <= usize::MAX,
                        total_len(result@) >= 0,
                        total_len(iter@) >= 0,
                        total_len(btail) >= 0,
                        total_len(result@) + total_len(iter@) + length as int + total_len(btail)
                            <= total0,
                        append_comps(
                            result@,
                            transform(iter@, seq![Comp::Skip(length as int)] + btail, left),
                        ) == goal,
                    decreases length, iter@.len(),
                {
                    let ghost itv = iter@;
                    let ghost respre = result@;
                    let ghost lenpre = length as int;
                    let ghost brem = seq![Comp::Skip(lenpre)] + btail;
                    proof {
                        assert(brem.first() == Comp::Skip(lenpre));
                        assert(brem.drop_first() =~= btail);
                        if itv.len() > 0 {
                            assert(nonneg_comps(itv.drop_first())) by {
                                assert(forall|j: int|
                                    0 <= j < itv.drop_first().len()
                                        ==> #[trigger] itv.drop_first()[j] == itv[j + 1]);
                            }
                            lemma_total_len_nonneg(itv.drop_first());
                            assert(total_len(itv) == comp_len(itv.first()) + total_len(
                                itv.drop_first(),
                            ));
                        }
                        if respre.len() > 0 {
                            lemma_total_len_last(respre);
                        }
                    }
                    let chunk = iter.take_ins(length);
                    let chunk_is_ins = chunk.is_insert();
                    let clen = chunk.len();
                    let ghost cv = chunk@;
                    let ghost itafter = iter@;
                    proof {
                        crate::op::lemma_comp_view_nonneg(chunk);
                        if itv.len() > 0 {
                            let h = itv.first();
                            if !is_ins(h) && comp_len(h) > lenpre {
                                assert(itafter =~= seq![comp_drop(h, lenpre)] + itv.drop_first());
                                assert(nonneg_comps(itafter)) by {
                                    assert(comp_len(comp_drop(h, lenpre)) >= 0);
                                    assert(forall|j: int|
                                        1 <= j < itafter.len() ==> #[trigger] itafter[j]
                                            == itv.drop_first()[j - 1]);
                                }
                                lemma_total_len_cons(comp_drop(h, lenpre), itv.drop_first());
                                assert(total_len(itafter) == total_len(itv) - lenpre);
                            } else {
                                assert(itafter == itv.drop_first());
                                assert(total_len(itafter) == total_len(itv) - comp_len(h));
                            }
                            assert(comp_len(h) <= total_len(itv));
                        }
                        lemma_total_len_nonneg(itafter);
                        assert(comp_len(cv) <= lenpre + total_len(itv));
                        assert(total_len(respre) + comp_len(cv) <= total0);
                    }
                    if !chunk_is_ins {
                        length = length - clen;
                    }
                    result.append(chunk);
                    proof {
                        lemma_app1_merged(respre, cv);
                        let brem2 = seq![Comp::Skip(length as int)] + btail;
                        assert(brem2.first() == Comp::Skip(length as int));
                        assert(brem2.drop_first() =~= btail);
                        if itv.len() == 0 {
                            assert(cv == Comp::Skip(lenpre));
                            assert(length == 0);
                            assert(transform(itv, brem, left) == seq![cv] + transform(
                                itv,
                                btail,
                                left,
                            ));
                            lemma_append_comps_cons(respre, cv, transform(itv, btail, left));
                            assert(transform(itafter, brem2, left) == transform(
                                itafter,
                                btail,
                                left,
                            ));
                        } else {
                            let h = itv.first();
                            if is_ins(h) {
                                assert(brem2 =~= brem);
                                assert(transform(itv, brem, left) == seq![h] + transform(
                                    itafter,
                                    brem,
                                    left,
                                ));
                                lemma_append_comps_cons(respre, cv, transform(itafter, brem, left));
                            } else if comp_len(h) <= 0 {
                                assert(brem2 =~= brem);
                                assert(transform(itv, brem, left) == transform(
                                    itafter,
                                    brem,
                                    left,
                                ));
                                assert(result@ == respre);
                            } else if comp_len(h) <= lenpre {
                                assert(transform(itv, brem, left) == seq![h] + transform(
                                    itafter,
                                    seq![Comp::Skip(lenpre - comp_len(h))] + btail,
                                    left,
                                ));
                                assert(seq![Comp::Skip(lenpre - comp_len(h))] + btail =~= brem2);
                                lemma_append_comps_cons(
                                    respre,
                                    cv,
                                    transform(itafter, brem2, left),
                                );
                            } else {
                                assert(cv == comp_take(h, lenpre));
                                assert(comp_len(cv) == lenpre);
                                assert(length == 0);
                                assert(transform(itv, brem, left) == seq![cv] + transform(
                                    itafter,
                                    btail,
                                    left,
                                ));
                                lemma_append_comps_cons(
                                    respre,
                                    cv,
                                    transform(itafter, btail, left),
                                );
                                assert(transform(itafter, brem2, left) == transform(
                                    itafter,
                                    btail,
                                    left,
                                ));
                            }
                        }
                    }
                }
                proof {
                    let brem0 = seq![Comp::Skip(0)] + btail;
                    assert(brem0.first() == Comp::Skip(0));
                    assert(brem0.drop_first() =~= btail);
                    assert(transform(iter@, brem0, left) == transform(iter@, btail, left));
                }
            },
            OpComponent::Ins(s) => {
                let ghost itv = iter@;
                let ghost respre = result@;
                let ghost bskip = bv.skip(i as int);
                proof {
                    assert(bskip =~= seq![Comp::Ins(s@)] + btail);
                    assert(bskip.first() == Comp::Ins(s@));
                    assert(bskip.drop_first() =~= btail);
                    if itv.len() > 0 {
                        assert(nonneg_comps(itv.drop_first())) by {
                            assert(forall|j: int|
                                0 <= j < itv.drop_first().len() ==> #[trigger] itv.drop_first()[j]
                                    == itv[j + 1]);
                        }
                        lemma_total_len_nonneg(itv.drop_first());
                        assert(total_len(itv) == comp_len(itv.first()) + total_len(
                            itv.drop_first(),
                        ));
                    }
                    if respre.len() > 0 {
                        lemma_total_len_last(respre);
                    }
                }
                if is_left {
                    let take_first = match iter.peek() {
                        Some(pc) => pc.is_insert(),
                        None => false,
                    };
                    if take_first {
                        let copt = iter.next();
                        match copt {
                            Some(cfirst) => {
                                proof {
                                    assert(cfirst@ == itv.first());
                                }
                                result.append(cfirst);
                                proof {
                                    lemma_app1_merged(respre, itv.first());
                                }
                            },
                            None => {},
                        }
                    }
                }
                let ghost resmid = result@;
                let ghost itmid = iter@;
                proof {
                    if respre.len() > 0 {
                        lemma_total_len_last(respre);
                    }
                    if resmid.len() > 0 {
                        lemma_total_len_last(resmid);
                    }
                }
                result.append(OpComponent::Skip(s.len()));
                proof {
                    let k = Comp::Skip(s@.len() as int);
                    lemma_app1_merged(resmid, k);
                    if left && itv.len() > 0 && is_ins(itv.first()) {
                        let h = itv.first();
                        assert(resmid == crate::model::app1(respre, h));
                        assert(itmid == itv.drop_first());
                        assert(transform(itv, bskip, left) == seq![h, k] + transform(
                            itmid,
                            btail,
                            left,
                        ));
                        assert(seq![h, k] + transform(itmid, btail, left) =~= seq![h] + (seq![k]
                            + transform(itmid, btail, left)));
                        lemma_append_comps_cons(
                            respre,
                            h,
                            seq![k] + transform(itmid, btail, left),
                        );
                        lemma_append_comps_cons(resmid, k, transform(itmid, btail, left));
                    } else {
                        assert(resmid == respre);
                        assert(itmid == itv);
                        assert(transform(itv, bskip, left) == seq![k] + transform(
                            itv,
                            btail,
                            left,
                        ));
                        lemma_append_comps_cons(respre, k, transform(itv, btail, left));
                    }
                }
            },
            OpComponent::Del(len0) => {
                let mut length: usize = *len0;
                proof {
                    assert(bv.skip(i as int) =~= seq![Comp::Del(length as int)] + btail);
                }
                while length > 0
                    invariant
                        iter.wf(),
                        nonneg_comps(iter@),
                        nonneg_comps(btail),
                        merged(result@),
                        total0 <= usize::MAX,
                        total_len(result@) >= 0,
                        total_len(iter@) >= 0,
                        total_len(btail) >= 0,
                        total_len(result@) + total_len(iter@) + length as int + total_len(btail)
                            <= total0,
                        append_comps(
                            result@,
                            transform(iter@, seq![Comp::Del(length as int)] + btail, left),
                        ) == goal,
                    decreases length, iter@.len(),
                {
                    let ghost itv = iter@;
                    let ghost respre = result@;
                    let ghost lenpre = length as int;
                    let ghost brem = seq![Comp::Del(lenpre)] + btail;
                    proof {
                        assert(brem.first() == Comp::Del(lenpre));
                        assert(brem.drop_first() =~= btail);
                        if itv.len() > 0 {
                            assert(nonneg_comps(itv.drop_first())) by {
                                assert(forall|j: int|
                                    0 <= j < itv.drop_first().len()
                                        ==> #[trigger] itv.drop_first()[j] == itv[j + 1]);
                            }
                            lemma_total_len_nonneg(itv.drop_first());
                            assert(total_len(itv) == comp_len(itv.first()) + total_len(
                                itv.drop_first(),
                            ));
                        }
                        if respre.len() > 0 {
                            lemma_total_len_last(respre);
                        }
                    }
                    let chunk = iter.take_ins(length);
                    let ghost cv = chunk@;
                    let ghost itafter = iter@;
                    proof {
                        crate::op::lemma_comp_view_nonneg(chunk);
                        if itv.len() > 0 {
                            let h = itv.first();
                            if !is_ins(h) && comp_len(h) > lenpre {
                                assert(itafter =~= seq![comp_drop(h, lenpre)] + itv.drop_first());
                                assert(nonneg_comps(itafter)) by {
                                    assert(comp_len(comp_drop(h, lenpre)) >= 0);
                                    assert(forall|j: int|
                                        1 <= j < itafter.len() ==> #[trigger] itafter[j]
                                            == itv.drop_first()[j - 1]);
                                }
                                lemma_total_len_cons(comp_drop(h, lenpre), itv.drop_first());
                                assert(total_len(itafter) == total_len(itv) - lenpre);
                            } else {
                                assert(itafter == itv.drop_first());
                                assert(total_len(itafter) == total_len(itv) - comp_len(h));
                            }
                            assert(comp_len(h) <= total_len(itv));
                        }
                        lemma_total_len_nonneg(itafter);
                        assert(comp_len(cv) <= lenpre + total_len(itv));
                        assert(total_len(respre) + comp_len(cv) <= total0);
                    }
                    match chunk {
                        OpComponent::Skip(n2) => {
                            length = length - n2;
                            proof {
                                let brem2 = seq![Comp::Del(length as int)] + btail;
                                assert(brem2.first() == Comp::Del(length as int));
                                assert(brem2.drop_first() =~= btail);
                                if itv.len() == 0 {
                                    assert(cv == Comp::Skip(lenpre));
                                    assert(length == 0);
                                    assert(transform(itv, brem, left) == transform(
                                        itv,
                                        btail,
                                        left,
                                    ));
                                    assert(transform(itafter, brem2, left) == transform(
                                        itafter,
                                        btail,
                                        left,
                                    ));
                                } else {
                                    let h = itv.first();
                                    if comp_len(h) <= 0 {
                                        assert(n2 == 0);
                                        assert(brem2 =~= brem);
                                        assert(transform(itv, brem, left) == transform(
                                            itafter,
                                            brem,
                                            left,
                                        ));
                                    } else if comp_len(h) <= lenpre {
                                        assert(transform(itv, brem, left) == transform(
                                            itafter,
                                            seq![Comp::Del(lenpre - comp_len(h))] + btail,
                                            left,
                                        ));
                                        assert(seq![Comp::Del(lenpre - comp_len(h))] + btail
                                            =~= brem2);
                                    } else {
                                        assert(cv == comp_take(h, lenpre));
                                        assert(n2 as int == lenpre);
                                        assert(length == 0);
                                        assert(transform(itv, brem, left) == transform(
                                            itafter,
                                            btail,
                                            left,
                                        ));
                                        assert(transform(itafter, brem2, left) == transform(
                                            itafter,
                                            btail,
                                            left,
                                        ));
                                    }
                                }
                            }
                        },
                        OpComponent::Ins(s2) => {
                            proof {
                                assert(itv.len() > 0);
                                assert(is_ins(itv.first()));
                                assert(cv == itv.first());
                                assert(itafter == itv.drop_first());
                            }
                            result.append(OpComponent::Ins(s2));
                            proof {
                                lemma_app1_merged(respre, cv);
                                assert(transform(itv, brem, left) == seq![cv] + transform(
                                    itafter,
                                    brem,
                                    left,
                                ));
                                lemma_append_comps_cons(
                                    respre,
                                    cv,
                                    transform(itafter, brem, left),
                                );
                            }
                        },
                        OpComponent::Del(n2) => {
                            length = length - n2;
                            proof {
                                let brem2 = seq![Comp::Del(length as int)] + btail;
                                assert(brem2.first() == Comp::Del(length as int));
                                assert(brem2.drop_first() =~= btail);
                                let h = itv.first();
                                assert(itv.len() > 0);
                                if comp_len(h) <= 0 {
                                    assert(n2 == 0);
                                    assert(brem2 =~= brem);
                                    assert(transform(itv, brem, left) == transform(
                                        itafter,
                                        brem,
                                        left,
                                    ));
                                } else if comp_len(h) <= lenpre {
                                    assert(transform(itv, brem, left) == transform(
                                        itafter,
                                        seq![Comp::Del(lenpre - comp_len(h))] + btail,
                                        left,
                                    ));
                                    assert(seq![Comp::Del(lenpre - comp_len(h))] + btail
                                        =~= brem2);
                                } else {
                                    assert(cv == comp_take(h, lenpre));
                                    assert(n2 as int == lenpre);
                                    assert(length == 0);
                                    assert(transform(itv, brem, left) == transform(
                                        itafter,
                                        btail,
                                        left,
                                    ));
                                    assert(transform(itafter, brem2, left) == transform(
                                        itafter,
                                        btail,
                                        left,
                                    ));
                                }
                            }
                        },
                    }
                }
                proof {
                    let brem0 = seq![Comp::Del(0)] + btail;
                    assert(brem0.first() == Comp::Del(0));
                    assert(brem0.drop_first() =~= btail);
                    assert(transform(iter@, brem0, left) == transform(iter@, btail, left));
                }
            },
        }
        i = i + 1;
    }
    proof {
        assert(bv.skip(n as int) =~= Seq::<Comp>::empty());
        assert(transform(iter@, Seq::<Comp>::empty(), left) == iter@);
        assert(total_len(bv.skip(n as int)) == 0);
    }
    iter.append_rest(&mut result);
    result.trim();
    proof {
        lemma_trim_end_normalized(goal);
    }
    result
}

} // verus!
