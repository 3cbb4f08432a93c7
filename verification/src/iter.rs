//! A one-directional cursor over the components of a consumed operation.
//!
//! The cursor drives the two-operation walks of composition and
//! transformation. Besides taking components whole, it can take the front of
//! a component split at a requested size, with one kind held indivisible:
//! deletes during composition, inserts during transformation. When the
//! underlying sequence is exhausted, the splitting variants return a skip of
//! the requested size, so a missing tail behaves as an unbounded skip.

use vstd::prelude::*;

use crate::model::{
    append_comps, comp_drop, comp_len, comp_take, is_del, is_ins, merged, nonneg_comps, total_len,
    Comp,
};
use crate::op::{comp_views, copy_component, lemma_comp_view_nonneg, Op, OpComponent};

verus! {

/// A cursor over the remaining components of an operation.
pub struct OpIter {
    head: Option<OpComponent>,
    comps: Vec<OpComponent>,
    idx: usize,
}

impl View for OpIter {
    type V = Seq<Comp>;

    closed spec fn view(&self) -> Seq<Comp> {
        (match self.head {
            Some(c) => seq![c@],
            None => Seq::<Comp>::empty(),
        }) + comp_views(self.comps@).skip(self.idx as int)
    }
}

impl OpIter {
    /// The cursor's bookkeeping is sound: the next component is staged
    /// eagerly, so an empty stage means exhaustion.
    pub closed spec fn wf(&self) -> bool {
        self.idx <= self.comps@.len() && (self.head is None ==> self.idx == self.comps@.len())
    }

    /// Stage the next component if none is staged.
    fn populate(&mut self)
        requires
            old(self).idx <= old(self).comps@.len(),
        ensures
            final(self)@ == old(self)@,
            final(self).wf(),
    {
        let ghost m = comp_views(self.comps@);
        if self.head.is_none() {
            if self.idx < self.comps.len() {
                let c = copy_component(&self.comps[self.idx]);
                proof {
                    assert(c@ == m[old(self).idx as int]);
                }
                self.head = Some(c);
                self.idx = self.idx + 1;
                proof {
                    assert(m.skip(old(self).idx as int) =~= seq![m[old(self).idx as int]] + m.skip(
                        old(self).idx as int + 1,
                    ));
                    assert(final(self)@ == old(self)@);
                }
            }
        }
    }

    /// Whether any component remains.
    pub fn has_next(&self) -> (r: bool)
        requires
            self.wf(),
        ensures
            r == (self@.len() > 0),
    {
        self.head.is_some()
    }

    /// A reference to the next component, without consuming it.
    pub fn peek(&self) -> (r: Option<&OpComponent>)
        requires
            self.wf(),
        ensures
            (r is Some) == (self@.len() > 0),
            r matches Some(c) ==> c@ == self@.first(),
    {
        self.head.as_ref()
    }

    /// Consume and return the next component unchanged.
    pub fn next(&mut self) -> (r: Option<OpComponent>)
        requires
            old(self).wf(),
        ensures
            final(self).wf(),
            old(self)@.len() == 0 ==> r is None && final(self)@ == old(self)@,
            old(self)@.len() > 0 ==> (r matches Some(c) && c@ == old(self)@.first())
                && final(self)@ == old(self)@.drop_first(),
    {
        let r = self.head.take();
        match r {
            None => None,
            Some(c) => {
                proof {
                    assert(old(self)@.drop_first() =~= comp_views(self.comps@).skip(
                        self.idx as int,
                    ));
                }
                self.populate();
                Some(c)
            },
        }
    }

    /// Consume up to `size` codepoints of the next component. A component of
    /// the indivisible kind, or one no longer than `size`, is returned whole;
    /// anything else is split at `size` and the tail stays in the cursor. An
    /// exhausted cursor yields a skip of `size`.
    fn take_indivis(&mut self, size: usize, del_indivis: bool) -> (c: OpComponent)
        requires
            old(self).wf(),
            size >= 1,
        ensures
            final(self).wf(),
            old(self)@.len() == 0 ==> c@ == Comp::Skip(size as int) && final(self)@ == old(self)@,
            old(self)@.len() > 0 && ((if del_indivis {
                is_del(old(self)@.first())
            } else {
                is_ins(old(self)@.first())
            }) || comp_len(old(self)@.first()) <= size as int) ==> c@ == old(self)@.first()
                && final(self)@ == old(self)@.drop_first(),
            old(self)@.len() > 0 && !(if del_indivis {
                is_del(old(self)@.first())
            } else {
                is_ins(old(self)@.first())
            }) && comp_len(old(self)@.first()) > size as int ==> c@ == comp_take(
                old(self)@.first(),
                size as int,
            ) && final(self)@ == seq![comp_drop(old(self)@.first(), size as int)]
                + old(self)@.drop_first(),
    {
        let ghost m = comp_views(self.comps@);
        let hopt = self.head.take();
        match hopt {
            None => {
                proof {
                    assert(old(self)@.len() == 0);
                    assert(final(self)@ == old(self)@);
                }
                OpComponent::Skip(size)
            },
            Some(h) => {
                proof {
                    assert(old(self)@.first() == h@);
                    assert(old(self)@.drop_first() =~= m.skip(old(self).idx as int));
                }
                let indivis = if del_indivis {
                    h.is_del()
                } else {
                    h.is_insert()
                };
                if indivis {
                    self.populate();
                    h
                } else {
                    let (front, rest) = h.split(size);
                    match rest {
                        Some(tail) => {
                            self.head = Some(tail);
                            proof {
                                assert(self@ == seq![comp_drop(old(self)@.first(), size as int)]
                                    + old(self)@.drop_first());
                            }
                            front
                        },
                        None => {
                            self.populate();
                            front
                        },
                    }
                }
            },
        }
    }

    /// Take up to `size` codepoints, holding inserts indivisible.
    pub fn take_ins(&mut self, size: usize) -> (c: OpComponent)
        requires
            old(self).wf(),
            size >= 1,
        ensures
            final(self).wf(),
            old(self)@.len() == 0 ==> c@ == Comp::Skip(size as int) && final(self)@ == old(self)@,
            old(self)@.len() > 0 && (is_ins(old(self)@.first()) || comp_len(old(self)@.first())
                <= size as int) ==> c@ == old(self)@.first()
                && final(self)@ == old(self)@.drop_first(),
            old(self)@.len() > 0 && !is_ins(old(self)@.first()) && comp_len(old(self)@.first())
                > size as int ==> c@ == comp_take(old(self)@.first(), size as int) && final(self)@
                == seq![comp_drop(old(self)@.first(), size as int)] + old(self)@.drop_first(),
            !is_ins(c@) ==> comp_len(c@) <= size as int,
    {
        let c = self.take_indivis(size, false);
        proof {
            lemma_comp_view_nonneg(c);
        }
        c
    }

    /// Take up to `size` codepoints, holding deletes indivisible.
    pub fn take_del(&mut self, size: usize) -> (c: OpComponent)
        requires
            old(self).wf(),
            size >= 1,
        ensures
            final(self).wf(),
            old(self)@.len() == 0 ==> c@ == Comp::Skip(size as int) && final(self)@ == old(self)@,
            old(self)@.len() > 0 && (is_del(old(self)@.first()) || comp_len(old(self)@.first())
                <= size as int) ==> c@ == old(self)@.first()
                && final(self)@ == old(self)@.drop_first(),
            old(self)@.len() > 0 && !is_del(old(self)@.first()) && comp_len(old(self)@.first())
                > size as int ==> c@ == comp_take(old(self)@.first(), size as int) && final(self)@
                == seq![comp_drop(old(self)@.first(), size as int)] + old(self)@.drop_first(),
            !is_del(c@) ==> comp_len(c@) <= size as int,
    {
        let c = self.take_indivis(size, true);
        proof {
            lemma_comp_view_nonneg(c);
        }
        c
    }

    /// Append every remaining component to `op`.
    pub fn append_rest(&mut self, op: &mut Op)
        requires
            old(self).wf(),
            nonneg_comps(old(self)@),
            merged(old(op)@),
            total_len(old(op)@) + total_len(old(self)@) <= usize::MAX,
        ensures
            final(self).wf(),
            final(self)@.len() == 0,
            final(op)@ == append_comps(old(op)@, old(self)@),
            merged(final(op)@),
            total_len(final(op)@) == total_len(old(op)@) + total_len(old(self)@),
    {
        proof {
            crate::model::lemma_total_len_nonneg(old(self)@);
        }
        while self.has_next()
            invariant
                self.wf(),
                nonneg_comps(self@),
                merged(op@),
                total_len(op@) + total_len(self@) == total_len(old(op)@) + total_len(old(self)@),
                total_len(self@) >= 0,
                total_len(old(op)@) + total_len(old(self)@) <= usize::MAX,
                append_comps(op@, self@) == append_comps(old(op)@, old(self)@),
            decreases self@.len(),
        {
            let ghost selfpre = self@;
            let ghost oppre = op@;
            let copt = self.next();
            match copt {
                Some(c) => {
                    proof {
                        assert(c@ == selfpre.first());
                        assert(total_len(selfpre) == comp_len(selfpre.first()) + total_len(
                            selfpre.drop_first(),
                        ));
                        assert(nonneg_comps(self@)) by {
                            assert(forall|i: int|
                                0 <= i < self@.len() ==> #[trigger] self@[i] == selfpre[i + 1]);
                        }
                        crate::model::lemma_total_len_nonneg(self@);
                        if oppre.len() > 0 {
                            assert(nonneg_comps(oppre));
                            crate::model::lemma_total_len_last(oppre);
                        }
                        crate::model::lemma_app1_merged(oppre, c@);
                        crate::model::lemma_append_comps_cons(oppre, c@, selfpre.drop_first());
                        assert(seq![c@] + selfpre.drop_first() =~= selfpre);
                    }
                    op.append(c);
                },
                None => {},
            }
        }
        proof {
            assert(self@.len() == 0);
            assert(self@ =~= Seq::<Comp>::empty());
            assert(append_comps(op@, self@) == op@);
            assert(total_len(self@) == 0);
        }
    }
}

impl Op {
    /// Consume the operation, yielding a cursor over its components.
    pub fn into_iter(self) -> (it: OpIter)
        ensures
            it@ == self@,
            it.wf(),
    {
        let ghost pre = self@;
        let v = self.into_components();
        let mut it = OpIter { head: None, comps: v, idx: 0 };
        proof {
            assert(it@ =~= pre);
        }
        it.populate();
        it
    }
}

} // verus!
