//! Operations and their components, as executable values.
//!
//! A component stores its insert payload as a vector of characters, so every
//! length and split is counted in Unicode scalar values. An operation owns a
//! sequence of components; [`Op::append`] is the single write primitive and
//! maintains the merge and no-empty invariants incrementally.

use vstd::prelude::*;

use crate::model::{
    app1, append_comps, comp_drop, comp_len, comp_merge, comp_take, is_skip, merged, nonneg_comps,
    normalize, normalized, same_kind, total_len, trim_end, Comp,
};

verus! {

/// One component of an operation: skip, delete or insert.
#[derive(Debug, PartialEq, Eq, Clone)]
pub enum OpComponent {
    /// Advance past the next `n` codepoints of the document.
    Skip(usize),
    /// Remove the next `n` codepoints at the current position.
    Del(usize),
    /// Insert the given characters at the current position.
    Ins(Vec<char>),
}

impl View for OpComponent {
    type V = Comp;

    open spec fn view(&self) -> Comp {
        match self {
            OpComponent::Skip(n) => Comp::Skip(*n as int),
            OpComponent::Del(n) => Comp::Del(*n as int),
            OpComponent::Ins(s) => Comp::Ins(s@),
        }
    }
}

/// The models of a sequence of components.
pub open spec fn comp_views(s: Seq<OpComponent>) -> Seq<Comp> {
    s.map_values(|c: OpComponent| c@)
}

pub broadcast proof fn lemma_comp_view_nonneg(c: OpComponent)
    ensures
        comp_len(#[trigger] c@) >= 0,
{
}

pub broadcast proof fn lemma_comp_views_nonneg(s: Seq<OpComponent>)
    ensures
        nonneg_comps(#[trigger] comp_views(s)),
{
    assert forall|i: int| 0 <= i < comp_views(s).len() implies comp_len(
        #[trigger] comp_views(s)[i],
    ) >= 0 by {
        lemma_comp_view_nonneg(s[i]);
    }
}

pub broadcast proof fn lemma_op_view_nonneg(op: &Op)
    ensures
        nonneg_comps(#[trigger] op@),
{
    lemma_comp_views_nonneg(op.comps@);
}

/// A fresh vector holding the same characters.
pub(crate) fn copy_chars(v: &Vec<char>) -> (r: Vec<char>)
    ensures
        r@ == v@,
{
    let mut r: Vec<char> = Vec::new();
    let mut i: usize = 0;
    while i < v.len()
        invariant
            i <= v@.len(),
            r@ == v@.take(i as int),
        decreases v@.len() - i,
    {
        r.push(v[i]);
        proof {
            assert(v@.take(i + 1 as int) =~= v@.take(i as int).push(v@[i as int]));
        }
        i = i + 1;
    }
    proof {
        assert(v@.take(v@.len() as int) =~= v@);
    }
    r
}

/// A fresh component with the same model.
pub(crate) fn copy_component(c: &OpComponent) -> (r: OpComponent)
    ensures
        r@ == c@,
{
    match c {
        OpComponent::Skip(n) => OpComponent::Skip(*n),
        OpComponent::Del(n) => OpComponent::Del(*n),
        OpComponent::Ins(s) => OpComponent::Ins(copy_chars(s)),
    }
}

impl OpComponent {
    /// The length of the component in codepoints.
    pub fn len(&self) -> (n: usize)
        ensures
            n as int == comp_len(self@),
    {
        match self {
            OpComponent::Skip(n) => *n,
            OpComponent::Del(n) => *n,
            OpComponent::Ins(s) => s.len(),
        }
    }

    /// Whether the component has length zero.
    pub fn is_empty(&self) -> (r: bool)
        ensures
            r == (comp_len(self@) == 0),
    {
        match self {
            OpComponent::Skip(n) => *n == 0,
            OpComponent::Del(n) => *n == 0,
            OpComponent::Ins(s) => s.len() == 0,
        }
    }

    /// Whether the component is an insert.
    pub fn is_insert(&self) -> (r: bool)
        ensures
            r == (self@ is Ins),
    {
        match self {
            OpComponent::Ins(_) => true,
            _ => false,
        }
    }

    /// Whether the component is a delete.
    pub fn is_del(&self) -> (r: bool)
        ensures
            r == (self@ is Del),
    {
        match self {
            OpComponent::Del(_) => true,
            _ => false,
        }
    }

    /// Split the component at `offset` codepoints. A component no longer than
    /// `offset` is returned whole; otherwise the two returned components are
    /// the head of `offset` codepoints and the remaining tail.
    pub fn split(self, offset: usize) -> (r: (OpComponent, Option<OpComponent>))
        requires
            offset >= 1,
        ensures
            comp_len(self@) <= offset as int ==> r.0@ == self@ && r.1 is None,
            comp_len(self@) > offset as int ==> r.0@ == comp_take(self@, offset as int) && (
            r.1 matches Some(t) && t@ == comp_drop(self@, offset as int)),
    {
        match self {
            OpComponent::Skip(n) => {
                if n <= offset {
                    (OpComponent::Skip(n), None)
                } else {
                    (OpComponent::Skip(offset), Some(OpComponent::Skip(n - offset)))
                }
            },
            OpComponent::Del(n) => {
                if n <= offset {
                    (OpComponent::Del(n), None)
                } else {
                    (OpComponent::Del(offset), Some(OpComponent::Del(n - offset)))
                }
            },
            OpComponent::Ins(s) => {
                if s.len() <= offset {
                    (OpComponent::Ins(s), None)
                } else {
                    let ghost sv = s@;
                    let mut head = s;
                    let tail = head.split_off(offset);
                    proof {
                        assert(head@ =~= sv.take(offset as int));
                        assert(tail@ =~= sv.skip(offset as int));
                    }
                    (OpComponent::Ins(head), Some(OpComponent::Ins(tail)))
                }
            },
        }
    }
}

/// An operation: an ordered sequence of components describing a positional
/// edit of a document.
#[derive(Debug, PartialEq, Eq, Clone)]
pub struct Op {
    comps: Vec<OpComponent>,
}

impl View for Op {
    type V = Seq<Comp>;

    closed spec fn view(&self) -> Seq<Comp> {
        comp_views(self.comps@)
    }
}

impl Op {
    /// The empty operation.
    pub fn new() -> (r: Op)
        ensures
            r@ == Seq::<Comp>::empty(),
    {
        let r = Op { comps: Vec::new() };
        proof {
            assert(r@ =~= Seq::<Comp>::empty());
        }
        r
    }

    /// The number of components.
    pub fn component_count(&self) -> (n: usize)
        ensures
            n as int == self@.len(),
    {
        self.comps.len()
    }

    /// The component at index `i`.
    pub fn component_at(&self, i: usize) -> (c: &OpComponent)
        requires
            i < self@.len(),
        ensures
            c@ == self@[i as int],
    {
        &self.comps[i]
    }

    /// The components of the operation.
    pub fn as_components(&self) -> (v: &Vec<OpComponent>)
        ensures
            comp_views(v@) == self@,
    {
        &self.comps
    }

    /// The components, surrendering the operation.
    pub(crate) fn into_components(self) -> (v: Vec<OpComponent>)
        ensures
            comp_views(v@) == self@,
    {
        self.comps
    }

    /// Append a component, ignoring it when empty and merging it into the
    /// last component when the kinds agree.
    pub fn append(&mut self, c: OpComponent)
        requires
            old(self)@.len() > 0 && comp_len(c@) > 0 && same_kind(old(self)@.last(), c@)
                ==> comp_len(old(self)@.last()) + comp_len(c@) <= usize::MAX,
        ensures
            final(self)@ == app1(old(self)@, c@),
    {
        let ghost cv = c@;
        proof {
            lemma_comp_view_nonneg(c);
        }
        if c.is_empty() {
            return ;
        }
        let ghost pre = self@;
        let popped = self.comps.pop();
        proof {
            if pre.len() > 0 {
                assert(comp_views(self.comps@) =~= pre.drop_last());
            }
        }
        match popped {
            None => {
                self.comps.push(c);
                proof {
                    assert(pre.len() == 0);
                    assert(self@ =~= seq![cv]);
                }
            },
            Some(last) => {
                let ghost lv = last@;
                proof {
                    assert(lv == pre.last());
                }
                match (last, c) {
                    (OpComponent::Skip(x), OpComponent::Skip(y)) => {
                        self.comps.push(OpComponent::Skip(x + y));
                        proof {
                            assert(self@ =~= pre.drop_last().push(comp_merge(lv, cv)));
                        }
                    },
                    (OpComponent::Del(x), OpComponent::Del(y)) => {
                        self.comps.push(OpComponent::Del(x + y));
                        proof {
                            assert(self@ =~= pre.drop_last().push(comp_merge(lv, cv)));
                        }
                    },
                    (OpComponent::Ins(x), OpComponent::Ins(y)) => {
                        let mut x2 = x;
                        let mut y2 = y;
                        x2.append(&mut y2);
                        self.comps.push(OpComponent::Ins(x2));
                        proof {
                            assert(self@ =~= pre.drop_last().push(comp_merge(lv, cv)));
                        }
                    },
                    (last2, c2) => {
                        self.comps.push(last2);
                        self.comps.push(c2);
                        proof {
                            assert(last2@ == lv && c2@ == cv);
                            assert(!same_kind(lv, cv));
                            assert(self@ =~= pre.push(cv));
                        }
                    },
                }
            },
        }
    }

    /// Whether the last component is a skip.
    fn ends_in_skip(&self) -> (r: bool)
        ensures
            r == (self@.len() > 0 && is_skip(self@.last())),
    {
        let l = self.comps.len();
        if l == 0 {
            false
        } else {
            match &self.comps[l - 1] {
                OpComponent::Skip(_) => true,
                _ => false,
            }
        }
    }

    /// Drop trailing skips.
    pub(crate) fn trim(&mut self)
        ensures
            final(self)@ == trim_end(old(self)@),
    {
        while self.ends_in_skip()
            invariant
                trim_end(self@) == trim_end(old(self)@),
            decreases self@.len(),
        {
            let ghost pre = self@;
            self.comps.pop();
            proof {
                assert(self@ =~= pre.drop_last());
            }
        }
    }

    /// The normal form of the operation: adjacent same-kind components
    /// merged, empty components dropped, trailing skips trimmed.
    pub fn normalize(self) -> (r: Op)
        requires
            total_len(self@) <= usize::MAX,
        ensures
            r@ == normalize(self@),
            normalized(r@),
    {
        let ghost pre = self@;
        let mut v = self.into_components();
        let mut r = Op::new();
        let mut i: usize = 0;
        let n = v.len();
        proof {
            lemma_comp_views_nonneg(v@);
            assert(pre.take(0) =~= Seq::<Comp>::empty());
        }
        while i < n
            invariant
                i <= n,
                n == v@.len(),
                comp_views(v@) == pre,
                nonneg_comps(pre),
                merged(r@),
                total_len(pre) <= usize::MAX,
                r@ == append_comps(Seq::<Comp>::empty(), pre.take(i as int)),
                total_len(r@) == total_len(pre.take(i as int)),
            decreases n - i,
        {
            let c = copy_component(&v[i]);
            proof {
                assert(c@ == pre[i as int]);
                lemma_comp_view_nonneg(c);
                crate::model::lemma_append_comps_snoc(Seq::<Comp>::empty(), pre.take(i as int), c@);
                assert(pre.take(i as int).push(c@) =~= pre.take(i as int + 1));
                crate::model::lemma_app1_merged(r@, c@);
                crate::model::lemma_total_len_take_step(pre, i as int);
                crate::model::lemma_total_len_take_le(pre, i as int + 1);
                if r@.len() > 0 && comp_len(c@) > 0 && same_kind(r@.last(), c@) {
                    assert(nonneg_comps(r@));
                    crate::model::lemma_total_len_last(r@);
                }
            }
            r.append(c);
            i = i + 1;
        }
        proof {
            assert(pre.take(n as int) =~= pre);
        }
        r.trim();
        proof {
            crate::model::lemma_trim_end_normalized(append_comps(Seq::<Comp>::empty(), pre));
        }
        r
    }

    /// Build an operation from raw components, normalizing them.
    pub fn from_components(v: Vec<OpComponent>) -> (r: Op)
        requires
            total_len(comp_views(v@)) <= usize::MAX,
        ensures
            r@ == normalize(comp_views(v@)),
            normalized(r@),
    {
        let op = Op { comps: v };
        op.normalize()
    }
}

} // verus!
