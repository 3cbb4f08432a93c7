//! Applying an operation to a document.
//!
//! The document is any editable text that can insert and remove characters at
//! codepoint offsets; [`TextBuffer`] is the provided implementation, holding
//! the document as a vector of characters.

use vstd::prelude::*;

use crate::model::{apply, base_len, fits, len_inserted, nonneg_comps, skip_clamped, take_clamped,
    Comp};
use crate::op::{copy_chars, Op, OpComponent};

verus! {

/// An editable text: a sequence of characters supporting positional insert
/// and remove, with positions and lengths counted in codepoints.
pub trait EditableText {
    /// The characters of the document.
    spec fn text(&self) -> Seq<char>;

    /// Insert the characters of `s` at codepoint offset `pos`.
    fn insert_at(&mut self, pos: usize, s: &Vec<char>)
        requires
            pos as int <= old(self).text().len(),
        ensures
            final(self).text() == old(self).text().take(pos as int) + s@ + old(self).text().skip(
                pos as int,
            ),
    ;

    /// Remove `len` codepoints starting at codepoint offset `pos`.
    fn remove_at(&mut self, pos: usize, len: usize)
        requires
            pos as int + len as int <= old(self).text().len(),
        ensures
            final(self).text() == old(self).text().take(pos as int) + old(self).text().skip(
                pos as int + len as int,
            ),
    ;
}

/// A document held as a vector of characters.
#[derive(Debug, PartialEq, Eq, Clone)]
pub struct TextBuffer {
    chars: Vec<char>,
}

impl View for TextBuffer {
    type V = Seq<char>;

    closed spec fn view(&self) -> Seq<char> {
        self.chars@
    }
}

impl TextBuffer {
    /// The empty document.
    pub fn new() -> (r: TextBuffer)
        ensures
            r@ == Seq::<char>::empty(),
    {
        let r = TextBuffer { chars: Vec::new() };
        proof {
            assert(r@ =~= Seq::<char>::empty());
        }
        r
    }

    /// A document holding the given characters.
    pub fn from_chars(chars: Vec<char>) -> (r: TextBuffer)
        ensures
            r@ == chars@,
    {
        TextBuffer { chars }
    }

    /// The characters of the document.
    pub fn as_chars(&self) -> (r: &Vec<char>)
        ensures
            r@ == self@,
    {
        &self.chars
    }
}

impl EditableText for TextBuffer {
    open spec fn text(&self) -> Seq<char> {
        self@
    }

    fn insert_at(&mut self, pos: usize, s: &Vec<char>) {
        let ghost pre = self.chars@;
        let tail = self.chars.split_off(pos);
        let mut mid = copy_chars(s);
        self.chars.append(&mut mid);
        let mut tl = tail;
        self.chars.append(&mut tl);
        proof {
            assert(self.chars@ =~= pre.take(pos as int) + s@ + pre.skip(pos as int));
        }
    }

    fn remove_at(&mut self, pos: usize, len: usize) {
        let ghost pre = self.chars@;
        let mut tail = self.chars.split_off(pos);
        let tail2 = tail.split_off(len);
        let mut t2 = tail2;
        self.chars.append(&mut t2);
        proof {
            assert(self.chars@ =~= pre.take(pos as int) + pre.skip(pos as int + len as int));
        }
    }
}

/// Apply an operation to a document, in place: skips advance the position,
/// deletes remove the next run, inserts splice in their payload.
pub fn text_apply<S: EditableText>(s: &mut S, op: &Op)
    requires
        fits(old(s).text().len() as int, op@),
        old(s).text().len() + len_inserted(op@) <= usize::MAX,
    ensures
        final(s).text() == apply(old(s).text(), op@),
{
    let ghost d0 = s.text();
    let ghost opv = op@;
    proof {
        crate::op::lemma_op_view_nonneg(op);
        crate::model::lemma_weights_nonneg(opv);
        assert(opv.skip(0) =~= opv);
        assert(d0.take(0) =~= Seq::<char>::empty());
        assert(d0.skip(0) =~= d0);
        assert(Seq::<char>::empty() + apply(d0, opv) =~= apply(d0, opv));
    }
    let mut pos: usize = 0;
    let n = op.component_count();
    let mut i: usize = 0;
    while i < n
        invariant
            i <= n,
            n as int == opv.len(),
            opv == op@,
            nonneg_comps(opv),
            pos as int <= s.text().len(),
            s.text().len() + len_inserted(opv.skip(i as int)) <= usize::MAX,
            pos as int + base_len(opv.skip(i as int)) <= s.text().len(),
            apply(d0, opv) == s.text().take(pos as int) + apply(
                s.text().skip(pos as int),
                opv.skip(i as int),
            ),
        decreases n - i,
    {
        let ghost dcur = s.text();
        let ghost rest = opv.skip(i as int);
        let ghost rest1 = opv.skip(i as int + 1);
        let ghost p = pos as int;
        proof {
            crate::model::lemma_weight_skip_step(opv, i as int);
            assert(rest.first() == opv[i as int]);
            assert(rest.drop_first() =~= rest1);
            assert(nonneg_comps(rest1)) by {
                assert(forall|j: int|
                    0 <= j < rest1.len() ==> #[trigger] rest1[j] == opv[i as int + 1 + j]);
            }
            crate::model::lemma_weights_nonneg(rest1);
        }
        let c = op.component_at(i);
        match c {
            OpComponent::Skip(k) => {
                proof {
                    let kk = *k as int;
                    assert(apply(dcur.skip(p), rest) == take_clamped(dcur.skip(p), kk) + apply(
                        skip_clamped(dcur.skip(p), kk),
                        rest1,
                    ));
                    assert(take_clamped(dcur.skip(p), kk) =~= dcur.subrange(p, p + kk));
                    assert(skip_clamped(dcur.skip(p), kk) =~= dcur.skip(p + kk));
                    assert(dcur.take(p) + dcur.subrange(p, p + kk) =~= dcur.take(p + kk));
                    assert(dcur.take(p) + (dcur.subrange(p, p + kk) + apply(
                        dcur.skip(p + kk),
                        rest1,
                    )) =~= dcur.take(p + kk) + apply(dcur.skip(p + kk), rest1));
                }
                pos = pos + *k;
            },
            OpComponent::Del(k) => {
                proof {
                    let kk = *k as int;
                    assert(apply(dcur.skip(p), rest) == apply(skip_clamped(dcur.skip(p), kk),
                        rest1,
                    ));
                    assert(skip_clamped(dcur.skip(p), kk) =~= dcur.skip(p + kk));
                }
                s.remove_at(pos, *k);
                proof {
                    let kk = *k as int;
                    assert(s.text().take(p) =~= dcur.take(p));
                    assert(s.text().skip(p) =~= dcur.skip(p + kk));
                }
            },
            OpComponent::Ins(t) => {
                proof {
                    assert(apply(dcur.skip(p), rest) == t@ + apply(dcur.skip(p), rest1));
                }
                s.insert_at(pos, t);
                proof {
                    let tl = t@.len() as int;
                    assert(s.text().take(p + tl) =~= dcur.take(p) + t@);
                    assert(s.text().skip(p + tl) =~= dcur.skip(p));
                    assert(dcur.take(p) + (t@ + apply(dcur.skip(p), rest1)) =~= (dcur.take(p) + t@)
                        + apply(dcur.skip(p), rest1));
                }
                pos = pos + t.len();
            },
        }
        i = i + 1;
    }
    proof {
        assert(opv.skip(n as int) =~= Seq::<Comp>::empty());
        assert(apply(s.text().skip(pos as int), Seq::<Comp>::empty()) == s.text().skip(
            pos as int,
        ));
        assert(s.text().take(pos as int) + s.text().skip(pos as int) =~= s.text());
    }
}

} // verus!
