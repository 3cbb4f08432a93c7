//! The mathematical model of text operations.
//!
//! An operation is a sequence of components, each a skip, delete or insert
//! run measured in Unicode scalar values. The spec functions here define
//! what the executable code computes: the normal form of an operation, the
//! effect of applying an operation to a document, and the component walks
//! performed by composition and transformation.

use vstd::prelude::*;

verus! {

/// One component of an operation, at the specification level.
/// Lengths are mathematical integers; insert payloads are character sequences.
pub enum Comp {
    /// Advance past the next `n` codepoints of the document.
    Skip(int),
    /// Remove the next `n` codepoints of the document.
    Del(int),
    /// Insert the given characters at the current position.
    Ins(Seq<char>),
}

/// The length of a component: the run length for skip and delete,
/// the number of characters for an insert.
pub open spec fn comp_len(c: Comp) -> int {
    match c {
        Comp::Skip(n) => n,
        Comp::Del(n) => n,
        Comp::Ins(s) => s.len() as int,
    }
}

pub open spec fn is_skip(c: Comp) -> bool {
    c is Skip
}

pub open spec fn is_del(c: Comp) -> bool {
    c is Del
}

pub open spec fn is_ins(c: Comp) -> bool {
    c is Ins
}

/// Two components are of the same kind when both skip, both delete or both insert.
pub open spec fn same_kind(a: Comp, b: Comp) -> bool {
    (a is Skip && b is Skip) || (a is Del && b is Del) || (a is Ins && b is Ins)
}

/// Merge two components of the same kind into a single run.
pub open spec fn comp_merge(a: Comp, b: Comp) -> Comp {
    match (a, b) {
        (Comp::Skip(x), Comp::Skip(y)) => Comp::Skip(x + y),
        (Comp::Del(x), Comp::Del(y)) => Comp::Del(x + y),
        (Comp::Ins(s), Comp::Ins(t)) => Comp::Ins(s + t),
        _ => a,
    }
}

/// The first `k` units of a component.
pub open spec fn comp_take(c: Comp, k: int) -> Comp {
    match c {
        Comp::Skip(_) => Comp::Skip(k),
        Comp::Del(_) => Comp::Del(k),
        Comp::Ins(s) => Comp::Ins(s.take(k)),
    }
}

/// A component with its first `k` units removed.
pub open spec fn comp_drop(c: Comp, k: int) -> Comp {
    match c {
        Comp::Skip(n) => Comp::Skip(n - k),
        Comp::Del(n) => Comp::Del(n - k),
        Comp::Ins(s) => Comp::Ins(s.skip(k)),
    }
}

/// Every component has non-negative length. Holds of every operation that
/// executable code can build.
pub open spec fn nonneg_comps(op: Seq<Comp>) -> bool {
    forall|i: int| 0 <= i < op.len() ==> comp_len(#[trigger] op[i]) >= 0
}

/// Every component has positive length.
pub open spec fn no_empty_comps(op: Seq<Comp>) -> bool {
    forall|i: int| 0 <= i < op.len() ==> comp_len(#[trigger] op[i]) > 0
}

/// No component is empty and no two adjacent components share a kind.
pub open spec fn merged(op: Seq<Comp>) -> bool {
    no_empty_comps(op) && forall|i: int|
        0 < i < op.len() ==> !same_kind(op[i - 1], #[trigger] op[i])
}

/// The normal form: merged, and not ending in a skip.
pub open spec fn normalized(op: Seq<Comp>) -> bool {
    merged(op) && (op.len() > 0 ==> !is_skip(op.last()))
}

/// Append one component to an operation, dropping it when empty and merging
/// it into the last component when the kinds agree.
pub open spec fn app1(op: Seq<Comp>, c: Comp) -> Seq<Comp> {
    if comp_len(c) == 0 {
        op
    } else if op.len() == 0 {
        seq![c]
    } else if same_kind(op.last(), c) {
        op.drop_last().push(comp_merge(op.last(), c))
    } else {
        op.push(c)
    }
}

/// Append each component of `cs` in turn.
pub open spec fn append_comps(op: Seq<Comp>, cs: Seq<Comp>) -> Seq<Comp>
    decreases cs.len(),
{
    if cs.len() == 0 {
        op
    } else {
        append_comps(app1(op, cs.first()), cs.drop_first())
    }
}

/// Drop trailing skips.
pub open spec fn trim_end(op: Seq<Comp>) -> Seq<Comp>
    decreases op.len(),
{
    if op.len() > 0 && is_skip(op.last()) {
        trim_end(op.drop_last())
    } else {
        op
    }
}

/// The normal form of an operation: merge and drop empties left to right,
/// then trim trailing skips.
pub open spec fn normalize(op: Seq<Comp>) -> Seq<Comp> {
    trim_end(append_comps(Seq::empty(), op))
}

pub open spec fn skip_weight(c: Comp) -> int {
    match c {
        Comp::Skip(n) => n,
        _ => 0,
    }
}

pub open spec fn del_weight(c: Comp) -> int {
    match c {
        Comp::Del(n) => n,
        _ => 0,
    }
}

pub open spec fn ins_weight(c: Comp) -> int {
    match c {
        Comp::Ins(s) => s.len() as int,
        _ => 0,
    }
}

/// Total codepoints skipped by an operation.
pub open spec fn len_skipped(op: Seq<Comp>) -> int
    decreases op.len(),
{
    if op.len() == 0 {
        0
    } else {
        skip_weight(op.first()) + len_skipped(op.drop_first())
    }
}

/// Total codepoints deleted by an operation.
pub open spec fn len_deleted(op: Seq<Comp>) -> int
    decreases op.len(),
{
    if op.len() == 0 {
        0
    } else {
        del_weight(op.first()) + len_deleted(op.drop_first())
    }
}

/// Total codepoints inserted by an operation.
pub open spec fn len_inserted(op: Seq<Comp>) -> int
    decreases op.len(),
{
    if op.len() == 0 {
        0
    } else {
        ins_weight(op.first()) + len_inserted(op.drop_first())
    }
}

/// The sum of all component lengths.
pub open spec fn total_len(op: Seq<Comp>) -> int
    decreases op.len(),
{
    if op.len() == 0 {
        0
    } else {
        comp_len(op.first()) + total_len(op.drop_first())
    }
}

/// The number of document codepoints an operation consumes: skips plus deletes.
pub open spec fn base_len(op: Seq<Comp>) -> int {
    len_skipped(op) + len_deleted(op)
}

/// An operation fits a document of `doc_len` codepoints when the document is
/// long enough for every skip and delete.
pub open spec fn fits(doc_len: int, op: Seq<Comp>) -> bool {
    base_len(op) <= doc_len
}

/// The first `n` characters of `d`, or all of `d` when it is shorter.
pub open spec fn take_clamped(d: Seq<char>, n: int) -> Seq<char> {
    if n <= 0 {
        Seq::empty()
    } else if n >= d.len() {
        d
    } else {
        d.take(n)
    }
}

/// `d` without its first `n` characters, or empty when `d` is shorter.
pub open spec fn skip_clamped(d: Seq<char>, n: int) -> Seq<char> {
    if n <= 0 {
        d
    } else if n >= d.len() {
        Seq::empty()
    } else {
        d.skip(n)
    }
}

/// The document produced by applying an operation. A skip copies document
/// characters, a delete discards them, an insert contributes its payload,
/// and whatever the operation does not reach is kept unchanged.
pub open spec fn apply(doc: Seq<char>, op: Seq<Comp>) -> Seq<char>
    decreases op.len(),
{
    if op.len() == 0 {
        doc
    } else {
        match op.first() {
            Comp::Skip(n) => take_clamped(doc, n) + apply(skip_clamped(doc, n), op.drop_first()),
            Comp::Del(n) => apply(skip_clamped(doc, n), op.drop_first()),
            Comp::Ins(s) => s + apply(doc, op.drop_first()),
        }
    }
}

/// The length of the leading component, clamped to zero: the middle entry of
/// the termination measure for the two-operation walks.
pub open spec fn hd_len(b: Seq<Comp>) -> int {
    if b.len() > 0 && comp_len(b.first()) > 0 {
        comp_len(b.first())
    } else {
        0
    }
}

/// The component walk of composition, before normalization. `b` runs over the
/// output of `a`; deletes of `a` are indivisible and pass through, inserts of
/// `a` consumed by a delete of `b` cancel, and a missing tail of `a` behaves
/// as an unbounded skip.
pub open spec fn compose(a: Seq<Comp>, b: Seq<Comp>) -> Seq<Comp>
    decreases b.len(), hd_len(b), a.len(),
{
    if b.len() == 0 {
        a
    } else {
        match b.first() {
            Comp::Ins(s) => seq![Comp::Ins(s)] + compose(a, b.drop_first()),
            Comp::Skip(n) => {
                if n <= 0 {
                    compose(a, b.drop_first())
                } else if a.len() == 0 {
                    seq![Comp::Skip(n)] + compose(a, b.drop_first())
                } else {
                    let h = a.first();
                    if is_del(h) {
                        seq![h] + compose(a.drop_first(), b)
                    } else if comp_len(h) <= 0 {
                        compose(a.drop_first(), b)
                    } else if comp_len(h) <= n {
                        seq![h] + compose(
                            a.drop_first(),
                            seq![Comp::Skip(n - comp_len(h))] + b.drop_first(),
                        )
                    } else {
                        seq![comp_take(h, n)] + compose(
                            seq![comp_drop(h, n)] + a.drop_first(),
                            b.drop_first(),
                        )
                    }
                }
            },
            Comp::Del(n) => {
                if n <= 0 {
                    compose(a, b.drop_first())
                } else if a.len() == 0 {
                    seq![Comp::Del(n)] + compose(a, b.drop_first())
                } else {
                    let h = a.first();
                    if is_del(h) {
                        seq![h] + compose(a.drop_first(), b)
                    } else if comp_len(h) <= 0 {
                        compose(a.drop_first(), b)
                    } else if comp_len(h) <= n {
                        match h {
                            Comp::Skip(m) => seq![Comp::Del(m)] + compose(
                                a.drop_first(),
                                seq![Comp::Del(n - m)] + b.drop_first(),
                            ),
                            _ => compose(
                                a.drop_first(),
                                seq![Comp::Del(n - comp_len(h))] + b.drop_first(),
                            ),
                        }
                    } else {
                        match h {
                            Comp::Skip(_) => seq![Comp::Del(n)] + compose(
                                seq![comp_drop(h, n)] + a.drop_first(),
                                b.drop_first(),
                            ),
                            _ => compose(seq![comp_drop(h, n)] + a.drop_first(), b.drop_first()),
                        }
                    }
                }
            },
        }
    }
}

/// The component walk of transformation, before normalization. `a` is rebased
/// across the concurrent `b`; inserts of `a` are indivisible and survive,
/// skips and deletes of `a` over text deleted by `b` vanish, and an insert of
/// `b` becomes a skip. With `left`, an insert of `a` at the same position as
/// an insert of `b` goes first.
pub open spec fn transform(a: Seq<Comp>, b: Seq<Comp>, left: bool) -> Seq<Comp>
    decreases b.len(), hd_len(b), a.len(),
{
    if b.len() == 0 {
        a
    } else {
        match b.first() {
            Comp::Skip(n) => {
                if n <= 0 {
                    transform(a, b.drop_first(), left)
                } else if a.len() == 0 {
                    seq![Comp::Skip(n)] + transform(a, b.drop_first(), left)
                } else {
                    let h = a.first();
                    if is_ins(h) {
                        seq![h] + transform(a.drop_first(), b, left)
                    } else if comp_len(h) <= 0 {
                        transform(a.drop_first(), b, left)
                    } else if comp_len(h) <= n {
                        seq![h] + transform(
                            a.drop_first(),
                            seq![Comp::Skip(n - comp_len(h))] + b.drop_first(),
                            left,
                        )
                    } else {
                        seq![comp_take(h, n)] + transform(
                            seq![comp_drop(h, n)] + a.drop_first(),
                            b.drop_first(),
                            left,
                        )
                    }
                }
            },
            Comp::Ins(s) => {
                if left && a.len() > 0 && is_ins(a.first()) {
                    seq![a.first(), Comp::Skip(s.len() as int)] + transform(
                        a.drop_first(),
                        b.drop_first(),
                        left,
                    )
                } else {
                    seq![Comp::Skip(s.len() as int)] + transform(a, b.drop_first(), left)
                }
            },
            Comp::Del(n) => {
                if n <= 0 {
                    transform(a, b.drop_first(), left)
                } else if a.len() == 0 {
                    transform(a, b.drop_first(), left)
                } else {
                    let h = a.first();
                    if is_ins(h) {
                        seq![h] + transform(a.drop_first(), b, left)
                    } else if comp_len(h) <= 0 {
                        transform(a.drop_first(), b, left)
                    } else if comp_len(h) <= n {
                        transform(
                            a.drop_first(),
                            seq![Comp::Del(n - comp_len(h))] + b.drop_first(),
                            left,
                        )
                    } else {
                        transform(seq![comp_drop(h, n)] + a.drop_first(), b.drop_first(), left)
                    }
                }
            },
        }
    }
}

// ---------------------------------------------------------------------------
// Facts about the sums and the normal form, used by the executable code.
// ---------------------------------------------------------------------------

pub proof fn lemma_total_len_push(s: Seq<Comp>, c: Comp)
    ensures
        total_len(s.push(c)) == total_len(s) + comp_len(c),
    decreases s.len(),
{
    if s.len() == 0 {
        assert(s.push(c).first() == c);
        assert(s.push(c).drop_first() =~= Seq::<Comp>::empty());
        assert(total_len(Seq::<Comp>::empty()) == 0);
        assert(total_len(s) == 0);
        assert(total_len(s.push(c)) == comp_len(c) + total_len(Seq::<Comp>::empty()));
    } else {
        assert(s.push(c).first() == s.first());
        assert(s.push(c).drop_first() =~= s.drop_first().push(c));
        lemma_total_len_push(s.drop_first(), c);
        assert(total_len(s.push(c)) == comp_len(s.first()) + total_len(s.drop_first().push(c)));
        assert(total_len(s) == comp_len(s.first()) + total_len(s.drop_first()));
    }
}

pub proof fn lemma_total_len_nonneg(s: Seq<Comp>)
    requires
        nonneg_comps(s),
    ensures
        total_len(s) >= 0,
    decreases s.len(),
{
    if s.len() > 0 {
        assert(nonneg_comps(s.drop_first())) by {
            assert(forall|i: int|
                0 <= i < s.drop_first().len() ==> #[trigger] s.drop_first()[i] == s[i + 1]);
        }
        lemma_total_len_nonneg(s.drop_first());
        assert(comp_len(s[0]) >= 0);
    }
}

pub proof fn lemma_total_len_last(s: Seq<Comp>)
    requires
        nonneg_comps(s),
        s.len() > 0,
    ensures
        comp_len(s.last()) <= total_len(s),
        total_len(s) >= 0,
    decreases s.len(),
{
    lemma_total_len_nonneg(s);
    assert(s =~= s.drop_last().push(s.last()));
    lemma_total_len_push(s.drop_last(), s.last());
    assert(nonneg_comps(s.drop_last())) by {
        assert(forall|i: int|
            0 <= i < s.drop_last().len() ==> #[trigger] s.drop_last()[i] == s[i]);
    }
    lemma_total_len_nonneg(s.drop_last());
}

pub proof fn lemma_total_len_take_step(s: Seq<Comp>, i: int)
    requires
        0 <= i < s.len(),
    ensures
        total_len(s.take(i + 1)) == total_len(s.take(i)) + comp_len(s[i]),
{
    assert(s.take(i + 1) =~= s.take(i).push(s[i]));
    lemma_total_len_push(s.take(i), s[i]);
}

pub proof fn lemma_total_len_take_le(s: Seq<Comp>, i: int)
    requires
        nonneg_comps(s),
        0 <= i <= s.len(),
    ensures
        total_len(s.take(i)) <= total_len(s),
    decreases s.len() - i,
{
    if i == s.len() {
        assert(s.take(i) =~= s);
    } else {
        lemma_total_len_take_step(s, i);
        lemma_total_len_take_le(s, i + 1);
    }
}

pub proof fn lemma_total_len_skip_step(s: Seq<Comp>, i: int)
    requires
        0 <= i < s.len(),
    ensures
        total_len(s.skip(i)) == comp_len(s[i]) + total_len(s.skip(i + 1)),
{
    assert(s.skip(i).first() == s[i]);
    assert(s.skip(i).drop_first() =~= s.skip(i + 1));
}

pub proof fn lemma_weights_nonneg(s: Seq<Comp>)
    requires
        nonneg_comps(s),
    ensures
        len_skipped(s) >= 0,
        len_deleted(s) >= 0,
        len_inserted(s) >= 0,
        base_len(s) >= 0,
    decreases s.len(),
{
    if s.len() > 0 {
        assert(nonneg_comps(s.drop_first())) by {
            assert(forall|i: int|
                0 <= i < s.drop_first().len() ==> #[trigger] s.drop_first()[i] == s[i + 1]);
        }
        lemma_weights_nonneg(s.drop_first());
        assert(comp_len(s[0]) >= 0);
        assert(skip_weight(s.first()) >= 0 && del_weight(s.first()) >= 0 && ins_weight(s.first())
            >= 0);
    }
}

pub proof fn lemma_weight_skip_step(s: Seq<Comp>, i: int)
    requires
        0 <= i < s.len(),
    ensures
        len_skipped(s.skip(i)) == skip_weight(s[i]) + len_skipped(s.skip(i + 1)),
        len_deleted(s.skip(i)) == del_weight(s[i]) + len_deleted(s.skip(i + 1)),
        len_inserted(s.skip(i)) == ins_weight(s[i]) + len_inserted(s.skip(i + 1)),
        total_len(s.skip(i)) == comp_len(s[i]) + total_len(s.skip(i + 1)),
        base_len(s.skip(i)) == skip_weight(s[i]) + del_weight(s[i]) + base_len(s.skip(i + 1)),
{
    assert(s.skip(i).first() == s[i]);
    assert(s.skip(i).drop_first() =~= s.skip(i + 1));
}

pub proof fn lemma_total_len_cons(x: Comp, rest: Seq<Comp>)
    ensures
        total_len(seq![x] + rest) == comp_len(x) + total_len(rest),
{
    assert((seq![x] + rest).first() == x);
    assert((seq![x] + rest).drop_first() =~= rest);
}

/// `app1` preserves the merge invariant and adds exactly the appended length.
pub proof fn lemma_app1_merged(op: Seq<Comp>, c: Comp)
    requires
        merged(op),
        comp_len(c) >= 0,
    ensures
        merged(app1(op, c)),
        total_len(app1(op, c)) == total_len(op) + comp_len(c),
{
    if comp_len(c) == 0 {
    } else if op.len() == 0 {
        let r = seq![c];
        assert(r.first() == c);
        assert(r.drop_first() =~= Seq::<Comp>::empty());
        assert(total_len(Seq::<Comp>::empty()) == 0);
        assert(total_len(r) == comp_len(c) + total_len(Seq::<Comp>::empty()));
        assert(total_len(op) == 0);
        assert(merged(r));
    } else if same_kind(op.last(), c) {
        let m = comp_merge(op.last(), c);
        let r = op.drop_last().push(m);
        assert(comp_len(m) == comp_len(op.last()) + comp_len(c));
        assert(op =~= op.drop_last().push(op.last()));
        lemma_total_len_push(op.drop_last(), op.last());
        lemma_total_len_push(op.drop_last(), m);
        assert(comp_len(op.last()) > 0);
        assert(merged(r)) by {
            assert(forall|i: int| 0 <= i < r.len() - 1 ==> #[trigger] r[i] == op[i]);
            assert(same_kind(m, op.last()));
            assert(forall|i: int|
                0 <= i < r.len() ==> comp_len(#[trigger] r[i]) > 0);
            assert forall|i: int| 0 < i < r.len() implies !same_kind(r[i - 1], #[trigger] r[i]) by {
                if i < r.len() - 1 {
                    assert(r[i - 1] == op[i - 1] && r[i] == op[i]);
                } else {
                    if 0 < i {
                        assert(r[i - 1] == op[i - 1]);
                        assert(!same_kind(op[i - 1], op[i]));
                        assert(same_kind(op[i], m) && same_kind(m, op[i]));
                        assert(!same_kind(op[i - 1], m)) by {
                            if same_kind(op[i - 1], m) {
                                assert(same_kind(op[i - 1], op[i]));
                            }
                        }
                    }
                }
            }
        }
    } else {
        let r = op.push(c);
        lemma_total_len_push(op, c);
        assert(merged(r)) by {
            assert(forall|i: int| 0 <= i < op.len() ==> #[trigger] r[i] == op[i]);
            assert(r[r.len() - 1] == c);
            assert(forall|i: int|
                0 <= i < r.len() ==> comp_len(#[trigger] r[i]) > 0);
            assert forall|i: int| 0 < i < r.len() implies !same_kind(r[i - 1], #[trigger] r[i]) by {
                if i < r.len() - 1 {
                    assert(r[i - 1] == op[i - 1] && r[i] == op[i]);
                } else {
                    assert(r[i - 1] == op.last() && r[i] == c);
                }
            }
        }
    }
}

/// Appending component by component from the left commutes with `push`.
pub proof fn lemma_append_comps_snoc(p: Seq<Comp>, cs: Seq<Comp>, c: Comp)
    ensures
        append_comps(p, cs.push(c)) == app1(append_comps(p, cs), c),
    decreases cs.len(),
{
    if cs.len() == 0 {
        assert(cs.push(c).first() == c);
        assert(cs.push(c).drop_first() =~= Seq::<Comp>::empty());
        assert(append_comps(p, cs.push(c)) == append_comps(
            app1(p, c),
            Seq::<Comp>::empty(),
        ));
        assert(append_comps(app1(p, c), Seq::<Comp>::empty()) == app1(p, c));
        assert(append_comps(p, cs) == p);
    } else {
        assert(cs.push(c).first() == cs.first());
        assert(cs.push(c).drop_first() =~= cs.drop_first().push(c));
        lemma_append_comps_snoc(app1(p, cs.first()), cs.drop_first(), c);
        assert(append_comps(p, cs.push(c)) == append_comps(
            app1(p, cs.first()),
            cs.drop_first().push(c),
        ));
        assert(append_comps(p, cs) == append_comps(app1(p, cs.first()), cs.drop_first()));
    }
}

/// One step of `append_comps` from the front.
pub proof fn lemma_append_comps_cons(p: Seq<Comp>, c: Comp, cs: Seq<Comp>)
    ensures
        append_comps(p, seq![c] + cs) == append_comps(app1(p, c), cs),
{
    assert((seq![c] + cs).first() == c);
    assert((seq![c] + cs).drop_first() =~= cs);
}

/// Trimming a merged operation yields the normal form.
pub proof fn lemma_trim_end_normalized(op: Seq<Comp>)
    requires
        merged(op),
    ensures
        normalized(trim_end(op)),
    decreases op.len(),
{
    if op.len() > 0 && is_skip(op.last()) {
        assert(merged(op.drop_last())) by {
            assert(forall|i: int|
                0 <= i < op.drop_last().len() ==> #[trigger] op.drop_last()[i] == op[i]);
        }
        lemma_trim_end_normalized(op.drop_last());
    }
}

} // verus!
