//! Laws of the operation algebra.
//!
//! These proof functions state the library's guarantees over the model in
//! [`crate::model`], in the terms the executable contracts use: the normal
//! form is idempotent and well formed, composing or transforming with the
//! empty operation normalizes the other operand, and normalization preserves
//! the codepoint accounting of deletes and inserts.

use vstd::prelude::*;

use crate::model::{
    app1, append_comps, apply, base_len, comp_drop, comp_len, comp_merge, comp_take, compose,
    del_weight, fits, ins_weight, is_del, is_ins, is_skip, lemma_app1_merged,
    lemma_trim_end_normalized,
    lemma_weights_nonneg, len_deleted, len_inserted, len_skipped, merged, no_empty_comps,
    nonneg_comps, normalize, normalized, same_kind, skip_clamped, skip_weight, take_clamped,
    transform, trim_end, Comp,
};

verus! {

proof fn lemma_nonneg_drop_first(s: Seq<Comp>)
    requires
        nonneg_comps(s),
        s.len() > 0,
    ensures
        nonneg_comps(s.drop_first()),
{
    assert(forall|i: int|
        0 <= i < s.drop_first().len() ==> #[trigger] s.drop_first()[i] == s[i + 1]);
}

/// Appending components one by one preserves the merge invariant.
pub proof fn lemma_append_comps_merged(p: Seq<Comp>, cs: Seq<Comp>)
    requires
        merged(p),
        nonneg_comps(cs),
    ensures
        merged(append_comps(p, cs)),
    decreases cs.len(),
{
    if cs.len() > 0 {
        lemma_app1_merged(p, cs.first());
        lemma_nonneg_drop_first(cs);
        lemma_append_comps_merged(app1(p, cs.first()), cs.drop_first());
    }
}

/// The normal form is normalized: no empty component, no adjacent same-kind
/// pair, no trailing skip.
pub proof fn lemma_normalize_normalized(op: Seq<Comp>)
    requires
        nonneg_comps(op),
    ensures
        normalized(normalize(op)),
{
    lemma_append_comps_merged(Seq::<Comp>::empty(), op);
    lemma_trim_end_normalized(append_comps(Seq::<Comp>::empty(), op));
}

proof fn lemma_append_comps_fixpoint_from(x: Seq<Comp>, j: int)
    requires
        merged(x),
        0 <= j <= x.len(),
    ensures
        append_comps(x.take(j), x.skip(j)) == x,
    decreases x.len() - j,
{
    if j == x.len() {
        assert(x.skip(j) =~= Seq::<Comp>::empty());
        assert(x.take(j) =~= x);
    } else {
        assert(x.skip(j).first() == x[j]);
        assert(x.skip(j).drop_first() =~= x.skip(j + 1));
        assert(comp_len(x[j]) > 0);
        if j == 0 {
            assert(x.take(0) =~= Seq::<Comp>::empty());
            assert(app1(x.take(0), x[0]) =~= x.take(1));
        } else {
            assert(x.take(j).last() == x[j - 1]);
            assert(!same_kind(x[j - 1], x[j]));
            assert(app1(x.take(j), x[j]) =~= x.take(j + 1));
        }
        lemma_append_comps_fixpoint_from(x, j + 1);
    }
}

/// A merged operation is unchanged by the merging pass.
pub proof fn lemma_append_comps_fixpoint(x: Seq<Comp>)
    requires
        merged(x),
    ensures
        append_comps(Seq::<Comp>::empty(), x) == x,
{
    assert(x.take(0) =~= Seq::<Comp>::empty());
    assert(x.skip(0) =~= x);
    lemma_append_comps_fixpoint_from(x, 0);
}

/// Normalization is idempotent.
pub proof fn lemma_normalize_idempotent(op: Seq<Comp>)
    requires
        nonneg_comps(op),
    ensures
        normalize(normalize(op)) == normalize(op),
{
    lemma_normalize_normalized(op);
    let m = normalize(op);
    assert(nonneg_comps(m));
    lemma_append_comps_fixpoint(m);
    assert(trim_end(m) == m);
}

/// Transforming across the empty operation only normalizes.
pub proof fn lemma_transform_empty_other(a: Seq<Comp>, left: bool)
    ensures
        normalize(transform(a, Seq::<Comp>::empty(), left)) == normalize(a),
{
}

/// Composing with the empty operation on the right only normalizes.
pub proof fn lemma_compose_empty_second(a: Seq<Comp>)
    ensures
        normalize(compose(a, Seq::<Comp>::empty())) == normalize(a),
{
}

proof fn lemma_compose_empty_first_step(p: Seq<Comp>, b: Seq<Comp>)
    requires
        nonneg_comps(b),
    ensures
        append_comps(p, compose(Seq::<Comp>::empty(), b)) == append_comps(p, b),
    decreases b.len(),
{
    let e = Seq::<Comp>::empty();
    if b.len() > 0 {
        let c = b.first();
        lemma_nonneg_drop_first(b);
        lemma_compose_empty_first_step(app1(p, c), b.drop_first());
        assert(b =~= seq![c] + b.drop_first());
        crate::model::lemma_append_comps_cons(p, c, b.drop_first());
        if comp_len(c) == 0 && !(c is Ins) {
            assert(compose(e, b) == compose(e, b.drop_first()));
            lemma_compose_empty_first_step(p, b.drop_first());
            assert(app1(p, c) == p);
        } else {
            assert(compose(e, b) == seq![c] + compose(e, b.drop_first()));
            crate::model::lemma_append_comps_cons(p, c, compose(e, b.drop_first()));
        }
    }
}

/// Composing with the empty operation on the left only normalizes.
pub proof fn lemma_compose_empty_first(b: Seq<Comp>)
    requires
        nonneg_comps(b),
    ensures
        normalize(compose(Seq::<Comp>::empty(), b)) == normalize(b),
{
    lemma_compose_empty_first_step(Seq::<Comp>::empty(), b);
}

/// Every component of the operation is a skip.
pub open spec fn all_skips(x: Seq<Comp>) -> bool {
    forall|i: int| 0 <= i < x.len() ==> is_skip(#[trigger] x[i])
}

proof fn lemma_transform_empty_op_all_skips(b: Seq<Comp>, left: bool)
    ensures
        all_skips(transform(Seq::<Comp>::empty(), b, left)),
    decreases b.len(),
{
    let e = Seq::<Comp>::empty();
    if b.len() > 0 {
        lemma_transform_empty_op_all_skips(b.drop_first(), left);
        match b.first() {
            Comp::Skip(n) => {
                if n > 0 {
                    let r = seq![Comp::Skip(n)] + transform(e, b.drop_first(), left);
                    assert(all_skips(r)) by {
                        assert(forall|i: int|
                            1 <= i < r.len() ==> #[trigger] r[i] == transform(
                                e,
                                b.drop_first(),
                                left,
                            )[i - 1]);
                    }
                }
            },
            Comp::Ins(s) => {
                let r = seq![Comp::Skip(s.len() as int)] + transform(e, b.drop_first(), left);
                assert(all_skips(r)) by {
                    assert(forall|i: int|
                        1 <= i < r.len() ==> #[trigger] r[i] == transform(
                            e,
                            b.drop_first(),
                            left,
                        )[i - 1]);
                }
            },
            Comp::Del(_) => {
            },
        }
    }
}

proof fn lemma_append_comps_all_skips(p: Seq<Comp>, x: Seq<Comp>)
    requires
        all_skips(p),
        all_skips(x),
    ensures
        all_skips(append_comps(p, x)),
    decreases x.len(),
{
    if x.len() > 0 {
        let c = x.first();
        assert(is_skip(c));
        assert(all_skips(app1(p, c))) by {
            if comp_len(c) == 0 {
            } else if p.len() == 0 {
                assert(app1(p, c) == seq![c]);
                assert(forall|i: int| 0 <= i < seq![c].len() ==> #[trigger] seq![c][i] == c);
            } else if same_kind(p.last(), c) {
                let r = p.drop_last().push(comp_merge(p.last(), c));
                assert(is_skip(comp_merge(p.last(), c)));
                assert(forall|i: int|
                    0 <= i < r.len() - 1 ==> #[trigger] r[i] == p.drop_last()[i]);
            } else {
                assert(is_skip(p.last()) && is_skip(c));
                assert(false);
            }
        }
        assert(all_skips(x.drop_first())) by {
            assert(forall|i: int|
                0 <= i < x.drop_first().len() ==> #[trigger] x.drop_first()[i] == x[i + 1]);
        }
        lemma_append_comps_all_skips(app1(p, c), x.drop_first());
    }
}

proof fn lemma_trim_end_all_skips(x: Seq<Comp>)
    requires
        all_skips(x),
    ensures
        trim_end(x) == Seq::<Comp>::empty(),
    decreases x.len(),
{
    if x.len() > 0 {
        assert(is_skip(x.last()));
        assert(all_skips(x.drop_last())) by {
            assert(forall|i: int|
                0 <= i < x.drop_last().len() ==> #[trigger] x.drop_last()[i] == x[i]);
        }
        lemma_trim_end_all_skips(x.drop_last());
    } else {
        assert(x =~= Seq::<Comp>::empty());
    }
}

/// Transforming the empty operation yields the empty operation.
pub proof fn lemma_transform_empty_op(b: Seq<Comp>, left: bool)
    ensures
        normalize(transform(Seq::<Comp>::empty(), b, left)) == Seq::<Comp>::empty(),
{
    let t = transform(Seq::<Comp>::empty(), b, left);
    lemma_transform_empty_op_all_skips(b, left);
    lemma_append_comps_all_skips(Seq::<Comp>::empty(), t);
    lemma_trim_end_all_skips(append_comps(Seq::<Comp>::empty(), t));
}

proof fn lemma_weights_push(s: Seq<Comp>, c: Comp)
    ensures
        len_skipped(s.push(c)) == len_skipped(s) + skip_weight(c),
        len_deleted(s.push(c)) == len_deleted(s) + del_weight(c),
        len_inserted(s.push(c)) == len_inserted(s) + ins_weight(c),
    decreases s.len(),
{
    if s.len() == 0 {
        assert(s.push(c).first() == c);
        assert(s.push(c).drop_first() =~= Seq::<Comp>::empty());
        assert(len_skipped(Seq::<Comp>::empty()) == 0);
        assert(len_deleted(Seq::<Comp>::empty()) == 0);
        assert(len_inserted(Seq::<Comp>::empty()) == 0);
        assert(len_skipped(s) == 0 && len_deleted(s) == 0 && len_inserted(s) == 0);
    } else {
        assert(s.push(c).first() == s.first());
        assert(s.push(c).drop_first() =~= s.drop_first().push(c));
        lemma_weights_push(s.drop_first(), c);
        assert(len_skipped(s) == skip_weight(s.first()) + len_skipped(s.drop_first()));
        assert(len_deleted(s) == del_weight(s.first()) + len_deleted(s.drop_first()));
        assert(len_inserted(s) == ins_weight(s.first()) + len_inserted(s.drop_first()));
    }
}

proof fn lemma_app1_weights(op: Seq<Comp>, c: Comp)
    requires
        comp_len(c) >= 0,
    ensures
        len_skipped(app1(op, c)) == len_skipped(op) + skip_weight(c),
        len_deleted(app1(op, c)) == len_deleted(op) + del_weight(c),
        len_inserted(app1(op, c)) == len_inserted(op) + ins_weight(c),
{
    if comp_len(c) == 0 {
        assert(skip_weight(c) == 0 && del_weight(c) == 0 && ins_weight(c) == 0);
    } else if op.len() == 0 {
        lemma_weights_push(Seq::<Comp>::empty(), c);
        assert(seq![c] =~= Seq::<Comp>::empty().push(c));
    } else if same_kind(op.last(), c) {
        let m = comp_merge(op.last(), c);
        assert(op =~= op.drop_last().push(op.last()));
        lemma_weights_push(op.drop_last(), op.last());
        lemma_weights_push(op.drop_last(), m);
        assert(skip_weight(m) == skip_weight(op.last()) + skip_weight(c));
        assert(del_weight(m) == del_weight(op.last()) + del_weight(c));
        assert(ins_weight(m) == ins_weight(op.last()) + ins_weight(c));
    } else {
        lemma_weights_push(op, c);
    }
}

proof fn lemma_append_comps_weights(p: Seq<Comp>, cs: Seq<Comp>)
    requires
        nonneg_comps(cs),
    ensures
        len_skipped(append_comps(p, cs)) == len_skipped(p) + len_skipped(cs),
        len_deleted(append_comps(p, cs)) == len_deleted(p) + len_deleted(cs),
        len_inserted(append_comps(p, cs)) == len_inserted(p) + len_inserted(cs),
    decreases cs.len(),
{
    if cs.len() == 0 {
        assert(len_skipped(cs) == 0 && len_deleted(cs) == 0 && len_inserted(cs) == 0);
    } else {
        let c = cs.first();
        lemma_app1_weights(p, c);
        lemma_nonneg_drop_first(cs);
        lemma_append_comps_weights(app1(p, c), cs.drop_first());
        assert(len_skipped(cs) == skip_weight(c) + len_skipped(cs.drop_first()));
        assert(len_deleted(cs) == del_weight(c) + len_deleted(cs.drop_first()));
        assert(len_inserted(cs) == ins_weight(c) + len_inserted(cs.drop_first()));
    }
}

proof fn lemma_trim_end_weights(x: Seq<Comp>)
    requires
        nonneg_comps(x),
    ensures
        len_deleted(trim_end(x)) == len_deleted(x),
        len_inserted(trim_end(x)) == len_inserted(x),
        len_skipped(trim_end(x)) <= len_skipped(x),
    decreases x.len(),
{
    if x.len() > 0 && is_skip(x.last()) {
        assert(x =~= x.drop_last().push(x.last()));
        lemma_weights_push(x.drop_last(), x.last());
        assert(skip_weight(x.last()) >= 0);
        assert(del_weight(x.last()) == 0 && ins_weight(x.last()) == 0);
        assert(nonneg_comps(x.drop_last())) by {
            assert(forall|i: int|
                0 <= i < x.drop_last().len() ==> #[trigger] x.drop_last()[i] == x[i]);
        }
        lemma_trim_end_weights(x.drop_last());
    }
}

/// Normalization preserves the deleted and inserted codepoint counts and
/// never increases the skipped count; the skipped count shrinks exactly when
/// a trailing skip is trimmed.
pub proof fn lemma_normalize_accounting(op: Seq<Comp>)
    requires
        nonneg_comps(op),
    ensures
        len_deleted(normalize(op)) == len_deleted(op),
        len_inserted(normalize(op)) == len_inserted(op),
        len_skipped(normalize(op)) <= len_skipped(op),
{
    let m = append_comps(Seq::<Comp>::empty(), op);
    lemma_append_comps_weights(Seq::<Comp>::empty(), op);
    assert(len_skipped(Seq::<Comp>::empty()) == 0);
    assert(len_deleted(Seq::<Comp>::empty()) == 0);
    assert(len_inserted(Seq::<Comp>::empty()) == 0);
    assert(nonneg_comps(m)) by {
        lemma_append_comps_merged(Seq::<Comp>::empty(), op);
    }
    lemma_trim_end_weights(m);
}

/// Normalization preserves the skip and delete accounting exactly when the
/// merged sequence carries no trailing skip to trim.
pub proof fn lemma_normalize_base_len(op: Seq<Comp>)
    requires
        nonneg_comps(op),
        append_comps(Seq::<Comp>::empty(), op).len() > 0 ==> !is_skip(
            append_comps(Seq::<Comp>::empty(), op).last(),
        ),
    ensures
        len_skipped(normalize(op)) == len_skipped(op),
        len_deleted(normalize(op)) == len_deleted(op),
        len_inserted(normalize(op)) == len_inserted(op),
        base_len(normalize(op)) == base_len(op),
{
    let m = append_comps(Seq::<Comp>::empty(), op);
    lemma_append_comps_weights(Seq::<Comp>::empty(), op);
    assert(len_skipped(Seq::<Comp>::empty()) == 0);
    assert(len_deleted(Seq::<Comp>::empty()) == 0);
    assert(len_inserted(Seq::<Comp>::empty()) == 0);
    assert(trim_end(m) == m);
}

proof fn lemma_clamp_skip_skip(d: Seq<char>, x: int, y: int)
    requires
        x >= 0,
        y >= 0,
    ensures
        skip_clamped(skip_clamped(d, x), y) == skip_clamped(d, x + y),
{
    assert(skip_clamped(skip_clamped(d, x), y) =~= skip_clamped(d, x + y));
}

proof fn lemma_clamp_concat_long(p: Seq<char>, x: Seq<char>, n: int)
    requires
        p.len() <= n,
    ensures
        take_clamped(p + x, n) == p + take_clamped(x, n - p.len()),
        skip_clamped(p + x, n) == skip_clamped(x, n - p.len()),
{
    assert(take_clamped(p + x, n) =~= p + take_clamped(x, n - p.len()));
    assert(skip_clamped(p + x, n) =~= skip_clamped(x, n - p.len()));
}

proof fn lemma_clamp_concat_short(p: Seq<char>, x: Seq<char>, n: int)
    requires
        0 <= n <= p.len(),
    ensures
        take_clamped(p + x, n) == take_clamped(p, n),
        skip_clamped(p + x, n) == skip_clamped(p, n) + x,
{
    assert(take_clamped(p + x, n) =~= take_clamped(p, n));
    assert(skip_clamped(p + x, n) =~= skip_clamped(p, n) + x);
}

proof fn lemma_clamp_split_parts(d: Seq<char>, n: int, m: int)
    requires
        0 <= n <= m <= d.len(),
    ensures
        take_clamped(take_clamped(d, m), n) == take_clamped(d, n),
        skip_clamped(take_clamped(d, m), n) == take_clamped(skip_clamped(d, n), m - n),
{
    assert(take_clamped(take_clamped(d, m), n) =~= take_clamped(d, n));
    assert(skip_clamped(take_clamped(d, m), n) =~= take_clamped(skip_clamped(d, n), m - n));
}

proof fn lemma_clamp_whole(d: Seq<char>, k: int)
    requires
        k >= 0,
    ensures
        take_clamped(d, k) + skip_clamped(d, k) == d,
{
    assert(take_clamped(d, k) + skip_clamped(d, k) =~= d);
}

/// Applying an operation that fits changes the document length by the
/// inserted minus the deleted codepoints.
pub proof fn lemma_apply_len(d: Seq<char>, op: Seq<Comp>)
    requires
        nonneg_comps(op),
        fits(d.len() as int, op),
    ensures
        apply(d, op).len() == d.len() - len_deleted(op) + len_inserted(op),
    decreases op.len(),
{
    lemma_weights_nonneg(op);
    if op.len() > 0 {
        let rest = op.drop_first();
        assert(nonneg_comps(rest)) by {
            lemma_nonneg_drop_first(op);
        }
        lemma_weights_nonneg(rest);
        assert(len_skipped(op) == skip_weight(op.first()) + len_skipped(rest));
        assert(len_deleted(op) == del_weight(op.first()) + len_deleted(rest));
        assert(len_inserted(op) == ins_weight(op.first()) + len_inserted(rest));
        match op.first() {
            Comp::Skip(n) => {
                assert(n + base_len(rest) <= d.len());
                assert(take_clamped(d, n).len() == n);
                assert(skip_clamped(d, n).len() == d.len() - n);
                lemma_apply_len(skip_clamped(d, n), rest);
            },
            Comp::Del(n) => {
                assert(n + base_len(rest) <= d.len());
                assert(skip_clamped(d, n).len() == d.len() - n);
                lemma_apply_len(skip_clamped(d, n), rest);
            },
            Comp::Ins(s) => {
                lemma_apply_len(d, rest);
            },
        }
    }
}

proof fn lemma_weights_cons(c: Comp, rest: Seq<Comp>)
    ensures
        len_skipped(seq![c] + rest) == skip_weight(c) + len_skipped(rest),
        len_deleted(seq![c] + rest) == del_weight(c) + len_deleted(rest),
        len_inserted(seq![c] + rest) == ins_weight(c) + len_inserted(rest),
        base_len(seq![c] + rest) == skip_weight(c) + del_weight(c) + base_len(rest),
{
    assert((seq![c] + rest).first() == c);
    assert((seq![c] + rest).drop_first() =~= rest);
}

proof fn lemma_nonneg_cons(c: Comp, rest: Seq<Comp>)
    requires
        comp_len(c) >= 0,
        nonneg_comps(rest),
    ensures
        nonneg_comps(seq![c] + rest),
{
    let r = seq![c] + rest;
    assert(forall|i: int| 1 <= i < r.len() ==> #[trigger] r[i] == rest[i - 1]);
    assert(r[0] == c);
}

proof fn lemma_nonneg_app1(p: Seq<Comp>, c: Comp)
    requires
        nonneg_comps(p),
        comp_len(c) >= 0,
    ensures
        nonneg_comps(app1(p, c)),
{
    if comp_len(c) == 0 {
    } else if p.len() == 0 {
        assert(forall|i: int| 0 <= i < seq![c].len() ==> #[trigger] seq![c][i] == c);
    } else if same_kind(p.last(), c) {
        let r = p.drop_last().push(comp_merge(p.last(), c));
        assert(comp_len(comp_merge(p.last(), c)) == comp_len(p.last()) + comp_len(c));
        assert(forall|i: int| 0 <= i < r.len() - 1 ==> #[trigger] r[i] == p.drop_last()[i]);
        assert(forall|i: int|
            0 <= i < p.drop_last().len() ==> #[trigger] p.drop_last()[i] == p[i]);
    } else {
        assert(forall|i: int| 0 <= i < p.len() ==> #[trigger] p.push(c)[i] == p[i]);
    }
}

/// If two tails produce the same document from every start, so do the
/// operations with a common prefix prepended.
proof fn lemma_apply_prefix_cong(d: Seq<char>, u: Seq<Comp>, v: Seq<Comp>, w: Seq<Comp>)
    requires
        forall|dd: Seq<char>| #[trigger] apply(dd, v) == apply(dd, w),
    ensures
        apply(d, u + v) == apply(d, u + w),
    decreases u.len(),
{
    if u.len() == 0 {
        assert(u + v =~= v);
        assert(u + w =~= w);
        assert(apply(d, v) == apply(d, w));
    } else {
        let c = u.first();
        assert((u + v).first() == c);
        assert((u + v).drop_first() =~= u.drop_first() + v);
        assert((u + w).first() == c);
        assert((u + w).drop_first() =~= u.drop_first() + w);
        match c {
            Comp::Skip(n) => {
                lemma_apply_prefix_cong(skip_clamped(d, n), u.drop_first(), v, w);
            },
            Comp::Del(n) => {
                lemma_apply_prefix_cong(skip_clamped(d, n), u.drop_first(), v, w);
            },
            Comp::Ins(_) => {
                lemma_apply_prefix_cong(d, u.drop_first(), v, w);
            },
        }
    }
}

proof fn lemma_apply_drop_empty(c0: Comp, y: Seq<Comp>)
    requires
        comp_len(c0) == 0,
    ensures
        forall|dd: Seq<char>| #[trigger] apply(dd, seq![c0] + y) == apply(dd, y),
{
    assert forall|dd: Seq<char>| #[trigger] apply(dd, seq![c0] + y) == apply(dd, y) by {
        assert((seq![c0] + y).first() == c0);
        assert((seq![c0] + y).drop_first() =~= y);
        match c0 {
            Comp::Skip(n) => {
                assert(take_clamped(dd, n) =~= Seq::<char>::empty());
                assert(skip_clamped(dd, n) == dd);
                assert(Seq::<char>::empty() + apply(dd, y) =~= apply(dd, y));
            },
            Comp::Del(n) => {
                assert(skip_clamped(dd, n) == dd);
            },
            Comp::Ins(s) => {
                assert(s + apply(dd, y) =~= apply(dd, y));
            },
        }
    }
}

proof fn lemma_apply_merge_pair(x: Comp, c: Comp, y: Seq<Comp>)
    requires
        same_kind(x, c),
        comp_len(x) >= 0,
        comp_len(c) >= 0,
    ensures
        forall|dd: Seq<char>| #[trigger] apply(dd, seq![comp_merge(x, c)] + y) == apply(
            dd,
            seq![x, c] + y,
        ),
{
    let m = comp_merge(x, c);
    assert forall|dd: Seq<char>| #[trigger] apply(dd, seq![m] + y) == apply(
        dd,
        seq![x, c] + y,
    ) by {
        assert((seq![m] + y).first() == m);
        assert((seq![m] + y).drop_first() =~= y);
        assert((seq![x, c] + y).first() == x);
        assert((seq![x, c] + y).drop_first() =~= seq![c] + y);
        assert((seq![c] + y).first() == c);
        assert((seq![c] + y).drop_first() =~= y);
        match (x, c) {
            (Comp::Skip(p), Comp::Skip(q)) => {
                lemma_clamp_skip_skip(dd, p, q);
                assert(m == Comp::Skip(p + q));
                assert(apply(dd, seq![m] + y) == take_clamped(dd, p + q) + apply(
                    skip_clamped(dd, p + q),
                    y,
                ));
                assert(apply(dd, seq![x, c] + y) == take_clamped(dd, p) + apply(
                    skip_clamped(dd, p),
                    seq![c] + y,
                ));
                assert(apply(skip_clamped(dd, p), seq![c] + y) == take_clamped(
                    skip_clamped(dd, p),
                    q,
                ) + apply(skip_clamped(skip_clamped(dd, p), q), y));
                assert(take_clamped(dd, p) + take_clamped(skip_clamped(dd, p), q) =~= take_clamped(
                    dd,
                    p + q,
                ));
                assert(take_clamped(dd, p) + (take_clamped(skip_clamped(dd, p), q) + apply(
                    skip_clamped(dd, p + q),
                    y,
                )) =~= (take_clamped(dd, p) + take_clamped(skip_clamped(dd, p), q)) + apply(
                    skip_clamped(dd, p + q),
                    y,
                ));
            },
            (Comp::Del(p), Comp::Del(q)) => {
                lemma_clamp_skip_skip(dd, p, q);
                assert(m == Comp::Del(p + q));
                assert(apply(dd, seq![m] + y) == apply(skip_clamped(dd, p + q), y));
                assert(apply(dd, seq![x, c] + y) == apply(skip_clamped(dd, p), seq![c] + y));
                assert(apply(skip_clamped(dd, p), seq![c] + y) == apply(
                    skip_clamped(skip_clamped(dd, p), q),
                    y,
                ));
            },
            (Comp::Ins(s), Comp::Ins(t)) => {
                assert(m == Comp::Ins(s + t));
                assert(apply(dd, seq![m] + y) == (s + t) + apply(dd, y));
                assert(apply(dd, seq![x, c] + y) == s + apply(dd, seq![c] + y));
                assert(apply(dd, seq![c] + y) == t + apply(dd, y));
                assert((s + t) + apply(dd, y) =~= s + (t + apply(dd, y)));
            },
            _ => {
                assert(false);
            },
        }
    }
}

/// The merging pass does not change what applying the operation produces.
proof fn lemma_apply_append_comps(d: Seq<char>, p: Seq<Comp>, x: Seq<Comp>)
    requires
        nonneg_comps(p),
        nonneg_comps(x),
    ensures
        apply(d, append_comps(p, x)) == apply(d, p + x),
    decreases x.len(),
{
    if x.len() == 0 {
        assert(p + x =~= p);
    } else {
        let c = x.first();
        let xt = x.drop_first();
        assert(comp_len(c) >= 0);
        lemma_nonneg_app1(p, c);
        lemma_nonneg_drop_first(x);
        lemma_apply_append_comps(d, app1(p, c), xt);
        if comp_len(c) == 0 {
            lemma_apply_drop_empty(c, xt);
            lemma_apply_prefix_cong(d, p, seq![c] + xt, xt);
            assert(p + (seq![c] + xt) =~= p + x);
            assert(app1(p, c) == p);
            assert(p + xt =~= app1(p, c) + xt);
        } else if p.len() > 0 && same_kind(p.last(), c) {
            let m = comp_merge(p.last(), c);
            lemma_apply_merge_pair(p.last(), c, xt);
            lemma_apply_prefix_cong(d, p.drop_last(), seq![m] + xt, seq![p.last(), c] + xt);
            assert(app1(p, c) + xt =~= p.drop_last() + (seq![m] + xt));
            assert(p.drop_last() + (seq![p.last(), c] + xt) =~= p + x);
        } else {
            assert(app1(p, c) + xt =~= p + x);
        }
    }
}

proof fn lemma_apply_snoc_skip(d: Seq<char>, z: Seq<Comp>, k: int)
    requires
        k >= 0,
    ensures
        apply(d, z.push(Comp::Skip(k))) == apply(d, z),
    decreases z.len(),
{
    if z.len() == 0 {
        assert(z.push(Comp::Skip(k)).first() == Comp::Skip(k));
        assert(z.push(Comp::Skip(k)).drop_first() =~= Seq::<Comp>::empty());
        assert(apply(d, z.push(Comp::Skip(k))) == take_clamped(d, k) + apply(
            skip_clamped(d, k),
            Seq::<Comp>::empty(),
        ));
        assert(apply(skip_clamped(d, k), Seq::<Comp>::empty()) == skip_clamped(d, k));
        lemma_clamp_whole(d, k);
        assert(apply(d, z) == d);
    } else {
        assert(z.push(Comp::Skip(k)).first() == z.first());
        assert(z.push(Comp::Skip(k)).drop_first() =~= z.drop_first().push(Comp::Skip(k)));
        match z.first() {
            Comp::Skip(n) => {
                lemma_apply_snoc_skip(skip_clamped(d, n), z.drop_first(), k);
            },
            Comp::Del(n) => {
                lemma_apply_snoc_skip(skip_clamped(d, n), z.drop_first(), k);
            },
            Comp::Ins(_) => {
                lemma_apply_snoc_skip(d, z.drop_first(), k);
            },
        }
    }
}

proof fn lemma_apply_trim_end(d: Seq<char>, x: Seq<Comp>)
    requires
        nonneg_comps(x),
    ensures
        apply(d, trim_end(x)) == apply(d, x),
    decreases x.len(),
{
    if x.len() > 0 && is_skip(x.last()) {
        let k = comp_len(x.last());
        assert(x.last() == Comp::Skip(k));
        assert(x =~= x.drop_last().push(Comp::Skip(k)));
        lemma_apply_snoc_skip(d, x.drop_last(), k);
        assert(nonneg_comps(x.drop_last())) by {
            assert(forall|i: int|
                0 <= i < x.drop_last().len() ==> #[trigger] x.drop_last()[i] == x[i]);
        }
        lemma_apply_trim_end(d, x.drop_last());
    }
}

/// No two adjacent components are both inserts.
pub open spec fn no_adjacent_ins(x: Seq<Comp>) -> bool {
    forall|i: int| 0 < i < x.len() ==> !(is_ins(x[i - 1]) && is_ins(#[trigger] x[i]))
}

proof fn lemma_no_empty_drop_first(s: Seq<Comp>)
    requires
        no_empty_comps(s),
        s.len() > 0,
    ensures
        no_empty_comps(s.drop_first()),
{
    assert(forall|i: int|
        0 <= i < s.drop_first().len() ==> #[trigger] s.drop_first()[i] == s[i + 1]);
}

proof fn lemma_no_empty_cons(c: Comp, rest: Seq<Comp>)
    requires
        comp_len(c) > 0,
        no_empty_comps(rest),
    ensures
        no_empty_comps(seq![c] + rest),
{
    let r = seq![c] + rest;
    assert(forall|i: int| 1 <= i < r.len() ==> #[trigger] r[i] == rest[i - 1]);
    assert(r[0] == c);
}

proof fn lemma_no_adjacent_ins_drop_first(s: Seq<Comp>)
    requires
        no_adjacent_ins(s),
        s.len() > 0,
    ensures
        no_adjacent_ins(s.drop_first()),
{
    assert(forall|i: int|
        0 <= i < s.drop_first().len() ==> #[trigger] s.drop_first()[i] == s[i + 1]);
}

proof fn lemma_no_adjacent_ins_cons(c: Comp, rest: Seq<Comp>)
    requires
        no_adjacent_ins(rest),
        !(is_ins(c) && rest.len() > 0 && is_ins(rest.first())),
    ensures
        no_adjacent_ins(seq![c] + rest),
{
    let r = seq![c] + rest;
    assert(forall|i: int| 1 <= i < r.len() ==> #[trigger] r[i] == rest[i - 1]);
    assert(r[0] == c);
    assert forall|i: int| 0 < i < r.len() implies !(is_ins(r[i - 1]) && is_ins(
        #[trigger] r[i],
    )) by {
        if i == 1 {
            assert(r[0] == c && r[1] == rest[0]);
        } else {
            assert(r[i - 1] == rest[i - 2] && r[i] == rest[i - 1]);
        }
    }
}

/// Applying an operation made of skips alone leaves the document unchanged.
proof fn lemma_apply_all_skips(x: Seq<char>, z: Seq<Comp>)
    requires
        all_skips(z),
        nonneg_comps(z),
    ensures
        apply(x, z) == x,
    decreases z.len(),
{
    if z.len() > 0 {
        let k = comp_len(z.first());
        assert(z.first() == Comp::Skip(k));
        assert(all_skips(z.drop_first()) && nonneg_comps(z.drop_first())) by {
            assert(forall|i: int|
                0 <= i < z.drop_first().len() ==> #[trigger] z.drop_first()[i] == z[i + 1]);
        }
        lemma_apply_all_skips(skip_clamped(x, k), z.drop_first());
        lemma_clamp_whole(x, k);
    }
}

/// The raw composition walk is exact: applying `a` and then `b` equals
/// applying `compose(a, b)`, provided each operation fits its document.
proof fn lemma_compose_exchange(d: Seq<char>, a: Seq<Comp>, b: Seq<Comp>)
    requires
        nonneg_comps(a),
        nonneg_comps(b),
        fits(d.len() as int, a),
        fits(apply(d, a).len() as int, b),
    ensures
        apply(apply(d, a), b) == apply(d, compose(a, b)),
    decreases b.len(), crate::model::hd_len(b), a.len(),
{
    let av1 = apply(d, a);
    lemma_weights_nonneg(a);
    lemma_weights_nonneg(b);
    if b.len() == 0 {
        assert(apply(av1, b) == av1);
    } else {
        let c = b.first();
        let bt = b.drop_first();
        lemma_nonneg_drop_first(b);
        lemma_weights_nonneg(bt);
        assert(len_skipped(b) == skip_weight(c) + len_skipped(bt));
        assert(len_deleted(b) == del_weight(c) + len_deleted(bt));
        if a.len() > 0 {
            lemma_nonneg_drop_first(a);
            lemma_weights_nonneg(a.drop_first());
            assert(len_skipped(a) == skip_weight(a.first()) + len_skipped(a.drop_first()));
            assert(len_deleted(a) == del_weight(a.first()) + len_deleted(a.drop_first()));
        }
        match c {
            Comp::Ins(s) => {
                assert(apply(av1, b) == s + apply(av1, bt));
                lemma_compose_exchange(d, a, bt);
                let cr = compose(a, bt);
                assert(compose(a, b) == seq![Comp::Ins(s)] + cr);
                assert((seq![Comp::Ins(s)] + cr).first() == Comp::Ins(s));
                assert((seq![Comp::Ins(s)] + cr).drop_first() =~= cr);
                assert(apply(d, seq![Comp::Ins(s)] + cr) == s + apply(d, cr));
            },
            Comp::Skip(n) => {
                if n <= 0 {
                    assert(n == 0);
                    assert(apply(av1, b) == take_clamped(av1, 0) + apply(
                        skip_clamped(av1, 0),
                        bt,
                    ));
                    assert(take_clamped(av1, 0) + apply(av1, bt) =~= apply(av1, bt));
                    lemma_compose_exchange(d, a, bt);
                } else if a.len() == 0 {
                    assert(av1 == d);
                    assert(apply(av1, b) == take_clamped(d, n) + apply(skip_clamped(d, n), bt));
                    assert(n <= d.len());
                    assert(skip_clamped(d, n).len() == d.len() - n);
                    assert(apply(skip_clamped(d, n), a) == skip_clamped(d, n));
                    lemma_compose_exchange(skip_clamped(d, n), a, bt);
                    let cr = compose(a, bt);
                    assert(compose(a, b) == seq![Comp::Skip(n)] + cr);
                    assert((seq![Comp::Skip(n)] + cr).first() == Comp::Skip(n));
                    assert((seq![Comp::Skip(n)] + cr).drop_first() =~= cr);
                } else {
                    let h = a.first();
                    let at = a.drop_first();
                    match h {
                        Comp::Del(m) => {
                            assert(av1 == apply(skip_clamped(d, m), at));
                            assert(m <= d.len());
                            assert(skip_clamped(d, m).len() == d.len() - m);
                            lemma_compose_exchange(skip_clamped(d, m), at, b);
                            let cr = compose(at, b);
                            assert(compose(a, b) == seq![Comp::Del(m)] + cr);
                            assert((seq![Comp::Del(m)] + cr).first() == Comp::Del(m));
                            assert((seq![Comp::Del(m)] + cr).drop_first() =~= cr);
                        },
                        _ => {
                            let m = comp_len(h);
                            if m == 0 {
                                assert(av1 == apply(d, at)) by {
                                    match h {
                                        Comp::Skip(k) => {
                                            assert(take_clamped(d, k) + apply(
                                                skip_clamped(d, k),
                                                at,
                                            ) =~= apply(d, at));
                                        },
                                        Comp::Ins(t) => {
                                            assert(t + apply(d, at) =~= apply(d, at));
                                        },
                                        Comp::Del(_) => {
                                        },
                                    }
                                }
                                assert(compose(a, b) == compose(at, b));
                                lemma_compose_exchange(d, at, b);
                            } else if m <= n {
                                let p = match h {
                                    Comp::Skip(_) => take_clamped(d, m),
                                    Comp::Ins(t) => t,
                                    Comp::Del(_) => Seq::<char>::empty(),
                                };
                                let d2 = match h {
                                    Comp::Skip(_) => skip_clamped(d, m),
                                    _ => d,
                                };
                                let x = apply(d2, at);
                                assert(av1 == p + x);
                                assert(p.len() == m) by {
                                    if h is Skip {
                                        assert(m <= d.len());
                                    }
                                }
                                let b2 = seq![Comp::Skip(n - m)] + bt;
                                assert(b2.first() == Comp::Skip(n - m));
                                assert(b2.drop_first() =~= bt);
                                lemma_weights_cons(Comp::Skip(n - m), bt);
                                lemma_nonneg_cons(Comp::Skip(n - m), bt);
                                assert(av1.len() == m + x.len());
                                assert(fits(x.len() as int, b2));
                                assert(fits(d2.len() as int, at)) by {
                                    if h is Skip {
                                        assert(d2.len() == d.len() - m);
                                    }
                                }
                                lemma_compose_exchange(d2, at, b2);
                                let cr = compose(at, b2);
                                assert(compose(a, b) == seq![h] + cr);
                                assert((seq![h] + cr).first() == h);
                                assert((seq![h] + cr).drop_first() =~= cr);
                                assert(apply(d, seq![h] + cr) == p + apply(d2, cr));
                                assert(apply(x, b2) == take_clamped(x, n - m) + apply(
                                    skip_clamped(x, n - m),
                                    bt,
                                ));
                                lemma_clamp_concat_long(p, x, n);
                                assert(apply(av1, b) == take_clamped(p + x, n) + apply(
                                    skip_clamped(p + x, n),
                                    bt,
                                ));
                                assert(p + (take_clamped(x, n - m) + apply(
                                    skip_clamped(x, n - m),
                                    bt,
                                )) =~= (p + take_clamped(x, n - m)) + apply(
                                    skip_clamped(x, n - m),
                                    bt,
                                ));
                            } else {
                                // m > n: the head of `a` is split
                                let a2 = seq![comp_drop(h, n)] + at;
                                assert(a2.first() == comp_drop(h, n));
                                assert(a2.drop_first() =~= at);
                                assert(comp_len(comp_drop(h, n)) == m - n);
                                lemma_nonneg_cons(comp_drop(h, n), at);
                                lemma_weights_cons(comp_drop(h, n), at);
                                let d2 = skip_clamped(d, n);
                                match h {
                                    Comp::Skip(_) => {
                                        let p = take_clamped(d, m);
                                        let x = apply(skip_clamped(d, m), at);
                                        assert(av1 == p + x);
                                        assert(m <= d.len());
                                        assert(p.len() == m);
                                        assert(d2.len() == d.len() - n);
                                        lemma_clamp_skip_skip(d, n, m - n);
                                        assert(skip_clamped(d2, m - n) == skip_clamped(d, m));
                                        assert(apply(d2, a2) == take_clamped(d2, m - n) + x);
                                        assert(take_clamped(d2, m - n).len() == m - n);
                                        assert(fits(d2.len() as int, a2));
                                        assert(av1.len() == m + x.len());
                                        assert(fits(apply(d2, a2).len() as int, bt));
                                        lemma_compose_exchange(d2, a2, bt);
                                        let cr = compose(a2, bt);
                                        assert(compose(a, b) == seq![Comp::Skip(n)] + cr) by {
                                            assert(comp_take(h, n) == Comp::Skip(n));
                                        }
                                        assert((seq![Comp::Skip(n)] + cr).first() == Comp::Skip(
                                            n,
                                        ));
                                        assert((seq![Comp::Skip(n)] + cr).drop_first() =~= cr);
                                        assert(apply(d, seq![Comp::Skip(n)] + cr) == take_clamped(
                                            d,
                                            n,
                                        ) + apply(d2, cr));
                                        lemma_clamp_concat_short(p, x, n);
                                        lemma_clamp_split_parts(d, n, m);
                                        assert(apply(av1, b) == take_clamped(p + x, n) + apply(
                                            skip_clamped(p + x, n),
                                            bt,
                                        ));
                                        assert(skip_clamped(p, n) + x == apply(d2, a2));
                                        assert(take_clamped(p, n) == take_clamped(d, n));
                                    },
                                    Comp::Ins(t) => {
                                        let x = apply(d, at);
                                        assert(av1 == t + x);
                                        assert(comp_drop(h, n) == Comp::Ins(t.skip(n)));
                                        assert(apply(d, a2) == t.skip(n) + x);
                                        assert(fits(d.len() as int, a2));
                                        assert(av1.len() == t.len() + x.len());
                                        assert(t.skip(n).len() == t.len() - n);
                                        assert(fits(apply(d, a2).len() as int, bt));
                                        lemma_compose_exchange(d, a2, bt);
                                        let cr = compose(a2, bt);
                                        assert(compose(a, b) == seq![Comp::Ins(t.take(n))] + cr)
                                            by {
                                            assert(comp_take(h, n) == Comp::Ins(t.take(n)));
                                        }
                                        assert((seq![Comp::Ins(t.take(n))] + cr).first()
                                            == Comp::Ins(t.take(n)));
                                        assert((seq![Comp::Ins(t.take(n))] + cr).drop_first()
                                            =~= cr);
                                        assert(apply(d, seq![Comp::Ins(t.take(n))] + cr)
                                            == t.take(n) + apply(d, cr));
                                        lemma_clamp_concat_short(t, x, n);
                                        assert(apply(av1, b) == take_clamped(t + x, n) + apply(
                                            skip_clamped(t + x, n),
                                            bt,
                                        ));
                                        assert(take_clamped(t, n) =~= t.take(n));
                                        assert(skip_clamped(t, n) =~= t.skip(n));
                                    },
                                    Comp::Del(_) => {
                                        assert(false);
                                    },
                                }
                            }
                        },
                    }
                }
            },
            Comp::Del(n) => {
                if n <= 0 {
                    assert(n == 0);
                    assert(apply(av1, b) == apply(skip_clamped(av1, 0), bt));
                    lemma_compose_exchange(d, a, bt);
                } else if a.len() == 0 {
                    assert(av1 == d);
                    assert(apply(av1, b) == apply(skip_clamped(d, n), bt));
                    assert(n <= d.len());
                    assert(skip_clamped(d, n).len() == d.len() - n);
                    assert(apply(skip_clamped(d, n), a) == skip_clamped(d, n));
                    lemma_compose_exchange(skip_clamped(d, n), a, bt);
                    let cr = compose(a, bt);
                    assert(compose(a, b) == seq![Comp::Del(n)] + cr);
                    assert((seq![Comp::Del(n)] + cr).first() == Comp::Del(n));
                    assert((seq![Comp::Del(n)] + cr).drop_first() =~= cr);
                } else {
                    let h = a.first();
                    let at = a.drop_first();
                    match h {
                        Comp::Del(m) => {
                            assert(av1 == apply(skip_clamped(d, m), at));
                            assert(m <= d.len());
                            assert(skip_clamped(d, m).len() == d.len() - m);
                            lemma_compose_exchange(skip_clamped(d, m), at, b);
                            let cr = compose(at, b);
                            assert(compose(a, b) == seq![Comp::Del(m)] + cr);
                            assert((seq![Comp::Del(m)] + cr).first() == Comp::Del(m));
                            assert((seq![Comp::Del(m)] + cr).drop_first() =~= cr);
                        },
                        _ => {
                            let m = comp_len(h);
                            if m == 0 {
                                assert(av1 == apply(d, at)) by {
                                    match h {
                                        Comp::Skip(k) => {
                                            assert(take_clamped(d, k) + apply(
                                                skip_clamped(d, k),
                                                at,
                                            ) =~= apply(d, at));
                                        },
                                        Comp::Ins(t) => {
                                            assert(t + apply(d, at) =~= apply(d, at));
                                        },
                                        Comp::Del(_) => {
                                        },
                                    }
                                }
                                assert(compose(a, b) == compose(at, b));
                                lemma_compose_exchange(d, at, b);
                            } else if m <= n {
                                let p = match h {
                                    Comp::Skip(_) => take_clamped(d, m),
                                    Comp::Ins(t) => t,
                                    Comp::Del(_) => Seq::<char>::empty(),
                                };
                                let d2 = match h {
                                    Comp::Skip(_) => skip_clamped(d, m),
                                    _ => d,
                                };
                                let x = apply(d2, at);
                                assert(av1 == p + x);
                                assert(p.len() == m) by {
                                    if h is Skip {
                                        assert(m <= d.len());
                                    }
                                }
                                let b2 = seq![Comp::Del(n - m)] + bt;
                                assert(b2.first() == Comp::Del(n - m));
                                assert(b2.drop_first() =~= bt);
                                lemma_weights_cons(Comp::Del(n - m), bt);
                                lemma_nonneg_cons(Comp::Del(n - m), bt);
                                assert(av1.len() == m + x.len());
                                assert(fits(x.len() as int, b2));
                                assert(fits(d2.len() as int, at)) by {
                                    if h is Skip {
                                        assert(d2.len() == d.len() - m);
                                    }
                                }
                                lemma_compose_exchange(d2, at, b2);
                                let cr = compose(at, b2);
                                assert(apply(x, b2) == apply(skip_clamped(x, n - m), bt));
                                lemma_clamp_concat_long(p, x, n);
                                assert(apply(av1, b) == apply(skip_clamped(p + x, n), bt));
                                match h {
                                    Comp::Skip(_) => {
                                        assert(compose(a, b) == seq![Comp::Del(m)] + cr);
                                        assert((seq![Comp::Del(m)] + cr).first() == Comp::Del(m));
                                        assert((seq![Comp::Del(m)] + cr).drop_first() =~= cr);
                                        assert(apply(d, seq![Comp::Del(m)] + cr) == apply(
                                            d2,
                                            cr,
                                        ));
                                    },
                                    _ => {
                                        assert(compose(a, b) == cr);
                                    },
                                }
                            } else {
                                let a2 = seq![comp_drop(h, n)] + at;
                                assert(a2.first() == comp_drop(h, n));
                                assert(a2.drop_first() =~= at);
                                assert(comp_len(comp_drop(h, n)) == m - n);
                                lemma_nonneg_cons(comp_drop(h, n), at);
                                lemma_weights_cons(comp_drop(h, n), at);
                                let d2 = skip_clamped(d, n);
                                match h {
                                    Comp::Skip(_) => {
                                        let p = take_clamped(d, m);
                                        let x = apply(skip_clamped(d, m), at);
                                        assert(av1 == p + x);
                                        assert(m <= d.len());
                                        assert(p.len() == m);
                                        assert(d2.len() == d.len() - n);
                                        lemma_clamp_skip_skip(d, n, m - n);
                                        assert(skip_clamped(d2, m - n) == skip_clamped(d, m));
                                        assert(apply(d2, a2) == take_clamped(d2, m - n) + x);
                                        assert(take_clamped(d2, m - n).len() == m - n);
                                        assert(fits(d2.len() as int, a2));
                                        assert(av1.len() == m + x.len());
                                        assert(fits(apply(d2, a2).len() as int, bt));
                                        lemma_compose_exchange(d2, a2, bt);
                                        let cr = compose(a2, bt);
                                        assert(compose(a, b) == seq![Comp::Del(n)] + cr);
                                        assert((seq![Comp::Del(n)] + cr).first() == Comp::Del(n));
                                        assert((seq![Comp::Del(n)] + cr).drop_first() =~= cr);
                                        assert(apply(d, seq![Comp::Del(n)] + cr) == apply(
                                            d2,
                                            cr,
                                        ));
                                        lemma_clamp_concat_short(p, x, n);
                                        lemma_clamp_split_parts(d, n, m);
                                        assert(apply(av1, b) == apply(skip_clamped(p + x, n), bt));
                                        assert(skip_clamped(p, n) + x == apply(d2, a2));
                                    },
                                    Comp::Ins(t) => {
                                        let x = apply(d, at);
                                        assert(av1 == t + x);
                                        assert(comp_drop(h, n) == Comp::Ins(t.skip(n)));
                                        assert(apply(d, a2) == t.skip(n) + x);
                                        assert(fits(d.len() as int, a2));
                                        assert(av1.len() == t.len() + x.len());
                                        assert(t.skip(n).len() == t.len() - n);
                                        assert(fits(apply(d, a2).len() as int, bt));
                                        lemma_compose_exchange(d, a2, bt);
                                        let cr = compose(a2, bt);
                                        assert(compose(a, b) == cr);
                                        lemma_clamp_concat_short(t, x, n);
                                        assert(apply(av1, b) == apply(skip_clamped(t + x, n), bt));
                                        assert(skip_clamped(t, n) =~= t.skip(n));
                                    },
                                    Comp::Del(_) => {
                                        assert(false);
                                    },
                                }
                            }
                        },
                    }
                }
            },
        }
    }
}

/// Applying a composition equals applying the operations in sequence: for
/// any document the operations fit, `compose(a, b)` sends `d` to what
/// applying `a` and then `b` produces.
pub proof fn lemma_compose_apply(d: Seq<char>, a: Seq<Comp>, b: Seq<Comp>)
    requires
        nonneg_comps(a),
        nonneg_comps(b),
        fits(d.len() as int, a),
        fits(apply(d, a).len() as int, b),
    ensures
        apply(d, normalize(compose(a, b))) == apply(apply(d, a), b),
{
    lemma_compose_exchange(d, a, b);
    lemma_compose_nonneg(a, b);
    lemma_apply_normalize(d, compose(a, b));
}

/// The codepoint accounting carries through composition: on any document the
/// operations fit in sequence, the composed operation changes the length by
/// the combined inserted minus deleted counts of its two operands.
pub proof fn lemma_compose_accounting(d: Seq<char>, a: Seq<Comp>, b: Seq<Comp>)
    requires
        nonneg_comps(a),
        nonneg_comps(b),
        fits(d.len() as int, a),
        fits(apply(d, a).len() as int, b),
    ensures
        apply(d, normalize(compose(a, b))).len() == d.len() - len_deleted(a) + len_inserted(a)
            - len_deleted(b) + len_inserted(b),
{
    lemma_compose_apply(d, a, b);
    lemma_apply_len(d, a);
    lemma_apply_len(apply(d, a), b);
}

/// Every component the composition walk emits has non-negative length.
proof fn lemma_compose_nonneg(a: Seq<Comp>, b: Seq<Comp>)
    requires
        nonneg_comps(a),
        nonneg_comps(b),
    ensures
        nonneg_comps(compose(a, b)),
    decreases b.len(), crate::model::hd_len(b), a.len(),
{
    if b.len() == 0 {
    } else {
        let c = b.first();
        let bt = b.drop_first();
        lemma_nonneg_drop_first(b);
        if a.len() > 0 {
            lemma_nonneg_drop_first(a);
        }
        match c {
            Comp::Ins(s) => {
                lemma_compose_nonneg(a, bt);
                lemma_nonneg_cons(Comp::Ins(s), compose(a, bt));
            },
            Comp::Skip(n) => {
                if n <= 0 {
                    lemma_compose_nonneg(a, bt);
                } else if a.len() == 0 {
                    lemma_compose_nonneg(a, bt);
                    lemma_nonneg_cons(Comp::Skip(n), compose(a, bt));
                } else {
                    let h = a.first();
                    let at = a.drop_first();
                    if is_del(h) {
                        lemma_compose_nonneg(at, b);
                        lemma_nonneg_cons(h, compose(at, b));
                    } else if comp_len(h) <= 0 {
                        lemma_compose_nonneg(at, b);
                    } else if comp_len(h) <= n {
                        let b2 = seq![Comp::Skip(n - comp_len(h))] + bt;
                        lemma_nonneg_cons(Comp::Skip(n - comp_len(h)), bt);
                        lemma_compose_nonneg(at, b2);
                        lemma_nonneg_cons(h, compose(at, b2));
                    } else {
                        let a2 = seq![comp_drop(h, n)] + at;
                        lemma_nonneg_cons(comp_drop(h, n), at);
                        lemma_compose_nonneg(a2, bt);
                        lemma_nonneg_cons(comp_take(h, n), compose(a2, bt));
                    }
                }
            },
            Comp::Del(n) => {
                if n <= 0 {
                    lemma_compose_nonneg(a, bt);
                } else if a.len() == 0 {
                    lemma_compose_nonneg(a, bt);
                    lemma_nonneg_cons(Comp::Del(n), compose(a, bt));
                } else {
                    let h = a.first();
                    let at = a.drop_first();
                    if is_del(h) {
                        lemma_compose_nonneg(at, b);
                        lemma_nonneg_cons(h, compose(at, b));
                    } else if comp_len(h) <= 0 {
                        lemma_compose_nonneg(at, b);
                    } else if comp_len(h) <= n {
                        let b2 = seq![Comp::Del(n - comp_len(h))] + bt;
                        lemma_nonneg_cons(Comp::Del(n - comp_len(h)), bt);
                        lemma_compose_nonneg(at, b2);
                        match h {
                            Comp::Skip(m) => {
                                lemma_nonneg_cons(Comp::Del(m), compose(at, b2));
                            },
                            _ => {
                            },
                        }
                    } else {
                        let a2 = seq![comp_drop(h, n)] + at;
                        lemma_nonneg_cons(comp_drop(h, n), at);
                        lemma_compose_nonneg(a2, bt);
                        match h {
                            Comp::Skip(_) => {
                                lemma_nonneg_cons(Comp::Del(n), compose(a2, bt));
                            },
                            _ => {
                            },
                        }
                    }
                }
            },
        }
    }
}

/// Every component the transformation walk emits has non-negative length.
proof fn lemma_transform_nonneg(a: Seq<Comp>, b: Seq<Comp>, left: bool)
    requires
        nonneg_comps(a),
        nonneg_comps(b),
    ensures
        nonneg_comps(transform(a, b, left)),
    decreases b.len(), crate::model::hd_len(b), a.len(),
{
    if b.len() == 0 {
    } else {
        let c = b.first();
        let bt = b.drop_first();
        lemma_nonneg_drop_first(b);
        if a.len() > 0 {
            lemma_nonneg_drop_first(a);
        }
        match c {
            Comp::Ins(s) => {
                if left && a.len() > 0 && is_ins(a.first()) {
                    lemma_transform_nonneg(a.drop_first(), bt, left);
                    let rest = transform(a.drop_first(), bt, left);
                    lemma_nonneg_cons(Comp::Skip(s.len() as int), rest);
                    lemma_nonneg_cons(a.first(), seq![Comp::Skip(s.len() as int)] + rest);
                    assert(seq![a.first(), Comp::Skip(s.len() as int)] + rest =~= seq![a.first()]
                        + (seq![Comp::Skip(s.len() as int)] + rest));
                } else {
                    lemma_transform_nonneg(a, bt, left);
                    lemma_nonneg_cons(Comp::Skip(s.len() as int), transform(a, bt, left));
                }
            },
            Comp::Skip(n) => {
                if n <= 0 {
                    lemma_transform_nonneg(a, bt, left);
                } else if a.len() == 0 {
                    lemma_transform_nonneg(a, bt, left);
                    lemma_nonneg_cons(Comp::Skip(n), transform(a, bt, left));
                } else {
                    let h = a.first();
                    let at = a.drop_first();
                    if is_ins(h) {
                        lemma_transform_nonneg(at, b, left);
                        lemma_nonneg_cons(h, transform(at, b, left));
                    } else if comp_len(h) <= 0 {
                        lemma_transform_nonneg(at, b, left);
                    } else if comp_len(h) <= n {
                        let b2 = seq![Comp::Skip(n - comp_len(h))] + bt;
                        lemma_nonneg_cons(Comp::Skip(n - comp_len(h)), bt);
                        lemma_transform_nonneg(at, b2, left);
                        lemma_nonneg_cons(h, transform(at, b2, left));
                    } else {
                        let a2 = seq![comp_drop(h, n)] + at;
                        lemma_nonneg_cons(comp_drop(h, n), at);
                        lemma_transform_nonneg(a2, bt, left);
                        lemma_nonneg_cons(comp_take(h, n), transform(a2, bt, left));
                    }
                }
            },
            Comp::Del(n) => {
                if n <= 0 {
                    lemma_transform_nonneg(a, bt, left);
                } else if a.len() == 0 {
                    lemma_transform_nonneg(a, bt, left);
                } else {
                    let h = a.first();
                    let at = a.drop_first();
                    if is_ins(h) {
                        lemma_transform_nonneg(at, b, left);
                        lemma_nonneg_cons(h, transform(at, b, left));
                    } else if comp_len(h) <= 0 {
                        lemma_transform_nonneg(at, b, left);
                    } else if comp_len(h) <= n {
                        let b2 = seq![Comp::Del(n - comp_len(h))] + bt;
                        lemma_nonneg_cons(Comp::Del(n - comp_len(h)), bt);
                        lemma_transform_nonneg(at, b2, left);
                    } else {
                        let a2 = seq![comp_drop(h, n)] + at;
                        lemma_nonneg_cons(comp_drop(h, n), at);
                        lemma_transform_nonneg(a2, bt, left);
                    }
                }
            },
        }
    }
}

/// The raw transformation walks converge: applying `a` and then `b` rebased
/// across `a` (with the right tie-break) equals applying `b` and then `a`
/// rebased across `b` (with the left tie-break).
#[verifier::rlimit(100)]
#[verifier::spinoff_prover]
proof fn lemma_transform_exchange(d: Seq<char>, a: Seq<Comp>, b: Seq<Comp>)
    requires
        no_empty_comps(a),
        no_empty_comps(b),
        no_adjacent_ins(a),
        no_adjacent_ins(b),
        fits(d.len() as int, a),
        fits(d.len() as int, b),
    ensures
        apply(apply(d, a), transform(b, a, false)) == apply(apply(d, b), transform(a, b, true)),
    decreases a.len() + b.len(),
{
    let ad = apply(d, a);
    let bd = apply(d, b);
    assert(nonneg_comps(a));
    assert(nonneg_comps(b));
    lemma_weights_nonneg(a);
    lemma_weights_nonneg(b);
    if a.len() == 0 {
        assert(a =~= Seq::<Comp>::empty());
        assert(transform(b, a, false) == b);
        assert(ad == d);
        lemma_transform_empty_op_all_skips(b, true);
        lemma_transform_nonneg(a, b, true);
        lemma_apply_all_skips(bd, transform(a, b, true));
    } else if b.len() == 0 {
        assert(b =~= Seq::<Comp>::empty());
        assert(transform(a, b, true) == a);
        assert(bd == d);
        lemma_transform_empty_op_all_skips(a, false);
        lemma_transform_nonneg(b, a, false);
        lemma_apply_all_skips(ad, transform(b, a, false));
    } else {
        let ha = a.first();
        let hb = b.first();
        let at = a.drop_first();
        let bt = b.drop_first();
        let m = comp_len(ha);
        let n = comp_len(hb);
        assert(m > 0 && n > 0);
        lemma_no_empty_drop_first(a);
        lemma_no_empty_drop_first(b);
        lemma_no_adjacent_ins_drop_first(a);
        lemma_no_adjacent_ins_drop_first(b);
        lemma_nonneg_drop_first(a);
        lemma_nonneg_drop_first(b);
        lemma_weights_nonneg(at);
        lemma_weights_nonneg(bt);
        assert(len_skipped(a) == skip_weight(ha) + len_skipped(at));
        assert(len_deleted(a) == del_weight(ha) + len_deleted(at));
        assert(len_skipped(b) == skip_weight(hb) + len_skipped(bt));
        assert(len_deleted(b) == del_weight(hb) + len_deleted(bt));
        match (ha, hb) {
            (Comp::Ins(s), Comp::Ins(t)) => {
                let xa = apply(d, at);
                let xb = apply(d, bt);
                assert(ad == s + xa);
                assert(bd == t + xb);
                let k = Comp::Skip(t.len() as int);
                let tl_rest = transform(at, bt, true);
                assert(transform(a, b, true) == seq![ha, k] + tl_rest);
                let tr = seq![Comp::Skip(s.len() as int)] + transform(b, at, false);
                assert(transform(b, a, false) == tr);
                assert(tr.first() == Comp::Skip(s.len() as int));
                assert(tr.drop_first() =~= transform(b, at, false));
                assert(take_clamped(s + xa, s.len() as int) =~= s);
                assert(skip_clamped(s + xa, s.len() as int) =~= xa);
                assert(apply(ad, tr) == s + apply(xa, transform(b, at, false)));
                lemma_transform_exchange(d, at, b);
                // `at` cannot start with an insert beside the insert head of `a`
                assert(at.len() > 0 ==> !is_ins(at.first())) by {
                    if at.len() > 0 {
                        assert(at.first() == a[1]);
                        assert(!(is_ins(a[0]) && is_ins(a[1])));
                    }
                }
                assert(transform(at, b, true) == seq![k] + tl_rest);
                assert((seq![k] + tl_rest).first() == k);
                assert((seq![k] + tl_rest).drop_first() =~= tl_rest);
                assert(take_clamped(t + xb, t.len() as int) =~= t);
                assert(skip_clamped(t + xb, t.len() as int) =~= xb);
                assert(apply(bd, seq![k] + tl_rest) == t + apply(xb, tl_rest));
                let tl = seq![ha, k] + tl_rest;
                assert(tl.first() == ha);
                assert(tl.drop_first() =~= seq![k] + tl_rest);
                assert(apply(bd, tl) == s + apply(bd, seq![k] + tl_rest));
            },
            (Comp::Ins(s), _) => {
                let xa = apply(d, at);
                assert(ad == s + xa);
                let tl_rest = transform(at, b, true);
                match hb {
                    Comp::Skip(_) => {
                        assert(transform(a, b, true) == seq![ha] + tl_rest);
                    },
                    Comp::Del(_) => {
                        assert(transform(a, b, true) == seq![ha] + tl_rest);
                    },
                    _ => {
                        assert(false);
                    },
                }
                let tr = seq![Comp::Skip(s.len() as int)] + transform(b, at, false);
                assert(transform(b, a, false) == tr);
                assert(tr.first() == Comp::Skip(s.len() as int));
                assert(tr.drop_first() =~= transform(b, at, false));
                assert(take_clamped(s + xa, s.len() as int) =~= s);
                assert(skip_clamped(s + xa, s.len() as int) =~= xa);
                assert(apply(ad, tr) == s + apply(xa, transform(b, at, false)));
                lemma_transform_exchange(d, at, b);
                let tl = seq![ha] + tl_rest;
                assert(tl.first() == ha);
                assert(tl.drop_first() =~= tl_rest);
                assert(apply(bd, tl) == s + apply(bd, tl_rest));
            },
            (_, Comp::Ins(t)) => {
                let xb = apply(d, bt);
                assert(bd == t + xb);
                assert(!is_ins(ha));
                let tl = seq![Comp::Skip(t.len() as int)] + transform(a, bt, true);
                assert(transform(a, b, true) == tl);
                let tr = seq![hb] + transform(bt, a, false);
                match ha {
                    Comp::Skip(_) => {
                        assert(transform(b, a, false) == tr);
                    },
                    Comp::Del(_) => {
                        assert(transform(b, a, false) == tr);
                    },
                    _ => {
                        assert(false);
                    },
                }
                assert(tr.first() == hb);
                assert(tr.drop_first() =~= transform(bt, a, false));
                assert(apply(ad, tr) == t + apply(ad, transform(bt, a, false)));
                lemma_transform_exchange(d, a, bt);
                assert(tl.first() == Comp::Skip(t.len() as int));
                assert(tl.drop_first() =~= transform(a, bt, true));
                assert(take_clamped(t + xb, t.len() as int) =~= t);
                assert(skip_clamped(t + xb, t.len() as int) =~= xb);
                assert(apply(bd, tl) == t + apply(xb, transform(a, bt, true)));
            },
            (Comp::Skip(ma), Comp::Skip(nb)) => {
                let pa = take_clamped(d, ma);
                let xa = apply(skip_clamped(d, ma), at);
                let pb = take_clamped(d, nb);
                let xb = apply(skip_clamped(d, nb), bt);
                assert(ad == pa + xa);
                assert(bd == pb + xb);
                assert(ma <= d.len() && nb <= d.len());
                assert(pa.len() == ma && pb.len() == nb);
                if ma < nb {
                    let b2 = seq![Comp::Skip(nb - ma)] + bt;
                    assert(b2.first() == Comp::Skip(nb - ma));
                    assert(b2.drop_first() =~= bt);
                    lemma_no_empty_cons(Comp::Skip(nb - ma), bt);
                    lemma_no_adjacent_ins_cons(Comp::Skip(nb - ma), bt);
                    lemma_weights_cons(Comp::Skip(nb - ma), bt);
                    lemma_nonneg_cons(Comp::Skip(nb - ma), bt);
                    let d2 = skip_clamped(d, ma);
                    assert(d2.len() == d.len() - ma);
                    assert(transform(a, b, true) == seq![ha] + transform(at, b2, true));
                    assert(comp_take(hb, ma) == Comp::Skip(ma));
                    assert(comp_drop(hb, ma) == Comp::Skip(nb - ma));
                    assert(seq![comp_drop(hb, ma)] + bt =~= b2);
                    assert(transform(b, a, false) == seq![Comp::Skip(ma)] + transform(
                        b2,
                        at,
                        false,
                    ));
                    lemma_transform_exchange(d2, at, b2);
                    lemma_clamp_skip_skip(d, ma, nb - ma);
                    assert(skip_clamped(d2, nb - ma) == skip_clamped(d, nb));
                    assert(apply(d2, b2) == take_clamped(d2, nb - ma) + xb);
                    let tr = seq![Comp::Skip(ma)] + transform(b2, at, false);
                    assert(tr.first() == Comp::Skip(ma));
                    assert(tr.drop_first() =~= transform(b2, at, false));
                    assert(take_clamped(pa + xa, ma) =~= pa);
                    assert(skip_clamped(pa + xa, ma) =~= xa);
                    assert(apply(ad, tr) == pa + apply(xa, transform(b2, at, false)));
                    let tl = seq![ha] + transform(at, b2, true);
                    assert(tl.first() == ha);
                    assert(tl.drop_first() =~= transform(at, b2, true));
                    lemma_clamp_concat_short(pb, xb, ma);
                    lemma_clamp_split_parts(d, ma, nb);
                    assert(take_clamped(pb, ma) == pa);
                    assert(skip_clamped(pb, ma) == take_clamped(d2, nb - ma));
                    assert(apply(bd, tl) == take_clamped(pb + xb, ma) + apply(
                        skip_clamped(pb + xb, ma),
                        transform(at, b2, true),
                    ));
                    assert(skip_clamped(pb + xb, ma) == take_clamped(d2, nb - ma) + xb);
                } else if ma == nb {
                    let d2 = skip_clamped(d, ma);
                    let z = seq![Comp::Skip(0)] + bt;
                    assert(z.first() == Comp::Skip(0));
                    assert(z.drop_first() =~= bt);
                    assert(transform(at, z, true) == transform(at, bt, true));
                    assert(comp_len(ha) <= nb);
                    assert(transform(a, b, true) == seq![ha] + transform(at, z, true));
                    let z2 = seq![Comp::Skip(0)] + at;
                    assert(z2.first() == Comp::Skip(0));
                    assert(z2.drop_first() =~= at);
                    assert(transform(bt, z2, false) == transform(bt, at, false));
                    assert(comp_take(hb, ma) == hb || comp_len(hb) <= ma);
                    assert(transform(b, a, false) == seq![hb] + transform(bt, z2, false));
                    lemma_transform_exchange(d2, at, bt);
                    let tr = seq![hb] + transform(bt, z2, false);
                    assert(tr.first() == hb);
                    assert(tr.drop_first() =~= transform(bt, at, false));
                    assert(take_clamped(pa + xa, nb) =~= pa);
                    assert(skip_clamped(pa + xa, nb) =~= xa);
                    assert(apply(ad, tr) == pa + apply(xa, transform(bt, at, false)));
                    let tl = seq![ha] + transform(at, z, true);
                    assert(tl.first() == ha);
                    assert(tl.drop_first() =~= transform(at, bt, true));
                    assert(take_clamped(pb + xb, ma) =~= pb);
                    assert(skip_clamped(pb + xb, ma) =~= xb);
                    assert(apply(bd, tl) == pb + apply(xb, transform(at, bt, true)));
                    assert(pa == pb);
                    assert(xb == apply(d2, bt));
                    assert(xa == apply(d2, at));
                } else {
                    let a2 = seq![Comp::Skip(ma - nb)] + at;
                    assert(a2.first() == Comp::Skip(ma - nb));
                    assert(a2.drop_first() =~= at);
                    lemma_no_empty_cons(Comp::Skip(ma - nb), at);
                    lemma_no_adjacent_ins_cons(Comp::Skip(ma - nb), at);
                    lemma_weights_cons(Comp::Skip(ma - nb), at);
                    lemma_nonneg_cons(Comp::Skip(ma - nb), at);
                    let d2 = skip_clamped(d, nb);
                    assert(d2.len() == d.len() - nb);
                    assert(comp_take(ha, nb) == Comp::Skip(nb));
                    assert(comp_drop(ha, nb) == Comp::Skip(ma - nb));
                    assert(seq![comp_drop(ha, nb)] + at =~= a2);
                    assert(transform(a, b, true) == seq![Comp::Skip(nb)] + transform(
                        a2,
                        bt,
                        true,
                    ));
                    assert(transform(b, a, false) == seq![hb] + transform(bt, a2, false));
                    lemma_transform_exchange(d2, a2, bt);
                    lemma_clamp_skip_skip(d, nb, ma - nb);
                    assert(skip_clamped(d2, ma - nb) == skip_clamped(d, ma));
                    assert(apply(d2, a2) == take_clamped(d2, ma - nb) + xa);
                    let tr = seq![hb] + transform(bt, a2, false);
                    assert(tr.first() == hb);
                    assert(tr.drop_first() =~= transform(bt, a2, false));
                    lemma_clamp_concat_short(pa, xa, nb);
                    lemma_clamp_split_parts(d, nb, ma);
                    assert(take_clamped(pa, nb) == pb);
                    assert(skip_clamped(pa, nb) == take_clamped(d2, ma - nb));
                    assert(apply(ad, tr) == take_clamped(pa + xa, nb) + apply(
                        skip_clamped(pa + xa, nb),
                        transform(bt, a2, false),
                    ));
                    assert(skip_clamped(pa + xa, nb) == take_clamped(d2, ma - nb) + xa);
                    let tl = seq![Comp::Skip(nb)] + transform(a2, bt, true);
                    assert(tl.first() == Comp::Skip(nb));
                    assert(tl.drop_first() =~= transform(a2, bt, true));
                    assert(take_clamped(pb + xb, nb) =~= pb);
                    assert(skip_clamped(pb + xb, nb) =~= xb);
                    assert(apply(bd, tl) == pb + apply(xb, transform(a2, bt, true)));
                    assert(xb == apply(d2, bt));
                }
            },
            (Comp::Skip(ma), Comp::Del(nb)) => {
                let pa = take_clamped(d, ma);
                let xa = apply(skip_clamped(d, ma), at);
                let xb = apply(skip_clamped(d, nb), bt);
                assert(ad == pa + xa);
                assert(bd == xb);
                assert(ma <= d.len() && nb <= d.len());
                assert(pa.len() == ma);
                if ma < nb {
                    let b2 = seq![Comp::Del(nb - ma)] + bt;
                    assert(b2.first() == Comp::Del(nb - ma));
                    assert(b2.drop_first() =~= bt);
                    lemma_no_empty_cons(Comp::Del(nb - ma), bt);
                    lemma_no_adjacent_ins_cons(Comp::Del(nb - ma), bt);
                    lemma_weights_cons(Comp::Del(nb - ma), bt);
                    lemma_nonneg_cons(Comp::Del(nb - ma), bt);
                    let d2 = skip_clamped(d, ma);
                    assert(d2.len() == d.len() - ma);
                    assert(transform(a, b, true) == transform(at, b2, true));
                    assert(comp_take(hb, ma) == Comp::Del(ma));
                    assert(comp_drop(hb, ma) == Comp::Del(nb - ma));
                    assert(seq![comp_drop(hb, ma)] + bt =~= b2);
                    assert(transform(b, a, false) == seq![Comp::Del(ma)] + transform(
                        b2,
                        at,
                        false,
                    ));
                    lemma_transform_exchange(d2, at, b2);
                    lemma_clamp_skip_skip(d, ma, nb - ma);
                    assert(skip_clamped(d2, nb - ma) == skip_clamped(d, nb));
                    assert(apply(d2, b2) == xb);
                    let tr = seq![Comp::Del(ma)] + transform(b2, at, false);
                    assert(tr.first() == Comp::Del(ma));
                    assert(tr.drop_first() =~= transform(b2, at, false));
                    assert(skip_clamped(pa + xa, ma) =~= xa);
                    assert(apply(ad, tr) == apply(xa, transform(b2, at, false)));
                } else if ma == nb {
                    let d2 = skip_clamped(d, ma);
                    let z = seq![Comp::Del(0)] + bt;
                    assert(z.first() == Comp::Del(0));
                    assert(z.drop_first() =~= bt);
                    assert(transform(at, z, true) == transform(at, bt, true));
                    assert(transform(a, b, true) == transform(at, z, true));
                    let z2 = seq![Comp::Skip(0)] + at;
                    assert(z2.first() == Comp::Skip(0));
                    assert(z2.drop_first() =~= at);
                    assert(transform(bt, z2, false) == transform(bt, at, false));
                    assert(transform(b, a, false) == seq![hb] + transform(bt, z2, false));
                    lemma_transform_exchange(d2, at, bt);
                    let tr = seq![hb] + transform(bt, z2, false);
                    assert(tr.first() == hb);
                    assert(tr.drop_first() =~= transform(bt, at, false));
                    assert(skip_clamped(pa + xa, nb) =~= xa);
                    assert(apply(ad, tr) == apply(xa, transform(bt, at, false)));
                    assert(xb == apply(d2, bt));
                    assert(xa == apply(d2, at));
                } else {
                    let a2 = seq![Comp::Skip(ma - nb)] + at;
                    assert(a2.first() == Comp::Skip(ma - nb));
                    assert(a2.drop_first() =~= at);
                    lemma_no_empty_cons(Comp::Skip(ma - nb), at);
                    lemma_no_adjacent_ins_cons(Comp::Skip(ma - nb), at);
                    lemma_weights_cons(Comp::Skip(ma - nb), at);
                    lemma_nonneg_cons(Comp::Skip(ma - nb), at);
                    let d2 = skip_clamped(d, nb);
                    assert(d2.len() == d.len() - nb);
                    assert(transform(a, b, true) == transform(a2, bt, true));
                    assert(transform(b, a, false) == seq![hb] + transform(bt, a2, false));
                    lemma_transform_exchange(d2, a2, bt);
                    lemma_clamp_skip_skip(d, nb, ma - nb);
                    assert(skip_clamped(d2, ma - nb) == skip_clamped(d, ma));
                    assert(apply(d2, a2) == take_clamped(d2, ma - nb) + xa);
                    let tr = seq![hb] + transform(bt, a2, false);
                    assert(tr.first() == hb);
                    assert(tr.drop_first() =~= transform(bt, a2, false));
                    lemma_clamp_concat_short(pa, xa, nb);
                    lemma_clamp_split_parts(d, nb, ma);
                    assert(skip_clamped(pa, nb) == take_clamped(d2, ma - nb));
                    assert(apply(ad, tr) == apply(skip_clamped(pa + xa, nb), transform(
                        bt,
                        a2,
                        false,
                    )));
                    assert(skip_clamped(pa + xa, nb) == take_clamped(d2, ma - nb) + xa);
                    assert(xb == apply(d2, bt));
                }
            },
            (Comp::Del(ma), Comp::Skip(nb)) => {
                let xa = apply(skip_clamped(d, ma), at);
                let pb = take_clamped(d, nb);
                let xb = apply(skip_clamped(d, nb), bt);
                assert(ad == xa);
                assert(bd == pb + xb);
                assert(ma <= d.len() && nb <= d.len());
                assert(pb.len() == nb);
                if ma < nb {
                    let b2 = seq![Comp::Skip(nb - ma)] + bt;
                    assert(b2.first() == Comp::Skip(nb - ma));
                    assert(b2.drop_first() =~= bt);
                    lemma_no_empty_cons(Comp::Skip(nb - ma), bt);
                    lemma_no_adjacent_ins_cons(Comp::Skip(nb - ma), bt);
                    lemma_weights_cons(Comp::Skip(nb - ma), bt);
                    lemma_nonneg_cons(Comp::Skip(nb - ma), bt);
                    let d2 = skip_clamped(d, ma);
                    assert(d2.len() == d.len() - ma);
                    assert(transform(a, b, true) == seq![ha] + transform(at, b2, true));
                    assert(comp_take(hb, ma) == Comp::Skip(ma));
                    assert(comp_drop(hb, ma) == Comp::Skip(nb - ma));
                    assert(seq![comp_drop(hb, ma)] + bt =~= b2);
                    assert(transform(b, a, false) == transform(b2, at, false));
                    lemma_transform_exchange(d2, at, b2);
                    lemma_clamp_skip_skip(d, ma, nb - ma);
                    assert(skip_clamped(d2, nb - ma) == skip_clamped(d, nb));
                    assert(apply(d2, b2) == take_clamped(d2, nb - ma) + xb);
                    let tl = seq![ha] + transform(at, b2, true);
                    assert(tl.first() == ha);
                    assert(tl.drop_first() =~= transform(at, b2, true));
                    lemma_clamp_concat_short(pb, xb, ma);
                    lemma_clamp_split_parts(d, ma, nb);
                    assert(skip_clamped(pb, ma) == take_clamped(d2, nb - ma));
                    assert(apply(bd, tl) == apply(skip_clamped(pb + xb, ma), transform(
                        at,
                        b2,
                        true,
                    )));
                    assert(skip_clamped(pb + xb, ma) == take_clamped(d2, nb - ma) + xb);
                    assert(xa == apply(d2, at));
                } else if ma == nb {
                    let d2 = skip_clamped(d, ma);
                    let z = seq![Comp::Skip(0)] + bt;
                    assert(z.first() == Comp::Skip(0));
                    assert(z.drop_first() =~= bt);
                    assert(transform(at, z, true) == transform(at, bt, true));
                    assert(transform(a, b, true) == seq![ha] + transform(at, z, true));
                    let z2 = seq![Comp::Del(0)] + at;
                    assert(z2.first() == Comp::Del(0));
                    assert(z2.drop_first() =~= at);
                    assert(transform(bt, z2, false) == transform(bt, at, false));
                    assert(transform(b, a, false) == transform(bt, z2, false));
                    lemma_transform_exchange(d2, at, bt);
                    let tl = seq![ha] + transform(at, z, true);
                    assert(tl.first() == ha);
                    assert(tl.drop_first() =~= transform(at, bt, true));
                    assert(skip_clamped(pb + xb, ma) =~= xb);
                    assert(apply(bd, tl) == apply(xb, transform(at, bt, true)));
                    assert(xb == apply(d2, bt));
                    assert(xa == apply(d2, at));
                } else {
                    let a2 = seq![Comp::Del(ma - nb)] + at;
                    assert(a2.first() == Comp::Del(ma - nb));
                    assert(a2.drop_first() =~= at);
                    lemma_no_empty_cons(Comp::Del(ma - nb), at);
                    lemma_no_adjacent_ins_cons(Comp::Del(ma - nb), at);
                    lemma_weights_cons(Comp::Del(ma - nb), at);
                    lemma_nonneg_cons(Comp::Del(ma - nb), at);
                    let d2 = skip_clamped(d, nb);
                    assert(d2.len() == d.len() - nb);
                    assert(comp_take(ha, nb) == Comp::Del(nb));
                    assert(comp_drop(ha, nb) == Comp::Del(ma - nb));
                    assert(seq![comp_drop(ha, nb)] + at =~= a2);
                    assert(transform(a, b, true) == seq![Comp::Del(nb)] + transform(
                        a2,
                        bt,
                        true,
                    ));
                    assert(transform(b, a, false) == transform(bt, a2, false));
                    lemma_transform_exchange(d2, a2, bt);
                    lemma_clamp_skip_skip(d, nb, ma - nb);
                    assert(skip_clamped(d2, ma - nb) == skip_clamped(d, ma));
                    assert(apply(d2, a2) == xa);
                    let tl = seq![Comp::Del(nb)] + transform(a2, bt, true);
                    assert(tl.first() == Comp::Del(nb));
                    assert(tl.drop_first() =~= transform(a2, bt, true));
                    assert(skip_clamped(pb + xb, nb) =~= xb);
                    assert(apply(bd, tl) == apply(xb, transform(a2, bt, true)));
                    assert(xb == apply(d2, bt));
                }
            },
            (Comp::Del(ma), Comp::Del(nb)) => {
                let xa = apply(skip_clamped(d, ma), at);
                let xb = apply(skip_clamped(d, nb), bt);
                assert(ad == xa);
                assert(bd == xb);
                assert(ma <= d.len() && nb <= d.len());
                if ma < nb {
                    let b2 = seq![Comp::Del(nb - ma)] + bt;
                    assert(b2.first() == Comp::Del(nb - ma));
                    assert(b2.drop_first() =~= bt);
                    lemma_no_empty_cons(Comp::Del(nb - ma), bt);
                    lemma_no_adjacent_ins_cons(Comp::Del(nb - ma), bt);
                    lemma_weights_cons(Comp::Del(nb - ma), bt);
                    lemma_nonneg_cons(Comp::Del(nb - ma), bt);
                    let d2 = skip_clamped(d, ma);
                    assert(d2.len() == d.len() - ma);
                    assert(transform(a, b, true) == transform(at, b2, true));
                    assert(comp_drop(hb, ma) == Comp::Del(nb - ma));
                    assert(seq![comp_drop(hb, ma)] + bt =~= b2);
                    assert(transform(b, a, false) == transform(b2, at, false));
                    lemma_transform_exchange(d2, at, b2);
                    lemma_clamp_skip_skip(d, ma, nb - ma);
                    assert(skip_clamped(d2, nb - ma) == skip_clamped(d, nb));
                    assert(apply(d2, b2) == xb);
                    assert(xa == apply(d2, at));
                } else if ma == nb {
                    let d2 = skip_clamped(d, ma);
                    let z = seq![Comp::Del(0)] + bt;
                    assert(z.first() == Comp::Del(0));
                    assert(z.drop_first() =~= bt);
                    assert(transform(at, z, true) == transform(at, bt, true));
                    assert(transform(a, b, true) == transform(at, z, true));
                    let z2 = seq![Comp::Del(0)] + at;
                    assert(z2.first() == Comp::Del(0));
                    assert(z2.drop_first() =~= at);
                    assert(transform(bt, z2, false) == transform(bt, at, false));
                    assert(transform(b, a, false) == transform(bt, z2, false));
                    lemma_transform_exchange(d2, at, bt);
                    assert(xb == apply(d2, bt));
                    assert(xa == apply(d2, at));
                } else {
                    let a2 = seq![Comp::Del(ma - nb)] + at;
                    assert(a2.first() == Comp::Del(ma - nb));
                    assert(a2.drop_first() =~= at);
                    lemma_no_empty_cons(Comp::Del(ma - nb), at);
                    lemma_no_adjacent_ins_cons(Comp::Del(ma - nb), at);
                    lemma_weights_cons(Comp::Del(ma - nb), at);
                    lemma_nonneg_cons(Comp::Del(ma - nb), at);
                    let d2 = skip_clamped(d, nb);
                    assert(d2.len() == d.len() - nb);
                    assert(comp_drop(ha, nb) == Comp::Del(ma - nb));
                    assert(seq![comp_drop(ha, nb)] + at =~= a2);
                    assert(transform(a, b, true) == transform(a2, bt, true));
                    assert(transform(b, a, false) == transform(bt, a2, false));
                    lemma_transform_exchange(d2, a2, bt);
                    lemma_clamp_skip_skip(d, nb, ma - nb);
                    assert(skip_clamped(d2, ma - nb) == skip_clamped(d, ma));
                    assert(apply(d2, a2) == xa);
                    assert(xb == apply(d2, bt));
                }
            },
        }
    }
}

/// Symmetric transforms converge: for concurrent operations `a` and `b` on a
/// document they both fit, applying `a` and then `b` transformed across `a`
/// on the right gives the same document as applying `b` and then `a`
/// transformed across `b` on the left.
pub proof fn lemma_transform_convergence(d: Seq<char>, a: Seq<Comp>, b: Seq<Comp>)
    requires
        merged(a),
        merged(b),
        fits(d.len() as int, a),
        fits(d.len() as int, b),
    ensures
        apply(apply(d, a), normalize(transform(b, a, false))) == apply(
            apply(d, b),
            normalize(transform(a, b, true)),
        ),
{
    assert(nonneg_comps(a));
    assert(nonneg_comps(b));
    assert(no_adjacent_ins(a)) by {
        assert forall|i: int| 0 < i < a.len() implies !(is_ins(a[i - 1]) && is_ins(
            #[trigger] a[i],
        )) by {
            assert(!same_kind(a[i - 1], a[i]));
        }
    }
    assert(no_adjacent_ins(b)) by {
        assert forall|i: int| 0 < i < b.len() implies !(is_ins(b[i - 1]) && is_ins(
            #[trigger] b[i],
        )) by {
            assert(!same_kind(b[i - 1], b[i]));
        }
    }
    lemma_transform_exchange(d, a, b);
    lemma_transform_nonneg(b, a, false);
    lemma_transform_nonneg(a, b, true);
    lemma_apply_normalize(apply(d, a), transform(b, a, false));
    lemma_apply_normalize(apply(d, b), transform(a, b, true));
}

/// Normalization does not change what applying the operation produces.
pub proof fn lemma_apply_normalize(d: Seq<char>, x: Seq<Comp>)
    requires
        nonneg_comps(x),
    ensures
        apply(d, normalize(x)) == apply(d, x),
{
    let m = append_comps(Seq::<Comp>::empty(), x);
    lemma_apply_append_comps(d, Seq::<Comp>::empty(), x);
    assert(Seq::<Comp>::empty() + x =~= x);
    lemma_append_comps_merged(Seq::<Comp>::empty(), x);
    assert(nonneg_comps(m));
    lemma_apply_trim_end(d, m);
}

} // verus!
