use text_ot::{text_apply, text_compose, text_transform, Op, OpComponent, Side, TextBuffer};

fn ins(s: &str) -> OpComponent {
    OpComponent::Ins(s.chars().collect())
}

fn skip(n: usize) -> OpComponent {
    OpComponent::Skip(n)
}

fn del(n: usize) -> OpComponent {
    OpComponent::Del(n)
}

fn op(v: Vec<OpComponent>) -> Op {
    Op::from_components(v)
}

fn chars_of(s: &str) -> Vec<char> {
    s.chars().collect()
}

#[test]
fn normalize_works() {
    assert_eq!(Op::new(), op(vec![skip(0)]));
    assert_eq!(Op::new(), op(vec![ins("")]));
    assert_eq!(Op::new(), op(vec![del(0)]));

    assert_eq!(Op::new(), op(vec![skip(1), skip(1)]));
    assert_eq!(Op::new(), op(vec![skip(2), skip(0)]));
    assert_eq!(
        op(vec![skip(1), skip(1), ins("hi")]).as_components(),
        &vec![skip(2), ins("hi")]
    );
    assert_eq!(
        op(vec![del(1), del(1), ins("hi")]).as_components(),
        &vec![del(2), ins("hi")]
    );
    assert_eq!(op(vec![ins("a"), skip(100)]).as_components(), &vec![ins("a")]);
    assert_eq!(op(vec![ins("a"), ins("b")]).as_components(), &vec![ins("ab")]);
    assert_eq!(op(vec![ins("ab"), ins("")]).as_components(), &vec![ins("ab")]);
    assert_eq!(
        op(vec![skip(0), ins("a"), skip(0), ins("b"), skip(0)]).as_components(),
        &vec![ins("ab")]
    );

    assert_eq!(op(vec![del(2)]).as_components(), &vec![del(2)]);
    assert_eq!(
        op(vec![ins("a"), skip(1), del(1), ins("b")]).as_components(),
        &vec![ins("a"), skip(1), del(1), ins("b")]
    );
}

#[test]
fn compose() {
    assert_eq!(
        op(vec![ins("ab")]),
        text_compose(op(vec![ins("a")]), &op(vec![skip(1), ins("b")]))
    );
}

#[test]
fn apply() {
    let mut s = TextBuffer::new();
    text_apply(&mut s, &op(vec![ins("hi")]));
    assert_eq!(s.as_chars(), &chars_of("hi"));
    text_apply(&mut s, &op(vec![skip(1), ins("a")]));
    assert_eq!(s.as_chars(), &chars_of("hai"));
}

#[test]
fn apply_deletes_and_keeps_tail() {
    let mut s = TextBuffer::from_chars(chars_of("abcdef"));
    text_apply(&mut s, &op(vec![skip(1), del(2), ins("XY")]));
    assert_eq!(s.as_chars(), &chars_of("aXYdef"));
}

#[test]
fn apply_empty_op_is_identity() {
    let mut s = TextBuffer::from_chars(chars_of("abc"));
    text_apply(&mut s, &Op::new());
    assert_eq!(s.as_chars(), &chars_of("abc"));
}

#[test]
fn compose_matches_sequential_apply() {
    let a = op(vec![skip(1), ins("xy"), del(2)]);
    let b = op(vec![skip(2), del(2), ins("z")]);

    let mut doc1 = TextBuffer::from_chars(chars_of("abcdef"));
    text_apply(&mut doc1, &a.clone());
    text_apply(&mut doc1, &b.clone());

    let c = text_compose(a, &b);
    let mut doc2 = TextBuffer::from_chars(chars_of("abcdef"));
    text_apply(&mut doc2, &c);

    assert_eq!(doc1.as_chars(), doc2.as_chars());
}

#[test]
fn compose_merges_deletes() {
    assert_eq!(
        text_compose(op(vec![skip(1), del(2)]), &op(vec![del(1)])).as_components(),
        &vec![del(3)]
    );
}

#[test]
fn compose_cancels_insert_against_delete() {
    assert_eq!(
        text_compose(op(vec![ins("abc")]), &op(vec![del(3)])),
        Op::new()
    );
}

#[test]
fn compose_splits_multibyte_insert_at_codepoints() {
    let a = op(vec![ins("h\u{e9}llo")]);
    let b = op(vec![skip(2), del(2)]);
    assert_eq!(
        text_compose(a, &b).as_components(),
        &vec![ins("h\u{e9}o")]
    );
}

#[test]
fn compose_with_empty_normalizes() {
    let a = op(vec![ins("a"), skip(3)]);
    assert_eq!(text_compose(a.clone(), &Op::new()).as_components(), &vec![ins("a")]);
    let b = op(vec![skip(1), del(1)]);
    assert_eq!(text_compose(Op::new(), &b), b);
}

#[test]
fn transform_insert_tie_break() {
    let left = text_transform(op(vec![ins("a")]), &op(vec![ins("b")]), Side::Left);
    assert_eq!(left.as_components(), &vec![ins("a")]);

    let right = text_transform(op(vec![ins("a")]), &op(vec![ins("b")]), Side::Right);
    assert_eq!(right.as_components(), &vec![skip(1), ins("a")]);
}

#[test]
fn transform_skip_over_concurrent_delete() {
    let r = text_transform(op(vec![skip(2), ins("x")]), &op(vec![del(1)]), Side::Left);
    assert_eq!(r.as_components(), &vec![skip(1), ins("x")]);
}

#[test]
fn transform_delete_already_deleted() {
    let r = text_transform(op(vec![del(2)]), &op(vec![del(2)]), Side::Left);
    assert_eq!(r, Op::new());
}

#[test]
fn transform_with_empty_other_normalizes() {
    let a = op(vec![skip(1), ins("q"), skip(4)]);
    let r = text_transform(a, &Op::new(), Side::Right);
    assert_eq!(r.as_components(), &vec![skip(1), ins("q")]);
}

#[test]
fn transform_of_empty_is_empty() {
    let b = op(vec![skip(1), ins("zz"), del(1)]);
    assert_eq!(text_transform(Op::new(), &b, Side::Left), Op::new());
    assert_eq!(text_transform(Op::new(), &b, Side::Right), Op::new());
}

#[test]
fn transform_converges_on_concurrent_edits() {
    // Two clients edit "abcdef" concurrently; both orders give one document.
    let a = op(vec![skip(1), ins("X"), skip(2), del(2)]);
    let b = op(vec![del(2), skip(2), ins("Y")]);

    let a_prime = text_transform(a.clone(), &b, Side::Left);
    let b_prime = text_transform(b.clone(), &a, Side::Right);

    let mut doc1 = TextBuffer::from_chars(chars_of("abcdef"));
    text_apply(&mut doc1, &a);
    text_apply(&mut doc1, &b_prime);

    let mut doc2 = TextBuffer::from_chars(chars_of("abcdef"));
    text_apply(&mut doc2, &b);
    text_apply(&mut doc2, &a_prime);

    assert_eq!(doc1.as_chars(), doc2.as_chars());
}

#[test]
fn append_merges_and_drops_empties() {
    let mut o = Op::new();
    o.append(skip(2));
    o.append(skip(3));
    o.append(ins(""));
    o.append(ins("ab"));
    o.append(ins("cd"));
    o.append(del(1));
    o.append(del(4));
    assert_eq!(o.as_components(), &vec![skip(5), ins("abcd"), del(5)]);
}

#[test]
fn length_accounting() {
    // Applying changes the length by inserted minus deleted codepoints,
    // and normalization keeps the deleted and inserted counts.
    let mut s = TextBuffer::from_chars(chars_of("abcdef"));
    text_apply(&mut s, &op(vec![skip(1), del(2), ins("xyz")]));
    assert_eq!(s.as_chars().len(), 6 - 2 + 3);

    let normalized = op(vec![del(1), del(2), ins("ab"), ins("c"), skip(4)]);
    assert_eq!(normalized.as_components(), &vec![del(3), ins("abc")]);
}

#[test]
fn normalize_is_idempotent_on_samples() {
    let raw = vec![skip(0), ins("a"), ins("b"), skip(1), skip(2), del(0), del(3), skip(4)];
    let once = op(raw.clone());
    let twice = Op::from_components(once.as_components().clone());
    assert_eq!(once, twice);
}
