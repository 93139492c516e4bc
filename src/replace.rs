//! Splicing a batch of remove-and-reinsert edits into a byte buffer, either
//! byte for byte or by whole lines.
use vstd::prelude::*;

verus! {

/// Replace the bytes of `remove_range` with the bytes of `add_ranges`, each
/// taken from the input text, in order.
pub struct ReplaceRange {
    pub remove_range: std::ops::Range<usize>,
    pub add_ranges: Vec<std::ops::Range<usize>>,
}

/// A batch whose spans leave the text, run backwards, or whose removals are not
/// ascending and disjoint.
#[derive(Debug, Clone, Copy, PartialEq, Eq, Structural)]
pub enum BatchError {
    MalformedOperationBatch,
}

/// The span lies inside a text of `n` bytes and does not run backwards.
pub open spec fn span_ok(r: std::ops::Range<usize>, n: int) -> bool {
    r.start <= r.end && r.end <= n
}

pub open spec fn op_ok(op: ReplaceRange, n: int) -> bool {
    &&& span_ok(op.remove_range, n)
    &&& forall|j: int| 0 <= j < op.add_ranges@.len() ==> span_ok(#[trigger] op.add_ranges@[j], n)
}

/// Every span is in bounds, and the removals are ascending and pairwise disjoint.
pub open spec fn batch_ok(ops: Seq<ReplaceRange>, n: int) -> bool {
    &&& forall|i: int| 0 <= i < ops.len() ==> op_ok(#[trigger] ops[i], n)
    &&& forall|i: int|
        0 <= i < ops.len() - 1 ==> (#[trigger] ops[i]).remove_range.end <= ops[i + 1].remove_range.start
}

pub open spec fn span_len(r: std::ops::Range<usize>) -> int {
    r.end - r.start
}

/// The bytes of the spans, concatenated in order.
pub open spec fn gathered(input: Seq<u8>, spans: Seq<std::ops::Range<usize>>) -> Seq<u8>
    decreases spans.len(),
{
    if spans.len() == 0 {
        seq![]
    } else {
        gathered(input, spans.drop_last()) + input.subrange(
            spans.last().start as int,
            spans.last().end as int,
        )
    }
}

/// Byte-exact splice: the text from `cursor` with each operation applied.
pub open spec fn spliced(input: Seq<u8>, ops: Seq<ReplaceRange>, cursor: int) -> Seq<u8>
    decreases ops.len(),
{
    if ops.len() == 0 {
        input.subrange(cursor, input.len() as int)
    } else {
        input.subrange(cursor, ops[0].remove_range.start as int) + gathered(
            input,
            ops[0].add_ranges@,
        ) + spliced(input, ops.drop_first(), ops[0].remove_range.end as int)
    }
}

/// Appends `input[start..end]` to `out`.
fn copy_span(out: &mut Vec<u8>, input: &[u8], start: usize, end: usize)
    requires
        start <= end <= input@.len(),
    ensures
        final(out)@ == old(out)@ + input@.subrange(start as int, end as int),
{
    let mut i: usize = start;
    while i < end
        invariant
            start <= i <= end <= input@.len(),
            out@ == old(out)@ + input@.subrange(start as int, i as int),
        decreases end - i,
    {
        out.push(input[i]);
        i = i + 1;
        assert(out@ =~= old(out)@ + input@.subrange(start as int, i as int));
    }
}

/// Tells whether `replaces` is a well-formed batch over a text of `len` bytes.
pub fn check_batch(replaces: &[ReplaceRange], len: usize) -> (r: bool)
    ensures
        r == batch_ok(replaces@, len as int),
{
    let mut i: usize = 0;
    while i < replaces.len()
        invariant
            0 <= i <= replaces@.len(),
            forall|k: int| 0 <= k < i ==> op_ok(#[trigger] replaces@[k], len as int),
            forall|k: int|
                0 <= k < i - 1 ==> (#[trigger] replaces@[k]).remove_range.end
                    <= replaces@[k + 1].remove_range.start,
        decreases replaces@.len() - i,
    {
        let op = &replaces[i];
        if !(op.remove_range.start <= op.remove_range.end && op.remove_range.end <= len) {
            return false;
        }
        if i > 0 && replaces[i - 1].remove_range.end > op.remove_range.start {
            assert(!((replaces@[i - 1]).remove_range.end <= replaces@[i - 1 + 1].remove_range.start));
            return false;
        }
        let mut j: usize = 0;
        while j < op.add_ranges.len()
            invariant
                0 <= j <= op.add_ranges@.len(),
                i < replaces@.len(),
                *op == replaces@[i as int],
                forall|m: int| 0 <= m < j ==> span_ok(#[trigger] op.add_ranges@[m], len as int),
            decreases op.add_ranges@.len() - j,
        {
            let a = &op.add_ranges[j];
            if !(a.start <= a.end && a.end <= len) {
                assert(!span_ok(op.add_ranges@[j as int], len as int));
                assert(!op_ok(replaces@[i as int], len as int));
                return false;
            }
            j = j + 1;
        }
        i = i + 1;
    }
    true
}

/// Appends the bytes of each span in `adds`, in order.
fn copy_spans(out: &mut Vec<u8>, input: &[u8], adds: &Vec<std::ops::Range<usize>>)
    requires
        forall|j: int| 0 <= j < adds@.len() ==> span_ok(#[trigger] adds@[j], input@.len() as int),
    ensures
        final(out)@ == old(out)@ + gathered(input@, adds@),
{
    let mut j: usize = 0;
    while j < adds.len()
        invariant
            0 <= j <= adds@.len(),
            forall|k: int| 0 <= k < adds@.len() ==> span_ok(#[trigger] adds@[k], input@.len() as int),
            out@ == old(out)@ + gathered(input@, adds@.subrange(0, j as int)),
        decreases adds@.len() - j,
    {
        let a = &adds[j];
        assert(span_ok(adds@[j as int], input@.len() as int));
        copy_span(out, input, a.start, a.end);
        assert(adds@.subrange(0, j + 1).drop_last() =~= adds@.subrange(0, j as int));
        j = j + 1;
        assert(out@ =~= old(out)@ + gathered(input@, adds@.subrange(0, j as int)));
    }
    assert(adds@.subrange(0, adds@.len() as int) =~= adds@);
}

/// Applies `replaces` to `input` byte for byte: the text between removals is
/// copied verbatim, and each removed span gives way to the bytes of its
/// `add_ranges`. A malformed batch is refused before anything is copied.
pub fn apply_replaces(input: &[u8], replaces: &[ReplaceRange]) -> (r: Result<
    Vec<u8>,
    BatchError,
>)
    ensures
        r is Ok <==> batch_ok(replaces@, input@.len() as int),
        r is Ok ==> r->Ok_0@ == spliced(input@, replaces@, 0),
        r is Err ==> r->Err_0 == BatchError::MalformedOperationBatch,
{
    if !check_batch(replaces, input.len()) {
        return Err(BatchError::MalformedOperationBatch);
    }
    let ghost ops = replaces@;
    let ghost n = input@.len() as int;
    let mut out: Vec<u8> = Vec::new();
    let mut cursor: usize = 0;
    let mut i: usize = 0;
    assert(ops.subrange(0, ops.len() as int) =~= ops);
    while i < replaces.len()
        invariant
            batch_ok(ops, n),
            ops == replaces@,
            n == input@.len(),
            0 <= i <= ops.len(),
            cursor <= n,
            i < ops.len() ==> cursor <= ops[i as int].remove_range.start,
            out@ + spliced(input@, ops.subrange(i as int, ops.len() as int), cursor as int)
                == spliced(input@, ops, 0),
        decreases ops.len() - i,
    {
        let op = &replaces[i];
        assert(op_ok(ops[i as int], n));
        let ghost rest = ops.subrange(i as int, ops.len() as int);
        assert(rest.drop_first() =~= ops.subrange(i + 1, ops.len() as int));
        copy_span(&mut out, input, cursor, op.remove_range.start);
        copy_spans(&mut out, input, &op.add_ranges);
        cursor = op.remove_range.end;
        i = i + 1;
        assert(out@ + spliced(input@, ops.subrange(i as int, ops.len() as int), cursor as int)
            =~= spliced(input@, ops, 0));
    }
    copy_span(&mut out, input, cursor, input.len());
    Ok(out)
}

/// Net change in length that a batch makes: what each operation adds, less
/// what it removes.
pub open spec fn batch_delta(ops: Seq<ReplaceRange>) -> int
    decreases ops.len(),
{
    if ops.len() == 0 {
        0
    } else {
        batch_delta(ops.drop_first()) + gathered_len(ops[0].add_ranges@) - span_len(
            ops[0].remove_range,
        )
    }
}

/// Total length of the spans.
pub open spec fn gathered_len(spans: Seq<std::ops::Range<usize>>) -> int
    decreases spans.len(),
{
    if spans.len() == 0 {
        0
    } else {
        gathered_len(spans.drop_last()) + span_len(spans.last())
    }
}

/// The spans of the input text that make up the output, in output order:
/// each kept gap, then the additions of the operation that follows it, and
/// finally the tail after the last removal.
pub open spec fn output_spans(ops: Seq<ReplaceRange>, cursor: usize, n: usize) -> Seq<
    std::ops::Range<usize>,
>
    decreases ops.len(),
{
    if ops.len() == 0 {
        seq![std::ops::Range { start: cursor, end: n }]
    } else {
        seq![std::ops::Range { start: cursor, end: ops[0].remove_range.start }] + ops[0].add_ranges@ + output_spans(
            ops.drop_first(),
            ops[0].remove_range.end,
            n,
        )
    }
}

proof fn lemma_gathered_len(input: Seq<u8>, spans: Seq<std::ops::Range<usize>>)
    requires
        forall|j: int| 0 <= j < spans.len() ==> span_ok(#[trigger] spans[j], input.len() as int),
    ensures
        gathered(input, spans).len() == gathered_len(spans),
    decreases spans.len(),
{
    if spans.len() > 0 {
        let init = spans.drop_last();
        assert forall|j: int| 0 <= j < init.len() implies span_ok(#[trigger] init[j], input.len() as int) by {
            assert(init[j] == spans[j]);
        }
        lemma_gathered_len(input, init);
    }
}

proof fn lemma_gathered_append(
    input: Seq<u8>,
    a: Seq<std::ops::Range<usize>>,
    b: Seq<std::ops::Range<usize>>,
)
    ensures
        gathered(input, a + b) == gathered(input, a) + gathered(input, b),
    decreases b.len(),
{
    if b.len() == 0 {
        assert(a + b =~= a);
        assert(gathered(input, a) + gathered(input, b) =~= gathered(input, a));
    } else {
        assert((a + b).drop_last() =~= a + b.drop_last());
        lemma_gathered_append(input, a, b.drop_last());
        assert(gathered(input, a + b) =~= gathered(input, a) + gathered(input, b));
    }
}

proof fn lemma_batch_tail(ops: Seq<ReplaceRange>, n: int)
    requires
        ops.len() > 0,
        batch_ok(ops, n),
    ensures
        batch_ok(ops.drop_first(), n),
        op_ok(ops[0], n),
        ops.len() > 1 ==> ops[0].remove_range.end <= ops[1].remove_range.start,
{
    let t = ops.drop_first();
    assert forall|i: int| 0 <= i < t.len() implies op_ok(#[trigger] t[i], n) by {
        assert(t[i] == ops[i + 1]);
    }
    assert forall|i: int| 0 <= i < t.len() - 1 implies (#[trigger] t[i]).remove_range.end
        <= t[i + 1].remove_range.start by {
        assert(t[i] == ops[i + 1]);
    }
    assert(op_ok(ops[0], n));
}

proof fn lemma_spliced_len(input: Seq<u8>, ops: Seq<ReplaceRange>, cursor: int)
    requires
        batch_ok(ops, input.len() as int),
        0 <= cursor <= input.len(),
        ops.len() > 0 ==> cursor <= ops[0].remove_range.start,
    ensures
        spliced(input, ops, cursor).len() == input.len() - cursor + batch_delta(ops),
    decreases ops.len(),
{
    if ops.len() > 0 {
        lemma_batch_tail(ops, input.len() as int);
        lemma_gathered_len(input, ops[0].add_ranges@);
        lemma_spliced_len(input, ops.drop_first(), ops[0].remove_range.end as int);
    }
}

proof fn lemma_spliced_spans(input: Seq<u8>, ops: Seq<ReplaceRange>, cursor: usize)
    requires
        batch_ok(ops, input.len() as int),
        cursor <= input.len() <= usize::MAX,
        ops.len() > 0 ==> cursor <= ops[0].remove_range.start,
    ensures
        spliced(input, ops, cursor as int) == gathered(input, output_spans(ops, cursor, input.len() as usize)),
        forall|j: int|
            0 <= j < output_spans(ops, cursor, input.len() as usize).len() ==> span_ok(
                #[trigger] output_spans(ops, cursor, input.len() as usize)[j],
                input.len() as int,
            ),
    decreases ops.len(),
{
    let n = input.len() as usize;
    let sp = output_spans(ops, cursor, n);
    if ops.len() == 0 {
        assert(sp.drop_last() =~= Seq::<std::ops::Range<usize>>::empty());
        assert(sp.last().start == cursor && sp.last().end == n);
        assert(gathered(input, sp.drop_last()) == Seq::<u8>::empty());
        assert(gathered(input, sp) == gathered(input, sp.drop_last()) + input.subrange(cursor as int, n as int));
        assert(gathered(input, sp) =~= input.subrange(cursor as int, n as int));
    } else {
        lemma_batch_tail(ops, n as int);
        let op = ops[0];
        let head = seq![std::ops::Range { start: cursor, end: op.remove_range.start }];
        let rest = output_spans(ops.drop_first(), op.remove_range.end, n);
        lemma_spliced_spans(input, ops.drop_first(), op.remove_range.end);
        lemma_gathered_append(input, head + op.add_ranges@, rest);
        lemma_gathered_append(input, head, op.add_ranges@);
        assert(head.drop_last() =~= Seq::<std::ops::Range<usize>>::empty());
        assert(gathered(input, head.drop_last()) == Seq::<u8>::empty());
        assert(head.last().start == cursor);
        assert(gathered(input, head) =~= input.subrange(cursor as int, op.remove_range.start as int));
        assert(sp == head + op.add_ranges@ + rest);
        assert forall|j: int| 0 <= j < sp.len() implies span_ok(#[trigger] sp[j], n as int) by {
            if j == 0 {
            } else if j < 1 + op.add_ranges@.len() {
                assert(sp[j] == op.add_ranges@[j - 1]);
            } else {
                assert(sp[j] == rest[j - 1 - op.add_ranges@.len()]);
            }
        }
    }
}

proof fn lemma_batch_sorted(ops: Seq<ReplaceRange>, n: int, i: int, j: int)
    requires
        batch_ok(ops, n),
        0 <= i < j < ops.len(),
    ensures
        ops[i].remove_range.end <= ops[j].remove_range.start,
    decreases j - i,
{
    if j > i + 1 {
        lemma_batch_sorted(ops, n, i, j - 1);
        assert(op_ok(ops[j - 1], n));
    }
}

/// The additions lie inside the removal, in order and without overlap, and
/// no span runs backwards.
pub open spec fn nested_plan(op: ReplaceRange) -> bool {
    &&& op.remove_range.start <= op.remove_range.end
    &&& forall|k: int|
        0 <= k < op.add_ranges@.len() ==> op.remove_range.start <= (#[trigger] op.add_ranges@[k]).start
            && op.add_ranges@[k].start <= op.add_ranges@[k].end && op.add_ranges@[k].end
            <= op.remove_range.end
    &&& forall|k: int, m: int|
        0 <= k < m < op.add_ranges@.len() ==> (#[trigger] op.add_ranges@[k]).end
            <= (#[trigger] op.add_ranges@[m]).start
}

/// An operation whose additions nest in its removal is, alone, a well-formed
/// batch over any text that holds its removal.
pub proof fn law_nested_plan_is_batch(op: ReplaceRange, n: int)
    requires
        nested_plan(op),
        op.remove_range.end <= n,
    ensures
        batch_ok(seq![op], n),
{
    assert(seq![op][0] == op);
}

/// An empty batch leaves the text as it is.
pub proof fn law_empty_batch_is_identity(input: Seq<u8>)
    ensures
        spliced(input, seq![], 0) == input,
{
    assert(input.subrange(0, input.len() as int) =~= input);
}

/// The output of a well-formed batch is as long as the input, plus what each
/// operation adds, less what it removes.
pub proof fn law_spliced_length(input: Seq<u8>, ops: Seq<ReplaceRange>)
    requires
        batch_ok(ops, input.len() as int),
    ensures
        spliced(input, ops, 0).len() == input.len() + batch_delta(ops),
{
    lemma_spliced_len(input, ops, 0);
}

/// The output of a well-formed batch is the concatenation of spans of the
/// input, kept gaps and additions in cursor order, each inside the input.
pub proof fn law_spliced_is_input_spans(input: Seq<u8>, ops: Seq<ReplaceRange>)
    requires
        batch_ok(ops, input.len() as int),
        input.len() <= usize::MAX,
    ensures
        spliced(input, ops, 0) == gathered(input, output_spans(ops, 0, input.len() as usize)),
        forall|j: int|
            0 <= j < output_spans(ops, 0, input.len() as usize).len() ==> span_ok(
                #[trigger] output_spans(ops, 0, input.len() as usize)[j],
                input.len() as int,
            ),
{
    lemma_spliced_spans(input, ops, 0);
}

/// A batch in which two removals overlap is not well-formed, so the engines
/// refuse it.
pub proof fn law_overlap_is_rejected(ops: Seq<ReplaceRange>, n: int, i: int, j: int)
    requires
        0 <= i < ops.len(),
        0 <= j < ops.len(),
        i != j,
        ops[i].remove_range.start < ops[j].remove_range.end,
        ops[j].remove_range.start < ops[i].remove_range.end,
    ensures
        !batch_ok(ops, n),
{
    if batch_ok(ops, n) {
        if i < j {
            lemma_batch_sorted(ops, n, i, j);
        } else {
            lemma_batch_sorted(ops, n, j, i);
        }
    }
}

/// The pieces of the text between `\n` bytes, the separators dropped; there is
/// always one more piece than there are `\n` bytes.
pub open spec fn pieces(input: Seq<u8>) -> Seq<Seq<u8>>
    decreases input.len(),
{
    if input.len() == 0 {
        seq![seq![]]
    } else {
        let p = pieces(input.drop_last());
        if input.last() == 10u8 {
            p.push(seq![])
        } else {
            p.update(p.len() - 1, p.last().push(input.last()))
        }
    }
}

proof fn lemma_pieces_nonempty(input: Seq<u8>)
    ensures
        pieces(input).len() >= 1,
    decreases input.len(),
{
    if input.len() > 0 {
        lemma_pieces_nonempty(input.drop_last());
    }
}

/// Number of lines: a final piece that is empty (text that is empty or ends in
/// `\n`) is no line.
pub open spec fn line_count(input: Seq<u8>) -> int {
    let p = pieces(input);
    if p.last().len() == 0 {
        p.len() - 1
    } else {
        p.len() as int
    }
}

/// The text of line `k`: its piece, less one `\r` just before the `\n` that ends it.
pub open spec fn line_text(input: Seq<u8>, k: int) -> Seq<u8> {
    let p = pieces(input)[k];
    if k + 1 < pieces(input).len() && p.len() > 0 && p.last() == 13u8 {
        p.drop_last()
    } else {
        p
    }
}

pub open spec fn newline_count(input: Seq<u8>) -> int
    decreases input.len(),
{
    if input.len() == 0 {
        0
    } else {
        newline_count(input.drop_last()) + if input.last() == 10u8 {
            1int
        } else {
            0int
        }
    }
}

/// 0-based index of the line that holds byte `pos`: the number of `\n` bytes
/// before it, a position past the end counting as the end.
pub open spec fn row_of(input: Seq<u8>, pos: int) -> int {
    newline_count(input.subrange(0, if pos < input.len() { pos } else { input.len() as int }))
}

/// Line indices `a, a + 1, ..` up to `b` exclusive, where `b` is held to the
/// number of lines.
pub open spec fn line_run(input: Seq<u8>, a: int, b: int) -> Seq<int>
    decreases b - a,
{
    let e = if b < line_count(input) { b } else { line_count(input) };
    if a >= e {
        seq![]
    } else {
        line_run(input, a, e - 1).push(e - 1)
    }
}

/// Lines of the additions: from the line holding a span's start through the
/// line holding its end.
pub open spec fn added_lines(input: Seq<u8>, adds: Seq<std::ops::Range<usize>>) -> Seq<int>
    decreases adds.len(),
{
    if adds.len() == 0 {
        seq![]
    } else {
        added_lines(input, adds.drop_last()) + line_run(
            input,
            row_of(input, adds.last().start as int),
            row_of(input, adds.last().end as int) + 1,
        )
    }
}

/// Line-aligned splice: the indices of the lines kept, from the line of `cursor` on.
pub open spec fn selected_lines(input: Seq<u8>, ops: Seq<ReplaceRange>, cursor: int) -> Seq<int>
    decreases ops.len(),
{
    if ops.len() == 0 {
        line_run(input, row_of(input, cursor), line_count(input))
    } else {
        line_run(input, row_of(input, cursor), row_of(input, ops[0].remove_range.start as int))
            + added_lines(input, ops[0].add_ranges@) + selected_lines(
            input,
            ops.drop_first(),
            ops[0].remove_range.end as int,
        )
    }
}

/// Each selected line followed by `\n`.
pub open spec fn emitted(input: Seq<u8>, idx: Seq<int>) -> Seq<u8>
    decreases idx.len(),
{
    if idx.len() == 0 {
        seq![]
    } else {
        emitted(input, idx.drop_last()) + line_text(input, idx.last()) + seq![10u8]
    }
}

/// The selected lines joined by `\n`, with one `\n` after the last: a lone
/// `\n` when no line is selected.
pub open spec fn rejoined(input: Seq<u8>, idx: Seq<int>) -> Seq<u8> {
    if idx.len() == 0 {
        seq![10u8]
    } else {
        emitted(input, idx)
    }
}

proof fn lemma_emitted_append(input: Seq<u8>, a: Seq<int>, b: Seq<int>)
    ensures
        emitted(input, a + b) == emitted(input, a) + emitted(input, b),
    decreases b.len(),
{
    if b.len() == 0 {
        assert(a + b =~= a);
        assert(emitted(input, a) + emitted(input, b) =~= emitted(input, a));
    } else {
        assert((a + b).drop_last() =~= a + b.drop_last());
        lemma_emitted_append(input, a, b.drop_last());
        assert(emitted(input, a + b) =~= emitted(input, a) + emitted(input, b));
    }
}

proof fn lemma_emitted_len(input: Seq<u8>, idx: Seq<int>)
    ensures
        emitted(input, idx).len() >= idx.len(),
    decreases idx.len(),
{
    if idx.len() > 0 {
        lemma_emitted_len(input, idx.drop_last());
    }
}

/// Splits the text at `\n` bytes into its pieces.
fn split_pieces(input: &[u8]) -> (r: Vec<Vec<u8>>)
    ensures
        r@.len() == pieces(input@).len(),
        forall|k: int| 0 <= k < r@.len() ==> (#[trigger] r@[k])@ == pieces(input@)[k],
{
    let mut done: Vec<Vec<u8>> = Vec::new();
    let mut cur: Vec<u8> = Vec::new();
    let mut i: usize = 0;
    assert(input@.subrange(0, 0) =~= Seq::<u8>::empty());
    while i < input.len()
        invariant
            0 <= i <= input@.len(),
            pieces(input@.subrange(0, i as int)).len() == done@.len() + 1,
            forall|k: int|
                0 <= k < done@.len() ==> (#[trigger] done@[k])@ == pieces(
                    input@.subrange(0, i as int),
                )[k],
            cur@ == pieces(input@.subrange(0, i as int)).last(),
        decreases input@.len() - i,
    {
        assert(input@.subrange(0, i + 1).drop_last() =~= input@.subrange(0, i as int));
        let b = input[i];
        if b == 10u8 {
            done.push(cur);
            cur = Vec::new();
            assert(cur@ =~= Seq::<u8>::empty());
        } else {
            cur.push(b);
        }
        i = i + 1;
    }
    assert(input@.subrange(0, input@.len() as int) =~= input@);
    done.push(cur);
    done
}

/// The 0-based index of the line that holds byte `pos`.
fn row_at(input: &[u8], pos: usize) -> (r: usize)
    ensures
        r == row_of(input@, pos as int),
{
    let end = if pos < input.len() {
        pos
    } else {
        input.len()
    };
    let mut count: usize = 0;
    let mut i: usize = 0;
    assert(input@.subrange(0, 0) =~= Seq::<u8>::empty());
    while i < end
        invariant
            0 <= i <= end <= input@.len(),
            count <= i,
            count == newline_count(input@.subrange(0, i as int)),
        decreases end - i,
    {
        assert(input@.subrange(0, i + 1).drop_last() =~= input@.subrange(0, i as int));
        if input[i] == 10u8 {
            count = count + 1;
        }
        i = i + 1;
    }
    count
}

/// Appends line `k`, then `\n`.
fn emit_line(out: &mut Vec<u8>, lines: &Vec<Vec<u8>>, k: usize, Ghost(input): Ghost<Seq<u8>>)
    requires
        lines@.len() == pieces(input).len(),
        forall|m: int| 0 <= m < lines@.len() ==> (#[trigger] lines@[m])@ == pieces(input)[m],
        k < lines@.len(),
    ensures
        final(out)@ == old(out)@ + line_text(input, k as int) + seq![10u8],
{
    let p = &lines[k];
    assert(p@ == pieces(input)[k as int]);
    let mut end = p.len();
    if k < lines.len() - 1 && end > 0 && p[end - 1] == 13u8 {
        end = end - 1;
    }
    let mut i: usize = 0;
    while i < end
        invariant
            0 <= i <= end <= p@.len(),
            out@ == old(out)@ + p@.subrange(0, i as int),
        decreases end - i,
    {
        out.push(p[i]);
        i = i + 1;
        assert(out@ =~= old(out)@ + p@.subrange(0, i as int));
    }
    assert(p@.subrange(0, end as int) =~= line_text(input, k as int));
    out.push(10u8);
}

proof fn lemma_line_run_step(input: Seq<u8>, a: int, k: int)
    requires
        a <= k,
        k + 1 <= line_count(input),
    ensures
        line_run(input, a, k + 1) == line_run(input, a, k).push(k),
{
    let e = if k + 1 < line_count(input) { k + 1 } else { line_count(input) };
    assert(e == k + 1);
    assert(line_run(input, a, k + 1) == line_run(input, a, e - 1).push(e - 1));
}

/// Appends the lines of `line_run(input, a, b)`, each followed by `\n`.
fn emit_run(
    out: &mut Vec<u8>,
    lines: &Vec<Vec<u8>>,
    nlines: usize,
    a: usize,
    b: usize,
    Ghost(input): Ghost<Seq<u8>>,
)
    requires
        lines@.len() == pieces(input).len(),
        forall|m: int| 0 <= m < lines@.len() ==> (#[trigger] lines@[m])@ == pieces(input)[m],
        nlines == line_count(input),
        nlines <= lines@.len(),
    ensures
        final(out)@ == old(out)@ + emitted(input, line_run(input, a as int, b as int)),
{
    let e = if b < nlines {
        b
    } else {
        nlines
    };
    let mut k: usize = a;
    assert(line_run(input, a as int, a as int) =~= Seq::<int>::empty());
    if a < e {
        while k < e
            invariant
                a <= k <= e <= nlines <= lines@.len(),
                nlines == line_count(input),
                e as int == (if b < line_count(input) { b as int } else { line_count(input) }),
                lines@.len() == pieces(input).len(),
                forall|m: int| 0 <= m < lines@.len() ==> (#[trigger] lines@[m])@ == pieces(input)[m],
                out@ == old(out)@ + emitted(input, line_run(input, a as int, k as int)),
            decreases e - k,
        {
            emit_line(out, lines, k, Ghost(input));
            proof {
                lemma_line_run_step(input, a as int, k as int);
                let run = line_run(input, a as int, k as int);
                assert(run.push(k as int).drop_last() =~= run);
            }
            k = k + 1;
            assert(out@ =~= old(out)@ + emitted(input, line_run(input, a as int, k as int)));
        }
        assert(line_run(input, a as int, b as int) == line_run(input, a as int, e as int));
    } else {
        assert(out@ =~= old(out)@ + emitted(input, line_run(input, a as int, b as int)));
    }
}

/// Appends the lines of the additions of one operation.
fn emit_added(
    out: &mut Vec<u8>,
    input: &[u8],
    lines: &Vec<Vec<u8>>,
    nlines: usize,
    adds: &Vec<std::ops::Range<usize>>,
    Ghost(sel): Ghost<Seq<int>>,
)
    requires
        lines@.len() == pieces(input@).len(),
        forall|m: int| 0 <= m < lines@.len() ==> (#[trigger] lines@[m])@ == pieces(input@)[m],
        nlines == line_count(input@),
        nlines <= lines@.len(),
        old(out)@ == emitted(input@, sel),
    ensures
        final(out)@ == emitted(input@, sel + added_lines(input@, adds@)),
{
    let mut j: usize = 0;
    assert(sel + added_lines(input@, adds@.subrange(0, 0)) =~= sel);
    while j < adds.len()
        invariant
            0 <= j <= adds@.len(),
            lines@.len() == pieces(input@).len(),
            forall|m: int| 0 <= m < lines@.len() ==> (#[trigger] lines@[m])@ == pieces(input@)[m],
            nlines == line_count(input@),
            nlines <= lines@.len(),
            out@ == emitted(input@, sel + added_lines(input@, adds@.subrange(0, j as int))),
        decreases adds@.len() - j,
    {
        let ghost before = sel + added_lines(input@, adds@.subrange(0, j as int));
        let a = &adds[j];
        let lo = row_at(input, a.start);
        let last = row_at(input, a.end);
        let hi = if last < usize::MAX {
            last + 1
        } else {
            last
        };
        assert(line_run(input@, lo as int, hi as int) == line_run(
            input@,
            lo as int,
            last + 1,
        ));
        emit_run(out, lines, nlines, lo, hi, Ghost(input@));
        proof {
            let run = line_run(input@, lo as int, hi as int);
            lemma_emitted_append(input@, before, run);
            assert(adds@.subrange(0, j + 1).drop_last() =~= adds@.subrange(0, j as int));
            assert(before + run =~= sel + added_lines(input@, adds@.subrange(0, j + 1)));
        }
        j = j + 1;
    }
    assert(adds@.subrange(0, adds@.len() as int) =~= adds@);
}

/// Applies `replaces` to `input` by whole lines: for each operation, the
/// lines from the cursor's line up to the line of the removal's start, then
/// for each addition the lines from its start's line through its end's line;
/// after the last operation, the lines from the cursor's line on. The lines
/// are joined by `\n`, with one `\n` at the end. This is exact only where the
/// spans begin and end at line boundaries. A malformed batch is refused.
pub fn apply_replaces_lines(input: &[u8], replaces: &[ReplaceRange]) -> (r: Result<
    Vec<u8>,
    BatchError,
>)
    ensures
        r is Ok <==> batch_ok(replaces@, input@.len() as int),
        r is Ok ==> r->Ok_0@ == rejoined(input@, selected_lines(input@, replaces@, 0)),
        r is Err ==> r->Err_0 == BatchError::MalformedOperationBatch,
{
    if !check_batch(replaces, input.len()) {
        return Err(BatchError::MalformedOperationBatch);
    }
    let ghost ops = replaces@;
    let lines = split_pieces(input);
    proof {
        lemma_pieces_nonempty(input@);
    }
    let nlines = if lines[lines.len() - 1].len() == 0 {
        lines.len() - 1
    } else {
        lines.len()
    };
    let mut out: Vec<u8> = Vec::new();
    let ghost mut sel: Seq<int> = seq![];
    let mut cursor: usize = 0;
    let mut i: usize = 0;
    assert(ops.subrange(0, ops.len() as int) =~= ops);
    assert(sel + selected_lines(input@, ops, 0) =~= selected_lines(input@, ops, 0));
    while i < replaces.len()
        invariant
            batch_ok(ops, input@.len() as int),
            ops == replaces@,
            0 <= i <= ops.len(),
            lines@.len() == pieces(input@).len(),
            forall|m: int| 0 <= m < lines@.len() ==> (#[trigger] lines@[m])@ == pieces(input@)[m],
            nlines == line_count(input@),
            nlines <= lines@.len(),
            out@ == emitted(input@, sel),
            sel + selected_lines(input@, ops.subrange(i as int, ops.len() as int), cursor as int)
                == selected_lines(input@, ops, 0),
        decreases ops.len() - i,
    {
        let op = &replaces[i];
        let ghost rest = ops.subrange(i as int, ops.len() as int);
        assert(rest.drop_first() =~= ops.subrange(i + 1, ops.len() as int));
        assert(rest[0] == *op);
        let a = row_at(input, cursor);
        let b = row_at(input, op.remove_range.start);
        let ghost run = line_run(input@, a as int, b as int);
        emit_run(&mut out, &lines, nlines, a, b, Ghost(input@));
        proof {
            lemma_emitted_append(input@, sel, run);
        }
        emit_added(&mut out, input, &lines, nlines, &op.add_ranges, Ghost(sel + run));
        proof {
            sel = sel + run + added_lines(input@, op.add_ranges@);
        }
        cursor = op.remove_range.end;
        i = i + 1;
        assert(sel + selected_lines(input@, ops.subrange(i as int, ops.len() as int), cursor as int)
            =~= selected_lines(input@, ops, 0));
    }
    let a = row_at(input, cursor);
    let ghost run = line_run(input@, a as int, nlines as int);
    emit_run(&mut out, &lines, nlines, a, nlines, Ghost(input@));
    proof {
        lemma_emitted_append(input@, sel, run);
        sel = sel + run;
        assert(ops.subrange(i as int, ops.len() as int) =~= Seq::<ReplaceRange>::empty());
        assert(sel =~= selected_lines(input@, ops, 0));
        lemma_emitted_len(input@, sel);
    }
    if out.len() == 0 {
        out.push(10u8);
        assert(out@ =~= seq![10u8]);
    }
    Ok(out)
}

proof fn lemma_line_run_upto(input: Seq<u8>, b: int)
    requires
        0 <= b <= line_count(input),
    ensures
        line_run(input, 0, b).len() == b,
        forall|k: int| 0 <= k < b ==> #[trigger] line_run(input, 0, b)[k] == k,
    decreases b,
{
    if b > 0 {
        lemma_line_run_upto(input, b - 1);
        lemma_line_run_step(input, 0, b - 1);
    }
}

/// With an empty batch the line engine gives back every line of the text, in
/// order, each followed by `\n` (a lone `\n` when the text has no line).
pub proof fn law_empty_batch_keeps_all_lines(input: Seq<u8>)
    ensures
        selected_lines(input, seq![], 0).len() == line_count(input),
        forall|k: int|
            0 <= k < line_count(input) ==> #[trigger] selected_lines(input, seq![], 0)[k] == k,
{
    assert(input.subrange(0, 0) =~= Seq::<u8>::empty());
    lemma_pieces_nonempty(input);
    lemma_line_run_upto(input, line_count(input));
}

} // verus!
