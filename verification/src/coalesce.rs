use vstd::prelude::*;

use crate::batch::{cols_view, rows_of, schema_eq, Cell, RowBatch, Schema, SchemaView};
use crate::error::StreamError;

verus! {

/// `k` empty columns.
pub open spec fn empty_cols(k: nat) -> Seq<Seq<Cell>> {
    Seq::new(k, |j: int| Seq::<Cell>::empty())
}

/// Columnwise concatenation of two column sets of equal width.
pub open spec fn append_cols(a: Seq<Seq<Cell>>, b: Seq<Seq<Cell>>) -> Seq<Seq<Cell>> {
    Seq::new(a.len(), |j: int| a[j] + b[j])
}

/// The columns of rows `lo .. hi` of `c`.
pub open spec fn slice_cols(c: Seq<Seq<Cell>>, lo: int, hi: int) -> Seq<Seq<Cell>> {
    Seq::new(c.len(), |j: int| c[j].subrange(lo, hi))
}

/// Columnwise concatenation of the columns of a sequence of batches over `k`
/// columns, in order.
pub open spec fn batches_cols(bs: Seq<RowBatch>, k: nat) -> Seq<Seq<Cell>>
    decreases bs.len(),
{
    if bs.len() == 0 {
        empty_cols(k)
    } else {
        append_cols(batches_cols(bs.drop_last(), k), bs.last().cols())
    }
}

/// Columnwise concatenation of the columns of the decoded batches of `items`,
/// in arrival order, over `k` columns.
pub open spec fn items_cols(items: Seq<Result<RowBatch, StreamError>>, k: nat) -> Seq<Seq<Cell>>
    decreases items.len(),
{
    if items.len() == 0 {
        empty_cols(k)
    } else {
        let rest = items_cols(items.drop_last(), k);
        match items.last() {
            Ok(b) => append_cols(rest, b.cols()),
            Err(_) => rest,
        }
    }
}

/// The total number of rows of the decoded batches of `items`.
pub open spec fn total_rows(items: Seq<Result<RowBatch, StreamError>>) -> nat
    decreases items.len(),
{
    if items.len() == 0 {
        0
    } else {
        total_rows(items.drop_last()) + match items.last() {
            Ok(b) => b.nrows(),
            Err(_) => 0,
        }
    }
}

/// An input item is good for `schema` when it is a decoded batch, well
/// formed, carrying exactly `schema`.
pub open spec fn item_good(it: Result<RowBatch, StreamError>, schema: SchemaView) -> bool {
    match it {
        Ok(b) => b.wf() && b.schema_spec() == schema,
        Err(_) => false,
    }
}

/// The failure that a bad input item causes under `schema`: an upstream
/// failure is propagated verbatim, a batch of another schema is a mismatch.
pub open spec fn item_fault(it: Result<RowBatch, StreamError>, schema: SchemaView) -> StreamError {
    match it {
        Err(e) => e,
        Ok(_) => StreamError::SchemaMismatch,
    }
}

/// The first `n` items are all good for `schema`.
pub open spec fn good_upto(
    items: Seq<Result<RowBatch, StreamError>>,
    schema: SchemaView,
    n: int,
) -> bool {
    forall|i: int| 0 <= i < n ==> item_good(#[trigger] items[i], schema)
}

/// Every item is good for `schema`.
pub open spec fn all_good(items: Seq<Result<RowBatch, StreamError>>, schema: SchemaView) -> bool {
    good_upto(items, schema, items.len() as int)
}

proof fn lemma_batches_cols_len(bs: Seq<RowBatch>, k: nat)
    ensures
        batches_cols(bs, k).len() == k,
    decreases bs.len(),
{
    if bs.len() > 0 {
        lemma_batches_cols_len(bs.drop_last(), k);
    }
}

proof fn lemma_items_cols_len(items: Seq<Result<RowBatch, StreamError>>, k: nat)
    ensures
        items_cols(items, k).len() == k,
    decreases items.len(),
{
    if items.len() > 0 {
        lemma_items_cols_len(items.drop_last(), k);
    }
}

proof fn lemma_append_cols_empty_right(a: Seq<Seq<Cell>>)
    ensures
        append_cols(a, empty_cols(a.len())) == a,
{
    assert forall|j: int| 0 <= j < a.len() implies append_cols(a, empty_cols(a.len()))[j] == a[j] by {
        assert(a[j] + Seq::<Cell>::empty() =~= a[j]);
    }
    assert(append_cols(a, empty_cols(a.len())) =~= a);
}

proof fn lemma_append_cols_empty_left(b: Seq<Seq<Cell>>, k: nat)
    requires
        b.len() == k,
    ensures
        append_cols(empty_cols(k), b) == b,
{
    assert forall|j: int| 0 <= j < k implies append_cols(empty_cols(k), b)[j] == b[j] by {
        assert(Seq::<Cell>::empty() + b[j] =~= b[j]);
    }
    assert(append_cols(empty_cols(k), b) =~= b);
}

proof fn lemma_append_cols_assoc(a: Seq<Seq<Cell>>, b: Seq<Seq<Cell>>, c: Seq<Seq<Cell>>)
    requires
        b.len() == a.len(),
        c.len() == a.len(),
    ensures
        append_cols(append_cols(a, b), c) == append_cols(a, append_cols(b, c)),
{
    assert forall|j: int| 0 <= j < a.len() implies append_cols(append_cols(a, b), c)[j]
        == append_cols(a, append_cols(b, c))[j] by {
        assert((a[j] + b[j]) + c[j] =~= a[j] + (b[j] + c[j]));
    }
    assert(append_cols(append_cols(a, b), c) =~= append_cols(a, append_cols(b, c)));
}

proof fn lemma_slice_cols_split(c: Seq<Seq<Cell>>, lo: int, mid: int, hi: int)
    requires
        0 <= lo <= mid <= hi,
        forall|j: int| 0 <= j < c.len() ==> hi <= #[trigger] c[j].len(),
    ensures
        append_cols(slice_cols(c, lo, mid), slice_cols(c, mid, hi)) == slice_cols(c, lo, hi),
{
    assert forall|j: int| 0 <= j < c.len() implies append_cols(
        slice_cols(c, lo, mid),
        slice_cols(c, mid, hi),
    )[j] == slice_cols(c, lo, hi)[j] by {
        assert(c[j].subrange(lo, mid) + c[j].subrange(mid, hi) =~= c[j].subrange(lo, hi));
    }
    assert(append_cols(slice_cols(c, lo, mid), slice_cols(c, mid, hi)) =~= slice_cols(c, lo, hi));
}

proof fn lemma_slice_cols_full(c: Seq<Seq<Cell>>)
    requires
        forall|j: int| 0 <= j < c.len() ==> #[trigger] c[j].len() == rows_of(c),
    ensures
        slice_cols(c, 0, rows_of(c) as int) == c,
{
    assert forall|j: int| 0 <= j < c.len() implies slice_cols(c, 0, rows_of(c) as int)[j] == c[j] by {
        assert(c[j].subrange(0, rows_of(c) as int) =~= c[j]);
    }
    assert(slice_cols(c, 0, rows_of(c) as int) =~= c);
}

proof fn lemma_batches_cols_push(bs: Seq<RowBatch>, nb: RowBatch, k: nat)
    ensures
        batches_cols(bs.push(nb), k) == append_cols(batches_cols(bs, k), nb.cols()),
{
    assert(bs.push(nb).drop_last() =~= bs);
    assert(bs.push(nb).last() == nb);
}

proof fn lemma_items_cols_snoc(
    items: Seq<Result<RowBatch, StreamError>>,
    i: int,
    k: nat,
)
    requires
        0 <= i < items.len(),
    ensures
        items[i] matches Ok(b) ==> items_cols(items.subrange(0, i + 1), k) == append_cols(
            items_cols(items.subrange(0, i), k),
            b.cols(),
        ),
        items[i] matches Ok(b) ==> total_rows(items.subrange(0, i + 1)) == total_rows(
            items.subrange(0, i),
        ) + b.nrows(),
{
    let t = items.subrange(0, i + 1);
    assert(t.drop_last() =~= items.subrange(0, i));
    assert(t.last() == items[i]);
}

/// All-good items concatenate to a column set of full width whose columns all
/// have the total row count.
proof fn lemma_items_cols_rows(items: Seq<Result<RowBatch, StreamError>>, schema: SchemaView)
    requires
        all_good(items, schema),
    ensures
        items_cols(items, schema.len()).len() == schema.len(),
        forall|j: int| 0 <= j < schema.len() ==> #[trigger] items_cols(items, schema.len())[j].len()
            == total_rows(items),
        rows_of(items_cols(items, schema.len())) == total_rows(items),
    decreases items.len(),
{
    let k = schema.len();
    lemma_items_cols_len(items, k);
    if items.len() == 0 {
    } else {
        let prefix = items.drop_last();
        assert(all_good(prefix, schema)) by {
            assert(forall|i: int| 0 <= i < prefix.len() ==> prefix[i] == items[i]);
        }
        lemma_items_cols_rows(prefix, schema);
        assert(item_good(items[items.len() - 1], schema));
        let b = items.last()->Ok_0;
        assert(b.cols().len() == k);
        assert(forall|j: int| 0 <= j < k ==> #[trigger] b.cols()[j].len() == b.nrows());
    }
}

/// A coalescer buffers pushed rows and emits completed batches of exactly
/// `max_rows` rows; a final flush emits whatever remains. A `max_rows` of
/// zero turns the bound off: nothing is emitted before the final flush.
pub struct BatchCoalescer {
    schema: Schema,
    max_rows: usize,
    buffer: Vec<Vec<Cell>>,
    completed: Vec<RowBatch>,
}

impl BatchCoalescer {
    /// The schema every pushed batch must carry.
    pub closed spec fn schema_spec(&self) -> SchemaView {
        self.schema@
    }

    /// The configured row-count threshold.
    pub closed spec fn max_rows_spec(&self) -> nat {
        self.max_rows as nat
    }

    /// The rows buffered and not yet emitted, columnwise.
    pub closed spec fn buffered(&self) -> Seq<Seq<Cell>> {
        cols_view(self.buffer@)
    }

    /// The completed batches not yet drained, oldest first.
    pub closed spec fn completed_batches(&self) -> Seq<RowBatch> {
        self.completed@
    }

    /// Every row this coalescer holds: the completed batches' columns followed
    /// columnwise by the buffered columns.
    pub open spec fn content(&self) -> Seq<Seq<Cell>> {
        append_cols(
            batches_cols(self.completed_batches(), self.schema_spec().len()),
            self.buffered(),
        )
    }

    /// Structural well-formedness: one buffer column per schema field, all of
    /// one length, and every completed batch well formed under the schema.
    pub open spec fn shape_wf(&self) -> bool {
        &&& self.buffered().len() == self.schema_spec().len()
        &&& forall|j: int| 0 <= j < self.buffered().len() ==> #[trigger] self.buffered()[j].len()
            == rows_of(self.buffered())
        &&& forall|i: int| 0 <= i < self.completed_batches().len() ==> {
            &&& (#[trigger] self.completed_batches()[i]).wf()
            &&& self.completed_batches()[i].schema_spec() == self.schema_spec()
        }
    }

    /// Well-formedness between operations: additionally, when the threshold is
    /// positive, the buffer holds fewer than `max_rows` rows and no completed
    /// batch exceeds `max_rows` rows.
    pub open spec fn wf(&self) -> bool {
        &&& self.shape_wf()
        &&& self.max_rows_spec() > 0 ==> rows_of(self.buffered()) < self.max_rows_spec()
        &&& self.max_rows_spec() > 0 ==> forall|i: int|
            0 <= i < self.completed_batches().len() ==> (
            #[trigger] self.completed_batches()[i]).nrows() <= self.max_rows_spec()
    }

    /// Create an empty coalescer over `schema` with threshold `max_rows`.
    pub fn new(schema: Schema, max_rows: usize) -> (c: BatchCoalescer)
        ensures
            c.wf(),
            c.schema_spec() == schema@,
            c.max_rows_spec() == max_rows as nat,
            c.completed_batches() == Seq::<RowBatch>::empty(),
            c.buffered() == empty_cols(schema@.len()),
            c.content() == empty_cols(schema@.len()),
    {
        let k = schema.fields.len();
        let buffer = empty_columns(k);
        let c = BatchCoalescer { schema, max_rows, buffer, completed: Vec::new() };
        proof {
            assert(c.buffered() =~= empty_cols(c.schema_spec().len()));
            lemma_append_cols_empty_left(c.buffered(), c.schema_spec().len());
        }
        c
    }

    /// The number of rows now buffered.
    fn buffered_rows(&self) -> (n: usize)
        ensures
            n == rows_of(self.buffered()),
    {
        if self.buffer.len() == 0 {
            0
        } else {
            self.buffer[0].len()
        }
    }

    /// The number of completed batches not yet drained.
    pub fn num_completed(&self) -> (n: usize)
        ensures
            n == self.completed_batches().len(),
    {
        self.completed.len()
    }

    /// Move the buffered rows into one completed batch and clear the buffer.
    fn emit_buffer(&mut self)
        requires
            old(self).shape_wf(),
        ensures
            final(self).shape_wf(),
            final(self).schema_spec() == old(self).schema_spec(),
            final(self).max_rows_spec() == old(self).max_rows_spec(),
            final(self).buffered() == empty_cols(old(self).schema_spec().len()),
            final(self).completed_batches().len() == old(self).completed_batches().len() + 1,
            final(self).completed_batches().drop_last() == old(self).completed_batches(),
            final(self).completed_batches().last().wf(),
            final(self).completed_batches().last().schema_spec() == old(self).schema_spec(),
            final(self).completed_batches().last().cols() == old(self).buffered(),
            final(self).completed_batches().last().nrows() == rows_of(old(self).buffered()),
            final(self).content() == old(self).content(),
    {
        let k = self.buffer.len();
        let mut cols = empty_columns(k);
        core::mem::swap(&mut self.buffer, &mut cols);
        let schema2 = self.schema.duplicate();
        proof {
            assert(cols_view(cols@) == old(self).buffered());
            assert(crate::batch::shape_ok(schema2@, cols_view(cols@)));
        }
        match RowBatch::try_new(schema2, cols) {
            Ok(nb) => {
                self.completed.push(nb);
                proof {
                    let ghost k2 = old(self).schema_spec().len();
                    assert(self.buffered() =~= empty_cols(k2));
                    assert(self.completed_batches().drop_last()
                        =~= old(self).completed_batches());
                    lemma_batches_cols_push(old(self).completed_batches(), nb, k2);
                    lemma_batches_cols_len(self.completed_batches(), k2);
                    lemma_append_cols_empty_right(
                        batches_cols(self.completed_batches(), k2),
                    );
                    assert(final(self).content() == old(self).content());
                }
            },
            Err(_) => {
                proof {
                    assert(false);
                }
            },
        }
    }

    /// Append the rows of `batch`, which must carry this coalescer's schema.
    /// Each time the buffer fills to `max_rows` rows it is emitted as one
    /// completed batch of exactly `max_rows` rows; a remainder below the
    /// threshold stays buffered.
    pub fn push_batch(&mut self, batch: &RowBatch) -> (r: Result<(), StreamError>)
        requires
            old(self).wf(),
            batch.wf(),
        ensures
            final(self).wf(),
            final(self).schema_spec() == old(self).schema_spec(),
            final(self).max_rows_spec() == old(self).max_rows_spec(),
            r is Ok <==> batch.schema_spec() == old(self).schema_spec(),
            r is Err ==> r == Err::<(), StreamError>(StreamError::SchemaMismatch) && *final(self)
                == *old(self),
            r is Ok ==> final(self).content() == append_cols(old(self).content(), batch.cols()),
            r is Ok ==> final(self).completed_batches().len()
                >= old(self).completed_batches().len() && final(self).completed_batches().subrange(
                0,
                old(self).completed_batches().len() as int,
            ) == old(self).completed_batches(),
            r is Ok ==> forall|i: int|
                old(self).completed_batches().len() <= i
                    < final(self).completed_batches().len()
                    ==> (#[trigger] final(self).completed_batches()[i]).nrows()
                    == old(self).max_rows_spec(),
    {
        if !schema_eq(batch.schema(), &self.schema) {
            return Err(StreamError::SchemaMismatch);
        }
        let n = batch.num_rows();
        let mut start: usize = 0;
        proof {
            assert(slice_cols(batch.cols(), 0, 0) =~~= empty_cols(batch.cols().len()));
            lemma_append_cols_empty_right(old(self).content());
            lemma_batches_cols_len(old(self).completed_batches(), old(self).schema_spec().len());
        }
        while start < n
            invariant
                self.wf(),
                batch.wf(),
                self.schema_spec() == old(self).schema_spec(),
                self.max_rows_spec() == old(self).max_rows_spec(),
                batch.schema_spec() == self.schema_spec(),
                n == batch.nrows(),
                start <= n,
                self.content() == append_cols(
                    old(self).content(),
                    slice_cols(batch.cols(), 0, start as int),
                ),
                self.completed_batches().len() >= old(self).completed_batches().len(),
                self.completed_batches().subrange(
                    0,
                    old(self).completed_batches().len() as int,
                ) == old(self).completed_batches(),
                forall|i: int|
                    old(self).completed_batches().len() <= i < self.completed_batches().len()
                        ==> (#[trigger] self.completed_batches()[i]).nrows() == self.max_rows_spec(),
            decreases n - start,
        {
            proof {
                assert(batch.cols().len() > 0);
                assert(self.buffered().len() == batch.cols().len());
            }
            let mut take: usize = n - start;
            if self.max_rows > 0 {
                let held = self.buffered_rows();
                let room = self.max_rows - held;
                if room < take {
                    take = room;
                }
            }
            let ghost pre = *self;
            append_rows(&mut self.buffer, batch, start, take);
            proof {
                let ghost k = self.schema_spec().len();
                lemma_batches_cols_len(self.completed_batches(), k);
                assert(self.buffered() == append_cols(
                    pre.buffered(),
                    slice_cols(batch.cols(), start as int, (start + take) as int),
                ));
                lemma_append_cols_assoc(
                    batches_cols(self.completed_batches(), k),
                    pre.buffered(),
                    slice_cols(batch.cols(), start as int, (start + take) as int),
                );
                assert(self.content() == append_cols(
                    pre.content(),
                    slice_cols(batch.cols(), start as int, (start + take) as int),
                ));
                lemma_append_cols_assoc(
                    old(self).content(),
                    slice_cols(batch.cols(), 0, start as int),
                    slice_cols(batch.cols(), start as int, (start + take) as int),
                );
                lemma_slice_cols_split(batch.cols(), 0, start as int, (start + take) as int);
                assert(self.content() == append_cols(
                    old(self).content(),
                    slice_cols(batch.cols(), 0, (start + take) as int),
                ));
                // the buffer columns grew by `take` rows each
                assert forall|j: int| 0 <= j < self.buffered().len() implies #[trigger] self
                    .buffered()[j].len() == rows_of(pre.buffered()) + take by {
                    assert(pre.buffered()[j].len() == rows_of(pre.buffered()));
                    assert(batch.cols()[j].subrange(start as int, (start + take) as int).len()
                        == take);
                }
                assert(self.buffered()[0].len() == rows_of(pre.buffered()) + take);
                assert(rows_of(self.buffered()) == rows_of(pre.buffered()) + take);
            }
            start = start + take;
            if self.max_rows > 0 {
                let held2 = self.buffered_rows();
                if held2 == self.max_rows {
                    let ghost mid = *self;
                    self.emit_buffer();
                    proof {
                        let ghost lo = old(self).completed_batches().len() as int;
                        let ghost ml = mid.completed_batches().len() as int;
                        assert(self.completed_batches().drop_last() == mid.completed_batches());
                        assert forall|i: int| 0 <= i < ml implies self.completed_batches()[i]
                            == mid.completed_batches()[i] by {
                            assert(mid.completed_batches()[i]
                                == self.completed_batches().drop_last()[i]);
                        }
                        assert(self.completed_batches().subrange(0, lo)
                            =~= mid.completed_batches().subrange(0, lo));
                        assert(self.completed_batches().last().nrows() == self.max_rows_spec());
                        assert forall|i: int|
                            lo <= i < self.completed_batches().len() implies (
                        #[trigger] self.completed_batches()[i]).nrows() == self.max_rows_spec() by {
                            if i < ml {
                                assert(self.completed_batches()[i] == mid.completed_batches()[i]);
                            } else {
                                assert(self.completed_batches()[i]
                                    == self.completed_batches().last());
                            }
                        }
                        assert(rows_of(self.buffered()) == 0);
                        assert forall|i: int| 0 <= i < self.completed_batches().len() implies (
                        #[trigger] self.completed_batches()[i]).nrows() <= self.max_rows_spec() by {
                            if i < ml {
                                assert(self.completed_batches()[i] == mid.completed_batches()[i]);
                            } else {
                                assert(self.completed_batches()[i]
                                    == self.completed_batches().last());
                            }
                        }
                        assert(self.wf());
                    }
                }
            }
            proof {
                assert(self.wf());
            }
        }
        proof {
            lemma_slice_cols_full(batch.cols());
            assert(slice_cols(batch.cols(), 0, n as int) == batch.cols());
        }
        Ok(())
    }

    /// Emit whatever the buffer holds — possibly zero rows — as one final
    /// completed batch, regardless of the threshold.
    pub fn finish_buffered_batch(&mut self)
        requires
            old(self).wf(),
        ensures
            final(self).wf(),
            final(self).schema_spec() == old(self).schema_spec(),
            final(self).max_rows_spec() == old(self).max_rows_spec(),
            final(self).content() == old(self).content(),
            final(self).buffered() == empty_cols(old(self).schema_spec().len()),
            final(self).completed_batches().len() == old(self).completed_batches().len() + 1,
            final(self).completed_batches().drop_last() == old(self).completed_batches(),
            batches_cols(final(self).completed_batches(), old(self).schema_spec().len())
                == old(self).content(),
    {
        let ghost k = old(self).schema_spec().len();
        self.emit_buffer();
        proof {
            let nb = self.completed_batches().last();
            assert(self.completed_batches() =~= old(self).completed_batches().push(nb));
            lemma_batches_cols_push(old(self).completed_batches(), nb, k);
            lemma_batches_cols_len(self.completed_batches(), k);
        }
    }

    /// Pop the oldest completed batch, if there is one.
    pub fn next_completed_batch(&mut self) -> (r: Option<RowBatch>)
        requires
            old(self).wf(),
        ensures
            final(self).wf(),
            final(self).schema_spec() == old(self).schema_spec(),
            final(self).max_rows_spec() == old(self).max_rows_spec(),
            final(self).buffered() == old(self).buffered(),
            old(self).completed_batches().len() == 0 ==> r is None && *final(self) == *old(self),
            old(self).completed_batches().len() > 0 ==> r == Some(
                old(self).completed_batches()[0],
            ) && final(self).completed_batches() == old(self).completed_batches().subrange(
                1,
                old(self).completed_batches().len() as int,
            ),
    {
        if self.completed.len() == 0 {
            None
        } else {
            let b = self.completed.remove(0);
            proof {
                assert(self.completed_batches() =~= old(self).completed_batches().subrange(
                    1,
                    old(self).completed_batches().len() as int,
                ));
            }
            Some(b)
        }
    }
}

/// `k` freshly allocated empty columns.
fn empty_columns(k: usize) -> (v: Vec<Vec<Cell>>)
    ensures
        v@.len() == k,
        cols_view(v@) == empty_cols(k as nat),
{
    let mut v: Vec<Vec<Cell>> = Vec::new();
    while v.len() < k
        invariant
            v@.len() <= k,
            forall|j: int| 0 <= j < v@.len() ==> (#[trigger] v@[j])@.len() == 0,
        decreases k - v@.len(),
    {
        v.push(Vec::new());
    }
    proof {
        assert forall|j: int| 0 <= j < k implies cols_view(v@)[j] == empty_cols(k as nat)[j] by {
            assert(v@[j]@ =~= Seq::<Cell>::empty());
        }
        assert(cols_view(v@) =~= empty_cols(k as nat));
    }
    v
}

/// Append rows `start .. start + count` of `batch`'s columns, columnwise, to
/// the columns of `dst`.
fn append_rows(dst: &mut Vec<Vec<Cell>>, batch: &RowBatch, start: usize, count: usize)
    requires
        batch.wf(),
        old(dst)@.len() == batch.cols().len(),
        start + count <= batch.nrows(),
    ensures
        final(dst)@.len() == old(dst)@.len(),
        cols_view(final(dst)@) == append_cols(
            cols_view(old(dst)@),
            slice_cols(batch.cols(), start as int, (start + count) as int),
        ),
{
    let k = dst.len();
    let nr = batch.num_rows();
    let mut j: usize = 0;
    while j < k
        invariant
            j <= k,
            k == dst@.len(),
            k == batch.cols().len(),
            batch.wf(),
            nr == batch.nrows(),
            start + count <= nr,
            forall|j2: int| 0 <= j2 < j ==> #[trigger] dst@[j2]@ == old(dst)@[j2]@
                + batch.cols()[j2].subrange(start as int, (start + count) as int),
            forall|j2: int| j <= j2 < k ==> #[trigger] dst@[j2]@ == old(dst)@[j2]@,
        decreases k - j,
    {
        proof {
            assert(batch.cols()[j as int].len() == batch.nrows());
            assert(dst@[j as int]@ =~= old(dst)@[j as int]@ + batch.cols()[j as int].subrange(
                start as int,
                start as int,
            ));
        }
        let mut i: usize = 0;
        while i < count
            invariant
                i <= count,
                j < k,
                k == dst@.len(),
                k == batch.cols().len(),
                batch.wf(),
                nr == batch.nrows(),
                start + count <= nr,
                forall|j2: int| 0 <= j2 < j ==> #[trigger] dst@[j2]@ == old(dst)@[j2]@
                    + batch.cols()[j2].subrange(start as int, (start + count) as int),
                forall|j2: int| j < j2 < k ==> #[trigger] dst@[j2]@ == old(dst)@[j2]@,
                dst@[j as int]@ == old(dst)@[j as int]@ + batch.cols()[j as int].subrange(
                    start as int,
                    (start + i) as int,
                ),
            decreases count - i,
        {
            proof {
                assert(batch.cols()[j as int].len() == batch.nrows());
            }
            let c = batch.cell(j, start + i);
            dst[j].push(c);
            proof {
                assert(dst@[j as int]@ =~= old(dst)@[j as int]@ + batch.cols()[j as int].subrange(
                    start as int,
                    (start + i + 1) as int,
                ));
            }
            i += 1;
        }
        j += 1;
    }
    proof {
        assert(cols_view(dst@) =~= append_cols(
            cols_view(old(dst)@),
            slice_cols(batch.cols(), start as int, (start + count) as int),
        ));
    }
}

/// Concatenate `batches`, all of schema `schema`, into one batch whose
/// columns are the batches' columns joined columnwise, in order.
pub fn concat_batches(schema: &Schema, batches: &Vec<RowBatch>) -> (r: Result<
    RowBatch,
    StreamError,
>)
    requires
        forall|i: int| 0 <= i < batches@.len() ==> (#[trigger] batches@[i]).wf(),
    ensures
        r is Ok <==> forall|i: int|
            0 <= i < batches@.len() ==> (#[trigger] batches@[i]).schema_spec() == schema@,
        match r {
            Ok(out) => {
                &&& out.wf()
                &&& out.schema_spec() == schema@
                &&& out.cols() == batches_cols(batches@, schema@.len())
            },
            Err(e) => e == StreamError::SchemaMismatch,
        },
{
    let k = schema.num_fields();
    let mut acc = empty_columns(k);
    let n = batches.len();
    let mut i: usize = 0;
    proof {
        assert(batches@.subrange(0, 0) =~= Seq::<RowBatch>::empty());
    }
    while i < n
        invariant
            i <= n,
            n == batches@.len(),
            acc@.len() == k,
            k == schema@.len(),
            forall|t: int| 0 <= t < n ==> (#[trigger] batches@[t]).wf(),
            forall|t: int| 0 <= t < i ==> (#[trigger] batches@[t]).schema_spec() == schema@,
            forall|j: int| 0 <= j < k ==> #[trigger] cols_view(acc@)[j].len() == rows_of(
                cols_view(acc@),
            ),
            cols_view(acc@) == batches_cols(batches@.subrange(0, i as int), k as nat),
        decreases n - i,
    {
        let b = &batches[i];
        if !schema_eq(b.schema(), schema) {
            return Err(StreamError::SchemaMismatch);
        }
        let cnt = b.num_rows();
        let ghost accpre = acc@;
        append_rows(&mut acc, b, 0, cnt);
        proof {
            lemma_slice_cols_full(b.cols());
            assert(cols_view(acc@) == append_cols(cols_view(accpre), b.cols()));
            assert(batches@.subrange(0, i + 1).drop_last() =~= batches@.subrange(0, i as int));
            assert(batches@.subrange(0, i + 1).last() == batches@[i as int]);
            assert(cols_view(acc@) == batches_cols(batches@.subrange(0, i + 1), k as nat));
            assert(forall|j: int| 0 <= j < k ==> #[trigger] cols_view(acc@)[j].len() == rows_of(
                cols_view(accpre),
            ) + b.nrows());
        }
        i += 1;
    }
    proof {
        assert(batches@.subrange(0, n as int) =~= batches@);
        assert(crate::batch::shape_ok(schema@, cols_view(acc@)));
    }
    match RowBatch::try_new(schema.duplicate(), acc) {
        Ok(out) => Ok(out),
        Err(_) => {
            proof {
                assert(false);
            }
            Err(StreamError::SchemaMismatch)
        },
    }
}

/// Coalesce a finite sequence of decoded batches into one batch.
///
/// Items are taken in order. The first bad item aborts the operation: an
/// upstream failure is returned verbatim, a batch of another schema as a
/// schema mismatch; later items are not touched. When every item is a batch
/// of `schema`, the result is one batch of `schema` carrying every input row,
/// in arrival order — the threshold `max_rows` bounds the intermediate
/// completed batches only and leaves the result untouched.
#[verifier::loop_isolation(false)]
pub fn coalesce_batches_from_iter(
    schema: Schema,
    items: Vec<Result<RowBatch, StreamError>>,
    max_rows: usize,
) -> (r: Result<RowBatch, StreamError>)
    requires
        forall|i: int| 0 <= i < items@.len() ==> (#[trigger] items@[i] matches Ok(b) ==> b.wf()),
    ensures
        all_good(items@, schema@) <==> r is Ok,
        match r {
            Ok(out) => {
                &&& out.wf()
                &&& out.schema_spec() == schema@
                &&& out.cols() == items_cols(items@, schema@.len())
                &&& out.nrows() == total_rows(items@)
            },
            Err(e) => exists|m: int| {
                &&& 0 <= m < items@.len()
                &&& good_upto(items@, schema@, m)
                &&& !item_good(items@[m], schema@)
                &&& e == item_fault(items@[m], schema@)
            },
        },
{
    let ghost schema_v = schema@;
    let ghost k = schema@.len();
    let ghost orig = items@;
    let mut pending = items;
    let mut co = BatchCoalescer::new(schema, max_rows);
    let ghost mut done_count: int = 0;
    proof {
        assert(orig.subrange(0, 0) =~= Seq::<Result<RowBatch, StreamError>>::empty());
    }
    while pending.len() > 0
        invariant
            co.wf(),
            co.schema_spec() == schema_v,
            k == schema_v.len(),
            0 <= done_count <= orig.len(),
            pending@ == orig.subrange(done_count, orig.len() as int),
            forall|i: int| 0 <= i < orig.len() ==> (#[trigger] orig[i] matches Ok(b) ==> b.wf()),
            good_upto(orig, schema_v, done_count),
            co.content() == items_cols(orig.subrange(0, done_count), k),
        decreases pending@.len(),
    {
        let it = pending.remove(0);
        proof {
            assert(it == orig[done_count]);
            assert(pending@ =~= orig.subrange(done_count + 1, orig.len() as int));
        }
        match it {
            Err(e) => {
                proof {
                    assert(!item_good(orig[done_count], schema_v));
                    assert(e == item_fault(orig[done_count], schema_v));
                    assert(!all_good(orig, schema_v)) by {
                        if all_good(orig, schema_v) {
                            assert(item_good(orig[done_count], schema_v));
                        }
                    }
                }
                return Err(e);
            },
            Ok(b) => {
                match co.push_batch(&b) {
                    Ok(_) => {
                        proof {
                            lemma_items_cols_snoc(orig, done_count, k);
                            assert(co.content() == items_cols(
                                orig.subrange(0, done_count + 1),
                                k,
                            ));
                            assert(item_good(orig[done_count], schema_v));
                            done_count = done_count + 1;
                        }
                    },
                    Err(e2) => {
                        proof {
                            assert(b.schema_spec() != schema_v);
                            assert(!item_good(orig[done_count], schema_v));
                            assert(e2 == item_fault(orig[done_count], schema_v));
                            assert(!all_good(orig, schema_v)) by {
                                if all_good(orig, schema_v) {
                                    assert(item_good(orig[done_count], schema_v));
                                }
                            }
                        }
                        return Err(e2);
                    },
                }
            },
        }
    }
    proof {
        assert(done_count == orig.len());
        assert(orig.subrange(0, orig.len() as int) =~= orig);
        assert(all_good(orig, schema_v));
    }
    co.finish_buffered_batch();
    let ghost all_done = co.completed_batches();
    proof {
        assert(batches_cols(all_done, k) == items_cols(orig, k));
    }
    let mut done: Vec<RowBatch> = Vec::new();
    while co.num_completed() > 0
        invariant
            co.wf(),
            co.schema_spec() == schema_v,
            k == schema_v.len(),
            done@ + co.completed_batches() == all_done,
            forall|i: int| 0 <= i < all_done.len() ==> (#[trigger] all_done[i]).wf()
                && all_done[i].schema_spec() == schema_v,
        decreases co.completed_batches().len(),
    {
        let nb = co.next_completed_batch();
        if let Some(b) = nb {
            done.push(b);
            proof {
                assert(done@ + co.completed_batches() =~= all_done);
            }
        }
    }
    proof {
        assert(done@ =~= all_done);
        assert(forall|i: int| 0 <= i < done@.len() ==> (#[trigger] done@[i]).wf());
        assert(forall|i: int| 0 <= i < done@.len() ==> (#[trigger] done@[i]).schema_spec()
            == schema_v);
    }
    match concat_batches(&co.schema, &done) {
        Ok(out) => {
            proof {
                assert(out.cols() == items_cols(orig, k));
                lemma_items_cols_rows(orig, schema_v);
                assert(out.nrows() == total_rows(orig));
            }
            Ok(out)
        },
        Err(e) => {
            proof {
                assert(false);
            }
            Err(e)
        },
    }
}

/// Coalescing no batches at all yields the schema's full column set with zero
/// rows.
pub proof fn lemma_empty_input_identity(items: Seq<Result<RowBatch, StreamError>>, k: nat)
    requires
        items.len() == 0,
    ensures
        items_cols(items, k) == empty_cols(k),
        items_cols(items, k).len() == k,
        total_rows(items) == 0,
{
}

/// Coalescing exactly one batch yields that batch's columns unchanged.
pub proof fn lemma_single_batch_identity(b: RowBatch, k: nat)
    requires
        b.wf(),
        b.cols().len() == k,
    ensures
        items_cols(seq![Ok::<RowBatch, StreamError>(b)], k) == b.cols(),
        total_rows(seq![Ok::<RowBatch, StreamError>(b)]) == b.nrows(),
{
    let items = seq![Ok::<RowBatch, StreamError>(b)];
    assert(items.len() == 1);
    assert(items[0] == Ok::<RowBatch, StreamError>(b));
    assert(items.drop_last() =~= Seq::<Result<RowBatch, StreamError>>::empty());
    assert(items.drop_last() == Seq::<Result<RowBatch, StreamError>>::empty());
    assert(items.last() == Ok::<RowBatch, StreamError>(b));
    assert(items_cols(items.drop_last(), k) == empty_cols(k));
    assert(total_rows(items.drop_last()) == 0);
    lemma_append_cols_empty_left(b.cols(), k);
    assert(items_cols(items, k) == append_cols(empty_cols(k), b.cols()));
}

/// The coalesced result does not depend on the row-count threshold: two runs
/// over the same items, whatever their thresholds, agree on the output's
/// schema, columns and row count.
pub proof fn lemma_threshold_insensitivity(
    items: Seq<Result<RowBatch, StreamError>>,
    schema: SchemaView,
    t1: nat,
    t2: nat,
    out1: RowBatch,
    out2: RowBatch,
)
    requires
        out1.schema_spec() == schema,
        out1.cols() == items_cols(items, schema.len()),
        out2.schema_spec() == schema,
        out2.cols() == items_cols(items, schema.len()),
    ensures
        out1.schema_spec() == out2.schema_spec(),
        out1.cols() == out2.cols(),
        out1.nrows() == out2.nrows(),
{
}

} // verus!


