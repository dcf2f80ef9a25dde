//! Token-bounded batching of text items.
//!
//! The chunker turns an ordered sequence of text items into an ordered
//! sequence of chunks under a token budget: it keeps a pending list and a
//! running token sum, flushes the pending list when the next item would push
//! the sum over the budget, and never splits an item — an item whose own
//! token count exceeds the budget still travels whole, in a chunk of its own.
//! On input exhaustion any non-empty pending list is flushed as a final
//! chunk.
//!
//! Token counts come from an external tokenizer boundary, deterministic
//! across runs; each item carries the count it was assigned.

use vstd::prelude::*;

verus! {

/// A text item together with the token count the tokenizer boundary assigned
/// to it.
#[derive(Clone)]
pub struct TextItem {
    pub text: String,
    pub tokens: usize,
}

/// The mathematical model of a text item.
pub struct ItemModel {
    pub text: Seq<char>,
    pub tokens: nat,
}

impl View for TextItem {
    type V = ItemModel;

    open spec fn view(&self) -> ItemModel {
        ItemModel { text: self.text@, tokens: self.tokens as nat }
    }
}

/// The models of a sequence of items.
pub open spec fn items_view(items: Seq<TextItem>) -> Seq<ItemModel> {
    items.map_values(|it: TextItem| it@)
}

/// The models of a sequence of chunks.
pub open spec fn chunks_view(chunks: Seq<Vec<TextItem>>) -> Seq<Seq<ItemModel>> {
    chunks.map_values(|c: Vec<TextItem>| items_view(c@))
}

/// The total token count of a sequence of items.
pub open spec fn sum_tokens(items: Seq<ItemModel>) -> nat
    decreases items.len(),
{
    if items.len() == 0 {
        0
    } else {
        sum_tokens(items.drop_last()) + items.last().tokens
    }
}

/// The chunker's abstract state: the chunks already completed, the pending
/// items, and the pending items' running token sum.
pub struct ChunkState {
    pub done: Seq<Seq<ItemModel>>,
    pub pending: Seq<ItemModel>,
    pub count: nat,
}

/// The state before any item was consumed.
pub open spec fn initial_chunk_state() -> ChunkState {
    ChunkState { done: Seq::empty(), pending: Seq::empty(), count: 0 }
}

/// One chunking step. If the pending list is non-empty and the new item
/// would push the running sum over the budget, the pending list becomes a
/// completed chunk and the new item starts the next one; otherwise the item
/// joins the pending list.
pub open spec fn chunk_step(st: ChunkState, item: ItemModel, limit: nat) -> ChunkState {
    if st.pending.len() > 0 && st.count + item.tokens > limit {
        ChunkState { done: st.done.push(st.pending), pending: seq![item], count: item.tokens }
    } else {
        ChunkState {
            done: st.done,
            pending: st.pending.push(item),
            count: st.count + item.tokens,
        }
    }
}

/// The chunker's state after consuming `items` in order.
pub open spec fn chunk_fold(items: Seq<ItemModel>, limit: nat) -> ChunkState
    decreases items.len(),
{
    if items.len() == 0 {
        initial_chunk_state()
    } else {
        chunk_step(chunk_fold(items.drop_last(), limit), items.last(), limit)
    }
}

/// The complete chunking of `items` under budget `limit`, including the
/// mandatory final flush of a non-empty pending list.
pub open spec fn spec_chunks(items: Seq<ItemModel>, limit: nat) -> Seq<Seq<ItemModel>> {
    let st = chunk_fold(items, limit);
    if st.pending.len() == 0 {
        st.done
    } else {
        st.done.push(st.pending)
    }
}

/// Token sums add over concatenation.
pub proof fn lemma_sum_tokens_concat(a: Seq<ItemModel>, b: Seq<ItemModel>)
    ensures
        sum_tokens(a + b) == sum_tokens(a) + sum_tokens(b),
    decreases b.len(),
{
    if b.len() == 0 {
        assert(a + b =~= a);
    } else {
        lemma_sum_tokens_concat(a, b.drop_last());
        assert((a + b).drop_last() =~= a + b.drop_last());
        assert((a + b).last() == b.last());
    }
}

/// The token sum of a non-empty item sequence is at least its first item's
/// count.
pub proof fn lemma_sum_tokens_first(items: Seq<ItemModel>)
    requires
        items.len() >= 1,
    ensures
        sum_tokens(items) >= items[0].tokens,
    decreases items.len(),
{
    if items.len() > 1 {
        lemma_sum_tokens_first(items.drop_last());
        assert(items.drop_last()[0] == items[0]);
    }
}

/// Every property the chunking fold maintains: the completed chunks and the
/// pending list together are exactly the consumed items, in order; the
/// running sum is the pending list's token sum; the pending list is empty
/// only before the first item; every completed chunk is non-empty; and every
/// chunk or pending list of more than one item fits the budget.
pub proof fn lemma_chunk_fold_invariant(items: Seq<ItemModel>, limit: nat)
    ensures
        ({
            let st = chunk_fold(items, limit);
            &&& st.done.flatten_alt() + st.pending == items
            &&& st.count == sum_tokens(st.pending)
            &&& (st.pending.len() == 0 <==> items.len() == 0)
            &&& forall|i: int| 0 <= i < st.done.len() ==> #[trigger] st.done[i].len() >= 1
            &&& forall|i: int|
                0 <= i < st.done.len() && #[trigger] st.done[i].len() > 1 ==> sum_tokens(
                    st.done[i]) <= limit
            &&& (st.pending.len() > 1 ==> st.count <= limit)
        }),
    decreases items.len(),
{
    let st = chunk_fold(items, limit);
    if items.len() == 0 {
        assert(st.done.flatten_alt() + st.pending =~= items);
    } else {
        lemma_chunk_fold_invariant(items.drop_last(), limit);
        let prev = chunk_fold(items.drop_last(), limit);
        let item = items.last();
        if prev.pending.len() > 0 && prev.count + item.tokens > limit {
            assert(st.done == prev.done.push(prev.pending));
            assert(st.done.flatten_alt() == prev.done.flatten_alt() + prev.pending) by {
                assert(st.done.len() == prev.done.len() + 1);
                assert(st.done.drop_last() =~= prev.done);
                assert(st.done.last() == prev.pending);
                assert(st.done.flatten_alt() == st.done.drop_last().flatten_alt() + st.done.last());
            }
            assert(st.done.flatten_alt() + st.pending =~= items) by {
                assert(prev.done.flatten_alt() + prev.pending == items.drop_last());
                assert(st.pending =~= seq![item]);
                assert((items.drop_last() + seq![item]) =~= items);
            }
            assert(sum_tokens(seq![item]) == item.tokens) by {
                let s = seq![item];
                assert(s.len() == 1);
                assert(s.drop_last() =~= Seq::<ItemModel>::empty());
                assert(sum_tokens(Seq::<ItemModel>::empty()) == 0);
                assert(s.last() == item);
            }
            assert(forall|i: int| 0 <= i < st.done.len() ==> #[trigger] st.done[i].len() >= 1)
                by {
                assert(st.done.last() == prev.pending);
                assert(forall|i: int|
                    0 <= i < prev.done.len() ==> st.done[i] == #[trigger] prev.done[i]);
            }
            assert(forall|i: int|
                0 <= i < st.done.len() && #[trigger] st.done[i].len() > 1 ==> sum_tokens(
                    st.done[i]) <= limit) by {
                assert(st.done.last() == prev.pending);
                assert(forall|i: int|
                    0 <= i < prev.done.len() ==> st.done[i] == #[trigger] prev.done[i]);
            }
        } else {
            assert(st.done.flatten_alt() + st.pending =~= items) by {
                assert(prev.done.flatten_alt() + prev.pending == items.drop_last());
                assert(st.done == prev.done);
                assert(st.pending == prev.pending.push(item));
                assert(st.done.flatten_alt() + st.pending =~= items.drop_last().push(item));
                assert(items.drop_last().push(item) =~= items);
            }
            assert(sum_tokens(st.pending) == sum_tokens(prev.pending) + item.tokens) by {
                assert(st.pending.drop_last() =~= prev.pending);
            }
        }
    }
}

/// No chunk is empty, and a chunk of more than one item — in particular its
/// first item alone — fits the token budget. A single-item chunk may exceed
/// it: an oversize item still travels whole.
pub proof fn lemma_chunk_first_item_fits(items: Seq<ItemModel>, limit: nat, i: int)
    requires
        0 <= i < spec_chunks(items, limit).len(),
    ensures
        spec_chunks(items, limit)[i].len() >= 1,
        spec_chunks(items, limit)[i].len() != 1 ==> spec_chunks(items, limit)[i][0].tokens
            <= limit,
{
    lemma_chunk_fold_invariant(items, limit);
    let st = chunk_fold(items, limit);
    let c = spec_chunks(items, limit)[i];
    if st.pending.len() > 0 && i == st.done.len() {
        assert(c == st.pending);
    } else {
        assert(c == st.done[i]);
    }
    if c.len() > 1 {
        assert(sum_tokens(c) <= limit);
        lemma_sum_tokens_first(c);
    }
}

/// Every chunk of more than one item fits the whole token budget.
pub proof fn lemma_chunk_total_fits(items: Seq<ItemModel>, limit: nat, i: int)
    requires
        0 <= i < spec_chunks(items, limit).len(),
        spec_chunks(items, limit)[i].len() > 1,
    ensures
        sum_tokens(spec_chunks(items, limit)[i]) <= limit,
{
    lemma_chunk_fold_invariant(items, limit);
    let st = chunk_fold(items, limit);
    if st.pending.len() > 0 && i == st.done.len() {
        assert(spec_chunks(items, limit)[i] == st.pending);
    } else {
        assert(spec_chunks(items, limit)[i] == st.done[i]);
    }
}

/// Concatenating all chunks' items, in order, reconstructs the source item
/// sequence exactly — nothing dropped, duplicated or reordered, the final
/// partial chunk included.
pub proof fn lemma_chunks_reconstruct(items: Seq<ItemModel>, limit: nat)
    ensures
        spec_chunks(items, limit).flatten() == items,
{
    lemma_chunk_fold_invariant(items, limit);
    let st = chunk_fold(items, limit);
    let chunks = spec_chunks(items, limit);
    chunks.lemma_flatten_and_flatten_alt_are_equivalent();
    if st.pending.len() == 0 {
        assert(st.done.flatten_alt() =~= items);
    } else {
        assert(chunks.drop_last() =~= st.done);
        assert(chunks.flatten_alt() == st.done.flatten_alt() + st.pending);
    }
}

/// The streaming chunker: items are handed to it one at a time and completed
/// chunks come back as the budget fills.
pub struct TokenChunk {
    /// The token budget.
    pub limit: usize,
    /// The pending items of the chunk being built.
    pub collector: Vec<TextItem>,
    /// The pending items' running token sum.
    pub current_count: usize,
    /// The models of all items consumed so far, in order.
    pub consumed: Ghost<Seq<ItemModel>>,
    /// The models of all chunks emitted so far, in order.
    pub emitted: Ghost<Seq<Seq<ItemModel>>>,
}

impl TokenChunk {
    /// The chunker's state is exactly the chunking fold over what it has
    /// consumed.
    pub open spec fn wf(&self) -> bool {
        let st = chunk_fold(self.consumed@, self.limit as nat);
        &&& st.done == self.emitted@
        &&& st.pending == items_view(self.collector@)
        &&& st.count == self.current_count as nat
    }

    /// A fresh chunker for token budget `limit`.
    pub fn new(limit: usize) -> (r: TokenChunk)
        ensures
            r.wf(),
            r.limit == limit,
            r.consumed@ == Seq::<ItemModel>::empty(),
            r.emitted@ == Seq::<Seq<ItemModel>>::empty(),
    {
        let r = TokenChunk {
            limit,
            collector: Vec::new(),
            current_count: 0,
            consumed: Ghost(Seq::empty()),
            emitted: Ghost(Seq::empty()),
        };
        proof {
            assert(items_view(r.collector@) =~= Seq::<ItemModel>::empty());
        }
        r
    }

    /// Consumes the next item. Returns the completed chunk when the item
    /// would have pushed the pending chunk over the budget; the item itself
    /// then starts the next chunk, however large its own token count is.
    pub fn collect_string(&mut self, item: TextItem) -> (r: Option<Vec<TextItem>>)
        requires
            old(self).wf(),
            old(self).current_count + item@.tokens <= usize::MAX,
        ensures
            final(self).wf(),
            final(self).limit == old(self).limit,
            final(self).consumed@ == old(self).consumed@.push(item@),
            match r {
                Some(chunk) => {
                    &&& items_view(chunk@) == chunk_fold(
                        old(self).consumed@,
                        old(self).limit as nat,
                    ).pending
                    &&& final(self).emitted@ == old(self).emitted@.push(items_view(chunk@))
                },
                None => final(self).emitted@ == old(self).emitted@,
            },
    {
        let ghost consumed0 = self.consumed@;
        let ghost item_model = item@;
        proof {
            self.consumed@ = consumed0.push(item_model);
            assert(self.consumed@.drop_last() =~= consumed0);
            assert(self.consumed@.last() == item_model);
        }
        let ghost limit_n = self.limit as nat;
        let ghost prev = chunk_fold(consumed0, limit_n);
        proof {
            assert(chunk_fold(self.consumed@, limit_n) == chunk_step(prev, item_model, limit_n));
        }
        let new_count = self.current_count + item.tokens;
        if self.collector.len() > 0 && new_count > self.limit {
            self.current_count = item.tokens;
            let mut chunk: Vec<TextItem> = Vec::new();
            chunk.push(item);
            core::mem::swap(&mut chunk, &mut self.collector);
            proof {
                self.emitted@ = self.emitted@.push(items_view(chunk@));
                assert(items_view(self.collector@) =~= seq![item_model]);
                assert(chunk_fold(self.consumed@, limit_n).done == prev.done.push(prev.pending));
            }
            Some(chunk)
        } else {
            let ghost collector0 = self.collector@;
            self.collector.push(item);
            self.current_count = new_count;
            proof {
                assert(items_view(self.collector@) =~= items_view(collector0).push(item_model));
                assert(chunk_fold(self.consumed@, limit_n).pending == prev.pending.push(
                    item_model));
            }
            None
        }
    }

    /// Input exhaustion: flushes a non-empty pending list as the final
    /// chunk. After this, the chunks emitted are exactly the complete
    /// chunking of everything consumed.
    pub fn finish(&mut self) -> (r: Option<Vec<TextItem>>)
        requires
            old(self).wf(),
        ensures
            final(self).limit == old(self).limit,
            final(self).consumed@ == old(self).consumed@,
            final(self).emitted@ == spec_chunks(old(self).consumed@, old(self).limit as nat),
            match r {
                Some(chunk) => {
                    &&& items_view(chunk@).len() > 0
                    &&& final(self).emitted@ == old(self).emitted@.push(items_view(chunk@))
                },
                None => final(self).emitted@ == old(self).emitted@,
            },
    {
        if self.collector.len() > 0 {
            self.current_count = 0;
            let mut chunk: Vec<TextItem> = Vec::new();
            core::mem::swap(&mut chunk, &mut self.collector);
            proof {
                self.emitted@ = self.emitted@.push(items_view(chunk@));
            }
            Some(chunk)
        } else {
            None
        }
    }
}

/// Chunks a whole item sequence at once: exactly the chunking fold with its
/// final flush.
pub fn chunk_items(items: Vec<TextItem>, limit: usize) -> (r: Vec<Vec<TextItem>>)
    requires
        sum_tokens(items_view(items@)) <= usize::MAX,
    ensures
        chunks_view(r@) == spec_chunks(items_view(items@), limit as nat),
{
    let ghost model = items_view(items@);
    let mut chunker = TokenChunk::new(limit);
    let mut r: Vec<Vec<TextItem>> = Vec::new();
    let mut rest = items;
    proof {
        assert(chunks_view(r@) =~= Seq::<Seq<ItemModel>>::empty());
        assert(chunker.consumed@ + items_view(rest@) =~= model);
    }
    while rest.len() > 0
        invariant
            chunker.wf(),
            chunker.limit == limit,
            chunker.consumed@ + items_view(rest@) == model,
            chunks_view(r@) == chunker.emitted@,
            sum_tokens(model) <= usize::MAX,
        decreases rest@.len(),
    {
        let ghost rest0 = items_view(rest@);
        let item = rest.remove(0);
        proof {
            assert(items_view(rest@) =~= rest0.drop_first());
            assert(rest0[0] == item@);
            assert(rest0 =~= seq![item@] + items_view(rest@));
            lemma_chunk_fold_invariant(chunker.consumed@, limit as nat);
            let st = chunk_fold(chunker.consumed@, limit as nat);
            lemma_sum_tokens_concat(st.done.flatten_alt(), st.pending);
            lemma_sum_tokens_concat(chunker.consumed@, rest0);
            lemma_sum_tokens_first(rest0);
            assert(chunker.current_count + item@.tokens <= sum_tokens(chunker.consumed@)
                + sum_tokens(rest0));
        }
        let ghost consumed0 = chunker.consumed@;
        let c = chunker.collect_string(item);
        proof {
            assert(consumed0.push(item@) + items_view(rest@) =~= model);
        }
        match c {
            Some(chunk) => {
                let ghost rprev = r@;
                let ghost chunk_model = items_view(chunk@);
                r.push(chunk);
                proof {
                    assert(r@.drop_last() =~= rprev);
                    assert(chunks_view(r@) =~= chunks_view(rprev).push(chunk_model));
                }
            },
            None => {},
        }
    }
    proof {
        assert(items_view(rest@) =~= Seq::<ItemModel>::empty());
        assert(chunker.consumed@ + items_view(rest@) =~= chunker.consumed@);
        assert(chunker.consumed@ == model);
    }
    let tail = chunker.finish();
    match tail {
        Some(chunk) => {
            let ghost rprev = r@;
            let ghost chunk_model = items_view(chunk@);
            r.push(chunk);
            proof {
                assert(r@.drop_last() =~= rprev);
                assert(chunks_view(r@) =~= chunks_view(rprev).push(chunk_model));
            }
        },
        None => {},
    }
    r
}

} // verus!
