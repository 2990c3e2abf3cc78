//! Splitting a list of transactions into chunks of a limited size.

use crate::wire::Transaction;
use vstd::prelude::*;

verus! {

/// How many bytes some transactions take together.
pub open spec fn total_message_len(txns: Seq<Transaction>) -> nat
    decreases txns.len(),
{
    if txns.len() == 0 {
        0
    } else {
        total_message_len(txns.drop_last()) + txns.last().message_len()
    }
}

/// The transactions of some chunks, one chunk after the other.
pub open spec fn joined(chunks: Seq<Vec<Transaction>>) -> Seq<Transaction>
    decreases chunks.len(),
{
    if chunks.len() == 0 {
        Seq::empty()
    } else {
        joined(chunks.drop_last()) + chunks.last()@
    }
}

/// Whether a chunk is allowed: it is not empty, and it is within the limit or holds a single
/// transaction.
pub open spec fn chunk_fits(chunk: Seq<Transaction>, chunk_size: int) -> bool {
    &&& chunk.len() > 0
    &&& total_message_len(chunk) <= chunk_size || chunk.len() == 1
}

/// Whether a chunk could not have taken the first transaction of the next chunk as well.
pub open spec fn chunk_is_full(
    chunk: Seq<Transaction>,
    next: Transaction,
    chunk_size: int,
) -> bool {
    total_message_len(chunk) + next.message_len() > chunk_size
}

/// Whether `chunks` splits `txns` greedily.
pub open spec fn is_chunked(
    txns: Seq<Transaction>,
    chunk_size: int,
    chunks: Seq<Vec<Transaction>>,
) -> bool {
    &&& joined(chunks) == txns
    &&& forall|i: int| 0 <= i < chunks.len() ==> chunk_fits((#[trigger] chunks[i])@, chunk_size)
    &&& forall|i: int, j: int|
        0 <= i && j == i + 1 && j < chunks.len() ==> chunk_is_full(
            (#[trigger] chunks[i])@,
            (#[trigger] chunks[j])@[0],
            chunk_size,
        )
}

/// Splits transactions, in their order, into chunks of at most `chunk_size` bytes. A single
/// transaction that is larger is put into a chunk by itself. Each chunk takes as many transactions
/// as fit.
pub fn chunk_transactions(transactions: Vec<Transaction>, chunk_size: usize) -> (chunks: Vec<
    Vec<Transaction>,
>)
    requires
        forall|i: int|
            0 <= i < transactions.len() ==> (#[trigger] transactions[i]).message_len() <= usize::MAX,
    ensures
        is_chunked(transactions@, chunk_size as int, chunks@),
{
    let ghost all = transactions@;
    let mut chunked_transactions: Vec<Vec<Transaction>> = Vec::new();
    let mut chunk: Vec<Transaction> = Vec::new();
    let mut current_size: usize = 0;
    for transaction in iter: transactions
        invariant
            iter.seq() == all,
            forall|i: int| 0 <= i < all.len() ==> (#[trigger] all[i]).message_len() <= usize::MAX,
            joined(chunked_transactions@) + chunk@ == all.take(iter.index()),
            current_size == total_message_len(chunk@),
            chunk.len() == 0 ==> chunked_transactions.len() == 0,
            chunk.len() > 0 ==> chunk_fits(chunk@, chunk_size as int),
            is_chunked(
                joined(chunked_transactions@),
                chunk_size as int,
                chunked_transactions@,
            ),
            chunked_transactions.len() > 0 ==> chunk_is_full(
                chunked_transactions@.last()@,
                chunk@[0],
                chunk_size as int,
            ),
            iter.index() == iter.seq().len() ==> all.take(iter.index()) == all,
    {
        let ghost done = chunked_transactions@;
        let ghost open = chunk@;
        assert(transaction == all[iter.index() as int]);
        let len: usize = transaction.encoded_len();
        if chunk.len() > 0 && (current_size > chunk_size || len > chunk_size - current_size) {
            chunked_transactions.push(chunk);
            chunk = Vec::new();
            current_size = 0;
            proof {
                assert(chunked_transactions@.drop_last() =~= done);
                assert(joined(chunked_transactions@) =~= joined(done) + open);
            }
        }
        let ghost before = chunk@;
        let ghost taken = transaction;
        assert(current_size == total_message_len(before));
        assert(joined(chunked_transactions@) + before =~= all.take(iter.index()));
        current_size = current_size + len;
        chunk.push(transaction);
        proof {
            assert(chunk@.drop_last() =~= before);
            assert(total_message_len(chunk@) == total_message_len(before) + len);
            assert(chunk@ == before.push(taken));
            assert(joined(chunked_transactions@) + chunk@ =~= (joined(chunked_transactions@)
                + before).push(taken));
            assert(all.take(iter.index() + 1) =~= all.take(iter.index()).push(taken));
        }
    }
    let ghost done = chunked_transactions@;
    if chunk.len() > 0 {
        let ghost open = chunk@;
        chunked_transactions.push(chunk);
        proof {
            assert(chunked_transactions@.drop_last() =~= done);
            assert(joined(chunked_transactions@) =~= joined(done) + open);
        }
    } else {
        assert(joined(done) + chunk@ =~= joined(done));
    }
    chunked_transactions
}

/// The first chunk comes first.
proof fn lemma_joined_first(chunks: Seq<Vec<Transaction>>)
    requires
        chunks.len() > 0,
    ensures
        joined(chunks) == chunks[0]@ + joined(chunks.drop_first()),
    decreases chunks.len(),
{
    if chunks.len() == 1 {
        assert(chunks.drop_last() =~= Seq::<Vec<Transaction>>::empty());
        assert(chunks.drop_first() =~= Seq::<Vec<Transaction>>::empty());
        assert(joined(chunks) =~= chunks[0]@ + joined(chunks.drop_first()));
    } else {
        lemma_joined_first(chunks.drop_last());
        assert(chunks.drop_last().drop_first() =~= chunks.drop_first().drop_last());
        assert(joined(chunks) =~= chunks[0]@ + joined(chunks.drop_first()));
    }
}

/// A first part of some transactions takes no more bytes than all of them.
proof fn lemma_prefix_is_smaller(txns: Seq<Transaction>, count: int)
    requires
        0 <= count <= txns.len(),
    ensures
        total_message_len(txns.take(count)) <= total_message_len(txns),
    decreases txns.len(),
{
    if count == txns.len() {
        assert(txns.take(count) =~= txns);
    } else {
        lemma_prefix_is_smaller(txns.drop_last(), count);
        assert(txns.drop_last().take(count) =~= txns.take(count));
    }
}

/// What follows the first chunk is itself split greedily.
proof fn lemma_rest_is_chunked(
    txns: Seq<Transaction>,
    chunk_size: int,
    chunks: Seq<Vec<Transaction>>,
)
    requires
        is_chunked(txns, chunk_size, chunks),
        chunks.len() > 0,
    ensures
        chunks[0]@.len() <= txns.len(),
        chunks[0]@ == txns.take(chunks[0]@.len() as int),
        is_chunked(txns.skip(chunks[0]@.len() as int), chunk_size, chunks.drop_first()),
{
    lemma_joined_first(chunks);
    let rest = chunks.drop_first();
    assert(chunks[0]@ =~= txns.take(chunks[0]@.len() as int));
    assert(joined(rest) =~= txns.skip(chunks[0]@.len() as int));
    assert forall|i: int| 0 <= i < rest.len() implies chunk_fits(
        (#[trigger] rest[i])@,
        chunk_size,
    ) by {
        assert(rest[i] == chunks[i + 1]);
    }
    assert forall|i: int, j: int| 0 <= i && j == i + 1 && j < rest.len() implies chunk_is_full(
        (#[trigger] rest[i])@,
        (#[trigger] rest[j])@[0],
        chunk_size,
    ) by {
        assert(rest[i] == chunks[i + 1] && rest[j] == chunks[j + 1]);
    }
}

/// A first chunk cannot be shorter than that of another greedy split.
proof fn lemma_first_chunk_is_longest(
    txns: Seq<Transaction>,
    chunk_size: int,
    a: Seq<Vec<Transaction>>,
    b: Seq<Vec<Transaction>>,
)
    requires
        is_chunked(txns, chunk_size, a),
        is_chunked(txns, chunk_size, b),
        a.len() > 0,
        b.len() > 0,
    ensures
        a[0]@.len() >= b[0]@.len(),
{
    lemma_rest_is_chunked(txns, chunk_size, a);
    lemma_rest_is_chunked(txns, chunk_size, b);
    let n = a[0]@.len() as int;
    if n < b[0]@.len() {
        assert(a.len() > 1) by {
            if a.len() == 1 {
                assert(a.drop_first() =~= Seq::<Vec<Transaction>>::empty());
                assert(joined(a.drop_first()).len() == 0);
            }
        }
        lemma_joined_first(a.drop_first());
        assert(a.drop_first()[0] == a[1]);
        assert(chunk_fits(a[1]@, chunk_size));
        assert(a[1]@[0] == txns.skip(n)[0]);
        assert(chunk_is_full(a[0]@, a[1]@[0], chunk_size));
        let longer = b[0]@.take(n + 1);
        assert(longer.drop_last() =~= a[0]@);
        lemma_prefix_is_smaller(b[0]@, n + 1);
        assert(chunk_fits(a[0]@, chunk_size));
        assert(chunk_fits(b[0]@, chunk_size));
    }
}

/// There is only one greedy split.
pub proof fn law_chunks_are_unique(
    txns: Seq<Transaction>,
    chunk_size: int,
    a: Seq<Vec<Transaction>>,
    b: Seq<Vec<Transaction>>,
)
    requires
        is_chunked(txns, chunk_size, a),
        is_chunked(txns, chunk_size, b),
    ensures
        a.len() == b.len(),
        forall|i: int| 0 <= i < a.len() ==> (#[trigger] a[i])@ == b[i]@,
    decreases a.len(),
{
    if a.len() == 0 || b.len() == 0 {
        if a.len() > 0 {
            lemma_joined_first(a);
            assert(chunk_fits(a[0]@, chunk_size));
        }
        if b.len() > 0 {
            lemma_joined_first(b);
            assert(chunk_fits(b[0]@, chunk_size));
        }
    } else {
        lemma_first_chunk_is_longest(txns, chunk_size, a, b);
        lemma_first_chunk_is_longest(txns, chunk_size, b, a);
        lemma_rest_is_chunked(txns, chunk_size, a);
        lemma_rest_is_chunked(txns, chunk_size, b);
        law_chunks_are_unique(
            txns.skip(a[0]@.len() as int),
            chunk_size,
            a.drop_first(),
            b.drop_first(),
        );
        assert forall|i: int| 0 <= i < a.len() implies (#[trigger] a[i])@ == b[i]@ by {
            if i > 0 {
                assert(a.drop_first()[i - 1]@ == b.drop_first()[i - 1]@);
            }
        }
    }
}

/// A transaction that is larger than the limit is in a chunk by itself.
pub proof fn law_large_transactions_stand_alone(
    txns: Seq<Transaction>,
    chunk_size: int,
    chunks: Seq<Vec<Transaction>>,
    i: int,
    j: int,
)
    requires
        is_chunked(txns, chunk_size, chunks),
        0 <= i < chunks.len(),
        0 <= j < chunks[i]@.len(),
        chunks[i]@[j].message_len() > chunk_size,
    ensures
        chunks[i]@.len() == 1,
{
    let chunk = chunks[i]@;
    assert(chunk_fits(chunk, chunk_size));
    lemma_prefix_is_smaller(chunk, j + 1);
    assert(chunk.take(j + 1).last() == chunk[j]);
}

/// Transactions take together what they take each.
pub proof fn law_message_lengths_add_up(
    a: Seq<Transaction>,
    b: Seq<Transaction>,
    txn: Transaction,
)
    ensures
        total_message_len(seq![txn]) == txn.message_len(),
        total_message_len(a + b) == total_message_len(a) + total_message_len(b),
        total_message_len(Seq::empty()) == 0,
    decreases b.len(),
{
    reveal_with_fuel(total_message_len, 2);
    assert(seq![txn].drop_last() =~= Seq::<Transaction>::empty());
    if b.len() == 0 {
        assert(a + b =~= a);
    } else {
        law_message_lengths_add_up(a, b.drop_last(), txn);
        assert((a + b).drop_last() =~= a + b.drop_last());
    }
}

/// Joining chunks puts all their transactions one after the other.
pub proof fn law_chunks_are_joined_in_turn(
    a: Seq<Vec<Transaction>>,
    b: Seq<Vec<Transaction>>,
    chunk: Vec<Transaction>,
)
    ensures
        joined(seq![chunk]) == chunk@,
        joined(a + b) == joined(a) + joined(b),
        joined(Seq::empty()) == Seq::<Transaction>::empty(),
    decreases b.len(),
{
    reveal_with_fuel(joined, 2);
    assert(seq![chunk].drop_last() =~= Seq::<Vec<Transaction>>::empty());
    assert(joined(seq![chunk]) =~= chunk@);
    if b.len() == 0 {
        assert(a + b =~= a);
        assert(joined(a) + joined(b) =~= joined(a));
    } else {
        law_chunks_are_joined_in_turn(a, b.drop_last(), chunk);
        assert((a + b).drop_last() =~= a + b.drop_last());
        assert(joined(a + b) =~= joined(a) + joined(b));
    }
}

/// A split keeps all transactions in their order, and each of its chunks holds some transactions and
/// is within the limit, unless it holds just one.
pub proof fn law_chunks_keep_to_the_limit(
    txns: Seq<Transaction>,
    chunk_size: int,
    chunks: Seq<Vec<Transaction>>,
    i: int,
)
    requires
        is_chunked(txns, chunk_size, chunks),
        0 <= i < chunks.len(),
    ensures
        joined(chunks) == txns,
        chunks[i]@.len() > 0,
        chunks[i]@.len() > 1 ==> total_message_len(chunks[i]@) <= chunk_size,
{
    assert(chunk_fits(chunks[i]@, chunk_size));
}

/// A chunk ends only where the next transaction would take it beyond the limit.
pub proof fn law_chunks_end_only_when_full(
    txns: Seq<Transaction>,
    chunk_size: int,
    chunks: Seq<Vec<Transaction>>,
    i: int,
)
    requires
        is_chunked(txns, chunk_size, chunks),
        0 <= i < chunks.len() - 1,
    ensures
        chunks[i + 1]@.len() > 0,
        total_message_len(chunks[i]@) + chunks[i + 1]@[0].message_len() > chunk_size,
{
    let j = i + 1;
    assert(chunk_fits(chunks[j]@, chunk_size));
    assert(chunk_is_full(chunks[i]@, chunks[j]@[0], chunk_size));
}

/// As many transactions come out as went in.
pub proof fn law_no_transaction_is_lost(
    txns: Seq<Transaction>,
    chunk_size: int,
    chunks: Seq<Vec<Transaction>>,
    txn: Transaction,
)
    requires
        is_chunked(txns, chunk_size, chunks),
    ensures
        txns.contains(txn) <==> exists|i: int, j: int|
            0 <= i < chunks.len() && 0 <= j < chunks[i]@.len() && #[trigger] chunks[i]@[j] == txn,
{
    lemma_joined_contains(chunks, txn);
}

/// The joined transactions are those of the chunks.
proof fn lemma_joined_contains(chunks: Seq<Vec<Transaction>>, txn: Transaction)
    ensures
        joined(chunks).contains(txn) <==> exists|i: int, j: int|
            0 <= i < chunks.len() && 0 <= j < chunks[i]@.len() && #[trigger] chunks[i]@[j] == txn,
    decreases chunks.len(),
{
    if chunks.len() > 0 {
        let rest = chunks.drop_last();
        let last = chunks.last()@;
        let all = joined(chunks);
        lemma_joined_contains(rest, txn);
        if all.contains(txn) {
            let n = choose|n: int| 0 <= n < all.len() && all[n] == txn;
            if n < joined(rest).len() {
                assert(joined(rest)[n] == txn);
                let (i, j) = choose|i: int, j: int|
                    0 <= i < rest.len() && 0 <= j < rest[i]@.len() && #[trigger] rest[i]@[j] == txn;
                assert(chunks[i]@[j] == txn);
            } else {
                assert(chunks[chunks.len() - 1]@[n - joined(rest).len()] == txn);
            }
        }
        if exists|i: int, j: int|
            0 <= i < chunks.len() && 0 <= j < chunks[i]@.len() && #[trigger] chunks[i]@[j] == txn {
            let (i, j) = choose|i: int, j: int|
                0 <= i < chunks.len() && 0 <= j < chunks[i]@.len() && #[trigger] chunks[i]@[j]
                    == txn;
            if i < rest.len() {
                assert(rest[i]@[j] == txn);
                let n = choose|n: int| 0 <= n < joined(rest).len() && joined(rest)[n] == txn;
                assert(all[n] == txn);
            } else {
                assert(all[joined(rest).len() + j] == txn);
            }
        }
    }
}

/// The chunks, one after the other, are the transactions that were split.
pub proof fn law_a_split_keeps_all_transactions(
    txns: Seq<Transaction>,
    chunk_size: int,
    chunks: Seq<Vec<Transaction>>,
)
    requires
        is_chunked(txns, chunk_size, chunks),
    ensures
        joined(chunks) == txns,
{
}

} // verus!
