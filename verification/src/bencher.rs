//! The parameters of a benchmark of block execution.

use core::marker::PhantomData;
use vstd::prelude::*;

verus! {

/// A benchmark: how many transactions are executed, how they are generated, and how many keys they
/// read and write. `K`, `V` and `E` are the types of keys, values and events, and `P` holds what the
/// generator of transactions needs.
pub struct Bencher<K, V, E, P> {
    pub transaction_size: usize,
    pub transaction_gen_param: P,
    pub universe_size: usize,
    pub phantom: PhantomData<(K, V, E)>,
}

impl<K, V, E, P: Default> Bencher<K, V, E, P> {
    /// A benchmark of `transaction_size` transactions over `universe_size` keys, with the default
    /// parameters of the generator.
    pub fn new(transaction_size: usize, universe_size: usize) -> (bencher: Self)
        ensures
            bencher.transaction_size == transaction_size,
            bencher.universe_size == universe_size,
            call_ensures(P::default, (), bencher.transaction_gen_param),
    {
        Bencher {
            transaction_size,
            transaction_gen_param: P::default(),
            universe_size,
            phantom: PhantomData,
        }
    }
}

/// What one run of a benchmark executes, and what the outputs are held against.
pub struct BencherState<T, B> {
    pub transactions: Vec<T>,
    pub baseline_output: B,
}

impl<T, B> BencherState<T, B> {
    /// Makes the transactions of a run from generated ones, in their order, and the baseline from the
    /// transactions.
    pub fn assemble<G, M: Fn(G) -> T, L: Fn(&Vec<T>) -> B>(
        transaction_gens: Vec<G>,
        materialize: M,
        baseline: L,
    ) -> (state: Self)
        requires
            forall|i: int|
                0 <= i < transaction_gens.len() ==> call_requires(
                    materialize,
                    (#[trigger] transaction_gens@[i],),
                ),
            forall|transactions: &Vec<T>| call_requires(baseline, (transactions,)),
        ensures
            state.transactions.len() == transaction_gens.len(),
            forall|i: int|
                0 <= i < transaction_gens.len() ==> call_ensures(
                    materialize,
                    (transaction_gens@[i],),
                    #[trigger] state.transactions@[i],
                ),
            call_ensures(baseline, (&state.transactions,), state.baseline_output),
    {
        let ghost gens = transaction_gens@;
        let mut transactions: Vec<T> = Vec::new();
        for transaction_gen in iter: transaction_gens
            invariant
                iter.seq() == gens,
                transactions.len() == iter.index(),
                forall|i: int|
                    0 <= i < gens.len() ==> call_requires(materialize, (#[trigger] gens[i],)),
                forall|i: int|
                    0 <= i < iter.index() ==> call_ensures(
                        materialize,
                        (gens[i],),
                        #[trigger] transactions@[i],
                    ),
        {
            assert(transaction_gen == gens[iter.index() as int]);
            transactions.push(materialize(transaction_gen));
        }
        let baseline_output = baseline(&transactions);
        BencherState { transactions, baseline_output }
    }
}

} // verus!
