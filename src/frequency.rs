use vstd::prelude::*;

verus! {

/// Number of distinct symbols: a symbol is a byte.
pub const ALPHABET_SIZE: usize = 256;

/// Sum of a sequence of counts.
pub open spec fn sum_counts(c: Seq<usize>) -> nat
    decreases c.len(),
{
    if c.len() == 0 {
        0
    } else {
        sum_counts(c.drop_last()) + c.last() as nat
    }
}

/// Raising one count by one raises the sum by one.
pub proof fn lemma_sum_counts_increment(c: Seq<usize>, j: int)
    requires
        0 <= j < c.len(),
        c[j] < usize::MAX,
    ensures
        sum_counts(c.update(j, (c[j] + 1) as usize)) == sum_counts(c) + 1,
    decreases c.len(),
{
    let d = c.update(j, (c[j] + 1) as usize);
    if j == c.len() - 1 {
        assert(d.drop_last() =~= c.drop_last());
    } else {
        assert(d.drop_last() =~= c.drop_last().update(j, (c[j] + 1) as usize));
        lemma_sum_counts_increment(c.drop_last(), j);
    }
}

/// Every count is at most the sum of all counts.
pub proof fn lemma_count_le_sum(c: Seq<usize>, j: int)
    requires
        0 <= j < c.len(),
    ensures
        c[j] <= sum_counts(c),
    decreases c.len(),
{
    if j < c.len() - 1 {
        lemma_count_le_sum(c.drop_last(), j);
    }
}

/// How often each symbol occurs: one count per byte value, zero for a symbol that does not occur.
pub struct FrequencyTable {
    counts: Vec<usize>,
}

impl View for FrequencyTable {
    type V = Seq<usize>;

    closed spec fn view(&self) -> Seq<usize> {
        self.counts@
    }
}

impl FrequencyTable {
    /// One count for each symbol, and a total that fits in a `usize`.
    pub open spec fn wf(&self) -> bool {
        &&& self@.len() == ALPHABET_SIZE
        &&& sum_counts(self@) <= usize::MAX
    }

    /// The count of `symbol`.
    pub fn count(&self, symbol: u8) -> (r: usize)
        requires
            self.wf(),
        ensures
            r == self@[symbol as int],
    {
        self.counts[symbol as usize]
    }

    /// The sum of all counts: the length of the input that was counted.
    pub fn total(&self) -> (r: usize)
        requires
            self.wf(),
        ensures
            r == sum_counts(self@),
    {
        let mut t: usize = 0;
        let mut i: usize = 0;
        while i < ALPHABET_SIZE
            invariant
                self.wf(),
                i <= ALPHABET_SIZE,
                t == sum_counts(self@.take(i as int)),
            decreases ALPHABET_SIZE - i,
        {
            proof {
                assert(self@.take(i as int + 1).drop_last() =~= self@.take(i as int));
                lemma_sum_prefix_le(self@, i as int + 1);
            }
            t = t + self.counts[i];
            i = i + 1;
        }
        assert(self@.take(ALPHABET_SIZE as int) =~= self@);
        t
    }
}

/// The sum of a prefix is at most the sum of the whole.
pub proof fn lemma_sum_prefix_le(c: Seq<usize>, k: int)
    requires
        0 <= k <= c.len(),
    ensures
        sum_counts(c.take(k)) <= sum_counts(c),
    decreases c.len(),
{
    if k < c.len() {
        assert(c.drop_last().take(k) =~= c.take(k));
        lemma_sum_prefix_le(c.drop_last(), k);
    } else {
        assert(c.take(k) =~= c);
    }
}

/// Counts every symbol of `data`: the count of a symbol is how often it occurs, and the
/// counts add up to the length of `data`.
pub fn calculate_frequencies(data: &[u8]) -> (r: FrequencyTable)
    ensures
        r.wf(),
        forall|s: u8| #[trigger] r@[s as int] == data@.to_multiset().count(s),
        sum_counts(r@) == data@.len(),
{
    let mut counts: Vec<usize> = Vec::new();
    let mut k: usize = 0;
    while k < ALPHABET_SIZE
        invariant
            k <= ALPHABET_SIZE,
            counts@.len() == k,
            forall|j: int| 0 <= j < k ==> counts@[j] == 0,
            sum_counts(counts@) == 0,
        decreases ALPHABET_SIZE - k,
    {
        proof {
            assert(counts@.push(0).drop_last() =~= counts@);
        }
        counts.push(0);
        k = k + 1;
    }
    proof {
        assert(data@.take(0) =~= Seq::<u8>::empty());
        assert forall|s: u8| #[trigger] counts@[s as int] == data@.take(0).to_multiset().count(s) by {
            broadcast use vstd::seq_lib::group_to_multiset_ensures;
        }
    }
    let mut i: usize = 0;
    while i < data.len()
        invariant
            i <= data.len(),
            counts@.len() == ALPHABET_SIZE,
            forall|s: u8| #[trigger] counts@[s as int] == data@.take(i as int).to_multiset().count(s),
            sum_counts(counts@) == i,
        decreases data.len() - i,
    {
        let b = data[i];
        let ghost before = counts@;
        proof {
            lemma_count_le_sum(counts@, b as int);
            lemma_sum_counts_increment(counts@, b as int);
        }
        counts.set(b as usize, counts[b as usize] + 1);
        proof {
            broadcast use vstd::seq_lib::group_to_multiset_ensures;
            assert(data@.take(i as int + 1) =~= data@.take(i as int).push(b));
            assert forall|s: u8| #[trigger] counts@[s as int] == data@.take(i as int + 1).to_multiset().count(s) by {
                if s != b {
                    assert(counts@[s as int] == before[s as int]);
                }
            }
        }
        i = i + 1;
    }
    assert(data@.take(data.len() as int) =~= data@);
    FrequencyTable { counts }
}

} // verus!
