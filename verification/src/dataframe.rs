use vstd::prelude::*;
use vstd::pervasive::cloned;
use vstd::std_specs::cmp::PartialEqSpec;
use core::hash::Hash;

verus! {

broadcast use vstd::seq_lib::group_to_multiset_ensures;

/// A DataFrame is the main data structure of combee: an owned, ordered
/// sequence of homogeneous rows.  Insertion order is the row order and is
/// significant: it is the iteration and output order of every transform.
pub struct DataFrame<D> {
    data: Vec<D>,
}

impl<D> View for DataFrame<D> {
    type V = Seq<D>;

    closed spec fn view(&self) -> Seq<D> {
        self.data@
    }
}

/// The subsequence of `s` selected by the boolean mask `keep`, in the
/// original order: row `i` of `s` survives exactly when `keep[i]`.
pub open spec fn masked<D>(s: Seq<D>, keep: Seq<bool>) -> Seq<D>
    recommends
        s.len() == keep.len(),
    decreases s.len(),
{
    if s.len() == 0 {
        Seq::empty()
    } else {
        let rest = masked(s.drop_last(), keep.drop_last());
        if keep.last() {
            rest.push(s.last())
        } else {
            rest
        }
    }
}

/// Taking and heading agree: `take(n)` returns (clones of) exactly the rows
/// that the non-copying view `head(n)` presents, pointwise, and as many.
pub proof fn lemma_head_take_agree<D: Clone>(df: Seq<D>, n: int, taken: Seq<D>, headed: Seq<D>)
    requires
        0 <= n,
        taken.len() == if n <= df.len() {
            n
        } else {
            df.len() as int
        },
        forall|i: int| 0 <= i < taken.len() ==> cloned(df[i], #[trigger] taken[i]),
        headed == df.subrange(
            0,
            if n <= df.len() {
                n
            } else {
                df.len() as int
            },
        ),
    ensures
        taken.len() == headed.len(),
        forall|i: int| 0 <= i < taken.len() ==> cloned(#[trigger] headed[i], taken[i]),
{
    assert forall|i: int| 0 <= i < taken.len() implies cloned(#[trigger] headed[i], taken[i]) by {
        assert(headed[i] == df[i]);
    }
}

/// The source position of the `j`-th row surviving a mask.
pub open spec fn masked_source_index<D>(s: Seq<D>, keep: Seq<bool>, j: int) -> int
    decreases s.len(),
{
    if s.len() == 0 {
        0
    } else {
        let rest = masked(s.drop_last(), keep.drop_last());
        if keep.last() && j == rest.len() {
            s.len() - 1
        } else {
            masked_source_index(s.drop_last(), keep.drop_last(), j)
        }
    }
}

/// Every row surviving a mask is the kept source row at its source
/// position.
pub proof fn lemma_masked_index<D>(s: Seq<D>, keep: Seq<bool>, j: int)
    requires
        s.len() == keep.len(),
        0 <= j < masked(s, keep).len(),
    ensures
        j <= masked_source_index(s, keep, j) < s.len(),
        keep[masked_source_index(s, keep, j)],
        masked(s, keep)[j] == s[masked_source_index(s, keep, j)],
    decreases s.len(),
{
    if s.len() > 0 {
        let rest = masked(s.drop_last(), keep.drop_last());
        lemma_masked_len(s.drop_last(), keep.drop_last());
        if keep.last() && j == rest.len() {
            assert(masked(s, keep)[j] == s[s.len() - 1]);
        } else {
            lemma_masked_index(s.drop_last(), keep.drop_last(), j);
        }
    }
}

/// Surviving rows keep their relative source order: a later surviving row
/// comes from a later source position.
pub proof fn lemma_masked_order<D>(s: Seq<D>, keep: Seq<bool>, j1: int, j2: int)
    requires
        s.len() == keep.len(),
        0 <= j1 < j2 < masked(s, keep).len(),
    ensures
        masked_source_index(s, keep, j1) < masked_source_index(s, keep, j2),
    decreases s.len(),
{
    if s.len() > 0 {
        let rest = masked(s.drop_last(), keep.drop_last());
        lemma_masked_index(s, keep, j1);
        if keep.last() && j2 == rest.len() {
            lemma_masked_index(s.drop_last(), keep.drop_last(), j1);
        } else {
            lemma_masked_order(s.drop_last(), keep.drop_last(), j1, j2);
        }
    }
}

/// A mask keeps at most every row.
pub proof fn lemma_masked_len<D>(s: Seq<D>, keep: Seq<bool>)
    requires
        s.len() == keep.len(),
    ensures
        masked(s, keep).len() <= s.len(),
    decreases s.len(),
{
    if s.len() > 0 {
        lemma_masked_len(s.drop_last(), keep.drop_last());
    }
}

/// Filtering with a mask that keeps every row is a content-preserving copy.
pub proof fn lemma_masked_all_true<D>(s: Seq<D>, keep: Seq<bool>)
    requires
        s.len() == keep.len(),
        forall|i: int| 0 <= i < keep.len() ==> keep[i],
    ensures
        masked(s, keep) == s,
    decreases s.len(),
{
    if s.len() > 0 {
        lemma_masked_all_true(s.drop_last(), keep.drop_last());
        assert(masked(s, keep) =~= s);
    } else {
        assert(masked(s, keep) =~= s);
    }
}

/// Move the row at position `i` back to position `jj`, shifting the rows
/// between them one step forward; the rows are reordered, never copied.
fn shift_back<D>(v: &mut Vec<D>, jj: usize, i: usize)
    requires
        jj < i < old(v)@.len(),
    ensures
        final(v)@.len() == old(v)@.len(),
        final(v)@ == old(v)@.remove(i as int).insert(jj as int, old(v)@[i as int]),
        final(v)@.to_multiset() == old(v)@.to_multiset(),
        forall|k: int| 0 <= k < jj ==> #[trigger] final(v)@[k] == old(v)@[k],
        final(v)@[jj as int] == old(v)@[i as int],
        forall|k: int| jj < k <= i ==> #[trigger] final(v)@[k] == old(v)@[k - 1],
        forall|k: int| i < k < final(v)@.len() ==> #[trigger] final(v)@[k] == old(v)@[k],
    decreases i,
{
    let ghost prev = v@;
    let x = v.remove(i);
    v.insert(jj, x);
    proof {
        assert(v@ =~= prev.remove(i as int).insert(jj as int, prev[i as int]));
        assert(prev.to_multiset().count(prev[i as int]) > 0) by {
            assert(prev.contains(prev[i as int]));
        }
        assert(v@.to_multiset() =~= prev.to_multiset());
    }
}

impl<D: Clone> DataFrame<D> {
    /// Instantiate a new DataFrame owning the given rows, in their order.
    pub fn new(data: Vec<D>) -> (r: Self)
        ensures
            r@ == data@,
    {
        DataFrame { data }
    }

    /// Return the number of rows of the DataFrame.
    pub fn len(&self) -> (r: usize)
        ensures
            r == self@.len(),
    {
        self.data.len()
    }

    /// Returns a vector with the first `num` rows of this DataFrame
    /// (all rows when `num` exceeds the length), as an independent copy.
    pub fn take(&self, num: usize) -> (r: Vec<D>)
        ensures
            r@.len() == if num <= self@.len() { num as int } else { self@.len() as int },
            forall|i: int| 0 <= i < r@.len() ==> cloned(self@[i], #[trigger] r@[i]),
    {
        let min_num: usize = if num <= self.data.len() {
            num
        } else {
            self.data.len()
        };
        let mut result: Vec<D> = Vec::new();
        let mut j: usize = 0;
        while j < min_num
            invariant
                min_num <= self.data.len(),
                j <= min_num,
                result@.len() == j,
                forall|i: int| 0 <= i < j ==> cloned(self@[i], #[trigger] result@[i]),
            decreases min_num - j,
        {
            result.push(self.data[j].clone());
            j += 1;
        }
        result
    }

    /// Apply a function to each row and collect the results into a new
    /// DataFrame of the same length, in the same order.
    pub fn apply<S: Clone, F: Fn(&D) -> S>(&self, func: F) -> (r: DataFrame<S>)
        requires
            forall|i: int| 0 <= i < self@.len() ==> call_requires(func, (&self@[i],)),
        ensures
            r@.len() == self@.len(),
            forall|i: int| 0 <= i < self@.len() ==> call_ensures(func, (&self@[i],), #[trigger] r@[i]),
    {
        let mut new_data: Vec<S> = Vec::new();
        let mut j: usize = 0;
        while j < self.data.len()
            invariant
                forall|i: int| 0 <= i < self@.len() ==> call_requires(func, (&self@[i],)),
                j <= self.data.len(),
                new_data@.len() == j,
                forall|i: int|
                    0 <= i < j ==> call_ensures(func, (&self@[i],), #[trigger] new_data@[i]),
            decreases self.data@.len() - j,
        {
            proof {
                assert(call_requires(func, (&self@[j as int],)));
            }
            new_data.push(func(&self.data[j]));
            j += 1;
        }
        DataFrame::new(new_data)
    }

    /// Filter the DataFrame with the condition given by the closure:
    /// the result keeps (a copy of) exactly the rows the condition accepted,
    /// in their original relative order.
    pub fn filter<F: Fn(&D) -> bool>(&self, func: F) -> (r: Self)
        requires
            forall|i: int| 0 <= i < self@.len() ==> call_requires(func, (&self@[i],)),
        ensures
            exists|keep: Seq<bool>, picks: Seq<D>|
                {
                    &&& keep.len() == self@.len()
                    &&& picks.len() == self@.len()
                    &&& (forall|i: int|
                        0 <= i < self@.len() ==> call_ensures(func, (&self@[i],), #[trigger] keep[i]))
                    &&& (forall|i: int| 0 <= i < self@.len() ==> cloned(self@[i], #[trigger] picks[i]))
                    &&& r@ == masked(picks, keep)
                },
    {
        let mut new_data: Vec<D> = Vec::new();
        let ghost mut keep: Seq<bool> = Seq::empty();
        let ghost mut picks: Seq<D> = Seq::empty();
        let mut j: usize = 0;
        while j < self.data.len()
            invariant
                forall|i: int| 0 <= i < self@.len() ==> call_requires(func, (&self@[i],)),
                j <= self.data.len(),
                keep.len() == j,
                picks.len() == j,
                forall|i: int| 0 <= i < j ==> call_ensures(func, (&self@[i],), #[trigger] keep[i]),
                forall|i: int| 0 <= i < j ==> cloned(self@[i], #[trigger] picks[i]),
                new_data@ == masked(picks, keep),
            decreases self.data@.len() - j,
        {
            let row = &self.data[j];
            if func(row) {
                let copy = row.clone();
                proof {
                    assert(picks.push(copy).drop_last() =~= picks);
                    assert(keep.push(true).drop_last() =~= keep);
                    keep = keep.push(true);
                    picks = picks.push(copy);
                }
                new_data.push(copy);
            } else {
                proof {
                    assert(picks.push(self@[j as int]).drop_last() =~= picks);
                    assert(keep.push(false).drop_last() =~= keep);
                    keep = keep.push(false);
                    picks = picks.push(self@[j as int]);
                }
            }
            j += 1;
        }
        DataFrame::new(new_data)
    }

    /// Sort the DataFrame by a comparison predicate and return a new, sorted
    /// DataFrame.  `comp(a, b)` means "a must come after b".  The result
    /// holds copies of all the rows (a permutation of the input), and for
    /// every adjacent pair `(a, b)` of the result the comparator was seen
    /// either answering false on `(a, b)` or true on `(b, a)`: it never put
    /// `a` after `b` (see `lemma_sorted_pair_not_inverted`).  This sorting
    /// algorithm is not stable: the relative order of rows the comparator
    /// ties is unspecified.
    #[verifier::rlimit(100)]
    pub fn sort<F: Fn(&D, &D) -> bool>(&self, comp: F) -> (r: Self)
        requires
            forall|a: &D, b: &D| call_requires(comp, (a, b)),
        ensures
            r@.len() == self@.len(),
            exists|c: Seq<D>|
                #![trigger c.to_multiset()]
                {
                    &&& c.len() == self@.len()
                    &&& (forall|i: int| 0 <= i < c.len() ==> cloned(self@[i], #[trigger] c[i]))
                    &&& r@.to_multiset() == c.to_multiset()
                },
            forall|i: int|
                #![trigger r@[i]]
                0 <= i && i + 1 < r@.len() ==> call_ensures(comp, (&r@[i], &r@[i + 1]), false)
                    || call_ensures(comp, (&r@[i + 1], &r@[i]), true),
    {
        let mut v: Vec<D> = Vec::new();
        let mut j: usize = 0;
        while j < self.data.len()
            invariant
                j <= self.data.len(),
                v@.len() == j,
                forall|i: int| 0 <= i < j ==> cloned(self@[i], #[trigger] v@[i]),
            decreases self.data@.len() - j,
        {
            v.push(self.data[j].clone());
            j += 1;
        }
        let ghost c: Seq<D> = v@;

        let mut i: usize = 1;
        while i < v.len()
            invariant
                forall|a: &D, b: &D| call_requires(comp, (a, b)),
                1 <= i,
                v@.len() == c.len(),
                v@.to_multiset() == c.to_multiset(),
                forall|k: int|
                    #![trigger v@[k]]
                    0 <= k && k + 1 < i && k + 1 < v@.len() ==> call_ensures(
                        comp,
                        (&v@[k], &v@[k + 1]),
                        false,
                    ) || call_ensures(comp, (&v@[k + 1], &v@[k]), true),
            decreases v@.len() - i,
        {
            let mut jj: usize = i;
            let mut scanning: bool = true;
            while scanning && jj > 0
                invariant
                    forall|a: &D, b: &D| call_requires(comp, (a, b)),
                    jj <= i < v@.len(),
                    forall|k: int|
                        #![trigger v@[k]]
                        jj <= k < i ==> call_ensures(comp, (&v@[k], &v@[i as int]), true),
                    !scanning ==> jj > 0 && call_ensures(
                        comp,
                        (&v@[jj - 1], &v@[i as int]),
                        false,
                    ),
                decreases jj + (if scanning { 1int } else { 0int }),
            {
                proof {
                    assert(call_requires(comp, (&v@[jj - 1], &v@[i as int])));
                }
                if comp(&v[jj - 1], &v[i]) {
                    jj -= 1;
                } else {
                    scanning = false;
                }
            }
            let ghost prev = v@;
            if jj < i {
                shift_back(&mut v, jj, i);
                proof {
                    assert forall|k: int| #![trigger v@[k]] 0 <= k && k + 1 < i + 1 implies
                        call_ensures(comp, (&v@[k], &v@[k + 1]), false) || call_ensures(
                        comp,
                        (&v@[k + 1], &v@[k]),
                        true,
                    ) by {
                        let x0 = prev[i as int];
                        if k + 1 < jj {
                            assert(v@[k] == prev[k] && v@[k + 1] == prev[k + 1]);
                        } else if k + 1 == jj {
                            assert(v@[k] == prev[k] && v@[k + 1] == x0);
                        } else if k == jj {
                            assert(v@[k] == x0 && v@[k + 1] == prev[k]);
                            assert(call_ensures(comp, (&prev[k], &x0), true));
                        } else {
                            assert(v@[k] == prev[k - 1] && v@[k + 1] == prev[k]);
                        }
                    }
                }
            } else {
                proof {
                    assert(!scanning);
                    assert(call_ensures(comp, (&v@[i - 1], &v@[i as int]), false));
                }
            }
            i += 1;
        }
        DataFrame::new(v)
    }

    /// Find the first row (in row order) satisfying the condition, or `None`
    /// when no row does; the row is returned by reference, not copied.
    pub fn find<F: Fn(&D) -> bool>(&self, condition: F) -> (r: Option<&D>)
        requires
            forall|i: int| 0 <= i < self@.len() ==> call_requires(condition, (&self@[i],)),
        ensures
            match r {
                Some(d) => exists|i: int|
                    {
                        &&& 0 <= i < self@.len()
                        &&& *d == self@[i]
                        &&& call_ensures(condition, (&self@[i],), true)
                        &&& (forall|k: int|
                            0 <= k < i ==> call_ensures(condition, (&self@[k],), false))
                    },
                None => forall|i: int|
                    0 <= i < self@.len() ==> call_ensures(condition, (&self@[i],), false),
            },
    {
        let mut j: usize = 0;
        while j < self.data.len()
            invariant
                forall|i: int| 0 <= i < self@.len() ==> call_requires(condition, (&self@[i],)),
                j <= self.data.len(),
                forall|k: int| 0 <= k < j ==> call_ensures(condition, (&self@[k],), false),
            decreases self.data@.len() - j,
        {
            proof {
                assert(call_requires(condition, (&self@[j as int],)));
            }
            if condition(&self.data[j]) {
                proof {
                    assert(call_ensures(condition, (&self@[j as int],), true));
                }
                return Some(&self.data[j]);
            }
            j += 1;
        }
        None
    }
}


/// The number of rows that the fraction-sized second half of a `split`
/// receives: `len * num / den`, rounded to the nearest whole row (ties round
/// up).
pub open spec fn split_tail_len(len: int, num: int, den: int) -> int
    recommends
        0 < den,
        0 <= num <= den,
{
    (len * num + den / 2) / den
}

/// The fraction-sized remainder of a split never exceeds the total length.
pub proof fn lemma_split_tail_bounds(len: int, num: int, den: int)
    requires
        0 <= len,
        0 < den,
        0 <= num <= den,
    ensures
        0 <= split_tail_len(len, num, den) <= len,
{
    let half: int = den / 2;
    assert(0 <= half < den);
    vstd::arithmetic::mul::lemma_mul_inequality(num, den, len);
    assert(num * len <= den * len);
    vstd::arithmetic::mul::lemma_mul_is_commutative(num, len);
    vstd::arithmetic::mul::lemma_mul_is_commutative(den, len);
    assert(len * num + half <= den * len + half);
    vstd::arithmetic::div_mod::lemma_div_is_ordered(len * num + half, den * len + half, den);
    vstd::arithmetic::div_mod::lemma_div_multiples_vanish_fancy(len, half, den);
    assert((den * len + half) / den == len);
    vstd::arithmetic::div_mod::lemma_div_pos_is_pos(len * num + half, den);
}

/// All rows of the given DataFrames, in order within and across inputs.
pub open spec fn concat_rows<D>(dfs: Seq<DataFrame<D>>) -> Seq<D>
    decreases dfs.len(),
{
    if dfs.len() == 0 {
        Seq::empty()
    } else {
        concat_rows(dfs.drop_last()) + dfs.last()@
    }
}

/// Concatenate an ordered sequence of DataFrames of the same row type into
/// one, preserving relative order within and across inputs.
pub fn concat<D: Clone>(dfs: &[DataFrame<D>]) -> (r: DataFrame<D>)
    ensures
        r@.len() == concat_rows(dfs@).len(),
        forall|i: int| 0 <= i < r@.len() ==> cloned(concat_rows(dfs@)[i], #[trigger] r@[i]),
{
    let mut data: Vec<D> = Vec::new();
    let mut k: usize = 0;
    while k < dfs.len()
        invariant
            k <= dfs@.len(),
            data@.len() == concat_rows(dfs@.subrange(0, k as int)).len(),
            forall|i: int|
                0 <= i < data@.len() ==> cloned(
                    concat_rows(dfs@.subrange(0, k as int))[i],
                    #[trigger] data@[i],
                ),
        decreases dfs@.len() - k,
    {
        let df = &dfs[k];
        let ghost prefix = concat_rows(dfs@.subrange(0, k as int));
        let mut j: usize = 0;
        while j < df.data.len()
            invariant
                k < dfs@.len(),
                df == &dfs@[k as int],
                j <= df.data@.len(),
                data@.len() == prefix.len() + j,
                forall|i: int|
                    0 <= i < prefix.len() ==> cloned(prefix[i], #[trigger] data@[i]),
                forall|i: int|
                    0 <= i < j ==> cloned(df@[i], #[trigger] data@[prefix.len() + i]),
            decreases df.data@.len() - j,
        {
            data.push(df.data[j].clone());
            j += 1;
        }
        proof {
            assert(dfs@.subrange(0, k + 1).drop_last() =~= dfs@.subrange(0, k as int));
            let next = concat_rows(dfs@.subrange(0, k + 1));
            assert(next == prefix + dfs@[k as int]@);
            assert forall|i: int| 0 <= i < data@.len() implies cloned(
                next[i],
                #[trigger] data@[i],
            ) by {
                if i >= prefix.len() {
                    assert(cloned(dfs@[k as int]@[i - prefix.len()], data@[prefix.len() + (i
                        - prefix.len())]));
                    assert(next[i] == dfs@[k as int]@[i - prefix.len()]);
                }
            }
        }
        k += 1;
    }
    proof {
        assert(dfs@.subrange(0, dfs@.len() as int) =~= dfs@);
    }
    DataFrame::new(data)
}

/// A slice of a DataFrame: a non-owning window `[start, end)` over the
/// backing DataFrame's rows, valid as long as the backing DataFrame is.
pub struct SliceDataFrame<'a, D> {
    dataframe: &'a DataFrame<D>,
    start: usize,
    end: usize,
}

impl<'a, D> View for SliceDataFrame<'a, D> {
    type V = Seq<D>;

    closed spec fn view(&self) -> Seq<D> {
        self.dataframe@.subrange(self.start as int, self.end as int)
    }
}

impl<'a, D: Clone> SliceDataFrame<'a, D> {
    /// The window bounds lie inside the backing DataFrame.
    pub closed spec fn wf(&self) -> bool {
        self.start <= self.end <= self.dataframe@.len()
    }

    fn new(dataframe: &'a DataFrame<D>, start: usize, end: usize) -> (r: Self)
        requires
            start <= end <= dataframe@.len(),
        ensures
            r.wf(),
            r@ == dataframe@.subrange(start as int, end as int),
    {
        SliceDataFrame { dataframe, start, end }
    }

    /// Return the number of rows of the slice.
    pub fn len(&self) -> (r: usize)
        requires
            self.wf(),
        ensures
            r == self@.len(),
    {
        self.end - self.start
    }

    /// Clone the slice's rows into a new, independently owned DataFrame.
    pub fn clone(&self) -> (r: DataFrame<D>)
        requires
            self.wf(),
        ensures
            r@.len() == self@.len(),
            forall|i: int| 0 <= i < r@.len() ==> cloned(self@[i], #[trigger] r@[i]),
    {
        let mut data: Vec<D> = Vec::new();
        let mut j: usize = self.start;
        while j < self.end
            invariant
                self.wf(),
                self.start <= j <= self.end,
                data@.len() == j - self.start,
                forall|i: int| 0 <= i < j - self.start ==> cloned(self@[i], #[trigger] data@[i]),
            decreases self.end - j,
        {
            data.push(self.dataframe.data[j].clone());
            j += 1;
        }
        DataFrame::new(data)
    }

    /// Take (a copy of) the first `num` rows of the slice, all of them when
    /// `num` exceeds its length.
    pub fn take(&self, num: usize) -> (r: Vec<D>)
        requires
            self.wf(),
        ensures
            r@.len() == if num <= self@.len() { num as int } else { self@.len() as int },
            forall|i: int| 0 <= i < r@.len() ==> cloned(self@[i], #[trigger] r@[i]),
    {
        let len: usize = self.end - self.start;
        let min_num: usize = if num <= len {
            num
        } else {
            len
        };
        let mut data: Vec<D> = Vec::new();
        let mut j: usize = 0;
        while j < min_num
            invariant
                self.wf(),
                min_num <= self@.len(),
                j <= min_num,
                data@.len() == j,
                forall|i: int| 0 <= i < j ==> cloned(self@[i], #[trigger] data@[i]),
            decreases min_num - j,
        {
            data.push(self.dataframe.data[self.start + j].clone());
            j += 1;
        }
        data
    }

    /// Find the first row of the slice satisfying the condition, or `None`
    /// when no row does; the row is returned by reference, not copied.
    pub fn find<F: Fn(&D) -> bool>(&self, condition: F) -> (r: Option<&D>)
        requires
            self.wf(),
            forall|i: int| 0 <= i < self@.len() ==> call_requires(condition, (&self@[i],)),
        ensures
            match r {
                Some(d) => exists|i: int|
                    {
                        &&& 0 <= i < self@.len()
                        &&& *d == self@[i]
                        &&& call_ensures(condition, (&self@[i],), true)
                        &&& (forall|k: int|
                            0 <= k < i ==> call_ensures(condition, (&self@[k],), false))
                    },
                None => forall|i: int|
                    0 <= i < self@.len() ==> call_ensures(condition, (&self@[i],), false),
            },
    {
        let mut j: usize = 0;
        while j < self.end - self.start
            invariant
                self.wf(),
                forall|i: int| 0 <= i < self@.len() ==> call_requires(condition, (&self@[i],)),
                j <= self@.len(),
                forall|k: int| 0 <= k < j ==> call_ensures(condition, (&self@[k],), false),
            decreases self.end - self.start - j,
        {
            proof {
                assert(call_requires(condition, (&self@[j as int],)));
            }
            if condition(&self.dataframe.data[self.start + j]) {
                proof {
                    assert(call_ensures(condition, (&self@[j as int],), true));
                }
                return Some(&self.dataframe.data[self.start + j]);
            }
            j += 1;
        }
        None
    }
}


impl<D: Clone> DataFrame<D> {
    /// Returns a non-copying view over the first `num` rows of this
    /// DataFrame (all rows when `num` exceeds the length).
    pub fn head<'a>(&'a self, num: usize) -> (r: SliceDataFrame<'a, D>)
        ensures
            r.wf(),
            r@ == self@.subrange(
                0,
                if num <= self@.len() {
                    num as int
                } else {
                    self@.len() as int
                },
            ),
    {
        let min_num: usize = if num <= self.data.len() {
            num
        } else {
            self.data.len()
        };
        SliceDataFrame::new(self, 0, min_num)
    }

    /// Split the rows positionally in two: the first DataFrame keeps the
    /// leading rows not selected by the fraction `num / den`, the second
    /// keeps the fraction-sized remainder (rounded to the nearest row).
    pub fn split(&self, num: usize, den: usize) -> (r: (Self, Self))
        requires
            0 < den,
            num <= den,
        ensures
            r.0@.len() + r.1@.len() == self@.len(),
            r.1@.len() == split_tail_len(self@.len() as int, num as int, den as int),
            forall|i: int| 0 <= i < r.0@.len() ==> cloned(self@[i], #[trigger] r.0@[i]),
            forall|i: int|
                0 <= i < r.1@.len() ==> cloned(self@[r.0@.len() + i], #[trigger] r.1@[i]),
    {
        let len: usize = self.data.len();
        proof {
            vstd::arithmetic::mul::lemma_mul_upper_bound(
                len as int,
                0xffff_ffff_ffff_ffff,
                num as int,
                0xffff_ffff_ffff_ffff,
            );
            assert((len as int) * (num as int) <= 0xffff_ffff_ffff_ffff * 0xffff_ffff_ffff_ffff);
            lemma_split_tail_bounds(len as int, num as int, den as int);
        }
        let prod: u128 = (len as u128) * (num as u128);
        let tail128: u128 = (prod + (den as u128) / 2) / (den as u128);
        let tail: usize = tail128 as usize;
        let first: usize = len - tail;

        let mut front: Vec<D> = Vec::new();
        let mut j: usize = 0;
        while j < first
            invariant
                first <= self.data@.len(),
                j <= first,
                front@.len() == j,
                forall|i: int| 0 <= i < j ==> cloned(self@[i], #[trigger] front@[i]),
            decreases first - j,
        {
            front.push(self.data[j].clone());
            j += 1;
        }
        let mut back: Vec<D> = Vec::new();
        let mut m: usize = first;
        while m < len
            invariant
                first <= m <= len == self.data@.len(),
                back@.len() == m - first,
                forall|i: int| 0 <= i < m - first ==> cloned(self@[first + i], #[trigger] back@[i]),
            decreases len - m,
        {
            back.push(self.data[m].clone());
            m += 1;
        }
        (DataFrame::new(front), DataFrame::new(back))
    }
}

/// A sorted adjacent pair is never inverted: when the comparator is a
/// function of its arguments (one answer per pair) and never places each of
/// two rows after the other, the sort's adjacent-pair guarantee means the
/// comparator cannot place a row after its successor.
pub proof fn lemma_sorted_pair_not_inverted<D, F: Fn(&D, &D) -> bool>(comp: F, a: D, b: D)
    requires
        call_ensures(comp, (&a, &b), false) || call_ensures(comp, (&b, &a), true),
        forall|x: &D, y: &D, r1: bool, r2: bool|
            call_ensures(comp, (x, y), r1) && call_ensures(comp, (x, y), r2) ==> r1 == r2,
        forall|x: &D, y: &D|
            !(call_ensures(comp, (x, y), true) && #[trigger] call_ensures(comp, (y, x), true)),
    ensures
        !call_ensures(comp, (&a, &b), true),
{
}

/// Splitting a DataFrame and concatenating the two halves yields as many
/// rows as the original had, whatever the order of the halves.
pub proof fn lemma_split_concat_len<D>(left: DataFrame<D>, right: DataFrame<D>, original: Seq<D>)
    requires
        left@.len() + right@.len() == original.len(),
    ensures
        concat_rows(seq![left, right]).len() == original.len(),
{
    let s = seq![left, right];
    assert(s.drop_last() =~= seq![left]);
    assert(seq![left].drop_last() =~= Seq::<DataFrame<D>>::empty());
    assert(concat_rows(Seq::<DataFrame<D>>::empty()) =~= Seq::<D>::empty());
    assert(concat_rows(seq![left]) =~= Seq::<D>::empty() + left@);
    assert(s.last() == right);
    assert(seq![left].last() == left);
    assert(concat_rows(s) =~= concat_rows(seq![left]) + right@);
    assert(concat_rows(s).len() == left@.len() + right@.len());
}


/// A mask that keeps no row selects nothing.
pub proof fn lemma_masked_none<D>(s: Seq<D>, keep: Seq<bool>)
    requires
        s.len() == keep.len(),
        forall|i: int| 0 <= i < keep.len() ==> !keep[i],
    ensures
        masked(s, keep) == Seq::<D>::empty(),
    decreases s.len(),
{
    if s.len() > 0 {
        lemma_masked_none(s.drop_last(), keep.drop_last());
    }
}

/// The values that a sequence of borrowed rows refers to, in order.
pub open spec fn derefs<'a, D>(s: Seq<&'a D>) -> Seq<D> {
    s.map_values(|d: &'a D| *d)
}

/// The first index in `reps` whose key the equality specification relates
/// to `k`, or `reps.len()` when none is related.
pub open spec fn key_slot<I: PartialEq>(reps: Seq<I>, k: I) -> int
    decreases reps.len(),
{
    if reps.len() == 0 {
        0
    } else if reps.first().eq_spec(&k) {
        0
    } else {
        1 + key_slot(reps.drop_first(), k)
    }
}

/// A key's slot lies between 0 and the number of representatives.
pub proof fn lemma_key_slot_range<I: PartialEq>(reps: Seq<I>, k: I)
    ensures
        0 <= key_slot(reps, k) <= reps.len(),
    decreases reps.len(),
{
    if reps.len() > 0 && !reps.first().eq_spec(&k) {
        lemma_key_slot_range(reps.drop_first(), k);
    }
}

/// The slot of `k` is the first index related to `k`: knowing that every
/// representative before `b` fails and (when `b` is a real index) that the
/// one at `b` matches pins the slot down.
pub proof fn lemma_key_slot_is_first<I: PartialEq>(reps: Seq<I>, k: I, b: int)
    requires
        0 <= b <= reps.len(),
        forall|c: int| 0 <= c < b ==> !(#[trigger] reps[c]).eq_spec(&k),
        b < reps.len() ==> reps[b].eq_spec(&k),
    ensures
        key_slot(reps, k) == b,
    decreases reps.len(),
{
    if reps.len() > 0 {
        if b == 0 {
        } else {
            assert(!reps[0].eq_spec(&k));
            assert(forall|c: int|
                0 <= c < b - 1 ==> !(#[trigger] reps.drop_first()[c]).eq_spec(&k)) by {
                assert(forall|c: int|
                    0 <= c < b - 1 ==> reps.drop_first()[c] == reps[c + 1]);
            }
            lemma_key_slot_is_first(reps.drop_first(), k, b - 1);
        }
    }
}

/// Appending a new representative does not move the slot of a key that
/// already had one, and gives a slotless key the new slot exactly when the
/// new representative matches it.
pub proof fn lemma_key_slot_push<I: PartialEq>(reps: Seq<I>, x: I, k: I)
    ensures
        key_slot(reps, k) < reps.len() ==> key_slot(reps.push(x), k) == key_slot(reps, k),
        key_slot(reps, k) >= reps.len() ==> key_slot(reps.push(x), k) == (if x.eq_spec(&k) {
            reps.len() as int
        } else {
            reps.len() + 1int
        }),
    decreases reps.len(),
{
    lemma_key_slot_range(reps, k);
    if reps.len() == 0 {
        assert(reps.push(x).first() == x);
        assert(reps.push(x).drop_first() =~= Seq::<I>::empty());
        assert(key_slot(Seq::<I>::empty(), k) == 0);
    } else {
        assert(reps.push(x).first() == reps.first());
        assert(reps.push(x).drop_first() =~= reps.drop_first().push(x));
        lemma_key_slot_push(reps.drop_first(), x, k);
    }
}

/// The distinct keys of `ks`, in first-seen order: a key joins the list
/// only when no earlier distinct key is related to it.
pub open spec fn distinct_keys<I: PartialEq>(ks: Seq<I>) -> Seq<I>
    decreases ks.len(),
{
    if ks.len() == 0 {
        Seq::empty()
    } else {
        let rest = distinct_keys(ks.drop_last());
        if key_slot(rest, ks.last()) < rest.len() {
            rest
        } else {
            rest.push(ks.last())
        }
    }
}

/// The mask selecting the rows of bucket `b`: row `i` falls in bucket `b`
/// exactly when the first distinct key related to its key is number `b`.
pub open spec fn bucket_mask<I: PartialEq>(ks: Seq<I>, b: int) -> Seq<bool> {
    Seq::new(ks.len(), |i: int| key_slot(distinct_keys(ks), ks[i]) == b)
}

/// Whether exec equality on the key type is known to agree with its
/// specification-level equality (see vstd's `PartialEqSpec`), and that
/// equality relates every key to itself.
pub open spec fn keys_obey<I: PartialEq>() -> bool {
    &&& <I as PartialEqSpec>::obeys_eq_spec()
    &&& forall|x: I| #[trigger] x.eq_spec(&x)
}

/// The keys that one run of the key-derivation function may have produced:
/// `ks[i]` is a result the function can return (and did return) on row `i`.
pub open spec fn keys_observed<D, I, F: Fn(&D) -> I>(src: Seq<D>, index: F, ks: Seq<I>) -> bool {
    &&& ks.len() == src.len()
    &&& forall|i: int| 0 <= i < ks.len() ==> call_ensures(index, (&src[i],), #[trigger] ks[i])
}

/// A group of rows of a DataFrame: borrowed references to all the rows
/// sharing one derived key, in their original relative order.
pub struct Group<'a, D> {
    pub(crate) data: Vec<&'a D>,
}

impl<'a, D> View for Group<'a, D> {
    type V = Seq<D>;

    closed spec fn view(&self) -> Seq<D> {
        derefs(self.data@)
    }
}

/// Within the crate: a group's view is the sequence of row values its
/// borrowed references point at.
pub(crate) proof fn lemma_group_view<'a, D>(g: &Group<'a, D>)
    ensures
        g@ == derefs(g.data@),
{
}

impl<'a, D> Group<'a, D> {
    /// The number of rows in the group.
    pub fn len(&self) -> (r: usize)
        ensures
            r == self@.len(),
    {
        self.data.len()
    }

    /// The `i`-th row of the group, by reference.
    pub fn get(&self, i: usize) -> (r: &'a D)
        requires
            i < self@.len(),
        ensures
            *r == self@[i as int],
    {
        self.data[i]
    }
}

/// A grouped DataFrame: pairs the source DataFrame with a key-derivation
/// function.  No partition is materialized until `agg` is invoked.
#[verifier::reject_recursive_types(I)]
pub struct GroupedDataFrame<'a, D, I: Eq + Hash + Clone, F> where F: Fn(&D) -> I {
    dataframe: &'a DataFrame<D>,
    index: F,
}

impl<'a, D: Clone, I: Eq + Hash + Clone, F: Fn(&D) -> I> GroupedDataFrame<'a, D, I, F> {
    /// The rows being grouped.
    pub closed spec fn spec_source(&self) -> Seq<D> {
        self.dataframe@
    }

    /// The key-derivation function.
    pub closed spec fn spec_index(&self) -> F {
        self.index
    }

    fn new(df: &'a DataFrame<D>, index: F) -> (r: Self)
        ensures
            r.spec_source() == df@,
            r.spec_index() == index,
    {
        GroupedDataFrame { dataframe: df, index }
    }
}


impl<D: Clone> DataFrame<D> {
    /// Group the DataFrame's rows by the given key-derivation function.
    /// Nothing is computed until the grouped DataFrame is aggregated.
    pub fn groupby<'a, I: Eq + Hash + Clone, F: Fn(&D) -> I>(&'a self, index: F) -> (r:
        GroupedDataFrame<'a, D, I, F>)
        ensures
            r.spec_source() == self@,
            r.spec_index() == index,
    {
        GroupedDataFrame::new(self, index)
    }
}

/// The shape of every key/group pair an aggregation can build from `src`:
/// a nonempty group whose rows all come from `src`, with a key that the
/// key-derivation function returned for some source row.
pub open spec fn agg_input_ok<'a, D, I, F: Fn(&D) -> I>(
    src: Seq<D>,
    index: F,
    kb: I,
    g: Group<'a, D>,
) -> bool {
    &&& 1 <= g@.len() <= src.len()
    &&& (forall|m: int| 0 <= m < g@.len() ==> src.contains(#[trigger] g@[m]))
    &&& (exists|i: int| 0 <= i < src.len() && call_ensures(index, (&src[i],), kb))
}

/// Every output row is an aggregator result: row `b` of `out` is what the
/// aggregator returned on key `kbs[b]` and group `gss[b]`, a nonempty group
/// of source rows bearing a key the key-derivation function produced.
pub open spec fn agg_outputs_ok<'a, D, I, S, F: Fn(&D) -> I, G: Fn(&I, &Group<'a, D>) -> S>(
    src: Seq<D>,
    index: F,
    aggregator: G,
    kbs: Seq<I>,
    gss: Seq<Group<'a, D>>,
    out: Seq<S>,
) -> bool {
    &&& kbs.len() == out.len()
    &&& gss.len() == out.len()
    &&& forall|b: int|
        #![trigger out[b]]
        0 <= b < out.len() ==> agg_input_ok(src, index, kbs[b], gss[b]) && call_ensures(
            aggregator,
            (&kbs[b], &gss[b]),
            out[b],
        )
}

/// The partition underlying an aggregation: group `b` of `gss` holds
/// exactly the source rows of bucket `b`, in source order, and row `b` of
/// `out` is the aggregator's result on the `b`-th distinct key and that
/// group.
pub open spec fn agg_partition_ok<'a, D, I: PartialEq, S, G: Fn(&I, &Group<'a, D>) -> S>(
    src: Seq<D>,
    ks: Seq<I>,
    aggregator: G,
    gss: Seq<Group<'a, D>>,
    out: Seq<S>,
) -> bool {
    &&& gss.len() == out.len()
    &&& forall|b: int|
        #![trigger out[b]]
        0 <= b < out.len() ==> gss[b]@ == masked(src, bucket_mask(ks, b)) && call_ensures(
            aggregator,
            (&distinct_keys(ks)[b], &gss[b]),
            out[b],
        )
}

impl<'a, D: Clone, I: Eq + Hash + Clone, F: Fn(&D) -> I> GroupedDataFrame<'a, D, I, F> {
    /// Aggregate the grouped DataFrame into a new DataFrame: one pass over
    /// the source rows, in order, assigns every row to the bucket of the
    /// first distinct key equal to its own; the aggregator then reduces
    /// every bucket, in first-seen key order, to one output row.  The
    /// number of output rows equals the number of distinct keys; an empty
    /// source aggregates to an empty DataFrame, and the aggregator is never
    /// handed an empty group.
    #[verifier::rlimit(100)]
    pub fn agg<S: Clone, G: Fn(&I, &Group<'a, D>) -> S>(&self, aggregator: G) -> (r: DataFrame<S>)
        requires
            forall|i: int|
                0 <= i < self.spec_source().len() ==> call_requires(
                    self.spec_index(),
                    (&self.spec_source()[i],),
                ),
            forall|kb: I, g: Group<'a, D>|
                #![trigger call_requires(aggregator, (&kb, &g))]
                agg_input_ok(self.spec_source(), self.spec_index(), kb, g) ==> call_requires(
                    aggregator,
                    (&kb, &g),
                ),
        ensures
            r@.len() <= self.spec_source().len(),
            self.spec_source().len() == 0 ==> r@.len() == 0,
            self.spec_source().len() > 0 ==> r@.len() >= 1,
            exists|kbs: Seq<I>, gss: Seq<Group<'a, D>>|
                #![trigger agg_outputs_ok(self.spec_source(), self.spec_index(), aggregator, kbs, gss, r@)]
                agg_outputs_ok(self.spec_source(), self.spec_index(), aggregator, kbs, gss, r@),
            keys_obey::<I>() ==> (exists|ks: Seq<I>, gss: Seq<Group<'a, D>>|
                #![trigger agg_partition_ok(self.spec_source(), ks, aggregator, gss, r@)]
                (keys_observed(self.spec_source(), self.spec_index(), ks) && r@.len()
                    == distinct_keys(ks).len() && agg_partition_ok(
                    self.spec_source(),
                    ks,
                    aggregator,
                    gss,
                    r@,
                ))),
    {
        let ghost src = self.spec_source();
        let ghost obeys = keys_obey::<I>();
        let mut keys: Vec<I> = Vec::new();
        let mut buckets: Vec<Vec<&'a D>> = Vec::new();
        let ghost mut ks: Seq<I> = Seq::empty();
        let ghost mut firsts: Seq<int> = Seq::empty();

        let mut j: usize = 0;
        while j < self.dataframe.data.len()
            invariant
                src == self.spec_source(),
                obeys == keys_obey::<I>(),
                forall|i: int|
                    0 <= i < src.len() ==> call_requires(self.spec_index(), (&src[i],)),
                j <= src.len(),
                ks.len() == j,
                keys@.len() == buckets@.len(),
                j > 0 ==> keys@.len() >= 1,
                keys@.len() <= j,
                forall|i: int|
                    0 <= i < j ==> call_ensures(self.spec_index(), (&src[i],), #[trigger] ks[i]),
                forall|bb: int|
                    #![trigger buckets@[bb]]
                    0 <= bb < buckets@.len() ==> {
                        &&& 1 <= buckets@[bb]@.len() <= j
                        &&& (forall|m: int|
                            0 <= m < buckets@[bb]@.len() ==> src.contains(
                                *#[trigger] buckets@[bb]@[m],
                            ))
                    },
                firsts.len() == keys@.len(),
                forall|bb: int|
                    0 <= bb < keys@.len() ==> 0 <= #[trigger] firsts[bb] < j,
                forall|bb: int|
                    #![trigger keys@[bb]]
                    0 <= bb < keys@.len() ==> call_ensures(
                        self.spec_index(),
                        (&src[firsts[bb]],),
                        keys@[bb],
                    ),
                obeys ==> keys@ == distinct_keys(ks),
                obeys ==> forall|i: int|
                    0 <= i < j ==> 0 <= #[trigger] key_slot(keys@, ks[i]) < keys@.len(),
                obeys ==> forall|bb: int|
                    #![trigger buckets@[bb]]
                    0 <= bb < buckets@.len() ==> derefs(buckets@[bb]@) == masked(
                        src.subrange(0, j as int),
                        Seq::new(ks.len(), |i: int| key_slot(keys@, ks[i]) == bb),
                    ),
            decreases src.len() - j,
        {
            let row: &'a D = &self.dataframe.data[j];
            proof {
                assert(call_requires(self.spec_index(), (&src[j as int],)));
            }
            let k: I = (self.index)(row);
            proof {
                assert(call_ensures(self.spec_index(), (&src[j as int],), k));
            }

            let mut b: usize = 0;
            let mut found: bool = false;
            while !found && b < keys.len()
                invariant
                    obeys == keys_obey::<I>(),
                    b <= keys@.len(),
                    found ==> b < keys@.len(),
                    obeys && !found ==> forall|c: int|
                        0 <= c < b ==> !(#[trigger] keys@[c]).eq_spec(&k),
                    obeys && found ==> b < keys@.len() && keys@[b as int].eq_spec(&k) && (
                    forall|c: int| 0 <= c < b ==> !(#[trigger] keys@[c]).eq_spec(&k)),
                decreases keys@.len() - b + (if found { 0int } else { 1int }),
            {
                if keys[b].eq(&k) {
                    found = true;
                } else {
                    b += 1;
                }
            }

            let ghost old_keys = keys@;
            let ghost old_buckets = buckets@;
            let ghost old_ks = ks;
            let ghost old_firsts = firsts;
            proof {
                ks = ks.push(k);
            }

            if found {
                let mut bucket: Vec<&'a D> = buckets.remove(b);
                bucket.push(row);
                buckets.insert(b, bucket);
                proof {
                    assert(buckets@.len() == old_buckets.len());
                    assert(buckets@[b as int]@ =~= old_buckets[b as int]@.push(row));
                    assert forall|bb: int|
                        0 <= bb < buckets@.len() && bb != b implies #[trigger] buckets@[bb]
                        == old_buckets[bb] by {
                        assert(buckets@ == old_buckets.remove(b as int).insert(
                            b as int,
                            buckets@[b as int],
                        ));
                    }
                }
            } else {
                keys.push(k);
                let mut nb: Vec<&'a D> = Vec::new();
                nb.push(row);
                buckets.push(nb);
                proof {
                    firsts = firsts.push(j as int);
                    assert(keys@[old_keys.len() as int] == k);
                    assert(buckets@.len() == old_buckets.len() + 1);
                    assert(buckets@[old_buckets.len() as int]@ =~= Seq::<&'a D>::empty().push(
                        row,
                    ));
                    assert(forall|bb: int|
                        0 <= bb < old_buckets.len() ==> #[trigger] buckets@[bb]
                            == old_buckets[bb]);
                }
            }

            proof {
                assert(ks.drop_last() =~= old_ks);
                assert(ks[j as int] == k);
                assert(src.subrange(0, j + 1).drop_last() =~= src.subrange(0, j as int));
                assert(src.subrange(0, j + 1).last() == src[j as int]);
                if obeys {
                    let slot: int = if found {
                        b as int
                    } else {
                        old_keys.len() as int
                    };
                    if found {
                        lemma_key_slot_is_first(old_keys, k, b as int);
                    } else {
                        lemma_key_slot_is_first(old_keys, k, old_keys.len() as int);
                    }
                    assert(key_slot(old_keys, k) == slot);
                    // the distinct keys after this row
                    assert(distinct_keys(ks) == keys@);
                    // slots of already processed rows are unchanged
                    assert forall|i: int| 0 <= i < j implies 0 <= #[trigger] key_slot(
                        keys@,
                        ks[i],
                    ) < keys@.len() && key_slot(keys@, ks[i]) == key_slot(old_keys, old_ks[i]) by {
                        assert(ks[i] == old_ks[i]);
                        lemma_key_slot_push(old_keys, k, old_ks[i]);
                    }
                    assert(0 <= key_slot(keys@, ks[j as int]) < keys@.len()) by {
                        if found {
                        } else {
                            lemma_key_slot_push(old_keys, k, k);
                        }
                    }
                    assert(key_slot(keys@, k) == slot) by {
                        if !found {
                            lemma_key_slot_push(old_keys, k, k);
                        }
                    }
                    // every bucket still matches its mask
                    assert forall|bb: int| #![trigger buckets@[bb]] 0 <= bb < buckets@.len()
                        implies derefs(buckets@[bb]@) == masked(
                        src.subrange(0, j + 1),
                        Seq::new(ks.len(), |i: int| key_slot(keys@, ks[i]) == bb),
                    ) by {
                        let old_mask = Seq::new(
                            old_ks.len(),
                            |i: int| key_slot(old_keys, old_ks[i]) == bb,
                        );
                        let new_mask = Seq::new(ks.len(), |i: int| key_slot(keys@, ks[i]) == bb);
                        assert(new_mask.drop_last() =~= old_mask);
                        assert(new_mask.last() == (slot == bb));
                        if bb < old_buckets.len() {
                            assert(derefs(old_buckets[bb]@) == masked(
                                src.subrange(0, j as int),
                                old_mask,
                            ));
                            if bb == slot {
                                assert(buckets@[bb]@ =~= old_buckets[bb]@.push(row));
                                assert(derefs(old_buckets[bb]@.push(row)) =~= derefs(
                                    old_buckets[bb]@,
                                ).push(*row));
                            } else {
                                assert(buckets@[bb] == old_buckets[bb]);
                            }
                        } else {
                            // the freshly created bucket
                            assert(!found && bb == old_keys.len());
                            assert(buckets@[bb]@ =~= Seq::<&'a D>::empty().push(row));
                            assert(derefs(buckets@[bb]@) =~= Seq::<D>::empty().push(*row));
                            assert forall|i: int| 0 <= i < old_mask.len() implies !old_mask[i] by {
                                assert(key_slot(old_keys, old_ks[i]) < old_keys.len());
                            }
                            lemma_masked_none(src.subrange(0, j as int), old_mask);
                        }
                    }
                }
            }
            proof {
                assert forall|bb: int| 0 <= bb < keys@.len() implies 0 <= firsts[bb] < j + 1
                    && call_ensures(
                    self.spec_index(),
                    (&src[firsts[bb]],),
                    #[trigger] keys@[bb],
                ) by {
                    if bb < old_keys.len() {
                        assert(keys@[bb] == old_keys[bb]);
                        assert(firsts[bb] == old_firsts[bb]);
                    } else {
                        assert(keys@[bb] == k);
                        assert(firsts[bb] == j as int);
                    }
                }
            }
            j += 1;
        }

        proof {
            assert(src.subrange(0, src.len() as int) =~= src);
            assert(j == src.len());
            if obeys {
                assert forall|bb: int| 0 <= bb < buckets@.len() implies derefs(
                    #[trigger] buckets@[bb]@,
                ) == masked(src, bucket_mask(ks, bb)) by {
                    assert(bucket_mask(ks, bb) =~= Seq::new(
                        ks.len(),
                        |i: int| key_slot(keys@, ks[i]) == bb,
                    ));
                }
            }
        }

        let mut out: Vec<S> = Vec::new();
        let ghost mut gs: Seq<Group<'a, D>> = Seq::empty();
        let mut b: usize = 0;
        while b < keys.len()
            invariant
                src == self.spec_source(),
                obeys == keys_obey::<I>(),
                forall|kb: I, g: Group<'a, D>|
                    #![trigger call_requires(aggregator, (&kb, &g))]
                    agg_input_ok(src, self.spec_index(), kb, g) ==> call_requires(
                        aggregator,
                        (&kb, &g),
                    ),
                b <= keys@.len(),
                out@.len() == b,
                keys@.len() == buckets@.len(),
                keys@.len() <= src.len(),
                src.len() > 0 ==> keys@.len() >= 1,
                src.len() == 0 ==> keys@.len() == 0,
                ks.len() == src.len(),
                forall|i: int|
                    0 <= i < src.len() ==> call_ensures(
                        self.spec_index(),
                        (&src[i],),
                        #[trigger] ks[i],
                    ),
                forall|bb: int|
                    #![trigger buckets@[bb]]
                    0 <= bb < buckets@.len() ==> {
                        &&& 1 <= buckets@[bb]@.len() <= src.len()
                        &&& (forall|m: int|
                            0 <= m < buckets@[bb]@.len() ==> src.contains(
                                *#[trigger] buckets@[bb]@[m],
                            ))
                    },
                firsts.len() == keys@.len(),
                forall|bb: int|
                    0 <= bb < keys@.len() ==> 0 <= #[trigger] firsts[bb] < src.len(),
                forall|bb: int|
                    #![trigger keys@[bb]]
                    0 <= bb < keys@.len() ==> call_ensures(
                        self.spec_index(),
                        (&src[firsts[bb]],),
                        keys@[bb],
                    ),
                obeys ==> keys@ == distinct_keys(ks),
                obeys ==> forall|bb: int|
                    #![trigger buckets@[bb]]
                    0 <= bb < buckets@.len() ==> derefs(buckets@[bb]@) == masked(
                        src,
                        bucket_mask(ks, bb),
                    ),
                gs.len() == b,
                forall|bb: int|
                    #![trigger gs[bb]]
                    0 <= bb < b ==> agg_input_ok(src, self.spec_index(), keys@[bb], gs[bb])
                        && call_ensures(aggregator, (&keys@[bb], &gs[bb]), out@[bb]),
                obeys ==> forall|bb: int|
                    #![trigger gs[bb]]
                    0 <= bb < b ==> gs[bb]@ == masked(src, bucket_mask(ks, bb)) && call_ensures(
                        aggregator,
                        (&distinct_keys(ks)[bb], &gs[bb]),
                        out@[bb],
                    ),
            decreases keys@.len() - b,
        {
            let copied: Vec<&'a D> = buckets[b].clone();
            proof {
                assert forall|m: int| 0 <= m < copied@.len() implies copied@[m] == buckets@[
                    b as int]@[m] by {
                    assert(cloned(buckets@[b as int]@[m], copied@[m]));
                }
                assert(copied@ =~= buckets@[b as int]@);
            }
            let g = Group { data: copied };
            proof {
                assert(g@ =~= derefs(buckets@[b as int]@));
                assert forall|m: int| 0 <= m < g@.len() implies src.contains(#[trigger] g@[m]) by {
                    assert(g@[m] == *buckets@[b as int]@[m]);
                }
                assert(agg_input_ok(src, self.spec_index(), keys@[b as int], g));
            }
            let s = aggregator(&keys[b], &g);
            out.push(s);
            proof {
                gs = gs.push(g);
                assert(out@[b as int] == s);
                assert(agg_input_ok(src, self.spec_index(), keys@[b as int], g) && call_ensures(
                    aggregator,
                    (&keys@[b as int], &g),
                    out@[b as int],
                ));
                if obeys {
                    assert(g@ == masked(src, bucket_mask(ks, b as int)) && call_ensures(
                        aggregator,
                        (&distinct_keys(ks)[b as int], &g),
                        out@[b as int],
                    ));
                }
            }
            b += 1;
        }
        proof {
            assert(agg_outputs_ok(src, self.spec_index(), aggregator, keys@, gs, out@)) by {
                assert forall|bb: int| #![trigger out@[bb]] 0 <= bb < out@.len() implies
                    agg_input_ok(src, self.spec_index(), keys@[bb], gs[bb]) && call_ensures(
                    aggregator,
                    (&keys@[bb], &gs[bb]),
                    out@[bb],
                ) by {}
            }
            if obeys {
                assert(keys_observed(src, self.spec_index(), ks));
                assert(out@.len() == distinct_keys(ks).len());
                assert(agg_partition_ok(src, ks, aggregator, gs, out@)) by {
                    assert forall|bb: int| #![trigger out@[bb]] 0 <= bb < out@.len() implies
                        gs[bb]@ == masked(src, bucket_mask(ks, bb)) && call_ensures(
                        aggregator,
                        (&distinct_keys(ks)[bb], &gs[bb]),
                        out@[bb],
                    ) by {}
                }
            }
        }
        DataFrame::new(out)
    }
}

} // verus!
