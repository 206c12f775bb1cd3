use vstd::prelude::*;
use vstd::std_specs::cmp::PartialOrdSpec;
use vstd::std_specs::ops::AddSpec;
use core::cmp::Ordering;
use core::ops::Add;

use crate::dataframe::{derefs, lemma_group_view, Group};

verus! {

/// The values that one run of the property closure may have produced on the
/// first `vs.len()` rows: `vs[i]` is a value the closure can return (and
/// did return) on row `i`.
pub open spec fn values_observed<D, N, F: Fn(&D) -> N>(rows: Seq<D>, f: F, vs: Seq<N>) -> bool {
    &&& vs.len() <= rows.len()
    &&& forall|i: int| 0 <= i < vs.len() ==> call_ensures(f, (&rows[i],), #[trigger] vs[i])
}

/// Whether folding `+` over `vs` from `acc` meets the bounds the `+`
/// operator demands at every step.
pub open spec fn fold_add_ok<N: Add<Output = N>>(acc: N, vs: Seq<N>) -> bool
    decreases vs.len(),
{
    vs.len() == 0 || (acc.add_req(vs.first()) && fold_add_ok(acc.add_spec(vs.first()), vs.drop_first()))
}

/// The fold of `+` over `vs`, starting from `acc`.
pub open spec fn fold_add<N: Add<Output = N>>(acc: N, vs: Seq<N>) -> N
    decreases vs.len(),
{
    if vs.len() == 0 {
        acc
    } else {
        fold_add(acc.add_spec(vs.first()), vs.drop_first())
    }
}

/// Folding one more value on the right adds it to the fold of the rest.
pub proof fn lemma_fold_add_snoc<N: Add<Output = N>>(acc: N, vs: Seq<N>, v: N)
    ensures
        fold_add_ok(acc, vs.push(v)) == (fold_add_ok(acc, vs) && fold_add(acc, vs).add_req(v)),
        fold_add(acc, vs.push(v)) == fold_add(acc, vs).add_spec(v),
    decreases vs.len(),
{
    if vs.len() == 0 {
        assert(vs.push(v).first() == v);
        assert(vs.push(v).drop_first() =~= Seq::<N>::empty());
        assert(fold_add_ok(acc.add_spec(v), Seq::<N>::empty()));
        assert(fold_add(acc.add_spec(v), Seq::<N>::empty()) == acc.add_spec(v));
        assert(fold_add(acc, Seq::<N>::empty()) == acc);
    } else {
        let acc2 = acc.add_spec(vs.first());
        assert(vs.push(v).first() == vs.first());
        assert(vs.push(v).drop_first() =~= vs.drop_first().push(v));
        lemma_fold_add_snoc(acc2, vs.drop_first(), v);
        assert(fold_add(acc, vs) == fold_add(acc2, vs.drop_first()));
        assert(fold_add_ok(acc, vs) == (acc.add_req(vs.first()) && fold_add_ok(
            acc2,
            vs.drop_first(),
        )));
        assert(fold_add(acc, vs.push(v)) == fold_add(acc2, vs.drop_first().push(v)));
        assert(fold_add_ok(acc, vs.push(v)) == (acc.add_req(vs.first()) && fold_add_ok(
            acc2,
            vs.drop_first().push(v),
        )));
    }
}

/// One complete run of a `Default`-seeded fold over the group's rows:
/// `init` is a value the `Default` instance can return and `vs` holds one
/// observed property value per row, in order.
pub open spec fn sum_run<D, N: Add<Output = N> + Default, F: Fn(&D) -> N>(
    rows: Seq<D>,
    f: F,
    init: N,
    vs: Seq<N>,
) -> bool {
    &&& call_ensures(N::default, (), init)
    &&& vs.len() == rows.len()
    &&& values_observed(rows, f, vs)
}

/// Aggregator function that sums the values of the property closure over
/// all rows of a group, folding with `+` from the additive default value.
pub fn sum<D, N: Add<Output = N> + Default, F: Fn(&D) -> N>(group: &Group<D>, property: F) -> (r:
    N)
    requires
        N::obeys_add_spec(),
        forall|i: int| 0 <= i < group@.len() ==> call_requires(property, (&group@[i],)),
        forall|init: N, vs: Seq<N>|
            (call_ensures(N::default, (), init) && values_observed(
                group@,
                property,
                vs,
            )) ==> #[trigger] fold_add_ok(init, vs),
    ensures
        exists|init: N, vs: Seq<N>|
            #![trigger fold_add(init, vs)]
            (sum_run(group@, property, init, vs) && r == fold_add(init, vs)),
{
    proof {
        lemma_group_view(group);
    }
    let mut value: N = N::default();
    let ghost init = value;
    let ghost mut vs: Seq<N> = Seq::empty();
    let mut j: usize = 0;
    while j < group.data.len()
        invariant
            N::obeys_add_spec(),
            forall|i: int| 0 <= i < group@.len() ==> call_requires(property, (&group@[i],)),
            forall|init2: N, vs2: Seq<N>|
                (call_ensures(N::default, (), init2) && values_observed(
                    group@,
                    property,
                    vs2,
                )) ==> #[trigger] fold_add_ok(init2, vs2),
            group@ == derefs(group.data@),
            group@.len() == group.data@.len(),
            call_ensures(N::default, (), init),
            j <= group@.len(),
            vs.len() == j,
            forall|i: int| 0 <= i < j ==> call_ensures(property, (&group@[i],), #[trigger] vs[i]),
            fold_add_ok(init, vs),
            value == fold_add(init, vs),
        decreases group@.len() - j,
    {
        let row = group.data[j];
        proof {
            assert(group@[j as int] == *row);
            assert(call_requires(property, (&group@[j as int],)));
        }
        let v = property(row);
        proof {
            assert(call_ensures(property, (&group@[j as int],), v));
            assert(values_observed(group@, property, vs.push(v)));
            assert(fold_add_ok(init, vs.push(v)));
            lemma_fold_add_snoc(init, vs, v);
        }
        value = value + v;
        proof {
            vs = vs.push(v);
        }
        j += 1;
    }
    proof {
        assert(sum_run(group@, property, init, vs) && value == fold_add(init, vs));
    }
    value
}

/// Aggregator function that returns the number of rows in a group.
pub fn count<D>(group: &Group<D>) -> (r: usize)
    ensures
        r == group@.len(),
{
    proof {
        lemma_group_view(group);
    }
    group.data.len()
}

/// Groupby key function that maps every row to the same key, grouping all
/// rows together.
pub fn all<D>(_row: &D) -> (r: usize)
    ensures
        r == 1,
{
    1
}

/// Aggregator function that collects the values of the property closure
/// over all rows of a group into a vector, in row order.
pub fn vec<D, N, F: Fn(&D) -> N>(group: &Group<D>, property: F) -> (r: Vec<N>)
    requires
        forall|i: int| 0 <= i < group@.len() ==> call_requires(property, (&group@[i],)),
    ensures
        r@.len() == group@.len(),
        forall|i: int|
            0 <= i < group@.len() ==> call_ensures(property, (&group@[i],), #[trigger] r@[i]),
{
    proof {
        lemma_group_view(group);
    }
    let mut out: Vec<N> = Vec::new();
    let mut j: usize = 0;
    while j < group.data.len()
        invariant
            forall|i: int| 0 <= i < group@.len() ==> call_requires(property, (&group@[i],)),
            group@ == derefs(group.data@),
            group@.len() == group.data@.len(),
            j <= group@.len(),
            out@.len() == j,
            forall|i: int| 0 <= i < j ==> call_ensures(property, (&group@[i],), #[trigger] out@[i]),
        decreases group@.len() - j,
    {
        let row = group.data[j];
        proof {
            assert(group@[j as int] == *row);
            assert(call_requires(property, (&group@[j as int],)));
        }
        out.push(property(row));
        j += 1;
    }
    out
}

/// Whether comparison on `N` is known to be a faithful total order: its
/// comparison operators agree with their specification, which orders every
/// pair and relates every value to itself.
pub open spec fn cmp_reliable<N: Ord>() -> bool {
    &&& vstd::laws_cmp::obeys_cmp::<N>()
    &&& forall|x: N| #[trigger] x.partial_cmp_spec(&x) == Some(Ordering::Equal)
}

/// Calculate the maximum value of the property closure over a group of
/// rows: the result is one of the observed values, and no observed value
/// compares greater than it.  The group must not be empty.
pub fn max<D, N: Ord, F: Fn(&D) -> N>(group: &Group<D>, f: F) -> (r: N)
    requires
        group@.len() > 0,
        forall|i: int| 0 <= i < group@.len() ==> call_requires(f, (&group@[i],)),
    ensures
        exists|vs: Seq<N>|
            #![trigger values_observed(group@, f, vs)]
            {
                &&& vs.len() == group@.len()
                &&& values_observed(group@, f, vs)
                &&& vs.contains(r)
                &&& cmp_reliable::<N>() ==> forall|i: int|
                    0 <= i < vs.len() ==> (#[trigger] vs[i]).partial_cmp_spec(&r) != Some(
                        Ordering::Greater,
                    )
            },
{
    proof {
        lemma_group_view(group);
    }
    let row0 = group.data[0];
    proof {
        assert(group@[0] == *row0);
        assert(call_requires(f, (&group@[0],)));
    }
    let mut value: N = f(row0);
    let ghost mut vs: Seq<N> = seq![value];
    proof {
        assert(vs[0] == value);
    }
    let mut j: usize = 1;
    while j < group.data.len()
        invariant
            forall|i: int| 0 <= i < group@.len() ==> call_requires(f, (&group@[i],)),
            group@ == derefs(group.data@),
            group@.len() == group.data@.len(),
            1 <= j <= group@.len(),
            vs.len() == j,
            forall|i: int| 0 <= i < j ==> call_ensures(f, (&group@[i],), #[trigger] vs[i]),
            vs.contains(value),
            cmp_reliable::<N>() ==> forall|i: int|
                0 <= i < j ==> (#[trigger] vs[i]).partial_cmp_spec(&value) != Some(
                    Ordering::Greater,
                ),
        decreases group@.len() - j,
    {
        let row = group.data[j];
        proof {
            assert(group@[j as int] == *row);
            assert(call_requires(f, (&group@[j as int],)));
        }
        let nvalue = f(row);
        let ghost old_vs = vs;
        let ghost old_value = value;
        proof {
            vs = vs.push(nvalue);
            assert(vs[j as int] == nvalue);
        }
        let is_greater: bool = nvalue > value;
        if is_greater {
            value = nvalue;
        }
        proof {
            if value == old_value {
                let idx = choose|i: int| 0 <= i < old_vs.len() && old_vs[i] == value;
                assert(vs[idx] == value);
            }
            assert(vs.contains(value));
            if cmp_reliable::<N>() {
                reveal(vstd::laws_cmp::obeys_cmp_partial_ord);
                reveal(vstd::laws_cmp::obeys_cmp_ord);
                reveal(vstd::laws_cmp::obeys_partial_cmp_spec_properties);
                assert(N::obeys_partial_cmp_spec());
                assert forall|i: int|
                    0 <= i < j + 1 implies (#[trigger] vs[i]).partial_cmp_spec(&value) != Some(
                    Ordering::Greater,
                ) by {
                    if is_greater {
                        assert(nvalue.partial_cmp_spec(&old_value) == Some(Ordering::Greater));
                        if i < j {
                            assert(vs[i] == old_vs[i]);
                            assert(old_vs[i].partial_cmp_spec(&old_value) != Some(
                                Ordering::Greater,
                            ));
                            if vs[i].partial_cmp_spec(&nvalue) == Some(Ordering::Greater) {
                                assert(vs[i].partial_cmp_spec(&old_value) == Some(
                                    Ordering::Greater,
                                ));
                            }
                        } else {
                            assert(vs[i] == nvalue);
                            assert(nvalue.partial_cmp_spec(&nvalue) == Some(Ordering::Equal));
                        }
                    } else {
                        if i < j {
                            assert(vs[i] == old_vs[i]);
                        } else {
                            assert(vs[i] == nvalue);
                            assert(nvalue.partial_cmp_spec(&old_value) != Some(Ordering::Greater));
                        }
                    }
                }
            }
        }
        j += 1;
    }
    proof {
        assert(values_observed(group@, f, vs));
    }
    value
}

/// Calculate the minimum value of the property closure over a group of
/// rows: the result is one of the observed values, and no observed value
/// compares less than it.  The group must not be empty.
pub fn min<D, N: Ord, F: Fn(&D) -> N>(group: &Group<D>, f: F) -> (r: N)
    requires
        group@.len() > 0,
        forall|i: int| 0 <= i < group@.len() ==> call_requires(f, (&group@[i],)),
    ensures
        exists|vs: Seq<N>|
            #![trigger values_observed(group@, f, vs)]
            {
                &&& vs.len() == group@.len()
                &&& values_observed(group@, f, vs)
                &&& vs.contains(r)
                &&& cmp_reliable::<N>() ==> forall|i: int|
                    0 <= i < vs.len() ==> (#[trigger] vs[i]).partial_cmp_spec(&r) != Some(
                        Ordering::Less,
                    )
            },
{
    proof {
        lemma_group_view(group);
    }
    let row0 = group.data[0];
    proof {
        assert(group@[0] == *row0);
        assert(call_requires(f, (&group@[0],)));
    }
    let mut value: N = f(row0);
    let ghost mut vs: Seq<N> = seq![value];
    proof {
        assert(vs[0] == value);
    }
    let mut j: usize = 1;
    while j < group.data.len()
        invariant
            forall|i: int| 0 <= i < group@.len() ==> call_requires(f, (&group@[i],)),
            group@ == derefs(group.data@),
            group@.len() == group.data@.len(),
            1 <= j <= group@.len(),
            vs.len() == j,
            forall|i: int| 0 <= i < j ==> call_ensures(f, (&group@[i],), #[trigger] vs[i]),
            vs.contains(value),
            cmp_reliable::<N>() ==> forall|i: int|
                0 <= i < j ==> (#[trigger] vs[i]).partial_cmp_spec(&value) != Some(
                    Ordering::Less,
                ),
        decreases group@.len() - j,
    {
        let row = group.data[j];
        proof {
            assert(group@[j as int] == *row);
            assert(call_requires(f, (&group@[j as int],)));
        }
        let nvalue = f(row);
        let ghost old_vs = vs;
        let ghost old_value = value;
        proof {
            vs = vs.push(nvalue);
            assert(vs[j as int] == nvalue);
        }
        let is_less: bool = nvalue < value;
        if is_less {
            value = nvalue;
        }
        proof {
            if value == old_value {
                let idx = choose|i: int| 0 <= i < old_vs.len() && old_vs[i] == value;
                assert(vs[idx] == value);
            }
            assert(vs.contains(value));
            if cmp_reliable::<N>() {
                reveal(vstd::laws_cmp::obeys_cmp_partial_ord);
                reveal(vstd::laws_cmp::obeys_cmp_ord);
                reveal(vstd::laws_cmp::obeys_partial_cmp_spec_properties);
                assert(N::obeys_partial_cmp_spec());
                assert forall|i: int|
                    0 <= i < j + 1 implies (#[trigger] vs[i]).partial_cmp_spec(&value) != Some(
                    Ordering::Less,
                ) by {
                    if is_less {
                        assert(nvalue.partial_cmp_spec(&old_value) == Some(Ordering::Less));
                        if i < j {
                            assert(vs[i] == old_vs[i]);
                            assert(old_vs[i].partial_cmp_spec(&old_value) != Some(Ordering::Less));
                            if vs[i].partial_cmp_spec(&nvalue) == Some(Ordering::Less) {
                                assert(vs[i].partial_cmp_spec(&old_value) == Some(Ordering::Less));
                            }
                        } else {
                            assert(vs[i] == nvalue);
                            assert(nvalue.partial_cmp_spec(&nvalue) == Some(Ordering::Equal));
                        }
                    } else {
                        if i < j {
                            assert(vs[i] == old_vs[i]);
                        } else {
                            assert(vs[i] == nvalue);
                            assert(nvalue.partial_cmp_spec(&old_value) != Some(Ordering::Less));
                        }
                    }
                }
            }
        }
        j += 1;
    }
    proof {
        assert(values_observed(group@, f, vs));
    }
    value
}

} // verus!
