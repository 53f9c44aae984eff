//! The data lookup index of a block: where the data of each application
//! starts in the block's data.
use vstd::prelude::*;

verus! {

/// The data lookup of a block.
#[derive(Debug, Clone, PartialEq, Eq)]
pub struct DataLookup {
    /// size of the look up
    pub size: u32,
    /// sorted vector of tuples(key, start index)
    pub index: Vec<(u32, u32)>,
}

impl Default for DataLookup {
    fn default() -> (res: Self)
        ensures
            res.size == 0,
            res.index@ == Seq::<(u32, u32)>::empty(),
    {
        DataLookup { size: 0, index: Vec::new() }
    }
}

/// The total length of the transactions `(app_id, len)` in `xs`.
pub open spec fn total_len(xs: Seq<(u32, u32)>) -> nat
    decreases xs.len(),
{
    if xs.len() == 0 {
        0
    } else {
        total_len(xs.drop_last()) + xs.last().1 as nat
    }
}

/// Whether the transaction at position `i` of `xs` starts the data of an
/// application: its id is not 0 and differs from the id before it (there
/// being none counts as id 0).
pub open spec fn starts_app(xs: Seq<(u32, u32)>, i: int) -> bool {
    &&& xs[i].0 != 0
    &&& (if i == 0 { true } else { xs[i - 1].0 != xs[i].0 })
}

/// The lookup index of `xs`: for each transaction that starts the data of an
/// application, in order, the application id and the total length of the
/// transactions before it.
pub open spec fn lookup_index(xs: Seq<(u32, u32)>) -> Seq<(u32, u32)>
    decreases xs.len(),
{
    if xs.len() == 0 {
        Seq::empty()
    } else {
        let prefix = xs.drop_last();
        let rest = lookup_index(prefix);
        if starts_app(xs, xs.len() - 1) {
            rest.push((xs.last().0, total_len(prefix) as u32))
        } else {
            rest
        }
    }
}

proof fn lemma_total_len_monotone(xs: Seq<(u32, u32)>, i: int)
    requires
        0 <= i <= xs.len(),
    ensures
        total_len(xs.subrange(0, i)) <= total_len(xs),
    decreases xs.len(),
{
    if i < xs.len() {
        assert(xs.drop_last().subrange(0, i) =~= xs.subrange(0, i));
        lemma_total_len_monotone(xs.drop_last(), i);
    } else {
        assert(xs.subrange(0, i) =~= xs);
    }
}

impl DataLookup {
    /// Builds the lookup of a block from its transactions, given as
    /// `(app_id, tx len)` in block order: the size is the total length, and
    /// the index has an entry for each transaction whose application id is
    /// not 0 and differs from the one before, holding the id and the offset
    /// at which that transaction's data starts.
    pub fn construct(extrinsics: &Vec<(u32, u32)>) -> (res: Self)
        requires
            total_len(extrinsics@) <= u32::MAX,
        ensures
            res.size as nat == total_len(extrinsics@),
            res.index@ == lookup_index(extrinsics@),
    {
        let mut index: Vec<(u32, u32)> = Vec::new();
        // transactions are ordered by application id;
        // transactions with application id 0 are not data transactions
        let mut size: u32 = 0;
        let mut prev_app_id: u32 = 0;
        let n = extrinsics.len();
        let mut i: usize = 0;
        while i < n
            invariant
                n == extrinsics@.len(),
                0 <= i <= n,
                total_len(extrinsics@) <= u32::MAX,
                size as nat == total_len(extrinsics@.subrange(0, i as int)),
                index@ == lookup_index(extrinsics@.subrange(0, i as int)),
                prev_app_id == (if i == 0 { 0u32 } else { extrinsics@[i - 1].0 }),
            decreases n - i,
        {
            let xt = extrinsics[i];
            let app_id = xt.0;
            let data_len = xt.1;
            let ghost pre = extrinsics@.subrange(0, i as int);
            let ghost cur = extrinsics@.subrange(0, i + 1);
            proof {
                assert(cur.drop_last() =~= pre);
                assert(cur.last() == xt);
                lemma_total_len_monotone(extrinsics@, i + 1);
            }
            if app_id != 0 && prev_app_id != app_id {
                index.push((app_id, size));
            }
            size = size + data_len;
            prev_app_id = app_id;
            i = i + 1;
        }
        proof {
            assert(extrinsics@.subrange(0, n as int) =~= extrinsics@);
        }
        DataLookup { size, index }
    }
}

/// How many of the first `n` transactions of `xs` start the data of an
/// application.
pub open spec fn starts_count(xs: Seq<(u32, u32)>, n: int) -> nat
    decreases n,
{
    if n <= 0 {
        0
    } else {
        starts_count(xs, n - 1) + (if starts_app(xs, n - 1) { 1nat } else { 0nat })
    }
}

proof fn lemma_starts_count_prefix(xs: Seq<(u32, u32)>, m: int, k: int)
    requires
        0 <= k <= m <= xs.len(),
    ensures
        starts_count(xs.subrange(0, m), k) == starts_count(xs, k),
    decreases k,
{
    if k > 0 {
        lemma_starts_count_prefix(xs, m, k - 1);
        let p = xs.subrange(0, m);
        assert(p[k - 1] == xs[k - 1]);
        if k > 1 {
            assert(p[k - 2] == xs[k - 2]);
        }
        assert(starts_app(p, k - 1) == starts_app(xs, k - 1));
    }
}

/// The lookup index is complete and in order: it has one entry for each
/// transaction that starts the data of an application (its id is not 0 and
/// differs from the one before), the `c`-th entry for the `c`-th such
/// transaction, holding its application id and the total length of the
/// transactions before it.
pub proof fn lemma_lookup_index_complete(xs: Seq<(u32, u32)>)
    ensures
        lookup_index(xs).len() == starts_count(xs, xs.len() as int),
        forall|i: int|
            0 <= i < xs.len() && #[trigger] starts_app(xs, i) ==> lookup_index(xs)[starts_count(xs, i) as int] == (
                xs[i].0,
                total_len(xs.subrange(0, i)) as u32,
            ),
    decreases xs.len(),
{
    if xs.len() > 0 {
        let n = xs.len() as int;
        let prefix = xs.drop_last();
        lemma_lookup_index_complete(prefix);
        assert(prefix =~= xs.subrange(0, n - 1));
        lemma_starts_count_prefix(xs, n - 1, n - 1);
        assert forall|i: int| 0 <= i < n && #[trigger] starts_app(xs, i) implies lookup_index(xs)[starts_count(
            xs,
            i,
        ) as int] == (xs[i].0, total_len(xs.subrange(0, i)) as u32) by {
            if i < n - 1 {
                lemma_starts_count_prefix(xs, n - 1, i);
                assert(prefix[i] == xs[i]);
                if i > 0 {
                    assert(prefix[i - 1] == xs[i - 1]);
                }
                assert(starts_app(prefix, i));
                assert(prefix.subrange(0, i) =~= xs.subrange(0, i));
                assert(starts_count(prefix, i) < starts_count(prefix, n - 1)) by {
                    lemma_starts_count_grows(prefix, i, n - 1);
                }
            } else {
                assert(xs.subrange(0, i) =~= prefix);
            }
        }
    }
}

proof fn lemma_starts_count_grows(xs: Seq<(u32, u32)>, i: int, n: int)
    requires
        0 <= i < n <= xs.len(),
        starts_app(xs, i),
    ensures
        starts_count(xs, i) < starts_count(xs, n),
    decreases n,
{
    if n - 1 > i {
        lemma_starts_count_grows(xs, i, n - 1);
    }
}

/// Whether the application ids of `xs` never decrease.
pub open spec fn sorted_by_app(xs: Seq<(u32, u32)>) -> bool {
    forall|i: int, j: int| 0 <= i <= j < xs.len() ==> xs[i].0 <= xs[j].0
}

/// Whether the keys of an index strictly increase.
pub open spec fn strictly_increasing_keys(idx: Seq<(u32, u32)>) -> bool {
    forall|i: int, j: int| 0 <= i < j < idx.len() ==> idx[i].0 < idx[j].0
}

proof fn lemma_keys_bounded(xs: Seq<(u32, u32)>)
    requires
        sorted_by_app(xs),
    ensures
        xs.len() > 0 ==> forall|k: int| 0 <= k < lookup_index(xs).len() ==> lookup_index(xs)[k].0 <= xs.last().0,
        xs.len() == 0 ==> lookup_index(xs).len() == 0,
        strictly_increasing_keys(lookup_index(xs)),
    decreases xs.len(),
{
    if xs.len() > 0 {
        let prefix = xs.drop_last();
        assert(sorted_by_app(prefix));
        lemma_keys_bounded(prefix);
        let rest = lookup_index(prefix);
        if prefix.len() > 0 {
            assert(prefix.last() == xs[xs.len() - 2]);
            assert(xs[xs.len() - 2].0 <= xs.last().0);
        }
    }
}

/// When the transactions come ordered by application id, as a block holds
/// them, the lookup index is sorted: its keys strictly increase, and each
/// application id appears in it at most once.
pub proof fn lemma_lookup_sorted(xs: Seq<(u32, u32)>)
    requires
        sorted_by_app(xs),
    ensures
        strictly_increasing_keys(lookup_index(xs)),
{
    lemma_keys_bounded(xs);
}

/// Every entry of the lookup index names a transaction that starts the data
/// of its application, and holds the total length of the transactions before
/// it, so the application's data starts at that offset.
pub proof fn lemma_lookup_entries_point_at_data(xs: Seq<(u32, u32)>, k: int)
    requires
        0 <= k < lookup_index(xs).len(),
    ensures
        exists|i: int|
            0 <= i < xs.len() && starts_app(xs, i) && #[trigger] xs[i].0 == lookup_index(xs)[k].0
                && lookup_index(xs)[k].1 == (total_len(xs.subrange(0, i)) as u32),
    decreases xs.len(),
{
    let prefix = xs.drop_last();
    let rest = lookup_index(prefix);
    if k < rest.len() {
        lemma_lookup_entries_point_at_data(prefix, k);
        let i = choose|i: int|
            0 <= i < prefix.len() && starts_app(prefix, i) && #[trigger] prefix[i].0 == rest[k].0
                && rest[k].1 == (total_len(prefix.subrange(0, i)) as u32);
        assert(prefix.subrange(0, i) =~= xs.subrange(0, i));
        assert(xs[i] == prefix[i]);
        if i > 0 {
            assert(xs[i - 1] == prefix[i - 1]);
        }
        assert(starts_app(xs, i));
    } else {
        let i = xs.len() - 1;
        assert(xs.subrange(0, i) =~= prefix);
        assert(xs[i].0 == lookup_index(xs)[k].0);
    }
}

} // verus!
