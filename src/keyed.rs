//! Keyed list reconciliation: compares two snapshots of a keyed list and
//! reports which rows were created, removed, moved or updated.
use std::collections::HashMap;
use vstd::prelude::*;

verus! {

broadcast use vstd::std_specs::hash::group_hash_axioms;

/// A row of a snapshot: a stable key and the identity of its value.
pub type Entry = (u64, u64);

/// A retained row whose position changed.
#[derive(Clone, Copy, Debug, PartialEq, Eq, Structural)]
pub struct Move {
    pub key: u64,
    pub from: usize,
    pub to: usize,
}

/// The instructions that turn one snapshot into the next.
#[derive(Clone, Debug)]
pub struct ListDiff {
    /// Keys of `next` absent from `previous`, in the order of `next`.
    pub created: Vec<u64>,
    /// Keys of `previous` absent from `next`, in the order of `previous`.
    pub removed: Vec<u64>,
    /// Retained rows whose index changed, in the order of `next`.
    pub moved: Vec<Move>,
    /// Retained rows whose value identity changed, in the order of `next`.
    pub updated: Vec<u64>,
}

/// Why no diff was produced.
#[derive(Clone, Copy, Debug, PartialEq, Eq, Structural)]
pub enum DiffError {
    /// The key of the first row that repeats an earlier key of its snapshot.
    DuplicateKey(u64),
}

pub open spec fn has_key(s: Seq<Entry>, k: u64) -> bool {
    exists|i: int| 0 <= i < s.len() && s[i].0 == k
}

pub open spec fn keys_unique(s: Seq<Entry>) -> bool {
    forall|i: int, j: int| 0 <= i < s.len() && 0 <= j < s.len() && i != j ==> s[i].0 != s[j].0
}

/// `k` is the key of the first row of `s` that repeats an earlier key.
pub open spec fn first_repeat(s: Seq<Entry>, k: u64) -> bool {
    exists|i: int|
        0 <= i < s.len() && s[i].0 == k && has_key(s.subrange(0, i), k) && keys_unique(
            s.subrange(0, i),
        )
}

/// The position of key `k` in `s` (meaningful when `has_key(s, k)`).
pub open spec fn index_of(s: Seq<Entry>, k: u64) -> int {
    choose|i: int| 0 <= i < s.len() && s[i].0 == k
}

/// Keys among the first `n` rows of `next` that `prev` does not hold.
pub open spec fn created_upto(prev: Seq<Entry>, next: Seq<Entry>, n: int) -> Seq<u64>
    decreases n,
{
    if n <= 0 {
        seq![]
    } else {
        created_upto(prev, next, n - 1) + if has_key(prev, next[n - 1].0) {
            seq![]
        } else {
            seq![next[n - 1].0]
        }
    }
}

/// Rows among the first `n` of `next` that `prev` holds at another index.
pub open spec fn moved_upto(prev: Seq<Entry>, next: Seq<Entry>, n: int) -> Seq<Move>
    decreases n,
{
    if n <= 0 {
        seq![]
    } else {
        let k = next[n - 1].0;
        moved_upto(prev, next, n - 1) + if has_key(prev, k) && index_of(prev, k) != n - 1 {
            seq![Move { key: k, from: index_of(prev, k) as usize, to: (n - 1) as usize }]
        } else {
            seq![]
        }
    }
}

/// Keys among the first `n` rows of `next` that `prev` holds with another value.
pub open spec fn updated_upto(prev: Seq<Entry>, next: Seq<Entry>, n: int) -> Seq<u64>
    decreases n,
{
    if n <= 0 {
        seq![]
    } else {
        let k = next[n - 1].0;
        updated_upto(prev, next, n - 1) + if has_key(prev, k) && prev[index_of(prev, k)].1
            != next[n - 1].1 {
            seq![k]
        } else {
            seq![]
        }
    }
}

/// Keys among the first `n` rows of `prev` that `next` does not hold.
pub open spec fn removed_upto(prev: Seq<Entry>, next: Seq<Entry>, n: int) -> Seq<u64>
    decreases n,
{
    if n <= 0 {
        seq![]
    } else {
        removed_upto(prev, next, n - 1) + if has_key(next, prev[n - 1].0) {
            seq![]
        } else {
            seq![prev[n - 1].0]
        }
    }
}

pub open spec fn created_keys(prev: Seq<Entry>, next: Seq<Entry>) -> Seq<u64> {
    created_upto(prev, next, next.len() as int)
}

pub open spec fn moved_rows(prev: Seq<Entry>, next: Seq<Entry>) -> Seq<Move> {
    moved_upto(prev, next, next.len() as int)
}

pub open spec fn updated_keys(prev: Seq<Entry>, next: Seq<Entry>) -> Seq<u64> {
    updated_upto(prev, next, next.len() as int)
}

pub open spec fn removed_keys(prev: Seq<Entry>, next: Seq<Entry>) -> Seq<u64> {
    removed_upto(prev, next, prev.len() as int)
}

/// In a snapshot with unique keys, a key's position is the one index that holds it.
pub proof fn lemma_index_of_unique(s: Seq<Entry>, j: int)
    requires
        keys_unique(s),
        0 <= j < s.len(),
    ensures
        has_key(s, s[j].0),
        index_of(s, s[j].0) == j,
{
    let k = s[j].0;
    assert(0 <= j < s.len() && s[j].0 == k);
    let i = index_of(s, k);
    assert(0 <= i < s.len() && s[i].0 == k);
}

proof fn lemma_identical_upto(s: Seq<Entry>, n: int)
    requires
        keys_unique(s),
        0 <= n <= s.len(),
    ensures
        created_upto(s, s, n) == Seq::<u64>::empty(),
        moved_upto(s, s, n) == Seq::<Move>::empty(),
        updated_upto(s, s, n) == Seq::<u64>::empty(),
        removed_upto(s, s, n) == Seq::<u64>::empty(),
    decreases n,
{
    if n > 0 {
        lemma_identical_upto(s, n - 1);
        lemma_index_of_unique(s, n - 1);
        assert(created_upto(s, s, n) =~= created_upto(s, s, n - 1));
        assert(moved_upto(s, s, n) =~= moved_upto(s, s, n - 1));
        assert(updated_upto(s, s, n) =~= updated_upto(s, s, n - 1));
        assert(removed_upto(s, s, n) =~= removed_upto(s, s, n - 1));
    }
}

/// Comparing a snapshot with unique keys against itself reports nothing:
/// no row is created, removed, moved or updated.
pub proof fn lemma_diff_identical(s: Seq<Entry>)
    requires
        keys_unique(s),
    ensures
        created_keys(s, s) == Seq::<u64>::empty(),
        removed_keys(s, s) == Seq::<u64>::empty(),
        moved_rows(s, s) == Seq::<Move>::empty(),
        updated_keys(s, s) == Seq::<u64>::empty(),
{
    lemma_identical_upto(s, s.len() as int);
}

proof fn lemma_add_remove_created(prev: Seq<Entry>, next: Seq<Entry>, n: int)
    requires
        next.len() == prev.len(),
        0 <= n < next.len(),
        forall|i: int| 0 <= i < n ==> has_key(prev, #[trigger] next[i].0),
    ensures
        created_upto(prev, next, n) == Seq::<u64>::empty(),
    decreases n,
{
    if n > 0 {
        lemma_add_remove_created(prev, next, n - 1);
        assert(has_key(prev, next[n - 1].0));
        assert(created_upto(prev, next, n) =~= created_upto(prev, next, n - 1));
    }
}

proof fn lemma_add_remove_removed(prev: Seq<Entry>, next: Seq<Entry>, j: int, n: int)
    requires
        0 <= j < prev.len(),
        0 <= n <= prev.len(),
        !has_key(next, prev[j].0),
        forall|i: int| 0 <= i < prev.len() && i != j ==> has_key(next, #[trigger] prev[i].0),
    ensures
        removed_upto(prev, next, n) == if n <= j {
            Seq::<u64>::empty()
        } else {
            seq![prev[j].0]
        },
    decreases n,
{
    if n > 0 {
        lemma_add_remove_removed(prev, next, j, n - 1);
        if n - 1 == j {
            assert(removed_upto(prev, next, n) =~= seq![prev[j].0]);
        } else {
            assert(has_key(next, prev[n - 1].0));
            assert(removed_upto(prev, next, n) =~= removed_upto(prev, next, n - 1));
        }
    }
}

/// Appending a row with a new key and then removing a different, existing
/// row is reported as exactly that one creation and that one removal: every
/// retained key is neither created nor removed.
pub proof fn lemma_add_then_remove(prev: Seq<Entry>, added: Entry, j: int)
    requires
        keys_unique(prev),
        !has_key(prev, added.0),
        0 <= j < prev.len(),
    ensures
        keys_unique(prev.push(added).remove(j)),
        created_keys(prev, prev.push(added).remove(j)) == seq![added.0],
        removed_keys(prev, prev.push(added).remove(j)) == seq![prev[j].0],
{
    let next = prev.push(added).remove(j);
    let last = next.len() - 1;
    assert(next.len() == prev.len());
    assert forall|i: int| 0 <= i < next.len() implies #[trigger] next[i] == if i < j {
        prev[i]
    } else if i < last {
        prev[i + 1]
    } else {
        added
    } by {}
    assert forall|i: int| 0 <= i < last implies has_key(prev, #[trigger] next[i].0) by {
        if i < j {
            assert(prev[i].0 == next[i].0);
        } else {
            assert(prev[i + 1].0 == next[i].0);
        }
    }
    assert(keys_unique(next)) by {
        assert forall|a: int, b: int|
            0 <= a < next.len() && 0 <= b < next.len() && a != b implies next[a].0
            != next[b].0 by {
            if a == last {
                assert(has_key(prev, next[b].0));
            } else if b == last {
                assert(has_key(prev, next[a].0));
            } else {
                let pa = if a < j { a } else { a + 1 };
                let pb = if b < j { b } else { b + 1 };
                assert(next[a] == prev[pa] && next[b] == prev[pb]);
            }
        }
    }
    if last > 0 {
        lemma_add_remove_created(prev, next, last);
    }
    assert(!has_key(prev, next[last].0));
    assert(created_keys(prev, next) =~= seq![added.0]);
    assert(!has_key(next, prev[j].0)) by {
        if has_key(next, prev[j].0) {
            let i = choose|i: int| 0 <= i < next.len() && next[i].0 == prev[j].0;
            if i < j {
                assert(next[i] == prev[i]);
            } else if i < last {
                assert(next[i] == prev[i + 1]);
            } else {
                assert(0 <= j < prev.len() && prev[j].0 == added.0);
            }
        }
    }
    assert forall|i: int| 0 <= i < prev.len() && i != j implies has_key(
        next,
        #[trigger] prev[i].0,
    ) by {
        let ni = if i < j { i } else { i - 1 };
        assert(next[ni] == prev[i]);
    }
    lemma_add_remove_removed(prev, next, j, prev.len() as int);
}

proof fn lemma_rows_accounted_upto(prev: Seq<Entry>, next: Seq<Entry>, n: int)
    requires
        0 <= n <= next.len(),
    ensures
        forall|i: int|
            0 <= i < n && !has_key(prev, #[trigger] next[i].0) ==> created_upto(prev, next, n).contains(
                next[i].0,
            ),
        forall|i: int|
            0 <= i < n && has_key(prev, #[trigger] next[i].0) && index_of(prev, next[i].0) != i
                ==> moved_upto(prev, next, n).contains(
                Move { key: next[i].0, from: index_of(prev, next[i].0) as usize, to: i as usize },
            ),
    decreases n,
{
    if n > 0 {
        lemma_rows_accounted_upto(prev, next, n - 1);
        let c0 = created_upto(prev, next, n - 1);
        let m0 = moved_upto(prev, next, n - 1);
        let c1 = created_upto(prev, next, n);
        let m1 = moved_upto(prev, next, n);
        assert forall|i: int|
            0 <= i < n && !has_key(prev, #[trigger] next[i].0) implies c1.contains(next[i].0) by {
            if i < n - 1 {
                let k = choose|k: int| 0 <= k < c0.len() && c0[k] == next[i].0;
                assert(c1[k] == c0[k]);
            } else {
                assert(c1[c1.len() - 1] == next[i].0);
            }
        }
        assert forall|i: int|
            0 <= i < n && has_key(prev, #[trigger] next[i].0) && index_of(prev, next[i].0) != i
                implies m1.contains(
            Move { key: next[i].0, from: index_of(prev, next[i].0) as usize, to: i as usize },
        ) by {
            let mv = Move { key: next[i].0, from: index_of(prev, next[i].0) as usize, to: i as usize };
            if i < n - 1 {
                let k = choose|k: int| 0 <= k < m0.len() && m0[k] == mv;
                assert(m1[k] == m0[k]);
            } else {
                assert(m1[m1.len() - 1] == mv);
            }
        }
    }
}

proof fn lemma_kept_rows_upto(prev: Seq<Entry>, next: Seq<Entry>, n: int)
    requires
        0 <= n <= prev.len(),
    ensures
        forall|j: int|
            0 <= j < n && !removed_upto(prev, next, n).contains(#[trigger] prev[j].0) ==> has_key(
                next,
                prev[j].0,
            ),
    decreases n,
{
    if n > 0 {
        lemma_kept_rows_upto(prev, next, n - 1);
        let r0 = removed_upto(prev, next, n - 1);
        let r1 = removed_upto(prev, next, n);
        assert forall|j: int|
            0 <= j < n && !r1.contains(#[trigger] prev[j].0) implies has_key(next, prev[j].0) by {
            if j < n - 1 {
                if r0.contains(prev[j].0) {
                    let k = choose|k: int| 0 <= k < r0.len() && r0[k] == prev[j].0;
                    assert(r1[k] == r0[k]);
                }
            } else if !has_key(next, prev[j].0) {
                assert(r1[r1.len() - 1] == prev[j].0);
            }
        }
    }
}

/// The diff accounts for every row, so applying it to `prev` rebuilds
/// `next`: each row of `next` is either created, or moved from its index in
/// `prev`, or kept at the same index; and each row of `prev` that is not
/// removed is still present in `next`.
pub proof fn lemma_diff_accounts_for_every_row(prev: Seq<Entry>, next: Seq<Entry>)
    ensures
        forall|i: int|
            0 <= i < next.len() ==> {
                ||| created_keys(prev, next).contains(#[trigger] next[i].0)
                ||| moved_rows(prev, next).contains(
                    Move {
                        key: next[i].0,
                        from: index_of(prev, next[i].0) as usize,
                        to: i as usize,
                    },
                )
                ||| has_key(prev, next[i].0) && index_of(prev, next[i].0) == i
            },
        forall|j: int|
            0 <= j < prev.len() && !removed_keys(prev, next).contains(#[trigger] prev[j].0)
                ==> has_key(next, prev[j].0),
{
    lemma_rows_accounted_upto(prev, next, next.len() as int);
    lemma_kept_rows_upto(prev, next, prev.len() as int);
}

/// Builds the key-to-index map of `s`, or reports the first repeated key.
fn index_keys(s: &Vec<Entry>) -> (r: Result<HashMap<u64, usize>, u64>)
    ensures
        r.is_ok() <==> keys_unique(s@),
        match r {
            Ok(m) => forall|k: u64|
                #![trigger m@.contains_key(k)]
                (m@.contains_key(k) <==> has_key(s@, k)) && (m@.contains_key(k) ==> m@[k]
                    == index_of(s@, k)),
            Err(k) => first_repeat(s@, k),
        },
{
    let mut m: HashMap<u64, usize> = HashMap::new();
    let mut i: usize = 0;
    while i < s.len()
        invariant
            i <= s@.len(),
            forall|k: u64|
                #![trigger m@.contains_key(k)]
                m@.contains_key(k) ==> m@[k] < i && s@[m@[k] as int].0 == k,
            forall|j: int| 0 <= j < i ==> #[trigger] m@.contains_key(s@[j].0),
            forall|a: int, b: int| 0 <= a < i && 0 <= b < i && a != b ==> s@[a].0 != s@[b].0,
        decreases s@.len() - i,
    {
        let k = s[i].0;
        match m.get(&k) {
            Some(j) => {
                let j: usize = *j;
                assert(s@[j as int].0 == k && s@[i as int].0 == k);
                assert(!keys_unique(s@));
                proof {
                    let pre = s@.subrange(0, i as int);
                    assert(pre[j as int].0 == k);
                    assert(has_key(pre, k));
                    assert(keys_unique(pre));
                }
                return Err(k);
            },
            None => {
                m.insert(k, i);
            },
        }
        i = i + 1;
    }
    assert forall|k: u64| #![trigger m@.contains_key(k)]
        (m@.contains_key(k) <==> has_key(s@, k)) && (m@.contains_key(k) ==> m@[k]
            == index_of(s@, k)) by {
        if m@.contains_key(k) {
            lemma_index_of_unique(s@, m@[k] as int);
        }
        if has_key(s@, k) {
            let j = choose|j: int| 0 <= j < s@.len() && s@[j].0 == k;
            assert(m@.contains_key(s@[j].0));
        }
    }
    Ok(m)
}

/// Compares two snapshots by key.
///
/// Keys must be unique within each snapshot; otherwise the key of the first
/// row that repeats an earlier one is reported and no diff is produced
/// (`previous` is checked first).
/// Values are compared by identity only.
pub fn diff(previous: &Vec<Entry>, next: &Vec<Entry>) -> (r: Result<ListDiff, DiffError>)
    ensures
        r.is_ok() <==> keys_unique(previous@) && keys_unique(next@),
        match r {
            Ok(d) => {
                &&& d.created@ == created_keys(previous@, next@)
                &&& d.removed@ == removed_keys(previous@, next@)
                &&& d.moved@ == moved_rows(previous@, next@)
                &&& d.updated@ == updated_keys(previous@, next@)
            },
            Err(DiffError::DuplicateKey(k)) => if keys_unique(previous@) {
                first_repeat(next@, k)
            } else {
                first_repeat(previous@, k)
            },
        },
{
    let prev_index = match index_keys(previous) {
        Ok(m) => m,
        Err(k) => {
            return Err(DiffError::DuplicateKey(k));
        },
    };
    let next_index = match index_keys(next) {
        Ok(m) => m,
        Err(k) => {
            return Err(DiffError::DuplicateKey(k));
        },
    };
    let mut created: Vec<u64> = Vec::new();
    let mut moved: Vec<Move> = Vec::new();
    let mut updated: Vec<u64> = Vec::new();
    let mut i: usize = 0;
    while i < next.len()
        invariant
            i <= next@.len(),
            keys_unique(previous@),
            forall|k: u64|
                #![trigger prev_index@.contains_key(k)]
                (prev_index@.contains_key(k) <==> has_key(previous@, k)) && (
                prev_index@.contains_key(k) ==> prev_index@[k] == index_of(previous@, k)),
            created@ == created_upto(previous@, next@, i as int),
            moved@ == moved_upto(previous@, next@, i as int),
            updated@ == updated_upto(previous@, next@, i as int),
        decreases next@.len() - i,
    {
        let (k, v) = next[i];
        assert(prev_index@.contains_key(k) <==> has_key(previous@, k));
        match prev_index.get(&k) {
            Some(j) => {
                let j: usize = *j;
                if j != i {
                    moved.push(Move { key: k, from: j, to: i });
                }
                if previous[j].1 != v {
                    updated.push(k);
                }
            },
            None => {
                created.push(k);
            },
        }
        proof {
            assert(created_upto(previous@, next@, i + 1) == created_upto(previous@, next@, i as int)
                + if has_key(previous@, k) { seq![] } else { seq![k] });
        }
        i = i + 1;
    }
    let mut removed: Vec<u64> = Vec::new();
    let mut i: usize = 0;
    while i < previous.len()
        invariant
            i <= previous@.len(),
            forall|k: u64|
                #![trigger next_index@.contains_key(k)]
                next_index@.contains_key(k) <==> has_key(next@, k),
            removed@ == removed_upto(previous@, next@, i as int),
        decreases previous@.len() - i,
    {
        let k = previous[i].0;
        assert(next_index@.contains_key(k) <==> has_key(next@, k));
        if !next_index.contains_key(&k) {
            removed.push(k);
        }
        i = i + 1;
    }
    Ok(ListDiff { created, removed, moved, updated })
}

} // verus!
