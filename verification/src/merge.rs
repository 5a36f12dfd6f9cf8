use vstd::prelude::*;

use crate::record::{
    dataset_wf, has_key, is_first_with_key, record_before, record_lt, strictly_sorted,
    unique_keys, Record,
};

verus! {

/// Some record of `v` carries key `k`.
pub fn contains_key(v: &Vec<Record>, k: u64) -> (r: bool)
    ensures
        r == has_key(v@, k),
{
    let mut i: usize = 0;
    while i < v.len()
        invariant
            i <= v.len(),
            forall|j: int| 0 <= j < i ==> (#[trigger] v@[j]).key != k,
        decreases v.len() - i,
    {
        if v[i].key == k {
            assert(v@[i as int].key == k);
            return true;
        }
        i += 1;
    }
    false
}


/// Position `m` of `r` holds a record that is the first occurrence of its
/// key in `src`.
pub open spec fn from_first_occurrence(src: Seq<Record>, r: Seq<Record>, m: int) -> bool {
    exists|j: int| is_first_with_key(src, j) && r[m] == src[j]
}

/// Keeps the first record of each key, dropping later duplicates; the
/// relative order of the kept records is the input order.
pub fn dedup_keep_first(all: &Vec<Record>) -> (r: Vec<Record>)
    ensures
        unique_keys(r@),
        forall|k: u64| has_key(r@, k) == has_key(all@, k),
        forall|m: int| 0 <= m < r@.len() ==> #[trigger] from_first_occurrence(all@, r@, m),
{
    let mut out: Vec<Record> = Vec::new();
    let mut i: usize = 0;
    while i < all.len()
        invariant
            i <= all.len(),
            unique_keys(out@),
            forall|k: u64| has_key(out@, k) == has_key(all@.take(i as int), k),
            forall|m: int| 0 <= m < out@.len() ==> #[trigger] from_first_occurrence(all@, out@, m),
        decreases all.len() - i,
    {
        let ghost pre = all@.take(i as int);
        let ghost nxt = all@.take(i + 1int);
        assert(nxt =~= pre.push(all@[i as int]));
        if !contains_key(&out, all[i].key) {
            let ghost out_pre = out@;
            assert(!has_key(pre, all@[i as int].key));
            assert forall|i2: int| 0 <= i2 < i implies (#[trigger] all@[i2]).key != all@[i as int].key by {
                assert(pre[i2] == all@[i2]);
            }
            assert(is_first_with_key(all@, i as int));
            out.push(all[i].duplicate());
            assert forall|k: u64| has_key(out@, k) == has_key(nxt, k) by {
                if has_key(out@, k) {
                    let m = choose|m: int| 0 <= m < out@.len() && (#[trigger] out@[m]).key == k;
                    if m < out_pre.len() {
                        assert(out_pre[m] == out@[m]);
                        assert(has_key(out_pre, k));
                        let m3 = choose|m3: int| 0 <= m3 < pre.len() && (#[trigger] pre[m3]).key == k;
                        assert(nxt[m3].key == k);
                    } else {
                        assert(out@[m] == all@[i as int]);
                        assert(nxt[i as int].key == k);
                    }
                }
                if has_key(nxt, k) {
                    let m = choose|m: int| 0 <= m < nxt.len() && (#[trigger] nxt[m]).key == k;
                    if m < i {
                        assert(pre[m] == nxt[m]);
                        assert(has_key(pre, k));
                        assert(has_key(out_pre, k));
                        let m2 = choose|m2: int|
                            0 <= m2 < out_pre.len() && (#[trigger] out_pre[m2]).key == k;
                        assert(out@[m2] == out_pre[m2]);
                        assert(out@[m2].key == k);
                    } else {
                        assert(out@[out@.len() - 1].key == k);
                    }
                }
            }
            assert forall|m: int| 0 <= m < out@.len() implies #[trigger] from_first_occurrence(
                all@,
                out@,
                m,
            ) by {
                if m < out_pre.len() {
                    assert(out@[m] == out_pre[m]);
                    assert(from_first_occurrence(all@, out_pre, m));
                    let j = choose|j: int| is_first_with_key(all@, j) && out_pre[m] == all@[j];
                    assert(is_first_with_key(all@, j) && out@[m] == all@[j]);
                } else {
                    assert(out@[m] == all@[i as int]);
                    assert(is_first_with_key(all@, i as int) && out@[m] == all@[i as int]);
                }
            }
        } else {
            assert forall|k: u64| has_key(out@, k) == has_key(nxt, k) by {
                if has_key(nxt, k) {
                    let m = choose|m: int| 0 <= m < nxt.len() && (#[trigger] nxt[m]).key == k;
                    if m < i {
                        assert(pre[m] == nxt[m]);
                        assert(has_key(pre, k));
                    } else {
                        assert(all@[i as int].key == k);
                        assert(has_key(pre, k));
                    }
                }
                if has_key(out@, k) {
                    assert(has_key(pre, k));
                    let m = choose|m: int| 0 <= m < pre.len() && (#[trigger] pre[m]).key == k;
                    assert(nxt[m].key == k);
                }
            }
        }
        i += 1;
    }
    assert(all@.take(all@.len() as int) =~= all@);
    out
}

/// Inserts `x` at its ordered position.
fn insert_sorted(out: &mut Vec<Record>, x: Record)
    requires
        strictly_sorted(old(out)@),
        unique_keys(old(out)@),
        !has_key(old(out)@, x.key),
    ensures
        strictly_sorted(final(out)@),
        unique_keys(final(out)@),
        final(out)@.len() == old(out)@.len() + 1,
        forall|y: Record| final(out)@.contains(y) == (old(out)@.contains(y) || y == x),
        forall|k: u64| has_key(final(out)@, k) == (has_key(old(out)@, k) || k == x.key),
{
    let ghost prev = out@;
    let mut p: usize = 0;
    loop
        invariant
            p <= out.len(),
            out@ == prev,
            forall|i: int| 0 <= i < p ==> record_lt(#[trigger] out@[i], x),
        ensures
            p <= out.len(),
            out@ == prev,
            forall|i: int| 0 <= i < p ==> record_lt(#[trigger] out@[i], x),
            p < out.len() ==> !record_lt(out@[p as int], x),
        decreases out.len() - p,
    {
        if p == out.len() {
            break ;
        }
        if !record_before(&out[p], &x) {
            break ;
        }
        p += 1;
    }
    // Records after the insertion point come strictly after `x`: their keys
    // differ from x's, so equal (time, key) pairs are impossible.
    assert forall|j: int| p <= j < prev.len() implies record_lt(x, #[trigger] prev[j]) by {
        assert(prev[j].key != x.key);
        if j > p {
            assert(record_lt(prev[p as int], prev[j]));
        }
        assert(!record_lt(prev[j], x) ==> record_lt(x, prev[j]));
    }
    out.insert(p, x);
    proof {
        prev.insert_ensures(p as int, x);
    }
    assert(out@ == prev.insert(p as int, x));
    assert forall|i: int, j: int| 0 <= i < j < out@.len() implies record_lt(
        #[trigger] out@[i],
        #[trigger] out@[j],
    ) by {
        if j < p {
        } else if i > p {
            assert(out@[i] == prev[i - 1] && out@[j] == prev[j - 1]);
        }
    }
    assert forall|y: Record| out@.contains(y) == (prev.contains(y) || y == x) by {
        if out@.contains(y) {
            let m = choose|m: int| 0 <= m < out@.len() && out@[m] == y;
            if m < p {
                assert(prev[m] == y);
            } else if m > p {
                assert(prev[m - 1] == y);
            }
        }
        if prev.contains(y) {
            let m = choose|m: int| 0 <= m < prev.len() && prev[m] == y;
            if m < p {
                assert(out@[m] == y);
            } else {
                assert(out@[m + 1] == y);
            }
        }
        if y == x {
            assert(out@[p as int] == y);
        }
    }
    assert forall|k: u64| has_key(out@, k) == (has_key(prev, k) || k == x.key) by {
        if has_key(out@, k) {
            let m = choose|m: int| 0 <= m < out@.len() && (#[trigger] out@[m]).key == k;
            if m < p {
                assert(prev[m].key == k);
            } else if m > p {
                assert(prev[m - 1].key == k);
            }
        }
        if has_key(prev, k) {
            let m = choose|m: int| 0 <= m < prev.len() && (#[trigger] prev[m]).key == k;
            if m < p {
                assert(out@[m].key == k);
            } else {
                assert(out@[m + 1].key == k);
            }
        }
        if k == x.key {
            assert(out@[p as int].key == k);
        }
    }
}

/// Sorts a deduplicated record set into strict (time, key) order.  The
/// result holds exactly the input records.
pub fn sort_records(input: Vec<Record>) -> (r: Vec<Record>)
    requires
        unique_keys(input@),
    ensures
        strictly_sorted(r@),
        unique_keys(r@),
        r@.len() == input@.len(),
        forall|y: Record| r@.contains(y) == input@.contains(y),
        forall|k: u64| has_key(r@, k) == has_key(input@, k),
{
    let ghost input0 = input@;
    let mut rest = input;
    let mut out: Vec<Record> = Vec::new();
    while rest.len() > 0
        invariant
            strictly_sorted(out@),
            unique_keys(out@),
            unique_keys(rest@),
            out@.len() + rest@.len() == input0.len(),
            forall|k: u64| has_key(out@, k) ==> !has_key(rest@, k),
            forall|k: u64| (has_key(out@, k) || has_key(rest@, k)) == has_key(input0, k),
            forall|y: Record| (out@.contains(y) || rest@.contains(y)) == input0.contains(y),
        decreases rest.len(),
    {
        let ghost rest_pre = rest@;
        let ghost out_pre = out@;
        let x = rest.pop().unwrap();
        assert(x == rest_pre.last());
        assert(rest@ == rest_pre.drop_last());
        assert(rest_pre.contains(x)) by {
            assert(rest_pre[rest_pre.len() - 1] == x);
        }
        assert(has_key(rest_pre, x.key)) by {
            assert(rest_pre[rest_pre.len() - 1].key == x.key);
        }
        assert(!has_key(out@, x.key));
        // A key of the popped record cannot remain in the rest: keys there
        // are unique.
        assert(!has_key(rest@, x.key)) by {
            if has_key(rest@, x.key) {
                let m = choose|m: int| 0 <= m < rest@.len() && (#[trigger] rest@[m]).key == x.key;
                assert(rest_pre[m].key == rest_pre[rest_pre.len() - 1].key);
            }
        }
        insert_sorted(&mut out, x);
        assert forall|k: u64| has_key(out@, k) implies !has_key(rest@, k) by {
            if k != x.key {
                assert(has_key(out_pre, k));
                if has_key(rest@, k) {
                    let m = choose|m: int|
                        0 <= m < rest@.len() && (#[trigger] rest@[m]).key == k;
                    assert(rest_pre[m].key == k);
                    assert(has_key(rest_pre, k));
                }
            }
        }
        assert forall|k: u64| (has_key(out@, k) || has_key(rest@, k)) == has_key(
            input0,
            k,
        ) by {
            if has_key(rest@, k) {
                let m = choose|m: int| 0 <= m < rest@.len() && (#[trigger] rest@[m]).key == k;
                assert(rest_pre[m].key == k);
                assert(has_key(rest_pre, k));
            }
            if has_key(rest_pre, k) {
                let m = choose|m: int|
                    0 <= m < rest_pre.len() && (#[trigger] rest_pre[m]).key == k;
                if m < rest_pre.len() - 1 {
                    assert(rest@[m].key == k);
                    assert(has_key(rest@, k));
                } else {
                    assert(k == x.key);
                }
            }
        }
        assert forall|y: Record| (out@.contains(y) || rest@.contains(y)) == input0.contains(
            y,
        ) by {
            if rest@.contains(y) {
                let m = choose|m: int| 0 <= m < rest@.len() && rest@[m] == y;
                assert(rest_pre[m] == y);
                assert(rest_pre.contains(y));
            }
            if rest_pre.contains(y) {
                let m = choose|m: int| 0 <= m < rest_pre.len() && rest_pre[m] == y;
                if m < rest_pre.len() - 1 {
                    assert(rest@[m] == y);
                } else {
                    assert(y == x);
                }
            }
        }
    }
    out
}

/// Everything the synchronizer's merge promises: the result is a
/// well-formed dataset holding each key of either input exactly once, and
/// every result record is the first occurrence of its key in
/// `prev + fetched` — so records already persisted win over re-fetched
/// duplicates.
pub open spec fn merge_post(prev: Seq<Record>, fetched: Seq<Record>, r: Seq<Record>) -> bool {
    &&& strictly_sorted(r)
    &&& unique_keys(r)
    &&& forall|k: u64| has_key(r, k) == (has_key(prev, k) || has_key(fetched, k))
    &&& forall|m: int| 0 <= m < r.len() ==> #[trigger] from_first_occurrence(prev + fetched, r, m)
}

/// Merges previously persisted records with newly fetched ones:
/// concatenation, deduplication by natural key keeping the first
/// occurrence (prior data first, so it is authoritative), then a sort into
/// ascending (time, key) order.
pub fn merge(previous: &Vec<Record>, fetched: &Vec<Record>) -> (r: Vec<Record>)
    ensures
        merge_post(previous@, fetched@, r@),
{
    let ghost all_spec = previous@ + fetched@;
    let mut all: Vec<Record> = Vec::new();
    let mut i: usize = 0;
    while i < previous.len()
        invariant
            i <= previous.len(),
            all@ == previous@.take(i as int),
        decreases previous.len() - i,
    {
        all.push(previous[i].duplicate());
        assert(all@ =~= previous@.take(i + 1int));
        i += 1;
    }
    assert(all@ =~= previous@);
    let mut i: usize = 0;
    while i < fetched.len()
        invariant
            i <= fetched.len(),
            all@ == previous@ + fetched@.take(i as int),
        decreases fetched.len() - i,
    {
        all.push(fetched[i].duplicate());
        assert(all@ =~= previous@ + fetched@.take(i + 1int));
        i += 1;
    }
    assert(all@ =~= all_spec);
    let d = dedup_keep_first(&all);
    let ghost dv = d@;
    let r = sort_records(d);
    assert forall|k: u64| has_key(all_spec, k) == (has_key(previous@, k) || has_key(
        fetched@,
        k,
    )) by {
        if has_key(all_spec, k) {
            let m = choose|m: int| 0 <= m < all_spec.len() && (#[trigger] all_spec[m]).key == k;
            if m < previous@.len() {
                assert(previous@[m].key == k);
            } else {
                assert(fetched@[m - previous@.len()].key == k);
            }
        }
        if has_key(previous@, k) {
            let m = choose|m: int| 0 <= m < previous@.len() && (#[trigger] previous@[m]).key == k;
            assert(all_spec[m].key == k);
        }
        if has_key(fetched@, k) {
            let m = choose|m: int| 0 <= m < fetched@.len() && (#[trigger] fetched@[m]).key == k;
            assert(all_spec[previous@.len() + m].key == k);
        }
    }
    assert forall|m: int| 0 <= m < r@.len() implies #[trigger] from_first_occurrence(
        all_spec,
        r@,
        m,
    ) by {
        assert(r@.contains(r@[m]));
        assert(dv.contains(r@[m]));
        let m2 = choose|m2: int| 0 <= m2 < dv.len() && dv[m2] == r@[m];
        assert(from_first_occurrence(all_spec, dv, m2));
        let j = choose|j: int| is_first_with_key(all_spec, j) && dv[m2] == all_spec[j];
        assert(is_first_with_key(all_spec, j) && r@[m] == all_spec[j]);
    }
    r
}

/// Two well-formed datasets holding the same records are the same sequence:
/// strict (time, key) order makes the layout canonical.
proof fn lemma_sorted_unique_keys_equal(a: Seq<Record>, b: Seq<Record>)
    requires
        dataset_wf(a),
        dataset_wf(b),
        forall|y: Record| a.contains(y) == b.contains(y),
    ensures
        a =~= b,
    decreases a.len(),
{
    if a.len() == 0 {
        if b.len() > 0 {
            assert(b.contains(b[0]));
            assert(a.contains(b[0]));
        }
    } else if b.len() == 0 {
        assert(a.contains(a[0]));
        assert(b.contains(a[0]));
    } else {
        assert(a.contains(a[0]));
        assert(b.contains(b[0]));
        if a[0] != b[0] {
            assert(b.contains(a[0]));
            let i = choose|i: int| 0 <= i < b.len() && b[i] == a[0];
            assert(record_lt(b[0], b[i]));
            assert(a.contains(b[0]));
            let m = choose|m: int| 0 <= m < a.len() && a[m] == b[0];
            assert(record_lt(a[0], a[m]));
            assert(false);
        }
        let at = a.drop_first();
        let bt = b.drop_first();
        assert forall|y: Record| at.contains(y) == bt.contains(y) by {
            if at.contains(y) {
                let m = choose|m: int| 0 <= m < at.len() && at[m] == y;
                assert(a[m + 1] == y);
                assert(record_lt(a[0], a[m + 1]));
                assert(b.contains(y));
                let m2 = choose|m2: int| 0 <= m2 < b.len() && b[m2] == y;
                assert(m2 != 0);
                assert(bt[m2 - 1] == y);
            }
            if bt.contains(y) {
                let m = choose|m: int| 0 <= m < bt.len() && bt[m] == y;
                assert(b[m + 1] == y);
                assert(record_lt(b[0], b[m + 1]));
                assert(a.contains(y));
                let m2 = choose|m2: int| 0 <= m2 < a.len() && a[m2] == y;
                assert(m2 != 0);
                assert(at[m2 - 1] == y);
            }
        }
        lemma_sorted_unique_keys_equal(at, bt);
        assert forall|i: int| 0 <= i < a.len() implies a[i] == b[i] by {
            if i > 0 {
                assert(at[i - 1] == bt[i - 1]);
            }
        }
    }
}

/// Synchronizing again brings nothing new: when every re-fetched record's
/// key is already persisted, any result meeting the merge contract is the
/// previously persisted dataset itself, unchanged and in the same order.
pub proof fn lemma_merge_idempotent(prev: Seq<Record>, fetched: Seq<Record>, r: Seq<Record>)
    requires
        dataset_wf(prev),
        forall|k: u64| has_key(fetched, k) ==> has_key(prev, k),
        merge_post(prev, fetched, r),
    ensures
        r =~= prev,
{
    let all = prev + fetched;
    assert forall|y: Record| r.contains(y) == prev.contains(y) by {
        if r.contains(y) {
            let m = choose|m: int| 0 <= m < r.len() && r[m] == y;
            assert(from_first_occurrence(all, r, m));
            let j = choose|j: int| is_first_with_key(all, j) && r[m] == all[j];
            assert(r[m].key == y.key);
            assert(has_key(r, y.key));
            assert(has_key(prev, y.key) || has_key(fetched, y.key));
            assert(has_key(prev, y.key));
            let i = choose|i: int| 0 <= i < prev.len() && (#[trigger] prev[i]).key == y.key;
            assert(all[i] == prev[i]);
            assert(j <= i);
            assert(all[j] == prev[j]);
            assert(prev.contains(prev[j]));
        }
        if prev.contains(y) {
            let i = choose|i: int| 0 <= i < prev.len() && prev[i] == y;
            assert(prev[i].key == y.key);
            assert(has_key(prev, y.key));
            assert(has_key(r, y.key));
            let m = choose|m: int| 0 <= m < r.len() && (#[trigger] r[m]).key == y.key;
            assert(from_first_occurrence(all, r, m));
            let j = choose|j: int| is_first_with_key(all, j) && r[m] == all[j];
            assert(all[j].key == y.key);
            assert(all[i] == prev[i]);
            assert(is_first_with_key(all, i)) by {
                assert forall|i2: int| 0 <= i2 < i implies (#[trigger] all[i2]).key != all[i].key by {
                    assert(all[i2] == prev[i2]);
                }
            }
            assert(j == i) by {
                if j < i {
                    assert(all[j].key != all[i].key);
                } else if j > i {
                    assert(all[i].key != all[j].key);
                }
            }
            assert(r[m] == y);
            assert(r.contains(r[m]));
        }
    }
    lemma_sorted_unique_keys_equal(r, prev);
}

/// For a key that was already persisted, the merged dataset keeps the
/// previously persisted record, not the re-fetched one.
pub proof fn lemma_merge_previous_wins(
    prev: Seq<Record>,
    fetched: Seq<Record>,
    r: Seq<Record>,
    k: u64,
)
    requires
        merge_post(prev, fetched, r),
        unique_keys(prev),
        has_key(prev, k),
    ensures
        exists|i: int| 0 <= i < prev.len() && (#[trigger] prev[i]).key == k && r.contains(prev[i]),
{
    let all = prev + fetched;
    assert(has_key(r, k));
    let m = choose|m: int| 0 <= m < r.len() && (#[trigger] r[m]).key == k;
    assert(from_first_occurrence(all, r, m));
    let j = choose|j: int| is_first_with_key(all, j) && r[m] == all[j];
    assert(all[j].key == k);
    let i0 = choose|i0: int| 0 <= i0 < prev.len() && (#[trigger] prev[i0]).key == k;
    assert(all[i0] == prev[i0]);
    assert(j <= i0);
    assert(all[j] == prev[j]);
    assert(prev[j].key == k && r.contains(prev[j])) by {
        assert(r.contains(r[m]));
    }
}

} // verus!
