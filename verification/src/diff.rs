use vstd::prelude::*;

use crate::tree::{
    lemma_tree_eq_reflexive, ser_spec, serialize, tree_eq, tree_eq_spec, tree_wf, Tree,
};

verus! {

broadcast use vstd::std_specs::vec::axiom_vec_index_decreases;

/// A serialized value or a list of them, as diff reports carry them.
#[derive(Clone, PartialEq, Eq, Debug)]
pub enum StringOrVec {
    String(String),
    Vec(Vec<String>),
}

/// The structural diff report: keys only in the new snapshot (`new`),
/// keys only in the old one (`old`), and changed leaves or array element
/// sets (`diff`), each keyed by the `/`-joined path of the node.
#[derive(Clone, PartialEq, Eq, Debug)]
pub struct Diff {
    pub new: Vec<(String, Vec<String>)>,
    pub old: Vec<(String, Vec<String>)>,
    pub diff: Vec<(String, (Vec<String>, Vec<String>))>,
}

/// The mathematical shadow of a report: the same three path-keyed lists
/// over character sequences.
pub struct DiffModel {
    pub added: Seq<(Seq<char>, Seq<Seq<char>>)>,
    pub removed: Seq<(Seq<char>, Seq<Seq<char>>)>,
    pub changed: Seq<(Seq<char>, (Seq<Seq<char>>, Seq<Seq<char>>))>,
}

impl Diff {
    /// What this report says, as sequences of character data.
    pub open spec fn model(self) -> DiffModel {
        DiffModel {
            added: self.new@.map_values(|p: (String, Vec<String>)| (p.0@, p.1.deep_view())),
            removed: self.old@.map_values(|p: (String, Vec<String>)| (p.0@, p.1.deep_view())),
            changed: self.diff@.map_values(
                |p: (String, (Vec<String>, Vec<String>))|
                    (p.0@, (p.1.0.deep_view(), p.1.1.deep_view())),
            ),
        }
    }

    /// The report's three maps hold nothing.
    pub open spec fn is_empty_spec(self) -> bool {
        self.new@.len() == 0 && self.old@.len() == 0 && self.diff@.len() == 0
    }

    /// An empty report.
    pub fn new() -> (d: Diff)
        ensures
            d.is_empty_spec(),
            d.model() == DiffModel::empty(),
    {
        let d = Diff { new: Vec::new(), old: Vec::new(), diff: Vec::new() };
        proof {
            assert(d.model().added =~= DiffModel::empty().added);
            assert(d.model().removed =~= DiffModel::empty().removed);
            assert(d.model().changed =~= DiffModel::empty().changed);
        }
        d
    }

    /// Whether every map of the report is empty — the no-op test of the
    /// snapshot update rule.
    pub fn is_empty(&self) -> (r: bool)
        ensures
            r == self.is_empty_spec(),
    {
        self.new.len() == 0 && self.old.len() == 0 && self.diff.len() == 0
    }
}

impl DiffModel {
    /// The model of an empty report.
    pub open spec fn empty() -> DiffModel {
        DiffModel { added: Seq::empty(), removed: Seq::empty(), changed: Seq::empty() }
    }
}

/// Some field of the object carries key `k`.
pub open spec fn obj_has_key(fs: Seq<(String, Tree)>, k: Seq<char>) -> bool {
    exists|i: int| 0 <= i < fs.len() && (#[trigger] fs[i]).0@ == k
}

/// The first field index carrying key `k` (meaningful when present).
pub open spec fn obj_first_index(fs: Seq<(String, Tree)>, k: Seq<char>) -> int
    decreases fs.len(),
{
    if fs.len() == 0 {
        0
    } else if fs[0].0@ == k {
        0
    } else {
        1 + obj_first_index(fs.drop_first(), k)
    }
}

proof fn lemma_obj_first_index(fs: Seq<(String, Tree)>, k: Seq<char>, i: int)
    requires
        0 <= i < fs.len(),
        fs[i].0@ == k,
        forall|j: int| 0 <= j < i ==> (#[trigger] fs[j]).0@ != k,
    ensures
        obj_first_index(fs, k) == i,
    decreases i,
{
    if i == 0 {
    } else {
        let tail = fs.drop_first();
        assert(fs[0].0@ != k);
        assert(tail[i - 1] == fs[i]);
        assert forall|j: int| 0 <= j < i - 1 implies (#[trigger] tail[j]).0@ != k by {
            assert(tail[j] == fs[j + 1]);
        }
        lemma_obj_first_index(tail, k, i - 1);
    }
}

/// Finds the first field under the given key.
fn obj_index_of(fs: &Vec<(String, Tree)>, k: &String) -> (r: Option<usize>)
    ensures
        match r {
            Some(i) => obj_has_key(fs@, k@) && i == obj_first_index(fs@, k@) && i < fs@.len()
                && fs@[i as int].0@ == k@,
            None => !obj_has_key(fs@, k@),
        },
{
    let mut i: usize = 0;
    while i < fs.len()
        invariant
            i <= fs@.len(),
            forall|j: int| 0 <= j < i ==> (#[trigger] fs@[j]).0@ != k@,
        decreases fs@.len() - i,
    {
        if fs[i].0.eq(k) {
            proof {
                assert(fs@[i as int].0@ == k@);
                lemma_obj_first_index(fs@, k@, i as int);
            }
            return Some(i);
        }
        i += 1;
    }
    None
}

/// The keys of the first `n` fields of `a` that `b` does not carry, in
/// field order.
pub open spec fn spec_keys_only_in(
    a: Seq<(String, Tree)>,
    b: Seq<(String, Tree)>,
    n: nat,
) -> Seq<Seq<char>>
    decreases n,
{
    if n == 0 || n > a.len() {
        Seq::empty()
    } else {
        let rest = spec_keys_only_in(a, b, (n - 1) as nat);
        if !obj_has_key(b, a[n - 1].0@) {
            rest.push(a[n - 1].0@)
        } else {
            rest
        }
    }
}

/// Collects the keys of `a` that `b` does not carry.
fn keys_only_in(a: &Vec<(String, Tree)>, b: &Vec<(String, Tree)>) -> (r: Vec<String>)
    ensures
        r.deep_view() == spec_keys_only_in(a@, b@, a@.len() as nat),
{
    let mut out: Vec<String> = Vec::new();
    let mut i: usize = 0;
    while i < a.len()
        invariant
            i <= a@.len(),
            out.deep_view() == spec_keys_only_in(a@, b@, i as nat),
        decreases a@.len() - i,
    {
        let ghost pre = out.deep_view();
        match obj_index_of(b, &a[i].0) {
            Some(_) => {
                assert(out.deep_view() =~= spec_keys_only_in(a@, b@, (i + 1) as nat));
            },
            None => {
                out.push(a[i].0.clone());
                assert(out.deep_view() =~= pre.push(a@[i as int].0@));
                assert(out.deep_view() =~= spec_keys_only_in(a@, b@, (i + 1) as nat));
            },
        }
        i += 1;
    }
    out
}

/// Some element of `b` is structurally equal to `x`.
pub open spec fn arr_has(b: Seq<Tree>, x: Tree) -> bool {
    exists|i: int| 0 <= i < b.len() && tree_eq_spec(x, #[trigger] b[i])
}

/// The serialized texts of the first `n` elements of `a` with no
/// structural match in `b`, in element order.
pub open spec fn spec_arr_missing(a: Seq<Tree>, b: Seq<Tree>, n: nat) -> Seq<Seq<char>>
    decreases n,
{
    if n == 0 || n > a.len() {
        Seq::empty()
    } else {
        let rest = spec_arr_missing(a, b, (n - 1) as nat);
        if !arr_has(b, a[n - 1]) {
            rest.push(ser_spec(a[n - 1]))
        } else {
            rest
        }
    }
}

/// Does the array carry a structural match of `x`?
fn arr_contains(b: &Vec<Tree>, x: &Tree) -> (r: bool)
    ensures
        r == arr_has(b@, *x),
{
    let mut i: usize = 0;
    while i < b.len()
        invariant
            i <= b@.len(),
            forall|j: int| 0 <= j < i ==> !tree_eq_spec(*x, #[trigger] b@[j]),
        decreases b@.len() - i,
    {
        if tree_eq(x, &b[i]) {
            assert(tree_eq_spec(*x, b@[i as int]));
            return true;
        }
        i += 1;
    }
    false
}

/// Serializes the elements of `a` with no structural match in `b`.
fn arr_missing(a: &Vec<Tree>, b: &Vec<Tree>) -> (r: Vec<String>)
    ensures
        r.deep_view() == spec_arr_missing(a@, b@, a@.len() as nat),
{
    let mut out: Vec<String> = Vec::new();
    let mut i: usize = 0;
    while i < a.len()
        invariant
            i <= a@.len(),
            out.deep_view() == spec_arr_missing(a@, b@, i as nat),
        decreases a@.len() - i,
    {
        let ghost pre = out.deep_view();
        if !arr_contains(b, &a[i]) {
            let piece = serialize(&a[i]);
            out.push(piece);
            assert(out.deep_view() =~= pre.push(ser_spec(a@[i as int])));
        }
        assert(out.deep_view() =~= spec_arr_missing(a@, b@, (i + 1) as nat));
        i += 1;
    }
    out
}

/// The leaf rule of the diff: scalars (and mismatched shapes) that differ are
/// recorded under the node's path, old serialization first.
pub open spec fn spec_diff_leaf(left: Tree, right: Tree, path: Seq<char>, m: DiffModel) -> DiffModel {
    if tree_eq_spec(left, right) {
        m
    } else {
        DiffModel {
            changed: m.changed.push((path, (seq![ser_spec(right)], seq![ser_spec(left)]))),
            ..m
        }
    }
}

/// The full structural diff in accumulator form: objects compare
/// key sets and recurse into common keys; arrays are compared as sets of
/// serialized elements; anything else falls to the leaf rule.
pub open spec fn spec_diff(left: Tree, right: Tree, path: Seq<char>, m: DiffModel) -> DiffModel
    decreases left, 1int, 0int,
{
    match left {
        Tree::Object(lf) => match right {
            Tree::Object(rf) => {
                let keys_new = spec_keys_only_in(lf@, rf@, lf@.len() as nat);
                let keys_old = spec_keys_only_in(rf@, lf@, rf@.len() as nat);
                let m1 = DiffModel {
                    added: if keys_new.len() > 0 {
                        m.added.push((path, keys_new))
                    } else {
                        m.added
                    },
                    removed: if keys_old.len() > 0 {
                        m.removed.push((path, keys_old))
                    } else {
                        m.removed
                    },
                    changed: m.changed,
                };
                spec_diff_fields(left, right, lf@.len() as nat, path, m1)
            },
            _ => spec_diff_leaf(left, right, path, m),
        },
        Tree::Array(la) => match right {
            Tree::Array(ra) => {
                let news = spec_arr_missing(la@, ra@, la@.len() as nat);
                let olds = spec_arr_missing(ra@, la@, ra@.len() as nat);
                if news.len() > 0 || olds.len() > 0 {
                    DiffModel { changed: m.changed.push((path, (news, olds))), ..m }
                } else {
                    m
                }
            },
            _ => spec_diff_leaf(left, right, path, m),
        },
        Tree::Scalar(_) => spec_diff_leaf(left, right, path, m),
    }
}

/// Recursion over the first `n` fields of the left object: common keys
/// recurse into `diff` at the extended path, keys missing on the right
/// were already reported.
pub open spec fn spec_diff_fields(
    left: Tree,
    right: Tree,
    n: nat,
    path: Seq<char>,
    m: DiffModel,
) -> DiffModel
    decreases left, 0int, n,
{
    match left {
        Tree::Object(lf) => match right {
            Tree::Object(rf) => {
                if n == 0 || n > lf@.len() {
                    m
                } else {
                    let m1 = spec_diff_fields(left, right, (n - 1) as nat, path, m);
                    let key = lf@[n - 1].0@;
                    if obj_has_key(rf@, key) {
                        spec_diff(
                            lf@[n - 1].1,
                            rf@[obj_first_index(rf@, key)].1,
                            path + "/"@ + key,
                            m1,
                        )
                    } else {
                        m1
                    }
                }
            },
            _ => m,
        },
        _ => m,
    }
}

/// Computes the structural diff of two snapshots, accumulating into
/// `diff` — a structural recursion, with the left tree read as the new
/// snapshot and the right tree as the old one.
pub fn run_json(left: &Tree, right: &Tree, path: &str, diff: &mut Diff)
    ensures
        final(diff).model() == spec_diff(*left, *right, path@, old(diff).model()),
    decreases *left,
{
    match left {
        Tree::Object(lf) => match right {
            Tree::Object(rf) => {
                let keys_new = keys_only_in(lf, rf);
                let keys_old = keys_only_in(rf, lf);
                let ghost m0 = diff.model();
                if keys_new.len() > 0 {
                    let ghost pre = diff.model();
                    diff.new.push((path.to_owned(), keys_new));
                    assert(diff.model().added =~= pre.added.push(
                        (path@, spec_keys_only_in(lf@, rf@, lf@.len() as nat)),
                    ));
                    assert(diff.model().removed =~= pre.removed);
                    assert(diff.model().changed =~= pre.changed);
                }
                if keys_old.len() > 0 {
                    let ghost pre = diff.model();
                    diff.old.push((path.to_owned(), keys_old));
                    assert(diff.model().removed =~= pre.removed.push(
                        (path@, spec_keys_only_in(rf@, lf@, rf@.len() as nat)),
                    ));
                    assert(diff.model().added =~= pre.added);
                    assert(diff.model().changed =~= pre.changed);
                }
                let ghost m1 = diff.model();
                assert(m1 == (DiffModel {
                    added: if spec_keys_only_in(lf@, rf@, lf@.len() as nat).len() > 0 {
                        m0.added.push((path@, spec_keys_only_in(lf@, rf@, lf@.len() as nat)))
                    } else {
                        m0.added
                    },
                    removed: if spec_keys_only_in(rf@, lf@, rf@.len() as nat).len() > 0 {
                        m0.removed.push((path@, spec_keys_only_in(rf@, lf@, rf@.len() as nat)))
                    } else {
                        m0.removed
                    },
                    changed: m0.changed,
                }));
                let mut j: usize = 0;
                while j < lf.len()
                    invariant
                        j <= lf@.len(),
                        *left == Tree::Object(*lf),
                        *right == Tree::Object(*rf),
                        diff.model() == spec_diff_fields(*left, *right, j as nat, path@, m1),
                    decreases lf@.len() - j,
                {
                    let ghost before = diff.model();
                    match obj_index_of(rf, &lf[j].0) {
                        Some(idx) => {
                            let mut child: String = path.to_owned();
                            child.append("/");
                            child.append(lf[j].0.as_str());
                            assert(child@ == path@ + "/"@ + lf@[j as int].0@);
                            proof {
                                assert(decreases_to!(*left => (*left)->Object_0));
                                assert((*left)->Object_0 == *lf);
                                assert(decreases_to!(*lf => lf@[j as int]));
                                assert(decreases_to!(lf@[j as int] => lf@[j as int].1));
                            }
                            run_json(&lf[j].1, &rf[idx].1, child.as_str(), diff);
                            assert(diff.model() == spec_diff_fields(
                                *left,
                                *right,
                                (j + 1) as nat,
                                path@,
                                m1,
                            ));
                        },
                        None => {
                            assert(diff.model() == spec_diff_fields(
                                *left,
                                *right,
                                (j + 1) as nat,
                                path@,
                                m1,
                            ));
                        },
                    }
                    j += 1;
                }
                assert(diff.model() == spec_diff(*left, *right, path@, m0));
            },
            _ => {
                run_json_leaf(left, right, path, diff);
            },
        },
        Tree::Array(la) => match right {
            Tree::Array(ra) => {
                let news = arr_missing(la, ra);
                let olds = arr_missing(ra, la);
                if news.len() > 0 || olds.len() > 0 {
                    let ghost pre = diff.model();
                    diff.diff.push((path.to_owned(), (news, olds)));
                    assert(diff.model().changed =~= pre.changed.push(
                        (
                            path@,
                            (
                                spec_arr_missing(la@, ra@, la@.len() as nat),
                                spec_arr_missing(ra@, la@, ra@.len() as nat),
                            ),
                        ),
                    ));
                    assert(diff.model().added =~= pre.added);
                    assert(diff.model().removed =~= pre.removed);
                }
            },
            _ => {
                run_json_leaf(left, right, path, diff);
            },
        },
        Tree::Scalar(_) => {
            run_json_leaf(left, right, path, diff);
        },
    }
}

/// Records a changed leaf (or shape mismatch): the old serialization
/// first, then the new one, under the node's path.
fn run_json_leaf(left: &Tree, right: &Tree, path: &str, diff: &mut Diff)
    ensures
        final(diff).model() == spec_diff_leaf(*left, *right, path@, old(diff).model()),
{
    if !tree_eq(left, right) {
        let ghost pre = diff.model();
        let mut olds: Vec<String> = Vec::new();
        olds.push(serialize(right));
        let mut news: Vec<String> = Vec::new();
        news.push(serialize(left));
        assert(olds.deep_view() =~= seq![ser_spec(*right)]);
        assert(news.deep_view() =~= seq![ser_spec(*left)]);
        diff.diff.push((path.to_owned(), (olds, news)));
        assert(diff.model().changed =~= pre.changed.push(
            (path@, (seq![ser_spec(*right)], seq![ser_spec(*left)])),
        ));
        assert(diff.model().added =~= pre.added);
        assert(diff.model().removed =~= pre.removed);
    }
}

proof fn lemma_keys_only_in_self(fs: Seq<(String, Tree)>, n: nat)
    requires
        n <= fs.len(),
    ensures
        spec_keys_only_in(fs, fs, n).len() == 0,
    decreases n,
{
    if n > 0 {
        lemma_keys_only_in_self(fs, (n - 1) as nat);
        assert(obj_has_key(fs, fs[n - 1].0@)) by {
            assert((#[trigger] fs[n - 1]).0@ == fs[n - 1].0@);
        }
    }
}

proof fn lemma_arr_missing_self(es: Seq<Tree>, n: nat)
    requires
        n <= es.len(),
    ensures
        spec_arr_missing(es, es, n).len() == 0,
    decreases n,
{
    if n > 0 {
        lemma_arr_missing_self(es, (n - 1) as nat);
        lemma_tree_eq_reflexive(es[n - 1]);
        assert(arr_has(es, es[n - 1]));
    }
}

/// Diff emptiness: diffing a well-formed snapshot against itself leaves
/// the report exactly as it was — nothing is added, removed or changed.
pub proof fn lemma_diff_identical(x: Tree, path: Seq<char>, m: DiffModel)
    requires
        tree_wf(x),
    ensures
        spec_diff(x, x, path, m) == m,
    decreases x, 1int, 0int,
{
    match x {
        Tree::Scalar(_) => {
            lemma_tree_eq_reflexive(x);
        },
        Tree::Array(es) => {
            lemma_arr_missing_self(es@, es@.len() as nat);
        },
        Tree::Object(fs) => {
            lemma_keys_only_in_self(fs@, fs@.len() as nat);
            lemma_diff_fields_identical(x, fs@.len() as nat, path, m);
        },
    }
}

proof fn lemma_diff_fields_identical(x: Tree, n: nat, path: Seq<char>, m: DiffModel)
    requires
        tree_wf(x),
        x is Object,
        n <= x->Object_0@.len(),
    ensures
        spec_diff_fields(x, x, n, path, m) == m,
    decreases x, 0int, n,
{
    if n > 0 {
        lemma_diff_fields_identical(x, (n - 1) as nat, path, m);
        let fs = x->Object_0@;
        let key = fs[n - 1].0@;
        assert(obj_has_key(fs, key)) by {
            assert((#[trigger] fs[n - 1]).0@ == key);
        }
        assert forall|j: int| 0 <= j < n - 1 implies (#[trigger] fs[j]).0@ != key by {
            assert(fs[j].0@ != fs[n - 1].0@);
        }
        lemma_obj_first_index(fs, key, n - 1);
        assert(tree_wf(fs[n - 1].1));
        assert(decreases_to!(x => x->Object_0));
        assert(decreases_to!(x->Object_0 => fs[n - 1]));
        assert(decreases_to!(fs[n - 1] => fs[n - 1].1));
        lemma_diff_identical(fs[n - 1].1, path + "/"@ + key, m);
    }
}

/// What the orchestrator must do with a freshly fetched reference
/// snapshot.
#[derive(PartialEq, Eq, Debug)]
pub enum SnapshotAction {
    /// No prior snapshot exists: write the new one, with no report.
    Create,
    /// The diff is empty: leave the persisted snapshot untouched.
    Skip,
    /// Persist this report as an audit record, then overwrite the
    /// snapshot.
    Overwrite(Diff),
}

/// The snapshot update rule: with no prior snapshot the new one
/// is simply written; otherwise the two are diffed, an empty report makes
/// the update a no-op, and a non-empty report is persisted as an audit
/// record before the snapshot is overwritten.
pub fn snapshot_update(new_snapshot: &Tree, previous: Option<&Tree>) -> (r: SnapshotAction)
    ensures
        match r {
            SnapshotAction::Create => previous is None,
            SnapshotAction::Skip => previous matches Some(p) && spec_diff(
                *new_snapshot,
                *p,
                ""@,
                DiffModel::empty(),
            ) == DiffModel::empty(),
            SnapshotAction::Overwrite(d) => previous matches Some(p) && d.model() == spec_diff(
                *new_snapshot,
                *p,
                ""@,
                DiffModel::empty(),
            ) && d.model() != DiffModel::empty(),
        },
{
    match previous {
        None => SnapshotAction::Create,
        Some(p) => {
            let mut d = Diff::new();
            run_json(new_snapshot, p, "", &mut d);
            if d.is_empty() {
                proof {
                    assert(d.model().added =~= DiffModel::empty().added);
                    assert(d.model().removed =~= DiffModel::empty().removed);
                    assert(d.model().changed =~= DiffModel::empty().changed);
                }
                SnapshotAction::Skip
            } else {
                proof {
                    if d.model() == DiffModel::empty() {
                        assert(d.model().added.len() == d.new@.len());
                        assert(d.model().removed.len() == d.old@.len());
                        assert(d.model().changed.len() == d.diff@.len());
                    }
                }
                SnapshotAction::Overwrite(d)
            }
        },
    }
}

} // verus!
