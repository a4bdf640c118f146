use vstd::prelude::*;

use crate::path::{components_of, path_components};
use crate::types::{ids_of, Snapshot};

verus! {

/// One file size seen in one snapshot's listing. The path is held as its
/// components (see `components_of`).
#[derive(Debug)]
pub struct Observation {
    pub snapshot: String,
    pub path: Vec<String>,
    pub size: u64,
}

/// What an observation states: the snapshot, the path's components and the size.
pub struct Obs {
    pub snapshot: Seq<char>,
    pub path: Seq<Seq<char>>,
    pub size: u64,
}

impl View for Observation {
    type V = Obs;

    open spec fn view(&self) -> Obs {
        Obs { snapshot: self.snapshot@, path: self.path.deep_view(), size: self.size }
    }
}

/// The views of a sequence of observations.
pub open spec fn obs_view(v: Seq<Observation>) -> Seq<Obs> {
    v.map_values(|o: Observation| o@)
}

/// A copy of a path, component by component.
fn copy_path(p: &Vec<String>) -> (r: Vec<String>)
    ensures
        r.deep_view() == p.deep_view(),
{
    let mut r: Vec<String> = Vec::new();
    let mut i: usize = 0;
    while i < p.len()
        invariant
            i <= p.len(),
            r.deep_view() == p.deep_view().subrange(0, i as int),
        decreases p.len() - i,
    {
        let ghost before = r.deep_view();
        r.push(p[i].clone());
        assert(r.deep_view() =~= before.push(p.deep_view()[i as int]));
        assert(r.deep_view() =~= p.deep_view().subrange(0, i + 1));
        i += 1;
    }
    assert(r.deep_view() =~= p.deep_view());
    r
}

impl Observation {
    /// A copy of this observation.
    pub fn copy(&self) -> (r: Observation)
        ensures
            r@ == self@,
    {
        Observation { snapshot: self.snapshot.clone(), path: copy_path(&self.path), size: self.size }
    }
}

/// Whether an observation lies strictly beneath the directory `dir`.
pub open spec fn is_beneath(o: Obs, dir: Seq<Seq<char>>) -> bool {
    &&& o.path.len() > dir.len()
    &&& o.path.subrange(0, dir.len() as int) == dir
}

/// The direct child of `dir` that an observation beneath it lies in.
pub open spec fn child_name(o: Obs, dir: Seq<Seq<char>>) -> Seq<char> {
    o.path[dir.len() as int]
}

/// Some observation of `rows` beneath `dir` lies in child `e.0` with size `e.1`.
pub open spec fn is_witnessed(rows: Seq<Obs>, dir: Seq<Seq<char>>, e: (Seq<char>, u64)) -> bool {
    exists|k: int|
        0 <= k < rows.len() && is_beneath(#[trigger] rows[k], dir) && child_name(rows[k], dir)
            == e.0 && rows[k].size == e.1
}

/// No observation of `rows` beneath `dir` in child `e.0` is larger than `e.1`.
pub open spec fn is_bound(rows: Seq<Obs>, dir: Seq<Seq<char>>, e: (Seq<char>, u64)) -> bool {
    forall|k: int|
        0 <= k < rows.len() && is_beneath(#[trigger] rows[k], dir) && child_name(rows[k], dir)
            == e.0 ==> rows[k].size <= e.1
}

/// Child `c` has an entry in `r`.
pub open spec fn is_listed(r: Seq<(Seq<char>, u64)>, c: Seq<char>) -> bool {
    exists|i: int| 0 <= i < r.len() && (#[trigger] r[i]).0 == c
}

/// `r` lists each direct child of `dir` that holds an observation of `rows`,
/// once, with the largest size observed at or beneath it.
pub open spec fn is_max_sizes(
    rows: Seq<Obs>,
    dir: Seq<Seq<char>>,
    r: Seq<(Seq<char>, u64)>,
) -> bool {
    &&& forall|i: int, j: int| 0 <= i < j < r.len() ==> (#[trigger] r[i]).0 != (#[trigger] r[j]).0
    &&& forall|i: int| 0 <= i < r.len() ==> is_witnessed(rows, dir, #[trigger] r[i])
    &&& forall|i: int| 0 <= i < r.len() ==> is_bound(rows, dir, #[trigger] r[i])
    &&& forall|k: int|
        0 <= k < rows.len() && is_beneath(#[trigger] rows[k], dir) ==> is_listed(
            r,
            child_name(rows[k], dir),
        )
}

/// Whether `path` begins with the components of `dir` and has at least one more.
fn lies_beneath(path: &Vec<String>, dir: &Vec<String>) -> (r: bool)
    ensures
        r == (path.deep_view().len() > dir.deep_view().len() && path.deep_view().subrange(
            0,
            dir.deep_view().len() as int,
        ) == dir.deep_view()),
{
    if path.len() <= dir.len() {
        return false;
    }
    let mut i: usize = 0;
    while i < dir.len()
        invariant
            i <= dir.len() < path.len(),
            forall|j: int| 0 <= j < i ==> path@[j]@ == dir@[j]@,
        decreases dir.len() - i,
    {
        if !(path[i] == dir[i]) {
            assert(path.deep_view().subrange(0, dir.deep_view().len() as int)[i as int]
                != dir.deep_view()[i as int]);
            return false;
        }
        i += 1;
    }
    assert(path.deep_view().subrange(0, dir.deep_view().len() as int) =~= dir.deep_view());
    true
}

/// The position of child `c` in `out`, if it is listed there.
fn find_child(out: &Vec<(String, u64)>, c: &String) -> (r: Option<usize>)
    ensures
        match r {
            Some(i) => i < out.len() && out.deep_view()[i as int].0 == c@,
            None => !is_listed(out.deep_view(), c@),
        },
{
    let mut i: usize = 0;
    while i < out.len()
        invariant
            i <= out.len(),
            forall|j: int| 0 <= j < i ==> out.deep_view()[j].0 != c@,
        decreases out.len() - i,
    {
        if out[i].0 == *c {
            return Some(i);
        }
        i += 1;
    }
    None
}

/// One step of the aggregation: `out` is the answer over `rows`, and `o` comes next.
proof fn lemma_max_sizes_skip(rows: Seq<Obs>, dir: Seq<Seq<char>>, out: Seq<(Seq<char>, u64)>, o: Obs)
    requires
        is_max_sizes(rows, dir, out),
        !is_beneath(o, dir),
    ensures
        is_max_sizes(rows.push(o), dir, out),
{
    let rows2 = rows.push(o);
    assert forall|i: int| 0 <= i < out.len() implies is_witnessed(rows2, dir, #[trigger] out[i]) by {
        let k = choose|k: int| 0 <= k < rows.len() && is_beneath(#[trigger] rows[k], dir) && child_name(rows[k], dir)
            == out[i].0 && rows[k].size == out[i].1;
        assert(rows2[k] == rows[k]);
    }
    assert forall|i: int| 0 <= i < out.len() implies is_bound(rows2, dir, #[trigger] out[i]) by {
        assert forall|k: int| 0 <= k < rows2.len() && is_beneath(#[trigger] rows2[k], dir) && child_name(rows2[k], dir)
            == out[i].0 implies rows2[k].size <= out[i].1 by {
            assert(rows2[k] == rows[k]);
        }
    }
    assert forall|k: int| 0 <= k < rows2.len() && is_beneath(#[trigger] rows2[k], dir) implies is_listed(
            out,
            child_name(rows2[k], dir),
        ) by {
        assert(rows2[k] == rows[k]);
    }
}

/// One step of the aggregation where `o` lies in child `c` and `out[i]` is that child's entry.
proof fn lemma_max_sizes_update(rows: Seq<Obs>, dir: Seq<Seq<char>>, out: Seq<(Seq<char>, u64)>, o: Obs, i: int)
    requires
        is_max_sizes(rows, dir, out),
        is_beneath(o, dir),
        0 <= i < out.len(),
        out[i].0 == child_name(o, dir),
    ensures
        out[i].1 < o.size ==> is_max_sizes(rows.push(o), dir, out.update(i, (out[i].0, o.size))),
        out[i].1 >= o.size ==> is_max_sizes(rows.push(o), dir, out),
{
    let rows2 = rows.push(o);
    let last = rows.len() as int;
    assert(rows2[last] == o);
    let out2 = if out[i].1 < o.size { out.update(i, (out[i].0, o.size)) } else { out };
    assert forall|j: int| 0 <= j < out2.len() implies is_witnessed(rows2, dir, #[trigger] out2[j]) by {
        if j == i && out[i].1 < o.size {
            assert(is_beneath(rows2[last], dir));
        } else {
            let k = choose|k: int| 0 <= k < rows.len() && is_beneath(#[trigger] rows[k], dir) && child_name(rows[k], dir)
                == out[j].0 && rows[k].size == out[j].1;
            assert(rows2[k] == rows[k]);
        }
    }
    assert forall|j: int| 0 <= j < out2.len() implies is_bound(rows2, dir, #[trigger] out2[j]) by {
        assert(is_bound(rows, dir, out[j]));
        assert forall|k: int| 0 <= k < rows2.len() && is_beneath(#[trigger] rows2[k], dir) && child_name(rows2[k], dir)
            == out2[j].0 implies rows2[k].size <= out2[j].1 by {
            if k < last {
                assert(rows2[k] == rows[k]);
            } else if j != i {
                assert(out[j].0 != out[i].0 || out[i].0 != out[j].0);
            }
        }
    }
    assert forall|k: int| 0 <= k < rows2.len() && is_beneath(#[trigger] rows2[k], dir) implies is_listed(
            out2,
            child_name(rows2[k], dir),
        ) by {
        if k < last {
            assert(rows2[k] == rows[k]);
            let j = choose|j: int| 0 <= j < out.len() && (#[trigger] out[j]).0 == child_name(rows[k], dir);
            assert(out2[j].0 == out[j].0);
        } else {
            assert(out2[i].0 == out[i].0);
        }
    }
    assert forall|a: int, b: int| 0 <= a < b < out2.len() implies (#[trigger] out2[a]).0 != (#[trigger] out2[b]).0 by {
        assert(out2[a].0 == out[a].0 && out2[b].0 == out[b].0);
    }
}

/// One step of the aggregation where `o` lies in a child that `out` does not list yet.
proof fn lemma_max_sizes_add(rows: Seq<Obs>, dir: Seq<Seq<char>>, out: Seq<(Seq<char>, u64)>, o: Obs)
    requires
        is_max_sizes(rows, dir, out),
        is_beneath(o, dir),
        !is_listed(out, child_name(o, dir)),
    ensures
        is_max_sizes(rows.push(o), dir, out.push((child_name(o, dir), o.size))),
{
    let rows2 = rows.push(o);
    let last = rows.len() as int;
    let c = child_name(o, dir);
    let out2 = out.push((c, o.size));
    assert(rows2[last] == o);
    assert forall|j: int| 0 <= j < out2.len() implies is_witnessed(rows2, dir, #[trigger] out2[j]) by {
        if j == out.len() {
            assert(is_beneath(rows2[last], dir));
        } else {
            assert(out2[j] == out[j]);
            let k = choose|k: int| 0 <= k < rows.len() && is_beneath(#[trigger] rows[k], dir) && child_name(rows[k], dir)
                == out[j].0 && rows[k].size == out[j].1;
            assert(rows2[k] == rows[k]);
        }
    }
    assert forall|j: int| 0 <= j < out2.len() implies is_bound(rows2, dir, #[trigger] out2[j]) by {
        assert forall|k: int| 0 <= k < rows2.len() && is_beneath(#[trigger] rows2[k], dir) && child_name(rows2[k], dir)
            == out2[j].0 implies rows2[k].size <= out2[j].1 by {
            if k < last {
                assert(rows2[k] == rows[k]);
                if j == out.len() {
                    assert(is_listed(out, child_name(rows[k], dir)));
                } else {
                    assert(out2[j] == out[j]);
                    assert(is_bound(rows, dir, out[j]));
                }
            } else if j < out.len() {
                assert(out2[j] == out[j]);
                assert(is_listed(out, c));
            }
        }
    }
    assert forall|k: int| 0 <= k < rows2.len() && is_beneath(#[trigger] rows2[k], dir) implies is_listed(
            out2,
            child_name(rows2[k], dir),
        ) by {
        if k < last {
            assert(rows2[k] == rows[k]);
            let j = choose|j: int| 0 <= j < out.len() && (#[trigger] out[j]).0 == child_name(rows[k], dir);
            assert(out2[j] == out[j]);
        } else {
            assert(out2[out.len() as int].0 == c);
        }
    }
    assert forall|a: int, b: int| 0 <= a < b < out2.len() implies (#[trigger] out2[a]).0 != (#[trigger] out2[b]).0 by {
        if b == out.len() {
            assert(out2[a] == out[a]);
            if out[a].0 == c {
                assert(is_listed(out, c));
            }
        } else {
            assert(out2[a] == out[a] && out2[b] == out[b]);
        }
    }
}

/// The local index: the snapshots whose listing was committed, and every
/// observation that those listings hold.
pub struct Cache {
    snapshots: Vec<String>,
    observations: Vec<Observation>,
}

/// A listing being ingested for one snapshot. Nothing in it is visible in a
/// `Cache` until `Cache::finish_snapshot` commits it.
pub struct Transaction {
    snapshot: String,
    pending: Vec<Observation>,
}

impl Transaction {
    /// The snapshot that this listing belongs to.
    pub closed spec fn id(&self) -> Seq<char> {
        self.snapshot@
    }

    /// The observations inserted so far, in order.
    pub closed spec fn rows(&self) -> Seq<Obs> {
        obs_view(self.pending@)
    }

    pub closed spec fn wf(&self) -> bool {
        forall|k: int| 0 <= k < self.rows().len() ==> (#[trigger] self.rows()[k]).snapshot == self.snapshot@
    }

    /// Adds one file of the listing; the cache is not touched.
    pub fn insert_file(&mut self, path: &str, size: u64)
        requires
            old(self).wf(),
        ensures
            final(self).wf(),
            final(self).id() == old(self).id(),
            final(self).rows().len() == old(self).rows().len() + 1,
            final(self).rows().subrange(0, old(self).rows().len() as int) == old(self).rows(),
            final(self).rows().last().snapshot == old(self).id(),
            final(self).rows().last().path == components_of(path@),
            final(self).rows().last().size == size,
    {
        let o = Observation { snapshot: self.snapshot.clone(), path: path_components(path), size };
        let ghost ov = o@;
        self.pending.push(o);
        assert(self.rows() =~= obs_view(old(self).pending@).push(ov));
        assert(self.rows().subrange(0, self.rows().len() - 1) =~= old(self).rows());
    }
}

/// Whether `id` is among `ids`.
fn contains_id(ids: &Vec<String>, id: &String) -> (r: bool)
    ensures
        r == ids.deep_view().contains(id@),
{
    let mut i: usize = 0;
    while i < ids.len()
        invariant
            i <= ids.len(),
            forall|j: int| 0 <= j < i ==> ids.deep_view()[j] != id@,
        decreases ids.len() - i,
    {
        if ids[i] == *id {
            assert(ids.deep_view()[i as int] == id@);
            return true;
        }
        i += 1;
    }
    false
}

/// Filtering keeps a sequence free of duplicates.
proof fn lemma_filter_no_dup<A>(s: Seq<A>, p: spec_fn(A) -> bool)
    requires
        s.no_duplicates(),
    ensures
        s.filter(p).no_duplicates(),
    decreases s.len(),
{
    reveal(Seq::filter);
    if s.len() > 0 {
        let rest = s.drop_last();
        assert(rest.no_duplicates());
        lemma_filter_no_dup(rest, p);
        if p(s.last()) {
            if rest.filter(p).contains(s.last()) {
                rest.lemma_filter_contains_rev(p, s.last());
            }
        }
    }
}

/// The identifiers kept when those outside `keep` (or, with `inside` false,
/// those in it) are removed.
pub open spec fn keeps(keep: Seq<Seq<char>>, inside: bool) -> spec_fn(Seq<char>) -> bool {
    |x: Seq<char>| keep.contains(x) == inside
}

/// The observations kept along with the identifiers that `keeps` keeps.
pub open spec fn keeps_rows(keep: Seq<Seq<char>>, inside: bool) -> spec_fn(Obs) -> bool {
    |o: Obs| keep.contains(o.snapshot) == inside
}

/// The committed snapshots that a reconciliation against `remote` keeps.
pub open spec fn reconciled_ids(ids: Seq<Seq<char>>, remote: Seq<Snapshot>) -> Seq<Seq<char>> {
    ids.filter(keeps(ids_of(remote), true))
}

/// The observations that a reconciliation against `remote` keeps.
pub open spec fn reconciled_rows(rows: Seq<Obs>, remote: Seq<Snapshot>) -> Seq<Obs> {
    rows.filter(keeps_rows(ids_of(remote), true))
}

/// The snapshots of `remote` that are not committed, in the catalog's order.
pub open spec fn worklist(ids: Seq<Seq<char>>, remote: Seq<Snapshot>) -> Seq<Snapshot> {
    remote.filter(|s: Snapshot| !ids.contains(s.id@))
}

impl Cache {
    /// The identifiers of the committed snapshots, in order of commit.
    pub closed spec fn ids(&self) -> Seq<Seq<char>> {
        self.snapshots.deep_view()
    }

    /// Every observation of the committed snapshots.
    pub closed spec fn rows(&self) -> Seq<Obs> {
        obs_view(self.observations@)
    }

    /// Identifiers are unique, and each observation belongs to a committed snapshot.
    pub open spec fn wf(&self) -> bool {
        &&& self.ids().no_duplicates()
        &&& forall|k: int| 0 <= k < self.rows().len() ==> self.ids().contains(#[trigger] self.rows()[k].snapshot)
    }

    /// An empty index.
    pub fn new() -> (r: Cache)
        ensures
            r.wf(),
            r.ids() == Seq::<Seq<char>>::empty(),
            r.rows() == Seq::<Obs>::empty(),
    {
        let r = Cache { snapshots: Vec::new(), observations: Vec::new() };
        assert(r.ids() =~= Seq::<Seq<char>>::empty());
        assert(r.rows() =~= Seq::<Obs>::empty());
        r
    }

    /// The identifiers of the committed snapshots.
    pub fn get_snapshots(&self) -> (r: Vec<String>)
        ensures
            r.deep_view() == self.ids(),
    {
        let mut r: Vec<String> = Vec::new();
        let mut i: usize = 0;
        while i < self.snapshots.len()
            invariant
                i <= self.snapshots.len(),
                r.deep_view() == self.snapshots.deep_view().subrange(0, i as int),
            decreases self.snapshots.len() - i,
        {
            let ghost before = r.deep_view();
            r.push(self.snapshots[i].clone());
            assert(r.deep_view() =~= before.push(self.snapshots.deep_view()[i as int]));
            assert(r.deep_view() =~= self.snapshots.deep_view().subrange(0, i + 1));
            i += 1;
        }
        assert(r.deep_view() =~= self.snapshots.deep_view());
        r
    }

    /// Keeps the snapshots whose membership in `keep` is `inside`, with their
    /// observations, and drops the others.
    fn retain_ids(&mut self, keep: &Vec<String>, inside: bool)
        requires
            old(self).wf(),
        ensures
            final(self).wf(),
            final(self).ids() == old(self).ids().filter(keeps(keep.deep_view(), inside)),
            final(self).rows() == old(self).rows().filter(keeps_rows(keep.deep_view(), inside)),
    {
        let ghost p = keeps(keep.deep_view(), inside);
        let ghost q = keeps_rows(keep.deep_view(), inside);
        let ghost ids0 = self.ids();
        let ghost rows0 = self.rows();
        let mut ids: Vec<String> = Vec::new();
        let mut i: usize = 0;
        while i < self.snapshots.len()
            invariant
                i <= self.snapshots.len(),
                self.ids() == ids0,
                p == keeps(keep.deep_view(), inside),
                ids.deep_view() == ids0.subrange(0, i as int).filter(p),
            decreases self.snapshots.len() - i,
        {
            let ghost before = ids.deep_view();
            assert(ids0[i as int] == self.snapshots@[i as int]@);
            let keep_it = contains_id(keep, &self.snapshots[i]) == inside;
            assert(keep_it == p(ids0[i as int]));
            if keep_it {
                ids.push(self.snapshots[i].clone());
                assert(ids.deep_view() =~= before.push(ids0[i as int]));
            }
            proof {
                reveal(Seq::filter);
                assert(ids0.subrange(0, i + 1).drop_last() =~= ids0.subrange(0, i as int));
                assert(ids0.subrange(0, i + 1).last() == ids0[i as int]);
                assert(ids0.subrange(0, i + 1).filter(p) == if p(ids0[i as int]) {
                    ids0.subrange(0, i as int).filter(p).push(ids0[i as int])
                } else {
                    ids0.subrange(0, i as int).filter(p)
                });
            }
            i += 1;
        }
        assert(ids0.subrange(0, ids0.len() as int) =~= ids0);
        let mut rows: Vec<Observation> = Vec::new();
        let mut k: usize = 0;
        while k < self.observations.len()
            invariant
                k <= self.observations.len(),
                self.rows() == rows0,
                q == keeps_rows(keep.deep_view(), inside),
                obs_view(rows@) == rows0.subrange(0, k as int).filter(q),
            decreases self.observations.len() - k,
        {
            let ghost before = obs_view(rows@);
            assert(rows0[k as int] == self.observations@[k as int]@);
            let keep_it = contains_id(keep, &self.observations[k].snapshot) == inside;
            assert(keep_it == q(rows0[k as int]));
            if keep_it {
                let o = self.observations[k].copy();
                rows.push(o);
                assert(obs_view(rows@) =~= before.push(rows0[k as int]));
            }
            proof {
                reveal(Seq::filter);
                assert(rows0.subrange(0, k + 1).drop_last() =~= rows0.subrange(0, k as int));
                assert(rows0.subrange(0, k + 1).last() == rows0[k as int]);
                assert(rows0.subrange(0, k + 1).filter(q) == if q(rows0[k as int]) {
                    rows0.subrange(0, k as int).filter(q).push(rows0[k as int])
                } else {
                    rows0.subrange(0, k as int).filter(q)
                });
            }
            k += 1;
        }
        assert(rows0.subrange(0, rows0.len() as int) =~= rows0);
        self.snapshots = ids;
        self.observations = rows;
        proof {
            lemma_filter_no_dup(ids0, p);
            assert forall|k: int| 0 <= k < self.rows().len() implies self.ids().contains(#[trigger] self.rows()[k].snapshot) by {
                reveal(Seq::filter);
                let o = self.rows()[k];
                assert(rows0.filter(q).contains(o));
                rows0.lemma_filter_contains_rev(q, o);
                let k0 = choose|k0: int| 0 <= k0 < rows0.len() && rows0[k0] == o;
                assert(ids0.contains(rows0[k0].snapshot));
                let j = choose|j: int| 0 <= j < ids0.len() && ids0[j] == o.snapshot;
                assert(q(o));
                ids0.lemma_filter_contains(p, j);
            }
        }
    }

    /// Removes snapshot `id` and every observation of it.
    pub fn delete_snapshot(&mut self, id: &str)
        requires
            old(self).wf(),
        ensures
            final(self).wf(),
            final(self).ids() == old(self).ids().filter(keeps(seq![id@], false)),
            final(self).rows() == old(self).rows().filter(keeps_rows(seq![id@], false)),
    {
        let mut gone: Vec<String> = Vec::new();
        gone.push(id.to_owned());
        assert(gone.deep_view() =~= seq![id@]);
        self.retain_ids(&gone, false);
    }

    /// Opens the ingestion of snapshot `id`; the index is not touched.
    pub fn start_snapshot(&self, id: &str) -> (r: Transaction)
        ensures
            r.wf(),
            r.id() == id@,
            r.rows() == Seq::<Obs>::empty(),
    {
        let r = Transaction { snapshot: id.to_owned(), pending: Vec::new() };
        assert(r.rows() =~= Seq::<Obs>::empty());
        r
    }

    /// Commits a listing: its snapshot and all its observations become visible
    /// together, replacing what was committed before under the same identifier.
    pub fn finish_snapshot(&mut self, txn: Transaction)
        requires
            old(self).wf(),
            txn.wf(),
        ensures
            final(self).wf(),
            final(self).ids() == old(self).ids().filter(keeps(seq![txn.id()], false)).push(txn.id()),
            final(self).rows() == old(self).rows().filter(keeps_rows(seq![txn.id()], false)) + txn.rows(),
    {
        let ghost trows = txn.rows();
        assert(forall|k: int| 0 <= k < trows.len() ==> (#[trigger] trows[k]).snapshot == txn.id());
        let Transaction { snapshot, mut pending } = txn;
        assert(obs_view(pending@) == trows && snapshot@ == txn.id());
        let mut gone: Vec<String> = Vec::new();
        gone.push(snapshot.clone());
        assert(gone.deep_view() =~= seq![snapshot@]);
        self.retain_ids(&gone, false);
        let ghost ids1 = self.ids();
        let ghost rows1 = self.rows();
        let ghost added = obs_view(pending@);
        proof {
            if ids1.contains(snapshot@) {
                let j = choose|j: int| 0 <= j < ids1.len() && ids1[j] == snapshot@;
                old(self).ids().lemma_filter_pred(keeps(seq![snapshot@], false), j);
                assert(seq![snapshot@][0] == snapshot@);
            }
        }
        self.snapshots.push(snapshot);
        self.observations.append(&mut pending);
        assert(self.ids() =~= ids1.push(snapshot@));
        assert(self.rows() =~= rows1 + added);
        assert forall|k: int| 0 <= k < self.rows().len() implies self.ids().contains(#[trigger] self.rows()[k].snapshot) by {
            if k < rows1.len() {
                assert(self.rows()[k] == rows1[k]);
                let j = choose|j: int| 0 <= j < ids1.len() && ids1[j] == rows1[k].snapshot;
                assert(self.ids()[j] == ids1[j]);
            } else {
                assert(self.rows()[k] == added[k - rows1.len()]);
                assert(trows[k - rows1.len()].snapshot == snapshot@);
                assert(self.ids()[ids1.len() as int] == snapshot@);
            }
        }
    }

    /// For each direct child of directory `path`, the largest size observed at
    /// or beneath it over the committed snapshots. A path that names a file has
    /// no children, and gives an empty answer.
    pub fn get_max_file_sizes(&self, path: &str) -> (r: Vec<(String, u64)>)
        ensures
            is_max_sizes(self.rows(), components_of(path@), r.deep_view()),
    {
        let dir = path_components(path);
        let ghost d = dir.deep_view();
        let ghost rows = self.rows();
        let mut out: Vec<(String, u64)> = Vec::new();
        let mut k: usize = 0;
        assert(rows.subrange(0, 0) =~= Seq::<Obs>::empty());
        assert(out.deep_view() =~= Seq::<(Seq<char>, u64)>::empty());
        while k < self.observations.len()
            invariant
                k <= self.observations.len(),
                rows == self.rows(),
                d == dir.deep_view(),
                is_max_sizes(rows.subrange(0, k as int), d, out.deep_view()),
            decreases self.observations.len() - k,
        {
            let o = &self.observations[k];
            let ghost ov = o@;
            let ghost before = out.deep_view();
            assert(rows[k as int] == ov);
            assert(rows.subrange(0, k + 1) =~= rows.subrange(0, k as int).push(ov));
            if lies_beneath(&o.path, &dir) {
                let c = &o.path[dir.len()];
                assert(c@ == child_name(ov, d));
                match find_child(&out, c) {
                    Some(i) => {
                        proof {
                            lemma_max_sizes_update(rows.subrange(0, k as int), d, before, ov, i as int);
                        }
                        if out[i].1 < o.size {
                            out.set(i, (c.clone(), o.size));
                            assert(out.deep_view() =~= before.update(i as int, (before[i as int].0, ov.size)));
                        }
                    },
                    None => {
                        proof {
                            lemma_max_sizes_add(rows.subrange(0, k as int), d, before, ov);
                        }
                        out.push((c.clone(), o.size));
                        assert(out.deep_view() =~= before.push((child_name(ov, d), ov.size)));
                    },
                }
            } else {
                proof {
                    lemma_max_sizes_skip(rows.subrange(0, k as int), d, before, ov);
                }
            }
            k += 1;
        }
        assert(rows.subrange(0, rows.len() as int) =~= rows);
        out
    }

    /// Aligns the index with the remote catalog: removes every committed
    /// snapshot that the catalog no longer lists, with its observations, and
    /// returns the catalog's snapshots that are not committed, in its order.
    pub fn reconcile(&mut self, remote: &Vec<Snapshot>) -> (r: Vec<Snapshot>)
        requires
            old(self).wf(),
        ensures
            final(self).wf(),
            final(self).ids() == reconciled_ids(old(self).ids(), remote@),
            final(self).rows() == reconciled_rows(old(self).rows(), remote@),
            r@ == worklist(old(self).ids(), remote@),
    {
        let ghost ids0 = self.ids();
        let ghost rv = remote@;
        let mut remote_ids: Vec<String> = Vec::new();
        let mut j: usize = 0;
        while j < remote.len()
            invariant
                j <= remote.len(),
                rv == remote@,
                remote_ids.deep_view() == ids_of(rv).subrange(0, j as int),
            decreases remote.len() - j,
        {
            let ghost before = remote_ids.deep_view();
            remote_ids.push(remote[j].id.clone());
            assert(remote_ids.deep_view() =~= before.push(rv[j as int].id@));
            assert(remote_ids.deep_view() =~= ids_of(rv).subrange(0, j + 1));
            j += 1;
        }
        assert(remote_ids.deep_view() =~= ids_of(rv));
        self.retain_ids(&remote_ids, true);
        let ghost ids1 = self.ids();
        let ghost w = |s: Snapshot| !ids0.contains(s.id@);
        let mut out: Vec<Snapshot> = Vec::new();
        let mut j: usize = 0;
        assert(rv.subrange(0, 0).filter(w) =~= Seq::<Snapshot>::empty()) by {
            reveal(Seq::filter);
        }
        while j < remote.len()
            invariant
                j <= remote.len(),
                rv == remote@,
                ids1 == self.ids(),
                ids1 == ids0.filter(keeps(ids_of(rv), true)),
                w == (|s: Snapshot| !ids0.contains(s.id@)),
                out@ == rv.subrange(0, j as int).filter(w),
            decreases remote.len() - j,
        {
            let fresh = !contains_id(&self.snapshots, &remote[j].id);
            proof {
                let x = rv[j as int].id@;
                let p = keeps(ids_of(rv), true);
                assert(ids_of(rv)[j as int] == x);
                if ids1.contains(x) {
                    ids0.lemma_filter_contains_rev(p, x);
                }
                if ids0.contains(x) {
                    let i = choose|i: int| 0 <= i < ids0.len() && ids0[i] == x;
                    ids0.lemma_filter_contains(p, i);
                }
                assert(fresh == w(rv[j as int]));
            }
            if fresh {
                out.push(remote[j].copy());
            }
            proof {
                reveal(Seq::filter);
                assert(rv.subrange(0, j + 1).drop_last() =~= rv.subrange(0, j as int));
                assert(rv.subrange(0, j + 1).last() == rv[j as int]);
                assert(rv.subrange(0, j + 1).filter(w) == if w(rv[j as int]) {
                    rv.subrange(0, j as int).filter(w).push(rv[j as int])
                } else {
                    rv.subrange(0, j as int).filter(w)
                });
            }
            j += 1;
        }
        assert(rv.subrange(0, rv.len() as int) =~= rv);
        out
    }

    /// Every observation, copied out, to be stored.
    pub fn get_observations(&self) -> (r: Vec<Observation>)
        ensures
            obs_view(r@) == self.rows(),
    {
        let mut r: Vec<Observation> = Vec::new();
        let mut k: usize = 0;
        while k < self.observations.len()
            invariant
                k <= self.observations.len(),
                obs_view(r@) == self.rows().subrange(0, k as int),
            decreases self.observations.len() - k,
        {
            let ghost before = obs_view(r@);
            r.push(self.observations[k].copy());
            assert(obs_view(r@) =~= before.push(self.rows()[k as int]));
            assert(obs_view(r@) =~= self.rows().subrange(0, k + 1));
            k += 1;
        }
        assert(obs_view(r@) =~= self.rows());
        r
    }

    /// An index rebuilt from stored parts: some exactly when the identifiers
    /// are unique and every observation belongs to one of them.
    pub fn restore(snapshots: Vec<String>, observations: Vec<Observation>) -> (r: Option<Cache>)
        ensures
            match r {
                Some(c) => c.wf() && c.ids() == snapshots.deep_view() && c.rows() == obs_view(observations@),
                None => !(snapshots.deep_view().no_duplicates() && forall|k: int|
                    0 <= k < observations@.len() ==> snapshots.deep_view().contains(
                        #[trigger] obs_view(observations@)[k].snapshot,
                    )),
            },
    {
        let ghost ids = snapshots.deep_view();
        let mut i: usize = 0;
        while i < snapshots.len()
            invariant
                i <= snapshots.len(),
                ids == snapshots.deep_view(),
                forall|a: int, b: int| 0 <= a < i && a < b < ids.len() ==> ids[a] != ids[b],
            decreases snapshots.len() - i,
        {
            let mut j: usize = i + 1;
            while j < snapshots.len()
                invariant
                    i < j <= snapshots.len(),
                    ids == snapshots.deep_view(),
                    forall|b: int| i < b < j ==> ids[i as int] != ids[b],
                    forall|a: int, b: int| 0 <= a < i && a < b < ids.len() ==> ids[a] != ids[b],
                decreases snapshots.len() - j,
            {
                if snapshots[i] == snapshots[j] {
                    assert(ids[i as int] == ids[j as int]);
                    return None;
                }
                j += 1;
            }
            i += 1;
        }
        assert(ids.no_duplicates());
        let ghost rows = obs_view(observations@);
        let mut k: usize = 0;
        while k < observations.len()
            invariant
                k <= observations.len(),
                ids == snapshots.deep_view(),
                rows == obs_view(observations@),
                forall|m: int| 0 <= m < k ==> ids.contains(#[trigger] rows[m].snapshot),
            decreases observations.len() - k,
        {
            assert(rows[k as int].snapshot == observations@[k as int].snapshot@);
            if !contains_id(&snapshots, &observations[k].snapshot) {
                return None;
            }
            k += 1;
        }
        Some(Cache { snapshots, observations })
    }
}

/// Filtering by a predicate that every element meets keeps the sequence whole.
proof fn lemma_filter_all_kept<A>(s: Seq<A>, p: spec_fn(A) -> bool)
    requires
        forall|i: int| 0 <= i < s.len() ==> p(#[trigger] s[i]),
    ensures
        s.filter(p) == s,
    decreases s.len(),
{
    reveal(Seq::filter);
    if s.len() > 0 {
        lemma_filter_all_kept(s.drop_last(), p);
        assert(s.drop_last().push(s.last()) =~= s);
    }
}

/// Each snapshot's identifier is among the identifiers of its list.
proof fn lemma_ids_of_contains(remote: Seq<Snapshot>, s: Snapshot)
    requires
        remote.contains(s),
    ensures
        ids_of(remote).contains(s.id@),
{
    let i = choose|i: int| 0 <= i < remote.len() && remote[i] == s;
    assert(ids_of(remote)[i] == s.id@);
}

/// Reconciliation is idempotent: once the stale snapshots are removed and the
/// worklist is committed, reconciling again against the same catalog removes
/// no snapshot and no observation, and leaves nothing to fetch.
pub proof fn lemma_reconcile_idempotent(
    ids: Seq<Seq<char>>,
    rows: Seq<Obs>,
    remote: Seq<Snapshot>,
    fetched: Seq<Obs>,
)
    requires
        forall|k: int| 0 <= k < fetched.len() ==> ids_of(worklist(ids, remote)).contains(#[trigger] fetched[k].snapshot),
    ensures
        ({
            let ids2 = reconciled_ids(ids, remote) + ids_of(worklist(ids, remote));
            let rows2 = reconciled_rows(rows, remote) + fetched;
            &&& reconciled_ids(ids2, remote) == ids2
            &&& reconciled_rows(rows2, remote) == rows2
            &&& worklist(ids2, remote) == Seq::<Snapshot>::empty()
        }),
{
    let p = keeps(ids_of(remote), true);
    let q = keeps_rows(ids_of(remote), true);
    let w = |s: Snapshot| !ids.contains(s.id@);
    let wl = worklist(ids, remote);
    let kept = reconciled_ids(ids, remote);
    let ids2 = kept + ids_of(wl);
    let rows2 = reconciled_rows(rows, remote) + fetched;
    assert forall|x: Seq<char>| ids_of(wl).contains(x) implies ids_of(remote).contains(x) by {
        let i = choose|i: int| 0 <= i < ids_of(wl).len() && ids_of(wl)[i] == x;
        assert(wl.contains(wl[i]));
        remote.lemma_filter_contains_rev(w, wl[i]);
        lemma_ids_of_contains(remote, wl[i]);
    }
    assert forall|i: int| 0 <= i < ids2.len() implies p(#[trigger] ids2[i]) by {
        if i < kept.len() {
            ids.lemma_filter_pred(p, i);
        } else {
            assert(ids_of(wl).contains(ids_of(wl)[i - kept.len()]));
        }
    }
    lemma_filter_all_kept(ids2, p);
    let rr = reconciled_rows(rows, remote);
    assert forall|k: int| 0 <= k < rows2.len() implies q(#[trigger] rows2[k]) by {
        if k < rr.len() {
            rows.lemma_filter_pred(q, k);
        } else {
            assert(fetched[k - rr.len()] == rows2[k]);
        }
    }
    lemma_filter_all_kept(rows2, q);
    let w2 = |s: Snapshot| !ids2.contains(s.id@);
    assert forall|i: int| 0 <= i < remote.len() implies !w2(#[trigger] remote[i]) by {
        let s = remote[i];
        lemma_ids_of_contains(remote, s);
        if ids.contains(s.id@) {
            let j = choose|j: int| 0 <= j < ids.len() && ids[j] == s.id@;
            ids.lemma_filter_contains(p, j);
            let m = choose|m: int| 0 <= m < kept.len() && kept[m] == s.id@;
            assert(ids2[m] == s.id@);
        } else {
            remote.lemma_filter_contains(w, i);
            let m = choose|m: int| 0 <= m < wl.len() && wl[m] == s;
            assert(ids_of(wl)[m] == s.id@);
            assert(ids2[kept.len() + m] == s.id@);
        }
    }
    remote.lemma_all_neg_filter_empty(w2);
}

/// Reconciling against a catalog that does not list `gone` removes that
/// snapshot and every observation of it, and keeps each observation of a
/// listed snapshot.
pub proof fn lemma_reconcile_removes(
    ids: Seq<Seq<char>>,
    rows: Seq<Obs>,
    remote: Seq<Snapshot>,
    gone: Seq<char>,
)
    requires
        !ids_of(remote).contains(gone),
    ensures
        !reconciled_ids(ids, remote).contains(gone),
        forall|k: int|
            0 <= k < reconciled_rows(rows, remote).len() ==> (#[trigger] reconciled_rows(rows, remote)[k]).snapshot
                != gone,
        forall|k: int|
            0 <= k < rows.len() && ids_of(remote).contains(#[trigger] rows[k].snapshot) ==> reconciled_rows(
                rows,
                remote,
            ).contains(rows[k]),
{
    let p = keeps(ids_of(remote), true);
    let q = keeps_rows(ids_of(remote), true);
    if reconciled_ids(ids, remote).contains(gone) {
        let i = choose|i: int| 0 <= i < ids.filter(p).len() && ids.filter(p)[i] == gone;
        ids.lemma_filter_pred(p, i);
    }
    assert forall|k: int| 0 <= k < reconciled_rows(rows, remote).len() implies (#[trigger] reconciled_rows(
        rows,
        remote,
    )[k]).snapshot != gone by {
        rows.lemma_filter_pred(q, k);
    }
    assert forall|k: int| 0 <= k < rows.len() && ids_of(remote).contains(#[trigger] rows[k].snapshot) implies reconciled_rows(
        rows,
        remote,
    ).contains(rows[k]) by {
        rows.lemma_filter_contains(q, k);
    }
}

/// Reconciling an index whose snapshots the catalog all lists removes
/// nothing, and the worklist holds exactly the catalog's snapshots that are
/// not committed.
pub proof fn lemma_reconcile_fetches(ids: Seq<Seq<char>>, rows: Seq<Obs>, remote: Seq<Snapshot>)
    requires
        forall|i: int| 0 <= i < ids.len() ==> ids_of(remote).contains(#[trigger] ids[i]),
        forall|k: int| 0 <= k < rows.len() ==> ids.contains(#[trigger] rows[k].snapshot),
    ensures
        reconciled_ids(ids, remote) == ids,
        reconciled_rows(rows, remote) == rows,
        forall|s: Snapshot|
            #[trigger] worklist(ids, remote).contains(s) <==> remote.contains(s) && !ids.contains(s.id@),
{
    let p = keeps(ids_of(remote), true);
    let q = keeps_rows(ids_of(remote), true);
    let w = |s: Snapshot| !ids.contains(s.id@);
    assert forall|i: int| 0 <= i < ids.len() implies p(#[trigger] ids[i]) by {}
    lemma_filter_all_kept(ids, p);
    assert forall|k: int| 0 <= k < rows.len() implies q(#[trigger] rows[k]) by {
        let j = choose|j: int| 0 <= j < ids.len() && ids[j] == rows[k].snapshot;
        assert(p(ids[j]));
    }
    lemma_filter_all_kept(rows, q);
    assert forall|s: Snapshot| #[trigger] worklist(ids, remote).contains(s) <==> remote.contains(s) && !ids.contains(s.id@) by {
        if worklist(ids, remote).contains(s) {
            remote.lemma_filter_contains_rev(w, s);
            let i = choose|i: int| 0 <= i < remote.filter(w).len() && remote.filter(w)[i] == s;
            remote.lemma_filter_pred(w, i);
        }
        if remote.contains(s) && !ids.contains(s.id@) {
            let i = choose|i: int| 0 <= i < remote.len() && remote[i] == s;
            remote.lemma_filter_contains(w, i);
        }
    }
}

/// A snapshot whose listing was never committed is fetched again: while the
/// catalog lists it and the index does not hold it, the worklist has it.
pub proof fn lemma_uncommitted_is_refetched(ids: Seq<Seq<char>>, remote: Seq<Snapshot>, s: Snapshot)
    requires
        remote.contains(s),
        !ids.contains(s.id@),
    ensures
        worklist(ids, remote).contains(s),
{
    let w = |x: Snapshot| !ids.contains(x.id@);
    let i = choose|i: int| 0 <= i < remote.len() && remote[i] == s;
    remote.lemma_filter_contains(w, i);
}

/// Committing the listing of a snapshot that the index does not hold keeps
/// every committed snapshot and every observation as they were: the new
/// snapshot and its observations are only added after them.
pub proof fn lemma_finish_fresh(ids: Seq<Seq<char>>, rows: Seq<Obs>, id: Seq<char>)
    requires
        !ids.contains(id),
        forall|k: int| 0 <= k < rows.len() ==> ids.contains(#[trigger] rows[k].snapshot),
    ensures
        ids.filter(keeps(seq![id], false)) == ids,
        rows.filter(keeps_rows(seq![id], false)) == rows,
{
    let p = keeps(seq![id], false);
    let q = keeps_rows(seq![id], false);
    assert forall|x: Seq<char>| x != id implies !seq![id].contains(x) by {
        if seq![id].contains(x) {
            let i = choose|i: int| 0 <= i < 1 && seq![id][i] == x;
            assert(seq![id][0] == id);
        }
    }
    assert forall|i: int| 0 <= i < ids.len() implies p(#[trigger] ids[i]) by {
        assert(ids[i] != id);
    }
    lemma_filter_all_kept(ids, p);
    assert forall|k: int| 0 <= k < rows.len() implies q(#[trigger] rows[k]) by {
        if rows[k].snapshot == id {
            assert(ids.contains(rows[k].snapshot));
        }
    }
    lemma_filter_all_kept(rows, q);
}

/// `r` lists child `e.0` with a size of at least `e.1`.
pub open spec fn is_covered(r: Seq<(Seq<char>, u64)>, e: (Seq<char>, u64)) -> bool {
    exists|j: int| 0 <= j < r.len() && (#[trigger] r[j]).0 == e.0 && e.1 <= r[j].1
}

/// The aggregation is monotonic: when every observation of `small` is also
/// one of `large`, each child that the answer over `small` lists is listed over
/// `large` too, with a size at least as large. Committing a listing adds
/// observations, and reconciliation only removes some, so the reported size
/// of a child can only grow with the first and only shrink with the second.
pub proof fn lemma_max_sizes_monotone(
    small: Seq<Obs>,
    large: Seq<Obs>,
    dir: Seq<Seq<char>>,
    r_small: Seq<(Seq<char>, u64)>,
    r_large: Seq<(Seq<char>, u64)>,
)
    requires
        forall|k: int| 0 <= k < small.len() ==> large.contains(#[trigger] small[k]),
        is_max_sizes(small, dir, r_small),
        is_max_sizes(large, dir, r_large),
    ensures
        forall|i: int| 0 <= i < r_small.len() ==> is_covered(r_large, #[trigger] r_small[i]),
{
    assert forall|i: int| 0 <= i < r_small.len() implies is_covered(r_large, #[trigger] r_small[i]) by {
        assert(is_witnessed(small, dir, r_small[i]));
        let k = choose|k: int|
            0 <= k < small.len() && is_beneath(#[trigger] small[k], dir) && child_name(small[k], dir)
                == r_small[i].0 && small[k].size == r_small[i].1;
        assert(large.contains(small[k]));
        let m = choose|m: int| 0 <= m < large.len() && large[m] == small[k];
        assert(is_beneath(large[m], dir));
        assert(is_listed(r_large, child_name(large[m], dir)));
        let j = choose|j: int| 0 <= j < r_large.len() && (#[trigger] r_large[j]).0 == child_name(large[m], dir);
        assert(is_bound(large, dir, r_large[j]));
        assert(r_small[i].1 <= r_large[j].1);
    }
}

/// What the index answers follows from what it holds: two answers for the
/// same directory over the same observations list the same children with the
/// same sizes.
pub proof fn lemma_max_sizes_unique(
    rows: Seq<Obs>,
    dir: Seq<Seq<char>>,
    r1: Seq<(Seq<char>, u64)>,
    r2: Seq<(Seq<char>, u64)>,
)
    requires
        is_max_sizes(rows, dir, r1),
        is_max_sizes(rows, dir, r2),
    ensures
        forall|i: int| 0 <= i < r1.len() ==> r2.contains(#[trigger] r1[i]),
        r1.len() == r2.len(),
{
    assert forall|i: int| 0 <= i < r1.len() implies r2.contains(#[trigger] r1[i]) by {
        lemma_answer_entry_shared(rows, dir, r1, r2, i);
    }
    assert forall|i: int| 0 <= i < r2.len() implies r1.contains(#[trigger] r2[i]) by {
        lemma_answer_entry_shared(rows, dir, r2, r1, i);
    }
    lemma_same_entries_same_len(r1, r2);
}

/// One entry of one answer is an entry of the other.
proof fn lemma_answer_entry_shared(
    rows: Seq<Obs>,
    dir: Seq<Seq<char>>,
    r1: Seq<(Seq<char>, u64)>,
    r2: Seq<(Seq<char>, u64)>,
    i: int,
)
    requires
        is_max_sizes(rows, dir, r1),
        is_max_sizes(rows, dir, r2),
        0 <= i < r1.len(),
    ensures
        r2.contains(r1[i]),
{
    assert(is_witnessed(rows, dir, r1[i]));
    let k = choose|k: int|
        0 <= k < rows.len() && is_beneath(#[trigger] rows[k], dir) && child_name(rows[k], dir) == r1[i].0
            && rows[k].size == r1[i].1;
    let j = choose|j: int| 0 <= j < r2.len() && (#[trigger] r2[j]).0 == child_name(rows[k], dir);
    assert(is_bound(rows, dir, r2[j]));
    assert(is_witnessed(rows, dir, r2[j]));
    let k2 = choose|k2: int|
        0 <= k2 < rows.len() && is_beneath(#[trigger] rows[k2], dir) && child_name(rows[k2], dir) == r2[j].0
            && rows[k2].size == r2[j].1;
    assert(is_bound(rows, dir, r1[i]));
    assert(r2[j] == r1[i]);
}

/// Two sequences without repeated first components, each of whose entries is
/// an entry of the other, have the same length.
proof fn lemma_same_entries_same_len(r1: Seq<(Seq<char>, u64)>, r2: Seq<(Seq<char>, u64)>)
    requires
        forall|i: int, j: int| 0 <= i < j < r1.len() ==> (#[trigger] r1[i]).0 != (#[trigger] r1[j]).0,
        forall|i: int, j: int| 0 <= i < j < r2.len() ==> (#[trigger] r2[i]).0 != (#[trigger] r2[j]).0,
        forall|i: int| 0 <= i < r1.len() ==> r2.contains(#[trigger] r1[i]),
        forall|i: int| 0 <= i < r2.len() ==> r1.contains(#[trigger] r2[i]),
    ensures
        r1.len() == r2.len(),
{
    assert(r1.no_duplicates()) by {
        assert forall|i: int, j: int| 0 <= i < r1.len() && 0 <= j < r1.len() && i != j implies r1[i] != r1[j] by {
            if i < j {
                assert(r1[i].0 != r1[j].0);
            } else {
                assert(r1[j].0 != r1[i].0);
            }
        }
    }
    assert(r2.no_duplicates()) by {
        assert forall|i: int, j: int| 0 <= i < r2.len() && 0 <= j < r2.len() && i != j implies r2[i] != r2[j] by {
            if i < j {
                assert(r2[i].0 != r2[j].0);
            } else {
                assert(r2[j].0 != r2[i].0);
            }
        }
    }
    assert(r1.to_set() =~= r2.to_set()) by {
        assert forall|x| r1.to_set().contains(x) implies r2.to_set().contains(x) by {
            let i = choose|i: int| 0 <= i < r1.len() && r1[i] == x;
            assert(r2.contains(r1[i]));
        }
        assert forall|x| r2.to_set().contains(x) implies r1.to_set().contains(x) by {
            let i = choose|i: int| 0 <= i < r2.len() && r2[i] == x;
            assert(r1.contains(r2[i]));
        }
    }
    r1.unique_seq_to_set();
    r2.unique_seq_to_set();
}

} // verus!
