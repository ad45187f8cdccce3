//! Index records, resolved nodes, root selection and the dependency closure.
use vstd::prelude::*;
use crate::stmt::{DepStmt, StmtV, parse_depends, deps_spec, views};
use crate::version::{compare_versions, lemma_version_order, version_cmp};

verus! {

/// One record of a package index.
#[derive(Debug)]
pub struct Package {
    pub package: String,
    pub version: String,
    pub depends: Option<String>,
}

impl View for Package {
    /// Name, version and depends text; an absent depends field reads as empty.
    type V = (Seq<char>, Seq<char>, Seq<char>);

    open spec fn view(&self) -> (Seq<char>, Seq<char>, Seq<char>) {
        (
            self.package@,
            self.version@,
            match self.depends {
                Some(d) => d@,
                None => Seq::empty(),
            },
        )
    }
}

/// A package of the closure at its chosen version, with its dependencies.
#[derive(Debug)]
pub struct Pkg {
    pub name: String,
    pub version: String,
    pub deps: Vec<DepStmt>,
}

pub type PkgV = (Seq<char>, Seq<char>, Seq<StmtV>);

impl View for Pkg {
    type V = PkgV;

    open spec fn view(&self) -> PkgV {
        (self.name@, self.version@, views(self.deps@))
    }
}

/// The node that an index record resolves to.
pub open spec fn node_spec(p: (Seq<char>, Seq<char>, Seq<char>)) -> PkgV {
    (p.0, p.1, deps_spec(p.2))
}

pub open spec fn pkg_views(v: Seq<Pkg>) -> Seq<PkgV> {
    v.map_values(|p: Pkg| p@)
}

pub open spec fn index_views(v: Seq<Package>) -> Seq<(Seq<char>, Seq<char>, Seq<char>)> {
    v.map_values(|p: Package| p@)
}

/// Position of the first record named `n` at or after `q`, or the length.
pub open spec fn first_named_from(idx: Seq<(Seq<char>, Seq<char>, Seq<char>)>, n: Seq<char>, q: int) -> int
    decreases idx.len() - q,
{
    if 0 <= q < idx.len() && idx[q].0 != n {
        first_named_from(idx, n, q + 1)
    } else {
        q
    }
}

pub open spec fn first_named(idx: Seq<(Seq<char>, Seq<char>, Seq<char>)>, n: Seq<char>) -> int {
    first_named_from(idx, n, 0)
}

pub open spec fn has_name(v: Seq<PkgV>, n: Seq<char>) -> bool {
    exists|j: int| 0 <= j < v.len() && (#[trigger] v[j]).0 == n
}

/// No two nodes share a package name.
pub open spec fn names_distinct(v: Seq<PkgV>) -> bool {
    forall|i: int, j: int| 0 <= i < j < v.len() ==> (#[trigger] v[i]).0 != (#[trigger] v[j]).0
}

/// Every node after the first is the node of the first index record that
/// carries its name.
pub open spec fn from_index(v: Seq<PkgV>, idx: Seq<(Seq<char>, Seq<char>, Seq<char>)>) -> bool {
    forall|j: int|
        1 <= j < v.len() ==> first_named(idx, (#[trigger] v[j]).0) < idx.len()
            && v[j] == node_spec(idx[first_named(idx, v[j].0)])
}

/// Every node after the first is the target of a dependency of an earlier node.
pub open spec fn reached(v: Seq<PkgV>) -> bool {
    forall|j: int|
        1 <= j < v.len() ==> exists|i: int, e: int|
            0 <= i < j && 0 <= e < v[i].2.len() && (#[trigger] v[i].2[e]).0 == (#[trigger] v[j]).0
}

/// Every dependency of the first `upto` nodes whose target the index knows
/// names some node.
pub open spec fn closed_upto(v: Seq<PkgV>, idx: Seq<(Seq<char>, Seq<char>, Seq<char>)>, upto: int) -> bool {
    forall|i: int, e: int|
        0 <= i < upto && 0 <= e < v[i].2.len() && first_named(idx, (#[trigger] v[i].2[e]).0)
            < idx.len() ==> has_name(v, v[i].2[e].0)
}

/// The closure of `root` over `idx`: the root first, no name twice, every
/// other node the first index record of its name and reached from an earlier
/// node, and every dependency that the index can serve is served.
pub open spec fn is_closure(v: Seq<PkgV>, idx: Seq<(Seq<char>, Seq<char>, Seq<char>)>, root: PkgV) -> bool {
    &&& v.len() >= 1
    &&& v[0] == root
    &&& names_distinct(v)
    &&& from_index(v, idx)
    &&& reached(v)
    &&& closed_upto(v, idx, v.len() as int)
}

pub open spec fn count_true(s: Seq<bool>) -> nat
    decreases s.len(),
{
    if s.len() == 0 {
        0
    } else {
        count_true(s.drop_last()) + if s.last() { 1nat } else { 0nat }
    }
}

proof fn lemma_count_true_bound(s: Seq<bool>)
    ensures
        count_true(s) <= s.len(),
    decreases s.len(),
{
    if s.len() > 0 {
        lemma_count_true_bound(s.drop_last());
    }
}

proof fn lemma_count_true_set(s: Seq<bool>, q: int)
    requires
        0 <= q < s.len(),
        !s[q],
    ensures
        count_true(s.update(q, true)) == count_true(s) + 1,
    decreases s.len(),
{
    let t = s.update(q, true);
    if q < s.len() - 1 {
        lemma_count_true_set(s.drop_last(), q);
        assert(t.drop_last() =~= s.drop_last().update(q, true));
    } else {
        assert(t.drop_last() =~= s.drop_last());
    }
}

/// The node of an index record: its name, its version and its parsed
/// depends field.
pub fn node_of(query_pkg: &Package) -> (r: Pkg)
    ensures
        r@ == node_spec(query_pkg@),
{
    let deps = match &query_pkg.depends {
        Some(d) => parse_depends(d.as_str()),
        None => {
            let e: Vec<DepStmt> = Vec::new();
            assert(views(e@) =~= deps_spec(Seq::<char>::empty())) by {
                reveal_with_fuel(crate::stmt::deps_from, 2);
            }
            e
        },
    };
    Pkg { name: query_pkg.package.clone(), version: query_pkg.version.clone(), deps }
}

/// Resolves an index record to a node and appends it.
pub fn insert_pkg(query_pkg: &Package, v: &mut Vec<Pkg>)
    ensures
        pkg_views(final(v)@) == pkg_views(old(v)@).push(node_spec(query_pkg@)),
{
    let n = node_of(query_pkg);
    v.push(n);
    assert(pkg_views(final(v)@) =~= pkg_views(old(v)@).push(node_spec(query_pkg@)));
}

fn find_node(v: &Vec<Pkg>, n: &String) -> (r: bool)
    ensures
        r == has_name(pkg_views(v@), n@),
{
    let mut j: usize = 0;
    while j < v.len()
        invariant
            j <= v@.len(),
            forall|k: int| 0 <= k < j ==> v@[k].name@ != n@,
        decreases v@.len() - j,
    {
        if v[j].name == *n {
            assert(pkg_views(v@)[j as int].0 == n@);
            return true;
        }
        j = j + 1;
    }
    proof {
        if has_name(pkg_views(v@), n@) {
            let k = choose|k: int| 0 <= k < v@.len() && (#[trigger] pkg_views(v@)[k]).0 == n@;
            assert(v@[k].name@ == n@);
        }
    }
    false
}

fn find_first_named(index: &Vec<Package>, n: &String) -> (r: usize)
    ensures
        r as int == first_named(index_views(index@), n@),
        r <= index@.len(),
{
    let ghost idx = index_views(index@);
    let mut q: usize = 0;
    while q < index.len() && index[q].package != *n
        invariant
            q <= index@.len(),
            idx == index_views(index@),
            first_named(idx, n@) == first_named_from(idx, n@, q as int),
        decreases index@.len() - q,
    {
        assert(idx[q as int].0 == index@[q as int].package@);
        q = q + 1;
    }
    proof {
        if q < index.len() {
            assert(idx[q as int].0 == index@[q as int].package@);
        }
    }
    q
}

proof fn lemma_first_named(idx: Seq<(Seq<char>, Seq<char>, Seq<char>)>, n: Seq<char>, q: int)
    requires
        0 <= q <= idx.len(),
    ensures
        q <= first_named_from(idx, n, q) <= idx.len(),
        first_named_from(idx, n, q) < idx.len() ==> idx[first_named_from(idx, n, q)].0 == n,
    decreases idx.len() - q,
{
    if q < idx.len() && idx[q].0 != n {
        lemma_first_named(idx, n, q + 1);
    }
}

proof fn lemma_push_node(v: Seq<PkgV>, x: PkgV, idx: Seq<(Seq<char>, Seq<char>, Seq<char>)>, upto: int)
    requires
        closed_upto(v, idx, upto),
        0 <= upto <= v.len(),
    ensures
        closed_upto(v.push(x), idx, upto),
        forall|n: Seq<char>| has_name(v, n) ==> has_name(v.push(x), n),
        has_name(v.push(x), x.0),
{
    let w = v.push(x);
    assert(w[v.len() as int] == x);
    assert forall|n: Seq<char>| has_name(v, n) implies has_name(w, n) by {
        let j = choose|j: int| 0 <= j < v.len() && (#[trigger] v[j]).0 == n;
        assert(w[j] == v[j]);
    }
    assert forall|i: int, e: int|
        0 <= i < upto && 0 <= e < w[i].2.len() && first_named(idx, (#[trigger] w[i].2[e]).0)
            < idx.len() implies has_name(w, w[i].2[e].0) by {
        assert(w[i] == v[i]);
        assert(v[i].2[e] == w[i].2[e]);
    }
}

/// The work list from node `i`, dependency `e` on: each dependency whose
/// target names no node yet, and that the index can serve, appends the node
/// of the first index record with that name; the list ends when every node
/// has been worked through.
pub open spec fn work(idx: Seq<(Seq<char>, Seq<char>, Seq<char>)>, v: Seq<PkgV>, i: int, e: int) -> Seq<PkgV>
    decreases idx.len() + 1 - i, v[i].2.len() - e,
{
    if i < 0 || e < 0 || i >= v.len() || i > idx.len() {
        v
    } else if e >= v[i].2.len() {
        work(idx, v, i + 1, 0)
    } else {
        let t = v[i].2[e].0;
        if !has_name(v, t) && first_named(idx, t) < idx.len() {
            work(idx, v.push(node_spec(idx[first_named(idx, t)])), i, e + 1)
        } else {
            work(idx, v, i, e + 1)
        }
    }
}

/// The closure of `root` over `idx`, in work-list order.
pub open spec fn closure_spec(idx: Seq<(Seq<char>, Seq<char>, Seq<char>)>, root: PkgV) -> Seq<PkgV> {
    work(idx, seq![root], 0, 0)
}

/// Builds the dependency closure of `root` over `index`. Nodes are taken
/// from a work list in order; each dependency whose target names no node
/// yet adds the node of the first index record with that name. So each
/// package name is resolved at most once, and the work ends on any index,
/// cycles included: every added node uses up an index record.
pub fn build_closure(index: &Vec<Package>, root: Pkg) -> (r: Vec<Pkg>)
    ensures
        pkg_views(r@) == closure_spec(index_views(index@), root@),
        is_closure(pkg_views(r@), index_views(index@), root@),
{
    let ghost idx = index_views(index@);
    let ghost rootv = root@;
    let mut v: Vec<Pkg> = Vec::new();
    v.push(root);
    let mut used: Vec<bool> = Vec::new();
    while used.len() < index.len()
        invariant
            used@.len() <= index@.len(),
            forall|q: int| 0 <= q < used@.len() ==> !used@[q],
        decreases index@.len() - used@.len(),
    {
        used.push(false);
    }
    proof {
        assert(count_true(used@) == 0) by {
            lemma_count_true_zero(used@);
        }
        assert(pkg_views(v@) =~= seq![rootv]);
        assert(closure_spec(idx, rootv) == work(idx, pkg_views(v@), 0, 0));
    }
    let mut i: usize = 0;
    while i < v.len()
        invariant
            idx == index_views(index@),
            idx.len() == index@.len(),
            pkg_views(v@).len() == v@.len(),
            v@.len() >= 1,
            pkg_views(v@)[0] == rootv,
            names_distinct(pkg_views(v@)),
            from_index(pkg_views(v@), idx),
            reached(pkg_views(v@)),
            closed_upto(pkg_views(v@), idx, i as int),
            i <= v@.len(),
            used@.len() == index@.len(),
            count_true(used@) + 1 == v@.len(),
            v@.len() <= index@.len() + 1,
            forall|q: int| 0 <= q < used@.len() && #[trigger] used@[q] ==> has_name(pkg_views(v@), idx[q].0),
            work(idx, pkg_views(v@), i as int, 0) == closure_spec(idx, rootv),
        decreases index@.len() + 1 - i,
    {
        let ghost vi = pkg_views(v@)[i as int];
        let mut e: usize = 0;
        while e < v[i].deps.len()
            invariant
                idx == index_views(index@),
                idx.len() == index@.len(),
                pkg_views(v@).len() == v@.len(),
                v@.len() >= 1,
                pkg_views(v@)[0] == rootv,
                names_distinct(pkg_views(v@)),
                from_index(pkg_views(v@), idx),
                reached(pkg_views(v@)),
                closed_upto(pkg_views(v@), idx, i as int),
                i < v@.len(),
                pkg_views(v@)[i as int] == vi,
                e <= vi.2.len(),
                forall|f: int| 0 <= f < e && first_named(idx, (#[trigger] vi.2[f]).0) < idx.len()
                    ==> has_name(pkg_views(v@), vi.2[f].0),
                used@.len() == index@.len(),
                count_true(used@) + 1 == v@.len(),
                v@.len() <= index@.len() + 1,
                forall|q: int| 0 <= q < used@.len() && #[trigger] used@[q] ==> has_name(pkg_views(v@), idx[q].0),
                work(idx, pkg_views(v@), i as int, e as int) == closure_spec(idx, rootv),
            decreases vi.2.len() - e,
        {
            assert(views(v@[i as int].deps@)[e as int] == v@[i as int].deps@[e as int]@);
            let target = v[i].deps[e].0.clone();
            let ghost vv = pkg_views(v@);
            assert(work(idx, vv, i as int, e as int) == (if !has_name(vv, target@) && first_named(idx, target@) < idx.len() {
                work(idx, vv.push(node_spec(idx[first_named(idx, target@)])), i as int, e + 1)
            } else {
                work(idx, vv, i as int, e + 1)
            }));
            if !find_node(&v, &target) {
                let q = find_first_named(index, &target);
                if q < index.len() {
                    proof {
                        lemma_first_named(idx, target@, 0);
                        if used@[q as int] {
                            assert(has_name(vv, idx[q as int].0));
                        }
                        lemma_count_true_set(used@, q as int);
                        lemma_count_true_bound(used@.update(q as int, true));
                        lemma_push_node(vv, node_spec(idx[q as int]), idx, i as int);
                        assert(idx[q as int] == index@[q as int]@);
                    }
                    let ghost used0 = used@;
                    insert_pkg(&index[q], &mut v);
                    used.set(q, true);
                    proof {
                        let w = pkg_views(v@);
                        assert(w == vv.push(node_spec(idx[q as int])));
                        assert(w[vv.len() as int].0 == target@);
                        assert(names_distinct(w)) by {
                            assert forall|a: int, b: int| 0 <= a < b < w.len() implies (#[trigger] w[a]).0
                                != (#[trigger] w[b]).0 by {
                                if b == vv.len() {
                                    assert(w[a] == vv[a]);
                                    if vv[a].0 == target@ {
                                        assert(has_name(vv, target@));
                                    }
                                } else {
                                    assert(w[a] == vv[a] && w[b] == vv[b]);
                                }
                            }
                        }
                        assert(from_index(w, idx)) by {
                            assert forall|j: int| 1 <= j < w.len() implies first_named(idx, (#[trigger] w[j]).0)
                                < idx.len() && w[j] == node_spec(idx[first_named(idx, w[j].0)]) by {
                                if j < vv.len() {
                                    assert(w[j] == vv[j]);
                                }
                            }
                        }
                        assert(reached(w)) by {
                            assert forall|j: int| 1 <= j < w.len() implies exists|a: int, b: int|
                                0 <= a < j && 0 <= b < w[a].2.len() && (#[trigger] w[a].2[b]).0
                                    == (#[trigger] w[j]).0 by {
                                if j < vv.len() {
                                    assert(w[j] == vv[j]);
                                    let (a, b) = choose|a: int, b: int|
                                        0 <= a < j && 0 <= b < vv[a].2.len() && (#[trigger] vv[a].2[b]).0
                                            == (#[trigger] vv[j]).0;
                                    assert(w[a] == vv[a]);
                                    assert(w[a].2[b] == vv[a].2[b]);
                                } else {
                                    assert(w[i as int] == vi);
                                    assert(w[i as int].2[e as int] == vi.2[e as int]);
                                }
                            }
                        }
                        assert forall|qq: int| 0 <= qq < used@.len() && #[trigger] used@[qq] implies has_name(
                            w,
                            idx[qq].0,
                        ) by {
                            if qq != q {
                                assert(used@[qq] == used0[qq]);
                                assert(has_name(vv, idx[qq].0));
                            }
                        }
                        assert(w[i as int] == vi);
                    }
                }
            }
            e = e + 1;
        }
        assert(work(idx, pkg_views(v@), i as int, e as int) == work(idx, pkg_views(v@), i + 1, 0));
        proof {
            let w = pkg_views(v@);
            assert(closed_upto(w, idx, i + 1)) by {
                assert forall|a: int, b: int|
                    0 <= a < i + 1 && 0 <= b < w[a].2.len() && first_named(idx, (#[trigger] w[a].2[b]).0)
                        < idx.len() implies has_name(w, w[a].2[b].0) by {
                    if a == i {
                        assert(w[a] == vi);
                        assert(w[a].2[b] == vi.2[b]);
                    }
                }
            }
        }
        i = i + 1;
    }
    assert(work(idx, pkg_views(v@), i as int, 0) == pkg_views(v@));
    v
}

proof fn lemma_count_true_zero(s: Seq<bool>)
    requires
        forall|q: int| 0 <= q < s.len() ==> !s[q],
    ensures
        count_true(s) == 0,
    decreases s.len(),
{
    if s.len() > 0 {
        lemma_count_true_zero(s.drop_last());
    }
}

/// Why a resolution could not run to its end.
#[derive(Debug, Clone, Copy, PartialEq, Eq, Structural)]
pub enum ResolveError {
    /// No index record carries the requested name.
    PackageNotFound,
    /// Records carry the requested name, none at the requested version.
    PackageVersionNotFound,
    /// The formula has more variables than the SAT solver supports.
    SolverFailure,
}

pub open spec fn has_record(idx: Seq<(Seq<char>, Seq<char>, Seq<char>)>, n: Seq<char>) -> bool {
    exists|q: int| 0 <= q < idx.len() && (#[trigger] idx[q]).0 == n
}

/// `q` is the record named `n` with the greatest version; among records
/// whose versions compare equal, the last one.
pub open spec fn is_newest(idx: Seq<(Seq<char>, Seq<char>, Seq<char>)>, n: Seq<char>, q: int) -> bool {
    &&& 0 <= q < idx.len()
    &&& idx[q].0 == n
    &&& forall|p: int|
        0 <= p < idx.len() && (#[trigger] idx[p]).0 == n ==> version_cmp(idx[p].1, idx[q].1) <= 0
            && (p > q ==> version_cmp(idx[p].1, idx[q].1) < 0)
}

/// `q` is the first record named `n` at version `ver`.
pub open spec fn is_first_exact(idx: Seq<(Seq<char>, Seq<char>, Seq<char>)>, n: Seq<char>, ver: Seq<char>, q: int) -> bool {
    &&& 0 <= q < idx.len()
    &&& idx[q].0 == n
    &&& idx[q].1 == ver
    &&& forall|p: int| 0 <= p < q ==> !((#[trigger] idx[p]).0 == n && idx[p].1 == ver)
}

pub open spec fn opt_view(v: Option<&String>) -> Option<Seq<char>> {
    match v {
        Some(s) => Some(s@),
        None => None,
    }
}

/// The error that choosing a root of `n` at `ver` ends in, if any.
pub open spec fn root_error(idx: Seq<(Seq<char>, Seq<char>, Seq<char>)>, n: Seq<char>, ver: Option<Seq<char>>) -> Option<ResolveError> {
    if !has_record(idx, n) {
        Some(ResolveError::PackageNotFound)
    } else if ver is Some && !(exists|q: int| is_first_exact(idx, n, ver->0, q)) {
        Some(ResolveError::PackageVersionNotFound)
    } else {
        None
    }
}

/// `root` is the node chosen for `n` at `ver`: the first record at that
/// version when one is given, else the newest record.
pub open spec fn is_root(idx: Seq<(Seq<char>, Seq<char>, Seq<char>)>, n: Seq<char>, ver: Option<Seq<char>>, root: PkgV) -> bool {
    match ver {
        Some(x) => exists|q: int| is_first_exact(idx, n, x, q) && root == node_spec(idx[q]),
        None => exists|q: int| is_newest(idx, n, q) && root == node_spec(idx[q]),
    }
}

/// Chooses the root node: the first record of `name` at `version` when a
/// version is given, else the record of `name` with the greatest version.
pub fn resolve_root(index: &Vec<Package>, name: &String, version: Option<&String>) -> (r: Result<Pkg, ResolveError>)
    ensures
        match root_error(index_views(index@), name@, opt_view(version)) {
            Some(e) => r == Err::<Pkg, ResolveError>(e),
            None => r is Ok && is_root(index_views(index@), name@, opt_view(version), r.unwrap()@),
        },
{
    let ghost idx = index_views(index@);
    let mut found = false;
    let mut best: usize = 0;
    let mut p: usize = 0;
    while p < index.len()
        invariant
            idx == index_views(index@),
            p <= index@.len(),
            found ==> best < p,
            best <= p,
            version.is_some() ==> forall|k: int|
                0 <= k < p ==> !((#[trigger] idx[k]).0 == name@ && idx[k].1 == version.unwrap()@),
            found <==> exists|k: int| 0 <= k < p && (#[trigger] idx[k]).0 == name@,
            found && version.is_none() ==> idx[best as int].0 == name@ && forall|k: int|
                0 <= k < p && (#[trigger] idx[k]).0 == name@ ==> version_cmp(idx[k].1, idx[best as int].1)
                    <= 0 && (k > best ==> version_cmp(idx[k].1, idx[best as int].1) < 0),
        decreases index@.len() - p,
    {
        assert(idx[p as int] == index@[p as int]@);
        if index[p].package == *name {
            if let Some(ver) = version {
                if index[p].version == *ver {
                    assert(is_first_exact(idx, name@, ver@, p as int));
                    assert(has_record(idx, name@));
                    assert(opt_view(version) == Some(ver@));
                    assert(opt_view(version)->0 == ver@);
                    assert(exists|q: int| is_first_exact(idx, name@, opt_view(version)->0, q));
                    assert(root_error(idx, name@, opt_view(version)) is None);
                    let root = node_of(&index[p]);
                    assert(is_root(idx, name@, opt_view(version), root@));
                    return Ok(root);
                }
            } else {
                let mut replace = true;
                if found {
                    let c = compare_versions(index[best].version.as_str(), index[p].version.as_str());
                    replace = match c {
                        core::cmp::Ordering::Greater => false,
                        _ => true,
                    };
                    proof {
                        let b = best as int;
                        assert(idx[b] == index@[b]@);
                        lemma_version_order(idx[b].1, idx[p as int].1, idx[b].1);
                        assert forall|k: int| 0 <= k < p + 1 && (#[trigger] idx[k]).0 == name@ implies (if replace {
                            version_cmp(idx[k].1, idx[p as int].1) <= 0 && (k > p ==> version_cmp(idx[k].1, idx[p as int].1) < 0)
                        } else {
                            version_cmp(idx[k].1, idx[b].1) <= 0 && (k > b ==> version_cmp(idx[k].1, idx[b].1) < 0)
                        }) by {
                            lemma_version_order(idx[k].1, idx[b].1, idx[p as int].1);
                            lemma_version_order(idx[k].1, idx[k].1, idx[k].1);
                            if k < p {
                                assert(version_cmp(idx[k].1, idx[b].1) <= 0);
                            }
                            if replace {
                                assert(version_cmp(idx[b].1, idx[p as int].1) <= 0);
                            } else {
                                assert(version_cmp(idx[b].1, idx[p as int].1) > 0);
                            }
                        }
                    }
                } else {
                    proof {
                        lemma_version_order(idx[p as int].1, idx[p as int].1, idx[p as int].1);
                    }
                }
                if replace {
                    best = p;
                }
            }
            found = true;
        }
        p = p + 1;
    }
    if !found {
        return Err(ResolveError::PackageNotFound);
    }
    if version.is_some() {
        proof {
            assert forall|q: int| !is_first_exact(idx, name@, version.unwrap()@, q) by {
                if is_first_exact(idx, name@, version.unwrap()@, q) {
                    assert(!((idx[q]).0 == name@ && idx[q].1 == version.unwrap()@));
                }
            }
        }
        return Err(ResolveError::PackageVersionNotFound);
    }
    assert(idx[best as int] == index@[best as int]@);
    assert(is_newest(idx, name@, best as int));
    Ok(node_of(&index[best]))
}

} // verus!
