//! Encoding of a closure as a CNF formula in DIMACS text.
//!
//! Every fact gets a variable: "package P is installed at version V" is the
//! statement `P = V`, and each dependency statement is its own fact; equal
//! statements share one variable. Ids are given in first-seen order while
//! walking the nodes and, within a node, its installed fact and then its
//! dependencies. Each dependency of each node yields the clause
//! `-installed(node) satisfied(dependency)`.
use vstd::prelude::*;
use crate::stmt::{DepStmt, StmtV, views, push_char};
use crate::closure::{Pkg, PkgV, pkg_views};

verus! {

/// The installed fact of a node: its name, `=`, its version.
pub open spec fn installed_fact(n: PkgV) -> StmtV {
    (n.0, seq!['='], n.1)
}

pub open spec fn node_facts(n: PkgV) -> Seq<StmtV> {
    seq![installed_fact(n)] + n.2
}

/// Every fact of the nodes, in walking order, repeats included.
pub open spec fn facts(v: Seq<PkgV>) -> Seq<StmtV>
    decreases v.len(),
{
    if v.len() == 0 {
        Seq::empty()
    } else {
        facts(v.drop_last()) + node_facts(v.last())
    }
}

/// The elements of `s` in order of first occurrence, each once.
pub open spec fn first_seen<A>(s: Seq<A>) -> Seq<A>
    decreases s.len(),
{
    if s.len() == 0 {
        Seq::empty()
    } else {
        let d = first_seen(s.drop_last());
        if d.contains(s.last()) {
            d
        } else {
            d.push(s.last())
        }
    }
}

/// Position of the first `x` in `s` at or after `i`, or the length.
pub open spec fn pos_from<A>(s: Seq<A>, x: A, i: int) -> int
    decreases s.len() - i,
{
    if 0 <= i < s.len() && s[i] != x {
        pos_from(s, x, i + 1)
    } else {
        i
    }
}

/// The variable id of fact `x` under the variable map `keys`.
pub open spec fn var_id(keys: Seq<StmtV>, x: StmtV) -> int {
    pos_from(keys, x, 0) + 1
}

/// The variable map of a closure: its facts in first-seen order; fact `i`
/// has id `i + 1`.
pub open spec fn var_map(v: Seq<PkgV>) -> Seq<StmtV> {
    first_seen(facts(v))
}

/// The clauses of one node: for each dependency, the pair of the node's
/// installed variable (negated in the formula) and the dependency's variable.
pub open spec fn node_clauses(keys: Seq<StmtV>, n: PkgV) -> Seq<(int, int)> {
    n.2.map_values(|d: StmtV| (var_id(keys, installed_fact(n)), var_id(keys, d)))
}

pub open spec fn clauses_of(keys: Seq<StmtV>, v: Seq<PkgV>) -> Seq<(int, int)>
    decreases v.len(),
{
    if v.len() == 0 {
        Seq::empty()
    } else {
        clauses_of(keys, v.drop_last()) + node_clauses(keys, v.last())
    }
}

/// The number of (node, dependency) pairs.
pub open spec fn dep_count(v: Seq<PkgV>) -> nat
    decreases v.len(),
{
    if v.len() == 0 {
        0
    } else {
        dep_count(v.drop_last()) + v.last().2.len()
    }
}

pub open spec fn digit_char(d: nat) -> char {
    if d == 0 { '0' }
    else if d == 1 { '1' }
    else if d == 2 { '2' }
    else if d == 3 { '3' }
    else if d == 4 { '4' }
    else if d == 5 { '5' }
    else if d == 6 { '6' }
    else if d == 7 { '7' }
    else if d == 8 { '8' }
    else { '9' }
}

/// Decimal spelling of a natural number.
pub open spec fn decimal(n: nat) -> Seq<char>
    decreases n,
{
    if n < 10 {
        seq![digit_char(n)]
    } else {
        decimal(n / 10).push(digit_char(n % 10))
    }
}

pub open spec fn clause_line(c: (int, int)) -> Seq<char> {
    seq!['-'] + decimal(c.0 as nat) + seq![' '] + decimal(c.1 as nat) + seq![' ', '0', '\n']
}

pub open spec fn clause_lines(cs: Seq<(int, int)>) -> Seq<char>
    decreases cs.len(),
{
    if cs.len() == 0 {
        Seq::empty()
    } else {
        clause_lines(cs.drop_last()) + clause_line(cs.last())
    }
}

/// DIMACS text: the header `p cnf <variables> <clauses>` and one line per
/// clause, each literal followed by a space and the line ended by `0`.
pub open spec fn dimacs(nvars: nat, cs: Seq<(int, int)>) -> Seq<char> {
    seq!['p', ' ', 'c', 'n', 'f', ' '] + decimal(nvars) + seq![' '] + decimal(cs.len()) + seq!['\n']
        + clause_lines(cs)
}

/// The DIMACS text of a closure.
pub open spec fn cnf_spec(v: Seq<PkgV>) -> Seq<char> {
    dimacs(var_map(v).len(), clauses_of(var_map(v), v))
}

fn digit_of(d: usize) -> (r: char)
    requires
        d < 10,
    ensures
        r == digit_char(d as nat),
{
    if d == 0 { '0' }
    else if d == 1 { '1' }
    else if d == 2 { '2' }
    else if d == 3 { '3' }
    else if d == 4 { '4' }
    else if d == 5 { '5' }
    else if d == 6 { '6' }
    else if d == 7 { '7' }
    else if d == 8 { '8' }
    else { '9' }
}

/// Appends the decimal spelling of `n`.
pub fn push_decimal(s: &mut String, n: usize)
    ensures
        final(s)@ == old(s)@ + decimal(n as nat),
    decreases n,
{
    if n >= 10 {
        push_decimal(s, n / 10);
    }
    push_char(s, digit_of(n % 10));
    assert(final(s)@ =~= old(s)@ + decimal(n as nat));
}

/// A variable map and the clauses over it.
pub struct Encoding {
    /// Fact `i` has variable id `i + 1`.
    pub vars: Vec<DepStmt>,
    /// `(a, b)` stands for the clause `-a b`.
    pub clauses: Vec<(usize, usize)>,
}

proof fn lemma_first_seen<A>(s: Seq<A>)
    ensures
        first_seen(s).no_duplicates(),
        forall|x: A| first_seen(s).contains(x) <==> s.contains(x),
        first_seen(s).len() <= s.len(),
    decreases s.len(),
{
    if s.len() > 0 {
        let t = s.drop_last();
        lemma_first_seen(t);
        let d = first_seen(t);
        let f = first_seen(s);
        assert(f == (if d.contains(s.last()) { d } else { d.push(s.last()) }));
        assert(forall|x: A| d.contains(x) <==> t.contains(x));
        assert forall|x: A| f.contains(x) implies s.contains(x) by {
            let i = choose|i: int| 0 <= i < f.len() && f[i] == x;
            if i < d.len() {
                assert(d[i] == x);
                assert(d.contains(x));
                let j = choose|j: int| 0 <= j < t.len() && t[j] == x;
                assert(s[j] == x);
            } else {
                assert(s[s.len() - 1] == x);
            }
        }
        assert forall|x: A| s.contains(x) implies f.contains(x) by {
            let i = choose|i: int| 0 <= i < s.len() && s[i] == x;
            if i < s.len() - 1 {
                assert(t[i] == x);
                assert(t.contains(x));
                let j = choose|j: int| 0 <= j < d.len() && d[j] == x;
                if !d.contains(s.last()) {
                    assert(f[j] == x);
                }
            } else if !d.contains(s.last()) {
                assert(f[d.len() as int] == x);
            }
        }
    }
}

proof fn lemma_pos_from<A>(s: Seq<A>, x: A, i: int)
    requires
        0 <= i <= s.len(),
    ensures
        i <= pos_from(s, x, i) <= s.len(),
        pos_from(s, x, i) < s.len() ==> s[pos_from(s, x, i)] == x,
        (exists|j: int| i <= j < s.len() && s[j] == x) ==> pos_from(s, x, i) < s.len(),
    decreases s.len() - i,
{
    if i < s.len() && s[i] != x {
        lemma_pos_from(s, x, i + 1);
    }
}

/// Looks up the variable id of a fact.
pub fn var_of(keys: &Vec<DepStmt>, x: &DepStmt) -> (r: usize)
    requires
        views(keys@).contains(x@),
    ensures
        r as int == var_id(views(keys@), x@),
        1 <= r <= keys@.len(),
{
    proof {
        lemma_pos_from(views(keys@), x@, 0);
    }
    let n = keys.len();
    let mut j: usize = 0;
    while !keys[j].same_as(x)
        invariant
            n == keys@.len(),
            j < keys@.len(),
            pos_from(views(keys@), x@, 0) == pos_from(views(keys@), x@, j as int),
            pos_from(views(keys@), x@, 0) < keys@.len(),
        decreases keys@.len() - j,
    {
        assert(views(keys@)[j as int] == keys@[j as int]@);
        j = j + 1;
        proof {
            lemma_pos_from(views(keys@), x@, j as int);
        }
    }
    assert(views(keys@)[j as int] == keys@[j as int]@);
    j + 1
}

fn contains_stmt(keys: &Vec<DepStmt>, x: &DepStmt) -> (r: bool)
    ensures
        r == views(keys@).contains(x@),
{
    let mut j: usize = 0;
    while j < keys.len()
        invariant
            j <= keys@.len(),
            forall|k: int| 0 <= k < j ==> views(keys@)[k] != x@,
        decreases keys@.len() - j,
    {
        if keys[j].same_as(x) {
            assert(views(keys@)[j as int] == x@);
            return true;
        }
        j = j + 1;
    }
    false
}

fn note_fact(keys: &mut Vec<DepStmt>, x: &DepStmt)
    ensures
        views(final(keys)@) == (if views(old(keys)@).contains(x@) {
            views(old(keys)@)
        } else {
            views(old(keys)@).push(x@)
        }),
{
    if !contains_stmt(keys, x) {
        keys.push(x.copied());
        assert(views(final(keys)@) =~= views(old(keys)@).push(x@));
    }
}

/// The installed fact of a node.
pub fn installed_stmt(n: &Pkg) -> (r: DepStmt)
    ensures
        r@ == installed_fact(n@),
{
    let mut op = String::new();
    push_char(&mut op, '=');
    assert(op@ =~= seq!['=']);
    DepStmt(n.name.clone(), op, n.version.clone())
}

proof fn lemma_first_seen_push<A>(s: Seq<A>, x: A)
    ensures
        first_seen(s.push(x)) == (if first_seen(s).contains(x) { first_seen(s) } else { first_seen(s).push(x) }),
{
    assert(s.push(x).drop_last() =~= s);
}

/// Gives every fact of the nodes a variable, in first-seen order.
pub fn allocate_vars(nodes: &Vec<Pkg>) -> (r: Vec<DepStmt>)
    ensures
        views(r@) == var_map(pkg_views(nodes@)),
{
    let mut keys: Vec<DepStmt> = Vec::new();
    let mut i: usize = 0;
    proof {
        assert(pkg_views(nodes@).subrange(0, 0) =~= Seq::<PkgV>::empty());
    }
    while i < nodes.len()
        invariant
            i <= nodes@.len(),
            views(keys@) == first_seen(facts(pkg_views(nodes@).subrange(0, i as int))),
        decreases nodes@.len() - i,
    {
        let ghost pre = facts(pkg_views(nodes@).subrange(0, i as int));
        let ghost n = pkg_views(nodes@)[i as int];
        assert(pkg_views(nodes@).subrange(0, i + 1).drop_last() =~= pkg_views(nodes@).subrange(0, i as int));
        assert(facts(pkg_views(nodes@).subrange(0, i + 1)) == pre + node_facts(n));
        let inst = installed_stmt(&nodes[i]);
        proof {
            lemma_first_seen_push(pre, inst@);
        }
        note_fact(&mut keys, &inst);
        assert(pre.push(inst@) =~= pre + node_facts(n).subrange(0, 1));
        let mut e: usize = 0;
        while e < nodes[i].deps.len()
            invariant
                i < nodes@.len(),
                n == pkg_views(nodes@)[i as int],
                e <= n.2.len(),
                views(keys@) == first_seen(pre + node_facts(n).subrange(0, e + 1)),
            decreases n.2.len() - e,
        {
            let ghost cur = pre + node_facts(n).subrange(0, e + 1);
            assert(views(nodes@[i as int].deps@)[e as int] == nodes@[i as int].deps@[e as int]@);
            proof {
                lemma_first_seen_push(cur, n.2[e as int]);
            }
            note_fact(&mut keys, &nodes[i].deps[e]);
            assert(cur.push(n.2[e as int]) =~= pre + node_facts(n).subrange(0, e + 2));
            e = e + 1;
        }
        assert(node_facts(n).subrange(0, e + 1) =~= node_facts(n));
        i = i + 1;
    }
    assert(pkg_views(nodes@).subrange(0, i as int) =~= pkg_views(nodes@));
    keys
}

pub open spec fn pairs(c: Seq<(usize, usize)>) -> Seq<(int, int)> {
    c.map_values(|x: (usize, usize)| (x.0 as int, x.1 as int))
}

proof fn lemma_facts_contains(v: Seq<PkgV>, i: int, k: int)
    requires
        0 <= i < v.len(),
        0 <= k < node_facts(v[i]).len(),
    ensures
        facts(v).contains(node_facts(v[i])[k]),
    decreases v.len(),
{
    let pre = facts(v.drop_last());
    if i < v.len() - 1 {
        lemma_facts_contains(v.drop_last(), i, k);
        assert(v.drop_last()[i] == v[i]);
        let j = choose|j: int| 0 <= j < pre.len() && pre[j] == node_facts(v[i])[k];
        assert(facts(v)[j] == pre[j]);
    } else {
        assert(facts(v)[pre.len() + k] == node_facts(v.last())[k]);
    }
}

/// Emits one clause per (node, dependency) pair.
pub fn make_clauses(nodes: &Vec<Pkg>, keys: &Vec<DepStmt>) -> (r: Vec<(usize, usize)>)
    requires
        views(keys@) == var_map(pkg_views(nodes@)),
    ensures
        pairs(r@) == clauses_of(views(keys@), pkg_views(nodes@)),
{
    let ghost v = pkg_views(nodes@);
    let ghost ks = views(keys@);
    proof {
        lemma_first_seen(facts(v));
    }
    let mut out: Vec<(usize, usize)> = Vec::new();
    let mut i: usize = 0;
    assert(v.subrange(0, 0) =~= Seq::<PkgV>::empty());
    assert(pairs(out@) =~= Seq::<(int, int)>::empty());
    while i < nodes.len()
        invariant
            v == pkg_views(nodes@),
            ks == views(keys@),
            ks == var_map(v),
            forall|x: StmtV| ks.contains(x) <==> facts(v).contains(x),
            i <= nodes@.len(),
            pairs(out@) == clauses_of(ks, v.subrange(0, i as int)),
        decreases nodes@.len() - i,
    {
        let ghost n = v[i as int];
        let ghost pre = pairs(out@);
        assert(v.subrange(0, i + 1).drop_last() =~= v.subrange(0, i as int));
        assert(v.subrange(0, i + 1).last() == n);
        let inst = installed_stmt(&nodes[i]);
        proof {
            lemma_facts_contains(v, i as int, 0);
        }
        let a = var_of(keys, &inst);
        let mut e: usize = 0;
        assert(node_clauses(ks, n).subrange(0, 0) =~= Seq::<(int, int)>::empty());
        assert(pairs(out@) =~= pre + node_clauses(ks, n).subrange(0, 0));
        while e < nodes[i].deps.len()
            invariant
                v == pkg_views(nodes@),
                ks == views(keys@),
                forall|x: StmtV| ks.contains(x) <==> facts(v).contains(x),
                i < nodes@.len(),
                n == v[i as int],
                a as int == var_id(ks, installed_fact(n)),
                e <= n.2.len(),
                pairs(out@) == pre + node_clauses(ks, n).subrange(0, e as int),
            decreases n.2.len() - e,
        {
            assert(views(nodes@[i as int].deps@)[e as int] == nodes@[i as int].deps@[e as int]@);
            proof {
                lemma_facts_contains(v, i as int, e + 1);
                assert(node_facts(n)[e + 1] == n.2[e as int]);
            }
            let b = var_of(keys, &nodes[i].deps[e]);
            let ghost before = out@;
            out.push((a, b));
            assert(pairs(out@) =~= pairs(before).push((a as int, b as int)));
            assert(node_clauses(ks, n).subrange(0, e + 1) =~= node_clauses(ks, n).subrange(0, e as int).push(
                (a as int, b as int),
            ));
            e = e + 1;
        }
        assert(node_clauses(ks, n).subrange(0, e as int) =~= node_clauses(ks, n));
        i = i + 1;
    }
    assert(v.subrange(0, i as int) =~= v);
    out
}

/// Writes a formula as DIMACS text.
pub fn cnf_text(nvars: usize, clauses: &Vec<(usize, usize)>) -> (r: String)
    ensures
        r@ == dimacs(nvars as nat, pairs(clauses@)),
{
    let ghost cs = pairs(clauses@);
    let mut r = String::new();
    push_char(&mut r, 'p');
    push_char(&mut r, ' ');
    push_char(&mut r, 'c');
    push_char(&mut r, 'n');
    push_char(&mut r, 'f');
    push_char(&mut r, ' ');
    push_decimal(&mut r, nvars);
    push_char(&mut r, ' ');
    push_decimal(&mut r, clauses.len());
    push_char(&mut r, '\n');
    let ghost header = r@;
    assert(header =~= seq!['p', ' ', 'c', 'n', 'f', ' '] + decimal(nvars as nat) + seq![' ']
        + decimal(cs.len()) + seq!['\n']);
    let mut j: usize = 0;
    assert(cs.subrange(0, 0) =~= Seq::<(int, int)>::empty());
    assert(r@ =~= header + clause_lines(cs.subrange(0, 0)));
    while j < clauses.len()
        invariant
            cs == pairs(clauses@),
            j <= clauses@.len(),
            r@ == header + clause_lines(cs.subrange(0, j as int)),
        decreases clauses@.len() - j,
    {
        let (a, b) = clauses[j];
        let ghost before = r@;
        push_char(&mut r, '-');
        push_decimal(&mut r, a);
        push_char(&mut r, ' ');
        push_decimal(&mut r, b);
        push_char(&mut r, ' ');
        push_char(&mut r, '0');
        push_char(&mut r, '\n');
        assert(cs[j as int] == (a as int, b as int));
        assert(cs.subrange(0, j + 1).drop_last() =~= cs.subrange(0, j as int));
        assert(r@ =~= before + clause_line((a as int, b as int)));
        j = j + 1;
    }
    assert(cs.subrange(0, j as int) =~= cs);
    r
}

/// Encodes a closure: variables in first-seen order, one clause per
/// (node, dependency) pair.
pub fn encode(nodes: &Vec<Pkg>) -> (r: Encoding)
    ensures
        views(r.vars@) == var_map(pkg_views(nodes@)),
        pairs(r.clauses@) == clauses_of(var_map(pkg_views(nodes@)), pkg_views(nodes@)),
{
    let vars = allocate_vars(nodes);
    let clauses = make_clauses(nodes, &vars);
    Encoding { vars, clauses }
}

impl Encoding {
    /// The formula as DIMACS text.
    pub fn to_dimacs(&self) -> (r: String)
        ensures
            r@ == dimacs(self.vars@.len() as nat, pairs(self.clauses@)),
    {
        cnf_text(self.vars.len(), &self.clauses)
    }
}

/// Encodes a closure straight to DIMACS text.
pub fn encode_text(nodes: &Vec<Pkg>) -> (r: String)
    ensures
        r@ == cnf_spec(pkg_views(nodes@)),
{
    let enc = encode(nodes);
    assert(views(enc.vars@).len() == enc.vars@.len());
    enc.to_dimacs()
}

proof fn lemma_clause_count(keys: Seq<StmtV>, v: Seq<PkgV>)
    ensures
        clauses_of(keys, v).len() == dep_count(v),
    decreases v.len(),
{
    if v.len() > 0 {
        lemma_clause_count(keys, v.drop_last());
    }
}

/// The formula has one variable per distinct fact (installed facts and
/// dependency statements together) and one clause per (node, dependency)
/// pair.
pub proof fn lemma_encoding_counts(v: Seq<PkgV>)
    ensures
        var_map(v).len() == facts(v).to_set().len(),
        clauses_of(var_map(v), v).len() == dep_count(v),
{
    lemma_first_seen(facts(v));
    var_map(v).unique_seq_to_set();
    assert(var_map(v).to_set() =~= facts(v).to_set());
    lemma_clause_count(var_map(v), v);
}

/// Encoding is deterministic: two closures with the same nodes give the
/// same text, byte for byte.
pub proof fn lemma_encoding_deterministic(a: Seq<PkgV>, b: Seq<PkgV>)
    requires
        a == b,
    ensures
        cnf_spec(a) == cnf_spec(b),
        var_map(a) == var_map(b),
{
}

/// Whether an assignment makes every clause `-a b` true.
pub open spec fn satisfies(t: spec_fn(int) -> bool, cs: Seq<(int, int)>) -> bool {
    forall|j: int| 0 <= j < cs.len() ==> !t((#[trigger] cs[j]).0) || t(cs[j].1)
}

/// The encoding holds only implications, so the assignment that makes every
/// variable false satisfies it: no closure is reported as inconsistent.
pub proof fn lemma_all_false_satisfies(cs: Seq<(int, int)>)
    ensures
        satisfies(|x: int| false, cs),
{
}

pub proof fn lemma_var_map_has_installed(v: Seq<PkgV>, i: int)
    requires
        0 <= i < v.len(),
    ensures
        var_map(v).contains(installed_fact(v[i])),
{
    lemma_first_seen(facts(v));
    lemma_facts_contains(v, i, 0);
}

proof fn lemma_var_id_range(keys: Seq<StmtV>, x: StmtV)
    requires
        keys.contains(x),
    ensures
        1 <= var_id(keys, x) <= keys.len(),
{
    lemma_pos_from(keys, x, 0);
}

/// Every variable id in the clauses of a closure lies between 1 and the
/// number of variables.
pub proof fn lemma_clause_ids(v: Seq<PkgV>)
    ensures
        forall|j: int| 0 <= j < clauses_of(var_map(v), v).len() ==> 1 <= (#[trigger] clauses_of(var_map(v), v)[j]).0
            <= var_map(v).len() && 1 <= clauses_of(var_map(v), v)[j].1 <= var_map(v).len(),
{
    lemma_first_seen(facts(v));
    lemma_clause_ids_upto(var_map(v), v, v);
}

proof fn lemma_clause_ids_upto(keys: Seq<StmtV>, v: Seq<PkgV>, all: Seq<PkgV>)
    requires
        keys == var_map(all),
        forall|x: StmtV| keys.contains(x) <==> facts(all).contains(x),
        forall|i: int| 0 <= i < v.len() ==> exists|k: int| 0 <= k < all.len() && all[k] == #[trigger] v[i],
    ensures
        forall|j: int| 0 <= j < clauses_of(keys, v).len() ==> 1 <= (#[trigger] clauses_of(keys, v)[j]).0
            <= keys.len() && 1 <= clauses_of(keys, v)[j].1 <= keys.len(),
    decreases v.len(),
{
    if v.len() > 0 {
        let t = v.drop_last();
        assert forall|i: int| 0 <= i < t.len() implies exists|k: int| 0 <= k < all.len() && all[k] == #[trigger] t[i] by {
            assert(t[i] == v[i]);
        }
        lemma_clause_ids_upto(keys, t, all);
        let n = v.last();
        let k = choose|k: int| 0 <= k < all.len() && all[k] == v[v.len() - 1];
        let pre = clauses_of(keys, t);
        let nc = node_clauses(keys, n);
        lemma_facts_contains(all, k, 0);
        lemma_var_id_range(keys, installed_fact(n));
        assert forall|j: int| 0 <= j < clauses_of(keys, v).len() implies 1 <= (#[trigger] clauses_of(keys, v)[j]).0
            <= keys.len() && 1 <= clauses_of(keys, v)[j].1 <= keys.len() by {
            if j < pre.len() {
                assert(clauses_of(keys, v)[j] == pre[j]);
            } else {
                let e = j - pre.len();
                assert(clauses_of(keys, v)[j] == nc[e]);
                lemma_facts_contains(all, k, e + 1);
                assert(node_facts(n)[e + 1] == n.2[e]);
                lemma_var_id_range(keys, n.2[e]);
            }
        }
    }
}

} // verus!
