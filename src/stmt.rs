//! Lexing of a single dependency alternative such as `foo (>= 1.2)`.
use vstd::prelude::*;
use crate::version::first_from;
use crate::seqs::{lemma_filter_push, lemma_filter_keeps_all, lemma_filter_drops_all};

verus! {

/// Characters that the lexer skips wherever they appear.
pub open spec fn is_ignored(c: char) -> bool {
    c == '(' || c == ')' || c == ' '
}

/// Characters that make up a relational operator.
pub open spec fn is_op_char(c: char) -> bool {
    c == '<' || c == '>' || c == '=' || c == '!'
}

pub open spec fn keep_name() -> spec_fn(char) -> bool {
    |c: char| !is_ignored(c)
}

pub open spec fn keep_op() -> spec_fn(char) -> bool {
    |c: char| is_op_char(c)
}

pub open spec fn keep_version() -> spec_fn(char) -> bool {
    |c: char| !is_ignored(c) && !is_op_char(c)
}

/// Position of the first operator character, or the length when there is none.
pub open spec fn op_start(s: Seq<char>) -> int
    decreases s.len(),
{
    if s.len() == 0 {
        0
    } else if is_op_char(s[0]) {
        0
    } else {
        1 + op_start(s.drop_first())
    }
}

/// What a token lexes to: the name is every kept character before the first
/// operator character, the operator every operator character from there on,
/// and the version every other kept character from there on.
pub open spec fn lex_spec(s: Seq<char>) -> (Seq<char>, Seq<char>, Seq<char>) {
    let k = op_start(s);
    (
        s.subrange(0, k).filter(keep_name()),
        s.subrange(k, s.len() as int).filter(keep_op()),
        s.subrange(k, s.len() as int).filter(keep_version()),
    )
}

pub proof fn lemma_op_start(s: Seq<char>)
    ensures
        0 <= op_start(s) <= s.len(),
        forall|j: int| 0 <= j < op_start(s) ==> !is_op_char(#[trigger] s[j]),
        op_start(s) < s.len() ==> is_op_char(s[op_start(s)]),
    decreases s.len(),
{
    if s.len() > 0 && !is_op_char(s[0]) {
        lemma_op_start(s.drop_first());
        assert forall|j: int| 0 <= j < op_start(s) implies !is_op_char(#[trigger] s[j]) by {
            if j > 0 {
                assert(s[j] == s.drop_first()[j - 1]);
            }
        }
    }
}

pub proof fn lemma_op_start_at(s: Seq<char>, m: int)
    requires
        0 <= m <= s.len(),
        forall|j: int| 0 <= j < m ==> !is_op_char(#[trigger] s[j]),
        m < s.len() ==> is_op_char(s[m]),
    ensures
        op_start(s) == m,
{
    lemma_op_start(s);
    if op_start(s) < m {
        assert(!is_op_char(s[op_start(s)]));
    } else if op_start(s) > m {
        assert(!is_op_char(s[m]));
    }
}

/// A statement as three character sequences: name, operator, version.
pub type StmtV = (Seq<char>, Seq<char>, Seq<char>);

/// One dependency alternative: package name, relational operator, version.
/// An unconstrained dependency has an empty operator and an empty version.
#[derive(Debug)]
pub struct DepStmt(pub String, pub String, pub String);

impl View for DepStmt {
    type V = StmtV;

    open spec fn view(&self) -> StmtV {
        (self.0@, self.1@, self.2@)
    }
}

/// Relies on String::push: appends one character.
#[verifier::external_body]
pub(crate) fn push_char(s: &mut String, c: char)
    ensures
        final(s)@ == old(s)@.push(c),
{
    s.push(c);
}

fn ignored(c: char) -> (r: bool)
    ensures
        r == is_ignored(c),
{
    c == '(' || c == ')' || c == ' '
}

fn op_char(c: char) -> (r: bool)
    ensures
        r == is_op_char(c),
{
    c == '<' || c == '>' || c == '=' || c == '!'
}

impl DepStmt {
    /// The statement written as `name operator version`.
    pub fn to_text(&self) -> (r: String)
        ensures
            r@ == self.0@ + seq![' '] + self.1@ + seq![' '] + self.2@,
    {
        let mut r = self.0.clone();
        push_char(&mut r, ' ');
        r.append(self.1.as_str());
        push_char(&mut r, ' ');
        r.append(self.2.as_str());
        r
    }

    /// A copy of the statement.
    pub fn copied(&self) -> (r: DepStmt)
        ensures
            r@ == self@,
    {
        DepStmt(self.0.clone(), self.1.clone(), self.2.clone())
    }

    /// Whether two statements hold the same three strings.
    pub fn same_as(&self, o: &DepStmt) -> (r: bool)
        ensures
            r == (self@ == o@),
    {
        self.0 == o.0 && self.1 == o.1 && self.2 == o.2
    }
}

/// Lexes one dependency alternative in a single pass. Parentheses and spaces
/// are skipped; characters before the first operator character form the
/// name; operator characters after it form the operator; the rest forms the
/// version. Malformed tokens degrade to a best-effort split.
pub fn dep_to_stmt(s: &str) -> (r: DepStmt)
    ensures
        r@ == lex_spec(s@),
{
    let ghost k = op_start(s@);
    proof {
        lemma_op_start(s@);
    }
    let n = s.unicode_len();
    let mut package = String::new();
    let mut op = String::new();
    let mut version = String::new();
    let mut is_op = false;
    let mut i: usize = 0;
    while i < n
        invariant
            n == s@.len(),
            0 <= i <= n,
            k == op_start(s@),
            0 <= k <= n,
            forall|j: int| 0 <= j < k ==> !is_op_char(#[trigger] s@[j]),
            k < n ==> is_op_char(s@[k]),
            is_op <==> k < i,
            !is_op ==> package@ == s@.subrange(0, i as int).filter(keep_name()),
            !is_op ==> op@.len() == 0 && version@.len() == 0,
            is_op ==> package@ == s@.subrange(0, k).filter(keep_name()),
            is_op ==> op@ == s@.subrange(k, i as int).filter(keep_op()),
            is_op ==> version@ == s@.subrange(k, i as int).filter(keep_version()),
        decreases n - i,
    {
        let c = s.get_char(i);
        let ghost before = s@.subrange(0, i as int);
        assert(s@.subrange(0, i as int + 1) =~= before.push(c));
        proof {
            lemma_filter_push(before, c, keep_name());
            if is_op {
                assert(s@.subrange(k, i as int + 1) =~= s@.subrange(k, i as int).push(c));
                lemma_filter_push(s@.subrange(k, i as int), c, keep_op());
                lemma_filter_push(s@.subrange(k, i as int), c, keep_version());
            } else if i == k {
                assert(s@.subrange(k, i as int + 1) =~= Seq::<char>::empty().push(c));
                lemma_filter_push(Seq::<char>::empty(), c, keep_op());
                lemma_filter_push(Seq::<char>::empty(), c, keep_version());
                reveal(Seq::filter);
            }
        }
        if ignored(c) {
        } else if !op_char(c) && !is_op {
            push_char(&mut package, c);
        } else if op_char(c) {
            is_op = true;
            push_char(&mut op, c);
        } else {
            push_char(&mut version, c);
        }
        i = i + 1;
    }
    proof {
        if !is_op {
            assert(s@.subrange(0, n as int) =~= s@);
            assert(s@.subrange(k, n as int) =~= Seq::<char>::empty());
            reveal(Seq::filter);
        }
    }
    DepStmt(package, op, version)
}

/// The characters of a string, in order.
pub fn chars_of(s: &str) -> (r: Vec<char>)
    ensures
        r@ == s@,
{
    let n = s.unicode_len();
    let mut r: Vec<char> = Vec::new();
    let mut i: usize = 0;
    while i < n
        invariant
            n == s@.len(),
            i <= n,
            r@ == s@.subrange(0, i as int),
        decreases n - i,
    {
        r.push(s.get_char(i));
        assert(r@ =~= s@.subrange(0, i + 1));
        i = i + 1;
    }
    assert(r@ =~= s@);
    r
}

pub open spec fn views(v: Seq<DepStmt>) -> Seq<StmtV> {
    v.map_values(|d: DepStmt| d@)
}

/// Whether a `, ` separator starts at position `i`.
pub open spec fn sep_at(s: Seq<char>, i: int) -> bool {
    0 <= i && i + 1 < s.len() && s[i] == ',' && s[i + 1] == ' '
}

/// The statement of one piece of a depends field: only its first
/// alternative is lexed, and an empty first alternative gives none.
pub open spec fn piece_stmts(p: Seq<char>) -> Seq<StmtV> {
    let c = first_alternative(p);
    if c.len() == 0 {
        Seq::empty()
    } else {
        seq![lex_spec(c)]
    }
}

/// The first alternative of a dependency entry: the text before its first `|`.
pub open spec fn first_alternative(p: Seq<char>) -> Seq<char> {
    p.subrange(0, first_from(p, '|', 0))
}

/// The statements of the depends text `s` whose current piece began at
/// `start`, scanning from `i` on.
pub open spec fn deps_from(s: Seq<char>, start: int, i: int) -> Seq<StmtV>
    decreases s.len() - i,
{
    if i < 0 || start < 0 || start > i || i >= s.len() {
        piece_stmts(s.subrange(start, s.len() as int))
    } else if sep_at(s, i) {
        piece_stmts(s.subrange(start, i)) + deps_from(s, i + 2, i + 2)
    } else {
        deps_from(s, start, i + 1)
    }
}

/// The statements of a depends field: the text is split at every `, `, each
/// piece is cut at its first `|`, and each non-empty first alternative is
/// lexed.
pub open spec fn deps_spec(s: Seq<char>) -> Seq<StmtV> {
    deps_from(s, 0, 0)
}

fn chars_to_string(s: &Vec<char>, from: usize, to: usize) -> (r: String)
    requires
        from <= to <= s@.len(),
    ensures
        r@ == s@.subrange(from as int, to as int),
{
    let mut r = String::new();
    let mut j = from;
    while j < to
        invariant
            from <= j <= to <= s@.len(),
            r@ == s@.subrange(from as int, j as int),
        decreases to - j,
    {
        push_char(&mut r, s[j]);
        assert(r@ =~= s@.subrange(from as int, j + 1));
        j = j + 1;
    }
    r
}

fn push_piece(out: &mut Vec<DepStmt>, s: &Vec<char>, from: usize, to: usize)
    requires
        from <= to <= s@.len(),
    ensures
        views(final(out)@) == views(old(out)@) + piece_stmts(s@.subrange(from as int, to as int)),
{
    let ghost sub = s@.subrange(from as int, to as int);
    let mut j = from;
    while j < to && s[j] != '|'
        invariant
            from <= j <= to <= s@.len(),
            sub == s@.subrange(from as int, to as int),
            first_from(sub, '|', 0) == first_from(sub, '|', j - from),
        decreases to - j,
    {
        assert(sub[j - from] == s@[j as int]);
        j = j + 1;
    }
    proof {
        if j < to {
            assert(sub[j - from] == s@[j as int]);
        }
        assert(first_alternative(sub) =~= s@.subrange(from as int, j as int));
    }
    if from < j {
        let piece = chars_to_string(s, from, j);
        let d = dep_to_stmt(piece.as_str());
        out.push(d);
        assert(views(final(out)@) =~= views(old(out)@).push(d@));
    } else {
        assert(views(out@) =~= views(out@) + Seq::<(Seq<char>, Seq<char>, Seq<char>)>::empty());
    }
}

/// Splits a depends field at every `, ` and lexes the first `|` alternative
/// of each piece; pieces whose first alternative is empty give nothing.
pub fn parse_depends(text: &str) -> (r: Vec<DepStmt>)
    ensures
        views(r@) == deps_spec(text@),
{
    let s = chars_of(text);
    let mut out: Vec<DepStmt> = Vec::new();
    let mut start: usize = 0;
    let mut i: usize = 0;
    while i < s.len()
        invariant
            start <= i <= s@.len(),
            views(out@) + deps_from(s@, start as int, i as int) == deps_spec(s@),
        decreases s@.len() - i,
    {
        if i + 1 < s.len() && s[i] == ',' && s[i + 1] == ' ' {
            let ghost before = views(out@);
            push_piece(&mut out, &s, start, i);
            assert(views(out@) + deps_from(s@, i + 2, i + 2) =~= before + deps_from(
                s@,
                start as int,
                i as int,
            ));
            i = i + 2;
            start = i;
        } else {
            i = i + 1;
        }
    }
    let ghost before = views(out@);
    push_piece(&mut out, &s, start, s.len());
    assert(views(out@) =~= before + deps_from(s@, start as int, i as int));
    out
}

/// The canonical spelling `name (OP VERSION)` of a statement.
pub open spec fn stmt_text(n: Seq<char>, o: Seq<char>, v: Seq<char>) -> Seq<char> {
    n + seq![' ', '('] + o + seq![' '] + v + seq![')']
}

/// A well-formed statement: the name and the version hold neither skipped
/// nor operator characters, the operator holds operator characters only,
/// and the operator is empty exactly when the version is.
pub open spec fn well_formed(n: Seq<char>, o: Seq<char>, v: Seq<char>) -> bool {
    &&& forall|i: int| 0 <= i < n.len() ==> !is_ignored(#[trigger] n[i]) && !is_op_char(n[i])
    &&& forall|i: int| 0 <= i < o.len() ==> is_op_char(#[trigger] o[i])
    &&& forall|i: int| 0 <= i < v.len() ==> !is_ignored(#[trigger] v[i]) && !is_op_char(v[i])
    &&& (o.len() == 0 <==> v.len() == 0)
}

/// Writing a well-formed statement as `name (OP VERSION)` and lexing the text
/// gives back the same name, operator and version.
pub proof fn lemma_lex_round_trip(n: Seq<char>, o: Seq<char>, v: Seq<char>)
    requires
        well_formed(n, o, v),
    ensures
        lex_spec(stmt_text(n, o, v)) == (n, o, v),
{
    broadcast use Seq::filter_distributes_over_add;

    let s = stmt_text(n, o, v);
    let head = n + seq![' ', '('];
    let tail = o + seq![' '] + v + seq![')'];
    assert(s =~= head + tail);
    lemma_filter_keeps_all(n, keep_name());
    lemma_filter_drops_all(seq![' ', '('], keep_name());
    lemma_filter_keeps_all(o, keep_op());
    lemma_filter_drops_all(o, keep_version());
    lemma_filter_drops_all(seq![' '], keep_op());
    lemma_filter_drops_all(seq![' '], keep_version());
    lemma_filter_drops_all(seq![')'], keep_op());
    lemma_filter_drops_all(seq![')'], keep_version());
    lemma_filter_drops_all(v, keep_op());
    lemma_filter_keeps_all(v, keep_version());
    if o.len() > 0 {
        lemma_op_start_at(s, head.len() as int);
        assert(s.subrange(0, head.len() as int) =~= head);
        assert(s.subrange(head.len() as int, s.len() as int) =~= tail);
        assert(head.filter(keep_name()) =~= n);
        assert(tail.filter(keep_op()) =~= o);
        assert(tail.filter(keep_version()) =~= v);
    } else {
        assert forall|j: int| 0 <= j < s.len() implies !is_op_char(#[trigger] s[j]) by {
            if j < n.len() {
                assert(s[j] == n[j]);
            }
        }
        lemma_op_start_at(s, s.len() as int);
        assert(s.subrange(0, s.len() as int) =~= s);
        assert(s.subrange(s.len() as int, s.len() as int) =~= Seq::<char>::empty());
        lemma_filter_drops_all(Seq::<char>::empty(), keep_op());
        lemma_filter_drops_all(Seq::<char>::empty(), keep_version());
        lemma_filter_drops_all(tail, keep_name());
        assert(s.filter(keep_name()) =~= n);
    }
}

} // verus!
