//! Debian-style version strings `[epoch:]upstream[-revision]` and their order.
//!
//! Each part is turned into a key: a sequence of integers in which every
//! non-digit run contributes the weights of its characters followed by a 0,
//! and every digit run contributes its length without leading zeros followed
//! by its digits. Two parts compare as their keys do lexicographically, a
//! missing position counting as 0. This is the conventional comparison: `~`
//! sorts before the end of a run, the end before letters, letters before
//! other characters, and digit runs compare numerically.
use vstd::prelude::*;
use crate::stmt::chars_of;

verus! {

pub open spec fn is_digit(c: char) -> bool {
    '0' <= c && c <= '9'
}

pub open spec fn is_letter(c: char) -> bool {
    ('a' <= c && c <= 'z') || ('A' <= c && c <= 'Z')
}

/// Weight of a non-digit character; never 0.
pub open spec fn weight(c: char) -> int {
    if c == '~' {
        -1
    } else if is_letter(c) {
        c as int
    } else {
        c as int + 256
    }
}

pub open spec fn digit_value(c: char) -> int {
    c as int
}

/// End of the run of non-digits that starts at `i`.
pub open spec fn nondigit_end(s: Seq<char>, i: int) -> int
    decreases s.len() - i,
{
    if 0 <= i < s.len() && !is_digit(s[i]) {
        nondigit_end(s, i + 1)
    } else {
        i
    }
}

/// End of the run of digits that starts at `i`.
pub open spec fn digit_end(s: Seq<char>, i: int) -> int
    decreases s.len() - i,
{
    if 0 <= i < s.len() && is_digit(s[i]) {
        digit_end(s, i + 1)
    } else {
        i
    }
}

/// End of the run of `0` characters that starts at `i`.
pub open spec fn zero_end(s: Seq<char>, i: int) -> int
    decreases s.len() - i,
{
    if 0 <= i < s.len() && s[i] == '0' {
        zero_end(s, i + 1)
    } else {
        i
    }
}

/// The key of the text of `s` from position `i` on.
pub open spec fn key_from(s: Seq<char>, i: int) -> Seq<int>
    decreases s.len() - i,
{
    let k = nondigit_end(s, i);
    let z = zero_end(s, k);
    let d = digit_end(s, k);
    if i < 0 || i >= s.len() || d <= i || d > s.len() {
        Seq::empty()
    } else {
        weights(s.subrange(i, k)) + seq![0int, d - z] + digit_values(s.subrange(z, d))
            + key_from(s, d)
    }
}

pub open spec fn weights(s: Seq<char>) -> Seq<int> {
    s.map_values(|c: char| weight(c))
}

pub open spec fn digit_values(s: Seq<char>) -> Seq<int> {
    s.map_values(|c: char| digit_value(c))
}

pub open spec fn key(s: Seq<char>) -> Seq<int> {
    key_from(s, 0)
}

/// The element at `i`, or 0 past the end.
pub open spec fn at(a: Seq<int>, i: int) -> int {
    if 0 <= i < a.len() {
        a[i]
    } else {
        0
    }
}

/// Lexicographic comparison from position `i` on, both sides padded with 0.
pub open spec fn lex_cmp(a: Seq<int>, b: Seq<int>, i: int) -> int
    decreases a.len() + b.len() - i,
{
    if i < 0 || i >= a.len() && i >= b.len() {
        0
    } else if at(a, i) < at(b, i) {
        -1
    } else if at(a, i) > at(b, i) {
        1
    } else {
        lex_cmp(a, b, i + 1)
    }
}

/// Comparison of two version parts: -1, 0 or 1.
pub open spec fn part_cmp(a: Seq<char>, b: Seq<char>) -> int {
    lex_cmp(key(a), key(b), 0)
}

/// The epoch, upstream part and revision of a version; a missing epoch or
/// revision is empty, which orders as `0`.
pub struct Version {
    pub epoch: Vec<char>,
    pub upstream: Vec<char>,
    pub revision: Vec<char>,
}

impl View for Version {
    type V = (Seq<char>, Seq<char>, Seq<char>);

    open spec fn view(&self) -> (Seq<char>, Seq<char>, Seq<char>) {
        (self.epoch@, self.upstream@, self.revision@)
    }
}

/// Position of the first `c` at or after `i`, or the length when there is none.
pub open spec fn first_from(s: Seq<char>, c: char, i: int) -> int
    decreases s.len() - i,
{
    if 0 <= i < s.len() && s[i] != c {
        first_from(s, c, i + 1)
    } else {
        i
    }
}

/// Position of the last `c` before `i`, or -1 when there is none.
pub open spec fn last_before(s: Seq<char>, c: char, i: int) -> int
    decreases i,
{
    if i <= 0 {
        -1
    } else if s[i - 1] == c {
        i - 1
    } else {
        last_before(s, c, i - 1)
    }
}

/// Splits a version at its first `:` and, after that, at its last `-`.
pub open spec fn split_version(s: Seq<char>) -> (Seq<char>, Seq<char>, Seq<char>) {
    let colon = first_from(s, ':', 0);
    let epoch = if colon < s.len() { s.subrange(0, colon) } else { Seq::empty() };
    let rest = if colon < s.len() { s.subrange(colon + 1, s.len() as int) } else { s };
    let h = last_before(rest, '-', rest.len() as int);
    if h >= 0 {
        (epoch, rest.subrange(0, h), rest.subrange(h + 1, rest.len() as int))
    } else {
        (epoch, rest, Seq::empty())
    }
}

/// Comparison of two split versions: epoch first, then upstream, then revision.
pub open spec fn parts_cmp(
    a: (Seq<char>, Seq<char>, Seq<char>),
    b: (Seq<char>, Seq<char>, Seq<char>),
) -> int {
    if part_cmp(a.0, b.0) != 0 {
        part_cmp(a.0, b.0)
    } else if part_cmp(a.1, b.1) != 0 {
        part_cmp(a.1, b.1)
    } else {
        part_cmp(a.2, b.2)
    }
}

/// Comparison of two version strings: -1, 0 or 1.
pub open spec fn version_cmp(a: Seq<char>, b: Seq<char>) -> int {
    parts_cmp(split_version(a), split_version(b))
}

proof fn lemma_lex_cmp_range(a: Seq<int>, b: Seq<int>, i: int)
    ensures
        -1 <= lex_cmp(a, b, i) <= 1,
        lex_cmp(a, b, i) == -lex_cmp(b, a, i),
    decreases a.len() + b.len() - i,
{
    if !(i < 0 || i >= a.len() && i >= b.len()) && at(a, i) == at(b, i) {
        lemma_lex_cmp_range(a, b, i + 1);
    }
}

proof fn lemma_lex_cmp_trans(a: Seq<int>, b: Seq<int>, c: Seq<int>, i: int)
    requires
        i >= 0,
    ensures
        lex_cmp(a, b, i) <= 0 && lex_cmp(b, c, i) <= 0 ==> lex_cmp(a, c, i) <= 0,
        lex_cmp(a, b, i) < 0 && lex_cmp(b, c, i) <= 0 ==> lex_cmp(a, c, i) < 0,
        lex_cmp(a, b, i) <= 0 && lex_cmp(b, c, i) < 0 ==> lex_cmp(a, c, i) < 0,
        lex_cmp(a, b, i) == 0 && lex_cmp(b, c, i) == 0 ==> lex_cmp(a, c, i) == 0,
    decreases a.len() + b.len() + c.len() - i,
{
    if i < a.len() || i < b.len() || i < c.len() {
        lemma_lex_cmp_trans(a, b, c, i + 1);
    }
}

/// The order on version strings is a strict total order: every comparison
/// gives exactly one of less, equal and greater, swapping the operands
/// swaps less and greater, and less, equal and their combinations are
/// transitive.
pub proof fn lemma_version_order(a: Seq<char>, b: Seq<char>, c: Seq<char>)
    ensures
        version_cmp(a, b) == -1 || version_cmp(a, b) == 0 || version_cmp(a, b) == 1,
        version_cmp(a, b) == -version_cmp(b, a),
        version_cmp(a, a) == 0,
        version_cmp(a, b) < 0 && version_cmp(b, c) < 0 ==> version_cmp(a, c) < 0,
        version_cmp(a, b) == 0 && version_cmp(b, c) == 0 ==> version_cmp(a, c) == 0,
        version_cmp(a, b) <= 0 && version_cmp(b, c) <= 0 ==> version_cmp(a, c) <= 0,
{
    let (x, y, z) = (split_version(a), split_version(b), split_version(c));
    lemma_lex_cmp_range(key(x.0), key(y.0), 0);
    lemma_lex_cmp_range(key(x.1), key(y.1), 0);
    lemma_lex_cmp_range(key(x.2), key(y.2), 0);
    lemma_lex_cmp_range(key(x.0), key(x.0), 0);
    lemma_lex_cmp_range(key(x.1), key(x.1), 0);
    lemma_lex_cmp_range(key(x.2), key(x.2), 0);
    lemma_lex_cmp_trans(key(x.0), key(y.0), key(z.0), 0);
    lemma_lex_cmp_trans(key(x.1), key(y.1), key(z.1), 0);
    lemma_lex_cmp_trans(key(x.2), key(y.2), key(z.2), 0);
}

proof fn lemma_runs(s: Seq<char>, i: int)
    requires
        0 <= i <= s.len(),
    ensures
        i <= nondigit_end(s, i) <= s.len(),
        nondigit_end(s, i) <= zero_end(s, nondigit_end(s, i)) <= digit_end(s, nondigit_end(s, i))
            <= s.len(),
        i < s.len() ==> i < digit_end(s, nondigit_end(s, i)),
{
    lemma_nondigit_end(s, i);
    let k = nondigit_end(s, i);
    lemma_digit_end(s, k);
    lemma_zero_end(s, k);
}

proof fn lemma_nondigit_end(s: Seq<char>, i: int)
    requires
        0 <= i <= s.len(),
    ensures
        i <= nondigit_end(s, i) <= s.len(),
        nondigit_end(s, i) < s.len() ==> is_digit(s[nondigit_end(s, i)]),
    decreases s.len() - i,
{
    if i < s.len() && !is_digit(s[i]) {
        lemma_nondigit_end(s, i + 1);
    }
}

proof fn lemma_digit_end(s: Seq<char>, i: int)
    requires
        0 <= i <= s.len(),
    ensures
        i <= digit_end(s, i) <= s.len(),
        i < s.len() && is_digit(s[i]) ==> i < digit_end(s, i),
    decreases s.len() - i,
{
    if i < s.len() && is_digit(s[i]) {
        lemma_digit_end(s, i + 1);
    }
}

proof fn lemma_zero_end(s: Seq<char>, i: int)
    requires
        0 <= i <= s.len(),
    ensures
        i <= zero_end(s, i) <= digit_end(s, i),
    decreases s.len() - i,
{
    lemma_digit_end(s, i);
    if i < s.len() && s[i] == '0' {
        lemma_zero_end(s, i + 1);
    }
}

fn digit(c: char) -> (r: bool)
    ensures
        r == is_digit(c),
{
    '0' <= c && c <= '9'
}

fn weight_of(c: char) -> (r: i128)
    ensures
        r == weight(c),
{
    if c == '~' {
        -1
    } else if ('a' <= c && c <= 'z') || ('A' <= c && c <= 'Z') {
        c as u32 as i128
    } else {
        c as u32 as i128 + 256
    }
}

fn digit_value_of(c: char) -> (r: i128)
    ensures
        r == digit_value(c),
{
    c as u32 as i128
}

fn nondigit_run_end(s: &Vec<char>, i: usize) -> (r: usize)
    requires
        i <= s@.len(),
    ensures
        r == nondigit_end(s@, i as int),
{
    let mut j = i;
    while j < s.len() && !digit(s[j])
        invariant
            i <= j <= s@.len(),
            nondigit_end(s@, i as int) == nondigit_end(s@, j as int),
        decreases s@.len() - j,
    {
        j = j + 1;
    }
    j
}

fn digit_run_end(s: &Vec<char>, i: usize) -> (r: usize)
    requires
        i <= s@.len(),
    ensures
        r == digit_end(s@, i as int),
{
    let mut j = i;
    while j < s.len() && digit(s[j])
        invariant
            i <= j <= s@.len(),
            digit_end(s@, i as int) == digit_end(s@, j as int),
        decreases s@.len() - j,
    {
        j = j + 1;
    }
    j
}

fn zero_run_end(s: &Vec<char>, i: usize) -> (r: usize)
    requires
        i <= s@.len(),
    ensures
        r == zero_end(s@, i as int),
{
    let mut j = i;
    while j < s.len() && s[j] == '0'
        invariant
            i <= j <= s@.len(),
            zero_end(s@, i as int) == zero_end(s@, j as int),
        decreases s@.len() - j,
    {
        j = j + 1;
    }
    j
}

pub open spec fn ints(v: Seq<i128>) -> Seq<int> {
    v.map_values(|x: i128| x as int)
}

/// Computes the comparison key of a version part.
pub fn part_key(s: &Vec<char>) -> (r: Vec<i128>)
    ensures
        ints(r@) == key(s@),
{
    let mut out: Vec<i128> = Vec::new();
    let mut p: usize = 0;
    while p < s.len()
        invariant
            p <= s@.len(),
            ints(out@) + key_from(s@, p as int) == key(s@),
        decreases s@.len() - p,
    {
        proof {
            lemma_runs(s@, p as int);
        }
        let k = nondigit_run_end(s, p);
        let z = zero_run_end(s, k);
        let d = digit_run_end(s, k);
        let ghost start = out@;
        let ghost tail = key_from(s@, d as int);
        let mut j = p;
        while j < k
            invariant
                p <= j <= k <= s@.len(),
                ints(out@) == ints(start) + weights(s@.subrange(p as int, j as int)),
            decreases k - j,
        {
            let w = weight_of(s[j]);
            let ghost prev = out@;
            out.push(w);
            assert(s@.subrange(p as int, j + 1) =~= s@.subrange(p as int, j as int).push(s@[j as int]));
            assert(weights(s@.subrange(p as int, j + 1)) =~= weights(s@.subrange(p as int, j as int)).push(w as int));
            assert(ints(out@) =~= ints(prev).push(w as int));
            j = j + 1;
        }
        let ghost mid = out@;
        out.push(0);
        out.push((d - z) as i128);
        assert(ints(out@) =~= ints(mid) + seq![0int, d - z]);
        let ghost mid2 = out@;
        let mut j = z;
        while j < d
            invariant
                z <= j <= d <= s@.len(),
                ints(out@) == ints(mid2) + digit_values(s@.subrange(z as int, j as int)),
            decreases d - j,
        {
            let v = digit_value_of(s[j]);
            let ghost prev = out@;
            out.push(v);
            assert(s@.subrange(z as int, j + 1) =~= s@.subrange(z as int, j as int).push(s@[j as int]));
            assert(digit_values(s@.subrange(z as int, j + 1)) =~= digit_values(s@.subrange(z as int, j as int)).push(v as int));
            assert(ints(out@) =~= ints(prev).push(v as int));
            j = j + 1;
        }
        assert(key_from(s@, p as int) == weights(s@.subrange(p as int, k as int)) + seq![0int, d - z]
            + digit_values(s@.subrange(z as int, d as int)) + tail);
        assert(ints(out@) + tail =~= ints(start) + key_from(s@, p as int));
        p = d;
    }
    assert(ints(out@) =~= ints(out@) + key_from(s@, p as int));
    out
}

fn at_of(a: &Vec<i128>, i: usize) -> (r: i128)
    ensures
        r == at(ints(a@), i as int),
{
    if i < a.len() {
        a[i]
    } else {
        0
    }
}

/// Compares two keys lexicographically, a missing position counting as 0.
pub fn key_cmp(a: &Vec<i128>, b: &Vec<i128>) -> (r: i8)
    ensures
        r as int == lex_cmp(ints(a@), ints(b@), 0),
{
    let mut i: usize = 0;
    while i < a.len() || i < b.len()
        invariant
            ints(a@).len() == a@.len(),
            ints(b@).len() == b@.len(),
            lex_cmp(ints(a@), ints(b@), 0) == lex_cmp(ints(a@), ints(b@), i as int),
        decreases a@.len() + b@.len() - i,
    {
        let x = at_of(a, i);
        let y = at_of(b, i);
        if x < y {
            return -1;
        } else if x > y {
            return 1;
        }
        i = i + 1;
    }
    0
}

fn slice_chars(s: &Vec<char>, from: usize, to: usize) -> (r: Vec<char>)
    requires
        from <= to <= s@.len(),
    ensures
        r@ == s@.subrange(from as int, to as int),
{
    let mut r: Vec<char> = Vec::new();
    let mut j = from;
    while j < to
        invariant
            from <= j <= to <= s@.len(),
            r@ == s@.subrange(from as int, j as int),
        decreases to - j,
    {
        r.push(s[j]);
        assert(r@ =~= s@.subrange(from as int, j + 1));
        j = j + 1;
    }
    r
}

impl Version {
    /// Splits a version string into epoch, upstream part and revision. Any
    /// text is accepted.
    pub fn parse(text: &str) -> (r: Version)
        ensures
            r@ == split_version(text@),
    {
        let s = chars_of(text);
        let mut colon: usize = 0;
        while colon < s.len() && s[colon] != ':'
            invariant
                colon <= s@.len(),
                first_from(s@, ':', 0) == first_from(s@, ':', colon as int),
            decreases s@.len() - colon,
        {
            colon = colon + 1;
        }
        let epoch = if colon < s.len() { slice_chars(&s, 0, colon) } else { Vec::new() };
        let rest = if colon < s.len() { slice_chars(&s, colon + 1, s.len()) } else { s };
        let mut h: usize = rest.len();
        while h > 0 && rest[h - 1] != '-'
            invariant
                h <= rest@.len(),
                last_before(rest@, '-', rest@.len() as int) == last_before(rest@, '-', h as int),
            decreases h,
        {
            h = h - 1;
        }
        if h > 0 {
            let upstream = slice_chars(&rest, 0, h - 1);
            let revision = slice_chars(&rest, h, rest.len());
            Version { epoch, upstream, revision }
        } else {
            proof {
                assert(epoch@ == split_version(text@).0);
            }
            Version { epoch, upstream: rest, revision: Vec::new() }
        }
    }

    /// Three-way comparison by the conventional order of package versions.
    pub fn compare(&self, other: &Version) -> (r: core::cmp::Ordering)
        ensures
            r == core::cmp::Ordering::Less <==> parts_cmp(self@, other@) < 0,
            r == core::cmp::Ordering::Equal <==> parts_cmp(self@, other@) == 0,
            r == core::cmp::Ordering::Greater <==> parts_cmp(self@, other@) > 0,
    {
        let mut c = key_cmp(&part_key(&self.epoch), &part_key(&other.epoch));
        if c == 0 {
            c = key_cmp(&part_key(&self.upstream), &part_key(&other.upstream));
            if c == 0 {
                c = key_cmp(&part_key(&self.revision), &part_key(&other.revision));
            }
        }
        if c < 0 {
            core::cmp::Ordering::Less
        } else if c == 0 {
            core::cmp::Ordering::Equal
        } else {
            core::cmp::Ordering::Greater
        }
    }
}

/// Compares two version strings by the conventional order of package versions.
pub fn compare_versions(a: &str, b: &str) -> (r: core::cmp::Ordering)
    ensures
        r == core::cmp::Ordering::Less <==> version_cmp(a@, b@) < 0,
        r == core::cmp::Ordering::Equal <==> version_cmp(a@, b@) == 0,
        r == core::cmp::Ordering::Greater <==> version_cmp(a@, b@) > 0,
{
    let x = Version::parse(a);
    let y = Version::parse(b);
    x.compare(&y)
}

} // verus!
