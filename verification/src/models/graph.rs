use vstd::prelude::*;
use vstd::slice::{slice_subrange, slice_to_vec};
use crate::models::rng::ColonyRng;

verus! {

/// Why a graph description was rejected.
#[derive(Clone, Copy, PartialEq, Eq, Structural, Debug)]
pub enum GraphError {
    /// The description has fewer than two lines, or its second line does not
    /// hold at least two decimal counts that fit in `usize`.
    InvalidHeader,
    /// An edge line is not made of decimal numbers, names a vertex outside
    /// `1..=n`, or joins a vertex to itself.
    InvalidEdge,
}

pub const NEWLINE: u8 = 10;
pub const SPACE: u8 = 32;

/// A byte that `trim` removes at either end of a line.
pub open spec fn is_blank(b: u8) -> bool {
    b == 32 || b == 13 || b == 9
}

pub open spec fn is_digit(b: u8) -> bool {
    48 <= b <= 57
}

/// The segments of `t` between occurrences of `sep`; always at least one
/// segment, and empty segments are kept.
pub open spec fn split_bytes(t: Seq<u8>, sep: u8) -> Seq<Seq<u8>>
    decreases t.len(),
{
    if t.len() == 0 {
        seq![Seq::<u8>::empty()]
    } else if t[0] == sep {
        seq![Seq::<u8>::empty()] + split_bytes(t.drop_first(), sep)
    } else {
        let rest = split_bytes(t.drop_first(), sep);
        seq![seq![t[0]] + rest[0]] + rest.drop_first()
    }
}

/// The lines of `t`: newline-separated segments, without the empty segment
/// that a trailing newline would add.
pub open spec fn lines_of(t: Seq<u8>) -> Seq<Seq<u8>> {
    let segs = split_bytes(t, NEWLINE);
    if t.len() > 0 && t.last() == NEWLINE {
        segs.drop_last()
    } else {
        segs
    }
}

pub open spec fn trim_front(l: Seq<u8>) -> Seq<u8>
    decreases l.len(),
{
    if l.len() > 0 && is_blank(l.first()) {
        trim_front(l.drop_first())
    } else {
        l
    }
}

pub open spec fn trim_back(l: Seq<u8>) -> Seq<u8>
    decreases l.len(),
{
    if l.len() > 0 && is_blank(l.last()) {
        trim_back(l.drop_last())
    } else {
        l
    }
}

/// `l` without blank bytes at either end.
pub open spec fn trim_spec(l: Seq<u8>) -> Seq<u8> {
    trim_back(trim_front(l))
}

pub open spec fn all_digits(t: Seq<u8>) -> bool {
    forall|i: int| 0 <= i < t.len() ==> is_digit(#[trigger] t[i])
}

/// A non-empty run of decimal digits.
pub open spec fn is_number(t: Seq<u8>) -> bool {
    t.len() > 0 && all_digits(t)
}

/// The value of a run of decimal digits.
pub open spec fn digits_val(t: Seq<u8>) -> int
    decreases t.len(),
{
    if t.len() == 0 {
        0
    } else {
        digits_val(t.drop_last()) * 10 + (t.last() - 48)
    }
}

/// The blank-separated tokens of a line, after trimming.
pub open spec fn tokens_of(l: Seq<u8>) -> Seq<Seq<u8>> {
    split_bytes(trim_spec(l), SPACE)
}

/// A line carrying at least two numbers, every token numeric and fitting in
/// `usize`.
pub open spec fn line_nums_ok(l: Seq<u8>) -> bool {
    let toks = tokens_of(l);
    &&& toks.len() >= 2
    &&& forall|k: int|
        0 <= k < toks.len() ==> is_number(#[trigger] toks[k]) && digits_val(toks[k]) <= usize::MAX
}

pub open spec fn line_first(l: Seq<u8>) -> int {
    digits_val(tokens_of(l)[0])
}

pub open spec fn line_second(l: Seq<u8>) -> int {
    digits_val(tokens_of(l)[1])
}

/// The header is the second line of the description; its first number is the
/// vertex count.
pub open spec fn header_ok(t: Seq<u8>) -> bool {
    let ls = lines_of(t);
    ls.len() >= 2 && line_nums_ok(ls[1])
}

pub open spec fn input_n_vertex(t: Seq<u8>) -> int {
    line_first(lines_of(t)[1])
}

/// An acceptable edge line for a graph on `n` vertices: two 1-indexed
/// vertices, both in range, not equal.
pub open spec fn edge_line_ok(l: Seq<u8>, n: int) -> bool {
    &&& line_nums_ok(l)
    &&& 1 <= line_first(l) <= n
    &&& 1 <= line_second(l) <= n
    &&& line_first(l) != line_second(l)
}

pub open spec fn edge_lines_ok(t: Seq<u8>) -> bool {
    let ls = lines_of(t);
    forall|k: int| 2 <= k < ls.len() ==> edge_line_ok(#[trigger] ls[k], input_n_vertex(t))
}

/// A graph description the parser accepts.
pub open spec fn graph_input_ok(t: Seq<u8>) -> bool {
    header_ok(t) && edge_lines_ok(t)
}

/// Line `k` names the unordered pair of 0-indexed vertices `{u, v}`.
pub open spec fn pair_at(ls: Seq<Seq<u8>>, k: int, u: int, v: int) -> bool {
    let a = line_first(ls[k]);
    let b = line_second(ls[k]);
    (a == u + 1 && b == v + 1) || (a == v + 1 && b == u + 1)
}

/// Some edge line with index below `hi` names the pair `{u, v}`.
pub open spec fn edge_among(ls: Seq<Seq<u8>>, hi: int, u: int, v: int) -> bool {
    exists|k: int| 2 <= k < hi && #[trigger] pair_at(ls, k, u, v)
}

/// Some edge line names the unordered pair of 0-indexed vertices `{u, v}`.
pub open spec fn input_has_edge(t: Seq<u8>, u: int, v: int) -> bool {
    edge_among(lines_of(t), lines_of(t).len() as int, u, v)
}

pub proof fn lemma_push_contains(s: Seq<usize>, x: usize, y: usize)
    ensures
        s.push(x).contains(y) <==> (s.contains(y) || y == x),
{
    if s.contains(y) {
        let k = choose|k: int| 0 <= k < s.len() && s[k] == y;
        assert(s.push(x)[k] == y);
    }
    if y == x {
        assert(s.push(x)[s.len() as int] == y);
    }
    if s.push(x).contains(y) {
        let k = choose|k: int| 0 <= k < s.push(x).len() && s.push(x)[k] == y;
        if k < s.len() {
            assert(s[k] == y);
        }
    }
}

pub proof fn lemma_push_no_dup(s: Seq<usize>, x: usize)
    requires
        s.no_duplicates(),
        !s.contains(x),
    ensures
        s.push(x).no_duplicates(),
{
    let t = s.push(x);
    assert forall|i: int, j: int|
        0 <= i < t.len() && 0 <= j < t.len() && i != j implies t[i] != t[j] by {
        if i < s.len() && j < s.len() {
            assert(s[i] != s[j]);
        } else if i < s.len() {
            assert(t[j] == x);
            if s[i] == x {
                assert(s.contains(x));
            }
        } else {
            assert(t[i] == x);
            if s[j] == x {
                assert(s.contains(x));
            }
        }
    }
}

/// No occurrence of `sep` anywhere in `t`.
pub open spec fn no_byte(t: Seq<u8>, sep: u8) -> bool {
    forall|i: int| 0 <= i < t.len() ==> (#[trigger] t[i]) != sep
}

/// The views of a sequence of byte vectors.
pub open spec fn seqs_of(v: Seq<Vec<u8>>) -> Seq<Seq<u8>> {
    v.map_values(|x: Vec<u8>| x@)
}

pub proof fn lemma_split_len(t: Seq<u8>, sep: u8)
    ensures
        split_bytes(t, sep).len() >= 1,
    decreases t.len(),
{
    if t.len() > 0 && t[0] != sep {
        lemma_split_len(t.drop_first(), sep);
    }
}

pub proof fn lemma_split_no_sep(t: Seq<u8>, sep: u8)
    requires
        no_byte(t, sep),
    ensures
        split_bytes(t, sep) == seq![t],
    decreases t.len(),
{
    if t.len() == 0 {
        assert(split_bytes(t, sep) =~~= seq![t]);
    } else {
        assert(t[0] != sep);
        assert(no_byte(t.drop_first(), sep)) by {
            assert forall|i: int|
                0 <= i < t.drop_first().len() implies (#[trigger] t.drop_first()[i]) != sep by {
                assert(t.drop_first()[i] == t[i + 1]);
            }
        }
        lemma_split_no_sep(t.drop_first(), sep);
        assert(seq![t[0]] + t.drop_first() =~= t);
        assert(split_bytes(t, sep) =~~= seq![t]);
    }
}

pub proof fn lemma_split_append(a: Seq<u8>, b: Seq<u8>, sep: u8)
    ensures
        split_bytes(a + seq![sep] + b, sep) == split_bytes(a, sep) + split_bytes(b, sep),
    decreases a.len(),
{
    let t = a + seq![sep] + b;
    lemma_split_len(b, sep);
    if a.len() == 0 {
        assert(t[0] == sep);
        assert(t.drop_first() =~= b);
        assert(split_bytes(a, sep) =~~= seq![Seq::<u8>::empty()]);
        assert(split_bytes(t, sep) =~~= split_bytes(a, sep) + split_bytes(b, sep));
    } else {
        assert(t[0] == a[0]);
        assert(t.drop_first() =~= a.drop_first() + seq![sep] + b);
        lemma_split_append(a.drop_first(), b, sep);
        lemma_split_len(a.drop_first(), sep);
        let ra = split_bytes(a.drop_first(), sep);
        let rb = split_bytes(b, sep);
        if a[0] == sep {
            assert(split_bytes(t, sep) =~~= seq![Seq::<u8>::empty()] + (ra + rb));
            assert(split_bytes(a, sep) =~~= seq![Seq::<u8>::empty()] + ra);
            assert(split_bytes(t, sep) =~~= split_bytes(a, sep) + split_bytes(b, sep));
        } else {
            assert((ra + rb)[0] == ra[0]);
            assert((ra + rb).drop_first() =~~= ra.drop_first() + rb);
            assert(split_bytes(t, sep) =~~= seq![seq![t[0]] + ra[0]] + (ra.drop_first() + rb));
            assert(split_bytes(a, sep) =~~= seq![seq![a[0]] + ra[0]] + ra.drop_first());
            assert(split_bytes(t, sep) =~~= split_bytes(a, sep) + split_bytes(b, sep));
        }
    }
}

/// The segments of `t` between occurrences of `sep`.
pub fn split_at_byte(t: &[u8], sep: u8) -> (r: Vec<Vec<u8>>)
    ensures
        seqs_of(r@) == split_bytes(t@, sep),
{
    let mut r: Vec<Vec<u8>> = Vec::new();
    let mut cur: Vec<u8> = Vec::new();
    let mut i: usize = 0;
    proof {
        assert(cur@ + t@.skip(0) =~= t@);
        assert(seqs_of(r@) + split_bytes(t@, sep) =~~= split_bytes(t@, sep));
    }
    while i < t.len()
        invariant
            i <= t@.len(),
            no_byte(cur@, sep),
            split_bytes(t@, sep) == seqs_of(r@) + split_bytes(cur@ + t@.skip(i as int), sep),
        decreases t@.len() - i,
    {
        let c = t[i];
        if c == sep {
            proof {
                assert(cur@ + t@.skip(i as int) =~= cur@ + seq![sep] + t@.skip(i as int + 1));
                lemma_split_append(cur@, t@.skip(i as int + 1), sep);
                lemma_split_no_sep(cur@, sep);
                assert(seqs_of(r@.push(cur)) =~~= seqs_of(r@) + seq![cur@]);
                assert(seqs_of(r@) + (seq![cur@] + split_bytes(t@.skip(i as int + 1), sep))
                    =~~= seqs_of(r@.push(cur)) + split_bytes(t@.skip(i as int + 1), sep));
            }
            r.push(cur);
            cur = Vec::new();
            proof {
                assert(cur@ + t@.skip(i as int + 1) =~= t@.skip(i as int + 1));
            }
        } else {
            proof {
                assert(cur@.push(c) + t@.skip(i as int + 1) =~= cur@ + t@.skip(i as int));
            }
            cur.push(c);
        }
        i = i + 1;
    }
    proof {
        assert(cur@ + t@.skip(t@.len() as int) =~= cur@);
        lemma_split_no_sep(cur@, sep);
        assert(seqs_of(r@.push(cur)) =~~= seqs_of(r@) + seq![cur@]);
    }
    r.push(cur);
    r
}

/// The lines of a description, without the empty line a trailing newline
/// would add.
pub fn split_lines(t: &[u8]) -> (r: Vec<Vec<u8>>)
    ensures
        seqs_of(r@) == lines_of(t@),
{
    let mut r = split_at_byte(t, NEWLINE);
    if t.len() > 0 && t[t.len() - 1] == NEWLINE {
        proof {
            lemma_split_len(t@, NEWLINE);
            assert(r@.len() >= 1) by {
                assert(seqs_of(r@).len() == r@.len());
            }
            assert(seqs_of(r@.drop_last()) =~~= seqs_of(r@).drop_last());
        }
        let _last = r.pop();
    }
    r
}

/// The bytes of `l` without blanks at either end.
pub fn trim(l: &[u8]) -> (r: Vec<u8>)
    ensures
        r@ == trim_spec(l@),
{
    let mut a: usize = 0;
    proof {
        assert(l@.skip(0) =~= l@);
    }
    while a < l.len() && (l[a] == 32 || l[a] == 13 || l[a] == 9)
        invariant
            a <= l@.len(),
            trim_front(l@) == trim_front(l@.skip(a as int)),
        decreases l@.len() - a,
    {
        proof {
            assert(l@.skip(a as int)[0] == l@[a as int]);
            assert(l@.skip(a as int).drop_first() =~= l@.skip(a as int + 1));
        }
        a = a + 1;
    }
    proof {
        if a < l@.len() {
            assert(trim_front(l@.skip(a as int)) == l@.skip(a as int));
        } else {
            assert(l@.skip(a as int) =~= Seq::<u8>::empty());
        }
        assert(l@.skip(a as int) =~= l@.subrange(a as int, l@.len() as int));
    }
    let mut b: usize = l.len();
    while b > a && (l[b - 1] == 32 || l[b - 1] == 13 || l[b - 1] == 9)
        invariant
            a <= b <= l@.len(),
            trim_front(l@) == l@.subrange(a as int, l@.len() as int),
            trim_spec(l@) == trim_back(l@.subrange(a as int, b as int)),
        decreases b,
    {
        proof {
            let s = l@.subrange(a as int, b as int);
            assert(s.last() == l@[b - 1]);
            assert(s.drop_last() =~= l@.subrange(a as int, b as int - 1));
        }
        b = b - 1;
    }
    proof {
        let s = l@.subrange(a as int, b as int);
        if b > a {
            assert(s.last() == l@[b - 1]);
            assert(trim_back(s) == s);
        } else {
            assert(s =~= Seq::<u8>::empty());
        }
    }
    slice_to_vec(slice_subrange(l, a, b))
}

pub proof fn lemma_digits_val_nonneg(t: Seq<u8>)
    requires
        all_digits(t),
    ensures
        digits_val(t) >= 0,
    decreases t.len(),
{
    if t.len() > 0 {
        assert(all_digits(t.drop_last())) by {
            assert forall|i: int|
                0 <= i < t.drop_last().len() implies is_digit(#[trigger] t.drop_last()[i]) by {
                assert(t.drop_last()[i] == t[i]);
            }
        }
        lemma_digits_val_nonneg(t.drop_last());
        assert(is_digit(t[t.len() - 1]));
        assert(digits_val(t.drop_last()) * 10 >= 0) by (nonlinear_arith)
            requires
                digits_val(t.drop_last()) >= 0,
        ;
    }
}

pub proof fn lemma_digits_val_monotone(t: Seq<u8>, j: int)
    requires
        all_digits(t),
        0 <= j <= t.len(),
    ensures
        digits_val(t.take(j)) <= digits_val(t),
    decreases t.len() - j,
{
    if j < t.len() {
        lemma_digits_val_monotone(t, j + 1);
        let s = t.take(j + 1);
        assert(s.drop_last() =~= t.take(j));
        assert(s.last() == t[j]);
        assert(is_digit(t[j]));
        assert(all_digits(t.take(j))) by {
            assert forall|i: int|
                0 <= i < t.take(j).len() implies is_digit(#[trigger] t.take(j)[i]) by {
                assert(t.take(j)[i] == t[i]);
            }
        }
        lemma_digits_val_nonneg(t.take(j));
        assert(digits_val(t.take(j)) * 10 + (t[j] - 48) >= digits_val(t.take(j)))
            by (nonlinear_arith)
            requires
                digits_val(t.take(j)) >= 0,
                t[j] >= 48,
        ;
    } else {
        assert(t.take(j) =~= t);
    }
}

/// The value of a decimal token; `None` when the token is empty, has a
/// non-digit, or does not fit in `usize`.
pub fn parse_usize(t: &[u8]) -> (r: Option<usize>)
    ensures
        r is Some <==> is_number(t@) && digits_val(t@) <= usize::MAX,
        r matches Some(v) ==> v == digits_val(t@),
{
    if t.len() == 0 {
        return None;
    }
    let mut acc: usize = 0;
    let mut i: usize = 0;
    while i < t.len()
        invariant
            i <= t@.len(),
            t@.len() >= 1,
            all_digits(t@.take(i as int)),
            acc == digits_val(t@.take(i as int)),
        decreases t@.len() - i,
    {
        let c = t[i];
        if c < 48 || c > 57 {
            proof {
                assert(!is_digit(t@[i as int]));
            }
            return None;
        }
        let d = (c - 48) as usize;
        proof {
            assert(t@.take(i as int + 1).drop_last() =~= t@.take(i as int));
            assert(t@.take(i as int + 1).last() == t@[i as int]);
            assert(all_digits(t@.take(i as int + 1))) by {
                assert forall|k: int|
                    0 <= k < t@.take(i as int + 1).len() implies is_digit(
                    #[trigger] t@.take(i as int + 1)[k],
                ) by {
                    if k < i {
                        assert(t@.take(i as int + 1)[k] == t@.take(i as int)[k]);
                    }
                }
            }
        }
        if acc > (usize::MAX - d) / 10 {
            proof {
                let full = digits_val(t@.take(i as int + 1));
                assert(full == acc * 10 + d);
                assert(acc * 10 + d > usize::MAX) by (nonlinear_arith)
                    requires
                        acc > (usize::MAX - (d as int)) / 10,
                        0 <= d <= 9,
                        acc >= 0,
                        usize::MAX - d == 10 * ((usize::MAX - (d as int)) / 10) + (usize::MAX
                            - (d as int)) % 10,
                        0 <= (usize::MAX - (d as int)) % 10 < 10,
                ;
                if is_number(t@) {
                    lemma_digits_val_monotone(t@, i as int + 1);
                }
            }
            return None;
        }
        proof {
            assert(10 * acc <= 10 * ((usize::MAX - (d as int)) / 10)) by (nonlinear_arith)
                requires
                    acc <= (usize::MAX - (d as int)) / 10,
            ;
            assert(10 * ((usize::MAX - (d as int)) / 10) <= usize::MAX - d) by {
                vstd::arithmetic::div_mod::lemma_fundamental_div_mod(
                    usize::MAX - (d as int),
                    10,
                );
                vstd::arithmetic::div_mod::lemma_mod_pos_bound(usize::MAX - (d as int), 10);
            }
        }
        acc = acc * 10 + d;
        i = i + 1;
    }
    proof {
        assert(t@.take(t@.len() as int) =~= t@);
    }
    Some(acc)
}

/// Parse a whole line of numbers: at least two tokens, all numeric; the
/// first two values are returned.
pub fn parse_line_nums(line: &[u8]) -> (r: Option<(usize, usize)>)
    ensures
        r is Some <==> line_nums_ok(line@),
        r matches Some(p) ==> p.0 == line_first(line@) && p.1 == line_second(line@),
{
    let trimmed = trim(line);
    let toks = split_at_byte(trimmed.as_slice(), SPACE);
    proof {
        assert(seqs_of(toks@) == tokens_of(line@));
    }
    if toks.len() < 2 {
        return None;
    }
    let mut first: usize = 0;
    let mut second: usize = 0;
    let mut k: usize = 0;
    while k < toks.len()
        invariant
            toks@.len() >= 2,
            k <= toks@.len(),
            seqs_of(toks@) == tokens_of(line@),
            forall|j: int|
                0 <= j < k ==> is_number(#[trigger] tokens_of(line@)[j]) && digits_val(
                    tokens_of(line@)[j],
                ) <= usize::MAX,
            k >= 1 ==> first == line_first(line@),
            k >= 2 ==> second == line_second(line@),
        decreases toks@.len() - k,
    {
        proof {
            assert(toks@[k as int]@ == tokens_of(line@)[k as int]);
        }
        match parse_usize(toks[k].as_slice()) {
            Some(v) => {
                if k == 0 {
                    first = v;
                } else if k == 1 {
                    second = v;
                }
            },
            None => {
                return None;
            },
        }
        k = k + 1;
    }
    Some((first, second))
}

/// An undirected graph on vertices `0 .. n_vertex`, kept both as an adjacency
/// matrix and as per-vertex neighbor lists.
pub struct Graph {
    pub adj_mtx: Vec<Vec<bool>>,
    pub neighbors: Vec<Vec<usize>>,
    pub n_vertex: usize,
}

pub open spec fn sorted_strict(s: Seq<usize>) -> bool {
    forall|i: int, j: int| 0 <= i < j < s.len() ==> s[i] < s[j]
}

impl Graph {
    /// Whether `u` and `v` are joined by an edge.
    pub open spec fn edge(&self, u: int, v: int) -> bool {
        self.adj_mtx@[u]@[v]
    }

    /// Shape and symmetry of the adjacency data.
    pub open spec fn wf(&self) -> bool {
        let n = self.n_vertex as int;
        &&& self.adj_mtx@.len() == n
        &&& forall|u: int| 0 <= u < n ==> (#[trigger] self.adj_mtx@[u])@.len() == n
        &&& forall|u: int, v: int|
            0 <= u < n && 0 <= v < n ==> #[trigger] self.edge(u, v) == self.edge(v, u)
        &&& forall|u: int| 0 <= u < n ==> !(#[trigger] self.edge(u, u))
        &&& self.neighbors@.len() == n
        &&& forall|v: int| 0 <= v < n ==> sorted_strict((#[trigger] self.neighbors@[v])@)
        &&& forall|v: int, k: int|
            0 <= v < n && 0 <= k < self.neighbors@[v]@.len()
                ==> (#[trigger] self.neighbors@[v]@[k]) < self.n_vertex
        &&& forall|v: int, u: int|
            0 <= v < n && 0 <= u < n
                ==> ((#[trigger] self.neighbors@[v]@.contains(u as usize)) <==> self.edge(v, u))
    }

    /// Parse a graph description. The second line holds the vertex count and
    /// one further count; every later line holds one 1-indexed edge. A
    /// missing or malformed header, a malformed edge line, an endpoint
    /// outside `1..=n` and a self-loop are all rejected.
    pub fn new(text: &[u8]) -> (r: Result<Graph, GraphError>)
        ensures
            r is Ok <==> graph_input_ok(text@),
            !header_ok(text@) ==> r == Err::<Graph, GraphError>(GraphError::InvalidHeader),
            header_ok(text@) && !edge_lines_ok(text@) ==> r == Err::<Graph, GraphError>(
                GraphError::InvalidEdge,
            ),
            r matches Ok(g) ==> g.wf() && g.n_vertex as int == input_n_vertex(text@) && forall|
                u: int,
                v: int,
            |
                0 <= u < g.n_vertex && 0 <= v < g.n_vertex ==> ((#[trigger] g.edge(u, v))
                    <==> input_has_edge(text@, u, v)),
    {
        let ghost ls = lines_of(text@);
        let all_lines = split_lines(text);
        if all_lines.len() < 2 {
            return Err(GraphError::InvalidHeader);
        }
        proof {
            assert(all_lines@[1]@ == ls[1]);
        }
        let n: usize = match parse_line_nums(all_lines[1].as_slice()) {
            Some(p) => p.0,
            None => {
                return Err(GraphError::InvalidHeader);
            },
        };
        let mut adj: Vec<Vec<bool>> = Vec::new();
        let mut ui: usize = 0;
        while ui < n
            invariant
                adj@.len() == ui,
                ui <= n,
                forall|a: int| 0 <= a < ui ==> (#[trigger] adj@[a])@.len() == n,
                forall|a: int, b: int| 0 <= a < ui && 0 <= b < n ==> !(#[trigger] adj@[a]@[b]),
            decreases n - ui,
        {
            let mut row: Vec<bool> = Vec::new();
            let mut vi: usize = 0;
            while vi < n
                invariant
                    row@.len() == vi,
                    vi <= n,
                    forall|b: int| 0 <= b < vi ==> !(#[trigger] row@[b]),
                decreases n - vi,
            {
                row.push(false);
                vi = vi + 1;
            }
            adj.push(row);
            ui = ui + 1;
        }
        let mut li: usize = 2;
        while li < all_lines.len()
            invariant
                2 <= li <= all_lines@.len(),
                seqs_of(all_lines@) == ls,
                ls == lines_of(text@),
                ls.len() >= 2,
                line_nums_ok(ls[1]),
                n as int == line_first(ls[1]),
                adj@.len() == n,
                forall|a: int| 0 <= a < n ==> (#[trigger] adj@[a])@.len() == n,
                forall|j: int| 2 <= j < li ==> edge_line_ok(#[trigger] ls[j], n as int),
                forall|a: int, b: int|
                    0 <= a < n && 0 <= b < n ==> ((#[trigger] adj@[a]@[b]) <==> edge_among(
                        ls,
                        li as int,
                        a,
                        b,
                    )),
            decreases all_lines@.len() - li,
        {
            proof {
                assert(all_lines@[li as int]@ == ls[li as int]);
            }
            let pair: (usize, usize) = match parse_line_nums(all_lines[li].as_slice()) {
                Some(p) => p,
                None => {
                    return Err(GraphError::InvalidEdge);
                },
            };
            let a: usize = pair.0;
            let b: usize = pair.1;
            if a < 1 || a > n || b < 1 || b > n || a == b {
                return Err(GraphError::InvalidEdge);
            }
            let v1 = a - 1;
            let v2 = b - 1;
            let ghost old_adj = adj@;
            adj[v1][v2] = true;
            adj[v2][v1] = true;
            proof {
                assert(edge_line_ok(ls[li as int], n as int));
                assert forall|x: int, y: int|
                    0 <= x < n && 0 <= y < n implies ((#[trigger] adj@[x]@[y]) <==> edge_among(
                    ls,
                    li as int + 1,
                    x,
                    y,
                )) by {
                    if (x == v1 as int && y == v2 as int) || (x == v2 as int && y == v1 as int) {
                        assert(pair_at(ls, li as int, x, y));
                        assert(edge_among(ls, li as int + 1, x, y));
                        assert(adj@[x]@[y]);
                    } else {
                        assert(adj@[x]@[y] == old_adj[x]@[y]);
                        if edge_among(ls, li as int + 1, x, y) {
                            let k = choose|k: int|
                                2 <= k < li as int + 1 && #[trigger] pair_at(ls, k, x, y);
                            if k == li as int {
                                assert(false);
                            } else {
                                assert(edge_among(ls, li as int, x, y));
                            }
                        }
                        if edge_among(ls, li as int, x, y) {
                            let k = choose|k: int|
                                2 <= k < li as int && #[trigger] pair_at(ls, k, x, y);
                            assert(pair_at(ls, k, x, y));
                            assert(edge_among(ls, li as int + 1, x, y));
                        }
                    }
                }
            }
            li = li + 1;
        }
        let mut neighbors: Vec<Vec<usize>> = Vec::new();
        let mut vv: usize = 0;
        while vv < n
            invariant
                neighbors@.len() == vv,
                vv <= n,
                adj@.len() == n,
                forall|a: int| 0 <= a < n ==> (#[trigger] adj@[a])@.len() == n,
                forall|a: int| 0 <= a < vv ==> sorted_strict((#[trigger] neighbors@[a])@),
                forall|a: int, k: int|
                    0 <= a < vv && 0 <= k < neighbors@[a]@.len() ==> (#[trigger] neighbors@[a]@[k])
                        < n,
                forall|a: int, b: int|
                    0 <= a < vv && 0 <= b < n ==> ((#[trigger] neighbors@[a]@.contains(b as usize))
                        <==> adj@[a]@[b]),
            decreases n - vv,
        {
            let mut row: Vec<usize> = Vec::new();
            let mut u2: usize = 0;
            while u2 < n
                invariant
                    u2 <= n,
                    vv < n,
                    adj@.len() == n,
                    forall|a: int| 0 <= a < n ==> (#[trigger] adj@[a])@.len() == n,
                    forall|k: int| 0 <= k < row@.len() ==> (#[trigger] row@[k]) < u2,
                    sorted_strict(row@),
                    forall|b: int|
                        0 <= b < u2 ==> ((#[trigger] row@.contains(b as usize))
                            <==> adj@[vv as int]@[b]),
                decreases n - u2,
            {
                if adj[vv][u2] {
                    proof {
                        let old_row = row@;
                        assert forall|k: int|
                            0 <= k < old_row.push(u2).len() implies (#[trigger] old_row.push(
                            u2,
                        )[k]) < u2 + 1 by {
                            if k < old_row.len() {
                                assert(old_row.push(u2)[k] == old_row[k]);
                            }
                        }
                        assert(sorted_strict(old_row.push(u2))) by {
                            assert forall|i: int, j: int|
                                0 <= i < j < old_row.push(u2).len() implies old_row.push(u2)[i]
                                < old_row.push(u2)[j] by {
                                if j < old_row.len() {
                                    assert(old_row[i] < old_row[j]);
                                } else {
                                    assert(old_row.push(u2)[j] == u2);
                                    assert(old_row[i] < u2);
                                }
                            }
                        }
                        assert forall|b: int|
                            0 <= b < u2 + 1 implies ((#[trigger] old_row.push(u2).contains(
                            b as usize,
                        )) <==> adj@[vv as int]@[b]) by {
                            lemma_push_contains(old_row, u2, b as usize);
                            if b < u2 {
                                assert((b as usize) != u2);
                            } else {
                                assert(b == u2);
                                if old_row.contains(b as usize) {
                                    let k = choose|k: int|
                                        0 <= k < old_row.len() && old_row[k] == b as usize;
                                    assert(old_row[k] < u2);
                                    assert(false);
                                }
                            }
                        }
                    }
                    row.push(u2);
                } else {
                    proof {
                        assert forall|b: int|
                            0 <= b < u2 + 1 implies ((#[trigger] row@.contains(b as usize))
                            <==> adj@[vv as int]@[b]) by {
                            if b == u2 {
                                if row@.contains(b as usize) {
                                    let k = choose|k: int|
                                        0 <= k < row@.len() && row@[k] == b as usize;
                                    assert(row@[k] < u2);
                                    assert(false);
                                }
                            }
                        }
                    }
                }
                u2 = u2 + 1;
            }
            neighbors.push(row);
            vv = vv + 1;
        }
        let g = Graph { adj_mtx: adj, neighbors: neighbors, n_vertex: n };
        proof {
            assert(g.wf()) by {
                assert forall|u: int, v: int|
                    0 <= u < n && 0 <= v < n implies #[trigger] g.edge(u, v) == g.edge(v, u) by {
                    assert(adj@[u]@[v] <==> edge_among(ls, ls.len() as int, u, v));
                    assert(adj@[v]@[u] <==> edge_among(ls, ls.len() as int, v, u));
                    if edge_among(ls, ls.len() as int, u, v) {
                        let k = choose|k: int|
                            2 <= k < ls.len() && #[trigger] pair_at(ls, k, u, v);
                        assert(pair_at(ls, k, v, u));
                        assert(edge_among(ls, ls.len() as int, v, u));
                    }
                    if edge_among(ls, ls.len() as int, v, u) {
                        let k = choose|k: int|
                            2 <= k < ls.len() && #[trigger] pair_at(ls, k, v, u);
                        assert(pair_at(ls, k, u, v));
                        assert(edge_among(ls, ls.len() as int, u, v));
                    }
                }
                assert forall|u: int| 0 <= u < n implies !(#[trigger] g.edge(u, u)) by {
                    if edge_among(ls, ls.len() as int, u, u) {
                        let k = choose|k: int|
                            2 <= k < ls.len() && #[trigger] pair_at(ls, k, u, u);
                        assert(edge_line_ok(ls[k], n as int));
                        assert(false);
                    }
                }
            }
        }
        Ok(g)
    }

    /// Whether the two vertices are adjacent.
    pub fn is_edge(&self, vertex_1: usize, vertex_2: usize) -> (r: bool)
        requires
            self.wf(),
            vertex_1 < self.n_vertex,
            vertex_2 < self.n_vertex,
        ensures
            r == self.edge(vertex_1 as int, vertex_2 as int),
    {
        self.adj_mtx[vertex_1][vertex_2]
    }

    /// A vertex drawn uniformly from `0 .. n_vertex`.
    pub fn select_random_vertex(&self, rng: &mut ColonyRng) -> (r: usize)
        requires
            self.n_vertex >= 1,
        ensures
            r < self.n_vertex,
    {
        rng.below(self.n_vertex)
    }

    /// The neighbors of `vertex`, in increasing order.
    pub fn get_neighbor_candidates(&self, vertex: usize) -> (r: Vec<usize>)
        requires
            self.wf(),
            vertex < self.n_vertex,
        ensures
            r@ == self.neighbors@[vertex as int]@,
            sorted_strict(r@),
            forall|k: int| 0 <= k < r@.len() ==> (#[trigger] r@[k]) < self.n_vertex,
            forall|u: int|
                0 <= u < self.n_vertex
                    ==> ((#[trigger] r@.contains(u as usize)) <==> self.edge(vertex as int, u)),
    {
        let r = self.neighbors[vertex].clone();
        proof {
            assert(r@ =~= self.neighbors@[vertex as int]@);
        }
        r
    }
}

} // verus!
