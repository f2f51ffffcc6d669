use vstd::prelude::*;

verus! {

/// The `White_Space` property of Unicode, which `char::is_whitespace` tests.
pub open spec fn is_ws(c: char) -> bool {
    let u = c as u32;
    ||| 9 <= u <= 13
    ||| u == 32
    ||| u == 0x85
    ||| u == 0xA0
    ||| u == 0x1680
    ||| 0x2000 <= u <= 0x200A
    ||| u == 0x2028
    ||| u == 0x2029
    ||| u == 0x202F
    ||| u == 0x205F
    ||| u == 0x3000
}

pub fn is_whitespace(c: char) -> (r: bool)
    ensures
        r == is_ws(c),
{
    let u = c as u32;
    (9 <= u && u <= 13) || u == 32 || u == 0x85 || u == 0xA0 || u == 0x1680 || (0x2000 <= u && u
        <= 0x200A) || u == 0x2028 || u == 0x2029 || u == 0x202F || u == 0x205F || u == 0x3000
}

/// `s` without its leading whitespace.
pub open spec fn trim_start(s: Seq<char>) -> Seq<char>
    decreases s.len(),
{
    if s.len() > 0 && is_ws(s[0]) {
        trim_start(s.drop_first())
    } else {
        s
    }
}

/// `s` without its trailing whitespace.
pub open spec fn trim_end(s: Seq<char>) -> Seq<char>
    decreases s.len(),
{
    if s.len() > 0 && is_ws(s.last()) {
        trim_end(s.drop_last())
    } else {
        s
    }
}

/// What `str::trim` gives back.
pub open spec fn trim(s: Seq<char>) -> Seq<char> {
    trim_end(trim_start(s))
}

proof fn lemma_trim_start_at(s: Seq<char>, i: int)
    requires
        0 <= i <= s.len(),
        forall|k: int| 0 <= k < i ==> is_ws(#[trigger] s[k]),
        i == s.len() || !is_ws(s[i]),
    ensures
        trim_start(s) == s.skip(i),
    decreases i,
{
    if i > 0 {
        lemma_trim_start_at(s.drop_first(), i - 1);
        assert(s.drop_first().skip(i - 1) =~= s.skip(i));
    } else {
        assert(s.skip(0) =~= s);
    }
}

proof fn lemma_trim_end_at(s: Seq<char>, j: int)
    requires
        0 <= j <= s.len(),
        forall|k: int| j <= k < s.len() ==> is_ws(#[trigger] s[k]),
        j == 0 || !is_ws(s[j - 1]),
    ensures
        trim_end(s) == s.take(j),
    decreases s.len() - j,
{
    if j < s.len() {
        lemma_trim_end_at(s.drop_last(), j);
        assert(s.drop_last().take(j) =~= s.take(j));
    } else {
        assert(s.take(j) =~= s);
    }
}

/// Copies `s[from..to]`.
pub fn slice_chars(s: &Vec<char>, from: usize, to: usize) -> (r: Vec<char>)
    requires
        from <= to <= s.len(),
    ensures
        r@ == s@.subrange(from as int, to as int),
{
    let mut r: Vec<char> = Vec::new();
    let mut i = from;
    while i < to
        invariant
            from <= i <= to <= s.len(),
            r@ == s@.subrange(from as int, i as int),
        decreases to - i,
    {
        r.push(s[i]);
        i += 1;
        assert(r@ =~= s@.subrange(from as int, i as int));
    }
    r
}

/// Trimming twice trims no more than once.
pub proof fn lemma_trim_idempotent(s: Seq<char>)
    ensures
        trim(trim(s)) == trim(s),
{
    let t = trim(s);
    lemma_trim_shape(s);
    if t.len() > 0 {
        lemma_trim_start_at(t, 0);
        assert(t.skip(0) =~= t);
        lemma_trim_end_at(t, t.len() as int);
        assert(t.take(t.len() as int) =~= t);
    }
}

/// A trimmed text is empty or starts and ends with a non-whitespace character.
pub proof fn lemma_trim_shape(s: Seq<char>)
    ensures
        trim(s).len() > 0 ==> !is_ws(trim(s)[0]) && !is_ws(trim(s).last()),
        trim(s).len() == 0 ==> trim(trim(s)).len() == 0,
{
    lemma_trim_start_shape(s);
    let u = trim_start(s);
    lemma_trim_end_shape(u);
    let t = trim_end(u);
    if t.len() > 0 {
        lemma_trim_end_prefix(u);
        assert(t[0] == u[0]);
    }
}

proof fn lemma_trim_start_shape(s: Seq<char>)
    ensures
        trim_start(s).len() > 0 ==> !is_ws(trim_start(s)[0]),
    decreases s.len(),
{
    if s.len() > 0 && is_ws(s[0]) {
        lemma_trim_start_shape(s.drop_first());
    }
}

proof fn lemma_trim_end_shape(s: Seq<char>)
    ensures
        trim_end(s).len() > 0 ==> !is_ws(trim_end(s).last()),
    decreases s.len(),
{
    if s.len() > 0 && is_ws(s.last()) {
        lemma_trim_end_shape(s.drop_last());
    }
}

proof fn lemma_trim_end_prefix(s: Seq<char>)
    ensures
        trim_end(s).len() <= s.len(),
        forall|i: int| 0 <= i < trim_end(s).len() ==> trim_end(s)[i] == s[i],
    decreases s.len(),
{
    if s.len() > 0 && is_ws(s.last()) {
        lemma_trim_end_prefix(s.drop_last());
        assert forall|i: int| 0 <= i < trim_end(s).len() implies trim_end(s)[i] == s[i] by {
            assert(s.drop_last()[i] == s[i]);
        }
    }
}

/// `str::trim` on a sequence of characters.
pub fn trim_chars(s: &Vec<char>) -> (r: Vec<char>)
    ensures
        r@ == trim(s@),
{
    let n = s.len();
    let mut i: usize = 0;
    while i < n && is_whitespace(s[i])
        invariant
            i <= n == s.len(),
            forall|k: int| 0 <= k < i ==> is_ws(#[trigger] s@[k]),
        decreases n - i,
    {
        i += 1;
    }
    proof {
        lemma_trim_start_at(s@, i as int);
    }
    let mut j: usize = n;
    while j > i && is_whitespace(s[j - 1])
        invariant
            i <= j <= n == s.len(),
            forall|k: int| j <= k < n ==> is_ws(#[trigger] s@[k]),
        decreases j,
    {
        j -= 1;
    }
    proof {
        let t = s@.skip(i as int);
        assert forall|k: int| j - i <= k < t.len() implies is_ws(#[trigger] t[k]) by {
            assert(t[k] == s@[k + i]);
        }
        lemma_trim_end_at(t, j - i);
        assert(t.take(j - i) =~= s@.subrange(i as int, j as int));
    }
    slice_chars(s, i, j)
}


/// The characters of `s`, in order.
pub fn to_chars(s: &str) -> (r: Vec<char>)
    ensures
        r@ == s@,
{
    let mut v: Vec<char> = Vec::new();
    for c in it: s.chars()
        invariant
            v@ == it.seq().take(it.index() as int),
    {
        v.push(c);
    }
    v
}

/// `String::push`: appends one character.
#[verifier::external_body]
fn push_char(s: &mut String, c: char)
    ensures
        final(s)@ == old(s)@.push(c),
{
    s.push(c);
}

/// A `String` that holds the characters of `v`.
pub fn from_chars(v: &Vec<char>) -> (r: String)
    ensures
        r@ == v@,
{
    let mut s = String::new();
    let mut i: usize = 0;
    while i < v.len()
        invariant
            i <= v.len(),
            s@ == v@.take(i as int),
        decreases v.len() - i,
    {
        push_char(&mut s, v[i]);
        i += 1;
        assert(s@ =~= v@.take(i as int));
    }
    assert(v@.take(v.len() as int) =~= v@);
    s
}

/// Appends all of `b` to `a`.
pub fn append_chars(a: &mut Vec<char>, b: &Vec<char>)
    ensures
        final(a)@ == old(a)@ + b@,
{
    let mut i: usize = 0;
    while i < b.len()
        invariant
            i <= b.len(),
            a@ == old(a)@ + b@.take(i as int),
        decreases b.len() - i,
    {
        a.push(b[i]);
        i += 1;
        assert(a@ =~= old(a)@ + b@.take(i as int));
    }
    assert(b@.take(b.len() as int) =~= b@);
}

/// Appends the characters of a string literal to `a`.
pub fn append_str(a: &mut Vec<char>, b: &str)
    ensures
        final(a)@ == old(a)@ + b@,
{
    let bc = to_chars(b);
    append_chars(a, &bc);
}

/// `p` occurs in `s` at position `i`.
pub open spec fn matches_at(s: Seq<char>, p: Seq<char>, i: int) -> bool {
    0 <= i && i + p.len() <= s.len() && s.subrange(i, i + p.len()) == p
}

/// What `str::contains` with a string pattern gives back.
pub open spec fn contains(s: Seq<char>, p: Seq<char>) -> bool {
    exists|i: int| matches_at(s, p, i)
}

/// What `str::starts_with` gives back.
pub open spec fn starts_with(s: Seq<char>, p: Seq<char>) -> bool {
    p.len() <= s.len() && s.take(p.len() as int) == p
}

/// What `str::ends_with` gives back.
pub open spec fn ends_with(s: Seq<char>, p: Seq<char>) -> bool {
    p.len() <= s.len() && s.skip(s.len() - p.len()) == p
}

/// The first position at or after `i` where `p` occurs in `s`.
pub open spec fn find_from(s: Seq<char>, p: Seq<char>, i: int) -> Option<int>
    decreases s.len() + 1 - i,
{
    if i < 0 || i + p.len() > s.len() {
        None
    } else if matches_at(s, p, i) {
        Some(i)
    } else {
        find_from(s, p, i + 1)
    }
}

/// What `str::find` with a string pattern gives back, counted in characters.
pub open spec fn find(s: Seq<char>, p: Seq<char>) -> Option<int> {
    find_from(s, p, 0)
}

pub proof fn lemma_find_from(s: Seq<char>, p: Seq<char>, i: int)
    requires
        0 <= i,
        forall|k: int| 0 <= k < i ==> !matches_at(s, p, k),
    ensures
        find_from(s, p, i) matches Some(k) ==> i <= k && matches_at(s, p, k) && forall|j: int|
            0 <= j < k ==> !matches_at(s, p, j),
        find_from(s, p, i) is None ==> !contains(s, p),
    decreases s.len() + 1 - i,
{
    if i + p.len() > s.len() {
    } else if matches_at(s, p, i) {
    } else {
        lemma_find_from(s, p, i + 1);
    }
}

/// `find` gives the first occurrence, and nothing exactly when `p` does not occur.
pub proof fn lemma_find(s: Seq<char>, p: Seq<char>)
    ensures
        find(s, p) matches Some(k) ==> matches_at(s, p, k) && forall|j: int|
            0 <= j < k ==> !matches_at(s, p, j),
        find(s, p) is None <==> !contains(s, p),
{
    lemma_find_from(s, p, 0);
}

fn matches_at_exec(s: &Vec<char>, p: &Vec<char>, i: usize) -> (r: bool)
    ensures
        r == matches_at(s@, p@, i as int),
{
    if i > s.len() || p.len() > s.len() - i {
        return false;
    }
    let mut k: usize = 0;
    while k < p.len()
        invariant
            i + p.len() <= s.len(),
            k <= p.len(),
            forall|j: int| 0 <= j < k ==> s@[i + j] == p@[j],
        decreases p.len() - k,
    {
        if s[i + k] != p[k] {
            assert(s@.subrange(i as int, i + p.len())[k as int] != p@[k as int]);
            return false;
        }
        k += 1;
    }
    assert(s@.subrange(i as int, i + p.len()) =~= p@);
    true
}

/// The first position where `p` occurs in `s`.
pub fn find_chars(s: &Vec<char>, p: &Vec<char>) -> (r: Option<usize>)
    ensures
        r matches Some(k) ==> find(s@, p@) == Some(k as int),
        r is None ==> find(s@, p@) is None,
{
    if p.len() > s.len() {
        return None;
    }
    let last = s.len() - p.len();
    let mut i: usize = 0;
    loop
        invariant
            p.len() <= s.len(),
            last == s.len() - p.len(),
            i <= last,
            find(s@, p@) == find_from(s@, p@, i as int),
        decreases last - i,
    {
        if matches_at_exec(s, p, i) {
            return Some(i);
        }
        if i == last {
            assert(find_from(s@, p@, i + 1) is None);
            return None;
        }
        i += 1;
    }
}

/// `str::contains` on sequences of characters.
pub fn contains_chars(s: &Vec<char>, p: &Vec<char>) -> (r: bool)
    ensures
        r == contains(s@, p@),
{
    proof {
        lemma_find(s@, p@);
    }
    find_chars(s, p).is_some()
}

/// `str::contains` with a literal pattern.
pub fn contains_str(s: &Vec<char>, p: &str) -> (r: bool)
    ensures
        r == contains(s@, p@),
{
    let pc = to_chars(p);
    contains_chars(s, &pc)
}

/// `str::starts_with` with a literal pattern.
pub fn starts_with_str(s: &Vec<char>, p: &str) -> (r: bool)
    ensures
        r == starts_with(s@, p@),
{
    let pc = to_chars(p);
    let b = matches_at_exec(s, &pc, 0);
    proof {
        if b {
            assert(s@.take(pc.len() as int) =~= s@.subrange(0, pc.len() as int));
        } else if pc.len() <= s.len() {
            assert(s@.take(pc.len() as int) =~= s@.subrange(0, pc.len() as int));
        }
    }
    b
}

/// Equality with a literal.
pub fn eq_str(s: &Vec<char>, p: &str) -> (r: bool)
    ensures
        r == (s@ == p@),
{
    let pc = to_chars(p);
    if pc.len() != s.len() {
        return false;
    }
    let b = matches_at_exec(s, &pc, 0);
    assert(s@.subrange(0, s.len() as int) =~= s@);
    b
}

/// `str::starts_with` with a `char` pattern.
pub open spec fn starts_with_char(s: Seq<char>, c: char) -> bool {
    s.len() > 0 && s[0] == c
}

pub fn starts_with_char_exec(s: &Vec<char>, c: char) -> (r: bool)
    ensures
        r == starts_with_char(s@, c),
{
    s.len() > 0 && s[0] == c
}


/// The character sequences that the vectors of `v` hold.
pub open spec fn views(v: Seq<Vec<char>>) -> Seq<Seq<char>> {
    v.map_values(|l: Vec<char>| l@)
}

pub broadcast proof fn lemma_views_push(v: Seq<Vec<char>>, x: Vec<char>)
    ensures
        #[trigger] views(v.push(x)) == views(v).push(x@),
{
    assert(views(v.push(x)) =~= views(v).push(x@));
}

/// The arguments' texts after one more argument.
pub broadcast proof fn lemma_arg_views_push(v: Seq<String>, x: String)
    ensures
        #[trigger] arg_views(v.push(x)) == arg_views(v).push(x@),
{
    assert(arg_views(v.push(x)) =~= arg_views(v).push(x@));
}

/// `l` without one trailing carriage return.
pub open spec fn strip_cr(l: Seq<char>) -> Seq<char> {
    if l.len() > 0 && l.last() == '\r' {
        l.drop_last()
    } else {
        l
    }
}

/// The position of the first `c` in `s`, or `s.len()` where there is none.
pub open spec fn index_of_char(s: Seq<char>, c: char) -> nat
    decreases s.len(),
{
    if s.len() == 0 || s[0] == c {
        0
    } else {
        1 + index_of_char(s.drop_first(), c)
    }
}

pub proof fn lemma_index_of_char(s: Seq<char>, c: char, k: int)
    requires
        0 <= k <= s.len(),
        forall|j: int| 0 <= j < k ==> #[trigger] s[j] != c,
        k == s.len() || s[k] == c,
    ensures
        index_of_char(s, c) == k,
    decreases k,
{
    if k > 0 {
        lemma_index_of_char(s.drop_first(), c, k - 1);
    }
}

/// What `str::lines` yields: the pieces between line feeds, each without a
/// carriage return before its line feed; a final line feed opens no new line.
pub open spec fn lines(s: Seq<char>) -> Seq<Seq<char>>
    decreases s.len(),
{
    if s.len() == 0 {
        seq![]
    } else {
        let k = index_of_char(s, '\n');
        if k < s.len() {
            seq![strip_cr(s.take(k as int))] + lines(s.skip(k + 1 as int))
        } else {
            seq![s]
        }
    }
}

/// `str::lines`, each line copied out.
pub fn split_lines(s: &Vec<char>) -> (r: Vec<Vec<char>>)
    ensures
        views(r@) == lines(s@),
{
    let n = s.len();
    let mut out: Vec<Vec<char>> = Vec::new();
    let mut start: usize = 0;
    let mut i: usize = 0;
    proof {
        assert(s@.skip(0) =~= s@);
        assert(views(out@) + lines(s@) =~= lines(s@));
    }
    while i < n
        invariant
            n == s.len(),
            start <= i <= n,
            forall|j: int| start <= j < i ==> #[trigger] s@[j] != '\n',
            lines(s@) == views(out@) + lines(s@.skip(start as int)),
        decreases n - i,
    {
        if s[i] == '\n' {
            let mut line = slice_chars(s, start, i);
            if line.len() > 0 && line[line.len() - 1] == '\r' {
                line.pop();
            }
            proof {
                let t = s@.skip(start as int);
                assert forall|j: int| 0 <= j < i - start implies #[trigger] t[j] != '\n' by {
                    assert(t[j] == s@[start + j]);
                }
                lemma_index_of_char(t, '\n', i - start);
                assert(t.take(i - start) =~= s@.subrange(start as int, i as int));
                assert(t.skip(i - start + 1) =~= s@.skip(i + 1));
                assert(lines(t) == seq![line@] + lines(s@.skip(i + 1)));
            }
            let ghost before = views(out@);
            out.push(line);
            proof {
                assert(views(out@) =~= before.push(line@));
                assert(before + lines(s@.skip(start as int)) =~= views(out@) + lines(
                    s@.skip(i + 1),
                ));
            }
            start = i + 1;
        }
        i += 1;
    }
    if start < n {
        let line = slice_chars(s, start, n);
        proof {
            let t = s@.skip(start as int);
            assert forall|j: int| 0 <= j < t.len() implies #[trigger] t[j] != '\n' by {
                assert(t[j] == s@[start + j]);
            }
            lemma_index_of_char(t, '\n', t.len() as int);
            assert(t =~= line@);
        }
        let ghost before = views(out@);
        out.push(line);
        proof {
            assert(views(out@) =~= before.push(line@));
            assert(lines(s@.skip(n as int)) =~= seq![]);
        }
    } else {
        assert(s@.skip(start as int) =~= seq![]);
    }
    proof {
        assert(views(out@) =~= views(out@) + lines(s@.skip(n as int)));
    }
    out
}

/// The pieces of `ls` with `sep` between each two.
pub open spec fn join(ls: Seq<Seq<char>>, sep: Seq<char>) -> Seq<char>
    decreases ls.len(),
{
    if ls.len() == 0 {
        seq![]
    } else if ls.len() == 1 {
        ls[0]
    } else {
        join(ls.drop_last(), sep) + sep + ls.last()
    }
}

/// A match inside `s` is still a match inside `s` followed by anything.
pub proof fn lemma_matches_at_prefix(s: Seq<char>, t: Seq<char>, p: Seq<char>, i: int)
    requires
        matches_at(s, p, i),
    ensures
        matches_at(s + t, p, i),
{
    assert((s + t).subrange(i, i + p.len()) =~= s.subrange(i, i + p.len()));
}

/// Occurring inside is transitive.
pub proof fn lemma_contains_trans(a: Seq<char>, b: Seq<char>, c: Seq<char>)
    requires
        contains(a, b),
        contains(b, c),
    ensures
        contains(a, c),
{
    let i = choose|i: int| matches_at(a, b, i);
    let j = choose|j: int| matches_at(b, c, j);
    assert(a.subrange(i + j, i + j + c.len()) =~= b.subrange(j, j + c.len()));
    assert(matches_at(a, c, i + j));
}

/// Each joined piece occurs in the joined text.
pub proof fn lemma_join_contains(ls: Seq<Seq<char>>, sep: Seq<char>, k: int)
    requires
        0 <= k < ls.len(),
    ensures
        contains(join(ls, sep), ls[k]),
    decreases ls.len(),
{
    if ls.len() == 1 {
        assert(join(ls, sep) == ls[0]);
        assert(join(ls, sep).subrange(0, ls[0].len() as int) =~= ls[0]);
        assert(matches_at(join(ls, sep), ls[k], 0));
    } else {
        let front = join(ls.drop_last(), sep) + sep;
        if k == ls.len() - 1 {
            assert((front + ls.last()).subrange(front.len() as int, (front.len() + ls.last().len()) as int)
                =~= ls.last());
            assert(matches_at(join(ls, sep), ls[k], front.len() as int));
        } else {
            lemma_join_contains(ls.drop_last(), sep, k);
            let i = choose|i: int| matches_at(join(ls.drop_last(), sep), ls[k], i);
            lemma_matches_at_prefix(join(ls.drop_last(), sep), sep + ls.last(), ls[k], i);
            assert(join(ls.drop_last(), sep) + (sep + ls.last()) =~= join(ls, sep));
        }
    }
}

/// A piece that passes the filter occurs in the joined text of the pieces that pass.
pub proof fn lemma_filter_join_contains(
    ls: Seq<Seq<char>>,
    f: spec_fn(Seq<char>) -> bool,
    sep: Seq<char>,
    k: int,
)
    requires
        0 <= k < ls.len(),
        f(ls[k]),
    ensures
        ls.filter(f).len() > 0,
        contains(join(ls.filter(f), sep), ls[k]),
{
    ls.lemma_filter_contains(f, k);
    let kept = ls.filter(f);
    let m = choose|m: int| 0 <= m < kept.len() && kept[m] == ls[k];
    lemma_join_contains(kept, sep, m);
}

/// The joined text ends with the last piece.
pub proof fn lemma_join_ends_with(ls: Seq<Seq<char>>, sep: Seq<char>)
    requires
        ls.len() > 0,
    ensures
        ends_with(join(ls, sep), ls.last()),
{
    if ls.len() > 1 {
        let front = join(ls.drop_last(), sep) + sep;
        assert((front + ls.last()).skip(front.len() as int) =~= ls.last());
    } else {
        assert(join(ls, sep).skip(0) =~= ls.last());
    }
}

/// The joined text starts with the first `k` pieces joined.
pub proof fn lemma_join_prefix(ls: Seq<Seq<char>>, sep: Seq<char>, k: int)
    requires
        1 <= k <= ls.len(),
    ensures
        starts_with(join(ls, sep), join(ls.take(k), sep)),
    decreases ls.len(),
{
    if k == ls.len() {
        assert(ls.take(k) =~= ls);
        assert(join(ls, sep).take(join(ls, sep).len() as int) =~= join(ls, sep));
    } else {
        lemma_join_prefix(ls.drop_last(), sep, k);
        assert(ls.drop_last().take(k) =~= ls.take(k));
        let a = join(ls.drop_last(), sep);
        let p = join(ls.take(k), sep);
        assert(a.take(p.len() as int) == p);
        assert((a + sep + ls.last()).take(p.len() as int) =~= a.take(p.len() as int));
    }
}

/// `[String]::join`.
pub fn join_chars(ls: &Vec<Vec<char>>, sep: &Vec<char>) -> (r: Vec<char>)
    ensures
        r@ == join(views(ls@), sep@),
{
    let mut out: Vec<char> = Vec::new();
    let mut i: usize = 0;
    while i < ls.len()
        invariant
            i <= ls.len(),
            out@ == join(views(ls@).take(i as int), sep@),
        decreases ls.len() - i,
    {
        if i > 0 {
            append_chars(&mut out, sep);
        }
        append_chars(&mut out, &ls[i]);
        proof {
            let t = views(ls@).take(i + 1);
            assert(t.drop_last() =~= views(ls@).take(i as int));
            if i == 0 {
                assert(out@ =~= views(ls@)[0]);
            }
        }
        i += 1;
    }
    assert(views(ls@).take(ls.len() as int) =~= views(ls@));
    out
}

/// `lines.join("\n")`, made a `String`.
pub fn join_newline(ls: &Vec<Vec<char>>) -> (r: String)
    ensures
        r@ == join(views(ls@), seq!['\n']),
{
    let sep = vec!['\n'];
    assert(sep@ =~= seq!['\n']);
    let j = join_chars(ls, &sep);
    from_chars(&j)
}

/// The decimal digit `d`.
pub open spec fn digit_char(d: nat) -> char {
    (48 + d) as char
}

/// The decimal notation of `n`, as `format!("{}", n)` writes it.
pub open spec fn decimal(n: nat) -> Seq<char>
    decreases n,
{
    if n < 10 {
        seq![digit_char(n)]
    } else {
        decimal(n / 10).push(digit_char(n % 10))
    }
}

fn digit_exec(d: usize) -> (c: char)
    requires
        d < 10,
    ensures
        c == digit_char(d as nat),
{
    if d == 0 { '0' } else if d == 1 { '1' } else if d == 2 { '2' } else if d == 3 { '3' }
    else if d == 4 { '4' } else if d == 5 { '5' } else if d == 6 { '6' } else if d == 7 { '7' }
    else if d == 8 { '8' } else { '9' }
}

/// The decimal notation of `n`.
pub fn decimal_chars(n: usize) -> (r: Vec<char>)
    ensures
        r@ == decimal(n as nat),
    decreases n,
{
    if n < 10 {
        let c = digit_exec(n);
        let v = vec![c];
        assert(v@ =~= seq![c]);
        v
    } else {
        let mut v = decimal_chars(n / 10);
        v.push(digit_exec(n % 10));
        v
    }
}


/// A copy of `v`.
pub fn copy_chars(v: &Vec<char>) -> (r: Vec<char>)
    ensures
        r@ == v@,
{
    let r = slice_chars(v, 0, v.len());
    assert(v@.subrange(0, v.len() as int) =~= v@);
    r
}

/// The lines of `s`, as `str::lines` gives them.
pub fn lines_of(s: &str) -> (r: Vec<Vec<char>>)
    ensures
        views(r@) == lines(s@),
{
    let c = to_chars(s);
    split_lines(&c)
}

/// The character sequences of the arguments.
pub open spec fn arg_views(args: Seq<String>) -> Seq<Seq<char>> {
    args.map_values(|a: String| a@)
}

/// Argument `i`, or the empty text where there is none.
pub open spec fn arg_or_empty(args: Seq<Seq<char>>, i: int) -> Seq<char> {
    if 0 <= i < args.len() {
        args[i]
    } else {
        seq![]
    }
}

/// `args.get(i).map(|s| s.as_str()).unwrap_or("")`, as characters.
pub fn arg_chars(args: &[String], i: usize) -> (r: Vec<char>)
    ensures
        r@ == arg_or_empty(arg_views(args@), i as int),
{
    if i < args.len() {
        to_chars(args[i].as_str())
    } else {
        Vec::new()
    }
}

/// The characters of every argument.
pub fn args_chars(args: &[String]) -> (r: Vec<Vec<char>>)
    ensures
        views(r@) == arg_views(args@),
{
    let mut r: Vec<Vec<char>> = Vec::new();
    let mut i: usize = 0;
    while i < args.len()
        invariant
            i <= args.len(),
            views(r@) == arg_views(args@).take(i as int),
        decreases args.len() - i,
    {
        let c = to_chars(args[i].as_str());
        assert(c@ == arg_views(args@)[i as int]);
        let ghost before = r@;
        r.push(c);
        proof {
            lemma_views_push(before, c);
        }
        i += 1;
        assert(views(r@) =~= arg_views(args@).take(i as int));
    }
    assert(arg_views(args@).take(args.len() as int) =~= arg_views(args@));
    r
}

/// Copies of the arguments, as `<[String]>::to_vec` makes them.
pub fn copy_args(args: &[String]) -> (r: Vec<String>)
    ensures
        arg_views(r@) == arg_views(args@),
{
    let mut r: Vec<String> = Vec::new();
    let mut i: usize = 0;
    while i < args.len()
        invariant
            i <= args.len(),
            arg_views(r@) == arg_views(args@).take(i as int),
        decreases args.len() - i,
    {
        let ghost before = r@;
        let a = args[i].clone();
        r.push(a);
        proof {
            lemma_arg_views_push(before, a);
        }
        i += 1;
        assert(arg_views(r@) =~= arg_views(args@).take(i as int));
    }
    assert(arg_views(args@).take(args.len() as int) =~= arg_views(args@));
    r
}

/// A `String` holding a literal.
pub fn string_of(s: &str) -> (r: String)
    ensures
        r@ == s@,
{
    let c = to_chars(s);
    from_chars(&c)
}


/// The lines of `ls` that `f` accepts, in order; `pred` is what `f` computes.
pub(crate) fn keep_lines<F: Fn(&Vec<char>) -> bool>(
    ls: &Vec<Vec<char>>,
    f: F,
    Ghost(pred): Ghost<spec_fn(Seq<char>) -> bool>,
) -> (r: Vec<Vec<char>>)
    requires
        forall|l: &Vec<char>| #[trigger] f.requires((l,)),
        forall|l: &Vec<char>, b: bool| f.ensures((l,), b) ==> b == pred(l@),
    ensures
        views(r@) == views(ls@).filter(pred),
{
    let mut kept: Vec<Vec<char>> = Vec::new();
    let mut i: usize = 0;
    while i < ls.len()
        invariant
            i <= ls.len(),
            forall|l: &Vec<char>| #[trigger] f.requires((l,)),
            forall|l: &Vec<char>, b: bool| f.ensures((l,), b) ==> b == pred(l@),
            views(kept@) == views(ls@).take(i as int).filter(pred),
        decreases ls.len() - i,
    {
        let ghost old_kept = kept@;
        let keep = f(&ls[i]);
        if keep {
            kept.push(copy_chars(&ls[i]));
        }
        proof {
            reveal(Seq::filter);
            assert(views(ls@).take(i + 1).drop_last() =~= views(ls@).take(i as int));
            assert(views(ls@)[i as int] == ls@[i as int]@);
            assert(views(ls@).take(i + 1).last() == views(ls@)[i as int]);
            if keep {
                lemma_views_push(old_kept, kept@.last());
            }
        }
        i += 1;
    }
    assert(views(ls@).take(ls.len() as int) =~= views(ls@));
    kept
}

/// How many bytes UTF-8 takes for `c` (`char::len_utf8`).
pub open spec fn utf8_width(c: char) -> nat {
    let u = c as u32;
    if u < 0x80 {
        1
    } else if u < 0x800 {
        2
    } else if u < 0x10000 {
        3
    } else {
        4
    }
}

/// How many bytes UTF-8 takes for `s` (`str::len`).
pub open spec fn utf8_len(s: Seq<char>) -> nat
    decreases s.len(),
{
    if s.len() == 0 {
        0
    } else {
        utf8_len(s.drop_last()) + utf8_width(s.last())
    }
}

/// Byte offset `b` of `s` falls between two characters (`str::is_char_boundary`).
pub open spec fn is_byte_boundary(s: Seq<char>, b: int) -> bool {
    exists|k: int| 0 <= k <= s.len() && utf8_len(s.take(k)) == b
}

/// The number of characters before byte offset `b` of `s`.
pub open spec fn char_index_at_byte(s: Seq<char>, b: int) -> int {
    choose|k: int| 0 <= k <= s.len() && utf8_len(s.take(k)) == b
}

pub proof fn lemma_utf8_len_step(s: Seq<char>, k: int)
    requires
        0 <= k < s.len(),
    ensures
        utf8_len(s.take(k + 1)) == utf8_len(s.take(k)) + utf8_width(s[k]),
{
    assert(s.take(k + 1).drop_last() =~= s.take(k));
}

pub proof fn lemma_utf8_len_strictly_grows(s: Seq<char>, j: int, k: int)
    requires
        0 <= j < k <= s.len(),
    ensures
        utf8_len(s.take(j)) < utf8_len(s.take(k)),
    decreases k - j,
{
    lemma_utf8_len_step(s, k - 1);
    if j < k - 1 {
        lemma_utf8_len_strictly_grows(s, j, k - 1);
    }
}

proof fn lemma_utf8_len_drop_first(s: Seq<char>)
    requires
        s.len() > 0,
    ensures
        utf8_len(s) == utf8_width(s[0]) + utf8_len(s.drop_first()),
    decreases s.len(),
{
    if s.len() > 1 {
        lemma_utf8_len_drop_first(s.drop_last());
        assert(s.drop_last().drop_first() =~= s.drop_first().drop_last());
        assert(s.drop_first().last() == s.last());
        assert(s.drop_last()[0] == s[0]);
        assert(utf8_len(s.drop_first()) == utf8_len(s.drop_first().drop_last()) + utf8_width(
            s.drop_first().last(),
        ));
    } else {
        assert(s.drop_first().len() == 0);
        assert(s.drop_last().len() == 0);
        assert(utf8_len(s.drop_first()) == 0);
        assert(utf8_len(s.drop_last()) == 0);
        assert(s.last() == s[0]);
    }
}

/// A suffix is no longer in bytes than the whole.
pub proof fn lemma_utf8_len_skip(s: Seq<char>, k: int)
    requires
        0 <= k <= s.len(),
    ensures
        utf8_len(s.skip(k)) <= utf8_len(s),
    decreases k,
{
    if k > 0 {
        lemma_utf8_len_skip(s, k - 1);
        lemma_utf8_len_drop_first(s.skip(k - 1));
        assert(s.skip(k - 1).drop_first() =~= s.skip(k));
    } else {
        assert(s.skip(0) =~= s);
    }
}

proof fn lemma_utf8_len_trim_start(s: Seq<char>)
    ensures
        utf8_len(trim_start(s)) <= utf8_len(s),
    decreases s.len(),
{
    if s.len() > 0 && is_ws(s[0]) {
        lemma_utf8_len_trim_start(s.drop_first());
        lemma_utf8_len_drop_first(s);
    }
}

proof fn lemma_utf8_len_trim_end(s: Seq<char>)
    ensures
        utf8_len(trim_end(s)) <= utf8_len(s),
    decreases s.len(),
{
    if s.len() > 0 && is_ws(s.last()) {
        lemma_utf8_len_trim_end(s.drop_last());
    }
}

/// Trimming never makes a text longer in bytes.
pub proof fn lemma_utf8_len_trim(s: Seq<char>)
    ensures
        utf8_len(trim(s)) <= utf8_len(s),
{
    lemma_utf8_len_trim_start(s);
    lemma_utf8_len_trim_end(trim_start(s));
}

/// The character index at a byte offset is the only one there.
pub proof fn lemma_char_index_at_byte(s: Seq<char>, b: int, k: int)
    requires
        0 <= k <= s.len(),
        utf8_len(s.take(k)) == b,
    ensures
        is_byte_boundary(s, b),
        char_index_at_byte(s, b) == k,
{
    let c = char_index_at_byte(s, b);
    if c < k {
        lemma_utf8_len_strictly_grows(s, c, k);
    } else if c > k {
        lemma_utf8_len_strictly_grows(s, k, c);
    }
}

pub fn utf8_width_exec(c: char) -> (r: u128)
    ensures
        r == utf8_width(c),
{
    let u = c as u32;
    if u < 0x80 {
        1
    } else if u < 0x800 {
        2
    } else if u < 0x10000 {
        3
    } else {
        4
    }
}

/// The byte length of `s`.
pub fn utf8_len_exec(s: &Vec<char>) -> (r: u128)
    ensures
        r == utf8_len(s@),
{
    let mut acc: u128 = 0;
    let mut k: usize = 0;
    while k < s.len()
        invariant
            k <= s.len(),
            acc == utf8_len(s@.take(k as int)),
            acc <= 4 * k,
        decreases s.len() - k,
    {
        proof {
            lemma_utf8_len_step(s@, k as int);
        }
        acc = acc + utf8_width_exec(s[k]);
        k += 1;
    }
    assert(s@.take(s.len() as int) =~= s@);
    acc
}

/// The character index at byte offset `b` of `s`, where one is there.
pub fn char_index_at_byte_exec(s: &Vec<char>, b: u128) -> (r: Option<usize>)
    ensures
        r matches Some(k) ==> k <= s.len() && char_index_at_byte(s@, b as int) == k
            && is_byte_boundary(s@, b as int),
        r is None ==> !is_byte_boundary(s@, b as int),
{
    let mut acc: u128 = 0;
    let mut k: usize = 0;
    loop
        invariant
            k <= s.len(),
            acc == utf8_len(s@.take(k as int)),
            acc <= 4 * k,
            forall|j: int| 0 <= j < k ==> utf8_len(s@.take(j)) < acc,
            acc <= b,
        decreases s.len() - k,
    {
        if acc == b {
            proof {
                lemma_char_index_at_byte(s@, b as int, k as int);
            }
            return Some(k);
        }
        if k == s.len() {
            proof {
                assert forall|j: int| 0 <= j <= s.len() implies utf8_len(s@.take(j)) != b by {
                    if j < k {
                    }
                }
            }
            return None;
        }
        proof {
            lemma_utf8_len_step(s@, k as int);
        }
        let next = acc + utf8_width_exec(s[k]);
        if next > b {
            proof {
                assert forall|j: int| 0 <= j <= s.len() implies utf8_len(s@.take(j)) != b by {
                    if j > k + 1 {
                        lemma_utf8_len_strictly_grows(s@, k + 1, j);
                    }
                }
            }
            return None;
        }
        acc = next;
        k += 1;
    }
}


/// `f` applied to every line of `ls`; `g` is what `f` computes.
pub(crate) fn map_lines<F: Fn(&Vec<char>) -> Vec<char>>(
    ls: &Vec<Vec<char>>,
    f: F,
    Ghost(g): Ghost<spec_fn(Seq<char>) -> Seq<char>>,
) -> (r: Vec<Vec<char>>)
    requires
        forall|l: &Vec<char>| #[trigger] f.requires((l,)),
        forall|l: &Vec<char>, b: Vec<char>| f.ensures((l,), b) ==> b@ == g(l@),
    ensures
        views(r@) == views(ls@).map_values(g),
{
    let mut out: Vec<Vec<char>> = Vec::new();
    let mut i: usize = 0;
    while i < ls.len()
        invariant
            i <= ls.len(),
            forall|l: &Vec<char>| #[trigger] f.requires((l,)),
            forall|l: &Vec<char>, b: Vec<char>| f.ensures((l,), b) ==> b@ == g(l@),
            views(out@) == views(ls@).map_values(g).take(i as int),
        decreases ls.len() - i,
    {
        let ghost old_out = out@;
        let m = f(&ls[i]);
        out.push(m);
        proof {
            lemma_views_push(old_out, m);
            assert(views(ls@)[i as int] == ls@[i as int]@);
            assert(views(out@) =~= views(ls@).map_values(g).take(i + 1));
        }
        i += 1;
    }
    assert(views(ls@).map_values(g).take(ls.len() as int) =~= views(ls@).map_values(g));
    out
}

/// Some line of `ls` satisfies `pred`, which `f` computes.
pub(crate) fn any_line<F: Fn(&Vec<char>) -> bool>(
    ls: &Vec<Vec<char>>,
    f: F,
    Ghost(pred): Ghost<spec_fn(Seq<char>) -> bool>,
) -> (r: bool)
    requires
        forall|l: &Vec<char>| #[trigger] f.requires((l,)),
        forall|l: &Vec<char>, b: bool| f.ensures((l,), b) ==> b == pred(l@),
    ensures
        r == exists|i: int| 0 <= i < ls.len() && #[trigger] pred(views(ls@)[i]),
{
    let mut i: usize = 0;
    while i < ls.len()
        invariant
            i <= ls.len(),
            forall|l: &Vec<char>| #[trigger] f.requires((l,)),
            forall|l: &Vec<char>, b: bool| f.ensures((l,), b) ==> b == pred(l@),
            forall|k: int| 0 <= k < i ==> !#[trigger] pred(views(ls@)[k]),
        decreases ls.len() - i,
    {
        assert(views(ls@)[i as int] == ls@[i as int]@);
        if f(&ls[i]) {
            return true;
        }
        i += 1;
    }
    false
}

/// What `str::split` with a non-empty string pattern yields.
pub open spec fn split_str(s: Seq<char>, p: Seq<char>) -> Seq<Seq<char>>
    decreases s.len(),
{
    if p.len() == 0 {
        seq![s]
    } else {
        match find(s, p) {
            Some(k) => if 0 <= k && k + p.len() <= s.len() {
                seq![s.take(k)] + split_str(s.skip(k + p.len()), p)
            } else {
                seq![s]
            },
            None => seq![s],
        }
    }
}

/// `str::split` with a non-empty string pattern.
pub fn split_str_exec(s: &Vec<char>, p: &Vec<char>) -> (r: Vec<Vec<char>>)
    requires
        p.len() > 0,
    ensures
        views(r@) == split_str(s@, p@),
{
    let mut out: Vec<Vec<char>> = Vec::new();
    let mut rest = copy_chars(s);
    loop
        invariant
            p.len() > 0,
            split_str(s@, p@) == views(out@) + split_str(rest@, p@),
        decreases rest.len(),
    {
        proof {
            lemma_find(rest@, p@);
        }
        match find_chars(&rest, p) {
            Some(k) => {
                let piece = slice_chars(&rest, 0, k);
                let next = slice_chars(&rest, k + p.len(), rest.len());
                proof {
                    assert(piece@ =~= rest@.take(k as int));
                    assert(next@ =~= rest@.skip(k + p.len()));
                }
                let ghost old_out = out@;
                out.push(piece);
                proof {
                    lemma_views_push(old_out, piece);
                    assert(views(out@) + split_str(next@, p@) =~= views(old_out) + split_str(
                        rest@,
                        p@,
                    ));
                }
                rest = next;
            },
            None => {
                let ghost old_out = out@;
                let last = copy_chars(&rest);
                out.push(last);
                proof {
                    lemma_views_push(old_out, last);
                    assert(views(out@) =~= views(old_out) + split_str(rest@, p@));
                }
                return out;
            },
        }
    }
}


/// What `str::split` with a `char` pattern yields.
pub open spec fn split_char(s: Seq<char>, c: char) -> Seq<Seq<char>>
    decreases s.len(),
{
    let k = index_of_char(s, c);
    if k < s.len() {
        seq![s.take(k as int)] + split_char(s.skip(k + 1 as int), c)
    } else {
        seq![s]
    }
}

/// `str::split` with a `char` pattern.
pub fn split_char_exec(s: &Vec<char>, c: char) -> (r: Vec<Vec<char>>)
    ensures
        views(r@) == split_char(s@, c),
{
    let n = s.len();
    let mut out: Vec<Vec<char>> = Vec::new();
    let mut start: usize = 0;
    let mut i: usize = 0;
    proof {
        assert(s@.skip(0) =~= s@);
        assert(views(out@) + split_char(s@, c) =~= split_char(s@, c));
    }
    while i < n
        invariant
            n == s.len(),
            start <= i <= n,
            forall|j: int| start <= j < i ==> #[trigger] s@[j] != c,
            split_char(s@, c) == views(out@) + split_char(s@.skip(start as int), c),
        decreases n - i,
    {
        if s[i] == c {
            let piece = slice_chars(s, start, i);
            proof {
                let t = s@.skip(start as int);
                assert forall|j: int| 0 <= j < i - start implies #[trigger] t[j] != c by {
                    assert(t[j] == s@[start + j]);
                }
                lemma_index_of_char(t, c, i - start);
                assert(t.take(i - start) =~= piece@);
                assert(t.skip(i - start + 1) =~= s@.skip(i + 1));
            }
            let ghost old_out = out@;
            out.push(piece);
            proof {
                lemma_views_push(old_out, piece);
                assert(views(old_out) + split_char(s@.skip(start as int), c) =~= views(out@)
                    + split_char(s@.skip(i + 1), c));
            }
            start = i + 1;
        }
        i += 1;
    }
    let piece = slice_chars(s, start, n);
    proof {
        let t = s@.skip(start as int);
        assert forall|j: int| 0 <= j < t.len() implies #[trigger] t[j] != c by {
            assert(t[j] == s@[start + j]);
        }
        lemma_index_of_char(t, c, t.len() as int);
        assert(t =~= piece@);
    }
    let ghost old_out = out@;
    out.push(piece);
    proof {
        lemma_views_push(old_out, piece);
    }
    out
}

/// The position of the last `c` in `s`, if any (what `str::rfind` with a `char` gives,
/// counted in characters).
pub open spec fn last_index_of_char(s: Seq<char>, c: char) -> Option<int>
    decreases s.len(),
{
    if s.len() == 0 {
        None
    } else if s.last() == c {
        Some(s.len() - 1)
    } else {
        last_index_of_char(s.drop_last(), c)
    }
}

pub fn last_index_of_char_exec(s: &Vec<char>, c: char) -> (r: Option<usize>)
    ensures
        r matches Some(k) ==> last_index_of_char(s@, c) == Some(k as int) && k < s.len(),
        r is None ==> last_index_of_char(s@, c) is None,
{
    let mut j: usize = s.len();
    assert(s@.take(s.len() as int) =~= s@);
    while j > 0
        invariant
            j <= s.len(),
            last_index_of_char(s@, c) == last_index_of_char(s@.take(j as int), c),
        decreases j,
    {
        let ghost t = s@.take(j as int);
        assert(t.last() == s@[j - 1]);
        assert(t.drop_last() =~= s@.take(j - 1));
        if s[j - 1] == c {
            return Some(j - 1);
        }
        j -= 1;
    }
    None
}

/// The position of the first whitespace character of `s`, or `s.len()`.
pub open spec fn index_of_ws(s: Seq<char>) -> nat
    decreases s.len(),
{
    if s.len() == 0 || is_ws(s[0]) {
        0
    } else {
        1 + index_of_ws(s.drop_first())
    }
}

/// The first whitespace-separated word of `s` (what `split_whitespace().next()` gives),
/// or `None` where `s` holds only whitespace.
pub open spec fn first_word(s: Seq<char>) -> Option<Seq<char>> {
    let t = trim_start(s);
    if t.len() == 0 {
        None
    } else {
        Some(t.take(index_of_ws(t) as int))
    }
}

proof fn lemma_index_of_ws(s: Seq<char>, k: int)
    requires
        0 <= k <= s.len(),
        forall|j: int| 0 <= j < k ==> !is_ws(#[trigger] s[j]),
        k == s.len() || is_ws(s[k]),
    ensures
        index_of_ws(s) == k,
    decreases k,
{
    if k > 0 {
        lemma_index_of_ws(s.drop_first(), k - 1);
    }
}

/// The first whitespace-separated word of `s`.
pub fn first_word_exec(s: &Vec<char>) -> (r: Option<Vec<char>>)
    ensures
        r matches Some(w) ==> first_word(s@) == Some(w@),
        r is None ==> first_word(s@) is None,
{
    let n = s.len();
    let mut i: usize = 0;
    while i < n && is_whitespace(s[i])
        invariant
            i <= n == s.len(),
            forall|k: int| 0 <= k < i ==> is_ws(#[trigger] s@[k]),
        decreases n - i,
    {
        i += 1;
    }
    proof {
        lemma_trim_start_at(s@, i as int);
    }
    if i == n {
        return None;
    }
    let mut j: usize = i;
    while j < n && !is_whitespace(s[j])
        invariant
            i <= j <= n == s.len(),
            forall|k: int| i <= k < j ==> !is_ws(#[trigger] s@[k]),
        decreases n - j,
    {
        j += 1;
    }
    proof {
        let t = s@.skip(i as int);
        assert forall|k: int| 0 <= k < j - i implies !is_ws(#[trigger] t[k]) by {
            assert(t[k] == s@[k + i]);
        }
        if j < n {
            assert(t[j - i] == s@[j as int]);
        }
        lemma_index_of_ws(t, j - i);
        assert(t.take(j - i) =~= s@.subrange(i as int, j as int));
    }
    Some(slice_chars(s, i, j))
}

/// `s` cut to `max` characters, with `…` after a cut.
pub open spec fn truncate_chars(s: Seq<char>, max: nat) -> Seq<char> {
    if s.len() <= max {
        s
    } else {
        s.take(max as int).push('…')
    }
}

/// Cuts `s` to `max` characters, marking a cut with `…`.
pub fn truncate_exec(s: &Vec<char>, max: usize) -> (r: Vec<char>)
    ensures
        r@ == truncate_chars(s@, max as nat),
{
    if s.len() <= max {
        copy_chars(s)
    } else {
        let mut r = slice_chars(s, 0, max);
        r.push('…');
        r
    }
}


/// What `str::split_whitespace` yields.
pub open spec fn words(s: Seq<char>) -> Seq<Seq<char>>
    decreases s.len(),
{
    if s.len() == 0 {
        seq![]
    } else if is_ws(s[0]) {
        words(s.drop_first())
    } else {
        let k = index_of_ws(s);
        if 0 < k <= s.len() {
            seq![s.take(k as int)] + words(s.skip(k as int))
        } else {
            seq![s]
        }
    }
}

/// `str::split_whitespace`, each word copied out.
pub fn words_exec(s: &Vec<char>) -> (r: Vec<Vec<char>>)
    ensures
        views(r@) == words(s@),
{
    let n = s.len();
    let mut out: Vec<Vec<char>> = Vec::new();
    let mut i: usize = 0;
    proof {
        assert(s@.skip(0) =~= s@);
        assert(views(out@) + words(s@) =~= words(s@));
    }
    while i < n
        invariant
            n == s.len(),
            i <= n,
            words(s@) == views(out@) + words(s@.skip(i as int)),
        decreases n - i,
    {
        let ghost t = s@.skip(i as int);
        assert(t[0] == s@[i as int]);
        if is_whitespace(s[i]) {
            assert(t.drop_first() =~= s@.skip(i + 1));
            i += 1;
        } else {
            let mut j: usize = i;
            while j < n && !is_whitespace(s[j])
                invariant
                    i <= j <= n == s.len(),
                    forall|k: int| i <= k < j ==> !is_ws(#[trigger] s@[k]),
                decreases n - j,
            {
                j += 1;
            }
            let w = slice_chars(s, i, j);
            proof {
                assert forall|k: int| 0 <= k < j - i implies !is_ws(#[trigger] t[k]) by {
                    assert(t[k] == s@[k + i]);
                }
                if j < n {
                    assert(t[j - i] == s@[j as int]);
                }
                lemma_index_of_ws(t, j - i);
                assert(t.take(j - i) =~= w@);
                assert(t.skip(j - i) =~= s@.skip(j as int));
            }
            let ghost old_out = out@;
            out.push(w);
            proof {
                lemma_views_push(old_out, w);
                assert(views(old_out) + words(t) =~= views(out@) + words(s@.skip(j as int)));
            }
            i = j;
        }
    }
    proof {
        assert(views(out@) =~= views(out@) + words(s@.skip(n as int)));
    }
    out
}

/// The value of a sequence of decimal digits.
pub open spec fn digits_value(d: Seq<char>) -> nat
    decreases d.len(),
{
    if d.len() == 0 {
        0
    } else {
        digits_value(d.drop_last()) * 10 + (d.last() as nat - 48) as nat
    }
}

/// An ASCII decimal digit.
pub open spec fn is_digit(c: char) -> bool {
    '0' <= c <= '9'
}

/// Every character is a decimal digit.
pub open spec fn all_digits(d: Seq<char>) -> bool {
    forall|i: int| 0 <= i < d.len() ==> is_digit(#[trigger] d[i])
}

/// What `str::parse::<u32>` gives: an optional `+` and at least one digit, of a value
/// that fits in `u32`.
pub open spec fn parse_u32(s: Seq<char>) -> Option<nat> {
    let d = if s.len() > 0 && s[0] == '+' {
        s.drop_first()
    } else {
        s
    };
    if d.len() == 0 || !all_digits(d) {
        None
    } else if digits_value(d) > u32::MAX {
        None
    } else {
        Some(digits_value(d))
    }
}

proof fn lemma_digits_value_grows(d: Seq<char>, k: int, j: int)
    requires
        0 <= k <= j <= d.len(),
        forall|i: int| 0 <= i < d.len() ==> is_digit(#[trigger] d[i]),
    ensures
        digits_value(d.take(k)) <= digits_value(d.take(j)),
    decreases j - k,
{
    if k < j {
        lemma_digits_value_grows(d, k, j - 1);
        assert(d.take(j).drop_last() =~= d.take(j - 1));
        assert(d.take(j).last() == d[j - 1]);
    }
}

/// `str::parse::<u32>`.
pub fn parse_u32_exec(s: &Vec<char>) -> (r: Option<u32>)
    ensures
        r matches Some(v) ==> parse_u32(s@) == Some(v as nat),
        r is None ==> parse_u32(s@) is None,
{
    let start: usize = if s.len() > 0 && s[0] == '+' {
        1
    } else {
        0
    };
    let ghost d = if s@.len() > 0 && s@[0] == '+' {
        s@.drop_first()
    } else {
        s@
    };
    assert(d =~= s@.skip(start as int));
    if start == s.len() {
        return None;
    }
    let mut k: usize = start;
    while k < s.len()
        invariant
            start <= k <= s.len(),
            d =~= s@.skip(start as int),
            d == (if s@.len() > 0 && s@[0] == '+' {
                s@.drop_first()
            } else {
                s@
            }),
            forall|i: int| start <= i < k ==> is_digit(#[trigger] s@[i]),
        decreases s.len() - k,
    {
        if !('0' <= s[k] && s[k] <= '9') {
            assert(d[k - start] == s@[k as int]);
            assert(!is_digit(d[k - start]));
            assert(!all_digits(d));
            return None;
        }
        k += 1;
    }
    assert forall|i: int| 0 <= i < d.len() implies is_digit(#[trigger] d[i]) by {
        assert(d[i] == s@[i + start]);
    }
    let mut acc: u64 = 0;
    let mut k: usize = start;
    while k < s.len()
        invariant
            start <= k <= s.len(),
            d =~= s@.skip(start as int),
            d == (if s@.len() > 0 && s@[0] == '+' {
                s@.drop_first()
            } else {
                s@
            }),
            forall|i: int| 0 <= i < d.len() ==> is_digit(#[trigger] d[i]),
            acc == digits_value(d.take(k - start)),
            acc <= u32::MAX,
        decreases s.len() - k,
    {
        proof {
            assert(d.take(k - start + 1).drop_last() =~= d.take(k - start));
            assert(d.take(k - start + 1).last() == s@[k as int]);
            assert(d[k - start] == s@[k as int]);
        }
        let digit = (s[k] as u32 - '0' as u32) as u64;
        acc = acc * 10 + digit;
        k += 1;
        if acc > 4294967295 {
            proof {
                lemma_digits_value_grows(d, k - start, d.len() as int);
                assert(d.take(d.len() as int) =~= d);
                assert(digits_value(d) > u32::MAX);
                assert(d.len() > 0);
            }
            return None;
        }
    }
    assert(d.take(d.len() as int) =~= d);
    Some(acc as u32)
}

/// `s` without consecutive repeats (what `Vec::dedup` leaves).
pub open spec fn dedup(s: Seq<Seq<char>>) -> Seq<Seq<char>>
    decreases s.len(),
{
    if s.len() == 0 {
        s
    } else if s.len() >= 2 && s[s.len() - 2] == s.last() {
        dedup(s.drop_last())
    } else {
        dedup(s.drop_last()).push(s.last())
    }
}

proof fn lemma_dedup_last(s: Seq<Seq<char>>)
    requires
        s.len() > 0,
    ensures
        dedup(s).len() > 0,
        dedup(s).last() == s.last(),
    decreases s.len(),
{
    if s.len() >= 2 && s[s.len() - 2] == s.last() {
        lemma_dedup_last(s.drop_last());
    }
}

/// Removing repeats keeps every line that occurs.
pub proof fn lemma_dedup_contains(s: Seq<Seq<char>>, x: Seq<char>)
    requires
        s.contains(x),
    ensures
        dedup(s).contains(x),
    decreases s.len(),
{
    let t = s.drop_last();
    let e = s.last();
    if x == e {
        if s.len() >= 2 && s[s.len() - 2] == e {
            lemma_dedup_last(t);
            assert(dedup(t)[dedup(t).len() - 1] == e);
        } else {
            assert(dedup(s)[dedup(s).len() - 1] == e);
        }
    } else {
        let k = choose|k: int| 0 <= k < s.len() && s[k] == x;
        assert(t[k] == x);
        lemma_dedup_contains(t, x);
        let m = choose|m: int| 0 <= m < dedup(t).len() && dedup(t)[m] == x;
        if !(s.len() >= 2 && s[s.len() - 2] == e) {
            assert(dedup(s)[m] == x);
        }
    }
}

/// After removing repeats, no two neighbouring lines are equal.
pub proof fn law_dedup_no_neighbour_repeats(s: Seq<Seq<char>>)
    ensures
        forall|i: int| 0 <= i < dedup(s).len() - 1 ==> #[trigger] dedup(s)[i] != dedup(s)[i + 1],
    decreases s.len(),
{
    if s.len() > 0 {
        let t = s.drop_last();
        law_dedup_no_neighbour_repeats(t);
        if !(s.len() >= 2 && s[s.len() - 2] == s.last()) {
            let d = dedup(t);
            let e = d.push(s.last());
            assert(dedup(s) == e);
            if t.len() > 0 {
                lemma_dedup_last(t);
                assert(t.last() == s[s.len() - 2]);
            }
            assert forall|i: int| 0 <= i < e.len() - 1 implies #[trigger] e[i] != e[i + 1] by {
                assert(e[i] == d[i]);
                if i + 1 < d.len() {
                    assert(e[i + 1] == d[i + 1]);
                } else {
                    assert(d.last() == d[i]);
                }
            }
        }
    }
}

/// Equality of two texts.
pub fn eq_chars_exec(a: &Vec<char>, b: &Vec<char>) -> (r: bool)
    ensures
        r == (a@ == b@),
{
    if a.len() != b.len() {
        return false;
    }
    let mut i: usize = 0;
    while i < a.len()
        invariant
            i <= a.len() == b.len(),
            forall|k: int| 0 <= k < i ==> a@[k] == b@[k],
        decreases a.len() - i,
    {
        if a[i] != b[i] {
            return false;
        }
        i += 1;
    }
    assert(a@ =~= b@);
    true
}

/// `Vec::dedup` on lines.
pub fn dedup_exec(s: &Vec<Vec<char>>) -> (r: Vec<Vec<char>>)
    ensures
        views(r@) == dedup(views(s@)),
{
    let mut out: Vec<Vec<char>> = Vec::new();
    let mut i: usize = 0;
    while i < s.len()
        invariant
            i <= s.len(),
            views(out@) == dedup(views(s@).take(i as int)),
        decreases s.len() - i,
    {
        let ghost t = views(s@).take(i + 1);
        proof {
            assert(t.drop_last() =~= views(s@).take(i as int));
            assert(t.last() == s@[i as int]@);
            if i >= 1 {
                assert(t[i - 1] == s@[i - 1]@);
            }
        }
        if i >= 1 && eq_chars_exec(&s[i - 1], &s[i]) {
        } else {
            let ghost old_out = out@;
            let c = copy_chars(&s[i]);
            out.push(c);
            proof {
                lemma_views_push(old_out, c);
            }
        }
        i += 1;
    }
    assert(views(s@).take(s.len() as int) =~= views(s@));
    out
}

} // verus!
