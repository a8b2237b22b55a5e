//! Character-level text handling shared by the configuration and the
//! semantic-convention helpers: whitespace trimming, ASCII case folding,
//! separator splitting and decimal numbers.
use vstd::prelude::*;

verus! {

/// The Unicode `White_Space` property, as tested by `char::is_whitespace`.
pub open spec fn is_whitespace(c: char) -> bool {
    let u = c as u32;
    ||| 0x09 <= u <= 0x0d
    ||| u == 0x20
    ||| u == 0x85
    ||| u == 0xa0
    ||| u == 0x1680
    ||| 0x2000 <= u <= 0x200a
    ||| u == 0x2028
    ||| u == 0x2029
    ||| u == 0x202f
    ||| u == 0x205f
    ||| u == 0x3000
}

/// Whether `c` is whitespace.
pub fn char_is_whitespace(c: char) -> (res: bool)
    ensures
        res == is_whitespace(c),
{
    let u: u32 = c as u32;
    (0x09 <= u && u <= 0x0d) || u == 0x20 || u == 0x85 || u == 0xa0 || u == 0x1680 || (0x2000
        <= u && u <= 0x200a) || u == 0x2028 || u == 0x2029 || u == 0x202f || u == 0x205f || u
        == 0x3000
}

/// `s` with its leading whitespace removed.
pub open spec fn trim_start(s: Seq<char>) -> Seq<char>
    decreases s.len(),
{
    if s.len() > 0 && is_whitespace(s[0]) {
        trim_start(s.drop_first())
    } else {
        s
    }
}

/// `s` with its trailing whitespace removed.
pub open spec fn trim_end(s: Seq<char>) -> Seq<char>
    decreases s.len(),
{
    if s.len() > 0 && is_whitespace(s.last()) {
        trim_end(s.drop_last())
    } else {
        s
    }
}

/// `s` with leading and trailing whitespace removed, as `str::trim` does.
pub open spec fn trim(s: Seq<char>) -> Seq<char> {
    trim_end(trim_start(s))
}

/// The characters of `s`.
pub fn chars_of(s: &str) -> (res: Vec<char>)
    ensures
        res@ == s@,
{
    let n: usize = s.unicode_len();
    let mut res: Vec<char> = Vec::new();
    for i in 0..n
        invariant
            n == s@.len(),
            res@ == s@.take(i as int),
    {
        res.push(s.get_char(i));
        assert(res@ =~= s@.take(i + 1));
    }
    assert(res@ =~= s@);
    res
}

/// `trim_start` drops a prefix and leaves no leading whitespace.
pub proof fn lemma_trim_start(s: Seq<char>) -> (k: int)
    ensures
        0 <= k <= s.len(),
        trim_start(s) == s.skip(k),
        trim_start(s).len() > 0 ==> !is_whitespace(trim_start(s)[0]),
    decreases s.len(),
{
    if s.len() > 0 && is_whitespace(s[0]) {
        let k = lemma_trim_start(s.drop_first());
        assert(s.drop_first().skip(k) =~= s.skip(k + 1));
        k + 1
    } else {
        assert(s.skip(0) =~= s);
        0
    }
}

/// `trim_end` keeps a prefix and leaves no trailing whitespace.
pub proof fn lemma_trim_end(s: Seq<char>) -> (k: int)
    ensures
        0 <= k <= s.len(),
        trim_end(s) == s.take(k),
        trim_end(s).len() > 0 ==> !is_whitespace(trim_end(s).last()),
    decreases s.len(),
{
    if s.len() > 0 && is_whitespace(s.last()) {
        let k = lemma_trim_end(s.drop_last());
        assert(s.drop_last().take(k) =~= s.take(k));
        k
    } else {
        assert(s.take(s.len() as int) =~= s);
        s.len() as int
    }
}

/// A trimmed text is a part of the text with no whitespace at either end, and
/// trimming it again changes nothing.
pub proof fn lemma_trim(s: Seq<char>) -> (r: (int, int))
    ensures
        0 <= r.0 <= r.1 <= s.len(),
        trim(s) == s.subrange(r.0, r.1),
        trim(s).len() > 0 ==> !is_whitespace(trim(s)[0]) && !is_whitespace(trim(s).last()),
        trim(trim(s)) == trim(s),
{
    let a = lemma_trim_start(s);
    let t = trim_start(s);
    let b = lemma_trim_end(t);
    assert(s.skip(a).take(b) =~= s.subrange(a, a + b));
    let u = trim(s);
    if u.len() > 0 {
        assert(u[0] == t[0]);
    }
    assert(trim_start(u) == u);
    assert(trim_end(u) == u);
    (a, a + b)
}

/// Whether every character of `s` is whitespace.
pub open spec fn all_whitespace(s: Seq<char>) -> bool {
    forall|i: int| 0 <= i < s.len() ==> is_whitespace(#[trigger] s[i])
}

/// Leading whitespace of `a` is dropped first; once `a` is used up the
/// trimming goes on into `b`.
pub proof fn lemma_trim_start_concat(a: Seq<char>, b: Seq<char>)
    ensures
        trim_start(a + b) == if trim_start(a).len() > 0 {
            trim_start(a) + b
        } else {
            trim_start(b)
        },
    decreases a.len(),
{
    if a.len() == 0 {
        assert(a + b =~= b);
    } else if is_whitespace(a[0]) {
        lemma_trim_start_concat(a.drop_first(), b);
        assert((a + b).drop_first() =~= a.drop_first() + b);
    } else {
        assert((a + b)[0] == a[0]);
    }
}

/// Trailing whitespace appended to `a` is trimmed away again.
pub proof fn lemma_trim_end_whitespace_suffix(a: Seq<char>, w: Seq<char>)
    requires
        all_whitespace(w),
    ensures
        trim_end(a + w) == trim_end(a),
    decreases w.len(),
{
    if w.len() == 0 {
        assert(a + w =~= a);
    } else {
        assert((a + w).last() == w.last());
        assert((a + w).drop_last() =~= a + w.drop_last());
        lemma_trim_end_whitespace_suffix(a, w.drop_last());
    }
}

/// A text made only of whitespace trims to nothing.
pub proof fn lemma_trim_start_all_whitespace(w: Seq<char>)
    requires
        all_whitespace(w),
    ensures
        trim_start(w).len() == 0,
    decreases w.len(),
{
    if w.len() > 0 {
        lemma_trim_start_all_whitespace(w.drop_first());
    }
}

/// Appending whitespace does not change the trimmed text.
pub proof fn lemma_trim_whitespace_suffix(a: Seq<char>, w: Seq<char>)
    requires
        all_whitespace(w),
    ensures
        trim(a + w) == trim(a),
{
    lemma_trim_start_concat(a, w);
    if trim_start(a).len() > 0 {
        lemma_trim_end_whitespace_suffix(trim_start(a), w);
    } else {
        lemma_trim_start_all_whitespace(w);
        assert(trim_start(w) =~= trim_start(a));
    }
}

/// Prepending whitespace to a trimmed, non-empty text is trimmed away again.
pub proof fn lemma_trim_whitespace_prefix(w: Seq<char>, x: Seq<char>)
    requires
        all_whitespace(w),
        x.len() > 0,
        trim(x) == x,
    ensures
        trim(w + x) == x,
{
    lemma_trim(x);
    lemma_trim_start_concat(w, x);
    lemma_trim_start_all_whitespace(w);
    assert(trim_start(x) == x);
    assert(trim_end(x) == x);
}

/// A text that trims to nothing at the start holds only whitespace.
pub proof fn lemma_trim_start_empty(s: Seq<char>)
    requires
        trim_start(s).len() == 0,
    ensures
        all_whitespace(s),
    decreases s.len(),
{
    if s.len() > 0 {
        lemma_trim_start_empty(s.drop_first());
        assert forall|i: int| 0 <= i < s.len() implies is_whitespace(#[trigger] s[i]) by {
            if i > 0 {
                assert(s[i] == s.drop_first()[i - 1]);
            }
        }
    }
}

/// A text that ends in a non-whitespace character does not trim to nothing.
pub proof fn lemma_trim_nonempty(s: Seq<char>)
    requires
        s.len() > 0,
        !is_whitespace(s.last()),
    ensures
        trim(s).len() > 0,
{
    let k = lemma_trim_start(s);
    if trim_start(s).len() == 0 {
        lemma_trim_start_empty(s);
        assert(is_whitespace(s[s.len() - 1]));
    } else {
        let t = trim_start(s);
        assert(t.last() == s.last());
        assert(trim_end(t) == t);
    }
}

/// A text whose first and last characters are not whitespace is already
/// trimmed.
pub proof fn lemma_trim_unchanged(s: Seq<char>)
    requires
        s.len() > 0,
        !is_whitespace(s[0]),
        !is_whitespace(s.last()),
    ensures
        trim(s) == s,
{
    assert(trim_start(s) == s);
    assert(trim_end(s) == s);
}

/// The bounds of `s[lo..hi]` once trimmed.
pub fn trim_range(s: &[char], lo: usize, hi: usize) -> (res: (usize, usize))
    requires
        lo <= hi <= s@.len(),
    ensures
        lo <= res.0 <= res.1 <= hi,
        s@.subrange(res.0 as int, res.1 as int) == trim(s@.subrange(lo as int, hi as int)),
{
    let mut a: usize = lo;
    while a < hi && char_is_whitespace(s[a])
        invariant
            lo <= a <= hi <= s@.len(),
            trim_start(s@.subrange(lo as int, hi as int)) == trim_start(
                s@.subrange(a as int, hi as int),
            ),
        decreases hi - a,
    {
        assert(s@.subrange(a as int, hi as int).drop_first() =~= s@.subrange(a + 1, hi as int));
        a = a + 1;
    }
    let mut b: usize = hi;
    while b > a && char_is_whitespace(s[b - 1])
        invariant
            lo <= a <= b <= hi <= s@.len(),
            trim_start(s@.subrange(lo as int, hi as int)) == s@.subrange(a as int, hi as int),
            trim(s@.subrange(lo as int, hi as int)) == trim_end(s@.subrange(a as int, b as int)),
        decreases b - a,
    {
        assert(s@.subrange(a as int, b as int).drop_last() =~= s@.subrange(a as int, b - 1));
        b = b - 1;
    }
    (a, b)
}


/// `c` with an ASCII upper-case letter mapped to its lower-case letter.
pub open spec fn ascii_lower(c: char) -> char {
    if 'A' <= c <= 'Z' {
        ((c as u32) + 32) as char
    } else {
        c
    }
}

/// `s` with ASCII upper-case letters mapped to lower case, as
/// `str::to_ascii_lowercase` does.
pub open spec fn ascii_lowercase(s: Seq<char>) -> Seq<char> {
    s.map_values(|c: char| ascii_lower(c))
}

/// Whether `a` and `b` are equal up to ASCII case, as `str::eq_ignore_ascii_case`
/// decides.
pub open spec fn eq_ignore_ascii_case(a: Seq<char>, b: Seq<char>) -> bool {
    &&& a.len() == b.len()
    &&& forall|i: int| 0 <= i < a.len() ==> ascii_lower(#[trigger] a[i]) == ascii_lower(b[i])
}

/// `c` in lower case when it is an ASCII letter.
pub fn char_to_ascii_lower(c: char) -> (res: char)
    ensures
        res == ascii_lower(c),
{
    if 'A' <= c && c <= 'Z' {
        let b: u8 = c as u8;
        (b + 32) as char
    } else {
        c
    }
}

/// Whether `s[lo..hi]` equals `other` up to ASCII case.
pub fn range_eq_ignore_ascii_case(s: &[char], lo: usize, hi: usize, other: &[char]) -> (res: bool)
    requires
        lo <= hi <= s@.len(),
    ensures
        res == eq_ignore_ascii_case(s@.subrange(lo as int, hi as int), other@),
{
    if hi - lo != other.len() {
        return false;
    }
    let mut i: usize = 0;
    while i < other.len()
        invariant
            lo <= hi <= s@.len(),
            hi - lo == other@.len(),
            i <= other@.len(),
            forall|j: int|
                0 <= j < i ==> ascii_lower(s@.subrange(lo as int, hi as int)[j]) == ascii_lower(
                    other@[j],
                ),
        decreases other.len() - i,
    {
        if char_to_ascii_lower(s[lo + i]) != char_to_ascii_lower(other[i]) {
            assert(s@.subrange(lo as int, hi as int)[i as int] == s@[lo + i]);
            return false;
        }
        i = i + 1;
    }
    true
}

/// `s` in ASCII lower case.
pub fn to_ascii_lowercase(s: &[char]) -> (res: Vec<char>)
    ensures
        res@ == ascii_lowercase(s@),
{
    let mut res: Vec<char> = Vec::new();
    for i in 0..s.len()
        invariant
            res@ == ascii_lowercase(s@.take(i as int)),
    {
        res.push(char_to_ascii_lower(s[i]));
        assert(res@ =~= ascii_lowercase(s@.take(i + 1)));
    }
    assert(s@.take(s@.len() as int) =~= s@);
    res
}


/// `i` is the position of the first `c` in `s`.
pub open spec fn is_first_index(s: Seq<char>, c: char, i: int) -> bool {
    &&& 0 <= i < s.len()
    &&& s[i] == c
    &&& forall|j: int| 0 <= j < i ==> s[j] != c
}

/// `i` is the position of the last `c` in `s`.
pub open spec fn is_last_index(s: Seq<char>, c: char, i: int) -> bool {
    &&& 0 <= i < s.len()
    &&& s[i] == c
    &&& forall|j: int| i < j < s.len() ==> s[j] != c
}

/// The parts of `s` before and after its first `c`, as `str::split_once` gives them.
pub open spec fn split_once(s: Seq<char>, c: char) -> Option<(Seq<char>, Seq<char>)> {
    if s.contains(c) {
        let i = choose|i: int| is_first_index(s, c, i);
        Some((s.take(i), s.skip(i + 1)))
    } else {
        None
    }
}

/// The parts of `s` before and after its last `c`, as `str::rsplit_once` gives them.
pub open spec fn rsplit_once(s: Seq<char>, c: char) -> Option<(Seq<char>, Seq<char>)> {
    if s.contains(c) {
        let i = choose|i: int| is_last_index(s, c, i);
        Some((s.take(i), s.skip(i + 1)))
    } else {
        None
    }
}

/// The first piece of `s` split at `c`, as `str::split(c).next()` gives it.
pub open spec fn first_piece(s: Seq<char>, c: char) -> Seq<char> {
    match split_once(s, c) {
        Some((head, _)) => head,
        None => s,
    }
}

/// The first position of `c` determines `split_once`.
pub proof fn lemma_split_once_at(s: Seq<char>, c: char, i: int)
    requires
        is_first_index(s, c, i),
    ensures
        split_once(s, c) == Some((s.take(i), s.skip(i + 1))),
{
    assert(s.contains(c)) by {
        assert(s[i] == c);
    }
    let k = choose|k: int| is_first_index(s, c, k);
    assert(is_first_index(s, c, k));
    if k < i {
        assert(s[k] != c);
    }
    if i < k {
        assert(s[i] != c);
    }
}

/// The last position of `c` determines `rsplit_once`.
pub proof fn lemma_rsplit_once_at(s: Seq<char>, c: char, i: int)
    requires
        is_last_index(s, c, i),
    ensures
        rsplit_once(s, c) == Some((s.take(i), s.skip(i + 1))),
{
    assert(s.contains(c)) by {
        assert(s[i] == c);
    }
    let k = choose|k: int| is_last_index(s, c, k);
    assert(is_last_index(s, c, k));
    if k < i {
        assert(s[i] != c);
    }
    if i < k {
        assert(s[k] != c);
    }
}

/// The position of the first `c` in `s[lo..hi]`.
pub fn find_first(s: &[char], lo: usize, hi: usize, c: char) -> (res: Option<usize>)
    requires
        lo <= hi <= s@.len(),
    ensures
        match res {
            Some(i) => lo <= i < hi && is_first_index(
                s@.subrange(lo as int, hi as int),
                c,
                i - lo,
            ),
            None => !s@.subrange(lo as int, hi as int).contains(c),
        },
{
    let mut i: usize = lo;
    while i < hi
        invariant
            lo <= i <= hi <= s@.len(),
            forall|j: int| lo <= j < i ==> s@[j] != c,
        decreases hi - i,
    {
        if s[i] == c {
            return Some(i);
        }
        i = i + 1;
    }
    None
}

/// The position of the last `c` in `s[lo..hi]`.
pub fn find_last(s: &[char], lo: usize, hi: usize, c: char) -> (res: Option<usize>)
    requires
        lo <= hi <= s@.len(),
    ensures
        match res {
            Some(i) => lo <= i < hi && is_last_index(
                s@.subrange(lo as int, hi as int),
                c,
                i - lo,
            ),
            None => !s@.subrange(lo as int, hi as int).contains(c),
        },
{
    let mut i: usize = hi;
    while i > lo
        invariant
            lo <= i <= hi <= s@.len(),
            forall|j: int| i <= j < hi ==> s@[j] != c,
        decreases i - lo,
    {
        if s[i - 1] == c {
            return Some(i - 1);
        }
        i = i - 1;
    }
    None
}

/// `xs` joined with `sep` between consecutive elements.
pub open spec fn join_with(xs: Seq<Seq<char>>, sep: Seq<char>) -> Seq<char>
    decreases xs.len(),
{
    if xs.len() == 0 {
        Seq::<char>::empty()
    } else if xs.len() == 1 {
        xs[0]
    } else {
        join_with(xs.drop_last(), sep) + sep + xs.last()
    }
}

/// A joined list ends as its last element does.
pub proof fn lemma_join_with_last(xs: Seq<Seq<char>>, sep: Seq<char>)
    requires
        xs.len() > 0,
        xs.last().len() > 0,
    ensures
        join_with(xs, sep).len() > 0,
        join_with(xs, sep).last() == xs.last().last(),
{
    if xs.len() > 1 {
        let j = join_with(xs.drop_last(), sep) + sep + xs.last();
        assert(j.last() == xs.last().last());
    }
}

/// `s` split at every character of `seps`, empty pieces included, as `str::split`
/// gives the pieces.
pub open spec fn split_pieces(s: Seq<char>, seps: Seq<char>) -> Seq<Seq<char>>
    decreases s.len(),
{
    if s.len() == 0 {
        seq![Seq::<char>::empty()]
    } else {
        let pieces = split_pieces(s.drop_last(), seps);
        if seps.contains(s.last()) {
            pieces.push(Seq::<char>::empty())
        } else {
            pieces.update(pieces.len() - 1, pieces.last().push(s.last()))
        }
    }
}

/// No piece holds a separator.
pub proof fn lemma_split_pieces_no_separator(s: Seq<char>, seps: Seq<char>)
    ensures
        forall|i: int, j: int|
            0 <= i < split_pieces(s, seps).len() && 0 <= j < split_pieces(s, seps)[i].len()
                ==> !seps.contains(#[trigger] split_pieces(s, seps)[i][j]),
    decreases s.len(),
{
    if s.len() > 0 {
        lemma_split_pieces_no_separator(s.drop_last(), seps);
        lemma_split_pieces_nonempty(s.drop_last(), seps);
        let p = split_pieces(s.drop_last(), seps);
        let q = split_pieces(s, seps);
        assert forall|i: int, j: int| 0 <= i < q.len() && 0 <= j < q[i].len() implies !seps.contains(
            #[trigger] q[i][j],
        ) by {
            if !seps.contains(s.last()) && i == p.len() - 1 {
                if j < p.last().len() {
                    assert(q[i][j] == p[i][j]);
                }
            } else if i < p.len() {
                assert(q[i] == p[i]);
            }
        }
    }
}

/// Text without separators extends the last piece.
pub proof fn lemma_split_pieces_extend(s: Seq<char>, t: Seq<char>, seps: Seq<char>)
    requires
        forall|i: int| 0 <= i < t.len() ==> !seps.contains(#[trigger] t[i]),
    ensures
        split_pieces(s + t, seps) == split_pieces(s, seps).update(
            split_pieces(s, seps).len() - 1,
            split_pieces(s, seps).last() + t,
        ),
    decreases t.len(),
{
    lemma_split_pieces_nonempty(s, seps);
    let p = split_pieces(s, seps);
    if t.len() == 0 {
        assert(s + t =~= s);
        assert(p.last() + t =~= p.last());
        assert(p.update(p.len() - 1, p.last()) =~= p);
    } else {
        let t0 = t.drop_last();
        lemma_split_pieces_extend(s, t0, seps);
        assert((s + t).drop_last() =~= s + t0);
        assert((s + t).last() == t.last());
        assert(!seps.contains(t[t.len() - 1]));
        let q = split_pieces(s + t0, seps);
        assert(q.last() == p.last() + t0);
        assert((p.last() + t0).push(t.last()) =~= p.last() + t);
        assert(q.update(q.len() - 1, q.last().push(t.last())) =~= p.update(p.len() - 1, p.last() + t));
    }
}

/// A separator closes the last piece and opens an empty one.
pub proof fn lemma_split_pieces_separator(s: Seq<char>, c: char, seps: Seq<char>)
    requires
        seps.contains(c),
    ensures
        split_pieces(s.push(c), seps) == split_pieces(s, seps).push(Seq::<char>::empty()),
{
    assert(s.push(c).drop_last() =~= s);
}

/// There is always at least one piece.
pub proof fn lemma_split_pieces_nonempty(s: Seq<char>, seps: Seq<char>)
    ensures
        split_pieces(s, seps).len() >= 1,
    decreases s.len(),
{
    if s.len() > 0 {
        lemma_split_pieces_nonempty(s.drop_last(), seps);
    }
}

/// The pieces of `s[..hi]` split at the characters of `seps`, as bounds into `s`.
pub fn split_ranges(s: &[char], hi: usize, seps: &[char]) -> (res: Vec<(usize, usize)>)
    requires
        hi <= s@.len(),
    ensures
        res@.len() >= 1,
        forall|k: int| 0 <= k < res@.len() ==> res@[k].0 <= #[trigger] res@[k].1 <= hi,
        res@.map_values(|r: (usize, usize)| s@.subrange(r.0 as int, r.1 as int)) == split_pieces(
            s@.take(hi as int),
            seps@,
        ),
{
    let mut done: Vec<(usize, usize)> = Vec::new();
    let mut start: usize = 0;
    let mut i: usize = 0;
    assert(s@.take(0) =~= Seq::<char>::empty());
    assert(done@.map_values(|r: (usize, usize)| s@.subrange(r.0 as int, r.1 as int)).push(
        s@.subrange(0, 0),
    ) =~= seq![Seq::<char>::empty()]);
    while i < hi
        invariant
            i <= hi <= s@.len(),
            start <= i,
            forall|k: int| 0 <= k < done@.len() ==> done@[k].0 <= #[trigger] done@[k].1 <= start,
            done@.map_values(|r: (usize, usize)| s@.subrange(r.0 as int, r.1 as int)).push(
                s@.subrange(start as int, i as int),
            ) == split_pieces(s@.take(i as int), seps@),
        decreases hi - i,
    {
        let c = s[i];
        let mut is_sep = false;
        let mut k: usize = 0;
        while k < seps.len()
            invariant
                k <= seps@.len(),
                is_sep == (exists|j: int| 0 <= j < k && seps@[j] == c),
            decreases seps.len() - k,
        {
            if seps[k] == c {
                is_sep = true;
            }
            k = k + 1;
        }
        let ghost before = done@.map_values(|r: (usize, usize)| s@.subrange(r.0 as int, r.1 as int));
        assert(s@.take(i + 1).drop_last() =~= s@.take(i as int));
        assert(s@.take(i + 1).last() == c);
        if is_sep {
            done.push((start, i));
            assert(done@.map_values(|r: (usize, usize)| s@.subrange(r.0 as int, r.1 as int))
                =~= before.push(s@.subrange(start as int, i as int)));
            assert(s@.subrange(i + 1, i + 1) =~= Seq::<char>::empty());
            start = i + 1;
        } else {
            assert(s@.subrange(start as int, i + 1) =~= s@.subrange(start as int, i as int).push(c));
            assert(before.push(s@.subrange(start as int, i + 1)) =~= before.push(
                s@.subrange(start as int, i as int),
            ).update(before.len() as int, s@.subrange(start as int, i as int).push(c)));
        }
        i = i + 1;
    }
    let ghost prev = done@;
    done.push((start, hi));
    assert(done@.map_values(|r: (usize, usize)| s@.subrange(r.0 as int, r.1 as int)) =~= prev.map_values(
        |r: (usize, usize)| s@.subrange(r.0 as int, r.1 as int),
    ).push(s@.subrange(start as int, hi as int)));
    done
}


/// Whether `c` is an ASCII decimal digit.
pub open spec fn is_digit(c: char) -> bool {
    '0' <= c <= '9'
}

/// The value of the ASCII digit `c`.
pub open spec fn digit_value(c: char) -> nat {
    ((c as u32) - ('0' as u32)) as nat
}

/// The ASCII digit for `d`.
pub open spec fn digit_char(d: nat) -> char {
    (('0' as u32) + d) as char
}

/// The value of the decimal digits `s`.
pub open spec fn digits_value(s: Seq<char>) -> nat
    decreases s.len(),
{
    if s.len() == 0 {
        0
    } else {
        digits_value(s.drop_last()) * 10 + digit_value(s.last())
    }
}

/// The decimal representation of `n`, without leading zeros.
pub open spec fn decimal(n: nat) -> Seq<char>
    decreases n,
{
    if n < 10 {
        seq![digit_char(n)]
    } else {
        decimal(n / 10).push(digit_char(n % 10))
    }
}

/// Whether every character of `s` is an ASCII digit.
pub open spec fn all_digits(s: Seq<char>) -> bool {
    forall|i: int| 0 <= i < s.len() ==> is_digit(#[trigger] s[i])
}

/// `s` without one leading `+`.
pub open spec fn without_plus(s: Seq<char>) -> Seq<char> {
    if s.len() > 0 && s[0] == '+' {
        s.drop_first()
    } else {
        s
    }
}

/// `s` read as a `u16` the way `str::parse::<u16>` reads it: an optional `+`
/// followed by at least one ASCII digit, with a value that fits in 16 bits.
pub open spec fn parse_u16(s: Seq<char>) -> Option<u16> {
    let digits = without_plus(s);
    if digits.len() > 0 && all_digits(digits) && digits_value(digits) <= u16::MAX {
        Some(digits_value(digits) as u16)
    } else {
        None
    }
}

/// A longer prefix of digits never has a smaller value.
pub proof fn lemma_digits_value_prefix(s: Seq<char>, i: int, j: int)
    requires
        0 <= i <= j <= s.len(),
    ensures
        digits_value(s.take(i)) <= digits_value(s.take(j)),
    decreases j - i,
{
    if i < j {
        lemma_digits_value_prefix(s, i, j - 1);
        assert(s.take(j).drop_last() =~= s.take(j - 1));
    }
}

/// Reads `s[lo..hi]` as a `u16`.
pub fn parse_u16_range(s: &[char], lo: usize, hi: usize) -> (res: Option<u16>)
    requires
        lo <= hi <= s@.len(),
    ensures
        res == parse_u16(s@.subrange(lo as int, hi as int)),
{
    let ghost t = s@.subrange(lo as int, hi as int);
    let mut start: usize = lo;
    if lo < hi && s[lo] == '+' {
        start = lo + 1;
    }
    let ghost digits = s@.subrange(start as int, hi as int);
    assert(digits =~= without_plus(t));
    if start == hi {
        return None;
    }
    let mut value: u32 = 0;
    let mut i: usize = start;
    while i < hi
        invariant
            lo <= start <= i <= hi <= s@.len(),
            t == s@.subrange(lo as int, hi as int),
            digits == s@.subrange(start as int, hi as int),
            digits == without_plus(t),
            digits.len() > 0,
            forall|k: int| 0 <= k < i - start ==> is_digit(#[trigger] digits[k]),
            value == digits_value(digits.take(i - start)),
            value <= u16::MAX,
        decreases hi - i,
    {
        let c = s[i];
        if !('0' <= c && c <= '9') {
            assert(!is_digit(digits[i - start]));
            return None;
        }
        let d: u32 = (c as u32) - ('0' as u32);
        assert(digits[i - start] == c);
        assert(digits.take(i + 1 - start).drop_last() =~= digits.take(i - start));
        assert(digits.take(i + 1 - start).last() == c);
        let next: u32 = value * 10 + d;
        if next > 65535 {
            proof {
                lemma_digits_value_prefix(digits, i + 1 - start, digits.len() as int);
                assert(digits.take(digits.len() as int) =~= digits);
            }
            return None;
        }
        value = next;
        i = i + 1;
    }
    assert(digits.take(digits.len() as int) =~= digits);
    Some(value as u16)
}

/// The digit characters round-trip through their values.
pub proof fn lemma_digit_char(d: nat)
    requires
        d < 10,
    ensures
        is_digit(digit_char(d)),
        digit_value(digit_char(d)) == d,
        digit_char(d) != '+',
{
}

/// The decimal representation is a non-empty run of digits of value `n`.
pub proof fn lemma_decimal(n: nat)
    ensures
        decimal(n).len() > 0,
        all_digits(decimal(n)),
        digits_value(decimal(n)) == n,
    decreases n,
{
    if n < 10 {
        lemma_digit_char(n);
        assert(decimal(n).drop_last() =~= Seq::<char>::empty());
        assert(digits_value(Seq::<char>::empty()) == 0);
        assert(digits_value(decimal(n)) == digits_value(decimal(n).drop_last()) * 10 + digit_value(decimal(n).last()));
    } else {
        lemma_decimal(n / 10);
        lemma_digit_char(n % 10);
        assert(decimal(n).drop_last() =~= decimal(n / 10));
        assert(decimal(n).last() == digit_char(n % 10));
        assert((n / 10) * 10 + n % 10 == n) by (nonlinear_arith);
        assert(digits_value(decimal(n)) == digits_value(decimal(n).drop_last()) * 10 + digit_value(decimal(n).last()));
        assert forall|i: int| 0 <= i < decimal(n).len() implies is_digit(#[trigger] decimal(n)[i]) by {
            if i < decimal(n).len() - 1 {
                assert(decimal(n)[i] == decimal(n / 10)[i]);
            }
        }
    }
}

/// Reading back the decimal representation of a 16-bit number gives the number.
pub proof fn lemma_parse_decimal(n: u16)
    ensures
        parse_u16(decimal(n as nat)) == Some(n),
{
    lemma_decimal(n as nat);
    assert(is_digit(decimal(n as nat)[0]));
    assert(without_plus(decimal(n as nat)) == decimal(n as nat));
}

/// Appends the decimal representation of `n` to `s`.
pub fn push_decimal(s: &mut String, n: u16)
    ensures
        final(s)@ == old(s)@ + decimal(n as nat),
    decreases n,
{
    if n >= 10 {
        push_decimal(s, n / 10);
    }
    let d: u8 = (n % 10) as u8;
    push_char(s, (48u8 + d) as char);
    assert(digit_char((n % 10) as nat) == (48u8 + d) as char);
    assert(decimal(n as nat) == if n < 10 {
        seq![digit_char(n as nat)]
    } else {
        decimal((n / 10) as nat).push(digit_char((n % 10) as nat))
    });
}

/// A copy of `s[lo..hi]`.
pub fn chars_range(s: &[char], lo: usize, hi: usize) -> (res: Vec<char>)
    requires
        lo <= hi <= s@.len(),
    ensures
        res@ == s@.subrange(lo as int, hi as int),
{
    let mut res: Vec<char> = Vec::new();
    let mut i: usize = lo;
    while i < hi
        invariant
            lo <= i <= hi <= s@.len(),
            res@ == s@.subrange(lo as int, i as int),
        decreases hi - i,
    {
        res.push(s[i]);
        assert(res@ =~= s@.subrange(lo as int, i + 1));
        i = i + 1;
    }
    res
}

/// Whether `s[lo..hi]` and `other` hold the same characters.
pub fn range_eq(s: &[char], lo: usize, hi: usize, other: &[char]) -> (res: bool)
    requires
        lo <= hi <= s@.len(),
    ensures
        res == (s@.subrange(lo as int, hi as int) == other@),
{
    if hi - lo != other.len() {
        return false;
    }
    let mut i: usize = 0;
    while i < other.len()
        invariant
            lo <= hi <= s@.len(),
            hi - lo == other@.len(),
            i <= other@.len(),
            forall|j: int| 0 <= j < i ==> s@[lo + j] == other@[j],
        decreases other.len() - i,
    {
        if s[lo + i] != other[i] {
            assert(s@.subrange(lo as int, hi as int)[i as int] != other@[i as int]);
            return false;
        }
        i = i + 1;
    }
    assert(s@.subrange(lo as int, hi as int) =~= other@);
    true
}

/// Whether some character of `s[lo..hi]` is whitespace.
pub fn range_has_whitespace(s: &[char], lo: usize, hi: usize) -> (res: bool)
    requires
        lo <= hi <= s@.len(),
    ensures
        res == (exists|i: int| 0 <= i < hi - lo && is_whitespace(#[trigger] s@.subrange(lo as int, hi as int)[i])),
{
    let mut i: usize = lo;
    while i < hi
        invariant
            lo <= i <= hi <= s@.len(),
            forall|j: int| lo <= j < i ==> !is_whitespace(#[trigger] s@[j]),
        decreases hi - i,
    {
        if char_is_whitespace(s[i]) {
            assert(is_whitespace(s@.subrange(lo as int, hi as int)[i - lo]));
            return true;
        }
        i = i + 1;
    }
    assert forall|k: int| 0 <= k < hi - lo implies !is_whitespace(#[trigger] s@.subrange(lo as int, hi as int)[k]) by {
        assert(s@.subrange(lo as int, hi as int)[k] == s@[lo + k]);
    }
    false
}

/// The text of an optional string.
pub open spec fn opt_text(s: Option<String>) -> Option<Seq<char>> {
    match s {
        Some(t) => Some(t@),
        None => None,
    }
}

/// `String::push`: appends `c` to `s`.
#[verifier::external_body]
fn push_char(s: &mut String, c: char)
    ensures
        final(s)@ == old(s)@.push(c),
{
    s.push(c);
}

/// A string holding the characters `s[lo..hi]`.
pub fn string_of_range(s: &[char], lo: usize, hi: usize) -> (res: String)
    requires
        lo <= hi <= s@.len(),
    ensures
        res@ == s@.subrange(lo as int, hi as int),
{
    let mut res = String::new();
    let mut i: usize = lo;
    while i < hi
        invariant
            lo <= i <= hi <= s@.len(),
            res@ == s@.subrange(lo as int, i as int),
        decreases hi - i,
    {
        push_char(&mut res, s[i]);
        assert(res@ =~= s@.subrange(lo as int, i + 1));
        i = i + 1;
    }
    res
}

/// A string holding the characters `s`.
pub fn string_of(s: &[char]) -> (res: String)
    ensures
        res@ == s@,
{
    let res = string_of_range(s, 0, s.len());
    assert(s@.subrange(0, s@.len() as int) =~= s@);
    res
}

} // verus!
