//! Character-sequence helpers shared by the coordinate and label parsers:
//! locating separator characters, splitting on a separator and joining with
//! one, together with the lemmas that relate the three.

use vstd::prelude::*;

verus! {

/// Whether `c` occurs anywhere in `s`.
pub open spec fn has_char(s: Seq<char>, c: char) -> bool {
    exists|i: int| 0 <= i < s.len() && s[i] == c
}

/// Index of the first occurrence of `c` in `s`, or -1 when `c` does not occur.
pub open spec fn first_at(s: Seq<char>, c: char) -> int
    decreases s.len(),
{
    if s.len() == 0 {
        -1
    } else if s[0] == c {
        0
    } else {
        let r = first_at(s.skip(1), c);
        if r == -1 {
            -1
        } else {
            r + 1
        }
    }
}

/// `first_at` either reports that `c` is absent or returns the least index
/// holding `c`.
pub proof fn lemma_first_at(s: Seq<char>, c: char)
    ensures
        first_at(s, c) == -1 <==> !has_char(s, c),
        first_at(s, c) != -1 ==> 0 <= first_at(s, c) < s.len() && s[first_at(s, c)] == c,
        first_at(s, c) != -1 ==> forall|j: int| 0 <= j < first_at(s, c) ==> s[j] != c,
    decreases s.len(),
{
    if s.len() == 0 {
    } else if s[0] == c {
    } else {
        lemma_first_at(s.skip(1), c);
        let t = s.skip(1);
        assert(forall|i: int| 0 <= i < t.len() ==> t[i] == s[i + 1]);
        if first_at(t, c) == -1 {
            assert forall|i: int| 0 <= i < s.len() implies s[i] != c by {
                if i > 0 {
                    assert(t[i - 1] == s[i]);
                }
            }
        } else {
            let r = first_at(t, c);
            assert(s[r + 1] == t[r]);
            assert forall|j: int| 0 <= j < r + 1 implies s[j] != c by {
                if j > 0 {
                    assert(t[j - 1] == s[j]);
                }
            }
        }
    }
}

/// If `i` is an occurrence of `c` with no earlier occurrence, then `i` is what
/// `first_at` returns.
pub proof fn lemma_first_at_is(s: Seq<char>, c: char, i: int)
    requires
        0 <= i < s.len(),
        s[i] == c,
        forall|j: int| 0 <= j < i ==> s[j] != c,
    ensures
        first_at(s, c) == i,
{
    lemma_first_at(s, c);
    let r = first_at(s, c);
    assert(has_char(s, c));
    if r < i {
        assert(s[r] == c);
    } else if r > i {
        assert(s[i] != c);
    }
}

/// If `c` does not occur in `s`, `first_at` returns -1.
pub proof fn lemma_first_at_none(s: Seq<char>, c: char)
    requires
        forall|j: int| 0 <= j < s.len() ==> s[j] != c,
    ensures
        first_at(s, c) == -1,
{
    lemma_first_at(s, c);
    if first_at(s, c) != -1 {
        assert(s[first_at(s, c)] == c);
    }
}

/// The first `c` in `a + [c] + b` sits right after `a` when `a` is `c`-free.
pub proof fn lemma_first_at_concat(a: Seq<char>, b: Seq<char>, c: char)
    requires
        !has_char(a, c),
    ensures
        first_at(a + seq![c] + b, c) == a.len(),
{
    let s = a + seq![c] + b;
    assert(s[a.len() as int] == c);
    assert forall|j: int| 0 <= j < a.len() implies s[j] != c by {
        assert(s[j] == a[j]);
        assert(!(0 <= j < a.len() && a[j] == c));
    }
    lemma_first_at_is(s, c, a.len() as int);
}

/// Splitting `s` at every occurrence of `c`; always yields at least one piece,
/// and none of the pieces contains `c`.
pub open spec fn split_at_char(s: Seq<char>, c: char) -> Seq<Seq<char>>
    decreases s.len(),
{
    let i = first_at(s, c);
    if i < 0 || i >= s.len() {
        seq![s]
    } else {
        seq![s.take(i)] + split_at_char(s.skip(i + 1), c)
    }
}

/// Joining pieces with a single `c` between neighbours.
pub open spec fn join_with(cs: Seq<Seq<char>>, c: char) -> Seq<char>
    decreases cs.len(),
{
    if cs.len() == 0 {
        Seq::empty()
    } else if cs.len() == 1 {
        cs[0]
    } else {
        cs[0] + seq![c] + join_with(cs.skip(1), c)
    }
}

/// Appending a piece extends the joined sequence by a separator and the piece.
pub proof fn lemma_join_push(cs: Seq<Seq<char>>, x: Seq<char>, c: char)
    requires
        cs.len() >= 1,
    ensures
        join_with(cs.push(x), c) == join_with(cs, c) + seq![c] + x,
    decreases cs.len(),
{
    if cs.len() == 1 {
        let p = cs.push(x);
        assert(p.len() == 2);
        assert(p[0] == cs[0]);
        assert(p.skip(1) =~= seq![x]);
        assert(join_with(p.skip(1), c) == x);
    } else {
        let p = cs.push(x);
        assert(p[0] == cs[0]);
        assert(p.skip(1) =~= cs.skip(1).push(x));
        lemma_join_push(cs.skip(1), x, c);
        assert(join_with(p, c) == cs[0] + seq![c] + (join_with(cs.skip(1), c) + seq![c] + x));
        assert(cs[0] + seq![c] + (join_with(cs.skip(1), c) + seq![c] + x) =~= (cs[0] + seq![c]
            + join_with(cs.skip(1), c)) + seq![c] + x);
    }
}

/// A sequence without the separator splits into itself alone.
pub proof fn lemma_split_whole(s: Seq<char>, c: char)
    requires
        !has_char(s, c),
    ensures
        split_at_char(s, c) == seq![s],
{
    assert forall|j: int| 0 <= j < s.len() implies s[j] != c by {
        assert(!(0 <= j < s.len() && s[j] == c));
    }
    lemma_first_at_none(s, c);
}

/// Splitting undoes joining, provided no piece contains the separator.
pub proof fn lemma_split_join(ds: Seq<Seq<char>>, c: char)
    requires
        ds.len() >= 1,
        forall|k: int| 0 <= k < ds.len() ==> !has_char(#[trigger] ds[k], c),
    ensures
        split_at_char(join_with(ds, c), c) == ds,
    decreases ds.len(),
{
    if ds.len() == 1 {
        lemma_split_whole(ds[0], c);
        assert(seq![ds[0]] =~= ds);
    } else {
        let tail = join_with(ds.skip(1), c);
        let s = ds[0] + seq![c] + tail;
        assert(join_with(ds, c) == s);
        lemma_first_at_concat(ds[0], tail, c);
        let i = ds[0].len() as int;
        assert(first_at(s, c) == i);
        assert(0 <= i < s.len());
        assert(s.take(i) =~= ds[0]);
        assert(s.skip(i + 1) =~= tail);
        assert(forall|k: int|
            0 <= k < ds.skip(1).len() ==> !has_char(#[trigger] ds.skip(1)[k], c));
        lemma_split_join(ds.skip(1), c);
        assert(split_at_char(s, c) == seq![ds[0]] + ds.skip(1));
        assert(seq![ds[0]] + ds.skip(1) =~= ds);
    }
}

/// A split has at least one piece, and no piece contains the separator.
pub proof fn lemma_split_pieces_free(s: Seq<char>, c: char)
    ensures
        split_at_char(s, c).len() >= 1,
        forall|k: int|
            0 <= k < split_at_char(s, c).len() ==> !has_char(
                #[trigger] split_at_char(s, c)[k],
                c,
            ),
    decreases s.len(),
{
    lemma_first_at(s, c);
    let i = first_at(s, c);
    let pieces = split_at_char(s, c);
    if i < 0 || i >= s.len() {
        assert(i == -1);
        assert(pieces == seq![s]);
        assert(!has_char(s, c));
    } else {
        lemma_split_pieces_free(s.skip(i + 1), c);
        let head = s.take(i);
        assert forall|j: int| 0 <= j < head.len() implies head[j] != c by {
            assert(head[j] == s[j]);
        }
        assert(!has_char(head, c));
        let rest = split_at_char(s.skip(i + 1), c);
        assert(pieces == seq![head] + rest);
        assert forall|k: int| 0 <= k < pieces.len() implies !has_char(
            #[trigger] pieces[k],
            c,
        ) by {
            if k == 0 {
                assert(pieces[0] == head);
            } else {
                assert(pieces[k] == rest[k - 1]);
            }
        }
    }
}

/// Whether `i` starts a `//` occurrence in `s`.
pub open spec fn dslash_at(s: Seq<char>, i: int) -> bool {
    0 <= i && i + 1 < s.len() && s[i] == '/' && s[i + 1] == '/'
}

/// Index of the first `//` in `s`, or -1 when none occurs.
pub open spec fn first_dslash(s: Seq<char>) -> int
    decreases s.len(),
{
    if s.len() < 2 {
        -1
    } else if s[0] == '/' && s[1] == '/' {
        0
    } else {
        let r = first_dslash(s.skip(1));
        if r == -1 {
            -1
        } else {
            r + 1
        }
    }
}

/// `first_dslash` either reports that `//` is absent or returns the least
/// index where it starts.
pub proof fn lemma_first_dslash(s: Seq<char>)
    ensures
        first_dslash(s) == -1 <==> forall|i: int| !dslash_at(s, i),
        first_dslash(s) != -1 ==> dslash_at(s, first_dslash(s)),
        first_dslash(s) != -1 ==> forall|j: int| 0 <= j < first_dslash(s) ==> !dslash_at(s, j),
    decreases s.len(),
{
    if s.len() < 2 {
        assert(forall|i: int| !dslash_at(s, i));
    } else if s[0] == '/' && s[1] == '/' {
        assert(dslash_at(s, 0));
    } else {
        let t = s.skip(1);
        lemma_first_dslash(t);
        assert(forall|i: int| 0 <= i < t.len() ==> t[i] == s[i + 1]);
        assert(forall|i: int| dslash_at(t, i) ==> dslash_at(s, i + 1));
        assert(forall|i: int| dslash_at(s, i) && i >= 1 ==> dslash_at(t, i - 1));
        if first_dslash(t) == -1 {
            assert forall|i: int| !dslash_at(s, i) by {
                if dslash_at(s, i) {
                    if i == 0 {
                        assert(s[0] == '/' && s[1] == '/');
                    } else {
                        assert(dslash_at(t, i - 1));
                    }
                }
            }
        } else {
            let r = first_dslash(t);
            assert(dslash_at(s, r + 1));
            assert forall|j: int| 0 <= j < r + 1 implies !dslash_at(s, j) by {
                if dslash_at(s, j) {
                    if j == 0 {
                        assert(s[0] == '/' && s[1] == '/');
                    } else {
                        assert(dslash_at(t, j - 1));
                    }
                }
            }
        }
    }
}

/// The views of a sequence of owned strings.
pub open spec fn views_of(v: Seq<String>) -> Seq<Seq<char>> {
    v.map_values(|t: String| t@)
}

/// Code point of `c` with an ASCII capital letter folded to its small form.
pub open spec fn lower_code(c: char) -> int {
    let x = c as int;
    if 65 <= x <= 90 {
        x + 32
    } else {
        x
    }
}

/// Equality of two character sequences up to ASCII case.
pub open spec fn eq_ascii_ci(a: Seq<char>, b: Seq<char>) -> bool {
    a.len() == b.len() && forall|i: int| 0 <= i < a.len() ==> lower_code(a[i]) == lower_code(b[i])
}

/// If `i` starts a `//` occurrence and none starts earlier, then `i` is what
/// `first_dslash` returns.
pub proof fn lemma_first_dslash_is(s: Seq<char>, i: int)
    requires
        dslash_at(s, i),
        forall|j: int| 0 <= j < i ==> !dslash_at(s, j),
    ensures
        first_dslash(s) == i,
{
    lemma_first_dslash(s);
    let r = first_dslash(s);
    if r == -1 {
        assert(dslash_at(s, i));
    } else if r < i {
        assert(!dslash_at(s, r));
    } else if r > i {
        assert(!dslash_at(s, i));
    }
}

/// First occurrence of `c` in `s` at or after `start`.
pub fn find_char_from(s: &str, c: char, start: usize) -> (r: Option<usize>)
    requires
        start <= s@.len(),
    ensures
        match r {
            Some(j) => start <= j < s@.len() && s@[j as int] == c && forall|k: int|
                start <= k < j ==> s@[k] != c,
            None => forall|k: int| start <= k < s@.len() ==> s@[k] != c,
        },
{
    let n = s.unicode_len();
    let mut j: usize = start;
    while j < n
        invariant
            n == s@.len(),
            start <= j <= n,
            forall|k: int| start <= k < j ==> s@[k] != c,
        decreases n - j,
    {
        if s.get_char(j) == c {
            return Some(j);
        }
        j += 1;
    }
    None
}

/// First occurrence of `c` in `s`, reported against `first_at`.
pub fn find_char(s: &str, c: char) -> (r: Option<usize>)
    ensures
        match r {
            Some(j) => j < s@.len() && first_at(s@, c) == j,
            None => first_at(s@, c) == -1,
        },
{
    let r = find_char_from(s, c, 0);
    proof {
        match r {
            Some(j) => lemma_first_at_is(s@, c, j as int),
            None => lemma_first_at_none(s@, c),
        }
    }
    r
}

/// Start of the first `//` in `s`, reported against `first_dslash`.
pub fn find_dslash(s: &str) -> (r: Option<usize>)
    ensures
        match r {
            Some(i) => dslash_at(s@, i as int) && first_dslash(s@) == i,
            None => first_dslash(s@) == -1,
        },
{
    let n = s.unicode_len();
    if n < 2 {
        proof {
            lemma_first_dslash(s@);
        }
        return None;
    }
    let mut i: usize = 0;
    while i + 1 < n
        invariant
            n == s@.len(),
            n >= 2,
            i + 1 <= n,
            forall|j: int| 0 <= j < i ==> !dslash_at(s@, j),
        decreases n - i,
    {
        if s.get_char(i) == '/' && s.get_char(i + 1) == '/' {
            proof {
                lemma_first_dslash_is(s@, i as int);
            }
            return Some(i);
        }
        i += 1;
    }
    proof {
        assert(forall|j: int| !dslash_at(s@, j));
        lemma_first_dslash(s@);
    }
    None
}

/// An owned copy of `s[from..to]`, counted in characters.
pub fn substr_string(s: &str, from: usize, to: usize) -> (r: String)
    requires
        from <= to <= s@.len(),
    ensures
        r@ == s@.subrange(from as int, to as int),
{
    String::from_str(s.substring_char(from, to))
}

/// Splits `s` at every occurrence of `c`, mirroring `split_at_char`.
pub fn split_string(s: &str, c: char) -> (r: Vec<String>)
    ensures
        views_of(r@) == split_at_char(s@, c),
        r@.len() >= 1,
{
    let n = s.unicode_len();
    let mut out: Vec<String> = Vec::new();
    let mut start: usize = 0;
    proof {
        assert(s@.skip(0) =~= s@);
        assert(views_of(out@) + split_at_char(s@.skip(0), c) =~= split_at_char(s@, c));
    }
    loop
        invariant
            n == s@.len(),
            start <= n,
            views_of(out@) + split_at_char(s@.skip(start as int), c) == split_at_char(s@, c),
        decreases n - start,
    {
        let ghost tail = s@.skip(start as int);
        match find_char_from(s, c, start) {
            Some(j) => {
                let token = substr_string(s, start, j);
                proof {
                    assert(forall|k: int|
                        0 <= k < tail.len() ==> tail[k] == s@[start + k]);
                    assert(tail[(j - start) as int] == c);
                    lemma_first_at_is(tail, c, j - start);
                    assert(0 <= j - start < tail.len());
                    assert(tail.take(j - start) =~= s@.subrange(start as int, j as int));
                    assert(tail.skip(j - start + 1) =~= s@.skip(j + 1));
                    assert(split_at_char(tail, c) == seq![token@] + split_at_char(
                        s@.skip(j + 1),
                        c,
                    ));
                    assert(views_of(out@.push(token)) =~= views_of(out@).push(token@));
                    assert(views_of(out@).push(token@) + split_at_char(s@.skip(j + 1), c)
                        =~= views_of(out@) + (seq![token@] + split_at_char(s@.skip(j + 1), c)));
                }
                out.push(token);
                start = j + 1;
            },
            None => {
                let token = substr_string(s, start, n);
                proof {
                    assert(forall|k: int|
                        0 <= k < tail.len() ==> tail[k] == s@[start + k]);
                    assert(forall|k: int| 0 <= k < tail.len() ==> tail[k] != c);
                    lemma_first_at_none(tail, c);
                    assert(split_at_char(tail, c) == seq![tail]);
                    assert(token@ =~= tail);
                    assert(views_of(out@.push(token)) =~= views_of(out@).push(token@));
                    assert(views_of(out@).push(token@) =~= views_of(out@) + seq![tail]);
                }
                out.push(token);
                return out;
            },
        }
    }
}

/// Whether two string vectors hold the same character sequences, position by
/// position.
pub fn vec_string_eq(a: &Vec<String>, b: &Vec<String>) -> (r: bool)
    ensures
        r == (views_of(a@) == views_of(b@)),
{
    if a.len() != b.len() {
        proof {
            assert(views_of(a@).len() != views_of(b@).len());
        }
        return false;
    }
    let n = a.len();
    let mut k: usize = 0;
    while k < n
        invariant
            n == a@.len(),
            n == b@.len(),
            k <= n,
            forall|j: int| 0 <= j < k ==> a@[j]@ == b@[j]@,
        decreases n - k,
    {
        if !(a[k] == b[k]) {
            proof {
                assert(views_of(a@)[k as int] != views_of(b@)[k as int]);
            }
            return false;
        }
        k += 1;
    }
    proof {
        assert(views_of(a@) =~= views_of(b@));
    }
    true
}

/// Whether `a` and `b` hold the same characters up to ASCII case.
pub fn eq_ignore_ascii_case(a: &str, b: &str) -> (r: bool)
    ensures
        r == eq_ascii_ci(a@, b@),
{
    let na = a.unicode_len();
    let nb = b.unicode_len();
    if na != nb {
        return false;
    }
    let mut i: usize = 0;
    while i < na
        invariant
            na == a@.len(),
            na == b@.len(),
            i <= na,
            forall|j: int| 0 <= j < i ==> lower_code(a@[j]) == lower_code(b@[j]),
        decreases na - i,
    {
        let ca = a.get_char(i) as u32;
        let cb = b.get_char(i) as u32;
        let la = if 65 <= ca && ca <= 90 {
            ca + 32
        } else {
            ca
        };
        let lb = if 65 <= cb && cb <= 90 {
            cb + 32
        } else {
            cb
        };
        if la != lb {
            assert(lower_code(a@[i as int]) != lower_code(b@[i as int]));
            return false;
        }
        i += 1;
    }
    true
}

} // verus!
