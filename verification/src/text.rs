//! Character-sequence helpers shared by the parsers: splitting on a
//! separator, joining, trimming, and (case-insensitive) comparison,
//! each as a spec function over `Seq<char>` with a verified executable
//! counterpart.
use vstd::prelude::*;
use vstd::string::StrSliceExecFns;
use vstd::string::StringExecFns;

verus! {

/// The whitespace characters that trimming removes (the ASCII set).
pub open spec fn is_space(c: char) -> bool {
    c == ' ' || c == '\t' || c == '\n' || c == '\r' || c == '\u{b}' || c == '\u{c}'
}

pub open spec fn spec_trim_left(s: Seq<char>) -> Seq<char>
    decreases s.len(),
{
    if s.len() > 0 && is_space(s[0]) {
        spec_trim_left(s.skip(1))
    } else {
        s
    }
}

pub open spec fn spec_trim_right(s: Seq<char>) -> Seq<char>
    decreases s.len(),
{
    if s.len() > 0 && is_space(s[s.len() - 1]) {
        spec_trim_right(s.take(s.len() - 1))
    } else {
        s
    }
}

/// What `trim` returns: the sequence with leading and trailing whitespace gone.
pub open spec fn spec_trim(s: Seq<char>) -> Seq<char> {
    spec_trim_right(spec_trim_left(s))
}

pub open spec fn spec_trim_char_left(s: Seq<char>, c: char) -> Seq<char>
    decreases s.len(),
{
    if s.len() > 0 && s[0] == c {
        spec_trim_char_left(s.skip(1), c)
    } else {
        s
    }
}

pub open spec fn spec_trim_char_right(s: Seq<char>, c: char) -> Seq<char>
    decreases s.len(),
{
    if s.len() > 0 && s[s.len() - 1] == c {
        spec_trim_char_right(s.take(s.len() - 1), c)
    } else {
        s
    }
}

/// All leading and all trailing occurrences of `c` removed.
pub open spec fn spec_trim_char(s: Seq<char>, c: char) -> Seq<char> {
    spec_trim_char_right(spec_trim_char_left(s, c), c)
}

/// At most one leading and one trailing occurrence of `c` removed.
pub open spec fn spec_trim_one(s: Seq<char>, c: char) -> Seq<char> {
    let t = if s.len() > 0 && s[0] == c {
        s.skip(1)
    } else {
        s
    };
    if t.len() > 0 && t[t.len() - 1] == c {
        t.take(t.len() - 1)
    } else {
        t
    }
}

/// `pat` occurs in `s` starting at index `i`.
pub open spec fn has_prefix_at(s: Seq<char>, pat: Seq<char>, i: int) -> bool {
    0 <= i && i + pat.len() <= s.len() && s.subrange(i, i + pat.len()) == pat
}

/// Prepend `c` to the first part of a non-empty part list.
pub open spec fn cons_head(c: char, parts: Seq<Seq<char>>) -> Seq<Seq<char>> {
    seq![seq![c] + parts[0]] + parts.skip(1)
}

/// The parts of `s` between non-overlapping occurrences of `pat`, scanned
/// left to right, as `str::split` yields them. Always at least one part.
pub open spec fn spec_split(s: Seq<char>, pat: Seq<char>) -> Seq<Seq<char>>
    decreases s.len(),
{
    if pat.len() == 0 || s.len() < pat.len() {
        seq![s]
    } else if s.subrange(0, pat.len() as int) == pat {
        seq![Seq::<char>::empty()] + spec_split(s.skip(pat.len() as int), pat)
    } else {
        cons_head(s[0], spec_split(s.skip(1), pat))
    }
}

/// The parts joined with `sep` between each pair.
pub open spec fn spec_join(parts: Seq<Seq<char>>, sep: Seq<char>) -> Seq<char>
    decreases parts.len(),
{
    if parts.len() == 0 {
        Seq::empty()
    } else if parts.len() == 1 {
        parts[0]
    } else {
        parts[0] + sep + spec_join(parts.skip(1), sep)
    }
}

pub proof fn lemma_split_len(s: Seq<char>, pat: Seq<char>)
    ensures
        spec_split(s, pat).len() >= 1,
    decreases s.len(),
{
    if pat.len() == 0 || s.len() < pat.len() {
    } else if s.subrange(0, pat.len() as int) == pat {
        lemma_split_len(s.skip(pat.len() as int), pat);
    } else {
        lemma_split_len(s.skip(1), pat);
    }
}

/// When the first occurrence of `pat` in `s` starts at `i`, the split is the
/// prefix before `i` followed by the split of what comes after the occurrence.
pub proof fn lemma_split_at_match(s: Seq<char>, pat: Seq<char>, i: int)
    requires
        pat.len() > 0,
        has_prefix_at(s, pat, i),
        forall|j: int| 0 <= j < i ==> !has_prefix_at(s, pat, j),
    ensures
        spec_split(s, pat) == seq![s.take(i)] + spec_split(s.skip(i + pat.len()), pat),
    decreases s.len(),
{
    if i == 0 {
        assert(s.take(0) =~= Seq::<char>::empty());
        assert(seq![s.take(0)] + spec_split(s.skip(pat.len() as int), pat) =~= seq![
            Seq::<char>::empty(),
        ] + spec_split(s.skip(pat.len() as int), pat));
    } else {
        assert(!has_prefix_at(s, pat, 0));
        assert(s.len() >= pat.len());
        assert(s.subrange(0, pat.len() as int) != pat);
        let s1 = s.skip(1);
        assert(has_prefix_at(s1, pat, i - 1)) by {
            assert(s1.subrange(i - 1, i - 1 + pat.len()) =~= s.subrange(i, i + pat.len()));
        }
        assert forall|j: int| 0 <= j < i - 1 implies !has_prefix_at(s1, pat, j) by {
            if has_prefix_at(s1, pat, j) {
                assert(s.subrange(j + 1, j + 1 + pat.len()) =~= s1.subrange(j, j + pat.len()));
                assert(has_prefix_at(s, pat, j + 1));
            }
        }
        lemma_split_at_match(s1, pat, i - 1);
        lemma_split_len(s1.skip(i - 1 + pat.len()), pat);
        let tail = spec_split(s1.skip(i - 1 + pat.len()), pat);
        assert(s1.skip(i - 1 + pat.len()) =~= s.skip(i + pat.len()));
        assert(spec_split(s, pat) == cons_head(s[0], seq![s1.take(i - 1)] + tail));
        assert(seq![s[0]] + (seq![s1.take(i - 1)] + tail)[0] =~= s.take(i));
        assert(cons_head(s[0], seq![s1.take(i - 1)] + tail) =~= seq![s.take(i)] + tail);
    }
}

/// When `pat` occurs nowhere in `s`, the split is `s` alone.
pub proof fn lemma_split_no_match(s: Seq<char>, pat: Seq<char>)
    requires
        pat.len() > 0,
        forall|j: int| !has_prefix_at(s, pat, j),
    ensures
        spec_split(s, pat) == seq![s],
    decreases s.len(),
{
    if s.len() < pat.len() {
    } else {
        assert(!has_prefix_at(s, pat, 0));
        assert(s.subrange(0, pat.len() as int) != pat);
        let s1 = s.skip(1);
        assert forall|j: int| !has_prefix_at(s1, pat, j) by {
            if has_prefix_at(s1, pat, j) {
                assert(s.subrange(j + 1, j + 1 + pat.len()) =~= s1.subrange(j, j + pat.len()));
                assert(has_prefix_at(s, pat, j + 1));
            }
        }
        lemma_split_no_match(s1, pat);
        assert(cons_head(s[0], seq![s1]) =~~= seq![s]);
    }
}

/// Joining a list extended by one more part appends a separator and that part.
proof fn lemma_join_snoc(parts: Seq<Seq<char>>, x: Seq<char>, sep: Seq<char>)
    requires
        parts.len() > 0,
    ensures
        spec_join(parts.push(x), sep) == spec_join(parts, sep) + sep + x,
    decreases parts.len(),
{
    if parts.len() == 1 {
        let p = parts.push(x);
        assert(p.len() == 2);
        assert(p.skip(1) =~= seq![x]);
        assert(spec_join(p, sep) == p[0] + sep + spec_join(p.skip(1), sep));
    } else {
        lemma_join_snoc(parts.skip(1), x, sep);
        assert(parts.push(x).skip(1) =~= parts.skip(1).push(x));
        assert(spec_join(parts, sep) + sep + x =~= parts[0] + sep + (spec_join(
            parts.skip(1),
            sep,
        ) + sep + x));
    }
}

/// The key a character compares under when case is ignored: the code point,
/// with an ASCII lower-case letter mapped to its upper-case form.
pub open spec fn upper_key(c: char) -> int {
    if 97 <= c as u32 && c as u32 <= 122 {
        c as u32 - 32
    } else {
        c as u32 as int
    }
}

/// Equality of two character sequences up to ASCII case.
pub open spec fn eq_upper(a: Seq<char>, b: Seq<char>) -> bool {
    a.len() == b.len() && forall|i: int| 0 <= i < a.len() ==> upper_key(a[i]) == upper_key(b[i])
}

pub fn str_eq(a: &str, b: &str) -> (r: bool)
    ensures
        r == (a@ == b@),
{
    let na = a.unicode_len();
    let nb = b.unicode_len();
    if na != nb {
        return false;
    }
    for i in 0..na
        invariant
            na == a@.len(),
            na == b@.len(),
            forall|j: int| 0 <= j < i ==> a@[j] == b@[j],
    {
        if a.get_char(i) != b.get_char(i) {
            return false;
        }
    }
    proof {
        assert(a@ =~= b@);
    }
    true
}

pub fn eq_ignore_case(a: &str, b: &str) -> (r: bool)
    ensures
        r == eq_upper(a@, b@),
{
    let na = a.unicode_len();
    let nb = b.unicode_len();
    if na != nb {
        return false;
    }
    for i in 0..na
        invariant
            na == a@.len(),
            na == b@.len(),
            forall|j: int| 0 <= j < i ==> upper_key(a@[j]) == upper_key(b@[j]),
    {
        let ca = a.get_char(i) as u32;
        let cb = b.get_char(i) as u32;
        let ka = if 97 <= ca && ca <= 122 {
            ca - 32
        } else {
            ca
        };
        let kb = if 97 <= cb && cb <= 122 {
            cb - 32
        } else {
            cb
        };
        if ka != kb {
            return false;
        }
    }
    true
}

proof fn lemma_trim_left_skip(s: Seq<char>, i: int)
    requires
        0 <= i <= s.len(),
        forall|j: int| 0 <= j < i ==> is_space(s[j]),
        i < s.len() ==> !is_space(s[i]),
    ensures
        spec_trim_left(s) == s.skip(i),
    decreases i,
{
    if i == 0 {
        assert(s.skip(0) =~= s);
    } else {
        assert(is_space(s[0]));
        lemma_trim_left_skip(s.skip(1), i - 1);
        assert(s.skip(1).skip(i - 1) =~= s.skip(i));
    }
}

proof fn lemma_trim_right_take(s: Seq<char>, i: int)
    requires
        0 <= i <= s.len(),
        forall|j: int| i <= j < s.len() ==> is_space(s[j]),
        i > 0 ==> !is_space(s[i - 1]),
    ensures
        spec_trim_right(s) == s.take(i),
    decreases s.len() - i,
{
    if i == s.len() {
        assert(s.take(i) =~= s);
    } else {
        assert(is_space(s[s.len() - 1]));
        lemma_trim_right_take(s.take(s.len() - 1), i);
        assert(s.take(s.len() - 1).take(i) =~= s.take(i));
    }
}

pub fn trim<'a>(s: &'a str) -> (r: &'a str)
    ensures
        r@ == spec_trim(s@),
{
    let n = s.unicode_len();
    let mut lo: usize = 0;
    while lo < n && is_space_exec(s.get_char(lo))
        invariant
            n == s@.len(),
            0 <= lo <= n,
            forall|j: int| 0 <= j < lo ==> is_space(s@[j]),
        decreases n - lo,
    {
        lo += 1;
    }
    let mut hi: usize = n;
    while hi > lo && is_space_exec(s.get_char(hi - 1))
        invariant
            n == s@.len(),
            lo <= hi <= n,
            forall|j: int| 0 <= j < lo ==> is_space(s@[j]),
            lo < n ==> !is_space(s@[lo as int]),
            forall|j: int| hi <= j < n ==> is_space(s@[j]),
        decreases hi,
    {
        hi -= 1;
    }
    proof {
        lemma_trim_left_skip(s@, lo as int);
        lemma_trim_right_take(s@.skip(lo as int), hi - lo);
        assert(s@.skip(lo as int).take(hi - lo) =~= s@.subrange(lo as int, hi as int));
    }
    s.substring_char(lo, hi)
}

fn is_space_exec(c: char) -> (r: bool)
    ensures
        r == is_space(c),
{
    c == ' ' || c == '\t' || c == '\n' || c == '\r' || c == '\u{b}' || c == '\u{c}'
}

proof fn lemma_trim_char_left_skip(s: Seq<char>, c: char, i: int)
    requires
        0 <= i <= s.len(),
        forall|j: int| 0 <= j < i ==> s[j] == c,
        i < s.len() ==> s[i] != c,
    ensures
        spec_trim_char_left(s, c) == s.skip(i),
    decreases i,
{
    if i == 0 {
        assert(s.skip(0) =~= s);
    } else {
        lemma_trim_char_left_skip(s.skip(1), c, i - 1);
        assert(s.skip(1).skip(i - 1) =~= s.skip(i));
    }
}

proof fn lemma_trim_char_right_take(s: Seq<char>, c: char, i: int)
    requires
        0 <= i <= s.len(),
        forall|j: int| i <= j < s.len() ==> s[j] == c,
        i > 0 ==> s[i - 1] != c,
    ensures
        spec_trim_char_right(s, c) == s.take(i),
    decreases s.len() - i,
{
    if i == s.len() {
        assert(s.take(i) =~= s);
    } else {
        lemma_trim_char_right_take(s.take(s.len() - 1), c, i);
        assert(s.take(s.len() - 1).take(i) =~= s.take(i));
    }
}

pub fn trim_char<'a>(s: &'a str, c: char) -> (r: &'a str)
    ensures
        r@ == spec_trim_char(s@, c),
{
    let n = s.unicode_len();
    let mut lo: usize = 0;
    while lo < n && s.get_char(lo) == c
        invariant
            n == s@.len(),
            0 <= lo <= n,
            forall|j: int| 0 <= j < lo ==> s@[j] == c,
        decreases n - lo,
    {
        lo += 1;
    }
    let mut hi: usize = n;
    while hi > lo && s.get_char(hi - 1) == c
        invariant
            n == s@.len(),
            lo <= hi <= n,
            forall|j: int| 0 <= j < lo ==> s@[j] == c,
            lo < n ==> s@[lo as int] != c,
            forall|j: int| hi <= j < n ==> s@[j] == c,
        decreases hi,
    {
        hi -= 1;
    }
    proof {
        lemma_trim_char_left_skip(s@, c, lo as int);
        lemma_trim_char_right_take(s@.skip(lo as int), c, hi - lo);
        assert(s@.skip(lo as int).take(hi - lo) =~= s@.subrange(lo as int, hi as int));
    }
    s.substring_char(lo, hi)
}

pub fn trim_one<'a>(s: &'a str, c: char) -> (r: &'a str)
    ensures
        r@ == spec_trim_one(s@, c),
{
    let n = s.unicode_len();
    let lo: usize = if n > 0 && s.get_char(0) == c {
        1
    } else {
        0
    };
    let hi: usize = if n > lo && s.get_char(n - 1) == c {
        n - 1
    } else {
        n
    };
    proof {
        let t = if s@.len() > 0 && s@[0] == c {
            s@.skip(1)
        } else {
            s@
        };
        assert(t =~= s@.subrange(lo as int, s@.len() as int));
        if t.len() > 0 && t[t.len() - 1] == c {
            assert(t.take(t.len() - 1) =~= s@.subrange(lo as int, hi as int));
        } else {
            assert(t =~= s@.subrange(lo as int, hi as int));
        }
    }
    s.substring_char(lo, hi)
}

/// `pat` occurs in `s` at `i`, checked character by character.
fn prefix_matches(s: &str, pat: &str, i: usize) -> (r: bool)
    requires
        i + pat@.len() <= s@.len(),
        s@.len() <= usize::MAX,
    ensures
        r == has_prefix_at(s@, pat@, i as int),
{
    let m = pat.unicode_len();
    for k in 0..m
        invariant
            m == pat@.len(),
            i + m <= s@.len(),
            s@.len() <= usize::MAX,
            forall|j: int| 0 <= j < k ==> s@[i + j] == pat@[j],
    {
        if s.get_char(i + k) != pat.get_char(k) {
            proof {
                assert(s@.subrange(i as int, i + pat@.len())[k as int] == s@[i + k]);
            }
            return false;
        }
    }
    proof {
        assert(s@.subrange(i as int, i + pat@.len()) =~= pat@);
    }
    true
}

/// The first occurrence of `pat` in `s` at or after `from`.
fn find_at(s: &str, pat: &str, from: usize) -> (r: Option<usize>)
    requires
        pat@.len() > 0,
        from <= s@.len(),
    ensures
        match r {
            Some(i) => from <= i && has_prefix_at(s@, pat@, i as int) && forall|j: int|
                from <= j < i ==> !has_prefix_at(s@, pat@, j),
            None => forall|j: int| from <= j ==> !has_prefix_at(s@, pat@, j),
        },
{
    let n = s.unicode_len();
    let m = pat.unicode_len();
    if m > n || from > n - m {
        return None;
    }
    let mut i = from;
    while i <= n - m
        invariant
            n == s@.len(),
            m == pat@.len(),
            m >= 1,
            m <= n,
            from <= i,
            i <= n - m + 1,
            forall|j: int| from <= j < i ==> !has_prefix_at(s@, pat@, j),
        decreases n - i,
    {
        if prefix_matches(s, pat, i) {
            return Some(i);
        }
        i += 1;
    }
    None
}

/// `pat` occurs somewhere in `s`.
pub fn contains_pat(s: &str, pat: &str) -> (r: bool)
    requires
        pat@.len() > 0,
    ensures
        r == exists|i: int| has_prefix_at(s@, pat@, i),
{
    match find_at(s, pat, 0) {
        Some(_) => true,
        None => false,
    }
}

/// The parts of `s` between occurrences of `pat`, as `str::split` yields them.
pub fn split(s: &str, pat: &str) -> (r: Vec<String>)
    requires
        pat@.len() > 0,
    ensures
        r.deep_view() == spec_split(s@, pat@),
        r.len() >= 1,
{
    let n = s.unicode_len();
    let m = pat.unicode_len();
    let mut parts: Vec<String> = Vec::new();
    let mut start: usize = 0;
    proof {
        assert(s@.skip(0) =~= s@);
        assert(parts.deep_view() =~= Seq::<Seq<char>>::empty());
        assert(Seq::<Seq<char>>::empty() + spec_split(s@, pat@) =~= spec_split(s@, pat@));
    }
    loop
        invariant
            n == s@.len(),
            m == pat@.len(),
            m >= 1,
            0 <= start <= n,
            spec_split(s@, pat@) == parts.deep_view() + spec_split(s@.skip(start as int), pat@),
        decreases n - start,
    {
        let ghost rem = s@.skip(start as int);
        let ghost old_dv = parts.deep_view();
        match find_at(s, pat, start) {
            Some(i) => {
                proof {
                    assert(has_prefix_at(rem, pat@, i - start)) by {
                        assert(rem.subrange(i - start, i - start + pat@.len()) =~= s@.subrange(
                            i as int,
                            i + pat@.len(),
                        ));
                    }
                    assert forall|j: int| 0 <= j < i - start implies !has_prefix_at(
                        rem,
                        pat@,
                        j,
                    ) by {
                        if has_prefix_at(rem, pat@, j) {
                            assert(s@.subrange(start + j, start + j + pat@.len()) =~= rem.subrange(
                                j,
                                j + pat@.len(),
                            ));
                            assert(has_prefix_at(s@, pat@, start + j));
                        }
                    }
                    lemma_split_at_match(rem, pat@, i - start);
                    assert(rem.take(i - start) =~= s@.subrange(start as int, i as int));
                    assert(rem.skip(i - start + pat@.len()) =~= s@.skip(i + pat@.len()));
                }
                let piece = s.substring_char(start, i);
                parts.push(piece.to_owned());
                proof {
                    let pc = s@.subrange(start as int, i as int);
                    let tail = spec_split(s@.skip(i + pat@.len()), pat@);
                    assert(parts.deep_view() =~~= old_dv.push(pc));
                    assert(old_dv + (seq![pc] + tail) =~= old_dv.push(pc) + tail);
                }
                start = i + m;
            },
            None => {
                proof {
                    assert forall|j: int| !has_prefix_at(rem, pat@, j) by {
                        if has_prefix_at(rem, pat@, j) {
                            assert(s@.subrange(start + j, start + j + pat@.len()) =~= rem.subrange(
                                j,
                                j + pat@.len(),
                            ));
                            assert(has_prefix_at(s@, pat@, start + j));
                        }
                    }
                    lemma_split_no_match(rem, pat@);
                }
                let piece = s.substring_char(start, n);
                parts.push(piece.to_owned());
                proof {
                    assert(rem =~= s@.subrange(start as int, n as int));
                    assert(parts.deep_view() =~~= old_dv.push(rem));
                    assert(old_dv + seq![rem] =~= old_dv.push(rem));
                }
                return parts;
            },
        }
    }
}

/// The parts from index `from` on, joined with `sep` between each pair.
pub fn join_from(parts: &Vec<String>, from: usize, sep: &str) -> (r: String)
    requires
        from <= parts.len(),
    ensures
        r@ == spec_join(parts.deep_view().skip(from as int), sep@),
{
    let mut out = String::new();
    let n = parts.len();
    if from == n {
        proof {
            assert(parts.deep_view().skip(from as int) =~= Seq::<Seq<char>>::empty());
        }
        return out;
    }
    let mut j = from;
    while j < n
        invariant
            from < n,
            n == parts.len(),
            from <= j <= n,
            j > from ==> out@ == spec_join(parts.deep_view().subrange(from as int, j as int), sep@),
            j == from ==> out@ == Seq::<char>::empty(),
        decreases n - j,
    {
        if j > from {
            out.append(sep);
        }
        out.append(parts[j].as_str());
        proof {
            let dv = parts.deep_view();
            let prev = dv.subrange(from as int, j as int);
            let cur = dv.subrange(from as int, j + 1);
            assert(cur =~= prev.push(dv[j as int]));
            if j > from {
                lemma_join_snoc(prev, dv[j as int], sep@);
            } else {
                assert(cur =~= seq![dv[j as int]]);
            }
        }
        j += 1;
    }
    proof {
        assert(parts.deep_view().subrange(from as int, n as int) =~= parts.deep_view().skip(
            from as int,
        ));
    }
    out
}

} // verus!
