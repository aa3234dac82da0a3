//! Character-level text operations, specified over `Seq<char>`.
use vstd::prelude::*;

verus! {

// ------------------------------------------------------------------
// Specifications
// ------------------------------------------------------------------

/// `p` occurs in `s` starting at position `i`.
pub open spec fn matches_at(s: Seq<char>, p: Seq<char>, i: int) -> bool {
    &&& 0 <= i
    &&& i + p.len() <= s.len()
    &&& s.subrange(i, i + p.len()) == p
}

/// `p` occurs somewhere in `s`.
pub open spec fn contains_seq(s: Seq<char>, p: Seq<char>) -> bool {
    exists|i: int| matches_at(s, p, i)
}

/// Every non-overlapping occurrence of a non-empty pattern `p` in `s`,
/// found from left to right, replaced by `r`.
pub open spec fn replace_all(s: Seq<char>, p: Seq<char>, r: Seq<char>) -> Seq<char>
    decreases s.len(),
{
    if p.len() == 0 || s.len() < p.len() {
        s
    } else if s.subrange(0, p.len() as int) == p {
        r + replace_all(s.skip(p.len() as int), p, r)
    } else {
        seq![s[0]] + replace_all(s.skip(1), p, r)
    }
}

/// The Unicode `White_Space` property.
pub open spec fn is_whitespace(c: char) -> bool {
    let u = c as u32;
    ||| 0x9 <= u <= 0xD
    ||| u == 0x20
    ||| u == 0x85
    ||| u == 0xA0
    ||| u == 0x1680
    ||| 0x2000 <= u <= 0x200A
    ||| u == 0x2028
    ||| u == 0x2029
    ||| u == 0x202F
    ||| u == 0x205F
    ||| u == 0x3000
}

/// `s` without its leading whitespace.
pub open spec fn trim_start(s: Seq<char>) -> Seq<char>
    decreases s.len(),
{
    if s.len() > 0 && is_whitespace(s[0]) {
        trim_start(s.drop_first())
    } else {
        s
    }
}

/// `s` without its trailing whitespace.
pub open spec fn trim_end(s: Seq<char>) -> Seq<char>
    decreases s.len(),
{
    if s.len() > 0 && is_whitespace(s.last()) {
        trim_end(s.drop_last())
    } else {
        s
    }
}

/// `s` without leading and trailing whitespace.
pub open spec fn trim(s: Seq<char>) -> Seq<char> {
    trim_end(trim_start(s))
}

/// The fields of `s` separated by `sep`, where `cur` is the part of the
/// current field read so far.
pub open spec fn split_acc(s: Seq<char>, sep: char, cur: Seq<char>) -> Seq<Seq<char>>
    decreases s.len(),
{
    if s.len() == 0 {
        seq![cur]
    } else if s[0] == sep {
        seq![cur] + split_acc(s.drop_first(), sep, Seq::empty())
    } else {
        split_acc(s.drop_first(), sep, cur.push(s[0]))
    }
}

/// The fields of `s` separated by `sep`: one more field than there are
/// separators, empty fields included.
pub open spec fn split_on(s: Seq<char>, sep: char) -> Seq<Seq<char>> {
    split_acc(s, sep, Seq::empty())
}

/// Each field of `fs`, trimmed.
pub open spec fn trim_all(fs: Seq<Seq<char>>) -> Seq<Seq<char>> {
    fs.map_values(|f: Seq<char>| trim(f))
}

/// The character views of a sequence of strings.
pub open spec fn strings_view(v: Seq<String>) -> Seq<Seq<char>> {
    v.map_values(|x: String| x@)
}

// ------------------------------------------------------------------
// Lemmas
// ------------------------------------------------------------------

/// Replacing a pattern that does not occur changes nothing.
pub proof fn lemma_replace_absent(s: Seq<char>, p: Seq<char>, r: Seq<char>)
    requires
        !contains_seq(s, p),
    ensures
        replace_all(s, p, r) == s,
    decreases s.len(),
{
    if p.len() == 0 || s.len() < p.len() {
    } else {
        if s.subrange(0, p.len() as int) == p {
            assert(matches_at(s, p, 0));
        }
        assert(!contains_seq(s.skip(1), p)) by {
            if contains_seq(s.skip(1), p) {
                let i = choose|i: int| matches_at(s.skip(1), p, i);
                assert(s.subrange(i + 1, i + 1 + p.len()) =~= s.skip(1).subrange(i, i + p.len()));
                assert(matches_at(s, p, i + 1));
            }
        }
        lemma_replace_absent(s.skip(1), p, r);
        assert(seq![s[0]] + s.skip(1) =~= s);
    }
}

// ------------------------------------------------------------------
// Executable operations
// ------------------------------------------------------------------

/// Copies the characters of a string slice into a vector.
pub fn to_chars(s: &str) -> (v: Vec<char>)
    ensures
        v@ == s@,
{
    let mut v: Vec<char> = Vec::new();
    for c in it: s.chars()
        invariant
            v@ == it.seq().take(it.index() as int),
            it.seq() == s@,
    {
        v.push(c);
    }
    v
}

/// `String::push`: appends one character.
#[verifier::external_body]
fn push_char(s: &mut String, c: char)
    ensures
        final(s)@ == old(s)@.push(c),
{
    s.push(c);
}

/// Builds a string from a sequence of characters.
pub fn from_chars(v: &Vec<char>) -> (s: String)
    ensures
        s@ == v@,
{
    let mut s = String::new();
    let mut i: usize = 0;
    while i < v.len()
        invariant
            i <= v.len(),
            s@ == v@.take(i as int),
        decreases v.len() - i,
    {
        push_char(&mut s, v[i]);
        assert(v@.take(i as int).push(v@[i as int]) =~= v@.take(i + 1));
        i = i + 1;
    }
    assert(v@.take(v.len() as int) =~= v@);
    s
}

/// Whether `c` occurs in `s`.
pub fn has_char(s: &Vec<char>, c: char) -> (b: bool)
    ensures
        b == s@.contains(c),
{
    let mut i: usize = 0;
    while i < s.len()
        invariant
            i <= s.len(),
            forall|j: int| 0 <= j < i ==> s@[j] != c,
        decreases s.len() - i,
    {
        if s[i] == c {
            assert(s@[i as int] == c);
            return true;
        }
        i = i + 1;
    }
    false
}

/// Whether `p` occurs in `s` at position `i`.
pub fn matches_at_exec(s: &Vec<char>, p: &Vec<char>, i: usize) -> (b: bool)
    ensures
        b == matches_at(s@, p@, i as int),
{
    if i > s.len() || p.len() > s.len() - i {
        return false;
    }
    let mut k: usize = 0;
    while k < p.len()
        invariant
            i + p.len() <= s.len(),
            k <= p.len(),
            forall|j: int| 0 <= j < k ==> s@[i + j] == p@[j],
        decreases p.len() - k,
    {
        if s[i + k] != p[k] {
            assert(s@.subrange(i as int, i + p.len())[k as int] != p@[k as int]);
            return false;
        }
        k = k + 1;
    }
    assert(s@.subrange(i as int, i + p.len()) =~= p@);
    true
}

/// Whether `p` occurs anywhere in `s`.
pub fn contains_chars(s: &Vec<char>, p: &Vec<char>) -> (b: bool)
    ensures
        b == contains_seq(s@, p@),
{
    let mut i: usize = 0;
    while i < s.len()
        invariant
            i <= s.len(),
            forall|j: int| 0 <= j < i ==> !matches_at(s@, p@, j),
        decreases s.len() - i,
    {
        if matches_at_exec(s, p, i) {
            return true;
        }
        i = i + 1;
    }
    if matches_at_exec(s, p, i) {
        return true;
    }
    assert forall|j: int| !matches_at(s@, p@, j) by {
        if 0 <= j <= i {
        }
    }
    false
}

/// Replaces every non-overlapping occurrence of `p` in `s`, from left to
/// right, by `r`.
pub fn replace_all_chars(s: &Vec<char>, p: &Vec<char>, r: &Vec<char>) -> (out: Vec<char>)
    requires
        p.len() > 0,
    ensures
        out@ == replace_all(s@, p@, r@),
{
    let mut out: Vec<char> = Vec::new();
    let mut i: usize = 0;
    assert(s@.skip(0) =~= s@);
    assert(out@ + replace_all(s@, p@, r@) =~= replace_all(s@, p@, r@));
    while i < s.len()
        invariant
            p.len() > 0,
            i <= s.len(),
            out@ + replace_all(s@.skip(i as int), p@, r@) == replace_all(s@, p@, r@),
        decreases s.len() - i,
    {
        let ghost t = s@.skip(i as int);
        if matches_at_exec(s, p, i) {
            assert(t.subrange(0, p.len() as int) =~= s@.subrange(i as int, i + p.len()));
            assert(t.skip(p.len() as int) =~= s@.skip(i + p.len()));
            let mut k: usize = 0;
            let ghost before = out@;
            while k < r.len()
                invariant
                    k <= r.len(),
                    out@ == before + r@.take(k as int),
                decreases r.len() - k,
            {
                out.push(r[k]);
                assert(r@.take(k as int).push(r@[k as int]) =~= r@.take(k + 1));
                k = k + 1;
            }
            assert(r@.take(r.len() as int) =~= r@);
            assert(out@ + replace_all(s@.skip(i + p.len()), p@, r@) =~= before + (r@
                + replace_all(t.skip(p.len() as int), p@, r@)));
            i = i + p.len();
        } else {
            assert(t.skip(1) =~= s@.skip(i + 1));
            proof {
                if t.len() >= p@.len() {
                    assert(t.subrange(0, p@.len() as int) =~= s@.subrange(i as int, i + p@.len()));
                } else {
                    assert(replace_all(t.skip(1), p@, r@) == t.skip(1));
                    assert(seq![t[0]] + t.skip(1) =~= t);
                }
            }
            let ghost before = out@;
            out.push(s[i]);
            assert(out@ + replace_all(s@.skip(i + 1), p@, r@) =~= before + (seq![t[0]]
                + replace_all(t.skip(1), p@, r@)));
            i = i + 1;
        }
    }
    assert(s@.skip(i as int) =~= Seq::<char>::empty());
    assert(out@ + Seq::<char>::empty() =~= out@);
    out
}

/// Whether `c` has the Unicode `White_Space` property.
pub fn is_whitespace_char(c: char) -> (b: bool)
    ensures
        b == is_whitespace(c),
{
    let u = c as u32;
    (0x9 <= u && u <= 0xD) || u == 0x20 || u == 0x85 || u == 0xA0 || u == 0x1680 || (0x2000 <= u
        && u <= 0x200A) || u == 0x2028 || u == 0x2029 || u == 0x202F || u == 0x205F || u == 0x3000
}

proof fn lemma_trim_start_skip(s: Seq<char>, i: int)
    requires
        0 <= i < s.len(),
        is_whitespace(s[i]),
    ensures
        trim_start(s.skip(i)) == trim_start(s.skip(i + 1)),
{
    assert(s.skip(i).drop_first() =~= s.skip(i + 1));
}

proof fn lemma_trim_end_sub(s: Seq<char>, i: int, j: int)
    requires
        0 <= i < j <= s.len(),
        is_whitespace(s[j - 1]),
    ensures
        trim_end(s.subrange(i, j)) == trim_end(s.subrange(i, j - 1)),
{
    assert(s.subrange(i, j).drop_last() =~= s.subrange(i, j - 1));
}

/// Removes leading and trailing whitespace.
pub fn trim_chars(s: &Vec<char>) -> (out: Vec<char>)
    ensures
        out@ == trim(s@),
{
    let n = s.len();
    let mut i: usize = 0;
    assert(s@.skip(0) =~= s@);
    while i < n && is_whitespace_char(s[i])
        invariant
            n == s.len(),
            i <= n,
            trim_start(s@.skip(i as int)) == trim_start(s@),
        decreases n - i,
    {
        proof {
            lemma_trim_start_skip(s@, i as int);
        }
        i = i + 1;
    }
    assert(trim_start(s@) == s@.skip(i as int));
    assert(s@.subrange(i as int, n as int) =~= s@.skip(i as int));
    let mut j: usize = n;
    while j > i && is_whitespace_char(s[j - 1])
        invariant
            n == s.len(),
            i <= j <= n,
            trim_end(s@.subrange(i as int, j as int)) == trim_end(s@.subrange(i as int, n as int)),
        decreases j,
    {
        proof {
            lemma_trim_end_sub(s@, i as int, j as int);
        }
        j = j - 1;
    }
    let ghost sub = s@.subrange(i as int, j as int);
    assert(trim_end(sub) == sub) by {
        if sub.len() > 0 {
            assert(sub.last() == s@[j - 1]);
        }
    }
    let mut out: Vec<char> = Vec::new();
    let mut k: usize = i;
    while k < j
        invariant
            i <= k <= j <= n,
            n == s.len(),
            out@ == s@.subrange(i as int, k as int),
        decreases j - k,
    {
        out.push(s[k]);
        assert(s@.subrange(i as int, k as int).push(s@[k as int]) =~= s@.subrange(
            i as int,
            k + 1,
        ));
        k = k + 1;
    }
    out
}

/// Splits `line` at every `sep` and trims each field.
pub fn split_trimmed(line: &str, sep: char) -> (fields: Vec<String>)
    ensures
        strings_view(fields@) == trim_all(split_on(line@, sep)),
{
    let s = to_chars(line);
    let mut fields: Vec<String> = Vec::new();
    let mut cur: Vec<char> = Vec::new();
    let ghost mut raw: Seq<Seq<char>> = Seq::empty();
    let mut i: usize = 0;
    assert(s@.skip(0) =~= s@);
    while i < s.len()
        invariant
            i <= s.len(),
            raw + split_acc(s@.skip(i as int), sep, cur@) == split_on(line@, sep),
            strings_view(fields@) == trim_all(raw),
            s@ == line@,
        decreases s.len() - i,
    {
        let ghost t = s@.skip(i as int);
        assert(t.drop_first() =~= s@.skip(i + 1));
        if s[i] == sep {
            let f = from_chars(&trim_chars(&cur));
            proof {
                assert(raw.push(cur@) + split_acc(s@.skip(i + 1), sep, Seq::empty()) =~= raw + (
                seq![cur@] + split_acc(t.drop_first(), sep, Seq::empty())));
                assert(strings_view(fields@.push(f)) =~= strings_view(fields@).push(f@));
                assert(trim_all(raw.push(cur@)) =~= trim_all(raw).push(trim(cur@)));
                raw = raw.push(cur@);
            }
            fields.push(f);
            cur = Vec::new();
        } else {
            cur.push(s[i]);
        }
        i = i + 1;
    }
    let f = from_chars(&trim_chars(&cur));
    proof {
        assert(s@.skip(i as int) =~= Seq::<char>::empty());
        assert(raw.push(cur@) =~= raw + seq![cur@]);
        assert(strings_view(fields@.push(f)) =~= strings_view(fields@).push(f@));
        assert(trim_all(raw.push(cur@)) =~= trim_all(raw).push(trim(cur@)));
    }
    fields.push(f);
    fields
}

/// The characters of `a` followed by those of `b`.
pub fn concat_chars(a: &Vec<char>, b: &Vec<char>) -> (out: Vec<char>)
    ensures
        out@ == a@ + b@,
{
    let mut out: Vec<char> = Vec::new();
    let mut i: usize = 0;
    while i < a.len()
        invariant
            i <= a.len(),
            out@ == a@.take(i as int),
        decreases a.len() - i,
    {
        out.push(a[i]);
        assert(a@.take(i as int).push(a@[i as int]) =~= a@.take(i + 1));
        i = i + 1;
    }
    let mut j: usize = 0;
    while j < b.len()
        invariant
            i == a.len(),
            j <= b.len(),
            out@ == a@ + b@.take(j as int),
        decreases b.len() - j,
    {
        out.push(b[j]);
        assert(b@.take(j as int).push(b@[j as int]) =~= b@.take(j + 1));
        j = j + 1;
    }
    assert(a@.take(a.len() as int) =~= a@);
    assert(b@.take(b.len() as int) =~= b@);
    out
}

/// Whether two character sequences are equal.
pub fn chars_equal(a: &Vec<char>, b: &Vec<char>) -> (r: bool)
    ensures
        r == (a@ == b@),
{
    if a.len() != b.len() {
        return false;
    }
    let r = matches_at_exec(a, b, 0);
    assert(a@.subrange(0, b@.len() as int) =~= a@);
    r
}

} // verus!
