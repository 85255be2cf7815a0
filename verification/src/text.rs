//! Character-level helpers shared by the record types: words, searching,
//! and splitting a text into fields and joining fields back into a text.

use vstd::prelude::*;
use vstd::string::*;

verus! {

/// A character that may appear inside a name, a version or a source locator:
/// anything but the separators of a dependency reference.
pub open spec fn is_word_char(c: char) -> bool {
    c != ' ' && c != '(' && c != ')'
}

/// A non-empty run of word characters.
pub open spec fn is_word(s: Seq<char>) -> bool {
    s.len() > 0 && forall|i: int| 0 <= i < s.len() ==> is_word_char(#[trigger] s[i])
}

/// `c` occurs nowhere in `s`.
pub open spec fn free_of(s: Seq<char>, c: char) -> bool {
    forall|i: int| 0 <= i < s.len() ==> #[trigger] s[i] != c
}

/// Position of the first `c` in `s` at or after `from`, or `s.len()` when
/// there is none.
pub open spec fn find_from(s: Seq<char>, c: char, from: int) -> int
    decreases s.len() - from,
{
    if 0 <= from < s.len() {
        if s[from] == c {
            from
        } else {
            find_from(s, c, from + 1)
        }
    } else {
        s.len() as int
    }
}

/// The fields of `s` when `c` separates them. There is always at least one
/// field; `n` separators give `n + 1` fields, some of them possibly empty.
pub open spec fn split(s: Seq<char>, c: char) -> Seq<Seq<char>>
    decreases s.len(),
{
    let i = find_from(s, c, 0);
    if 0 <= i < s.len() {
        seq![s.take(i)] + split(s.skip(i + 1), c)
    } else {
        seq![s]
    }
}

/// The fields of `parts` written one after the other with `c` between
/// neighbours.
pub open spec fn join(parts: Seq<Seq<char>>, c: char) -> Seq<char>
    decreases parts.len(),
{
    if parts.len() == 0 {
        Seq::empty()
    } else if parts.len() == 1 {
        parts[0]
    } else {
        parts[0] + seq![c] + join(parts.skip(1), c)
    }
}

/// The views of a sequence of values.
pub open spec fn views<T: View>(v: Seq<T>) -> Seq<T::V> {
    Seq::new(v.len(), |i: int| v[i]@)
}

/// What `find_from` returns: nothing before it is `c`, and it is `c` unless
/// it is the end.
pub proof fn lemma_find_from(s: Seq<char>, c: char, from: int)
    requires
        0 <= from <= s.len(),
    ensures
        from <= find_from(s, c, from) <= s.len(),
        forall|k: int| from <= k < find_from(s, c, from) ==> #[trigger] s[k] != c,
        find_from(s, c, from) < s.len() ==> s[find_from(s, c, from)] == c,
    decreases s.len() - from,
{
    if from < s.len() && s[from] != c {
        lemma_find_from(s, c, from + 1);
    }
}

/// A position with the properties of `lemma_find_from` is the one that
/// `find_from` returns.
pub proof fn lemma_find_unique(s: Seq<char>, c: char, from: int, i: int)
    requires
        0 <= from <= i <= s.len(),
        forall|k: int| from <= k < i ==> #[trigger] s[k] != c,
        i < s.len() ==> s[i] == c,
    ensures
        find_from(s, c, from) == i,
    decreases i - from,
{
    if from < i {
        lemma_find_unique(s, c, from + 1, i);
    }
}

/// Searching a suffix is searching the whole from further on.
pub proof fn lemma_find_skip(s: Seq<char>, c: char, p: int)
    requires
        0 <= p <= s.len(),
    ensures
        find_from(s.skip(p), c, 0) + p == find_from(s, c, p),
{
    let t = s.skip(p);
    lemma_find_from(t, c, 0);
    let j = find_from(t, c, 0);
    assert forall|k: int| p <= k < j + p implies #[trigger] s[k] != c by {
        assert(t[k - p] == s[k]);
    }
    if j + p < s.len() {
        assert(t[j] == s[j + p]);
    }
    lemma_find_unique(s, c, p, j + p);
}

/// A join with one more field in front.
pub proof fn lemma_join_cons(head: Seq<char>, rest: Seq<Seq<char>>, c: char)
    ensures
        join(seq![head] + rest, c) == if rest.len() == 0 {
            head
        } else {
            head + seq![c] + join(rest, c)
        },
{
    let parts = seq![head] + rest;
    assert(parts[0] == head);
    assert(parts.skip(1) =~= rest);
}

/// Splitting never yields an empty list of fields.
pub proof fn lemma_split_nonempty(s: Seq<char>, c: char)
    ensures
        split(s, c).len() >= 1,
    decreases s.len(),
{
    let i = find_from(s, c, 0);
    if 0 <= i < s.len() {
        lemma_split_nonempty(s.skip(i + 1), c);
    }
}

/// Joining the fields of a split gives the text back.
pub proof fn lemma_join_split(s: Seq<char>, c: char)
    ensures
        join(split(s, c), c) == s,
    decreases s.len(),
{
    lemma_find_from(s, c, 0);
    let i = find_from(s, c, 0);
    if 0 <= i < s.len() {
        let rest = s.skip(i + 1);
        let parts = split(s, c);
        lemma_split_nonempty(rest, c);
        lemma_join_split(rest, c);
        assert(parts.skip(1) =~= split(rest, c));
        assert(parts[0] == s.take(i));
        assert(s.take(i) + seq![c] + rest =~= s);
    }
}

/// Splitting a join of separator-free fields gives the fields back.
pub proof fn lemma_split_join(parts: Seq<Seq<char>>, c: char)
    requires
        parts.len() >= 1,
        forall|k: int| 0 <= k < parts.len() ==> free_of(#[trigger] parts[k], c),
    ensures
        split(join(parts, c), c) == parts,
    decreases parts.len(),
{
    let s = join(parts, c);
    if parts.len() == 1 {
        assert(free_of(parts[0], c));
        lemma_find_unique(s, c, 0, s.len() as int);
        assert(split(s, c) =~= parts);
    } else {
        let tail = parts.skip(1);
        assert forall|k: int| 0 <= k < tail.len() implies free_of(#[trigger] tail[k], c) by {
            assert(tail[k] == parts[k + 1]);
        }
        lemma_split_join(tail, c);
        let head = parts[0];
        let rest = join(tail, c);
        assert(free_of(head, c));
        assert(s == head + seq![c] + rest);
        assert forall|k: int| 0 <= k < head.len() implies #[trigger] s[k] != c by {
            assert(s[k] == head[k]);
        }
        assert(s[head.len() as int] == c);
        lemma_find_unique(s, c, 0, head.len() as int);
        assert(s.take(head.len() as int) =~= head);
        assert(s.skip(head.len() as int + 1) =~= rest);
        assert(split(s, c) =~= parts);
    }
}

/// Decides whether `s` is a word.
pub fn check_word(s: &str) -> (b: bool)
    ensures
        b == is_word(s@),
{
    let n: usize = s.unicode_len();
    if n == 0 {
        return false;
    }
    let mut i: usize = 0;
    while i < n
        invariant
            i <= n,
            n == s@.len(),
            forall|k: int| 0 <= k < i ==> is_word_char(#[trigger] s@[k]),
        decreases n - i,
    {
        let c = s.get_char(i);
        if c == ' ' || c == '(' || c == ')' {
            return false;
        }
        i += 1;
    }
    true
}

/// Finds the first `c` in `s` at or after `from`.
pub fn find_char(s: &str, c: char, from: usize) -> (r: usize)
    requires
        from <= s@.len(),
    ensures
        r == find_from(s@, c, from as int),
        from <= r <= s@.len(),
{
    let n: usize = s.unicode_len();
    let mut i: usize = from;
    while i < n
        invariant
            from <= i <= n,
            n == s@.len(),
            find_from(s@, c, from as int) == find_from(s@, c, i as int),
        decreases n - i,
    {
        if s.get_char(i) == c {
            return i;
        }
        i += 1;
    }
    i
}

/// Splits `s` into its fields, `c` being the separator.
pub fn split_on(s: &str, c: char) -> (parts: Vec<String>)
    ensures
        views(parts@) == split(s@, c),
{
    let n: usize = s.unicode_len();
    let mut parts: Vec<String> = Vec::new();
    let mut pos: usize = 0;
    proof {
        assert(s@.skip(0) =~= s@);
        assert(views(parts@) + split(s@, c) =~= split(s@, c));
    }
    loop
        invariant_except_break
            split(s@, c) == views(parts@) + split(s@.skip(pos as int), c),
        invariant
            pos <= n,
            n == s@.len(),
        ensures
            views(parts@) == split(s@, c),
        decreases n - pos,
    {
        let i = find_char(s, c, pos);
        let ghost tail = s@.skip(pos as int);
        let ghost before = views(parts@);
        proof {
            lemma_find_skip(s@, c, pos as int);
        }
        if i < n {
            let field = String::from_str(s.substring_char(pos, i));
            parts.push(field);
            proof {
                assert(field@ == tail.take(i - pos));
                assert(tail.skip(i - pos + 1) =~= s@.skip(i + 1));
                assert(views(parts@) =~= before + seq![field@]);
                assert(split(s@, c) =~= views(parts@) + split(s@.skip(i + 1), c));
            }
            pos = i + 1;
        } else {
            let field = String::from_str(s.substring_char(pos, n));
            parts.push(field);
            proof {
                assert(field@ =~= tail);
                assert(views(parts@) =~= before + seq![field@]);
                assert(split(tail, c) == seq![tail]);
            }
            break;
        }
    }
    parts
}

/// Decides whether two texts are the same.
pub fn same_text(a: &str, b: &str) -> (r: bool)
    ensures
        r == (a@ == b@),
{
    let n: usize = a.unicode_len();
    if n != b.unicode_len() {
        return false;
    }
    let mut i: usize = 0;
    while i < n
        invariant
            i <= n,
            n == a@.len(),
            n == b@.len(),
            forall|k: int| 0 <= k < i ==> a@[k] == b@[k],
        decreases n - i,
    {
        if a.get_char(i) != b.get_char(i) {
            return false;
        }
        i += 1;
    }
    assert(a@ =~= b@);
    true
}

/// Decides whether `s` begins with `prefix`.
pub fn starts_with(s: &str, prefix: &str) -> (b: bool)
    ensures
        b == prefix@.is_prefix_of(s@),
{
    let n: usize = s.unicode_len();
    let m: usize = prefix.unicode_len();
    if m > n {
        return false;
    }
    let mut i: usize = 0;
    while i < m
        invariant
            i <= m <= n,
            n == s@.len(),
            m == prefix@.len(),
            forall|k: int| 0 <= k < i ==> s@[k] == prefix@[k],
        decreases m - i,
    {
        if s.get_char(i) != prefix.get_char(i) {
            assert(s@.subrange(0, m as int)[i as int] != prefix@[i as int]);
            return false;
        }
        i += 1;
    }
    assert(s@.subrange(0, m as int) =~= prefix@);
    true
}

/// The first position at or after `k` where the two texts differ or one
/// of them ends.
pub open spec fn mismatch_from(a: Seq<char>, b: Seq<char>, k: int) -> int
    decreases a.len() - k,
{
    if 0 <= k < a.len() && k < b.len() && a[k] == b[k] {
        mismatch_from(a, b, k + 1)
    } else {
        k
    }
}

/// The order of texts: a text comes before another when it is a proper
/// prefix of it, or when at the first position where they differ it has the
/// lesser character.
pub open spec fn text_lt(a: Seq<char>, b: Seq<char>) -> bool {
    let k = mismatch_from(a, b, 0);
    k < b.len() && (k >= a.len() || a[k] < b[k])
}

/// What `mismatch_from` returns: the texts agree before it, and differ at
/// it unless one of them ends there.
pub proof fn lemma_mismatch_from(a: Seq<char>, b: Seq<char>, k: int)
    requires
        0 <= k <= a.len(),
        k <= b.len(),
    ensures
        k <= mismatch_from(a, b, k) <= a.len(),
        mismatch_from(a, b, k) <= b.len(),
        forall|i: int| k <= i < mismatch_from(a, b, k) ==> a[i] == b[i],
        mismatch_from(a, b, k) < a.len() && mismatch_from(a, b, k) < b.len() ==> a[mismatch_from(
            a,
            b,
            k,
        )] != b[mismatch_from(a, b, k)],
    decreases a.len() - k,
{
    if k < a.len() && k < b.len() && a[k] == b[k] {
        lemma_mismatch_from(a, b, k + 1);
    }
}

/// A position with the properties of `lemma_mismatch_from` is the one that
/// `mismatch_from` returns.
pub proof fn lemma_mismatch_unique(a: Seq<char>, b: Seq<char>, k: int, m: int)
    requires
        0 <= k <= m <= a.len(),
        m <= b.len(),
        forall|i: int| k <= i < m ==> a[i] == b[i],
        m < a.len() && m < b.len() ==> a[m] != b[m],
    ensures
        mismatch_from(a, b, k) == m,
    decreases m - k,
{
    if k < m {
        lemma_mismatch_unique(a, b, k + 1, m);
    }
}

/// No text comes before itself, and of two different texts exactly one
/// comes before the other.
pub proof fn lemma_text_order_total(a: Seq<char>, b: Seq<char>)
    ensures
        !text_lt(a, a),
        a != b ==> (text_lt(a, b) <==> !text_lt(b, a)),
        a == b ==> !text_lt(a, b) && !text_lt(b, a),
{
    lemma_mismatch_from(a, a, 0);
    lemma_mismatch_unique(a, a, 0, a.len() as int);
    lemma_mismatch_from(a, b, 0);
    let m = mismatch_from(a, b, 0);
    lemma_mismatch_unique(b, a, 0, m);
    if a != b {
        if m >= a.len() && m >= b.len() {
            assert(a =~= b);
        }
    }
}

/// The order of texts is transitive.
pub proof fn lemma_text_order_transitive(a: Seq<char>, b: Seq<char>, c: Seq<char>)
    requires
        text_lt(a, b),
        text_lt(b, c),
    ensures
        text_lt(a, c),
{
    lemma_mismatch_from(a, b, 0);
    lemma_mismatch_from(b, c, 0);
    let k1 = mismatch_from(a, b, 0);
    let k2 = mismatch_from(b, c, 0);
    let m = if k1 <= k2 {
        k1
    } else {
        k2
    };
    lemma_mismatch_unique(a, c, 0, m);
}

/// Decides whether `a` comes before `b` in the order of texts.
pub fn text_precedes(a: &str, b: &str) -> (r: bool)
    ensures
        r == text_lt(a@, b@),
{
    let n: usize = a.unicode_len();
    let m: usize = b.unicode_len();
    let mut k: usize = 0;
    while k < n && k < m
        invariant
            k <= n,
            k <= m,
            n == a@.len(),
            m == b@.len(),
            mismatch_from(a@, b@, 0) == mismatch_from(a@, b@, k as int),
        decreases n - k,
    {
        let x = a.get_char(k);
        let y = b.get_char(k);
        if x != y {
            return x < y;
        }
        k += 1;
    }
    k < m
}

} // verus!
