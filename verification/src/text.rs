//! Text helpers: comparing strings and splitting them at a separator, as
//! `str::split` does.
use vstd::prelude::*;

verus! {

/// Are the two strings made of the same characters?
pub fn same_text(a: &str, b: &str) -> (r: bool)
    ensures
        r == (a@ == b@),
{
    let n = a.unicode_len();
    if n != b.unicode_len() {
        return false;
    }
    let mut i: usize = 0;
    while i < n
        invariant
            n == a@.len(),
            n == b@.len(),
            i <= n,
            forall|j: int| 0 <= j < i ==> a@[j] == b@[j],
        decreases n - i,
    {
        if a.get_char(i) != b.get_char(i) {
            return false;
        }
        i = i + 1;
    }
    assert(a@ =~= b@);
    true
}

/// The characters of a string, one by one.
pub fn chars_of(s: &str) -> (v: Vec<char>)
    ensures
        v@ == s@,
{
    let n = s.unicode_len();
    let mut v: Vec<char> = Vec::new();
    let mut i: usize = 0;
    while i < n
        invariant
            n == s@.len(),
            i <= n,
            v@ == s@.take(i as int),
        decreases n - i,
    {
        v.push(s.get_char(i));
        i = i + 1;
        assert(v@ =~= s@.take(i as int));
    }
    assert(s@.take(n as int) =~= s@);
    v
}

/// Does `sep` occur in `s` at position `i`?
pub open spec fn occurs_at(s: Seq<char>, sep: Seq<char>, i: int) -> bool {
    0 <= i && i + sep.len() <= s.len() && s.subrange(i, i + sep.len()) == sep
}

/// The first position at or after `i` where `sep` occurs in `s`; -1 if none.
pub open spec fn find_from(s: Seq<char>, sep: Seq<char>, i: int) -> int
    decreases s.len() - i,
{
    if i < 0 || sep.len() == 0 || i + sep.len() > s.len() {
        -1
    } else if occurs_at(s, sep, i) {
        i
    } else {
        find_from(s, sep, i + 1)
    }
}

/// The pieces of `s` between the occurrences of the (non-empty) separator
/// `sep`, found from left to right without overlap: what `str::split`
/// yields for a string pattern.
pub open spec fn split_at_sep(s: Seq<char>, sep: Seq<char>) -> Seq<Seq<char>>
    decreases s.len(),
{
    let k = find_from(s, sep, 0);
    if sep.len() == 0 || k < 0 || k + sep.len() > s.len() {
        seq![s]
    } else {
        seq![s.subrange(0, k)] + split_at_sep(s.subrange(k + sep.len(), s.len() as int), sep)
    }
}

/// The views of a list of strings.
pub open spec fn texts_view(v: Seq<String>) -> Seq<Seq<char>> {
    v.map_values(|t: String| t@)
}

proof fn lemma_find_skips(r: Seq<char>, sep: Seq<char>, a: int)
    requires
        0 <= a,
        sep.len() > 0,
        forall|j: int| 0 <= j < a ==> !occurs_at(r, sep, j),
    ensures
        find_from(r, sep, 0) == find_from(r, sep, a),
    decreases a,
{
    if a > 0 {
        lemma_find_skips(r, sep, a - 1);
        if a - 1 + sep.len() <= r.len() {
            assert(!occurs_at(r, sep, a - 1));
        }
    }
}

proof fn lemma_occurs_in_rest(s: Seq<char>, sep: Seq<char>, start: int, j: int)
    requires
        0 <= start <= s.len(),
        0 <= j,
    ensures
        occurs_at(s.subrange(start, s.len() as int), sep, j) == occurs_at(s, sep, start + j),
{
    let r = s.subrange(start, s.len() as int);
    if j + sep.len() <= r.len() {
        assert(r.subrange(j, j + sep.len()) =~= s.subrange(start + j, start + j + sep.len()));
    }
}

proof fn lemma_find_none(r: Seq<char>, sep: Seq<char>, i: int)
    requires
        0 <= i,
        sep.len() > 0,
        forall|j: int| 0 <= j ==> !occurs_at(r, sep, j),
    ensures
        find_from(r, sep, i) == -1,
    decreases r.len() - i,
{
    if i + sep.len() <= r.len() {
        lemma_find_none(r, sep, i + 1);
    }
}

/// Does `sep` occur in `s` at position `i`?
fn occurs_here(s: &Vec<char>, sep: &Vec<char>, i: usize) -> (b: bool)
    requires
        i <= s@.len(),
    ensures
        b == occurs_at(s@, sep@, i as int),
{
    let m = sep.len();
    if m > s.len() - i {
        return false;
    }
    let mut j: usize = 0;
    assert(i + m <= s@.len());
    while j < m
        invariant
            m == sep@.len(),
            i + m <= s@.len(),
            s@.len() <= usize::MAX,
            j <= m,
            forall|k: int| 0 <= k < j ==> s@[i + k] == sep@[k],
        decreases m - j,
    {
        if s[i + j] != sep[j] {
            assert(s@.subrange(i as int, i + m)[j as int] != sep@[j as int]);
            return false;
        }
        j = j + 1;
    }
    assert(s@.subrange(i as int, i + m) =~= sep@);
    true
}

/// Splits `s` at every occurrence of the non-empty separator `sep`.
pub fn split_text(s: &str, sep: &str) -> (parts: Vec<String>)
    requires
        sep@.len() > 0,
    ensures
        texts_view(parts@) == split_at_sep(s@, sep@),
{
    let cs = chars_of(s);
    let sp = chars_of(sep);
    let n = cs.len();
    let m = sp.len();
    let ghost full = s@;
    let ghost sepv = sep@;
    let mut parts: Vec<String> = Vec::new();
    let mut start: usize = 0;
    let mut i: usize = 0;
    assert(full.subrange(0, n as int) =~= full);
    while i < n && m <= n - i
        invariant
            cs@ == full,
            full == s@,
            sepv == sep@,
            sp@ == sepv,
            n == full.len(),
            m == sepv.len(),
            m > 0,
            start <= i <= n,
            texts_view(parts@) + split_at_sep(full.subrange(start as int, n as int), sepv)
                == split_at_sep(full, sepv),
            forall|j: int| start <= j < i ==> !occurs_at(full, sepv, j),
        decreases n - i,
    {
        if occurs_here(&cs, &sp, i) {
            let piece = String::from_str(s.substring_char(start, i));
            let ghost rest = full.subrange(start as int, n as int);
            let ghost k = i - start;
            proof {
                assert forall|j: int| 0 <= j < k implies !occurs_at(rest, sepv, j) by {
                    lemma_occurs_in_rest(full, sepv, start as int, j);
                }
                lemma_occurs_in_rest(full, sepv, start as int, k);
                lemma_find_skips(rest, sepv, k);
                assert(find_from(rest, sepv, 0) == k);
                assert(rest.subrange(0, k) =~= full.subrange(start as int, i as int));
                assert(rest.subrange(k + m, rest.len() as int) =~= full.subrange(
                    i + m,
                    n as int,
                ));
                assert(split_at_sep(rest, sepv) == seq![full.subrange(start as int, i as int)]
                    + split_at_sep(full.subrange(i + m, n as int), sepv));
            }
            let ghost before = texts_view(parts@);
            parts.push(piece);
            proof {
                assert(texts_view(parts@) =~= before.push(piece@));
                assert(texts_view(parts@) + split_at_sep(full.subrange(i + m, n as int), sepv)
                    =~= before + (seq![full.subrange(start as int, i as int)] + split_at_sep(
                    full.subrange(i + m, n as int),
                    sepv,
                )));
            }
            i = i + m;
            start = i;
        } else {
            i = i + 1;
        }
    }
    let ghost rest = full.subrange(start as int, n as int);
    proof {
        assert forall|j: int| 0 <= j implies !occurs_at(rest, sepv, j) by {
            lemma_occurs_in_rest(full, sepv, start as int, j);
        }
        lemma_find_none(rest, sepv, 0);
        assert(split_at_sep(rest, sepv) == seq![rest]);
    }
    let last = String::from_str(s.substring_char(start, n));
    let ghost before = texts_view(parts@);
    parts.push(last);
    proof {
        assert(texts_view(parts@) =~= before.push(rest));
        assert(before + seq![rest] =~= before.push(rest));
    }
    parts
}


/// The character `c` does not occur in `s`.
pub open spec fn lacks_char(s: Seq<char>, c: char) -> bool {
    forall|i: int| 0 <= i < s.len() ==> s[i] != c
}

proof fn lemma_no_first_char_no_split(s: Seq<char>, sep: Seq<char>)
    requires
        sep.len() > 0,
        lacks_char(s, sep[0]),
    ensures
        split_at_sep(s, sep) == seq![s],
{
    assert forall|j: int| 0 <= j implies !occurs_at(s, sep, j) by {
        if occurs_at(s, sep, j) {
            assert(s.subrange(j, j + sep.len())[0] == s[j]);
        }
    }
    lemma_find_none(s, sep, 0);
}

/// Text made of a head, a separator and a tail, where neither head nor tail
/// holds the separator's first character, splits into head and tail.
pub proof fn lemma_split_joined(head: Seq<char>, sep: Seq<char>, tail: Seq<char>)
    requires
        sep.len() > 0,
        lacks_char(head, sep[0]),
        lacks_char(tail, sep[0]),
    ensures
        split_at_sep(head + sep + tail, sep) == seq![head, tail],
{
    let s = head + sep + tail;
    let k = head.len() as int;
    assert forall|j: int| 0 <= j < k implies !occurs_at(s, sep, j) by {
        if occurs_at(s, sep, j) {
            assert(s.subrange(j, j + sep.len())[0] == s[j]);
            assert(s[j] == head[j]);
        }
    }
    assert(s.subrange(k, k + sep.len()) =~= sep);
    lemma_find_skips(s, sep, k);
    assert(find_from(s, sep, 0) == k);
    assert(s.subrange(0, k) =~= head);
    assert(s.subrange(k + sep.len(), s.len() as int) =~= tail);
    lemma_no_first_char_no_split(tail, sep);
    assert(split_at_sep(s, sep) =~= seq![head] + seq![tail]);
}

} // verus!
