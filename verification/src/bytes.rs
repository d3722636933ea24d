//! Byte-string scanning primitives shared by the GFA, BED and histogram
//! parsers: first-occurrence search, range copy, and equality.

use vstd::prelude::*;

verus! {

/// Index of the first occurrence of `b` in `s[from..end]`.
pub open spec fn find_from(s: Seq<u8>, from: int, end: int, b: u8) -> Option<int>
    decreases end - from,
{
    if from < 0 || from >= end || end > s.len() {
        None
    } else if s[from] == b {
        Some(from)
    } else {
        find_from(s, from + 1, end, b)
    }
}

pub proof fn lemma_find_from(s: Seq<u8>, from: int, end: int, b: u8)
    requires
        0 <= from <= end <= s.len(),
    ensures
        match find_from(s, from, end, b) {
            Some(i) => from <= i < end && s[i] == b && forall|j: int|
                from <= j < i ==> s[j] != b,
            None => forall|j: int| from <= j < end ==> s[j] != b,
        },
    decreases end - from,
{
    if from < end && s[from] != b {
        lemma_find_from(s, from + 1, end, b);
    }
}

/// First occurrence of `b` in `s[from..end]`, scanning left to right.
pub fn find_byte(s: &Vec<u8>, from: usize, end: usize, b: u8) -> (r: Option<usize>)
    requires
        from <= end <= s@.len(),
    ensures
        match r {
            Some(i) => find_from(s@, from as int, end as int, b) == Some(i as int),
            None => find_from(s@, from as int, end as int, b) is None,
        },
{
    let mut i: usize = from;
    while i < end
        invariant
            from <= i <= end <= s@.len(),
            find_from(s@, from as int, end as int, b) == find_from(s@, i as int, end as int, b),
        decreases end - i,
    {
        if s[i] == b {
            return Some(i);
        }
        i = i + 1;
    }
    None
}

/// Index of the first occurrence of any of `b1`, `b2`, `b3` in `s[from..end]`.
pub open spec fn find3_from(s: Seq<u8>, from: int, end: int, b1: u8, b2: u8, b3: u8) -> Option<
    int,
>
    decreases end - from,
{
    if from < 0 || from >= end || end > s.len() {
        None
    } else if s[from] == b1 || s[from] == b2 || s[from] == b3 {
        Some(from)
    } else {
        find3_from(s, from + 1, end, b1, b2, b3)
    }
}

pub proof fn lemma_find3_from(s: Seq<u8>, from: int, end: int, b1: u8, b2: u8, b3: u8)
    requires
        0 <= from <= end <= s.len(),
    ensures
        match find3_from(s, from, end, b1, b2, b3) {
            Some(i) => from <= i < end && (s[i] == b1 || s[i] == b2 || s[i] == b3) && forall|
                j: int,
            |
                from <= j < i ==> s[j] != b1 && s[j] != b2 && s[j] != b3,
            None => forall|j: int| from <= j < end ==> s[j] != b1 && s[j] != b2 && s[j] != b3,
        },
    decreases end - from,
{
    if from < end && s[from] != b1 && s[from] != b2 && s[from] != b3 {
        lemma_find3_from(s, from + 1, end, b1, b2, b3);
    }
}

/// First occurrence of any of three bytes in `s[from..end]`.
pub fn find_byte3(s: &Vec<u8>, from: usize, end: usize, b1: u8, b2: u8, b3: u8) -> (r: Option<
    usize,
>)
    requires
        from <= end <= s@.len(),
    ensures
        match r {
            Some(i) => find3_from(s@, from as int, end as int, b1, b2, b3) == Some(i as int),
            None => find3_from(s@, from as int, end as int, b1, b2, b3) is None,
        },
{
    let mut i: usize = from;
    while i < end
        invariant
            from <= i <= end <= s@.len(),
            find3_from(s@, from as int, end as int, b1, b2, b3) == find3_from(
                s@,
                i as int,
                end as int,
                b1,
                b2,
                b3,
            ),
        decreases end - i,
    {
        let c = s[i];
        if c == b1 || c == b2 || c == b3 {
            return Some(i);
        }
        i = i + 1;
    }
    None
}

/// A fresh copy of `s[from..end]`.
pub fn copy_range(s: &Vec<u8>, from: usize, end: usize) -> (r: Vec<u8>)
    requires
        from <= end <= s@.len(),
    ensures
        r@ == s@.subrange(from as int, end as int),
{
    let mut out: Vec<u8> = Vec::new();
    let mut i: usize = from;
    while i < end
        invariant
            from <= i <= end <= s@.len(),
            out@ == s@.subrange(from as int, i as int),
        decreases end - i,
    {
        out.push(s[i]);
        assert(out@ =~= s@.subrange(from as int, i as int + 1));
        i = i + 1;
    }
    out
}

/// Whether two byte strings hold the same bytes.
pub fn bytes_eq(a: &Vec<u8>, b: &Vec<u8>) -> (r: bool)
    ensures
        r == (a@ == b@),
{
    if a.len() != b.len() {
        assert(a@ != b@);
        return false;
    }
    let n = a.len();
    let mut i: usize = 0;
    while i < n
        invariant
            i <= n,
            a@.len() == n,
            b@.len() == n,
            forall|j: int| 0 <= j < i ==> a@[j] == b@[j],
        decreases n - i,
    {
        if a[i] != b[i] {
            return false;
        }
        i = i + 1;
    }
    assert(a@ =~= b@);
    true
}

/// Splits `s` into the segments between occurrences of `sep`; a string with
/// `k` separators yields exactly `k + 1` segments, empty ones included.
pub open spec fn split_on(s: Seq<u8>, sep: u8) -> Seq<Seq<u8>>
    decreases s.len(),
{
    match find_from(s, 0, s.len() as int, sep) {
        None => seq![s],
        Some(i) => if 0 <= i < s.len() {
            seq![s.subrange(0, i)] + split_on(s.skip(i + 1), sep)
        } else {
            seq![s]
        },
    }
}

pub proof fn lemma_split_on_len(s: Seq<u8>, sep: u8)
    ensures
        split_on(s, sep).len() >= 1,
    decreases s.len(),
{
    lemma_find_from(s, 0, s.len() as int, sep);
    match find_from(s, 0, s.len() as int, sep) {
        None => {},
        Some(i) => {
            lemma_split_on_len(s.skip(i + 1), sep);
        },
    }
}

/// Splits `s[from..end]` on `sep`, copying each segment out.
pub fn split_range_on(s: &Vec<u8>, from: usize, end: usize, sep: u8) -> (r: Vec<Vec<u8>>)
    requires
        from <= end <= s@.len(),
    ensures
        r@.map_values(|v: Vec<u8>| v@) == split_on(s@.subrange(from as int, end as int), sep),
    decreases end - from,
{
    let found = find_byte(s, from, end, sep);
    proof {
        lemma_find_from(s@, from as int, end as int, sep);
    }
    match found {
        None => {
            let seg = copy_range(s, from, end);
            let mut out: Vec<Vec<u8>> = Vec::new();
            out.push(seg);
            proof {
                let whole = s@.subrange(from as int, end as int);
                assert(find_from(whole, 0, whole.len() as int, sep) is None) by {
                    lemma_find_from(whole, 0, whole.len() as int, sep);
                    if find_from(whole, 0, whole.len() as int, sep) is Some {
                        let i = find_from(whole, 0, whole.len() as int, sep)->0;
                        assert(s@[from + i] == sep);
                    }
                }
                assert(out@.map_values(|v: Vec<u8>| v@) =~= split_on(whole, sep));
            }
            out
        },
        Some(i) => {
            let seg = copy_range(s, from, i);
            let rest = split_range_on(s, i + 1, end, sep);
            let mut out: Vec<Vec<u8>> = Vec::new();
            out.push(seg);
            let mut k: usize = 0;
            let n = rest.len();
            while k < n
                invariant
                    k <= n,
                    rest@.len() == n,
                    out@.len() == k + 1,
                    out@[0]@ == seg@,
                    forall|j: int| 0 <= j < k ==> out@[j + 1]@ == rest@[j]@,
                decreases n - k,
            {
                let item = clone_bytes(&rest[k]);
                out.push(item);
                k = k + 1;
            }
            proof {
                let whole = s@.subrange(from as int, end as int);
                let ii = i - from;
                assert(find_from(whole, 0, whole.len() as int, sep) == Some(ii as int)) by {
                    lemma_find_from(whole, 0, whole.len() as int, sep);
                    assert(whole[ii as int] == sep);
                    if find_from(whole, 0, whole.len() as int, sep) is None {
                        assert(false);
                    } else {
                        let j = find_from(whole, 0, whole.len() as int, sep)->0;
                        assert(whole[j] == sep);
                        assert(s@[from + j] == sep);
                        if j < ii {
                            assert(false);
                        }
                        if j > ii {
                            assert(whole[ii as int] != sep);
                            assert(false);
                        }
                    }
                }
                assert(whole.subrange(0, ii as int) =~= s@.subrange(from as int, i as int));
                assert(whole.skip(ii + 1) =~= s@.subrange(i + 1, end as int));
                assert(out@.map_values(|v: Vec<u8>| v@) =~= split_on(whole, sep));
            }
            out
        },
    }
}

/// Splits `s` into the segments between occurrences of `a` or `b`.
pub open spec fn split_on2(s: Seq<u8>, a: u8, b: u8) -> Seq<Seq<u8>>
    decreases s.len(),
{
    match find3_from(s, 0, s.len() as int, a, b, b) {
        None => seq![s],
        Some(i) => if 0 <= i < s.len() {
            seq![s.subrange(0, i)] + split_on2(s.skip(i + 1), a, b)
        } else {
            seq![s]
        },
    }
}

/// Appends all of `src` to `dst`.
pub fn append_bytes(dst: &mut Vec<u8>, src: &Vec<u8>)
    ensures
        final(dst)@ == old(dst)@ + src@,
{
    let n = src.len();
    let mut i: usize = 0;
    proof {
        assert(dst@ =~= old(dst)@ + src@.take(0));
    }
    while i < n
        invariant
            i <= n,
            n == src@.len(),
            dst@ == old(dst)@ + src@.take(i as int),
        decreases n - i,
    {
        dst.push(src[i]);
        assert(dst@ =~= old(dst)@ + src@.take(i as int + 1));
        i = i + 1;
    }
    assert(src@.take(n as int) =~= src@);
}

/// A fresh copy of a byte string.
pub fn clone_bytes(v: &Vec<u8>) -> (r: Vec<u8>)
    ensures
        r@ == v@,
{
    copy_range(v, 0, v.len())
}

} // verus!
