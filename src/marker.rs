use vstd::prelude::*;
use vstd::slice::slice_subrange;

verus! {

/// `n` occurs in `h` starting at index `i`.
pub open spec fn occurs_at(h: Seq<u8>, n: Seq<u8>, i: int) -> bool {
    0 <= i && i + n.len() <= h.len() && h.subrange(i, i + n.len()) == n
}

/// Relies on `memchr::memmem::find`: the index of the first occurrence of the
/// needle in the haystack, or `None` when it does not occur.
pub assume_specification[ memchr::memmem::find ](haystack: &[u8], needle: &[u8]) -> (r: Option<
    usize,
>)
    ensures
        match r {
            Some(i) => occurs_at(haystack@, needle@, i as int) && forall|j: int|
                0 <= j < i ==> !occurs_at(haystack@, needle@, j),
            None => forall|j: int| !occurs_at(haystack@, needle@, j),
        },
;

/// The four bytes that open every field: `33 CC 00 00`.
pub open spec fn frame_marker() -> Seq<u8> {
    seq![0x33u8, 0xCCu8, 0x00u8, 0x00u8]
}

/// A field marker starts at index `i` of `s`.
pub open spec fn marker_at(s: Seq<u8>, i: int) -> bool {
    0 <= i && i + 4 <= s.len() && s[i] == 0x33u8 && s[i + 1] == 0xCCu8 && s[i + 2] == 0x00u8 && s[i
        + 3] == 0x00u8
}

/// The first marker of `s` at or after index `i`.
pub open spec fn marker_from(s: Seq<u8>, i: nat) -> Option<nat>
    decreases s.len() - i,
{
    if i + 4 > s.len() {
        None
    } else if marker_at(s, i as int) {
        Some(i)
    } else {
        marker_from(s, i + 1)
    }
}

/// The first marker of `s`.
pub open spec fn first_marker(s: Seq<u8>) -> Option<nat> {
    marker_from(s, 0)
}

proof fn lemma_occurs_is_marker(s: Seq<u8>, n: Seq<u8>, i: int)
    requires
        n == frame_marker(),
    ensures
        occurs_at(s, n, i) <==> marker_at(s, i),
{
    if marker_at(s, i) {
        assert(s.subrange(i, i + 4) =~= n);
    }
    if occurs_at(s, n, i) {
        assert(s.subrange(i, i + 4)[0] == s[i]);
        assert(s.subrange(i, i + 4)[1] == s[i + 1]);
        assert(s.subrange(i, i + 4)[2] == s[i + 2]);
        assert(s.subrange(i, i + 4)[3] == s[i + 3]);
    }
}

proof fn lemma_marker_from_found(s: Seq<u8>, i: nat, k: nat)
    requires
        i <= k,
        marker_at(s, k as int),
        forall|j: int| i <= j < k ==> !marker_at(s, j),
    ensures
        marker_from(s, i) == Some(k),
    decreases k - i,
{
    if i < k {
        lemma_marker_from_found(s, i + 1, k);
    }
}

proof fn lemma_marker_from_none(s: Seq<u8>, i: nat)
    requires
        forall|j: int| i <= j ==> !marker_at(s, j),
    ensures
        marker_from(s, i) is None,
    decreases s.len() - i,
{
    if i + 4 <= s.len() {
        lemma_marker_from_none(s, i + 1);
    }
}

/// `marker_from` finds a marker, and the first one at or after `i`.
pub proof fn lemma_marker_from_is_first(s: Seq<u8>, i: nat)
    ensures
        match marker_from(s, i) {
            Some(k) => i <= k && marker_at(s, k as int) && forall|j: int|
                i <= j < k ==> !marker_at(s, j),
            None => forall|j: int| i <= j ==> !marker_at(s, j),
        },
    decreases s.len() - i,
{
    if i + 4 <= s.len() && !marker_at(s, i as int) {
        lemma_marker_from_is_first(s, i + 1);
    }
}

/// Finds the first field marker in `s`.
pub fn find_marker(s: &[u8]) -> (r: Option<usize>)
    ensures
        r is Some <==> first_marker(s@) is Some,
        r is Some ==> first_marker(s@) == Some(r->Some_0 as nat),
{
    let needle: [u8; 4] = [0x33u8, 0xCCu8, 0x00u8, 0x00u8];
    let n = needle.as_slice();
    assert(n@ =~= frame_marker());
    let r = memchr::memmem::find(s, n);
    proof {
        assert forall|j: int| occurs_at(s@, n@, j) <==> marker_at(s@, j) by {
            lemma_occurs_is_marker(s@, n@, j);
        }
        match r {
            Some(k) => lemma_marker_from_found(s@, 0, k as nat),
            None => lemma_marker_from_none(s@, 0),
        }
    }
    r
}

proof fn lemma_marker_shift(s: Seq<u8>, i: int, j: int)
    requires
        0 <= i <= s.len(),
        0 <= j,
    ensures
        marker_at(s.subrange(i, s.len() as int), j) <==> marker_at(s, i + j),
{
    let t = s.subrange(i, s.len() as int);
    if i + j + 4 <= s.len() {
        assert(t[j] == s[i + j]);
        assert(t[j + 1] == s[i + j + 1]);
        assert(t[j + 2] == s[i + j + 2]);
        assert(t[j + 3] == s[i + j + 3]);
    }
}

/// The indices of `s` below `n` at which a field marker starts, in
/// increasing order.
pub open spec fn markers_upto(s: Seq<u8>, n: nat) -> Seq<int>
    decreases n,
{
    if n == 0 {
        Seq::empty()
    } else if marker_at(s, n - 1) {
        markers_upto(s, (n - 1) as nat).push(n - 1)
    } else {
        markers_upto(s, (n - 1) as nat)
    }
}

/// Every index of `s` at which a field marker starts, in increasing order.
pub open spec fn all_markers(s: Seq<u8>) -> Seq<int> {
    markers_upto(s, s.len())
}

/// The listed indices are markers, below `n`, in strictly increasing order,
/// and every marker below `n` is listed.
pub proof fn lemma_markers_upto(s: Seq<u8>, n: nat)
    ensures
        forall|a: int, b: int|
            0 <= a < b < markers_upto(s, n).len() ==> markers_upto(s, n)[a] < markers_upto(s, n)[b],
        forall|a: int|
            0 <= a < markers_upto(s, n).len() ==> 0 <= #[trigger] markers_upto(s, n)[a] < n
                && marker_at(s, markers_upto(s, n)[a]),
        forall|j: int|
            0 <= j < n && marker_at(s, j) ==> markers_upto(s, n).contains(j),
    decreases n,
{
    if n > 0 {
        let m = (n - 1) as nat;
        lemma_markers_upto(s, m);
        let prev = markers_upto(s, m);
        if marker_at(s, m as int) {
            assert forall|j: int| 0 <= j < n && marker_at(s, j) implies markers_upto(s, n).contains(
                j,
            ) by {
                if j < m {
                    let a = choose|a: int| 0 <= a < prev.len() && prev[a] == j;
                    assert(markers_upto(s, n)[a] == j);
                } else {
                    assert(markers_upto(s, n)[prev.len() as int] == j);
                }
            }
        }
    }
}

proof fn lemma_markers_skip(s: Seq<u8>, a: nat, b: nat)
    requires
        a <= b,
        forall|j: int| a <= j < b ==> !marker_at(s, j),
    ensures
        markers_upto(s, b) == markers_upto(s, a),
    decreases b - a,
{
    if a < b {
        lemma_markers_skip(s, a, (b - 1) as nat);
    }
}

/// Every index at which a field marker starts, in increasing order.
pub fn marker_positions(data: &[u8]) -> (r: Vec<usize>)
    ensures
        r@.len() == all_markers(data@).len(),
        forall|a: int| 0 <= a < r@.len() ==> #[trigger] r@[a] as int == all_markers(data@)[a],
{
    let len = data.len();
    let mut r: Vec<usize> = Vec::new();
    let mut i: usize = 0;
    while i < len
        invariant
            len == data@.len(),
            i <= len,
            r@.len() == markers_upto(data@, i as nat).len(),
            forall|a: int|
                0 <= a < r@.len() ==> #[trigger] r@[a] as int == markers_upto(data@, i as nat)[a],
        decreases len - i,
    {
        let rest = slice_subrange(data, i, len);
        match find_marker(rest) {
            Some(k) => {
                proof {
                    lemma_marker_from_is_first(rest@, 0);
                    assert forall|j: int| i <= j < i + k implies !marker_at(data@, j) by {
                        lemma_marker_shift(data@, i as int, j - i);
                    }
                    lemma_markers_skip(data@, i as nat, (i + k) as nat);
                    lemma_marker_shift(data@, i as int, k as int);
                    assert(markers_upto(data@, (i + k + 1) as nat) == markers_upto(
                        data@,
                        (i + k) as nat,
                    ).push(i + k));
                }
                r.push(i + k);
                i = i + k + 1;
            },
            None => {
                proof {
                    lemma_marker_from_is_first(rest@, 0);
                    assert forall|j: int| i <= j < len implies !marker_at(data@, j) by {
                        lemma_marker_shift(data@, i as int, j - i);
                    }
                    lemma_markers_skip(data@, i as nat, len as nat);
                }
                i = len;
            },
        }
    }
    r
}

} // verus!
