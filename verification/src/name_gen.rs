use vstd::prelude::*;

verus! {

/// Word pieces and word endings learnt from example names.
pub struct Dictionary {
    phonems: Vec<String>,
    endings: Vec<String>,
}

/// The index of the first occurrence of `c` in `b`, if any.
#[verifier::opaque]
pub open spec fn first_index_of(b: Seq<u8>, c: u8) -> Option<int> {
    if exists|k: int| 0 <= k < b.len() && b[k] == c {
        Some(choose|k: int| 0 <= k < b.len() && b[k] == c && forall|j: int| 0 <= j < k ==> b[j] != c)
    } else {
        None
    }
}

/// `a` and `b` agree on their first `n` bytes, and both have at least `n`.
pub open spec fn agree_on_prefix(a: Seq<u8>, b: Seq<u8>, n: int) -> bool {
    0 <= n <= a.len() && n <= b.len() && forall|k: int| 0 <= k < n ==> a[k] == b[k]
}

/// `a` and `b` agree on their first `n` bytes and not on `n + 1`.
pub open spec fn is_common_prefix_len(a: Seq<u8>, b: Seq<u8>, n: int) -> bool {
    agree_on_prefix(a, b, n) && (n == a.len() || n == b.len() || a[n] != b[n])
}

/// The length of the longest common prefix of `a` and `b`.
#[verifier::opaque]
pub open spec fn common_prefix_len(a: Seq<u8>, b: Seq<u8>) -> int {
    choose|n: int| #[trigger] is_common_prefix_len(a, b, n)
}

/// The result of `longest_matching`: the length of the common prefix of `a` and the part of `b`
/// that starts at the first occurrence of `a`'s first byte, or 0 when `b` lacks that byte.
pub open spec fn longest_matching_spec(a: Seq<u8>, b: Seq<u8>) -> int {
    match first_index_of(b, a[0]) {
        Some(k) => common_prefix_len(a, b.skip(k)),
        None => 0,
    }
}

proof fn lemma_common_prefix_unique(a: Seq<u8>, b: Seq<u8>, n: int)
    requires
        is_common_prefix_len(a, b, n),
    ensures
        common_prefix_len(a, b) == n,
{
    reveal(common_prefix_len);
    let m = common_prefix_len(a, b);
    assert(is_common_prefix_len(a, b, m));
    if m < n {
        assert(a[m] == b[m]);
    }
    if n < m {
        assert(a[n] == b[n]);
    }
}

/// How far `a` matches `b` from the first place where `b` holds `a`'s first byte: the length
/// of the common prefix of `a` and that part of `b`, or 0 when `b` does not hold that byte.
pub fn longest_matching(a: &[u8], b: &[u8]) -> (r: usize)
    requires
        a@.len() > 0,
        b@.len() > 0,
    ensures
        r == longest_matching_spec(a@, b@),
{
    let c = a[0];
    let mut count: usize = 0;
    while b[count] != c
        invariant
            a@.len() > 0,
            c == a@[0],
            count < b@.len(),
            forall|j: int| 0 <= j < count ==> b@[j] != c,
        decreases b@.len() - count,
    {
        count += 1;
        if count >= b.len() {
            proof {
                reveal(first_index_of);
                assert(!(exists|k: int| 0 <= k < b@.len() && b@[k] == c));
            }
            return 0;
        }
    }
    proof {
        reveal(first_index_of);
        assert(b@[count as int] == c);
        let k = first_index_of(b@, c);
        assert(k == Some(count as int)) by {
            let kk = choose|k: int| 0 <= k < b@.len() && b@[k] == c && forall|j: int| 0 <= j < k ==> b@[j] != c;
            assert(0 <= kk < b@.len() && b@[kk] == c && forall|j: int| 0 <= j < kk ==> b@[j] != c);
            if kk < count {
                assert(b@[kk] != c);
            }
            if count < kk {
                assert(b@[count as int] != c);
            }
        }
    }
    let ghost rest = b@.skip(count as int);
    let blen = b.len();
    let mut i: usize = 0;
    while a[i] == b[count + i]
        invariant
            blen == b@.len(),
            a@.len() > 0,
            first_index_of(b@, a@[0]) == Some(count as int),
            count < b@.len(),
            rest == b@.skip(count as int),
            i < a@.len(),
            count + i < b@.len(),
            agree_on_prefix(a@, rest, i as int),
        decreases a@.len() - i,
    {
        assert(a@[i as int] == rest[i as int]);
        i += 1;
        if i >= a.len() || count + i >= b.len() {
            proof {
                assert(is_common_prefix_len(a@, rest, i as int));
                lemma_common_prefix_unique(a@, rest, i as int);
            }
            return i;
        }
    }
    proof {
        assert(a@[i as int] != rest[i as int]);
        assert(is_common_prefix_len(a@, rest, i as int));
        lemma_common_prefix_unique(a@, rest, i as int);
    }
    i
}

/// The `d`-th bytes from the ends of the two strings exist in both and differ.
pub open spec fn differs_at_end(word: Seq<u8>, value: Seq<u8>, d: int) -> bool {
    1 <= d <= word.len() && d <= value.len() && word[word.len() - d] != value[value.len() - d]
}

/// The two byte strings differ at some position counted from their ends, within the shorter one.
pub open spec fn differ_from_end(word: Seq<u8>, value: Seq<u8>) -> bool {
    exists|d: int| #[trigger] differs_at_end(word, value, d)
}

/// Compares the two byte strings from their ends. The answer is `false` whenever it returns: it
/// stops at the first position from the end where they differ, which the caller must provide.
pub fn ends_with(word: &[u8], value: &[u8]) -> (r: bool)
    requires
        differ_from_end(word@, value@),
    ensures
        !r,
{
    let ghost dmin = choose|d: int| #[trigger] differs_at_end(word@, value@, d);
    let mut disp: usize = 1;
    while word[word.len() - disp] == value[value.len() - disp]
        invariant
            1 <= disp <= word@.len(),
            disp <= value@.len(),
            1 <= dmin <= word@.len(),
            dmin <= value@.len(),
            word@[word@.len() - dmin] != value@[value@.len() - dmin],
            disp <= dmin,
        decreases dmin - disp,
    {
        disp += 1;
    }
    false
}

} // verus!
