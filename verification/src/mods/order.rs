use vstd::prelude::*;

verus! {

broadcast use vstd::seq_lib::group_to_multiset_ensures;

/// Lexicographic order on byte strings: `a` comes no later than `b`.
pub open spec fn bytes_le(a: Seq<u8>, b: Seq<u8>) -> bool
    decreases a.len(),
{
    if a.len() == 0 {
        true
    } else if b.len() == 0 {
        false
    } else if a[0] < b[0] {
        true
    } else if a[0] > b[0] {
        false
    } else {
        bytes_le(a.drop_first(), b.drop_first())
    }
}

/// The bytes of a path as it is stored (UTF-8).
pub open spec fn path_bytes(p: String) -> Seq<u8> {
    vstd::utf8::encode_utf8(p@)
}

/// The order in which the paths of one folder are taken: by their bytes.
/// For paths in one and the same folder this is the order of their file
/// names, which is how `Path` orders such paths; for paths in different
/// folders the two orders can differ.
pub open spec fn path_le(a: String, b: String) -> bool {
    bytes_le(path_bytes(a), path_bytes(b))
}

/// The paths are in ascending order.
pub open spec fn paths_sorted(s: Seq<String>) -> bool {
    forall|i: int, j: int| 0 <= i < j < s.len() ==> path_le(#[trigger] s[i], #[trigger] s[j])
}

/// Of two byte strings, one comes no later than the other.
pub proof fn lemma_bytes_le_total(a: Seq<u8>, b: Seq<u8>)
    ensures
        bytes_le(a, b) || bytes_le(b, a),
    decreases a.len(),
{
    if a.len() > 0 && b.len() > 0 && a[0] == b[0] {
        lemma_bytes_le_total(a.drop_first(), b.drop_first());
    }
}

/// The order on byte strings is transitive.
pub proof fn lemma_bytes_le_transitive(a: Seq<u8>, b: Seq<u8>, c: Seq<u8>)
    requires
        bytes_le(a, b),
        bytes_le(b, c),
    ensures
        bytes_le(a, c),
    decreases a.len(),
{
    if a.len() > 0 && b.len() > 0 && c.len() > 0 && a[0] == b[0] && b[0] == c[0] {
        lemma_bytes_le_transitive(a.drop_first(), b.drop_first(), c.drop_first());
    }
}

/// Byte strings are ordered at their first difference: when `a` and `b`
/// agree before position `k` and differ at `k`, `a` comes first exactly when
/// its byte at `k` is the smaller number.
pub proof fn lemma_bytes_le_first_difference(a: Seq<u8>, b: Seq<u8>, k: int)
    requires
        0 <= k < a.len(),
        k < b.len(),
        forall|j: int| 0 <= j < k ==> a[j] == b[j],
        a[k] != b[k],
    ensures
        bytes_le(a, b) <==> a[k] < b[k],
    decreases k,
{
    if k > 0 {
        assert(a[0] == b[0]);
        lemma_bytes_le_first_difference(a.drop_first(), b.drop_first(), k - 1);
    }
}

/// A byte string comes no later than any byte string that it begins; it
/// comes after every proper beginning of itself.
pub proof fn lemma_bytes_le_prefix(a: Seq<u8>, b: Seq<u8>)
    requires
        a.len() <= b.len(),
        forall|j: int| 0 <= j < a.len() ==> a[j] == b[j],
    ensures
        bytes_le(a, b),
        a.len() < b.len() ==> !bytes_le(b, a),
    decreases a.len(),
{
    if a.len() > 0 {
        assert(a[0] == b[0]);
        lemma_bytes_le_prefix(a.drop_first(), b.drop_first());
    }
}

/// In sorted paths, a path before another has, where their bytes first
/// differ, the smaller byte.
pub proof fn lemma_sorted_paths_first_difference(s: Seq<String>, i: int, j: int, k: int)
    requires
        paths_sorted(s),
        0 <= i < j < s.len(),
        0 <= k < path_bytes(s[i]).len(),
        k < path_bytes(s[j]).len(),
        forall|m: int| 0 <= m < k ==> path_bytes(s[i])[m] == path_bytes(s[j])[m],
        path_bytes(s[i])[k] != path_bytes(s[j])[k],
    ensures
        path_bytes(s[i])[k] < path_bytes(s[j])[k],
{
    assert(path_le(s[i], s[j]));
    lemma_bytes_le_first_difference(path_bytes(s[i]), path_bytes(s[j]), k);
}

/// Whether byte string `a` comes no later than `b`.
pub fn compare_bytes_le(a: &[u8], b: &[u8]) -> (r: bool)
    ensures
        r == bytes_le(a@, b@),
{
    let mut i: usize = 0;
    assert(a@.skip(0) =~= a@ && b@.skip(0) =~= b@);
    while i < a.len() && i < b.len() && a[i] == b[i]
        invariant
            i <= a.len(),
            i <= b.len(),
            bytes_le(a@, b@) == bytes_le(a@.skip(i as int), b@.skip(i as int)),
        decreases a.len() - i,
    {
        assert(a@.skip(i as int).drop_first() =~= a@.skip(i + 1));
        assert(b@.skip(i as int).drop_first() =~= b@.skip(i + 1));
        i = i + 1;
    }
    if i == a.len() {
        true
    } else if i == b.len() {
        false
    } else {
        assert(a@.skip(i as int)[0] == a@[i as int]);
        assert(b@.skip(i as int)[0] == b@[i as int]);
        a[i] < b[i]
    }
}

/// Whether path `a` comes no later than path `b`.
pub fn compare_paths_le(a: &String, b: &String) -> (r: bool)
    ensures
        r == path_le(*a, *b),
{
    compare_bytes_le(a.as_str().as_bytes(), b.as_str().as_bytes())
}

/// The paths in ascending order, each kept as many times as it was given.
pub fn sort_paths(paths: &Vec<String>) -> (r: Vec<String>)
    ensures
        paths_sorted(r@),
        r@.to_multiset() == paths@.to_multiset(),
{
    let mut res: Vec<String> = Vec::new();
    let mut i: usize = 0;
    while i < paths.len()
        invariant
            i <= paths.len(),
            paths_sorted(res@),
            res@.to_multiset() == paths@.take(i as int).to_multiset(),
        decreases paths.len() - i,
    {
        let x = paths[i].clone();
        let mut j: usize = 0;
        while j < res.len() && compare_paths_le(&res[j], &x)
            invariant
                j <= res.len(),
                forall|k: int| 0 <= k < j ==> path_le(#[trigger] res@[k], x),
            decreases res.len() - j,
        {
            j = j + 1;
        }
        proof {
            if j < res.len() {
                lemma_bytes_le_total(path_bytes(res@[j as int]), path_bytes(x));
                assert forall|k: int| j <= k < res.len() implies path_le(x, #[trigger] res@[k]) by {
                    if k > j {
                        assert(path_le(res@[j as int], res@[k]));
                        lemma_bytes_le_transitive(
                            path_bytes(x),
                            path_bytes(res@[j as int]),
                            path_bytes(res@[k]),
                        );
                    }
                }
            }
        }
        let ghost old_res = res@;
        res.insert(j, x);
        proof {
            assert forall|a: int, b: int| 0 <= a < b < res@.len() implies path_le(
                #[trigger] res@[a],
                #[trigger] res@[b],
            ) by {
                if b < j {
                    assert(res@[a] == old_res[a] && res@[b] == old_res[b]);
                } else if b == j {
                    assert(res@[a] == old_res[a]);
                } else if a < j {
                    assert(res@[a] == old_res[a] && res@[b] == old_res[b - 1]);
                    assert(path_le(old_res[a], x));
                    assert(path_le(x, old_res[b - 1]));
                    lemma_bytes_le_transitive(
                        path_bytes(old_res[a]),
                        path_bytes(x),
                        path_bytes(old_res[b - 1]),
                    );
                } else if a == j {
                    assert(res@[b] == old_res[b - 1]);
                } else {
                    assert(res@[a] == old_res[a - 1] && res@[b] == old_res[b - 1]);
                }
            }
            assert(paths@.take(i + 1) =~= paths@.take(i as int).push(paths@[i as int]));
        }
        i = i + 1;
    }
    assert(paths@.take(paths.len() as int) =~= paths@);
    res
}

} // verus!
