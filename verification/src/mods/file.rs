use vstd::prelude::*;

use super::cliinput::CompressType;
use super::types::PCHStdError;

verus! {

broadcast use vstd::seq_lib::group_to_multiset_ensures;

// ---------------------------------------------------------------------------
// Matching the number of input files to the number of configured names
// ---------------------------------------------------------------------------

/// The inputs left after one removal per draw: each draw `d` removes the
/// input at `d % len`, `len` being the number of inputs left at its turn.
pub open spec fn drop_by_draws(s: Seq<String>, draws: Seq<usize>) -> Seq<String>
    decreases draws.len(),
{
    if draws.len() == 0 {
        s
    } else {
        let t = drop_by_draws(s, draws.drop_last());
        t.remove((draws.last() as int) % (t.len() as int))
    }
}

/// The inputs after one duplication per draw: each draw `d` appends a copy
/// of the input at `d % len`, `len` being the number of inputs at its turn.
pub open spec fn dup_by_draws(s: Seq<String>, draws: Seq<usize>) -> Seq<String>
    decreases draws.len(),
{
    if draws.len() == 0 {
        s
    } else {
        let t = dup_by_draws(s, draws.drop_last());
        t.push(t[(draws.last() as int) % (t.len() as int)])
    }
}

/// The inputs brought to `target` entries with the given draws: surplus
/// inputs are removed, missing ones filled with copies.
pub open spec fn balanced(s: Seq<String>, target: int, draws: Seq<usize>) -> Seq<String> {
    if s.len() > target {
        drop_by_draws(s, draws)
    } else if s.len() < target {
        dup_by_draws(s, draws)
    } else {
        s
    }
}

/// The number of draws that bringing `n` inputs to `target` takes.
pub open spec fn draws_needed(n: int, target: int) -> int {
    if n >= target {
        n - target
    } else {
        target - n
    }
}

/// `idx` tells where each entry of `r` stands in `s`: at ascending positions.
pub open spec fn picks(idx: Seq<int>, r: Seq<String>, s: Seq<String>) -> bool {
    &&& idx.len() == r.len()
    &&& forall|i: int| 0 <= i < idx.len() ==> 0 <= #[trigger] idx[i] < s.len() && r[i] == s[idx[i]]
    &&& forall|i: int, j: int| 0 <= i < j < idx.len() ==> #[trigger] idx[i] < #[trigger] idx[j]
}

/// `r` is `s` with some entries deleted: the entries kept stay in their order.
pub open spec fn is_subsequence_of(r: Seq<String>, s: Seq<String>) -> bool {
    exists|idx: Seq<int>| #[trigger] picks(idx, r, s)
}

/// Deleting one entry of a subsequence leaves a subsequence.
proof fn lemma_subsequence_remove(r: Seq<String>, s: Seq<String>, p: int)
    requires
        is_subsequence_of(r, s),
        0 <= p < r.len(),
    ensures
        is_subsequence_of(r.remove(p), s),
{
    let idx = choose|idx: Seq<int>| #[trigger] picks(idx, r, s);
    let idx2 = idx.remove(p);
    assert forall|i: int, j: int| 0 <= i < j < idx2.len() implies #[trigger] idx2[i]
        < #[trigger] idx2[j] by {
        let a = if i < p { i } else { i + 1 };
        let b = if j < p { j } else { j + 1 };
        assert(idx2[i] == idx[a] && idx2[j] == idx[b]);
        assert(idx[a] < idx[b]);
    }
    assert forall|i: int| 0 <= i < idx2.len() implies 0 <= #[trigger] idx2[i] < s.len() && r.remove(
        p,
    )[i] == s[idx2[i]] by {
        let a = if i < p { i } else { i + 1 };
        assert(idx2[i] == idx[a]);
        assert(r.remove(p)[i] == r[a]);
    }
    assert(picks(idx2, r.remove(p), s));
}

/// Every sequence is a subsequence of itself.
proof fn lemma_subsequence_refl(s: Seq<String>)
    ensures
        is_subsequence_of(s, s),
{
    let idx = Seq::new(s.len(), |i: int| i);
    assert(picks(idx, s, s));
}

/// Removals by draws shorten the inputs by one per draw, and keep only
/// inputs that were there, no more often than they were there, in the order
/// they had.
pub proof fn lemma_drop_by_draws(s: Seq<String>, draws: Seq<usize>)
    requires
        draws.len() <= s.len(),
    ensures
        drop_by_draws(s, draws).len() == s.len() - draws.len(),
        drop_by_draws(s, draws).to_multiset().subset_of(s.to_multiset()),
        forall|i: int|
            0 <= i < drop_by_draws(s, draws).len() ==> s.contains(
                #[trigger] drop_by_draws(s, draws)[i],
            ),
        is_subsequence_of(drop_by_draws(s, draws), s),
    decreases draws.len(),
{
    broadcast use vstd::multiset::group_multiset_axioms;

    if draws.len() == 0 {
        lemma_subsequence_refl(s);
    } else {
        let t = drop_by_draws(s, draws.drop_last());
        lemma_drop_by_draws(s, draws.drop_last());
        let p = (draws.last() as int) % (t.len() as int);
        assert(t.remove(p).to_multiset() == t.to_multiset().remove(t[p]));
        lemma_subsequence_remove(t, s, p);
        let r = drop_by_draws(s, draws);
        assert(r.to_multiset().subset_of(s.to_multiset())) by {
            assert forall|y: String| r.to_multiset().count(y) <= s.to_multiset().count(y) by {
                assert(r.to_multiset().count(y) <= t.to_multiset().count(y));
            }
        }
        assert forall|i: int| 0 <= i < r.len() implies s.contains(#[trigger] r[i]) by {
            assert(r.to_multiset().count(r[i]) > 0);
            assert(s.to_multiset().count(r[i]) > 0);
        }
    }
}

/// Duplications by draws lengthen the inputs by one per draw, keep the
/// inputs in front, and only copy inputs that were there.
pub proof fn lemma_dup_by_draws(s: Seq<String>, draws: Seq<usize>)
    requires
        s.len() > 0,
    ensures
        dup_by_draws(s, draws).len() == s.len() + draws.len(),
        dup_by_draws(s, draws).take(s.len() as int) == s,
        forall|i: int|
            0 <= i < dup_by_draws(s, draws).len() ==> s.contains(
                #[trigger] dup_by_draws(s, draws)[i],
            ),
    decreases draws.len(),
{
    if draws.len() == 0 {
        assert(s.take(s.len() as int) =~= s);
    } else {
        let t = dup_by_draws(s, draws.drop_last());
        lemma_dup_by_draws(s, draws.drop_last());
        let p = (draws.last() as int) % (t.len() as int);
        let r = dup_by_draws(s, draws);
        assert(r =~= t.push(t[p]));
        assert(r.take(s.len() as int) =~= t.take(s.len() as int));
        assert forall|i: int| 0 <= i < r.len() implies s.contains(#[trigger] r[i]) by {
            if i < t.len() {
                assert(r[i] == t[i]);
            } else {
                assert(r[i] == t[p]);
            }
        }
    }
}

/// Bringing the inputs to the number of names with given draws, one draw per
/// surplus or missing input: surplus inputs are removed, one per draw at
/// `draw % len`; missing ones are filled with a copy of the input at
/// `draw % len`. Without inputs, no name can be filled.
pub fn balance_inputs_with(inputs: Vec<String>, target: usize, draws: &Vec<usize>) -> (r: Vec<
    String,
>)
    requires
        draws.len() == draws_needed(inputs.len() as int, target as int),
        inputs.len() == 0 ==> target == 0,
    ensures
        r@ == balanced(inputs@, target as int, draws@),
        r.len() == target,
        inputs.len() >= target ==> is_subsequence_of(r@, inputs@),
        inputs.len() <= target ==> r@.take(inputs.len() as int) == inputs@,
{
    let ghost s = inputs@;
    let mut res = inputs;
    let mut k: usize = 0;
    if res.len() > target {
        while k < draws.len()
            invariant
                s.len() > target,
                draws.len() == s.len() - target,
                k <= draws.len(),
                res@ == drop_by_draws(s, draws@.take(k as int)),
            decreases draws.len() - k,
        {
            proof {
                lemma_drop_by_draws(s, draws@.take(k as int));
                assert(draws@.take(k + 1).drop_last() =~= draws@.take(k as int));
                assert(draws@.take(k + 1).last() == draws@[k as int]);
            }
            let p = draws[k] % res.len();
            res.remove(p);
            k = k + 1;
        }
        assert(draws@.take(draws.len() as int) =~= draws@);
        proof {
            lemma_drop_by_draws(s, draws@);
        }
    } else if res.len() < target {
        while k < draws.len()
            invariant
                s.len() < target,
                s.len() > 0,
                draws.len() == target - s.len(),
                k <= draws.len(),
                res@ == dup_by_draws(s, draws@.take(k as int)),
            decreases draws.len() - k,
        {
            proof {
                lemma_dup_by_draws(s, draws@.take(k as int));
                assert(draws@.take(k + 1).drop_last() =~= draws@.take(k as int));
                assert(draws@.take(k + 1).last() == draws@[k as int]);
            }
            let p = draws[k] % res.len();
            let copy = res[p].clone();
            res.push(copy);
            k = k + 1;
        }
        assert(draws@.take(draws.len() as int) =~= draws@);
        proof {
            lemma_dup_by_draws(s, draws@);
        }
    } else {
        proof {
            lemma_subsequence_refl(s);
            assert(s.take(s.len() as int) =~= s);
        }
    }
    res
}

/// `rand::random::<usize>()`: a random number; nothing is promised of it.
#[verifier::external_body]
fn random_draw() -> usize {
    rand::random::<usize>()
}

/// Brings the inputs to `target` entries, drawing at random which surplus
/// inputs are dropped or which inputs are copied to fill missing ones.
/// Whatever is drawn, the result has `target` entries, all taken from the
/// inputs; surplus inputs are only removed, and missing ones are appended
/// after all the inputs.
pub fn balance_inputs(inputs: Vec<String>, target: usize) -> (r: Vec<String>)
    requires
        inputs.len() == 0 ==> target == 0,
    ensures
        exists|draws: Seq<usize>|
            draws.len() == draws_needed(inputs.len() as int, target as int) && r@ == #[trigger] balanced(
                inputs@,
                target as int,
                draws,
            ),
        r.len() == target,
        forall|i: int| 0 <= i < r.len() ==> inputs@.contains(#[trigger] r@[i]),
        inputs.len() >= target ==> r@.to_multiset().subset_of(inputs@.to_multiset()),
        inputs.len() >= target ==> is_subsequence_of(r@, inputs@),
        inputs.len() <= target ==> r@.take(inputs.len() as int) == inputs@,
{
    let n = inputs.len();
    let needed = if n >= target {
        n - target
    } else {
        target - n
    };
    let mut draws: Vec<usize> = Vec::new();
    while draws.len() < needed
        invariant
            draws.len() <= needed,
        decreases needed - draws.len(),
    {
        draws.push(random_draw());
    }
    let ghost s = inputs@;
    let r = balance_inputs_with(inputs, target, &draws);
    proof {
        if s.len() > target {
            lemma_drop_by_draws(s, draws@);
        } else if s.len() < target {
            lemma_dup_by_draws(s, draws@);
        } else {
            assert(s.take(s.len() as int) =~= s);
            assert(s.to_multiset().subset_of(s.to_multiset()));
            lemma_subsequence_refl(s);
        }
    }
    r
}

// ---------------------------------------------------------------------------
// Paths
// ---------------------------------------------------------------------------

/// What `std::path::Path::extension` gives for a path.
pub uninterp spec fn extension_of(path: Seq<char>) -> Option<Seq<char>>;

/// What `std::path::Path::join` gives for a base path and a name.
pub uninterp spec fn joined_path(base: Seq<char>, name: Seq<char>) -> Seq<char>;

/// What `std::path::Path::with_extension` gives for a path and an extension.
pub uninterp spec fn path_with_extension(path: Seq<char>, extension: Seq<char>) -> Seq<char>;

/// The text holds no path separator.
pub open spec fn no_separator(text: Seq<char>) -> bool {
    forall|i: int| 0 <= i < text.len() ==> text[i] != '/'
}

/// `std::path::Path::extension` on `path`: the claim is that the result, read
/// back as text, is `extension_of(path)`, and that it holds no separator, being
/// part of the file name, the last component of the path; what the extension
/// is stays unsaid.
#[verifier::external_body]
fn path_extension(path: &String) -> (r: Option<String>)
    ensures
        match r {
            Some(e) => extension_of(path@) == Some(e@) && no_separator(e@),
            None => extension_of(path@) is None,
        },
{
    match std::path::Path::new(path).extension() {
        Some(e) => Some(e.to_string_lossy().into_owned()),
        None => None,
    }
}

/// `std::path::Path::join` of `base` and `name`: the claim is that the
/// result, read back as text, is `joined_path(base, name)`.
#[verifier::external_body]
fn path_join(base: &String, name: &String) -> (r: String)
    ensures
        r@ == joined_path(base@, name@),
{
    std::path::Path::new(base).join(name).to_string_lossy().into_owned()
}

/// `std::path::Path::with_extension` of `path` and `extension`: the claim is
/// that the result, read back as text, is `path_with_extension(path, extension)`.
/// The call panics on an extension that holds a separator, so such an
/// extension is not admitted.
#[verifier::external_body]
fn path_replace_extension(path: &String, extension: &String) -> (r: String)
    requires
        no_separator(extension@),
    ensures
        r@ == path_with_extension(path@, extension@),
{
    std::path::Path::new(path).with_extension(extension).to_string_lossy().into_owned()
}

/// The position of the last `c` in `s`; -1 when `s` holds no `c`.
pub open spec fn last_index_of(s: Seq<char>, c: char) -> int
    decreases s.len(),
{
    if s.len() == 0 {
        -1
    } else if s.last() == c {
        s.len() - 1
    } else {
        last_index_of(s.drop_last(), c)
    }
}

/// The text after the last separator of a path.
pub open spec fn final_segment(p: Seq<char>) -> Seq<char> {
    p.skip(last_index_of(p, '/') + 1)
}

/// The path ends in a plain file name: it is not empty, has no separator at
/// its end, and its last part is neither `.` nor `..`. Its file name is then
/// its final segment.
pub open spec fn is_plain_file_path(p: Seq<char>) -> bool {
    &&& p.len() > 0
    &&& p.last() != '/'
    &&& final_segment(p) != seq!['.']
    &&& final_segment(p) != seq!['.', '.']
}

/// The extension of a file name: what follows its last dot, when that dot is
/// not the first character of the name; otherwise none.
pub open spec fn name_extension(name: Seq<char>) -> Option<Seq<char>> {
    let q = last_index_of(name, '.');
    if q <= 0 {
        None
    } else {
        Some(name.skip(q + 1))
    }
}

/// The extension that a rename keeps of an input path: for a path that ends
/// in a plain file name, the extension of that name; otherwise what
/// `Path::extension` gives.
pub open spec fn input_extension(p: Seq<char>) -> Option<Seq<char>> {
    if is_plain_file_path(p) {
        name_extension(final_segment(p))
    } else {
        extension_of(p)
    }
}

/// `last_index_of` finds the last occurrence: -1 exactly when there is none,
/// otherwise a position holding `c` with no `c` after it.
pub proof fn lemma_last_index_of(s: Seq<char>, c: char)
    ensures
        -1 <= last_index_of(s, c) < s.len(),
        last_index_of(s, c) == -1 ==> forall|j: int| 0 <= j < s.len() ==> s[j] != c,
        last_index_of(s, c) >= 0 ==> s[last_index_of(s, c)] == c,
        forall|j: int| last_index_of(s, c) < j < s.len() ==> s[j] != c,
    decreases s.len(),
{
    if s.len() > 0 && s.last() != c {
        let t = s.drop_last();
        lemma_last_index_of(t, c);
        assert forall|j: int| last_index_of(s, c) < j < s.len() implies s[j] != c by {
            if j < t.len() {
                assert(s[j] == t[j]);
            }
        }
        assert forall|j: int| last_index_of(s, c) == -1 && 0 <= j < s.len() implies s[j] != c by {
            if j < t.len() {
                assert(s[j] == t[j]);
            }
        }
    }
}

/// The extension kept of a path that ends in a plain file name is the text
/// after the last dot of that name. When there is one, the path ends with a
/// dot and the extension, the extension holds no dot and no separator, and
/// the dot is not the first character of the file name. When there is none,
/// every dot of the path is the first character of the file name or stands
/// before some separator.
pub proof fn lemma_plain_extension(p: Seq<char>)
    requires
        is_plain_file_path(p),
    ensures
        match input_extension(p) {
            Some(e) => {
                &&& e.len() + 2 <= p.len()
                &&& p[p.len() - e.len() - 1] == '.'
                &&& p[p.len() - e.len() - 2] != '/'
                &&& p.skip(p.len() - e.len()) == e
                &&& forall|j: int| 0 <= j < e.len() ==> e[j] != '.' && e[j] != '/'
            },
            None => forall|j: int|
                0 <= j < p.len() && #[trigger] p[j] == '.' ==> (j == 0 || p[j - 1] == '/'
                    || exists|m: int| j < m < p.len() && #[trigger] p[m] == '/'),
        },
{
    let l = last_index_of(p, '/');
    lemma_last_index_of(p, '/');
    let seg = final_segment(p);
    assert(seg == p.skip(l + 1));
    assert forall|j: int| 0 <= j < seg.len() implies seg[j] == p[l + 1 + j] && seg[j] != '/' by {}
    let q = last_index_of(seg, '.');
    lemma_last_index_of(seg, '.');
    match input_extension(p) {
        Some(e) => {
            assert(q > 0);
            assert(e == seg.skip(q + 1));
            assert(p.len() - e.len() - 1 == l + 1 + q);
            assert(p[l + 1 + q] == seg[q]);
            assert(p[l + q] == seg[q - 1]);
            assert(p.skip(p.len() - e.len()) =~= e);
            assert forall|j: int| 0 <= j < e.len() implies e[j] != '.' && e[j] != '/' by {
                assert(e[j] == seg[q + 1 + j]);
            }
        },
        None => {
            assert(q <= 0);
            assert forall|j: int| 0 <= j < p.len() && #[trigger] p[j] == '.' implies (j == 0
                || p[j - 1] == '/' || exists|m: int| j < m < p.len() && #[trigger] p[m] == '/') by {
                if j < l {
                    assert(p[l] == '/');
                } else if j > l {
                    assert(seg[j - l - 1] == p[j]);
                    assert(j - l - 1 == 0);
                    if l >= 0 {
                        assert(p[j - 1] == p[l]);
                    }
                }
            }
        },
    }
}

/// The last position of `c` in `s`, if any.
fn last_index(s: &str, c: char) -> (r: Option<usize>)
    ensures
        match r {
            Some(q) => q as int == last_index_of(s@, c),
            None => last_index_of(s@, c) == -1,
        },
{
    let n = s.unicode_len();
    let mut k = n;
    assert(s@.take(n as int) =~= s@);
    while k > 0
        invariant
            k <= n,
            n == s@.len(),
            last_index_of(s@, c) == last_index_of(s@.take(k as int), c),
        decreases k,
    {
        let x = s.get_char(k - 1);
        assert(s@.take(k as int).last() == s@[k - 1]);
        if x == c {
            return Some(k - 1);
        }
        assert(s@.take(k as int).drop_last() =~= s@.take(k - 1));
        k = k - 1;
    }
    None
}

/// For a path that ends in a plain file name, the extension of that name
/// (`Some`); `None` for any other path.
fn plain_extension(path: &String) -> (r: Option<Option<String>>)
    ensures
        r is Some <==> is_plain_file_path(path@),
        r matches Some(e) ==> match e {
            Some(x) => name_extension(final_segment(path@)) == Some(x@),
            None => name_extension(final_segment(path@)) is None,
        },
{
    let s = path.as_str();
    let n = s.unicode_len();
    if n == 0 {
        return None;
    }
    if s.get_char(n - 1) == '/' {
        return None;
    }
    proof {
        lemma_last_index_of(s@, '/');
    }
    let start = match last_index(s, '/') {
        Some(q) => q + 1,
        None => 0,
    };
    let seg = s.substring_char(start, n);
    assert(seg@ =~= final_segment(path@));
    let m = seg.unicode_len();
    if m == 1 && seg.get_char(0) == '.' {
        assert(seg@ =~= seq!['.']);
        return None;
    }
    if m == 2 && seg.get_char(0) == '.' && seg.get_char(1) == '.' {
        assert(seg@ =~= seq!['.', '.']);
        return None;
    }
    assert(seg@ != seq!['.']) by {
        if seg@ == seq!['.'] {
            assert(seg@[0] == '.');
        }
    }
    assert(seg@ != seq!['.', '.']) by {
        if seg@ == seq!['.', '.'] {
            assert(seg@[0] == '.' && seg@[1] == '.');
        }
    }
    proof {
        lemma_last_index_of(seg@, '.');
    }
    match last_index(seg, '.') {
        Some(q) => {
            if q > 0 {
                let extension = seg.substring_char(q + 1, m).to_owned();
                assert(extension@ =~= seg@.skip(q + 1));
                Some(Some(extension))
            } else {
                Some(None)
            }
        },
        None => Some(None),
    }
}

// ---------------------------------------------------------------------------
// Planning the renames
// ---------------------------------------------------------------------------

/// One copy of a rename: the input file and the path it is copied to.
#[derive(Debug, Clone, PartialEq, Eq)]
pub struct RenameStep {
    pub source: String,
    pub destination: String,
}

/// The copies that a rename makes, in order, and the error it stops with.
#[derive(Debug)]
pub struct RenamePlan {
    pub steps: Vec<RenameStep>,
    pub failure: Option<PCHStdError>,
}

/// Where an input with extension `extension` goes when it takes `name`:
/// the name inside the output folder, with the input's extension.
pub open spec fn destination_of(output: Seq<char>, name: Seq<char>, extension: Seq<char>) -> Seq<
    char,
> {
    path_with_extension(joined_path(output, name), extension)
}

/// `steps` and `failure` are what renaming `inputs` to `names` in the folder
/// `output` does: the input at `i` is copied into the output folder under the
/// name at `i`, keeping its extension, as far as both lists go; it stops
/// before the first input without an extension, with `NoExtension`.
pub open spec fn is_plan_for(
    steps: Seq<RenameStep>,
    failure: Option<PCHStdError>,
    inputs: Seq<String>,
    names: Seq<String>,
    output: Seq<char>,
) -> bool {
    &&& steps.len() <= inputs.len()
    &&& steps.len() <= names.len()
    &&& forall|i: int| 0 <= i < steps.len() ==> input_extension(#[trigger] inputs[i]@) is Some
    &&& forall|i: int| 0 <= i < steps.len() ==> (#[trigger] steps[i]).source@ == inputs[i]@
    &&& forall|i: int|
        0 <= i < steps.len() ==> (#[trigger] steps[i]).destination@ == destination_of(
            output,
            names[i]@,
            input_extension(inputs[i]@)->0,
        )
    &&& failure is None <==> (steps.len() == inputs.len() || steps.len() == names.len())
    &&& failure is Some ==> failure == Some(PCHStdError::NoExtension) && input_extension(
        inputs[steps.len() as int]@,
    ) is None
}

/// Pairs the inputs with the names in order, as far as both go. The input at
/// `i` is copied into the output folder under the name at `i`, keeping its
/// extension. The plan stops before the first input that has no extension,
/// with the error `NoExtension`; the copies before it are still made.
pub fn plan_renames(inputs: &Vec<String>, names: &Vec<String>, output: &String) -> (r: RenamePlan)
    ensures
        is_plan_for(r.steps@, r.failure, inputs@, names@, output@),
{
    let mut steps: Vec<RenameStep> = Vec::new();
    let mut i: usize = 0;
    while i < inputs.len() && i < names.len()
        invariant
            i <= inputs.len(),
            i <= names.len(),
            steps.len() == i,
            forall|k: int| 0 <= k < i ==> input_extension(#[trigger] inputs@[k]@) is Some,
            forall|k: int| 0 <= k < i ==> (#[trigger] steps@[k]).source@ == inputs@[k]@,
            forall|k: int|
                0 <= k < i ==> (#[trigger] steps@[k]).destination@ == destination_of(
                    output@,
                    names@[k]@,
                    input_extension(inputs@[k]@)->0,
                ),
        decreases inputs.len() - i,
    {
        let extension = match plain_extension(&inputs[i]) {
            Some(e) => {
                proof {
                    lemma_plain_extension(inputs@[i as int]@);
                }
                e
            },
            None => path_extension(&inputs[i]),
        };
        match extension {
            None => {
                return RenamePlan { steps, failure: Some(PCHStdError::NoExtension) };
            },
            Some(extension) => {
                let joined = path_join(output, &names[i]);
                let destination = path_replace_extension(&joined, &extension);
                steps.push(RenameStep { source: inputs[i].clone(), destination });
            },
        }
        i = i + 1;
    }
    RenamePlan { steps, failure: None }
}

/// `path` is the path of one of `paths`.
pub open spec fn is_one_of(paths: Seq<String>, path: Seq<char>) -> bool {
    exists|j: int| 0 <= j < paths.len() && #[trigger] paths[j]@ == path
}

/// Decides the copies of a rename of the files `inputs` to the configured
/// `names` in the folder `output`: the inputs are put in path order, brought
/// to as many as there are names by dropping or copying inputs drawn at
/// random, and paired with the names in order. Whatever is drawn, when no
/// input lacks an extension every name receives exactly one file, and every
/// copied file is one of the inputs. Without inputs no name can be filled.
pub fn prepare_renames(inputs: &Vec<String>, names: &Vec<String>, output: &String) -> (r:
    RenamePlan)
    requires
        inputs.len() == 0 ==> names.len() == 0,
    ensures
        exists|ordered: Seq<String>, draws: Seq<usize>|
            {
                &&& crate::mods::order::paths_sorted(ordered)
                &&& ordered.to_multiset() == inputs@.to_multiset()
                &&& draws.len() == draws_needed(inputs.len() as int, names.len() as int)
                &&& #[trigger] is_plan_for(
                    r.steps@,
                    r.failure,
                    balanced(ordered, names.len() as int, draws),
                    names@,
                    output@,
                )
            },
        r.failure is None ==> r.steps.len() == names.len(),
        forall|i: int|
            0 <= i < r.steps.len() ==> is_one_of(inputs@, (#[trigger] r.steps@[i]).source@),
{
    let ordered = crate::mods::order::sort_paths(inputs);
    let ghost ordered_view = ordered@;
    proof {
        assert(ordered@.to_multiset().len() == inputs@.to_multiset().len());
    }
    let balanced_inputs = balance_inputs(ordered, names.len());
    let r = plan_renames(&balanced_inputs, names, output);
    proof {
        assert forall|i: int| 0 <= i < r.steps.len() implies is_one_of(
            inputs@,
            (#[trigger] r.steps@[i]).source@,
        ) by {
            let x = balanced_inputs@[i];
            assert(ordered_view.contains(x));
            assert(ordered_view.to_multiset().count(x) > 0);
            assert(inputs@.to_multiset().count(x) > 0);
            assert(inputs@.contains(x));
            let j = choose|j: int| 0 <= j < inputs@.len() && inputs@[j] == x;
            assert(inputs@[j]@ == r.steps@[i].source@);
        }
    }
    r
}

// ---------------------------------------------------------------------------
// Walking a folder tree
// ---------------------------------------------------------------------------

/// A breadth first walk of a folder tree: the folders still to be listed,
/// first come first served, and the files found so far.
#[derive(Debug)]
pub struct DirWalk {
    pub pending: Vec<String>,
    pub files: Vec<String>,
}

impl DirWalk {
    /// A walk that starts at the folder `root`.
    pub fn new(root: String) -> (w: DirWalk)
        ensures
            w.pending@ == seq![root],
            w.files@ == Seq::<String>::empty(),
    {
        let mut pending: Vec<String> = Vec::new();
        pending.push(root);
        DirWalk { pending, files: Vec::new() }
    }
}

/// Takes in an entry found in a listed folder: a folder is queued to be
/// listed after the ones already waiting, any other entry is a file found.
pub fn walk_step(walk: &mut DirWalk, entry: String, is_dir: bool)
    ensures
        is_dir ==> final(walk).pending@ == old(walk).pending@.push(entry) && final(walk).files@
            == old(walk).files@,
        !is_dir ==> final(walk).files@ == old(walk).files@.push(entry) && final(walk).pending@
            == old(walk).pending@,
{
    if is_dir {
        walk.pending.push(entry);
    } else {
        walk.files.push(entry);
    }
}

/// The next folder to list: the one that has waited longest, taken off the
/// queue; `None` when no folder is left, which ends the walk.
pub fn next_dir(walk: &mut DirWalk) -> (r: Option<String>)
    ensures
        old(walk).pending@.len() == 0 ==> r is None && final(walk).pending@ == old(walk).pending@,
        old(walk).pending@.len() > 0 ==> r == Some(old(walk).pending@[0]) && final(walk).pending@
            == old(walk).pending@.drop_first(),
        final(walk).files@ == old(walk).files@,
{
    if walk.pending.len() == 0 {
        None
    } else {
        let first = walk.pending.remove(0);
        assert(walk.pending@ =~= old(walk).pending@.drop_first());
        Some(first)
    }
}

// ---------------------------------------------------------------------------
// Compression
// ---------------------------------------------------------------------------

/// What a rename does about compression once the files are copied.
#[derive(Debug, Clone, Copy, PartialEq, Eq, Structural)]
pub enum CompressAction {
    /// Nothing was asked for.
    Nothing,
    /// The output folder is packed into `output.zip`.
    Zip,
    /// The output folder is packed into `output.7z`.
    SevenZip,
    /// No compression method was chosen; this is reported as a warning.
    NoCompression,
}

/// The compression step that a choice of compression calls for.
pub open spec fn compress_action_of(compress_type: Option<CompressType>) -> CompressAction {
    match compress_type {
        None => CompressAction::Nothing,
        Some(CompressType::Zip) => CompressAction::Zip,
        Some(CompressType::_7Zip) => CompressAction::SevenZip,
        Some(CompressType::NoCompress) => CompressAction::NoCompression,
    }
}

/// The compression step that a choice of compression calls for.
pub fn compress_action(compress_type: &Option<CompressType>) -> (a: CompressAction)
    ensures
        a == compress_action_of(*compress_type),
{
    match compress_type {
        None => CompressAction::Nothing,
        Some(CompressType::Zip) => CompressAction::Zip,
        Some(CompressType::_7Zip) => CompressAction::SevenZip,
        Some(CompressType::NoCompress) => CompressAction::NoCompression,
    }
}

} // verus!
