//! What a manifest has to be before it drives disk or network work.

use crate::files;
use crate::files::{FileName, FileRef};
use crate::text;
use vstd::prelude::*;

verus! {

/// Why a manifest is refused.
#[derive(Clone, Copy, Debug, PartialEq, Eq, Structural)]
pub enum ManifestError {
    /// A file path is not safe.
    Unsafe,
    /// A file path is not normalized.
    NotNormalized,
    /// Two files would occupy the same path.
    Clash,
    /// The file manifest is too large.
    TooLarge,
}

/// What some files weigh together.
pub open spec fn sum(files: Seq<FileName>) -> nat
    decreases files.len(),
{
    if files.len() == 0 {
        0
    } else {
        sum(files.drop_last()) + files.last().size as nat
    }
}

proof fn lemma_sum_grows(files: Seq<FileName>, n: int)
    requires
        0 <= n <= files.len(),
    ensures
        sum(files.take(n)) <= sum(files),
    decreases files.len() - n,
{
    if n < files.len() {
        lemma_sum_grows(files, n + 1);
        assert(files.take(n + 1).drop_last() =~= files.take(n));
    } else {
        assert(files.take(n) =~= files);
    }
}

/// What a selection of files weighs.
pub fn total(files: &[FileRef]) -> (result: Result<u64, ManifestError>)
    ensures
        match result {
            Ok(size) => size == sum(files::manifest(files@)),
            Err(error) => error == ManifestError::TooLarge && sum(files::manifest(files@))
                > u64::MAX,
        },
{
    let ghost all = files::manifest(files@);
    let mut size: u64 = 0;
    let mut i: usize = 0;
    while i < files.len()
        invariant
            i <= files.len(),
            all == files::manifest(files@),
            size == sum(all.take(i as int)),
        decreases files.len() - i,
    {
        assert(all.take(i + 1).drop_last() =~= all.take(i as int));
        assert(all[i as int] == files@[i as int]@);
        match size.checked_add(files[i].size) {
            Some(more) => {
                size = more;
            },
            None => {
                proof {
                    lemma_sum_grows(all, i + 1);
                }
                return Err(ManifestError::TooLarge);
            },
        }
        i += 1;
    }
    assert(all.take(i as int) =~= all);
    Ok(size)
}

/// Whether a path lies under another: it goes on with a separator where the
/// other ends.
pub open spec fn under(inner: Seq<char>, outer: Seq<char>) -> bool {
    &&& outer.len() < inner.len()
    &&& outer.is_prefix_of(inner)
    &&& inner[outer.len() as int] == '/'
}

/// Whether two files would occupy the same path: two of the paths are the
/// same, or one lies under another with no other path between the two in
/// their order.
pub open spec fn clash(paths: Seq<Seq<char>>) -> bool {
    ||| exists|i: int, j: int|
        0 <= i < j < paths.len() && #[trigger] paths[i] == #[trigger] paths[j]
    ||| exists|i: int, j: int|
        0 <= i < paths.len() && 0 <= j < paths.len() && under(
            #[trigger] paths[j],
            #[trigger] paths[i],
        ) && !between(paths, paths[i], paths[j])
}

/// Whether some path comes after one and before another.
pub open spec fn between(paths: Seq<Seq<char>>, low: Seq<char>, high: Seq<char>) -> bool {
    exists|k: int|
        0 <= k < paths.len() && text::before(low, #[trigger] paths[k]) && text::before(
            paths[k],
            high,
        )
}

/// Whether two paths side by side in their order clash.
pub open spec fn adjacent_clash(a: Seq<char>, b: Seq<char>) -> bool {
    a == b || under(b, a)
}

/// Whether a place is among some.
pub open spec fn placed(order: Seq<usize>, i: int) -> bool {
    exists|a: int| 0 <= a < order.len() && #[trigger] order[a] == i
}

/// Whether some places are all the places below `n`, in the order of the
/// paths there.
pub open spec fn is_sorted(order: Seq<usize>, paths: Seq<Seq<char>>, n: int) -> bool {
    &&& order.len() == n
    &&& forall|a: int| 0 <= a < order.len() ==> 0 <= #[trigger] order[a] < n
    &&& forall|a: int, b: int|
        0 <= a < b < order.len() ==> #[trigger] order[a] != #[trigger] order[b]
    &&& forall|i: int| 0 <= i < n ==> #[trigger] placed(order, i)
    &&& forall|a: int, b: int|
        0 <= a < b < order.len() ==> !text::before(
            paths[#[trigger] order[b] as int],
            paths[#[trigger] order[a] as int],
        )
}

/// A path that lies under another comes after it.
proof fn lemma_under_comes_after(inner: Seq<char>, outer: Seq<char>)
    requires
        under(inner, outer),
    ensures
        text::before(outer, inner),
    decreases outer.len(),
{
    if outer.len() > 0 {
        assert(outer[0] == inner.subrange(0, outer.len() as int)[0]);
        let a = inner.skip(1);
        let b = outer.skip(1);
        assert(b =~= a.subrange(0, b.len() as int)) by {
            assert forall|i: int| 0 <= i < b.len() implies b[i] == a[i] by {
                assert(outer[i + 1] == inner.subrange(0, outer.len() as int)[i + 1]);
            }
        }
        assert(a[b.len() as int] == inner[outer.len() as int]);
        lemma_under_comes_after(a, b);
    }
}

/// Some paths clash when two of them do that are side by side in their order,
/// and only then.
proof fn lemma_clash(order: Seq<usize>, paths: Seq<Seq<char>>)
    requires
        is_sorted(order, paths, paths.len() as int),
    ensures
        clash(paths) == exists|a: int|
            0 <= a < order.len() - 1 && adjacent_clash(
                paths[#[trigger] order[a] as int],
                paths[order[a + 1] as int],
            ),
{
    let adjacent = exists|a: int|
        0 <= a < order.len() - 1 && adjacent_clash(
            paths[#[trigger] order[a] as int],
            paths[order[a + 1] as int],
        );
    if adjacent {
        let a = choose|a: int|
            0 <= a < order.len() - 1 && adjacent_clash(
                paths[#[trigger] order[a] as int],
                paths[order[a + 1] as int],
            );
        let i = order[a] as int;
        let j = order[a + 1] as int;
        assert(i != j);
        if paths[i] == paths[j] {
            if i < j {
                assert(paths[i] == paths[j]);
            } else {
                assert(paths[j] == paths[i]);
            }
        } else {
            assert(!between(paths, paths[i], paths[j])) by {
                if between(paths, paths[i], paths[j]) {
                    let k = choose|k: int|
                        0 <= k < paths.len() && text::before(paths[i], #[trigger] paths[k])
                            && text::before(paths[k], paths[j]);
                    assert(placed(order, k));
            let b = choose|b: int| 0 <= b < order.len() && #[trigger] order[b] == k;
                    text::lemma_before_is_total(paths[i], paths[i]);
                    text::lemma_before_is_total(paths[j], paths[j]);
                    if b < a {
                        assert(!text::before(paths[order[a] as int], paths[order[b] as int]));
                    } else if b > a + 1 {
                        assert(!text::before(paths[order[b] as int], paths[order[a + 1] as int]));
                    }
                }
            }
            assert(under(paths[j], paths[i]));
        }
    }
    if clash(paths) {
        if exists|i: int, j: int|
            0 <= i < j < paths.len() && #[trigger] paths[i] == #[trigger] paths[j] {
            let (i, j) = choose|i: int, j: int|
                0 <= i < j < paths.len() && #[trigger] paths[i] == #[trigger] paths[j];
            assert(placed(order, i));
            let x = choose|x: int| 0 <= x < order.len() && #[trigger] order[x] == i;
            assert(placed(order, j));
            let y = choose|y: int| 0 <= y < order.len() && #[trigger] order[y] == j;
            let a = if x < y {
                x
            } else {
                y
            };
            let b = if x < y {
                y
            } else {
                x
            };
            lemma_side_by_side(order, paths, a, b);
        } else {
            let (i, j) = choose|i: int, j: int|
                0 <= i < paths.len() && 0 <= j < paths.len() && under(
                    #[trigger] paths[j],
                    #[trigger] paths[i],
                ) && !between(paths, paths[i], paths[j]);
            assert(placed(order, i));
            let a = choose|a: int| 0 <= a < order.len() && #[trigger] order[a] == i;
            assert(placed(order, j));
            let b = choose|b: int| 0 <= b < order.len() && #[trigger] order[b] == j;
            lemma_under_comes_after(paths[j], paths[i]);
            text::lemma_before_is_total(paths[i], paths[j]);
            if b < a {
                assert(!text::before(paths[order[a] as int], paths[order[b] as int]));
            }
            assert(a != b) by {
                text::lemma_before_is_total(paths[i], paths[i]);
            }
            let k = order[a + 1] as int;
            if a + 1 < b {
                assert(!text::before(paths[order[b] as int], paths[order[a + 1] as int]));
            }
            assert(!text::before(paths[order[a + 1] as int], paths[order[a] as int]));
            text::lemma_before_is_total(paths[i], paths[k]);
            text::lemma_before_is_total(paths[k], paths[j]);
            if paths[k] != paths[i] && paths[k] != paths[j] {
                assert(text::before(paths[i], paths[k]) && text::before(paths[k], paths[j]));
                assert(between(paths, paths[i], paths[j]));
            }
            assert(adjacent_clash(paths[order[a] as int], paths[order[a + 1] as int]));
        }
    }
}

proof fn lemma_side_by_side(order: Seq<usize>, paths: Seq<Seq<char>>, a: int, b: int)
    requires
        is_sorted(order, paths, paths.len() as int),
        0 <= a < b < order.len(),
        paths[order[a] as int] == paths[order[b] as int],
    ensures
        adjacent_clash(paths[order[a] as int], paths[order[a + 1] as int]),
{
    let p = paths[order[a] as int];
    let q = paths[order[a + 1] as int];
    assert(!text::before(q, p));
    if a + 1 < b {
        assert(!text::before(paths[order[b] as int], paths[order[a + 1] as int]));
    }
    text::lemma_before_is_total(p, q);
}

/// The place at which a path comes into some that are in order.
fn find_place(paths: &Vec<Vec<char>>, order: &Vec<usize>, i: usize) -> (at: usize)
    requires
        i < paths@.len(),
        is_sorted(order@, files::views(paths@), i as int),
    ensures
        at <= order@.len(),
        forall|a: int|
            0 <= a < at ==> !text::before(
                paths@[i as int]@,
                paths@[#[trigger] order@[a] as int]@,
            ),
        forall|a: int|
            at <= a < order@.len() ==> !text::before(
                paths@[#[trigger] order@[a] as int]@,
                paths@[i as int]@,
            ),
{
    let mut low: usize = 0;
    let mut high: usize = order.len();
    let ghost all = files::views(paths@);
    while low < high
        invariant
            low <= high <= order@.len(),
            i < paths@.len(),
            all == files::views(paths@),
            is_sorted(order@, all, i as int),
            forall|a: int|
                0 <= a < low ==> !text::before(
                    paths@[i as int]@,
                    paths@[#[trigger] order@[a] as int]@,
                ),
            forall|a: int|
                high <= a < order@.len() ==> !text::before(
                    paths@[#[trigger] order@[a] as int]@,
                    paths@[i as int]@,
                ),
        decreases high - low,
    {
        let middle: usize = low + (high - low) / 2;
        let other: usize = order[middle];
        let ghost mine = paths@[i as int]@;
        let ghost theirs = paths@[other as int]@;
        assert(all[other as int] == theirs);
        if text::is_before(paths[i].as_slice(), paths[other].as_slice()) {
            assert forall|a: int| middle <= a < order@.len() implies !text::before(
                paths@[#[trigger] order@[a] as int]@,
                mine,
            ) by {
                let far = paths@[order@[a] as int]@;
                assert(all[order@[a] as int] == far);
                if a > middle {
                    assert(!text::before(all[order@[a] as int], all[order@[middle as int] as int]));
                }
                if text::before(far, mine) {
                    text::lemma_before_is_transitive(far, mine, theirs);
                    text::lemma_before_is_total(far, far);
                }
            }
            high = middle;
        } else {
            assert forall|a: int| 0 <= a < middle + 1 implies !text::before(
                mine,
                paths@[#[trigger] order@[a] as int]@,
            ) by {
                let far = paths@[order@[a] as int]@;
                assert(all[order@[a] as int] == far);
                if a < middle {
                    assert(!text::before(all[order@[middle as int] as int], all[order@[a] as int]));
                }
                if text::before(mine, far) {
                    text::lemma_before_is_total(theirs, far);
                    text::lemma_before_is_total(mine, theirs);
                    if text::before(far, theirs) {
                        text::lemma_before_is_transitive(mine, far, theirs);
                    }
                }
            }
            low = middle + 1;
        }
    }
    low
}

/// The places of some paths, in the order of the paths.
pub fn sorted(paths: &Vec<Vec<char>>) -> (order: Vec<usize>)
    ensures
        is_sorted(order@, files::views(paths@), paths@.len() as int),
{
    let mut order: Vec<usize> = Vec::new();
    let mut i: usize = 0;
    while i < paths.len()
        invariant
            i <= paths.len(),
            is_sorted(order@, files::views(paths@), i as int),
        decreases paths.len() - i,
    {
        let at = find_place(paths, &order, i);
        let ghost before = order@;
        order.insert(at, i);
        proof {
            lemma_inserted(before, files::views(paths@), i, at as int);
        }
        i += 1;
    }
    order
}

proof fn lemma_inserted(order: Seq<usize>, paths: Seq<Seq<char>>, i: usize, at: int)
    requires
        i < paths.len(),
        is_sorted(order, paths, i as int),
        0 <= at <= order.len(),
        forall|a: int|
            0 <= a < at ==> !text::before(paths[i as int], paths[#[trigger] order[a] as int]),
        forall|a: int|
            at <= a < order.len() ==> !text::before(
                paths[#[trigger] order[a] as int],
                paths[i as int],
            ),
    ensures
        is_sorted(order.insert(at, i), paths, i + 1),
{
    let after = order.insert(at, i);
    assert forall|a: int| 0 <= a < after.len() implies 0 <= #[trigger] after[a] < i + 1 by {
        if a < at {
            assert(after[a] == order[a]);
        } else if a > at {
            assert(after[a] == order[a - 1]);
        }
    }
    assert forall|a: int, b: int| 0 <= a < b < after.len() implies #[trigger] after[a]
        != #[trigger] after[b] && !text::before(paths[after[b] as int], paths[after[a] as int]) by {
        let x = if a < at {
            a
        } else {
            a - 1
        };
        let y = if b < at {
            b
        } else {
            b - 1
        };
        if a != at && b != at {
            assert(order[x] != order[y]);
        } else if a == at {
            assert(after[b] == order[y]);
        } else {
            assert(after[a] == order[x]);
        }
    }
    assert forall|j: int| 0 <= j < i + 1 implies #[trigger] placed(after, j) by {
        if j == i {
            assert(after[at] == j);
        } else {
            assert(placed(order, j));
            let a = choose|a: int| 0 <= a < order.len() && #[trigger] order[a] == j;
            if a < at {
                assert(after[a] == j);
            } else {
                assert(after[a + 1] == j);
            }
        }
    }
}

/// Whether a path lies under another.
fn is_under(inner: &[char], outer: &[char]) -> (r: bool)
    ensures
        r == under(inner@, outer@),
{
    if outer.len() >= inner.len() || inner[outer.len()] != '/' {
        return false;
    }
    let mut i: usize = 0;
    while i < outer.len()
        invariant
            i <= outer.len() < inner.len(),
            inner@[outer@.len() as int] == '/',
            forall|j: int| 0 <= j < i ==> #[trigger] outer@[j] == inner@[j],
        decreases outer.len() - i,
    {
        if outer[i] != inner[i] {
            assert(outer@[i as int] != inner@.subrange(0, outer@.len() as int)[i as int]);
            return false;
        }
        i += 1;
    }
    assert(outer@ =~= inner@.subrange(0, outer@.len() as int));
    true
}

/// Whether two texts are the same, character by character.
pub fn same_chars(a: &[char], b: &[char]) -> (r: bool)
    ensures
        r == (a@ == b@),
{
    if a.len() != b.len() {
        return false;
    }
    let mut i: usize = 0;
    while i < a.len()
        invariant
            i <= a.len(),
            a@.len() == b@.len(),
            forall|j: int| 0 <= j < i ==> #[trigger] a@[j] == b@[j],
        decreases a.len() - i,
    {
        if a[i] != b[i] {
            return false;
        }
        i += 1;
    }
    assert(a@ =~= b@);
    true
}

/// The paths of some files.
pub open spec fn paths_of(files: Seq<FileName>) -> Seq<Seq<char>> {
    files.map_values(|file: FileName| file.path)
}

/// Why a manifest is refused, if it is.
pub open spec fn refusal(files: Seq<FileName>) -> Option<ManifestError> {
    if exists|i: int| 0 <= i < files.len() && !files::safe((#[trigger] files[i]).path) {
        Some(ManifestError::Unsafe)
    } else if exists|i: int| 0 <= i < files.len() && !files::normalized((#[trigger] files[i]).path) {
        Some(ManifestError::NotNormalized)
    } else if clash(paths_of(files)) {
        Some(ManifestError::Clash)
    } else if sum(files) > u64::MAX {
        Some(ManifestError::TooLarge)
    } else {
        None
    }
}

/// Checks the manifest before it drives disk or network work.
pub fn validate(files: &[FileRef]) -> (result: Result<(), ManifestError>)
    ensures
        match result {
            Ok(_) => refusal(files::manifest(files@)) is None,
            Err(error) => refusal(files::manifest(files@)) == Some(error),
        },
{
    let ghost all = files::manifest(files@);
    let mut i: usize = 0;
    while i < files.len()
        invariant
            i <= files.len(),
            all == files::manifest(files@),
            forall|j: int| 0 <= j < i ==> files::safe((#[trigger] all[j]).path),
        decreases files.len() - i,
    {
        assert(all[i as int] == files@[i as int]@);
        if !files[i].is_safe() {
            return Err(ManifestError::Unsafe);
        }
        i += 1;
    }
    let mut i: usize = 0;
    while i < files.len()
        invariant
            i <= files.len(),
            all == files::manifest(files@),
            forall|j: int| 0 <= j < all.len() ==> files::safe((#[trigger] all[j]).path),
            forall|j: int| 0 <= j < i ==> files::normalized((#[trigger] all[j]).path),
        decreases files.len() - i,
    {
        assert(all[i as int] == files@[i as int]@);
        if !files[i].is_normalized() {
            return Err(ManifestError::NotNormalized);
        }
        i += 1;
    }
    let mut paths: Vec<Vec<char>> = Vec::new();
    let mut i: usize = 0;
    while i < files.len()
        invariant
            i <= files.len(),
            all == files::manifest(files@),
            files::views(paths@) == paths_of(all).take(i as int),
        decreases files.len() - i,
    {
        let ghost before = files::views(paths@);
        assert(all[i as int] == files@[i as int]@);
        paths.push(text::chars_of(files[i].path.as_str()));
        assert(files::views(paths@) =~= before.push(all[i as int].path));
        i += 1;
        assert(files::views(paths@) =~= paths_of(all).take(i as int));
    }
    assert(files::views(paths@) =~= paths_of(all));
    let order = sorted(&paths);
    proof {
        lemma_clash(order@, paths_of(all));
    }
    let mut a: usize = 1;
    while a < order.len()
        invariant
            1 <= a,
            order@.len() == paths@.len(),
            files::views(paths@) == paths_of(all),
            is_sorted(order@, paths_of(all), paths@.len() as int),
            forall|j: int| 0 <= j < all.len() ==> files::safe((#[trigger] all[j]).path),
            forall|j: int| 0 <= j < all.len() ==> files::normalized((#[trigger] all[j]).path),
            all == files::manifest(files@),
            clash(paths_of(all)) == exists|a: int|
                0 <= a < order@.len() - 1 && adjacent_clash(
                    paths_of(all)[#[trigger] order@[a] as int],
                    paths_of(all)[order@[a + 1] as int],
                ),
            forall|b: int|
                0 <= b < a - 1 && b < order@.len() - 1 ==> !adjacent_clash(
                    paths_of(all)[#[trigger] order@[b] as int],
                    paths_of(all)[order@[b + 1] as int],
                ),
        decreases order.len() - a,
    {
        let first: usize = order[a - 1];
        let second: usize = order[a];
        assert(files::views(paths@)[first as int] == paths@[first as int]@);
        assert(files::views(paths@)[second as int] == paths@[second as int]@);
        if same_chars(paths[first].as_slice(), paths[second].as_slice()) || is_under(
            paths[second].as_slice(),
            paths[first].as_slice(),
        ) {
            assert(adjacent_clash(
                paths_of(all)[order@[a - 1] as int],
                paths_of(all)[order@[a - 1 + 1] as int],
            ));
            return Err(ManifestError::Clash);
        }
        a += 1;
    }
    match total(files) {
        Ok(_) => Ok(()),
        Err(error) => Err(error),
    }
}

/// Whether a path is another, or lies under it.
pub open spec fn collide(a: Seq<char>, b: Seq<char>) -> bool {
    a == b || b.push('/').is_prefix_of(a) || a.push('/').is_prefix_of(b)
}

proof fn lemma_under(inner: Seq<char>, outer: Seq<char>)
    ensures
        under(inner, outer) <==> outer.push('/').is_prefix_of(inner),
{
    let more = outer.push('/');
    if under(inner, outer) {
        assert(more =~= inner.subrange(0, more.len() as int)) by {
            assert forall|i: int| 0 <= i < outer.len() implies outer[i] == inner[i] by {
                assert(outer[i] == inner.subrange(0, outer.len() as int)[i]);
            }
        }
    }
    if more.is_prefix_of(inner) {
        assert(inner[outer.len() as int] == inner.subrange(0, more.len() as int)[outer.len() as int]);
        assert(more[outer.len() as int] == '/');
        assert(outer =~= inner.subrange(0, outer.len() as int)) by {
            assert forall|i: int| 0 <= i < outer.len() implies outer[i] == inner[i] by {
                assert(more[i] == inner.subrange(0, more.len() as int)[i]);
            }
        }
    }
}

/// A manifest is taken when every path of it may be created under a root, no
/// part of one is empty, no two collide, and the sizes can be added up; and one
/// that is taken has no path that may not be created, none with an empty part,
/// and none twice.
pub proof fn a_manifest_of_proper_paths_is_taken(files: Seq<FileName>)
    ensures
        (forall|i: int|
            0 <= i < files.len() ==> files::safe((#[trigger] files[i]).path) && files::normalized(
                files[i].path,
            )) && (forall|i: int, j: int|
            0 <= i < j < files.len() ==> !collide(
                (#[trigger] files[i]).path,
                (#[trigger] files[j]).path,
            )) && sum(files) <= u64::MAX ==> refusal(files) is None,
        refusal(files) is None ==> sum(files) <= u64::MAX && (forall|i: int|
            0 <= i < files.len() ==> files::safe((#[trigger] files[i]).path) && files::normalized(
                files[i].path,
            )) && (forall|i: int, j: int|
            0 <= i < j < files.len() ==> (#[trigger] files[i]).path != (#[trigger] files[j]).path),
        refusal(Seq::empty()) is None,
{
    let paths = paths_of(files);
    if (forall|i: int, j: int|
        0 <= i < j < files.len() ==> !collide(
            (#[trigger] files[i]).path,
            (#[trigger] files[j]).path,
        )) && clash(paths) {
        if exists|i: int, j: int|
            0 <= i < j < paths.len() && #[trigger] paths[i] == #[trigger] paths[j] {
            let (i, j) = choose|i: int, j: int|
                0 <= i < j < paths.len() && #[trigger] paths[i] == #[trigger] paths[j];
            assert(collide(files[i].path, files[j].path));
        } else {
            let (i, j) = choose|i: int, j: int|
                0 <= i < paths.len() && 0 <= j < paths.len() && under(
                    #[trigger] paths[j],
                    #[trigger] paths[i],
                ) && !between(paths, paths[i], paths[j]);
            lemma_under(paths[j], paths[i]);
            assert(files[i].path == paths[i] && files[j].path == paths[j]);
            if i < j {
                assert(collide(files[i].path, files[j].path));
            } else if j < i {
                assert(collide(files[j].path, files[i].path));
            }
        }
    }
    if refusal(files) is None {
        assert forall|i: int, j: int| 0 <= i < j < files.len() implies (#[trigger] files[i]).path
            != (#[trigger] files[j]).path by {
            assert(paths[i] == files[i].path && paths[j] == files[j].path);
        }
    }
    let none = Seq::<FileName>::empty();
    assert(paths_of(none).len() == 0);
    assert(sum(none) == 0);
}


} // verus!
