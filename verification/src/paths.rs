use vstd::prelude::*;
use vstd::string::StringSliceAdditionalSpecFns;
use crate::bytes::{bytes_equal, bytes_lt, compare_bytes, lemma_bytes_lt_total, lemma_bytes_lt_irreflexive, lemma_bytes_lt_transitive};
use crate::errors::GuardianError;
use crate::unix_path::{joined_path, lemma_joined_components, lemma_no_components_empty, lemma_stripped_rest_components, lemma_stripped_rest_keeps, lemma_stripped_rest_none, path_components, stripped_rest, strip_components, unix_components};
use vstd::utf8::*;
use crate::strings::{forward_slash_bytes, forward_slashes, lemma_encode_forward_slashes, lemma_forward_slashes_no_backslash, replace_backslashes, string_from_utf8_lossy, utf8_lossy};


verus! {

/// The name of the encrypted baseline that a scan writes.
pub const BASELINE_FILE: &'static str = "baseline.enc";

/// The name of the report that a check writes.
pub const REPORT_FILE: &'static str = "report.txt";

/// One component of a file path, as a path's component iterator yields it
/// on Unix (a `Normal` component holds the bytes of its name).
#[derive(Debug, PartialEq, Eq)]
pub enum PathPart {
    RootDir,
    CurDir,
    ParentDir,
    Normal(Vec<u8>),
}

/// A component is seen as its rank among the kinds of components, in the
/// order in which they are declared, and the bytes of a normal name.
impl View for PathPart {
    type V = (nat, Seq<u8>);

    open spec fn view(&self) -> (nat, Seq<u8>) {
        match self {
            PathPart::RootDir => (0, Seq::empty()),
            PathPart::CurDir => (1, Seq::empty()),
            PathPart::ParentDir => (2, Seq::empty()),
            PathPart::Normal(name) => (3, name@),
        }
    }
}

/// The components of a path, each by its view.
pub open spec fn path_view(path: Seq<PathPart>) -> Seq<(nat, Seq<u8>)> {
    path.map_values(|p: PathPart| p@)
}

/// The order of two components: by kind, then normal names by their bytes.
pub open spec fn part_lt(x: (nat, Seq<u8>), y: (nat, Seq<u8>)) -> bool {
    x.0 < y.0 || (x.0 == y.0 && bytes_lt(x.1, y.1))
}

/// The order of paths: lexicographic over their components.
pub open spec fn path_lt(a: Seq<(nat, Seq<u8>)>, b: Seq<(nat, Seq<u8>)>) -> bool
    decreases a.len(),
{
    if a.len() == 0 {
        b.len() > 0
    } else if b.len() == 0 {
        false
    } else if a[0] != b[0] {
        part_lt(a[0], b[0])
    } else {
        path_lt(a.drop_first(), b.drop_first())
    }
}

/// No path comes before itself.
pub proof fn lemma_path_lt_irreflexive(a: Seq<(nat, Seq<u8>)>)
    ensures
        !path_lt(a, a),
    decreases a.len(),
{
    if a.len() > 0 {
        lemma_path_lt_irreflexive(a.drop_first());
    }
}

proof fn lemma_part_lt_transitive(x: (nat, Seq<u8>), y: (nat, Seq<u8>), z: (nat, Seq<u8>))
    requires
        part_lt(x, y),
        part_lt(y, z),
    ensures
        part_lt(x, z),
        x != z,
{
    if x.0 == y.0 && y.0 == z.0 {
        lemma_bytes_lt_transitive(x.1, y.1, z.1);
        lemma_bytes_lt_irreflexive(x.1);
    }
}

/// The order of paths is transitive.
pub proof fn lemma_path_lt_transitive(
    a: Seq<(nat, Seq<u8>)>,
    b: Seq<(nat, Seq<u8>)>,
    c: Seq<(nat, Seq<u8>)>,
)
    requires
        path_lt(a, b),
        path_lt(b, c),
    ensures
        path_lt(a, c),
    decreases a.len(),
{
    if a.len() > 0 && b.len() > 0 && c.len() > 0 {
        if a[0] != b[0] && b[0] != c[0] {
            lemma_part_lt_transitive(a[0], b[0], c[0]);
        } else if a[0] == b[0] && b[0] == c[0] {
            lemma_path_lt_transitive(a.drop_first(), b.drop_first(), c.drop_first());
        }
    }
}

fn part_rank(p: &PathPart) -> (r: u8)
    ensures
        r as nat == p@.0,
{
    match p {
        PathPart::RootDir => 0,
        PathPart::CurDir => 1,
        PathPart::ParentDir => 2,
        PathPart::Normal(_) => 3,
    }
}

/// Three-way comparison of two components.
pub fn compare_parts(x: &PathPart, y: &PathPart) -> (r: i8)
    ensures
        (r == 0) == (x@ == y@),
        (r < 0) == part_lt(x@, y@),
        (r > 0) == part_lt(y@, x@),
{
    let rx = part_rank(x);
    let ry = part_rank(y);
    if rx < ry {
        -1
    } else if rx > ry {
        1
    } else {
        match (x, y) {
            (PathPart::Normal(a), PathPart::Normal(b)) => compare_bytes(a.as_slice(), b.as_slice()),
            _ => 0,
        }
    }
}

/// Whether path `a` comes before path `b`.
pub fn path_less(a: &Vec<PathPart>, b: &Vec<PathPart>) -> (r: bool)
    ensures
        r == path_lt(path_view(a@), path_view(b@)),
{
    let ghost va = path_view(a@);
    let ghost vb = path_view(b@);
    assert(va.skip(0) =~= va);
    assert(vb.skip(0) =~= vb);
    let mut i: usize = 0;
    while i < a.len() && i < b.len()
        invariant
            i <= a.len(),
            i <= b.len(),
            va == path_view(a@),
            vb == path_view(b@),
            path_lt(va, vb) == path_lt(va.skip(i as int), vb.skip(i as int)),
        decreases a.len() - i,
    {
        let c = compare_parts(&a[i], &b[i]);
        if c != 0 {
            return c < 0;
        }
        assert(va.skip(i as int).drop_first() =~= va.skip(i + 1));
        assert(vb.skip(i as int).drop_first() =~= vb.skip(i + 1));
        i = i + 1;
    }
    i < b.len()
}

/// Paths in order: no later path comes before an earlier one.
pub open spec fn paths_sorted(s: Seq<Vec<u8>>) -> bool {
    forall|i: int, j: int|
        0 <= i < j < s.len() ==> !path_lt(unix_components(s[j]@), unix_components(s[i]@))
}

/// Whether path `a` comes before path `b` (their bytes), component by
/// component.
pub fn raw_path_less(a: &[u8], b: &[u8]) -> (r: bool)
    ensures
        r == path_lt(unix_components(a@), unix_components(b@)),
{
    path_less(&path_components(a), &path_components(b))
}

/// Sorts the files found under a folder (their paths' bytes) in the order
/// of paths, component by component, keeping each file once per occurrence.
pub fn get_all_files(files: Vec<Vec<u8>>) -> (sorted: Vec<Vec<u8>>)
    ensures
        sorted@.to_multiset() == files@.to_multiset(),
        paths_sorted(sorted@),
{
    broadcast use vstd::seq_lib::group_to_multiset_ensures;

    let mut remaining = files;
    let mut sorted: Vec<Vec<u8>> = Vec::new();
    while remaining.len() > 0
        invariant
            sorted@.to_multiset().add(remaining@.to_multiset()) == files@.to_multiset(),
            paths_sorted(sorted@),
            forall|i: int, k: int|
                0 <= i < sorted.len() && 0 <= k < remaining.len() ==> !path_lt(
                    unix_components(remaining@[k]@),
                    unix_components(sorted@[i]@),
                ),
        decreases remaining.len(),
    {
        let mut best: usize = 0;
        let mut j: usize = 1;
        proof {
            lemma_path_lt_irreflexive(unix_components(remaining@[0]@));
        }
        while j < remaining.len()
            invariant
                best < remaining.len(),
                1 <= j <= remaining.len(),
                forall|k: int|
                    0 <= k < j ==> !path_lt(
                        unix_components(remaining@[k]@),
                        unix_components(remaining@[best as int]@),
                    ),
            decreases remaining.len() - j,
        {
            if raw_path_less(remaining[j].as_slice(), remaining[best].as_slice()) {
                proof {
                    let vj = unix_components(remaining@[j as int]@);
                    let vb = unix_components(remaining@[best as int]@);
                    assert forall|k: int| 0 <= k <= j implies !path_lt(
                        unix_components(remaining@[k]@),
                        vj,
                    ) by {
                        if k == j {
                            lemma_path_lt_irreflexive(vj);
                        } else if path_lt(unix_components(remaining@[k]@), vj) {
                            lemma_path_lt_transitive(unix_components(remaining@[k]@), vj, vb);
                        }
                    }
                }
                best = j;
            }
            j = j + 1;
        }
        let ghost before = remaining@;
        let ghost sorted_before = sorted@;
        let next = remaining.remove(best);
        proof {
            before.to_multiset_ensures();
            sorted_before.to_multiset_ensures();
            assert(next == before[best as int]);
            assert(before.remove(best as int).to_multiset() =~= before.to_multiset().remove(
                next,
            ));
            assert(before.to_multiset().count(next) > 0) by {
                assert(before.contains(next));
            }
        }
        sorted.push(next);
        proof {
            assert(sorted@.to_multiset().add(remaining@.to_multiset()) =~= files@.to_multiset());
            assert forall|i: int, k: int|
                0 <= i < sorted.len() && 0 <= k < remaining.len() implies !path_lt(
                unix_components(remaining@[k]@),
                unix_components(sorted@[i]@),
            ) by {
                if k < best {
                    assert(remaining@[k] == before[k]);
                } else {
                    assert(remaining@[k] == before[k + 1]);
                }
                if i < sorted.len() - 1 {
                    assert(sorted@[i] == sorted_before[i]);
                }
            }
            assert forall|i: int, k: int| 0 <= i < k < sorted.len() implies !path_lt(
                unix_components(sorted@[k]@),
                unix_components(sorted@[i]@),
            ) by {
                if k < sorted.len() - 1 {
                    assert(sorted@[k] == sorted_before[k]);
                    assert(sorted@[i] == sorted_before[i]);
                } else {
                    assert(sorted@[i] == sorted_before[i]);
                    assert(sorted@[k] == before[best as int]);
                }
            }
        }
    }
    sorted
}

/// Of two paths with different components, one comes before the other.
pub proof fn lemma_path_lt_total(a: Seq<(nat, Seq<u8>)>, b: Seq<(nat, Seq<u8>)>)
    requires
        a != b,
    ensures
        path_lt(a, b) || path_lt(b, a),
    decreases a.len(),
{
    if a.len() > 0 && b.len() > 0 {
        if a[0] == b[0] {
            if a.drop_first() == b.drop_first() {
                assert(a =~= seq![a[0]] + a.drop_first());
                assert(b =~= seq![b[0]] + b.drop_first());
            }
            lemma_path_lt_total(a.drop_first(), b.drop_first());
        } else if a[0].0 == b[0].0 {
            lemma_bytes_lt_total(a[0].1, b[0].1);
        }
    } else if a.len() == 0 && b.len() == 0 {
        assert(a =~= b);
    }
}

/// Sorting the files of a folder gives one answer whatever order they were
/// found in: two sorted lists of the same files (counted with repeats) have
/// the same components at every position. (Paths with the same components
/// are equal paths.)
pub proof fn lemma_sorted_files_unique(a: Seq<Vec<u8>>, b: Seq<Vec<u8>>)
    requires
        paths_sorted(a),
        paths_sorted(b),
        a.to_multiset() == b.to_multiset(),
    ensures
        a.len() == b.len(),
        forall|i: int| 0 <= i < a.len() ==> unix_components(#[trigger] a[i]@) == unix_components(b[i]@),
    decreases a.len(),
{
    broadcast use vstd::seq_lib::group_to_multiset_ensures;

    a.to_multiset_ensures();
    b.to_multiset_ensures();
    if a.len() == 0 {
        assert(b.len() == 0);
    } else {
        let x = a[0];
        assert(a.contains(x));
        assert(b.to_multiset().count(x) > 0);
        assert(b.contains(x));
        let j = choose|j: int| 0 <= j < b.len() && b[j] == x;
        assert(b.len() > 0);
        let y = b[0];
        assert(b.contains(y));
        assert(a.to_multiset().count(y) > 0);
        assert(a.contains(y));
        let i0 = choose|i: int| 0 <= i < a.len() && a[i] == y;
        let kx = unix_components(x@);
        let ky = unix_components(y@);
        if i0 == 0 {
            lemma_path_lt_irreflexive(kx);
        }
        if j == 0 {
            lemma_path_lt_irreflexive(kx);
        }
        assert(!path_lt(ky, kx));
        assert(!path_lt(kx, ky));
        if kx != ky {
            lemma_path_lt_total(kx, ky);
        }
        assert forall|i: int| 0 <= i <= j implies unix_components(#[trigger] b[i]@) == kx by {
            let ki = unix_components(b[i]@);
            if i > 0 {
                assert(!path_lt(ki, ky));
            } else {
                lemma_path_lt_irreflexive(ki);
            }
            if i < j {
                assert(!path_lt(kx, ki));
            } else {
                lemma_path_lt_irreflexive(ki);
            }
            if ki != kx {
                lemma_path_lt_total(ki, kx);
            }
        }
        let a2 = a.drop_first();
        let b2 = b.remove(j);
        assert(a.remove(0) =~= a2);
        assert(a2.to_multiset() =~= b2.to_multiset());
        assert forall|p: int, q: int| 0 <= p < q < b2.len() implies !path_lt(
            unix_components(b2[q]@),
            unix_components(b2[p]@),
        ) by {
            let pp = if p < j { p } else { p + 1 };
            let qq = if q < j { q } else { q + 1 };
            assert(b2[p] == b[pp]);
            assert(b2[q] == b[qq]);
        }
        assert forall|p: int, q: int| 0 <= p < q < a2.len() implies !path_lt(
            unix_components(a2[q]@),
            unix_components(a2[p]@),
        ) by {
            assert(a2[p] == a[p + 1]);
            assert(a2[q] == a[q + 1]);
        }
        lemma_sorted_files_unique(a2, b2);
        assert forall|i: int| 0 <= i < a.len() implies unix_components(#[trigger] a[i]@)
            == unix_components(b[i]@) by {
            if i > 0 {
                assert(a[i] == a2[i - 1]);
                assert(unix_components(a2[i - 1]@) == unix_components(b2[i - 1]@));
                if i - 1 < j {
                    assert(b2[i - 1] == b[i - 1]);
                    assert(unix_components(b[i - 1]@) == kx);
                    assert(unix_components(b[i]@) == kx);
                } else {
                    assert(b2[i - 1] == b[i]);
                }
            }
        }
    }
}

/// `get_all_files` gives one answer whatever order a folder's files were
/// found in: for two inputs holding the same files (counted with repeats),
/// any two results that meet its contract have the same components at every
/// position, and the same bytes when no two of the files are different paths
/// with the same components (as the entries of one folder never are).
pub proof fn lemma_get_all_files_order_free(
    found1: Seq<Vec<u8>>,
    found2: Seq<Vec<u8>>,
    sorted1: Seq<Vec<u8>>,
    sorted2: Seq<Vec<u8>>,
)
    requires
        found1.to_multiset() == found2.to_multiset(),
        sorted1.to_multiset() == found1.to_multiset(),
        paths_sorted(sorted1),
        sorted2.to_multiset() == found2.to_multiset(),
        paths_sorted(sorted2),
    ensures
        sorted1.len() == sorted2.len(),
        forall|i: int|
            0 <= i < sorted1.len() ==> unix_components(#[trigger] sorted1[i]@) == unix_components(
                sorted2[i]@,
            ),
        (forall|i: int, j: int|
            0 <= i < found1.len() && 0 <= j < found1.len() && unix_components(found1[i]@)
                == unix_components(found1[j]@) ==> found1[i]@ == found1[j]@) ==> forall|i: int|
            0 <= i < sorted1.len() ==> #[trigger] sorted1[i]@ == sorted2[i]@,
{
    broadcast use vstd::seq_lib::group_to_multiset_ensures;

    lemma_sorted_files_unique(sorted1, sorted2);
    if forall|i: int, j: int|
        0 <= i < found1.len() && 0 <= j < found1.len() && unix_components(found1[i]@)
            == unix_components(found1[j]@) ==> found1[i]@ == found1[j]@ {
        assert forall|i: int| 0 <= i < sorted1.len() implies #[trigger] sorted1[i]@
            == sorted2[i]@ by {
            let x = sorted1[i];
            let y = sorted2[i];
            assert(sorted1.contains(x));
            assert(sorted2.contains(y));
            assert(found1.to_multiset().count(x) > 0);
            assert(found1.to_multiset().count(y) > 0);
            assert(found1.contains(x));
            assert(found1.contains(y));
            let a = choose|a: int| 0 <= a < found1.len() && found1[a] == x;
            let b = choose|b: int| 0 <= b < found1.len() && found1[b] == y;
            assert(unix_components(found1[a]@) == unix_components(found1[b]@));
        }
    }
}

/// Whether a file found in a folder takes part in scans and checks: every
/// file but the baseline and the report that the program writes itself.
pub open spec fn is_tracked_name(file_name: Seq<u8>) -> bool {
    file_name != BASELINE_FILE.spec_bytes() && file_name != REPORT_FILE.spec_bytes()
}

/// Whether a file with this name (its bytes; empty when it has none) is
/// scanned and checked.
pub fn is_tracked_file(file_name: &[u8]) -> (kept: bool)
    ensures
        kept == is_tracked_name(file_name@),
{
    !bytes_equal(file_name, BASELINE_FILE.as_bytes()) && !bytes_equal(
        file_name,
        REPORT_FILE.as_bytes(),
    )
}

/// Every file name is tracked but exactly `baseline.enc` and `report.txt`.
pub proof fn lemma_tracked_names(file_name: Seq<u8>)
    ensures
        is_tracked_name(file_name) <==> file_name != "baseline.enc".spec_bytes() && file_name
            != "report.txt".spec_bytes(),
{
}

/// Whether the components of `base` begin the components of `file`.
pub open spec fn is_component_prefix(base: Seq<(nat, Seq<u8>)>, file: Seq<(nat, Seq<u8>)>) -> bool {
    base.len() <= file.len() && file.take(base.len() as int) == base
}

/// The path of `file` relative to `base` (their bytes): what
/// `Path::strip_prefix` leaves of `file`, read as UTF-8 (invalid sequences
/// replaced), with every backslash turned into a slash.
pub open spec fn relative_path_text(base: Seq<u8>, file: Seq<u8>) -> Seq<char> {
    forward_slashes(utf8_lossy(stripped_rest(file, unix_components(base).len())))
}

/// The path of a file relative to the scanned folder (both given by their
/// bytes); fails when the folder's components do not begin the file's.
pub fn get_relative_path(base_path: &[u8], file_path: &[u8]) -> (relative: Result<String, GuardianError>)
    ensures
        relative is Ok <==> is_component_prefix(unix_components(base_path@), unix_components(file_path@)),
        relative matches Ok(s) ==> s@ == relative_path_text(base_path@, file_path@),
        relative matches Err(e) ==> e is RelativePath,
        // What is left of the file comes back as written when it is valid
        // UTF-8 without backslashes; its components follow the folder's to
        // make the file's.
        relative matches Ok(s) ==> {
            let rest = stripped_rest(file_path@, unix_components(base_path@).len());
            valid_utf8(rest) && !rest.contains(0x5cu8) ==> encode_utf8(s@) == rest
        },
        relative matches Ok(s) ==> unix_components(base_path@) + unix_components(
            stripped_rest(file_path@, unix_components(base_path@).len()),
        ) == unix_components(file_path@),
        relative matches Ok(s) ==> !s@.contains('\\'),
        // A file path of valid UTF-8 without backslashes is given back, as
        // far as its components go, by joining its relative path to the
        // folder.
        relative matches Ok(s) ==> {
            valid_utf8(file_path@) && !file_path@.contains(0x5cu8) ==> unix_components(
                joined_path(base_path@, encode_utf8(s@)),
            ) == unix_components(file_path@)
        },
{
    let base = path_components(base_path);
    let file = path_components(file_path);
    let ghost vb = path_view(base@);
    let ghost vf = path_view(file@);
    if base.len() > file.len() {
        return Err(GuardianError::RelativePath);
    }
    let mut i: usize = 0;
    while i < base.len()
        invariant
            i <= base.len() <= file.len(),
            vb == path_view(base@),
            vf == path_view(file@),
            vb == unix_components(base_path@),
            vf == unix_components(file_path@),
            forall|j: int| 0 <= j < i ==> vb[j] == vf[j],
        decreases base.len() - i,
    {
        if compare_parts(&base[i], &file[i]) != 0 {
            proof {
                assert(vf.take(vb.len() as int)[i as int] != vb[i as int]);
            }
            return Err(GuardianError::RelativePath);
        }
        i = i + 1;
    }
    assert(vf.take(vb.len() as int) =~= vb);
    let rest = strip_components(file_path, base.len());
    let lossy = string_from_utf8_lossy(rest.as_slice());
    let relative = replace_backslashes(lossy.as_str());
    proof {
        lemma_forward_slashes_no_backslash(lossy@);
        lemma_stripped_rest_keeps(file_path@, base.len() as nat, 0x5cu8);
        if base.len() > 0 {
            lemma_stripped_rest_components(base_path@, file_path@);
            lemma_joined_components(base_path@, rest@);
        } else {
            lemma_no_components_empty(base_path@);
            lemma_stripped_rest_none(file_path@);
            assert(base_path@ + rest@ =~= rest@);
            assert(joined_path(base_path@, rest@) == rest@);
            assert(unix_components(base_path@) + unix_components(rest@) =~= unix_components(rest@));
        }
        if valid_utf8(rest@) && !rest@.contains(0x5cu8) {
            decode_utf8_encode_utf8(rest@);
            lemma_encode_forward_slashes(lossy@);
            assert(forward_slash_bytes(rest@) =~= rest@) by {
                assert forall|i: int| 0 <= i < rest@.len() implies rest@[i] != 0x5cu8 by {
                    if rest@[i] == 0x5cu8 {
                        assert(rest@.contains(0x5cu8));
                    }
                }
            }
        }
    }
    Ok(relative)
}

} // verus!
