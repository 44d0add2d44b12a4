use vstd::prelude::*;
use crate::bytes::{copy_range, find_byte, find_byte_from, lemma_find_byte_bounds};
use crate::paths::{PathPart, path_view};
use vstd::utf8::*;

verus! {

/// Whether a piece of a path between separators is a component: the empty
/// piece (from repeated or trailing `/`) and `.` are not.
pub open spec fn is_part_piece(piece: Seq<u8>) -> bool {
    !(piece.len() == 0 || (piece.len() == 1 && piece[0] == 0x2eu8))
}

/// The component that a piece of a path makes, if any: `..` the parent
/// directory, any other piece but the empty one and `.` a normal name.
pub open spec fn piece_part(piece: Seq<u8>) -> Seq<(nat, Seq<u8>)> {
    if !is_part_piece(piece) {
        Seq::empty()
    } else if piece.len() == 2 && piece[0] == 0x2eu8 && piece[1] == 0x2eu8 {
        seq![(2nat, Seq::empty())]
    } else {
        seq![(3nat, piece)]
    }
}

/// The bytes before the first `/`, or all of them.
pub open spec fn first_piece(s: Seq<u8>) -> Seq<u8> {
    s.take(find_byte(s, 0x2fu8))
}

/// The bytes after the first `/`, or none when there is no `/`.
pub open spec fn after_piece(s: Seq<u8>) -> Seq<u8> {
    if find_byte(s, 0x2fu8) < s.len() {
        s.skip(find_byte(s, 0x2fu8) + 1)
    } else {
        Seq::empty()
    }
}

/// The bytes after the first piece are fewer than the path's.
pub proof fn lemma_after_piece_shorter(s: Seq<u8>)
    requires
        s.len() > 0,
    ensures
        after_piece(s).len() < s.len(),
{
    lemma_find_byte_bounds(s, 0x2fu8);
}

/// The components of the body of a path: its pieces between separators,
/// without the empty pieces and `.`.
pub open spec fn body_parts(s: Seq<u8>) -> Seq<(nat, Seq<u8>)>
    decreases s.len(),
{
    if s.len() == 0 {
        Seq::empty()
    } else {
        proof {
            lemma_after_piece_shorter(s);
        }
        piece_part(first_piece(s)) + body_parts(after_piece(s))
    }
}

/// The length of what begins a path before its body: 1 for a leading `/`
/// (the root) or a leading `.` alone or before `/` (the current directory),
/// else 0.
pub open spec fn start_len(p: Seq<u8>) -> int {
    if p.len() > 0 && p[0] == 0x2fu8 {
        1
    } else if p.len() > 0 && p[0] == 0x2eu8 && (p.len() == 1 || p[1] == 0x2fu8) {
        1
    } else {
        0
    }
}

/// The component that begins a path before its body, if any.
pub open spec fn start_parts(p: Seq<u8>) -> Seq<(nat, Seq<u8>)> {
    if p.len() > 0 && p[0] == 0x2fu8 {
        seq![(0nat, Seq::empty())]
    } else if start_len(p) == 1 {
        seq![(1nat, Seq::empty())]
    } else {
        Seq::empty()
    }
}

/// The components of a Unix path, as `Path::components` yields them.
pub open spec fn unix_components(p: Seq<u8>) -> Seq<(nat, Seq<u8>)> {
    start_parts(p) + body_parts(p.skip(start_len(p)))
}

/// What is left of a body after its first `n` components were read: the
/// pieces before each of them and each with its separator are gone.
pub open spec fn body_after(s: Seq<u8>, n: nat) -> Seq<u8>
    decreases s.len(),
{
    if n == 0 || s.len() == 0 {
        s
    } else {
        proof {
            lemma_after_piece_shorter(s);
        }
        if is_part_piece(first_piece(s)) {
            body_after(after_piece(s), (n - 1) as nat)
        } else {
            body_after(after_piece(s), n)
        }
    }
}

/// A body without the pieces before its first component.
pub open spec fn trim_left(s: Seq<u8>) -> Seq<u8>
    decreases s.len(),
{
    if s.len() == 0 || is_part_piece(first_piece(s)) {
        s
    } else {
        proof {
            lemma_after_piece_shorter(s);
        }
        trim_left(after_piece(s))
    }
}

/// The position of the last occurrence of `b` in `s`, or -1.
pub open spec fn rfind_byte(s: Seq<u8>, b: u8) -> int
    decreases s.len(),
{
    if s.len() == 0 {
        -1
    } else if s.last() == b {
        s.len() - 1
    } else {
        rfind_byte(s.drop_last(), b)
    }
}

/// Facts about `rfind_byte`: it lies within the string or is -1, the byte
/// there is `b`, and no later byte is.
pub proof fn lemma_rfind_byte_bounds(s: Seq<u8>, b: u8)
    ensures
        -1 <= rfind_byte(s, b) < s.len(),
        rfind_byte(s, b) >= 0 ==> s[rfind_byte(s, b)] == b,
        forall|i: int| rfind_byte(s, b) < i < s.len() ==> s[i] != b,
    decreases s.len(),
{
    if s.len() > 0 && s.last() != b {
        lemma_rfind_byte_bounds(s.drop_last(), b);
        assert forall|i: int| rfind_byte(s, b) < i < s.len() implies s[i] != b by {
            if i < s.len() - 1 {
                assert(s[i] == s.drop_last()[i]);
            }
        }
    }
}

/// The start of the last piece of a path that lies at or after `floor`.
pub open spec fn last_piece_start(s: Seq<u8>, floor: int) -> int {
    if rfind_byte(s, 0x2fu8) >= floor {
        rfind_byte(s, 0x2fu8) + 1
    } else {
        floor
    }
}

/// Where a path is cut when its last piece (at or after `floor`) goes with
/// the separator before it.
pub open spec fn last_piece_cut(s: Seq<u8>, floor: int) -> int {
    if rfind_byte(s, 0x2fu8) >= floor {
        rfind_byte(s, 0x2fu8)
    } else {
        floor
    }
}

/// Bounds of the last piece and of the cut before it.
pub proof fn lemma_last_piece(s: Seq<u8>, floor: int)
    requires
        0 <= floor < s.len(),
    ensures
        floor <= last_piece_cut(s, floor) < last_piece_start(s, floor) <= s.len()
            || (last_piece_cut(s, floor) == floor && last_piece_start(s, floor) == floor),
        last_piece_cut(s, floor) < s.len(),
{
    lemma_rfind_byte_bounds(s, 0x2fu8);
}

/// A path without the pieces after its last component, none of them cut
/// before `floor`.
pub open spec fn trim_right(s: Seq<u8>, floor: int) -> Seq<u8>
    decreases s.len(),
{
    if floor < 0 || s.len() <= floor {
        s
    } else if is_part_piece(s.subrange(last_piece_start(s, floor), s.len() as int)) {
        s
    } else {
        proof {
            lemma_last_piece(s, floor);
        }
        trim_right(s.take(last_piece_cut(s, floor)), floor)
    }
}

/// What is left of a path after its first `n` components, `n` at least 1,
/// were read.
pub open spec fn rest_after_parts(p: Seq<u8>, n: nat) -> Seq<u8> {
    if start_len(p) == 1 {
        body_after(p.skip(1), (n - 1) as nat)
    } else {
        body_after(p, n)
    }
}

/// The path that `Path::strip_prefix` gives when a base with `n` components
/// is stripped from `p`: the rest of its bytes as they stand, without
/// leading and trailing pieces that are not components.
pub open spec fn stripped_rest(p: Seq<u8>, n: nat) -> Seq<u8> {
    if n == 0 {
        trim_right(p, start_len(p))
    } else {
        trim_right(trim_left(rest_after_parts(p, n)), 0)
    }
}

fn push_piece_part(path: &[u8], lo: usize, hi: usize, parts: &mut Vec<PathPart>)
    requires
        lo <= hi <= path.len(),
    ensures
        path_view(final(parts)@) == path_view(old(parts)@) + piece_part(
            path@.subrange(lo as int, hi as int),
        ),
{
    let ghost piece = path@.subrange(lo as int, hi as int);
    let ghost before = parts@;
    if hi == lo || (hi - lo == 1 && path[lo] == 0x2e) {
        assert(path_view(parts@) =~= path_view(before) + piece_part(piece));
    } else if hi - lo == 2 && path[lo] == 0x2e && path[lo + 1] == 0x2e {
        parts.push(PathPart::ParentDir);
        assert(path_view(parts@) =~= path_view(before) + piece_part(piece));
    } else {
        let name = copy_range(path, lo, hi);
        parts.push(PathPart::Normal(name));
        assert(path_view(parts@) =~= path_view(before) + piece_part(piece));
    }
}

/// The position just past the next separator at or after `pos`, or the
/// length; and the end of the piece that starts at `pos`.
fn next_piece(path: &[u8], pos: usize) -> (r: (usize, usize))
    requires
        pos < path.len(),
    ensures
        pos <= r.0 <= path.len(),
        path@.skip(pos as int).take(find_byte(path@.skip(pos as int), 0x2fu8)) == path@.subrange(
            pos as int,
            r.0 as int,
        ),
        first_piece(path@.skip(pos as int)) == path@.subrange(pos as int, r.0 as int),
        after_piece(path@.skip(pos as int)) == path@.skip(r.1 as int),
        r.0 <= r.1 <= path.len(),
        r.1 > pos,
{
    let k = find_byte_from(path, pos, 0x2f);
    let ghost rest = path@.skip(pos as int);
    proof {
        lemma_find_byte_bounds(rest, 0x2fu8);
        assert(rest.take(k - pos) =~= path@.subrange(pos as int, k as int));
    }
    if k < path.len() {
        assert(rest.skip(k - pos + 1) =~= path@.skip(k + 1));
        (k, k + 1)
    } else {
        assert(path@.skip(k as int) =~= Seq::<u8>::empty());
        (k, k)
    }
}

/// The components of a Unix path (its bytes), as `Path::components`
/// yields them.
pub fn path_components(path: &[u8]) -> (parts: Vec<PathPart>)
    ensures
        path_view(parts@) == unix_components(path@),
{
    let mut parts: Vec<PathPart> = Vec::new();
    let mut pos: usize = 0;
    if path.len() > 0 && path[0] == 0x2f {
        parts.push(PathPart::RootDir);
        pos = 1;
    } else if path.len() > 0 && path[0] == 0x2e && (path.len() == 1 || path[1] == 0x2f) {
        parts.push(PathPart::CurDir);
        pos = 1;
    }
    assert(path_view(parts@) =~= start_parts(path@));
    while pos < path.len()
        invariant
            pos <= path.len(),
            unix_components(path@) == path_view(parts@) + body_parts(path@.skip(pos as int)),
        decreases path.len() - pos,
    {
        let (end, next) = next_piece(path, pos);
        let ghost before = path_view(parts@);
        push_piece_part(path, pos, end, &mut parts);
        proof {
            let rest = path@.skip(pos as int);
            assert(body_parts(rest) == piece_part(first_piece(rest)) + body_parts(after_piece(rest)));
            assert(before + body_parts(rest) =~= path_view(parts@) + body_parts(
                path@.skip(next as int),
            ));
        }
        pos = next;
    }
    assert(path@.skip(pos as int) =~= Seq::<u8>::empty());
    assert(path_view(parts@) + body_parts(path@.skip(pos as int)) =~= path_view(parts@));
    parts
}

fn skip_body_parts(path: &[u8], start: usize, n: usize) -> (pos: usize)
    requires
        start <= path.len(),
    ensures
        start <= pos <= path.len(),
        path@.skip(pos as int) == body_after(path@.skip(start as int), n as nat),
{
    let mut pos = start;
    let mut left = n;
    while left > 0 && pos < path.len()
        invariant
            start <= pos <= path.len(),
            body_after(path@.skip(start as int), n as nat) == body_after(
                path@.skip(pos as int),
                left as nat,
            ),
        decreases path.len() - pos,
    {
        let (end, next) = next_piece(path, pos);
        if !(end == pos || (end - pos == 1 && path[pos] == 0x2e)) {
            left = left - 1;
        }
        pos = next;
    }
    pos
}

fn skip_non_parts(path: &[u8], start: usize) -> (pos: usize)
    requires
        start <= path.len(),
    ensures
        start <= pos <= path.len(),
        path@.skip(pos as int) == trim_left(path@.skip(start as int)),
{
    let mut pos = start;
    while pos < path.len()
        invariant
            start <= pos <= path.len(),
            trim_left(path@.skip(start as int)) == trim_left(path@.skip(pos as int)),
        decreases path.len() - pos,
    {
        let (end, next) = next_piece(path, pos);
        if !(end == pos || (end - pos == 1 && path[pos] == 0x2e)) {
            return pos;
        }
        pos = next;
    }
    assert(path@.skip(pos as int) =~= Seq::<u8>::empty());
    pos
}

/// The end of `path` without its trailing pieces that are not components,
/// none cut before `floor` (measured from `start`).
fn trim_right_end(path: &[u8], start: usize, floor: usize) -> (end: usize)
    requires
        start <= path.len(),
    ensures
        start <= end <= path.len(),
        path@.subrange(start as int, end as int) == trim_right(
            path@.skip(start as int),
            floor as int,
        ),
{
    let ghost whole = path@.skip(start as int);
    let mut end = path.len();
    assert(path@.subrange(start as int, end as int) =~= whole);
    while end - start > floor
        invariant
            start <= end <= path.len(),
            whole == path@.skip(start as int),
            trim_right(whole, floor as int) == trim_right(
                path@.subrange(start as int, end as int),
                floor as int,
            ),
        decreases end,
    {
        let ghost s = path@.subrange(start as int, end as int);
        let mut i = end;
        while i > start + floor && path[i - 1] != 0x2f
            invariant
                start + floor <= i <= end,
                end <= path.len(),
                forall|j: int| i <= j < end ==> path@[j] != 0x2fu8,
            decreases i,
        {
            i = i - 1;
        }
        proof {
            lemma_rfind_byte_bounds(s, 0x2fu8);
            let r = rfind_byte(s, 0x2fu8);
            if i > start + floor {
                assert(s[i - 1 - start] == 0x2fu8);
                assert(r == i - 1 - start) by {
                    if r > i - 1 - start {
                        assert(s[r] == path@[start + r]);
                    }
                }
            } else {
                assert(r < floor) by {
                    if r >= floor {
                        assert(s[r] == path@[start + r]);
                    }
                }
            }
        }
        let piece_start = i;
        let cut = if i > start + floor { i - 1 } else { i };
        let piece_len = end - piece_start;
        let is_part = !(piece_len == 0 || (piece_len == 1 && path[piece_start] == 0x2e));
        proof {
            assert(s.subrange(last_piece_start(s, floor as int), s.len() as int) =~= path@.subrange(
                piece_start as int,
                end as int,
            ));
        }
        if is_part {
            return end;
        }
        proof {
            assert(s.take(last_piece_cut(s, floor as int)) =~= path@.subrange(
                start as int,
                cut as int,
            ));
        }
        end = cut;
    }
    end
}

/// The bytes that `Path::strip_prefix` leaves of `file` once a base with `n`
/// components (those `file` begins with) is taken away.
pub fn strip_components(file: &[u8], n: usize) -> (rest: Vec<u8>)
    ensures
        rest@ == stripped_rest(file@, n as nat),
{
    if n == 0 {
        let floor: usize = if file.len() > 0 && file[0] == 0x2f {
            1
        } else if file.len() > 0 && file[0] == 0x2e && (file.len() == 1 || file[1] == 0x2f) {
            1
        } else {
            0
        };
        let end = trim_right_end(file, 0, floor);
        assert(file@.skip(0) =~= file@);
        copy_range(file, 0, end)
    } else {
        let body_start: usize = if file.len() > 0 && file[0] == 0x2f {
            1
        } else if file.len() > 0 && file[0] == 0x2e && (file.len() == 1 || file[1] == 0x2f) {
            1
        } else {
            0
        };
        let body_parts_to_skip = if body_start == 1 { n - 1 } else { n };
        let after = skip_body_parts(file, body_start, body_parts_to_skip);
        proof {
            assert(file@.skip(0) =~= file@);
        }
        let start = skip_non_parts(file, after);
        let end = trim_right_end(file, start, 0);
        copy_range(file, start, end)
    }
}

proof fn lemma_body_parts_no_slash(a: Seq<u8>)
    requires
        forall|i: int| 0 <= i < a.len() ==> a[i] != 0x2fu8,
    ensures
        body_parts(a) == piece_part(a),
{
    if a.len() > 0 {
        crate::bytes::lemma_find_byte(a, 0x2fu8, a.len() as int);
        assert(first_piece(a) =~= a);
        assert(body_parts(after_piece(a)) =~= Seq::<(nat, Seq<u8>)>::empty());
        assert(piece_part(a) + Seq::<(nat, Seq<u8>)>::empty() =~= piece_part(a));
    } else {
        assert(piece_part(a) =~= Seq::<(nat, Seq<u8>)>::empty());
    }
}

/// The components of two bodies joined by `/` are those of the first then
/// those of the second.
pub proof fn lemma_body_parts_join(a: Seq<u8>, b: Seq<u8>)
    ensures
        body_parts(a + seq![0x2fu8] + b) == body_parts(a) + body_parts(b),
    decreases a.len(),
{
    let ab = a + seq![0x2fu8] + b;
    lemma_find_byte_bounds(a, 0x2fu8);
    let k = find_byte(a, 0x2fu8);
    assert forall|j: int| 0 <= j < k implies ab[j] != 0x2fu8 by {
        assert(ab[j] == a[j]);
    }
    if k >= a.len() {
        crate::bytes::lemma_find_byte(ab, 0x2fu8, a.len() as int);
        assert(first_piece(ab) =~= a);
        assert(after_piece(ab) =~= b);
        lemma_body_parts_no_slash(a);
    } else {
        crate::bytes::lemma_find_byte(ab, 0x2fu8, k);
        assert(first_piece(ab) =~= first_piece(a));
        assert(after_piece(ab) =~= after_piece(a) + seq![0x2fu8] + b);
        assert(after_piece(a) =~= a.skip(k + 1));
        lemma_body_parts_join(after_piece(a), b);
        assert(body_parts(ab) =~= body_parts(a) + body_parts(b));
    }
}

proof fn lemma_body_after_parts(s: Seq<u8>, n: nat)
    requires
        n <= body_parts(s).len(),
    ensures
        body_parts(body_after(s, n)) == body_parts(s).skip(n as int),
    decreases s.len(),
{
    if n == 0 || s.len() == 0 {
        assert(body_parts(s).skip(0) =~= body_parts(s));
    } else {
        lemma_after_piece_shorter(s);
        let rest = after_piece(s);
        if is_part_piece(first_piece(s)) {
            lemma_body_after_parts(rest, (n - 1) as nat);
            assert(body_parts(s).skip(n as int) =~= body_parts(rest).skip(n - 1));
        } else {
            assert(piece_part(first_piece(s)) =~= Seq::<(nat, Seq<u8>)>::empty());
            assert(body_parts(s) =~= body_parts(rest));
            lemma_body_after_parts(rest, n);
        }
    }
}

proof fn lemma_trim_left_parts(s: Seq<u8>)
    ensures
        body_parts(trim_left(s)) == body_parts(s),
        trim_left(s).len() == 0 || is_part_piece(first_piece(trim_left(s))),
    decreases s.len(),
{
    if s.len() > 0 && !is_part_piece(first_piece(s)) {
        lemma_after_piece_shorter(s);
        lemma_trim_left_parts(after_piece(s));
        assert(piece_part(first_piece(s)) =~= Seq::<(nat, Seq<u8>)>::empty());
        assert(body_parts(s) =~= body_parts(after_piece(s)));
    }
}

proof fn lemma_trim_right_parts(s: Seq<u8>)
    requires
        s.len() == 0 || is_part_piece(first_piece(s)),
    ensures
        body_parts(trim_right(s, 0)) == body_parts(s),
        trim_right(s, 0).len() == 0 || is_part_piece(first_piece(trim_right(s, 0))),
    decreases s.len(),
{
    if s.len() > 0 {
        let st = last_piece_start(s, 0);
        let piece = s.subrange(st, s.len() as int);
        if !is_part_piece(piece) {
            lemma_rfind_byte_bounds(s, 0x2fu8);
            lemma_find_byte_bounds(s, 0x2fu8);
            let j = rfind_byte(s, 0x2fu8);
            let cut = last_piece_cut(s, 0);
            assert forall|i: int| 0 <= i < piece.len() implies piece[i] != 0x2fu8 by {
                assert(piece[i] == s[st + i]);
            }
            lemma_body_parts_no_slash(piece);
            assert(piece_part(piece) =~= Seq::<(nat, Seq<u8>)>::empty());
            if j >= 0 {
                let head = s.take(j);
                assert(s =~= head + seq![0x2fu8] + piece);
                lemma_body_parts_join(head, piece);
                assert(body_parts(s) =~= body_parts(head));
                // the first separator is at or before the last one
                let k = find_byte(s, 0x2fu8);
                assert(k <= j);
                if head.len() > 0 {
                    crate::bytes::lemma_find_byte(head, 0x2fu8, if k < j { k } else { j });
                    assert forall|i: int| 0 <= i < k implies head[i] != 0x2fu8 by {
                        assert(head[i] == s[i]);
                    }
                    if k < j {
                        assert(head[k] == s[k]);
                    }
                    assert(first_piece(head) =~= first_piece(s));
                }
                lemma_trim_right_parts(head);
            } else {
                assert(piece =~= s);
                assert(cut == 0);
                crate::bytes::lemma_find_byte(s, 0x2fu8, s.len() as int);
                assert(body_parts(s) =~= piece_part(s));
                assert(trim_right(s, 0) == trim_right(s.take(0), 0));
                assert(s.take(0) =~= Seq::<u8>::empty());
            }
        }
    }
}

proof fn lemma_no_start(r: Seq<u8>)
    requires
        r.len() == 0 || is_part_piece(first_piece(r)),
    ensures
        start_len(r) == 0,
        unix_components(r) == body_parts(r),
{
    if r.len() > 0 {
        lemma_find_byte_bounds(r, 0x2fu8);
        if r[0] == 0x2fu8 {
            assert(find_byte(r, 0x2fu8) == 0);
        }
        if r[0] == 0x2eu8 && (r.len() == 1 || r[1] == 0x2fu8) {
            assert(find_byte(r, 0x2fu8) == 1) by {
                if r.len() > 1 {
                    crate::bytes::lemma_find_byte(r, 0x2fu8, 1);
                } else {
                    crate::bytes::lemma_find_byte(r, 0x2fu8, 1);
                }
            }
        }
    }
    assert(r.skip(0) =~= r);
    assert(start_parts(r) + body_parts(r) =~= body_parts(r));
}

/// When a base with at least one component begins a file's components,
/// the components of what stripping the base leaves follow those of the
/// base to make those of the file.
pub proof fn lemma_stripped_rest_components(base: Seq<u8>, file: Seq<u8>)
    requires
        unix_components(base).len() > 0,
        unix_components(base).len() <= unix_components(file).len(),
        unix_components(file).take(unix_components(base).len() as int) == unix_components(base),
    ensures
        unix_components(base) + unix_components(
            stripped_rest(file, unix_components(base).len()),
        ) == unix_components(file),
        start_len(stripped_rest(file, unix_components(base).len())) == 0,
{
    let n = unix_components(base).len();
    let cf = unix_components(file);
    let sl = start_len(file);
    let after = rest_after_parts(file, n);
    if sl == 1 {
        assert(start_parts(file).len() == 1);
        lemma_body_after_parts(file.skip(1), (n - 1) as nat);
        assert(body_parts(after) =~= cf.skip(n as int));
    } else {
        assert(start_parts(file).len() == 0);
        assert(file.skip(0) =~= file);
        assert(cf =~= body_parts(file));
        lemma_body_after_parts(file, n);
    }
    lemma_trim_left_parts(after);
    lemma_trim_right_parts(trim_left(after));
    lemma_no_start(stripped_rest(file, n));
    assert(unix_components(base) + cf.skip(n as int) =~= cf);
}


/// A single ASCII byte is valid UTF-8.
proof fn lemma_ascii_byte_utf8(b: u8)
    requires
        b < 0x80,
    ensures
        valid_utf8(seq![b]),
{
    let s = seq![b];
    assert(s.subrange(0, 0) =~= Seq::<u8>::empty());
    partial_valid_utf8_extend_ascii_block(s, 0, 1);
    assert(s.subrange(0, 1) =~= s);
}

/// Valid UTF-8 cut at an end or next to an ASCII byte is valid UTF-8 on
/// both sides, and neither side holds a byte that the whole does not.
proof fn lemma_cut(s: Seq<u8>, k: int, x: u8)
    requires
        0 <= k <= s.len(),
        k == 0 || k == s.len() || s[k] < 0x80 || s[k - 1] < 0x80,
    ensures
        valid_utf8(s) ==> valid_utf8(s.take(k)) && valid_utf8(s.skip(k)),
        s.take(k).contains(x) ==> s.contains(x),
        s.skip(k).contains(x) ==> s.contains(x),
{
    if s.take(k).contains(x) {
        let i = choose|i: int| 0 <= i < s.take(k).len() && s.take(k)[i] == x;
        assert(s[i] == x);
    }
    if s.skip(k).contains(x) {
        let i = choose|i: int| 0 <= i < s.skip(k).len() && s.skip(k)[i] == x;
        assert(s[i + k] == x);
    }
    if valid_utf8(s) {
        if k == 0 {
            assert(s.take(0) =~= Seq::<u8>::empty());
            assert(s.skip(0) =~= s);
        } else if k == s.len() {
            assert(s.take(k) =~= s);
            assert(s.skip(k) =~= Seq::<u8>::empty());
        } else if s[k] < 0x80 {
            is_char_boundary_iff_not_is_continuation_byte(s, k);
            valid_utf8_split(s, k);
            assert(s.subrange(0, k) =~= s.take(k));
            assert(s.subrange(k, s.len() as int) =~= s.skip(k));
        } else {
            is_char_boundary_iff_not_is_continuation_byte(s, k - 1);
            valid_utf8_split(s, k - 1);
            let head = s.subrange(0, k - 1);
            let tail = s.subrange(k - 1, s.len() as int);
            lemma_ascii_byte_utf8(s[k - 1]);
            valid_utf8_concat(head, seq![s[k - 1]]);
            assert(head + seq![s[k - 1]] =~= s.take(k));
            assert(tail[0] == s[k - 1]);
            assert(length_of_first_scalar(tail) == 1);
            assert(pop_first_scalar(tail) =~= s.skip(k));
        }
    }
}

proof fn lemma_after_piece_keeps(s: Seq<u8>, x: u8)
    ensures
        valid_utf8(s) ==> valid_utf8(after_piece(s)),
        after_piece(s).contains(x) ==> s.contains(x),
{
    lemma_find_byte_bounds(s, 0x2fu8);
    let f = find_byte(s, 0x2fu8);
    if f < s.len() {
        lemma_cut(s, f + 1, x);
    }
}

proof fn lemma_body_after_keeps(s: Seq<u8>, n: nat, x: u8)
    ensures
        valid_utf8(s) ==> valid_utf8(body_after(s, n)),
        body_after(s, n).contains(x) ==> s.contains(x),
    decreases s.len(),
{
    if n > 0 && s.len() > 0 {
        lemma_after_piece_shorter(s);
        lemma_after_piece_keeps(s, x);
        if is_part_piece(first_piece(s)) {
            lemma_body_after_keeps(after_piece(s), (n - 1) as nat, x);
        } else {
            lemma_body_after_keeps(after_piece(s), n, x);
        }
    }
}

proof fn lemma_trim_left_keeps(s: Seq<u8>, x: u8)
    ensures
        valid_utf8(s) ==> valid_utf8(trim_left(s)),
        trim_left(s).contains(x) ==> s.contains(x),
    decreases s.len(),
{
    if s.len() > 0 && !is_part_piece(first_piece(s)) {
        lemma_after_piece_shorter(s);
        lemma_after_piece_keeps(s, x);
        lemma_trim_left_keeps(after_piece(s), x);
    }
}

proof fn lemma_trim_right_keeps(s: Seq<u8>, floor: int, x: u8)
    requires
        1 <= floor <= s.len() ==> s[floor - 1] < 0x80,
    ensures
        valid_utf8(s) ==> valid_utf8(trim_right(s, floor)),
        trim_right(s, floor).contains(x) ==> s.contains(x),
    decreases s.len(),
{
    if 0 <= floor < s.len() && !is_part_piece(
        s.subrange(last_piece_start(s, floor), s.len() as int),
    ) {
        lemma_last_piece(s, floor);
        lemma_rfind_byte_bounds(s, 0x2fu8);
        let cut = last_piece_cut(s, floor);
        lemma_cut(s, cut, x);
        let t = s.take(cut);
        if 1 <= floor <= t.len() {
            assert(t[floor - 1] == s[floor - 1]);
        }
        lemma_trim_right_keeps(t, floor, x);
    }
}

/// What stripping the first `n` components leaves of a path is a piece of
/// it: valid UTF-8 when the path is, and with no byte that the path lacks.
pub proof fn lemma_stripped_rest_keeps(p: Seq<u8>, n: nat, x: u8)
    ensures
        valid_utf8(p) ==> valid_utf8(stripped_rest(p, n)),
        stripped_rest(p, n).contains(x) ==> p.contains(x),
{
    if n == 0 {
        lemma_trim_right_keeps(p, start_len(p), x);
    } else {
        let after = rest_after_parts(p, n);
        if start_len(p) == 1 {
            lemma_cut(p, 1, x);
            lemma_body_after_keeps(p.skip(1), (n - 1) as nat, x);
        } else {
            lemma_body_after_keeps(p, n, x);
        }
        lemma_trim_left_keeps(after, x);
        lemma_trim_right_keeps(trim_left(after), 0, x);
    }
}

/// The path that `Path::join` makes on Unix of a base and another path
/// (their bytes): a path that starts at the root replaces the base;
/// otherwise a `/` goes between the two unless the base is empty or already
/// ends with one.
pub open spec fn joined_path(base: Seq<u8>, rel: Seq<u8>) -> Seq<u8> {
    if rel.len() > 0 && rel[0] == 0x2fu8 {
        rel
    } else if base.len() > 0 && base.last() != 0x2fu8 {
        base + seq![0x2fu8] + rel
    } else {
        base + rel
    }
}

proof fn lemma_join_with_slash(a: Seq<u8>, rel: Seq<u8>)
    requires
        a.len() > 0,
    ensures
        unix_components(a + seq![0x2fu8] + rel) == unix_components(a) + body_parts(rel),
{
    let j = a + seq![0x2fu8] + rel;
    assert(j[0] == a[0]);
    if a.len() > 1 {
        assert(j[1] == a[1]);
    } else {
        assert(j[1] == 0x2fu8);
    }
    let sl = start_len(a);
    assert(start_len(j) == sl);
    assert(start_parts(j) == start_parts(a));
    assert(j.skip(sl) =~= a.skip(sl) + seq![0x2fu8] + rel);
    lemma_body_parts_join(a.skip(sl), rel);
    assert(unix_components(j) =~= unix_components(a) + body_parts(rel));
}

/// Joining a path that does not begin with a root or a current-directory
/// component to a base gives the base's components followed by its own.
pub proof fn lemma_joined_components(base: Seq<u8>, rel: Seq<u8>)
    requires
        start_len(rel) == 0,
    ensures
        unix_components(joined_path(base, rel)) == unix_components(base) + unix_components(rel),
{
    assert(rel.skip(0) =~= rel);
    assert(unix_components(rel) =~= body_parts(rel));
    if base.len() == 0 {
        assert(base + rel =~= rel);
        assert(unix_components(base) =~= Seq::<(nat, Seq<u8>)>::empty());
        assert(unix_components(base) + unix_components(rel) =~= unix_components(rel));
    } else if base.last() != 0x2fu8 {
        lemma_join_with_slash(base, rel);
    } else {
        let a = base.drop_last();
        assert(base =~= a + seq![0x2fu8]);
        assert(base + rel =~= a + seq![0x2fu8] + rel);
        if a.len() == 0 {
            let j = base + rel;
            assert(j[0] == 0x2fu8);
            assert(j.skip(1) =~= rel);
            assert(base.skip(1) =~= Seq::<u8>::empty());
            assert(unix_components(j) =~= unix_components(base) + body_parts(rel));
        } else {
            lemma_join_with_slash(a, rel);
            lemma_join_with_slash(a, Seq::<u8>::empty());
            assert(a + seq![0x2fu8] + Seq::<u8>::empty() =~= base);
            assert(unix_components(a) + body_parts(Seq::<u8>::empty()) =~= unix_components(a));
        }
    }
}

/// A path that begins neither at the root nor at `.` has its first piece as
/// a component.
proof fn lemma_first_piece_part(s: Seq<u8>)
    requires
        s.len() > 0,
        start_len(s) == 0,
    ensures
        is_part_piece(first_piece(s)),
        body_parts(s).len() > 0,
{
    lemma_find_byte_bounds(s, 0x2fu8);
    let f = find_byte(s, 0x2fu8);
    assert(f > 0);
    if s[0] == 0x2eu8 {
        assert(s.len() > 1 && s[1] != 0x2fu8);
        assert(f >= 2);
    }
    assert(first_piece(s).len() == f);
    if f == 1 {
        assert(first_piece(s)[0] == s[0]);
    }
    lemma_after_piece_shorter(s);
    assert(piece_part(first_piece(s)).len() == 1);
}

/// Only the empty path has no components.
pub proof fn lemma_no_components_empty(p: Seq<u8>)
    requires
        unix_components(p).len() == 0,
    ensures
        p.len() == 0,
{
    if p.len() > 0 && start_len(p) == 0 {
        assert(p.skip(0) =~= p);
        lemma_first_piece_part(p);
    }
}

/// Trimming the pieces after the last component of a path that begins at
/// the root or at `.`, keeping that beginning, keeps its components.
proof fn lemma_trim_right_start(s: Seq<u8>)
    requires
        start_len(s) == 1,
    ensures
        unix_components(trim_right(s, 1)) == unix_components(s),
    decreases s.len(),
{
    if s.len() > 1 {
        let st = last_piece_start(s, 1);
        let piece = s.subrange(st, s.len() as int);
        if !is_part_piece(piece) {
            lemma_rfind_byte_bounds(s, 0x2fu8);
            lemma_last_piece(s, 1);
            let j = rfind_byte(s, 0x2fu8);
            let cut = last_piece_cut(s, 1);
            let t = s.take(cut);
            assert forall|i: int| 0 <= i < piece.len() implies piece[i] != 0x2fu8 by {
                assert(piece[i] == s[st + i]);
            }
            lemma_body_parts_no_slash(piece);
            assert(piece_part(piece) =~= Seq::<(nat, Seq<u8>)>::empty());
            assert(t[0] == s[0]);
            if t.len() > 1 {
                assert(t[1] == s[1]);
            }
            assert(start_len(t) == 1);
            assert(start_parts(t) == start_parts(s));
            if j >= 1 {
                let mid = s.subrange(1, j);
                assert(s.skip(1) =~= mid + seq![0x2fu8] + piece);
                lemma_body_parts_join(mid, piece);
                assert(t.skip(1) =~= mid);
                assert(body_parts(s.skip(1)) =~= body_parts(mid));
            } else {
                assert(cut == 1);
                assert(s.skip(1) =~= piece);
                assert(t.skip(1) =~= Seq::<u8>::empty());
                assert(body_parts(s.skip(1)) =~= Seq::<(nat, Seq<u8>)>::empty());
            }
            assert(unix_components(t) =~= unix_components(s));
            lemma_trim_right_start(t);
        }
    }
}

/// Stripping no component leaves a path with the same components.
pub proof fn lemma_stripped_rest_none(p: Seq<u8>)
    ensures
        unix_components(stripped_rest(p, 0)) == unix_components(p),
{
    if start_len(p) == 1 {
        lemma_trim_right_start(p);
    } else {
        assert(p.skip(0) =~= p);
        if p.len() > 0 {
            lemma_first_piece_part(p);
        }
        lemma_trim_right_parts(p);
        lemma_no_start(trim_right(p, 0));
        assert(start_parts(p) + body_parts(p) =~= body_parts(p));
    }
}

} // verus!
