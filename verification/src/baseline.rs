use vstd::prelude::*;
use vstd::string::StringSliceAdditionalSpecFns;
use crate::bytes::{append_bytes, bytes_equal, copy_range, find_byte, find_byte_from, lemma_find_byte, lemma_find_byte_bounds};
use crate::strings::{lemma_ascii_byte_valid, string_from_utf8};
use vstd::utf8::*;
use crate::errors::GuardianError;

verus! {

/// The first line of every baseline text; a decrypted baseline that does
/// not start with it was encrypted with another password or is damaged.
pub const BASELINE_HEADER: &'static str = "FILE_GUARDIAN_BASELINE_V1";

/// A line without the carriage return that ends it, if one does.
pub open spec fn strip_cr(line: Seq<u8>) -> Seq<u8> {
    if line.len() > 0 && line.last() == 0x0du8 {
        line.drop_last()
    } else {
        line
    }
}

/// The lines of a text: split at each line feed, each line without a
/// carriage return just before its line feed; the text after the last
/// line feed is a last line only when it is not empty.
pub open spec fn text_lines(s: Seq<u8>) -> Seq<Seq<u8>>
    decreases s.len(),
{
    if s.len() == 0 {
        Seq::empty()
    } else {
        let k = find_byte(s, 0x0au8);
        if k >= s.len() {
            seq![s]
        } else {
            proof {
                lemma_find_byte_bounds(s, 0x0au8);
            }
            seq![strip_cr(s.take(k))] + text_lines(s.skip(k + 1))
        }
    }
}

/// Byte vectors seen as byte sequences.
pub open spec fn lines_view(lines: Seq<Vec<u8>>) -> Seq<Seq<u8>> {
    lines.map_values(|l: Vec<u8>| l@)
}

/// Splits a text into its lines (see `text_lines`).
pub fn split_lines(text: &[u8]) -> (lines: Vec<Vec<u8>>)
    ensures
        lines_view(lines@) == text_lines(text@),
{
    let mut lines: Vec<Vec<u8>> = Vec::new();
    let mut pos: usize = 0;
    assert(text@.skip(0) =~= text@);
    while pos < text.len()
        invariant
            pos <= text.len(),
            text_lines(text@) == lines_view(lines@) + text_lines(text@.skip(pos as int)),
        decreases text.len() - pos,
    {
        let ghost rest = text@.skip(pos as int);
        let ghost before = lines@;
        let k = find_byte_from(text, pos, 0x0a);
        proof {
            lemma_find_byte_bounds(rest, 0x0au8);
        }
        if k == text.len() {
            let line = copy_range(text, pos, k);
            lines.push(line);
            proof {
                assert(line@ =~= rest);
                assert(text@.skip(k as int) =~= Seq::<u8>::empty());
                assert(lines_view(lines@) =~= lines_view(before).push(rest));
                assert(lines_view(before) + seq![rest] =~= lines_view(lines@) + text_lines(
                    text@.skip(k as int),
                ));
            }
            pos = k;
        } else {
            let mut end = k;
            if end > pos && text[end - 1] == 0x0d {
                end = end - 1;
            }
            let line = copy_range(text, pos, end);
            lines.push(line);
            proof {
                let j = (k - pos) as int;
                assert(rest.take(j) =~= text@.subrange(pos as int, k as int));
                assert(line@ =~= strip_cr(rest.take(j)));
                assert(rest.skip(j + 1) =~= text@.skip(k + 1));
                assert(lines_view(lines@) =~= lines_view(before).push(line@));
                assert(lines_view(before) + (seq![line@] + text_lines(rest.skip(j + 1)))
                    =~= lines_view(lines@) + text_lines(text@.skip(k + 1)));
            }
            pos = k + 1;
        }
    }
    assert(text@.skip(pos as int) =~= Seq::<u8>::empty());
    assert(lines_view(lines@) + Seq::<Seq<u8>>::empty() =~= lines_view(lines@));
    lines
}

/// Path and digest pairs seen as byte sequences.
pub open spec fn records_view(rs: Seq<(Vec<u8>, Vec<u8>)>) -> Seq<(Seq<u8>, Seq<u8>)> {
    rs.map_values(|r: (Vec<u8>, Vec<u8>)| (r.0@, r.1@))
}

/// The map that inserting the pairs in order builds: a later pair for the
/// same path replaces an earlier one.
pub open spec fn records_map(rs: Seq<(Seq<u8>, Seq<u8>)>) -> Map<Seq<u8>, Seq<u8>>
    decreases rs.len(),
{
    if rs.len() == 0 {
        Map::empty()
    } else {
        records_map(rs.drop_last()).insert(rs.last().0, rs.last().1)
    }
}

/// No path occurs twice.
pub open spec fn distinct_paths(rs: Seq<(Seq<u8>, Seq<u8>)>) -> bool {
    forall|i: int, j: int| 0 <= i < j < rs.len() ==> rs[i].0 != rs[j].0
}

/// The position of the first pair for `path`, or the length when none is.
pub open spec fn path_index(rs: Seq<(Seq<u8>, Seq<u8>)>, path: Seq<u8>) -> int
    decreases rs.len(),
{
    if rs.len() == 0 {
        0
    } else if rs[0].0 == path {
        0
    } else {
        1 + path_index(rs.drop_first(), path)
    }
}

/// The pairs after recording `r`: it replaces the pair for the same path,
/// or comes last when its path is new.
pub open spec fn insert_record(rs: Seq<(Seq<u8>, Seq<u8>)>, r: (Seq<u8>, Seq<u8>)) -> Seq<
    (Seq<u8>, Seq<u8>),
> {
    let i = path_index(rs, r.0);
    if i < rs.len() {
        rs.update(i, r)
    } else {
        rs.push(r)
    }
}

proof fn lemma_path_index(rs: Seq<(Seq<u8>, Seq<u8>)>, path: Seq<u8>, k: int)
    requires
        0 <= k <= rs.len(),
        forall|j: int| 0 <= j < k ==> rs[j].0 != path,
        k == rs.len() || rs[k].0 == path,
    ensures
        path_index(rs, path) == k,
    decreases rs.len(),
{
    if rs.len() > 0 && k > 0 {
        lemma_path_index(rs.drop_first(), path, k - 1);
    }
}

/// A path is in the map exactly when some pair holds it.
pub proof fn lemma_records_map_dom(rs: Seq<(Seq<u8>, Seq<u8>)>, path: Seq<u8>)
    ensures
        records_map(rs).dom().contains(path) <==> exists|i: int|
            0 <= i < rs.len() && #[trigger] rs[i].0 == path,
    decreases rs.len(),
{
    if rs.len() > 0 {
        lemma_records_map_dom(rs.drop_last(), path);
        if records_map(rs.drop_last()).dom().contains(path) {
            let i = choose|i: int| 0 <= i < rs.drop_last().len() && #[trigger] rs.drop_last()[i].0 == path;
            assert(rs[i].0 == path);
        }
        if exists|i: int| 0 <= i < rs.len() && #[trigger] rs[i].0 == path {
            let i = choose|i: int| 0 <= i < rs.len() && #[trigger] rs[i].0 == path;
            if i < rs.len() - 1 {
                assert(rs.drop_last()[i].0 == path);
            }
        }
    }
}

/// With distinct paths, the map holds each pair's digest for its path.
pub proof fn lemma_records_map_value(rs: Seq<(Seq<u8>, Seq<u8>)>, i: int)
    requires
        distinct_paths(rs),
        0 <= i < rs.len(),
    ensures
        records_map(rs).dom().contains(rs[i].0),
        records_map(rs)[rs[i].0] == rs[i].1,
    decreases rs.len(),
{
    if i < rs.len() - 1 {
        assert(distinct_paths(rs.drop_last()));
        lemma_records_map_value(rs.drop_last(), i);
        assert(rs.drop_last()[i] == rs[i]);
    }
}

proof fn lemma_records_map_update(rs: Seq<(Seq<u8>, Seq<u8>)>, i: int, r: (Seq<u8>, Seq<u8>))
    requires
        distinct_paths(rs),
        0 <= i < rs.len(),
        rs[i].0 == r.0,
    ensures
        records_map(rs.update(i, r)) == records_map(rs).insert(r.0, r.1),
    decreases rs.len(),
{
    let us = rs.update(i, r);
    if i == rs.len() - 1 {
        assert(us.drop_last() =~= rs.drop_last());
        assert(records_map(us) =~= records_map(rs).insert(r.0, r.1));
    } else {
        assert(distinct_paths(rs.drop_last()));
        assert(us.drop_last() =~= rs.drop_last().update(i, r));
        lemma_records_map_update(rs.drop_last(), i, r);
        assert(rs.last().0 != r.0);
        assert(records_map(us) =~= records_map(rs).insert(r.0, r.1));
    }
}

/// A set of files, each with the hex SHA-256 digest of its content, keyed
/// by the path relative to the scanned folder.
pub struct Baseline {
    records: Vec<(Vec<u8>, Vec<u8>)>,
}

impl Baseline {
    /// No path is recorded twice.
    #[verifier::type_invariant]
    pub open spec fn paths_are_distinct(self) -> bool {
        distinct_paths(self.records())
    }

    /// The (path, digest) pairs in the order in which their paths were
    /// first recorded.
    pub closed spec fn records(self) -> Seq<(Seq<u8>, Seq<u8>)> {
        records_view(self.records@)
    }

    /// An empty baseline.
    pub fn new() -> (baseline: Self)
        ensures
            baseline.records() == Seq::<(Seq<u8>, Seq<u8>)>::empty(),
            baseline@ == Map::<Seq<u8>, Seq<u8>>::empty(),
    {
        let baseline = Baseline { records: Vec::new() };
        assert(baseline.records() =~= Seq::<(Seq<u8>, Seq<u8>)>::empty());
        baseline
    }

    /// The number of files.
    pub fn len(&self) -> (n: usize)
        ensures
            n == self.records().len(),
    {
        self.records.len()
    }

    /// The path and digest recorded at a position.
    pub fn record(&self, i: usize) -> (r: (&Vec<u8>, &Vec<u8>))
        requires
            i < self.records().len(),
        ensures
            (r.0@, r.1@) == self.records()[i as int],
    {
        let rec = &self.records[i];
        (&rec.0, &rec.1)
    }

    fn position(&self, path: &[u8]) -> (i: usize)
        ensures
            i as int == path_index(self.records(), path@),
            i <= self.records().len(),
    {
        let mut i: usize = 0;
        while i < self.records.len()
            invariant
                i <= self.records.len(),
                forall|j: int| 0 <= j < i ==> self.records()[j].0 != path@,
            decreases self.records.len() - i,
        {
            if bytes_equal(self.records[i].0.as_slice(), path) {
                proof {
                    lemma_path_index(self.records(), path@, i as int);
                }
                return i;
            }
            i = i + 1;
        }
        proof {
            lemma_path_index(self.records(), path@, i as int);
        }
        i
    }

    /// Records the digest of a file, replacing what was recorded for its
    /// path before.
    pub fn insert(&mut self, path: Vec<u8>, hash: Vec<u8>)
        ensures
            final(self).records() == insert_record(old(self).records(), (path@, hash@)),
            final(self)@ == old(self)@.insert(path@, hash@),
    {
        proof {
            use_type_invariant(&*self);
        }
        let ghost rs = self.records();
        let i = self.position(path.as_slice());
        proof {
            lemma_path_index_facts(rs, path@);
        }
        let mut records: Vec<(Vec<u8>, Vec<u8>)> = Vec::new();
        std::mem::swap(&mut records, &mut self.records);
        if i < records.len() {
            proof {
                lemma_records_map_update(rs, i as int, (path@, hash@));
                assert(records_view(records@.update(i as int, (path, hash))) =~= rs.update(
                    i as int,
                    (path@, hash@),
                ));
            }
            records.set(i, (path, hash));
        } else {
            proof {
                assert(records_view(records@.push((path, hash))) =~= rs.push(
                    (path@, hash@),
                ));
                assert(rs.push((path@, hash@)).drop_last() =~= rs);
                assert forall|a: int, b: int|
                    0 <= a < b < rs.len() + 1 implies #[trigger] rs.push((path@, hash@))[a].0
                    != #[trigger] rs.push((path@, hash@))[b].0 by {
                    if b == rs.len() {
                        assert(rs[a].0 != path@);
                    }
                }
            }
            records.push((path, hash));
        }
        self.records = records;
    }

    /// The digest recorded for a path, if any.
    pub fn get(&self, path: &[u8]) -> (hash: Option<&Vec<u8>>)
        ensures
            hash is Some <==> self@.dom().contains(path@),
            hash matches Some(h) ==> h@ == self@[path@],
    {
        proof {
            use_type_invariant(self);
            lemma_path_index_facts(self.records(), path@);
            lemma_records_map_dom(self.records(), path@);
        }
        let i = self.position(path);
        if i < self.records.len() {
            proof {
                lemma_records_map_value(self.records(), i as int);
            }
            Some(&self.records[i].1)
        } else {
            None
        }
    }
}

/// `path_index` is the first position holding the path, or the length.
pub proof fn lemma_path_index_facts(rs: Seq<(Seq<u8>, Seq<u8>)>, path: Seq<u8>)
    ensures
        0 <= path_index(rs, path) <= rs.len(),
        forall|j: int| 0 <= j < path_index(rs, path) ==> rs[j].0 != path,
        path_index(rs, path) < rs.len() ==> rs[path_index(rs, path)].0 == path,
    decreases rs.len(),
{
    if rs.len() > 0 && rs[0].0 != path {
        lemma_path_index_facts(rs.drop_first(), path);
        assert forall|j: int| 0 <= j < path_index(rs, path) implies rs[j].0 != path by {
            if j > 0 {
                assert(rs[j] == rs.drop_first()[j - 1]);
            }
        }
    }
}

impl View for Baseline {
    type V = Map<Seq<u8>, Seq<u8>>;

    /// A baseline is seen as the map from paths to digests.
    open spec fn view(&self) -> Map<Seq<u8>, Seq<u8>> {
        records_map(self.records())
    }
}

/// The header is 25 ASCII characters, none of them a line feed or a
/// carriage return.
pub proof fn lemma_header_bytes()
    ensures
        BASELINE_HEADER.spec_bytes().len() == 25,
        forall|i: int|
            0 <= i < 25 ==> #[trigger] BASELINE_HEADER.spec_bytes()[i] != 0x0au8
                && BASELINE_HEADER.spec_bytes()[i] != 0x0du8 && BASELINE_HEADER.spec_bytes()[i]
                < 0x80u8,
{
    reveal_strlit("FILE_GUARDIAN_BASELINE_V1");
    assert(vstd::string::is_ascii(BASELINE_HEADER));
    vstd::string::is_ascii_spec_bytes(BASELINE_HEADER);
}

/// The path and digest of a baseline line: the text before and after its
/// first `|`; a line without `|` records nothing.
pub open spec fn line_record(line: Seq<u8>) -> Option<(Seq<u8>, Seq<u8>)> {
    let j = find_byte(line, 0x7cu8);
    if j < line.len() {
        Some((line.take(j), line.skip(j + 1)))
    } else {
        None
    }
}

/// The map that the record lines build, a later line for the same path
/// replacing an earlier one.
pub open spec fn lines_map(lines: Seq<Seq<u8>>) -> Map<Seq<u8>, Seq<u8>>
    decreases lines.len(),
{
    if lines.len() == 0 {
        Map::empty()
    } else {
        let m = lines_map(lines.drop_last());
        match line_record(lines.last()) {
            Some(r) => m.insert(r.0, r.1),
            None => m,
        }
    }
}

/// The first line, or nothing when there is no line.
pub open spec fn first_line(lines: Seq<Seq<u8>>) -> Seq<u8> {
    if lines.len() == 0 {
        Seq::empty()
    } else {
        lines[0]
    }
}

/// What a decrypted baseline text holds: nothing when its first line is
/// not the header, else the map of the record lines after it.
pub open spec fn parsed_baseline(text: Seq<u8>) -> Option<Map<Seq<u8>, Seq<u8>>> {
    let lines = text_lines(text);
    if first_line(lines) == BASELINE_HEADER.spec_bytes() {
        Some(lines_map(lines.drop_first()))
    } else {
        None
    }
}

/// Reads a decrypted baseline text: its first line must be the header, and
/// each later line `path|digest` records a file.
pub fn parse_baseline(text: &str) -> (baseline: Result<Baseline, GuardianError>)
    ensures
        baseline is Ok <==> parsed_baseline(text.spec_bytes()) is Some,
        baseline matches Ok(b) ==> parsed_baseline(text.spec_bytes()) == Some(b@),
        baseline matches Err(e) ==> e is InvalidBaseline,
{
    let lines = split_lines(text.as_bytes());
    let ghost lv = lines_view(lines@);
    if lines.len() == 0 {
        proof {
            lemma_header_bytes();
            assert(first_line(lv).len() == 0);
        }
        return Err(GuardianError::InvalidBaseline);
    }
    if !bytes_equal(lines[0].as_slice(), BASELINE_HEADER.as_bytes()) {
        return Err(GuardianError::InvalidBaseline);
    }
    let mut baseline = Baseline::new();
    let mut i: usize = 1;
    assert(lv.subrange(1, 1) =~= Seq::<Seq<u8>>::empty());
    while i < lines.len()
        invariant
            1 <= i <= lines.len(),
            lv == lines_view(lines@),
            baseline@ == lines_map(lv.subrange(1, i as int)),
        decreases lines.len() - i,
    {
        let line = &lines[i];
        let j = find_byte_from(line.as_slice(), 0, 0x7c);
        proof {
            assert(line@.skip(0) =~= line@);
            lemma_find_byte_bounds(line@, 0x7cu8);
            let next = lv.subrange(1, i + 1);
            assert(next.drop_last() =~= lv.subrange(1, i as int));
            assert(next.last() == line@);
        }
        if j < line.len() {
            let path = copy_range(line.as_slice(), 0, j);
            let hash = copy_range(line.as_slice(), j + 1, line.len());
            proof {
                assert(path@ =~= line@.take(j as int));
                assert(hash@ =~= line@.skip(j + 1));
            }
            baseline.insert(path, hash);
        }
        i = i + 1;
    }
    assert(lv.subrange(1, lines.len() as int) =~= lv.drop_first());
    Ok(baseline)
}

/// The line that records a file: its path, `|`, its digest, a line feed.
pub open spec fn record_line(r: (Seq<u8>, Seq<u8>)) -> Seq<u8> {
    r.0 + seq![0x7cu8] + r.1 + seq![0x0au8]
}

/// The record lines of the pairs, in order.
pub open spec fn records_text(rs: Seq<(Seq<u8>, Seq<u8>)>) -> Seq<u8>
    decreases rs.len(),
{
    if rs.len() == 0 {
        Seq::empty()
    } else {
        records_text(rs.drop_last()) + record_line(rs.last())
    }
}

/// The baseline text of the pairs: the header line, then a record line for
/// each pair.
pub open spec fn baseline_text_bytes(rs: Seq<(Seq<u8>, Seq<u8>)>) -> Seq<u8> {
    BASELINE_HEADER.spec_bytes() + seq![0x0au8] + records_text(rs)
}

/// Pairs of strings seen as the pairs of their UTF-8 bytes.
pub open spec fn text_pairs_view(rs: Seq<(String, String)>) -> Seq<(Seq<u8>, Seq<u8>)> {
    rs.map_values(|r: (String, String)| (encode_utf8(r.0@), encode_utf8(r.1@)))
}

/// Builds the baseline text of a scan from each file's relative path and
/// hex digest, in the order given.
pub fn build_baseline_text(records: &Vec<(String, String)>) -> (text: String)
    ensures
        encode_utf8(text@) == baseline_text_bytes(text_pairs_view(records@)),
        text@ == decode_utf8(baseline_text_bytes(text_pairs_view(records@))),
{
    broadcast use vstd::utf8::encode_utf8_valid_utf8, vstd::utf8::valid_utf8_concat;

    let ghost rv = text_pairs_view(records@);
    let mut bytes: Vec<u8> = Vec::new();
    append_bytes(&mut bytes, BASELINE_HEADER.as_bytes());
    bytes.push(0x0a);
    proof {
        lemma_ascii_byte_valid(0x0au8);
        lemma_ascii_byte_valid(0x7cu8);
        assert(bytes@ =~= BASELINE_HEADER.spec_bytes() + seq![0x0au8]);
        assert(rv.take(0) =~= Seq::<(Seq<u8>, Seq<u8>)>::empty());
        assert(bytes@ =~= baseline_text_bytes(rv.take(0)));
    }
    let mut i: usize = 0;
    while i < records.len()
        invariant
            i <= records.len(),
            rv == text_pairs_view(records@),
            bytes@ == baseline_text_bytes(rv.take(i as int)),
            valid_utf8(bytes@),
            valid_utf8(seq![0x0au8]),
            valid_utf8(seq![0x7cu8]),
        decreases records.len() - i,
    {
        let ghost before = bytes@;
        let r = &records[i];
        append_bytes(&mut bytes, r.0.as_str().as_bytes());
        bytes.push(0x7c);
        append_bytes(&mut bytes, r.1.as_str().as_bytes());
        bytes.push(0x0a);
        proof {
            let p = encode_utf8(r.0@);
            let h = encode_utf8(r.1@);
            assert(rv[i as int] == (p, h));
            assert(rv.take(i + 1).drop_last() =~= rv.take(i as int));
            assert(bytes@ =~= before + p + seq![0x7cu8] + h + seq![0x0au8]);
            assert(bytes@ =~= baseline_text_bytes(rv.take(i + 1)));
            encode_utf8_valid_utf8(r.0@);
            encode_utf8_valid_utf8(r.1@);
            valid_utf8_concat(before, p);
            valid_utf8_concat(before + p, seq![0x7cu8]);
            valid_utf8_concat(before + p + seq![0x7cu8], h);
            valid_utf8_concat(before + p + seq![0x7cu8] + h, seq![0x0au8]);
        }
        i = i + 1;
    }
    proof {
        assert(rv.take(records.len() as int) =~= rv);
        decode_utf8_encode_utf8(bytes@);
    }
    match string_from_utf8(bytes) {
        Some(text) => text,
        None => {
            proof {
                assert(false);
            }
            String::new()
        },
    }
}

/// A pair that a baseline line can hold and give back: the path has no line
/// feed and no `|`, the digest no line feed and no carriage return at its end.
pub open spec fn is_plain_record(r: (Seq<u8>, Seq<u8>)) -> bool {
    &&& !r.0.contains(0x0au8)
    &&& !r.0.contains(0x7cu8)
    &&& !r.1.contains(0x0au8)
    &&& !(r.1.len() > 0 && r.1.last() == 0x0du8)
}

proof fn lemma_text_lines_concat(a: Seq<u8>, b: Seq<u8>)
    requires
        a.len() == 0 || a.last() == 0x0au8,
    ensures
        text_lines(a + b) == text_lines(a) + text_lines(b),
    decreases a.len(),
{
    if a.len() == 0 {
        assert(a + b =~= b);
        assert(text_lines(a) + text_lines(b) =~= text_lines(b));
    } else {
        let k = find_byte(a, 0x0au8);
        lemma_find_byte_bounds(a, 0x0au8);
        assert(k < a.len());
        let ab = a + b;
        lemma_find_byte(ab, 0x0au8, k);
        assert(ab.take(k) =~= a.take(k));
        assert(ab.skip(k + 1) =~= a.skip(k + 1) + b);
        let rest = a.skip(k + 1);
        if rest.len() > 0 {
            assert(rest.last() == a.last());
        }
        lemma_text_lines_concat(rest, b);
        assert(text_lines(ab) =~= text_lines(a) + text_lines(b));
    }
}

proof fn lemma_text_lines_single(line: Seq<u8>)
    requires
        !line.contains(0x0au8),
        !(line.len() > 0 && line.last() == 0x0du8),
    ensures
        text_lines(line + seq![0x0au8]) == seq![line],
{
    let s = line + seq![0x0au8];
    assert forall|j: int| 0 <= j < line.len() implies s[j] != 0x0au8 by {
        assert(s[j] == line[j]);
    }
    lemma_find_byte(s, 0x0au8, line.len() as int);
    assert(s.take(line.len() as int) =~= line);
    assert(s.skip(line.len() as int + 1) =~= Seq::<u8>::empty());
    assert(strip_cr(line) == line);
    assert(text_lines(Seq::<u8>::empty()) =~= Seq::<Seq<u8>>::empty());
    assert(text_lines(s) == seq![strip_cr(s.take(line.len() as int))] + text_lines(
        s.skip(line.len() as int + 1),
    ));
    assert(text_lines(s) =~= seq![line]);
}

/// The content of a record line, without its line feed.
pub open spec fn record_content(r: (Seq<u8>, Seq<u8>)) -> Seq<u8> {
    r.0 + seq![0x7cu8] + r.1
}

proof fn lemma_records_text_lines(rs: Seq<(Seq<u8>, Seq<u8>)>)
    requires
        forall|i: int| 0 <= i < rs.len() ==> is_plain_record(#[trigger] rs[i]),
    ensures
        text_lines(records_text(rs)) == rs.map_values(|r: (Seq<u8>, Seq<u8>)| record_content(r)),
        records_text(rs).len() == 0 || records_text(rs).last() == 0x0au8,
    decreases rs.len(),
{
    if rs.len() > 0 {
        let init = rs.drop_last();
        let r = rs.last();
        assert forall|i: int| 0 <= i < init.len() implies is_plain_record(#[trigger] init[i]) by {
            assert(init[i] == rs[i]);
        }
        lemma_records_text_lines(init);
        assert(is_plain_record(rs[rs.len() - 1]));
        let c = record_content(r);
        assert(!c.contains(0x0au8)) by {
            if c.contains(0x0au8) {
                let j = choose|j: int| 0 <= j < c.len() && c[j] == 0x0au8;
                if j < r.0.len() {
                    assert(r.0[j] == 0x0au8);
                } else if j > r.0.len() {
                    assert(r.1[j - r.0.len() - 1] == 0x0au8);
                }
            }
        }
        if r.1.len() > 0 {
            assert(c.last() == r.1.last());
        }
        assert(record_line(r) =~= c + seq![0x0au8]);
        lemma_text_lines_single(c);
        lemma_text_lines_concat(records_text(init), record_line(r));
        assert(rs.map_values(|r: (Seq<u8>, Seq<u8>)| record_content(r)) =~= init.map_values(
            |r: (Seq<u8>, Seq<u8>)| record_content(r),
        ).push(c));
    }
}

proof fn lemma_lines_map_records(rs: Seq<(Seq<u8>, Seq<u8>)>)
    requires
        forall|i: int| 0 <= i < rs.len() ==> is_plain_record(#[trigger] rs[i]),
    ensures
        lines_map(rs.map_values(|r: (Seq<u8>, Seq<u8>)| record_content(r))) == records_map(rs),
    decreases rs.len(),
{
    if rs.len() > 0 {
        let init = rs.drop_last();
        let r = rs.last();
        let ls = rs.map_values(|r: (Seq<u8>, Seq<u8>)| record_content(r));
        assert forall|i: int| 0 <= i < init.len() implies is_plain_record(#[trigger] init[i]) by {
            assert(init[i] == rs[i]);
        }
        lemma_lines_map_records(init);
        assert(ls.drop_last() =~= init.map_values(|r: (Seq<u8>, Seq<u8>)| record_content(r)));
        assert(is_plain_record(rs[rs.len() - 1]));
        let c = record_content(r);
        assert forall|j: int| 0 <= j < r.0.len() implies c[j] != 0x7cu8 by {
            assert(c[j] == r.0[j]);
        }
        lemma_find_byte(c, 0x7cu8, r.0.len() as int);
        assert(c.take(r.0.len() as int) =~= r.0);
        assert(c.skip(r.0.len() as int + 1) =~= r.1);
        assert(ls.last() == c);
    }
}

/// Reading back the baseline text of a scan gives the map of its pairs,
/// when every pair is plain (see `is_plain_record`).
pub proof fn lemma_baseline_text_roundtrip(rs: Seq<(Seq<u8>, Seq<u8>)>)
    requires
        forall|i: int| 0 <= i < rs.len() ==> is_plain_record(#[trigger] rs[i]),
    ensures
        parsed_baseline(baseline_text_bytes(rs)) == Some(records_map(rs)),
{
    lemma_header_bytes();
    let h = BASELINE_HEADER.spec_bytes();
    assert(!h.contains(0x0au8));
    lemma_text_lines_single(h);
    lemma_records_text_lines(rs);
    lemma_lines_map_records(rs);
    let head = h + seq![0x0au8];
    assert(baseline_text_bytes(rs) =~= head + records_text(rs));
    lemma_text_lines_concat(head, records_text(rs));
    let lines = text_lines(baseline_text_bytes(rs));
    assert(lines.drop_first() =~= rs.map_values(|r: (Seq<u8>, Seq<u8>)| record_content(r)));
}

} // verus!
