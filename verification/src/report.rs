use vstd::prelude::*;
use vstd::string::StringSliceAdditionalSpecFns;
use crate::baseline::{
    Baseline,
    baseline_text_bytes,
    distinct_paths,
    is_plain_record,
    lemma_baseline_text_roundtrip,
    parsed_baseline,
    lemma_records_map_dom,
    lemma_records_map_value,
    records_map,
};
use crate::bytes::{append_bytes, bytes_equal, decimal, decimal_bytes};

verus! {

/// What a check finds of a file.
#[derive(Debug, Clone, Copy, PartialEq, Eq, Structural)]
pub enum FileStatus {
    /// In the baseline and in the folder, with the same digest.
    Unchanged,
    /// In the baseline and in the folder, with another digest.
    Modified,
    /// In the folder only.
    New,
    /// In the baseline only.
    Deleted,
}

/// One line of a check's report: a file's path and what became of it.
#[derive(Debug)]
pub struct Finding {
    pub status: FileStatus,
    pub path: Vec<u8>,
}

impl View for Finding {
    type V = (FileStatus, Seq<u8>);

    open spec fn view(&self) -> (FileStatus, Seq<u8>) {
        (self.status, self.path@)
    }
}

/// Findings seen as status and path pairs.
pub open spec fn findings_view(fs: Seq<Finding>) -> Seq<(FileStatus, Seq<u8>)> {
    fs.map_values(|f: Finding| f@)
}

/// The status of a baseline file, given the current digests of the folder.
pub open spec fn status_of(path: Seq<u8>, hash: Seq<u8>, current: Map<Seq<u8>, Seq<u8>>) -> FileStatus {
    if current.dom().contains(path) {
        if current[path] == hash {
            FileStatus::Unchanged
        } else {
            FileStatus::Modified
        }
    } else {
        FileStatus::Deleted
    }
}

/// The findings for the files of the baseline, in its order.
pub open spec fn old_findings(old: Seq<(Seq<u8>, Seq<u8>)>, current: Map<Seq<u8>, Seq<u8>>) -> Seq<
    (FileStatus, Seq<u8>),
> {
    old.map_values(|r: (Seq<u8>, Seq<u8>)| (status_of(r.0, r.1, current), r.0))
}

/// The findings for the files of the folder that the baseline lacks, in
/// the folder's order.
pub open spec fn new_findings(current: Seq<(Seq<u8>, Seq<u8>)>, old: Map<Seq<u8>, Seq<u8>>) -> Seq<
    (FileStatus, Seq<u8>),
>
    decreases current.len(),
{
    if current.len() == 0 {
        Seq::empty()
    } else {
        let init = new_findings(current.drop_last(), old);
        if old.dom().contains(current.last().0) {
            init
        } else {
            init.push((FileStatus::New, current.last().0))
        }
    }
}

/// The findings of a check: first the baseline's files, then the new ones.
pub open spec fn comparison(old: Seq<(Seq<u8>, Seq<u8>)>, current: Seq<(Seq<u8>, Seq<u8>)>) -> Seq<
    (FileStatus, Seq<u8>),
> {
    old_findings(old, records_map(current)) + new_findings(current, records_map(old))
}

/// Whether a status is the right one for a path, given the baseline and
/// the current digests.
pub open spec fn classified(
    status: FileStatus,
    path: Seq<u8>,
    old: Map<Seq<u8>, Seq<u8>>,
    current: Map<Seq<u8>, Seq<u8>>,
) -> bool {
    match status {
        FileStatus::Unchanged => old.dom().contains(path) && current.dom().contains(path)
            && old[path] == current[path],
        FileStatus::Modified => old.dom().contains(path) && current.dom().contains(path)
            && old[path] != current[path],
        FileStatus::Deleted => old.dom().contains(path) && !current.dom().contains(path),
        FileStatus::New => !old.dom().contains(path) && current.dom().contains(path),
    }
}

/// A report of every file of the baseline and of the folder, each once,
/// each with its right status.
pub open spec fn is_full_report(
    fs: Seq<(FileStatus, Seq<u8>)>,
    old: Map<Seq<u8>, Seq<u8>>,
    current: Map<Seq<u8>, Seq<u8>>,
) -> bool {
    &&& forall|i: int| 0 <= i < fs.len() ==> classified(#[trigger] fs[i].0, fs[i].1, old, current)
    &&& forall|p: Seq<u8>|
        old.dom().contains(p) || current.dom().contains(p) ==> exists|i: int|
            0 <= i < fs.len() && #[trigger] fs[i].1 == p
    &&& forall|i: int, j: int| 0 <= i < j < fs.len() ==> #[trigger] fs[i].1 != #[trigger] fs[j].1
}

proof fn lemma_new_findings_step(current: Seq<(Seq<u8>, Seq<u8>)>, old: Map<Seq<u8>, Seq<u8>>)
    requires
        current.len() > 0,
    ensures
        new_findings(current, old) == if old.dom().contains(current.last().0) {
            new_findings(current.drop_last(), old)
        } else {
            new_findings(current.drop_last(), old).push((FileStatus::New, current.last().0))
        },
{
}

/// Each new finding is a file of the folder that the baseline lacks.
proof fn lemma_new_findings_sound(current: Seq<(Seq<u8>, Seq<u8>)>, old: Map<Seq<u8>, Seq<u8>>)
    ensures
        forall|k: int|
            0 <= k < new_findings(current, old).len() ==> {
                &&& (#[trigger] new_findings(current, old)[k]).0 == FileStatus::New
                &&& !old.dom().contains(new_findings(current, old)[k].1)
                &&& exists|j: int|
                    0 <= j < current.len() && #[trigger] current[j].0 == new_findings(
                        current,
                        old,
                    )[k].1
            },
    decreases current.len(),
{
    if current.len() > 0 {
        let init = current.drop_last();
        lemma_new_findings_sound(init, old);
        lemma_new_findings_step(current, old);
        let nf0 = new_findings(init, old);
        let nf = new_findings(current, old);
        assert forall|k: int| 0 <= k < nf.len() implies {
            &&& (#[trigger] nf[k]).0 == FileStatus::New
            &&& !old.dom().contains(nf[k].1)
            &&& exists|j: int| 0 <= j < current.len() && #[trigger] current[j].0 == nf[k].1
        } by {
            if k < nf0.len() {
                assert(nf[k] == nf0[k]);
                let j = choose|j: int| 0 <= j < init.len() && #[trigger] init[j].0 == nf0[k].1;
                assert(current[j] == init[j]);
            } else {
                assert(current[current.len() - 1].0 == nf[k].1);
            }
        }
    }
}

/// Each file of the folder that the baseline lacks has a new finding.
proof fn lemma_new_findings_complete(current: Seq<(Seq<u8>, Seq<u8>)>, old: Map<Seq<u8>, Seq<u8>>)
    ensures
        forall|j: int|
            0 <= j < current.len() && !old.dom().contains(#[trigger] current[j].0) ==> exists|k: int|
                0 <= k < new_findings(current, old).len() && #[trigger] new_findings(
                    current,
                    old,
                )[k].1 == current[j].0,
    decreases current.len(),
{
    if current.len() > 0 {
        let init = current.drop_last();
        lemma_new_findings_complete(init, old);
        lemma_new_findings_step(current, old);
        let nf0 = new_findings(init, old);
        let nf = new_findings(current, old);
        assert forall|j: int|
            0 <= j < current.len() && !old.dom().contains(#[trigger] current[j].0) implies exists|
            k: int,
        | 0 <= k < nf.len() && #[trigger] nf[k].1 == current[j].0 by {
            if j < current.len() - 1 {
                assert(init[j] == current[j]);
                let k = choose|k: int| 0 <= k < nf0.len() && #[trigger] nf0[k].1 == init[j].0;
                assert(nf[k] == nf0[k]);
            } else {
                assert(nf[nf.len() - 1].1 == current[j].0);
            }
        }
    }
}

/// No file has two new findings.
proof fn lemma_new_findings_distinct(current: Seq<(Seq<u8>, Seq<u8>)>, old: Map<Seq<u8>, Seq<u8>>)
    requires
        distinct_paths(current),
    ensures
        forall|a: int, b: int|
            0 <= a < b < new_findings(current, old).len() ==> #[trigger] new_findings(
                current,
                old,
            )[a].1 != #[trigger] new_findings(current, old)[b].1,
    decreases current.len(),
{
    if current.len() > 0 {
        let init = current.drop_last();
        assert(distinct_paths(init));
        lemma_new_findings_distinct(init, old);
        lemma_new_findings_sound(init, old);
        lemma_new_findings_step(current, old);
        let nf0 = new_findings(init, old);
        let nf = new_findings(current, old);
        assert forall|a: int, b: int| 0 <= a < b < nf.len() implies #[trigger] nf[a].1
            != #[trigger] nf[b].1 by {
            assert(nf[a] == nf0[a]);
            if b < nf0.len() {
                assert(nf[b] == nf0[b]);
            } else {
                let j = choose|j: int| 0 <= j < init.len() && #[trigger] init[j].0 == nf0[a].1;
                assert(current[j] == init[j]);
                assert(current[j].0 != current[current.len() - 1].0);
            }
        }
    }
}

proof fn lemma_comparison_classified(old: Seq<(Seq<u8>, Seq<u8>)>, current: Seq<(Seq<u8>, Seq<u8>)>)
    requires
        distinct_paths(old),
        distinct_paths(current),
    ensures
        forall|i: int|
            0 <= i < comparison(old, current).len() ==> classified(
                #[trigger] comparison(old, current)[i].0,
                comparison(old, current)[i].1,
                records_map(old),
                records_map(current),
            ),
{
    let om = records_map(old);
    let cm = records_map(current);
    let of = old_findings(old, cm);
    let nf = new_findings(current, om);
    let fs = comparison(old, current);
    lemma_new_findings_sound(current, om);
    assert forall|i: int| 0 <= i < fs.len() implies classified(
        #[trigger] fs[i].0,
        fs[i].1,
        om,
        cm,
    ) by {
        if i < old.len() {
            assert(fs[i] == of[i]);
            lemma_records_map_value(old, i);
            lemma_records_map_dom(current, old[i].0);
            if cm.dom().contains(old[i].0) {
                let j = choose|j: int| 0 <= j < current.len() && #[trigger] current[j].0 == old[i].0;
                lemma_records_map_value(current, j);
            }
        } else {
            assert(fs[i] == nf[i - old.len()]);
            let j = choose|j: int|
                0 <= j < current.len() && #[trigger] current[j].0 == nf[i - old.len()].1;
            lemma_records_map_value(current, j);
        }
    }
}

proof fn lemma_comparison_complete(old: Seq<(Seq<u8>, Seq<u8>)>, current: Seq<(Seq<u8>, Seq<u8>)>)
    ensures
        forall|p: Seq<u8>|
            records_map(old).dom().contains(p) || records_map(current).dom().contains(p)
                ==> exists|i: int|
                0 <= i < comparison(old, current).len() && #[trigger] comparison(old, current)[i].1
                    == p,
{
    let om = records_map(old);
    let cm = records_map(current);
    let of = old_findings(old, cm);
    let nf = new_findings(current, om);
    let fs = comparison(old, current);
    lemma_new_findings_complete(current, om);
    assert forall|p: Seq<u8>| om.dom().contains(p) || cm.dom().contains(p) implies exists|i: int|
        0 <= i < fs.len() && #[trigger] fs[i].1 == p by {
        lemma_records_map_dom(old, p);
        lemma_records_map_dom(current, p);
        if om.dom().contains(p) {
            let i = choose|i: int| 0 <= i < old.len() && #[trigger] old[i].0 == p;
            assert(fs[i] == of[i]);
            assert(fs[i].1 == p);
        } else {
            let j = choose|j: int| 0 <= j < current.len() && #[trigger] current[j].0 == p;
            assert(!om.dom().contains(current[j].0));
            let k = choose|k: int| 0 <= k < nf.len() && #[trigger] nf[k].1 == current[j].0;
            assert(fs[old.len() + k] == nf[k]);
            assert(fs[old.len() + k].1 == p);
        }
    }
}

proof fn lemma_comparison_distinct(old: Seq<(Seq<u8>, Seq<u8>)>, current: Seq<(Seq<u8>, Seq<u8>)>)
    requires
        distinct_paths(old),
        distinct_paths(current),
    ensures
        forall|i: int, j: int|
            0 <= i < j < comparison(old, current).len() ==> #[trigger] comparison(old, current)[i].1
                != #[trigger] comparison(old, current)[j].1,
{
    let om = records_map(old);
    let cm = records_map(current);
    let of = old_findings(old, cm);
    let nf = new_findings(current, om);
    let fs = comparison(old, current);
    lemma_new_findings_sound(current, om);
    lemma_new_findings_distinct(current, om);
    assert forall|i: int, j: int| 0 <= i < j < fs.len() implies #[trigger] fs[i].1
        != #[trigger] fs[j].1 by {
        if j < old.len() {
            assert(fs[i] == of[i]);
            assert(fs[j] == of[j]);
        } else if i < old.len() {
            assert(fs[i] == of[i]);
            assert(fs[j] == nf[j - old.len()]);
            lemma_records_map_value(old, i);
        } else {
            assert(fs[i] == nf[i - old.len()]);
            assert(fs[j] == nf[j - old.len()]);
        }
    }
}

/// A check reports every file of the baseline and of the folder exactly
/// once, as unchanged or modified when it is in both (by whether the
/// digests agree), deleted when only the baseline has it, and new when
/// only the folder has it.
pub proof fn lemma_comparison_is_full_report(
    old: Seq<(Seq<u8>, Seq<u8>)>,
    current: Seq<(Seq<u8>, Seq<u8>)>,
)
    requires
        distinct_paths(old),
        distinct_paths(current),
    ensures
        is_full_report(comparison(old, current), records_map(old), records_map(current)),
{
    lemma_comparison_classified(old, current);
    lemma_comparison_complete(old, current);
    lemma_comparison_distinct(old, current);
}

/// Checking a folder against a baseline that records exactly its current
/// digests reports every file as unchanged.
pub proof fn lemma_same_digests_all_unchanged(
    old: Seq<(Seq<u8>, Seq<u8>)>,
    current: Seq<(Seq<u8>, Seq<u8>)>,
)
    requires
        distinct_paths(old),
        distinct_paths(current),
        records_map(old) == records_map(current),
    ensures
        forall|i: int|
            0 <= i < comparison(old, current).len() ==> (#[trigger] comparison(old, current)[i]).0
                == FileStatus::Unchanged,
{
    lemma_comparison_is_full_report(old, current);
    let fs = comparison(old, current);
    assert forall|i: int| 0 <= i < fs.len() implies (#[trigger] fs[i]).0 == FileStatus::Unchanged by {
        assert(classified(fs[i].0, fs[i].1, records_map(old), records_map(current)));
    }
}

/// Checking a folder whose files and digests are those that a scan
/// recorded reports every file as unchanged: `old` is what reading back the
/// scan's baseline text gave, `current` the folder's digests now.
pub proof fn lemma_rescan_reports_unchanged(
    scanned: Seq<(Seq<u8>, Seq<u8>)>,
    old: Seq<(Seq<u8>, Seq<u8>)>,
    current: Seq<(Seq<u8>, Seq<u8>)>,
)
    requires
        forall|i: int| 0 <= i < scanned.len() ==> is_plain_record(#[trigger] scanned[i]),
        distinct_paths(old),
        distinct_paths(current),
        parsed_baseline(baseline_text_bytes(scanned)) == Some(records_map(old)),
        records_map(current) == records_map(scanned),
    ensures
        forall|i: int|
            0 <= i < comparison(old, current).len() ==> (#[trigger] comparison(old, current)[i]).0
                == FileStatus::Unchanged,
{
    lemma_baseline_text_roundtrip(scanned);
    lemma_same_digests_all_unchanged(old, current);
}

fn copy_bytes(src: &Vec<u8>) -> (out: Vec<u8>)
    ensures
        out@ == src@,
{
    let mut out: Vec<u8> = Vec::new();
    append_bytes(&mut out, src.as_slice());
    out
}

/// Compares a baseline with the current digests of the folder: a finding
/// for each baseline file, in the baseline's order, then one for each new
/// file, in the folder's order.
pub fn compare_baselines(old: &Baseline, current: &Baseline) -> (findings: Vec<Finding>)
    ensures
        findings_view(findings@) == comparison(old.records(), current.records()),
        is_full_report(findings_view(findings@), old@, current@),
{
    proof {
        use_type_invariant(old);
        use_type_invariant(current);
        lemma_comparison_is_full_report(old.records(), current.records());
    }
    let ghost om = old@;
    let ghost cm = current@;
    let mut findings: Vec<Finding> = Vec::new();
    let mut i: usize = 0;
    while i < old.len()
        invariant
            i <= old.records().len(),
            cm == current@,
            findings_view(findings@) == old_findings(old.records().take(i as int), cm),
        decreases old.records().len() - i,
    {
        let (path, hash) = old.record(i);
        let status = match current.get(path.as_slice()) {
            Some(current_hash) => {
                if bytes_equal(hash.as_slice(), current_hash.as_slice()) {
                    FileStatus::Unchanged
                } else {
                    FileStatus::Modified
                }
            },
            None => FileStatus::Deleted,
        };
        let ghost before = findings@;
        findings.push(Finding { status, path: copy_bytes(path) });
        proof {
            assert(old.records().take(i + 1) =~= old.records().take(i as int).push(
                old.records()[i as int],
            ));
            assert(findings_view(findings@) =~= findings_view(before).push(
                (status, path@),
            ));
            assert(findings_view(findings@) =~= old_findings(old.records().take(i + 1), cm));
        }
        i = i + 1;
    }
    assert(old.records().take(old.records().len() as int) =~= old.records());
    let ghost first_part = findings_view(findings@);
    let mut k: usize = 0;
    assert(current.records().take(0) =~= Seq::<(Seq<u8>, Seq<u8>)>::empty());
    while k < current.len()
        invariant
            k <= current.records().len(),
            om == old@,
            findings_view(findings@) == first_part + new_findings(
                current.records().take(k as int),
                om,
            ),
        decreases current.records().len() - k,
    {
        let (path, _hash) = current.record(k);
        let ghost before = findings@;
        proof {
            assert(current.records().take(k + 1).drop_last() =~= current.records().take(
                k as int,
            ));
        }
        if old.get(path.as_slice()).is_none() {
            findings.push(Finding { status: FileStatus::New, path: copy_bytes(path) });
            proof {
                assert(findings_view(findings@) =~= findings_view(before).push(
                    (FileStatus::New, path@),
                ));
            }
        }
        proof {
            assert(findings_view(findings@) =~= first_part + new_findings(
                current.records().take(k + 1),
                om,
            ));
        }
        k = k + 1;
    }
    assert(current.records().take(current.records().len() as int) =~= current.records());
    findings
}

/// The number of findings with a status.
pub open spec fn status_count(fs: Seq<(FileStatus, Seq<u8>)>, status: FileStatus) -> nat
    decreases fs.len(),
{
    if fs.len() == 0 {
        0
    } else {
        status_count(fs.drop_last(), status) + if fs.last().0 == status {
            1nat
        } else {
            0nat
        }
    }
}

/// How many files a check found of each kind.
#[derive(Debug, Clone, Copy, PartialEq, Eq)]
pub struct Summary {
    pub unchanged: usize,
    pub modified: usize,
    pub new: usize,
    pub deleted: usize,
}

/// Counts the findings of each kind; every finding is counted once.
pub fn summarize(findings: &Vec<Finding>) -> (summary: Summary)
    ensures
        summary.unchanged == status_count(findings_view(findings@), FileStatus::Unchanged),
        summary.modified == status_count(findings_view(findings@), FileStatus::Modified),
        summary.new == status_count(findings_view(findings@), FileStatus::New),
        summary.deleted == status_count(findings_view(findings@), FileStatus::Deleted),
        summary.unchanged + summary.modified + summary.new + summary.deleted == findings.len(),
{
    let ghost fv = findings_view(findings@);
    let mut summary = Summary { unchanged: 0, modified: 0, new: 0, deleted: 0 };
    let mut i: usize = 0;
    while i < findings.len()
        invariant
            i <= findings.len(),
            fv == findings_view(findings@),
            summary.unchanged == status_count(fv.take(i as int), FileStatus::Unchanged),
            summary.modified == status_count(fv.take(i as int), FileStatus::Modified),
            summary.new == status_count(fv.take(i as int), FileStatus::New),
            summary.deleted == status_count(fv.take(i as int), FileStatus::Deleted),
            summary.unchanged + summary.modified + summary.new + summary.deleted == i,
        decreases findings.len() - i,
    {
        proof {
            assert(fv.take(i + 1).drop_last() =~= fv.take(i as int));
            assert(fv.take(i + 1).last() == findings@[i as int]@);
        }
        match findings[i].status {
            FileStatus::Unchanged => summary.unchanged = summary.unchanged + 1,
            FileStatus::Modified => summary.modified = summary.modified + 1,
            FileStatus::New => summary.new = summary.new + 1,
            FileStatus::Deleted => summary.deleted = summary.deleted + 1,
        }
        i = i + 1;
    }
    assert(fv.take(findings.len() as int) =~= fv);
    summary
}

/// The label that opens a report line.
pub open spec fn status_label(status: FileStatus) -> Seq<u8> {
    match status {
        FileStatus::Unchanged => "[UNCHANGED] ".spec_bytes(),
        FileStatus::Modified => "[MODIFIED] ".spec_bytes(),
        FileStatus::New => "[NEW] ".spec_bytes(),
        FileStatus::Deleted => "[DELETED] ".spec_bytes(),
    }
}

/// The report line of a finding: its label, its path, a line feed.
pub open spec fn finding_line(f: (FileStatus, Seq<u8>)) -> Seq<u8> {
    status_label(f.0) + f.1 + seq![0x0au8]
}

/// The report lines of the findings, in order.
pub open spec fn findings_text(fs: Seq<(FileStatus, Seq<u8>)>) -> Seq<u8>
    decreases fs.len(),
{
    if fs.len() == 0 {
        Seq::empty()
    } else {
        findings_text(fs.drop_last()) + finding_line(fs.last())
    }
}

/// The summary that closes a report.
pub open spec fn summary_text(unchanged: nat, modified: nat, new: nat, deleted: nat) -> Seq<u8> {
    "\n===== Summary =====\n".spec_bytes() + "Unchanged: ".spec_bytes() + decimal(unchanged) + seq![
        0x0au8,
    ] + "Modified: ".spec_bytes() + decimal(modified) + seq![0x0au8] + "New: ".spec_bytes()
        + decimal(new) + seq![0x0au8] + "Deleted: ".spec_bytes() + decimal(deleted) + seq![
        0x0au8,
    ]
}

/// The text of a check's report: a title, a line per finding, and the
/// number of findings of each kind.
pub open spec fn report_text(fs: Seq<(FileStatus, Seq<u8>)>) -> Seq<u8> {
    "===== File Guardian Report =====\n\n".spec_bytes() + findings_text(fs) + summary_text(
        status_count(fs, FileStatus::Unchanged),
        status_count(fs, FileStatus::Modified),
        status_count(fs, FileStatus::New),
        status_count(fs, FileStatus::Deleted),
    )
}

fn push_label(out: &mut Vec<u8>, status: FileStatus)
    ensures
        final(out)@ == old(out)@ + status_label(status),
{
    match status {
        FileStatus::Unchanged => append_bytes(out, "[UNCHANGED] ".as_bytes()),
        FileStatus::Modified => append_bytes(out, "[MODIFIED] ".as_bytes()),
        FileStatus::New => append_bytes(out, "[NEW] ".as_bytes()),
        FileStatus::Deleted => append_bytes(out, "[DELETED] ".as_bytes()),
    }
}

fn push_finding_line(out: &mut Vec<u8>, finding: &Finding)
    ensures
        final(out)@ == old(out)@ + finding_line(finding@),
{
    push_label(out, finding.status);
    append_bytes(out, finding.path.as_slice());
    out.push(0x0a);
    assert(final(out)@ =~= old(out)@ + finding_line(finding@));
}

/// The report line of one finding, as the check prints it.
pub fn render_finding(finding: &Finding) -> (line: Vec<u8>)
    ensures
        line@ == finding_line(finding@),
{
    let mut line: Vec<u8> = Vec::new();
    push_finding_line(&mut line, finding);
    assert(line@ =~= finding_line(finding@));
    line
}

fn push_count(out: &mut Vec<u8>, label: &str, count: usize)
    ensures
        final(out)@ == old(out)@ + label.spec_bytes() + decimal(count as nat) + seq![0x0au8],
{
    append_bytes(out, label.as_bytes());
    let digits = decimal_bytes(count);
    append_bytes(out, digits.as_slice());
    out.push(0x0a);
    assert(final(out)@ =~= old(out)@ + label.spec_bytes() + decimal(count as nat) + seq![0x0au8]);
}

/// The text of a check's report on these findings.
pub fn render_report(findings: &Vec<Finding>) -> (report: Vec<u8>)
    ensures
        report@ == report_text(findings_view(findings@)),
{
    let ghost fv = findings_view(findings@);
    let mut report: Vec<u8> = Vec::new();
    append_bytes(&mut report, "===== File Guardian Report =====\n\n".as_bytes());
    let ghost title = report@;
    let mut i: usize = 0;
    assert(fv.take(0) =~= Seq::<(FileStatus, Seq<u8>)>::empty());
    assert(report@ =~= title + findings_text(fv.take(0)));
    while i < findings.len()
        invariant
            i <= findings.len(),
            fv == findings_view(findings@),
            report@ == title + findings_text(fv.take(i as int)),
        decreases findings.len() - i,
    {
        push_finding_line(&mut report, &findings[i]);
        proof {
            assert(fv.take(i + 1).drop_last() =~= fv.take(i as int));
            assert(fv.take(i + 1).last() == findings@[i as int]@);
            assert(report@ =~= title + findings_text(fv.take(i + 1)));
        }
        i = i + 1;
    }
    assert(fv.take(findings.len() as int) =~= fv);
    let summary = summarize(findings);
    let ghost body = report@;
    append_bytes(&mut report, "\n===== Summary =====\n".as_bytes());
    push_count(&mut report, "Unchanged: ", summary.unchanged);
    push_count(&mut report, "Modified: ", summary.modified);
    push_count(&mut report, "New: ", summary.new);
    push_count(&mut report, "Deleted: ", summary.deleted);
    assert(report@ =~= body + summary_text(
        summary.unchanged as nat,
        summary.modified as nat,
        summary.new as nat,
        summary.deleted as nat,
    ));
    report
}

/// The paths of the findings with a status.
pub open spec fn status_paths(fs: Seq<(FileStatus, Seq<u8>)>, status: FileStatus) -> Set<Seq<u8>>
    decreases fs.len(),
{
    if fs.len() == 0 {
        Set::empty()
    } else {
        let rest = status_paths(fs.drop_last(), status);
        if fs.last().0 == status {
            rest.insert(fs.last().1)
        } else {
            rest
        }
    }
}

proof fn lemma_status_paths(fs: Seq<(FileStatus, Seq<u8>)>, status: FileStatus)
    requires
        forall|i: int, j: int| 0 <= i < j < fs.len() ==> #[trigger] fs[i].1 != #[trigger] fs[j].1,
    ensures
        status_paths(fs, status).finite(),
        status_paths(fs, status).len() == status_count(fs, status),
        forall|p: Seq<u8>|
            #[trigger] status_paths(fs, status).contains(p) <==> exists|i: int|
                0 <= i < fs.len() && fs[i].1 == p && fs[i].0 == status,
    decreases fs.len(),
{
    if fs.len() > 0 {
        let init = fs.drop_last();
        assert forall|i: int, j: int| 0 <= i < j < init.len() implies #[trigger] init[i].1
            != #[trigger] init[j].1 by {
            assert(init[i] == fs[i]);
            assert(init[j] == fs[j]);
        }
        lemma_status_paths(init, status);
        let rest = status_paths(init, status);
        let last = fs.last();
        assert(!rest.contains(last.1)) by {
            if rest.contains(last.1) {
                let i = choose|i: int| 0 <= i < init.len() && init[i].1 == last.1 && init[i].0 == status;
                assert(fs[i] == init[i]);
                assert(fs[i].1 != fs[fs.len() - 1].1);
            }
        }
        assert forall|p: Seq<u8>|
            #[trigger] status_paths(fs, status).contains(p) <==> exists|i: int|
                0 <= i < fs.len() && fs[i].1 == p && fs[i].0 == status by {
            if exists|i: int| 0 <= i < fs.len() && fs[i].1 == p && fs[i].0 == status {
                let i = choose|i: int| 0 <= i < fs.len() && fs[i].1 == p && fs[i].0 == status;
                if i < fs.len() - 1 {
                    assert(init[i] == fs[i]);
                }
            }
            if rest.contains(p) {
                let i = choose|i: int| 0 <= i < init.len() && init[i].1 == p && init[i].0 == status;
                assert(fs[i] == init[i]);
            }
        }
    }
}

/// The paths in both maps with the same digest.
pub open spec fn unchanged_paths(old: Map<Seq<u8>, Seq<u8>>, current: Map<Seq<u8>, Seq<u8>>) -> Set<
    Seq<u8>,
> {
    Set::new(
        |p: Seq<u8>| old.dom().contains(p) && current.dom().contains(p) && old[p] == current[p],
    )
}

/// The paths in both maps with different digests.
pub open spec fn modified_paths(old: Map<Seq<u8>, Seq<u8>>, current: Map<Seq<u8>, Seq<u8>>) -> Set<
    Seq<u8>,
> {
    Set::new(
        |p: Seq<u8>| old.dom().contains(p) && current.dom().contains(p) && old[p] != current[p],
    )
}

/// The paths of the current map only.
pub open spec fn new_paths(old: Map<Seq<u8>, Seq<u8>>, current: Map<Seq<u8>, Seq<u8>>) -> Set<Seq<u8>> {
    current.dom().difference(old.dom())
}

/// The paths of the baseline only.
pub open spec fn deleted_paths(old: Map<Seq<u8>, Seq<u8>>, current: Map<Seq<u8>, Seq<u8>>) -> Set<
    Seq<u8>,
> {
    old.dom().difference(current.dom())
}

proof fn lemma_class_paths(
    fs: Seq<(FileStatus, Seq<u8>)>,
    old: Map<Seq<u8>, Seq<u8>>,
    current: Map<Seq<u8>, Seq<u8>>,
    status: FileStatus,
    class: Set<Seq<u8>>,
)
    requires
        is_full_report(fs, old, current),
        forall|p: Seq<u8>| #[trigger] class.contains(p) <==> classified(status, p, old, current),
    ensures
        status_count(fs, status) == class.len(),
        class.finite(),
{
    lemma_status_paths(fs, status);
    let sp = status_paths(fs, status);
    assert forall|p: Seq<u8>| #[trigger] sp.contains(p) <==> class.contains(p) by {
        if sp.contains(p) {
            let i = choose|i: int| 0 <= i < fs.len() && fs[i].1 == p && fs[i].0 == status;
            assert(classified(fs[i].0, fs[i].1, old, current));
        }
        if class.contains(p) {
            assert(old.dom().contains(p) || current.dom().contains(p));
            let i = choose|i: int| 0 <= i < fs.len() && #[trigger] fs[i].1 == p;
            assert(classified(fs[i].0, fs[i].1, old, current));
            assert(fs[i].0 == status);
        }
    }
    assert(sp =~= class);
}

/// In a full report, the number of findings of each kind is the number of
/// paths of that kind: in both with equal digests (unchanged), in both with
/// different digests (modified), in the folder only (new), in the baseline
/// only (deleted).
pub proof fn lemma_counts_are_set_sizes(
    fs: Seq<(FileStatus, Seq<u8>)>,
    old: Map<Seq<u8>, Seq<u8>>,
    current: Map<Seq<u8>, Seq<u8>>,
)
    requires
        is_full_report(fs, old, current),
    ensures
        status_count(fs, FileStatus::Unchanged) == unchanged_paths(old, current).len(),
        status_count(fs, FileStatus::Modified) == modified_paths(old, current).len(),
        status_count(fs, FileStatus::New) == new_paths(old, current).len(),
        status_count(fs, FileStatus::Deleted) == deleted_paths(old, current).len(),
{
    lemma_class_paths(fs, old, current, FileStatus::Unchanged, unchanged_paths(old, current));
    lemma_class_paths(fs, old, current, FileStatus::Modified, modified_paths(old, current));
    lemma_class_paths(fs, old, current, FileStatus::New, new_paths(old, current));
    lemma_class_paths(fs, old, current, FileStatus::Deleted, deleted_paths(old, current));
}

/// The report lines of findings one after the other are the lines of the
/// first, then those of the second.
proof fn lemma_findings_text_concat(a: Seq<(FileStatus, Seq<u8>)>, b: Seq<(FileStatus, Seq<u8>)>)
    ensures
        findings_text(a + b) == findings_text(a) + findings_text(b),
    decreases b.len(),
{
    if b.len() == 0 {
        assert(a + b =~= a);
        assert(findings_text(a) + findings_text(b) =~= findings_text(a));
    } else {
        lemma_findings_text_concat(a, b.drop_last());
        assert((a + b).drop_last() =~= a + b.drop_last());
        assert((a + b).last() == b.last());
        assert(findings_text(a + b) =~= findings_text(a) + findings_text(b));
    }
}

/// When exactly one of `n` files changed its digest and none came or went,
/// a full report has a modified finding for it, whose line stands among the
/// report's lines, and counts `n - 1` unchanged, 1 modified, no new and no
/// deleted file.
pub proof fn lemma_one_file_changed(
    fs: Seq<(FileStatus, Seq<u8>)>,
    old: Map<Seq<u8>, Seq<u8>>,
    current: Map<Seq<u8>, Seq<u8>>,
    changed: Seq<u8>,
)
    requires
        is_full_report(fs, old, current),
        old.dom().finite(),
        old.dom() == current.dom(),
        old.dom().contains(changed),
        old[changed] != current[changed],
        forall|p: Seq<u8>| old.dom().contains(p) && p != changed ==> old[p] == current[p],
    ensures
        exists|i: int| 0 <= i < fs.len() && fs[i] == (FileStatus::Modified, changed),
        status_count(fs, FileStatus::Unchanged) == old.dom().len() - 1,
        status_count(fs, FileStatus::Modified) == 1,
        status_count(fs, FileStatus::New) == 0,
        status_count(fs, FileStatus::Deleted) == 0,
        exists|i: int|
            0 <= i < fs.len() && findings_text(fs) == findings_text(fs.take(i)) + finding_line(
                (FileStatus::Modified, changed),
            ) + findings_text(fs.skip(i + 1)),
        report_text(fs) == "===== File Guardian Report =====\n\n".spec_bytes() + findings_text(fs)
            + summary_text((old.dom().len() - 1) as nat, 1, 0, 0),
{
    lemma_counts_are_set_sizes(fs, old, current);
    assert(unchanged_paths(old, current) =~= old.dom().remove(changed));
    assert(modified_paths(old, current) =~= set![changed]);
    assert(new_paths(old, current) =~= Set::<Seq<u8>>::empty());
    assert(deleted_paths(old, current) =~= Set::<Seq<u8>>::empty());
    let i = choose|i: int| 0 <= i < fs.len() && #[trigger] fs[i].1 == changed;
    assert(classified(fs[i].0, fs[i].1, old, current));
    assert(fs[i] == (FileStatus::Modified, changed));
    let pre = fs.take(i);
    let post = fs.skip(i + 1);
    assert(fs =~= pre + seq![fs[i]] + post);
    lemma_findings_text_concat(pre + seq![fs[i]], post);
    lemma_findings_text_concat(pre, seq![fs[i]]);
    let one = seq![fs[i]];
    assert(one.drop_last() =~= Seq::<(FileStatus, Seq<u8>)>::empty());
    assert(findings_text(one.drop_last()) == Seq::<u8>::empty());
    assert(one.last() == fs[i]);
    assert(findings_text(one) =~= finding_line(fs[i]));
}

/// The number of findings with a status is the length of the findings
/// kept by that status.
proof fn lemma_status_count_filter(fs: Seq<(FileStatus, Seq<u8>)>, status: FileStatus)
    ensures
        status_count(fs, status) == fs.filter(|f: (FileStatus, Seq<u8>)| f.0 == status).len(),
    decreases fs.len(),
{
    reveal(Seq::filter);
    if fs.len() > 0 {
        lemma_status_count_filter(fs.drop_last(), status);
    }
}

/// A report closes with the number of unchanged, modified, new and deleted
/// findings, in that order, each the number of findings with that status:
/// "Unchanged: u", "Modified: m", "New: n", "Deleted: d", a line each.
pub proof fn lemma_report_counts(fs: Seq<(FileStatus, Seq<u8>)>)
    ensures
        report_text(fs) == "===== File Guardian Report =====\n\n".spec_bytes() + findings_text(fs)
            + "\n===== Summary =====\n".spec_bytes() + "Unchanged: ".spec_bytes() + decimal(
            fs.filter(|f: (FileStatus, Seq<u8>)| f.0 == FileStatus::Unchanged).len(),
        ) + seq![0x0au8] + "Modified: ".spec_bytes() + decimal(
            fs.filter(|f: (FileStatus, Seq<u8>)| f.0 == FileStatus::Modified).len(),
        ) + seq![0x0au8] + "New: ".spec_bytes() + decimal(
            fs.filter(|f: (FileStatus, Seq<u8>)| f.0 == FileStatus::New).len(),
        ) + seq![0x0au8] + "Deleted: ".spec_bytes() + decimal(
            fs.filter(|f: (FileStatus, Seq<u8>)| f.0 == FileStatus::Deleted).len(),
        ) + seq![0x0au8],
{
    lemma_status_count_filter(fs, FileStatus::Unchanged);
    lemma_status_count_filter(fs, FileStatus::Modified);
    lemma_status_count_filter(fs, FileStatus::New);
    lemma_status_count_filter(fs, FileStatus::Deleted);
}

/// The report of a full comparison closes with the number of paths in both
/// with equal digests, in both with different digests, in the folder only
/// and in the baseline only, in that order.
pub proof fn lemma_full_report_counts(
    fs: Seq<(FileStatus, Seq<u8>)>,
    old: Map<Seq<u8>, Seq<u8>>,
    current: Map<Seq<u8>, Seq<u8>>,
)
    requires
        is_full_report(fs, old, current),
    ensures
        report_text(fs) == "===== File Guardian Report =====\n\n".spec_bytes() + findings_text(fs)
            + "\n===== Summary =====\n".spec_bytes() + "Unchanged: ".spec_bytes() + decimal(
            unchanged_paths(old, current).len(),
        ) + seq![0x0au8] + "Modified: ".spec_bytes() + decimal(
            modified_paths(old, current).len(),
        ) + seq![0x0au8] + "New: ".spec_bytes() + decimal(
            current.dom().difference(old.dom()).len(),
        ) + seq![0x0au8] + "Deleted: ".spec_bytes() + decimal(
            old.dom().difference(current.dom()).len(),
        ) + seq![0x0au8],
{
    lemma_report_counts(fs);
    lemma_counts_are_set_sizes(fs, old, current);
    lemma_status_count_filter(fs, FileStatus::Unchanged);
    lemma_status_count_filter(fs, FileStatus::Modified);
    lemma_status_count_filter(fs, FileStatus::New);
    lemma_status_count_filter(fs, FileStatus::Deleted);
}

} // verus!
