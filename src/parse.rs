//! Parsing the engine's text output: revision records, operation records
//! and diff summaries.

use vstd::prelude::*;
use crate::revision::{FileChange, RevisionInfo};
use crate::short_id::{compute_short_op_ids, global_short, global_short_id, has_prefix, shortest_unique,
    starts_with, views};
use crate::text::{find, find_str, split, split_on, strip_trailing, strip_trailing_str, trim, trim_str};

verus! {

/// Separates records in the engine's output.
pub const RECORD_SEP: char = '\x1e';

/// Separates the fields of a record.
pub const UNIT_SEP: char = '\x1f';

/// `a` and `b` hold the same characters.
pub fn same_text(a: &str, b: &str) -> (r: bool)
    ensures
        r == (a@ == b@),
{
    let r = a.unicode_len() == b.unicode_len() && starts_with(a, b);
    proof {
        if a@ == b@ {
            assert(a@.subrange(0, b@.len() as int) =~= a@);
        }
        if r {
            assert(a@.subrange(0, b@.len() as int) =~= a@);
        }
    }
    r
}

// ---------------------------------------------------------------- diff summary

/// A summary line `S path` gives status `S` and the path.
pub open spec fn file_change_of(line: Seq<char>) -> Option<(char, Seq<char>)> {
    let t = trim(line);
    if t.len() > 2 && t[1] == ' ' {
        Some((t[0], t.subrange(2, t.len() as int)))
    } else {
        None
    }
}

/// The file changes of the summary lines `lines`, in order.
pub open spec fn file_changes(lines: Seq<Seq<char>>) -> Seq<(char, Seq<char>)>
    decreases lines.len(),
{
    if lines.len() == 0 {
        Seq::empty()
    } else {
        match file_change_of(lines.last()) {
            Some(fc) => file_changes(lines.drop_last()).push(fc),
            None => file_changes(lines.drop_last()),
        }
    }
}

pub open spec fn change_pairs(v: Seq<FileChange>) -> Seq<(char, Seq<char>)> {
    v.map_values(|f: FileChange| (f.status, f.path@))
}

/// The file changes listed in a diff summary, one `S path` per line.
pub fn parse_file_changes(output: &str) -> (r: Vec<FileChange>)
    ensures
        change_pairs(r@) == file_changes(split(output@, '\n')),
{
    let lines = split_on(output, '\n');
    let ghost ls = views(lines@);
    let mut files: Vec<FileChange> = Vec::new();
    let mut i: usize = 0;
    while i < lines.len()
        invariant
            i <= lines@.len(),
            ls == views(lines@),
            change_pairs(files@) == file_changes(ls.subrange(0, i as int)),
        decreases lines@.len() - i,
    {
        assert(ls.subrange(0, i as int + 1).drop_last() =~= ls.subrange(0, i as int));
        let line = trim_str(lines[i].as_str());
        let n = line.as_str().unicode_len();
        if n > 2 && line.as_str().get_char(1) == ' ' {
            let status = line.as_str().get_char(0);
            let path = String::from_str(line.as_str().substring_char(2, n));
            let ghost before = change_pairs(files@);
            files.push(FileChange { status, path });
            assert(change_pairs(files@) =~= before.push((status, line@.subrange(2, n as int))));
        }
        i = i + 1;
    }
    assert(ls.subrange(0, lines@.len() as int) =~= ls);
    files
}

// ---------------------------------------------------------------- delimited fields

/// The text between `tag` and its closing marker (`:` followed by `tag`
/// without trailing colons), trimmed; all text after `tag` where the marker
/// is missing; the whole field, trimmed, where `tag` is missing.
pub open spec fn delimited(field: Seq<char>, tag: Seq<char>) -> Seq<char> {
    let end_tag = seq![':'] + strip_trailing(tag, ':');
    match find(field, tag) {
        Some(start) => {
            let after = field.subrange(start + tag.len(), field.len() as int);
            match find(after, end_tag) {
                Some(e) => trim(after.subrange(0, e)),
                None => trim(after),
            }
        },
        None => trim(field),
    }
}

/// The content of a `TAG:content:TAG` field.
pub fn extract_delimited(field: &str, tag: &str) -> (r: String)
    ensures
        r@ == delimited(field@, tag@),
{
    let mut end_tag = String::from_str(":");
    proof {
        reveal_strlit(":");
    }
    let stripped = strip_trailing_str(tag, ':');
    end_tag.append(stripped.as_str());
    assert(end_tag@ =~= seq![':'] + strip_trailing(tag@, ':'));
    match find_str(field, tag) {
        Some(start) => {
            let n = field.unicode_len();
            let after = field.substring_char(start + tag.unicode_len(), n);
            match find_str(after, end_tag.as_str()) {
                Some(e) => trim_str(after.substring_char(0, e)),
                None => trim_str(after),
            }
        },
        None => trim_str(field),
    }
}

// ---------------------------------------------------------------- revision records

/// A comma-separated list, each item trimmed; empty text is the empty list.
pub open spec fn list_field(t: Seq<char>) -> Seq<Seq<char>> {
    if t.len() == 0 {
        Seq::empty()
    } else {
        split(t, ',').map_values(|s: Seq<char>| trim(s))
    }
}

/// The records of `output` that hold at least `n` fields, trimmed.
pub open spec fn records(output: Seq<char>, n: nat) -> Seq<Seq<char>> {
    split(output, RECORD_SEP).map_values(|r: Seq<char>| trim(r)).filter(
        |t: Seq<char>| t.len() > 0 && split(t, UNIT_SEP).len() >= n,
    )
}

/// `r` is the revision that record `t` describes.
pub open spec fn revision_of(r: RevisionInfo, t: Seq<char>) -> bool {
    let f = split(t, UNIT_SEP);
    &&& r.change_id@ == trim(f[0])
    &&& r.commit_id@ == trim(f[1])
    &&& r.description@ == delimited(f[2], "DESC:"@)
    &&& views(r.bookmarks@) == list_field(trim(f[3]))
    &&& r.is_empty == (trim(f[4]) == "empty"@)
    &&& r.is_immutable == (trim(f[5]) == "immutable"@)
    &&& views(r.parent_change_ids@) == list_field(trim(f[6]))
    &&& r.is_conflicted == (trim(f[7]) == "conflict"@)
    &&& r.author@ == delimited(f[8], "AUTH:"@)
    &&& r.timestamp@ == trim(f[9])
    &&& r.short_id@ == global_short(r.change_id@, None)
    &&& !r.is_working_copy
    &&& r.files@.len() == 0
}

fn parse_list(t: &str) -> (r: Vec<String>)
    ensures
        views(r@) == list_field(t@),
{
    if t.unicode_len() == 0 {
        let r: Vec<String> = Vec::new();
        assert(views(r@) =~= list_field(t@));
        return r;
    }
    let items = split_on(t, ',');
    let mut r: Vec<String> = Vec::new();
    let mut i: usize = 0;
    while i < items.len()
        invariant
            i <= items@.len(),
            r@.len() == i,
            forall|k: int| 0 <= k < i ==> (#[trigger] r@[k])@ == trim(items@[k]@),
        decreases items@.len() - i,
    {
        r.push(trim_str(items[i].as_str()));
        i = i + 1;
    }
    assert(views(r@) =~= list_field(t@));
    r
}

/// The revision that a record with at least ten fields describes.
fn parse_record(t: &str) -> (r: RevisionInfo)
    requires
        split(t@, UNIT_SEP).len() >= 10,
    ensures
        revision_of(r, t@),
{
    let f = split_on(t, UNIT_SEP);
    assert(views(f@)[0] == f@[0]@);
    let change_id = trim_str(f[0].as_str());
    let short_id = global_short_id(change_id.as_str(), None);
    let bookmarks_str = trim_str(f[3].as_str());
    let parents_str = trim_str(f[6].as_str());
    let empty_str = trim_str(f[4].as_str());
    let immutable_str = trim_str(f[5].as_str());
    let conflict_str = trim_str(f[7].as_str());
    let r = RevisionInfo {
        change_id,
        commit_id: trim_str(f[1].as_str()),
        short_id,
        description: extract_delimited(f[2].as_str(), "DESC:"),
        bookmarks: parse_list(bookmarks_str.as_str()),
        is_empty: same_text(empty_str.as_str(), "empty"),
        is_immutable: same_text(immutable_str.as_str(), "immutable"),
        is_conflicted: same_text(conflict_str.as_str(), "conflict"),
        is_working_copy: false,
        parent_change_ids: parse_list(parents_str.as_str()),
        author: extract_delimited(f[8].as_str(), "AUTH:"),
        timestamp: trim_str(f[9].as_str()),
        files: Vec::new(),
    };
    assert(forall|k: int| 0 <= k < f@.len() ==> views(f@)[k] == (#[trigger] f@[k])@);
    r
}

/// The revisions listed in the engine's log output: records cut at
/// `RECORD_SEP`, fields at `UNIT_SEP`; records that are blank or hold
/// fewer than ten fields are skipped.
pub fn parse_revision_records(output: &str) -> (r: Vec<RevisionInfo>)
    ensures
        r@.len() == records(output@, 10).len(),
        forall|i: int| 0 <= i < r@.len() ==> revision_of(#[trigger] r@[i], records(output@, 10)[i]),
{
    let pieces = split_on(output, RECORD_SEP);
    let ghost ps = views(pieces@);
    let ghost pred = |t: Seq<char>| t.len() > 0 && split(t, UNIT_SEP).len() >= 10;
    let ghost tr = |r: Seq<char>| trim(r);
    let mut out: Vec<RevisionInfo> = Vec::new();
    let ghost kept: Seq<Seq<char>> = Seq::empty();
    let mut i: usize = 0;
    while i < pieces.len()
        invariant
            i <= pieces@.len(),
            ps == views(pieces@),
            ps == split(output@, RECORD_SEP),
            pred == (|t: Seq<char>| t.len() > 0 && split(t, UNIT_SEP).len() >= 10),
            tr == (|r: Seq<char>| trim(r)),
            kept == ps.subrange(0, i as int).map_values(tr).filter(pred),
            out@.len() == kept.len(),
            forall|k: int| 0 <= k < out@.len() ==> revision_of(#[trigger] out@[k], kept[k]),
        decreases pieces@.len() - i,
    {
        let t = trim_str(pieces[i].as_str());
        proof {
            assert(ps.subrange(0, i as int + 1).map_values(tr) =~= ps.subrange(0, i as int).map_values(tr).push(t@));
            ps.subrange(0, i as int).map_values(tr).lemma_filter_push(t@, pred);
        }
        if t.as_str().unicode_len() > 0 {
            let fields = split_on(t.as_str(), UNIT_SEP);
            if fields.len() >= 10 {
                let rec = parse_record(t.as_str());
                out.push(rec);
                proof {
                    kept = kept.push(t@);
                }
            }
        }
        i = i + 1;
    }
    assert(ps.subrange(0, pieces@.len() as int) =~= ps);
    out
}

// ---------------------------------------------------------------- operation records

/// One entry of the operation log.
#[derive(Debug, Clone)]
pub struct OpEntry {
    pub id: String,
    pub short_id: String,
    pub description: String,
    pub timestamp: String,
    pub snapshot: bool,
}

/// Operations that only record the working copy or imported refs.
pub open spec fn is_snapshot(d: Seq<char>) -> bool {
    ||| find(d, "snapshot working copy"@) is Some
    ||| find(d, "import git refs"@) is Some
    ||| has_prefix(d, "snapshot"@)
}

/// Field `k` of record `t`, trimmed.
pub open spec fn op_field(t: Seq<char>, k: int) -> Seq<char> {
    trim(split(t, UNIT_SEP)[k])
}

/// The operation records to list: those with three fields, leaving out
/// snapshots unless `show_all`.
pub open spec fn op_records(output: Seq<char>, show_all: bool) -> Seq<Seq<char>> {
    records(output, 3).filter(|t: Seq<char>| show_all || !is_snapshot(op_field(t, 1)))
}

/// How many records are listed: at most `limit`, and at least one when
/// there is any.
pub open spec fn op_count(n: nat, limit: usize) -> nat {
    let cap: nat = if limit == 0 { 1 } else { limit as nat };
    if n < cap { n } else { cap }
}

fn is_snapshot_text(d: &str) -> (r: bool)
    ensures
        r == is_snapshot(d@),
{
    find_str(d, "snapshot working copy").is_some() || find_str(d, "import git refs").is_some() || starts_with(
        d,
        "snapshot",
    )
}

/// The ids of `entries`.
pub open spec fn op_ids(entries: Seq<OpEntry>) -> Seq<Seq<char>> {
    entries.map_values(|e: OpEntry| e.id@)
}

/// `e` is the entry of record `t`, short id aside.
pub open spec fn op_entry_of(e: OpEntry, t: Seq<char>) -> bool {
    &&& e.id@ == op_field(t, 0)
    &&& e.description@ == op_field(t, 1)
    &&& e.timestamp@ == op_field(t, 2)
    &&& e.snapshot == is_snapshot(op_field(t, 1))
}

/// The entries of an operation-log listing: records cut at `RECORD_SEP`
/// with fields id, description and time; snapshots are left out unless
/// `show_all`; at most `limit` entries (one when `limit` is 0); each with
/// its short id among the ids listed.
pub fn parse_op_entries(output: &str, limit: usize, show_all: bool) -> (r: Vec<OpEntry>)
    ensures
        r@.len() == op_count(op_records(output@, show_all).len(), limit),
        forall|i: int| 0 <= i < r@.len() ==> op_entry_of(#[trigger] r@[i], op_records(output@, show_all)[i]),
        forall|i: int| 0 <= i < r@.len() ==> (#[trigger] r@[i]).short_id@ == shortest_unique(op_ids(r@), r@[i].id@),
{
    let cap: usize = if limit == 0 { 1 } else { limit };
    let pieces = split_on(output, RECORD_SEP);
    let ghost ps = views(pieces@);
    let ghost three_fields = |t: Seq<char>| t.len() > 0 && split(t, UNIT_SEP).len() >= 3;
    let ghost tr = |r: Seq<char>| trim(r);
    let ghost ps_all = |t: Seq<char>| show_all || !is_snapshot(op_field(t, 1));
    let mut entries: Vec<OpEntry> = Vec::new();
    let ghost kept: Seq<Seq<char>> = Seq::empty();
    let mut i: usize = 0;
    while i < pieces.len()
        invariant
            i <= pieces@.len(),
            cap == (if limit == 0 { 1 } else { limit }),
            ps == views(pieces@),
            ps == split(output@, RECORD_SEP),
            three_fields == (|t: Seq<char>| t.len() > 0 && split(t, UNIT_SEP).len() >= 3),
            tr == (|r: Seq<char>| trim(r)),
            ps_all == (|t: Seq<char>| show_all || !is_snapshot(op_field(t, 1))),
            kept == ps.subrange(0, i as int).map_values(tr).filter(three_fields).filter(ps_all),
            entries@.len() == op_count(kept.len(), limit),
            forall|k: int| 0 <= k < entries@.len() ==> op_entry_of(#[trigger] entries@[k], kept[k]),
        decreases pieces@.len() - i,
    {
        let t = trim_str(pieces[i].as_str());
        let ghost before = ps.subrange(0, i as int).map_values(tr);
        proof {
            assert(ps.subrange(0, i as int + 1).map_values(tr) =~= before.push(t@));
            before.lemma_filter_push(t@, three_fields);
        }
        if t.as_str().unicode_len() > 0 {
            let fields = split_on(t.as_str(), UNIT_SEP);
            if fields.len() >= 3 {
                proof {
                    before.filter(three_fields).lemma_filter_push(t@, ps_all);
                }
                assert(views(fields@)[1] == fields@[1]@);
                let description = trim_str(fields[1].as_str());
                let snapshot = is_snapshot_text(description.as_str());
                if show_all || !snapshot {
                    if entries.len() < cap {
                        assert(views(fields@)[0] == fields@[0]@);
                        assert(views(fields@)[2] == fields@[2]@);
                        entries.push(OpEntry {
                            id: trim_str(fields[0].as_str()),
                            short_id: String::new(),
                            description,
                            timestamp: trim_str(fields[2].as_str()),
                            snapshot,
                        });
                    }
                    proof {
                        kept = kept.push(t@);
                    }
                }
            } else {
                proof {
                    assert(before.push(t@).filter(three_fields) == before.filter(three_fields));
                }
            }
        }
        i = i + 1;
    }
    assert(ps.subrange(0, pieces@.len() as int) =~= ps);
    let mut ids: Vec<String> = Vec::new();
    let mut k: usize = 0;
    while k < entries.len()
        invariant
            k <= entries@.len(),
            ids@.len() == k,
            forall|j: int| 0 <= j < k ==> (#[trigger] ids@[j])@ == entries@[j].id@,
        decreases entries@.len() - k,
    {
        ids.push(entries[k].id.clone());
        k = k + 1;
    }
    let shorts = compute_short_op_ids(ids.as_slice());
    let mut r: Vec<OpEntry> = Vec::new();
    let mut k: usize = 0;
    while k < entries.len()
        invariant
            k <= entries@.len(),
            ids@.len() == entries@.len(),
            shorts@.len() == ids@.len(),
            r@.len() == k,
            forall|j: int| 0 <= j < k ==> (#[trigger] r@[j]).id@ == entries@[j].id@,
            forall|j: int| 0 <= j < k ==> (#[trigger] r@[j]).description@ == entries@[j].description@,
            forall|j: int| 0 <= j < k ==> (#[trigger] r@[j]).timestamp@ == entries@[j].timestamp@,
            forall|j: int| 0 <= j < k ==> (#[trigger] r@[j]).snapshot == entries@[j].snapshot,
            forall|j: int| 0 <= j < k ==> (#[trigger] r@[j]).short_id@ == shorts@[j]@,
        decreases entries@.len() - k,
    {
        let e = &entries[k];
        r.push(OpEntry {
            id: e.id.clone(),
            short_id: shorts[k].clone(),
            description: e.description.clone(),
            timestamp: e.timestamp.clone(),
            snapshot: e.snapshot,
        });
        k = k + 1;
    }
    proof {
        assert(views(ids@) =~= op_ids(r@));
        assert forall|j: int| 0 <= j < r@.len() implies op_entry_of(#[trigger] r@[j], op_records(output@, show_all)[j]) by {
            assert(op_entry_of(entries@[j], kept[j]));
        }
    }
    r
}

} // verus!
