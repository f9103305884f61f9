use vstd::prelude::*;
use vstd::hash_set::StringHashSet;
use crate::mapping::{BestView, MappingIndex};
use crate::text::{push_char, push_text};

verus! {

pub open spec fn digit_char(d: nat) -> char {
    seq!['0', '1', '2', '3', '4', '5', '6', '7', '8', '9'][d as int]
}

/// Decimal writing of a number, without leading zeros.
pub open spec fn decimal_text(n: nat) -> Seq<char>
    decreases n,
{
    if n < 10 {
        seq![digit_char(n)]
    } else {
        decimal_text(n / 10).push(digit_char(n % 10))
    }
}

fn push_decimal(s: &mut String, n: u64)
    ensures
        final(s)@ == old(s)@ + decimal_text(n as nat),
    decreases n,
{
    if n >= 10 {
        push_decimal(s, n / 10);
    }
    let table: [char; 10] = ['0', '1', '2', '3', '4', '5', '6', '7', '8', '9'];
    assert(table@ =~= seq!['0', '1', '2', '3', '4', '5', '6', '7', '8', '9']);
    let d = (n % 10) as usize;
    push_char(s, table[d]);
    proof {
        if n >= 10 {
            assert(final(s)@ =~= old(s)@ + decimal_text(n as nat));
        } else {
            assert(n % 10 == n);
            assert(final(s)@ =~= old(s)@ + decimal_text(n as nat));
        }
    }
}

/// A contig as written to the reads output: `>id description\nsequence\n`.
pub open spec fn contig_text(id: Seq<char>, desc: Seq<char>, seq: Seq<char>) -> Seq<char> {
    seq!['>'] + id + seq![' '] + desc + seq!['\n'] + seq + seq!['\n']
}

/// A selected read as written to the reads output: `>id\nsequence\n`.
pub open spec fn read_text(id: Seq<char>, seq: Seq<char>) -> Seq<char> {
    seq!['>'] + id + seq!['\n'] + seq + seq!['\n']
}

/// One assignment row: `read,contig,contig_len\n`.
pub open spec fn row_text(read: Seq<char>, tig: Seq<char>, len: u64) -> Seq<char> {
    read + seq![','] + tig + seq![','] + decimal_text(len as nat) + seq!['\n']
}

/// Writes a contig record verbatim; a missing description is written empty.
pub fn contig_record(id: &str, desc: Option<&str>, seq: &str) -> (r: String)
    ensures
        r@ == contig_text(id@, match desc { Some(d) => d@, None => Seq::<char>::empty() }, seq@),
{
    let mut s = String::new();
    push_char(&mut s, '>');
    push_text(&mut s, id);
    push_char(&mut s, ' ');
    match desc {
        Some(d) => push_text(&mut s, d),
        None => {},
    }
    push_char(&mut s, '\n');
    push_text(&mut s, seq);
    push_char(&mut s, '\n');
    proof {
        assert(s@ =~= contig_text(id@, match desc { Some(d) => d@, None => Seq::<char>::empty() }, seq@));
    }
    s
}

/// Writes a read record: its id and sequence, without description.
pub fn read_record(id: &str, seq: &str) -> (r: String)
    ensures
        r@ == read_text(id@, seq@),
{
    let mut s = String::new();
    push_char(&mut s, '>');
    push_text(&mut s, id);
    push_char(&mut s, '\n');
    push_text(&mut s, seq);
    push_char(&mut s, '\n');
    proof {
        assert(s@ =~= read_text(id@, seq@));
    }
    s
}

/// Writes one row of the assignment table.
pub fn assignment_row(read: &str, tig: &str, len: u64) -> (r: String)
    ensures
        r@ == row_text(read@, tig@, len),
{
    let mut s = String::new();
    push_text(&mut s, read);
    push_char(&mut s, ',');
    push_text(&mut s, tig);
    push_char(&mut s, ',');
    push_decimal(&mut s, len);
    push_char(&mut s, '\n');
    proof {
        assert(s@ =~= row_text(read@, tig@, len));
    }
    s
}

/// The first line of the assignment table.
pub fn assignment_header() -> (r: String)
    ensures
        r@ == seq!['r', 'e', 'a', 'd', ',', 't', 'i', 'g', ',', 't', 'i', 'g', '_', 'l', 'e', 'n', '\n'],
{
    let s = "read,tig,tig_len\n".to_owned();
    proof {
        reveal_strlit("read,tig,tig_len\n");
        assert(s@ =~= seq!['r', 'e', 'a', 'd', ',', 't', 'i', 'g', ',', 't', 'i', 'g', '_', 'l', 'e', 'n', '\n']);
    }
    s
}

/// Whether a read is written out: it must be selected and have a best alignment.
pub open spec fn emitted(m: Map<Seq<char>, BestView>, sel: Set<Seq<char>>, id: Seq<char>) -> bool {
    sel.contains(id) && m.contains_key(id)
}

/// For one read of the read stream: its assignment row and its record, if the
/// read is selected and indexed; nothing otherwise.
pub fn emit_read(index: &MappingIndex, selected: &StringHashSet, id: &str, seq: &str) -> (r: Option<(String, String)>)
    requires
        index.wf(),
    ensures
        match r {
            Some((row, rec)) => emitted(index.reads_view(), selected@, id@)
                && row@ == row_text(id@, index.reads_view()[id@].tig_name,
                    index.lens_view()[index.reads_view()[id@].tig_name])
                && rec@ == read_text(id@, seq@),
            None => !emitted(index.reads_view(), selected@, id@),
        },
{
    if !selected.contains(id) {
        return None;
    }
    match index.best(id) {
        Some(b) => {
            match index.contig_len(b.tig_name.as_str()) {
                Some(len) => Some((assignment_row(id, b.tig_name.as_str(), len), read_record(id, seq))),
                None => None,
            }
        },
        None => None,
    }
}

/// The reads of a stream that are written out, in stream order.
pub open spec fn kept_reads(m: Map<Seq<char>, BestView>, sel: Set<Seq<char>>, reads: Seq<(Seq<char>, Seq<char>)>) -> Seq<(Seq<char>, Seq<char>)>
    decreases reads.len(),
{
    if reads.len() == 0 {
        Seq::empty()
    } else {
        let prev = kept_reads(m, sel, reads.drop_last());
        if emitted(m, sel, reads.last().0) {
            prev.push(reads.last())
        } else {
            prev
        }
    }
}

pub open spec fn pairs_view(reads: Seq<(String, String)>) -> Seq<(Seq<char>, Seq<char>)> {
    reads.map_values(|p: (String, String)| (p.0@, p.1@))
}

/// Filters a read stream of `(id, sequence)` pairs: for each read kept, in
/// order, one assignment row and one read record, so that the two outputs
/// stay in step.
pub fn filter_reads(index: &MappingIndex, selected: &StringHashSet, reads: &Vec<(String, String)>) -> (r: (Vec<String>, Vec<String>))
    requires
        index.wf(),
    ensures
        ({
            let kept = kept_reads(index.reads_view(), selected@, pairs_view(reads@));
            &&& r.0@.len() == kept.len()
            &&& r.1@.len() == kept.len()
            &&& forall|i: int| 0 <= i < kept.len() ==> (#[trigger] r.0@[i])@ == row_text(kept[i].0,
                index.reads_view()[kept[i].0].tig_name, index.lens_view()[index.reads_view()[kept[i].0].tig_name])
            &&& forall|i: int| 0 <= i < kept.len() ==> (#[trigger] r.1@[i])@ == read_text(kept[i].0, kept[i].1)
        }),
{
    let ghost ps = pairs_view(reads@);
    let mut rows: Vec<String> = Vec::new();
    let mut recs: Vec<String> = Vec::new();
    let mut i: usize = 0;
    while i < reads.len()
        invariant
            index.wf(),
            ps == pairs_view(reads@),
            i <= reads@.len(),
            ({
                let kept = kept_reads(index.reads_view(), selected@, ps.take(i as int));
                &&& rows@.len() == kept.len()
                &&& recs@.len() == kept.len()
                &&& forall|j: int| 0 <= j < kept.len() ==> (#[trigger] rows@[j])@ == row_text(kept[j].0,
                    index.reads_view()[kept[j].0].tig_name, index.lens_view()[index.reads_view()[kept[j].0].tig_name])
                &&& forall|j: int| 0 <= j < kept.len() ==> (#[trigger] recs@[j])@ == read_text(kept[j].0, kept[j].1)
            }),
        decreases reads@.len() - i,
    {
        proof {
            assert(ps.take(i as int + 1).drop_last() =~= ps.take(i as int));
            assert(ps.take(i as int + 1).last() == (reads@[i as int].0@, reads@[i as int].1@));
        }
        let (id, seq) = &reads[i];
        match emit_read(index, selected, id.as_str(), seq.as_str()) {
            Some((row, rec)) => {
                rows.push(row);
                recs.push(rec);
            },
            None => {},
        }
        i = i + 1;
    }
    proof {
        assert(ps.take(reads@.len() as int) =~= ps);
    }
    (rows, recs)
}

/// The contig records of an assembly, written through unchanged and in order.
pub fn pass_contigs(contigs: &Vec<(String, Option<String>, String)>) -> (r: Vec<String>)
    ensures
        r@.len() == contigs@.len(),
        forall|i: int| 0 <= i < contigs@.len() ==> (#[trigger] r@[i])@ == contig_text(contigs@[i].0@,
            match contigs@[i].1 { Some(d) => d@, None => Seq::<char>::empty() }, contigs@[i].2@),
{
    let mut out: Vec<String> = Vec::new();
    let mut i: usize = 0;
    while i < contigs.len()
        invariant
            i <= contigs@.len(),
            out@.len() == i,
            forall|j: int| 0 <= j < i ==> (#[trigger] out@[j])@ == contig_text(contigs@[j].0@,
                match contigs@[j].1 { Some(d) => d@, None => Seq::<char>::empty() }, contigs@[j].2@),
        decreases contigs@.len() - i,
    {
        let (id, desc, seq) = &contigs[i];
        let d = match desc {
            Some(d) => Some(d.as_str()),
            None => None,
        };
        out.push(contig_record(id.as_str(), d, seq.as_str()));
        i = i + 1;
    }
    out
}

} // verus!
