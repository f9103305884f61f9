use vstd::prelude::*;
use vstd::hash_map::StringHashMap;
use crate::text::{split_fields, split_tab, parse_u64, parse_u64_spec};

verus! {

/// Why a line of a mapping or overlap table was refused.
#[derive(Debug, Clone, Copy, PartialEq, Eq, Structural)]
pub enum ParseError {
    /// The line has fewer columns than the layout needs.
    MissingField,
    /// A numeric column does not hold an unsigned 64-bit number.
    BadNumber,
    /// The aligned region ends past the end of its contig.
    EndBeyondContig,
}

/// One alignment line: a read placed on a contig. As read from a line, its
/// ends are ordered (`tig_beg <= tig_end`) and lie within the contig.
pub struct MappingRecord {
    pub read_name: String,
    pub read_len: u64,
    pub tig_name: String,
    pub tig_len: u64,
    pub tig_beg: u64,
    pub tig_end: u64,
}

pub ghost struct RecordView {
    pub read_name: Seq<char>,
    pub read_len: u64,
    pub tig_name: Seq<char>,
    pub tig_len: u64,
    pub tig_beg: u64,
    pub tig_end: u64,
}

impl View for MappingRecord {
    type V = RecordView;

    open spec fn view(&self) -> RecordView {
        RecordView {
            read_name: self.read_name@,
            read_len: self.read_len,
            tig_name: self.tig_name@,
            tig_len: self.tig_len,
            tig_beg: self.tig_beg,
            tig_end: self.tig_end,
        }
    }
}

/// Length of the contig region covered by the alignment.
pub open spec fn aligned_len(r: RecordView) -> u64 {
    (r.tig_end - r.tig_beg) as u64
}

/// Distance from the aligned region to the nearer end of its contig.
pub open spec fn distance_to_extremity(r: RecordView) -> u64 {
    if r.tig_beg <= (r.tig_len - r.tig_end) as u64 {
        r.tig_beg
    } else {
        (r.tig_len - r.tig_end) as u64
    }
}

/// An alignment enters the index only when it covers more than 70% of the read.
pub open spec fn covers_read(r: RecordView) -> bool {
    10 * (aligned_len(r) as int) > 7 * (r.read_len as int)
}

/// The record that the columns of a mapping line describe.
pub open spec fn record_of_fields(f: Seq<Seq<char>>) -> Result<RecordView, ParseError> {
    if f.len() < 9 {
        Err(ParseError::MissingField)
    } else if parse_u64_spec(f[1]) is None || parse_u64_spec(f[6]) is None
        || parse_u64_spec(f[7]) is None || parse_u64_spec(f[8]) is None {
        Err(ParseError::BadNumber)
    } else {
        let a = parse_u64_spec(f[7])->0;
        let b = parse_u64_spec(f[8])->0;
        let beg = if a <= b { a } else { b };
        let end = if a <= b { b } else { a };
        let tig_len = parse_u64_spec(f[6])->0;
        if end > tig_len {
            Err(ParseError::EndBeyondContig)
        } else {
            Ok(RecordView {
                read_name: f[0],
                read_len: parse_u64_spec(f[1])->0,
                tig_name: f[5],
                tig_len,
                tig_beg: beg,
                tig_end: end,
            })
        }
    }
}

pub open spec fn parse_mapping_spec(line: Seq<char>) -> Result<RecordView, ParseError> {
    record_of_fields(split_tab(line))
}

/// Reads one line of the mapping table. Columns: 0 read name, 1 read length,
/// 5 contig name, 6 contig length, 7 and 8 the aligned region's two ends in
/// either order; other columns are ignored.
pub fn parse_mapping_line(line: &str) -> (r: Result<MappingRecord, ParseError>)
    ensures
        match r {
            Ok(rec) => parse_mapping_spec(line@) == Ok::<RecordView, ParseError>(rec@),
            Err(e) => parse_mapping_spec(line@) == Err::<RecordView, ParseError>(e),
        },
        r matches Ok(rec) ==> rec.tig_beg <= rec.tig_end,
{
    let f = split_fields(line);
    if f.len() < 9 {
        return Err(ParseError::MissingField);
    }
    let read_len = parse_u64(f[1].as_str());
    let tig_len = parse_u64(f[6].as_str());
    let a = parse_u64(f[7].as_str());
    let b = parse_u64(f[8].as_str());
    match (read_len, tig_len, a, b) {
        (Some(read_len), Some(tig_len), Some(a), Some(b)) => {
            let (beg, end) = if a <= b { (a, b) } else { (b, a) };
            if end > tig_len {
                return Err(ParseError::EndBeyondContig);
            }
            let rec = MappingRecord {
                read_name: f[0].clone(),
                read_len,
                tig_name: f[5].clone(),
                tig_len,
                tig_beg: beg,
                tig_end: end,
            };
            proof {
                assert(rec@ == parse_mapping_spec(line@)->Ok_0);
            }
            Ok(rec)
        },
        _ => Err(ParseError::BadNumber),
    }
}

/// Swapping the two coordinate columns of a mapping line changes nothing in
/// the record it describes, so neither its ordered ends nor its distance to
/// the contig extremity depend on the order in which the ends are written.
pub proof fn lemma_swapped_ends_same_record(f: Seq<Seq<char>>)
    requires
        f.len() >= 9,
    ensures
        record_of_fields(f.update(7, f[8]).update(8, f[7])) == record_of_fields(f),
        record_of_fields(f) matches Ok(r) ==> r.tig_beg <= r.tig_end
            && distance_to_extremity(r) == distance_to_extremity(
            record_of_fields(f.update(7, f[8]).update(8, f[7]))->Ok_0),
{
    let g = f.update(7, f[8]).update(8, f[7]);
    assert(g[7] == f[8] && g[8] == f[7]);
    assert(g[0] == f[0] && g[1] == f[1] && g[5] == f[5] && g[6] == f[6]);
}

/// What a record's ends satisfy once read: ordered and within the contig.
pub open spec fn record_wf(r: RecordView) -> bool {
    r.tig_beg <= r.tig_end && r.tig_end <= r.tig_len
}

/// The best alignment kept for a read.
pub struct BestAlignment {
    pub tig_name: String,
    pub distance: u64,
    pub aln_len: u64,
    pub read_len: u64,
}

pub ghost struct BestView {
    pub tig_name: Seq<char>,
    pub distance: u64,
    pub aln_len: u64,
    pub read_len: u64,
}

impl View for BestAlignment {
    type V = BestView;

    open spec fn view(&self) -> BestView {
        BestView {
            tig_name: self.tig_name@,
            distance: self.distance,
            aln_len: self.aln_len,
            read_len: self.read_len,
        }
    }
}

pub open spec fn best_of(r: RecordView) -> BestView {
    BestView {
        tig_name: r.tig_name,
        distance: distance_to_extremity(r),
        aln_len: aligned_len(r),
        read_len: r.read_len,
    }
}

/// The read index after one more record: a covering alignment replaces the
/// read's entry only when it is strictly longer, so the first of equals stays.
pub open spec fn step_reads(m: Map<Seq<char>, BestView>, r: RecordView) -> Map<Seq<char>, BestView> {
    if !covers_read(r) {
        m
    } else if m.contains_key(r.read_name) && m[r.read_name].aln_len >= aligned_len(r) {
        m
    } else {
        m.insert(r.read_name, best_of(r))
    }
}

/// The contig length table after one more record: the first length seen stays.
pub open spec fn step_lens(t: Map<Seq<char>, u64>, r: RecordView) -> Map<Seq<char>, u64> {
    if t.contains_key(r.tig_name) {
        t
    } else {
        t.insert(r.tig_name, r.tig_len)
    }
}

/// The read index and the contig length table built from a mapping table, or
/// the error of its first bad line.
pub open spec fn indexed(lines: Seq<Seq<char>>) -> Result<(Map<Seq<char>, BestView>, Map<Seq<char>, u64>), ParseError>
    decreases lines.len(),
{
    if lines.len() == 0 {
        Ok((Map::empty(), Map::empty()))
    } else {
        match indexed(lines.drop_last()) {
            Err(e) => Err(e),
            Ok((m, t)) => match parse_mapping_spec(lines.last()) {
                Err(e) => Err(e),
                Ok(r) => Ok((step_reads(m, r), step_lens(t, r))),
            },
        }
    }
}

pub open spec fn lines_view(lines: Seq<String>) -> Seq<Seq<char>> {
    lines.map_values(|l: String| l@)
}

/// Per read, the longest alignment covering more than 70% of it; per contig,
/// its length.
pub struct MappingIndex {
    reads: StringHashMap<BestAlignment>,
    tig_lens: StringHashMap<u64>,
    names: Vec<String>,
}

impl MappingIndex {
    pub closed spec fn reads_view(&self) -> Map<Seq<char>, BestView> {
        self.reads@.map_values(|b: BestAlignment| b@)
    }

    pub closed spec fn lens_view(&self) -> Map<Seq<char>, u64> {
        self.tig_lens@
    }

    pub closed spec fn wf(&self) -> bool {
        &&& forall|k: Seq<char>| #[trigger] self.reads@.contains_key(k)
            ==> self.tig_lens@.contains_key(self.reads@[k].tig_name@)
        &&& forall|i: int| 0 <= i < self.names@.len()
            ==> self.reads@.contains_key(#[trigger] self.names@[i]@)
        &&& forall|k: Seq<char>| #[trigger] self.reads@.contains_key(k)
            ==> exists|i: int| 0 <= i < self.names@.len() && #[trigger] self.names@[i]@ == k
    }

    pub fn new() -> (r: MappingIndex)
        ensures
            r.wf(),
            r.reads_view() == Map::<Seq<char>, BestView>::empty(),
            r.lens_view() == Map::<Seq<char>, u64>::empty(),
    {
        let r = MappingIndex { reads: StringHashMap::new(), tig_lens: StringHashMap::new(), names: Vec::new() };
        proof {
            assert(r.reads_view() =~= Map::<Seq<char>, BestView>::empty());
        }
        r
    }

    /// Registers the record's contig length if the contig is new, then keeps
    /// the record as the read's best alignment if it covers more than 70% of
    /// the read and is strictly longer than the one kept so far.
    pub fn add_record(&mut self, rec: MappingRecord)
        requires
            old(self).wf(),
            record_wf(rec@),
        ensures
            final(self).wf(),
            final(self).reads_view() == step_reads(old(self).reads_view(), rec@),
            final(self).lens_view() == step_lens(old(self).lens_view(), rec@),
    {
        let aln = rec.tig_end - rec.tig_beg;
        let far = rec.tig_len - rec.tig_end;
        let distance = if rec.tig_beg <= far { rec.tig_beg } else { far };
        if !self.tig_lens.contains_key(rec.tig_name.as_str()) {
            self.tig_lens.insert(rec.tig_name.clone(), rec.tig_len);
        }
        if (aln as u128) * 10 > (rec.read_len as u128) * 7 {
            let replace = match self.reads.get(rec.read_name.as_str()) {
                Some(b) => b.aln_len < aln,
                None => true,
            };
            if replace {
                if !self.reads.contains_key(rec.read_name.as_str()) {
                    self.names.push(rec.read_name.clone());
                }
                let ghost old_reads = self.reads@;
                let ghost key = rec.read_name@;
                let best = BestAlignment { tig_name: rec.tig_name, distance, aln_len: aln, read_len: rec.read_len };
                assert(best@ == best_of(rec@));
                self.reads.insert(rec.read_name, best);
                proof {
                    assert(self.reads_view() =~= old(self).reads_view().insert(key, best_of(rec@)));
                    assert forall|k: Seq<char>| #[trigger] self.reads@.contains_key(k)
                        implies exists|i: int| 0 <= i < self.names@.len() && #[trigger] self.names@[i]@ == k by {
                        if k == key {
                            if old_reads.contains_key(k) {
                                let i = choose|i: int| 0 <= i < self.names@.len() && #[trigger] self.names@[i]@ == k;
                            } else {
                                assert(self.names@[self.names@.len() - 1]@ == k);
                            }
                        } else {
                            assert(old_reads.contains_key(k));
                            let i = choose|i: int| 0 <= i < old(self).names@.len() && #[trigger] old(self).names@[i]@ == k;
                            assert(self.names@[i]@ == k);
                        }
                    }
                }
            }
        }
    }

    /// Reads one mapping line and adds its record; on a bad line the index is
    /// left as it was.
    pub fn add_line(&mut self, line: &str) -> (r: Result<(), ParseError>)
        requires
            old(self).wf(),
        ensures
            final(self).wf(),
            match parse_mapping_spec(line@) {
                Ok(rec) => r is Ok
                    && final(self).reads_view() == step_reads(old(self).reads_view(), rec)
                    && final(self).lens_view() == step_lens(old(self).lens_view(), rec),
                Err(e) => r == Err::<(), ParseError>(e)
                    && final(self).reads_view() == old(self).reads_view()
                    && final(self).lens_view() == old(self).lens_view(),
            },
    {
        match parse_mapping_line(line) {
            Ok(rec) => {
                self.add_record(rec);
                Ok(())
            },
            Err(e) => Err(e),
        }
    }

    /// The best alignment kept for a read, if any.
    pub fn best(&self, read: &str) -> (r: Option<&BestAlignment>)
        requires
            self.wf(),
        ensures
            match r {
                Some(b) => self.reads_view().contains_key(read@) && b@ == self.reads_view()[read@]
                    && self.lens_view().contains_key(b.tig_name@),
                None => !self.reads_view().contains_key(read@),
            },
    {
        self.reads.get(read)
    }

    /// The length recorded for a contig, if any.
    pub fn contig_len(&self, tig: &str) -> (r: Option<u64>)
        ensures
            match r {
                Some(n) => self.lens_view().contains_key(tig@) && n == self.lens_view()[tig@],
                None => !self.lens_view().contains_key(tig@),
            },
    {
        match self.tig_lens.get(tig) {
            Some(n) => Some(*n),
            None => None,
        }
    }

    /// The names of the indexed reads.
    pub fn read_names(&self) -> (r: &Vec<String>)
        requires
            self.wf(),
        ensures
            forall|i: int| 0 <= i < r@.len() ==> self.reads_view().contains_key(#[trigger] r@[i]@),
            forall|k: Seq<char>| #[trigger] self.reads_view().contains_key(k)
                ==> exists|i: int| 0 <= i < r@.len() && #[trigger] r@[i]@ == k,
    {
        &self.names
    }
}

/// Builds the read index and the contig length table from the lines of a
/// mapping table; the first bad line aborts the whole build.
pub fn read2tig_pos(lines: &Vec<String>) -> (r: Result<MappingIndex, ParseError>)
    ensures
        match indexed(lines_view(lines@)) {
            Ok((m, t)) => r matches Ok(idx) && idx.wf() && idx.reads_view() == m && idx.lens_view() == t,
            Err(e) => r == Err::<MappingIndex, ParseError>(e),
        },
{
    let ghost ls = lines_view(lines@);
    let mut idx = MappingIndex::new();
    let mut i: usize = 0;
    while i < lines.len()
        invariant
            ls == lines_view(lines@),
            i <= lines@.len(),
            idx.wf(),
            indexed(ls.take(i as int)) == Ok::<(Map<Seq<char>, BestView>, Map<Seq<char>, u64>), ParseError>((idx.reads_view(), idx.lens_view())),
        decreases lines@.len() - i,
    {
        proof {
            assert(ls.take(i as int + 1).drop_last() =~= ls.take(i as int));
            assert(ls.take(i as int + 1).last() == lines@[i as int]@);
        }
        match idx.add_line(lines[i].as_str()) {
            Ok(()) => {},
            Err(e) => {
                proof {
                    lemma_indexed_err_sticks(ls, i as int + 1);
                }
                return Err(e);
            },
        }
        i = i + 1;
    }
    proof {
        assert(ls.take(lines@.len() as int) =~= ls);
    }
    Ok(idx)
}

/// Once a prefix of the table fails, the whole table fails with that error.
proof fn lemma_indexed_err_sticks(ls: Seq<Seq<char>>, n: int)
    requires
        0 <= n <= ls.len(),
        indexed(ls.take(n)) is Err,
    ensures
        indexed(ls) == indexed(ls.take(n)),
    decreases ls.len() - n,
{
    if n < ls.len() {
        assert(ls.take(n + 1).drop_last() =~= ls.take(n));
        lemma_indexed_err_sticks(ls, n + 1);
    } else {
        assert(ls.take(n) =~= ls);
    }
}

/// Every read in an index built from a mapping table is kept through an
/// alignment longer than 70% of the read's length.
pub proof fn lemma_kept_alignments_cover_read(lines: Seq<Seq<char>>)
    ensures
        indexed(lines) matches Ok((m, t)) ==> forall|k: Seq<char>| #[trigger] m.contains_key(k)
            ==> 10 * (m[k].aln_len as int) > 7 * (m[k].read_len as int),
    decreases lines.len(),
{
    if lines.len() > 0 {
        lemma_kept_alignments_cover_read(lines.drop_last());
    }
}

} // verus!
