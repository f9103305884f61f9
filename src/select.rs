use vstd::prelude::*;
use vstd::hash_set::StringHashSet;
use crate::mapping::{BestView, MappingIndex, ParseError, lines_view};
use crate::text::{split_fields, split_tab};

verus! {

/// The reads of an index whose best alignment lies within `dist` of a contig end.
pub open spec fn proximity_set(m: Map<Seq<char>, BestView>, dist: u64) -> Set<Seq<char>> {
    Set::new(|k: Seq<char>| m.contains_key(k) && m[k].distance <= dist)
}

/// Selects every indexed read whose best alignment ends within `dist` of an
/// extremity of its contig.
pub fn select_read_by_dist(index: &MappingIndex, dist: u64) -> (r: StringHashSet)
    requires
        index.wf(),
    ensures
        r@ == proximity_set(index.reads_view(), dist),
{
    let names = index.read_names();
    let mut selected = StringHashSet::new();
    let mut i: usize = 0;
    while i < names.len()
        invariant
            index.wf(),
            i <= names@.len(),
            forall|j: int| 0 <= j < names@.len() ==> index.reads_view().contains_key(#[trigger] names@[j]@),
            forall|k: Seq<char>| #[trigger] index.reads_view().contains_key(k)
                ==> exists|j: int| 0 <= j < names@.len() && #[trigger] names@[j]@ == k,
            forall|k: Seq<char>| #[trigger] selected@.contains(k) <==> (
                proximity_set(index.reads_view(), dist).contains(k)
                && exists|j: int| 0 <= j < i && #[trigger] names@[j]@ == k),
        decreases names@.len() - i,
    {
        let name = &names[i];
        assert(index.reads_view().contains_key(names@[i as int]@));
        match index.best(name.as_str()) {
            Some(b) => {
                if b.distance <= dist {
                    selected.insert(name.clone());
                }
            },
            None => {},
        }
        proof {
            assert forall|k: Seq<char>| #[trigger] selected@.contains(k) <==> (
                proximity_set(index.reads_view(), dist).contains(k)
                && exists|j: int| 0 <= j < i + 1 && #[trigger] names@[j]@ == k) by {
                if exists|j: int| 0 <= j < i + 1 && #[trigger] names@[j]@ == k {
                    let j = choose|j: int| 0 <= j < i + 1 && #[trigger] names@[j]@ == k;
                    if j < i {
                        assert(exists|j: int| 0 <= j < i && #[trigger] names@[j]@ == k);
                    }
                }
                if k == names@[i as int]@ {
                    assert(exists|j: int| 0 <= j < i + 1 && #[trigger] names@[j]@ == k);
                }
            }
        }
        i = i + 1;
    }
    proof {
        assert(selected@ =~= proximity_set(index.reads_view(), dist));
    }
    selected
}

/// Selection by proximity keeps only reads that are in the index.
pub proof fn lemma_proximity_within_index(m: Map<Seq<char>, BestView>, dist: u64)
    ensures
        proximity_set(m, dist).subset_of(m.dom()),
{
}

/// The two read names of an overlap line: columns 0 and 5.
pub open spec fn parse_overlap_spec(line: Seq<char>) -> Result<(Seq<char>, Seq<char>), ParseError> {
    let f = split_tab(line);
    if f.len() < 6 {
        Err(ParseError::MissingField)
    } else {
        Ok((f[0], f[5]))
    }
}

/// The reads that one overlap edge `(q, t)` joins to a selected set `base`.
pub open spec fn partners(base: Set<Seq<char>>, q: Seq<char>, t: Seq<char>) -> Set<Seq<char>> {
    Set::new(|x: Seq<char>| (x == t && base.contains(q)) || (x == q && base.contains(t)))
}

/// The selected set after one pass over an overlap table: `base` and every
/// read that shares an edge with a read of `base`, or the error of the first
/// bad line.
pub open spec fn expanded(base: Set<Seq<char>>, lines: Seq<Seq<char>>) -> Result<Set<Seq<char>>, ParseError>
    decreases lines.len(),
{
    if lines.len() == 0 {
        Ok(base)
    } else {
        match expanded(base, lines.drop_last()) {
            Err(e) => Err(e),
            Ok(s) => match parse_overlap_spec(lines.last()) {
                Err(e) => Err(e),
                Ok((q, t)) => Ok(s.union(partners(base, q, t))),
            },
        }
    }
}

/// Reads the query and target names of one overlap line.
pub fn parse_overlap_line(line: &str) -> (r: Result<(String, String), ParseError>)
    ensures
        match parse_overlap_spec(line@) {
            Ok((q, t)) => r matches Ok((a, b)) && a@ == q && b@ == t,
            Err(e) => r == Err::<(String, String), ParseError>(e),
        },
{
    let f = split_fields(line);
    if f.len() < 6 {
        return Err(ParseError::MissingField);
    }
    Ok((f[0].clone(), f[5].clone()))
}

/// One pass of overlap expansion: membership is always tested against the
/// set selected before the pass, so growth stops after one edge.
pub struct OverlapExpansion {
    base: StringHashSet,
    staged: Vec<String>,
}

impl OverlapExpansion {
    pub closed spec fn base_view(&self) -> Set<Seq<char>> {
        self.base@
    }

    /// The selected set as it stands: the base and every read staged so far.
    pub closed spec fn selected_view(&self) -> Set<Seq<char>> {
        self.base@.union(Set::new(|k: Seq<char>| exists|i: int| 0 <= i < self.staged@.len() && #[trigger] self.staged@[i]@ == k))
    }

    pub fn new(base: StringHashSet) -> (r: OverlapExpansion)
        ensures
            r.base_view() == base@,
            r.selected_view() == base@,
    {
        let r = OverlapExpansion { base, staged: Vec::new() };
        proof {
            assert(r.selected_view() =~= base@);
        }
        r
    }

    /// Stages the partners of one edge: the target if the query was selected,
    /// the query if the target was.
    pub fn add_pair(&mut self, q: String, t: String)
        ensures
            final(self).base_view() == old(self).base_view(),
            final(self).selected_view() == old(self).selected_view().union(partners(old(self).base_view(), q@, t@)),
    {
        let ghost qv = q@;
        let ghost tv = t@;
        let q_in = self.base.contains(q.as_str());
        let t_in = self.base.contains(t.as_str());
        if q_in {
            self.staged.push(t);
        }
        if t_in {
            self.staged.push(q);
        }
        proof {
            let n = old(self).staged@.len();
            assert forall|k: Seq<char>| #[trigger] self.selected_view().contains(k)
                <==> old(self).selected_view().union(partners(old(self).base_view(), qv, tv)).contains(k) by {
                if exists|i: int| 0 <= i < self.staged@.len() && #[trigger] self.staged@[i]@ == k {
                    let i = choose|i: int| 0 <= i < self.staged@.len() && #[trigger] self.staged@[i]@ == k;
                    if i < n {
                        assert(old(self).staged@[i]@ == k);
                    }
                }
                if exists|i: int| 0 <= i < n && #[trigger] old(self).staged@[i]@ == k {
                    let i = choose|i: int| 0 <= i < n && #[trigger] old(self).staged@[i]@ == k;
                    assert(self.staged@[i]@ == k);
                }
                if k == tv && q_in {
                    assert(self.staged@[n as int]@ == k);
                }
                if k == qv && t_in {
                    assert(self.staged@[self.staged@.len() - 1]@ == k);
                }
            }
            assert(self.selected_view() =~= old(self).selected_view().union(partners(old(self).base_view(), qv, tv)));
        }
    }

    /// Reads one overlap line and stages its partners; on a bad line nothing
    /// changes.
    pub fn add_line(&mut self, line: &str) -> (r: Result<(), ParseError>)
        ensures
            final(self).base_view() == old(self).base_view(),
            match parse_overlap_spec(line@) {
                Ok((q, t)) => r is Ok
                    && final(self).selected_view() == old(self).selected_view().union(partners(old(self).base_view(), q, t)),
                Err(e) => r == Err::<(), ParseError>(e) && final(self).selected_view() == old(self).selected_view(),
            },
    {
        match parse_overlap_line(line) {
            Ok((q, t)) => {
                self.add_pair(q, t);
                Ok(())
            },
            Err(e) => Err(e),
        }
    }

    /// The selected set at the end of the pass.
    pub fn finish(self) -> (r: StringHashSet)
        ensures
            r@ == self.selected_view(),
    {
        let OverlapExpansion { base, staged } = self;
        let ghost staged_set = Set::new(|k: Seq<char>| exists|i: int| 0 <= i < staged@.len() && #[trigger] staged@[i]@ == k);
        let ghost base0 = base@;
        let mut out = base;
        let mut i: usize = 0;
        while i < staged.len()
            invariant
                i <= staged@.len(),
                out@ == base0.union(Set::new(|k: Seq<char>| exists|j: int| 0 <= j < i && #[trigger] staged@[j]@ == k)),
            decreases staged@.len() - i,
        {
            let ghost before = out@;
            out.insert(staged[i].clone());
            proof {
                assert forall|k: Seq<char>| #[trigger] out@.contains(k) <==>
                    base0.union(Set::new(|k: Seq<char>| exists|j: int| 0 <= j < i + 1 && #[trigger] staged@[j]@ == k)).contains(k) by {
                    if exists|j: int| 0 <= j < i + 1 && #[trigger] staged@[j]@ == k {
                        let j = choose|j: int| 0 <= j < i + 1 && #[trigger] staged@[j]@ == k;
                        if j < i {
                            assert(before.contains(k));
                        }
                    }
                    if k == staged@[i as int]@ {
                        assert(exists|j: int| 0 <= j < i + 1 && #[trigger] staged@[j]@ == k);
                    }
                }
                assert(out@ =~= base0.union(Set::new(|k: Seq<char>| exists|j: int| 0 <= j < i + 1 && #[trigger] staged@[j]@ == k)));
            }
            i = i + 1;
        }
        proof {
            assert(out@ =~= base0.union(staged_set));
        }
        out
    }
}

/// Adds to `selected` every read that shares an overlap line with a read of
/// `selected`, in one pass; the first bad line aborts the pass.
pub fn select_read_by_read_ovl(selected: StringHashSet, lines: &Vec<String>) -> (r: Result<StringHashSet, ParseError>)
    ensures
        match expanded(selected@, lines_view(lines@)) {
            Ok(s) => r matches Ok(x) && x@ == s,
            Err(e) => r == Err::<StringHashSet, ParseError>(e),
        },
{
    let ghost ls = lines_view(lines@);
    let ghost base = selected@;
    let mut exp = OverlapExpansion::new(selected);
    let mut i: usize = 0;
    while i < lines.len()
        invariant
            ls == lines_view(lines@),
            i <= lines@.len(),
            exp.base_view() == base,
            base == selected@,
            expanded(base, ls.take(i as int)) == Ok::<Set<Seq<char>>, ParseError>(exp.selected_view()),
        decreases lines@.len() - i,
    {
        proof {
            assert(ls.take(i as int + 1).drop_last() =~= ls.take(i as int));
            assert(ls.take(i as int + 1).last() == lines@[i as int]@);
        }
        match exp.add_line(lines[i].as_str()) {
            Ok(()) => {},
            Err(e) => {
                proof {
                    assert(expanded(base, ls.take(i as int + 1)) == Err::<Set<Seq<char>>, ParseError>(e));
                    lemma_expanded_err_sticks(base, ls, i as int + 1);
                }
                return Err(e);
            },
        }
        i = i + 1;
    }
    proof {
        assert(ls.take(lines@.len() as int) =~= ls);
    }
    Ok(exp.finish())
}

/// Once a prefix of the overlap table fails, the whole pass fails with that error.
proof fn lemma_expanded_err_sticks(base: Set<Seq<char>>, ls: Seq<Seq<char>>, n: int)
    requires
        0 <= n <= ls.len(),
        expanded(base, ls.take(n)) is Err,
    ensures
        expanded(base, ls) == expanded(base, ls.take(n)),
    decreases ls.len() - n,
{
    if n < ls.len() {
        assert(ls.take(n + 1).drop_last() =~= ls.take(n));
        lemma_expanded_err_sticks(base, ls, n + 1);
    } else {
        assert(ls.take(n) =~= ls);
    }
}

/// Overlap expansion only adds reads: the set selected before the pass is
/// contained in the set after it.
pub proof fn lemma_expansion_grows(base: Set<Seq<char>>, lines: Seq<Seq<char>>)
    ensures
        expanded(base, lines) matches Ok(s) ==> base.subset_of(s),
    decreases lines.len(),
{
    if lines.len() > 0 {
        lemma_expansion_grows(base, lines.drop_last());
    }
}

/// Whether an overlap line joins read `x` to a read of `base`.
pub open spec fn joins(base: Set<Seq<char>>, line: Seq<char>, x: Seq<char>) -> bool {
    match parse_overlap_spec(line) {
        Ok((q, t)) => (x == t && base.contains(q)) || (x == q && base.contains(t)),
        Err(_) => false,
    }
}

/// Overlap expansion goes one edge deep: every read of the final set was
/// selected before the pass or shares an overlap line with a read that was.
/// A read reached only through two or more edges is therefore left out.
pub proof fn lemma_expansion_one_hop(base: Set<Seq<char>>, lines: Seq<Seq<char>>)
    ensures
        expanded(base, lines) matches Ok(s) ==> forall|x: Seq<char>| #[trigger] s.contains(x) ==> base.contains(x)
            || exists|i: int| 0 <= i < lines.len() && #[trigger] joins(base, lines[i], x),
    decreases lines.len(),
{
    if lines.len() > 0 {
        let prev = lines.drop_last();
        lemma_expansion_one_hop(base, prev);
        if let Ok(s) = expanded(base, lines) {
            let s0 = expanded(base, prev)->Ok_0;
            let n = lines.len() - 1;
            assert forall|x: Seq<char>| #[trigger] s.contains(x) implies base.contains(x)
                || exists|i: int| 0 <= i < lines.len() && #[trigger] joins(base, lines[i], x) by {
                if s0.contains(x) {
                    if !base.contains(x) {
                        let i = choose|i: int| 0 <= i < prev.len() && #[trigger] joins(base, prev[i], x);
                        assert(lines[i] == prev[i]);
                    }
                } else {
                    assert(lines[n] == lines.last());
                    assert(joins(base, lines[n], x));
                }
            }
        }
    }
}

} // verus!
