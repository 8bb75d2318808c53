//! Layout of a frame's sections in its table of contents.
//!
//! A frame is split into the LF global section, one LF section per LF group, the
//! HF global section and one HF section per group and pass. The table of contents
//! gives each section's length in bytes, in storage order.
use vstd::prelude::*;
use vstd::arithmetic::div_mod::{lemma_fundamental_div_mod, lemma_fundamental_div_mod_converse};
use vstd::arithmetic::mul::{lemma_mul_inequality, lemma_mul_is_commutative};

use crate::bit_reader::BitReader;
use crate::error::Error;

verus! {

/// A logical section of a frame.
#[derive(Debug, Clone, Copy, PartialEq, Eq, Structural)]
pub enum Section {
    LfGlobal,
    Lf { group: usize },
    HfGlobal,
    Hf { group: usize, pass: usize },
}

/// The counts that decide where each section stands.
#[derive(Debug, Clone, Copy, PartialEq, Eq, Structural)]
pub struct SectionLayout {
    pub num_groups: usize,
    pub num_lf_groups: usize,
    pub num_passes: usize,
    pub num_toc_entries: usize,
}

/// Number of table of contents entries: one when the frame has a single group and
/// a single pass, else one per section.
pub open spec fn toc_entries(num_groups: int, num_lf_groups: int, num_passes: int) -> int {
    if num_groups == 1 && num_passes == 1 {
        1
    } else {
        2 + num_lf_groups + num_groups * num_passes
    }
}

impl SectionLayout {
    pub open spec fn wf(self) -> bool {
        &&& self.num_groups >= 1
        &&& self.num_lf_groups >= 1
        &&& self.num_passes >= 1
        &&& self.num_toc_entries == toc_entries(
            self.num_groups as int,
            self.num_lf_groups as int,
            self.num_passes as int,
        )
    }

    /// The section names a group and pass that the frame has.
    pub open spec fn is_valid(self, s: Section) -> bool {
        match s {
            Section::LfGlobal => true,
            Section::Lf { group } => group < self.num_lf_groups,
            Section::HfGlobal => true,
            Section::Hf { group, pass } => group < self.num_groups && pass < self.num_passes,
        }
    }

    /// Index of a section in the table of contents.
    pub open spec fn index_of(self, s: Section) -> int {
        if self.num_toc_entries == 1 {
            0
        } else {
            match s {
                Section::LfGlobal => 0,
                Section::Lf { group } => 1 + group,
                Section::HfGlobal => 1 + self.num_lf_groups,
                Section::Hf { group, pass } => 2 + self.num_lf_groups + self.num_groups * pass
                    + group,
            }
        }
    }

    /// The section at index `k` of a table of contents with more than one entry.
    pub open spec fn section_at(self, k: int) -> Section {
        if k == 0 {
            Section::LfGlobal
        } else if k <= self.num_lf_groups {
            Section::Lf { group: (k - 1) as usize }
        } else if k == 1 + self.num_lf_groups {
            Section::HfGlobal
        } else {
            let r = k - 2 - self.num_lf_groups;
            Section::Hf {
                group: (r % self.num_groups as int) as usize,
                pass: (r / self.num_groups as int) as usize,
            }
        }
    }

    /// The layout of a frame with the given numbers of groups, LF groups and passes.
    pub fn new(num_groups: usize, num_lf_groups: usize, num_passes: usize) -> (r: Self)
        requires
            num_groups >= 1,
            num_lf_groups >= 1,
            num_passes >= 1,
            2 + num_lf_groups + num_groups * num_passes <= usize::MAX,
        ensures
            r.wf(),
            r.num_groups == num_groups,
            r.num_lf_groups == num_lf_groups,
            r.num_passes == num_passes,
    {
        let num_toc_entries = if num_groups == 1 && num_passes == 1 {
            1
        } else {
            2 + num_lf_groups + num_groups * num_passes
        };
        SectionLayout { num_groups, num_lf_groups, num_passes, num_toc_entries }
    }

    /// Index in the table of contents of the given section.
    pub fn get_section_idx(&self, section: Section) -> (r: usize)
        requires
            self.wf(),
            self.num_toc_entries == 1 || self.is_valid(section),
        ensures
            r == self.index_of(section),
            r < self.num_toc_entries,
    {
        if self.num_toc_entries == 1 {
            0
        } else {
            proof {
                if let Section::Hf { group, pass } = section {
                    lemma_mul_inequality(pass as int, self.num_passes - 1, self.num_groups as int);
                    lemma_mul_is_commutative(pass as int, self.num_groups as int);
                    lemma_mul_is_commutative(self.num_passes - 1, self.num_groups as int);
                    assert(self.num_groups * (self.num_passes - 1) == self.num_groups
                        * self.num_passes - self.num_groups) by (nonlinear_arith);
                }
            }
            match section {
                Section::LfGlobal => 0,
                Section::Lf { group } => 1 + group,
                Section::HfGlobal => self.num_lf_groups + 1,
                Section::Hf { group, pass } => 2 + self.num_lf_groups + self.num_groups * pass
                    + group,
            }
        }
    }
}

/// When the table of contents has more than one entry, each index below
/// `num_toc_entries` belongs to exactly one section of the frame: `section_at`
/// undoes `index_of` on the frame's sections, and `index_of` undoes `section_at`
/// on the indices.
pub proof fn lemma_section_index_bijective(layout: SectionLayout)
    requires
        layout.wf(),
        layout.num_toc_entries > 1,
    ensures
        forall|s: Section| #[trigger]
            layout.is_valid(s) ==> 0 <= layout.index_of(s) < layout.num_toc_entries
                && layout.section_at(layout.index_of(s)) == s,
        forall|k: int|
            0 <= k < layout.num_toc_entries ==> #[trigger] layout.is_valid(layout.section_at(k))
                && layout.index_of(layout.section_at(k)) == k,
{
    let g = layout.num_groups as int;
    let lf = layout.num_lf_groups as int;
    assert forall|s: Section| #[trigger]
        layout.is_valid(s) implies 0 <= layout.index_of(s) < layout.num_toc_entries
        && layout.section_at(layout.index_of(s)) == s by {
        if let Section::Hf { group, pass } = s {
            let r = g * pass + group;
            lemma_mul_is_commutative(g, pass as int);
            lemma_fundamental_div_mod_converse(r, g, pass as int, group as int);
            lemma_mul_inequality(pass as int, layout.num_passes - 1, g);
            lemma_mul_is_commutative(layout.num_passes - 1, g);
            assert(g * (layout.num_passes - 1) == g * layout.num_passes - g) by (nonlinear_arith);
        }
    }
    assert forall|k: int| 0 <= k < layout.num_toc_entries implies #[trigger] layout.is_valid(
        layout.section_at(k),
    ) && layout.index_of(layout.section_at(k)) == k by {
        if k > 1 + lf {
            let r = k - 2 - lf;
            lemma_fundamental_div_mod(r, g);
            assert(r < g * layout.num_passes);
            let q = r / g;
            assert(q < layout.num_passes) by {
                if q >= layout.num_passes {
                    lemma_mul_inequality(layout.num_passes as int, q, g);
                    lemma_mul_is_commutative(layout.num_passes as int, g);
                    lemma_mul_is_commutative(q, g);
                    assert(0 <= r % g);
                }
            }
            assert(0 <= q) by {
                vstd::arithmetic::div_mod::lemma_div_pos_is_pos(r, g);
            }
        }
    }
}

pub open spec fn permutation_view(permutation: &Option<Vec<u32>>) -> Option<Seq<u32>> {
    match permutation {
        Some(p) => Some(p@),
        None => None,
    }
}

/// Section lengths in storage order: taken through the permutation when there is one.
pub open spec fn storage_lengths(entries: Seq<u32>, permutation: Option<Seq<u32>>) -> Seq<int> {
    match permutation {
        Some(p) => Seq::new(p.len(), |i: int| entries[p[i] as int] as int),
        None => Seq::new(entries.len(), |i: int| entries[i] as int),
    }
}

/// Sum of the first `n` lengths.
pub open spec fn prefix_sum(lens: Seq<int>, n: int) -> int
    decreases n,
{
    if n <= 0 {
        0
    } else {
        prefix_sum(lens, n - 1) + lens[n - 1]
    }
}

/// The permutation, if any, only names entries that exist.
pub open spec fn permutation_in_range(entries: Seq<u32>, permutation: Option<Seq<u32>>) -> bool {
    permutation matches Some(p) ==> forall|i: int| 0 <= i < p.len() ==> p[i] < entries.len()
}

proof fn lemma_prefix_sum_monotone(lens: Seq<int>, i: int, j: int)
    requires
        0 <= i <= j <= lens.len(),
        forall|k: int| 0 <= k < lens.len() ==> lens[k] >= 0,
    ensures
        prefix_sum(lens, i) <= prefix_sum(lens, j),
    decreases j - i,
{
    if i < j {
        lemma_prefix_sum_monotone(lens, i, j - 1);
    }
}

/// `p` lists each of `0..n` exactly once.
pub open spec fn is_permutation(p: Seq<u32>, n: int) -> bool {
    &&& p.len() == n
    &&& forall|i: int| 0 <= i < n ==> #[trigger] p[i] < n
    &&& forall|i: int, j: int| 0 <= i < n && 0 <= j < n && #[trigger] p[i] == #[trigger] p[j] ==> i == j
    &&& forall|v: int| 0 <= v < n ==> #[trigger] lists(p, n, v)
}

/// `v` stands among the first `n` entries of `p`.
pub open spec fn lists(p: Seq<u32>, n: int, v: int) -> bool {
    exists|i: int| 0 <= i < n && #[trigger] p[i] == v
}

proof fn lemma_prefix_sum_same(s: Seq<int>, t: Seq<int>, n: int)
    requires
        0 <= n <= s.len(),
        n <= t.len(),
        forall|i: int| 0 <= i < n ==> s[i] == t[i],
    ensures
        prefix_sum(s, n) == prefix_sum(t, n),
    decreases n,
{
    if n > 0 {
        lemma_prefix_sum_same(s, t, n - 1);
    }
}

proof fn lemma_prefix_sum_update(s: Seq<int>, k: int, x: int, n: int)
    requires
        0 <= k < s.len(),
        0 <= n <= s.len(),
    ensures
        prefix_sum(s.update(k, x), n) == prefix_sum(s, n) + (if k < n {
            x - s[k]
        } else {
            0
        }),
    decreases n,
{
    if n > 0 {
        lemma_prefix_sum_update(s, k, x, n - 1);
    }
}

proof fn lemma_permuted_sum(e: Seq<int>, p: Seq<u32>)
    requires
        is_permutation(p, e.len() as int),
    ensures
        prefix_sum(Seq::new(p.len(), |i: int| e[p[i] as int]), p.len() as int) == prefix_sum(
            e,
            e.len() as int,
        ),
    decreases e.len(),
{
    let n = e.len() as int;
    let s = Seq::new(p.len(), |i: int| e[p[i] as int]);
    if n > 0 {
        assert(lists(p, n, n - 1));
        let k = choose|i: int| 0 <= i < n && #[trigger] p[i] == n - 1;
        let q = p.update(k, p[n - 1]).drop_last();
        let e2 = e.drop_last();
        assert(is_permutation(q, n - 1)) by {
            assert forall|i: int| 0 <= i < n - 1 implies #[trigger] q[i] < n - 1 by {
                if i == k {
                    assert(p[n - 1] != n - 1);
                } else {
                    assert(p[i] != n - 1);
                }
            }
            assert forall|i: int, j: int|
                0 <= i < n - 1 && 0 <= j < n - 1 && #[trigger] q[i] == #[trigger] q[j] implies i
                == j by {
                if i == k && j != k {
                    assert(p[n - 1] == p[j]);
                } else if j == k && i != k {
                    assert(p[n - 1] == p[i]);
                } else if i != k && j != k {
                    assert(p[i] == p[j]);
                }
            }
            assert forall|v: int| 0 <= v < n - 1 implies #[trigger] lists(q, n - 1, v) by {
                assert(lists(p, n, v));
                let i = choose|i: int| 0 <= i < n && #[trigger] p[i] == v;
                if i == n - 1 {
                    assert(q[k] == v);
                } else {
                    assert(i != k);
                    assert(q[i] == v);
                }
            }
        }
        lemma_permuted_sum(e2, q);
        let s2 = s.update(k, s[n - 1]);
        let t = Seq::new(q.len(), |i: int| e2[q[i] as int]);
        lemma_prefix_sum_update(s, k, s[n - 1], n);
        lemma_prefix_sum_same(t, s2, n - 1);
        lemma_prefix_sum_same(e2, e, n - 1);
        assert(s[k] == e[n - 1]);
    }
}

/// Reading the sections through a permutation of the table of contents covers
/// as many bytes as reading them in order.
pub proof fn lemma_permuted_total(entries: Seq<u32>, p: Seq<u32>)
    requires
        is_permutation(p, entries.len() as int),
    ensures
        prefix_sum(storage_lengths(entries, Some(p)), p.len() as int) == prefix_sum(
            storage_lengths(entries, None),
            entries.len() as int,
        ),
{
    let e = storage_lengths(entries, None);
    lemma_permuted_sum(e, p);
    lemma_prefix_sum_same(
        storage_lengths(entries, Some(p)),
        Seq::new(p.len(), |i: int| e[p[i] as int]),
        p.len() as int,
    );
}

/// Total number of bytes that the table of contents describes.
pub fn total_bytes_in_toc(entries: &Vec<u32>) -> (r: u64)
    requires
        entries@.len() <= 0x1_0000_0000,
    ensures
        r == prefix_sum(storage_lengths(entries@, None), entries@.len() as int),
{
    let ghost lens = storage_lengths(entries@, None);
    let mut total: u64 = 0;
    let mut i: usize = 0;
    while i < entries.len()
        invariant
            i <= entries@.len() <= 0x1_0000_0000,
            lens == storage_lengths(entries@, None),
            total == prefix_sum(lens, i as int),
            total <= i * 0xffff_ffff,
        decreases entries@.len() - i,
    {
        total = total + entries[i] as u64;
        i = i + 1;
    }
    total
}

/// Splits the sections off `br`, which stands at the byte boundary after the
/// table of contents: one reader per section, in storage order, each over exactly
/// the bytes of its section. Fails with `OutOfBounds`, and hands out nothing, when
/// the sections need more bytes than `br` has.
pub fn sections<'a>(
    br: &mut BitReader<'a>,
    entries: &Vec<u32>,
    permutation: &Option<Vec<u32>>,
) -> (r: Result<Vec<BitReader<'a>>, Error>)
    requires
        old(br).wf(),
        old(br).pos() % 8 == 0,
        permutation_in_range(entries@, permutation_view(permutation)),
    ensures
        final(br).wf(),
        final(br).data() == old(br).data(),
        ({
            let lens = storage_lengths(entries@, permutation_view(permutation));
            let start = old(br).pos() / 8;
            let total = prefix_sum(lens, lens.len() as int);
            &&& r is Ok <==> start + total <= old(br).data().len()
            &&& r is Err ==> r == Err::<Vec<BitReader<'a>>, Error>(Error::OutOfBounds)
            &&& r matches Ok(v) ==> {
                &&& v@.len() == lens.len()
                &&& final(br).pos() == old(br).pos() + 8 * total
                &&& (permutation_view(permutation) matches Some(p) ==> is_permutation(
                    p,
                    entries@.len() as int,
                )) ==> total == prefix_sum(
                    storage_lengths(entries@, None),
                    entries@.len() as int,
                )
                &&& forall|i: int|
                    0 <= i < lens.len() ==> (#[trigger] v@[i]).wf() && v@[i].pos() == 0
                        && v@[i].data() == old(br).data().subrange(
                        start + prefix_sum(lens, i),
                        start + prefix_sum(lens, i + 1),
                    )
            }
        }),
{
    let ghost lens = storage_lengths(entries@, permutation_view(permutation));
    let ghost start = br.pos() / 8;
    let n = match permutation {
        Some(p) => p.len(),
        None => entries.len(),
    };
    let mut out: Vec<BitReader<'a>> = Vec::new();
    let mut i: usize = 0;
    while i < n
        invariant
            i <= n == lens.len(),
            lens == storage_lengths(entries@, permutation_view(permutation)),
            permutation_in_range(entries@, permutation_view(permutation)),
            forall|k: int| 0 <= k < lens.len() ==> lens[k] >= 0,
            br.wf(),
            br.data() == old(br).data(),
            start == old(br).pos() / 8,
            old(br).pos() % 8 == 0,
            br.pos() == old(br).pos() + 8 * prefix_sum(lens, i as int),
            out@.len() == i,
            forall|k: int|
                0 <= k < i ==> (#[trigger] out@[k]).wf() && out@[k].pos() == 0 && out@[k].data()
                    == old(br).data().subrange(
                    start + prefix_sum(lens, k),
                    start + prefix_sum(lens, k + 1),
                ),
        decreases n - i,
    {
        let len = match permutation {
            Some(p) => entries[p[i] as usize] as usize,
            None => entries[i] as usize,
        };
        match br.split_at(len) {
            Ok(sub) => {
                out.push(sub);
            },
            Err(e) => {
                proof {
                    lemma_prefix_sum_monotone(lens, i + 1, lens.len() as int);
                }
                return Err(e);
            },
        }
        i = i + 1;
    }
    proof {
        if let Some(p) = permutation_view(permutation) {
            if is_permutation(p, entries@.len() as int) {
                lemma_permuted_total(entries@, p);
            }
        }
    }
    assert(old(br).pos() == 8 * start);
    assert(start + prefix_sum(lens, lens.len() as int) <= old(br).data().len());
    Ok(out)
}

} // verus!
