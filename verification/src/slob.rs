//! SLOB small-object allocator: unit arithmetic and the in-page free list.
//!
//! A page serves allocations measured in 2-byte units. Its free space is a
//! list of runs, kept sorted by offset; freeing merges with both physical
//! neighbours at once, so no two free runs are ever adjacent, and the sum of
//! the run lengths always equals the page's `free_units` counter.

use vstd::prelude::*;

verus! {

/// The unit type of the in-page encoding: one signed 16-bit word.
pub type SlobUnit = i16;

/// Bytes per unit.
pub const UNIT_SIZE: usize = 2;

/// Bytes of a page taken by the page header.
pub const SLOB_HEADER_SIZE: usize = 32;

/// Bytes of a page available to objects.
pub const PAGE_FREE_SIZE: usize = 4064;

/// Units of a page available to objects.
pub const TOTAL_UNITS: i16 = 2032;

/// Units needed for an allocation of `x` bytes: its payload rounded up to
/// whole units, plus the unit that records the block length.
pub fn need_units(x: usize) -> (r: SlobUnit)
    requires
        x < 65000,
    ensures
        r == spec_need_units(x as int),
        r >= 1,
        unit_to_size_spec(r as int) >= x,
{
    if x % UNIT_SIZE == 0 {
        (x / UNIT_SIZE + 1) as SlobUnit
    } else {
        (x / UNIT_SIZE + 2) as SlobUnit
    }
}

/// Units needed for an allocation of `x` bytes.
pub open spec fn spec_need_units(x: int) -> int {
    if x % 2 == 0 {
        x / 2 + 1
    } else {
        x / 2 + 2
    }
}

/// How many whole units fit in `x` bytes.
pub fn contain_units(x: usize) -> (r: SlobUnit)
    requires
        x < 65000,
    ensures
        r == x as int / 2,
{
    (x / UNIT_SIZE) as SlobUnit
}

/// Bytes of payload in a block of `x` units.
pub open spec fn unit_to_size_spec(x: int) -> int {
    (x - 1) * 2
}

/// Bytes of payload in a block of `x` units.
pub fn unit_to_size(x: SlobUnit) -> (r: usize)
    requires
        x >= 1,
    ensures
        r == unit_to_size_spec(x as int),
{
    (x - 1) as usize * UNIT_SIZE
}

/// The strictest power-of-two alignment that `size` itself satisfies, the
/// alignment given to plain allocations; 0 means none.
pub fn align_num(size: usize) -> (r: usize)
    ensures
        r == spec_align_num(size as int),
{
    if size % 8 == 0 {
        8
    } else if size % 4 == 0 {
        4
    } else if size % 2 == 0 {
        2
    } else {
        0
    }
}

/// The alignment chosen for a plain allocation of `size` bytes.
pub open spec fn spec_align_num(size: int) -> int {
    if size % 8 == 0 {
        8
    } else if size % 4 == 0 {
        4
    } else if size % 2 == 0 {
        2
    } else {
        0
    }
}

/// A named allocation size, as handed to the cache allocation entry point.
pub struct KMemCache {
    pub name: &'static str,
    pub size: usize,
    pub align: usize,
}

/// Byte offset, within the page, of unit `u`.
pub open spec fn unit_addr(u: int) -> int {
    SLOB_HEADER_SIZE + 2 * u
}

/// How many filler units an allocation at run offset `off` needs before it
/// so that the object, which starts one unit into the block, is
/// `align`-aligned within the page.
pub open spec fn spec_align_delta(off: int, align: int) -> int {
    if align <= 0 {
        0
    } else {
        let rem = unit_addr(off + 1) % align;
        if rem == 0 {
            0
        } else {
            (align - rem) / 2
        }
    }
}

/// Computes the filler units before an aligned block at run offset `off`.
fn align_delta(off: SlobUnit, align: usize) -> (r: SlobUnit)
    requires
        0 <= off <= TOTAL_UNITS,
        align == 0 || align == 2 || align == 4 || align == 8,
    ensures
        r == spec_align_delta(off as int, align as int),
        0 <= r <= 3,
        align > 0 ==> unit_addr(off + r + 1) % (align as int) == 0,
{
    if align == 0 {
        return 0;
    }
    let addr = SLOB_HEADER_SIZE + 2 * (off as usize + 1);
    let rem = addr % align;
    if rem == 0 {
        0
    } else {
        let d = ((align - rem) / 2) as SlobUnit;
        proof {
            let a = align as int;
            let ad = addr as int;
            assert(ad % 2 == 0 && (a == 2 || a == 4 || a == 8)) by {
                assert(ad == 32 + 2 * (off + 1));
            }
            assert(ad % a % 2 == 0 && (ad + (a - ad % a)) % a == 0 && a - ad % a >= 0) by {
                let r0 = ad % a;
                vstd::arithmetic::div_mod::lemma_fundamental_div_mod(ad, a);
                assert(r0 % 2 == 0) by {
                    assert(ad == a * (ad / a) + r0);
                    assert(a % 2 == 0);
                    vstd::arithmetic::div_mod::lemma_mod_breakdown(ad, 2, a / 2)
                }
                vstd::arithmetic::div_mod::lemma_mod_add_multiples_vanish(ad + (a - r0), a);
                assert((ad + (a - r0)) == a + (ad - r0));
                assert((ad - r0) % a == 0) by {
                    assert(ad - r0 == a * (ad / a));
                    vstd::arithmetic::div_mod::lemma_mod_multiples_basic(ad / a, a);
                }
                vstd::arithmetic::div_mod::lemma_mod_add_multiples_vanish(ad - r0, a);
            }
            assert(unit_addr(off + d + 1) == ad + 2 * d);
        }
        d
    }
}

} // verus!
verus! {

/// Sum of the lengths of a sequence of runs.
pub open spec fn sum_lens(s: Seq<(SlobUnit, SlobUnit)>) -> int
    decreases s.len(),
{
    if s.len() == 0 {
        0
    } else {
        s[0].1 + sum_lens(s.drop_first())
    }
}

/// Whether unit `u` lies in run `r`.
pub open spec fn in_run(r: (SlobUnit, SlobUnit), u: int) -> bool {
    r.0 <= u < r.0 + r.1
}

/// Whether some run of `s` holds unit `u`.
pub open spec fn covers(s: Seq<(SlobUnit, SlobUnit)>, u: int) -> bool {
    exists|i: int| 0 <= i < s.len() && in_run(#[trigger] s[i], u)
}

/// Whether two runs share no unit.
pub open spec fn runs_disjoint(a: (SlobUnit, SlobUnit), b: (SlobUnit, SlobUnit)) -> bool {
    a.0 + a.1 <= b.0 || b.0 + b.1 <= a.0
}

proof fn lemma_sum_drop_last(s: Seq<(SlobUnit, SlobUnit)>)
    requires
        s.len() > 0,
    ensures
        sum_lens(s) == sum_lens(s.drop_last()) + s.last().1,
    decreases s.len(),
{
    if s.len() == 1 {
        assert(s.drop_last() =~= Seq::<(SlobUnit, SlobUnit)>::empty());
        assert(s.drop_first() =~= Seq::<(SlobUnit, SlobUnit)>::empty());
        assert(sum_lens(s.drop_last()) == 0);
        assert(sum_lens(s) == s[0].1 + sum_lens(s.drop_first()));
        assert(s.last() == s[0]);
    } else {
        lemma_sum_drop_last(s.drop_first());
        assert(s.drop_first().drop_last() =~= s.drop_last().drop_first());
        assert(s.drop_last()[0] == s[0]);
        assert(s.drop_first().last() == s.last());
    }
}

proof fn lemma_sum_insert(s: Seq<(SlobUnit, SlobUnit)>, j: int, e: (SlobUnit, SlobUnit))
    requires
        0 <= j <= s.len(),
    ensures
        sum_lens(s.insert(j, e)) == sum_lens(s) + e.1,
    decreases s.len(),
{
    if j == 0 {
        assert(s.insert(0, e).drop_first() =~= s);
    } else {
        lemma_sum_insert(s.drop_first(), j - 1, e);
        assert(s.insert(j, e).drop_first() =~= s.drop_first().insert(j - 1, e));
        assert(s.insert(j, e)[0] == s[0]);
    }
}

proof fn lemma_sum_remove(s: Seq<(SlobUnit, SlobUnit)>, j: int)
    requires
        0 <= j < s.len(),
    ensures
        sum_lens(s.remove(j)) == sum_lens(s) - s[j].1,
    decreases s.len(),
{
    if j == 0 {
        assert(s.remove(0) =~= s.drop_first());
    } else {
        lemma_sum_remove(s.drop_first(), j - 1);
        assert(s.remove(j).drop_first() =~= s.drop_first().remove(j - 1));
        assert(s.remove(j)[0] == s[0]);
    }
}

proof fn lemma_sum_update(s: Seq<(SlobUnit, SlobUnit)>, j: int, e: (SlobUnit, SlobUnit))
    requires
        0 <= j < s.len(),
    ensures
        sum_lens(s.update(j, e)) == sum_lens(s) - s[j].1 + e.1,
    decreases s.len(),
{
    if j == 0 {
        assert(s.update(0, e).drop_first() =~= s.drop_first());
    } else {
        lemma_sum_update(s.drop_first(), j - 1, e);
        assert(s.update(j, e).drop_first() =~= s.drop_first().update(j - 1, e));
        assert(s.update(j, e)[0] == s[0]);
    }
}

proof fn lemma_covers_insert(s: Seq<(SlobUnit, SlobUnit)>, j: int, e: (SlobUnit, SlobUnit))
    requires
        0 <= j <= s.len(),
    ensures
        forall|u: int| covers(s.insert(j, e), u) <==> covers(s, u) || in_run(e, u),
{
    let t = s.insert(j, e);
    assert forall|u: int| covers(t, u) implies covers(s, u) || in_run(e, u) by {
        let i = choose|i: int| 0 <= i < t.len() && in_run(t[i], u);
        if i < j {
            assert(s[i] == t[i]);
        } else if i == j {
        } else {
            assert(s[i - 1] == t[i]);
        }
    }
    assert forall|u: int| covers(s, u) || in_run(e, u) implies covers(t, u) by {
        if covers(s, u) {
            let i = choose|i: int| 0 <= i < s.len() && in_run(s[i], u);
            if i < j {
                assert(t[i] == s[i]);
                assert(in_run(t[i], u));
            } else {
                assert(t[i + 1] == s[i]);
                assert(in_run(t[i + 1], u));
            }
        } else {
            assert(t[j] == e);
            assert(in_run(t[j], u));
        }
    }
}

proof fn lemma_covers_remove(s: Seq<(SlobUnit, SlobUnit)>, j: int)
    requires
        0 <= j < s.len(),
        forall|a: int, b: int|
            0 <= a < b < s.len() ==> runs_disjoint(#[trigger] s[a], #[trigger] s[b]),
    ensures
        forall|u: int| covers(s.remove(j), u) <==> covers(s, u) && !in_run(s[j], u),
{
    let t = s.remove(j);
    assert forall|u: int| covers(t, u) implies covers(s, u) && !in_run(s[j], u) by {
        let i = choose|i: int| 0 <= i < t.len() && in_run(t[i], u);
        if i < j {
            assert(s[i] == t[i]);
            assert(in_run(s[i], u));
            assert(runs_disjoint(s[i], s[j]));
        } else {
            assert(s[i + 1] == t[i]);
            assert(in_run(s[i + 1], u));
            assert(runs_disjoint(s[j], s[i + 1]));
        }
    }
    assert forall|u: int| covers(s, u) && !in_run(s[j], u) implies covers(t, u) by {
        let i = choose|i: int| 0 <= i < s.len() && in_run(s[i], u);
        if i < j {
            assert(t[i] == s[i]);
            assert(in_run(t[i], u));
        } else {
            assert(i > j);
            assert(t[i - 1] == s[i]);
            assert(in_run(t[i - 1], u));
        }
    }
}

proof fn lemma_covers_update(s: Seq<(SlobUnit, SlobUnit)>, j: int, e: (SlobUnit, SlobUnit))
    requires
        0 <= j < s.len(),
        forall|a: int, b: int|
            0 <= a < b < s.len() ==> runs_disjoint(#[trigger] s[a], #[trigger] s[b]),
    ensures
        forall|u: int|
            covers(s.update(j, e), u) <==> (covers(s, u) && !in_run(s[j], u)) || in_run(e, u),
{
    assert(s.update(j, e) =~= s.remove(j).insert(j, e));
    lemma_covers_remove(s, j);
    lemma_covers_insert(s.remove(j), j, e);
}

} // verus!
verus! {

/// A page in the hands of the small-object allocator: its free space as a
/// sorted list of runs, and the blocks currently handed out.
pub struct SlobPage {
    /// How many free units are left on the page.
    pub free_units: SlobUnit,
    /// The free runs, sorted by offset, never adjacent.
    pub runs: Vec<(SlobUnit, SlobUnit)>,
    /// The blocks handed out and not yet freed.
    pub allocated: Vec<(SlobUnit, SlobUnit)>,
    /// Either nothing, or an upper bound on the largest free run.
    pub max_free: Option<SlobUnit>,
}

/// Whether a run lies within the page.
pub open spec fn run_ok(r: (SlobUnit, SlobUnit)) -> bool {
    0 <= r.0 && 1 <= r.1 && r.0 + r.1 <= TOTAL_UNITS
}

impl SlobPage {
    /// The shape every page keeps: runs sorted and non-adjacent, the
    /// `free_units` counter equal to the summed run lengths, `max_free` a
    /// sound bound, and handed-out blocks disjoint from each other and from
    /// the free space.
    pub open spec fn wf(self) -> bool {
        &&& forall|i: int| 0 <= i < self.runs@.len() ==> run_ok(#[trigger] self.runs@[i])
        &&& forall|i: int|
            0 <= i < self.runs@.len() - 1 ==> (#[trigger] self.runs@[i]).0 + self.runs@[i].1
                < self.runs@[i + 1].0
        &&& self.free_units == sum_lens(self.runs@)
        &&& match self.max_free {
            Some(m) => forall|i: int|
                0 <= i < self.runs@.len() ==> (#[trigger] self.runs@[i]).1 <= m,
            None => true,
        }
        &&& forall|i: int| 0 <= i < self.allocated@.len() ==> run_ok(#[trigger] self.allocated@[i])
        &&& forall|i: int, j: int|
            0 <= i < j < self.allocated@.len() ==> runs_disjoint(
                #[trigger] self.allocated@[i],
                #[trigger] self.allocated@[j],
            )
        &&& forall|i: int, j: int|
            0 <= i < self.runs@.len() && 0 <= j < self.allocated@.len() ==> runs_disjoint(
                #[trigger] self.runs@[i],
                #[trigger] self.allocated@[j],
            )
        &&& sum_lens(self.allocated@) + self.free_units <= TOTAL_UNITS
    }

    /// Whether unit `u` is free on this page.
    pub open spec fn is_free(self, u: int) -> bool {
        covers(self.runs@, u)
    }

    /// Whether unit `u` belongs to a handed-out block.
    pub open spec fn is_allocated(self, u: int) -> bool {
        covers(self.allocated@, u)
    }

    /// Sorted, non-adjacent runs are pairwise disjoint.
    proof fn lemma_runs_sorted_disjoint(self)
        requires
            self.wf(),
        ensures
            forall|a: int, b: int|
                0 <= a < b < self.runs@.len() ==> runs_disjoint(
                    #[trigger] self.runs@[a],
                    #[trigger] self.runs@[b],
                ),
    {
        let s = self.runs@;
        assert forall|a: int, b: int| 0 <= a < b < s.len() implies runs_disjoint(
            #[trigger] s[a],
            #[trigger] s[b],
        ) by {
            self.lemma_runs_ordered(a, b);
        }
    }

    /// Run starts grow along the sequence.
    proof fn lemma_runs_ordered(self, a: int, b: int)
        requires
            self.wf(),
            0 <= a < b < self.runs@.len(),
        ensures
            self.runs@[a].0 + self.runs@[a].1 <= self.runs@[b].0,
        decreases b - a,
    {
        if b == a + 1 {
        } else {
            self.lemma_runs_ordered(a + 1, b);
        }
    }

    /// A fresh page: one run that spans all units.
    pub fn new() -> (r: Self)
        ensures
            r.wf(),
            r.free_units == TOTAL_UNITS,
            forall|u: int| 0 <= u < TOTAL_UNITS ==> r.is_free(u),
            forall|u: int| !r.is_allocated(u),
            r.allocated@.len() == 0,
            r.runs@.len() == 1 && r.runs@[0] == ((0 as SlobUnit), TOTAL_UNITS),
    {
        let mut runs: Vec<(SlobUnit, SlobUnit)> = Vec::new();
        runs.push((0, TOTAL_UNITS));
        let r = SlobPage { free_units: TOTAL_UNITS, runs, allocated: Vec::new(), max_free: Some(TOTAL_UNITS) };
        proof {
            assert(r.runs@.drop_first() =~= Seq::<(SlobUnit, SlobUnit)>::empty());
            assert(sum_lens(r.runs@.drop_first()) == 0);
            assert(sum_lens(r.runs@) == r.runs@[0].1 + sum_lens(r.runs@.drop_first()));
            assert(forall|u: int| 0 <= u < TOTAL_UNITS ==> in_run(r.runs@[0], u));
        }
        r
    }

    /// Takes an aligned block of `units` units out of the free space, first
    /// fit. On failure the page is unchanged and no run could have held the
    /// block; `max_free` then records the largest run for later walks to
    /// skip the page.
    pub fn page_alloc(&mut self, units: SlobUnit, align: usize) -> (r: Option<SlobUnit>)
        requires
            old(self).wf(),
            1 <= units <= TOTAL_UNITS,
            align == 0 || align == 2 || align == 4 || align == 8,
        ensures
            final(self).wf(),
            match r {
                Some(a) => {
                    &&& 0 <= a && a + units <= TOTAL_UNITS
                    &&& align > 0 ==> unit_addr(a + 1) % (align as int) == 0
                    &&& forall|u: int| a <= u < a + units ==> old(self).is_free(u)
                    &&& forall|u: int| a <= u < a + units ==> !final(self).is_free(u)
                    &&& forall|u: int|
                        !(a <= u < a + units) ==> final(self).is_free(u) == old(self).is_free(u)
                    &&& forall|u: int|
                        !(a <= u < a + units) ==> final(self).is_allocated(u) == old(
                            self,
                        ).is_allocated(u)
                    &&& final(self).allocated@ == old(self).allocated@.push((a, units))
                    &&& final(self).free_units == old(self).free_units - units
                },
                None => {
                    &&& final(self).runs@ == old(self).runs@
                    &&& final(self).allocated@ == old(self).allocated@
                    &&& final(self).free_units == old(self).free_units
                    &&& final(self).max_free is Some
                    &&& forall|i: int|
                        0 <= i < old(self).runs@.len() ==> (#[trigger] old(self).runs@[i]).1
                            < units + spec_align_delta(old(self).runs@[i].0 as int, align as int)
                },
            },
    {
        let ghost orig = *self;
        let mut i: usize = 0;
        let mut max_seen: SlobUnit = 0;
        let mut found = false;
        let mut found_delta: SlobUnit = 0;
        proof {
            orig.lemma_runs_sorted_disjoint();
        }
        while i < self.runs.len() && !found
            invariant
                *self == orig,
                orig.wf(),
                1 <= units <= TOTAL_UNITS,
                align == 0 || align == 2 || align == 4 || align == 8,
                0 <= i <= self.runs@.len(),
                forall|k: int|
                    0 <= k < i ==> (#[trigger] self.runs@[k]).1 < units + spec_align_delta(
                        self.runs@[k].0 as int,
                        align as int,
                    ),
                0 <= max_seen,
                forall|k: int| 0 <= k < i ==> (#[trigger] self.runs@[k]).1 <= max_seen,
                found ==> {
                    &&& i < self.runs@.len()
                    &&& found_delta == spec_align_delta(self.runs@[i as int].0 as int, align as int)
                    &&& 0 <= found_delta <= 3
                    &&& self.runs@[i as int].1 >= units + found_delta
                    &&& align > 0 ==> unit_addr(
                        self.runs@[i as int].0 + found_delta + 1,
                    ) % (align as int) == 0
                },
            decreases self.runs@.len() - i, if found { 0int } else { 1int },
        {
            let (off, len) = self.runs[i];
            if len > max_seen {
                max_seen = len;
            }
            let delta = align_delta(off, align);
            if len >= units + delta {
                found = true;
                found_delta = delta;
            } else {
                i += 1;
            }
        }
        if found {
            let (off, len) = self.runs[i];
            let delta = found_delta;
            let a = off + delta;
            let rest = len - delta - units;
            self.runs.remove(i);
            if rest > 0 {
                self.runs.insert(i, (a + units, rest));
            }
            if delta > 0 {
                self.runs.insert(i, (off, delta));
            }
            proof {
                lemma_sum_element(orig.runs@, i as int);
            }
            self.free_units = self.free_units - units;
            self.max_free = None;
            self.allocated.push((a, units));
            proof {
                self.lemma_alloc_splice(orig, i as int, units as int, delta as int, rest as int, a as int);
            }
            return Some(a);
        }
        self.max_free = Some(max_seen);
        return None;
    }
}

} // verus!
verus! {

impl SlobPage {
    /// After a block is carved out of run `i`, the page is well formed
    /// again, the carved units moved from free to allocated, and every other
    /// unit kept its state.
    #[verifier::rlimit(100)]
    #[verifier::spinoff_prover]
    proof fn lemma_alloc_splice(
        &self,
        orig: Self,
        i: int,
        units: int,
        delta: int,
        rest: int,
        a: int,
    )
        requires
            orig.wf(),
            0 <= i < orig.runs@.len(),
            1 <= units <= TOTAL_UNITS,
            0 <= delta,
            orig.runs@[i].1 >= units + delta,
            a == orig.runs@[i].0 + delta,
            rest == orig.runs@[i].1 - delta - units,
            self.free_units == orig.free_units - units,
            self.allocated@ == orig.allocated@.push(((a as SlobUnit), (units as SlobUnit))),
            self.max_free is None,
            self.runs@ == spliced_runs(orig.runs@, i, delta, rest, a, units),
        ensures
            self.wf(),
            forall|u: int| a <= u < a + units ==> orig.is_free(u),
            forall|u: int| a <= u < a + units ==> !self.is_free(u),
            forall|u: int| !(a <= u < a + units) ==> self.is_free(u) == orig.is_free(u),
            forall|u: int|
                !(a <= u < a + units) ==> self.is_allocated(u) == orig.is_allocated(u),
    {
        let s0 = orig.runs@;
        let run_i = s0[i];
        let off = run_i.0;
        let len = run_i.1 as int;
        let s1 = s0.remove(i);
        let s2 = if rest > 0 {
            s1.insert(i, (((a + units) as SlobUnit), (rest as SlobUnit)))
        } else {
            s1
        };
        let s3 = self.runs@;
        orig.lemma_runs_sorted_disjoint();
        lemma_covers_remove(s0, i);
        lemma_sum_remove(s0, i);
        if rest > 0 {
            lemma_covers_insert(s1, i, (((a + units) as SlobUnit), (rest as SlobUnit)));
            lemma_sum_insert(s1, i, (((a + units) as SlobUnit), (rest as SlobUnit)));
        }
        if delta > 0 {
            lemma_covers_insert(s2, i, (off, (delta as SlobUnit)));
            lemma_sum_insert(s2, i, (off, (delta as SlobUnit)));
        }
        lemma_sum_insert(orig.allocated@, orig.allocated@.len() as int,
            ((a as SlobUnit), (units as SlobUnit)));
        assert(orig.allocated@.push(((a as SlobUnit), (units as SlobUnit)))
            =~= orig.allocated@.insert(orig.allocated@.len() as int,
                ((a as SlobUnit), (units as SlobUnit))));

        // Pointwise characterisation of the new free space.
        assert forall|u: int| #[trigger] covers(s3, u) == ((covers(s0, u) && !in_run(run_i, u))
            || (off <= u < off + delta) || (a + units <= u < off + len)) by {
            if rest > 0 {
                assert(in_run((((a + units) as SlobUnit), (rest as SlobUnit)), u)
                    == (a + units <= u < off + len));
            }
            if delta > 0 {
                assert(in_run((off, (delta as SlobUnit)), u) == (off <= u < off + delta));
            }
        }

        // The carved range was free and is no longer.
        assert forall|u: int| a <= u < a + units implies orig.is_free(u) && !self.is_free(u) by {
            assert(in_run(run_i, u));
            assert(covers(s0, u));
        }
        // Everything else keeps its state.
        assert forall|u: int| !(a <= u < a + units) implies self.is_free(u) == orig.is_free(
            u,
        ) by {
            if in_run(run_i, u) {
                assert((off <= u < off + delta) || (a + units <= u < off + len));
            }
        }
        assert forall|u: int| !(a <= u < a + units) implies self.is_allocated(u)
            == orig.is_allocated(u) by {
            lemma_covers_insert(orig.allocated@, orig.allocated@.len() as int,
                ((a as SlobUnit), (units as SlobUnit)));
        }

        // Well-formedness of the spliced run list.
        let m: int = (if delta > 0 { 1int } else { 0 }) + (if rest > 0 { 1int } else { 0 });
        assert(s3.len() == s0.len() - 1 + m);
        assert(forall|k: int| 0 <= k < i ==> s3[k] == s0[k]);
        assert(forall|k: int| i + m <= k < s3.len() ==> s3[k] == s0[k + 1 - m]);
        assert forall|k: int| 0 <= k < s3.len() - 1 implies (#[trigger] s3[k]).0 + s3[k].1
            < s3[k + 1].0 by {
            if k < i - 1 {
            } else if k == i - 1 {
                if m == 0 {
                    assert(s3[k + 1] == s0[i + 1]);
                    assert(s0[i - 1].0 + s0[i - 1].1 < s0[i].0);
                    assert(s0[i].0 + s0[i].1 < s0[i + 1].0);
                }
            } else if k < i + m - 1 {
            } else if k == i + m - 1 {
                assert(s3[k + 1] == s0[i + 1]);
                assert(s0[i].0 + s0[i].1 < s0[i + 1].0);
            } else {
            }
        }
        // Each allocated block is inside the page and they stay disjoint.
        assert forall|p: int, q: int| 0 <= p < q < self.allocated@.len() implies runs_disjoint(
            #[trigger] self.allocated@[p],
            #[trigger] self.allocated@[q],
        ) by {
            if q == self.allocated@.len() - 1 {
                assert(self.allocated@[p] == orig.allocated@[p]);
                assert(runs_disjoint(run_i, orig.allocated@[p]));
            }
        }
        // Free runs stay disjoint from every allocated block.
        assert forall|p: int, q: int|
            0 <= p < s3.len() && 0 <= q < self.allocated@.len() implies runs_disjoint(
            #[trigger] s3[p],
            #[trigger] self.allocated@[q],
        ) by {
            let nb = ((a as SlobUnit), (units as SlobUnit));
            if q == self.allocated@.len() - 1 {
                assert(self.allocated@[q] == nb);
                if p < i {
                    assert(runs_disjoint(s0[p], run_i));
                } else if p >= i + m {
                    assert(s3[p] == s0[p + 1 - m]);
                    assert(runs_disjoint(run_i, s0[p + 1 - m]));
                }
            } else {
                assert(self.allocated@[q] == orig.allocated@[q]);
                if p < i {
                    assert(runs_disjoint(s0[p], orig.allocated@[q]));
                } else if p >= i + m {
                    assert(s3[p] == s0[p + 1 - m]);
                    assert(runs_disjoint(s0[p + 1 - m], orig.allocated@[q]));
                } else {
                    assert(runs_disjoint(run_i, orig.allocated@[q]));
                }
            }
        }
    }
}

/// The free-run list after a block of `units` units was carved out of run
/// `i` at offset `a`, leaving `delta` filler units before it and `rest`
/// units after it.
pub open spec fn spliced_runs(
    s: Seq<(SlobUnit, SlobUnit)>,
    i: int,
    delta: int,
    rest: int,
    a: int,
    units: int,
) -> Seq<(SlobUnit, SlobUnit)> {
    let off = s[i].0;
    let s1 = s.remove(i);
    let s2 = if rest > 0 {
        s1.insert(i, (((a + units) as SlobUnit), (rest as SlobUnit)))
    } else {
        s1
    };
    if delta > 0 {
        s2.insert(i, (off, (delta as SlobUnit)))
    } else {
        s2
    }
}

} // verus!
verus! {

/// The sum of run lengths is at least any one length, and never negative.
proof fn lemma_sum_element(s: Seq<(SlobUnit, SlobUnit)>, j: int)
    requires
        forall|k: int| 0 <= k < s.len() ==> (#[trigger] s[k]).1 >= 0,
        0 <= j < s.len(),
    ensures
        sum_lens(s) >= s[j].1,
        sum_lens(s) >= 0,
    decreases s.len(),
{
    if j == 0 {
        lemma_sum_nonneg(s.drop_first());
    } else {
        lemma_sum_element(s.drop_first(), j - 1);
    }
}

/// A sum of nonnegative run lengths is nonnegative.
proof fn lemma_sum_nonneg(s: Seq<(SlobUnit, SlobUnit)>)
    requires
        forall|k: int| 0 <= k < s.len() ==> (#[trigger] s[k]).1 >= 0,
    ensures
        sum_lens(s) >= 0,
    decreases s.len(),
{
    if s.len() > 0 {
        lemma_sum_nonneg(s.drop_first());
    }
}

} // verus!
verus! {

impl SlobPage {
    /// Returns the block that starts at `off` to the free space, merging it
    /// with both physical neighbours at once, so no two free runs are ever
    /// left adjacent. Returns the block's length in units.
    #[verifier::rlimit(100)]
    #[verifier::spinoff_prover]
    pub fn page_free(&mut self, off: SlobUnit) -> (r: SlobUnit)
        requires
            old(self).wf(),
            exists|j: int|
                0 <= j < old(self).allocated@.len() && (#[trigger] old(self).allocated@[j]).0
                    == off,
        ensures
            final(self).wf(),
            exists|j: int|
                0 <= j < old(self).allocated@.len() && (#[trigger] old(self).allocated@[j])
                    == (off, r),
            final(self).free_units == old(self).free_units + r,
            forall|u: int|
                off <= u < off + r ==> final(self).is_free(u) && !final(self).is_allocated(u)
                    && old(self).is_allocated(u) && !old(self).is_free(u),
            forall|u: int|
                !(off <= u < off + r) ==> final(self).is_free(u) == old(self).is_free(u),
            forall|u: int|
                !(off <= u < off + r) ==> final(self).is_allocated(u) == old(
                    self,
                ).is_allocated(u),
    {
        let ghost orig = *self;
        // Find the handed-out block that starts at `off`.
        let mut j: usize = 0;
        while j < self.allocated.len() && self.allocated[j].0 != off
            invariant
                *self == orig,
                0 <= j <= self.allocated@.len(),
                forall|k: int| 0 <= k < j ==> (#[trigger] self.allocated@[k]).0 != off,
                exists|k: int|
                    0 <= k < self.allocated@.len() && (#[trigger] self.allocated@[k]).0 == off,
            decreases self.allocated@.len() - j,
        {
            j += 1;
        }
        let units = self.allocated[j].1;
        self.allocated.remove(j);
        proof {
            orig.lemma_freed_block_fits(j as int);
            lemma_sum_element(orig.allocated@, j as int);
            lemma_sum_nonneg(orig.runs@);
        }
        let ghost mid = *self;
        self.insert_run(off, units);
        proof {
            self.lemma_free_result(orig, mid, j as int, off as int, units as int);
        }
        self.free_units = self.free_units + units;
        self.max_free = None;
        units
    }

    /// A block about to be freed lies inside the page and apart from every
    /// free run.
    proof fn lemma_freed_block_fits(self, j: int)
        requires
            self.wf(),
            0 <= j < self.allocated@.len(),
        ensures
            run_ok(self.allocated@[j]),
            runs_wf(self.runs@),
            forall|k: int|
                0 <= k < self.runs@.len() ==> runs_disjoint(
                    #[trigger] self.runs@[k],
                    self.allocated@[j],
                ),
    {
    }

    /// Adds the run `[off, off + units)` to the free list, melting it into
    /// its physical neighbours where they touch. Only the run list changes.
    fn insert_run(&mut self, off: SlobUnit, units: SlobUnit)
        requires
            runs_wf(old(self).runs@),
            0 <= off,
            1 <= units,
            off + units <= TOTAL_UNITS,
            forall|k: int|
                0 <= k < old(self).runs@.len() ==> runs_disjoint(
                    #[trigger] old(self).runs@[k],
                    (off, units),
                ),
        ensures
            runs_wf(final(self).runs@),
            sum_lens(final(self).runs@) == sum_lens(old(self).runs@) + units,
            forall|u: int|
                covers(final(self).runs@, u) == (covers(old(self).runs@, u) || (off <= u < off
                    + units)),
            final(self).allocated@ == old(self).allocated@,
            final(self).free_units == old(self).free_units,
    {
        let ghost s0 = old(self).runs@;
        let mut pos: usize = 0;
        let ghost mid = *self;
        while pos < self.runs.len() && self.runs[pos].0 < off
            invariant
                *self == mid,
                mid == *old(self),
                0 <= pos <= self.runs@.len(),
                forall|k: int| 0 <= k < pos ==> (#[trigger] self.runs@[k]).0 < off,
            decreases self.runs@.len() - pos,
        {
            pos += 1;
        }
        proof {
            // Every free run left of `pos` ends at or before `off`; every one
            // from `pos` on starts at or after the freed run's end.
            assert forall|k: int| 0 <= k < pos implies (#[trigger] s0[k]).0 + s0[k].1
                <= off by {
                assert(runs_disjoint(s0[k], (off, units)));
            }
            assert forall|k: int| pos <= k < s0.len() implies off + units
                <= (#[trigger] s0[k]).0 by {
                assert(runs_disjoint(s0[k], (off, units)));
                if k > pos {
                    lemma_runs_seq_ordered(s0, pos as int, k);
                }
            }
        }
        let left_touch = pos > 0 && {
            let l = self.runs[pos - 1];
            l.0 + l.1 == off
        };
        let right_touch = pos < self.runs.len() && off + units == self.runs[pos].0;
        if left_touch && right_touch {
            let l = self.runs[pos - 1];
            let rr = self.runs[pos];
            self.runs.remove(pos);
            proof {
                lemma_runs_seq_ordered(s0, pos - 1, pos as int);
            }
            let merged = (l.0, l.1 + units + rr.1);
            self.runs.set(pos - 1, merged);
            proof {
                lemma_merge_both(s0, pos as int, off as int, units as int);
            }
        } else if left_touch {
            let l = self.runs[pos - 1];
            let merged = (l.0, l.1 + units);
            self.runs.set(pos - 1, merged);
            proof {
                lemma_merge_left(s0, pos as int, off as int, units as int);
            }
        } else if right_touch {
            let rr = self.runs[pos];
            let merged = (off, units + rr.1);
            self.runs.set(pos, merged);
            proof {
                lemma_merge_right(s0, pos as int, off as int, units as int);
            }
        } else {
            self.runs.insert(pos, (off, units));
            proof {
                lemma_merge_none(s0, pos as int, off as int, units as int);
            }
        }
    }

    /// Common closing step of `page_free`: with the new run list known to
    /// cover exactly the old free space plus the freed range, and its sum
    /// increased by the freed length, the page is well formed again.
    #[verifier::rlimit(100)]
    proof fn lemma_free_result(&self, orig: Self, mid: Self, j: int, off: int, units: int)
        requires
            orig.wf(),
            0 <= j < orig.allocated@.len(),
            orig.allocated@[j].0 == off,
            orig.allocated@[j].1 == units,
            mid.allocated@ == orig.allocated@.remove(j),
            self.allocated@ == mid.allocated@,
            self.free_units == orig.free_units,
            sum_lens(self.runs@) == sum_lens(orig.runs@) + units,
            forall|u: int|
                covers(self.runs@, u) == (covers(orig.runs@, u) || (off <= u < off + units)),
            forall|k: int| 0 <= k < self.runs@.len() ==> run_ok(#[trigger] self.runs@[k]),
            forall|k: int|
                0 <= k < self.runs@.len() - 1 ==> (#[trigger] self.runs@[k]).0 + self.runs@[k].1
                    < self.runs@[k + 1].0,
        ensures
            ({
                let done = Self {
                    free_units: (self.free_units + units) as SlobUnit,
                    runs: self.runs,
                    allocated: self.allocated,
                    max_free: None,
                };
                &&& done.wf()
                &&& done.free_units == orig.free_units + units
                &&& forall|u: int|
                    off <= u < off + units ==> done.is_free(u) && !done.is_allocated(u)
                        && orig.is_allocated(u) && !orig.is_free(u)
                &&& forall|u: int|
                    !(off <= u < off + units) ==> done.is_free(u) == orig.is_free(u)
                &&& forall|u: int|
                    !(off <= u < off + units) ==> done.is_allocated(u) == orig.is_allocated(u)
            }),
    {
        let freed = orig.allocated@[j];
        lemma_covers_remove(orig.allocated@, j);
        lemma_sum_remove(orig.allocated@, j);
        lemma_sum_element(orig.allocated@, j);
        lemma_sum_nonneg(self.runs@);
        // The surviving blocks keep their place and shape.
        assert forall|q: int| 0 <= q < self.allocated@.len() implies run_ok(
            #[trigger] self.allocated@[q],
        ) by {
            if q < j {
                assert(self.allocated@[q] == orig.allocated@[q]);
            } else {
                assert(self.allocated@[q] == orig.allocated@[q + 1]);
            }
        }
        assert forall|p: int, q: int| 0 <= p < q < self.allocated@.len() implies runs_disjoint(
            #[trigger] self.allocated@[p],
            #[trigger] self.allocated@[q],
        ) by {
            let p0 = if p < j { p } else { p + 1 };
            let q0 = if q < j { q } else { q + 1 };
            assert(self.allocated@[p] == orig.allocated@[p0]);
            assert(self.allocated@[q] == orig.allocated@[q0]);
        }
        // The freed range was a handed-out block and not free.
        assert forall|u: int| off <= u < off + units implies orig.is_allocated(u) && !orig.is_free(
            u,
        ) by {
            assert(in_run(freed, u));
            if orig.is_free(u) {
                let k = choose|k: int| 0 <= k < orig.runs@.len() && in_run(orig.runs@[k], u);
                assert(runs_disjoint(orig.runs@[k], freed));
            }
        }
        // Free runs stay disjoint from the surviving blocks.
        self.lemma_free_disjoint(orig, mid, j, off, units);
    }

    /// After a free, the new run list stays apart from every surviving
    /// handed-out block.
    #[verifier::rlimit(100)]
    proof fn lemma_free_disjoint(&self, orig: Self, mid: Self, j: int, off: int, units: int)
        requires
            orig.wf(),
            0 <= j < orig.allocated@.len(),
            orig.allocated@[j].0 == off,
            orig.allocated@[j].1 == units,
            mid.allocated@ == orig.allocated@.remove(j),
            self.allocated@ == mid.allocated@,
            forall|u: int|
                covers(self.runs@, u) == (covers(orig.runs@, u) || (off <= u < off + units)),
            forall|k: int| 0 <= k < self.runs@.len() ==> run_ok(#[trigger] self.runs@[k]),
        ensures
            forall|p: int, q: int|
                0 <= p < self.runs@.len() && 0 <= q < self.allocated@.len() ==> runs_disjoint(
                    #[trigger] self.runs@[p],
                    #[trigger] self.allocated@[q],
                ),
    {
        let freed = orig.allocated@[j];
        assert forall|p: int, q: int|
            0 <= p < self.runs@.len() && 0 <= q < self.allocated@.len() implies runs_disjoint(
            #[trigger] self.runs@[p],
            #[trigger] self.allocated@[q],
        ) by {
            let b = self.allocated@[q];
            let q0 = if q < j { q } else { q + 1 };
            assert(b == orig.allocated@[q0]);
            assert(run_ok(b));
            if !runs_disjoint(self.runs@[p], b) {
                let r = self.runs@[p];
                let u: int = if r.0 >= b.0 {
                    r.0 as int
                } else {
                    b.0 as int
                };
                assert(in_run(r, u) && in_run(b, u));
                assert(covers(self.runs@, u));
                assert(runs_disjoint(freed, b));
                assert(!(off <= u < off + units));
                assert(covers(orig.runs@, u));
                let k = choose|k: int| 0 <= k < orig.runs@.len() && in_run(orig.runs@[k], u);
                assert(runs_disjoint(orig.runs@[k], orig.allocated@[q0]));
            }
        }
    }
}

} // verus!
verus! {

/// A sorted, non-adjacent run list, every run inside the page.
pub open spec fn runs_wf(s: Seq<(SlobUnit, SlobUnit)>) -> bool {
    &&& forall|k: int| 0 <= k < s.len() ==> run_ok(#[trigger] s[k])
    &&& forall|k: int| 0 <= k < s.len() - 1 ==> (#[trigger] s[k]).0 + s[k].1 < s[k + 1].0
}

/// Freeing a range that touches its left and right neighbour melts all
/// three into one run.
#[verifier::rlimit(100)]
proof fn lemma_merge_both(s0: Seq<(SlobUnit, SlobUnit)>, pos: int, off: int, units: int)
    requires
        runs_wf(s0),
        1 <= pos < s0.len(),
        s0[pos - 1].0 + s0[pos - 1].1 == off,
        off + units == s0[pos].0,
        1 <= units,
    ensures
        ({
            let l = s0[pos - 1];
            let rr = s0[pos];
            let merged = (l.0, ((l.1 + units + rr.1) as SlobUnit));
            let t = s0.remove(pos).update(pos - 1, merged);
            &&& runs_wf(t)
            &&& sum_lens(t) == sum_lens(s0) + units
            &&& forall|u: int| covers(t, u) == (covers(s0, u) || (off <= u < off + units))
        }),
{
    let l = s0[pos - 1];
    let rr = s0[pos];
    assert(l.1 + units + rr.1 == rr.0 + rr.1 - l.0);
    let merged = (l.0, ((l.1 + units + rr.1) as SlobUnit));
    let s1 = s0.remove(pos);
    let t = s1.update(pos - 1, merged);
    assert forall|a: int, b: int| 0 <= a < b < s0.len() implies runs_disjoint(
        #[trigger] s0[a],
        #[trigger] s0[b],
    ) by {
        lemma_runs_seq_ordered(s0, a, b);
    }
    lemma_covers_remove(s0, pos);
    lemma_sum_remove(s0, pos);
    assert forall|a: int, b: int| 0 <= a < b < s1.len() implies runs_disjoint(
        #[trigger] s1[a],
        #[trigger] s1[b],
    ) by {
        let b0 = if b < pos { b } else { b + 1 };
        assert(s1[a] == s0[if a < pos { a } else { a + 1 }]);
        assert(s1[b] == s0[b0]);
    }
    lemma_covers_update(s1, pos - 1, merged);
    lemma_sum_update(s1, pos - 1, merged);
    assert(s1[pos - 1] == l);
    assert forall|u: int| covers(t, u) == (covers(s0, u) || (off <= u < off + units)) by {
        assert(covers(t, u) == ((covers(s1, u) && !in_run(l, u)) || in_run(merged, u)));
        assert(covers(s1, u) == (covers(s0, u) && !in_run(rr, u)));
        assert(in_run(merged, u) == (in_run(l, u) || (off <= u < off + units) || in_run(rr, u)));
    }
    assert forall|k: int| 0 <= k < t.len() implies run_ok(#[trigger] t[k]) by {
        if k < pos - 1 {
            assert(t[k] == s0[k]);
        } else if k > pos - 1 {
            assert(t[k] == s0[k + 1]);
        }
    }
    assert forall|k: int| 0 <= k < t.len() - 1 implies (#[trigger] t[k]).0 + t[k].1 < t[k
        + 1].0 by {
        if k < pos - 2 {
            assert(t[k] == s0[k] && t[k + 1] == s0[k + 1]);
        } else if k == pos - 2 {
            assert(t[k] == s0[k] && t[k + 1] == merged);
        } else if k == pos - 1 {
            assert(t[k] == merged && t[k + 1] == s0[pos + 1]);
        } else {
            assert(t[k] == s0[k + 1] && t[k + 1] == s0[k + 2]);
        }
    }
}

/// Freeing a range that touches only its left neighbour extends that run.
#[verifier::rlimit(100)]
proof fn lemma_merge_left(s0: Seq<(SlobUnit, SlobUnit)>, pos: int, off: int, units: int)
    requires
        runs_wf(s0),
        1 <= pos <= s0.len(),
        s0[pos - 1].0 + s0[pos - 1].1 == off,
        1 <= units,
        off + units <= TOTAL_UNITS,
        pos < s0.len() ==> off + units < s0[pos].0,
    ensures
        ({
            let l = s0[pos - 1];
            let merged = (l.0, ((l.1 + units) as SlobUnit));
            let t = s0.update(pos - 1, merged);
            &&& runs_wf(t)
            &&& sum_lens(t) == sum_lens(s0) + units
            &&& forall|u: int| covers(t, u) == (covers(s0, u) || (off <= u < off + units))
        }),
{
    let l = s0[pos - 1];
    let merged = (l.0, ((l.1 + units) as SlobUnit));
    let t = s0.update(pos - 1, merged);
    assert forall|a: int, b: int| 0 <= a < b < s0.len() implies runs_disjoint(
        #[trigger] s0[a],
        #[trigger] s0[b],
    ) by {
        lemma_runs_seq_ordered(s0, a, b);
    }
    lemma_covers_update(s0, pos - 1, merged);
    lemma_sum_update(s0, pos - 1, merged);
    assert forall|u: int| covers(t, u) == (covers(s0, u) || (off <= u < off + units)) by {
        assert(covers(t, u) == ((covers(s0, u) && !in_run(l, u)) || in_run(merged, u)));
        assert(in_run(merged, u) == (in_run(l, u) || (off <= u < off + units)));
    }
    assert forall|k: int| 0 <= k < t.len() - 1 implies (#[trigger] t[k]).0 + t[k].1 < t[k
        + 1].0 by {
        if k == pos - 2 {
            assert(t[k] == s0[k] && t[k + 1] == merged);
        } else if k == pos - 1 {
            assert(t[k] == merged && t[k + 1] == s0[pos]);
        }
    }
}

/// Freeing a range that touches only its right neighbour extends that run
/// downwards.
#[verifier::rlimit(100)]
proof fn lemma_merge_right(s0: Seq<(SlobUnit, SlobUnit)>, pos: int, off: int, units: int)
    requires
        runs_wf(s0),
        0 <= pos < s0.len(),
        off + units == s0[pos].0,
        1 <= units,
        0 <= off,
        pos > 0 ==> s0[pos - 1].0 + s0[pos - 1].1 < off,
    ensures
        ({
            let rr = s0[pos];
            let merged = ((off as SlobUnit), ((units + rr.1) as SlobUnit));
            let t = s0.update(pos, merged);
            &&& runs_wf(t)
            &&& sum_lens(t) == sum_lens(s0) + units
            &&& forall|u: int| covers(t, u) == (covers(s0, u) || (off <= u < off + units))
        }),
{
    let rr = s0[pos];
    let merged = ((off as SlobUnit), ((units + rr.1) as SlobUnit));
    let t = s0.update(pos, merged);
    assert forall|a: int, b: int| 0 <= a < b < s0.len() implies runs_disjoint(
        #[trigger] s0[a],
        #[trigger] s0[b],
    ) by {
        lemma_runs_seq_ordered(s0, a, b);
    }
    lemma_covers_update(s0, pos, merged);
    lemma_sum_update(s0, pos, merged);
    assert forall|u: int| covers(t, u) == (covers(s0, u) || (off <= u < off + units)) by {
        assert(covers(t, u) == ((covers(s0, u) && !in_run(rr, u)) || in_run(merged, u)));
        assert(in_run(merged, u) == ((off <= u < off + units) || in_run(rr, u)));
    }
    assert forall|k: int| 0 <= k < t.len() - 1 implies (#[trigger] t[k]).0 + t[k].1 < t[k
        + 1].0 by {
        if k == pos - 1 {
            assert(t[k] == s0[k] && t[k + 1] == merged);
        } else if k == pos {
            assert(t[k] == merged && t[k + 1] == s0[k + 1]);
        }
    }
}

/// Freeing a range that touches neither neighbour adds a run of its own.
#[verifier::rlimit(100)]
#[verifier::spinoff_prover]
proof fn lemma_merge_none(s0: Seq<(SlobUnit, SlobUnit)>, pos: int, off: int, units: int)
    requires
        runs_wf(s0),
        0 <= pos <= s0.len(),
        1 <= units,
        0 <= off,
        off + units <= TOTAL_UNITS,
        pos > 0 ==> s0[pos - 1].0 + s0[pos - 1].1 < off,
        pos < s0.len() ==> off + units < s0[pos].0,
    ensures
        ({
            let t = s0.insert(pos, ((off as SlobUnit), (units as SlobUnit)));
            &&& runs_wf(t)
            &&& sum_lens(t) == sum_lens(s0) + units
            &&& forall|u: int| covers(t, u) == (covers(s0, u) || (off <= u < off + units))
        }),
{
    let e = ((off as SlobUnit), (units as SlobUnit));
    let t = s0.insert(pos, e);
    lemma_covers_insert(s0, pos, e);
    lemma_sum_insert(s0, pos, e);
    assert forall|k: int| 0 <= k < t.len() implies run_ok(#[trigger] t[k]) by {
        if k < pos {
            assert(t[k] == s0[k]);
        } else if k > pos {
            assert(t[k] == s0[k - 1]);
        }
    }
    assert forall|k: int| 0 <= k < t.len() - 1 implies (#[trigger] t[k]).0 + t[k].1 < t[k
        + 1].0 by {
        if k < pos - 1 {
            assert(t[k] == s0[k] && t[k + 1] == s0[k + 1]);
        } else if k == pos - 1 {
            assert(t[k] == s0[k] && t[k + 1] == e);
        } else if k == pos {
            assert(t[k] == e && t[k + 1] == s0[k]);
        } else {
            assert(t[k] == s0[k - 1] && t[k + 1] == s0[k]);
        }
    }
}

/// In a sorted run list, an earlier run ends before a later one starts.
proof fn lemma_runs_seq_ordered(s: Seq<(SlobUnit, SlobUnit)>, a: int, b: int)
    requires
        forall|k: int| 0 <= k < s.len() - 1 ==> (#[trigger] s[k]).0 + s[k].1 < s[k + 1].0,
        forall|k: int| 0 <= k < s.len() ==> run_ok(#[trigger] s[k]),
        0 <= a < b < s.len(),
    ensures
        s[a].0 + s[a].1 <= s[b].0,
    decreases b - a,
{
    if b > a + 1 {
        lemma_runs_seq_ordered(s, a + 1, b);
    }
}

} // verus!
verus! {

/// What `kmalloc` hands out: the page and the starting unit of the block.
/// The object itself begins one unit later; the extra unit records the
/// block length.
pub struct SlobHandle {
    pub page: usize,
    pub unit: SlobUnit,
}

/// The small-object allocator: an arena of pages and one list of usable
/// pages per size class.
pub struct SlobAllocator {
    /// Every page ever taken from the page allocator.
    pub pages: Vec<SlobPage>,
    /// Which arena slots still belong to this allocator.
    pub live: Vec<bool>,
    /// Usable pages for allocations of at most 64 bytes.
    pub small: Vec<usize>,
    /// Usable pages for allocations of at most 256 bytes.
    pub medium: Vec<usize>,
    /// Usable pages for larger allocations.
    pub large: Vec<usize>,
}

/// Largest size served from a small-class page.
pub const SLOB_BREAK1: usize = 64;

/// Largest size served from a medium-class page.
pub const SLOB_BREAK2: usize = 256;

/// Whether an allocation of `size` bytes with its chosen alignment is
/// guaranteed to fit somewhere in a fresh page.
pub open spec fn fits_in_page(size: int) -> bool {
    &&& 0 <= size
    &&& size < PAGE_FREE_SIZE
    &&& spec_need_units(size) + spec_align_delta(0, spec_align_num(size)) <= TOTAL_UNITS
}

pub open spec fn list_ok(l: Seq<usize>, pages: Seq<SlobPage>, live: Seq<bool>) -> bool {
    forall|k: int| 0 <= k < l.len() ==> (#[trigger] l[k]) < pages.len() && live[l[k] as int]
}

impl SlobAllocator {
    /// Every page well formed, and every listed page a live arena slot.
    pub open spec fn wf(self) -> bool {
        &&& self.pages@.len() == self.live@.len()
        &&& forall|i: int| 0 <= i < self.pages@.len() ==> (#[trigger] self.pages@[i]).wf()
        &&& list_ok(self.small@, self.pages@, self.live@)
        &&& list_ok(self.medium@, self.pages@, self.live@)
        &&& list_ok(self.large@, self.pages@, self.live@)
    }

    /// An allocator that has taken no pages yet.
    pub fn new() -> (r: Self)
        ensures
            r.wf(),
            r.pages@.len() == 0,
    {
        SlobAllocator {
            pages: Vec::new(),
            live: Vec::new(),
            small: Vec::new(),
            medium: Vec::new(),
            large: Vec::new(),
        }
    }

    /// Which class list serves `size` bytes: 0, 1 or 2.
    fn select_class(size: usize) -> (r: usize)
        ensures
            r == spec_class_of(size as int),
    {
        if size <= SLOB_BREAK1 {
            0
        } else if size <= SLOB_BREAK2 {
            1
        } else {
            2
        }
    }

    /// Serves an allocation out of the named cache: `kmalloc` with the
    /// cache's own size and alignment.
    pub fn kmem_cache_alloc_node(&mut self, cache: &KMemCache) -> (h: SlobHandle)
        requires
            old(self).wf(),
            fits_in_page(cache.size as int),
            cache.align == spec_align_num(cache.size as int),
        ensures
            final(self).wf(),
            final(self).valid_block(h, spec_need_units(cache.size as int)),
            cache.align > 0 ==> unit_addr(h.unit + 1) % (cache.align as int) == 0,
            forall|q: int|
                0 <= q < old(self).pages@.len() && q != h.page ==> page_same_data(
                    final(self).pages@[q],
                    old(self).pages@[q],
                ),
    {
        self.slob_alloc(cache.size, cache.align)
    }

    /// Whether `h` names a live page whose block list ends with a block of
    /// `units` units starting at `h.unit`.
    pub open spec fn valid_block(self, h: SlobHandle, units: int) -> bool {
        &&& h.page < self.pages@.len()
        &&& self.live@[h.page as int]
        &&& self.pages@[h.page as int].allocated@.len() > 0
        &&& self.pages@[h.page as int].allocated@.last() == ((h.unit),
            (units as SlobUnit))
    }

    /// Carves a block of `size` bytes, `align`-aligned, out of a listed
    /// page of the right class, or out of a fresh page when none fits.
    #[verifier::rlimit(100)]
    #[verifier::spinoff_prover]
    pub fn slob_alloc(&mut self, size: usize, align: usize) -> (h: SlobHandle)
        requires
            old(self).wf(),
            fits_in_page(size as int),
            align == spec_align_num(size as int),
        ensures
            final(self).wf(),
            final(self).valid_block(h, spec_need_units(size as int)),
            align > 0 ==> unit_addr(h.unit + 1) % (align as int) == 0,
            forall|q: int|
                0 <= q < old(self).pages@.len() && q != h.page ==> page_same_data(
                    final(self).pages@[q],
                    old(self).pages@[q],
                ),
    {
        let units = need_units(size);
        let class = Self::select_class(size);
        let ghost orig = *self;
        let mut li: usize = 0;
        let mut found = false;
        let mut found_page: usize = 0;
        let mut found_unit: SlobUnit = 0;
        let list_len = if class == 0 {
            self.small.len()
        } else if class == 1 {
            self.medium.len()
        } else {
            self.large.len()
        };
        while li < list_len && !found
            invariant
                self.wf(),
                list_len == if class == 0 {
                    self.small@.len()
                } else if class == 1 {
                    self.medium@.len()
                } else {
                    self.large@.len()
                },
                1 <= units <= TOTAL_UNITS,
                align == 0 || align == 2 || align == 4 || align == 8,
                self.pages@.len() >= orig.pages@.len(),
                forall|q: int|
                    0 <= q < orig.pages@.len() && (!found || q != found_page)
                        ==> page_same_data(#[trigger] self.pages@[q], orig.pages@[q]),
                found ==> self.valid_block(
                    SlobHandle { page: found_page, unit: found_unit },
                    units as int,
                ),
                found && align > 0 ==> unit_addr(found_unit + 1) % (align as int) == 0,
            decreases list_len - li, if found { 0int } else { 1int },
        {
            let i = if class == 0 {
                self.small[li]
            } else if class == 1 {
                self.medium[li]
            } else {
                self.large[li]
            };
            let skip = {
                let pg = &self.pages[i];
                pg.free_units < units || match pg.max_free {
                    Some(m) => m < units,
                    None => false,
                }
            };
            if !skip {
                let ghost before = self.pages@[i as int];
                let pg = crate::slob::vec_page_mut(&mut self.pages, i);
                let got = pg.page_alloc(units, align);
                match got {
                    Some(a) => {
                        found = true;
                        found_page = i;
                        found_unit = a;
                    },
                    None => {},
                }
            }
            li += 1;
        }
        if found {
            return SlobHandle { page: found_page, unit: found_unit };
        }
        // No listed page could serve the request: take a fresh page.
        let mut pg = SlobPage::new();
        let a = match pg.page_alloc(units, align) {
            Some(a) => a,
            None => {
                // A fresh page always fits a request that passes the size
                // check, so this arm is unreachable.
                proof {
                    assert(pg.runs@[0] == (0i16, TOTAL_UNITS));
                    assert(false);
                }
                0
            },
        };
        let idx = self.pages.len();
        self.pages.push(pg);
        self.live.push(true);
        if class == 0 {
            self.small.push(idx);
        } else if class == 1 {
            self.medium.push(idx);
        } else {
            self.large.push(idx);
        }
        SlobHandle { page: idx, unit: a }
    }
}

/// Whether two page states hold the same runs, blocks and counter; the
/// `max_free` hint may differ.
pub open spec fn page_same_data(a: SlobPage, b: SlobPage) -> bool {
    a.runs@ == b.runs@ && a.allocated@ == b.allocated@ && a.free_units == b.free_units
}

/// Which class list serves `size` bytes.
pub open spec fn spec_class_of(size: int) -> int {
    if size <= 64 {
        0
    } else if size <= 256 {
        1
    } else {
        2
    }
}

/// A mutable view of one page of the arena.
fn vec_page_mut(pages: &mut Vec<SlobPage>, i: usize) -> (r: &mut SlobPage)
    requires
        i < old(pages)@.len(),
    ensures
        *r == old(pages)@[i as int],
        final(pages)@ == old(pages)@.update(i as int, *final(r)),
{
    &mut pages[i]
}

} // verus!
verus! {

impl SlobAllocator {
    /// Whether `h` names a live page with a handed-out block starting at
    /// `h.unit`.
    pub open spec fn owns_block(self, h: SlobHandle) -> bool {
        &&& h.page < self.pages@.len()
        &&& self.live@[h.page as int]
        &&& exists|j: int|
            0 <= j < self.pages@[h.page as int].allocated@.len()
                && (#[trigger] self.pages@[h.page as int].allocated@[j]).0 == h.unit
    }

    /// Frees the block `h`, merging its units back into the page's free
    /// runs; a page with nothing left on it is returned to the page
    /// allocator, and a page that was full becomes usable again. Returns
    /// the freed block's length in units, recovered from the block's own
    /// record of its size.
    #[verifier::rlimit(100)]
    #[verifier::spinoff_prover]
    pub fn dealloc_node(&mut self, h: SlobHandle) -> (r: usize)
        requires
            old(self).wf(),
            old(self).owns_block(h),
        ensures
            final(self).wf(),
            exists|j: int|
                0 <= j < old(self).pages@[h.page as int].allocated@.len()
                    && (#[trigger] old(self).pages@[h.page as int].allocated@[j])
                    == (h.unit, (r as SlobUnit)),
            1 <= r <= TOTAL_UNITS,
            forall|q: int|
                0 <= q < old(self).pages@.len() && q != h.page ==> final(self).pages@[q]
                    == old(self).pages@[q],
            forall|q: int|
                0 <= q < old(self).live@.len() && q != h.page ==> final(self).live@[q]
                    == old(self).live@[q],
            final(self).pages@.len() == old(self).pages@.len(),
            final(self).pages@[h.page as int].free_units
                == old(self).pages@[h.page as int].free_units + r,
            forall|u: int|
                h.unit <= u < h.unit + r ==> final(self).pages@[h.page as int].is_free(u)
                    && !final(self).pages@[h.page as int].is_allocated(u),
            forall|u: int|
                !(h.unit <= u < h.unit + r) ==> final(self).pages@[h.page as int].is_free(u)
                    == old(self).pages@[h.page as int].is_free(u)
                    && final(self).pages@[h.page as int].is_allocated(u)
                    == old(self).pages@[h.page as int].is_allocated(u),
            final(self).live@[h.page as int] == (final(self).pages@[h.page as int].free_units
                < TOTAL_UNITS),
    {
        let was_full = self.pages[h.page].free_units == 0;
        let pg = vec_page_mut(&mut self.pages, h.page);
        let units = pg.page_free(h.unit);
        let now_free = self.pages[h.page].free_units;
        if now_free >= TOTAL_UNITS {
            // Nothing of the page is in use any more: give it back.
            self.live.set(h.page, false);
            purge(&mut self.small, h.page);
            purge(&mut self.medium, h.page);
            purge(&mut self.large, h.page);
        } else if was_full {
            // The page was full, hence off every list; it can serve its
            // class again.
            let class = Self::select_class(unit_to_size(units));
            if class == 0 {
                self.small.push(h.page);
            } else if class == 1 {
                self.medium.push(h.page);
            } else {
                self.large.push(h.page);
            }
        }
        units as usize
    }
}

/// Removes every occurrence of `x` from the list; what remains was there
/// before.
fn purge(list: &mut Vec<usize>, x: usize)
    ensures
        forall|k: int|
            0 <= k < final(list)@.len() ==> old(list)@.contains(#[trigger] final(list)@[k])
                && final(list)@[k] != x,
{
    let ghost orig = list@;
    let mut out: Vec<usize> = Vec::new();
    let mut i: usize = 0;
    while i < list.len()
        invariant
            list@ == orig,
            0 <= i <= orig.len(),
            forall|k: int|
                0 <= k < out@.len() ==> orig.contains(#[trigger] out@[k]) && out@[k] != x,
        decreases orig.len() - i,
    {
        let v = list[i];
        if v != x {
            out.push(v);
        }
        i += 1;
    }
    *list = out;
}

/// Freeing what was just allocated restores every unit of the page and its
/// free-unit counter: the observable state of the page allocator's client
/// is as before.
pub proof fn lemma_page_round_trip(
    p0: SlobPage,
    p1: SlobPage,
    p2: SlobPage,
    a: int,
    units: int,
)
    requires
        p1.free_units == p0.free_units - units,
        forall|u: int| a <= u < a + units ==> p0.is_free(u),
        forall|u: int| a <= u < a + units ==> !p1.is_free(u) && p1.is_allocated(u),
        forall|u: int| !(a <= u < a + units) ==> p1.is_free(u) == p0.is_free(u),
        forall|u: int| !(a <= u < a + units) ==> p1.is_allocated(u) == p0.is_allocated(u),
        p2.free_units == p1.free_units + units,
        forall|u: int| a <= u < a + units ==> p2.is_free(u) && !p2.is_allocated(u),
        forall|u: int| !(a <= u < a + units) ==> p2.is_free(u) == p1.is_free(u),
        forall|u: int| !(a <= u < a + units) ==> p2.is_allocated(u) == p1.is_allocated(u),
        forall|u: int| a <= u < a + units ==> !p0.is_allocated(u),
    ensures
        p2.free_units == p0.free_units,
        forall|u: int| p2.is_free(u) == p0.is_free(u),
        forall|u: int| p2.is_allocated(u) == p0.is_allocated(u),
{
}

} // verus!
