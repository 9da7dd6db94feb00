//! The per-block distribution: counting how often each palette entry is
//! used in a section, and aggregating names across a chunk's sections.

use vstd::prelude::*;
use crate::chunk_format::{BlockStates, Chunk, Section};

verus! {

/// How many entries of `s` hold the value `p`.
pub open spec fn count_matching(s: Seq<u16>, p: int) -> int {
    s.filter(|x: u16| x as int == p).len() as int
}

/// The distribution of block states in a section: one count per palette
/// entry. With no packed data the section is all one state, counted as the
/// single entry 4096; otherwise each palette entry is counted over the
/// unpacked indices, and an index past the palette counts nowhere.
pub fn distribution(block_states: &BlockStates) -> (r: Vec<u64>)
    ensures
        block_states.data is None ==> r@ == seq![4096u64],
        block_states.data is Some ==> r@.len() == block_states.palette@.len() && (forall|p: int|
            0 <= p < r@.len() ==> r@[p] as int == count_matching(
                block_states.unpacked_view(),
                p,
            )),
{
    if block_states.data.is_none() {
        let mut r: Vec<u64> = Vec::new();
        r.push(4096);
        proof {
            assert(r@ =~= seq![4096u64]);
        }
        return r;
    }
    let indices = block_states.unpack_data();
    let ghost iv = indices@;
    let plen = block_states.palette.len();
    let mut dist: Vec<u64> = Vec::new();
    let mut p: usize = 0;
    while p < plen
        invariant
            p <= plen,
            dist@.len() == p,
            forall|q: int| 0 <= q < p ==> dist@[q] == 0u64,
        decreases plen - p,
    {
        dist.push(0);
        p += 1;
    }
    let n = indices.len();
    let mut i: usize = 0;
    proof {
        assert(iv.take(0) =~= Seq::<u16>::empty());
        assert forall|q: int| 0 <= q < plen implies dist@[q] as int == count_matching(
            iv.take(0),
            q,
        ) by {
            reveal_with_fuel(Seq::filter, 2);
        };
    }
    while i < n
        invariant
            n == iv.len(),
            indices@ == iv,
            i <= n,
            dist@.len() == plen,
            forall|q: int| 0 <= q < plen ==> dist@[q] as int == count_matching(iv.take(i as int), q),
        decreases n - i,
    {
        let v = indices[i];
        let ghost dist0 = dist@;
        proof {
            assert(iv.take(i + 1).drop_last() =~= iv.take(i as int));
            assert(iv.take(i + 1).last() == iv[i as int]);
            reveal_with_fuel(Seq::filter, 2);
            assert forall|q: int| 0 <= q < plen implies count_matching(iv.take(i + 1), q) == (
            if iv[i as int] as int == q {
                count_matching(iv.take(i as int), q) + 1
            } else {
                count_matching(iv.take(i as int), q)
            }) by {
                let pred = |x: u16| x as int == q;
                assert(iv.take(i + 1).filter(pred) == if pred(iv[i as int]) {
                    iv.take(i as int).filter(pred).push(iv[i as int])
                } else {
                    iv.take(i as int).filter(pred)
                });
            };
            assert forall|q: int| 0 <= q < plen implies count_matching(iv.take(i as int), q)
                < usize::MAX by {
                iv.take(i as int).lemma_filter_len(|x: u16| x as int == q);
            };
        }
        if (v as usize) < plen {
            let idx = v as usize;
            let old_count = dist[idx];
            dist.set(idx, old_count + 1);
            proof {
                assert forall|q: int| 0 <= q < plen implies dist@[q] as int == count_matching(
                    iv.take(i + 1),
                    q,
                ) by {
                    if q != idx {
                        assert(dist@[q] == dist0[q]);
                    }
                };
            }
        } else {
            proof {
                assert forall|q: int| 0 <= q < plen implies dist@[q] as int == count_matching(
                    iv.take(i + 1),
                    q,
                ) by {
                    assert(iv[i as int] as int != q);
                };
            }
        }
        i += 1;
    }
    proof {
        assert(iv.take(n as int) =~= iv);
    }
    dist
}

/// A counter of block names: name-count pairs with no name twice.
#[derive(Debug)]
pub struct BlockCounter {
    pub entries: Vec<(String, u64)>,
}

/// The count recorded for a name: the first matching entry, or 0.
pub open spec fn lookup(es: Seq<(String, u64)>, name: Seq<char>) -> u64
    decreases es.len(),
{
    if es.len() == 0 {
        0u64
    } else if es.first().0@ == name {
        es.first().1
    } else {
        lookup(es.drop_first(), name)
    }
}

fn str_eq(a: &str, b: &str) -> (r: bool)
    ensures
        r == (a@ == b@),
{
    crate::chunk_format::string_slices_equal(a, b)
}

impl BlockCounter {
    /// No name appears twice.
    pub open spec fn wf(&self) -> bool {
        forall|i: int, j: int|
            0 <= i < j < self.entries@.len() ==> (#[trigger] self.entries@[i]).0@ != (
            #[trigger] self.entries@[j]).0@
    }

    pub fn new() -> (r: BlockCounter)
        ensures
            r.wf(),
            forall|name: Seq<char>| lookup(r.entries@, name) == 0u64,
    {
        BlockCounter { entries: Vec::new() }
    }

    /// The count recorded for a name.
    pub fn get(&self, name: &str) -> (r: u64)
        ensures
            r == lookup(self.entries@, name@),
    {
        let n = self.entries.len();
        let mut i: usize = 0;
        proof {
            assert(self.entries@.skip(0) =~= self.entries@);
        }
        while i < n
            invariant
                n == self.entries@.len(),
                i <= n,
                lookup(self.entries@, name@) == lookup(self.entries@.skip(i as int), name@),
            decreases n - i,
        {
            proof {
                assert(self.entries@.skip(i as int).first() == self.entries@[i as int]);
                assert(self.entries@.skip(i as int).drop_first() =~= self.entries@.skip(i + 1));
            }
            if str_eq(self.entries[i].0.as_str(), name) {
                return self.entries[i].1;
            }
            i += 1;
        }
        proof {
            assert(self.entries@.skip(n as int) =~= Seq::<(String, u64)>::empty());
        }
        0
    }

    /// Adds `count` to a name's tally, saturating at the largest count; all
    /// other names keep their tallies.
    pub fn add(&mut self, name: &str, count: u64)
        requires
            old(self).wf(),
        ensures
            final(self).wf(),
            lookup(final(self).entries@, name@) == (if lookup(old(self).entries@, name@)
                <= u64::MAX - count {
                (lookup(old(self).entries@, name@) + count) as u64
            } else {
                u64::MAX
            }),
            forall|other: Seq<char>|
                other != name@ ==> lookup(final(self).entries@, other) == lookup(
                    old(self).entries@,
                    other,
                ),
    {
        let n = self.entries.len();
        let mut i: usize = 0;
        while i < n
            invariant
                old(self).wf(),
                *self == *old(self),
                n == self.entries@.len(),
                i <= n,
                forall|k: int| 0 <= k < i ==> (#[trigger] self.entries@[k]).0@ != name@,
            decreases n - i,
        {
            if str_eq(self.entries[i].0.as_str(), name) {
                let old_count = self.entries[i].1;
                let new_count = if old_count <= u64::MAX - count {
                    old_count + count
                } else {
                    u64::MAX
                };
                let key = self.entries[i].0.clone();
                self.entries.set(i, (key, new_count));
                proof {
                    lemma_lookup_at(old(self).entries@, i as int, name@);
                    lemma_lookup_set(old(self).entries@, self.entries@, i as int, name@,
                        new_count);
                }
                return ;
            }
            i += 1;
        }
        let owned = name.to_owned();
        self.entries.push((owned, count));
        proof {
            lemma_lookup_absent(old(self).entries@, name@);
            lemma_lookup_append(old(self).entries@, self.entries@, name@, count);
            assert forall|a: int, b: int| 0 <= a < b < self.entries@.len() implies (
            #[trigger] self.entries@[a]).0@ != (#[trigger] self.entries@[b]).0@ by {
                if b == self.entries@.len() - 1 {
                    assert(self.entries@[a] == old(self).entries@[a]);
                }
            };
        }
    }
}

/// The count looked up is the first entry that carries the name.
proof fn lemma_lookup_at(es: Seq<(String, u64)>, i: int, name: Seq<char>)
    requires
        0 <= i < es.len(),
        forall|k: int| 0 <= k < i ==> (#[trigger] es[k]).0@ != name,
        es[i].0@ == name,
    ensures
        lookup(es, name) == es[i].1,
    decreases i,
{
    if i > 0 {
        assert(es.first().0@ != name);
        assert forall|k: int| 0 <= k < i - 1 implies (#[trigger] es.drop_first()[k]).0@
            != name by {
            assert(es.drop_first()[k] == es[k + 1]);
        };
        assert(es.drop_first()[i - 1] == es[i]);
        lemma_lookup_at(es.drop_first(), i - 1, name);
    }
}

/// A name no entry carries counts zero.
proof fn lemma_lookup_absent(es: Seq<(String, u64)>, name: Seq<char>)
    requires
        forall|k: int| 0 <= k < es.len() ==> (#[trigger] es[k]).0@ != name,
    ensures
        lookup(es, name) == 0,
    decreases es.len(),
{
    if es.len() > 0 {
        assert forall|k: int| 0 <= k < es.drop_first().len() implies (
        #[trigger] es.drop_first()[k]).0@ != name by {
            assert(es.drop_first()[k] == es[k + 1]);
        };
        lemma_lookup_absent(es.drop_first(), name);
    }
}

/// Updating the first entry that carries a name changes that name's count
/// and no other.
proof fn lemma_lookup_set(
    old_es: Seq<(String, u64)>, new_es: Seq<(String, u64)>, i: int, name: Seq<char>, v: u64,
)
    requires
        0 <= i < old_es.len(),
        new_es.len() == old_es.len(),
        forall|k: int| 0 <= k < old_es.len() && k != i ==> new_es[k] == old_es[k],
        forall|k: int| 0 <= k < i ==> (#[trigger] old_es[k]).0@ != name,
        old_es[i].0@ == name,
        new_es[i].0@ == name,
        new_es[i].1 == v,
    ensures
        lookup(new_es, name) == v,
        forall|other: Seq<char>| other != name ==> lookup(new_es, other) == lookup(
            old_es,
            other,
        ),
    decreases old_es.len(),
{
    if i == 0 {
        assert forall|other: Seq<char>| other != name implies lookup(new_es, other) == lookup(
            old_es,
            other,
        ) by {
            assert(new_es.drop_first() =~= old_es.drop_first());
        };
    } else {
        assert(new_es.first() == old_es.first());
        assert(old_es.first().0@ != name);
        assert forall|k: int| 0 <= k < old_es.drop_first().len() && k != i - 1 implies
            new_es.drop_first()[k] == old_es.drop_first()[k] by {
            assert(new_es[k + 1] == old_es[k + 1]);
        };
        assert forall|k: int| 0 <= k < i - 1 implies (
        #[trigger] old_es.drop_first()[k]).0@ != name by {
            assert(old_es.drop_first()[k] == old_es[k + 1]);
        };
        lemma_lookup_set(old_es.drop_first(), new_es.drop_first(), i - 1, name, v);
        assert forall|other: Seq<char>| other != name implies lookup(new_es, other) == lookup(
            old_es,
            other,
        ) by {
            if new_es.first().0@ != other {
                assert(lookup(new_es, other) == lookup(new_es.drop_first(), other));
                assert(lookup(old_es, other) == lookup(old_es.drop_first(), other));
            }
        };
    }
}

/// Appending an entry for a name that was absent sets that name's count
/// and no other.
proof fn lemma_lookup_append(
    old_es: Seq<(String, u64)>, new_es: Seq<(String, u64)>, name: Seq<char>, v: u64,
)
    requires
        new_es.len() == old_es.len() + 1,
        forall|k: int| 0 <= k < old_es.len() ==> new_es[k] == old_es[k],
        forall|k: int| 0 <= k < old_es.len() ==> (#[trigger] old_es[k]).0@ != name,
        new_es.last().0@ == name,
        new_es.last().1 == v,
    ensures
        lookup(new_es, name) == v,
        forall|other: Seq<char>| other != name ==> lookup(new_es, other) == lookup(
            old_es,
            other,
        ),
    decreases old_es.len(),
{
    if old_es.len() == 0 {
        assert(new_es.len() == 1);
        assert(new_es.first() == new_es[0]);
        assert(new_es.last() == new_es[0]);
        assert forall|other: Seq<char>| other != name implies lookup(new_es, other) == lookup(
            old_es,
            other,
        ) by {
            reveal_with_fuel(lookup, 3);
            assert(new_es.drop_first() =~= Seq::<(String, u64)>::empty());
            assert(lookup(new_es.drop_first(), other) == 0);
        };
    } else {
        assert(new_es.first() == old_es.first());
        assert(old_es.first().0@ != name);
        assert(new_es.drop_first().last() == new_es.last());
        assert forall|k: int| 0 <= k < old_es.drop_first().len() implies
            new_es.drop_first()[k] == old_es.drop_first()[k] by {
            assert(new_es[k + 1] == old_es[k + 1]);
        };
        assert forall|k: int| 0 <= k < old_es.drop_first().len() implies (
        #[trigger] old_es.drop_first()[k]).0@ != name by {
            assert(old_es.drop_first()[k] == old_es[k + 1]);
        };
        lemma_lookup_append(old_es.drop_first(), new_es.drop_first(), name, v);
        assert forall|other: Seq<char>| other != name implies lookup(new_es, other) == lookup(
            old_es,
            other,
        ) by {
            if new_es.first().0@ != other {
                assert(lookup(new_es, other) == lookup(new_es.drop_first(), other));
                assert(lookup(old_es, other) == lookup(old_es.drop_first(), other));
            }
        };
    }
}

/// Addition that stops at the largest count instead of wrapping.
pub open spec fn sat_add(a: u64, b: u64) -> u64 {
    if a <= u64::MAX - b {
        (a + b) as u64
    } else {
        u64::MAX
    }
}

/// Saturating addition reassociates.
pub proof fn lemma_sat_add_assoc(a: u64, b: u64, c: u64)
    ensures
        sat_add(sat_add(a, b), c) == sat_add(a, sat_add(b, c)),
{
}

/// The count a section's distribution records for palette position `p`.
pub open spec fn dist_count(bs: &BlockStates, p: int) -> u64 {
    if bs.data is None {
        if p == 0 {
            4096u64
        } else {
            0u64
        }
    } else {
        count_matching(bs.unpacked_view(), p) as u64
    }
}

/// How many palette positions a section's distribution covers: with no
/// packed data only the first entry, if there is one; otherwise all.
pub open spec fn dist_width(bs: &BlockStates) -> int {
    if bs.data is None {
        if bs.palette@.len() == 0 {
            0
        } else {
            1
        }
    } else {
        bs.palette@.len() as int
    }
}

/// The tally a name collects from the first `upto` palette positions of
/// one section's block states.
pub open spec fn palette_total(bs: &BlockStates, upto: int, name: Seq<char>) -> u64
    decreases upto,
{
    if upto <= 0 {
        0u64
    } else {
        let prev = palette_total(bs, upto - 1, name);
        if bs.palette@[upto - 1].name@ == name {
            sat_add(prev, dist_count(bs, upto - 1))
        } else {
            prev
        }
    }
}

/// The tally a name collects from one section.
pub open spec fn section_total(s: &Section, name: Seq<char>) -> u64 {
    match s.block_states {
        None => 0u64,
        Some(bs) => palette_total(&bs, dist_width(&bs), name),
    }
}

/// The tally a name collects from a run of sections.
pub open spec fn sections_total(ss: Seq<Section>, name: Seq<char>) -> u64
    decreases ss.len(),
{
    if ss.len() == 0 {
        0u64
    } else {
        sat_add(sections_total(ss.drop_last(), name), section_total(&ss.last(), name))
    }
}

/// The distribution of block names across all of a chunk's sections: every
/// name's tally is the sum, over the sections that carry block states, of
/// that name's counts in the section's distribution. The aggregation is
/// plain (saturating) addition per name, so it is commutative and
/// associative and tolerates any section order.
#[verifier::loop_isolation(false)]
pub fn chunk(source: &Chunk) -> (r: BlockCounter)
    ensures
        r.wf(),
        forall|name: Seq<char>| #[trigger] lookup(r.entries@, name) == sections_total(
            source.sections@,
            name,
        ),
{
    let mut counter = BlockCounter::new();
    let n = source.sections.len();
    let mut i: usize = 0;
    while i < n
        invariant
            counter.wf(),
            i <= n,
            forall|name: Seq<char>| #[trigger] lookup(counter.entries@, name)
                == sections_total(source.sections@.take(i as int), name),
        decreases n - i,
    {
        let ghost sections = source.sections@;
        let section = &source.sections[i];
        match &section.block_states {
            Some(bs) => {
                let counts = distribution(bs);
                let m = if counts.len() < bs.palette.len() {
                    counts.len()
                } else {
                    bs.palette.len()
                };
                proof {
                    assert(m == dist_width(bs));
                }
                let mut p: usize = 0;
                while p < m
                    invariant
                        counter.wf(),
                        i < n,
                        m == dist_width(bs),
                        m <= counts@.len(),
                        m <= bs.palette@.len(),
                        p <= m,
                        bs.data is Some ==> forall|q: int|
                            0 <= q < counts@.len() ==> counts@[q] as int == count_matching(
                                bs.unpacked_view(),
                                q,
                            ),
                        bs.data is None ==> counts@ == seq![4096u64],
                        forall|name: Seq<char>| #[trigger] lookup(counter.entries@, name)
                            == sat_add(
                            sections_total(sections.take(i as int), name),
                            palette_total(bs, p as int, name),
                        ),
                    decreases m - p,
                {
                    let ghost before = counter.entries@;
                    let ghost name0 = bs.palette@[p as int].name@;
                    proof {
                        assert(counts@[p as int] == dist_count(bs, p as int));
                    }
                    counter.add(bs.palette[p].name.as_str(), counts[p]);
                    proof {
                        assert forall|name: Seq<char>| #[trigger] lookup(counter.entries@,
                            name) == sat_add(
                            sections_total(sections.take(i as int), name),
                            palette_total(bs, p + 1, name),
                        ) by {
                            lemma_sat_add_assoc(
                                sections_total(sections.take(i as int), name),
                                palette_total(bs, p as int, name),
                                dist_count(bs, p as int),
                            );
                            if name != name0 {
                                assert(lookup(counter.entries@, name) == lookup(before, name));
                            }
                        };
                    }
                    p += 1;
                }
                proof {
                    assert(sections.take(i + 1).drop_last() =~= sections.take(i as int));
                    assert(sections.take(i + 1).last() == sections[i as int]);
                    assert forall|name: Seq<char>| #[trigger] lookup(counter.entries@, name)
                        == sections_total(sections.take(i + 1), name) by {
                        assert(section_total(&sections[i as int], name) == palette_total(bs,
                            m as int, name));
                    };
                }
            },
            None => {
                proof {
                    assert(sections.take(i + 1).drop_last() =~= sections.take(i as int));
                    assert(sections.take(i + 1).last() == sections[i as int]);
                    assert forall|name: Seq<char>| #[trigger] lookup(counter.entries@, name)
                        == sections_total(sections.take(i + 1), name) by {
                        assert(section_total(&sections[i as int], name) == 0);
                        assert(sat_add(sections_total(sections.take(i as int), name), 0)
                            == sections_total(sections.take(i as int), name));
                    };
                }
            },
        }
        i += 1;
    }
    proof {
        assert(source.sections@.take(n as int) =~= source.sections@);
    }
    counter
}

} // verus!
