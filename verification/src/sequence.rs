//! Per-product sequence-number checking: within one file each product's
//! sequence numbers must advance by one, and across consecutive files the
//! first number of a product must follow the last one of the file before.

use vstd::prelude::*;

verus! {

/// The first and last sequence number seen for one product.
#[derive(Copy, Clone, Debug, PartialEq, Eq, Structural)]
pub struct SeqRange {
    pub begin: u64,
    pub end: u64,
}

/// The part of a feed message that sequence checking reads.
pub struct Message {
    pub sequence: u64,
    pub product_id: String,
}

/// What one message meant for its product's sequence.
#[derive(Debug, PartialEq, Eq, Structural)]
pub enum SeqEvent {
    /// The number follows the last one seen.
    InOrder,
    /// First message of this product.
    NewProduct,
    /// Numbers between `last` and `next` are missing.
    Skipped { last: u64, next: u64 },
}

/// Index of the entry for this product, searching from the youngest entry;
/// `-1` when the product is unseen.
pub open spec fn find_product(es: Seq<(String, SeqRange)>, id: Seq<char>) -> int
    decreases es.len(),
{
    if es.len() == 0 {
        -1
    } else if es.last().0@ == id {
        es.len() - 1
    } else {
        find_product(es.drop_last(), id)
    }
}

proof fn lemma_find_product_props(es: Seq<(String, SeqRange)>, id: Seq<char>)
    ensures
        find_product(es, id) == -1 ==> forall|i: int| 0 <= i < es.len() ==> (#[trigger] es[i].0@)
            != id,
        find_product(es, id) != -1 ==> 0 <= find_product(es, id) < es.len() && es[find_product(
            es,
            id,
        )].0@ == id,
    decreases es.len(),
{
    if es.len() > 0 && es.last().0@ != id {
        lemma_find_product_props(es.drop_last(), id);
        if find_product(es, id) == -1 {
            assert forall|i: int| 0 <= i < es.len() implies (#[trigger] es[i].0@) != id by {
                if i < es.len() - 1 {
                    assert(es.drop_last()[i] == es[i]);
                }
            }
        }
    }
}

/// Tracks one `SeqRange` per product over a stream of messages.
pub struct SeqChecker {
    products: Vec<(String, SeqRange)>,
}

impl SeqChecker {
    /// The recorded per-product ranges, in order of first sight.
    pub closed spec fn entries(self) -> Seq<(String, SeqRange)> {
        self.products@
    }

    pub open spec fn spec_has(self, id: Seq<char>) -> bool {
        find_product(self.entries(), id) >= 0
    }

    pub open spec fn spec_range(self, id: Seq<char>) -> SeqRange {
        self.entries()[find_product(self.entries(), id)].1
    }

    /// Products are recorded at most once.
    pub open spec fn wf(self) -> bool {
        forall|a: int, b: int|
            0 <= a < b < self.entries().len() ==> (#[trigger] self.entries()[a].0@) != (
            #[trigger] self.entries()[b].0@)
    }

    pub fn new() -> (r: SeqChecker)
        ensures
            r.wf(),
            r.entries() == Seq::<(String, SeqRange)>::empty(),
            forall|id: Seq<char>| !r.spec_has(id),
    {
        SeqChecker { products: Vec::new() }
    }

    /// Backward scan for the entry of `id`; agrees with `find_product`.
    fn find_idx(&self, id: &String) -> (r: Option<usize>)
        ensures
            (match r {
                Some(i) => i < self.products@.len() && i as int == find_product(
                    self.entries(),
                    id@,
                ),
                None => find_product(self.entries(), id@) == -1,
            }),
    {
        let n = self.products.len();
        let mut i: usize = n;
        proof {
            assert(self.entries().take(n as int) =~= self.entries());
        }
        while i > 0
            invariant
                i <= n,
                n == self.products@.len(),
                find_product(self.entries(), id@) == find_product(
                    self.entries().take(i as int),
                    id@,
                ),
            decreases i,
        {
            i = i - 1;
            proof {
                assert(self.entries().take(i + 1).last() == self.entries()[i as int]);
                assert(self.entries().take(i + 1).drop_last() =~= self.entries().take(i as int));
            }
            if self.products[i].0 == *id {
                return Some(i);
            }
        }
        None
    }

    /// Feeds one message: a fresh product starts its range at the message's
    /// number; a known product advances its range's end to it, and the
    /// event says whether numbers were skipped.
    pub fn update(&mut self, m: &Message) -> (ev: SeqEvent)
        requires
            old(self).wf(),
        ensures
            final(self).wf(),
            forall|id2: Seq<char>|
                id2 != m.product_id@ ==> #[trigger] final(self).spec_has(id2)
                    == old(self).spec_has(id2),
            forall|id2: Seq<char>|
                id2 != m.product_id@ && old(self).spec_has(id2)
                    ==> #[trigger] final(self).spec_range(id2) == old(self).spec_range(id2),
            final(self).spec_has(m.product_id@),
            old(self).spec_has(m.product_id@) ==> {
                &&& final(self).spec_range(m.product_id@) == (SeqRange {
                    begin: old(self).spec_range(m.product_id@).begin,
                    end: m.sequence,
                })
                &&& final(self).entries().len() == old(self).entries().len()
                &&& ev == (if old(self).spec_range(m.product_id@).end + 1 == m.sequence {
                    SeqEvent::InOrder
                } else {
                    (SeqEvent::Skipped {
                        last: old(self).spec_range(m.product_id@).end,
                        next: m.sequence,
                    })
                })
            },
            !old(self).spec_has(m.product_id@) ==> {
                &&& final(self).spec_range(m.product_id@) == (SeqRange {
                    begin: m.sequence,
                    end: m.sequence,
                })
                &&& final(self).entries().len() == old(self).entries().len() + 1
                &&& ev == SeqEvent::NewProduct
            },
    {
        let ghost old_entries = self.entries();
        match self.find_idx(&m.product_id) {
            Some(i) => {
                proof {
                    lemma_find_product_props(old_entries, m.product_id@);
                }
                let last_sequence = self.products[i].1.end;
                self.products[i].1.end = m.sequence;
                proof {
                    assert(self.entries() == old_entries.update(
                        i as int,
                        (old_entries[i as int].0, (SeqRange {
                            begin: old_entries[i as int].1.begin,
                            end: m.sequence,
                        })),
                    ));
                    assert(forall|x: int|
                        0 <= x < self.entries().len() ==> (#[trigger] self.entries()[x].0) == (
                        old_entries[x].0));
                    assert forall|id2: Seq<char>| #[trigger] find_product(self.entries(), id2)
                        == find_product(old_entries, id2) by {
                        lemma_find_product_congruent(old_entries, self.entries(), id2);
                    }
                    assert forall|id2: Seq<char>|
                        id2 != m.product_id@ && find_product(old_entries, id2) >= 0 implies (
                    #[trigger] self.entries()[find_product(old_entries, id2)]).1 == old_entries[
                        find_product(old_entries, id2)].1 by {
                        lemma_find_product_props(old_entries, id2);
                        assert(old_entries[i as int].0@ == m.product_id@);
                        assert(find_product(old_entries, id2) != i);
                    }
                }
                if last_sequence < u64::MAX && last_sequence + 1 == m.sequence {
                    SeqEvent::InOrder
                } else {
                    SeqEvent::Skipped { last: last_sequence, next: m.sequence }
                }
            },
            None => {
                proof {
                    lemma_find_product_props(old_entries, m.product_id@);
                }
                let id = m.product_id.clone();
                self.products.push((id, SeqRange { begin: m.sequence, end: m.sequence }));
                proof {
                    assert(self.entries().drop_last() =~= old_entries);
                    assert(self.entries().last().0@ == m.product_id@);
                    assert forall|id2: Seq<char>| id2 != m.product_id@ implies #[trigger]
                        find_product(self.entries(), id2) == find_product(old_entries, id2) by {
                        assert(self.entries().last().0@ != id2);
                    }
                    assert forall|id2: Seq<char>|
                        id2 != m.product_id@ && find_product(old_entries, id2) >= 0 implies (
                    #[trigger] self.entries()[find_product(old_entries, id2)]).1 == old_entries[
                        find_product(old_entries, id2)].1 by {
                        lemma_find_product_props(old_entries, id2);
                    }
                    assert forall|a: int, b: int|
                        0 <= a < b < self.entries().len() implies (#[trigger] self.entries()[a].0@)
                        != (#[trigger] self.entries()[b].0@) by {
                        if b == self.entries().len() - 1 {
                            assert(self.entries()[a] == old_entries[a]);
                            assert(old_entries[a].0@ != m.product_id@);
                        } else {
                            assert(self.entries()[a] == old_entries[a]);
                            assert(self.entries()[b] == old_entries[b]);
                        }
                    }
                }
                SeqEvent::NewProduct
            },
        }
    }

    /// Hands out the recorded ranges.
    pub fn into_ranges(self) -> (r: Vec<(String, SeqRange)>)
        ensures
            r@ == self.entries(),
    {
        self.products
    }
}

proof fn lemma_find_product_congruent(
    es1: Seq<(String, SeqRange)>,
    es2: Seq<(String, SeqRange)>,
    id: Seq<char>,
)
    requires
        es1.len() == es2.len(),
        forall|i: int| 0 <= i < es1.len() ==> (#[trigger] es1[i].0) == es2[i].0,
    ensures
        find_product(es1, id) == find_product(es2, id),
    decreases es1.len(),
{
    if es1.len() > 0 {
        lemma_find_product_congruent(es1.drop_last(), es2.drop_last(), id);
    }
}

/// One finding of the comparison of two consecutive files; `second_file`
/// is the index of the later file of the pair.
#[derive(Debug, PartialEq, Eq)]
pub enum CrossFileReport {
    /// Sequence numbers are missing between the two files.
    Gap { second_file: usize, product: String, end_seq: u64, begin_seq: u64 },
    /// The product appears only in the later file.
    NewProduct { second_file: usize, product: String },
    /// The product appears only in the earlier file.
    Terminated { second_file: usize, product: String },
}

/// What the entry `e` of the earlier file yields against the later file
/// `b`: a gap if the product continues with the wrong number, a termination
/// if it is gone, nothing otherwise.
pub open spec fn report_for(
    e: (String, SeqRange),
    b: Seq<(String, SeqRange)>,
    f: usize,
) -> Seq<CrossFileReport> {
    let k = find_product(b, e.0@);
    if k < 0 {
        seq![(CrossFileReport::Terminated { second_file: f, product: e.0 })]
    } else if e.1.end + 1 != b[k].1.begin {
        seq![
            (CrossFileReport::Gap {
                second_file: f,
                product: e.0,
                end_seq: e.1.end,
                begin_seq: b[k].1.begin,
            }),
        ]
    } else {
        Seq::<CrossFileReport>::empty()
    }
}

/// The gap and termination findings for one pair of files, in the earlier
/// file's product order.
pub open spec fn pair_gap_reports(
    a: Seq<(String, SeqRange)>,
    b: Seq<(String, SeqRange)>,
    f: usize,
) -> Seq<CrossFileReport>
    decreases a.len(),
{
    if a.len() == 0 {
        Seq::<CrossFileReport>::empty()
    } else {
        pair_gap_reports(a.drop_last(), b, f) + report_for(a.last(), b, f)
    }
}

/// The products that are new in the later file, in its product order.
pub open spec fn new_product_reports(
    a: Seq<(String, SeqRange)>,
    b: Seq<(String, SeqRange)>,
    f: usize,
) -> Seq<CrossFileReport>
    decreases b.len(),
{
    if b.len() == 0 {
        Seq::<CrossFileReport>::empty()
    } else {
        new_product_reports(a, b.drop_last(), f) + (if find_product(a, b.last().0@) < 0 {
            seq![(CrossFileReport::NewProduct { second_file: f, product: b.last().0 })]
        } else {
            Seq::<CrossFileReport>::empty()
        })
    }
}

/// All findings for one pair of consecutive files.
pub open spec fn pair_reports(
    a: Seq<(String, SeqRange)>,
    b: Seq<(String, SeqRange)>,
    f: usize,
) -> Seq<CrossFileReport> {
    pair_gap_reports(a, b, f) + new_product_reports(a, b, f)
}

/// All findings over the per-file range tables, pair by consecutive pair.
pub open spec fn join_reports(rs: Seq<Seq<(String, SeqRange)>>) -> Seq<CrossFileReport>
    decreases rs.len(),
{
    if rs.len() <= 1 {
        Seq::<CrossFileReport>::empty()
    } else {
        join_reports(rs.drop_last()) + pair_reports(
            rs[rs.len() - 2],
            rs[rs.len() - 1],
            (rs.len() - 1) as usize,
        )
    }
}

/// The per-file tables as mathematical sequences.
pub open spec fn tables_view(ranges: Seq<Vec<(String, SeqRange)>>) -> Seq<
    Seq<(String, SeqRange)>,
> {
    ranges.map(|x: int, v: Vec<(String, SeqRange)>| v@)
}

/// Backward scan for the entry of `id`; agrees with `find_product`.
fn find_range_idx(es: &Vec<(String, SeqRange)>, id: &String) -> (r: Option<usize>)
    ensures
        (match r {
            Some(i) => i < es@.len() && i as int == find_product(es@, id@),
            None => find_product(es@, id@) == -1,
        }),
{
    let n = es.len();
    let mut i: usize = n;
    proof {
        assert(es@.take(n as int) =~= es@);
    }
    while i > 0
        invariant
            i <= n,
            n == es@.len(),
            find_product(es@, id@) == find_product(es@.take(i as int), id@),
        decreases i,
    {
        i = i - 1;
        proof {
            assert(es@.take(i + 1).last() == es@[i as int]);
            assert(es@.take(i + 1).drop_last() =~= es@.take(i as int));
        }
        if es[i].0 == *id {
            return Some(i);
        }
    }
    None
}

/// Compares each file's ranges with the next file's: a product whose
/// numbers do not continue exactly is a gap; one that disappears or newly
/// appears is reported as terminated or new rather than as a gap.  The file
/// list is expected in ascending (time) order.
pub fn cross_file_reports(ranges: &Vec<Vec<(String, SeqRange)>>) -> (r: Vec<CrossFileReport>)
    ensures
        r@ == join_reports(tables_view(ranges@)),
{
    let ghost rv = tables_view(ranges@);
    let mut out: Vec<CrossFileReport> = Vec::new();
    let n = ranges.len();
    if n < 2 {
        proof {
            assert(out@ =~= join_reports(rv));
        }
        return out;
    }
    let mut i: usize = 1;
    proof {
        assert(join_reports(rv.take(1)) =~= Seq::<CrossFileReport>::empty());
        assert(out@ =~= join_reports(rv.take(1)));
    }
    while i < n
        invariant
            1 <= i <= n,
            n == ranges@.len(),
            rv == tables_view(ranges@),
            rv.len() == n,
            out@ == join_reports(rv.take(i as int)),
        decreases n - i,
    {
        let ghost av = rv[i - 1];
        let ghost bv = rv[i as int];
        proof {
            assert(av == ranges@[i - 1]@);
            assert(bv == ranges@[i as int]@);
        }
        let mut j: usize = 0;
        proof {
            assert(av.take(0) =~= Seq::<(String, SeqRange)>::empty());
            assert(out@ =~= join_reports(rv.take(i as int)) + pair_gap_reports(
                av.take(0),
                bv,
                i,
            ));
        }
        while j < ranges[i - 1].len()
            invariant
                1 <= i < n,
                n == ranges@.len(),
                rv == tables_view(ranges@),
                rv.len() == n,
                av == ranges@[i - 1]@,
                bv == ranges@[i as int]@,
                j <= av.len(),
                out@ == join_reports(rv.take(i as int)) + pair_gap_reports(av.take(j as int), bv, i),
            decreases av.len() - j,
        {
            let e_end = ranges[i - 1][j].1.end;
            let report = match find_range_idx(&ranges[i], &ranges[i - 1][j].0) {
                None => Some(
                    CrossFileReport::Terminated {
                        second_file: i,
                        product: ranges[i - 1][j].0.clone(),
                    },
                ),
                Some(k) => {
                    let b_begin = ranges[i][k].1.begin;
                    if e_end == u64::MAX || e_end + 1 != b_begin {
                        Some(
                            CrossFileReport::Gap {
                                second_file: i,
                                product: ranges[i - 1][j].0.clone(),
                                end_seq: e_end,
                                begin_seq: b_begin,
                            },
                        )
                    } else {
                        None
                    }
                },
            };
            proof {
                assert(av.take(j + 1).drop_last() =~= av.take(j as int));
                assert(av.take(j + 1).last() == av[j as int]);
            }
            match report {
                Some(rep) => {
                    out.push(rep);
                    proof {
                        assert(report_for(av[j as int], bv, i).len() == 1);
                        assert(out@ =~= join_reports(rv.take(i as int)) + pair_gap_reports(
                            av.take(j + 1),
                            bv,
                            i,
                        ));
                    }
                },
                None => {
                    proof {
                        assert(report_for(av[j as int], bv, i).len() == 0);
                        assert(out@ =~= join_reports(rv.take(i as int)) + pair_gap_reports(
                            av.take(j + 1),
                            bv,
                            i,
                        ));
                    }
                },
            }
            j = j + 1;
        }
        proof {
            assert(av.take(av.len() as int) =~= av);
        }
        let mut l: usize = 0;
        proof {
            assert(bv.take(0) =~= Seq::<(String, SeqRange)>::empty());
            assert(new_product_reports(av, bv.take(0), i) =~= Seq::<CrossFileReport>::empty());
            assert(out@ =~= join_reports(rv.take(i as int)) + pair_gap_reports(av, bv, i)
                + new_product_reports(av, bv.take(0), i));
        }
        while l < ranges[i].len()
            invariant
                1 <= i < n,
                n == ranges@.len(),
                rv == tables_view(ranges@),
                rv.len() == n,
                av == ranges@[i - 1]@,
                bv == ranges@[i as int]@,
                l <= bv.len(),
                out@ == join_reports(rv.take(i as int)) + pair_gap_reports(av, bv, i)
                    + new_product_reports(av, bv.take(l as int), i),
            decreases bv.len() - l,
        {
            let is_new = match find_range_idx(&ranges[i - 1], &ranges[i][l].0) {
                None => true,
                Some(_) => false,
            };
            proof {
                assert(bv.take(l + 1).drop_last() =~= bv.take(l as int));
                assert(bv.take(l + 1).last() == bv[l as int]);
            }
            if is_new {
                out.push(
                    CrossFileReport::NewProduct { second_file: i, product: ranges[i][l].0.clone() },
                );
            }
            proof {
                assert(out@ =~= join_reports(rv.take(i as int)) + pair_gap_reports(av, bv, i)
                    + new_product_reports(av, bv.take(l + 1), i));
            }
            l = l + 1;
        }
        proof {
            assert(bv.take(bv.len() as int) =~= bv);
            assert(rv.take(i + 1).drop_last() =~= rv.take(i as int));
            assert(rv.take(i + 1)[i - 1] == av);
            assert(rv.take(i + 1)[i as int] == bv);
            assert(out@ =~= join_reports(rv.take(i + 1)));
        }
        i = i + 1;
    }
    proof {
        assert(rv.take(n as int) =~= rv);
    }
    out
}

} // verus!
